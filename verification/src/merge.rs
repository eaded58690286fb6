use crate::region::{lemma_union_fits, lemma_union_wf, RegionView};
use vstd::prelude::*;
use vstd::set_lib::{lemma_len_subset, lemma_int_range, set_int_range};

verus! {

/// Vertical tolerance between two regions: two fifths of the smaller height,
/// rounded down.
pub open spec fn vertical_slack(a: RegionView, b: RegionView) -> int {
    let min_height = if a.height <= b.height { a.height } else { b.height };
    (2 * min_height) / 5
}

/// Whether the horizontal spans of two regions, each widened by `threshold`
/// on both sides, overlap.
pub open spec fn horizontally_near(a: RegionView, b: RegionView, threshold: int) -> bool {
    !(a.right() + threshold < b.left - threshold || b.right() + threshold < a.left - threshold)
}

/// Whether the upper of two regions reaches down to the top of the lower one,
/// up to the vertical tolerance.
pub open spec fn vertically_close(a: RegionView, b: RegionView) -> bool {
    if a.top <= b.top {
        a.bottom() + vertical_slack(a, b) >= b.top
    } else {
        b.bottom() + vertical_slack(a, b) >= a.top
    }
}

/// Two regions merge when they are horizontally near and vertically close.
pub open spec fn mergeable(a: RegionView, b: RegionView, threshold: int) -> bool {
    horizontally_near(a, b, threshold) && vertically_close(a, b)
}

/// One scan of the pool: `acc` absorbs, from front to back, every region it
/// can merge with at the moment it meets it. The result is the grown region
/// and the regions that were passed over, in the order in which they stood.
pub open spec fn absorb(acc: RegionView, pool: Seq<RegionView>, threshold: int) -> (
    RegionView,
    Seq<RegionView>,
)
    decreases pool.len(),
{
    if pool.len() == 0 {
        (acc, Seq::empty())
    } else if mergeable(acc, pool[0], threshold) {
        absorb(acc.union(pool[0]), pool.drop_first(), threshold)
    } else {
        let later = absorb(acc, pool.drop_first(), threshold);
        (later.0, seq![pool[0]] + later.1)
    }
}

/// The merge of a pool of regions: the first region scans the rest; if it
/// absorbed anything it goes back to the front of the pool to be scanned
/// again, otherwise it is final and the rest is merged after it.
pub open spec fn merge_regions(pool: Seq<RegionView>, threshold: int) -> Seq<RegionView>
    decreases pool.len(),
{
    if pool.len() == 0 {
        Seq::empty()
    } else {
        let scan = absorb(pool[0], pool.drop_first(), threshold);
        if scan.1.len() + 1 < pool.len() {
            merge_regions(seq![scan.0] + scan.1, threshold)
        } else {
            seq![pool[0]] + merge_regions(pool.drop_first(), threshold)
        }
    }
}

/// No region of the sequence can merge with a later one.
pub open spec fn pairwise_unmergeable(pool: Seq<RegionView>, threshold: int) -> bool {
    forall|i: int, j: int|
        0 <= i < j < pool.len() ==> !mergeable(#[trigger] pool[i], #[trigger] pool[j], threshold)
}

/// The region lies inside some region of `outer`.
pub open spec fn enclosed_by(region: RegionView, outer: Seq<RegionView>) -> bool {
    exists|j: int| 0 <= j < outer.len() && (#[trigger] outer[j]).encloses(region)
}

/// Every region of `inner` lies inside some region of `outer`.
pub open spec fn all_enclosed(inner: Seq<RegionView>, outer: Seq<RegionView>) -> bool {
    forall|i: int| 0 <= i < inner.len() ==> enclosed_by(#[trigger] inner[i], outer)
}

/// Every region of the sequence is valid.
pub open spec fn all_wf(pool: Seq<RegionView>) -> bool {
    forall|i: int| 0 <= i < pool.len() ==> (#[trigger] pool[i]).wf()
}

/// Every region of the sequence lies inside an image of the given size.
pub open spec fn all_fit(pool: Seq<RegionView>, width: int, height: int) -> bool {
    forall|i: int| 0 <= i < pool.len() ==> (#[trigger] pool[i]).fits_within(width, height)
}

/// Mergeability does not depend on the order of its two regions.
pub proof fn lemma_mergeable_symmetric(a: RegionView, b: RegionView, threshold: int)
    requires
        a.height > 0,
        b.height > 0,
    ensures
        mergeable(a, b, threshold) == mergeable(b, a, threshold),
{
}

/// A scan never lengthens the pool; it keeps the pool's length exactly when
/// nothing was absorbed, and then it changes nothing.
pub proof fn lemma_absorb_len(acc: RegionView, pool: Seq<RegionView>, threshold: int)
    ensures
        absorb(acc, pool, threshold).1.len() <= pool.len(),
        absorb(acc, pool, threshold).1.len() == pool.len() ==> absorb(acc, pool, threshold) == (
            acc,
            pool,
        ),
        absorb(acc, pool, threshold).1.len() == pool.len() <==> forall|i: int|
            0 <= i < pool.len() ==> !mergeable(acc, #[trigger] pool[i], threshold),
    decreases pool.len(),
{
    if pool.len() == 0 {
        assert(absorb(acc, pool, threshold).1 =~= pool);
    } else {
        let rest = pool.drop_first();
        if mergeable(acc, pool[0], threshold) {
            lemma_absorb_len(acc.union(pool[0]), rest, threshold);
        } else {
            lemma_absorb_len(acc, rest, threshold);
            let later = absorb(acc, rest, threshold);
            if later.1.len() == rest.len() {
                assert(seq![pool[0]] + later.1 =~= pool);
                assert forall|i: int| 0 <= i < pool.len() implies !mergeable(
                    acc,
                    #[trigger] pool[i],
                    threshold,
                ) by {
                    if i > 0 {
                        assert(pool[i] == rest[i - 1]);
                    }
                }
            } else {
                let k = choose|k: int| 0 <= k < rest.len() && mergeable(acc, rest[k], threshold);
                assert(pool[k + 1] == rest[k]);
            }
        }
    }
}


/// What a scan leaves behind: the grown region encloses the region that
/// started the scan, and every region of the pool is either passed over
/// unchanged or enclosed by the grown region.
pub proof fn lemma_absorb_encloses(acc: RegionView, pool: Seq<RegionView>, threshold: int)
    requires
        acc.wf(),
        all_wf(pool),
    ensures
        absorb(acc, pool, threshold).0.wf(),
        all_wf(absorb(acc, pool, threshold).1),
        absorb(acc, pool, threshold).0.encloses(acc),
        forall|i: int|
            0 <= i < pool.len() ==> absorb(acc, pool, threshold).0.encloses(#[trigger] pool[i])
                || absorb(acc, pool, threshold).1.contains(pool[i]),
        forall|j: int|
            0 <= j < absorb(acc, pool, threshold).1.len() ==> pool.contains(
                #[trigger] absorb(acc, pool, threshold).1[j],
            ),
    decreases pool.len(),
{
    let scan = absorb(acc, pool, threshold);
    if pool.len() > 0 {
        let rest = pool.drop_first();
        assert(pool[0].wf());
        assert forall|i: int| 0 <= i < rest.len() implies (#[trigger] rest[i]).wf() by {
            assert(rest[i] == pool[i + 1]);
        }
        if mergeable(acc, pool[0], threshold) {
            lemma_union_wf(acc, pool[0]);
            lemma_absorb_encloses(acc.union(pool[0]), rest, threshold);
            assert forall|i: int| 0 <= i < pool.len() implies scan.0.encloses(#[trigger] pool[i])
                || scan.1.contains(pool[i]) by {
                if i > 0 {
                    assert(pool[i] == rest[i - 1]);
                }
            }
            assert forall|j: int| 0 <= j < scan.1.len() implies pool.contains(
                #[trigger] scan.1[j],
            ) by {
                let k = choose|k: int| 0 <= k < rest.len() && rest[k] == scan.1[j];
                assert(pool[k + 1] == scan.1[j]);
            }
        } else {
            lemma_absorb_encloses(acc, rest, threshold);
            let later = absorb(acc, rest, threshold);
            assert forall|i: int| 0 <= i < pool.len() implies scan.0.encloses(#[trigger] pool[i])
                || scan.1.contains(pool[i]) by {
                if i > 0 {
                    assert(pool[i] == rest[i - 1]);
                    if later.1.contains(rest[i - 1]) {
                        let k = choose|k: int| 0 <= k < later.1.len() && later.1[k] == rest[i - 1];
                        assert(scan.1[k + 1] == pool[i]);
                    }
                } else {
                    assert(scan.1[0] == pool[0]);
                }
            }
            assert forall|j: int| 0 <= j < scan.1.len() implies pool.contains(
                #[trigger] scan.1[j],
            ) by {
                if j > 0 {
                    assert(scan.1[j] == later.1[j - 1]);
                    let k = choose|k: int| 0 <= k < rest.len() && rest[k] == later.1[j - 1];
                    assert(pool[k + 1] == scan.1[j]);
                } else {
                    assert(pool[0] == scan.1[0]);
                }
            }
            assert forall|j: int| 0 <= j < scan.1.len() implies (#[trigger] scan.1[j]).wf() by {
                if j > 0 {
                    assert(scan.1[j] == later.1[j - 1]);
                }
            }
        }
    }
}

/// A scan of regions that lie inside an image yields regions inside it.
pub proof fn lemma_absorb_fits(
    acc: RegionView,
    pool: Seq<RegionView>,
    threshold: int,
    width: int,
    height: int,
)
    requires
        acc.fits_within(width, height),
        all_fit(pool, width, height),
    ensures
        absorb(acc, pool, threshold).0.fits_within(width, height),
        all_fit(absorb(acc, pool, threshold).1, width, height),
    decreases pool.len(),
{
    let scan = absorb(acc, pool, threshold);
    if pool.len() > 0 {
        let rest = pool.drop_first();
        assert(pool[0].fits_within(width, height));
        assert forall|i: int| 0 <= i < rest.len() implies (#[trigger] rest[i]).fits_within(
            width,
            height,
        ) by {
            assert(rest[i] == pool[i + 1]);
        }
        if mergeable(acc, pool[0], threshold) {
            lemma_union_fits(acc, pool[0], width, height);
            lemma_absorb_fits(acc.union(pool[0]), rest, threshold, width, height);
        } else {
            lemma_absorb_fits(acc, rest, threshold, width, height);
            let later = absorb(acc, rest, threshold);
            assert forall|j: int| 0 <= j < scan.1.len() implies (#[trigger] scan.1[j]).fits_within(
                width,
                height,
            ) by {
                if j > 0 {
                    assert(scan.1[j] == later.1[j - 1]);
                }
            }
        }
    }
}

/// Enclosure of one sequence by another carries over a third one.
pub proof fn lemma_all_enclosed_transitive(
    a: Seq<RegionView>,
    b: Seq<RegionView>,
    c: Seq<RegionView>,
)
    requires
        all_enclosed(a, b),
        all_enclosed(b, c),
    ensures
        all_enclosed(a, c),
{
    assert forall|i: int| 0 <= i < a.len() implies enclosed_by(#[trigger] a[i], c) by {
        assert(enclosed_by(a[i], b));
        let k = choose|k: int| 0 <= k < b.len() && (#[trigger] b[k]).encloses(a[i]);
        assert(enclosed_by(b[k], c));
        let j = choose|j: int| 0 <= j < c.len() && (#[trigger] c[j]).encloses(b[k]);
        assert(c[j].encloses(a[i]));
    }
}

/// Merging never yields more regions than it was given, and it yields none
/// only when it was given none.
pub proof fn lemma_merge_count(pool: Seq<RegionView>, threshold: int)
    ensures
        merge_regions(pool, threshold).len() <= pool.len(),
        pool.len() > 0 ==> merge_regions(pool, threshold).len() > 0,
    decreases pool.len(),
{
    if pool.len() > 0 {
        let scan = absorb(pool[0], pool.drop_first(), threshold);
        if scan.1.len() + 1 < pool.len() {
            lemma_merge_count(seq![scan.0] + scan.1, threshold);
        } else {
            lemma_merge_count(pool.drop_first(), threshold);
        }
    }
}

/// Every region that goes into a merge lies inside some region that comes
/// out of it, and valid regions stay valid.
pub proof fn lemma_merge_covers(pool: Seq<RegionView>, threshold: int)
    requires
        all_wf(pool),
    ensures
        all_wf(merge_regions(pool, threshold)),
        all_enclosed(pool, merge_regions(pool, threshold)),
    decreases pool.len(),
{
    let out = merge_regions(pool, threshold);
    if pool.len() > 0 {
        let rest = pool.drop_first();
        assert(pool[0].wf());
        assert forall|i: int| 0 <= i < rest.len() implies (#[trigger] rest[i]).wf() by {
            assert(rest[i] == pool[i + 1]);
        }
        let scan = absorb(pool[0], rest, threshold);
        lemma_absorb_encloses(pool[0], rest, threshold);
        if scan.1.len() + 1 < pool.len() {
            let next = seq![scan.0] + scan.1;
            assert forall|i: int| 0 <= i < next.len() implies (#[trigger] next[i]).wf() by {
                if i > 0 {
                    assert(next[i] == scan.1[i - 1]);
                }
            }
            lemma_merge_covers(next, threshold);
            assert forall|i: int| 0 <= i < pool.len() implies enclosed_by(
                #[trigger] pool[i],
                next,
            ) by {
                if i == 0 {
                    assert(next[0].encloses(pool[0]));
                } else {
                    assert(pool[i] == rest[i - 1]);
                    if scan.0.encloses(rest[i - 1]) {
                        assert(next[0].encloses(pool[i]));
                    } else {
                        let k = choose|k: int| 0 <= k < scan.1.len() && scan.1[k] == rest[i - 1];
                        assert(next[k + 1].encloses(pool[i]));
                    }
                }
            }
            lemma_all_enclosed_transitive(pool, next, out);
        } else {
            lemma_merge_covers(rest, threshold);
            let tail = merge_regions(rest, threshold);
            assert forall|i: int| 0 <= i < out.len() implies (#[trigger] out[i]).wf() by {
                if i > 0 {
                    assert(out[i] == tail[i - 1]);
                }
            }
            assert forall|i: int| 0 <= i < pool.len() implies enclosed_by(
                #[trigger] pool[i],
                out,
            ) by {
                if i == 0 {
                    assert(out[0].encloses(pool[0]));
                } else {
                    assert(pool[i] == rest[i - 1]);
                    assert(enclosed_by(rest[i - 1], tail));
                    let k = choose|k: int|
                        0 <= k < tail.len() && (#[trigger] tail[k]).encloses(rest[i - 1]);
                    assert(out[k + 1].encloses(pool[i]));
                }
            }
        }
    }
}

/// Merging regions that lie inside an image yields regions inside it.
pub proof fn lemma_merge_fits(pool: Seq<RegionView>, threshold: int, width: int, height: int)
    requires
        all_fit(pool, width, height),
    ensures
        all_fit(merge_regions(pool, threshold), width, height),
    decreases pool.len(),
{
    let out = merge_regions(pool, threshold);
    if pool.len() > 0 {
        let rest = pool.drop_first();
        assert(pool[0].fits_within(width, height));
        assert forall|i: int| 0 <= i < rest.len() implies (#[trigger] rest[i]).fits_within(
            width,
            height,
        ) by {
            assert(rest[i] == pool[i + 1]);
        }
        let scan = absorb(pool[0], rest, threshold);
        if scan.1.len() + 1 < pool.len() {
            lemma_absorb_fits(pool[0], rest, threshold, width, height);
            let next = seq![scan.0] + scan.1;
            assert forall|i: int| 0 <= i < next.len() implies (#[trigger] next[i]).fits_within(
                width,
                height,
            ) by {
                if i > 0 {
                    assert(next[i] == scan.1[i - 1]);
                }
            }
            lemma_merge_fits(next, threshold, width, height);
        } else {
            lemma_merge_fits(rest, threshold, width, height);
            let tail = merge_regions(rest, threshold);
            assert forall|i: int| 0 <= i < out.len() implies (#[trigger] out[i]).fits_within(
                width,
                height,
            ) by {
                if i > 0 {
                    assert(out[i] == tail[i - 1]);
                }
            }
        }
    }
}

/// A merge changes nothing exactly when it keeps the number of regions, and
/// that is exactly when no region can merge with a later one.
pub proof fn lemma_merge_fixed_point(pool: Seq<RegionView>, threshold: int)
    ensures
        pairwise_unmergeable(pool, threshold) <==> merge_regions(pool, threshold) == pool,
        pairwise_unmergeable(pool, threshold) <==> merge_regions(pool, threshold).len()
            == pool.len(),
    decreases pool.len(),
{
    let out = merge_regions(pool, threshold);
    if pool.len() == 0 {
        assert(out =~= pool);
    } else {
        let rest = pool.drop_first();
        let scan = absorb(pool[0], rest, threshold);
        lemma_absorb_len(pool[0], rest, threshold);
        lemma_merge_fixed_point(rest, threshold);
        if scan.1.len() + 1 < pool.len() {
            lemma_merge_count(seq![scan.0] + scan.1, threshold);
            let k = choose|k: int| 0 <= k < rest.len() && mergeable(pool[0], rest[k], threshold);
            assert(rest[k] == pool[k + 1]);
            assert(mergeable(pool[0], pool[k + 1], threshold));
        } else {
            let tail = merge_regions(rest, threshold);
            lemma_merge_count(rest, threshold);
            if pairwise_unmergeable(pool, threshold) {
                assert forall|i: int, j: int| 0 <= i < j < rest.len() implies !mergeable(
                    #[trigger] rest[i],
                    #[trigger] rest[j],
                    threshold,
                ) by {
                    assert(rest[i] == pool[i + 1]);
                    assert(rest[j] == pool[j + 1]);
                }
                assert(out =~= pool);
            }
            if out.len() == pool.len() {
                assert(tail.len() == rest.len());
                assert forall|i: int, j: int| 0 <= i < j < pool.len() implies !mergeable(
                    #[trigger] pool[i],
                    #[trigger] pool[j],
                    threshold,
                ) by {
                    assert(pool[j] == rest[j - 1]);
                    if i > 0 {
                        assert(pool[i] == rest[i - 1]);
                    }
                }
            }
        }
    }
}

/// Merging the result of a merge again, with the same threshold, changes
/// nothing, provided that the first merge left no region that can merge with
/// a later one.
pub proof fn lemma_merge_idempotent(pool: Seq<RegionView>, threshold: int)
    requires
        pairwise_unmergeable(merge_regions(pool, threshold), threshold),
    ensures
        merge_regions(merge_regions(pool, threshold), threshold) == merge_regions(pool, threshold),
{
    lemma_merge_fixed_point(merge_regions(pool, threshold), threshold);
}


/// The grid points inside at least one region of the sequence.
pub open spec fn covered(pool: Seq<RegionView>) -> Set<(int, int)> {
    Set::new(
        |p: (int, int)| exists|i: int| 0 <= i < pool.len() && (#[trigger] pool[i]).contains(p.0, p.1),
    )
}

/// The area of the union of the regions: the number of grid points that at
/// least one of them covers.
pub open spec fn union_area(pool: Seq<RegionView>) -> nat {
    covered(pool).len()
}

/// The grid points of the columns `left..right` and the rows `top..bottom`.
pub open spec fn grid_block(left: int, right: int, top: int, bottom: int) -> Set<(int, int)> {
    Set::new(|p: (int, int)| left <= p.0 < right && top <= p.1 < bottom)
}

/// A block of the grid has finitely many points.
pub proof fn lemma_grid_block_finite(left: int, right: int, top: int, bottom: int)
    requires
        left <= right,
        top <= bottom,
    ensures
        grid_block(left, right, top, bottom).finite(),
    decreases right - left,
{
    if left == right {
        assert(grid_block(left, right, top, bottom) =~= Set::<(int, int)>::empty());
    } else {
        lemma_grid_block_finite(left, right - 1, top, bottom);
        lemma_int_range(top, bottom);
        let column = set_int_range(top, bottom).map(|y: int| (right - 1, y));
        set_int_range(top, bottom).lemma_map_finite(|y: int| (right - 1, y));
        assert(grid_block(left, right, top, bottom) =~= grid_block(
            left,
            right - 1,
            top,
            bottom,
        ).union(column)) by {
            assert forall|p: (int, int)|
                grid_block(left, right, top, bottom).contains(p) implies grid_block(
                left,
                right - 1,
                top,
                bottom,
            ).union(column).contains(p) by {
                if p.0 == right - 1 {
                    assert(set_int_range(top, bottom).contains(p.1));
                    assert(p == (right - 1, p.1));
                }
            }
        }
    }
}

/// The regions of a sequence cover finitely many grid points.
pub proof fn lemma_covered_finite(pool: Seq<RegionView>)
    requires
        all_wf(pool),
    ensures
        covered(pool).finite(),
    decreases pool.len(),
{
    if pool.len() == 0 {
        assert(covered(pool) =~= Set::<(int, int)>::empty());
    } else {
        let front = pool.drop_last();
        let last = pool.last();
        assert forall|i: int| 0 <= i < front.len() implies (#[trigger] front[i]).wf() by {
            assert(front[i] == pool[i]);
        }
        lemma_covered_finite(front);
        assert(last.wf());
        lemma_grid_block_finite(last.left, last.right() + 1, last.top, last.bottom() + 1);
        let block = grid_block(last.left, last.right() + 1, last.top, last.bottom() + 1);
        assert(covered(pool) =~= covered(front).union(block)) by {
            assert forall|p: (int, int)| covered(pool).contains(p) implies covered(front).union(
                block,
            ).contains(p) by {
                let i = choose|i: int| 0 <= i < pool.len() && (#[trigger] pool[i]).contains(p.0, p.1);
                if i < pool.len() - 1 {
                    assert(front[i].contains(p.0, p.1));
                }
            }
            assert forall|p: (int, int)| covered(front).union(block).contains(p) implies covered(
                pool,
            ).contains(p) by {
                if covered(front).contains(p) {
                    let i = choose|i: int|
                        0 <= i < front.len() && (#[trigger] front[i]).contains(p.0, p.1);
                    assert(pool[i].contains(p.0, p.1));
                } else {
                    assert(pool[pool.len() - 1].contains(p.0, p.1));
                }
            }
        }
    }
}

/// Merging loses no ground: every grid point covered by a region that goes
/// in is covered by a region that comes out, so the area of the union of the
/// merged regions is at least the area of the union of the given ones.
pub proof fn lemma_merge_union_area(pool: Seq<RegionView>, threshold: int)
    requires
        all_wf(pool),
    ensures
        covered(pool).subset_of(covered(merge_regions(pool, threshold))),
        covered(merge_regions(pool, threshold)).finite(),
        union_area(pool) <= union_area(merge_regions(pool, threshold)),
{
    let out = merge_regions(pool, threshold);
    lemma_merge_covers(pool, threshold);
    lemma_covered_finite(out);
    assert forall|p: (int, int)| covered(pool).contains(p) implies covered(out).contains(p) by {
        let i = choose|i: int| 0 <= i < pool.len() && (#[trigger] pool[i]).contains(p.0, p.1);
        assert(enclosed_by(pool[i], out));
        let j = choose|j: int| 0 <= j < out.len() && (#[trigger] out[j]).encloses(pool[i]);
        assert(out[j].contains(p.0, p.1));
    }
    lemma_len_subset(covered(pool), covered(out));
}

} // verus!
