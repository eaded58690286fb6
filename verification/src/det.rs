use crate::boxes::{
    bounding_box, boxes_of, contour_views, contours_inside, expanded, lemma_boxes_fit,
    lemma_bounding_box, lemma_bounding_box_fits, lemma_expanded, lemma_no_points_no_boxes, max_x, max_y, min_x, min_y, Contour, ContourView, Point, MIN_BOX_SIZE,
};
use crate::efficient_cropping::{crops_of, EfficientCropper, ImageRef};
use crate::error::{OcrError, OcrResult};
use crate::merge::{
    absorb, all_fit, lemma_absorb_len, lemma_merge_fits, merge_regions, mergeable,
};
use crate::raster::{GrayMap, GrayMapView, Image, MAX_MAP_PIXELS};
use crate::region::{region_views, RegionView, TextRegion};
use vstd::arithmetic::div_mod::lemma_fundamental_div_mod_converse;
use vstd::prelude::*;
use vstd::string::StringExecFns;

verus! {

/// Border by which a detector grows its text boxes unless told otherwise.
pub const RECT_BORDER_SIZE: u32 = 10;

/// Values of the probability map above this one count as text.
pub const THRESHOLD: u8 = 200;

/// Merge threshold of a detector unless told otherwise.
pub const DEFAULT_MERGE_THRESHOLD: i32 = 1;

/// Settings of a detector, as plain values.
pub struct DetConfig {
    pub rect_border_size: int,
    pub merge_boxes: bool,
    pub merge_threshold: int,
}

/// The post-processing of a text detector: it turns the probability map that
/// the detection model returns for an image into the regions of the image
/// that hold text.
#[derive(Clone, Copy, Debug)]
pub struct Det {
    rect_border_size: u32,
    merge_boxes: bool,
    merge_threshold: i32,
}

impl View for Det {
    type V = DetConfig;

    closed spec fn view(&self) -> DetConfig {
        DetConfig {
            rect_border_size: self.rect_border_size as int,
            merge_boxes: self.merge_boxes,
            merge_threshold: self.merge_threshold as int,
        }
    }
}

/// Smallest multiple of 32 that is at least `length`.
pub open spec fn padded_length(length: int) -> int {
    if length % 32 == 0 {
        length
    } else {
        length + 32 - length % 32
    }
}

/// The values of a map of `width` by `height` pixels, taken from a buffer
/// whose rows are padded to `padded_length(width)` values.
pub open spec fn unpadded(scores: Seq<u8>, width: int, height: int) -> Seq<u8> {
    Seq::new(
        (width * height) as nat,
        |k: int| scores[(k / width) * padded_length(width) + k % width],
    )
}

/// The contours that `imageproc` traces in a map of `width` by `height`
/// pixels with the values `pixels`, where the values above `threshold` are
/// foreground.
pub uninterp spec fn traced_contours(width: int, height: int, pixels: Seq<u8>, threshold: u8) -> Seq<
    ContourView,
>;

/// The text regions that a detector with the settings `config` finds in a
/// probability map: the boxes of the map's outer contours, merged if the
/// detector merges.
pub open spec fn detected_regions(config: DetConfig, map: GrayMapView) -> Seq<RegionView> {
    let boxes = boxes_of(
        traced_contours(map.width, map.height, map.data, THRESHOLD),
        config.rect_border_size,
        map.width,
        map.height,
    );
    if config.merge_boxes {
        merge_regions(boxes, config.merge_threshold)
    } else {
        boxes
    }
}

/// Whether a buffer of `len` values is the output of the detection model for
/// an image of `width` by `height` pixels.
pub open spec fn output_matches(len: int, width: int, height: int) -> bool {
    len == padded_length(width) * padded_length(height)
}

impl Det {
    /// A detector with the default settings: a border of
    /// `RECT_BORDER_SIZE`, no merging, a merge threshold of
    /// `DEFAULT_MERGE_THRESHOLD`.
    pub fn new() -> (det: Det)
        ensures
            det@ == (DetConfig {
                rect_border_size: RECT_BORDER_SIZE as int,
                merge_boxes: false,
                merge_threshold: DEFAULT_MERGE_THRESHOLD as int,
            }),
    {
        Det {
            rect_border_size: RECT_BORDER_SIZE,
            merge_boxes: false,
            merge_threshold: DEFAULT_MERGE_THRESHOLD,
        }
    }

    /// The same detector with another border.
    pub fn with_rect_border_size(self, rect_border_size: u32) -> (det: Det)
        ensures
            det@ == (DetConfig { rect_border_size: rect_border_size as int, ..self@ }),
    {
        Det { rect_border_size, merge_boxes: self.merge_boxes, merge_threshold: self.merge_threshold }
    }

    /// The same detector, merging or not.
    pub fn with_merge_boxes(self, merge_boxes: bool) -> (det: Det)
        ensures
            det@ == (DetConfig { merge_boxes, ..self@ }),
    {
        Det {
            rect_border_size: self.rect_border_size,
            merge_boxes,
            merge_threshold: self.merge_threshold,
        }
    }

    /// The same detector with another merge threshold.
    pub fn with_merge_threshold(self, merge_threshold: i32) -> (det: Det)
        ensures
            det@ == (DetConfig { merge_threshold: merge_threshold as int, ..self@ }),
    {
        Det {
            rect_border_size: self.rect_border_size,
            merge_boxes: self.merge_boxes,
            merge_threshold,
        }
    }

    /// Border by which text boxes are grown, in pixels.
    pub fn rect_border_size(&self) -> (border: u32)
        ensures
            border == self@.rect_border_size,
    {
        self.rect_border_size
    }

    /// Whether text boxes that lie close together are merged.
    pub fn merge_boxes_enabled(&self) -> (enabled: bool)
        ensures
            enabled == self@.merge_boxes,
    {
        self.merge_boxes
    }

    /// Distance, in pixels, by which text boxes are widened when they are
    /// tested for merging.
    pub fn merge_threshold(&self) -> (threshold: i32)
        ensures
            threshold == self@.merge_threshold,
    {
        self.merge_threshold
    }

    /// Pads a side length up to the next multiple of 32.
    pub fn get_pad_length(length: u32) -> (padded: u64)
        ensures
            padded == padded_length(length as int),
            padded % 32 == 0,
            length <= padded < length + 32,
    {
        let rest: u32 = length % 32;
        if rest == 0 {
            length as u64
        } else {
            length as u64 + 32 - rest as u64
        }
    }

    /// Cuts the padding off the output of the detection model for an image
    /// of `width` by `height` pixels. An image with more than
    /// `MAX_MAP_PIXELS` pixels is refused as input; a buffer that does not
    /// hold one value for each pixel of the padded image is refused for its
    /// shape.
    pub fn probability_map(scores: &[u8], width: u32, height: u32) -> (result: OcrResult<GrayMap>)
        ensures
            result is Ok <==> width * height <= MAX_MAP_PIXELS && output_matches(
                scores@.len() as int,
                width as int,
                height as int,
            ),
            result matches Ok(map) ==> map@ == (GrayMapView {
                width: width as int,
                height: height as int,
                data: unpadded(scores@, width as int, height as int),
            }),
            result matches Err(e) ==> (e is InputError <==> width * height > MAX_MAP_PIXELS),
            result matches Err(e) ==> (e is ShapeError <==> width * height <= MAX_MAP_PIXELS),
    {
        assert(width as int * height as int <= u32::MAX as int * u32::MAX as int)
            by (nonlinear_arith)
            requires
                0 <= width as int <= u32::MAX as int,
                0 <= height as int <= u32::MAX as int,
        ;
        if width as u64 * height as u64 > MAX_MAP_PIXELS {
            return Err(OcrError::InputError(String::from_str("image has too many pixels")));
        }
        let pad_w: u64 = Self::get_pad_length(width);
        let pad_h: u64 = Self::get_pad_length(height);
        assert(pad_w as int * pad_h as int <= 0x1_0000_0020 * 0x1_0000_0020) by (nonlinear_arith)
            requires
                0 <= pad_w as int <= 0x1_0000_0020,
                0 <= pad_h as int <= 0x1_0000_0020,
        ;
        if scores.len() as u128 != pad_w as u128 * pad_h as u128 {
            return Err(
                OcrError::ShapeError(
                    String::from_str("model output does not match the padded image"),
                ),
            );
        }
        let mut data: Vec<u8> = Vec::new();
        let mut y: u32 = 0;
        let ghost w = width as int;
        let ghost target = unpadded(scores@, width as int, height as int);
        assert(target.len() == w * height);
        assert(scores@.len() <= usize::MAX);
        while y < height
            invariant
                y <= height,
                w == width,
                width * height <= MAX_MAP_PIXELS,
                pad_w == padded_length(w),
                pad_h == padded_length(height as int),
                scores@.len() == pad_w * pad_h,
                target == unpadded(scores@, w, height as int),
                target.len() == w * height,
                scores@.len() <= usize::MAX,
                data.len() == y * w,
                data.len() <= target.len(),
                forall|k: int| 0 <= k < data.len() ==> data[k] == target[k],
            decreases height - y,
        {
            let mut x: u32 = 0;
            while x < width
                invariant
                    x <= width,
                    y < height,
                    w == width,
                    width * height <= MAX_MAP_PIXELS,
                    pad_w == padded_length(w),
                    pad_h == padded_length(height as int),
                    scores@.len() == pad_w * pad_h,
                    target == unpadded(scores@, w, height as int),
                    target.len() == w * height,
                    scores@.len() <= usize::MAX,
                    data.len() == y * w + x,
                    data.len() <= target.len(),
                    forall|k: int| 0 <= k < data.len() ==> data[k] == target[k],
                decreases width - x,
            {
                proof {
                    assert(0 <= y * pad_w + x < pad_w * pad_h) by (nonlinear_arith)
                        requires
                            0 <= x < pad_w,
                            0 <= y < pad_h,
                    ;
                    assert(0 <= y * pad_w <= y * pad_w + x) by (nonlinear_arith)
                        requires
                            0 <= x,
                            0 <= y,
                            0 <= pad_w,
                    ;
                    assert(0 <= y * w + x < w * height) by (nonlinear_arith)
                        requires
                            0 <= x < w,
                            0 <= y < height,
                    ;
                    lemma_fundamental_div_mod_converse(y * w + x, w, y as int, x as int);
                    assert(y * w + x + 1 <= w * height);
                }
                let at: usize = (y as u64 * pad_w + x as u64) as usize;
                data.push(scores[at]);
                x += 1;
            }
            proof {
                assert((y + 1) * w == y * w + w) by (nonlinear_arith);
                assert((y + 1) * w <= w * height) by (nonlinear_arith)
                    requires
                        y + 1 <= height,
                        0 <= w,
                ;
            }
            y += 1;
        }
        proof {
            assert(height * w == w * height) by (nonlinear_arith);
            assert(data@ =~= target);
        }
        Ok(GrayMap::new(width, height, data).unwrap())
    }

    /// The bounding box of a set of points: the smallest region that holds
    /// them all. There is none if the set is empty, if the points spread over
    /// at most `MIN_BOX_SIZE` pixels in width or in height, or if a far edge
    /// of the box is not a representable coordinate.
    pub fn bounding_rect(points: &[Point]) -> (rect: Option<TextRegion>)
        ensures
            rect is Some <==> bounding_box(points@) is Some,
            rect matches Some(r) ==> r@ == bounding_box(points@)->0,
            rect matches Some(r) ==> forall|i: int|
                0 <= i < points@.len() ==> r@.contains(
                    (#[trigger] points@[i]).x as int,
                    points@[i].y as int,
                ),
    {
        if points.len() == 0 {
            return None;
        }
        proof {
            if bounding_box(points@) is Some {
                lemma_bounding_box(points@);
            }
        }
        let mut x_min: u32 = points[0].x;
        let mut x_max: u32 = points[0].x;
        let mut y_min: u32 = points[0].y;
        let mut y_max: u32 = points[0].y;
        let mut i: usize = 1;
        assert(points@.subrange(0, 1).len() == 1);
        while i < points.len()
            invariant
                1 <= i <= points.len(),
                x_min == min_x(points@.subrange(0, i as int)),
                x_max == max_x(points@.subrange(0, i as int)),
                y_min == min_y(points@.subrange(0, i as int)),
                y_max == max_y(points@.subrange(0, i as int)),
                x_min <= x_max,
                y_min <= y_max,
            decreases points.len() - i,
        {
            let p = points[i];
            proof {
                let upto = points@.subrange(0, i + 1);
                assert(upto.drop_last() =~= points@.subrange(0, i as int));
                assert(upto.last() == points@[i as int]);
            }
            if p.x < x_min {
                x_min = p.x;
            }
            if p.x > x_max {
                x_max = p.x;
            }
            if p.y < y_min {
                y_min = p.y;
            }
            if p.y > y_max {
                y_max = p.y;
            }
            i += 1;
        }
        assert(points@.subrange(0, points.len() as int) =~= points@);
        let spread_x: u32 = x_max - x_min;
        let spread_y: u32 = y_max - y_min;
        if spread_x <= MIN_BOX_SIZE || spread_y <= MIN_BOX_SIZE {
            return None;
        }
        if x_max >= i32::MAX as u32 || y_max >= i32::MAX as u32 {
            return None;
        }
        TextRegion::new(x_min as i32, y_min as i32, spread_x + 1, spread_y + 1)
    }

    /// Grows a region of an image of `width` by `height` pixels by the
    /// detector's border on every side, as far as the image allows.
    pub fn expand_box(&self, rect: &TextRegion, width: u32, height: u32) -> (grown: TextRegion)
        requires
            rect@.fits_within(width as int, height as int),
            width <= i32::MAX,
            height <= i32::MAX,
        ensures
            grown@ == expanded(rect@, self@.rect_border_size, width as int, height as int),
            grown@.fits_within(width as int, height as int),
            grown@.encloses(rect@),
    {
        proof {
            use_type_invariant(rect);
            rect.lemma_valid();
            lemma_expanded(rect@, self@.rect_border_size, width as int, height as int);
        }
        let border: i64 = self.rect_border_size as i64;
        let left: i64 = if rect.left() as i64 - border > 0 {
            rect.left() as i64 - border
        } else {
            0
        };
        let top: i64 = if rect.top() as i64 - border > 0 {
            rect.top() as i64 - border
        } else {
            0
        };
        let right: i64 = if rect.right() as i64 + border < width as i64 - 1 {
            rect.right() as i64 + border
        } else {
            width as i64 - 1
        };
        let bottom: i64 = if rect.bottom() as i64 + border < height as i64 - 1 {
            rect.bottom() as i64 + border
        } else {
            height as i64 - 1
        };
        TextRegion::new(
            left as i32,
            top as i32,
            (right - left + 1) as u32,
            (bottom - top + 1) as u32,
        ).unwrap()
    }

    /// Whether every point of every contour lies inside an image of the
    /// given size.
    pub fn contours_fit(contours: &[Contour], width: u32, height: u32) -> (inside: bool)
        ensures
            inside == contours_inside(contour_views(contours@), width as int, height as int),
    {
        let ghost all = contour_views(contours@);
        let mut i: usize = 0;
        while i < contours.len()
            invariant
                i <= contours.len(),
                all == contour_views(contours@),
                forall|a: int, b: int|
                    0 <= a < i && 0 <= b < all[a].points.len() ==> (#[trigger] all[a].points[b]).x
                        < width && all[a].points[b].y < height,
            decreases contours.len() - i,
        {
            let contour = &contours[i];
            assert(all[i as int] == contour@);
            let mut j: usize = 0;
            while j < contour.points.len()
                invariant
                    j <= contour.points.len(),
                    i < contours.len(),
                    all == contour_views(contours@),
                    all[i as int] == contour@,
                    forall|b: int|
                        0 <= b < j ==> (#[trigger] contour@.points[b]).x < width
                            && contour@.points[b].y < height,
                decreases contour.points.len() - j,
            {
                let p = contour.points[j];
                if p.x >= width || p.y >= height {
                    assert(all[i as int].points[j as int] == p);
                    return false;
                }
                j += 1;
            }
            i += 1;
        }
        true
    }

    /// The text boxes of the contours of an image of `width` by `height`
    /// pixels: for each contour without a parent that has a bounding box,
    /// that box grown by the detector's border.
    pub fn boxes_from_contours(&self, contours: &[Contour], width: u32, height: u32) -> (boxes:
        Vec<TextRegion>)
        requires
            contours_inside(contour_views(contours@), width as int, height as int),
            width <= i32::MAX,
            height <= i32::MAX,
        ensures
            region_views(boxes@) == boxes_of(
                contour_views(contours@),
                self@.rect_border_size,
                width as int,
                height as int,
            ),
            all_fit(region_views(boxes@), width as int, height as int),
    {
        let ghost all = contour_views(contours@);
        let ghost border = self@.rect_border_size;
        let mut boxes: Vec<TextRegion> = Vec::new();
        let mut i: usize = 0;
        assert(all.subrange(0, 0) =~= Seq::<ContourView>::empty());
        assert(region_views(boxes@) =~= Seq::<RegionView>::empty());
        while i < contours.len()
            invariant
                i <= contours.len(),
                all == contour_views(contours@),
                border == self@.rect_border_size,
                contours_inside(all, width as int, height as int),
                width <= i32::MAX,
                height <= i32::MAX,
                region_views(boxes@) == boxes_of(
                    all.subrange(0, i as int),
                    border,
                    width as int,
                    height as int,
                ),
            decreases contours.len() - i,
        {
            let contour = &contours[i];
            proof {
                let upto = all.subrange(0, i + 1);
                assert(upto.drop_last() =~= all.subrange(0, i as int));
                assert(upto.last() == contour@);
                assert(all[i as int] == contour@);
            }
            if contour.parent.is_none() {
                let found = Self::bounding_rect(contour.points.as_slice());
                if let Some(rect) = found {
                    proof {
                        assert forall|j: int| 0 <= j < contour@.points.len() implies (
                        #[trigger] contour@.points[j]).x < width && contour@.points[j].y
                            < height by {
                            assert(all[i as int].points[j] == contour@.points[j]);
                        }
                        lemma_bounding_box_fits(contour@.points, width as int, height as int);
                    }
                    let ghost before = region_views(boxes@);
                    let grown = self.expand_box(&rect, width, height);
                    boxes.push(grown);
                    proof {
                        assert(region_views(boxes@) =~= before.push(grown@));
                    }
                }
            }
            i += 1;
        }
        proof {
            assert(all.subrange(0, contours.len() as int) =~= all);
            lemma_boxes_fit(all, border, width as int, height as int);
        }
        boxes
    }

    /// Hands the map to `imageproc::contours::find_contours_with_threshold`
    /// and copies the points and the parent of each contour it returns.
    /// Trusted: the contours are a function of the map and the threshold,
    /// and every point of a contour is a pixel of the map.
    #[verifier::external_body]
    fn trace_contours(map: &GrayMap, threshold: u8) -> (contours: Vec<Contour>)
        ensures
            contour_views(contours@) == traced_contours(
                map@.width,
                map@.height,
                map@.data,
                threshold,
            ),
            contours_inside(contour_views(contours@), map@.width, map@.height),
    {
        let gray = image::GrayImage::from_raw(map.width(), map.height(), map.as_raw().clone());
        imageproc::contours::find_contours_with_threshold::<u32>(&gray.unwrap(), threshold)
            .into_iter()
            .map(|c| Contour {
                points: c.points.iter().map(|p| Point { x: p.x, y: p.y }).collect(),
                parent: c.parent,
            })
            .collect()
    }

    /// The text boxes of a probability map: the boxes of the outer contours
    /// of what lies above `THRESHOLD`.
    pub fn find_box(&self, map: &GrayMap) -> (boxes: Vec<TextRegion>)
        ensures
            region_views(boxes@) == boxes_of(
                traced_contours(map@.width, map@.height, map@.data, THRESHOLD),
                self@.rect_border_size,
                map@.width,
                map@.height,
            ),
            all_fit(region_views(boxes@), map@.width, map@.height),
    {
        let contours = Self::trace_contours(map, THRESHOLD);
        proof {
            use_type_invariant(map);
            map.lemma_valid();
            let w = map@.width;
            let h = map@.height;
            if w > 0 && h > 0 {
                assert(w <= w * h && h <= w * h) by (nonlinear_arith)
                    requires
                        w > 0,
                        h > 0,
                ;
            }
        }
        let width: u32 = map.width();
        let height: u32 = map.height();
        if width > i32::MAX as u32 || height > i32::MAX as u32 {
            proof {
                let all = contour_views(contours@);
                assert forall|i: int| 0 <= i < all.len() implies (#[trigger] all[i]).points.len()
                    == 0 by {
                    if all[i].points.len() > 0 {
                        let p = all[i].points[0];
                        assert(p.x < width && p.y < height);
                    }
                }
                lemma_no_points_no_boxes(
                    all,
                    self@.rect_border_size,
                    width as int,
                    height as int,
                );
            }
            return Vec::new();
        }
        self.boxes_from_contours(contours.as_slice(), width, height)
    }
    /// Whether two regions are close enough to be merged: their horizontal
    /// spans, widened by `threshold`, overlap, and the upper one reaches the
    /// top of the lower one up to two fifths of the smaller height.
    pub fn boxes_overlap_with_threshold(a: &TextRegion, b: &TextRegion, threshold: i32) -> (close:
        bool)
        ensures
            close == mergeable(a@, b@, threshold as int),
    {
        let a_left: i64 = a.left() as i64 - threshold as i64;
        let a_right: i64 = a.right() as i64 + threshold as i64;
        let b_left: i64 = b.left() as i64 - threshold as i64;
        let b_right: i64 = b.right() as i64 + threshold as i64;
        let horizontal_overlap = !(a_right < b_left || b_right < a_left);

        let a_height: u32 = a.height();
        let b_height: u32 = b.height();
        let min_height: u32 = if a_height <= b_height { a_height } else { b_height };
        let vertical_threshold: i64 = (2 * min_height as i64) / 5;

        let vertical_close = if a.top() <= b.top() {
            a.bottom() as i64 + vertical_threshold >= b.top() as i64
        } else {
            b.bottom() as i64 + vertical_threshold >= a.top() as i64
        };
        horizontal_overlap && vertical_close
    }

    /// Smallest region that encloses both `a` and `b`.
    pub fn merge_boxes(a: &TextRegion, b: &TextRegion) -> (merged: TextRegion)
        ensures
            merged@ == a@.union(b@),
    {
        a.union(b)
    }

    /// Merges regions until no region at the front of the pool can absorb a
    /// later one. The regions come out in the order in which they became
    /// final.
    pub fn merge_overlapping_boxes(boxes: Vec<TextRegion>, threshold: i32) -> (merged: Vec<
        TextRegion,
    >)
        ensures
            region_views(merged@) == merge_regions(region_views(boxes@), threshold as int),
    {
        let ghost given = region_views(boxes@);
        let ghost t = threshold as int;
        let mut result: Vec<TextRegion> = Vec::new();
        let mut pool = boxes;
        assert(region_views(result@) + merge_regions(region_views(pool@), t) =~= merge_regions(
            given,
            t,
        ));
        while pool.len() > 0
            invariant
                t == threshold as int,
                region_views(result@) + merge_regions(region_views(pool@), t) == merge_regions(
                    given,
                    t,
                ),
            decreases pool.len(),
        {
            let ghost before = region_views(pool@);
            let current = pool.remove(0);
            let ghost rest = region_views(pool@);
            assert(rest =~= before.drop_first());
            assert(current@ == before[0]);
            let mut merged = current;
            let mut merged_any = false;
            let mut i: usize = 0;
            assert(region_views(pool@).subrange(0, pool.len() as int) =~= rest);
            assert(region_views(pool@).subrange(0, 0) + absorb(current@, rest, t).1 =~= absorb(
                current@,
                rest,
                t,
            ).1);
            while i < pool.len()
                invariant
                    i <= pool.len(),
                    pool.len() <= rest.len(),
                    t == threshold as int,
                    absorb(current@, rest, t).0 == absorb(
                        merged@,
                        region_views(pool@).subrange(i as int, pool.len() as int),
                        t,
                    ).0,
                    absorb(current@, rest, t).1 == region_views(pool@).subrange(0, i as int)
                        + absorb(
                        merged@,
                        region_views(pool@).subrange(i as int, pool.len() as int),
                        t,
                    ).1,
                    merged_any <==> pool.len() < rest.len(),
                decreases pool.len() - i,
            {
                let ghost views = region_views(pool@);
                let ghost tail = views.subrange(i as int, pool.len() as int);
                assert(tail[0] == pool@[i as int]@);
                if Self::boxes_overlap_with_threshold(&merged, &pool[i], threshold) {
                    merged = Self::merge_boxes(&merged, &pool[i]);
                    pool.remove(i);
                    merged_any = true;
                    proof {
                        let after = region_views(pool@);
                        assert(after.subrange(i as int, pool.len() as int) =~= tail.drop_first());
                        assert(after.subrange(0, i as int) =~= views.subrange(0, i as int));
                    }
                } else {
                    i += 1;
                    proof {
                        assert(views.subrange(i as int, pool.len() as int) =~= tail.drop_first());
                        assert(views.subrange(0, i as int) =~= views.subrange(0, i - 1) + seq![
                            tail[0],
                        ]);
                        let later = absorb(merged@, tail.drop_first(), t);
                        assert(views.subrange(0, i - 1) + (seq![tail[0]] + later.1) =~= (
                        views.subrange(0, i - 1) + seq![tail[0]]) + later.1);
                    }
                }
            }
            proof {
                let views = region_views(pool@);
                assert(views.subrange(i as int, pool.len() as int) =~= Seq::<RegionView>::empty());
                assert(views.subrange(0, i as int) =~= views);
                assert(views + Seq::<RegionView>::empty() =~= views);
                assert(absorb(current@, rest, t) == (merged@, views));
                lemma_absorb_len(current@, rest, t);
            }
            if merged_any {
                pool.insert(0, merged);
                proof {
                    assert(region_views(pool@) =~= seq![merged@] + absorb(current@, rest, t).1);
                }
            } else {
                let ghost done = region_views(result@);
                result.push(merged);
                proof {
                    assert(merged@ == current@);
                    assert(region_views(result@) =~= done + seq![before[0]]);
                    assert(region_views(pool@) =~= before.drop_first());
                    let tail = merge_regions(before.drop_first(), t);
                    assert((done + seq![before[0]]) + tail =~= done + (seq![before[0]] + tail));
                }
            }
        }
        proof {
            assert(region_views(result@) + Seq::<RegionView>::empty() =~= region_views(result@));
        }
        result
    }
    /// The text regions of an image of `width` by `height` pixels, from the
    /// output of the detection model for it: the padding is cut off, the
    /// boxes of the outer contours are found, and they are merged if the
    /// detector merges. Every region lies inside the image.
    pub fn find_text_rect(&self, scores: &[u8], width: u32, height: u32) -> (result: OcrResult<
        Vec<TextRegion>,
    >)
        ensures
            result is Ok <==> width * height <= MAX_MAP_PIXELS && output_matches(
                scores@.len() as int,
                width as int,
                height as int,
            ),
            result matches Ok(rects) ==> region_views(rects@) == detected_regions(
                self@,
                GrayMapView {
                    width: width as int,
                    height: height as int,
                    data: unpadded(scores@, width as int, height as int),
                },
            ) && all_fit(region_views(rects@), width as int, height as int),
            result matches Err(e) ==> (e is InputError <==> width * height > MAX_MAP_PIXELS),
            result matches Err(e) ==> (e is ShapeError <==> width * height <= MAX_MAP_PIXELS),
    {
        match Self::probability_map(scores, width, height) {
            Err(e) => Err(e),
            Ok(map) => {
                let boxes = self.find_box(&map);
                if self.merge_boxes {
                    proof {
                        lemma_merge_fits(
                            region_views(boxes@),
                            self.merge_threshold as int,
                            width as int,
                            height as int,
                        );
                    }
                    Ok(Self::merge_overlapping_boxes(boxes, self.merge_threshold))
                } else {
                    Ok(boxes)
                }
            },
        }
    }

    /// The parts of an image that hold text, from the output of the
    /// detection model for it: each text region, cut out row by row, in the
    /// order of `find_text_rect`.
    pub fn find_text_img(&self, img: &Image, scores: &[u8]) -> (result: OcrResult<Vec<Image>>)
        ensures
            result is Ok <==> img@.width * img@.height <= MAX_MAP_PIXELS && output_matches(
                scores@.len() as int,
                img@.width,
                img@.height,
            ),
            result matches Ok(images) ==> crops_of(
                images@,
                img@,
                detected_regions(
                    self@,
                    GrayMapView {
                        width: img@.width,
                        height: img@.height,
                        data: unpadded(scores@, img@.width, img@.height),
                    },
                ),
            ),
            result matches Err(e) ==> (e is InputError <==> img@.width * img@.height
                > MAX_MAP_PIXELS),
            result matches Err(e) ==> (e is ShapeError <==> img@.width * img@.height
                <= MAX_MAP_PIXELS),
    {
        match self.find_text_rect(scores, img.width(), img.height()) {
            Err(e) => Err(e),
            Ok(rects) => {
                let mut results: Vec<Image> = Vec::new();
                let mut i: usize = 0;
                while i < rects.len()
                    invariant
                        i <= rects.len(),
                        all_fit(region_views(rects@), img@.width, img@.height),
                        results.len() == i,
                        forall|j: int|
                            0 <= j < i ==> crate::efficient_cropping::is_crop(
                                (#[trigger] results[j])@,
                                img@,
                                rects[j]@,
                            ),
                    decreases rects.len() - i,
                {
                    assert(region_views(rects@)[i as int] == rects[i as int]@);
                    let cropped = EfficientCropper::standard_crop(img, &rects[i]);
                    results.push(cropped);
                    i += 1;
                }
                Ok(results)
            },
        }
    }

    /// The parts of an image that hold text, as `find_text_img` gives them,
    /// cut out in the way that suits the number of regions: a single region
    /// by the strategy that suits its size, up to eight regions in parallel,
    /// more after sorting them by size.
    pub fn find_text_img_efficient(&self, img: &Image, scores: &[u8]) -> (result: OcrResult<
        Vec<Image>,
    >)
        ensures
            result is Ok <==> img@.width * img@.height <= MAX_MAP_PIXELS && output_matches(
                scores@.len() as int,
                img@.width,
                img@.height,
            ),
            result matches Ok(images) ==> crops_of(
                images@,
                img@,
                detected_regions(
                    self@,
                    GrayMapView {
                        width: img@.width,
                        height: img@.height,
                        data: unpadded(scores@, img@.width, img@.height),
                    },
                ),
            ),
            result matches Err(e) ==> (e is InputError <==> img@.width * img@.height
                > MAX_MAP_PIXELS),
            result matches Err(e) ==> (e is ShapeError <==> img@.width * img@.height
                <= MAX_MAP_PIXELS),
    {
        match self.find_text_rect(scores, img.width(), img.height()) {
            Err(e) => Err(e),
            Ok(rects) => {
                if rects.len() == 0 {
                    return Ok(Vec::new());
                }
                let image_ref = ImageRef::Owned(img.clone());
                proof {
                    assert forall|i: int| 0 <= i < rects@.len() implies (
                    #[trigger] rects@[i])@.fits_within(image_ref@.width, image_ref@.height) by {
                        assert(region_views(rects@)[i] == rects@[i]@);
                    }
                }
                let count: usize = rects.len();
                if count == 1 {
                    let mut results: Vec<Image> = Vec::new();
                    results.push(EfficientCropper::smart_crop(&image_ref, &rects[0]));
                    Ok(results)
                } else if count <= 8 {
                    Ok(EfficientCropper::parallel_batch_crop(&image_ref, rects.as_slice()))
                } else {
                    Ok(EfficientCropper::optimized_batch_crop(&image_ref, rects.as_slice()))
                }
            },
        }
    }
}

} // verus!
