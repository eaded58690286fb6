use crate::merge::all_fit;
use crate::region::RegionView;
use vstd::prelude::*;

verus! {

/// Bounding boxes whose width or height is at most this many pixels are
/// taken for noise.
pub const MIN_BOX_SIZE: u32 = 5;

/// A pixel position.
#[derive(Clone, Copy, Debug, PartialEq, Eq, Structural)]
pub struct Point {
    pub x: u32,
    pub y: u32,
}

/// Mathematical model of a contour: the points of a traced border, and the
/// index of the contour that encloses it, if there is one.
pub struct ContourView {
    pub points: Seq<Point>,
    pub parent: Option<usize>,
}

/// The traced border of a connected region of foreground pixels.
#[derive(Debug)]
pub struct Contour {
    pub points: Vec<Point>,
    pub parent: Option<usize>,
}

impl View for Contour {
    type V = ContourView;

    open spec fn view(&self) -> ContourView {
        ContourView { points: self.points@, parent: self.parent }
    }
}

/// Models of a sequence of contours, in order.
pub open spec fn contour_views(contours: Seq<Contour>) -> Seq<ContourView> {
    contours.map_values(|c: Contour| c@)
}

/// Every point of every contour lies inside an image of the given size.
pub open spec fn contours_inside(contours: Seq<ContourView>, width: int, height: int) -> bool {
    forall|i: int, j: int|
        0 <= i < contours.len() && 0 <= j < contours[i].points.len() ==> (
        #[trigger] contours[i].points[j]).x < width && contours[i].points[j].y < height
}

/// Smallest x-coordinate of a non-empty sequence of points.
pub open spec fn min_x(points: Seq<Point>) -> int
    decreases points.len(),
{
    if points.len() <= 1 {
        points[0].x as int
    } else {
        let rest = min_x(points.drop_last());
        if points.last().x < rest {
            points.last().x as int
        } else {
            rest
        }
    }
}

/// Greatest x-coordinate of a non-empty sequence of points.
pub open spec fn max_x(points: Seq<Point>) -> int
    decreases points.len(),
{
    if points.len() <= 1 {
        points[0].x as int
    } else {
        let rest = max_x(points.drop_last());
        if points.last().x > rest {
            points.last().x as int
        } else {
            rest
        }
    }
}

/// Smallest y-coordinate of a non-empty sequence of points.
pub open spec fn min_y(points: Seq<Point>) -> int
    decreases points.len(),
{
    if points.len() <= 1 {
        points[0].y as int
    } else {
        let rest = min_y(points.drop_last());
        if points.last().y < rest {
            points.last().y as int
        } else {
            rest
        }
    }
}

/// Greatest y-coordinate of a non-empty sequence of points.
pub open spec fn max_y(points: Seq<Point>) -> int
    decreases points.len(),
{
    if points.len() <= 1 {
        points[0].y as int
    } else {
        let rest = max_y(points.drop_last());
        if points.last().y > rest {
            points.last().y as int
        } else {
            rest
        }
    }
}

/// The extremes bound every point, and each of them is reached by a point.
pub proof fn lemma_extent(points: Seq<Point>)
    requires
        points.len() > 0,
    ensures
        forall|i: int|
            0 <= i < points.len() ==> min_x(points) <= (#[trigger] points[i]).x <= max_x(points)
                && min_y(points) <= points[i].y <= max_y(points),
        exists|i: int| 0 <= i < points.len() && (#[trigger] points[i]).x == min_x(points),
        exists|i: int| 0 <= i < points.len() && (#[trigger] points[i]).x == max_x(points),
        exists|i: int| 0 <= i < points.len() && (#[trigger] points[i]).y == min_y(points),
        exists|i: int| 0 <= i < points.len() && (#[trigger] points[i]).y == max_y(points),
    decreases points.len(),
{
    if points.len() > 1 {
        let front = points.drop_last();
        lemma_extent(front);
        let n = points.len() - 1;
        assert forall|i: int| 0 <= i < points.len() implies min_x(points) <= (
        #[trigger] points[i]).x <= max_x(points) && min_y(points) <= points[i].y <= max_y(
            points,
        ) by {
            if i < n {
                assert(front[i] == points[i]);
            }
        }
        let a = choose|i: int| 0 <= i < front.len() && (#[trigger] front[i]).x == min_x(front);
        assert(points[a] == front[a]);
        assert(points[if points.last().x < min_x(front) { n } else { a }].x == min_x(points));
        let b = choose|i: int| 0 <= i < front.len() && (#[trigger] front[i]).x == max_x(front);
        assert(points[b] == front[b]);
        assert(points[if points.last().x > max_x(front) { n } else { b }].x == max_x(points));
        let c = choose|i: int| 0 <= i < front.len() && (#[trigger] front[i]).y == min_y(front);
        assert(points[c] == front[c]);
        assert(points[if points.last().y < min_y(front) { n } else { c }].y == min_y(points));
        let d = choose|i: int| 0 <= i < front.len() && (#[trigger] front[i]).y == max_y(front);
        assert(points[d] == front[d]);
        assert(points[if points.last().y > max_y(front) { n } else { d }].y == max_y(points));
    } else {
        assert(points[0].x == min_x(points));
    }
}

/// The bounding box of a set of points: the smallest rectangle that holds
/// them all, from the smallest coordinates to the greatest. There is none
/// for an empty set, for points that spread over at most `MIN_BOX_SIZE`
/// pixels in width or in height, or for a box whose far edges are not
/// representable coordinates.
pub open spec fn bounding_box(points: Seq<Point>) -> Option<RegionView> {
    if points.len() == 0 {
        None
    } else {
        let spread_x = max_x(points) - min_x(points);
        let spread_y = max_y(points) - min_y(points);
        if spread_x <= MIN_BOX_SIZE || spread_y <= MIN_BOX_SIZE {
            None
        } else if max_x(points) >= i32::MAX || max_y(points) >= i32::MAX {
            None
        } else {
            Some(
                RegionView {
                    left: min_x(points),
                    top: min_y(points),
                    width: spread_x + 1,
                    height: spread_y + 1,
                },
            )
        }
    }
}

/// A bounding box is a valid region, it holds every point, and each of its
/// edges passes through a point.
pub proof fn lemma_bounding_box(points: Seq<Point>)
    requires
        bounding_box(points) is Some,
    ensures
        bounding_box(points)->0.wf(),
        forall|i: int|
            0 <= i < points.len() ==> bounding_box(points)->0.contains(
                (#[trigger] points[i]).x as int,
                points[i].y as int,
            ),
        exists|i: int|
            0 <= i < points.len() && (#[trigger] points[i]).x == bounding_box(points)->0.left,
        exists|i: int|
            0 <= i < points.len() && (#[trigger] points[i]).x == bounding_box(points)->0.right(),
        exists|i: int|
            0 <= i < points.len() && (#[trigger] points[i]).y == bounding_box(points)->0.top,
        exists|i: int|
            0 <= i < points.len() && (#[trigger] points[i]).y == bounding_box(points)->0.bottom(),
{
    lemma_extent(points);
}

/// A bounding box lies inside every image that holds the points.
pub proof fn lemma_bounding_box_fits(points: Seq<Point>, width: int, height: int)
    requires
        bounding_box(points) is Some,
        forall|i: int| 0 <= i < points.len() ==> (#[trigger] points[i]).x < width && points[i].y
            < height,
    ensures
        bounding_box(points)->0.fits_within(width, height),
{
    lemma_extent(points);
}

/// A region grown by `border` pixels on every side, as far as the image of
/// the given size allows.
pub open spec fn expanded(region: RegionView, border: int, width: int, height: int) -> RegionView {
    let left = if region.left - border > 0 { region.left - border } else { 0 };
    let top = if region.top - border > 0 { region.top - border } else { 0 };
    let right = if region.right() + border < width - 1 {
        region.right() + border
    } else {
        width - 1
    };
    let bottom = if region.bottom() + border < height - 1 {
        region.bottom() + border
    } else {
        height - 1
    };
    RegionView { left, top, width: right - left + 1, height: bottom - top + 1 }
}

/// Growing a region inside an image gives a valid region inside the image
/// that encloses the first.
pub proof fn lemma_expanded(region: RegionView, border: int, width: int, height: int)
    requires
        region.wf(),
        region.fits_within(width, height),
        0 <= border,
        width <= i32::MAX,
        height <= i32::MAX,
    ensures
        expanded(region, border, width, height).wf(),
        expanded(region, border, width, height).fits_within(width, height),
        expanded(region, border, width, height).encloses(region),
{
}

/// The text boxes of a list of contours: for each contour without a parent
/// that has a bounding box, that box grown by `border`, in the order of the
/// contours.
pub open spec fn boxes_of(contours: Seq<ContourView>, border: int, width: int, height: int) -> Seq<
    RegionView,
>
    decreases contours.len(),
{
    if contours.len() == 0 {
        Seq::empty()
    } else {
        let before = boxes_of(contours.drop_last(), border, width, height);
        let contour = contours.last();
        if contour.parent is None && bounding_box(contour.points) is Some {
            before.push(expanded(bounding_box(contour.points)->0, border, width, height))
        } else {
            before
        }
    }
}

/// The text boxes of contours inside an image are valid regions inside it.
pub proof fn lemma_boxes_fit(contours: Seq<ContourView>, border: int, width: int, height: int)
    requires
        contours_inside(contours, width, height),
        0 <= border,
        width <= i32::MAX,
        height <= i32::MAX,
    ensures
        crate::merge::all_wf(boxes_of(contours, border, width, height)),
        all_fit(boxes_of(contours, border, width, height), width, height),
        boxes_of(contours, border, width, height).len() <= contours.len(),
    decreases contours.len(),
{
    if contours.len() > 0 {
        let front = contours.drop_last();
        assert forall|i: int, j: int|
            0 <= i < front.len() && 0 <= j < front[i].points.len() implies (
        #[trigger] front[i].points[j]).x < width && front[i].points[j].y < height by {
            assert(front[i] == contours[i]);
        }
        lemma_boxes_fit(front, border, width, height);
        let contour = contours.last();
        if contour.parent is None && bounding_box(contour.points) is Some {
            assert forall|j: int| 0 <= j < contour.points.len() implies (
            #[trigger] contour.points[j]).x < width && contour.points[j].y < height by {
                assert(contour == contours[contours.len() - 1]);
            }
            lemma_bounding_box(contour.points);
            lemma_bounding_box_fits(contour.points, width, height);
            lemma_expanded(bounding_box(contour.points)->0, border, width, height);
        }
    }
}

/// Contours without points have no text boxes.
pub proof fn lemma_no_points_no_boxes(
    contours: Seq<ContourView>,
    border: int,
    width: int,
    height: int,
)
    requires
        forall|i: int| 0 <= i < contours.len() ==> (#[trigger] contours[i]).points.len() == 0,
    ensures
        boxes_of(contours, border, width, height) == Seq::<RegionView>::empty(),
    decreases contours.len(),
{
    if contours.len() > 0 {
        let front = contours.drop_last();
        assert forall|i: int| 0 <= i < front.len() implies (#[trigger] front[i]).points.len()
            == 0 by {
            assert(front[i] == contours[i]);
        }
        lemma_no_points_no_boxes(front, border, width, height);
        assert(contours.last() == contours[contours.len() - 1]);
    }
}

} // verus!
