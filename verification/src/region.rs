use vstd::prelude::*;

verus! {

/// Mathematical model of a text region: an axis-aligned rectangle on the
/// integer grid, given by its top-left corner and its size.
pub struct RegionView {
    pub left: int,
    pub top: int,
    pub width: int,
    pub height: int,
}

impl RegionView {
    /// Greatest x-coordinate covered by the rectangle.
    pub open spec fn right(self) -> int {
        self.left + self.width - 1
    }

    /// Greatest y-coordinate covered by the rectangle.
    pub open spec fn bottom(self) -> int {
        self.top + self.height - 1
    }

    /// Number of grid points covered by the rectangle.
    pub open spec fn area(self) -> int {
        self.width * self.height
    }

    /// A region is valid when it is non-empty and both far edges are
    /// representable pixel coordinates.
    pub open spec fn wf(self) -> bool {
        &&& 0 < self.width <= u32::MAX
        &&& 0 < self.height <= u32::MAX
        &&& i32::MIN <= self.left
        &&& i32::MIN <= self.top
        &&& self.left + self.width <= i32::MAX
        &&& self.top + self.height <= i32::MAX
    }

    /// Whether the grid point `(x, y)` lies inside the rectangle.
    pub open spec fn contains(self, x: int, y: int) -> bool {
        self.left <= x <= self.right() && self.top <= y <= self.bottom()
    }

    /// Whether every point of `other` lies inside `self`.
    pub open spec fn encloses(self, other: RegionView) -> bool {
        &&& self.left <= other.left
        &&& self.top <= other.top
        &&& other.right() <= self.right()
        &&& other.bottom() <= self.bottom()
    }

    /// Whether the rectangle lies inside an image of the given size.
    pub open spec fn fits_within(self, width: int, height: int) -> bool {
        &&& 0 <= self.left
        &&& 0 <= self.top
        &&& self.left + self.width <= width
        &&& self.top + self.height <= height
    }

    /// Whether some point of the rectangle lies inside an image of the given
    /// size.
    pub open spec fn overlaps_image(self, width: int, height: int) -> bool {
        &&& 0 < width
        &&& 0 < height
        &&& self.left < width
        &&& self.top < height
        &&& self.left + self.width > 0
        &&& self.top + self.height > 0
    }

    /// The part of the rectangle that lies inside an image of the given
    /// size.
    pub open spec fn clamped(self, width: int, height: int) -> RegionView {
        let left = if self.left > 0 { self.left } else { 0 };
        let top = if self.top > 0 { self.top } else { 0 };
        let right = if self.left + self.width < width { self.left + self.width } else { width };
        let bottom = if self.top + self.height < height { self.top + self.height } else { height };
        RegionView { left, top, width: right - left, height: bottom - top }
    }

    /// Smallest rectangle that encloses both `self` and `other`.
    pub open spec fn union(self, other: RegionView) -> RegionView {
        let left = if self.left <= other.left { self.left } else { other.left };
        let top = if self.top <= other.top { self.top } else { other.top };
        let right = if self.right() >= other.right() { self.right() } else { other.right() };
        let bottom = if self.bottom() >= other.bottom() { self.bottom() } else { other.bottom() };
        RegionView { left, top, width: right - left + 1, height: bottom - top + 1 }
    }
}

/// The union of two valid regions is valid and encloses both of them.
pub proof fn lemma_union_wf(a: RegionView, b: RegionView)
    requires
        a.wf(),
        b.wf(),
    ensures
        a.union(b).wf(),
        a.union(b).encloses(a),
        a.union(b).encloses(b),
{
}

/// The union of two regions inside an image lies inside that image.
pub proof fn lemma_union_fits(a: RegionView, b: RegionView, width: int, height: int)
    requires
        a.fits_within(width, height),
        b.fits_within(width, height),
    ensures
        a.union(b).fits_within(width, height),
{
}

/// A rectangular text region in pixel coordinates. Its width and height are
/// always positive.
#[derive(Clone, Copy, Debug)]
pub struct TextRegion {
    left: i32,
    top: i32,
    width: u32,
    height: u32,
}

impl View for TextRegion {
    type V = RegionView;

    closed spec fn view(&self) -> RegionView {
        RegionView {
            left: self.left as int,
            top: self.top as int,
            width: self.width as int,
            height: self.height as int,
        }
    }
}

impl TextRegion {
    #[verifier::type_invariant]
    pub closed spec fn inv(self) -> bool {
        self@.wf()
    }

    /// What holds of every region that exists at run time.
    pub proof fn lemma_valid(&self)
        requires
            self.inv(),
        ensures
            self@.wf(),
    {
    }

    /// Two regions with the same model are the same region.
    pub proof fn lemma_view_injective(a: TextRegion, b: TextRegion)
        requires
            a@ == b@,
        ensures
            a == b,
    {
    }

    /// Builds a region from its top-left corner and its size. The region is
    /// refused when it is empty or when a far edge is not a representable
    /// coordinate.
    pub fn new(left: i32, top: i32, width: u32, height: u32) -> (region: Option<TextRegion>)
        ensures
            region is Some <==> (RegionView {
                left: left as int,
                top: top as int,
                width: width as int,
                height: height as int,
            }).wf(),
            region is Some ==> region->0@ == (RegionView {
                left: left as int,
                top: top as int,
                width: width as int,
                height: height as int,
            }),
    {
        if width > 0 && height > 0 && left as i64 + width as i64 <= i32::MAX as i64 && top as i64
            + height as i64 <= i32::MAX as i64 {
            Some(TextRegion { left, top, width, height })
        } else {
            None
        }
    }

    /// Smallest x-coordinate of the region.
    pub fn left(&self) -> (x: i32)
        ensures
            x == self@.left,
    {
        self.left
    }

    /// Smallest y-coordinate of the region.
    pub fn top(&self) -> (y: i32)
        ensures
            y == self@.top,
    {
        self.top
    }

    /// Width of the region in pixels.
    pub fn width(&self) -> (w: u32)
        ensures
            w == self@.width,
            w > 0,
    {
        proof {
            use_type_invariant(self);
        }
        self.width
    }

    /// Height of the region in pixels.
    pub fn height(&self) -> (h: u32)
        ensures
            h == self@.height,
            h > 0,
    {
        proof {
            use_type_invariant(self);
        }
        self.height
    }

    /// Greatest x-coordinate of the region.
    pub fn right(&self) -> (x: i32)
        ensures
            x == self@.right(),
    {
        proof {
            use_type_invariant(self);
        }
        (self.left as i64 + self.width as i64 - 1) as i32
    }

    /// Greatest y-coordinate of the region.
    pub fn bottom(&self) -> (y: i32)
        ensures
            y == self@.bottom(),
    {
        proof {
            use_type_invariant(self);
        }
        (self.top as i64 + self.height as i64 - 1) as i32
    }

    /// Number of pixels in the region.
    pub fn area(&self) -> (a: u64)
        ensures
            a == self@.area(),
    {
        proof {
            use_type_invariant(self);
            assert(self.width as int * self.height as int <= u32::MAX as int * u32::MAX as int)
                by (nonlinear_arith)
                requires
                    0 <= self.width as int <= u32::MAX as int,
                    0 <= self.height as int <= u32::MAX as int,
            ;
        }
        self.width as u64 * self.height as u64
    }

    /// Whether the region lies inside an image of the given size.
    pub fn fits_within(&self, width: u32, height: u32) -> (fits: bool)
        ensures
            fits == self@.fits_within(width as int, height as int),
    {
        self.left >= 0 && self.top >= 0 && self.left as i64 + self.width as i64 <= width as i64
            && self.top as i64 + self.height as i64 <= height as i64
    }

    /// Smallest region that encloses both `self` and `other`.
    pub fn union(&self, other: &TextRegion) -> (merged: TextRegion)
        ensures
            merged@ == self@.union(other@),
    {
        proof {
            use_type_invariant(self);
            use_type_invariant(other);
            lemma_union_wf(self@, other@);
        }
        let left: i32 = if self.left <= other.left { self.left } else { other.left };
        let top: i32 = if self.top <= other.top { self.top } else { other.top };
        let self_right: i64 = self.left as i64 + self.width as i64 - 1;
        let other_right: i64 = other.left as i64 + other.width as i64 - 1;
        let self_bottom: i64 = self.top as i64 + self.height as i64 - 1;
        let other_bottom: i64 = other.top as i64 + other.height as i64 - 1;
        let right: i64 = if self_right >= other_right { self_right } else { other_right };
        let bottom: i64 = if self_bottom >= other_bottom { self_bottom } else { other_bottom };
        TextRegion {
            left,
            top,
            width: (right - left as i64 + 1) as u32,
            height: (bottom - top as i64 + 1) as u32,
        }
    }

    /// The part of the region that lies inside an image of the given size,
    /// if there is any.
    pub fn clamp_to(&self, width: u32, height: u32) -> (clamped: Option<TextRegion>)
        ensures
            clamped is Some <==> self@.overlaps_image(width as int, height as int),
            clamped matches Some(r) ==> r@ == self@.clamped(width as int, height as int) && r@.fits_within(
                width as int,
                height as int,
            ),
            self@.fits_within(width as int, height as int) ==> clamped == Some(*self),
    {
        proof {
            use_type_invariant(self);
        }
        let left: i64 = if self.left > 0 { self.left as i64 } else { 0 };
        let top: i64 = if self.top > 0 { self.top as i64 } else { 0 };
        let far_x: i64 = self.left as i64 + self.width as i64;
        let far_y: i64 = self.top as i64 + self.height as i64;
        let right: i64 = if far_x < width as i64 { far_x } else { width as i64 };
        let bottom: i64 = if far_y < height as i64 { far_y } else { height as i64 };
        if left < right && top < bottom {
            let clamped = TextRegion {
                left: left as i32,
                top: top as i32,
                width: (right - left) as u32,
                height: (bottom - top) as u32,
            };
            Some(clamped)
        } else {
            None
        }
    }
}

/// Models of a sequence of regions, in order.
pub open spec fn region_views(regions: Seq<TextRegion>) -> Seq<RegionView> {
    regions.map_values(|r: TextRegion| r@)
}

} // verus!
