use crate::error::{OcrError, OcrResult};
use crate::raster::{lemma_image_extensional, lemma_index_bounds, Image, ImageView};
use crate::region::{region_views, RegionView, TextRegion};
use rayon::iter::{IntoParallelRefIterator, ParallelIterator};
use rayon::slice::ParallelSlice;
use std::sync::Arc;
use vstd::pervasive::VecAdditionalExecFns;
use vstd::prelude::*;
use vstd::slice::slice_subrange;
use vstd::string::StringExecFns;

verus! {

/// `out` is the part of `source` that `region` delimits: it has the region's
/// size and the source's channels, and its sample at `(x, y)` is the source's
/// sample at `(region.left + x, region.top + y)`.
pub open spec fn is_crop(out: ImageView, source: ImageView, region: RegionView) -> bool {
    &&& out.wf()
    &&& out.width == region.width
    &&& out.height == region.height
    &&& out.channels == source.channels
    &&& forall|x: int, y: int, c: int|
        out.in_bounds(x, y, c) ==> #[trigger] out.sample(x, y, c) == source.sample(
            region.left + x,
            region.top + y,
            c,
        )
}

/// A region has at most one crop.
pub proof fn lemma_crop_unique(a: ImageView, b: ImageView, source: ImageView, region: RegionView)
    requires
        is_crop(a, source, region),
        is_crop(b, source, region),
    ensures
        a == b,
{
    assert forall|x: int, y: int, c: int| a.in_bounds(x, y, c) implies #[trigger] a.sample(x, y, c)
        == b.sample(x, y, c) by {
        assert(b.in_bounds(x, y, c));
        assert(b.sample(x, y, c) == source.sample(region.left + x, region.top + y, c));
    }
    lemma_image_extensional(a, b);
}

/// The crop of the region that covers the whole image is the image itself.
pub proof fn lemma_whole_image_is_crop(source: ImageView, region: RegionView)
    requires
        source.wf(),
        region.left == 0,
        region.top == 0,
        region.width == source.width,
        region.height == source.height,
    ensures
        is_crop(source, source, region),
{
}

/// Position of channel `c` of the pixel at `(x, y)` in a buffer of rows of
/// `width` pixels with `channels` samples each.
pub open spec fn sample_index(width: int, channels: int, x: int, y: int, c: int) -> int {
    (y * width + x) * channels + c
}

/// The first `pixels` pixels of `data`, counted row by row, hold what the
/// crop of `region` holds there.
pub open spec fn filled(data: Seq<u8>, source: ImageView, region: RegionView, pixels: int) -> bool {
    forall|x: int, y: int, c: int|
        0 <= x < region.width && 0 <= y < region.height && 0 <= c < source.channels && y
            * region.width + x < pixels ==> data[#[trigger] sample_index(
            region.width,
            source.channels,
            x,
            y,
            c,
        )] == source.sample(region.left + x, region.top + y, c)
}

/// Where the samples of a pixel lie, in terms of the number of pixels
/// before it.
proof fn lemma_sample_index(width: int, height: int, channels: int, x: int, y: int, c: int)
    requires
        0 <= x < width,
        0 <= y < height,
        0 <= c < channels,
    ensures
        sample_index(width, channels, x, y, c) == (y * width + x) * channels + c,
        sample_index(width, channels, x, y, c) == y * (width * channels) + (x * channels + c),
        0 <= x * channels + c < width * channels,
        0 <= y * width + x < width * height,
        (y * width + x) * channels <= sample_index(width, channels, x, y, c) < (y * width + x + 1)
            * channels,
        sample_index(width, channels, x, y, c) < width * height * channels,
{
    assert((y * width + x) * channels + c == y * (width * channels) + (x * channels + c))
        by (nonlinear_arith);
    assert(0 <= x * channels + c < width * channels) by (nonlinear_arith)
        requires
            0 <= x < width,
            0 <= c < channels,
    ;
    assert(0 <= y * width + x < width * height) by (nonlinear_arith)
        requires
            0 <= x < width,
            0 <= y < height,
    ;
    let p = y * width + x;
    assert((p + 1) * channels == p * channels + channels) by (nonlinear_arith);
    assert((p + 1) * channels <= (width * height) * channels) by (nonlinear_arith)
        requires
            p + 1 <= width * height,
            channels > 0,
    ;
}

/// Two pixels of a row-major grid with the same rank are the same pixel.
proof fn lemma_pixel_unique(width: int, x: int, y: int, xx: int, yy: int)
    requires
        0 <= x < width,
        0 <= xx < width,
        0 <= y,
        0 <= yy,
        yy * width + xx == y * width + x,
    ensures
        xx == x,
        yy == y,
{
    assert(yy == y) by (nonlinear_arith)
        requires
            0 <= x < width,
            0 <= xx < width,
            yy * width + xx == y * width + x,
    ;
    assert(yy * width == y * width);
}

/// A buffer of the right length whose pixels are all filled is the crop.
proof fn lemma_filled_is_crop(out: ImageView, source: ImageView, region: RegionView)
    requires
        out.wf(),
        out.width == region.width,
        out.height == region.height,
        out.channels == source.channels,
        filled(out.data, source, region, region.width * region.height),
    ensures
        is_crop(out, source, region),
{
    assert forall|x: int, y: int, c: int| out.in_bounds(x, y, c) implies #[trigger] out.sample(
        x,
        y,
        c,
    ) == source.sample(region.left + x, region.top + y, c) by {
        lemma_sample_index(region.width, region.height, source.channels, x, y, c);
        assert(out.index(x, y, c) == sample_index(region.width, source.channels, x, y, c));
    }
}

/// How one region is taken out of an image.
#[derive(Clone, Copy, Debug, PartialEq, Eq, Structural)]
pub enum CropStrategy {
    /// The region is the whole image: the image is handed back as it is.
    WholeImage,
    /// The region is small: its pixels are copied one by one.
    PixelCopy,
    /// Otherwise: its rows are copied in bulk.
    Standard,
}

/// The strategy for a region of an image of `width` by `height` pixels: the
/// whole image where the region covers it, a copy pixel by pixel where the
/// region's area is under a tenth of the image's, bulk copy otherwise.
pub open spec fn strategy_for(width: int, height: int, region: RegionView) -> CropStrategy {
    if region.left == 0 && region.top == 0 && region.width == width && region.height == height {
        CropStrategy::WholeImage
    } else if region.area() < (width * height) / 10 {
        CropStrategy::PixelCopy
    } else {
        CropStrategy::Standard
    }
}

/// Every region of the sequence lies inside the image.
pub open spec fn all_fit_image(rects: Seq<TextRegion>, image: ImageView) -> bool {
    forall|i: int|
        0 <= i < rects.len() ==> (#[trigger] rects[i])@.fits_within(image.width, image.height)
}

/// `out` holds, in order, the crop of each region of `rects`.
pub open spec fn crops_of(out: Seq<Image>, image: ImageView, rects: Seq<RegionView>) -> bool {
    &&& out.len() == rects.len()
    &&& forall|i: int| 0 <= i < rects.len() ==> is_crop((#[trigger] out[i])@, image, rects[i])
}

/// Sum of the areas of the regions.
pub open spec fn total_area(rects: Seq<TextRegion>) -> int
    decreases rects.len(),
{
    if rects.len() == 0 {
        0
    } else {
        total_area(rects.drop_last()) + rects.last()@.area()
    }
}

/// A batch is worked off one region after the other when it has fewer than
/// four regions or when their average area is above an eighth of the image's.
pub open spec fn batch_is_serial(image: ImageView, rects: Seq<TextRegion>) -> bool {
    rects.len() < 4 || total_area(rects) / (rects.len() as int) > (image.width * image.height) / 8
}

/// How a parallel batch of `count` regions is cut up for `cores` workers: not
/// at all (`None`) when there are at most two regions per worker, otherwise
/// into chunks of `count / cores` regions, at least one. An unknown number of
/// workers, given as 0, counts as four.
pub open spec fn chunk_plan(count: int, cores: int) -> Option<int> {
    let workers = if cores == 0 { 4 } else { cores };
    if count <= workers * 2 {
        None
    } else if count / workers >= 1 {
        Some(count / workers)
    } else {
        Some(1)
    }
}

/// Whether a region counts as small in an image: its area is under a tenth
/// of the image's.
pub open spec fn is_small(image: ImageView, region: RegionView) -> bool {
    region.area() < (image.width * image.height) / 10
}

/// The indices of the list rise.
pub open spec fn ascending(indices: Seq<usize>) -> bool {
    forall|a: int, b: int| 0 <= a < b < indices.len() ==> indices[a] < indices[b]
}

/// The index `j` occurs in the list.
pub open spec fn listed(indices: Seq<usize>, j: int) -> bool {
    exists|k: int| 0 <= k < indices.len() && #[trigger] indices[k] == j
}

/// An image that is either owned or shared with other holders.
pub enum ImageRef {
    Owned(Image),
    Shared(Arc<Image>),
}

impl View for ImageRef {
    type V = ImageView;

    open spec fn view(&self) -> ImageView {
        match self {
            ImageRef::Owned(img) => img@,
            ImageRef::Shared(img) => img@,
        }
    }
}

impl ImageRef {
    /// The image behind the reference.
    pub fn as_dynamic_image(&self) -> (image: &Image)
        ensures
            image@ == self@,
    {
        match self {
            ImageRef::Owned(img) => img,
            ImageRef::Shared(img) => &**img,
        }
    }

    /// Width and height of the image in pixels.
    pub fn dimensions(&self) -> (size: (u32, u32))
        ensures
            size.0 == self@.width,
            size.1 == self@.height,
    {
        self.as_dynamic_image().dimensions()
    }
}

impl From<Image> for ImageRef {
    fn from(img: Image) -> (image: Self) {
        ImageRef::Owned(img)
    }
}

impl vstd::std_specs::convert::FromSpecImpl<Image> for ImageRef {
    open spec fn obeys_from_spec() -> bool {
        true
    }

    open spec fn from_spec(img: Image) -> ImageRef {
        ImageRef::Owned(img)
    }
}

impl From<Arc<Image>> for ImageRef {
    fn from(img: Arc<Image>) -> (image: Self) {
        ImageRef::Shared(img)
    }
}

impl vstd::std_specs::convert::FromSpecImpl<Arc<Image>> for ImageRef {
    open spec fn obeys_from_spec() -> bool {
        true
    }

    open spec fn from_spec(img: Arc<Image>) -> ImageRef {
        ImageRef::Shared(img)
    }
}

/// Takes regions out of images, choosing the cheapest way for each.
pub struct EfficientCropper;

impl EfficientCropper {
    /// The strategy that `smart_crop` follows for this region.
    pub fn strategy(image: &ImageRef, rect: &TextRegion) -> (choice: CropStrategy)
        ensures
            choice == strategy_for(image@.width, image@.height, rect@),
    {
        let (img_w, img_h) = image.dimensions();
        let crop_area: u64 = rect.area();
        let total_area: u64 = image.as_dynamic_image().area();
        if rect.left() == 0 && rect.top() == 0 && rect.width() == img_w && rect.height() == img_h {
            CropStrategy::WholeImage
        } else if crop_area < total_area / 10 {
            CropStrategy::PixelCopy
        } else {
            CropStrategy::Standard
        }
    }

    /// Takes `rect` out of the image by the strategy that suits its size.
    pub fn smart_crop(image: &ImageRef, rect: &TextRegion) -> (out: Image)
        requires
            rect@.fits_within(image@.width, image@.height),
        ensures
            is_crop(out@, image@, rect@),
    {
        match Self::strategy(image, rect) {
            CropStrategy::WholeImage => {
                let whole = image.as_dynamic_image();
                proof {
                    use_type_invariant(whole);
                    whole.lemma_valid();
                    lemma_whole_image_is_crop(image@, rect@);
                }
                whole.clone()
            },
            CropStrategy::PixelCopy => Self::pixel_copy_crop(image.as_dynamic_image(), rect),
            CropStrategy::Standard => Self::standard_crop(image.as_dynamic_image(), rect),
        }
    }

    /// Takes `rect` out of the image if it lies inside it, and refuses it as
    /// wrong input if it does not.
    pub fn checked_crop(image: &ImageRef, rect: &TextRegion) -> (result: OcrResult<Image>)
        ensures
            result is Ok <==> rect@.fits_within(image@.width, image@.height),
            result matches Ok(out) ==> is_crop(out@, image@, rect@),
            result matches Err(e) ==> e is InputError,
    {
        let (width, height) = image.dimensions();
        if rect.fits_within(width, height) {
            Ok(Self::smart_crop(image, rect))
        } else {
            Err(OcrError::InputError(String::from_str("region does not lie inside the image")))
        }
    }

    /// Takes `rect` out of the image row by row, each row in one bulk copy.
    pub fn standard_crop(image: &Image, rect: &TextRegion) -> (out: Image)
        requires
            rect@.fits_within(image@.width, image@.height),
        ensures
            is_crop(out@, image@, rect@),
    {
        let width: u32 = rect.width();
        let height: u32 = rect.height();
        let channels: u8 = image.channels();
        let x_start: u32 = rect.left() as u32;
        let y_start: u32 = rect.top() as u32;
        proof {
            use_type_invariant(image);
            image.lemma_valid();
            use_type_invariant(rect);
            rect.lemma_valid();
            lemma_index_bounds(image@, x_start as int, y_start as int, 0);
            assert(width as int * channels as int <= image@.width * image@.height
                * image@.channels) by (nonlinear_arith)
                requires
                    0 < width as int <= image@.width,
                    0 < image@.height,
                    channels as int == image@.channels,
                    channels > 0,
            ;
        }
        let raw: &Vec<u8> = image.as_raw();
        assert(raw@.len() == raw.len());
        let row_len: usize = width as usize * channels as usize;
        let mut data: Vec<u8> = Vec::new();
        let mut y: u32 = 0;
        while y < height
            invariant
                y <= height,
                image@.wf(),
                rect@.wf(),
                rect@.fits_within(image@.width, image@.height),
                width == rect@.width,
                height == rect@.height,
                channels == image@.channels,
                x_start == rect@.left,
                y_start == rect@.top,
                raw@ == image@.data,
                raw@.len() <= usize::MAX,
                row_len == width * channels,
                data.len() == y * row_len,
                filled(data@, image@, rect@, y * width),
            decreases height - y,
        {
            let start: usize = image.offset(x_start, y_start + y);
            proof {
                lemma_index_bounds(
                    image@,
                    x_start as int + width as int - 1,
                    y_start as int + y as int,
                    channels as int - 1,
                );
                let w = image@.width;
                let ch = image@.channels;
                let row = y_start as int + y as int;
                assert((row * w + (x_start + width - 1)) * ch + (ch - 1) == (row * w + x_start)
                    * ch + width * ch - 1) by (nonlinear_arith);
                assert(image@.index(x_start + width - 1, row, ch - 1) == start + row_len - 1);
                assert(start + row_len <= raw@.len());
            }
            let row: &[u8] = slice_subrange(raw.as_slice(), start, start + row_len);
            let ghost before = data@;
            data.extend_from_slice(row);
            proof {
                let w = image@.width;
                let ch = image@.channels;
                assert((y + 1) * row_len == y * row_len + row_len) by (nonlinear_arith);
                assert((y + 1) * width == y * width + width) by (nonlinear_arith);
                assert forall|xx: int, yy: int, c: int|
                    0 <= xx < rect@.width && 0 <= yy < rect@.height && 0 <= c < ch && yy
                        * rect@.width + xx < (y + 1) * width implies data@[#[trigger] sample_index(
                    rect@.width,
                    ch,
                    xx,
                    yy,
                    c,
                )] == image@.sample(rect@.left + xx, rect@.top + yy, c) by {
                    lemma_sample_index(width as int, height as int, ch, xx, yy, c);
                    let k = sample_index(rect@.width, ch, xx, yy, c);
                    if yy < y {
                        assert(yy * width + xx < y * width) by (nonlinear_arith)
                            requires
                                0 <= xx < width,
                                0 <= yy < y,
                        ;
                        assert(k < y * row_len) by (nonlinear_arith)
                            requires
                                k < (yy * width + xx + 1) * ch,
                                yy * width + xx + 1 <= y * width,
                                row_len == width * ch,
                                ch > 0,
                        ;
                        assert(data@[k] == before[k]);
                    } else {
                        assert(yy == y) by (nonlinear_arith)
                            requires
                                yy * width + xx < (y + 1) * width,
                                0 <= xx < width,
                                yy >= y,
                                width > 0,
                        ;
                        let j = xx * ch + c;
                        assert(k == y * row_len + j) by (nonlinear_arith)
                            requires
                                k == yy * (width * ch) + (xx * ch + c),
                                yy == y,
                                row_len == width * ch,
                                j == xx * ch + c,
                        ;
                        assert(data@[k] == row@[j]);
                        assert(row@[j] == raw@[start + j]);
                        assert(start + j == image@.index(
                            rect@.left + xx,
                            rect@.top + yy,
                            c,
                        )) by (nonlinear_arith)
                            requires
                                start == ((y_start + y) * w + x_start) * ch,
                                j == xx * ch + c,
                                yy == y,
                                x_start == rect@.left,
                                y_start == rect@.top,
                                image@.index(rect@.left + xx, rect@.top + yy, c) == ((rect@.top
                                    + yy) * w + (rect@.left + xx)) * ch + c,
                        ;
                    }
                }
            }
            y += 1;
        }
        proof {
            assert(data.len() == width * height * channels) by (nonlinear_arith)
                requires
                    data.len() == height * row_len,
                    row_len == width * channels,
            ;
        }
        let ghost view = ImageView {
            width: width as int,
            height: height as int,
            channels: channels as int,
            data: data@,
        };
        proof {
            assert(height * width == rect@.width * rect@.height) by (nonlinear_arith)
                requires
                    width == rect@.width,
                    height == rect@.height,
            ;
            lemma_filled_is_crop(view, image@, rect@);
        }
        Image::from_raw(width, height, channels, data).unwrap()
    }
    /// Takes `rect` out of the image pixel by pixel. Images that are neither
    /// RGB nor RGBA are handed to `standard_crop`.
    pub fn pixel_copy_crop(image: &Image, rect: &TextRegion) -> (out: Image)
        requires
            rect@.fits_within(image@.width, image@.height),
        ensures
            is_crop(out@, image@, rect@),
    {
        let channels: u8 = image.channels();
        if channels != 3 && channels != 4 {
            return Self::standard_crop(image, rect);
        }
        let width: u32 = rect.width();
        let height: u32 = rect.height();
        let x_start: u32 = rect.left() as u32;
        let y_start: u32 = rect.top() as u32;
        proof {
            use_type_invariant(image);
            image.lemma_valid();
            use_type_invariant(rect);
            rect.lemma_valid();
        }
        let raw: &Vec<u8> = image.as_raw();
        assert(raw@.len() == raw.len());
        let mut data: Vec<u8> = Vec::new();
        let mut y: u32 = 0;
        while y < height
            invariant
                y <= height,
                image@.wf(),
                rect@.wf(),
                rect@.fits_within(image@.width, image@.height),
                width == rect@.width,
                height == rect@.height,
                channels == image@.channels,
                x_start == rect@.left,
                y_start == rect@.top,
                raw@ == image@.data,
                raw@.len() == raw.len(),
                data.len() == (y * width) * channels,
                filled(data@, image@, rect@, y * width),
            decreases height - y,
        {
            let mut x: u32 = 0;
            while x < width
                invariant
                    x <= width,
                    y < height,
                    image@.wf(),
                    rect@.wf(),
                    rect@.fits_within(image@.width, image@.height),
                    width == rect@.width,
                    height == rect@.height,
                    channels == image@.channels,
                    x_start == rect@.left,
                    y_start == rect@.top,
                    raw@ == image@.data,
                    raw@.len() == raw.len(),
                    data.len() == (y * width + x) * channels,
                    filled(data@, image@, rect@, y * width + x),
                decreases width - x,
            {
                let at: usize = image.offset(x_start + x, y_start + y);
                let ghost pixel_start = data@;
                let mut c: u8 = 0;
                while c < channels
                    invariant
                        c <= channels,
                        x < width,
                        y < height,
                        image@.wf(),
                        rect@.wf(),
                        rect@.fits_within(image@.width, image@.height),
                        width == rect@.width,
                        height == rect@.height,
                        channels == image@.channels,
                        x_start == rect@.left,
                        y_start == rect@.top,
                        raw@ == image@.data,
                        raw@.len() == raw.len(),
                        at == image@.index(x_start + x, y_start + y, 0),
                        at + channels <= raw@.len(),
                        data.len() == (y * width + x) * channels + c,
                        pixel_start.len() == (y * width + x) * channels,
                        forall|k: int| 0 <= k < pixel_start.len() ==> data@[k] == pixel_start[k],
                        forall|cc: int|
                            0 <= cc < c ==> data@[#[trigger] sample_index(
                                width as int,
                                channels as int,
                                x as int,
                                y as int,
                                cc,
                            )] == image@.sample(rect@.left + x, rect@.top + y, cc),
                    decreases channels - c,
                {
                    data.push(raw[at + c as usize]);
                    c += 1;
                }
                proof {
                    let ch = channels as int;
                    let done = y * width + x;
                    assert((done + 1) * ch == done * ch + ch) by (nonlinear_arith);
                    assert forall|xx: int, yy: int, cc: int|
                        0 <= xx < rect@.width && 0 <= yy < rect@.height && 0 <= cc < ch && yy
                            * rect@.width + xx < done + 1 implies data@[#[trigger] sample_index(
                        rect@.width,
                        ch,
                        xx,
                        yy,
                        cc,
                    )] == image@.sample(rect@.left + xx, rect@.top + yy, cc) by {
                        lemma_sample_index(width as int, height as int, ch, xx, yy, cc);
                        let k = sample_index(rect@.width, ch, xx, yy, cc);
                        if yy * width + xx < done {
                            assert(k < done * ch) by (nonlinear_arith)
                                requires
                                    k < (yy * width + xx + 1) * ch,
                                    yy * width + xx + 1 <= done,
                                    ch > 0,
                            ;
                            assert(data@[k] == pixel_start[k]);
                        } else {
                            lemma_pixel_unique(width as int, x as int, y as int, xx, yy);
                        }
                    }
                }
                x += 1;
            }
            proof {
                assert((y + 1) * width == y * width + width) by (nonlinear_arith);
            }
            y += 1;
        }
        let ghost view = ImageView {
            width: width as int,
            height: height as int,
            channels: channels as int,
            data: data@,
        };
        proof {
            assert(height * width == rect@.width * rect@.height) by (nonlinear_arith)
                requires
                    width == rect@.width,
                    height == rect@.height,
            ;
            assert((height * width) * channels == width * height * channels) by (nonlinear_arith);
            lemma_filled_is_crop(view, image@, rect@);
        }
        Image::from_raw(width, height, channels, data).unwrap()
    }
    /// Whether every region lies inside the image.
    pub fn all_fit(image: &ImageRef, rects: &[TextRegion]) -> (fit: bool)
        ensures
            fit == all_fit_image(rects@, image@),
    {
        let (width, height) = image.dimensions();
        let mut i: usize = 0;
        while i < rects.len()
            invariant
                i <= rects.len(),
                width == image@.width,
                height == image@.height,
                forall|j: int|
                    0 <= j < i ==> (#[trigger] rects@[j])@.fits_within(image@.width, image@.height),
            decreases rects.len() - i,
        {
            if !rects[i].fits_within(width, height) {
                return false;
            }
            i += 1;
        }
        true
    }

    /// Takes each region out of the image, one after the other.
    pub fn serial_crop(image: &ImageRef, rects: &[TextRegion]) -> (out: Vec<Image>)
        requires
            all_fit_image(rects@, image@),
        ensures
            crops_of(out@, image@, region_views(rects@)),
    {
        let mut out: Vec<Image> = Vec::new();
        let mut i: usize = 0;
        while i < rects.len()
            invariant
                i <= rects.len(),
                all_fit_image(rects@, image@),
                out.len() == i,
                forall|j: int| 0 <= j < i ==> is_crop((#[trigger] out[j])@, image@, rects[j]@),
            decreases rects.len() - i,
        {
            let cropped = Self::smart_crop(image, &rects[i]);
            out.push(cropped);
            i += 1;
        }
        out
    }

    /// Takes one region out of the image: pixel by pixel if `pixel_copy` is
    /// set, by the strategy that suits its size otherwise.
    pub fn crop_one(image: &ImageRef, rect: &TextRegion, pixel_copy: bool) -> (out: Image)
        requires
            rect@.fits_within(image@.width, image@.height),
        ensures
            is_crop(out@, image@, rect@),
    {
        if pixel_copy {
            Self::pixel_copy_crop(image.as_dynamic_image(), rect)
        } else {
            Self::smart_crop(image, rect)
        }
    }

    /// Hands the regions to rayon's `par_iter().map(..).collect()`, with
    /// `crop_one` as the mapped function. Trusted: rayon calls the function
    /// once for each region and collects the results into a vector in the
    /// order of the regions.
    #[verifier::external_body]
    fn par_crop_each(image: &ImageRef, rects: &[TextRegion], pixel_copy: bool) -> (out: Vec<Image>)
        requires
            all_fit_image(rects@, image@),
        ensures
            crops_of(out@, image@, region_views(rects@)),
    {
        rects.par_iter().map(|rect| Self::crop_one(image, rect, pixel_copy)).collect()
    }

    /// Hands the regions to rayon's `par_chunks(..).flat_map(..).collect()`,
    /// with `serial_crop` as the function applied to each chunk. Trusted:
    /// rayon cuts the slice into consecutive chunks of `batch_size` regions,
    /// the last one possibly shorter, calls the function once for each, and
    /// collects what the calls return in the order of the chunks.
    #[verifier::external_body]
    fn par_crop_chunks(image: &ImageRef, rects: &[TextRegion], batch_size: usize) -> (out: Vec<
        Image,
    >)
        requires
            all_fit_image(rects@, image@),
            batch_size >= 1,
        ensures
            crops_of(out@, image@, region_views(rects@)),
    {
        rects.par_chunks(batch_size).flat_map(|chunk| Self::serial_crop(image, chunk)).collect()
    }

    /// Asks rayon's `current_num_threads` how many workers its pool has.
    /// Nothing is claimed of the number.
    #[verifier::external_body]
    fn worker_threads() -> (count: usize) {
        rayon::current_num_threads()
    }

    /// Sum of the areas of the regions.
    pub fn sum_areas(rects: &[TextRegion]) -> (total: u128)
        ensures
            total == total_area(rects@),
    {
        let mut total: u128 = 0;
        let mut i: usize = 0;
        assert(rects@.subrange(0, 0) =~= Seq::<TextRegion>::empty());
        while i < rects.len()
            invariant
                i <= rects.len(),
                total == total_area(rects@.subrange(0, i as int)),
                total <= i * 0x1_0000_0000_0000_0000,
            decreases rects.len() - i,
        {
            let area: u64 = rects[i].area();
            proof {
                let upto = rects@.subrange(0, i + 1);
                assert(upto.drop_last() =~= rects@.subrange(0, i as int));
                assert(upto.last() == rects@[i as int]);
            }
            total = total + area as u128;
            i += 1;
        }
        assert(rects@.subrange(0, rects.len() as int) =~= rects@);
        total
    }

    /// Whether `batch_crop` works the regions off one after the other.
    pub fn is_serial_batch(image: &ImageRef, rects: &[TextRegion]) -> (serial: bool)
        requires
            rects@.len() > 0,
        ensures
            serial == batch_is_serial(image@, rects@),
    {
        let total: u128 = Self::sum_areas(rects);
        let avg_area: u128 = total / rects.len() as u128;
        let image_area: u64 = image.as_dynamic_image().area();
        rects.len() < 4 || avg_area > (image_area / 8) as u128
    }

    /// The size of the chunks into which `parallel_batch_crop` cuts `count`
    /// regions for `cores` workers, or `None` where it does not cut.
    pub fn chunk_size(count: usize, cores: usize) -> (size: Option<usize>)
        ensures
            size is Some <==> chunk_plan(count as int, cores as int) is Some,
            size is Some ==> size->0 == chunk_plan(count as int, cores as int)->0,
            size is Some ==> size->0 >= 1,
    {
        let workers: usize = if cores == 0 { 4 } else { cores };
        if count as u128 <= workers as u128 * 2 {
            None
        } else {
            let per_worker: usize = count / workers;
            if per_worker >= 1 {
                Some(per_worker)
            } else {
                Some(1)
            }
        }
    }

    /// Takes each region out of the image. Small batches and batches of large
    /// regions are worked off one after the other, the others in parallel.
    /// The results come in the order of the regions.
    pub fn batch_crop(image: &ImageRef, rects: &[TextRegion]) -> (out: Vec<Image>)
        requires
            all_fit_image(rects@, image@),
        ensures
            crops_of(out@, image@, region_views(rects@)),
    {
        if rects.len() == 0 {
            return Vec::new();
        }
        if Self::is_serial_batch(image, rects) {
            Self::serial_crop(image, rects)
        } else {
            Self::parallel_batch_crop(image, rects)
        }
    }

    /// Takes each region out of the image on rayon's workers: one task for
    /// each region where there are at most two regions per worker, one task
    /// for each chunk of regions otherwise. The results come in the order of
    /// the regions.
    pub fn parallel_batch_crop(image: &ImageRef, rects: &[TextRegion]) -> (out: Vec<Image>)
        requires
            all_fit_image(rects@, image@),
        ensures
            crops_of(out@, image@, region_views(rects@)),
    {
        let cpu_cores: usize = Self::worker_threads();
        match Self::chunk_size(rects.len(), cpu_cores) {
            None => Self::par_crop_each(image, rects, false),
            Some(batch_size) => Self::par_crop_chunks(image, rects, batch_size),
        }
    }

    /// Sorts the regions by size: the indices of the small regions and the
    /// indices of the others, each list in rising order.
    pub fn split_by_size(image: &ImageRef, rects: &[TextRegion]) -> (parts: (Vec<usize>, Vec<usize>))
        ensures
            ascending(parts.0@),
            ascending(parts.1@),
            forall|k: int|
                0 <= k < parts.0.len() ==> (#[trigger] parts.0[k]) < rects@.len() && is_small(
                    image@,
                    rects@[parts.0[k] as int]@,
                ),
            forall|k: int|
                0 <= k < parts.1.len() ==> (#[trigger] parts.1[k]) < rects@.len() && !is_small(
                    image@,
                    rects@[parts.1[k] as int]@,
                ),
            forall|j: int|
                0 <= j < rects@.len() ==> #[trigger] listed(parts.0@, j) || listed(parts.1@, j),
    {
        let count: usize = rects.len();
        let cutoff: u64 = image.as_dynamic_image().area() / 10;
        let mut small_idx: Vec<usize> = Vec::new();
        let mut large_idx: Vec<usize> = Vec::new();
        let mut i: usize = 0;
        while i < count
            invariant
                i <= count,
                count == rects.len(),
                cutoff == (image@.width * image@.height) / 10,
                ascending(small_idx@),
                ascending(large_idx@),
                forall|k: int|
                    0 <= k < small_idx.len() ==> (#[trigger] small_idx[k]) < i && is_small(
                        image@,
                        rects@[small_idx[k] as int]@,
                    ),
                forall|k: int|
                    0 <= k < large_idx.len() ==> (#[trigger] large_idx[k]) < i && !is_small(
                        image@,
                        rects@[large_idx[k] as int]@,
                    ),
                forall|j: int|
                    0 <= j < i ==> #[trigger] listed(small_idx@, j) || listed(large_idx@, j),
            decreases count - i,
        {
            let ghost small_before = small_idx@;
            let ghost large_before = large_idx@;
            if rects[i].area() < cutoff {
                small_idx.push(i);
            } else {
                large_idx.push(i);
            }
            proof {
                assert forall|j: int| 0 <= j < i + 1 implies #[trigger] listed(small_idx@, j)
                    || listed(large_idx@, j) by {
                    if j < i {
                        if listed(small_before, j) {
                            let k = choose|k: int|
                                0 <= k < small_before.len() && #[trigger] small_before[k] == j;
                            assert(small_idx@[k] == j);
                        } else {
                            assert(listed(large_before, j));
                            let k = choose|k: int|
                                0 <= k < large_before.len() && #[trigger] large_before[k] == j;
                            assert(large_idx@[k] == j);
                        }
                    } else {
                        if small_idx.len() > small_before.len() {
                            assert(small_idx@[small_idx.len() - 1] == j);
                        } else {
                            assert(large_idx@[large_idx.len() - 1] == j);
                        }
                    }
                }
            }
            i += 1;
        }
        (small_idx, large_idx)
    }

    /// Takes each region out of the image after sorting the regions by size:
    /// the small ones are copied pixel by pixel in parallel, the others row
    /// by row one after the other. The results come in the order of the
    /// regions.
    pub fn optimized_batch_crop(image: &ImageRef, rects: &[TextRegion]) -> (out: Vec<Image>)
        requires
            all_fit_image(rects@, image@),
        ensures
            crops_of(out@, image@, region_views(rects@)),
    {
        let count: usize = rects.len();
        if count == 0 {
            return Vec::new();
        }
        let (small_idx, large_idx) = Self::split_by_size(image, rects);
        let mut small: Vec<TextRegion> = Vec::new();
        let mut n: usize = 0;
        while n < small_idx.len()
            invariant
                n <= small_idx.len(),
                small.len() == n,
                forall|k: int| 0 <= k < small_idx.len() ==> (#[trigger] small_idx[k]) < rects@.len(),
                forall|k: int| 0 <= k < n ==> #[trigger] small[k] == rects@[small_idx[k] as int],
            decreases small_idx.len() - n,
        {
            small.push(rects[small_idx[n]]);
            n += 1;
        }
        let mut results: Vec<Option<Image>> = Vec::new();
        let mut i: usize = 0;
        while i < count
            invariant
                i <= count,
                results.len() == i,
                forall|j: int| 0 <= j < i ==> (#[trigger] results[j]) is None,
            decreases count - i,
        {
            results.push(None);
            i += 1;
        }
        proof {
            assert forall|k: int| 0 <= k < small.len() implies (#[trigger] small@[k])@.fits_within(
                image@.width,
                image@.height,
            ) by {
                assert(small_idx[k] < count);
                assert(small@[k] == rects@[small_idx[k] as int]);
            }
        }
        let mut small_results: Vec<Image> = Self::par_crop_each(image, small.as_slice(), true);
        let mut k: usize = 0;
        while k < large_idx.len()
            invariant
                k <= large_idx.len(),
                count == rects.len(),
                results.len() == count,
                all_fit_image(rects@, image@),
                forall|n: int| 0 <= n < large_idx.len() ==> (#[trigger] large_idx[n]) < count,
                forall|j: int|
                    0 <= j < count && (#[trigger] results[j]) is Some ==> is_crop(
                        results[j]->0@,
                        image@,
                        rects[j]@,
                    ),
                forall|n: int| 0 <= n < k ==> results[(#[trigger] large_idx[n]) as int] is Some,
            decreases large_idx.len() - k,
        {
            let at: usize = large_idx[k];
            let cropped = Self::standard_crop(image.as_dynamic_image(), &rects[at]);
            results.set(at, Some(cropped));
            k += 1;
        }
        while small_results.len() > 0
            invariant
                count == rects.len(),
                results.len() == count,
                small_results.len() <= small_idx.len(),
                small_idx.len() == small.len(),
                forall|n: int|
                    0 <= n < small_idx.len() ==> (#[trigger] small_idx[n]) < count && small[n]
                        == rects[small_idx[n] as int],
                forall|n: int|
                    0 <= n < small_results.len() ==> is_crop(
                        (#[trigger] small_results[n])@,
                        image@,
                        small[n]@,
                    ),
                forall|j: int|
                    0 <= j < count && (#[trigger] results[j]) is Some ==> is_crop(
                        results[j]->0@,
                        image@,
                        rects[j]@,
                    ),
                forall|n: int|
                    0 <= n < large_idx.len() ==> (#[trigger] large_idx[n]) < count
                        && results[large_idx[n] as int] is Some,
                forall|n: int|
                    small_results.len() <= n < small_idx.len() ==> results[(
                    #[trigger] small_idx[n]) as int] is Some,
            decreases small_results.len(),
        {
            let n: usize = small_results.len() - 1;
            let cropped = small_results.pop().unwrap();
            let at: usize = small_idx[n];
            results.set(at, Some(cropped));
        }
        proof {
            assert forall|j: int| 0 <= j < count implies (#[trigger] results[j]) is Some by {
                if listed(small_idx@, j) {
                    let n = choose|n: int| 0 <= n < small_idx.len() && #[trigger] small_idx[n] == j;
                    assert(results[small_idx[n] as int] is Some);
                } else {
                    assert(listed(large_idx@, j));
                    let n = choose|n: int| 0 <= n < large_idx.len() && #[trigger] large_idx[n] == j;
                    assert(results[large_idx[n] as int] is Some);
                }
            }
        }
        let ghost filled_slots = results@;
        let mut out: Vec<Image> = Vec::new();
        let mut j: usize = 0;
        while j < count
            invariant
                j <= count,
                count == rects.len(),
                results.len() == count,
                filled_slots.len() == count,
                out.len() == j,
                forall|n: int| j <= n < count ==> results[n] == filled_slots[n],
                forall|n: int|
                    0 <= n < count ==> (#[trigger] filled_slots[n]) is Some && is_crop(
                        filled_slots[n]->0@,
                        image@,
                        rects[n]@,
                    ),
                forall|n: int| 0 <= n < j ==> is_crop((#[trigger] out[n])@, image@, rects[n]@),
            decreases count - j,
        {
            assert(results[j as int] == filled_slots[j as int]);
            assert(filled_slots[j as int] is Some);
            let slot = results[j].take();
            out.push(slot.unwrap());
            j += 1;
        }
        out
    }
}

} // verus!
