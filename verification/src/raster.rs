use vstd::prelude::*;

verus! {

/// Mathematical model of an image: its size, the number of 8-bit samples per
/// pixel, and the samples row by row, pixel by pixel.
pub struct ImageView {
    pub width: int,
    pub height: int,
    pub channels: int,
    pub data: Seq<u8>,
}

impl ImageView {
    /// The buffer holds exactly one sample per channel of every pixel.
    pub open spec fn wf(self) -> bool {
        &&& 0 <= self.width <= u32::MAX
        &&& 0 <= self.height <= u32::MAX
        &&& 1 <= self.channels <= 4
        &&& self.data.len() == self.width * self.height * self.channels
    }

    /// Position in the buffer of channel `c` of the pixel at `(x, y)`.
    pub open spec fn index(self, x: int, y: int, c: int) -> int {
        (y * self.width + x) * self.channels + c
    }

    /// Channel `c` of the pixel at `(x, y)`.
    pub open spec fn sample(self, x: int, y: int, c: int) -> u8 {
        self.data[self.index(x, y, c)]
    }

    /// Whether `(x, y, c)` names a sample of the image.
    pub open spec fn in_bounds(self, x: int, y: int, c: int) -> bool {
        0 <= x < self.width && 0 <= y < self.height && 0 <= c < self.channels
    }
}

/// Every sample of an image has its own place in the buffer.
pub proof fn lemma_index_bounds(img: ImageView, x: int, y: int, c: int)
    requires
        img.wf(),
        img.in_bounds(x, y, c),
    ensures
        0 <= img.index(x, y, c) < img.data.len(),
        0 <= y * img.width + x < img.width * img.height,
{
    let w = img.width;
    let h = img.height;
    let ch = img.channels;
    assert(0 <= y * w + x < w * h) by (nonlinear_arith)
        requires
            0 <= x < w,
            0 <= y < h,
    ;
    let p = y * w + x;
    assert(0 <= p * ch + c < (w * h) * ch) by (nonlinear_arith)
        requires
            0 <= p < w * h,
            0 <= c < ch,
    ;
}

/// Every place in the buffer belongs to exactly one sample.
pub proof fn lemma_index_decompose(img: ImageView, k: int) -> (place: (int, int, int))
    requires
        img.wf(),
        0 <= k < img.data.len(),
    ensures
        img.in_bounds(place.0, place.1, place.2),
        img.index(place.0, place.1, place.2) == k,
{
    let w = img.width;
    let h = img.height;
    let ch = img.channels;
    let p = k / ch;
    let c = k % ch;
    assert(k == p * ch + c && 0 <= c < ch) by (nonlinear_arith)
        requires
            p == k / ch,
            c == k % ch,
            ch > 0,
    ;
    assert(0 <= p < w * h) by (nonlinear_arith)
        requires
            0 <= k < (w * h) * ch,
            k == p * ch + c,
            0 <= c < ch,
    ;
    assert(w > 0) by (nonlinear_arith)
        requires
            0 <= p < w * h,
            w >= 0,
    ;
    let y = p / w;
    let x = p % w;
    assert(p == y * w + x && 0 <= x < w) by (nonlinear_arith)
        requires
            y == p / w,
            x == p % w,
            w > 0,
    ;
    assert(0 <= y < h) by (nonlinear_arith)
        requires
            0 <= p < w * h,
            p == y * w + x,
            0 <= x < w,
    ;
    (x, y, c)
}

/// Two images of the same size that agree on every sample are the same image.
pub proof fn lemma_image_extensional(a: ImageView, b: ImageView)
    requires
        a.wf(),
        b.wf(),
        a.width == b.width,
        a.height == b.height,
        a.channels == b.channels,
        forall|x: int, y: int, c: int|
            a.in_bounds(x, y, c) ==> #[trigger] a.sample(x, y, c) == b.sample(x, y, c),
    ensures
        a == b,
{
    assert(a.data.len() == b.data.len());
    assert forall|k: int| 0 <= k < a.data.len() implies a.data[k] == b.data[k] by {
        let place = lemma_index_decompose(a, k);
        assert(a.sample(place.0, place.1, place.2) == b.sample(place.0, place.1, place.2));
    }
    assert(a.data =~= b.data);
}

/// A pixel buffer with one to four 8-bit samples per pixel, stored row by
/// row. It does not change once it is built.
#[derive(Debug)]
pub struct Image {
    width: u32,
    height: u32,
    channels: u8,
    data: Vec<u8>,
}

impl View for Image {
    type V = ImageView;

    closed spec fn view(&self) -> ImageView {
        ImageView {
            width: self.width as int,
            height: self.height as int,
            channels: self.channels as int,
            data: self.data@,
        }
    }
}

impl Clone for Image {
    fn clone(&self) -> (copy: Self)
        ensures
            copy@ == self@,
    {
        proof {
            use_type_invariant(self);
        }
        let data = self.data.clone();
        assert(data@ =~= self.data@);
        Image { width: self.width, height: self.height, channels: self.channels, data }
    }
}

impl Image {
    #[verifier::type_invariant]
    pub closed spec fn inv(self) -> bool {
        self@.wf()
    }

    /// What holds of every image that exists at run time.
    pub proof fn lemma_valid(&self)
        requires
            self.inv(),
        ensures
            self@.wf(),
    {
    }

    /// Builds an image from its samples. The buffer is refused unless it
    /// holds `channels` samples, one to four, for each of `width * height`
    /// pixels.
    pub fn from_raw(width: u32, height: u32, channels: u8, data: Vec<u8>) -> (image: Option<Image>)
        ensures
            image is Some <==> (ImageView {
                width: width as int,
                height: height as int,
                channels: channels as int,
                data: data@,
            }).wf(),
            image is Some ==> image->0@ == (ImageView {
                width: width as int,
                height: height as int,
                channels: channels as int,
                data: data@,
            }),
    {
        if channels < 1 || channels > 4 {
            return None;
        }
        assert(width as int * height as int <= u32::MAX as int * u32::MAX as int)
            by (nonlinear_arith)
            requires
                0 <= width as int <= u32::MAX as int,
                0 <= height as int <= u32::MAX as int,
        ;
        let pixels: u128 = width as u128 * height as u128;
        assert(pixels as int * channels as int <= u32::MAX as int * u32::MAX as int * 4)
            by (nonlinear_arith)
            requires
                0 <= pixels as int <= u32::MAX as int * u32::MAX as int,
                0 <= channels as int <= 4,
        ;
        let needed: u128 = pixels * channels as u128;
        if data.len() as u128 == needed {
            Some(Image { width, height, channels, data })
        } else {
            None
        }
    }

    /// Width in pixels.
    pub fn width(&self) -> (w: u32)
        ensures
            w == self@.width,
    {
        self.width
    }

    /// Height in pixels.
    pub fn height(&self) -> (h: u32)
        ensures
            h == self@.height,
    {
        self.height
    }

    /// Width and height in pixels.
    pub fn dimensions(&self) -> (size: (u32, u32))
        ensures
            size.0 == self@.width,
            size.1 == self@.height,
    {
        (self.width, self.height)
    }

    /// Number of samples per pixel.
    pub fn channels(&self) -> (c: u8)
        ensures
            c == self@.channels,
            1 <= c <= 4,
    {
        proof {
            use_type_invariant(self);
        }
        self.channels
    }

    /// Number of pixels.
    pub fn area(&self) -> (a: u64)
        ensures
            a == self@.width * self@.height,
    {
        assert(self.width as int * self.height as int <= u32::MAX as int * u32::MAX as int)
            by (nonlinear_arith)
            requires
                0 <= self.width as int <= u32::MAX as int,
                0 <= self.height as int <= u32::MAX as int,
        ;
        self.width as u64 * self.height as u64
    }

    /// The samples, row by row.
    pub fn as_raw(&self) -> (data: &Vec<u8>)
        ensures
            data@ == self@.data,
    {
        &self.data
    }

    /// Position in the buffer of the first sample of the pixel at `(x, y)`.
    pub fn offset(&self, x: u32, y: u32) -> (at: usize)
        requires
            x < self@.width,
            y < self@.height,
        ensures
            at == self@.index(x as int, y as int, 0),
            at + self@.channels <= self@.data.len(),
    {
        proof {
            use_type_invariant(self);
            lemma_index_bounds(self@, x as int, y as int, 0);
            lemma_index_bounds(self@, x as int, y as int, self.channels as int - 1);
            let w = self.width as int;
            assert(0 <= y as int * w <= y as int * w + x as int) by (nonlinear_arith)
                requires
                    0 <= y as int,
                    0 <= w,
                    0 <= x as int,
            ;
            let p = y as int * w + x as int;
            let ch = self.channels as int;
            assert(p <= p * ch <= p * ch + (ch - 1)) by (nonlinear_arith)
                requires
                    0 <= p,
                    1 <= ch,
            ;
            assert(self.data@.len() == self.data.len());
            assert(self@.index(x as int, y as int, 0) == p * ch);
            assert(self@.index(x as int, y as int, ch - 1) == p * ch + (ch - 1));
        }
        (y as usize * self.width as usize + x as usize) * self.channels as usize
    }

    /// Channel `c` of the pixel at `(x, y)`.
    pub fn get_sample(&self, x: u32, y: u32, c: u8) -> (value: u8)
        requires
            self@.in_bounds(x as int, y as int, c as int),
        ensures
            value == self@.sample(x as int, y as int, c as int),
    {
        let at = self.offset(x, y);
        assert(self.data@.len() == self.data.len());
        self.data[at + c as usize]
    }
}

/// Largest number of pixels that a probability map may have.
pub const MAX_MAP_PIXELS: u64 = 2147483646;

/// Mathematical model of a single-channel map: its size and its values row by
/// row.
pub struct GrayMapView {
    pub width: int,
    pub height: int,
    pub data: Seq<u8>,
}

impl GrayMapView {
    /// The buffer holds one value per pixel, and the map is small enough for
    /// its pixels to be numbered by positive 32-bit integers.
    pub open spec fn wf(self) -> bool {
        &&& 0 <= self.width
        &&& 0 <= self.height
        &&& self.width * self.height <= MAX_MAP_PIXELS
        &&& self.data.len() == self.width * self.height
    }

    /// The value at `(x, y)`.
    pub open spec fn value(self, x: int, y: int) -> u8 {
        self.data[y * self.width + x]
    }
}

/// A map of 8-bit values, one per pixel, stored row by row.
#[derive(Debug)]
pub struct GrayMap {
    width: u32,
    height: u32,
    data: Vec<u8>,
}

impl View for GrayMap {
    type V = GrayMapView;

    closed spec fn view(&self) -> GrayMapView {
        GrayMapView { width: self.width as int, height: self.height as int, data: self.data@ }
    }
}

impl GrayMap {
    #[verifier::type_invariant]
    pub closed spec fn inv(self) -> bool {
        self@.wf()
    }

    /// What holds of every map that exists at run time.
    pub proof fn lemma_valid(&self)
        requires
            self.inv(),
        ensures
            self@.wf(),
            self@.width <= u32::MAX,
            self@.height <= u32::MAX,
    {
    }

    /// Builds a map from its values. The buffer is refused unless it holds
    /// one value for each of `width * height` pixels, and no more pixels than
    /// `MAX_MAP_PIXELS`.
    pub fn new(width: u32, height: u32, data: Vec<u8>) -> (map: Option<GrayMap>)
        ensures
            map is Some <==> (GrayMapView {
                width: width as int,
                height: height as int,
                data: data@,
            }).wf(),
            map is Some ==> map->0@ == (GrayMapView {
                width: width as int,
                height: height as int,
                data: data@,
            }),
    {
        assert(width as int * height as int <= u32::MAX as int * u32::MAX as int)
            by (nonlinear_arith)
            requires
                0 <= width as int <= u32::MAX as int,
                0 <= height as int <= u32::MAX as int,
        ;
        let pixels: u64 = width as u64 * height as u64;
        if pixels <= MAX_MAP_PIXELS && data.len() as u64 == pixels {
            Some(GrayMap { width, height, data })
        } else {
            None
        }
    }

    /// Width in pixels.
    pub fn width(&self) -> (w: u32)
        ensures
            w == self@.width,
    {
        self.width
    }

    /// Height in pixels.
    pub fn height(&self) -> (h: u32)
        ensures
            h == self@.height,
    {
        self.height
    }

    /// The values, row by row.
    pub fn as_raw(&self) -> (data: &Vec<u8>)
        ensures
            data@ == self@.data,
    {
        &self.data
    }

    /// The value at `(x, y)`.
    pub fn get(&self, x: u32, y: u32) -> (value: u8)
        requires
            x < self@.width,
            y < self@.height,
        ensures
            value == self@.value(x as int, y as int),
    {
        proof {
            use_type_invariant(self);
            let w = self.width as int;
            let h = self.height as int;
            assert(0 <= y * w <= y * w + x < w * h) by (nonlinear_arith)
                requires
                    0 <= x < w,
                    0 <= y < h,
            ;
        }
        self.data[y as usize * self.width as usize + x as usize]
    }
}

} // verus!
