//! A raster of bytes, three or four to the pixel, row after row.

use vstd::prelude::*;
use vstd::slice::slice_subrange;

verus! {

/// What a pixel's bytes stand for.
#[derive(Copy, Clone, Debug, PartialEq, Eq, Structural)]
pub enum ColorMode {
    /// Red, green and blue.
    Rgb,
    /// Red, green, blue and opacity.
    Rgba,
}

impl ColorMode {
    /// Bytes to the pixel.
    pub open spec fn spec_channels(self) -> int {
        match self {
            ColorMode::Rgb => 3,
            ColorMode::Rgba => 4,
        }
    }

    /// Bytes to the pixel.
    pub fn channels(self) -> (n: u32)
        ensures
            n == self.spec_channels(),
    {
        match self {
            ColorMode::Rgb => 3,
            ColorMode::Rgba => 4,
        }
    }
}

/// Helper struct for images.
#[derive(Debug, Clone)]
pub struct Image {
    width: u32,
    height: u32,
    buffer: Vec<u8>,
    color_mode: ColorMode,
}

/// What an image holds.
pub struct ImageView {
    pub width: int,
    pub height: int,
    pub bytes: Seq<u8>,
    pub color_mode: ColorMode,
}

/// Place in the buffer of the first byte of the pixel at `(x, y)`, in an
/// image `width` wide with `channels` bytes to the pixel.
pub open spec fn offset(x: int, y: int, width: int, channels: int) -> int {
    (x + y * width) * channels
}

impl ImageView {
    /// Whether the buffer holds exactly the pixels of the image.
    pub open spec fn wf(self) -> bool {
        self.bytes.len() == self.width * self.height * self.color_mode.spec_channels()
    }

    /// Whether the buffer holds `channels` bytes for the pixel at `(x, y)`.
    pub open spec fn holds(self, x: int, y: int, channels: int) -> bool {
        offset(x, y, self.width, channels) + channels <= self.bytes.len()
    }

    /// The `channels` bytes of the pixel at `(x, y)`.
    pub open spec fn pixel(self, x: int, y: int, channels: int) -> Seq<u8> {
        self.bytes.subrange(
            offset(x, y, self.width, channels),
            offset(x, y, self.width, channels) + channels,
        )
    }

    /// The image with `color` written from byte `at` on.
    pub open spec fn written(self, at: int, color: Seq<u8>) -> ImageView {
        ImageView {
            bytes: Seq::new(
                self.bytes.len(),
                |i: int|
                    if at <= i < at + color.len() {
                        color[i - at]
                    } else {
                        self.bytes[i]
                    },
            ),
            ..self
        }
    }

    /// The image with `color` written `count` times in a row from byte `at`
    /// on.
    pub open spec fn lined(self, at: int, count: int, color: Seq<u8>) -> ImageView {
        ImageView {
            bytes: Seq::new(
                self.bytes.len(),
                |i: int|
                    if at <= i < at + count * color.len() {
                        color[(i - at) % (color.len() as int)]
                    } else {
                        self.bytes[i]
                    },
            ),
            ..self
        }
    }
}

/// Distinct pixels of an image keep their bytes apart.
pub proof fn lemma_pixels_apart(x: int, y: int, u: int, v: int, width: int, channels: int)
    requires
        0 <= x < width,
        0 <= u < width,
        0 <= y,
        0 <= v,
        1 <= channels,
        x != u || y != v,
    ensures
        offset(x, y, width, channels) + channels <= offset(u, v, width, channels) || offset(
            u,
            v,
            width,
            channels,
        ) + channels <= offset(x, y, width, channels),
        0 <= offset(x, y, width, channels),
{
    let n = x + y * width;
    let m = u + v * width;
    assert(0 <= y * width && 0 <= v * width) by (nonlinear_arith)
        requires
            0 <= y,
            0 <= v,
            0 < width,
    ;
    if n == m {
        vstd::arithmetic::div_mod::lemma_fundamental_div_mod_converse(n, width, y, x);
        vstd::arithmetic::div_mod::lemma_fundamental_div_mod_converse(m, width, v, u);
        assert(false);
    }
    assert(n * channels + channels <= m * channels || m * channels + channels <= n * channels)
        by (nonlinear_arith)
        requires
            n != m,
            1 <= channels,
    ;
    assert(0 <= n * channels) by (nonlinear_arith)
        requires
            0 <= n,
            1 <= channels,
    ;
}

/// A pixel of an image whose buffer holds all its pixels has its bytes
/// inside the buffer.
pub proof fn lemma_pixel_inside(x: int, y: int, width: int, height: int, channels: int)
    requires
        0 <= x < width,
        0 <= y < height,
        1 <= channels,
    ensures
        0 <= offset(x, y, width, channels),
        offset(x, y, width, channels) + channels <= width * height * channels,
{
    assert(0 <= y * width && y * width + width <= height * width) by (nonlinear_arith)
        requires
            0 <= y < height,
            0 < width,
    ;
    assert(height * width == width * height) by (nonlinear_arith);
    let n = x + y * width;
    assert(0 <= n * channels && n * channels + channels <= width * height * channels)
        by (nonlinear_arith)
        requires
            0 <= n,
            n + 1 <= width * height,
            1 <= channels,
    ;
}

impl View for Image {
    type V = ImageView;

    closed spec fn view(&self) -> ImageView {
        ImageView {
            width: self.width as int,
            height: self.height as int,
            bytes: self.buffer@,
            color_mode: self.color_mode,
        }
    }
}

impl Image {
    /// An image of the given size with every byte zero.
    pub fn new(width: u32, height: u32, color_mode: ColorMode) -> (image: Image)
        requires
            width * height * color_mode.spec_channels() <= u32::MAX,
        ensures
            image@.wf(),
            image@.width == width,
            image@.height == height,
            image@.color_mode == color_mode,
            forall|i: int| 0 <= i < image@.bytes.len() ==> #[trigger] image@.bytes[i] == 0,
    {
        let channels = color_mode.channels();
        assert(width * height <= width * height * channels) by (nonlinear_arith)
            requires
                channels >= 1,
                width * height >= 0,
        ;
        assert(width * height >= 0) by (nonlinear_arith)
            requires
                width >= 0,
                height >= 0,
        ;
        let buffer = vec![0u8; (width * height * channels) as usize];
        Image { width, height, buffer, color_mode }
    }

    /// An image of the given size over the bytes of `buffer`.
    pub fn from_buffer(width: u32, height: u32, buffer: Vec<u8>, color_mode: ColorMode) -> (image:
        Image)
        ensures
            image@ == (ImageView {
                width: width as int,
                height: height as int,
                bytes: buffer@,
                color_mode,
            }),
    {
        Image { width, height, buffer, color_mode }
    }

    /// Writes the three bytes of `color` at the pixel `(x, y)` of an image
    /// with three bytes to the pixel.
    pub fn put_pixel(&mut self, x: u32, y: u32, color: [u8; 3])
        requires
            old(self)@.holds(x as int, y as int, 3),
        ensures
            final(self)@ == old(self)@.written(
                offset(x as int, y as int, old(self)@.width, 3),
                color@,
            ),
    {
        let index = self.first_byte(x, y, 3);
        self.buffer.set(index, color[0]);
        self.buffer.set(index + 1, color[1]);
        self.buffer.set(index + 2, color[2]);
        assert(self@.bytes =~= old(self)@.written(
            offset(x as int, y as int, old(self)@.width, 3),
            color@,
        ).bytes);
    }

    /// Writes `color` at each pixel of row `y` from column `x.0` up to, but
    /// not including, column `x.1`, in an image with three bytes to the
    /// pixel.
    pub fn put_hor_line(&mut self, x: (u32, u32), y: u32, color: [u8; 3])
        requires
            x.0 <= x.1,
            offset(x.0 as int, y as int, old(self)@.width, 3) + (x.1 - x.0) * 3 <= old(
                self,
            )@.bytes.len(),
        ensures
            final(self)@ == old(self)@.lined(
                offset(x.0 as int, y as int, old(self)@.width, 3),
                x.1 - x.0,
                color@,
            ),
    {
        let ghost wide = self@.width;
        let ghost at = offset(x.0 as int, y as int, wide, 3);
        assert(at >= 0) by (nonlinear_arith)
            requires
                at == (x.0 + y * wide) * 3,
                wide >= 0,
        ;
        if x.0 == x.1 {
            assert(self@.bytes =~= old(self)@.lined(at, 0, color@).bytes);
            return ;
        }
        let start = self.first_byte(x.0, y, 3);
        let count: usize = (x.1 - x.0) as usize;
        let mut k: usize = 0;
        while k < count
            invariant
                k <= count,
                count == x.1 - x.0,
                start == at,
                at + count * 3 <= self.buffer.len(),
                self.width == old(self).width,
                self.height == old(self).height,
                self.color_mode == old(self).color_mode,
                self.buffer.len() == old(self).buffer.len(),
                forall|i: int|
                    0 <= i < self.buffer.len() ==> #[trigger] self.buffer[i] == (if at <= i < at
                        + k * 3 {
                        color[(i - at) % 3]
                    } else {
                        old(self).buffer[i]
                    }),
            decreases count - k,
        {
            let index = start + k * 3;
            self.buffer.set(index, color[0]);
            self.buffer.set(index + 1, color[1]);
            self.buffer.set(index + 2, color[2]);
            k += 1;
        }
        assert(self@.bytes =~= old(self)@.lined(at, x.1 - x.0, color@).bytes);
    }

    /// Writes the four bytes of `color` at the pixel `(x, y)` of an image
    /// with four bytes to the pixel.
    pub fn put_pixel_rgba(&mut self, x: u32, y: u32, color: [u8; 4])
        requires
            old(self)@.holds(x as int, y as int, 4),
        ensures
            final(self)@ == old(self)@.written(
                offset(x as int, y as int, old(self)@.width, 4),
                color@,
            ),
    {
        let index = self.first_byte(x, y, 4);
        self.buffer.set(index, color[0]);
        self.buffer.set(index + 1, color[1]);
        self.buffer.set(index + 2, color[2]);
        self.buffer.set(index + 3, color[3]);
        assert(self@.bytes =~= old(self)@.written(
            offset(x as int, y as int, old(self)@.width, 4),
            color@,
        ).bytes);
    }

    /// Whether the pixel at `(x, y)` holds a colour that `function` gives
    /// for it.
    pub open spec fn painted<F: Fn(u32, u32) -> [u8; 3]>(
        view: ImageView,
        function: F,
        x: u32,
        y: u32,
    ) -> bool {
        exists|color: [u8; 3]| #[trigger]
            call_ensures(function, (x, y), color) && view.pixel(x as int, y as int, 3) == color@
    }

    /// Whether the pixel at `(x, y)` holds a colour with opacity that
    /// `function` gives for it.
    pub open spec fn painted_rgba<F: Fn(u32, u32) -> [u8; 4]>(
        view: ImageView,
        function: F,
        x: u32,
        y: u32,
    ) -> bool {
        exists|color: [u8; 4]| #[trigger]
            call_ensures(function, (x, y), color) && view.pixel(x as int, y as int, 4) == color@
    }

    /// An image with three bytes to the pixel, each pixel as `function`
    /// colours it.
    pub fn from_fn<F>(width: u32, height: u32, function: F) -> (image: Image) where
        F: Fn(u32, u32) -> [u8; 3],

        requires
            width * height * 3 <= u32::MAX,
            forall|x: u32, y: u32| x < width && y < height ==> call_requires(function, (x, y)),
        ensures
            image@.wf(),
            image@.width == width,
            image@.height == height,
            image@.color_mode == ColorMode::Rgb,
            forall|x: u32, y: u32|
                x < width && y < height ==> #[trigger] Image::painted(image@, function, x, y),
    {
        let mut img = Image::new(width, height, ColorMode::Rgb);
        let mut x: u32 = 0;
        while x < width
            invariant
                x <= width,
                img@.wf(),
                img@.width == width,
                img@.height == height,
                img@.color_mode == ColorMode::Rgb,
                forall|u: u32, v: u32| u < width && v < height ==> call_requires(function, (u, v)),
                forall|u: u32, v: u32|
                    u < x && v < height ==> #[trigger] Image::painted(img@, function, u, v),
            decreases width - x,
        {
            let mut y: u32 = 0;
            while y < height
                invariant
                    x < width,
                    y <= height,
                    img@.wf(),
                    img@.width == width,
                    img@.height == height,
                    img@.color_mode == ColorMode::Rgb,
                    forall|u: u32, v: u32|
                        u < width && v < height ==> call_requires(function, (u, v)),
                    forall|u: u32, v: u32|
                        (u < x && v < height) || (u == x && v < y) ==> #[trigger] Image::painted(
                            img@,
                            function,
                            u,
                            v,
                        ),
                decreases height - y,
            {
                let color = function(x, y);
                let ghost before = img@;
                proof {
                    lemma_pixel_inside(x as int, y as int, width as int, height as int, 3);
                }
                img.put_pixel(x, y, color);
                proof {
                    let at = offset(x as int, y as int, width as int, 3);
                    assert(img@.pixel(x as int, y as int, 3) =~= color@);
                    assert forall|u: u32, v: u32|
                        (u < x && v < height) || (u == x && v < y + 1) implies #[trigger] Image::painted(
                        img@,
                        function,
                        u,
                        v,
                    ) by {
                        if u == x && v == y {
                        } else {
                            assert(Image::painted(before, function, u, v));
                            lemma_pixels_apart(
                                x as int,
                                y as int,
                                u as int,
                                v as int,
                                width as int,
                                3,
                            );
                            lemma_pixel_inside(u as int, v as int, width as int, height as int, 3);
                            assert(img@.pixel(u as int, v as int, 3) =~= before.pixel(
                                u as int,
                                v as int,
                                3,
                            ));
                        }
                    }
                }
                y += 1;
            }
            x += 1;
        }
        img
    }

    /// An image with four bytes to the pixel, each pixel as `function`
    /// colours it.
    pub fn from_fn_rgba<F>(width: u32, height: u32, function: F) -> (image: Image) where
        F: Fn(u32, u32) -> [u8; 4],

        requires
            width * height * 4 <= u32::MAX,
            forall|x: u32, y: u32| x < width && y < height ==> call_requires(function, (x, y)),
        ensures
            image@.wf(),
            image@.width == width,
            image@.height == height,
            image@.color_mode == ColorMode::Rgba,
            forall|x: u32, y: u32|
                x < width && y < height ==> #[trigger] Image::painted_rgba(image@, function, x, y),
    {
        let mut img = Image::new(width, height, ColorMode::Rgba);
        let mut x: u32 = 0;
        while x < width
            invariant
                x <= width,
                img@.wf(),
                img@.width == width,
                img@.height == height,
                img@.color_mode == ColorMode::Rgba,
                forall|u: u32, v: u32| u < width && v < height ==> call_requires(function, (u, v)),
                forall|u: u32, v: u32|
                    u < x && v < height ==> #[trigger] Image::painted_rgba(img@, function, u, v),
            decreases width - x,
        {
            let mut y: u32 = 0;
            while y < height
                invariant
                    x < width,
                    y <= height,
                    img@.wf(),
                    img@.width == width,
                    img@.height == height,
                    img@.color_mode == ColorMode::Rgba,
                    forall|u: u32, v: u32|
                        u < width && v < height ==> call_requires(function, (u, v)),
                    forall|u: u32, v: u32|
                        (u < x && v < height) || (u == x && v < y)
                            ==> #[trigger] Image::painted_rgba(img@, function, u, v),
                decreases height - y,
            {
                let color = function(x, y);
                let ghost before = img@;
                proof {
                    lemma_pixel_inside(x as int, y as int, width as int, height as int, 4);
                }
                img.put_pixel_rgba(x, y, color);
                proof {
                    let at = offset(x as int, y as int, width as int, 4);
                    assert(img@.pixel(x as int, y as int, 4) =~= color@);
                    assert forall|u: u32, v: u32|
                        (u < x && v < height) || (u == x && v < y + 1) implies #[trigger] Image::painted_rgba(
                        img@,
                        function,
                        u,
                        v,
                    ) by {
                        if u == x && v == y {
                        } else {
                            assert(Image::painted_rgba(before, function, u, v));
                            lemma_pixels_apart(
                                x as int,
                                y as int,
                                u as int,
                                v as int,
                                width as int,
                                4,
                            );
                            lemma_pixel_inside(u as int, v as int, width as int, height as int, 4);
                            assert(img@.pixel(u as int, v as int, 4) =~= before.pixel(
                                u as int,
                                v as int,
                                4,
                            ));
                        }
                    }
                }
                y += 1;
            }
            x += 1;
        }
        img
    }

    /// The bytes of the image, to be changed in place.
    pub fn buffer_mut(&mut self) -> (bytes: &mut [u8])
        ensures
            bytes@ == old(self)@.bytes,
            final(self)@ == (ImageView { bytes: final(bytes)@, ..old(self)@ }),
    {
        self.buffer.as_mut_slice()
    }

    /// Height in pixels.
    pub fn height(&self) -> (h: u32)
        ensures
            h == self@.height,
    {
        self.height
    }

    /// Width in pixels.
    pub fn width(&self) -> (w: u32)
        ensures
            w == self@.width,
    {
        self.width
    }

    /// The bytes of the image.
    pub fn buffer(&self) -> (bytes: &[u8])
        ensures
            bytes@ == self@.bytes,
    {
        self.buffer.as_slice()
    }

    /// What a pixel's bytes stand for.
    pub fn color_mode(&self) -> (mode: &ColorMode)
        ensures
            *mode == self@.color_mode,
    {
        &self.color_mode
    }

    /// Whether a pixel has a byte for opacity.
    pub fn is_rgba(&self) -> (rgba: bool)
        ensures
            rgba == (self@.color_mode == ColorMode::Rgba),
    {
        match self.color_mode {
            ColorMode::Rgb => false,
            ColorMode::Rgba => true,
        }
    }

    /// The three bytes of the pixel at `(x, y)` of an image with three bytes
    /// to the pixel.
    pub fn get_pixel(&self, x: u32, y: u32) -> (pixel: &[u8])
        requires
            self@.holds(x as int, y as int, 3),
        ensures
            pixel@ == self@.pixel(x as int, y as int, 3),
    {
        let index = self.first_byte(x, y, 3);
        slice_subrange(self.buffer.as_slice(), index, index + 3)
    }

    fn first_byte(&self, x: u32, y: u32, channels: usize) -> (index: usize)
        requires
            1 <= channels <= 4,
            self@.holds(x as int, y as int, channels as int),
        ensures
            index == offset(x as int, y as int, self@.width, channels as int),
            index + channels <= self.buffer.len(),
    {
        let ghost at = offset(x as int, y as int, self@.width, channels as int);
        assert(0 <= y * self.width <= x + y * self.width <= at) by (nonlinear_arith)
            requires
                at == (x + y * self.width) * channels,
                channels >= 1,
                x >= 0,
                y >= 0,
                self.width >= 0,
        ;
        let size = self.buffer.len();
        assert(at + channels <= size);
        let pixel: u64 = x as u64 + y as u64 * self.width as u64;
        (pixel as usize) * channels
    }
}

} // verus!
