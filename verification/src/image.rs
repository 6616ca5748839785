//! The image model the blur engine works on: a width x height grid of RGBA
//! pixels, four 8-bit channels per pixel, stored row-major and
//! channel-interleaved.
use vstd::prelude::*;

verus! {

/// Number of 8-bit channels per pixel (red, green, blue, alpha).
pub const CHANNELS: usize = 4;

/// An RGBA image: `width * height` pixels, each pixel `CHANNELS` bytes,
/// stored row-major and channel-interleaved. The byte of channel `c` of the
/// pixel at column `x`, row `y` is `data[(y * width + x) * CHANNELS + c]`.
pub struct Image {
    pub width: usize,
    pub height: usize,
    pub data: Vec<u8>,
}

impl Image {
    /// The storage invariant: one byte per channel per pixel.
    pub open spec fn valid(&self) -> bool {
        self.data@.len() == self.width * self.height * CHANNELS
    }

    /// Builds an image from its parts, checking the storage invariant.
    pub fn new(width: usize, height: usize, data: Vec<u8>) -> (r: Option<Image>)
        ensures
            match r {
                Some(img) => {
                    &&& img.valid()
                    &&& img.width == width
                    &&& img.height == height
                    &&& img.data@ == data@
                },
                None => data@.len() != width * height * CHANNELS,
            },
    {
        let n = data.len();
        match width.checked_mul(height) {
            Some(p) => match p.checked_mul(CHANNELS) {
                Some(total) => if total == n {
                    Some(Image { width, height, data })
                } else {
                    None
                },
                None => None,
            },
            None => None,
        }
    }

    /// The byte of channel `c` of the pixel at column `x`, row `y`.
    pub open spec fn spec_channel_at(&self, x: int, y: int, c: int) -> u8 {
        self.data@[(y * self.width + x) * CHANNELS + c]
    }

    /// Reads the byte of channel `c` of the pixel at column `x`, row `y`.
    pub fn channel_at(&self, x: usize, y: usize, c: usize) -> (r: u8)
        requires
            self.valid(),
            x < self.width,
            y < self.height,
            c < CHANNELS,
        ensures
            r == self.spec_channel_at(x as int, y as int, c as int),
    {
        proof {
            lemma_pixel_index_in_range(
                self.width as int,
                self.height as int,
                x as int,
                y as int,
                c as int,
            );
        }
        let n = self.data.len();
        assert((y * self.width + x) * CHANNELS + c < n);
        self.data[(y * self.width + x) * CHANNELS + c]
    }
}

/// A pixel's channel index lies inside the image's data buffer.
pub proof fn lemma_pixel_index_in_range(width: int, height: int, x: int, y: int, c: int)
    requires
        0 <= x < width,
        0 <= y < height,
        0 <= c < CHANNELS,
    ensures
        0 <= y * width,
        y * width + x < width * height,
        0 <= (y * width + x) * CHANNELS + c < width * height * CHANNELS,
        (y * width + x) * CHANNELS + c < (y * width + width) * CHANNELS,
{
    assert(0 <= y * width && y * width + x < width * height) by (nonlinear_arith)
        requires
            0 <= x < width,
            0 <= y < height,
    ;
    assert((y * width + x) * CHANNELS + c < width * height * CHANNELS) by (nonlinear_arith)
        requires
            0 <= x < width,
            0 <= y < height,
            0 <= c < CHANNELS,
    ;
    assert((y * width + x) * CHANNELS + c < (y * width + width) * CHANNELS) by (nonlinear_arith)
        requires
            0 <= x < width,
            0 <= c < CHANNELS,
    ;
}

} // verus!
