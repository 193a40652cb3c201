//! The RGBA8 image that enters and leaves the engine.

use vstd::prelude::*;
use vstd::slice::slice_subrange;

verus! {

/// An image of `width * height` pixels, four bytes (R, G, B, A) per pixel,
/// stored row by row without padding.
pub struct Image {
    pub(crate) dimensions: (u32, u32),
    pub(crate) rgba: Vec<u8>,
}

/// The number of bytes that a tightly packed image of the given size holds.
pub open spec fn byte_len(width: int, height: int) -> int {
    width * height * 4
}

/// The position of the first byte of pixel `(x, y)` in a tightly packed
/// image that is `width` pixels wide.
pub open spec fn pixel_offset(width: int, x: int, y: int) -> int {
    (x + y * width) * 4
}

impl Image {
    /// The width in pixels.
    pub closed spec fn width(&self) -> int {
        self.dimensions.0 as int
    }

    /// The height in pixels.
    pub closed spec fn height(&self) -> int {
        self.dimensions.1 as int
    }

    /// The bytes of the image, row by row.
    pub closed spec fn view(&self) -> Seq<u8> {
        self.rgba@
    }

    /// The number of pixels.
    pub open spec fn pixel_count(&self) -> int {
        self.width() * self.height()
    }

    /// An image is well formed when it holds four bytes for each pixel.
    pub open spec fn wf(&self) -> bool {
        self@.len() == byte_len(self.width(), self.height())
    }

    #[verifier::type_invariant]
    pub(crate) open spec fn inv(self) -> bool {
        self.wf()
    }

    /// Builds an image from its dimensions `(width, height)` and its bytes.
    pub fn new(dimensions: (u32, u32), rbga: Vec<u8>) -> (image: Self)
        requires
            rbga@.len() == byte_len(dimensions.0 as int, dimensions.1 as int),
        ensures
            image.wf(),
            image.width() == dimensions.0,
            image.height() == dimensions.1,
            image@ == rbga@,
    {
        Self { dimensions, rgba: rbga }
    }

    /// The four bytes of the pixel in column `x` of row `y`.
    pub fn get_pixel(&self, x: u32, y: u32) -> (pixel: &[u8])
        requires
            x < self.width(),
            y < self.height(),
        ensures
            pixel@ == self@.subrange(
                pixel_offset(self.width(), x as int, y as int),
                pixel_offset(self.width(), x as int, y as int) + 4,
            ),
    {
        let len: usize = self.rgba.len();
        proof {
            use_type_invariant(self);
            lemma_pixel_in_bounds(self.width(), self.height(), x as int, y as int);
            assert(pixel_offset(self.width(), x as int, y as int) + 4 <= len);
        }
        let width: usize = self.dimensions.0 as usize;
        let index: usize = (x as usize + y as usize * width) * 4;
        slice_subrange(self.rgba.as_slice(), index, index + 4)
    }

    /// The dimensions as `(width, height)`.
    pub fn dimensions(&self) -> (dimensions: (u32, u32))
        ensures
            dimensions.0 == self.width(),
            dimensions.1 == self.height(),
    {
        self.dimensions
    }

    /// All the bytes of the image, row by row.
    pub fn raw_pixels(&self) -> (pixels: &[u8])
        ensures
            pixels@ == self@,
            pixels@.len() == byte_len(self.width(), self.height()),
    {
        proof {
            use_type_invariant(self);
        }
        self.rgba.as_slice()
    }
}

/// Every pixel of a `width * height` image lies wholly inside its bytes.
pub proof fn lemma_pixel_in_bounds(width: int, height: int, x: int, y: int)
    requires
        0 <= x < width,
        0 <= y < height,
    ensures
        0 <= x + y * width < width * height,
        0 <= y * width <= x + y * width,
        0 <= pixel_offset(width, x, y),
        pixel_offset(width, x, y) + 4 <= byte_len(width, height),
{
    assert(0 <= y * width) by (nonlinear_arith)
        requires
            0 <= y,
            0 <= width,
    ;
    assert(y * width + width <= height * width) by (nonlinear_arith)
        requires
            y + 1 <= height,
            0 <= width,
    ;
    assert(height * width == width * height) by (nonlinear_arith);
}

} // verus!
