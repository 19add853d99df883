//! The image type that the detectors read.

use vstd::prelude::*;

verus! {

/// In an image of `w` columns and `h` rows, stored row by row, the pixel
/// `(x, y)` has its place inside the buffer.
pub proof fn lemma_row_major(w: int, h: int, x: int, y: int)
    requires
        0 <= x < w,
        0 <= y < h,
    ensures
        0 <= y * w,
        y * w + x < w * h,
{
    assert(0 <= y * w && y * w + w <= w * h) by (nonlinear_arith)
        requires 0 <= y < h, 0 <= w;
}

/// A grayscale image with 8-bit pixels, stored row by row.
#[derive(Debug, PartialEq, Eq)]
pub struct GrayImage {
    width: u32,
    height: u32,
    data: Vec<u8>,
}

impl GrayImage {
    /// The buffer holds one byte for each pixel.
    #[verifier::type_invariant]
    spec fn well_formed(&self) -> bool {
        self.data@.len() == self.width * self.height
    }

    /// The number of pixels in a row.
    pub closed spec fn spec_width(&self) -> u32 {
        self.width
    }

    /// The number of rows.
    pub closed spec fn spec_height(&self) -> u32 {
        self.height
    }

    /// The pixels, row by row.
    pub closed spec fn pixels(&self) -> Seq<u8> {
        self.data@
    }

    /// The intensity at column `x` of row `y`.
    pub open spec fn pixel(&self, x: int, y: int) -> u8 {
        self.pixels()[y * self.spec_width() + x]
    }

    /// Makes an image of the given size from its pixels, row by row.
    /// There is no image unless `data` holds exactly one byte for each pixel.
    pub fn from_raw(width: u32, height: u32, data: Vec<u8>) -> (image: Option<GrayImage>)
        ensures
            image is Some <==> data@.len() == width * height,
            image matches Some(img) ==> img.spec_width() == width && img.spec_height() == height
                && img.pixels() == data@,
    {
        assert(0 <= width * height <= 0xffff_ffff * 0xffff_ffff) by (nonlinear_arith)
            requires 0 <= width <= 0xffff_ffff, 0 <= height <= 0xffff_ffff;
        let size: u64 = width as u64 * height as u64;
        if data.len() as u64 == size {
            Some(GrayImage { width, height, data })
        } else {
            None
        }
    }

    /// The width of the image in pixels.
    pub fn width(&self) -> (w: u32)
        ensures
            w == self.spec_width(),
    {
        self.width
    }

    /// The height of the image in pixels.
    pub fn height(&self) -> (h: u32)
        ensures
            h == self.spec_height(),
    {
        self.height
    }

    /// The width and the height of the image.
    pub fn dimensions(&self) -> (d: (u32, u32))
        ensures
            d.0 == self.spec_width(),
            d.1 == self.spec_height(),
    {
        (self.width, self.height)
    }

    /// The intensity at column `x` of row `y`.
    pub fn get_pixel(&self, x: u32, y: u32) -> (p: u8)
        requires
            x < self.spec_width(),
            y < self.spec_height(),
        ensures
            p == self.pixel(x as int, y as int),
    {
        proof {
            use_type_invariant(self);
            lemma_row_major(self.width as int, self.height as int, x as int, y as int);
        }
        let w = self.width as usize;
        let row = y as usize;
        assert(row * w == y * self.width);
        assert(row * w + x < self.data.len());
        self.data[row * w + x as usize]
    }
}

} // verus!
