use vstd::prelude::*;
use vstd::arithmetic::mul::{
    lemma_mul_inequality, lemma_mul_is_commutative, lemma_mul_is_distributive_add_other_way,
    lemma_mul_upper_bound,
};
use crate::error::AsciiError;

verus! {

/// One pixel: its red, green and blue intensities.
#[derive(Debug, Clone, Copy, PartialEq, Eq, Structural)]
pub struct Rgb {
    pub r: u8,
    pub g: u8,
    pub b: u8,
}

/// The intensity of one pixel: each channel divided by three, every
/// quotient truncated on its own before the sum.  This deliberately differs
/// from `(r + g + b) / 3`, which would truncate only once.
pub open spec fn spec_pixel_intensity(p: Rgb) -> int {
    p.r as int / 3 + p.g as int / 3 + p.b as int / 3
}

/// Reduce one pixel to its intensity, a value in [0, 255].
pub fn pixel_intensity(p: Rgb) -> (i: u8)
    ensures
        i as int == spec_pixel_intensity(p),
{
    p.r / 3 + p.g / 3 + p.b / 3
}

/// A decoded image: its dimensions and one `Rgb` value per pixel, stored
/// row by row from the top-left corner.
#[derive(Debug)]
pub struct PixelBuffer {
    width: u32,
    height: u32,
    pixels: Vec<Rgb>,
}

impl PixelBuffer {
    /// The width of the image in pixels.
    pub closed spec fn spec_width(self) -> int {
        self.width as int
    }

    /// The height of the image in pixels.
    pub closed spec fn spec_height(self) -> int {
        self.height as int
    }

    /// A well-formed buffer holds exactly one pixel per coordinate.
    pub closed spec fn wf(self) -> bool {
        self.pixels@.len() == self.spec_width() * self.spec_height()
    }

    /// The pixel at (x, y).
    pub closed spec fn pix(self, x: int, y: int) -> Rgb {
        self.pixels@[y * self.spec_width() + x]
    }

    /// Build a buffer from row-major pixel data.  Fails unless the data
    /// holds exactly `width * height` pixels.
    pub fn new(width: u32, height: u32, pixels: Vec<Rgb>) -> (r: Result<PixelBuffer, AsciiError>)
        ensures
            r is Ok <==> pixels@.len() == width * height,
            r matches Ok(b) ==> {
                &&& b.wf()
                &&& b.spec_width() == width
                &&& b.spec_height() == height
                &&& forall|x: int, y: int|
                    0 <= x < width && 0 <= y < height ==> b.pix(x, y) == pixels@[y * width + x]
            },
            r matches Err(e) ==> e == AsciiError::ImageError,
    {
        proof {
            lemma_mul_upper_bound(
                width as int,
                u32::MAX as int,
                height as int,
                u32::MAX as int,
            );
        }
        if pixels.len() as u64 == (width as u64) * (height as u64) {
            Ok(PixelBuffer { width, height, pixels })
        } else {
            Err(AsciiError::ImageError)
        }
    }

    /// The width of the image in pixels.
    pub fn width(&self) -> (w: u32)
        ensures
            w as int == self.spec_width(),
    {
        self.width
    }

    /// The height of the image in pixels.
    pub fn height(&self) -> (h: u32)
        ensures
            h as int == self.spec_height(),
    {
        self.height
    }

    /// Read the pixel at (x, y).
    pub fn pixel_at(&self, x: u32, y: u32) -> (p: Rgb)
        requires
            self.wf(),
            x < self.spec_width(),
            y < self.spec_height(),
        ensures
            p == self.pix(x as int, y as int),
    {
        proof {
            lemma_mul_inequality(y as int + 1, self.spec_height(), self.spec_width());
            lemma_mul_is_distributive_add_other_way(self.spec_width(), y as int, 1);
            lemma_mul_is_commutative(self.spec_height(), self.spec_width());
            lemma_mul_upper_bound(y as int, u32::MAX as int, self.spec_width(), u32::MAX as int);
            assert((y as int * self.spec_width() + x as int) < (self.pixels@).len());
        }
        let n: usize = self.pixels.len();
        let idx64: u64 = (y as u64) * (self.width as u64) + (x as u64);
        proof {
            assert(idx64 < n as u64);
        }
        let idx: usize = idx64 as usize;
        self.pixels[idx]
    }
}

} // verus!
