//! Raster images of 8-bit RGBA pixels in row-major order, and the mask of
//! their foreground: the pixels whose alpha channel is not zero.

use vstd::prelude::*;

verus! {

/// One pixel: red, green, blue and alpha, eight bits each.
#[derive(Clone, Copy, Debug, PartialEq, Eq, Structural)]
pub struct Rgba {
    pub red: u8,
    pub green: u8,
    pub blue: u8,
    pub alpha: u8,
}

impl Rgba {
    /// The pixel belongs to the foreground: its alpha channel is not zero.
    pub open spec fn is_foreground(self) -> bool {
        self.alpha != 0
    }
}

/// The foreground mask of a run of pixels.
pub open spec fn mask_of_pixels(pixels: Seq<Rgba>) -> Seq<bool> {
    Seq::new(pixels.len(), |i: int| pixels[i].is_foreground())
}

/// An image of `width` columns and `height` rows; the pixel in column `x` of
/// row `y` stands at index `x + y * width`.
#[derive(Clone, Debug)]
pub struct Raster {
    pub width: usize,
    pub height: usize,
    pub pixels: Vec<Rgba>,
}

impl Raster {
    /// The image holds one pixel for every cell of its grid.
    pub open spec fn wf(&self) -> bool {
        self.pixels@.len() == self.width * self.height
    }

    /// The foreground mask of the image.
    pub open spec fn mask(&self) -> Seq<bool> {
        mask_of_pixels(self.pixels@)
    }

    /// Makes an image of the given pixels; `None` where their number is not
    /// `width * height`.
    pub fn new(width: usize, height: usize, pixels: Vec<Rgba>) -> (raster: Option<Raster>)
        ensures
            raster is Some <==> pixels@.len() == width * height,
            raster is Some ==> raster->0.wf() && raster->0.width == width && raster->0.height
                == height && raster->0.pixels == pixels,
    {
        let count = pixels.len();
        match width.checked_mul(height) {
            Some(cells) => {
                if cells == count {
                    Some(Raster { width, height, pixels })
                } else {
                    None
                }
            },
            None => {
                assert(width * height > usize::MAX);
                None
            },
        }
    }
}

} // verus!
