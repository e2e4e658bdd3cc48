//! Decoded raster images as plain data: dimensions and RGBA bytes. Decoding
//! image files is the caller's concern; this type only carries the result.

use vstd::prelude::*;

verus! {

/// A decoded image: `width * height` pixels, four bytes each, row-major.
#[derive(Clone, Debug)]
pub struct RasterImage {
    pub width: u16,
    pub height: u16,
    pub pixels: Vec<u8>,
}

impl RasterImage {
    /// The pixel buffer holds exactly four bytes for every pixel.
    pub open spec fn wf(self) -> bool {
        self.pixels@.len() == 4 * self.width * self.height
    }
}

} // verus!
