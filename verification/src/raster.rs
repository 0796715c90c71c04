//! The raster buffer behind a canvas: an RGBA buffer of the `image` crate,
//! seen through a map from raw coordinate to colour.
//!
//! Nothing in this file is proved. Each contract restates what the `image`
//! crate documents of the function that the item calls.

use image::{ImageBuffer, Rgba, RgbaImage};
use vstd::prelude::*;

verus! {

/// A pixel's four channels: red, green, blue, alpha.
pub type Rgba8 = (u8, u8, u8, u8);

/// An `image::RgbaImage`. Its only model is [`raster_pixels`].
#[verifier::external_body]
pub struct Raster {
    img: RgbaImage,
}

/// The pixels that a raster holds: the domain is every raw coordinate
/// `(x, y)` with `x` below the buffer's width and `y` below its height, and
/// each value is that pixel's four channels.
pub uninterp spec fn raster_pixels(raster: Raster) -> Map<(u32, u32), Rgba8>;

/// The raw coordinates of a raster that is `width` wide and `height` high.
pub open spec fn raster_area(width: u32, height: u32) -> Set<(u32, u32)> {
    Set::new(|p: (u32, u32)| p.0 < width && p.1 < height)
}

/// Whether a buffer of `width` by `height` pixels, four bytes each, can be
/// allocated: its length in bytes is at most `isize::MAX`.
pub open spec fn raster_fits(width: u32, height: u32) -> bool {
    4 * (width as int * height as int) <= isize::MAX as int
}

impl Raster {
    /// Calls `ImageBuffer::new`, which allocates `4 * width * height` bytes
    /// and panics where that count cannot be the length of a vector. The
    /// buffer it returns has the given width and height, and every channel of
    /// every pixel is zero.
    #[verifier::external_body]
    pub(crate) fn blank(width: u32, height: u32) -> (raster: Raster)
        requires
            raster_fits(width, height),
        ensures
            raster_pixels(raster).dom() == raster_area(width, height),
            forall|p: (u32, u32)| #[trigger]
                raster_pixels(raster).dom().contains(p) ==> raster_pixels(raster)[p] == (
                    0u8,
                    0u8,
                    0u8,
                    0u8,
                ),
    {
        Raster { img: ImageBuffer::new(width, height) }
    }

    /// Calls `ImageBuffer::get_pixel_mut`, which panics where `(x, y)` is
    /// outside the buffer, and assigns through the reference it returns: the
    /// pixel at `(x, y)` becomes `colour` and no other pixel changes.
    #[verifier::external_body]
    pub(crate) fn set(&mut self, x: u32, y: u32, colour: Rgba8)
        requires
            raster_pixels(*old(self)).dom().contains((x, y)),
        ensures
            raster_pixels(*final(self)) == raster_pixels(*old(self)).insert((x, y), colour),
    {
        *self.img.get_pixel_mut(x, y) = Rgba([colour.0, colour.1, colour.2, colour.3]);
    }

    /// Calls `ImageBuffer::get_pixel`, which panics where `(x, y)` is outside
    /// the buffer and else returns the pixel stored there.
    #[verifier::external_body]
    pub(crate) fn get(&self, x: u32, y: u32) -> (colour: Rgba8)
        requires
            raster_pixels(*self).dom().contains((x, y)),
        ensures
            colour == raster_pixels(*self)[(x, y)],
    {
        let Rgba([r, g, b, a]) = *self.img.get_pixel(x, y);
        (r, g, b, a)
    }
}

} // verus!
