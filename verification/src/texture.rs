//! Textures: RGB images sampled by texel coordinates.

use vstd::prelude::*;
use crate::framebuffer::window_pixel;
use crate::framebuffer::rgb;

verus! {

/// A `width * height` RGB image, texel `(x, y)` at bytes
/// `3 * (y * width + x)` (red), `+ 1` (green), `+ 2` (blue) of `buffer`.
pub struct Texture {
    pub width: usize,
    pub height: usize,
    pub buffer: Vec<u8>,
}

impl Texture {
    /// The packed `0xRRGGBB` colour of texel `(x, y)`.
    pub fn color_at(&self, x: usize, y: usize) -> (color: u32)
        requires
            (y * self.width + x) * 3 + 3 <= self.buffer@.len(),
        ensures
            color as int == window_pixel(self.buffer@, y * self.width + x),
    {
        let len = self.buffer.len();
        proof {
            assert(0 <= y * self.width) by (nonlinear_arith);
        }
        let index = (y * self.width + x) * 3;
        let r = self.buffer[index] as u32;
        let g = self.buffer[index + 1] as u32;
        let b = self.buffer[index + 2] as u32;
        rgb(r, g, b)
    }
}

} // verus!
