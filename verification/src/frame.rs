//! Decoding of one pixel word of the shared-memory preview frame. A frame
//! pixel is a 64-bit word whose high 32 bits hold the colour (red, green,
//! blue and alpha bytes from least to most significant) and whose low 16
//! bits hold the depth; a pixel whose three colour channels are all zero is
//! treated as having no depth.
use vstd::prelude::*;

verus! {

/// Horizontal resolution of the shared-memory preview frame.
pub const FRAME_WIDTH: usize = 256;

/// Vertical resolution of the shared-memory preview frame.
pub const FRAME_HEIGHT: usize = 192;

/// Index of pixel `(x, y)` in the shared frame's word array: row-major
/// order, shifted by one for the leading timestamp word.
pub fn frame_pixel_index(x: usize, y: usize) -> (r: usize)
    requires
        x < FRAME_WIDTH,
        y < FRAME_HEIGHT,
    ensures
        r == y * FRAME_WIDTH + x + 1,
{
    y * FRAME_WIDTH + x + 1
}

/// Splits a frame pixel word into its red, green and blue channels and its
/// depth, substituting depth zero when the colour channels are all dark.
pub fn decode_frame_pixel(p: u64) -> (r: (u8, u8, u8, u32))
    ensures
        r.0 == ((p >> 32) as u32) as u8,
        r.1 == (((p >> 32) as u32) >> 8) as u8,
        r.2 == (((p >> 32) as u32) >> 16) as u8,
        r.3 == if ((p >> 32) as u32) & 0xFF_FFFF == 0 {
            0u32
        } else {
            (p & 0xFFFF) as u32
        },
{
    let rgba = (p >> 32) as u32;
    let red = rgba as u8;
    let green = (rgba >> 8) as u8;
    let blue = (rgba >> 16) as u8;
    let z = if rgba & 0xFF_FFFF == 0 {
        0
    } else {
        (p & 0xFFFF) as u32
    };
    (red, green, blue, z)
}

} // verus!
