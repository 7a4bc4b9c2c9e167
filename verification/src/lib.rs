//! VDRM codec: encodes voxel surfaces into per-rotation-angle scan-line
//! commands for a spinning volumetric LED display, decodes them back for
//! preview, and packs them into HUB75 frame buffers.
use vstd::prelude::*;

pub mod angle_map;
pub mod codec;
pub mod frame;
pub mod hub75;
pub mod surface;

pub use angle_map::{AngleMap, ScreenLine};
pub use codec::{Codec, DecodedPixel, PixelZInfo, ScreenPixel};
pub use frame::decode_frame_pixel;
pub use hub75::{Hub75Buffers, pack_hub75, pack_hub75_range};
pub use surface::{gen_cross_plane_surface, gen_plane_surface, gen_pyramid_surface,
    gen_pyramid_surface2};

verus! {

/// Voxels per horizontal side of the volume, and pixels per scan line.
pub const W_PIXELS: usize = 64;

/// Vertical voxel resolution of the volume.
pub const H_PIXELS: usize = 32;

/// Number of discrete rotation angles of the mirror.
pub const TOTAL_ANGLES: usize = 100;

/// A 3-bit RGB colour, `0..8`.
pub type PixelColor = u32;

/// A voxel surface: `(x, y, (z, colour))` tuples with `x, y` on the 64 x 64
/// grid, `z` a height index and `colour` a 3-bit RGB value.
pub type PixelSurface = Vec<(u32, u32, (u32, PixelColor))>;

} // verus!
