//! Synthetic voxel test surfaces: a height-filtered pyramid, a flat plane
//! and a striped cross-plane, each over the full 64 x 64 grid.
use vstd::prelude::*;

verus! {

use crate::{PixelSurface, W_PIXELS};
use vstd::math::abs;

/// Height of the pyramid above cell `(x, y)`: the apex of 32 sits at the
/// grid centre and the surface falls away by taxicab distance.
pub open spec fn pyramid_h(x: int, y: int) -> int {
    32 - (abs(x - 32) + abs(y - 32))
}

/// Quadrant-coded 3-bit colour of a pyramid cell, by the signs of
/// `(x - 32, y - 32)`.
pub open spec fn quadrant_color(x: int, y: int) -> u32 {
    if x >= 32 && y >= 32 {
        0b111
    } else if x < 32 && y >= 32 {
        0b001
    } else if x < 32 && y < 32 {
        0b010
    } else {
        0b101
    }
}

/// The voxels a pyramid surface emits for cell `(x, y)`: one when the height
/// lies in `[low, high]`, none otherwise.
pub open spec fn pyramid_cell(low: int, high: int, x: int, y: int) -> Seq<(u32, u32, (u32, u32))> {
    let h = pyramid_h(x, y);
    if low <= h <= high {
        seq![(x as u32, y as u32, (abs(h) as u32, quadrant_color(x, y)))]
    } else {
        Seq::empty()
    }
}

/// The voxels the two-quadrant pyramid emits for cell `(x, y)`: only the
/// cells whose quadrant colour is 7 or 1 (the half with `y >= 32`).
pub open spec fn pyramid2_cell(x: int, y: int) -> Seq<(u32, u32, (u32, u32))> {
    let c = quadrant_color(x, y);
    if c == 0b111 || c == 0b001 {
        seq![(x as u32, y as u32, (abs(pyramid_h(x, y)) as u32, c))]
    } else {
        Seq::empty()
    }
}

/// Concatenation of per-cell voxel sequences over the first `n` cells of the
/// grid, in row-major `(x, y)` order (cell `n` is `(n / 64, n % 64)`).
pub open spec fn cells_concat(f: spec_fn(int, int) -> Seq<(u32, u32, (u32, u32))>, n: int) -> Seq<
    (u32, u32, (u32, u32)),
>
    decreases n,
{
    if n <= 0 {
        Seq::empty()
    } else {
        cells_concat(f, n - 1) + f((n - 1) / 64, (n - 1) % 64)
    }
}

/// The pyramid surface with heights filtered to `[low, high]`.
pub open spec fn pyramid_surface_spec(low: int, high: int) -> Seq<(u32, u32, (u32, u32))> {
    cells_concat(|x: int, y: int| pyramid_cell(low, high, x, y), 4096)
}

/// The two-quadrant pyramid surface.
pub open spec fn pyramid2_surface_spec() -> Seq<(u32, u32, (u32, u32))> {
    cells_concat(|x: int, y: int| pyramid2_cell(x, y), 4096)
}

/// Generates the pyramid surface: for every grid cell whose pyramid height
/// `h` satisfies `low <= h <= height`, one voxel at `(x, y)` with height
/// `|h|` and the quadrant colour.
pub fn gen_pyramid_surface(low: i32, height: i32) -> (r: PixelSurface)
    ensures
        r@ == pyramid_surface_spec(low as int, height as int),
{
    let ghost f = |x: int, y: int| pyramid_cell(low as int, height as int, x, y);
    let mut r: PixelSurface = Vec::new();
    let mut x: u32 = 0;
    while x < W_PIXELS as u32
        invariant
            x <= W_PIXELS as u32,
            r@ == cells_concat(f, x as int * 64),
            f == (|x: int, y: int| pyramid_cell(low as int, height as int, x, y)),
        decreases W_PIXELS as u32 - x,
    {
        let mut y: u32 = 0;
        while y < W_PIXELS as u32
            invariant
                x < W_PIXELS as u32,
                y <= W_PIXELS as u32,
                r@ == cells_concat(f, x as int * 64 + y as int),
                f == (|x: int, y: int| pyramid_cell(low as int, height as int, x, y)),
            decreases W_PIXELS as u32 - y,
        {
            let x_i32 = x as i32 - 32;
            let y_i32 = y as i32 - 32;
            let dx = if x_i32 >= 0 {
                x_i32
            } else {
                -x_i32
            };
            let dy = if y_i32 >= 0 {
                y_i32
            } else {
                -y_i32
            };
            let h = 32 - (dx + dy);
            proof {
                vstd::arithmetic::div_mod::lemma_fundamental_div_mod_converse(
                    x as int * 64 + y as int,
                    64,
                    x as int,
                    y as int,
                );
            }
            if !(h < low || h > height) {
                let habs = if h >= 0 {
                    h
                } else {
                    -h
                };
                let color: u32 = match (x_i32 >= 0, y_i32 >= 0) {
                    (true, true) => 0b111,
                    (false, true) => 0b001,
                    (false, false) => 0b010,
                    (true, false) => 0b101,
                };
                r.push((x, y, (habs as u32, color)));
            }
            proof {
                assert(r@ =~= cells_concat(f, x as int * 64 + y as int + 1));
            }
            y += 1;
        }
        x += 1;
    }
    proof {
        assert(pyramid_surface_spec(low as int, height as int) == cells_concat(f, 4096));
    }
    r
}

/// Generates the two-quadrant pyramid: the full pyramid restricted to the
/// cells whose quadrant colour is 7 or 1.
pub fn gen_pyramid_surface2() -> (r: PixelSurface)
    ensures
        r@ == pyramid2_surface_spec(),
{
    let ghost f = |x: int, y: int| pyramid2_cell(x, y);
    let mut r: PixelSurface = Vec::new();
    let mut x: u32 = 0;
    while x < W_PIXELS as u32
        invariant
            x <= W_PIXELS as u32,
            r@ == cells_concat(f, x as int * 64),
            f == (|x: int, y: int| pyramid2_cell(x, y)),
        decreases W_PIXELS as u32 - x,
    {
        let mut y: u32 = 0;
        while y < W_PIXELS as u32
            invariant
                x < W_PIXELS as u32,
                y <= W_PIXELS as u32,
                r@ == cells_concat(f, x as int * 64 + y as int),
                f == (|x: int, y: int| pyramid2_cell(x, y)),
            decreases W_PIXELS as u32 - y,
        {
            let x_i32 = x as i32 - 32;
            let y_i32 = y as i32 - 32;
            let dx = if x_i32 >= 0 {
                x_i32
            } else {
                -x_i32
            };
            let dy = if y_i32 >= 0 {
                y_i32
            } else {
                -y_i32
            };
            let h = 32 - (dx + dy);
            proof {
                vstd::arithmetic::div_mod::lemma_fundamental_div_mod_converse(
                    x as int * 64 + y as int,
                    64,
                    x as int,
                    y as int,
                );
            }
            let color: u32 = match (x_i32 >= 0, y_i32 >= 0) {
                (true, true) => 0b111,
                (false, true) => 0b001,
                (false, false) => 0b010,
                (true, false) => 0b101,
            };
            if color == 0b111 || color == 0b001 {
                let habs = if h >= 0 {
                    h
                } else {
                    -h
                };
                r.push((x, y, (habs as u32, color)));
            }
            proof {
                assert(r@ =~= cells_concat(f, x as int * 64 + y as int + 1));
            }
            y += 1;
        }
        x += 1;
    }
    r
}

/// Generates a flat plane: every grid cell carries the same height and
/// colour 7.
pub fn gen_plane_surface(height: u32) -> (r: PixelSurface)
    ensures
        r@.len() == 4096,
        forall|n: int|
            0 <= n < 4096 ==> #[trigger] r@[n] == ((n / 64) as u32, (n % 64) as u32, (
            height,
            0b111u32,
            )),
{
    let mut r: PixelSurface = Vec::new();
    let mut x: u32 = 0;
    while x < W_PIXELS as u32
        invariant
            x <= W_PIXELS as u32,
            r@.len() == x as int * 64,
            forall|n: int|
                0 <= n < r@.len() ==> #[trigger] r@[n] == ((n / 64) as u32, (n % 64) as u32, (
                height,
                0b111u32,
                )),
        decreases W_PIXELS as u32 - x,
    {
        let mut y: u32 = 0;
        while y < W_PIXELS as u32
            invariant
                x < W_PIXELS as u32,
                y <= W_PIXELS as u32,
                r@.len() == x as int * 64 + y as int,
                forall|n: int|
                    0 <= n < r@.len() ==> #[trigger] r@[n] == ((n / 64) as u32, (n % 64) as u32, (
                    height,
                    0b111u32,
                    )),
            decreases W_PIXELS as u32 - y,
        {
            proof {
                vstd::arithmetic::div_mod::lemma_fundamental_div_mod_converse(
                    x as int * 64 + y as int,
                    64,
                    x as int,
                    y as int,
                );
            }
            r.push((x, y, (height, 0b111)));
            y += 1;
        }
        x += 1;
    }
    r
}

/// Height and colour of a cross-plane cell, striped by `(x / 8) mod 3`:
/// stripe 0 is height 32 colour 1, stripe 1 is height 16 colour 2, stripe 2
/// is height 0 colour 5.
pub open spec fn cross_zc(x: int) -> (u32, u32) {
    let stripe = (x / 8) % 3;
    if stripe == 0 {
        (32u32, 0b001u32)
    } else if stripe == 1 {
        (16u32, 0b010u32)
    } else {
        (0u32, 0b101u32)
    }
}

/// Generates the striped cross-plane surface.
pub fn gen_cross_plane_surface() -> (r: PixelSurface)
    ensures
        r@.len() == 4096,
        forall|n: int|
            0 <= n < 4096 ==> #[trigger] r@[n] == ((n / 64) as u32, (n % 64) as u32, cross_zc(
                n / 64,
            )),
{
    let mut r: PixelSurface = Vec::new();
    let mut x: u32 = 0;
    while x < W_PIXELS as u32
        invariant
            x <= W_PIXELS as u32,
            r@.len() == x as int * 64,
            forall|n: int|
                0 <= n < r@.len() ==> #[trigger] r@[n] == ((n / 64) as u32, (n % 64) as u32,
                cross_zc(n / 64)),
        decreases W_PIXELS as u32 - x,
    {
        let mut y: u32 = 0;
        while y < W_PIXELS as u32
            invariant
                x < W_PIXELS as u32,
                y <= W_PIXELS as u32,
                r@.len() == x as int * 64 + y as int,
                forall|n: int|
                    0 <= n < r@.len() ==> #[trigger] r@[n] == ((n / 64) as u32, (n % 64) as u32,
                    cross_zc(n / 64)),
            decreases W_PIXELS as u32 - y,
        {
            let idx = (x / 8) % 3;
            let zc: (u32, u32) = match idx {
                0 => (32, 0b001),
                1 => (16, 0b010),
                _ => (0, 0b101),
            };
            proof {
                vstd::arithmetic::div_mod::lemma_fundamental_div_mod_converse(
                    x as int * 64 + y as int,
                    64,
                    x as int,
                    y as int,
                );
            }
            r.push((x, y, zc));
            y += 1;
        }
        x += 1;
    }
    r
}

} // verus!
