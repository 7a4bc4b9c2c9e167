//! Exact-value tests of the synthetic surface generators.
use vdrm::{gen_cross_plane_surface, gen_plane_surface, gen_pyramid_surface, gen_pyramid_surface2};

#[test]
fn plane_surface_covers_grid_with_colour_seven() {
    let s = gen_plane_surface(16);
    assert_eq!(s.len(), 4096);
    assert_eq!(s[0], (0, 0, (16, 0b111)));
    assert_eq!(s[65], (1, 1, (16, 0b111)));
    assert_eq!(s[4095], (63, 63, (16, 0b111)));
    assert!(s.iter().all(|&(_, _, (z, c))| z == 16 && c == 0b111));
}

#[test]
fn pyramid_surface_filters_heights_and_codes_quadrants() {
    let s = gen_pyramid_surface(0, 32);
    // the apex
    assert!(s.contains(&(32, 32, (32, 0b111))));
    // edge cells at height 0, one per quadrant colouring
    assert!(s.contains(&(0, 32, (0, 0b001))));
    assert!(s.contains(&(32, 0, (0, 0b101))));
    // the corner lies below height 0 and is filtered out
    assert!(s.iter().all(|&(x, y, _)| !(x == 0 && y == 0)));
    // every height respects the filter and the formula
    for &(x, y, (z, c)) in &s {
        let h = 32 - ((x as i32 - 32).abs() + (y as i32 - 32).abs());
        assert!(0 <= h && h <= 32);
        assert_eq!(z, h.unsigned_abs());
        let expect = match (x as i32 - 32 >= 0, y as i32 - 32 >= 0) {
            (true, true) => 0b111,
            (false, true) => 0b001,
            (false, false) => 0b010,
            (true, false) => 0b101,
        };
        assert_eq!(c, expect);
    }
}

#[test]
fn pyramid_surface_low_bound_filters() {
    let low = gen_pyramid_surface(10, 32);
    for &(x, y, _) in &low {
        let h = 32 - ((x as i32 - 32).abs() + (y as i32 - 32).abs());
        assert!(h >= 10);
    }
    assert!(low.len() < gen_pyramid_surface(0, 32).len());
}

#[test]
fn pyramid_surface2_keeps_two_quadrants_unfiltered() {
    let s = gen_pyramid_surface2();
    // exactly the half grid with y >= 32 (colours 7 and 1), no height filter
    assert_eq!(s.len(), 64 * 32);
    for &(x, y, (z, c)) in &s {
        assert!(y >= 32);
        let h = 32 - ((x as i32 - 32).abs() + (y as i32 - 32).abs());
        assert_eq!(z, h.unsigned_abs());
        assert!(c == 0b111 || c == 0b001);
        assert_eq!(c == 0b111, x >= 32);
    }
    // a negative height shows up through its absolute value
    assert!(s.contains(&(0, 63, (31, 0b001))));
}

#[test]
fn cross_plane_surface_stripes_by_x() {
    let s = gen_cross_plane_surface();
    assert_eq!(s.len(), 4096);
    for &(x, _, (z, c)) in &s {
        let expect = match (x / 8) % 3 {
            0 => (32, 0b001),
            1 => (16, 0b010),
            _ => (0, 0b101),
        };
        assert_eq!((z, c), expect);
    }
    assert_eq!(s[0], (0, 0, (32, 0b001)));
    assert_eq!(s[8 * 64], (8, 0, (16, 0b010)));
    assert_eq!(s[16 * 64], (16, 0, (0, 0b101)));
    assert_eq!(s[63 * 64], (63, 0, (16, 0b010)));
}
