//! End-to-end tests through the real display geometry: the lookup entries
//! are computed here in floating point (the library itself is purely
//! integral) and handed to the codec, exercising encode, decode and the
//! HUB75 packer on full synthetic surfaces.
use geo::line_intersection::{line_intersection, LineIntersection};
use geo::{EuclideanDistance, EuclideanLength, LineInterpolatePoint, Vector2DOps};
use vdrm::{
    gen_plane_surface, gen_pyramid_surface, pack_hub75_range, Codec, PixelZInfo, ScreenLine,
    ScreenPixel, TOTAL_ANGLES,
};

const CIRCLE_R: f64 = 1.0;

fn screen_lines() -> [geo::Line<f64>; 3] {
    let u: (f64, f64) = (-2., 0.);
    let v: (f64, f64) = (-1., -1.);
    let w: (f64, f64) = (1., -1.);
    let x: (f64, f64) = (1. - 0.5_f64.sqrt(), 1. + 0.5_f64.sqrt());
    let y: (f64, f64) = (1. + 0.5_f64.sqrt(), 1. - 0.5_f64.sqrt());
    let z: (f64, f64) = (-1., 3.0_f64.sqrt());
    [geo::Line::new(v, w), geo::Line::new(x, y), geo::Line::new(z, u)]
}

fn pixel_to_v(p: u32) -> f64 {
    let point_size: f64 = 2. * CIRCLE_R / 64.;
    p as f64 * point_size + 0.5 * point_size - CIRCLE_R
}

fn v_to_pixel(v: f64) -> Option<u32> {
    let point_size: f64 = 2. * CIRCLE_R / 64.;
    let v = (v + CIRCLE_R) / point_size - 0.5;
    if v < 0. || v > 63. {
        return None;
    }
    Some(v as u32)
}

fn pixel_to_h(p: u32) -> f64 {
    let point_size: f64 = CIRCLE_R / 32.;
    (p as f64) * point_size + 0.5 * point_size
}

fn h_to_pixel(h: f64) -> u32 {
    let point_size: f64 = CIRCLE_R / 32.;
    (h / point_size - 0.5) as u32
}

fn angle_to_v(p: u32) -> f64 {
    p as f64 / TOTAL_ANGLES as f64 * 2. * std::f64::consts::PI
}

fn cacl_z_pixel(
    lines: &[geo::Line<f64>],
    pixel_angle: u32,
    x: u32,
    y: u32,
) -> Option<PixelZInfo> {
    let angle = angle_to_v(pixel_angle);
    let x = pixel_to_v(x);
    let y = pixel_to_v(y);

    const LEN: f64 = 4. * CIRCLE_R;
    let point_a = geo::Coord::from((LEN * angle.cos(), LEN * angle.sin()));
    let point_a1 = -point_a;
    let point_p = geo::Coord::from((x, y));
    let point_b = point_a + point_p;
    let point_b1 = point_a1 + point_p;
    let line_pb = geo::Line::new(point_p, point_b);
    let mut intersection_info = None;
    for (idx, &line) in lines.iter().enumerate() {
        if let Some(LineIntersection::SinglePoint { intersection: points, .. }) =
            line_intersection(line, line_pb)
        {
            intersection_info = Some((points, idx, line.start));
            break;
        }
    }
    let (point_s, screen_idx, point_start) = intersection_info?;
    let point_c = geo::Coord::from((point_a.y, -point_a.x));
    let point_c1 = geo::Coord::from((-point_a.y, point_a.x));
    let line_bb1 = geo::Line::new(point_b, point_b1);
    let line_cc1 = geo::Line::new(point_c, point_c1);
    let point_q = line_intersection(line_bb1, line_cc1).unwrap();
    let LineIntersection::SinglePoint { intersection: point_q, .. } = point_q else {
        panic!("parallel scan plane");
    };
    let len_qs = point_q.euclidean_distance(&point_s);
    let h = CIRCLE_R * 2. - len_qs;

    let pq_len = geo::Line::new(point_p, point_q).euclidean_length();
    let pq = point_p - point_q;
    let sq = point_s - point_q;
    let screen_pixel_h = if pq.dot_product(sq).is_sign_negative() {
        pq_len
    } else {
        -pq_len
    };

    let len_addr = point_start.euclidean_distance(&point_s) - CIRCLE_R;
    let addr = v_to_pixel(len_addr)?;
    let pixel = v_to_pixel(screen_pixel_h)?;
    Some(PixelZInfo {
        angle: pixel_angle,
        pixel: h_to_pixel(h),
        screen_pixel: ScreenPixel { idx: screen_idx, addr, pixel },
    })
}

fn cacl_xyz(angle: u32, screen_idx: usize, addr: u32, pixel_z: u32) -> (f64, f64, f64) {
    let lines = screen_lines();
    let angle = angle_to_v(angle);
    const LEN: f64 = 4. * CIRCLE_R;
    let point_a = geo::Coord::from((LEN * angle.cos(), LEN * angle.sin()));
    let point_a1 = -point_a;
    let point_c = geo::Coord::from((point_a.y, -point_a.x));
    let point_c1 = geo::Coord::from((-point_a.y, point_a.x));
    let line_c_c1 = geo::Line::new(point_c, point_c1);

    let line = lines[screen_idx];
    let len_start_s = pixel_to_v(addr) + CIRCLE_R;
    let fraction = len_start_s / (CIRCLE_R * 2.);
    let point_s: geo::Coord<f64> = line.line_interpolate_point(fraction).unwrap().into();
    let point_s1 = point_s - point_a + point_a1;
    let point_s2 = point_s + point_a;
    let line_s1_s2 = geo::Line::new(point_s1, point_s2);
    let point_q = line_intersection(line_s1_s2, line_c_c1).unwrap();
    let LineIntersection::SinglePoint { intersection: point_q, .. } = point_q else {
        panic!("parallel scan plane");
    };
    let len_pq_with_dir = pixel_to_v(pixel_z);
    let len_pq_abs = len_pq_with_dir.abs();
    let line_o_a1 = geo::Line::new(geo::Coord::zero(), point_a1);
    let point_p1_abs: geo::Coord<f64> =
        line_o_a1.line_interpolate_point(len_pq_abs / LEN).unwrap().into();
    let point_p = if len_pq_with_dir.is_sign_positive() {
        point_q + point_p1_abs
    } else {
        point_q - point_p1_abs
    };
    let line_qs = geo::Line::new(point_q, point_s);
    let z = CIRCLE_R * 2. - line_qs.euclidean_length();
    (point_p.x, point_p.y, z)
}

fn build_entries() -> Vec<((u32, u32), PixelZInfo)> {
    let lines = screen_lines();
    let mut entries = Vec::new();
    for x in 0..64u32 {
        for y in 0..64u32 {
            for angle in 0..TOTAL_ANGLES as u32 {
                if let Some(z) = cacl_z_pixel(&lines, angle, x, y) {
                    entries.push(((x, y), z));
                }
            }
        }
    }
    entries
}

fn make_codec() -> Codec {
    Codec::new(&build_entries())
}

fn print_screen_lines(lines: &[ScreenLine]) {
    let mut buf = "[".to_string();
    for line in lines {
        let mut pixels = "(".to_string();
        for p in &line.pixels {
            match p {
                None => pixels.push('_'),
                Some(c) => pixels.push_str(&format!("{c}")),
            }
            pixels.push(',');
        }
        buf.push_str(&format!("{}-{}{}", line.screen_idx, line.addr, pixels));
    }
    buf.push(']');
    println!("{buf}");
}

#[test]
fn it_works() {
    let angle_map1 = make_codec().encode(&gen_pyramid_surface(0, 30), 0);
    let angle_map2 = make_codec().encode(&gen_pyramid_surface(0, 32), 0);
    for angle in 0..TOTAL_ANGLES {
        let a = &angle_map1.angles[angle];
        let b = &angle_map2.angles[angle];
        if a == b {
            continue;
        }
        print_screen_lines(a.as_slice());
        print_screen_lines(b.as_slice());
    }
}

#[test]
fn plane_covers_most_angles_with_lit_lines() {
    let codec = make_codec();
    let map = codec.encode(&gen_plane_surface(16), 0);
    // a band of angles stays dark: the plane's voxels quantise to other
    // angles there, though the lookup table has entries at every angle
    let lit = (0..TOTAL_ANGLES).filter(|&a| !map.angles[a].is_empty()).count();
    assert!(lit >= 60, "only {lit} angles have a scan line");
    // with a zero offset every emitted scan line has a lit slot
    for (angle, lines) in map.angles.iter().enumerate() {
        for line in lines {
            assert!(
                line.pixels.iter().any(|p| p.is_some()),
                "angle {angle} has an all-dark scan line"
            );
        }
    }
}

#[test]
fn two_codecs_encode_identically() {
    let map1 = make_codec().encode(&gen_pyramid_surface(0, 32), 5);
    let map2 = make_codec().encode(&gen_pyramid_surface(0, 32), 5);
    assert_eq!(map1, map2);
}

#[test]
fn lower_pyramid_is_subset_of_taller() {
    let map30 = make_codec().encode(&gen_pyramid_surface(0, 30), 0);
    let map32 = make_codec().encode(&gen_pyramid_surface(0, 32), 0);
    let mut differs = false;
    for angle in 0..TOTAL_ANGLES {
        let a = &map30.angles[angle];
        let b = &map32.angles[angle];
        if a != b {
            differs = true;
        }
        if a.is_empty() || b.is_empty() {
            continue;
        }
        // every lit slot of the lower pyramid is lit in the taller one
        for line in a {
            for (idx, p) in line.pixels.iter().enumerate() {
                if p.is_some() {
                    let lit = b.iter().any(|l| {
                        l.screen_idx == line.screen_idx && l.addr == line.addr
                            && l.pixels[idx].is_some()
                    });
                    assert!(
                        lit,
                        "angle {angle}: slot ({}, {}, {idx}) lit only in the lower pyramid",
                        line.screen_idx, line.addr
                    );
                }
            }
        }
    }
    assert!(differs, "the two pyramids encoded identically");
}

#[test]
fn plane_roundtrip_recovers_height() {
    let codec = make_codec();
    let map = codec.encode(&gen_plane_surface(16), 0);
    let slots = codec.decode(&map);
    let target = pixel_to_h(16);
    let tol = 2. / 32.;
    let mut close = 0usize;
    for s in &slots {
        let (_, _, z) = cacl_xyz(s.angle, s.screen_idx, s.addr, s.pixel_z);
        if (z - target).abs() <= tol {
            close += 1;
        }
    }
    assert!(
        close >= 3000,
        "only {close} of {} points are within {tol} of the plane height",
        slots.len()
    );
}

#[test]
fn pyramid_roundtrip_quantisation_loss_is_bounded() {
    let surface = gen_pyramid_surface(0, 32);
    let codec = make_codec();
    let map = codec.encode(&surface, 0);
    let slots = codec.decode(&map);
    let cloud: Vec<(f64, f64, f64)> = slots
        .iter()
        .map(|s| cacl_xyz(s.angle, s.screen_idx, s.addr, s.pixel_z))
        .collect();
    let tol = 2. / 64.;
    let mut within = 0usize;
    for &(x, y, (z, _)) in &surface {
        let tx = pixel_to_v(x);
        let ty = pixel_to_v(y);
        let tz = pixel_to_h(z);
        let best = cloud
            .iter()
            .map(|&(px, py, pz)| {
                ((px - tx).powi(2) + (py - ty).powi(2) + (pz - tz).powi(2)).sqrt()
            })
            .fold(f64::INFINITY, f64::min);
        if best <= tol {
            within += 1;
        }
        // where a column's achievable heights thin out the loss grows to a
        // few voxels, but it stays bounded for every voxel
        assert!(
            best <= 12. / 64.,
            "voxel ({x}, {y}, {z}): nearest decoded point is {best} away"
        );
    }
    // two thirds of the pyramid round-trips within one voxel
    assert!(
        3 * within >= 2 * surface.len(),
        "only {within} of {} voxels round-trip within one voxel",
        surface.len()
    );
}

#[test]
fn centre_voxel_is_never_discarded() {
    // whenever the radial slice through the volume centre reaches a panel
    // at all, its projection is defined, so the centre column keeps an
    // entry; at the remaining angles the slice passes through the gaps
    // between the three panels
    let lines = screen_lines();
    let covered = (0..TOTAL_ANGLES as u32)
        .filter(|&a| cacl_z_pixel(&lines, a, 32, 32).is_some())
        .count();
    assert!(covered >= 60, "centre column covered at only {covered} angles");
    // so the centre voxel always encodes: it lights exactly one angle
    let codec = make_codec();
    let map = codec.encode(&vec![(32, 32, (0, 7))], 0);
    let lit: Vec<usize> =
        (0..TOTAL_ANGLES).filter(|&a| !map.angles[a].is_empty()).collect();
    assert_eq!(lit.len(), 1);
}

#[test]
fn columns_repeat_quantised_heights() {
    // two angles of one column can strike at the same quantised height, so
    // the column sort is non-strict and an exact height can have several
    // candidate records
    let entries = build_entries();
    let mut counts = std::collections::HashMap::new();
    let mut found = false;
    for e in &entries {
        let key = (e.0, e.1.pixel);
        let n = counts.entry(key).or_insert(0u32);
        *n += 1;
        if *n > 1 {
            found = true;
            break;
        }
    }
    assert!(found, "no column repeats a quantised height");
}

#[test]
fn pack_overlapping_ranges_share_tail() {
    let map = make_codec().encode(&gen_pyramid_surface(-32, 32), 0);
    let full = pack_hub75_range(&map, 0, 100);
    let tail = pack_hub75_range(&map, 90, 100);
    assert!(!tail.pixel_buf.is_empty());
    assert!(full.pixel_buf.ends_with(&tail.pixel_buf));
    assert!(full.addr_buf.ends_with(&tail.addr_buf));
}
