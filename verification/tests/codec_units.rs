//! Unit tests of the codec on small hand-made lookup tables: nearest-entry
//! selection, last-write-wins accumulation, pixel-offset behaviour, line
//! ordering, decoding and angle rotation.
use vdrm::{Codec, DecodedPixel, PixelZInfo, ScreenPixel, TOTAL_ANGLES};

fn zi(angle: u32, zpix: u32, screen: usize, addr: u32, slot: u32) -> PixelZInfo {
    PixelZInfo {
        angle,
        pixel: zpix,
        screen_pixel: ScreenPixel { idx: screen, addr, pixel: slot },
    }
}

fn lit_angles(map: &vdrm::AngleMap) -> Vec<u32> {
    let mut out = Vec::new();
    for (a, lines) in map.angles.iter().enumerate() {
        if !lines.is_empty() {
            out.push(a as u32);
        }
    }
    out
}

#[test]
fn encode_single_voxel_lights_single_slot() {
    let entries = vec![((3u32, 4u32), zi(17, 5, 1, 20, 33))];
    let codec = Codec::new(&entries);
    let surface = vec![(3u32, 4u32, (5u32, 6u32))];
    let map = codec.encode(&surface, 0);
    assert_eq!(map.angles.len(), TOTAL_ANGLES);
    assert_eq!(lit_angles(&map), vec![17]);
    let lines = &map.angles[17];
    assert_eq!(lines.len(), 1);
    assert_eq!(lines[0].screen_idx, 1);
    assert_eq!(lines[0].addr, 20);
    assert_eq!(lines[0].pixels.len(), 64);
    for (i, p) in lines[0].pixels.iter().enumerate() {
        if i == 33 {
            assert_eq!(*p, Some(6));
        } else {
            assert_eq!(*p, None);
        }
    }
}

#[test]
fn encode_picks_nearest_height_ties_to_higher_index() {
    // column (1, 2), sorted by height index: [3 (angle 1), 3 (angle 2),
    // 5 (angle 0), 7 (angle 3)]
    let entries = vec![
        ((1u32, 2u32), zi(0, 5, 0, 0, 0)),
        ((1u32, 2u32), zi(1, 3, 0, 1, 0)),
        ((1u32, 2u32), zi(2, 3, 0, 2, 0)),
        ((1u32, 2u32), zi(3, 7, 0, 3, 0)),
    ];
    let codec = Codec::new(&entries);
    let probe = |z: u32| -> Vec<u32> { lit_angles(&codec.encode(&vec![(1, 2, (z, 7))], 0)) };
    // an exact match: the record the bisection probes first
    assert_eq!(probe(3), vec![2]);
    // below every height: the lowest record
    assert_eq!(probe(2), vec![1]);
    // 4 is equidistant between 3 and 5: the tie goes to the higher index
    assert_eq!(probe(4), vec![0]);
    // 6 is equidistant between 5 and 7: again the higher index
    assert_eq!(probe(6), vec![3]);
    // above every height: the highest record
    assert_eq!(probe(100), vec![3]);
}

#[test]
fn encode_last_write_wins() {
    // two different columns funnel into the same pixel slot
    let entries = vec![
        ((0u32, 0u32), zi(9, 0, 0, 7, 12)),
        ((0u32, 1u32), zi(9, 0, 0, 7, 12)),
    ];
    let codec = Codec::new(&entries);
    let map = codec.encode(&vec![(0, 0, (0, 1)), (0, 1, (0, 5))], 0);
    assert_eq!(map.angles[9][0].pixels[12], Some(5));
    let map2 = codec.encode(&vec![(0, 1, (0, 5)), (0, 0, (0, 1))], 0);
    assert_eq!(map2.angles[9][0].pixels[12], Some(1));
}

#[test]
fn encode_positive_offset_shifts_and_clears_front() {
    let entries = vec![((0u32, 0u32), zi(0, 0, 0, 0, 10))];
    let codec = Codec::new(&entries);
    let surface = vec![(0u32, 0u32, (0u32, 7u32))];
    let map = codec.encode(&surface, 3);
    let px = &map.angles[0][0].pixels;
    for i in 0..3 {
        assert_eq!(px[i], None);
    }
    assert_eq!(px[13], Some(7));
    assert_eq!(px[10], None);
}

#[test]
fn encode_negative_offset_shifts_and_clears_back() {
    let entries = vec![((0u32, 0u32), zi(0, 0, 0, 0, 10))];
    let codec = Codec::new(&entries);
    let surface = vec![(0u32, 0u32, (0u32, 7u32))];
    let map = codec.encode(&surface, -3);
    let px = &map.angles[0][0].pixels;
    for i in 61..64 {
        assert_eq!(px[i], None);
    }
    assert_eq!(px[7], Some(7));
    assert_eq!(px[10], None);
}

#[test]
fn encode_zero_offset_is_identity() {
    let entries = vec![((0u32, 0u32), zi(0, 0, 0, 0, 10))];
    let codec = Codec::new(&entries);
    let surface = vec![(0u32, 0u32, (0u32, 7u32))];
    let map = codec.encode(&surface, 0);
    let px = &map.angles[0][0].pixels;
    assert_eq!(px[10], Some(7));
    assert_eq!(px.iter().filter(|p| p.is_some()).count(), 1);
}

#[test]
fn encode_orders_lines_by_screen_then_addr() {
    let entries = vec![
        ((0u32, 0u32), zi(0, 0, 2, 5, 0)),
        ((0u32, 1u32), zi(0, 0, 0, 9, 1)),
        ((0u32, 2u32), zi(0, 0, 1, 1, 2)),
        ((0u32, 3u32), zi(0, 0, 0, 2, 3)),
    ];
    let codec = Codec::new(&entries);
    let surface = vec![
        (0u32, 0u32, (0u32, 7u32)),
        (0u32, 1u32, (0u32, 7u32)),
        (0u32, 2u32, (0u32, 7u32)),
        (0u32, 3u32, (0u32, 7u32)),
    ];
    let map = codec.encode(&surface, 0);
    let order: Vec<(usize, u32)> =
        map.angles[0].iter().map(|l| (l.screen_idx, l.addr)).collect();
    assert_eq!(order, vec![(0, 2), (0, 9), (1, 1), (2, 5)]);
}

#[test]
fn encode_empty_surface_gives_empty_map() {
    let entries = vec![((0u32, 0u32), zi(0, 0, 0, 0, 0))];
    let codec = Codec::new(&entries);
    let map = codec.encode(&vec![], 0);
    assert_eq!(map.angles.len(), TOTAL_ANGLES);
    assert!(map.angles.iter().all(|lines| lines.is_empty()));
}

#[test]
fn decode_lists_lit_slots_in_order() {
    let entries = vec![
        ((0u32, 0u32), zi(4, 0, 1, 8, 3)),
        ((0u32, 1u32), zi(2, 0, 0, 5, 60)),
    ];
    let codec = Codec::new(&entries);
    let surface = vec![(0u32, 0u32, (0u32, 7u32)), (0u32, 1u32, (0u32, 3u32))];
    let map = codec.encode(&surface, 0);
    let pts = codec.decode(&map);
    assert_eq!(
        pts,
        vec![
            DecodedPixel { angle: 2, screen_idx: 0, addr: 5, pixel_z: 60 },
            DecodedPixel { angle: 4, screen_idx: 1, addr: 8, pixel_z: 3 },
        ]
    );
}

#[test]
fn rotated_shifts_angles_modulo_total() {
    let entries = vec![((0u32, 0u32), zi(5, 0, 0, 0, 0))];
    let codec = Codec::new(&entries);
    let surface = vec![(0u32, 0u32, (0u32, 7u32))];
    let map = codec.encode(&surface, 0);

    let plus = codec.encode(&surface, 0).rotated(10);
    assert_eq!(lit_angles(&plus), vec![15]);
    assert_eq!(plus.angles[15], map.angles[5]);

    let minus = codec.encode(&surface, 0).rotated(-7);
    assert_eq!(lit_angles(&minus), vec![98]);

    let same = codec.encode(&surface, 0).rotated(0);
    assert_eq!(lit_angles(&same), vec![5]);

    let wrap = codec.encode(&surface, 0).rotated(205);
    assert_eq!(lit_angles(&wrap), vec![10]);
}
