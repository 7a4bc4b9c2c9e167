//! Tests of the shared-memory frame pixel decoding.
use vdrm::decode_frame_pixel;
use vdrm::frame::frame_pixel_index;

#[test]
fn frame_index_skips_timestamp_word() {
    assert_eq!(frame_pixel_index(0, 0), 1);
    assert_eq!(frame_pixel_index(255, 0), 256);
    assert_eq!(frame_pixel_index(0, 1), 257);
    assert_eq!(frame_pixel_index(255, 191), 192 * 256);
}

#[test]
fn frame_pixel_splits_channels_and_depth() {
    // colour 0x00BBGGRR in the high word, depth in the low 16 bits
    let p: u64 = (0x00CC_8844u64 << 32) | 0x1234;
    let (r, g, b, z) = decode_frame_pixel(p);
    assert_eq!(r, 0x44);
    assert_eq!(g, 0x88);
    assert_eq!(b, 0xCC);
    assert_eq!(z, 0x1234);
}

#[test]
fn frame_pixel_dark_colour_forces_depth_zero() {
    let p: u64 = 0xFFFF; // depth set, colour channels all zero
    let (r, g, b, z) = decode_frame_pixel(p);
    assert_eq!((r, g, b), (0, 0, 0));
    assert_eq!(z, 0);
    // an alpha-only colour still counts as dark
    let p2: u64 = (0xFF00_0000u64 << 32) | 0x0042;
    let (_, _, _, z2) = decode_frame_pixel(p2);
    assert_eq!(z2, 0);
}

#[test]
fn frame_pixel_depth_ignores_middle_bits() {
    // bits 16..32 of the low word do not belong to the depth
    let p: u64 = (0x0000_0001u64 << 32) | 0xABCD_5678;
    let (_, _, _, z) = decode_frame_pixel(p);
    assert_eq!(z, 0x5678);
}
