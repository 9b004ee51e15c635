use egaku::color::{hex_rgb, rgb_hex};

#[test]
fn reads_the_three_channels() {
    assert_eq!(hex_rgb("#2E3440"), Some((0x2E, 0x34, 0x40)));
    assert_eq!(hex_rgb("eceff4"), Some((0xEC, 0xEF, 0xF4)));
}

#[test]
fn every_leading_hash_is_dropped() {
    assert_eq!(hex_rgb("##BF616A"), Some((0xBF, 0x61, 0x6A)));
}

#[test]
fn a_pair_may_carry_a_plus_sign() {
    assert_eq!(hex_rgb("#+F+1+a"), Some((15, 1, 10)));
    assert_eq!(hex_rgb("#F+0000"), None);
}

#[test]
fn wrong_lengths_and_non_digits_are_refused() {
    assert_eq!(hex_rgb("#FFF"), None);
    assert_eq!(hex_rgb("invalid"), None);
    assert_eq!(hex_rgb("#GG0000"), None);
    assert_eq!(hex_rgb(""), None);
    // Six bytes, but the first pair is one two-byte character.
    assert_eq!(hex_rgb("#\u{e9}1234"), None);
}

#[test]
fn writes_upper_case_pairs() {
    assert_eq!(rgb_hex(0x2E, 0x34, 0x40), "#2E3440");
    assert_eq!(rgb_hex(0, 0, 255), "#0000FF");
    assert_eq!(rgb_hex(10, 171, 205), "#0AABCD");
}

#[test]
fn writing_then_reading_gives_the_channels_back() {
    for (r, g, b) in [(0u8, 0u8, 0u8), (255, 255, 255), (1, 128, 254), (0x5E, 0x81, 0xAC)] {
        assert_eq!(hex_rgb(&rgb_hex(r, g, b)), Some((r, g, b)));
    }
}

/// The channels as the unit fractions a renderer takes, opaque.
fn unit_rgba(hex: &str) -> Option<[f32; 4]> {
    hex_rgb(hex).map(|(r, g, b)| [f32::from(r) / 255.0, f32::from(g) / 255.0, f32::from(b) / 255.0, 1.0])
}

fn unit_to_hex(rgba: &[f32; 4]) -> String {
    let byte = |c: f32| (c * 255.0).round() as u8;
    rgb_hex(byte(rgba[0]), byte(rgba[1]), byte(rgba[2]))
}

#[test]
fn hex_to_rgba_valid() {
    let c = unit_rgba("#2E3440").unwrap();
    assert!((c[0] - 0.180).abs() < 0.01);
    assert!((c[1] - 0.204).abs() < 0.01);
    assert!((c[2] - 0.251).abs() < 0.01);
    assert_eq!(c[3], 1.0);
}

#[test]
fn hex_to_rgba_no_hash() {
    let c = unit_rgba("ECEFF4").unwrap();
    assert!(c[0] > 0.9);
}

#[test]
fn hex_to_rgba_invalid() {
    assert!(unit_rgba("invalid").is_none());
    assert!(unit_rgba("#FFF").is_none());
}

#[test]
fn rgba_to_hex_roundtrip() {
    let hex = "#2E3440";
    let rgba = unit_rgba(hex).unwrap();
    let back = unit_to_hex(&rgba);
    assert_eq!(back, hex);
}

#[test]
fn a_pair_split_inside_a_character_reads_as_nothing() {
    assert_eq!(hex_rgb("#1\u{e9}234"), None);
}
