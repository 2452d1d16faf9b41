use beyond_qr::palette::{color_to_rgb, palette, rgb_to_color, Rgb, PALETTE_SIZE};

#[test]
fn palette_has_eight_entries() {
    assert_eq!(palette().len(), PALETTE_SIZE);
}

#[test]
fn color_roundtrip_through_rgb() {
    for c in 0u8..PALETTE_SIZE as u8 {
        let rgb = color_to_rgb(c);
        assert_eq!(rgb_to_color(rgb), c, "color {c} roundtrip failed");
    }
}

#[test]
fn bit_pattern_matches_rgb_channels() {
    for c in 0u8..PALETTE_SIZE as u8 {
        let rgb = color_to_rgb(c);
        assert_eq!(rgb.r, if c & 0b100 != 0 { 255 } else { 0 });
        assert_eq!(rgb.g, if c & 0b010 != 0 { 255 } else { 0 });
        assert_eq!(rgb.b, if c & 0b001 != 0 { 255 } else { 0 });
    }
}

#[test]
fn palette_entries_are_cube_vertices() {
    let p = palette();
    assert_eq!(p[0], Rgb::new(0, 0, 0));
    assert_eq!(p[5], Rgb::new(255, 0, 255));
    assert_eq!(p[7], Rgb::new(255, 255, 255));
}

#[test]
fn rgb_to_color_picks_nearest_vertex() {
    // Closest to red.
    assert_eq!(rgb_to_color(Rgb::new(200, 40, 30)), 0b100);
    // Closest to cyan.
    assert_eq!(rgb_to_color(Rgb::new(10, 220, 240)), 0b011);
    // Either side of the midpoint between black and white.
    assert_eq!(rgb_to_color(Rgb::new(127, 127, 127)), 0);
    assert_eq!(rgb_to_color(Rgb::new(128, 128, 128)), 7);
}
