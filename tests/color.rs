use text_attrs::Color;

#[test]
fn rgba_packs_alpha_red_green_blue() {
    let c = Color::rgba(0x12, 0x34, 0x56, 0x78);
    assert_eq!(c.0, 0x7812_3456);
}

#[test]
fn rgba_channels_read_back() {
    let c = Color::rgba(0x12, 0x34, 0x56, 0x78);
    assert_eq!(c.r(), 0x12);
    assert_eq!(c.g(), 0x34);
    assert_eq!(c.b(), 0x56);
    assert_eq!(c.a(), 0x78);
}

#[test]
fn rgb_is_opaque() {
    let c = Color::rgb(1, 2, 3);
    assert_eq!(c.0, 0xFF01_0203);
    assert_eq!(c.a(), 255);
    assert_eq!(c, Color::rgba(1, 2, 3, 255));
}

#[test]
fn channel_round_trip_over_edges() {
    for &(r, g, b, a) in &[(0u8, 0u8, 0u8, 0u8), (255, 255, 255, 255), (255, 0, 128, 1), (7, 200, 0, 255)] {
        let c = Color::rgba(r, g, b, a);
        assert_eq!((c.r(), c.g(), c.b(), c.a()), (r, g, b, a));
    }
}
