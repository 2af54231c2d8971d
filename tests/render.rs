use lifefromscratch::render::{color_code, to_pixel};

#[test]
fn pixels_and_colours() {
    assert_eq!(to_pixel(50_000, 100_000, 800), 400);
    assert_eq!(to_pixel(99_999, 100_000, 800), 799);
    assert_eq!(to_pixel(0, 100_000, 800), 0);
    assert_eq!(color_code(1, 2, 3), 66051);
    assert_eq!(color_code(255, 255, 255), 0xffffff);
}
