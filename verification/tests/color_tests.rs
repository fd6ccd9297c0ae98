use home_flow::color::Color;

#[test]
fn opaque_from_rgb() {
    let c = Color::from_rgb(10, 20, 30);
    assert_eq!(c.to_array(), [10, 20, 30, 255]);
    assert!(c.is_opaque());
}

#[test]
fn named_colors() {
    assert_eq!(Color::transparent().to_array(), [0, 0, 0, 0]);
    assert_eq!(Color::black().to_array(), [0, 0, 0, 255]);
    assert_eq!(Color::gray().to_array(), [160, 160, 160, 255]);
    assert_eq!(Color::white().to_array(), [255, 255, 255, 255]);
    assert_eq!(Color::red().to_array(), [255, 0, 0, 255]);
    assert_eq!(Color::green().to_array(), [0, 255, 0, 255]);
    assert_eq!(Color::blue().to_array(), [0, 0, 255, 255]);
    assert_eq!(Color::yellow().to_array(), [255, 255, 0, 255]);
    assert_eq!(Color::default(), Color::transparent());
}

#[test]
fn from_rgba_opaque_and_transparent_skip_premultiplying() {
    let never = |_: u8, _: u8, _: u8, _: u8| -> (u8, u8, u8) { panic!("not called") };
    assert_eq!(Color::from_rgba(1, 2, 3, 255, never), Color::from_rgb(1, 2, 3));
    assert_eq!(Color::from_rgba(1, 2, 3, 0, never), Color::transparent());
}

#[test]
fn from_rgba_translucent_uses_premultiplied_channels() {
    let half = |r: u8, g: u8, b: u8, _a: u8| (r / 2, g / 2, b / 2);
    let c = Color::from_rgba(200, 100, 50, 128, half);
    assert_eq!(c.to_tuple(), (100, 50, 25, 128));
}

#[test]
fn channel_accessors() {
    let c = Color::from_rgba_premultiplied(1, 2, 3, 4);
    assert_eq!((c.r(), c.g(), c.b(), c.a()), (1, 2, 3, 4));
    assert_eq!(c.to_tuple(), (1, 2, 3, 4));
    assert!(!c.is_opaque());
}

#[test]
fn gray_and_alpha() {
    assert_eq!(Color::from_gray(77).to_array(), [77, 77, 77, 255]);
    assert_eq!(Color::from_alpha(9).to_array(), [0, 0, 0, 9]);
}

#[test]
fn to_opaque_sets_alpha_only() {
    let c = Color::from_rgba_premultiplied(5, 6, 7, 8).to_opaque();
    assert_eq!(c.to_array(), [5, 6, 7, 255]);
    assert_eq!(c.to_opaque(), c);
}

#[test]
fn mut_array_writes_through() {
    let mut c = Color::black();
    c.mut_array()[1] = 200;
    assert_eq!(c.to_array(), [0, 200, 0, 255]);
}

#[test]
fn to_opaque_twice_is_once() {
    for c in [Color::transparent(), Color::from_rgba_premultiplied(9, 8, 7, 6), Color::white()] {
        let once = c.to_opaque();
        assert!(once.is_opaque());
        assert_eq!((once.r(), once.g(), once.b()), (c.r(), c.g(), c.b()));
        assert_eq!(once.to_opaque(), once);
    }
}
