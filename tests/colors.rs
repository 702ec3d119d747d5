use simbar::{ArgbColor, RgbColor};

#[test]
fn rgb_new_keeps_channels() {
    let c = RgbColor::new(1, 2, 3);
    assert_eq!((c.red, c.green, c.blue), (1, 2, 3));
}

#[test]
fn rgb_default_is_white() {
    assert_eq!(RgbColor::default(), RgbColor::new(0xFF, 0xFF, 0xFF));
}

#[test]
fn rgb_packs_without_alpha() {
    let v: u32 = RgbColor::new(0x12, 0x34, 0x56).into();
    assert_eq!(v, 0x0012_3456);
}

#[test]
fn argb_packs_all_channels() {
    let v: u32 = ArgbColor::new(0xFF, 0x11, 0x11, 0x18).into();
    assert_eq!(v, 0xFF11_1118);
    let w: u32 = ArgbColor::new(0x80, 0xAB, 0xCD, 0xEF).into();
    assert_eq!(w, 0x80AB_CDEF);
}

#[test]
fn argb_default_is_opaque_white() {
    assert_eq!(ArgbColor::default(), ArgbColor::new(0xFF, 0xFF, 0xFF, 0xFF));
}

#[test]
fn rgb_to_argb_is_opaque() {
    let c: ArgbColor = RgbColor::new(0xFF, 0x00, 0xFF).into();
    assert_eq!(c, ArgbColor::new(0xFF, 0xFF, 0x00, 0xFF));
}

#[test]
fn blend_opaque_foreground_wins() {
    let fg = ArgbColor::new(0xFF, 10, 20, 30);
    let bg = ArgbColor::new(0x40, 200, 100, 50);
    assert_eq!(fg.blend_with_background(bg), fg);
}

#[test]
fn blend_two_transparent_is_transparent_black() {
    let fg = ArgbColor::new(0, 10, 20, 30);
    let bg = ArgbColor::new(0, 200, 100, 50);
    assert_eq!(fg.blend_with_background(bg), ArgbColor::new(0, 0, 0, 0));
}

#[test]
fn blend_half_red_over_opaque_blue() {
    let fg = ArgbColor::new(128, 255, 0, 0);
    let bg = ArgbColor::new(255, 0, 0, 255);
    assert_eq!(fg.blend_with_background(bg), ArgbColor::new(255, 128, 0, 127));
}

#[test]
fn blend_over_transparent_keeps_foreground() {
    let fg = ArgbColor::new(128, 200, 100, 50);
    let bg = ArgbColor::new(0, 0, 0, 0);
    assert_eq!(fg.blend_with_background(bg), fg);
}

#[test]
fn blend_order_matters() {
    let black = ArgbColor::new(255, 0, 0, 0);
    let white = ArgbColor::new(255, 255, 255, 255);
    assert_ne!(black.blend_with_background(white), white.blend_with_background(black));
    assert_eq!(black.blend_with_background(white), black);
    assert_eq!(white.blend_with_background(black), white);
}
