use simbar::{blend_pixels, flatten, frame_bytes};

#[test]
fn blend_pixels_opaque_foreground() {
    assert_eq!(blend_pixels(0xFF12_3456, 0xFF11_1118), 0xFF12_3456);
}

#[test]
fn blend_pixels_transparent_foreground() {
    assert_eq!(blend_pixels(0x0012_3456, 0xFF11_1118), 0xFF11_1118);
}

#[test]
fn blend_pixels_half_alpha() {
    assert_eq!(blend_pixels(0x80FF_0000, 0xFF00_00FF), 0xFF80_007F);
}

#[test]
fn blend_pixels_forces_opacity() {
    assert_eq!(blend_pixels(0x0000_0000, 0x0011_2233) >> 24, 0xFF);
}

#[test]
fn flatten_empty_cells_take_background() {
    let bg = 0xFF11_1118;
    let out = flatten(&vec![None, Some(0xFFAB_CDEF), None, Some(0x0012_3456)], bg);
    assert_eq!(out, vec![bg, 0xFFAB_CDEF, bg, bg]);
}

#[test]
fn frame_bytes_little_endian_and_padding() {
    let bg = 0xFF11_1118;
    let out = frame_bytes(&vec![Some(0xFF01_0203), None], bg, 3);
    assert_eq!(
        out,
        vec![0x03, 0x02, 0x01, 0xFF, 0x18, 0x11, 0x11, 0xFF, 0x18, 0x11, 0x11, 0xFF]
    );
}

#[test]
fn frame_bytes_shorter_surface() {
    let out = frame_bytes(&vec![Some(0xFF01_0203), None], 0xFF11_1118, 1);
    assert_eq!(out, vec![0x03, 0x02, 0x01, 0xFF]);
}
