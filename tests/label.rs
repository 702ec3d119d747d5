use simbar::{BoundingBox, Component, Element, GlyphCoverage, Label, Padding, RgbColor, TextRaster};

fn label(fg: RgbColor) -> Label {
    Label { text: "ab".to_string(), fg_color: fg, bg_color: None, font_size: 10 }
}

fn glyph(min_x: i32, min_y: i32, max_x: i32, max_y: i32, coverage: Vec<Option<u8>>) -> GlyphCoverage {
    GlyphCoverage { min_x, min_y, max_x, max_y, coverage }
}

#[test]
fn label_update_replaces_text() {
    let mut l = label(RgbColor::new(1, 2, 3));
    l.update("Bye");
    assert_eq!(l.text, "Bye");
    assert_eq!(l.fg_color, RgbColor::new(1, 2, 3));
    assert_eq!(l.font_size, 10);
}

#[test]
fn label_renders_coverage_as_alpha() {
    let raster = TextRaster {
        line_height: 3,
        glyphs: vec![glyph(0, 0, 2, 2, vec![Some(255), None, Some(10), Some(0)])],
    };
    let (bbox, pixels) = label(RgbColor::new(0x12, 0x34, 0x56)).render(&raster);
    assert_eq!(bbox, BoundingBox { width: 2, height: 3 });
    assert_eq!(
        pixels,
        vec![Some(0xFF12_3456), None, Some(0x0A12_3456), Some(0x0012_3456), None, None]
    );
}

#[test]
fn label_later_glyph_wins_and_edges_clip() {
    let raster = TextRaster {
        line_height: 0,
        glyphs: vec![
            glyph(0, 0, 2, 1, vec![Some(1), Some(2)]),
            glyph(1, 0, 3, 1, vec![Some(3), None]),
            glyph(-1, -1, 1, 1, vec![Some(9), Some(9), Some(9), Some(4)]),
        ],
    };
    let (bbox, pixels) = label(RgbColor::new(0, 0, 0)).render(&raster);
    assert_eq!(bbox, BoundingBox { width: 3, height: 1 });
    assert_eq!(pixels, vec![Some(0x0400_0000), Some(0x0300_0000), None]);
}

#[test]
fn label_without_glyphs_is_one_empty_pixel() {
    let raster = TextRaster { line_height: -5, glyphs: vec![] };
    let (bbox, pixels) = label(RgbColor::new(9, 9, 9)).render(&raster);
    assert_eq!(bbox, BoundingBox { width: 1, height: 1 });
    assert_eq!(pixels, vec![None]);
}

#[test]
fn label_without_glyphs_ignores_line_height() {
    let raster = TextRaster { line_height: 12, glyphs: vec![] };
    let (bbox, pixels) = label(RgbColor::new(9, 9, 9)).render(&raster);
    assert_eq!(bbox, BoundingBox { width: 1, height: 1 });
    assert_eq!(pixels, vec![None]);
}

#[test]
fn label_buffer_matches_box_area() {
    let raster = TextRaster {
        line_height: 5,
        glyphs: vec![glyph(2, 1, 4, 3, vec![Some(50); 4]), glyph(5, 0, 7, 4, vec![Some(60); 8])],
    };
    let (bbox, pixels) = label(RgbColor::new(1, 1, 1)).render(&raster);
    assert_eq!(bbox, BoundingBox { width: 7, height: 5 });
    assert_eq!(pixels.len(), 35);
}

#[test]
fn padding_is_transparent_and_flat() {
    let (bbox, pixels) = Padding(4).render();
    assert_eq!(bbox, BoundingBox { width: 4, height: 0 });
    assert_eq!(pixels, vec![None; 4]);
}

#[test]
fn element_renders_like_its_variant() {
    let raster = TextRaster { line_height: 2, glyphs: vec![glyph(0, 0, 1, 1, vec![Some(7)])] };
    let l = label(RgbColor::new(0xAA, 0xBB, 0xCC));
    assert_eq!(Element::Label(l.clone(), raster.clone()).render(), l.render(&raster));
    assert_eq!(Element::Padding(Padding(3)).render(), Padding(3).render());
}

#[test]
fn rendering_twice_is_identical() {
    let raster = TextRaster {
        line_height: 4,
        glyphs: vec![glyph(0, 1, 3, 3, vec![Some(1), Some(2), None, Some(4), Some(5), Some(6)])],
    };
    let e = Element::Label(label(RgbColor::new(3, 4, 5)), raster);
    assert_eq!(e.render(), e.render());
}
