use simbar::{
    blend_pixels, compose_row, flatten, Anchor, BoundingBox, CenterWidgets, Component, DrawSize, Element,
    GlyphCoverage, Label, LeftWidgets, Padding, RgbColor, RightWidgets, TextRaster, Widgets,
};

fn part(width: u32, height: u32, pixels: Vec<Option<u32>>) -> (BoundingBox, Vec<Option<u32>>) {
    (BoundingBox { width, height }, pixels)
}

fn some(values: &[u32]) -> Vec<Option<u32>> {
    values.iter().map(|v| Some(*v)).collect()
}

fn area(width: u32, height: u32) -> DrawSize {
    DrawSize { width, height }
}

#[test]
fn draw_size_from_tuple() {
    let size: DrawSize = (1920, 32).into();
    assert_eq!(size, area(1920, 32));
}

#[test]
fn empty_row_is_all_background() {
    let canvas = compose_row(&vec![], area(7, 3), 10, Anchor::Center);
    assert_eq!(canvas, vec![None; 21]);
    assert_eq!(flatten(&canvas, 0xFF11_1118), vec![0xFF11_1118; 21]);
}

#[test]
fn empty_center_widgets_render_nothing() {
    let row = CenterWidgets { components: vec![], height: 4 };
    assert_eq!(row.render(area(3, 2)), vec![None; 6]);
}

#[test]
fn wide_padding_alone_is_all_background() {
    let row = CenterWidgets { components: vec![Element::Padding(Padding(20))], height: 10 };
    let canvas = row.render(area(10, 10));
    assert_eq!(canvas, vec![None; 100]);
    assert_eq!(flatten(&canvas, 0xFF11_1118), vec![0xFF11_1118; 100]);
}

#[test]
fn single_part_is_centered() {
    let canvas = compose_row(&vec![part(2, 2, some(&[1, 2, 3, 4]))], area(6, 4), 10, Anchor::Center);
    let mut expected = vec![None; 24];
    expected[8] = Some(1);
    expected[9] = Some(2);
    expected[14] = Some(3);
    expected[15] = Some(4);
    assert_eq!(canvas, expected);
}

#[test]
fn exact_fit_starts_at_origin() {
    let pixels = some(&[1, 2, 3, 4, 5, 6, 7, 8]);
    let canvas = compose_row(&vec![part(4, 2, pixels.clone())], area(4, 2), 2, Anchor::Center);
    assert_eq!(canvas, pixels);
}

#[test]
fn shorter_part_is_centered_in_row() {
    let parts = vec![part(1, 4, some(&[7, 7, 7, 7])), part(1, 2, some(&[8, 9]))];
    let canvas = compose_row(&parts, area(4, 4), 4, Anchor::Center);
    let mut expected = vec![None; 16];
    for y in 0..4 {
        expected[y * 4 + 1] = Some(7);
    }
    expected[6] = Some(8);
    expected[10] = Some(9);
    assert_eq!(canvas, expected);
}

#[test]
fn overflow_offset_is_symmetric() {
    let values: Vec<u32> = (0..16).collect();
    let canvas = compose_row(&vec![part(4, 4, some(&values))], area(2, 2), 10, Anchor::Center);
    assert_eq!(canvas, vec![None, None, None, Some(0)]);
}

#[test]
fn row_height_is_capped_by_ceiling() {
    let canvas = compose_row(&vec![part(1, 4, some(&[1, 2, 3, 4]))], area(4, 4), 2, Anchor::Center);
    let mut expected = vec![None; 16];
    expected[5] = Some(1);
    expected[9] = Some(2);
    expected[13] = Some(3);
    assert_eq!(canvas, expected);
}

#[test]
fn oversized_part_is_clipped() {
    let canvas = compose_row(&vec![part(50, 50, vec![Some(1); 2500])], area(3, 2), 100, Anchor::Center);
    assert_eq!(canvas.len(), 6);
}

#[test]
fn short_buffer_leaves_cells_empty() {
    let canvas = compose_row(&vec![part(2, 1, some(&[5]))], area(2, 1), 1, Anchor::Center);
    assert_eq!(canvas, vec![Some(5), None]);
}

#[test]
fn start_and_end_anchors() {
    let parts = vec![part(2, 1, some(&[1, 2]))];
    assert_eq!(
        compose_row(&parts, area(5, 1), 1, Anchor::Start),
        vec![Some(1), Some(2), None, None, None]
    );
    assert_eq!(
        compose_row(&parts, area(5, 1), 1, Anchor::End),
        vec![None, None, None, Some(1), Some(2)]
    );
    let wide = vec![part(3, 1, some(&[1, 2, 3]))];
    assert_eq!(compose_row(&wide, area(2, 1), 1, Anchor::End), vec![Some(1), Some(2)]);
}

#[test]
fn left_and_right_widgets() {
    let components = vec![Element::Label(
        Label { text: "x".to_string(), fg_color: RgbColor::new(0, 0, 0), bg_color: None, font_size: 1 },
        TextRaster {
            line_height: 1,
            glyphs: vec![GlyphCoverage { min_x: 0, min_y: 0, max_x: 1, max_y: 1, coverage: vec![Some(1)] }],
        },
    )];
    let left = LeftWidgets { components: components.clone(), height: 1 };
    let right = RightWidgets { components, height: 1 };
    assert_eq!(left.render(area(3, 1)), vec![Some(0x0100_0000), None, None]);
    assert_eq!(right.render(area(3, 1)), vec![None, None, Some(0x0100_0000)]);
}

fn full_glyph(min_x: i32, min_y: i32, max_x: i32, max_y: i32, alpha: u8) -> GlyphCoverage {
    let n = ((max_x - min_x) * (max_y - min_y)) as usize;
    GlyphCoverage { min_x, min_y, max_x, max_y, coverage: vec![Some(alpha); n] }
}

fn text(s: &str) -> Label {
    Label { text: s.to_string(), fg_color: RgbColor::new(0xFF, 0xFF, 0xFF), bg_color: None, font_size: 10 }
}

#[test]
fn two_labels_and_padding_on_bar() {
    let hi = TextRaster {
        line_height: 12,
        glyphs: vec![full_glyph(1, 2, 6, 10, 255), full_glyph(7, 2, 8, 10, 200)],
    };
    let bye = TextRaster {
        line_height: 12,
        glyphs: vec![
            full_glyph(1, 2, 6, 10, 255),
            full_glyph(7, 4, 12, 12, 128),
            full_glyph(13, 4, 17, 10, 64),
        ],
    };
    let hi_width = Element::Label(text("Hi"), hi.clone()).render().0.width;
    let bye_width = Element::Label(text("Bye"), bye.clone()).render().0.width;
    assert_eq!((hi_width, bye_width), (8, 17));
    let row = CenterWidgets {
        components: vec![
            Element::Label(text("Hi"), hi),
            Element::Padding(Padding(5)),
            Element::Label(text("Bye"), bye),
        ],
        height: 20,
    };
    let canvas = row.render(area(100, 20));
    assert_eq!(canvas.len(), 2000);
    let occupied = (hi_width + 5 + bye_width) as usize;
    let x_offset = (100 - occupied) / 2;
    let y_offset = (20 - 12) / 2;
    for (i, cell) in canvas.iter().enumerate() {
        let x = i % 100;
        if x < x_offset || x >= x_offset + occupied {
            assert_eq!(*cell, None);
        }
        if x >= x_offset + 8 && x < x_offset + 13 {
            assert_eq!(*cell, None);
        }
    }
    assert_eq!(canvas[(y_offset + 2) * 100 + x_offset + 1], Some(0xFFFF_FFFF));
    assert_eq!(canvas[(y_offset + 2) * 100 + x_offset + 13 + 1], Some(0xFFFF_FFFF));
    assert_eq!(canvas[(y_offset + 4) * 100 + x_offset + 13 + 13], Some(0x40FF_FFFF));
    let bg = 0xFF11_1118;
    let frame = flatten(&canvas, bg);
    assert_eq!(frame.len(), 2000);
    for (cell, pixel) in canvas.iter().zip(frame.iter()) {
        match cell {
            None => assert_eq!(*pixel, bg),
            Some(fg) => assert_eq!(*pixel, blend_pixels(*fg, bg)),
        }
    }
}

#[test]
fn row_rendering_is_repeatable() {
    let row = CenterWidgets {
        components: vec![
            Element::Padding(Padding(2)),
            Element::Label(
                text("a"),
                TextRaster { line_height: 3, glyphs: vec![full_glyph(0, 0, 2, 2, 90)] },
            ),
        ],
        height: 5,
    };
    assert_eq!(row.render(area(9, 5)), row.render(area(9, 5)));
}

#[test]
fn zero_sized_canvas_is_empty() {
    let parts = vec![part(2, 2, some(&[1, 2, 3, 4]))];
    assert_eq!(compose_row(&parts, area(0, 5), 3, Anchor::Center), vec![]);
    assert_eq!(compose_row(&parts, area(5, 0), 3, Anchor::Center), vec![]);
}
