//! Renderable components: each produces its own local pixel buffer and bounding box.
use vstd::prelude::*;
use crate::colors::{pack, pack_channels, RgbColor};

verus! {

/// The extent of a component's local pixel buffer, stored row by row.
#[derive(Debug, Clone, Copy, PartialEq, Eq, Structural)]
pub struct BoundingBox {
    pub width: u32,
    pub height: u32,
}

/// Anything that renders itself into a local pixel buffer.
pub trait Component {
    /// What `render` returns: the box and the buffer.
    spec fn rendered(&self) -> (BoundingBox, Seq<Option<u32>>);

    /// The buffer fits in memory.
    spec fn renderable(&self) -> bool;

    fn render(&self) -> (r: (BoundingBox, Vec<Option<u32>>))
        requires
            self.renderable(),
        ensures
            r.0 == self.rendered().0,
            r.1@ == self.rendered().1,
    ;
}

/// A filled, possibly rounded, rectangle.
#[derive(Debug, Clone, Copy, PartialEq, Eq, Structural)]
pub struct Item {
    pub width: u32,
    pub height: u32,
    pub border_radius: u32,
    /// Packed ARGB.
    pub color: u32,
}

/// Rendering is repeatable: two renders of one component give the same box and buffer.
pub proof fn lemma_render_repeatable<C: Component>(
    component: C,
    first: (BoundingBox, Seq<Option<u32>>),
    second: (BoundingBox, Seq<Option<u32>>),
)
    requires
        first == component.rendered(),
        second == component.rendered(),
    ensures
        first == second,
{
}

/// A transparent spacer of the given width and no height.
#[derive(Debug, Clone, Copy, PartialEq, Eq, Structural)]
pub struct Padding(pub u32);

impl Component for Padding {
    open spec fn rendered(&self) -> (BoundingBox, Seq<Option<u32>>) {
        (BoundingBox { width: self.0, height: 0 }, Seq::new(self.0 as nat, |i: int| None::<u32>))
    }

    open spec fn renderable(&self) -> bool {
        true
    }

    fn render(&self) -> (r: (BoundingBox, Vec<Option<u32>>)) {
        let mut pixels: Vec<Option<u32>> = Vec::new();
        let mut i: u32 = 0;
        while i < self.0
            invariant
                i <= self.0,
                pixels@ == Seq::new(i as nat, |j: int| None::<u32>),
            decreases self.0 - i,
        {
            pixels.push(None);
            i += 1;
            assert(pixels@ =~= Seq::new(i as nat, |j: int| None::<u32>));
        }
        (BoundingBox { width: self.0, height: 0 }, pixels)
    }
}

/// The coverage of one rasterized glyph: its pixel box on the label, `min` inclusive and
/// `max` exclusive, and per pixel of that box, row by row, the coverage as an alpha
/// value, `None` where the glyph does not touch the pixel.
#[derive(Debug, Clone, PartialEq, Eq)]
pub struct GlyphCoverage {
    pub min_x: i32,
    pub min_y: i32,
    pub max_x: i32,
    pub max_y: i32,
    pub coverage: Vec<Option<u8>>,
}

/// A line of text as the font rasterizer laid it out: the line height in pixels
/// (ascent - descent + line gap, rounded up), and the glyphs that have a pixel box.
#[derive(Debug, Clone, PartialEq, Eq)]
pub struct TextRaster {
    pub line_height: i32,
    pub glyphs: Vec<GlyphCoverage>,
}

pub open spec fn glyph_width(g: GlyphCoverage) -> int {
    if g.max_x > g.min_x {
        g.max_x - g.min_x
    } else {
        0
    }
}

pub open spec fn glyph_height(g: GlyphCoverage) -> int {
    if g.max_y > g.min_y {
        g.max_y - g.min_y
    } else {
        0
    }
}

/// The coverage at column `gx`, row `gy` of the glyph's own box.
pub open spec fn coverage_at(g: GlyphCoverage, gx: int, gy: int) -> Option<u8> {
    let w = glyph_width(g);
    if 0 <= gx < w && 0 <= gy < glyph_height(g) && gy * w + gx < g.coverage@.len() {
        g.coverage@[gy * w + gx]
    } else {
        None
    }
}

/// The right edge of the text: the largest `max_x` of its glyphs, at least 1.
pub open spec fn text_width(glyphs: Seq<GlyphCoverage>) -> int
    decreases glyphs.len(),
{
    if glyphs.len() == 0 {
        1
    } else {
        let m = text_width(glyphs.drop_last());
        if glyphs.last().max_x > m {
            glyphs.last().max_x as int
        } else {
            m
        }
    }
}

/// The line height, at least 1; 1 for text without glyphs.
pub open spec fn text_height(raster: TextRaster) -> int {
    if raster.glyphs@.len() == 0 {
        1
    } else if raster.line_height > 1 {
        raster.line_height as int
    } else {
        1
    }
}

/// The pixel at column `x`, row `y` of a label: the last glyph that covers it decides,
/// with its coverage as alpha over the color's channels.
pub open spec fn glyph_cell(glyphs: Seq<GlyphCoverage>, color: RgbColor, x: int, y: int) -> Option<
    u32,
>
    decreases glyphs.len(),
{
    if glyphs.len() == 0 {
        None
    } else {
        let g = glyphs.last();
        match coverage_at(g, x - g.min_x, y - g.min_y) {
            Some(a) => Some(
                pack(a as int, color.red as int, color.green as int, color.blue as int) as u32,
            ),
            None => glyph_cell(glyphs.drop_last(), color, x, y),
        }
    }
}

/// The buffer of a label drawn from `raster` in `color`.
pub open spec fn text_pixels(raster: TextRaster, color: RgbColor) -> Seq<Option<u32>> {
    let w = text_width(raster.glyphs@);
    Seq::new(
        (w * text_height(raster)) as nat,
        |i: int| glyph_cell(raster.glyphs@, color, i % w, i / w),
    )
}

/// A line of text.
#[derive(Debug, Clone, PartialEq, Eq)]
pub struct Label {
    pub text: String,
    pub fg_color: RgbColor,
    pub bg_color: Option<RgbColor>,
    pub font_size: u32,
}

impl Label {
    /// Replaces the text.
    pub fn update(&mut self, text: &str)
        ensures
            final(self).text@ == text@,
            final(self).fg_color == old(self).fg_color,
            final(self).bg_color == old(self).bg_color,
            final(self).font_size == old(self).font_size,
    {
        self.text = text.to_string();
    }

    /// Draws the label from `raster`, the glyph coverage of its text at its font size:
    /// a buffer as wide as the text's right edge and as tall as its line, both at least 1,
    /// holding the foreground color under each covered pixel's coverage as alpha. Text
    /// without glyphs gives a single empty pixel.
    pub fn render(&self, raster: &TextRaster) -> (r: (BoundingBox, Vec<Option<u32>>))
        requires
            text_width(raster.glyphs@) * text_height(*raster) <= usize::MAX,
        ensures
            r.0 == (BoundingBox {
                width: text_width(raster.glyphs@) as u32,
                height: text_height(*raster) as u32,
            }),
            r.1@ == text_pixels(*raster, self.fg_color),
            r.1@.len() == r.0.width * r.0.height,
            raster.glyphs@.len() == 0 ==> r.0 == (BoundingBox { width: 1, height: 1 }) && r.1@
                == seq![None::<u32>],
    {
        let width = measure_width(&raster.glyphs);
        let height: i32 = if raster.glyphs.len() == 0 {
            1
        } else if raster.line_height > 1 {
            raster.line_height
        } else {
            1
        };
        let color = self.fg_color;
        let w = width as usize;
        let h = height as usize;
        let ghost gs = raster.glyphs@;
        let ghost gw = w as int;
        let ghost gh = h as int;
        let mut buffer: Vec<Option<u32>> = Vec::new();
        let n = w * h;
        let mut i: usize = 0;
        while i < n
            invariant
                i <= n,
                buffer@ == Seq::new(i as nat, |j: int| None::<u32>),
            decreases n - i,
        {
            buffer.push(None);
            i += 1;
            assert(buffer@ =~= Seq::new(i as nat, |j: int| None::<u32>));
        }
        proof {
            assert forall|x: int, y: int| 0 <= x < gw && 0 <= y < gh implies #[trigger] buffer@[cell(gw, x, y)]
                == glyph_cell(gs.take(0), color, x, y) by {
                lemma_cell_bound(gw, gh, x, y);
            }
        }
        let mut k: usize = 0;
        while k < raster.glyphs.len()
            invariant
                0 <= k <= gs.len(),
                gs == raster.glyphs@,
                gw == w,
                gh == h,
                w * h <= usize::MAX,
                0 < w <= i32::MAX,
                0 < h <= i32::MAX,
                color == self.fg_color,
                buffer@.len() == w * h,
                forall|x: int, y: int|
                    0 <= x < gw && 0 <= y < gh ==> #[trigger] buffer@[cell(gw, x, y)]
                        == glyph_cell(gs.take(k as int), color, x, y),
            decreases gs.len() - k,
        {
            let g = &raster.glyphs[k];
            let ghost kk = k as int;
            proof {
                assert(gs.take(kk + 1).drop_last() =~= gs.take(kk));
                assert(gs.take(kk + 1).last() == gs[kk]);
            }
            let gwid: u64 = if g.max_x > g.min_x {
                (g.max_x as i64 - g.min_x as i64) as u64
            } else {
                0
            };
            let ghei: u64 = if g.max_y > g.min_y {
                (g.max_y as i64 - g.min_y as i64) as u64
            } else {
                0
            };
            assert(gwid == glyph_width(*g) && ghei == glyph_height(*g));
            let mut gy: u64 = 0;
            while gy < ghei
                invariant
                    0 <= k < gs.len(),
                    kk == k,
                    gs == raster.glyphs@,
                    *g == gs[kk],
                    gwid == glyph_width(*g),
                    ghei == glyph_height(*g),
                    gwid < 0x1_0000_0000,
                    ghei < 0x1_0000_0000,
                    gw == w,
                    gh == h,
                    w * h <= usize::MAX,
                    0 < w <= i32::MAX,
                    0 < h <= i32::MAX,
                    color == self.fg_color,
                    buffer@.len() == w * h,
                    gy <= ghei,
                    forall|x: int, y: int|
                        0 <= x < gw && 0 <= y < gh ==> #[trigger] buffer@[cell(gw, x, y)]
                            == glyph_progress(gs, kk, color, x, y, gy as int, 0),
                decreases ghei - gy,
            {
                let mut gx: u64 = 0;
                while gx < gwid
                    invariant
                        0 <= k < gs.len(),
                        kk == k,
                        gs == raster.glyphs@,
                        *g == gs[kk],
                        gwid == glyph_width(*g),
                        ghei == glyph_height(*g),
                        gwid < 0x1_0000_0000,
                        ghei < 0x1_0000_0000,
                        gw == w,
                        gh == h,
                        w * h <= usize::MAX,
                        0 < w <= i32::MAX,
                        0 < h <= i32::MAX,
                        color == self.fg_color,
                        buffer@.len() == w * h,
                        gy < ghei,
                        gx <= gwid,
                        forall|x: int, y: int|
                            0 <= x < gw && 0 <= y < gh ==> #[trigger] buffer@[cell(gw, x, y)]
                                == glyph_progress(gs, kk, color, x, y, gy as int, gx as int),
                    decreases gwid - gx,
                {
                    proof {
                        assert(gy * gwid + gx < 0x1_0000_0000 * 0x1_0000_0000) by (nonlinear_arith)
                            requires
                                gy < 0x1_0000_0000,
                                gx < gwid,
                                gwid < 0x1_0000_0000,
                        ;
                    }
                    let idx: u64 = gy * gwid + gx;
                    let x: i64 = g.min_x as i64 + gx as i64;
                    let y: i64 = g.min_y as i64 + gy as i64;
                    let ghost old_buf = buffer@;
                    if idx < g.coverage.len() as u64 && 0 <= x && x < w as i64 && 0 <= y && y
                        < h as i64 {
                        match g.coverage[idx as usize] {
                            Some(a) => {
                                proof {
                                    lemma_cell_bound(gw, gh, x as int, y as int);
                                }
                                let dest = y as usize * w + x as usize;
                                buffer[dest] = Some(
                                    pack_channels(
                                        a as u32,
                                        color.red as u32,
                                        color.green as u32,
                                        color.blue as u32,
                                    ),
                                );
                            },
                            None => {},
                        }
                    }
                    proof {
                        assert forall|cx: int, cy: int| 0 <= cx < gw && 0 <= cy < gh implies #[trigger] buffer@[cell(gw, cx, cy)]
                            == glyph_progress(gs, kk, color, cx, cy, gy as int, gx + 1) by {
                            lemma_cell_bound(gw, gh, cx, cy);
                            if cx == x && cy == y {
                            } else {
                                if 0 <= x < gw && 0 <= y < gh {
                                    lemma_cell_split(gw, cx, cy);
                                    lemma_cell_split(gw, x as int, y as int);
                                }
                                assert(old_buf[cell(gw, cx, cy)] == glyph_progress(gs, kk, color, cx, cy, gy as int, gx as int));
                            }
                        }
                    }
                    gx += 1;
                }
                assert forall|cx: int, cy: int| 0 <= cx < gw && 0 <= cy < gh implies #[trigger] buffer@[cell(gw, cx, cy)]
                    == glyph_progress(gs, kk, color, cx, cy, gy + 1, 0) by {
                    assert(buffer@[cell(gw, cx, cy)] == glyph_progress(gs, kk, color, cx, cy, gy as int, gwid as int));
                }
                gy += 1;
            }
            assert forall|cx: int, cy: int| 0 <= cx < gw && 0 <= cy < gh implies #[trigger] buffer@[cell(gw, cx, cy)]
                == glyph_cell(gs.take(kk + 1), color, cx, cy) by {
                assert(buffer@[cell(gw, cx, cy)] == glyph_progress(gs, kk, color, cx, cy, ghei as int, 0));
            }
            k += 1;
        }
        proof {
            assert(gs.take(gs.len() as int) =~= gs);
            assert(buffer@ =~= text_pixels(*raster, color)) by {
                assert forall|i: int| 0 <= i < buffer@.len() implies buffer@[i] == text_pixels(*raster, color)[i] by {
                    let cx = i % gw;
                    let cy = i / gw;
                    vstd::arithmetic::div_mod::lemma_fundamental_div_mod(i, gw);
                    assert(0 <= cy < gh) by (nonlinear_arith)
                        requires
                            cy == i / gw,
                            0 <= i < gw * gh,
                            gw > 0,
                    ;
                    assert(cy * gw == gw * cy) by (nonlinear_arith);
                    assert(cell(gw, cx, cy) == i);
                }
            }
            if gs.len() == 0 {
                assert(buffer@ =~= seq![None::<u32>]);
            }
        }
        (BoundingBox { width: width as u32, height: height as u32 }, buffer)
    }
}

/// One of the components that a row can hold. A label comes with the glyph coverage of
/// its text at its font size.
#[derive(Debug, Clone, PartialEq, Eq)]
pub enum Element {
    Label(Label, TextRaster),
    Padding(Padding),
}

impl Component for Element {
    open spec fn rendered(&self) -> (BoundingBox, Seq<Option<u32>>) {
        match self {
            Element::Label(label, raster) => (
                BoundingBox {
                    width: text_width(raster.glyphs@) as u32,
                    height: text_height(*raster) as u32,
                },
                text_pixels(*raster, label.fg_color),
            ),
            Element::Padding(padding) => padding.rendered(),
        }
    }

    open spec fn renderable(&self) -> bool {
        match self {
            Element::Label(_, raster) => text_width(raster.glyphs@) * text_height(*raster)
                <= usize::MAX,
            Element::Padding(_) => true,
        }
    }

    fn render(&self) -> (r: (BoundingBox, Vec<Option<u32>>)) {
        match self {
            Element::Label(label, raster) => label.render(raster),
            Element::Padding(padding) => padding.render(),
        }
    }
}

/// The label's right edge, at least 1.
fn measure_width(glyphs: &Vec<GlyphCoverage>) -> (r: i32)
    ensures
        r == text_width(glyphs@),
        0 < r,
{
    let mut m: i32 = 1;
    let mut k: usize = 0;
    while k < glyphs.len()
        invariant
            0 <= k <= glyphs.len(),
            m == text_width(glyphs@.take(k as int)),
            0 < m,
        decreases glyphs.len() - k,
    {
        proof {
            assert(glyphs@.take(k + 1).drop_last() =~= glyphs@.take(k as int));
        }
        if glyphs[k].max_x > m {
            m = glyphs[k].max_x;
        }
        k += 1;
    }
    assert(glyphs@.take(glyphs.len() as int) =~= glyphs@);
    m
}

/// Index of label column `x`, row `y`.
pub open spec fn cell(width: int, x: int, y: int) -> int {
    y * width + x
}

proof fn lemma_cell_bound(w: int, h: int, x: int, y: int)
    requires
        0 <= x < w,
        0 <= y < h,
    ensures
        0 <= cell(w, x, y) < w * h,
{
    assert(0 <= y * w + x < w * h) by (nonlinear_arith)
        requires
            0 <= x < w,
            0 <= y < h,
    ;
}

proof fn lemma_cell_split(w: int, x: int, y: int)
    requires
        0 <= x < w,
    ensures
        cell(w, x, y) % w == x,
        cell(w, x, y) / w == y,
{
    vstd::arithmetic::div_mod::lemma_fundamental_div_mod_converse(y * w + x, w, y, x);
}

/// The label while glyph `k` is being drawn: rows before `rows`, and the first `cols`
/// columns of row `rows`, of that glyph's box are done.
spec fn glyph_progress(
    glyphs: Seq<GlyphCoverage>,
    k: int,
    color: RgbColor,
    x: int,
    y: int,
    rows: int,
    cols: int,
) -> Option<u32> {
    let g = glyphs[k];
    let gx = x - g.min_x;
    let gy = y - g.min_y;
    if 0 <= gx < glyph_width(g) && 0 <= gy && (gy < rows || (gy == rows && gx < cols)) {
        match coverage_at(g, gx, gy) {
            Some(a) => Some(
                pack(a as int, color.red as int, color.green as int, color.blue as int) as u32,
            ),
            None => glyph_cell(glyphs.take(k), color, x, y),
        }
    } else {
        glyph_cell(glyphs.take(k), color, x, y)
    }
}

} // verus!
