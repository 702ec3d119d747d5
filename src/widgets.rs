//! Rows of components laid out side by side and placed on a fixed-size canvas.
use vstd::prelude::*;
use vstd::arithmetic::div_mod::lemma_fundamental_div_mod_converse;
use crate::components::{BoundingBox, Component, Element};
use crate::compositor::flattened;

verus! {

/// The size of a drawable surface in pixels.
#[derive(Debug, Clone, Copy, PartialEq, Eq, Structural)]
pub struct DrawSize {
    pub width: u32,
    pub height: u32,
}

impl From<(u32, u32)> for DrawSize {
    /// `(width, height)`.
    fn from(value: (u32, u32)) -> (r: Self) {
        DrawSize { width: value.0, height: value.1 }
    }
}

impl vstd::std_specs::convert::FromSpecImpl<(u32, u32)> for DrawSize {
    open spec fn obeys_from_spec() -> bool {
        true
    }

    open spec fn from_spec(v: (u32, u32)) -> DrawSize {
        DrawSize { width: v.0, height: v.1 }
    }
}

/// The boxes and buffers of rendered parts, as values.
pub open spec fn views(parts: Seq<(BoundingBox, Vec<Option<u32>>)>) -> Seq<(BoundingBox, Seq<Option<u32>>)> {
    parts.map_values(|p: (BoundingBox, Vec<Option<u32>>)| (p.0, p.1@))
}

/// Sum of the widths of the rendered parts.
pub open spec fn total_width(parts: Seq<(BoundingBox, Seq<Option<u32>>)>) -> int
    decreases parts.len(),
{
    if parts.len() == 0 {
        0
    } else {
        total_width(parts.drop_last()) + parts.last().0.width
    }
}

/// The greatest height among the rendered parts, 0 for none.
pub open spec fn max_height(parts: Seq<(BoundingBox, Seq<Option<u32>>)>) -> int
    decreases parts.len(),
{
    if parts.len() == 0 {
        0
    } else {
        let m = max_height(parts.drop_last());
        let h = parts.last().0.height as int;
        if h > m {
            h
        } else {
            m
        }
    }
}

/// The height of the row: its tallest part, capped at `ceiling`.
pub open spec fn row_height(parts: Seq<(BoundingBox, Seq<Option<u32>>)>, ceiling: u32) -> int {
    let m = max_height(parts);
    if m < ceiling {
        m
    } else {
        ceiling as int
    }
}

/// Half the difference between content and canvas, whichever is larger, rounded down.
pub open spec fn center_offset(content: int, canvas: int) -> int {
    if canvas > content {
        (canvas - content) / 2
    } else {
        (content - canvas) / 2
    }
}

/// Where a part of the given height starts within a row of height `row_h`.
pub open spec fn vertical_start(height: int, row_h: int) -> int {
    if height < row_h {
        (row_h - height) / 2
    } else {
        0
    }
}

/// The pixel at local column `lx`, row `ly` of a part; `None` outside its box or its buffer.
pub open spec fn local_pixel(bbox: BoundingBox, pixels: Seq<Option<u32>>, lx: int, ly: int) -> Option<
    u32,
> {
    if 0 <= lx < bbox.width && 0 <= ly < bbox.height && ly * bbox.width + lx < pixels.len() {
        pixels[ly * bbox.width + lx]
    } else {
        None
    }
}

/// What lands on canvas column `cx`, row `cy` when the parts are placed left to right
/// from column `x_offset`, each centered vertically in a row of height `row_h` that starts
/// at canvas row `y_offset`.
pub open spec fn row_cell(
    parts: Seq<(BoundingBox, Seq<Option<u32>>)>,
    x_offset: int,
    y_offset: int,
    row_h: int,
    cx: int,
    cy: int,
) -> Option<u32>
    decreases parts.len(),
{
    if parts.len() == 0 {
        None
    } else {
        let last = parts.last();
        let start = x_offset + total_width(parts.drop_last());
        if start <= cx < start + last.0.width {
            local_pixel(
                last.0,
                last.1,
                cx - start,
                cy - y_offset - vertical_start(last.0.height as int, row_h),
            )
        } else {
            row_cell(parts.drop_last(), x_offset, y_offset, row_h, cx, cy)
        }
    }
}

/// The whole canvas, row by row.
pub open spec fn row_canvas(
    parts: Seq<(BoundingBox, Seq<Option<u32>>)>,
    area: DrawSize,
    x_offset: int,
    y_offset: int,
    row_h: int,
) -> Seq<Option<u32>> {
    Seq::new(
        (area.width * area.height) as nat,
        |i: int|
            row_cell(parts, x_offset, y_offset, row_h, i % area.width as int, i / area.width as int),
    )
}

/// Index of canvas column `cx`, row `cy`.
pub open spec fn cell_index(width: int, cx: int, cy: int) -> int {
    cy * width + cx
}

proof fn lemma_cell_index_bound(w: int, h: int, cx: int, cy: int)
    requires
        0 <= cx < w,
        0 <= cy < h,
    ensures
        0 <= cell_index(w, cx, cy) < w * h,
{
    assert(0 <= cy * w + cx < w * h) by (nonlinear_arith)
        requires
            0 <= cx < w,
            0 <= cy < h,
    ;
}

proof fn lemma_cell_index_split(w: int, cx: int, cy: int)
    requires
        0 <= cx < w,
    ensures
        cell_index(w, cx, cy) % w == cx,
        cell_index(w, cx, cy) / w == cy,
{
    lemma_fundamental_div_mod_converse(cy * w + cx, w, cy, cx);
}

proof fn lemma_total_width_bound(parts: Seq<(BoundingBox, Seq<Option<u32>>)>)
    ensures
        0 <= total_width(parts) <= parts.len() * 0xFFFF_FFFF,
    decreases parts.len(),
{
    if parts.len() > 0 {
        lemma_total_width_bound(parts.drop_last());
    }
}

proof fn lemma_row_cell_beyond(
    parts: Seq<(BoundingBox, Seq<Option<u32>>)>,
    x_offset: int,
    y_offset: int,
    row_h: int,
    cx: int,
    cy: int,
)
    requires
        cx >= x_offset + total_width(parts),
    ensures
        row_cell(parts, x_offset, y_offset, row_h, cx, cy) == None::<u32>,
    decreases parts.len(),
{
    if parts.len() > 0 {
        lemma_row_cell_beyond(parts.drop_last(), x_offset, y_offset, row_h, cx, cy);
    }
}

/// A row whose parts all have height zero shows nothing.
pub proof fn lemma_row_cell_flat(
    parts: Seq<(BoundingBox, Seq<Option<u32>>)>,
    x_offset: int,
    y_offset: int,
    row_h: int,
    cx: int,
    cy: int,
)
    requires
        max_height(parts) == 0,
    ensures
        row_cell(parts, x_offset, y_offset, row_h, cx, cy) == None::<u32>,
    decreases parts.len(),
{
    if parts.len() > 0 {
        lemma_row_cell_flat(parts.drop_last(), x_offset, y_offset, row_h, cx, cy);
    }
}

/// The state of the canvas while part `k` is being copied: rows before `rows`, and the
/// first `cols` columns of row `rows`, are done.
spec fn progress(
    parts: Seq<(BoundingBox, Seq<Option<u32>>)>,
    k: int,
    x_offset: int,
    y_offset: int,
    row_h: int,
    cx: int,
    cy: int,
    rows: int,
    cols: int,
) -> Option<u32> {
    let b = parts[k].0;
    let start = x_offset + total_width(parts.take(k));
    let lx = cx - start;
    let ly = cy - y_offset - vertical_start(b.height as int, row_h);
    if 0 <= lx < b.width && 0 <= ly && (ly < rows || (ly == rows && lx < cols)) {
        local_pixel(b, parts[k].1, lx, ly)
    } else {
        row_cell(parts.take(k), x_offset, y_offset, row_h, cx, cy)
    }
}

/// A canvas of `n` empty cells.
fn empty_canvas(n: usize) -> (r: Vec<Option<u32>>)
    ensures
        r@ == Seq::new(n as nat, |i: int| None::<u32>),
{
    let mut r: Vec<Option<u32>> = Vec::with_capacity(n);
    let mut i: usize = 0;
    while i < n
        invariant
            i <= n,
            r@ == Seq::new(i as nat, |j: int| None::<u32>),
        decreases n - i,
    {
        r.push(None);
        i += 1;
        assert(r@ =~= Seq::new(i as nat, |j: int| None::<u32>));
    }
    r
}

/// Copies each part onto a canvas of `area`'s size, left to right from column `x_offset`,
/// each centered vertically in a row of height `row_h` that starts at row `y_offset`.
/// Whatever falls outside the canvas is dropped.
fn paint_row(
    parts: &Vec<(BoundingBox, Vec<Option<u32>>)>,
    area: DrawSize,
    x_offset: u128,
    y_offset: u64,
    row_h: u32,
) -> (r: Vec<Option<u32>>)
    requires
        area.width * area.height <= usize::MAX,
        x_offset <= total_width(views(parts@)) + area.width,
        y_offset <= u32::MAX,
    ensures
        r@ == row_canvas(views(parts@), area, x_offset as int, y_offset as int, row_h as int),
{
    let w = area.width as usize;
    let h = area.height as usize;
    let ghost gw = w as int;
    let ghost gh = h as int;
    let ghost ps = views(parts@);
    let ghost xo = x_offset as int;
    let ghost yo = y_offset as int;
    let ghost rh = row_h as int;
    let mut buffer = empty_canvas(w * h);
    proof {
        lemma_total_width_bound(ps);
        assert forall|cx: int, cy: int| 0 <= cx < gw && 0 <= cy < gh implies #[trigger] buffer@[cell_index(gw, cx, cy)]
            == row_cell(ps.take(0), xo, yo, rh, cx, cy) by {
            lemma_cell_index_bound(gw, gh, cx, cy);
        }
    }
    let mut k: usize = 0;
    let mut start_x: u128 = 0;
    while k < parts.len()
        invariant
            0 <= k <= parts.len(),
            ps == views(parts@),
            gw == w,
            gh == h,
            xo == x_offset,
            yo == y_offset,
            rh == row_h,
            w * h <= usize::MAX,
            buffer@.len() == w * h,
            start_x == total_width(ps.take(k as int)),
            total_width(ps) <= ps.len() * 0xFFFF_FFFF,
            x_offset <= total_width(ps) + area.width,
            y_offset <= u32::MAX,
            forall|cx: int, cy: int|
                0 <= cx < gw && 0 <= cy < gh ==> #[trigger] buffer@[cell_index(gw, cx, cy)]
                    == row_cell(ps.take(k as int), xo, yo, rh, cx, cy),
        decreases parts.len() - k,
    {
        let bbox = parts[k].0;
        let pixels = &parts[k].1;
        let ghost kk = k as int;
        proof {
            assert(ps.take(kk + 1).drop_last() =~= ps.take(kk));
            assert(ps.take(kk + 1).last() == ps[kk]);
            lemma_total_width_bound(ps.take(kk + 1));
            lemma_total_width_prefix(ps, kk + 1);
        }
        let sy: u64 = if bbox.height < row_h {
            ((row_h - bbox.height) / 2) as u64
        } else {
            0
        };
        assert(sy == vertical_start(bbox.height as int, rh) && sy <= u32::MAX);
        assert forall|cx: int, cy: int| 0 <= cx < gw && 0 <= cy < gh implies #[trigger] buffer@[cell_index(gw, cx, cy)]
            == progress(ps, kk, xo, yo, rh, cx, cy, 0, 0) by {}
        let mut y: u64 = 0;
        while y < bbox.height as u64
            invariant
                0 <= k < parts.len(),
                kk == k,
                ps == views(parts@),
                bbox == ps[kk].0,
                pixels@ == ps[kk].1,
                gw == w,
                gh == h,
                xo == x_offset,
                yo == y_offset,
                rh == row_h,
                w * h <= usize::MAX,
                buffer@.len() == w * h,
                start_x == total_width(ps.take(kk)),
                start_x + bbox.width <= total_width(ps),
                total_width(ps) <= ps.len() * 0xFFFF_FFFF,
                x_offset <= total_width(ps) + area.width,
                y_offset <= u32::MAX,
                sy == vertical_start(bbox.height as int, rh),
                sy <= u32::MAX,
                y <= bbox.height,
                forall|cx: int, cy: int|
                    0 <= cx < gw && 0 <= cy < gh ==> #[trigger] buffer@[cell_index(gw, cx, cy)]
                        == progress(ps, kk, xo, yo, rh, cx, cy, y as int, 0),
            decreases bbox.height - y,
        {
            let canvas_y: u64 = y_offset + sy + y;
            if canvas_y < h as u64 {
                let mut x: u64 = 0;
                while x < bbox.width as u64
                    invariant
                        0 <= k < parts.len(),
                        kk == k,
                        ps == views(parts@),
                        bbox == ps[kk].0,
                        pixels@ == ps[kk].1,
                        gw == w,
                        gh == h,
                        xo == x_offset,
                        yo == y_offset,
                        rh == row_h,
                        w * h <= usize::MAX,
                        buffer@.len() == w * h,
                        start_x == total_width(ps.take(kk)),
                        start_x + bbox.width <= total_width(ps),
                        total_width(ps) <= ps.len() * 0xFFFF_FFFF,
                        x_offset <= total_width(ps) + area.width,
                        sy == vertical_start(bbox.height as int, rh),
                        y < bbox.height,
                        canvas_y == yo + sy + y,
                        canvas_y < h,
                        x <= bbox.width,
                        forall|cx: int, cy: int|
                            0 <= cx < gw && 0 <= cy < gh ==> #[trigger] buffer@[cell_index(gw, cx, cy)]
                                == progress(ps, kk, xo, yo, rh, cx, cy, y as int, x as int),
                    decreases bbox.width - x,
                {
                    let canvas_x: u128 = x_offset + start_x + x as u128;
                    if canvas_x < w as u128 {
                        proof {
                            lemma_cell_index_bound(gw, gh, canvas_x as int, canvas_y as int);
                            assert(y * bbox.width + x < 0x1_0000_0000 * 0x1_0000_0000) by (nonlinear_arith)
                                requires
                                    y < 0x1_0000_0000,
                                    x < bbox.width,
                                    bbox.width < 0x1_0000_0000,
                            ;
                        }
                        let src: u64 = y * bbox.width as u64 + x;
                        let dest: usize = canvas_y as usize * w + canvas_x as usize;
                        let ghost old_buf = buffer@;
                        if src < pixels.len() as u64 {
                            buffer[dest] = pixels[src as usize];
                        } else {
                            proof {
                                lemma_row_cell_beyond(ps.take(kk), xo, yo, rh, canvas_x as int, canvas_y as int);
                            }
                        }
                        proof {
                            assert forall|cx: int, cy: int| 0 <= cx < gw && 0 <= cy < gh implies #[trigger] buffer@[cell_index(gw, cx, cy)]
                                == progress(ps, kk, xo, yo, rh, cx, cy, y as int, x + 1) by {
                                lemma_cell_index_bound(gw, gh, cx, cy);
                                if cell_index(gw, cx, cy) == dest {
                                    lemma_cell_index_split(gw, cx, cy);
                                    lemma_cell_index_split(gw, canvas_x as int, canvas_y as int);
                                    lemma_row_cell_beyond(ps.take(kk), xo, yo, rh, cx, cy);
                                } else {
                                    assert(old_buf[cell_index(gw, cx, cy)] == progress(ps, kk, xo, yo, rh, cx, cy, y as int, x as int));
                                }
                            }
                        }
                    } else {
                        assert forall|cx: int, cy: int| 0 <= cx < gw && 0 <= cy < gh implies #[trigger] buffer@[cell_index(gw, cx, cy)]
                            == progress(ps, kk, xo, yo, rh, cx, cy, y as int, x + 1) by {
                            assert(buffer@[cell_index(gw, cx, cy)] == progress(ps, kk, xo, yo, rh, cx, cy, y as int, x as int));
                        }
                    }
                    x += 1;
                }
            }
            assert forall|cx: int, cy: int| 0 <= cx < gw && 0 <= cy < gh implies #[trigger] buffer@[cell_index(gw, cx, cy)]
                == progress(ps, kk, xo, yo, rh, cx, cy, y + 1, 0) by {
                assert(buffer@[cell_index(gw, cx, cy)] == progress(ps, kk, xo, yo, rh, cx, cy, y as int, bbox.width as int));
            }
            y += 1;
        }
        proof {
            assert forall|cx: int, cy: int| 0 <= cx < gw && 0 <= cy < gh implies #[trigger] buffer@[cell_index(gw, cx, cy)]
                == row_cell(ps.take(kk + 1), xo, yo, rh, cx, cy) by {
                assert(buffer@[cell_index(gw, cx, cy)] == progress(ps, kk, xo, yo, rh, cx, cy, bbox.height as int, 0));
                if cx >= xo + total_width(ps.take(kk)) {
                    lemma_row_cell_beyond(ps.take(kk), xo, yo, rh, cx, cy);
                }
            }
        }
        start_x = start_x + bbox.width as u128;
        k += 1;
    }
    proof {
        assert(ps.take(ps.len() as int) =~= ps);
        assert(buffer@ =~= row_canvas(ps, area, xo, yo, rh)) by {
            assert forall|i: int| 0 <= i < buffer@.len() implies buffer@[i] == row_canvas(ps, area, xo, yo, rh)[i] by {
                let cx = i % gw;
                let cy = i / gw;
                assert(gw > 0) by (nonlinear_arith)
                    requires
                        0 <= i < gw * gh,
                        gw >= 0,
                        gh >= 0,
                ;
                vstd::arithmetic::div_mod::lemma_fundamental_div_mod(i, gw);
                assert(cy * gw == gw * cy) by (nonlinear_arith);
                assert(0 <= cx < gw);
                assert(0 <= cy < gh) by (nonlinear_arith)
                    requires
                        cy == i / gw,
                        0 <= i < gw * gh,
                        gw > 0,
                ;
                assert(cell_index(gw, cx, cy) == i);
            }
        }
    }
    buffer
}

/// Where a row's block of parts sits horizontally on the canvas.
#[derive(Debug, Clone, Copy, PartialEq, Eq, Structural)]
pub enum Anchor {
    /// Flush with the left edge.
    Start,
    /// Centered.
    Center,
    /// Flush with the right edge, or with the left one when the block is wider than the canvas.
    End,
}

/// The first canvas column of a block `content` wide on a canvas `canvas` wide.
pub open spec fn anchor_offset(anchor: Anchor, content: int, canvas: int) -> int {
    match anchor {
        Anchor::Start => 0,
        Anchor::Center => center_offset(content, canvas),
        Anchor::End => if canvas > content {
            canvas - content
        } else {
            0
        },
    }
}

/// The canvas for the rendered parts of a row: the block of parts placed per `anchor`,
/// centered vertically, in a row as tall as its tallest part but at most `ceiling`.
pub open spec fn composed_row(
    parts: Seq<(BoundingBox, Seq<Option<u32>>)>,
    area: DrawSize,
    ceiling: u32,
    anchor: Anchor,
) -> Seq<Option<u32>> {
    let rh = row_height(parts, ceiling);
    row_canvas(
        parts,
        area,
        anchor_offset(anchor, total_width(parts), area.width as int),
        center_offset(rh, area.height as int),
        rh,
    )
}

/// Lays out rendered parts in one row on a canvas of `area`'s size.
pub fn compose_row(
    parts: &Vec<(BoundingBox, Vec<Option<u32>>)>,
    area: DrawSize,
    ceiling: u32,
    anchor: Anchor,
) -> (r: Vec<Option<u32>>)
    requires
        area.width * area.height <= usize::MAX,
    ensures
        r@ == composed_row(views(parts@), area, ceiling, anchor),
        r@.len() == area.width * area.height,
{
    let ghost ps = views(parts@);
    let w = area.width as usize;
    let h = area.height as usize;
    if parts.len() == 0 {
        let r = empty_canvas(w * h);
        assert(r@ =~= composed_row(ps, area, ceiling, anchor));
        return r;
    }
    let mut total: u128 = 0;
    let mut max_h: u32 = 0;
    let mut k: usize = 0;
    while k < parts.len()
        invariant
            0 <= k <= parts.len(),
            ps == views(parts@),
            total == total_width(ps.take(k as int)),
            max_h == max_height(ps.take(k as int)),
        decreases parts.len() - k,
    {
        proof {
            assert(ps.take(k + 1).drop_last() =~= ps.take(k as int));
            lemma_total_width_bound(ps.take(k + 1));
        }
        total = total + parts[k].0.width as u128;
        if parts[k].0.height > max_h {
            max_h = parts[k].0.height;
        }
        k += 1;
    }
    proof {
        assert(ps.take(ps.len() as int) =~= ps);
    }
    if max_h == 0 {
        let r = empty_canvas(w * h);
        proof {
            assert forall|i: int| 0 <= i < r@.len() implies r@[i] == composed_row(ps, area, ceiling, anchor)[i] by {
                let rh = row_height(ps, ceiling);
                lemma_row_cell_flat(
                    ps,
                    anchor_offset(anchor, total_width(ps), area.width as int),
                    center_offset(rh, area.height as int),
                    rh,
                    i % area.width as int,
                    i / area.width as int,
                );
            }
            assert(r@ =~= composed_row(ps, area, ceiling, anchor));
        }
        return r;
    }
    let row_h: u32 = if max_h < ceiling {
        max_h
    } else {
        ceiling
    };
    let y_offset: u64 = if area.height > row_h {
        ((area.height - row_h) / 2) as u64
    } else {
        ((row_h - area.height) / 2) as u64
    };
    let width = area.width as u128;
    let x_offset: u128 = match anchor {
        Anchor::Start => 0,
        Anchor::Center => if width > total {
            (width - total) / 2
        } else {
            (total - width) / 2
        },
        Anchor::End => if width > total {
            width - total
        } else {
            0
        },
    };
    paint_row(parts, area, x_offset, y_offset, row_h)
}

/// What each element renders, in order.
pub open spec fn rendered_all(elements: Seq<Element>) -> Seq<(BoundingBox, Seq<Option<u32>>)> {
    elements.map_values(|e: Element| e.rendered())
}

/// Every element's buffer fits in memory, and so does the canvas.
pub open spec fn fits(elements: Seq<Element>, area: DrawSize) -> bool {
    &&& area.width * area.height <= usize::MAX
    &&& forall|i: int| 0 <= i < elements.len() ==> (#[trigger] elements[i]).renderable()
}

/// Renders each element once, in order.
fn render_all(elements: &Vec<Element>) -> (r: Vec<(BoundingBox, Vec<Option<u32>>)>)
    requires
        forall|i: int| 0 <= i < elements@.len() ==> (#[trigger] elements@[i]).renderable(),
    ensures
        views(r@) == rendered_all(elements@),
{
    let mut r: Vec<(BoundingBox, Vec<Option<u32>>)> = Vec::new();
    let mut k: usize = 0;
    while k < elements.len()
        invariant
            0 <= k <= elements.len(),
            forall|i: int| 0 <= i < elements@.len() ==> (#[trigger] elements@[i]).renderable(),
            views(r@) == rendered_all(elements@.take(k as int)),
            r@.len() == k,
        decreases elements.len() - k,
    {
        let part = elements[k].render();
        let ghost before = r@;
        r.push(part);
        proof {
            let taken = elements@.take(k + 1);
            assert(taken.drop_last() =~= elements@.take(k as int));
            assert forall|i: int| 0 <= i < k + 1 implies views(r@)[i] == rendered_all(taken)[i] by {
                if i < k {
                    assert(r@[i] == before[i]);
                    assert(views(before)[i] == rendered_all(elements@.take(k as int))[i]);
                }
            }
            assert(views(r@) =~= rendered_all(taken));
        }
        k += 1;
    }
    assert(elements@.take(elements.len() as int) =~= elements@);
    r
}

/// A row of components that renders itself onto a canvas.
pub trait Widgets {
    /// What `render` returns for a canvas of `area`'s size.
    spec fn composed(&self, area: DrawSize) -> Seq<Option<u32>>;

    /// The buffers fit in memory.
    spec fn fits_in(&self, area: DrawSize) -> bool;

    fn render(&self, area: DrawSize) -> (r: Vec<Option<u32>>)
        requires
            self.fits_in(area),
        ensures
            r@ == self.composed(area),
            r@.len() == area.width * area.height,
    ;
}

/// A row centered on the canvas.
#[derive(Debug, Clone, PartialEq, Eq)]
pub struct CenterWidgets {
    pub components: Vec<Element>,
    /// The tallest the row may be.
    pub height: u32,
}

/// A row flush with the left edge of the canvas.
#[derive(Debug, Clone, PartialEq, Eq)]
pub struct LeftWidgets {
    pub components: Vec<Element>,
    /// The tallest the row may be.
    pub height: u32,
}

/// A row flush with the right edge of the canvas.
#[derive(Debug, Clone, PartialEq, Eq)]
pub struct RightWidgets {
    pub components: Vec<Element>,
    /// The tallest the row may be.
    pub height: u32,
}

impl Widgets for CenterWidgets {
    open spec fn composed(&self, area: DrawSize) -> Seq<Option<u32>> {
        composed_row(rendered_all(self.components@), area, self.height, Anchor::Center)
    }

    open spec fn fits_in(&self, area: DrawSize) -> bool {
        fits(self.components@, area)
    }

    fn render(&self, area: DrawSize) -> (r: Vec<Option<u32>>) {
        let parts = render_all(&self.components);
        compose_row(&parts, area, self.height, Anchor::Center)
    }
}

impl Widgets for LeftWidgets {
    open spec fn composed(&self, area: DrawSize) -> Seq<Option<u32>> {
        composed_row(rendered_all(self.components@), area, self.height, Anchor::Start)
    }

    open spec fn fits_in(&self, area: DrawSize) -> bool {
        fits(self.components@, area)
    }

    fn render(&self, area: DrawSize) -> (r: Vec<Option<u32>>) {
        let parts = render_all(&self.components);
        compose_row(&parts, area, self.height, Anchor::Start)
    }
}

impl Widgets for RightWidgets {
    open spec fn composed(&self, area: DrawSize) -> Seq<Option<u32>> {
        composed_row(rendered_all(self.components@), area, self.height, Anchor::End)
    }

    open spec fn fits_in(&self, area: DrawSize) -> bool {
        fits(self.components@, area)
    }

    fn render(&self, area: DrawSize) -> (r: Vec<Option<u32>>) {
        let parts = render_all(&self.components);
        compose_row(&parts, area, self.height, Anchor::End)
    }
}

/// The three rows of a bar.
#[derive(Debug, Clone, PartialEq, Eq)]
pub struct SimbarWidgets {
    pub left: LeftWidgets,
    pub center: CenterWidgets,
    pub right: RightWidgets,
}

/// A row whose parts all have height zero (no parts at all, or only spacers) leaves the
/// whole canvas to the background, however wide the parts are.
pub proof fn lemma_flat_row_is_background(
    parts: Seq<(BoundingBox, Seq<Option<u32>>)>,
    area: DrawSize,
    ceiling: u32,
    anchor: Anchor,
    bg: u32,
)
    requires
        max_height(parts) == 0,
    ensures
        composed_row(parts, area, ceiling, anchor) =~= Seq::new(
            (area.width * area.height) as nat,
            |i: int| None::<u32>,
        ),
        flattened(composed_row(parts, area, ceiling, anchor), bg) =~= Seq::new(
            (area.width * area.height) as nat,
            |i: int| bg,
        ),
{
    let rh = row_height(parts, ceiling);
    assert forall|i: int| 0 <= i < area.width * area.height implies composed_row(
        parts,
        area,
        ceiling,
        anchor,
    )[i] == None::<u32> by {
        lemma_row_cell_flat(
            parts,
            anchor_offset(anchor, total_width(parts), area.width as int),
            center_offset(rh, area.height as int),
            rh,
            i % area.width as int,
            i / area.width as int,
        );
    }
}

/// An empty row leaves the whole canvas to the background.
pub proof fn lemma_empty_row_is_background(area: DrawSize, ceiling: u32, anchor: Anchor, bg: u32)
    ensures
        flattened(composed_row(Seq::empty(), area, ceiling, anchor), bg) =~= Seq::new(
            (area.width * area.height) as nat,
            |i: int| bg,
        ),
{
    lemma_flat_row_is_background(Seq::empty(), area, ceiling, anchor, bg);
}

/// Rendering a row is repeatable: two renders of one row on one canvas give the same
/// buffer.
pub proof fn lemma_row_render_repeatable<R: Widgets>(
    row: R,
    area: DrawSize,
    first: Seq<Option<u32>>,
    second: Seq<Option<u32>>,
)
    requires
        first == row.composed(area),
        second == row.composed(area),
    ensures
        first == second,
{
}

/// A centered block exactly the canvas's size starts at its top-left corner.
pub proof fn lemma_centered_fit(
    parts: Seq<(BoundingBox, Seq<Option<u32>>)>,
    area: DrawSize,
    ceiling: u32,
)
    requires
        total_width(parts) == area.width,
        max_height(parts) == area.height,
        area.height <= ceiling,
    ensures
        anchor_offset(Anchor::Center, total_width(parts), area.width as int) == 0,
        center_offset(row_height(parts, ceiling), area.height as int) == 0,
{
}

proof fn lemma_total_width_prefix(parts: Seq<(BoundingBox, Seq<Option<u32>>)>, k: int)
    requires
        0 <= k <= parts.len(),
    ensures
        total_width(parts.take(k)) <= total_width(parts),
    decreases parts.len(),
{
    if k < parts.len() {
        assert(parts.drop_last().take(k) =~= parts.take(k));
        lemma_total_width_prefix(parts.drop_last(), k);
    } else {
        assert(parts.take(k) =~= parts);
    }
}

} // verus!
