//! Flattening a canvas of optional pixels onto an opaque background.
use vstd::prelude::*;
use crate::colors::{lemma_unpack, alpha_of, blue_of, channel, extract, green_of, pack, pack_channels, red_of};

verus! {

/// `f` at opacity `a / 255` over `b`, rounded to nearest (halves up).
pub open spec fn mix(f: int, b: int, a: int) -> int {
    (2 * (f * a + b * (255 - a)) + 255) / 510
}

/// `fg` over an opaque background `bg`, fully opaque.
pub open spec fn over_opaque(fg: u32, bg: u32) -> u32 {
    let a = alpha_of(fg);
    pack(
        255,
        mix(red_of(fg), red_of(bg), a),
        mix(green_of(fg), green_of(bg), a),
        mix(blue_of(fg), blue_of(bg), a),
    ) as u32
}

/// The final pixel of one canvas cell: the background where nothing was drawn.
pub open spec fn flatten_cell(cell: Option<u32>, bg: u32) -> u32 {
    match cell {
        None => bg,
        Some(fg) => over_opaque(fg, bg),
    }
}

/// The final pixels of a canvas.
pub open spec fn flattened(canvas: Seq<Option<u32>>, bg: u32) -> Seq<u32> {
    canvas.map_values(|c: Option<u32>| flatten_cell(c, bg))
}

proof fn lemma_mix_bound(f: int, b: int, a: int)
    requires
        0 <= f < 256,
        0 <= b < 256,
        0 <= a < 256,
    ensures
        0 <= mix(f, b, a) < 256,
{
    assert(0 <= f * a + b * (255 - a) <= 255 * 255) by (nonlinear_arith)
        requires
            0 <= f < 256,
            0 <= b < 256,
            0 <= a < 256,
    ;
}

fn mix_channel(f: u32, b: u32, a: u32) -> (r: u32)
    requires
        f < 256,
        b < 256,
        a < 256,
    ensures
        r == mix(f as int, b as int, a as int),
        r < 256,
{
    proof {
        lemma_mix_bound(f as int, b as int, a as int);
        assert(f * a <= 65025 && b * (255 - a) <= 65025) by (nonlinear_arith)
            requires
                f < 256,
                b < 256,
                a < 256,
        ;
    }
    (2 * (f * a + b * (255 - a)) + 255) / 510
}

/// Blends `fg` over the opaque background `bg`.
pub fn blend_pixels(fg: u32, bg: u32) -> (r: u32)
    ensures
        r == over_opaque(fg, bg),
{
    let a = extract(fg, 24);
    let r = mix_channel(extract(fg, 16), extract(bg, 16), a);
    let g = mix_channel(extract(fg, 8), extract(bg, 8), a);
    let b = mix_channel(extract(fg, 0), extract(bg, 0), a);
    pack_channels(255, r, g, b)
}

/// Every cell of `canvas` flattened onto `background`.
pub fn flatten(canvas: &Vec<Option<u32>>, background: u32) -> (r: Vec<u32>)
    ensures
        r@ == flattened(canvas@, background),
{
    let mut r: Vec<u32> = Vec::with_capacity(canvas.len());
    let mut i: usize = 0;
    while i < canvas.len()
        invariant
            0 <= i <= canvas.len(),
            r@ == flattened(canvas@.take(i as int), background),
        decreases canvas.len() - i,
    {
        let p = match canvas[i] {
            Some(fg) => blend_pixels(fg, background),
            None => background,
        };
        r.push(p);
        i += 1;
        assert(r@ =~= flattened(canvas@.take(i as int), background));
    }
    assert(canvas@.take(canvas.len() as int) =~= canvas@);
    r
}

/// Flatten laws: an empty cell shows the background; a cell of alpha 0 shows an opaque
/// background; a cell of alpha 255 shows its own color.
pub proof fn lemma_flatten_laws(fg: u32, bg: u32)
    ensures
        flatten_cell(None, bg) == bg,
        alpha_of(fg) == 0 && alpha_of(bg) == 255 ==> flatten_cell(Some(fg), bg) == bg,
        alpha_of(fg) == 255 ==> flatten_cell(Some(fg), bg) == fg,
{
    assert forall|f: int, b: int| 0 <= f < 256 && 0 <= b < 256 implies #[trigger] mix(f, b, 0) == b
        && mix(f, b, 255) == f by {
        assert((2 * (f * 0 + b * 255) + 255) / 510 == b) by (nonlinear_arith)
            requires
                0 <= b < 256,
        ;
        assert((2 * (f * 255 + b * 0) + 255) / 510 == f) by (nonlinear_arith)
            requires
                0 <= f < 256,
        ;
    }
    lemma_unpack(fg);
    lemma_unpack(bg);
    assert(0 <= red_of(fg) < 256 && 0 <= green_of(fg) < 256 && 0 <= blue_of(fg) < 256);
    assert(0 <= red_of(bg) < 256 && 0 <= green_of(bg) < 256 && 0 <= blue_of(bg) < 256);
    assert(mix(red_of(fg), red_of(bg), 0) == red_of(bg));
    assert(mix(green_of(fg), green_of(bg), 0) == green_of(bg));
    assert(mix(blue_of(fg), blue_of(bg), 0) == blue_of(bg));
    assert(mix(red_of(fg), red_of(bg), 255) == red_of(fg));
    assert(mix(green_of(fg), green_of(bg), 255) == green_of(fg));
    assert(mix(blue_of(fg), blue_of(bg), 255) == blue_of(fg));
}

/// The final pixel for slot `i` of a surface: the flattened cell, or the background past
/// the end of the canvas.
pub open spec fn surface_pixel(canvas: Seq<Option<u32>>, bg: u32, i: int) -> u32 {
    if i < canvas.len() {
        flatten_cell(canvas[i], bg)
    } else {
        bg
    }
}

/// The bytes for a surface of `pixel_count` pixels, four per pixel, least significant
/// byte first.
pub fn frame_bytes(canvas: &Vec<Option<u32>>, background: u32, pixel_count: usize) -> (r: Vec<u8>)
    requires
        4 * pixel_count <= usize::MAX,
    ensures
        r@.len() == 4 * pixel_count,
        forall|i: int, j: int|
            0 <= i < pixel_count && 0 <= j < 4 ==> #[trigger] r@[4 * i + j] == channel(
                surface_pixel(canvas@, background, i),
                j,
            ),
{
    let mut r: Vec<u8> = Vec::with_capacity(4 * pixel_count);
    let mut i: usize = 0;
    while i < pixel_count
        invariant
            0 <= i <= pixel_count,
            4 * pixel_count <= usize::MAX,
            r@.len() == 4 * i,
            forall|n: int, j: int|
                0 <= n < i && 0 <= j < 4 ==> #[trigger] r@[4 * n + j] == channel(
                    surface_pixel(canvas@, background, n),
                    j,
                ),
        decreases pixel_count - i,
    {
        let p = if i < canvas.len() {
            match canvas[i] {
                Some(fg) => blend_pixels(fg, background),
                None => background,
            }
        } else {
            background
        };
        let ghost before = r@;
        r.push(extract(p, 0) as u8);
        r.push(extract(p, 8) as u8);
        r.push(extract(p, 16) as u8);
        r.push(extract(p, 24) as u8);
        proof {
            assert forall|n: int, j: int| 0 <= n < i + 1 && 0 <= j < 4 implies #[trigger] r@[4 * n + j]
                == channel(surface_pixel(canvas@, background, n), j) by {
                if n < i {
                    assert(r@[4 * n + j] == before[4 * n + j]);
                }
            }
        }
        i += 1;
    }
    r
}

} // verus!
