//! Opaque and translucent colors, their packed form, and the "over" operator.
use vstd::prelude::*;

verus! {

/// The packed ARGB8888 value of four channels.
pub open spec fn pack(a: int, r: int, g: int, b: int) -> int {
    a * 0x1000000 + r * 0x10000 + g * 0x100 + b
}

/// The channel of a packed pixel that starts at bit `8 * k`.
pub open spec fn channel(p: u32, k: int) -> int {
    (p as int / pow256(k)) % 256
}

pub open spec fn pow256(k: int) -> int {
    if k == 0 {
        1
    } else if k == 1 {
        0x100
    } else if k == 2 {
        0x10000
    } else {
        0x1000000
    }
}

pub open spec fn alpha_of(p: u32) -> int {
    channel(p, 3)
}

pub open spec fn red_of(p: u32) -> int {
    channel(p, 2)
}

pub open spec fn green_of(p: u32) -> int {
    channel(p, 1)
}

pub open spec fn blue_of(p: u32) -> int {
    channel(p, 0)
}

pub proof fn lemma_pack_bits(a: u32, r: u32, g: u32, b: u32)
    requires
        a < 256,
        r < 256,
        g < 256,
        b < 256,
    ensures
        (a << 24u32) | (r << 16u32) | (g << 8u32) | b == pack(a as int, r as int, g as int, b as int),
{
    assert((a << 24u32) | (r << 16u32) | (g << 8u32) | b == a * 0x1000000 + r * 0x10000 + g
        * 0x100 + b) by (bit_vector)
        requires
            a < 256,
            r < 256,
            g < 256,
            b < 256,
    ;
}

/// A pixel is the packing of its own four channels.
pub proof fn lemma_unpack(p: u32)
    ensures
        p as int == pack(alpha_of(p), red_of(p), green_of(p), blue_of(p)),
{
    let a = (p / 0x1000000) % 256;
    let r = (p / 0x10000) % 256;
    let g = (p / 0x100) % 256;
    let b = p % 256;
    assert(p == a * 0x1000000 + r * 0x10000 + g * 0x100 + b) by (bit_vector)
        requires
            a == (p / 0x1000000) % 256,
            r == (p / 0x10000) % 256,
            g == (p / 0x100) % 256,
            b == p % 256,
    ;
}

/// Reads one 8-bit channel out of a packed pixel.
pub(crate) fn extract(p: u32, shift: u32) -> (r: u32)
    requires
        shift == 0 || shift == 8 || shift == 16 || shift == 24,
    ensures
        r == channel(p, (shift / 8) as int),
        r < 256,
{
    let r = (p >> shift) & 0xFF;
    if shift == 0 {
        assert(r == p % 256) by (bit_vector)
            requires
                r == (p >> shift) & 0xFF,
                shift == 0,
        ;
    } else if shift == 8 {
        assert(r == (p / 0x100) % 256) by (bit_vector)
            requires
                r == (p >> shift) & 0xFF,
                shift == 8,
        ;
    } else if shift == 16 {
        assert(r == (p / 0x10000) % 256) by (bit_vector)
            requires
                r == (p >> shift) & 0xFF,
                shift == 16,
        ;
    } else {
        assert(r == (p / 0x1000000) % 256) by (bit_vector)
            requires
                r == (p >> shift) & 0xFF,
                shift == 24,
        ;
    }
    r
}

/// Packs four channels into one pixel.
pub(crate) fn pack_channels(a: u32, r: u32, g: u32, b: u32) -> (p: u32)
    requires
        a < 256,
        r < 256,
        g < 256,
        b < 256,
    ensures
        p == pack(a as int, r as int, g as int, b as int),
{
    proof {
        lemma_pack_bits(a, r, g, b);
    }
    (a << 24u32) | (r << 16u32) | (g << 8u32) | b
}

/// An opaque color.
#[derive(Debug, Clone, Copy, PartialEq, Eq, Structural)]
pub struct RgbColor {
    pub red: u8,
    pub green: u8,
    pub blue: u8,
}

impl RgbColor {
    pub fn new(red: u8, green: u8, blue: u8) -> (c: Self)
        ensures
            c.red == red,
            c.green == green,
            c.blue == blue,
    {
        RgbColor { red, green, blue }
    }

    /// The packed value: the three channels under an alpha byte of zero.
    pub open spec fn packed(self) -> int {
        pack(0, self.red as int, self.green as int, self.blue as int)
    }
}

impl Default for RgbColor {
    /// White.
    fn default() -> (c: Self)
        ensures
            c.red == 0xFF && c.green == 0xFF && c.blue == 0xFF,
    {
        RgbColor { red: 0xFF, green: 0xFF, blue: 0xFF }
    }
}

impl From<RgbColor> for u32 {
    fn from(color: RgbColor) -> (r: u32) {
        pack_channels(0, color.red as u32, color.green as u32, color.blue as u32)
    }
}

impl vstd::std_specs::convert::FromSpecImpl<RgbColor> for u32 {
    open spec fn obeys_from_spec() -> bool {
        true
    }

    open spec fn from_spec(v: RgbColor) -> u32 {
        v.packed() as u32
    }
}

/// A color with an 8-bit alpha channel: 0 is fully transparent, 255 fully opaque.
#[derive(Debug, Clone, Copy, PartialEq, Eq, Structural)]
pub struct ArgbColor {
    pub alpha: u8,
    pub red: u8,
    pub green: u8,
    pub blue: u8,
}

/// Combined alpha of `fg` over `bg`, scaled by 255 * 255.
pub open spec fn over_alpha_scaled(fg: ArgbColor, bg: ArgbColor) -> int {
    fg.alpha * 255 + bg.alpha * (255 - fg.alpha)
}

/// One channel of `fg` over `bg`, weighted by each layer's share of the combined alpha,
/// rounded to nearest (halves up).
pub open spec fn over_channel(cf: int, cb: int, fg: ArgbColor, bg: ArgbColor) -> int {
    let total = over_alpha_scaled(fg, bg);
    (2 * (cf * fg.alpha * 255 + cb * bg.alpha * (255 - fg.alpha)) + total) / (2 * total)
}

/// Porter-Duff "over" of two possibly translucent colors.
pub open spec fn over(fg: ArgbColor, bg: ArgbColor) -> ArgbColor {
    let total = over_alpha_scaled(fg, bg);
    if total == 0 {
        ArgbColor { alpha: 0, red: 0, green: 0, blue: 0 }
    } else {
        ArgbColor {
            alpha: ((2 * total + 255) / 510) as u8,
            red: over_channel(fg.red as int, bg.red as int, fg, bg) as u8,
            green: over_channel(fg.green as int, bg.green as int, fg, bg) as u8,
            blue: over_channel(fg.blue as int, bg.blue as int, fg, bg) as u8,
        }
    }
}

proof fn lemma_over_channel_bound(cf: int, cb: int, fg: ArgbColor, bg: ArgbColor)
    requires
        0 <= cf < 256,
        0 <= cb < 256,
        over_alpha_scaled(fg, bg) > 0,
    ensures
        0 <= over_channel(cf, cb, fg, bg) < 256,
{
    let t = over_alpha_scaled(fg, bg);
    let af = fg.alpha as int;
    let ab = bg.alpha as int;
    let n = cf * af * 255 + cb * ab * (255 - af);
    assert(0 <= n <= 255 * t) by (nonlinear_arith)
        requires
            0 <= cf <= 255,
            0 <= cb <= 255,
            0 <= af <= 255,
            0 <= ab <= 255,
            n == cf * af * 255 + cb * ab * (255 - af),
            t == af * 255 + ab * (255 - af),
    ;
    assert(0 <= (2 * n + t) / (2 * t) < 256) by (nonlinear_arith)
        requires
            0 <= n <= 255 * t,
            t > 0,
    ;
}

/// `(2 * n + d) / (2 * d)`: `n / d` rounded to nearest, halves up.
fn div_round(n: u64, d: u64) -> (r: u64)
    requires
        0 < d <= 0x10000,
        n <= 0x1000000,
    ensures
        r == (2 * n + d) / (2 * d),
{
    (2 * n + d) / (2 * d)
}

impl ArgbColor {
    pub fn new(alpha: u8, red: u8, green: u8, blue: u8) -> (c: Self)
        ensures
            c == (ArgbColor { alpha, red, green, blue }),
    {
        ArgbColor { alpha, red, green, blue }
    }

    /// This color composited over `background`.
    pub fn blend_with_background(self, background: ArgbColor) -> (c: Self)
        ensures
            c == over(self, background),
    {
        let af = self.alpha as u64;
        let ab = background.alpha as u64;
        proof {
            assert(ab * (255 - af) <= 65025) by (nonlinear_arith)
                requires
                    af <= 255,
                    ab <= 255,
            ;
        }
        let total = af * 255 + ab * (255 - af);
        if total == 0 {
            return ArgbColor { alpha: 0, red: 0, green: 0, blue: 0 };
        }
        proof {
            lemma_over_channel_bound(self.red as int, background.red as int, self, background);
            lemma_over_channel_bound(self.green as int, background.green as int, self, background);
            lemma_over_channel_bound(self.blue as int, background.blue as int, self, background);
        }
        let red = Self::weigh(self.red as u64, background.red as u64, af, ab, total);
        let green = Self::weigh(self.green as u64, background.green as u64, af, ab, total);
        let blue = Self::weigh(self.blue as u64, background.blue as u64, af, ab, total);
        let alpha = (2 * total + 255) / 510;
        ArgbColor { alpha: alpha as u8, red: red as u8, green: green as u8, blue: blue as u8 }
    }

    fn weigh(cf: u64, cb: u64, af: u64, ab: u64, total: u64) -> (r: u64)
        requires
            cf < 256,
            cb < 256,
            af < 256,
            ab < 256,
            total == af * 255 + ab * (255 - af),
            0 < total,
        ensures
            r == (2 * (cf * af * 255 + cb * ab * (255 - af)) + total) / (2 * total),
    {
        proof {
            assert(cf * af * 255 + cb * ab * (255 - af) <= 255 * total) by (nonlinear_arith)
                requires
                    cf < 256,
                    cb < 256,
                    af < 256,
                    ab < 256,
                    total == af * 255 + ab * (255 - af),
            ;
            assert(total <= 65025) by (nonlinear_arith)
                requires
                    af < 256,
                    ab < 256,
                    total == af * 255 + ab * (255 - af),
            ;
            assert(cf * af <= 65025 && cb * ab <= 65025) by (nonlinear_arith)
                requires
                    cf < 256,
                    cb < 256,
                    af < 256,
                    ab < 256,
            ;
        }
        div_round(cf * af * 255 + cb * ab * (255 - af), total)
    }

    /// The packed value.
    pub open spec fn packed(self) -> int {
        pack(self.alpha as int, self.red as int, self.green as int, self.blue as int)
    }
}

impl Default for ArgbColor {
    /// Opaque white.
    fn default() -> (c: Self)
        ensures
            c == (ArgbColor { alpha: 0xFF, red: 0xFF, green: 0xFF, blue: 0xFF }),
    {
        ArgbColor { alpha: 0xFF, red: 0xFF, green: 0xFF, blue: 0xFF }
    }
}

impl From<ArgbColor> for u32 {
    fn from(color: ArgbColor) -> (r: u32) {
        pack_channels(color.alpha as u32, color.red as u32, color.green as u32, color.blue as u32)
    }
}

impl vstd::std_specs::convert::FromSpecImpl<ArgbColor> for u32 {
    open spec fn obeys_from_spec() -> bool {
        true
    }

    open spec fn from_spec(v: ArgbColor) -> u32 {
        v.packed() as u32
    }
}

impl From<RgbColor> for ArgbColor {
    /// The same channels, fully opaque.
    fn from(value: RgbColor) -> (r: ArgbColor) {
        ArgbColor { alpha: 0xFF, red: value.red, green: value.green, blue: value.blue }
    }
}

impl vstd::std_specs::convert::FromSpecImpl<RgbColor> for ArgbColor {
    open spec fn obeys_from_spec() -> bool {
        true
    }

    open spec fn from_spec(v: RgbColor) -> ArgbColor {
        ArgbColor { alpha: 0xFF, red: v.red, green: v.green, blue: v.blue }
    }
}

/// Blend laws: a fully opaque color covers any background; two fully transparent colors
/// give transparent black.
pub proof fn lemma_blend_laws(fg: ArgbColor, bg: ArgbColor)
    ensures
        fg.alpha == 255 ==> over(fg, bg) == fg,
        fg.alpha == 0 && bg.alpha == 0 ==> over(fg, bg) == (ArgbColor {
            alpha: 0,
            red: 0,
            green: 0,
            blue: 0,
        }),
{
    if fg.alpha == 255 {
        let ab = bg.alpha as int;
        assert(255 * 255 + ab * (255 - 255) == 65025) by (nonlinear_arith);
        assert(over_alpha_scaled(fg, bg) == 65025);
        assert forall|cf: int, cb: int| 0 <= cf < 256 && 0 <= cb < 256 implies #[trigger] over_channel(
            cf,
            cb,
            fg,
            bg,
        ) == cf by {
            assert((2 * (cf * 255 * 255 + cb * (bg.alpha as int) * 0) + 65025) / (2 * 65025 as int) == cf)
                by (nonlinear_arith)
                requires
                    0 <= cf < 256,
            ;
        }
        assert(over_channel(fg.red as int, bg.red as int, fg, bg) == fg.red);
        assert(over_channel(fg.green as int, bg.green as int, fg, bg) == fg.green);
        assert(over_channel(fg.blue as int, bg.blue as int, fg, bg) == fg.blue);
    }
}

/// Blending is not symmetric: which color is in front matters.
pub proof fn lemma_blend_order_matters()
    ensures
        exists|a: ArgbColor, b: ArgbColor| over(a, b) != over(b, a),
{
    let black = ArgbColor { alpha: 255, red: 0, green: 0, blue: 0 };
    let white = ArgbColor { alpha: 255, red: 255, green: 255, blue: 255 };
    lemma_blend_laws(black, white);
    lemma_blend_laws(white, black);
    assert(over(black, white) != over(white, black));
}

} // verus!
