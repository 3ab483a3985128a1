//! The color model: 8-bit RGBA pixels, an exact rational
//! hue/saturation/value/alpha representation, and the quantized
//! low-bit-depth palette encoding (30 hue steps, 15 saturation steps,
//! 15 value steps).

use vstd::prelude::*;
use vstd::arithmetic::div_mod::lemma_fundamental_div_mod_converse;
use vstd::arithmetic::div_mod::lemma_fundamental_div_mod_converse_mod;
use vstd::arithmetic::div_mod::lemma_div_is_ordered;

verus! {

/// One pixel: four independent 8-bit channels.
#[derive(Clone, Copy, PartialEq, Eq, Structural, Debug)]
pub struct Color {
    pub r: u8,
    pub g: u8,
    pub b: u8,
    pub a: u8,
}

impl Color {
    pub fn new(r: u8, g: u8, b: u8, a: u8) -> (c: Color)
        ensures
            c == (Color { r, g, b, a }),
    {
        Color { r, g, b, a }
    }

    /// The canonical fully-transparent pixel that every zero-alpha input
    /// collapses to.
    pub open spec fn spec_zero() -> Color {
        Color { r: 0, g: 0, b: 0, a: 0 }
    }

    pub fn zero() -> (c: Color)
        ensures
            c == Color::spec_zero(),
    {
        Color { r: 0, g: 0, b: 0, a: 0 }
    }
}

/// Hue, saturation, value and alpha as exact rational numbers:
/// hue is `h_num / h_den` in degrees within [0, 360), and each of
/// saturation, value and alpha is `num / den` within [0, 1].
///
/// Keeping the denominators explicit makes every conversion in this
/// module exact, so the round-trip laws below hold with no floating-point
/// rounding slack.
#[derive(Clone, Copy, PartialEq, Eq, Structural, Debug)]
pub struct HSVA {
    pub h_num: u32,
    pub h_den: u32,
    pub s_num: u32,
    pub s_den: u32,
    pub v_num: u32,
    pub v_den: u32,
    pub a_num: u32,
    pub a_den: u32,
}

impl HSVA {
    /// Well-formed: denominators are in [1, 255], hue is under one full
    /// turn, and saturation, value and alpha do not exceed 1.
    pub open spec fn wf(self) -> bool {
        &&& 1 <= self.h_den <= 255
        &&& self.h_num < 360 * self.h_den
        &&& 1 <= self.s_den <= 255
        &&& self.s_num <= self.s_den
        &&& 1 <= self.v_den <= 255
        &&& self.v_num <= self.v_den
        &&& 1 <= self.a_den <= 255
        &&& self.a_num <= self.a_den
    }
}

impl Default for HSVA {
    /// Hue 0, saturation 0, value 0, alpha 1.
    fn default() -> (h: HSVA)
        ensures
            h == (HSVA { h_num: 0, h_den: 1, s_num: 0, s_den: 1, v_num: 0, v_den: 1, a_num: 1, a_den: 1 }),
            h.wf(),
    {
        HSVA { h_num: 0, h_den: 1, s_num: 0, s_den: 1, v_num: 0, v_den: 1, a_num: 1, a_den: 1 }
    }
}

/// One quantized palette color: hue in [0, 29], saturation and value in
/// [0, 14].
#[derive(Clone, Copy, PartialEq, Eq, Structural, Debug)]
pub struct NHColor {
    pub h: u8,
    pub s: u8,
    pub v: u8,
}

impl NHColor {
    pub open spec fn wf(self) -> bool {
        self.h <= 29 && self.s <= 14 && self.v <= 14
    }
}

impl Default for NHColor {
    fn default() -> (c: NHColor)
        ensures
            c == (NHColor { h: 0, s: 0, v: 0 }),
    {
        NHColor { h: 0, s: 0, v: 0 }
    }
}

/// One palette slot: either a quantized color or the transparent marker.
#[derive(Clone, Copy, PartialEq, Eq, Structural, Debug)]
pub enum NHPaletteItem {
    Color(NHColor),
    Transparent,
}

impl NHPaletteItem {
    pub open spec fn wf(self) -> bool {
        match self {
            NHPaletteItem::Color(c) => c.wf(),
            NHPaletteItem::Transparent => true,
        }
    }
}

impl Default for NHPaletteItem {
    fn default() -> (item: NHPaletteItem)
        ensures
            item == NHPaletteItem::Color(NHColor { h: 0, s: 0, v: 0 }),
    {
        NHPaletteItem::Color(NHColor { h: 0, s: 0, v: 0 })
    }
}

/// `num / den` rounded to the nearest integer, halves rounding up.
pub open spec fn rnd(num: int, den: int) -> int {
    (2 * num + den) / (2 * den)
}

/// Rounding an exact multiple of the denominator returns the multiplier.
pub proof fn lemma_rnd_exact(num: int, den: int, q: int)
    requires
        den >= 1,
        q >= 0,
        num == q * den,
    ensures
        rnd(num, den) == q,
{
    assert(2 * num + den == q * (2 * den) + den) by (nonlinear_arith)
        requires num == q * den;
    lemma_fundamental_div_mod_converse(2 * num + den, 2 * den, q, den);
}

/// Rounding keeps a value between bounds that hold for the exact ratio.
pub proof fn lemma_rnd_bounds(num: int, den: int, lo: int, hi: int)
    requires
        den >= 1,
        0 <= lo,
        lo * den <= num <= hi * den,
    ensures
        lo <= rnd(num, den) <= hi,
{
    assert(2 * num + den >= lo * (2 * den) + den) by (nonlinear_arith)
        requires num >= lo * den;
    assert(2 * num + den <= hi * (2 * den) + den) by (nonlinear_arith)
        requires num <= hi * den;
    assert(hi >= lo) by (nonlinear_arith)
        requires den >= 1, lo * den <= hi * den;
    assert(lo * (2 * den) + den == 2 * (lo * den) + den) by (nonlinear_arith);
    assert(hi * (2 * den) + den == 2 * (hi * den) + den) by (nonlinear_arith);
    lemma_rnd_exact(lo * den, den, lo);
    lemma_rnd_exact(hi * den, den, hi);
    lemma_div_is_ordered(lo * (2 * den) + den, 2 * num + den, 2 * den);
    lemma_div_is_ordered(2 * num + den, hi * (2 * den) + den, 2 * den);
}

/// `num / den` rounded to the nearest integer, halves rounding up.
pub fn rnd_u64(num: u64, den: u64) -> (r: u64)
    requires
        1 <= den,
        2 * num + den <= u64::MAX,
        2 * den <= u64::MAX,
    ensures
        r == rnd(num as int, den as int),
{
    (2 * num + den) / (2 * den)
}

/// `num / den` rounded to the nearest integer, halves rounding up, for the
/// wide sums the quantizer accumulates.
pub fn rnd_u128(num: u128, den: u128) -> (r: u128)
    requires
        1 <= den,
        2 * num + den <= u128::MAX,
        2 * den <= u128::MAX,
    ensures
        r == rnd(num as int, den as int),
{
    (2 * num + den) / (2 * den)
}

/// Standard max/min-channel derivation of hue, saturation and value from
/// an RGBA pixel, as exact rationals. The achromatic case (r = g = b)
/// returns hue 0 and saturation 0 to avoid a division by zero; hue is
/// otherwise normalized into [0, 360) by wraparound.
pub open spec fn spec_rgb_to_hsva(c: Color) -> HSVA {
    if c.r == c.g && c.g == c.b {
        HSVA {
            h_num: 0,
            h_den: 1,
            s_num: 0,
            s_den: 1,
            v_num: c.r as u32,
            v_den: 255,
            a_num: c.a as u32,
            a_den: 255,
        }
    } else {
        let r = c.r as int;
        let g = c.g as int;
        let b = c.b as int;
        let cmax = if r >= g && r >= b { r } else if g >= b { g } else { b };
        let cmin = if r <= g && r <= b { r } else if g <= b { g } else { b };
        let delta = cmax - cmin;
        let h = if r >= g && r >= b {
            if g >= b { 60 * (g - b) } else { 360 * delta - 60 * (b - g) }
        } else if g >= r && g >= b {
            60 * (b - r + 2 * delta)
        } else {
            60 * (r - g + 4 * delta)
        };
        HSVA {
            h_num: h as u32,
            h_den: delta as u32,
            s_num: delta as u32,
            s_den: cmax as u32,
            v_num: cmax as u32,
            v_den: 255,
            a_num: c.a as u32,
            a_den: 255,
        }
    }
}

pub fn rgb_to_hsva(c: &Color) -> (h: HSVA)
    ensures
        h == spec_rgb_to_hsva(*c),
        h.wf(),
{
    let a_num = c.a as u32;
    if c.r == c.g && c.g == c.b {
        return HSVA {
            h_num: 0,
            h_den: 1,
            s_num: 0,
            s_den: 1,
            v_num: c.r as u32,
            v_den: 255,
            a_num,
            a_den: 255,
        };
    }
    let r = c.r as u32;
    let g = c.g as u32;
    let b = c.b as u32;
    let cmax = if r >= g && r >= b { r } else if g >= b { g } else { b };
    let cmin = if r <= g && r <= b { r } else if g <= b { g } else { b };
    let delta = cmax - cmin;
    let h_num = if r >= g && r >= b {
        if g >= b { 60 * (g - b) } else { 360 * delta - 60 * (b - g) }
    } else if g >= r && g >= b {
        60 * (b + 2 * delta - r)
    } else {
        60 * (r + 4 * delta - g)
    };
    HSVA {
        h_num,
        h_den: delta,
        s_num: delta,
        s_den: cmax,
        v_num: cmax,
        v_den: 255,
        a_num,
        a_den: 255,
    }
}

/// Standard sector-based reconstruction of an RGBA pixel from exact
/// hue/saturation/value/alpha: value 0 gives black, saturation 0 gives a
/// gray level, and otherwise the six 60-degree hue sectors place chroma,
/// an intermediate level and the common offset on the three channels. A
/// well-formed hue always lands in a sector, so the unreachable-state
/// failure a defensive implementation would reserve for a hue outside
/// [0, 360) cannot occur.
pub open spec fn spec_hsva_to_rgb(h: HSVA) -> Color {
    let a = rnd(255 * h.a_num, h.a_den as int) as u8;
    if h.v_num == 0 {
        Color { r: 0, g: 0, b: 0, a }
    } else if h.s_num == 0 {
        let gray = rnd(255 * h.v_num, h.v_den as int) as u8;
        Color { r: gray, g: gray, b: gray, a }
    } else {
        let hn = h.h_num as int;
        let vn = h.v_num as int;
        let vd = h.v_den as int;
        let sn = h.s_num as int;
        let sd = h.s_den as int;
        let wden = 60 * (h.h_den as int);
        let hm = hn % (2 * wden);
        let u = if hm >= wden { hm - wden } else { wden - hm };
        let chi = rnd(255 * vn, vd) as u8;
        let clo = rnd(255 * (vn * (sd - sn)), vd * sd) as u8;
        let cmid = rnd(255 * (vn * (sd * wden - sn * u)), vd * sd * wden) as u8;
        if hn <= wden {
            Color { r: chi, g: cmid, b: clo, a }
        } else if hn <= 2 * wden {
            Color { r: cmid, g: chi, b: clo, a }
        } else if hn <= 3 * wden {
            Color { r: clo, g: chi, b: cmid, a }
        } else if hn <= 4 * wden {
            Color { r: clo, g: cmid, b: chi, a }
        } else if hn <= 5 * wden {
            Color { r: cmid, g: clo, b: chi, a }
        } else {
            Color { r: chi, g: clo, b: cmid, a }
        }
    }
}

pub fn hsva_to_rgb(h: &HSVA) -> (c: Color)
    requires
        h.wf(),
    ensures
        c == spec_hsva_to_rgb(*h),
{
    let a64 = rnd_u64(255 * (h.a_num as u64), h.a_den as u64);
    proof {
        lemma_rnd_bounds(255 * (h.a_num as int), h.a_den as int, 0, 255);
    }
    let a = a64 as u8;
    if h.v_num == 0 {
        return Color { r: 0, g: 0, b: 0, a };
    }
    if h.s_num == 0 {
        let g64 = rnd_u64(255 * (h.v_num as u64), h.v_den as u64);
        proof {
            lemma_rnd_bounds(255 * (h.v_num as int), h.v_den as int, 0, 255);
        }
        let gray = g64 as u8;
        return Color { r: gray, g: gray, b: gray, a };
    }
    let hn = h.h_num as u64;
    let vn = h.v_num as u64;
    let vd = h.v_den as u64;
    let sn = h.s_num as u64;
    let sd = h.s_den as u64;
    let wden = 60 * (h.h_den as u64);
    let hm = hn % (2 * wden);
    let u = if hm >= wden { hm - wden } else { wden - hm };
    let chi64 = rnd_u64(255 * vn, vd);
    proof {
        lemma_rnd_bounds(255 * (vn as int), vd as int, 0, 255);
        assert(vn * (sd - sn) <= vd * sd && 1 <= vd * sd <= 255 * 255) by (nonlinear_arith)
            requires vn <= vd, sn <= sd, 1 <= vd <= 255, 1 <= sd <= 255;
        assert(255 * ((vn * (sd - sn)) as int) <= 255 * ((vd * sd) as int));
        lemma_rnd_bounds(255 * ((vn * (sd - sn)) as int), (vd * sd) as int, 0, 255);
    }
    let clo64 = rnd_u64(255 * (vn * (sd - sn)), vd * sd);
    proof {
        assert(sn * u <= sd * wden && sd * wden <= 255 * 15300) by (nonlinear_arith)
            requires sn <= sd, u <= wden, sd <= 255, wden <= 15300;
        assert(vn * (sd * wden - sn * u) <= vd * (sd * wden) && vd * (sd * wden) <= 255 * (255
            * 15300) && 1 <= vd * sd * wden && vd * sd * wden == vd * (sd * wden))
            by (nonlinear_arith)
            requires
                vn <= vd,
                sn * u <= sd * wden,
                1 <= vd <= 255,
                1 <= sd,
                60 <= wden,
                sd * wden <= 255 * 15300,
        ;
        assert(255 * ((vn * (sd * wden - sn * u)) as int) <= 255 * ((vd * sd * wden) as int));
        lemma_rnd_bounds(
            255 * ((vn * (sd * wden - sn * u)) as int),
            (vd * sd * wden) as int,
            0,
            255,
        );
    }
    let cmid64 = rnd_u64(255 * (vn * (sd * wden - sn * u)), vd * sd * wden);
    let chi = chi64 as u8;
    let clo = clo64 as u8;
    let cmid = cmid64 as u8;
    if hn <= wden {
        Color { r: chi, g: cmid, b: clo, a }
    } else if hn <= 2 * wden {
        Color { r: cmid, g: chi, b: clo, a }
    } else if hn <= 3 * wden {
        Color { r: clo, g: chi, b: cmid, a }
    } else if hn <= 4 * wden {
        Color { r: clo, g: cmid, b: chi, a }
    } else if hn <= 5 * wden {
        Color { r: cmid, g: clo, b: chi, a }
    } else {
        Color { r: chi, g: clo, b: cmid, a }
    }
}

/// Quantization into the palette encoding: zero alpha becomes the
/// transparent marker; otherwise hue is rounded to one of 30 steps with
/// wraparound, and saturation and value are rounded to 15 steps and
/// clamped to [0, 14] (full saturation or value is deliberately
/// unreachable).
pub open spec fn spec_hsva_to_quantized(h: HSVA) -> NHPaletteItem {
    if h.a_num == 0 {
        NHPaletteItem::Transparent
    } else {
        let hq = rnd(h.h_num as int, 12 * (h.h_den as int)) % 30;
        let sq0 = rnd(15 * (h.s_num as int), h.s_den as int);
        let sq = if sq0 <= 14 { sq0 } else { 14 };
        let vq0 = rnd(15 * (h.v_num as int), h.v_den as int);
        let vq = if vq0 <= 14 { vq0 } else { 14 };
        NHPaletteItem::Color(NHColor { h: hq as u8, s: sq as u8, v: vq as u8 })
    }
}

pub fn hsva_to_quantized(h: &HSVA) -> (item: NHPaletteItem)
    requires
        h.wf(),
    ensures
        item == spec_hsva_to_quantized(*h),
        item.wf(),
{
    if h.a_num == 0 {
        return NHPaletteItem::Transparent;
    }
    let hq64 = rnd_u64(h.h_num as u64, 12 * (h.h_den as u64));
    proof {
        lemma_rnd_bounds(h.h_num as int, 12 * (h.h_den as int), 0, 30);
        lemma_mod_range(rnd(h.h_num as int, 12 * (h.h_den as int)), 30);
    }
    let hq = (hq64 % 30) as u8;
    let sq64 = rnd_u64(15 * (h.s_num as u64), h.s_den as u64);
    proof {
        lemma_rnd_bounds(15 * (h.s_num as int), h.s_den as int, 0, 15);
    }
    let sq = if sq64 <= 14 { sq64 as u8 } else { 14 };
    let vq64 = rnd_u64(15 * (h.v_num as u64), h.v_den as u64);
    proof {
        lemma_rnd_bounds(15 * (h.v_num as int), h.v_den as int, 0, 15);
    }
    let vq = if vq64 <= 14 { vq64 as u8 } else { 14 };
    NHPaletteItem::Color(NHColor { h: hq, s: sq, v: vq })
}

/// A nonnegative value taken modulo a positive bound lands inside it.
proof fn lemma_mod_range(x: int, m: int)
    requires
        x >= 0,
        m >= 1,
    ensures
        0 <= x % m < m,
{
}

/// Decoding of a palette slot back to exact hue/saturation/value/alpha:
/// the transparent marker becomes all zeroes, and a quantized color
/// spreads its steps back over the full ranges with alpha 1.
pub open spec fn spec_quantized_to_hsva(item: NHPaletteItem) -> HSVA {
    match item {
        NHPaletteItem::Transparent => HSVA {
            h_num: 0,
            h_den: 1,
            s_num: 0,
            s_den: 1,
            v_num: 0,
            v_den: 1,
            a_num: 0,
            a_den: 1,
        },
        NHPaletteItem::Color(c) => HSVA {
            h_num: (12 * (c.h as int)) as u32,
            h_den: 1,
            s_num: c.s as u32,
            s_den: 15,
            v_num: c.v as u32,
            v_den: 15,
            a_num: 1,
            a_den: 1,
        },
    }
}

pub fn quantized_to_hsva(item: &NHPaletteItem) -> (h: HSVA)
    requires
        item.wf(),
    ensures
        h == spec_quantized_to_hsva(*item),
        h.wf(),
{
    match item {
        NHPaletteItem::Transparent => HSVA {
            h_num: 0,
            h_den: 1,
            s_num: 0,
            s_den: 1,
            v_num: 0,
            v_den: 1,
            a_num: 0,
            a_den: 1,
        },
        NHPaletteItem::Color(c) => HSVA {
            h_num: 12 * (c.h as u32),
            h_den: 1,
            s_num: c.s as u32,
            s_den: 15,
            v_num: c.v as u32,
            v_den: 15,
            a_num: 1,
            a_den: 1,
        },
    }
}

/// The composed conversion from a pixel to a palette slot, through
/// hue/saturation/value.
pub open spec fn spec_color_to_item(c: Color) -> NHPaletteItem {
    spec_hsva_to_quantized(spec_rgb_to_hsva(c))
}

pub fn color_to_item(c: &Color) -> (item: NHPaletteItem)
    ensures
        item == spec_color_to_item(*c),
        item.wf(),
{
    let h = rgb_to_hsva(c);
    hsva_to_quantized(&h)
}

/// The composed conversion from a palette slot back to a pixel, through
/// hue/saturation/value.
pub open spec fn spec_item_to_color(item: NHPaletteItem) -> Color {
    spec_hsva_to_rgb(spec_quantized_to_hsva(item))
}

pub fn item_to_color(item: &NHPaletteItem) -> (c: Color)
    requires
        item.wf(),
    ensures
        c == spec_item_to_color(*item),
{
    let h = quantized_to_hsva(item);
    hsva_to_rgb(&h)
}

/// Quantizing the decoding of a palette slot reproduces the slot exactly:
/// the quantized encoding is a fixed point of the decode/encode pair.
pub proof fn lemma_quantized_round_trip(item: NHPaletteItem)
    requires
        item.wf(),
    ensures
        spec_hsva_to_quantized(spec_quantized_to_hsva(item)) == item,
{
    match item {
        NHPaletteItem::Transparent => {
        }
        NHPaletteItem::Color(c) => {
            let h = spec_quantized_to_hsva(item);
            lemma_rnd_exact(h.h_num as int, 12, c.h as int);
            assert(rnd(h.h_num as int, 12 * (h.h_den as int)) % 30 == c.h as int);
            lemma_rnd_exact(15 * (h.s_num as int), 15, c.s as int);
            lemma_rnd_exact(15 * (h.v_num as int), 15, c.v as int);
        }
    }
}

/// Helper for the round-trip proof: once the distance `u` from the hue to
/// the middle of its 120-degree band is `60 * (cmax - mid)`, the middle
/// output channel rounds exactly to `mid`.
proof fn lemma_mid_channel(cmax: int, delta: int, u: int, mid: int)
    requires
        1 <= delta <= cmax <= 255,
        0 <= mid <= cmax,
        u == 60 * (cmax - mid),
    ensures
        rnd(255 * (cmax * (cmax * (60 * delta) - delta * u)), 255 * cmax * (60 * delta)) == mid,
{
    assert(255 * (cmax * (cmax * (60 * delta) - delta * u)) == mid * (255 * cmax * (60 * delta)))
        by (nonlinear_arith)
        requires u == 60 * (cmax - mid);
    assert(255 * cmax * (60 * delta) >= 1) by (nonlinear_arith)
        requires cmax >= 1, delta >= 1;
    lemma_rnd_exact(
        255 * (cmax * (cmax * (60 * delta) - delta * u)),
        255 * cmax * (60 * delta),
        mid,
    );
}

/// Converting a pixel to exact hue/saturation/value/alpha and back
/// reproduces every channel exactly: the integer-rational color model
/// loses nothing on this round trip.
pub proof fn lemma_rgb_round_trip(c: Color)
    ensures
        spec_hsva_to_rgb(spec_rgb_to_hsva(c)) == c,
{
    let h = spec_rgb_to_hsva(c);
    lemma_rnd_exact(255 * (c.a as int), 255, c.a as int);
    if c.r == c.g && c.g == c.b {
        if c.r != 0 {
            lemma_rnd_exact(255 * (c.r as int), 255, c.r as int);
        }
    } else {
        let r = c.r as int;
        let g = c.g as int;
        let b = c.b as int;
        let cmax = if r >= g && r >= b { r } else if g >= b { g } else { b };
        let cmin = if r <= g && r <= b { r } else if g <= b { g } else { b };
        let delta = cmax - cmin;
        let hn = h.h_num as int;
        let wden = 60 * delta;
        let hm = hn % (2 * wden);
        let u = if hm >= wden { hm - wden } else { wden - hm };
        assert(h.h_den == delta && h.s_num == delta && h.s_den == cmax && h.v_num == cmax);
        // chi rounds back to the maximum channel, clo to the minimum.
        lemma_rnd_exact(255 * cmax, 255, cmax);
        assert(255 * (cmax * (cmax - delta)) == cmin * (255 * cmax)) by (nonlinear_arith)
            requires delta == cmax - cmin;
        assert(255 * cmax >= 1) by (nonlinear_arith)
            requires cmax >= 1;
        lemma_rnd_exact(255 * (cmax * (cmax - delta)), 255 * cmax, cmin);
        if r >= g && r >= b {
            if g >= b {
                // Hue lies in the first sector; the middle channel is g.
                assert(hn == 60 * (g - b) && cmin == b);
                lemma_fundamental_div_mod_converse_mod(hn, 2 * wden, 0, hn);
                assert(u == 60 * (cmax - g));
                lemma_mid_channel(cmax, delta, u, g);
            } else {
                // Hue was normalized by a full turn; the middle channel is b.
                assert(hn == 360 * delta - 60 * (b - g) && cmin == g);
                lemma_fundamental_div_mod_converse_mod(hn, 2 * wden, 2, hn - 240 * delta);
                assert(hm == hn - 240 * delta && hm >= wden);
                assert(u == 60 * (cmax - b));
                lemma_mid_channel(cmax, delta, u, b);
            }
        } else if g >= r && g >= b {
            assert(hn == 60 * (b - r + 2 * delta));
            if b <= r {
                // Second sector; the middle channel is r.
                assert(cmin == b);
                if hn < 2 * wden {
                    lemma_fundamental_div_mod_converse_mod(hn, 2 * wden, 0, hn);
                } else {
                    assert(hn == 2 * wden);
                    lemma_fundamental_div_mod_converse_mod(hn, 2 * wden, 1, 0);
                }
                assert(u == 60 * (cmax - r));
                lemma_mid_channel(cmax, delta, u, r);
            } else {
                // Third sector; the middle channel is b.
                assert(cmin == r);
                lemma_fundamental_div_mod_converse_mod(hn, 2 * wden, 1, hn - 120 * delta);
                assert(u == 60 * (cmax - b));
                lemma_mid_channel(cmax, delta, u, b);
            }
        } else {
            assert(cmax == b && hn == 60 * (r - g + 4 * delta));
            if r <= g {
                // Fourth sector; the middle channel is g.
                assert(cmin == r);
                if hn < 4 * wden {
                    lemma_fundamental_div_mod_converse_mod(hn, 2 * wden, 1, hn - 120 * delta);
                } else {
                    assert(hn == 4 * wden);
                    lemma_fundamental_div_mod_converse_mod(hn, 2 * wden, 2, 0);
                }
                assert(u == 60 * (cmax - g));
                lemma_mid_channel(cmax, delta, u, g);
            } else {
                // Fifth sector; the middle channel is r.
                assert(cmin == g);
                lemma_fundamental_div_mod_converse_mod(hn, 2 * wden, 2, hn - 240 * delta);
                assert(u == 60 * (cmax - r));
                lemma_mid_channel(cmax, delta, u, r);
            }
        }
    }
}

} // verus!

