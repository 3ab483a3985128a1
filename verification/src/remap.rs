//! The remapper: assigns each pixel the index of its best palette match,
//! propagating quantization error to not-yet-visited neighbors or
//! perturbing pixels by a fixed threshold pattern, according to the chosen
//! dithering strategy.

use vstd::prelude::*;
use crate::color::Color;
use crate::error::Error;
use crate::quant::{nearest, nearest_idx};

verus! {

/// The closed set of dithering strategies.
#[derive(Clone, Copy, PartialEq, Eq, Structural, Debug)]
pub enum Ditherer {
    /// Direct nearest matching, no error propagation.
    NoDither,
    /// Floyd-Steinberg error diffusion, serpentine row order.
    FloydSteinberg,
    /// Floyd-Steinberg error diffusion, plain raster order.
    FloydSteinbergVanilla,
    /// Floyd-Steinberg error diffusion, serpentine order with the
    /// propagated error halved on alternating checkerboard cells.
    FloydSteinbergCheckered,
    /// Ordered dithering by a fixed 4x4 threshold pattern, no propagation.
    Ordered,
}

impl Ditherer {
    /// Select a strategy from its name; any name outside the closed set
    /// fails.
    pub fn from_name(name: &str) -> (r: Result<Ditherer, Error>)
        ensures
            r == (if name@ == "none"@ {
                Ok::<Ditherer, Error>(Ditherer::NoDither)
            } else if name@ == "floydsteinberg"@ {
                Ok::<Ditherer, Error>(Ditherer::FloydSteinberg)
            } else if name@ == "floydsteinbergvanilla"@ {
                Ok::<Ditherer, Error>(Ditherer::FloydSteinbergVanilla)
            } else if name@ == "floydsteinbergcheckered"@ {
                Ok::<Ditherer, Error>(Ditherer::FloydSteinbergCheckered)
            } else if name@ == "ordered"@ {
                Ok::<Ditherer, Error>(Ditherer::Ordered)
            } else {
                Err::<Ditherer, Error>(Error::UnknownStrategy)
            }),
    {
        let owned = name.to_owned();
        if owned == "none".to_owned() {
            Ok(Ditherer::NoDither)
        } else if owned == "floydsteinberg".to_owned() {
            Ok(Ditherer::FloydSteinberg)
        } else if owned == "floydsteinbergvanilla".to_owned() {
            Ok(Ditherer::FloydSteinbergVanilla)
        } else if owned == "floydsteinbergcheckered".to_owned() {
            Ok(Ditherer::FloydSteinbergCheckered)
        } else if owned == "ordered".to_owned() {
            Ok(Ditherer::Ordered)
        } else {
            Err(Error::UnknownStrategy)
        }
    }
}

/// A fully transparent pixel collapses to the canonical zero color before
/// matching; every other pixel matches as it is.
pub open spec fn spec_normalized(c: Color) -> Color {
    if c.a == 0 {
        Color::spec_zero()
    } else {
        c
    }
}

/// The 4x4 Bayer threshold matrix, indexed by column and row modulo 4.
pub open spec fn bayer(x: int, y: int) -> int {
    let xm = x % 4;
    let ym = y % 4;
    if ym == 0 {
        if xm == 0 { 0 } else if xm == 1 { 8 } else if xm == 2 { 2 } else { 10 }
    } else if ym == 1 {
        if xm == 0 { 12 } else if xm == 1 { 4 } else if xm == 2 { 14 } else { 6 }
    } else if ym == 2 {
        if xm == 0 { 3 } else if xm == 1 { 11 } else if xm == 2 { 1 } else { 9 }
    } else {
        if xm == 0 { 15 } else if xm == 1 { 7 } else if xm == 2 { 13 } else { 5 }
    }
}

/// An integer clamped into the 8-bit channel range.
pub open spec fn spec_clamp(v: int) -> u8 {
    if v < 0 {
        0
    } else if v > 255 {
        255
    } else {
        v as u8
    }
}

fn clamp_channel(v: i32) -> (r: u8)
    ensures
        r == spec_clamp(v as int),
{
    if v < 0 {
        0
    } else if v > 255 {
        255
    } else {
        v as u8
    }
}

/// The pixel an ordered ditherer matches at column `x`, row `y`: the color
/// channels shifted by the threshold pattern, alpha untouched; fully
/// transparent pixels are never perturbed.
pub open spec fn spec_ordered_pixel(c: Color, x: int, y: int) -> Color {
    if c.a == 0 {
        Color::spec_zero()
    } else {
        let d = 2 * bayer(x, y) - 15;
        Color {
            r: spec_clamp(c.r + d),
            g: spec_clamp(c.g + d),
            b: spec_clamp(c.b + d),
            a: c.a,
        }
    }
}

fn bayer_at(x: usize, y: usize) -> (v: i32)
    ensures
        v == bayer(x as int, y as int),
{
    let xm = x % 4;
    let ym = y % 4;
    if ym == 0 {
        if xm == 0 { 0 } else if xm == 1 { 8 } else if xm == 2 { 2 } else { 10 }
    } else if ym == 1 {
        if xm == 0 { 12 } else if xm == 1 { 4 } else if xm == 2 { 14 } else { 6 }
    } else if ym == 2 {
        if xm == 0 { 3 } else if xm == 1 { 11 } else if xm == 2 { 1 } else { 9 }
    } else {
        if xm == 0 { 15 } else if xm == 1 { 7 } else if xm == 2 { 13 } else { 5 }
    }
}

/// Remap without dithering: every pixel goes to its nearest palette entry.
fn remap_none(pal: &Vec<Color>, image: &Vec<Color>) -> (out: Vec<u8>)
    requires
        1 <= pal@.len() <= 256,
    ensures
        out@.len() == image@.len(),
        forall|i: int|
            0 <= i < image@.len() ==> out@[i] == nearest_idx(pal@, spec_normalized(image@[i])),
        forall|i: int| 0 <= i < image@.len() ==> out@[i] < pal@.len(),
{
    let mut out: Vec<u8> = Vec::new();
    let mut i: usize = 0;
    while i < image.len()
        invariant
            1 <= pal@.len() <= 256,
            i <= image@.len(),
            out@.len() == i,
            forall|k: int| 0 <= k < i ==> out@[k] == nearest_idx(pal@, spec_normalized(image@[k])),
            forall|k: int| 0 <= k < i ==> out@[k] < pal@.len(),
        decreases image@.len() - i,
    {
        let p = image[i];
        let target = if p.a == 0 {
            Color::zero()
        } else {
            p
        };
        let j = nearest(pal, &target);
        out.push(j as u8);
        i += 1;
    }
    out
}

/// Remap with ordered dithering: every pixel is perturbed by the threshold
/// pattern at its coordinates, then matched; no error propagates.
fn remap_ordered(pal: &Vec<Color>, image: &Vec<Color>, width: usize) -> (out: Vec<u8>)
    requires
        1 <= pal@.len() <= 256,
        image@.len() > 0 ==> width >= 1,
    ensures
        out@.len() == image@.len(),
        forall|i: int|
            0 <= i < image@.len() ==> out@[i] == nearest_idx(
                pal@,
                spec_ordered_pixel(image@[i], i % (width as int), i / (width as int)),
            ),
        forall|i: int| 0 <= i < image@.len() ==> out@[i] < pal@.len(),
{
    let mut out: Vec<u8> = Vec::new();
    let mut i: usize = 0;
    while i < image.len()
        invariant
            1 <= pal@.len() <= 256,
            i <= image@.len(),
            image@.len() > 0 ==> width >= 1,
            out@.len() == i,
            forall|k: int|
                0 <= k < i ==> out@[k] == nearest_idx(
                    pal@,
                    spec_ordered_pixel(image@[k], k % (width as int), k / (width as int)),
                ),
            forall|k: int| 0 <= k < i ==> out@[k] < pal@.len(),
        decreases image@.len() - i,
    {
        let p = image[i];
        let x = i % width;
        let y = i / width;
        let target = if p.a == 0 {
            Color::zero()
        } else {
            let d = 2 * bayer_at(x, y) - 15;
            Color {
                r: clamp_channel(p.r as i32 + d),
                g: clamp_channel(p.g as i32 + d),
                b: clamp_channel(p.b as i32 + d),
                a: p.a,
            }
        };
        let j = nearest(pal, &target);
        out.push(j as u8);
        i += 1;
    }
    out
}

/// One cell of the error-diffusion buffer. Every component stays within
/// [-1020, 1020]: each write clamps, so the buffer can never overflow the
/// arithmetic below.
#[derive(Clone, Copy, PartialEq, Eq, Structural, Debug)]
pub struct ErrCell {
    pub r: i32,
    pub g: i32,
    pub b: i32,
    pub a: i32,
}

pub open spec fn cell_ok(c: ErrCell) -> bool {
    &&& -1020 <= c.r <= 1020
    &&& -1020 <= c.g <= 1020
    &&& -1020 <= c.b <= 1020
    &&& -1020 <= c.a <= 1020
}

fn err_zeros(n: usize) -> (v: Vec<ErrCell>)
    ensures
        v@.len() == n,
        forall|k: int| 0 <= k < n ==> v@[k] == (ErrCell { r: 0, g: 0, b: 0, a: 0 }),
        forall|k: int| 0 <= k < n ==> cell_ok(#[trigger] v@[k]),
{
    let mut v: Vec<ErrCell> = Vec::new();
    let mut i: usize = 0;
    while i < n
        invariant
            i <= n,
            v@.len() == i,
            forall|k: int| 0 <= k < i ==> v@[k] == (ErrCell { r: 0, g: 0, b: 0, a: 0 }),
        decreases n - i,
    {
        v.push(ErrCell { r: 0, g: 0, b: 0, a: 0 });
        i += 1;
    }
    v
}

fn byte_zeros(n: usize) -> (v: Vec<u8>)
    ensures
        v@.len() == n,
        forall|k: int| 0 <= k < n ==> v@[k] == 0,
{
    let mut v: Vec<u8> = Vec::new();
    let mut i: usize = 0;
    while i < n
        invariant
            i <= n,
            v@.len() == i,
            forall|k: int| 0 <= k < i ==> v@[k] == 0,
        decreases n - i,
    {
        v.push(0);
        i += 1;
    }
    v
}

/// An error component clamped into the buffer's range.
pub open spec fn spec_clamp_err(v: int) -> int {
    if v < -1020 {
        -1020
    } else if v > 1020 {
        1020
    } else {
        v
    }
}

fn clamp_err(v: i32) -> (r: i32)
    ensures
        r == spec_clamp_err(v as int),
        -1020 <= r <= 1020,
{
    if v < -1020 {
        -1020
    } else if v > 1020 {
        1020
    } else {
        v
    }
}

/// The share of an error component a neighbor receives: `e * num / den`,
/// rounded toward zero.
pub open spec fn spec_diffuse(e: int, num: int, den: int) -> int {
    let m = if e < 0 {
        -e
    } else {
        e
    };
    let d = (m * num) / den;
    if e < 0 {
        -d
    } else {
        d
    }
}

fn diffuse(e: i32, num: i32, den: i32) -> (r: i32)
    requires
        -255 <= e <= 255,
        1 <= num <= 7,
        den == 16 || den == 32,
    ensures
        r == spec_diffuse(e as int, num as int, den as int),
        -255 <= r <= 255,
{
    let m = if e < 0 {
        -e
    } else {
        e
    };
    proof {
        assert(0 <= m * num <= 255 * 7) by (nonlinear_arith)
            requires 0 <= m <= 255, 1 <= num <= 7;
        vstd::arithmetic::div_mod::lemma_div_is_ordered(m * num, (255 * 7) as int, den as int);
        vstd::arithmetic::div_mod::lemma_div_pos_is_pos(m * num, den as int);
    }
    let d = (m * num) / den;
    if e < 0 {
        -d
    } else {
        d
    }
}

/// One buffer cell after a diffused error lands on it, each component
/// clamped.
pub open spec fn spec_add_err(
    err: Seq<ErrCell>,
    i: int,
    dr: int,
    dg: int,
    db: int,
    da: int,
) -> Seq<ErrCell> {
    let c = err[i];
    err.update(
        i,
        ErrCell {
            r: spec_clamp_err(c.r + dr) as i32,
            g: spec_clamp_err(c.g + dg) as i32,
            b: spec_clamp_err(c.b + db) as i32,
            a: spec_clamp_err(c.a + da) as i32,
        },
    )
}

/// Add a diffused error to one buffer cell, clamping each component.
fn add_err(err: &mut Vec<ErrCell>, i: usize, dr: i32, dg: i32, db: i32, da: i32)
    requires
        i < old(err)@.len(),
        forall|k: int| 0 <= k < old(err)@.len() ==> cell_ok(#[trigger] old(err)@[k]),
        -255 <= dr <= 255,
        -255 <= dg <= 255,
        -255 <= db <= 255,
        -255 <= da <= 255,
    ensures
        final(err)@ == spec_add_err(old(err)@, i as int, dr as int, dg as int, db as int, da as int),
        final(err)@.len() == old(err)@.len(),
        forall|k: int| 0 <= k < final(err)@.len() ==> cell_ok(#[trigger] final(err)@[k]),
{
    let c = err[i];
    err[i] = ErrCell {
        r: clamp_err(c.r + dr),
        g: clamp_err(c.g + dg),
        b: clamp_err(c.b + db),
        a: clamp_err(c.a + da),
    };
}

/// Which pixels a Floyd-Steinberg pass over rows `0..y` plus `xi` steps
/// into row `y` has already matched, with row `y` walked backwards when
/// `rev` holds.
pub open spec fn fs_done(k: int, y: int, xi: int, w: int, rev: bool) -> bool {
    k < y * w || (if rev {
        y * w + (w - xi) <= k < y * w + w
    } else {
        y * w <= k < y * w + xi
    })
}

/// The whole state of a Floyd-Steinberg pass: the indices written so far
/// and the error-diffusion buffer.
pub struct FsState {
    pub out: Seq<u8>,
    pub err: Seq<ErrCell>,
}

/// One conditional spread: when `cond` holds, the four diffused error
/// shares land on cell `i`; otherwise the buffer is untouched.
pub open spec fn spread_one(
    err: Seq<ErrCell>,
    cond: bool,
    i: int,
    er: int,
    eg: int,
    eb: int,
    ea: int,
    num: int,
    den: int,
) -> Seq<ErrCell> {
    if cond {
        spec_add_err(
            err,
            i,
            spec_diffuse(er, num, den),
            spec_diffuse(eg, num, den),
            spec_diffuse(eb, num, den),
            spec_diffuse(ea, num, den),
        )
    } else {
        err
    }
}

/// One Floyd-Steinberg step: match the pixel `xi` steps into row `y` (the
/// row walked backwards when serpentine and `y` is odd) and spread its
/// quantization error to the forward neighbor (7/16) and the three
/// neighbors below (3/16, 5/16, 1/16, mirrored on backward rows), each
/// weight halved on odd checkerboard cells when `checkered` holds. A fully
/// transparent pixel matches as the canonical zero color, reads no
/// accumulated error, and propagates none.
pub open spec fn fs_step(
    pal: Seq<Color>,
    image: Seq<Color>,
    w: int,
    h: int,
    serpentine: bool,
    checkered: bool,
    st: FsState,
    y: int,
    xi: int,
) -> FsState {
    let rev = serpentine && y % 2 == 1;
    let x = if rev {
        w - 1 - xi
    } else {
        xi
    };
    let idx = y * w + x;
    let p = image[idx];
    if p.a == 0 {
        FsState { out: st.out.update(idx, nearest_idx(pal, Color::spec_zero()) as u8), err: st.err }
    } else {
        let cell = st.err[idx];
        let adj = Color {
            r: spec_clamp(p.r + cell.r),
            g: spec_clamp(p.g + cell.g),
            b: spec_clamp(p.b + cell.b),
            a: spec_clamp(p.a + cell.a),
        };
        let j = nearest_idx(pal, adj);
        let er = adj.r - pal[j].r;
        let eg = adj.g - pal[j].g;
        let eb = adj.b - pal[j].b;
        let ea = adj.a - pal[j].a;
        let den = if checkered && (x + y) % 2 == 1 {
            32
        } else {
            16
        };
        let fwd_cond = if rev {
            x >= 1
        } else {
            x + 1 < w
        };
        let fwd_idx = if rev {
            idx - 1
        } else {
            idx + 1
        };
        let err1 = spread_one(st.err, fwd_cond, fwd_idx, er, eg, eb, ea, 7, den);
        let err2 = spread_one(err1, y + 1 < h, idx + w, er, eg, eb, ea, 5, den);
        let wback = if rev {
            1
        } else {
            3
        };
        let err3 = spread_one(err2, y + 1 < h && x >= 1, idx + w - 1, er, eg, eb, ea, wback, den);
        let wfwd = if rev {
            3
        } else {
            1
        };
        let err4 = spread_one(err3, y + 1 < h && x + 1 < w, idx + w + 1, er, eg, eb, ea, wfwd, den);
        FsState { out: st.out.update(idx, j as u8), err: err4 }
    }
}

/// The state of a Floyd-Steinberg pass after its first `k` steps, starting
/// from zeroed output and error buffers of `h * w` entries.
pub open spec fn fs_pass(
    pal: Seq<Color>,
    image: Seq<Color>,
    w: int,
    h: int,
    serpentine: bool,
    checkered: bool,
    k: nat,
) -> FsState
    decreases k,
{
    if k == 0 {
        FsState {
            out: Seq::new((h * w) as nat, |i: int| 0u8),
            err: Seq::new((h * w) as nat, |i: int| ErrCell { r: 0, g: 0, b: 0, a: 0 }),
        }
    } else {
        let prev = fs_pass(pal, image, w, h, serpentine, checkered, (k - 1) as nat);
        fs_step(pal, image, w, h, serpentine, checkered, prev, (k - 1) as int / w, (k - 1) as int
            % w)
    }
}

/// The indexed output of a whole Floyd-Steinberg pass over the image: the
/// dithered remap is a function of the palette, the image, its width and
/// the strategy alone.
pub open spec fn spec_fs_output(
    pal: Seq<Color>,
    image: Seq<Color>,
    w: int,
    serpentine: bool,
    checkered: bool,
) -> Seq<u8> {
    fs_pass(pal, image, w, image.len() as int / w, serpentine, checkered, image.len()).out
}

/// The buffer index a Floyd-Steinberg pass visits `xi` steps into row
/// `y`: serpentine traversal walks odd rows backwards.
pub open spec fn fs_pos(w: int, serpentine: bool, y: int, xi: int) -> int {
    let rev = serpentine && y % 2 == 1;
    y * w + (if rev {
        w - 1 - xi
    } else {
        xi
    })
}

/// Perform one Floyd-Steinberg step on the output and error buffers:
/// exactly `fs_step` of the buffers' current state. Only the visited
/// position's output byte changes, and a fully transparent pixel there
/// receives the transparent match `t`.
#[verifier::rlimit(100)]
#[verifier::spinoff_prover]
fn fs_do_step(
    pal: &Vec<Color>,
    image: &Vec<Color>,
    w: usize,
    h: usize,
    serpentine: bool,
    checkered: bool,
    y: usize,
    xi: usize,
    t: usize,
    out: &mut Vec<u8>,
    err: &mut Vec<ErrCell>,
)
    requires
        1 <= pal@.len() <= 256,
        1 <= w,
        y < h,
        xi < w,
        image@.len() == (h as int) * (w as int),
        old(out)@.len() == image@.len(),
        old(err)@.len() == image@.len(),
        forall|k: int| 0 <= k < old(err)@.len() ==> cell_ok(#[trigger] old(err)@[k]),
        forall|k: int| 0 <= k < old(out)@.len() ==> old(out)@[k] < pal@.len(),
        t == nearest_idx(pal@, Color::spec_zero()),
        t < pal@.len(),
    ensures
        final(out)@ == fs_step(
            pal@,
            image@,
            w as int,
            h as int,
            serpentine,
            checkered,
            FsState { out: old(out)@, err: old(err)@ },
            y as int,
            xi as int,
        ).out,
        final(err)@ == fs_step(
            pal@,
            image@,
            w as int,
            h as int,
            serpentine,
            checkered,
            FsState { out: old(out)@, err: old(err)@ },
            y as int,
            xi as int,
        ).err,
        final(out)@.len() == old(out)@.len(),
        final(err)@.len() == old(err)@.len(),
        forall|k: int| 0 <= k < final(err)@.len() ==> cell_ok(#[trigger] final(err)@[k]),
        forall|k: int| 0 <= k < final(out)@.len() ==> final(out)@[k] < pal@.len(),
        forall|k: int|
            0 <= k < final(out)@.len() && k != fs_pos(w as int, serpentine, y as int, xi as int)
                ==> final(out)@[k] == old(out)@[k],
        image@[fs_pos(w as int, serpentine, y as int, xi as int)].a == 0 ==> final(out)@[fs_pos(
            w as int,
            serpentine,
            y as int,
            xi as int,
        )] == t,
{
    let n = image.len();
    let ghost st0 = FsState { out: old(out)@, err: old(err)@ };
    let rev = serpentine && y % 2 == 1;
    let x = if rev {
        w - 1 - xi
    } else {
        xi
    };
    proof {
        assert((y as int) * (w as int) + (w as int) - 1 < n && ((y as int) + 1) * (w as int) == (
        y as int) * (w as int) + (w as int) && (x as int) + (y as int) < n) by (nonlinear_arith)
            requires
                0 <= y < h,
                0 <= x < w,
                n == (h as int) * (w as int),
        ;
        if y + 1 < h {
            assert(((y as int) + 1) * (w as int) + (w as int) - 1 < n) by (nonlinear_arith)
                requires
                    0 <= y,
                    y + 1 < h,
                    1 <= w,
                    n == (h as int) * (w as int),
            ;
        }
    }
    let idx = y * w + x;
    let p = image[idx];
    if p.a == 0 {
        out[idx] = t as u8;
    } else {
        let cell = err[idx];
        let adj = Color {
            r: clamp_channel(p.r as i32 + cell.r),
            g: clamp_channel(p.g as i32 + cell.g),
            b: clamp_channel(p.b as i32 + cell.b),
            a: clamp_channel(p.a as i32 + cell.a),
        };
        let j = nearest(pal, &adj);
        out[idx] = j as u8;
        let pc = pal[j];
        let er = adj.r as i32 - pc.r as i32;
        let eg = adj.g as i32 - pc.g as i32;
        let eb = adj.b as i32 - pc.b as i32;
        let ea = adj.a as i32 - pc.a as i32;
        let den: i32 = if checkered && (x + y) % 2 == 1 {
            32
        } else {
            16
        };
        proof {
            // the exec values match the step function's intermediates
            let cellg = st0.err[idx as int];
            assert(cell == cellg);
            let adjg = Color {
                r: spec_clamp(p.r + cellg.r),
                g: spec_clamp(p.g + cellg.g),
                b: spec_clamp(p.b + cellg.b),
                a: spec_clamp(p.a + cellg.a),
            };
            assert(adj == adjg);
            assert(j == nearest_idx(pal@, adjg));
            assert(er == adjg.r - pal@[j as int].r);
            assert(eg == adjg.g - pal@[j as int].g);
            assert(eb == adjg.b - pal@[j as int].b);
            assert(ea == adjg.a - pal@[j as int].a);
            assert(den as int == (if checkered && ((x as int) + (y as int)) % 2 == 1 {
                32int
            } else {
                16int
            }));
        }
        let ghost e0 = err@;
        if rev {
            if x >= 1 {
                add_err(
                    err,
                    idx - 1,
                    diffuse(er, 7, den),
                    diffuse(eg, 7, den),
                    diffuse(eb, 7, den),
                    diffuse(ea, 7, den),
                );
            }
        } else {
            if x + 1 < w {
                add_err(
                    err,
                    idx + 1,
                    diffuse(er, 7, den),
                    diffuse(eg, 7, den),
                    diffuse(eb, 7, den),
                    diffuse(ea, 7, den),
                );
            }
        }
        proof {
            assert(err@ == spread_one(
                e0,
                if rev {
                    x >= 1
                } else {
                    x + 1 < w
                },
                if rev {
                    idx - 1
                } else {
                    idx + 1
                },
                er as int,
                eg as int,
                eb as int,
                ea as int,
                7,
                den as int,
            ));
        }
        let ghost e1 = err@;
        if y + 1 < h {
            add_err(
                err,
                idx + w,
                diffuse(er, 5, den),
                diffuse(eg, 5, den),
                diffuse(eb, 5, den),
                diffuse(ea, 5, den),
            );
        }
        proof {
            assert(err@ == spread_one(
                e1,
                y + 1 < h,
                idx + w,
                er as int,
                eg as int,
                eb as int,
                ea as int,
                5,
                den as int,
            ));
        }
        let ghost e2 = err@;
        let wback: i32 = if rev {
            1
        } else {
            3
        };
        if y + 1 < h && x >= 1 {
            add_err(
                err,
                idx + w - 1,
                diffuse(er, wback, den),
                diffuse(eg, wback, den),
                diffuse(eb, wback, den),
                diffuse(ea, wback, den),
            );
        }
        proof {
            assert(err@ == spread_one(
                e2,
                y + 1 < h && x >= 1,
                idx + w - 1,
                er as int,
                eg as int,
                eb as int,
                ea as int,
                wback as int,
                den as int,
            ));
        }
        let ghost e3 = err@;
        let wfwd: i32 = if rev {
            3
        } else {
            1
        };
        if y + 1 < h && x + 1 < w {
            add_err(
                err,
                idx + w + 1,
                diffuse(er, wfwd, den),
                diffuse(eg, wfwd, den),
                diffuse(eb, wfwd, den),
                diffuse(ea, wfwd, den),
            );
        }
        proof {
            assert(err@ == spread_one(
                e3,
                y + 1 < h && x + 1 < w,
                idx + w + 1,
                er as int,
                eg as int,
                eb as int,
                ea as int,
                wfwd as int,
                den as int,
            ));
        }
    }
    proof {
        let stepped = fs_step(
            pal@,
            image@,
            w as int,
            h as int,
            serpentine,
            checkered,
            st0,
            y as int,
            xi as int,
        );
        assert(out@ == stepped.out);
        assert(err@ == stepped.err);
    }
}

/// Remap with Floyd-Steinberg error diffusion. The quantization error of
/// each matched pixel spreads to its not-yet-visited neighbors with the
/// fixed weights 7/16, 3/16, 5/16, 1/16; rows alternate direction when
/// `serpentine` holds, and the spread halves on odd checkerboard cells
/// when `checkered` holds. Fully transparent pixels are matched as the
/// canonical zero color, untouched by accumulated error, and propagate
/// none. The whole pass computes `spec_fs_output`: a pure function of the
/// palette, the image, its width and the strategy.
fn remap_fs(
    pal: &Vec<Color>,
    image: &Vec<Color>,
    width: usize,
    serpentine: bool,
    checkered: bool,
) -> (out: Vec<u8>)
    requires
        1 <= pal@.len() <= 256,
        image@.len() > 0 ==> width >= 1,
        width >= 1 ==> (image@.len() as int) % (width as int) == 0,
    ensures
        out@.len() == image@.len(),
        forall|i: int| 0 <= i < image@.len() ==> out@[i] < pal@.len(),
        forall|i: int|
            0 <= i < image@.len() && image@[i].a == 0 ==> out@[i] == nearest_idx(
                pal@,
                Color::spec_zero(),
            ),
        out@ == spec_fs_output(pal@, image@, width as int, serpentine, checkered),
{
    let n = image.len();
    if n == 0 {
        proof {
            let hw = (image@.len() as int / (width as int)) * (width as int);
            assert(hw == 0) by (nonlinear_arith)
                requires
                    image@.len() == 0,
                    hw == (image@.len() as int / (width as int)) * (width as int),
            ;
            assert(spec_fs_output(pal@, image@, width as int, serpentine, checkered)
                =~= Seq::<u8>::empty());
        }
        return Vec::new();
    }
    let w = width;
    let h = n / w;
    proof {
        assert((n as int) % (w as int) == 0);
        vstd::arithmetic::div_mod::lemma_fundamental_div_mod(n as int, w as int);
        assert(n == (w as int) * ((n as int) / (w as int)));
        assert(n == (h as int) * (w as int)) by (nonlinear_arith)
            requires
                n == (w as int) * ((n as int) / (w as int)),
                (h as int) == (n as int) / (w as int),
        ;
    }
    let zero = Color::zero();
    let t = nearest(pal, &zero);
    let ghost tz = nearest_idx(pal@, Color::spec_zero());
    let mut out = byte_zeros(n);
    let mut err = err_zeros(n);
    proof {
        assert(out@ =~= fs_pass(pal@, image@, w as int, h as int, serpentine, checkered, 0).out);
        assert(err@ =~= fs_pass(pal@, image@, w as int, h as int, serpentine, checkered, 0).err);
    }
    let mut y: usize = 0;
    while y < h
        invariant
            1 <= pal@.len() <= 256,
            1 <= w,
            n == image@.len(),
            n == (h as int) * (w as int),
            y <= h,
            t == tz,
            tz == nearest_idx(pal@, Color::spec_zero()),
            t < pal@.len(),
            out@.len() == n,
            err@.len() == n,
            forall|k: int| 0 <= k < n ==> cell_ok(#[trigger] err@[k]),
            forall|k: int| 0 <= k < n ==> out@[k] < pal@.len(),
            forall|k: int|
                0 <= k < n && (#[trigger] image@[k]).a == 0 && k < (y as int) * (w as int)
                    ==> out@[k] == tz,
            out@ == fs_pass(
                pal@,
                image@,
                w as int,
                h as int,
                serpentine,
                checkered,
                ((y as int) * (w as int)) as nat,
            ).out,
            err@ == fs_pass(
                pal@,
                image@,
                w as int,
                h as int,
                serpentine,
                checkered,
                ((y as int) * (w as int)) as nat,
            ).err,
        decreases h - y,
    {
        let ghost rev = serpentine && (y as int) % 2 == 1;
        let mut xi: usize = 0;
        while xi < w
            invariant
                1 <= pal@.len() <= 256,
                1 <= w,
                n == image@.len(),
                n == (h as int) * (w as int),
                y < h,
                xi <= w,
                t == tz,
                tz == nearest_idx(pal@, Color::spec_zero()),
                t < pal@.len(),
                out@.len() == n,
                err@.len() == n,
                rev == (serpentine && (y as int) % 2 == 1),
                forall|k: int| 0 <= k < n ==> cell_ok(#[trigger] err@[k]),
                forall|k: int| 0 <= k < n ==> out@[k] < pal@.len(),
                forall|k: int|
                    0 <= k < n && (#[trigger] image@[k]).a == 0 && fs_done(
                        k,
                        y as int,
                        xi as int,
                        w as int,
                        rev,
                    ) ==> out@[k] == tz,
                out@ == fs_pass(
                    pal@,
                    image@,
                    w as int,
                    h as int,
                    serpentine,
                    checkered,
                    ((y as int) * (w as int) + xi) as nat,
                ).out,
                err@ == fs_pass(
                    pal@,
                    image@,
                    w as int,
                    h as int,
                    serpentine,
                    checkered,
                    ((y as int) * (w as int) + xi) as nat,
                ).err,
            decreases w - xi,
        {
            let ghost stepk = (y as int) * (w as int) + xi;
            fs_do_step(pal, image, w, h, serpentine, checkered, y, xi, t, &mut out, &mut err);
            proof {
                vstd::arithmetic::div_mod::lemma_fundamental_div_mod_converse(
                    stepk,
                    w as int,
                    y as int,
                    xi as int,
                );
                assert(fs_pos(w as int, serpentine, y as int, xi as int) == (y as int) * (
                w as int) + (if rev {
                    (w as int) - 1 - (xi as int)
                } else {
                    xi as int
                }));
            }
            xi += 1;
        }
        proof {
            assert(((y as int) + 1) * (w as int) == (y as int) * (w as int) + (w as int))
                by (nonlinear_arith);
        }
        y += 1;
    }
    proof {
        assert forall|k: int| 0 <= k < n && (#[trigger] image@[k]).a == 0 implies out@[k] == tz by {
            assert(k < (y as int) * (w as int)) by (nonlinear_arith)
                requires 0 <= k < n, n == (y as int) * (w as int);
        }
    }
    out
}

/// Remap a pixel buffer against a palette of raw colors under the chosen
/// dithering strategy. The output is one palette index per pixel, in
/// raster order. A fully transparent pixel always matches as the canonical
/// zero color, untouched by any dithering state.
pub fn remap(pal: &Vec<Color>, image: &Vec<Color>, width: usize, ditherer: Ditherer) -> (out: Vec<
    u8,
>)
    requires
        1 <= pal@.len() <= 256,
        image@.len() > 0 ==> width >= 1,
        width >= 1 ==> (image@.len() as int) % (width as int) == 0,
    ensures
        out@.len() == image@.len(),
        forall|i: int| 0 <= i < image@.len() ==> out@[i] < pal@.len(),
        forall|i: int|
            0 <= i < image@.len() && image@[i].a == 0 ==> out@[i] == nearest_idx(
                pal@,
                Color::spec_zero(),
            ),
        ditherer == Ditherer::NoDither ==> forall|i: int|
            0 <= i < image@.len() ==> out@[i] == nearest_idx(pal@, spec_normalized(image@[i])),
        ditherer == Ditherer::Ordered ==> forall|i: int|
            0 <= i < image@.len() ==> out@[i] == nearest_idx(
                pal@,
                spec_ordered_pixel(image@[i], i % (width as int), i / (width as int)),
            ),
        ditherer == Ditherer::FloydSteinberg ==> out@ == spec_fs_output(
            pal@,
            image@,
            width as int,
            true,
            false,
        ),
        ditherer == Ditherer::FloydSteinbergVanilla ==> out@ == spec_fs_output(
            pal@,
            image@,
            width as int,
            false,
            false,
        ),
        ditherer == Ditherer::FloydSteinbergCheckered ==> out@ == spec_fs_output(
            pal@,
            image@,
            width as int,
            true,
            true,
        ),
{
    match ditherer {
        Ditherer::NoDither => remap_none(pal, image),
        Ditherer::Ordered => remap_ordered(pal, image, width),
        Ditherer::FloydSteinberg => remap_fs(pal, image, width, true, false),
        Ditherer::FloydSteinbergVanilla => remap_fs(pal, image, width, false, false),
        Ditherer::FloydSteinbergCheckered => remap_fs(pal, image, width, true, true),
    }
}

} // verus!
