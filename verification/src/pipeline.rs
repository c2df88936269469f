//! Per-pixel processing: strict unmixing against a fixed palette, and
//! non-strict alpha minimization with exact reconstruction.

use vstd::prelude::*;

use crate::color::{denorm_channel, norm_color, normalize_color, Color, NormalizedColor};
use crate::fixed::UNIT;
use crate::raster::Rgba;
use crate::unmix::{
    all_wf, close_to_single, compute_result_color, is_color_close_to_foreground,
    optimized_outcome_ok, result_color_spec, single_weight, sum_weights, unmix_colors,
    weighted_sum, UnmixResult, DEFAULT_COLOR_CLOSENESS_THRESHOLD, MAX_FOREGROUNDS,
};

verus! {

/// The reconstruction defect of `(fg8, alpha)` against observation `o8`
/// over background `b8`, one channel, scaled by `400 * UNIT`:
/// `alpha * fg + (1 - alpha) * bg - obs` with `alpha` in fixed point and
/// the colors as 8-bit values.
pub open spec fn recon8_defect(f8: int, a: int, b8: int, o8: int) -> int {
    a * 400 * f8 + (UNIT as int - a) * 400 * b8 - 400 * o8 * (UNIT as int)
}

/// One channel reconstructs within half an 8-bit step at opacity `a`.
pub open spec fn recon8_channel_ok(f8: int, a: int, b8: int, o8: int) -> bool {
    -200 * a <= recon8_defect(f8, a, b8, o8) <= 200 * a
}

/// The color `fg` at fixed-point opacity `a` reconstructs `obs` over `bg`
/// within half an 8-bit step per channel.
pub open spec fn recon8_close(fg: Color, a: int, bg: Color, obs: Color) -> bool {
    &&& recon8_channel_ok(fg.r as int, a, bg.r as int, obs.r as int)
    &&& recon8_channel_ok(fg.g as int, a, bg.g as int, obs.g as int)
    &&& recon8_channel_ok(fg.b as int, a, bg.b as int, obs.b as int)
}

/// Compositing the 8-bit output over the background reproduces the
/// observed pixel within one 8-bit unit per channel (the inequality is
/// stated multiplied through by 255).
pub open spec fn composite_close(out: Rgba, bg: Color, obs: Color) -> bool {
    &&& -255 <= out.a * out.r + (255 - out.a) * bg.r - 255 * obs.r <= 255
    &&& -255 <= out.a * out.g + (255 - out.a) * bg.g - 255 * obs.g <= 255
    &&& -255 <= out.a * out.b + (255 - out.a) * bg.b - 255 * obs.b <= 255
}

/// A fixed-point alpha rounded to the nearest 8-bit value.
pub open spec fn alpha_to_u8(a: int) -> int {
    (a + 200) / 400
}

fn alpha_to_u8_exec(a: i64) -> (r: u8)
    requires
        0 <= a <= UNIT,
    ensures
        r == alpha_to_u8(a as int),
{
    ((a + 200) / 400) as u8
}

/// One channel of the quantization argument: rounding the foreground to
/// 8 bits and the opacity to `1/255` steps keeps the composite within one
/// unit of the observation.
proof fn lemma_composite_channel(f8: int, a: int, b8: int, o8: int)
    requires
        0 <= f8 <= 255,
        0 <= b8 <= 255,
        0 <= o8 <= 255,
        0 <= a <= UNIT,
        recon8_channel_ok(f8, a, b8, o8),
    ensures
        -255 <= alpha_to_u8(a) * f8 + (255 - alpha_to_u8(a)) * b8 - 255 * o8 <= 255,
{
    let a8 = alpha_to_u8(a);
    let u = 400 * a8 - a;
    vstd::arithmetic::div_mod::lemma_fundamental_div_mod(a + 200, 400);
    assert(0 <= a8 <= 255);
    assert(-199 <= u <= 200);
    let e = a8 * f8 + (255 - a8) * b8 - 255 * o8;
    let w = recon8_defect(f8, a, b8, o8);
    assert(160000 * e == w + u * (400 * f8 - 400 * b8)) by (nonlinear_arith)
        requires
            e == a8 * f8 + (255 - a8) * b8 - 255 * o8,
            w == a * 400 * f8 + (UNIT as int - a) * 400 * b8 - 400 * o8 * (UNIT as int),
            u == 400 * a8 - a,
            UNIT == 102000,
    ;
    assert(-200 * (UNIT as int) <= u * (400 * f8 - 400 * b8) <= 200 * (UNIT as int))
        by (nonlinear_arith)
        requires
            -199 <= u <= 200,
            0 <= f8 <= 255,
            0 <= b8 <= 255,
            UNIT == 102000,
    ;
    assert(-200 * a >= -200 * (UNIT as int) && 200 * a <= 200 * (UNIT as int)) by (nonlinear_arith)
        requires
            0 <= a <= UNIT,
    ;
    assert(-255 <= e <= 255) by (nonlinear_arith)
        requires
            160000 * e == w + u * (400 * f8 - 400 * b8),
            -200 * (UNIT as int) <= w <= 200 * (UNIT as int),
            -200 * (UNIT as int) <= u * (400 * f8 - 400 * b8) <= 200 * (UNIT as int),
            UNIT == 102000,
    ;
}

/// The full quantization argument over all three channels.
proof fn lemma_composite_close(fg: Color, a: i64, bg: Color, obs: Color)
    requires
        0 <= a <= UNIT,
        recon8_close(fg, a as int, bg, obs),
    ensures
        composite_close(
            Rgba { r: fg.r, g: fg.g, b: fg.b, a: alpha_to_u8(a as int) as u8 },
            bg,
            obs,
        ),
{
    lemma_composite_channel(fg.r as int, a as int, bg.r as int, obs.r as int);
    lemma_composite_channel(fg.g as int, a as int, bg.g as int, obs.g as int);
    lemma_composite_channel(fg.b as int, a as int, bg.b as int, obs.b as int);
}

/// One channel admits an in-range foreground at opacity `a`: the implied
/// foreground value `(obs - (1 - a) * bg) / a` lies within `[0, 255]`.
pub open spec fn scan_channel_valid(a: int, b8: int, o8: int) -> bool {
    let n = 400 * o8 * (UNIT as int) - (UNIT as int - a) * 400 * b8;
    0 <= n && n <= a * 102000
}

/// Opacity `a` admits an in-range foreground color for the observation.
pub open spec fn scan_valid(a: int, bg: Color, obs: Color) -> bool {
    &&& scan_channel_valid(a, bg.r as int, obs.r as int)
    &&& scan_channel_valid(a, bg.g as int, obs.g as int)
    &&& scan_channel_valid(a, bg.b as int, obs.b as int)
}

/// Whether `(fg8, a)` reconstructs `obs` over `bg` within half an 8-bit
/// step per channel, decided exactly in integers.
fn recon8_check(fg: Color, a: i64, bg: Color, obs: Color) -> (ok: bool)
    requires
        0 <= a <= UNIT,
    ensures
        ok == recon8_close(fg, a as int, bg, obs),
{
    recon8_channel_check(fg.r, a, bg.r, obs.r) && recon8_channel_check(fg.g, a, bg.g, obs.g)
        && recon8_channel_check(fg.b, a, bg.b, obs.b)
}

fn recon8_channel_check(f8: u8, a: i64, b8: u8, o8: u8) -> (ok: bool)
    requires
        0 <= a <= UNIT,
    ensures
        ok == recon8_channel_ok(f8 as int, a as int, b8 as int, o8 as int),
{
    proof {
        assert(0 <= a as int * 400 * (f8 as int) <= 10_404_000_000int) by (nonlinear_arith)
            requires
                0 <= a <= 102000,
                0 <= f8 <= 255,
        ;
        assert(0 <= (UNIT as int - a) * 400 * (b8 as int) <= 10_404_000_000int) by (nonlinear_arith)
            requires
                0 <= a <= 102000,
                0 <= b8 <= 255,
                UNIT == 102000,
        ;
        assert(0 <= 400 * (o8 as int) * (UNIT as int) <= 10_404_000_000int) by (nonlinear_arith)
            requires
                0 <= o8 <= 255,
                UNIT == 102000,
        ;
        assert(0 <= 200 * a <= 20_400_000) by (nonlinear_arith)
            requires
                0 <= a <= 102000,
        ;
    }
    let w = a * 400 * (f8 as i64) + (UNIT - a) * 400 * (b8 as i64) - 400 * (o8 as i64) * UNIT;
    let bound = 200 * a;
    -bound <= w && w <= bound
}

/// Find a minimum alpha at which some valid 8-bit foreground color
/// reconstructs the observed color over the background.
///
/// Tries the eight extreme foreground corners (each channel 0 or 255)
/// where all channels agree on one exact alpha, then scans alphas upward
/// in steps of 1/1000 and takes the first whose implied foreground has
/// every channel in range; a candidate is kept only if it passes the exact
/// half-step reconstruction check.  Falls back to the observed color at
/// full opacity, which reconstructs exactly.
pub fn find_minimum_alpha_for_color(observed: Color, background: Color) -> (r: (Color, i64))
    ensures
        0 < r.1 <= UNIT,
        recon8_close(r.0, r.1 as int, background, observed),
        forall|k: int|
            1 <= k <= 1000 && k * 102 < r.1 ==> !#[trigger] scan_valid(
                k * 102,
                background,
                observed,
            ),
        forall|combo: int|
            0 <= combo < 8 && corner_agrees(#[trigger] corner_color(combo), background, observed)
                && recon8_close(
                corner_color(combo),
                corner_alpha_fx(corner_color(combo), background, observed),
                background,
                observed,
            ) ==> r.1 <= corner_alpha_fx(corner_color(combo), background, observed),
{
    let mut best_fg = observed;
    let mut best_alpha: i64 = UNIT;
    proof {
        assert(recon8_defect(
            observed.r as int,
            UNIT as int,
            background.r as int,
            observed.r as int,
        ) == 0) by (nonlinear_arith)
            requires
                UNIT == 102000,
        ;
        assert(recon8_defect(
            observed.g as int,
            UNIT as int,
            background.g as int,
            observed.g as int,
        ) == 0) by (nonlinear_arith)
            requires
                UNIT == 102000,
        ;
        assert(recon8_defect(
            observed.b as int,
            UNIT as int,
            background.b as int,
            observed.b as int,
        ) == 0) by (nonlinear_arith)
            requires
                UNIT == 102000,
        ;
        assert(200 * (UNIT as int) >= 0);
    }

    // The eight extreme foreground corners.
    let mut combo: usize = 0;
    while combo < 8
        invariant
            0 <= combo <= 8,
            0 < best_alpha <= UNIT,
            recon8_close(best_fg, best_alpha as int, background, observed),
            forall|c2: int|
                0 <= c2 < combo && corner_agrees(
                    #[trigger] corner_color(c2),
                    background,
                    observed,
                ) && recon8_close(
                    corner_color(c2),
                    corner_alpha_fx(corner_color(c2), background, observed),
                    background,
                    observed,
                ) ==> best_alpha as int <= corner_alpha_fx(corner_color(c2), background, observed),
        decreases 8 - combo,
    {
        let fr: u8 = if combo % 2 == 1 {
            255
        } else {
            0
        };
        let fg: u8 = if (combo / 2) % 2 == 1 {
            255
        } else {
            0
        };
        let fb: u8 = if combo / 4 == 1 {
            255
        } else {
            0
        };
        let cand = Color { r: fr, g: fg, b: fb };
        proof {
            assert(cand == corner_color(combo as int));
        }
        match extreme_alpha(cand, background, observed) {
            Some(a) => {
                if a < best_alpha && recon8_check(cand, a, background, observed) {
                    best_fg = cand;
                    best_alpha = a;
                }
            },
            None => {},
        }
        combo += 1;
    }

    // Fine-grained scan of alphas from 1/1000 upward; the first step whose
    // implied foreground is in range wins.
    let mut k: i64 = 1;
    while k <= 1000
        invariant
            1 <= k <= 1001,
            0 < best_alpha <= UNIT,
            recon8_close(best_fg, best_alpha as int, background, observed),
            forall|j: int|
                1 <= j < k ==> !#[trigger] scan_valid(j * 102, background, observed),
            forall|c2: int|
                0 <= c2 < 8 && corner_agrees(#[trigger] corner_color(c2), background, observed)
                    && recon8_close(
                    corner_color(c2),
                    corner_alpha_fx(corner_color(c2), background, observed),
                    background,
                    observed,
                ) ==> best_alpha as int <= corner_alpha_fx(corner_color(c2), background, observed),
        ensures
            0 < best_alpha <= UNIT,
            recon8_close(best_fg, best_alpha as int, background, observed),
            forall|j: int|
                1 <= j <= 1000 && j * 102 < best_alpha ==> !#[trigger] scan_valid(
                    j * 102,
                    background,
                    observed,
                ),
            forall|c2: int|
                0 <= c2 < 8 && corner_agrees(#[trigger] corner_color(c2), background, observed)
                    && recon8_close(
                    corner_color(c2),
                    corner_alpha_fx(corner_color(c2), background, observed),
                    background,
                    observed,
                ) ==> best_alpha as int <= corner_alpha_fx(corner_color(c2), background, observed),
        decreases 1001 - k,
    {
        let a = k * 102;
        if a >= best_alpha {
            break ;
        }
        match scan_foreground(a, background, observed) {
            Some(cand) => {
                best_fg = cand;
                best_alpha = a;
                break ;
            },
            None => {},
        }
        k += 1;
    }
    (best_fg, best_alpha)
}

/// The corner color at position `combo` of the extreme-point enumeration:
/// each channel either zero or full.
pub open spec fn corner_color(combo: int) -> Color {
    Color {
        r: if combo % 2 == 1 {
            255
        } else {
            0
        },
        g: if (combo / 2) % 2 == 1 {
            255
        } else {
            0
        },
        b: if combo / 4 == 1 {
            255
        } else {
            0
        },
    }
}

/// The sign-normalized numerator of the corner's exact alpha, taken from
/// the first channel whose denominator is nonzero.
pub open spec fn corner_num(cand: Color, bg: Color, obs: Color) -> int {
    let den = if cand.r != bg.r {
        cand.r - bg.r
    } else if cand.g != bg.g {
        cand.g - bg.g
    } else {
        cand.b - bg.b
    };
    let num = if cand.r != bg.r {
        obs.r - bg.r
    } else if cand.g != bg.g {
        obs.g - bg.g
    } else {
        obs.b - bg.b
    };
    if den < 0 {
        -num
    } else {
        num
    }
}

/// The sign-normalized denominator of the corner's exact alpha.
pub open spec fn corner_den(cand: Color, bg: Color, obs: Color) -> int {
    let den = if cand.r != bg.r {
        cand.r - bg.r
    } else if cand.g != bg.g {
        cand.g - bg.g
    } else {
        cand.b - bg.b
    };
    if den < 0 {
        -den
    } else {
        den
    }
}

/// Every channel agrees exactly on the corner's alpha, which lies in
/// `(0, 1]`: channels with a zero denominator already match the
/// background, and the others satisfy the cross-multiplied equality.
pub open spec fn corner_agrees(cand: Color, bg: Color, obs: Color) -> bool {
    let num = corner_num(cand, bg, obs);
    let den = corner_den(cand, bg, obs);
    &&& !(cand.r == bg.r && cand.g == bg.g && cand.b == bg.b)
    &&& (cand.r == bg.r ==> obs.r == bg.r)
    &&& (cand.r != bg.r ==> (obs.r - bg.r) * den == num * (cand.r - bg.r))
    &&& (cand.g == bg.g ==> obs.g == bg.g)
    &&& (cand.g != bg.g ==> (obs.g - bg.g) * den == num * (cand.g - bg.g))
    &&& (cand.b == bg.b ==> obs.b == bg.b)
    &&& (cand.b != bg.b ==> (obs.b - bg.b) * den == num * (cand.b - bg.b))
    &&& 0 < num <= den
}

/// The corner's exact alpha rounded to fixed point.
pub open spec fn corner_alpha_fx(cand: Color, bg: Color, obs: Color) -> int {
    (corner_num(cand, bg, obs) * UNIT + corner_den(cand, bg, obs) / 2) / corner_den(cand, bg, obs)
}

/// The exact alpha at which the extreme corner `cand` reproduces the
/// observation, if all channels agree on one alpha in `(0, 1]`; rounded to
/// fixed point.  Relies on every channel of `cand` and the colors being
/// 8-bit values.
fn extreme_alpha(cand: Color, background: Color, observed: Color) -> (r: Option<i64>)
    ensures
        r is Some <==> corner_agrees(cand, background, observed),
        r matches Some(a) ==> 0 < a <= UNIT && a as int == corner_alpha_fx(
            cand,
            background,
            observed,
        ),
{
    let mut num: i64 = 0;
    let mut den: i64 = 0;
    // First channel with a nonzero denominator fixes the alpha.
    let d0 = cand.r as i64 - background.r as i64;
    let d1 = cand.g as i64 - background.g as i64;
    let d2 = cand.b as i64 - background.b as i64;
    let n0 = observed.r as i64 - background.r as i64;
    let n1 = observed.g as i64 - background.g as i64;
    let n2 = observed.b as i64 - background.b as i64;
    if d0 != 0 {
        num = n0;
        den = d0;
    } else if d1 != 0 {
        num = n1;
        den = d1;
    } else if d2 != 0 {
        num = n2;
        den = d2;
    } else {
        return None;
    }
    if den < 0 {
        num = -num;
        den = -den;
    }
    proof {
        assert(-65025 <= n0 as int * den as int <= 65025) by (nonlinear_arith)
            requires
                -255 <= n0 <= 255,
                -255 <= den <= 255,
        ;
        assert(-65025 <= n1 as int * den as int <= 65025) by (nonlinear_arith)
            requires
                -255 <= n1 <= 255,
                -255 <= den <= 255,
        ;
        assert(-65025 <= n2 as int * den as int <= 65025) by (nonlinear_arith)
            requires
                -255 <= n2 <= 255,
                -255 <= den <= 255,
        ;
        assert(-65025 <= num as int * d0 as int <= 65025) by (nonlinear_arith)
            requires
                -255 <= num <= 255,
                -255 <= d0 <= 255,
        ;
        assert(-65025 <= num as int * d1 as int <= 65025) by (nonlinear_arith)
            requires
                -255 <= num <= 255,
                -255 <= d1 <= 255,
        ;
        assert(-65025 <= num as int * d2 as int <= 65025) by (nonlinear_arith)
            requires
                -255 <= num <= 255,
                -255 <= d2 <= 255,
        ;
    }
    // All channels must agree exactly; channels with a zero denominator
    // must already match the background.
    if d0 == 0 {
        if n0 != 0 {
            return None;
        }
    } else {
        if n0 * den != num * d0 {
            return None;
        }
    }
    if d1 == 0 {
        if n1 != 0 {
            return None;
        }
    } else {
        if n1 * den != num * d1 {
            return None;
        }
    }
    if d2 == 0 {
        if n2 != 0 {
            return None;
        }
    } else {
        if n2 * den != num * d2 {
            return None;
        }
    }
    if num <= 0 || num > den {
        return None;
    }
    // Round num / den to fixed point.
    proof {
        assert(0 < num * (UNIT as int) + den / 2) by (nonlinear_arith)
            requires
                1 <= num,
                UNIT == 102000,
                den >= 1,
        ;
        assert(num as int * (UNIT as int) + den / 2 < den * (UNIT as int + 1)) by (nonlinear_arith)
            requires
                1 <= num <= den <= 255,
                UNIT == 102000,
        ;
        assert(num as int * (UNIT as int) <= 255 * 102000) by (nonlinear_arith)
            requires
                1 <= num <= 255,
                UNIT == 102000,
        ;
        vstd::arithmetic::div_mod::lemma_fundamental_div_mod(
            num as int * (UNIT as int) + den / 2,
            den as int,
        );
        assert((num as int * (UNIT as int) + den / 2) / den as int <= UNIT) by (nonlinear_arith)
            requires
                den >= 1,
                num as int * (UNIT as int) + den / 2 < den * (UNIT as int + 1),
                num as int * (UNIT as int) + den / 2 == den * ((num as int * (UNIT as int) + den
                    / 2) / den as int) + (num as int * (UNIT as int) + den / 2) % (den as int),
                0 <= (num as int * (UNIT as int) + den / 2) % (den as int) < den,
        ;
        assert((num as int * (UNIT as int) + den / 2) / den as int >= 1) by (nonlinear_arith)
            requires
                den >= 1,
                den <= 255,
                UNIT == 102000,
                num >= 1,
                num as int * (UNIT as int) + den / 2 == den * ((num as int * (UNIT as int) + den
                    / 2) / den as int) + (num as int * (UNIT as int) + den / 2) % (den as int),
                0 <= (num as int * (UNIT as int) + den / 2) % (den as int) < den,
        ;
    }
    let a = (num * UNIT + den / 2) / den;
    Some(a)
}

/// The 8-bit foreground implied by opacity `a`, if every channel lands in
/// range: channel `f = (obs - (1 - a) * bg) / a`, rounded to nearest.  A
/// returned color reconstructs the observation within half an 8-bit step
/// per channel.
fn scan_foreground(a: i64, background: Color, observed: Color) -> (r: Option<Color>)
    requires
        102 <= a <= UNIT,
    ensures
        r is Some <==> scan_valid(a as int, background, observed),
        r matches Some(c) ==> recon8_close(c, a as int, background, observed),
{
    let cr = scan_channel(a, background.r, observed.r);
    let cg = scan_channel(a, background.g, observed.g);
    let cb = scan_channel(a, background.b, observed.b);
    match (cr, cg, cb) {
        (Some(r), Some(g), Some(b)) => Some(Color { r, g, b }),
        _ => None,
    }
}

fn scan_channel(a: i64, b8: u8, o8: u8) -> (r: Option<u8>)
    requires
        102 <= a <= UNIT,
    ensures
        r is Some <==> scan_channel_valid(a as int, b8 as int, o8 as int),
        r matches Some(f) ==> recon8_channel_ok(f as int, a as int, b8 as int, o8 as int),
{
    proof {
        assert(0 <= 400 * (o8 as int) * (UNIT as int) <= 10_404_000_000int) by (nonlinear_arith)
            requires
                0 <= o8 <= 255,
                UNIT == 102000,
        ;
        assert(0 <= (UNIT as int - a) * 400 * (b8 as int) <= 10_404_000_000int) by (nonlinear_arith)
            requires
                102 <= a <= 102000,
                0 <= b8 <= 255,
                UNIT == 102000,
        ;
        assert(0 <= a as int * 102000 <= 10_404_000_000int) by (nonlinear_arith)
            requires
                102 <= a <= 102000,
        ;
    }
    let n = 400 * (o8 as i64) * UNIT - (UNIT - a) * 400 * (b8 as i64);
    if n < 0 {
        return None;
    }
    if n > a * 102000 {
        return None;
    }
    proof {
        assert(n + 200 * a < 400 * a * 256) by (nonlinear_arith)
            requires
                0 <= n <= a as int * 102000,
                a >= 102,
        ;
        assert(0 <= 400 * a) by (nonlinear_arith)
            requires
                a >= 102,
        ;
        vstd::arithmetic::div_mod::lemma_fundamental_div_mod(n as int + 200 * a, 400 * a as int);
        assert((n as int + 200 * a) / (400 * a as int) <= 255) by (nonlinear_arith)
            requires
                a >= 102,
                n as int + 200 * a < 400 * a * 256,
                n as int + 200 * a == (400 * a as int) * ((n as int + 200 * a) / (400
                    * a as int)) + (n as int + 200 * a) % (400 * a as int),
                0 <= (n as int + 200 * a) % (400 * a as int) < 400 * a,
        ;
        assert((n as int + 200 * a) / (400 * a as int) >= 0) by (nonlinear_arith)
            requires
                a >= 102,
                n >= 0,
        ;
        // The rounding puts the reconstruction within half a step:
        // 400 * a * f - n lies in (-200 * a, 200 * a].
        let f = (n as int + 200 * a) / (400 * a as int);
        assert(-200 * a < 400 * a * f - n <= 200 * a) by (nonlinear_arith)
            requires
                a >= 102,
                n >= 0,
                n as int + 200 * a == (400 * a as int) * f + (n as int + 200 * a) % (400
                    * a as int),
                0 <= (n as int + 200 * a) % (400 * a as int) < 400 * a,
        ;
        assert(400 * a * f == a as int * 400 * f) by (nonlinear_arith);
    }
    Some(((n + 200 * a) / (400 * a)) as u8)
}

/// Process a pixel in non-strict mode without foreground colors: the pixel
/// becomes the implied foreground at the minimum valid alpha, so that
/// compositing the result over the background reproduces the pixel within
/// one 8-bit unit per channel.
pub fn process_pixel_non_strict_no_fg(observed: Color, background: Color) -> (out: Rgba)
    ensures
        observed == background ==> out == (Rgba { r: 0, g: 0, b: 0, a: 0 }),
        composite_close(out, background, observed),
{
    if observed == background {
        return Rgba { r: 0, g: 0, b: 0, a: 0 };
    }
    let (fg, a) = find_minimum_alpha_for_color(observed, background);
    let a8 = alpha_to_u8_exec(a);
    proof {
        lemma_composite_close(fg, a, background, observed);
    }
    Rgba { r: fg.r, g: fg.g, b: fg.b, a: a8 }
}

/// The 8-bit quantization of an unmixing outcome: the weighted average
/// color denormalized per channel, with the alpha rounded to an alpha
/// byte.
pub open spec fn strict_output(res: UnmixResult, fgs: Seq<NormalizedColor>) -> Rgba {
    let rc = result_color_spec(res, fgs);
    Rgba {
        r: crate::color::denorm_channel(rc.0.r),
        g: crate::color::denorm_channel(rc.0.g),
        b: crate::color::denorm_channel(rc.0.b),
        a: alpha_to_u8(rc.1 as int) as u8,
    }
}

/// A channel of an exactly normalized color denormalizes to itself.
proof fn lemma_denorm_norm(c: u8)
    ensures
        crate::color::denorm_channel((c as int * 400) as i64) == c,
{
    if c > 0 {
        assert((c as int * 400 + 200) / 400 == c) by (nonlinear_arith)
            requires
                1 <= c <= 255,
        ;
    }
}

/// Process a pixel in strict mode: unmix against the palette and average
/// the palette colors under the resulting weights.
fn process_pixel_strict(
    observed: Color,
    foreground_colors: &Vec<NormalizedColor>,
    background: Color,
) -> (out: Rgba)
    requires
        all_wf(foreground_colors@),
        foreground_colors@.len() <= MAX_FOREGROUNDS,
    ensures
        observed == background ==> out == (Rgba { r: 0, g: 0, b: 0, a: 0 }),
        foreground_colors@.len() == 1 && foreground_colors@[0] == norm_color(observed)
            && foreground_colors@[0] != norm_color(background) ==> out == (Rgba {
            r: observed.r,
            g: observed.g,
            b: observed.b,
            a: 255,
        }),
        foreground_colors@.len() == 1 ==> ({
            let w = single_weight(
                norm_color(observed),
                foreground_colors@[0],
                norm_color(background),
            );
            &&& out.a as int == alpha_to_u8(w)
            &&& (w > 0 ==> out.r == denorm_channel(foreground_colors@[0].r) && out.g
                == denorm_channel(foreground_colors@[0].g) && out.b == denorm_channel(
                foreground_colors@[0].b,
            ))
            &&& (w == 0 ==> out.r == 0 && out.g == 0 && out.b == 0)
        }),
        exists|res: UnmixResult|
            #[trigger] optimized_outcome_ok(
                observed,
                foreground_colors@,
                norm_color(background),
                res,
            ) && out == strict_output(res, foreground_colors@),
{
    let bg_n = normalize_color(background);
    let res = unmix_colors(observed, foreground_colors, bg_n);
    let (color, alpha) = compute_result_color(&res, foreground_colors);
    let c8 = crate::color::denormalize_color(color);
    let a8 = alpha_to_u8_exec(alpha);
    proof {
        if observed == background {
            assert(norm_color(observed) == bg_n);
            assert(res.alpha == 0);
            assert(alpha_to_u8(0) == 0);
        }
        if foreground_colors@.len() == 1 {
            // The single-foreground output: the projection weight becomes
            // the alpha byte, and any positive weight averages to the
            // foreground itself.
            let w = single_weight(norm_color(observed), foreground_colors@[0], bg_n);
            let fg = foreground_colors@[0];
            assert(res.weights@[0] == w && res.alpha == w);
            if w > 0 {
                assert(res.weights@ =~= seq![w as i64]);
                assert(sum_weights(res.weights@) == w) by {
                    assert(res.weights@.drop_last() =~= Seq::<i64>::empty());
                    assert(sum_weights(Seq::<i64>::empty()) == 0);
                }
                assert(weighted_sum(res.weights@, foreground_colors@, 0) == w * fg.r) by {
                    assert(res.weights@.drop_last() =~= Seq::<i64>::empty());
                    assert(foreground_colors@.drop_last() =~= Seq::<NormalizedColor>::empty());
                    assert(weighted_sum(
                        Seq::<i64>::empty(),
                        Seq::<NormalizedColor>::empty(),
                        0,
                    ) == 0);
                }
                assert(weighted_sum(res.weights@, foreground_colors@, 1) == w * fg.g) by {
                    assert(res.weights@.drop_last() =~= Seq::<i64>::empty());
                    assert(foreground_colors@.drop_last() =~= Seq::<NormalizedColor>::empty());
                    assert(weighted_sum(
                        Seq::<i64>::empty(),
                        Seq::<NormalizedColor>::empty(),
                        1,
                    ) == 0);
                }
                assert(weighted_sum(res.weights@, foreground_colors@, 2) == w * fg.b) by {
                    assert(res.weights@.drop_last() =~= Seq::<i64>::empty());
                    assert(foreground_colors@.drop_last() =~= Seq::<NormalizedColor>::empty());
                    assert(weighted_sum(
                        Seq::<i64>::empty(),
                        Seq::<NormalizedColor>::empty(),
                        2,
                    ) == 0);
                }
                assert(w * fg.r / w == fg.r) by {
                    vstd::arithmetic::div_mod::lemma_div_multiples_vanish(fg.r as int, w);
                }
                assert(w * fg.g / w == fg.g) by {
                    vstd::arithmetic::div_mod::lemma_div_multiples_vanish(fg.g as int, w);
                }
                assert(w * fg.b / w == fg.b) by {
                    vstd::arithmetic::div_mod::lemma_div_multiples_vanish(fg.b as int, w);
                }
                assert(color == fg);
            } else {
                assert(res.alpha == 0);
                assert(color == (NormalizedColor { r: 0, g: 0, b: 0 }));
                assert(denorm_channel(0) == 0);
            }
        }
        if foreground_colors@.len() == 1 && foreground_colors@[0] == norm_color(observed)
            && foreground_colors@[0] != norm_color(background) {
            // A pure foreground pixel: full weight, full opacity, and the
            // weighted average is the foreground itself.
            let fg = foreground_colors@[0];
            assert(res.weights@[0] == UNIT && res.alpha == UNIT);
            assert(res.weights@ =~= seq![UNIT as i64]);
            assert(sum_weights(res.weights@) == UNIT) by {
                assert(res.weights@.drop_last() =~= Seq::<i64>::empty());
                assert(sum_weights(Seq::<i64>::empty()) == 0);
            }
            assert(weighted_sum(res.weights@, foreground_colors@, 0) == UNIT as int * fg.r) by {
                assert(res.weights@.drop_last() =~= Seq::<i64>::empty());
                assert(foreground_colors@.drop_last() =~= Seq::<NormalizedColor>::empty());
                assert(weighted_sum(
                    Seq::<i64>::empty(),
                    Seq::<NormalizedColor>::empty(),
                    0,
                ) == 0);
            }
            assert(weighted_sum(res.weights@, foreground_colors@, 1) == UNIT as int * fg.g) by {
                assert(res.weights@.drop_last() =~= Seq::<i64>::empty());
                assert(foreground_colors@.drop_last() =~= Seq::<NormalizedColor>::empty());
                assert(weighted_sum(
                    Seq::<i64>::empty(),
                    Seq::<NormalizedColor>::empty(),
                    1,
                ) == 0);
            }
            assert(weighted_sum(res.weights@, foreground_colors@, 2) == UNIT as int * fg.b) by {
                assert(res.weights@.drop_last() =~= Seq::<i64>::empty());
                assert(foreground_colors@.drop_last() =~= Seq::<NormalizedColor>::empty());
                assert(weighted_sum(
                    Seq::<i64>::empty(),
                    Seq::<NormalizedColor>::empty(),
                    2,
                ) == 0);
            }
            assert(UNIT as int * fg.r / (UNIT as int) == fg.r) by {
                vstd::arithmetic::div_mod::lemma_div_multiples_vanish(fg.r as int, UNIT as int);
            }
            assert(UNIT as int * fg.g / (UNIT as int) == fg.g) by {
                vstd::arithmetic::div_mod::lemma_div_multiples_vanish(fg.g as int, UNIT as int);
            }
            assert(UNIT as int * fg.b / (UNIT as int) == fg.b) by {
                vstd::arithmetic::div_mod::lemma_div_multiples_vanish(fg.b as int, UNIT as int);
            }
            assert(color == fg);
            lemma_denorm_norm(observed.r);
            lemma_denorm_norm(observed.g);
            lemma_denorm_norm(observed.b);
            assert(alpha_to_u8(UNIT as int) == 255);
        }
    }
    let result = Rgba { r: c8.r, g: c8.g, b: c8.b, a: a8 };
    proof {
        assert(optimized_outcome_ok(observed, foreground_colors@, norm_color(background), res));
        assert(result == strict_output(res, foreground_colors@));
    }
    result
}

/// Process a pixel in non-strict mode with foreground colors: pixels close
/// to a foreground color are unmixed against the palette; all others get
/// the minimum-alpha treatment with its exact-reconstruction guarantee.
pub fn process_pixel_non_strict_with_fg(
    observed: Color,
    foreground_colors: &Vec<NormalizedColor>,
    background: Color,
    threshold: i64,
) -> (out: Rgba)
    requires
        all_wf(foreground_colors@),
        foreground_colors@.len() <= MAX_FOREGROUNDS,
        0 <= threshold <= UNIT,
    ensures
        observed == background ==> out == (Rgba { r: 0, g: 0, b: 0, a: 0 }),
        !(exists|i: int|
            0 <= i < foreground_colors@.len() && close_to_single(
                norm_color(observed),
                #[trigger] foreground_colors@[i],
                norm_color(background),
                threshold as int,
            )) ==> composite_close(out, background, observed),
        observed != background && (exists|i: int|
            0 <= i < foreground_colors@.len() && close_to_single(
                norm_color(observed),
                #[trigger] foreground_colors@[i],
                norm_color(background),
                threshold as int,
            )) ==> exists|res: UnmixResult|
            #[trigger] optimized_outcome_ok(
                observed,
                foreground_colors@,
                norm_color(background),
                res,
            ) && out == strict_output(res, foreground_colors@),
{
    if observed == background {
        return Rgba { r: 0, g: 0, b: 0, a: 0 };
    }
    let obs_n = normalize_color(observed);
    let bg_n = normalize_color(background);
    let close = is_color_close_to_foreground(obs_n, foreground_colors, bg_n, threshold);
    if close {
        process_pixel_strict(observed, foreground_colors, background)
    } else {
        process_pixel_non_strict_no_fg(observed, background)
    }
}

/// Process one pixel with the resolved configuration: strict mode restricts
/// the output to the palette with opacity optimization; non-strict mode
/// reconstructs exactly with minimum alpha, optionally gated by the
/// closeness test when a palette is supplied.
pub fn process_pixel(
    observed: Color,
    foreground_colors: &Vec<NormalizedColor>,
    background: Color,
    strict_mode: bool,
    threshold: Option<i64>,
) -> (out: Rgba)
    requires
        all_wf(foreground_colors@),
        foreground_colors@.len() <= MAX_FOREGROUNDS,
        threshold matches Some(t) ==> 0 <= t <= UNIT,
    ensures
        observed == background ==> out == (Rgba { r: 0, g: 0, b: 0, a: 0 }),
        !strict_mode && foreground_colors@.len() == 0 ==> composite_close(
            out,
            background,
            observed,
        ),
        strict_mode && foreground_colors@.len() == 1 && foreground_colors@[0] == norm_color(
            observed,
        ) && foreground_colors@[0] != norm_color(background) ==> out == (Rgba {
            r: observed.r,
            g: observed.g,
            b: observed.b,
            a: 255,
        }),
        strict_mode && foreground_colors@.len() == 1 ==> ({
            let w = single_weight(
                norm_color(observed),
                foreground_colors@[0],
                norm_color(background),
            );
            &&& out.a as int == alpha_to_u8(w)
            &&& (w > 0 ==> out.r == denorm_channel(foreground_colors@[0].r) && out.g
                == denorm_channel(foreground_colors@[0].g) && out.b == denorm_channel(
                foreground_colors@[0].b,
            ))
            &&& (w == 0 ==> out.r == 0 && out.g == 0 && out.b == 0)
        }),
        strict_mode ==> exists|res: UnmixResult|
            #[trigger] optimized_outcome_ok(
                observed,
                foreground_colors@,
                norm_color(background),
                res,
            ) && out == strict_output(res, foreground_colors@),
        !strict_mode && foreground_colors@.len() > 0 && observed != background && (exists|i: int|
            0 <= i < foreground_colors@.len() && close_to_single(
                norm_color(observed),
                #[trigger] foreground_colors@[i],
                norm_color(background),
                (if threshold is Some {
                    threshold->0 as int
                } else {
                    DEFAULT_COLOR_CLOSENESS_THRESHOLD as int
                }),
            )) ==> exists|res: UnmixResult|
            #[trigger] optimized_outcome_ok(
                observed,
                foreground_colors@,
                norm_color(background),
                res,
            ) && out == strict_output(res, foreground_colors@),
{
    if !strict_mode && foreground_colors.len() == 0 {
        process_pixel_non_strict_no_fg(observed, background)
    } else if !strict_mode {
        let t = match threshold {
            Some(t) => t,
            None => DEFAULT_COLOR_CLOSENESS_THRESHOLD,
        };
        process_pixel_non_strict_with_fg(observed, foreground_colors, background, t)
    } else {
        process_pixel_strict(observed, foreground_colors, background)
    }
}

} // verus!
