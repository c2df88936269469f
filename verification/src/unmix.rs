//! Color unmixing: inverting the alpha-compositing equation to recover
//! per-foreground weights and an overall opacity from an observed pixel.
//!
//! All arithmetic is exact fixed-point at scale `UNIT` (see [`crate::fixed`]);
//! the least-squares systems of the multi-color cases are solved by integer
//! Cramer elimination of the normal equations.

use vstd::prelude::*;

use vstd::arithmetic::div_mod::{lemma_div_multiples_vanish, lemma_fundamental_div_mod};

use crate::color::{norm_color, normalize_color, Color, NormalizedColor};
use crate::fixed::{is_sqrt, isqrt, lemma_sqrt_floor_of, sqrt_floor, UNIT};

verus! {

/// Most foreground colors one unmixing call accepts: keeps every integer
/// intermediate of the exact least-squares solve within 128 bits.
pub const MAX_FOREGROUNDS: usize = 64;

/// Reconstruction tolerance of the opacity-optimizing search: a candidate
/// solution is accepted only if its reconstruction lies within this
/// fixed-point distance (0.01) of the observed color.
pub const RECON_TOL: i64 = 1020;

/// Default threshold for color closeness in non-strict mode (0.05 = 5% of
/// max RGB distance), in fixed-point units.
pub const DEFAULT_COLOR_CLOSENESS_THRESHOLD: i64 = 5100;

/// The channelwise difference `a - b`.
pub open spec fn sub3(a: NormalizedColor, b: NormalizedColor) -> (int, int, int) {
    (a.r - b.r, a.g - b.g, a.b - b.b)
}

/// The dot product of two channel triples.
pub open spec fn dot3(a: (int, int, int), b: (int, int, int)) -> int {
    a.0 * b.0 + a.1 * b.1 + a.2 * b.2
}

/// The squared Euclidean distance between two colors, in fixed-point units
/// squared.
pub open spec fn dist_sq(a: NormalizedColor, b: NormalizedColor) -> int {
    dot3(sub3(a, b), sub3(a, b))
}

/// One channel of `alpha * fg + (1 - alpha) * bg` in fixed point, rounded
/// toward minus infinity.
pub open spec fn blend_channel(f: int, a: int, b: int) -> int {
    (a * f + (UNIT as int - a) * b) / (UNIT as int)
}

/// `alpha * fg + (1 - alpha) * bg` in fixed point.
pub open spec fn blend(fg: NormalizedColor, a: int, bg: NormalizedColor) -> NormalizedColor {
    NormalizedColor {
        r: blend_channel(fg.r as int, a, bg.r as int) as i64,
        g: blend_channel(fg.g as int, a, bg.g as int) as i64,
        b: blend_channel(fg.b as int, a, bg.b as int) as i64,
    }
}

/// The single-foreground unmixing weight: the projection of
/// `observed - background` onto `foreground - background`, clamped to
/// `[0, 1]`; zero when foreground and background coincide.
pub open spec fn single_weight(obs: NormalizedColor, fg: NormalizedColor, bg: NormalizedColor) -> int {
    let d = sub3(fg, bg);
    let t = sub3(obs, bg);
    let nsq = dot3(d, d);
    let dt = dot3(t, d);
    if nsq == 0 {
        0
    } else if dt <= 0 {
        0
    } else if dt * UNIT / nsq >= UNIT {
        UNIT as int
    } else {
        dt * UNIT / nsq
    }
}

/// The color reconstructed from the single-foreground weight.
pub open spec fn single_recon(obs: NormalizedColor, fg: NormalizedColor, bg: NormalizedColor) -> NormalizedColor {
    blend(fg, single_weight(obs, fg, bg), bg)
}

/// The observed color counts as close to this foreground: the foreground is
/// distinct from the background and the single-color reconstruction lands
/// within `thr` of the observation.
pub open spec fn close_to_single(
    obs: NormalizedColor,
    fg: NormalizedColor,
    bg: NormalizedColor,
    thr: int,
) -> bool {
    dot3(sub3(fg, bg), sub3(fg, bg)) != 0 && dist_sq(single_recon(obs, fg, bg), obs) < thr * thr
}

/// The sum of a weight list.
pub open spec fn sum_weights(ws: Seq<i64>) -> int
    decreases ws.len(),
{
    if ws.len() == 0 {
        0
    } else {
        sum_weights(ws.drop_last()) + ws.last()
    }
}

/// Result of color unmixing: weights for each foreground color and overall
/// alpha, all in fixed-point units.
#[derive(Clone, Debug)]
pub struct UnmixResult {
    /// Weight for each foreground color, aligned with the foreground list.
    pub weights: Vec<i64>,
    /// Overall alpha (0 = fully transparent, UNIT = fully opaque).
    pub alpha: i64,
}

impl UnmixResult {
    /// Weights and alpha lie in `[0, 1]`, the weights sum to at most the
    /// alpha, and a fully transparent result carries no weight.
    pub open spec fn wf(self) -> bool {
        &&& forall|i: int| 0 <= i < self.weights@.len() ==> 0 <= #[trigger] self.weights@[i] <= UNIT
        &&& 0 <= self.alpha <= UNIT
        &&& sum_weights(self.weights@) <= self.alpha
        &&& self.alpha == 0 ==> forall|i: int|
            0 <= i < self.weights@.len() ==> #[trigger] self.weights@[i] == 0
    }
}

/// All colors of the list are well-formed.
pub open spec fn all_wf(fgs: Seq<NormalizedColor>) -> bool {
    forall|i: int| 0 <= i < fgs.len() ==> (#[trigger] fgs[i]).wf()
}

fn sub_exec(a: NormalizedColor, b: NormalizedColor) -> (d: (i64, i64, i64))
    requires
        a.wf(),
        b.wf(),
    ensures
        (d.0 as int, d.1 as int, d.2 as int) == sub3(a, b),
        -UNIT <= d.0 <= UNIT,
        -UNIT <= d.1 <= UNIT,
        -UNIT <= d.2 <= UNIT,
{
    (a.r - b.r, a.g - b.g, a.b - b.b)
}

fn dot_exec(a: (i64, i64, i64), b: (i64, i64, i64)) -> (r: i64)
    requires
        -UNIT <= a.0 <= UNIT,
        -UNIT <= a.1 <= UNIT,
        -UNIT <= a.2 <= UNIT,
        -UNIT <= b.0 <= UNIT,
        -UNIT <= b.1 <= UNIT,
        -UNIT <= b.2 <= UNIT,
    ensures
        r == dot3((a.0 as int, a.1 as int, a.2 as int), (b.0 as int, b.1 as int, b.2 as int)),
        -3 * UNIT * UNIT <= r <= 3 * UNIT * UNIT,
{
    proof {
        lemma_abs_prod_bound(a.0 as int, b.0 as int, UNIT as int);
        lemma_abs_prod_bound(a.1 as int, b.1 as int, UNIT as int);
        lemma_abs_prod_bound(a.2 as int, b.2 as int, UNIT as int);
    }
    a.0 * b.0 + a.1 * b.1 + a.2 * b.2
}

/// A square is nonnegative.
proof fn lemma_square_nonneg(x: int)
    ensures
        x * x >= 0,
{
    assert(x * x >= 0) by (nonlinear_arith);
}

/// Products of values bounded by `m` are bounded by `m * m`.
proof fn lemma_abs_prod_bound(x: int, y: int, m: int)
    requires
        -m <= x <= m,
        -m <= y <= m,
        m >= 0,
    ensures
        -m * m <= x * y <= m * m,
{
    assert(-m * m <= x * y <= m * m) by (nonlinear_arith)
        requires
            -m <= x <= m,
            -m <= y <= m,
            m >= 0,
    ;
}

/// The Euclidean distance between two colors in fixed-point RGB space,
/// rounded down to an integer.
pub fn color_distance(c1: NormalizedColor, c2: NormalizedColor) -> (r: i64)
    requires
        c1.wf(),
        c2.wf(),
    ensures
        is_sqrt(dist_sq(c1, c2), r as int),
        r == sqrt_floor(dist_sq(c1, c2)),
        0 <= r <= 2 * UNIT,
{
    let d = sub_exec(c1, c2);
    let sq = dot_exec(d, d);
    proof {
        lemma_square_nonneg(d.0 as int);
        lemma_square_nonneg(d.1 as int);
        lemma_square_nonneg(d.2 as int);
        assert(sq >= 0);
    }
    let r = isqrt(sq as u64);
    proof {
        assert((2 * UNIT) * (2 * UNIT) > 3 * UNIT * UNIT) by (nonlinear_arith);
        assert(r * r <= sq);
        assert(r < 2 * UNIT) by (nonlinear_arith)
            requires
                r * r <= sq,
                sq < (2 * UNIT) * (2 * UNIT),
                r >= 0,
        ;
        lemma_sqrt_floor_of(dist_sq(c1, c2), r as int);
    }
    r as i64
}

/// The single-foreground unmixing weight, exactly as `single_weight`.
fn single_weight_exec(obs: NormalizedColor, fg: NormalizedColor, bg: NormalizedColor) -> (w: i64)
    requires
        obs.wf(),
        fg.wf(),
        bg.wf(),
    ensures
        w == single_weight(obs, fg, bg),
        0 <= w <= UNIT,
        fg == bg ==> w == 0,
        obs == fg && dot3(sub3(fg, bg), sub3(fg, bg)) != 0 ==> w == UNIT,
{
    let d = sub_exec(fg, bg);
    let t = sub_exec(obs, bg);
    let nsq = dot_exec(d, d);
    let dt = dot_exec(t, d);
    proof {
        lemma_square_nonneg(d.0 as int);
        lemma_square_nonneg(d.1 as int);
        lemma_square_nonneg(d.2 as int);
        if fg == bg {
            assert(d.0 == 0 && d.1 == 0 && d.2 == 0);
            assert(nsq == 0) by (nonlinear_arith)
                requires
                    d.0 == 0,
                    d.1 == 0,
                    d.2 == 0,
                    nsq == d.0 * d.0 + d.1 * d.1 + d.2 * d.2,
            ;
        }
        if obs == fg {
            assert(t.0 == d.0 && t.1 == d.1 && t.2 == d.2);
            assert(dt == nsq);
        }
    }
    if nsq == 0 {
        0
    } else if dt <= 0 {
        0
    } else {
        let q = (dt as i128 * UNIT as i128 / nsq as i128) as i64;
        proof {
            assert(dt as i128 * UNIT as i128 <= 3 * UNIT * UNIT * (UNIT as i128)) by (nonlinear_arith)
                requires
                    0 < dt <= 3 * UNIT * UNIT,
            ;
            assert(dt as int * UNIT as int / nsq as int >= 0) by (nonlinear_arith)
                requires
                    dt > 0,
                    nsq > 0,
            ;
            if obs == fg {
                lemma_div_multiples_vanish(UNIT as int, nsq as int);
                assert(nsq as int * UNIT as int == UNIT as int * nsq as int) by (nonlinear_arith);
                assert(q == UNIT);
            }
        }
        if q >= UNIT {
            UNIT
        } else {
            q
        }
    }
}

/// Check if an observed color is close enough to some foreground color when
/// unmixed with it alone: true exactly when one foreground's single-color
/// reconstruction lies within `threshold` of the observation.
pub fn is_color_close_to_foreground(
    observed: NormalizedColor,
    foreground_colors: &Vec<NormalizedColor>,
    background: NormalizedColor,
    threshold: i64,
) -> (r: bool)
    requires
        observed.wf(),
        background.wf(),
        all_wf(foreground_colors@),
        0 <= threshold <= UNIT,
    ensures
        r <==> exists|i: int|
            0 <= i < foreground_colors@.len() && close_to_single(
                observed,
                #[trigger] foreground_colors@[i],
                background,
                threshold as int,
            ),
{
    let n = foreground_colors.len();
    let mut i: usize = 0;
    while i < n
        invariant
            n == foreground_colors@.len(),
            0 <= i <= n,
            observed.wf(),
            background.wf(),
            all_wf(foreground_colors@),
            0 <= threshold <= UNIT,
            forall|j: int|
                0 <= j < i ==> !close_to_single(
                    observed,
                    #[trigger] foreground_colors@[j],
                    background,
                    threshold as int,
                ),
        decreases n - i,
    {
        let fg = foreground_colors[i];
        let d = sub_exec(fg, background);
        let nsq = dot_exec(d, d);
        if nsq != 0 {
            let w = single_weight_exec(observed, fg, background);
            let recon = blend_exec(fg, w, background);
            let sq_dist = dot_exec(sub_exec(recon, observed), sub_exec(recon, observed));
            proof {
                lemma_abs_prod_bound(threshold as int, threshold as int, UNIT as int);
            }
            if sq_dist < (threshold as i128 * threshold as i128) as i64 {
                return true;
            }
        }
        i += 1;
    }
    false
}

/// One channel of the fixed-point blend, exactly as `blend_channel`.
fn blend_channel_exec(f: i64, a: i64, b: i64) -> (r: i64)
    requires
        0 <= f <= UNIT,
        0 <= a <= UNIT,
        0 <= b <= UNIT,
    ensures
        r == blend_channel(f as int, a as int, b as int),
        0 <= r <= UNIT,
{
    proof {
        lemma_abs_prod_bound(a as int, f as int, UNIT as int);
        lemma_abs_prod_bound((UNIT - a) as int, b as int, UNIT as int);
        assert(a as int * f as int >= 0) by (nonlinear_arith)
            requires
                a >= 0,
                f >= 0,
        ;
        assert((UNIT - a) as int * b as int >= 0) by (nonlinear_arith)
            requires
                a <= UNIT,
                b >= 0,
        ;
        assert(a as int * f as int + (UNIT - a) as int * b as int <= UNIT * UNIT) by (nonlinear_arith)
            requires
                0 <= f <= UNIT,
                0 <= a <= UNIT,
                0 <= b <= UNIT,
        ;
        assert((a as int * f as int + (UNIT - a) as int * b as int) / UNIT as int <= UNIT);
    }
    (a * f + (UNIT - a) * b) / UNIT
}

/// The fixed-point blend `alpha * fg + (1 - alpha) * bg`.
pub(crate) fn blend_exec(fg: NormalizedColor, a: i64, bg: NormalizedColor) -> (r: NormalizedColor)
    requires
        fg.wf(),
        bg.wf(),
        0 <= a <= UNIT,
    ensures
        r == blend(fg, a as int, bg),
        r.wf(),
{
    NormalizedColor {
        r: blend_channel_exec(fg.r, a, bg.r),
        g: blend_channel_exec(fg.g, a, bg.g),
        b: blend_channel_exec(fg.b, a, bg.b),
    }
}

/// The weight-averaged foreground color: channel `ch` of
/// `sum(w_i * fg_i) / sum(w_i)` before the division.
pub open spec fn weighted_sum(ws: Seq<i64>, fgs: Seq<NormalizedColor>, ch: int) -> int
    recommends
        ws.len() == fgs.len(),
    decreases ws.len(),
{
    if ws.len() == 0 || fgs.len() == 0 {
        0
    } else {
        weighted_sum(ws.drop_last(), fgs.drop_last(), ch) + ws.last() * channel(fgs.last(), ch)
    }
}

/// Channel `ch` of a color (0 = red, 1 = green, 2 = blue).
pub open spec fn channel(c: NormalizedColor, ch: int) -> int {
    if ch == 0 {
        c.r as int
    } else if ch == 1 {
        c.g as int
    } else {
        c.b as int
    }
}

/// What `compute_result_color` returns: the weight-averaged foreground
/// color with the result's alpha; black when the alpha or every weight is
/// zero.
pub open spec fn result_color_spec(res: UnmixResult, fgs: Seq<NormalizedColor>) -> (
    NormalizedColor,
    i64,
) {
    if res.alpha == 0 {
        (NormalizedColor { r: 0, g: 0, b: 0 }, 0)
    } else {
        let s = sum_weights(res.weights@);
        if s > 0 {
            (
                NormalizedColor {
                    r: (weighted_sum(res.weights@, fgs, 0) / s) as i64,
                    g: (weighted_sum(res.weights@, fgs, 1) / s) as i64,
                    b: (weighted_sum(res.weights@, fgs, 2) / s) as i64,
                },
                res.alpha,
            )
        } else {
            (NormalizedColor { r: 0, g: 0, b: 0 }, res.alpha)
        }
    }
}

/// Compute the final color from unmixing results: the weighted average of
/// the foreground colors under the result's weights, with its alpha.
pub fn compute_result_color(unmix_result: &UnmixResult, foreground_colors: &Vec<NormalizedColor>) -> (out: (
    NormalizedColor,
    i64,
))
    requires
        forall|i: int|
            0 <= i < unmix_result.weights@.len() ==> 0 <= #[trigger] unmix_result.weights@[i]
                <= UNIT,
        0 <= unmix_result.alpha <= UNIT,
        all_wf(foreground_colors@),
        unmix_result.weights@.len() == foreground_colors@.len(),
    ensures
        out == result_color_spec(*unmix_result, foreground_colors@),
        out.0.wf(),
        0 <= out.1 <= UNIT,
{
    let n = unmix_result.weights.len();
    if unmix_result.alpha == 0 {
        return (NormalizedColor { r: 0, g: 0, b: 0 }, 0);
    }
    let mut sum: i128 = 0;
    let mut acc_r: i128 = 0;
    let mut acc_g: i128 = 0;
    let mut acc_b: i128 = 0;
    let mut i: usize = 0;
    while i < n
        invariant
            n == unmix_result.weights@.len(),
            n == foreground_colors@.len(),
            forall|j: int|
                0 <= j < unmix_result.weights@.len() ==> 0 <= #[trigger] unmix_result.weights@[j]
                    <= UNIT,
            all_wf(foreground_colors@),
            0 <= i <= n,
            sum == sum_weights(unmix_result.weights@.take(i as int)),
            0 <= sum <= i * UNIT,
            acc_r == weighted_sum(
                unmix_result.weights@.take(i as int),
                foreground_colors@.take(i as int),
                0,
            ),
            acc_g == weighted_sum(
                unmix_result.weights@.take(i as int),
                foreground_colors@.take(i as int),
                1,
            ),
            acc_b == weighted_sum(
                unmix_result.weights@.take(i as int),
                foreground_colors@.take(i as int),
                2,
            ),
            0 <= acc_r <= sum * UNIT,
            0 <= acc_g <= sum * UNIT,
            0 <= acc_b <= sum * UNIT,
        decreases n - i,
    {
        let w = unmix_result.weights[i];
        let fg = foreground_colors[i];
        proof {
            assert(unmix_result.weights@.take(i + 1).drop_last() =~= unmix_result.weights@.take(
                i as int,
            ));
            assert(foreground_colors@.take(i + 1).drop_last() =~= foreground_colors@.take(i as int));
            assert(unmix_result.weights@.take(i + 1).last() == w);
            assert(foreground_colors@.take(i + 1).last() == fg);
            lemma_abs_prod_bound(w as int, fg.r as int, UNIT as int);
            lemma_abs_prod_bound(w as int, fg.g as int, UNIT as int);
            lemma_abs_prod_bound(w as int, fg.b as int, UNIT as int);
            assert(0 <= w as int * fg.r as int <= w as int * UNIT as int) by (nonlinear_arith)
                requires
                    0 <= w,
                    0 <= fg.r <= UNIT,
            ;
            assert(0 <= w as int * fg.g as int <= w as int * UNIT as int) by (nonlinear_arith)
                requires
                    0 <= w,
                    0 <= fg.g <= UNIT,
            ;
            assert(0 <= w as int * fg.b as int <= w as int * UNIT as int) by (nonlinear_arith)
                requires
                    0 <= w,
                    0 <= fg.b <= UNIT,
            ;
            assert((sum + w) * UNIT == sum * UNIT + w * UNIT) by (nonlinear_arith);
            assert((i + 1) * UNIT == i * UNIT + UNIT) by (nonlinear_arith);
        }
        acc_r = acc_r + (w as i128) * (fg.r as i128);
        acc_g = acc_g + (w as i128) * (fg.g as i128);
        acc_b = acc_b + (w as i128) * (fg.b as i128);
        sum = sum + w as i128;
        i += 1;
    }
    proof {
        assert(unmix_result.weights@.take(n as int) =~= unmix_result.weights@);
        assert(foreground_colors@.take(n as int) =~= foreground_colors@);
    }
    if sum > 0 {
        proof {
            lemma_div_le_bound(acc_r as int, sum as int, UNIT as int);
            lemma_div_le_bound(acc_g as int, sum as int, UNIT as int);
            lemma_div_le_bound(acc_b as int, sum as int, UNIT as int);
        }
        (
            NormalizedColor {
                r: (acc_r / sum) as i64,
                g: (acc_g / sum) as i64,
                b: (acc_b / sum) as i64,
            },
            unmix_result.alpha,
        )
    } else {
        (NormalizedColor { r: 0, g: 0, b: 0 }, unmix_result.alpha)
    }
}

/// `0 <= x <= s * m` with `s > 0` gives `0 <= x / s <= m`.
proof fn lemma_div_le_bound(x: int, s: int, m: int)
    requires
        0 <= x <= s * m,
        s > 0,
        m >= 0,
    ensures
        0 <= x / s <= m,
{
    assert(0 <= x / s <= m) by (nonlinear_arith)
        requires
            0 <= x <= s * m,
            s > 0,
            m >= 0,
    ;
}


/// Products with separate bounds: `|x| <= mx`, `|y| <= my` give
/// `|x * y| <= mx * my`.
proof fn lemma_abs_prod_bound2(x: int, mx: int, y: int, my: int)
    requires
        -mx <= x <= mx,
        -my <= y <= my,
        mx >= 0,
        my >= 0,
    ensures
        -(mx * my) <= x * y <= mx * my,
{
    assert(-(mx * my) <= x * y <= mx * my) by (nonlinear_arith)
        requires
            -mx <= x <= mx,
            -my <= y <= my,
            mx >= 0,
            my >= 0,
    ;
}

/// Raw least-squares weights never exceed this bound (fixed-point units).
pub const RAW_WEIGHT_MAX: i128 = 10_000_000_000_000_000_000_000_000_000;

/// The sum of an i128 weight list.
pub open spec fn sum_raw(ws: Seq<i128>) -> int
    decreases ws.len(),
{
    if ws.len() == 0 {
        0
    } else {
        sum_raw(ws.drop_last()) + ws.last()
    }
}

/// A nonnegative i128 list with nonpositive sum is all zeros.
proof fn lemma_sum_raw_zero(ws: Seq<i128>)
    requires
        forall|i: int| 0 <= i < ws.len() ==> 0 <= #[trigger] ws[i],
        sum_raw(ws) <= 0,
    ensures
        forall|i: int| 0 <= i < ws.len() ==> #[trigger] ws[i] == 0,
    decreases ws.len(),
{
    if ws.len() > 0 {
        lemma_sum_raw_nonneg(ws.drop_last());
        lemma_sum_raw_zero(ws.drop_last());
        assert forall|i: int| 0 <= i < ws.len() implies #[trigger] ws[i] == 0 by {
            if i < ws.len() - 1 {
                assert(ws.drop_last()[i] == 0);
            }
        }
    }
}

/// A nonnegative i128 list has a nonnegative sum.
proof fn lemma_sum_raw_nonneg(ws: Seq<i128>)
    requires
        forall|i: int| 0 <= i < ws.len() ==> 0 <= #[trigger] ws[i],
    ensures
        sum_raw(ws) >= 0,
    decreases ws.len(),
{
    if ws.len() > 0 {
        lemma_sum_raw_nonneg(ws.drop_last());
    }
}

/// Every element of a nonnegative list is at most the sum.
proof fn lemma_sum_raw_elem(ws: Seq<i128>, i: int)
    requires
        forall|j: int| 0 <= j < ws.len() ==> 0 <= #[trigger] ws[j],
        0 <= i < ws.len(),
    ensures
        ws[i] <= sum_raw(ws),
    decreases ws.len(),
{
    if i == ws.len() - 1 {
        lemma_sum_raw_nonneg(ws.drop_last());
    } else {
        lemma_sum_raw_elem(ws.drop_last(), i);
    }
}

/// Signed division by 50, truncating toward zero.
fn div50(x: i64) -> (r: i64)
    requires
        -UNIT <= x <= UNIT,
    ensures
        -2040 <= r <= 2040,
        x == 0 ==> r == 0,
{
    if x >= 0 {
        proof {
            assert(x as int / 50 <= 2040) by (nonlinear_arith)
                requires
                    0 <= x <= 102000,
            ;
        }
        x / 50
    } else {
        let y = -x;
        proof {
            assert(y as int / 50 <= 2040) by (nonlinear_arith)
                requires
                    0 < y <= 102000,
            ;
        }
        -(y / 50)
    }
}

/// The determinant of a 3x3 matrix given in row-major order.
pub open spec fn det3(
    m00: int,
    m01: int,
    m02: int,
    m10: int,
    m11: int,
    m12: int,
    m20: int,
    m21: int,
    m22: int,
) -> int {
    m00 * (m11 * m22 - m12 * m21) - m01 * (m10 * m22 - m12 * m20) + m02 * (m10 * m21 - m11 * m20)
}

/// Entry bound under which `det3_exec` computes without overflow.
pub const DET3_ENTRY_MAX: i128 = 300_000_000;

fn det3_exec(
    m00: i128,
    m01: i128,
    m02: i128,
    m10: i128,
    m11: i128,
    m12: i128,
    m20: i128,
    m21: i128,
    m22: i128,
) -> (d: i128)
    requires
        -DET3_ENTRY_MAX <= m00 <= DET3_ENTRY_MAX,
        -DET3_ENTRY_MAX <= m01 <= DET3_ENTRY_MAX,
        -DET3_ENTRY_MAX <= m02 <= DET3_ENTRY_MAX,
        -DET3_ENTRY_MAX <= m10 <= DET3_ENTRY_MAX,
        -DET3_ENTRY_MAX <= m11 <= DET3_ENTRY_MAX,
        -DET3_ENTRY_MAX <= m12 <= DET3_ENTRY_MAX,
        -DET3_ENTRY_MAX <= m20 <= DET3_ENTRY_MAX,
        -DET3_ENTRY_MAX <= m21 <= DET3_ENTRY_MAX,
        -DET3_ENTRY_MAX <= m22 <= DET3_ENTRY_MAX,
    ensures
        d == det3(
            m00 as int,
            m01 as int,
            m02 as int,
            m10 as int,
            m11 as int,
            m12 as int,
            m20 as int,
            m21 as int,
            m22 as int,
        ),
        -6 * DET3_ENTRY_MAX * DET3_ENTRY_MAX * DET3_ENTRY_MAX <= d <= 6 * DET3_ENTRY_MAX
            * DET3_ENTRY_MAX * DET3_ENTRY_MAX,
{
    let ghost m: int = DET3_ENTRY_MAX as int;
    proof {
        lemma_abs_prod_bound2(m11 as int, m, m22 as int, m);
        lemma_abs_prod_bound2(m12 as int, m, m21 as int, m);
        lemma_abs_prod_bound2(m10 as int, m, m22 as int, m);
        lemma_abs_prod_bound2(m12 as int, m, m20 as int, m);
        lemma_abs_prod_bound2(m10 as int, m, m21 as int, m);
        lemma_abs_prod_bound2(m11 as int, m, m20 as int, m);
    }
    let c0 = m11 * m22 - m12 * m21;
    let c1 = m10 * m22 - m12 * m20;
    let c2 = m10 * m21 - m11 * m20;
    proof {
        lemma_abs_prod_bound2(m00 as int, m, c0 as int, 2 * m * m);
        lemma_abs_prod_bound2(m01 as int, m, c1 as int, 2 * m * m);
        lemma_abs_prod_bound2(m02 as int, m, c2 as int, 2 * m * m);
        assert(m * (2 * m * m) == 2 * m * m * m) by (nonlinear_arith);
    }
    m00 * c0 - m01 * c1 + m02 * c2
}

/// The Gram determinant of two difference vectors; the two-color system
/// is singular exactly when it is not positive.
pub open spec fn gram2_det(d0: (int, int, int), d1: (int, int, int)) -> int {
    dot3(d0, d0) * dot3(d1, d1) - dot3(d0, d1) * dot3(d0, d1)
}

/// The Cramer numerator of the first two-color weight.
pub open spec fn cramer2_num0(d0: (int, int, int), d1: (int, int, int), t: (int, int, int)) -> int {
    dot3(d0, t) * dot3(d1, d1) - dot3(d0, d1) * dot3(d1, t)
}

/// The Cramer numerator of the second two-color weight.
pub open spec fn cramer2_num1(d0: (int, int, int), d1: (int, int, int), t: (int, int, int)) -> int {
    dot3(d0, d0) * dot3(d1, t) - dot3(d0, d1) * dot3(d0, t)
}

/// A two-color least-squares weight in fixed point: the Cramer quotient,
/// clamped at zero.
pub open spec fn cramer2_weight_fx(num: int, det: int) -> int {
    if num <= 0 {
        0
    } else {
        num * UNIT / det
    }
}

/// The exact least-squares weights for two foreground differences, from the
/// 2x2 normal equations by Cramer's rule; negative solutions are clamped to
/// zero.  `None` when the system is singular.
fn solve_two(d0: (i64, i64, i64), d1: (i64, i64, i64), t: (i64, i64, i64)) -> (r: Option<
    (i128, i128),
>)
    requires
        -UNIT <= d0.0 <= UNIT,
        -UNIT <= d0.1 <= UNIT,
        -UNIT <= d0.2 <= UNIT,
        -UNIT <= d1.0 <= UNIT,
        -UNIT <= d1.1 <= UNIT,
        -UNIT <= d1.2 <= UNIT,
        -UNIT <= t.0 <= UNIT,
        -UNIT <= t.1 <= UNIT,
        -UNIT <= t.2 <= UNIT,
    ensures
        r is Some <==> gram2_det(
            (d0.0 as int, d0.1 as int, d0.2 as int),
            (d1.0 as int, d1.1 as int, d1.2 as int),
        ) > 0,
        r matches Some(w) ==> {
            let di = (d0.0 as int, d0.1 as int, d0.2 as int);
            let dj = (d1.0 as int, d1.1 as int, d1.2 as int);
            let ti = (t.0 as int, t.1 as int, t.2 as int);
            &&& 0 <= w.0 <= RAW_WEIGHT_MAX
            &&& 0 <= w.1 <= RAW_WEIGHT_MAX
            &&& w.0 as int == cramer2_weight_fx(cramer2_num0(di, dj, ti), gram2_det(di, dj))
            &&& w.1 as int == cramer2_weight_fx(cramer2_num1(di, dj, ti), gram2_det(di, dj))
            &&& (t == (0i64, 0i64, 0i64) ==> w.0 == 0 && w.1 == 0)
        },
{
    let g00 = dot_exec(d0, d0);
    let g01 = dot_exec(d0, d1);
    let g11 = dot_exec(d1, d1);
    let r0 = dot_exec(d0, t);
    let r1 = dot_exec(d1, t);
    let ghost m2: int = 3 * (UNIT as int) * (UNIT as int);
    proof {
        assert(3 * (UNIT as int) * (UNIT as int) == 31_212_000_000int) by (nonlinear_arith);
        assert(m2 * m2 == 974_188_944_000_000_000_000int) by (nonlinear_arith)
            requires
                m2 == 31_212_000_000int,
        ;
        lemma_abs_prod_bound2(g00 as int, m2, g11 as int, m2);
        lemma_abs_prod_bound2(g01 as int, m2, g01 as int, m2);
        lemma_abs_prod_bound2(r0 as int, m2, g11 as int, m2);
        lemma_abs_prod_bound2(g01 as int, m2, r1 as int, m2);
        lemma_abs_prod_bound2(g00 as int, m2, r1 as int, m2);
        lemma_abs_prod_bound2(g01 as int, m2, r0 as int, m2);
    }
    let det = g00 as i128 * g11 as i128 - g01 as i128 * g01 as i128;
    if det <= 0 {
        return None;
    }
    let num0 = r0 as i128 * g11 as i128 - g01 as i128 * r1 as i128;
    let num1 = g00 as i128 * r1 as i128 - g01 as i128 * r0 as i128;
    proof {
        if t == (0i64, 0i64, 0i64) {
            assert(r0 == 0 && r1 == 0) by (nonlinear_arith)
                requires
                    t.0 == 0,
                    t.1 == 0,
                    t.2 == 0,
                    r0 == d0.0 * t.0 + d0.1 * t.1 + d0.2 * t.2,
                    r1 == d1.0 * t.0 + d1.1 * t.1 + d1.2 * t.2,
            ;
            assert(num0 == 0 && num1 == 0) by (nonlinear_arith)
                requires
                    r0 == 0,
                    r1 == 0,
                    num0 == r0 as i128 * g11 as i128 - g01 as i128 * r1 as i128,
                    num1 == g00 as i128 * r1 as i128 - g01 as i128 * r0 as i128,
            ;
        }
    }
    let w0 = clamp_div(num0, det, UNIT as i128, Ghost(2 * m2 * m2), Ghost(1));
    let w1 = clamp_div(num1, det, UNIT as i128, Ghost(2 * m2 * m2), Ghost(1));
    Some((w0, w1))
}

/// `clamp(num, >= 0) * scale / det`, staying within `RAW_WEIGHT_MAX`
/// because `det` is at least `det_min` and `num * scale` is at most
/// `RAW_WEIGHT_MAX * det_min`.
fn clamp_div(
    num: i128,
    det: i128,
    scale: i128,
    Ghost(num_bound): Ghost<int>,
    Ghost(det_min): Ghost<int>,
) -> (w: i128)
    requires
        det >= det_min >= 1,
        scale >= 1,
        -num_bound <= num <= num_bound,
        0 <= num_bound,
        num_bound * scale <= RAW_WEIGHT_MAX * det_min,
        num_bound * scale <= 100_000_000_000_000_000_000_000_000_000_000_000_000i128,
    ensures
        0 <= w <= RAW_WEIGHT_MAX,
        w as int == (if num <= 0 {
            0int
        } else {
            num as int * (scale as int) / (det as int)
        }),
{
    if num <= 0 {
        0
    } else {
        proof {
            let x = num as int * scale as int;
            assert(0 <= x <= num_bound * (scale as int)) by (nonlinear_arith)
                requires
                    0 < num <= num_bound,
                    scale >= 1,
                    x == num as int * scale as int,
            ;
            vstd::arithmetic::div_mod::lemma_div_is_ordered_by_denominator(
                x,
                det_min,
                det as int,
            );
            assert(x <= det_min * (RAW_WEIGHT_MAX as int)) by (nonlinear_arith)
                requires
                    x <= num_bound * (scale as int),
                    num_bound * scale <= RAW_WEIGHT_MAX * det_min,
            ;
            lemma_div_le_bound(x, det_min, RAW_WEIGHT_MAX as int);
            assert(x / det as int >= 0) by (nonlinear_arith)
                requires
                    x >= 0,
                    det >= 1,
            ;
        }
        num * scale / det
    }
}


/// Dot product of reduced-precision difference vectors (components within
/// `UNIT / 50`).
fn dot_small(a: (i64, i64, i64), b: (i64, i64, i64)) -> (r: i64)
    requires
        -2040 <= a.0 <= 2040,
        -2040 <= a.1 <= 2040,
        -2040 <= a.2 <= 2040,
        -2040 <= b.0 <= 2040,
        -2040 <= b.1 <= 2040,
        -2040 <= b.2 <= 2040,
    ensures
        r == dot3((a.0 as int, a.1 as int, a.2 as int), (b.0 as int, b.1 as int, b.2 as int)),
        -12_484_800 <= r <= 12_484_800,
{
    proof {
        lemma_abs_prod_bound(a.0 as int, b.0 as int, 2040);
        lemma_abs_prod_bound(a.1 as int, b.1 as int, 2040);
        lemma_abs_prod_bound(a.2 as int, b.2 as int, 2040);
    }
    a.0 * b.0 + a.1 * b.1 + a.2 * b.2
}

/// A 3x3 determinant with a zero column is zero.
proof fn lemma_det3_zero_col(
    m00: int,
    m01: int,
    m02: int,
    m10: int,
    m11: int,
    m12: int,
    m20: int,
    m21: int,
    m22: int,
)
    requires
        (m00 == 0 && m10 == 0 && m20 == 0) || (m01 == 0 && m11 == 0 && m21 == 0) || (m02 == 0 && m12
            == 0 && m22 == 0),
    ensures
        det3(m00, m01, m02, m10, m11, m12, m20, m21, m22) == 0,
{
    assert(m00 * (m11 * m22 - m12 * m21) - m01 * (m10 * m22 - m12 * m20) + m02 * (m10 * m21 - m11
        * m20) == 0) by (nonlinear_arith)
        requires
            (m00 == 0 && m10 == 0 && m20 == 0) || (m01 == 0 && m11 == 0 && m21 == 0) || (m02 == 0
                && m12 == 0 && m22 == 0),
    ;
}

fn div50_triple(d: (i64, i64, i64)) -> (e: (i64, i64, i64))
    requires
        -UNIT <= d.0 <= UNIT,
        -UNIT <= d.1 <= UNIT,
        -UNIT <= d.2 <= UNIT,
    ensures
        -2040 <= e.0 <= 2040,
        -2040 <= e.1 <= 2040,
        -2040 <= e.2 <= 2040,
        d == (0i64, 0i64, 0i64) ==> e == (0i64, 0i64, 0i64),
{
    (div50(d.0), div50(d.1), div50(d.2))
}

/// The least-squares weights for three foreground differences, from the 3x3
/// normal equations by Cramer's rule on reduced-precision values; negative
/// solutions are clamped to zero.  `None` when the system is (near)
/// singular.
fn solve_three(
    d0: (i64, i64, i64),
    d1: (i64, i64, i64),
    d2: (i64, i64, i64),
    t: (i64, i64, i64),
) -> (r: Option<(i128, i128, i128)>)
    requires
        -UNIT <= d0.0 <= UNIT,
        -UNIT <= d0.1 <= UNIT,
        -UNIT <= d0.2 <= UNIT,
        -UNIT <= d1.0 <= UNIT,
        -UNIT <= d1.1 <= UNIT,
        -UNIT <= d1.2 <= UNIT,
        -UNIT <= d2.0 <= UNIT,
        -UNIT <= d2.1 <= UNIT,
        -UNIT <= d2.2 <= UNIT,
        -UNIT <= t.0 <= UNIT,
        -UNIT <= t.1 <= UNIT,
        -UNIT <= t.2 <= UNIT,
    ensures
        r matches Some(w) ==> {
            &&& 0 <= w.0 <= RAW_WEIGHT_MAX
            &&& 0 <= w.1 <= RAW_WEIGHT_MAX
            &&& 0 <= w.2 <= RAW_WEIGHT_MAX
            &&& (t == (0i64, 0i64, 0i64) ==> w.0 == 0 && w.1 == 0 && w.2 == 0)
        },
{
    let e0 = div50_triple(d0);
    let e1 = div50_triple(d1);
    let e2 = div50_triple(d2);
    let te = div50_triple(t);
    let g00 = dot_small(e0, e0) as i128;
    let g01 = dot_small(e0, e1) as i128;
    let g02 = dot_small(e0, e2) as i128;
    let g11 = dot_small(e1, e1) as i128;
    let g12 = dot_small(e1, e2) as i128;
    let g22 = dot_small(e2, e2) as i128;
    let r0 = dot_small(e0, te) as i128;
    let r1 = dot_small(e1, te) as i128;
    let r2 = dot_small(e2, te) as i128;
    let det = det3_exec(g00, g01, g02, g01, g11, g12, g02, g12, g22);
    if det < 10_000 {
        return None;
    }
    let num0 = det3_exec(r0, g01, g02, r1, g11, g12, r2, g12, g22);
    let num1 = det3_exec(g00, r0, g02, g01, r1, g12, g02, r2, g22);
    let num2 = det3_exec(g00, g01, r0, g01, g11, r1, g02, g12, r2);
    proof {
        if t == (0i64, 0i64, 0i64) {
            assert(r0 == 0 && r1 == 0 && r2 == 0) by (nonlinear_arith)
                requires
                    te.0 == 0,
                    te.1 == 0,
                    te.2 == 0,
                    r0 == te.0 as i128 * e0.0 as i128 + te.1 as i128 * e0.1 as i128 + te.2 as i128
                        * e0.2 as i128 || r0 == e0.0 as i128 * te.0 as i128 + e0.1 as i128
                        * te.1 as i128 + e0.2 as i128 * te.2 as i128,
                    r1 == e1.0 as i128 * te.0 as i128 + e1.1 as i128 * te.1 as i128 + e1.2 as i128
                        * te.2 as i128,
                    r2 == e2.0 as i128 * te.0 as i128 + e2.1 as i128 * te.1 as i128 + e2.2 as i128
                        * te.2 as i128,
            ;
            lemma_det3_zero_col(
                r0 as int,
                g01 as int,
                g02 as int,
                r1 as int,
                g11 as int,
                g12 as int,
                r2 as int,
                g12 as int,
                g22 as int,
            );
            lemma_det3_zero_col(
                g00 as int,
                r0 as int,
                g02 as int,
                g01 as int,
                r1 as int,
                g12 as int,
                g02 as int,
                r2 as int,
                g22 as int,
            );
            lemma_det3_zero_col(
                g00 as int,
                g01 as int,
                r0 as int,
                g01 as int,
                g11 as int,
                r1 as int,
                g02 as int,
                g12 as int,
                r2 as int,
            );
        }
    }
    let ghost nb: int = 6 * DET3_ENTRY_MAX as int * DET3_ENTRY_MAX as int * DET3_ENTRY_MAX as int;
    let w0 = clamp_div(num0, det, UNIT as i128, Ghost(nb), Ghost(10_000));
    let w1 = clamp_div(num1, det, UNIT as i128, Ghost(nb), Ghost(10_000));
    let w2 = clamp_div(num2, det, UNIT as i128, Ghost(nb), Ghost(10_000));
    Some((w0, w1, w2))
}


/// Every difference vector has components within `UNIT`.
pub open spec fn diffs_bounded(ds: Seq<(i64, i64, i64)>) -> bool {
    forall|i: int|
        0 <= i < ds.len() ==> {
            let d = #[trigger] ds[i];
            -UNIT <= d.0 <= UNIT && -UNIT <= d.1 <= UNIT && -UNIT <= d.2 <= UNIT
        }
}

/// The minimum-norm least-squares weights for four or more foreground
/// differences, from the 3x3 dual normal equations by Cramer's rule on
/// reduced-precision values; negative solutions are clamped to zero.
/// `None` when the system is (near) singular.
fn solve_many(diffs: &Vec<(i64, i64, i64)>, t: (i64, i64, i64)) -> (r: Option<Vec<i128>>)
    requires
        2 <= diffs@.len() <= MAX_FOREGROUNDS,
        diffs_bounded(diffs@),
        -UNIT <= t.0 <= UNIT,
        -UNIT <= t.1 <= UNIT,
        -UNIT <= t.2 <= UNIT,
    ensures
        r matches Some(ws) ==> {
            &&& ws@.len() == diffs@.len()
            &&& forall|i: int| 0 <= i < ws@.len() ==> 0 <= #[trigger] ws@[i] <= RAW_WEIGHT_MAX
            &&& (t == (0i64, 0i64, 0i64) ==> forall|i: int|
                0 <= i < ws@.len() ==> #[trigger] ws@[i] == 0)
        },
{
    let n = diffs.len();
    let mut es: Vec<(i64, i64, i64)> = Vec::new();
    let mut i: usize = 0;
    while i < n
        invariant
            n == diffs@.len(),
            diffs_bounded(diffs@),
            0 <= i <= n,
            es@.len() == i,
            forall|j: int|
                0 <= j < i ==> {
                    let e = #[trigger] es@[j];
                    -2040 <= e.0 <= 2040 && -2040 <= e.1 <= 2040 && -2040 <= e.2 <= 2040
                },
        decreases n - i,
    {
        es.push(div50_triple(diffs[i]));
        i += 1;
    }
    let mut m00: i128 = 0;
    let mut m01: i128 = 0;
    let mut m02: i128 = 0;
    let mut m11: i128 = 0;
    let mut m12: i128 = 0;
    let mut m22: i128 = 0;
    let mut k: usize = 0;
    while k < n
        invariant
            n == es@.len(),
            n <= MAX_FOREGROUNDS,
            forall|j: int|
                0 <= j < n ==> {
                    let e = #[trigger] es@[j];
                    -2040 <= e.0 <= 2040 && -2040 <= e.1 <= 2040 && -2040 <= e.2 <= 2040
                },
            0 <= k <= n,
            -(k as int) * 4_161_600 <= m00 <= (k as int) * 4_161_600,
            -(k as int) * 4_161_600 <= m01 <= (k as int) * 4_161_600,
            -(k as int) * 4_161_600 <= m02 <= (k as int) * 4_161_600,
            -(k as int) * 4_161_600 <= m11 <= (k as int) * 4_161_600,
            -(k as int) * 4_161_600 <= m12 <= (k as int) * 4_161_600,
            -(k as int) * 4_161_600 <= m22 <= (k as int) * 4_161_600,
        decreases n - k,
    {
        let e = es[k];
        proof {
            lemma_abs_prod_bound(e.0 as int, e.0 as int, 2040);
            lemma_abs_prod_bound(e.0 as int, e.1 as int, 2040);
            lemma_abs_prod_bound(e.0 as int, e.2 as int, 2040);
            lemma_abs_prod_bound(e.1 as int, e.1 as int, 2040);
            lemma_abs_prod_bound(e.1 as int, e.2 as int, 2040);
            lemma_abs_prod_bound(e.2 as int, e.2 as int, 2040);
            assert((k + 1) as int * 4_161_600 == (k as int) * 4_161_600 + 4_161_600)
                by (nonlinear_arith);
        }
        m00 = m00 + e.0 as i128 * e.0 as i128;
        m01 = m01 + e.0 as i128 * e.1 as i128;
        m02 = m02 + e.0 as i128 * e.2 as i128;
        m11 = m11 + e.1 as i128 * e.1 as i128;
        m12 = m12 + e.1 as i128 * e.2 as i128;
        m22 = m22 + e.2 as i128 * e.2 as i128;
        k += 1;
    }
    proof {
        assert((n as int) * 4_161_600 <= 64 * 4_161_600) by (nonlinear_arith)
            requires
                n <= 64,
        ;
    }
    let te = div50_triple(t);
    let r0 = 2040 * te.0 as i128;
    let r1 = 2040 * te.1 as i128;
    let r2 = 2040 * te.2 as i128;
    let det = det3_exec(m00, m01, m02, m01, m11, m12, m02, m12, m22);
    if det < 10_000 {
        return None;
    }
    let num0 = det3_exec(r0, m01, m02, r1, m11, m12, r2, m12, m22);
    let num1 = det3_exec(m00, r0, m02, m01, r1, m12, m02, r2, m22);
    let num2 = det3_exec(m00, m01, r0, m01, m11, r1, m02, m12, r2);
    proof {
        if t == (0i64, 0i64, 0i64) {
            assert(r0 == 0 && r1 == 0 && r2 == 0);
            lemma_det3_zero_col(
                r0 as int,
                m01 as int,
                m02 as int,
                r1 as int,
                m11 as int,
                m12 as int,
                r2 as int,
                m12 as int,
                m22 as int,
            );
            lemma_det3_zero_col(
                m00 as int,
                r0 as int,
                m02 as int,
                m01 as int,
                r1 as int,
                m12 as int,
                m02 as int,
                r2 as int,
                m22 as int,
            );
            lemma_det3_zero_col(
                m00 as int,
                m01 as int,
                r0 as int,
                m01 as int,
                m11 as int,
                r1 as int,
                m02 as int,
                m12 as int,
                r2 as int,
            );
        }
    }
    let ghost nb: int = 6 * DET3_ENTRY_MAX as int * DET3_ENTRY_MAX as int * DET3_ENTRY_MAX as int;
    let mut ws: Vec<i128> = Vec::new();
    let mut i2: usize = 0;
    while i2 < n
        invariant
            n == es@.len(),
            forall|j: int|
                0 <= j < n ==> {
                    let e = #[trigger] es@[j];
                    -2040 <= e.0 <= 2040 && -2040 <= e.1 <= 2040 && -2040 <= e.2 <= 2040
                },
            0 <= i2 <= n,
            ws@.len() == i2,
            det >= 10_000,
            -nb <= num0 <= nb,
            -nb <= num1 <= nb,
            -nb <= num2 <= nb,
            nb == 6 * DET3_ENTRY_MAX as int * DET3_ENTRY_MAX as int * DET3_ENTRY_MAX as int,
            forall|j: int| 0 <= j < i2 ==> 0 <= #[trigger] ws@[j] <= RAW_WEIGHT_MAX,
            t == (0i64, 0i64, 0i64) ==> num0 == 0 && num1 == 0 && num2 == 0,
            t == (0i64, 0i64, 0i64) ==> forall|j: int| 0 <= j < i2 ==> #[trigger] ws@[j] == 0,
        decreases n - i2,
    {
        let e = es[i2];
        proof {
            lemma_abs_prod_bound2(e.0 as int, 2040, num0 as int, nb);
            lemma_abs_prod_bound2(e.1 as int, 2040, num1 as int, nb);
            lemma_abs_prod_bound2(e.2 as int, 2040, num2 as int, nb);
        }
        let w_num = e.0 as i128 * num0 + e.1 as i128 * num1 + e.2 as i128 * num2;
        proof {
            assert(3 * 2040 * nb == 2040 * nb + 2040 * nb + 2040 * nb) by (nonlinear_arith);
            if t == (0i64, 0i64, 0i64) {
                assert(w_num == 0) by (nonlinear_arith)
                    requires
                        num0 == 0,
                        num1 == 0,
                        num2 == 0,
                        w_num == e.0 as i128 * num0 + e.1 as i128 * num1 + e.2 as i128 * num2,
                ;
            }
        }
        let w = clamp_div(w_num, det, 50, Ghost(3 * 2040 * nb), Ghost(10_000));
        ws.push(w);
        i2 += 1;
    }
    Some(ws)
}

/// All-zero weight lists sum to zero.
proof fn lemma_sum_all_zero(ws: Seq<i64>)
    requires
        forall|i: int| 0 <= i < ws.len() ==> #[trigger] ws[i] == 0,
    ensures
        sum_weights(ws) == 0,
    decreases ws.len(),
{
    if ws.len() > 0 {
        lemma_sum_all_zero(ws.drop_last());
    }
}

/// Turn raw least-squares weights into final fixed-point weights and alpha:
/// the alpha is the weight sum capped at one, and weights summing beyond one
/// are renormalized to sum to at most one.
fn finalize_weights(raw: &Vec<i128>) -> (out: (Vec<i64>, i64))
    requires
        raw@.len() <= MAX_FOREGROUNDS,
        forall|i: int| 0 <= i < raw@.len() ==> 0 <= #[trigger] raw@[i] <= RAW_WEIGHT_MAX,
    ensures
        out.0@.len() == raw@.len(),
        forall|i: int| 0 <= i < out.0@.len() ==> 0 <= #[trigger] out.0@[i] <= UNIT,
        0 <= out.1 <= UNIT,
        sum_weights(out.0@) <= out.1,
        out.1 == 0 ==> forall|i: int| 0 <= i < out.0@.len() ==> #[trigger] out.0@[i] == 0,
        out.1 == 0 <==> sum_raw(raw@) == 0,
        out.1 == if sum_raw(raw@) >= UNIT {
            UNIT as int
        } else {
            sum_raw(raw@)
        },
        out.1 < UNIT ==> sum_weights(out.0@) == out.1,
        sum_weights(out.0@) >= out.1 - raw@.len(),
        forall|i: int|
            0 <= i < out.0@.len() ==> #[trigger] out.0@[i] as int == (if sum_raw(raw@) >= UNIT {
                raw@[i] as int * (UNIT as int) / sum_raw(raw@)
            } else {
                raw@[i] as int
            }),
{
    let n = raw.len();
    let mut sum: i128 = 0;
    let mut i: usize = 0;
    while i < n
        invariant
            n == raw@.len(),
            n <= MAX_FOREGROUNDS,
            forall|j: int| 0 <= j < n ==> 0 <= #[trigger] raw@[j] <= RAW_WEIGHT_MAX,
            0 <= i <= n,
            sum == sum_raw(raw@.take(i as int)),
            0 <= sum <= (i as int) * RAW_WEIGHT_MAX,
        decreases n - i,
    {
        proof {
            assert(raw@.take(i + 1).drop_last() =~= raw@.take(i as int));
            assert(raw@.take(i + 1).last() == raw@[i as int]);
            assert((i + 1) as int * RAW_WEIGHT_MAX == (i as int) * RAW_WEIGHT_MAX + RAW_WEIGHT_MAX)
                by (nonlinear_arith);
        }
        sum = sum + raw[i];
        i += 1;
    }
    proof {
        assert(raw@.take(n as int) =~= raw@);
        assert((n as int) * RAW_WEIGHT_MAX <= 64 * RAW_WEIGHT_MAX) by (nonlinear_arith)
            requires
                n <= 64,
        ;
    }
    if sum <= 0 {
        proof {
            lemma_sum_raw_zero(raw@);
            lemma_sum_raw_nonneg(raw@);
            assert(sum_raw(raw@) == 0);
        }
        let mut zeros: Vec<i64> = Vec::new();
        let mut j: usize = 0;
        while j < n
            invariant
                0 <= j <= n,
                zeros@.len() == j,
                forall|k2: int| 0 <= k2 < j ==> #[trigger] zeros@[k2] == 0,
            decreases n - j,
        {
            zeros.push(0);
            j += 1;
        }
        proof {
            lemma_sum_all_zero(zeros@);
        }
        (zeros, 0)
    } else if sum >= UNIT as i128 {
        // Renormalize so that the weights sum to at most one.
        let mut out: Vec<i64> = Vec::new();
        let mut j: usize = 0;
        while j < n
            invariant
                n == raw@.len(),
                forall|k2: int| 0 <= k2 < n ==> 0 <= #[trigger] raw@[k2] <= RAW_WEIGHT_MAX,
                0 <= j <= n,
                out@.len() == j,
                sum == sum_raw(raw@),
                sum >= UNIT,
                forall|k2: int| 0 <= k2 < j ==> 0 <= #[trigger] out@[k2] <= UNIT,
                forall|k2: int|
                    0 <= k2 < j ==> #[trigger] out@[k2] as int == raw@[k2] as int * (UNIT as int)
                        / (sum as int),
                sum_weights(out@) * sum <= sum_raw(raw@.take(j as int)) * UNIT,
                sum_weights(out@) * sum >= sum_raw(raw@.take(j as int)) * UNIT - j * sum,
                sum_weights(out@) >= 0,
            decreases n - j,
        {
            let w = raw[j];
            proof {
                lemma_abs_prod_bound2(w as int, RAW_WEIGHT_MAX as int, UNIT as int, UNIT as int);
                lemma_sum_raw_elem(raw@, j as int);
                assert(w as int * UNIT as int <= sum * UNIT) by (nonlinear_arith)
                    requires
                        0 <= w <= sum,
                ;
                assert(0 <= w as int * UNIT as int) by (nonlinear_arith)
                    requires
                        w >= 0,
                ;
                lemma_div_le_bound(w as int * UNIT as int, sum as int, UNIT as int);
            }
            let wn = (w * UNIT as i128 / sum) as i64;
            proof {
                lemma_fundamental_div_mod(w as int * UNIT as int, sum as int);
                assert(wn as int * sum <= w as int * UNIT as int) by (nonlinear_arith)
                    requires
                        sum > 0,
                        w as int * UNIT as int == sum * (w as int * UNIT as int / sum as int) + (w
                            as int * UNIT as int) % (sum as int),
                        (w as int * UNIT as int) % (sum as int) >= 0,
                        wn == w as int * UNIT as int / sum as int,
                ;
                assert(out@.push(wn).drop_last() =~= out@);
                assert(raw@.take(j + 1).drop_last() =~= raw@.take(j as int));
                assert(raw@.take(j + 1).last() == w);
                assert(wn as int * sum > w as int * UNIT as int - sum) by (nonlinear_arith)
                    requires
                        sum > 0,
                        w as int * UNIT as int == sum * (w as int * UNIT as int / sum as int) + (w
                            as int * UNIT as int) % (sum as int),
                        (w as int * UNIT as int) % (sum as int) < sum,
                        wn == w as int * UNIT as int / sum as int,
                ;
                assert((sum_weights(out@) + wn) * sum == sum_weights(out@) * sum + wn as int * sum)
                    by (nonlinear_arith);
                assert((sum_raw(raw@.take(j as int)) + w) * UNIT == sum_raw(raw@.take(j as int))
                    * UNIT + w as int * UNIT) by (nonlinear_arith);
                assert((j + 1) * sum == j * sum + sum) by (nonlinear_arith);
            }
            out.push(wn);
            j += 1;
        }
        proof {
            assert(raw@.take(n as int) =~= raw@);
            assert(sum_weights(out@) <= UNIT) by (nonlinear_arith)
                requires
                    sum_weights(out@) * sum <= sum * UNIT,
                    sum > 0,
            ;
            // At most one fixed-point unit is lost to rounding per weight.
            assert(sum_weights(out@) >= UNIT - n) by (nonlinear_arith)
                requires
                    sum_weights(out@) * sum >= sum * UNIT - n * sum,
                    sum > 0,
            ;
        }
        (out, UNIT)
    } else {
        let mut out: Vec<i64> = Vec::new();
        let mut j: usize = 0;
        while j < n
            invariant
                n == raw@.len(),
                forall|k2: int| 0 <= k2 < n ==> 0 <= #[trigger] raw@[k2] <= RAW_WEIGHT_MAX,
                0 <= j <= n,
                out@.len() == j,
                sum == sum_raw(raw@),
                0 < sum < UNIT,
                forall|k2: int| 0 <= k2 < j ==> 0 <= #[trigger] out@[k2] <= UNIT,
                forall|k2: int| 0 <= k2 < j ==> #[trigger] out@[k2] as int == raw@[k2] as int,
                sum_weights(out@) == sum_raw(raw@.take(j as int)),
            decreases n - j,
        {
            let w = raw[j];
            proof {
                lemma_sum_raw_elem(raw@, j as int);
                assert(out@.push(w as i64).drop_last() =~= out@);
                assert(raw@.take(j + 1).drop_last() =~= raw@.take(j as int));
                assert(raw@.take(j + 1).last() == w);
            }
            out.push(w as i64);
            j += 1;
        }
        proof {
            assert(raw@.take(n as int) =~= raw@);
        }
        (out, sum as i64)
    }
}


/// Updating one entry changes the sum by the difference at that entry.
proof fn lemma_sum_update(ws: Seq<i64>, k: int, v: i64)
    requires
        0 <= k < ws.len(),
    ensures
        sum_weights(ws.update(k, v)) == sum_weights(ws) - ws[k] + v,
    decreases ws.len(),
{
    if k == ws.len() - 1 {
        assert(ws.update(k, v).drop_last() =~= ws.drop_last());
        assert(ws.update(k, v).last() == v);
    } else {
        assert(ws.update(k, v).drop_last() =~= ws.drop_last().update(k, v));
        assert(ws.update(k, v).last() == ws.last());
        lemma_sum_update(ws.drop_last(), k, v);
    }
}

/// When the observation equals the background, every single-color weight
/// vanishes.
proof fn lemma_single_weight_bg(obs: NormalizedColor, fg: NormalizedColor, bg: NormalizedColor)
    requires
        obs == bg,
    ensures
        single_weight(obs, fg, bg) == 0,
{
    let d = sub3(fg, bg);
    let t = sub3(obs, bg);
    assert(t.0 == 0 && t.1 == 0 && t.2 == 0);
    assert(dot3(t, d) == 0) by (nonlinear_arith)
        requires
            t.0 == 0,
            t.1 == 0,
            t.2 == 0,
            dot3(t, d) == t.0 * d.0 + t.1 * d.1 + t.2 * d.2,
    ;
}

/// A foreground that differs from the background has a positive difference
/// norm.
proof fn lemma_nsq_pos(fg: NormalizedColor, bg: NormalizedColor)
    requires
        fg != bg,
    ensures
        dot3(sub3(fg, bg), sub3(fg, bg)) > 0,
{
    let d = sub3(fg, bg);
    assert(d.0 != 0 || d.1 != 0 || d.2 != 0);
    assert(d.0 * d.0 + d.1 * d.1 + d.2 * d.2 > 0) by (nonlinear_arith)
        requires
            d.0 != 0 || d.1 != 0 || d.2 != 0,
    ;
}

/// A pure foreground pixel gets the full single-color weight.
proof fn lemma_single_weight_self(obs: NormalizedColor, fg: NormalizedColor, bg: NormalizedColor)
    requires
        obs == fg,
        fg != bg,
    ensures
        single_weight(obs, fg, bg) == UNIT,
{
    let d = sub3(fg, bg);
    let t = sub3(obs, bg);
    assert(t == d);
    let nsq = dot3(d, d);
    lemma_nsq_pos(fg, bg);
    lemma_div_multiples_vanish(UNIT as int, nsq);
    assert(nsq * (UNIT as int) == (nsq as int) * UNIT) by (nonlinear_arith);
}

fn zero_weights(n: usize) -> (ws: Vec<i64>)
    ensures
        ws@.len() == n,
        forall|i: int| 0 <= i < n ==> #[trigger] ws@[i] == 0,
        sum_weights(ws@) == 0,
{
    let mut ws: Vec<i64> = Vec::new();
    let mut i: usize = 0;
    while i < n
        invariant
            0 <= i <= n,
            ws@.len() == i,
            forall|j: int| 0 <= j < i ==> #[trigger] ws@[j] == 0,
        decreases n - i,
    {
        ws.push(0);
        i += 1;
    }
    proof {
        lemma_sum_all_zero(ws@);
    }
    ws
}

fn diffs_of(fgs: &Vec<NormalizedColor>, bg: NormalizedColor) -> (ds: Vec<(i64, i64, i64)>)
    requires
        all_wf(fgs@),
        bg.wf(),
    ensures
        ds@.len() == fgs@.len(),
        diffs_bounded(ds@),
        forall|i: int|
            0 <= i < ds@.len() ==> ((#[trigger] ds@[i]).0 as int, ds@[i].1 as int, ds@[i].2 as int)
                == sub3(fgs@[i], bg),
    decreases fgs@.len(),
{
    let n = fgs.len();
    let mut ds: Vec<(i64, i64, i64)> = Vec::new();
    let mut i: usize = 0;
    while i < n
        invariant
            n == fgs@.len(),
            all_wf(fgs@),
            bg.wf(),
            0 <= i <= n,
            ds@.len() == i,
            diffs_bounded(ds@),
            forall|j: int|
                0 <= j < i ==> ((#[trigger] ds@[j]).0 as int, ds@[j].1 as int, ds@[j].2 as int)
                    == sub3(fgs@[j], bg),
        decreases n - i,
    {
        ds.push(sub_exec(fgs[i], bg));
        i += 1;
    }
    ds
}

fn fallback_raw(n: usize) -> (raw: Vec<i128>)
    requires
        n >= 1,
    ensures
        raw@.len() == n,
        forall|i: int| 0 <= i < n ==> 0 <= #[trigger] raw@[i] <= RAW_WEIGHT_MAX,
        sum_raw(raw@) == UNIT,
        raw@[0] == UNIT as i128,
        forall|i: int| 1 <= i < n ==> #[trigger] raw@[i] == 0,
{
    let mut raw: Vec<i128> = Vec::new();
    raw.push(UNIT as i128);
    proof {
        assert(raw@.drop_last() =~= Seq::<i128>::empty());
        assert(sum_raw(Seq::<i128>::empty()) == 0);
    }
    let mut i: usize = 1;
    while i < n
        invariant
            1 <= i <= n,
            raw@.len() == i,
            raw@[0] == UNIT as i128,
            forall|j: int| 0 <= j < i ==> 0 <= #[trigger] raw@[j] <= RAW_WEIGHT_MAX,
            forall|j: int| 1 <= j < i ==> #[trigger] raw@[j] == 0,
            sum_raw(raw@) == UNIT,
        decreases n - i,
    {
        proof {
            assert(raw@.push(0).drop_last() =~= raw@);
        }
        raw.push(0);
        i += 1;
    }
    raw
}

/// Simple unmix of two or more foreground colors by least squares; used for
/// error evaluation during color deduction.  The alpha is the weight sum
/// capped at one; a singular two-color system falls back to the first
/// foreground at full weight.
fn unmix_multiple_colors_simple(
    obs: NormalizedColor,
    fgs: &Vec<NormalizedColor>,
    bg: NormalizedColor,
) -> (r: UnmixResult)
    requires
        obs.wf(),
        bg.wf(),
        all_wf(fgs@),
        2 <= fgs@.len() <= MAX_FOREGROUNDS,
    ensures
        r.wf(),
        r.weights@.len() == fgs@.len(),
        obs == bg ==> r.alpha == 0,
        r.alpha == UNIT || r.alpha == sum_weights(r.weights@),
        sum_weights(r.weights@) >= r.alpha - fgs@.len(),
        fgs@.len() == 2 && obs != bg && gram2_det(sub3(fgs@[0], bg), sub3(fgs@[1], bg)) <= 0
            ==> r.weights@ == seq![UNIT, 0i64] && r.alpha == UNIT,
        fgs@.len() == 2 && obs != bg && gram2_det(sub3(fgs@[0], bg), sub3(fgs@[1], bg)) > 0
            ==> r.weights@[0] as int == cramer2_final(obs, fgs@[0], fgs@[1], bg).0
                && r.weights@[1] as int == cramer2_final(obs, fgs@[0], fgs@[1], bg).1
                && r.alpha as int == cramer2_final(obs, fgs@[0], fgs@[1], bg).2,
{
    let n = fgs.len();
    let t = sub_exec(obs, bg);
    if t.0 == 0 && t.1 == 0 && t.2 == 0 {
        // An observation equal to the background has the all-zero
        // least-squares solution.
        proof {
            assert(obs == bg);
        }
        return UnmixResult { weights: zero_weights(n), alpha: 0 };
    }
    let ds = diffs_of(fgs, bg);
    let ghost singular2 = n == 2 && gram2_det(sub3(fgs@[0], bg), sub3(fgs@[1], bg)) <= 0;
    let raw: Vec<i128> = if n == 2 {
        match solve_two(ds[0], ds[1], t) {
            Some((w0, w1)) => {
                proof {
                    assert(!singular2);
                }
                let mut v: Vec<i128> = Vec::new();
                v.push(w0);
                v.push(w1);
                proof {
                    assert(v@.len() == 2 && v@.last() == w1);
                    assert(v@.drop_last() =~= seq![w0]);
                    assert(seq![w0].drop_last() =~= Seq::<i128>::empty());
                    assert(seq![w0].last() == w0);
                    assert(sum_raw(Seq::<i128>::empty()) == 0);
                    assert(sum_raw(seq![w0]) == w0);
                    assert(sum_raw(v@) == w0 + w1);
                }
                v
            },
            None => fallback_raw(n),
        }
    } else if n == 3 {
        match solve_three(ds[0], ds[1], ds[2], t) {
            Some((w0, w1, w2)) => {
                let mut v: Vec<i128> = Vec::new();
                v.push(w0);
                v.push(w1);
                v.push(w2);
                v
            },
            None => fallback_raw(n),
        }
    } else {
        match solve_many(&ds, t) {
            Some(v) => v,
            None => fallback_raw(n),
        }
    };
    let (weights, alpha) = finalize_weights(&raw);
    proof {
        if singular2 {
            // Fallback: the first foreground at full weight.
            assert(raw@[0] == UNIT as i128 && raw@[1] == 0);
            assert(sum_raw(raw@) == UNIT);
            lemma_div_multiples_vanish(UNIT as int, UNIT as int);
            assert(UNIT as int * (UNIT as int) / (UNIT as int) == UNIT) by {
                assert(UNIT as int * (UNIT as int) == (UNIT as int) * (UNIT as int));
            }
            assert(weights@[0] as int == UNIT as int * (UNIT as int) / (UNIT as int));
            assert(0int * (UNIT as int) == 0) by (nonlinear_arith);
            assert(weights@[1] as int == 0int * (UNIT as int) / (UNIT as int));
            assert(0int / (UNIT as int) == 0);
            assert(weights@ =~= seq![UNIT, 0i64]);
        }
    }
    UnmixResult { weights, alpha }
}

fn pair_blend_channel(fi: i64, p0: i64, fj: i64, p1: i64, b: i64) -> (r: i64)
    requires
        0 <= fi <= UNIT,
        0 <= fj <= UNIT,
        0 <= b <= UNIT,
        0 <= p0,
        0 <= p1,
        p0 + p1 <= UNIT,
    ensures
        0 <= r <= UNIT,
{
    proof {
        assert(0 <= p0 as int * fi as int <= p0 as int * UNIT) by (nonlinear_arith)
            requires
                0 <= p0,
                0 <= fi <= UNIT,
        ;
        assert(0 <= p1 as int * fj as int <= p1 as int * UNIT) by (nonlinear_arith)
            requires
                0 <= p1,
                0 <= fj <= UNIT,
        ;
        assert(0 <= (UNIT - p0 - p1) as int * b as int <= (UNIT - p0 - p1) as int * UNIT)
            by (nonlinear_arith)
            requires
                0 <= b <= UNIT,
                p0 + p1 <= UNIT,
        ;
        assert(p0 as int * UNIT + p1 as int * UNIT + (UNIT - p0 - p1) as int * UNIT == UNIT as int
            * UNIT) by (nonlinear_arith);
        lemma_div_le_bound(
            p0 as int * fi as int + p1 as int * fj as int + (UNIT - p0 - p1) as int * b as int,
            UNIT as int,
            UNIT as int,
        );
    }
    ((p0 as i128 * fi as i128 + p1 as i128 * fj as i128 + (UNIT - p0 - p1) as i128 * b as i128)
        / UNIT as i128) as i64
}

/// Floor-renormalized halves of a pair do not exceed the full unit.
proof fn lemma_pair_norm_sum(a: int, b: int, s: int)
    requires
        a >= 0,
        b >= 0,
        a + b == s,
        s > 0,
    ensures
        0 <= a * UNIT / s,
        0 <= b * UNIT / s,
        a * UNIT / s + b * UNIT / s <= UNIT,
        a * UNIT / s + b * UNIT / s >= UNIT - 2,
        a * UNIT / s <= UNIT,
        b * UNIT / s <= UNIT,
{
    lemma_fundamental_div_mod(a * UNIT, s);
    lemma_fundamental_div_mod(b * UNIT, s);
    assert(a * UNIT >= 0) by (nonlinear_arith)
        requires
            a >= 0,
    ;
    assert(b * UNIT >= 0) by (nonlinear_arith)
        requires
            b >= 0,
    ;
    assert(a * UNIT / s >= 0) by (nonlinear_arith)
        requires
            a * UNIT >= 0,
            s > 0,
    ;
    assert(b * UNIT / s >= 0) by (nonlinear_arith)
        requires
            b * UNIT >= 0,
            s > 0,
    ;
    assert(a * UNIT / s + b * UNIT / s <= UNIT) by (nonlinear_arith)
        requires
            a * UNIT == s * (a * UNIT / s) + (a * UNIT) % s,
            b * UNIT == s * (b * UNIT / s) + (b * UNIT) % s,
            (a * UNIT) % s >= 0,
            (b * UNIT) % s >= 0,
            a + b == s,
            s > 0,
    ;
    assert(a * UNIT / s + b * UNIT / s >= UNIT - 2) by (nonlinear_arith)
        requires
            a * UNIT == s * (a * UNIT / s) + (a * UNIT) % s,
            b * UNIT == s * (b * UNIT / s) + (b * UNIT) % s,
            (a * UNIT) % s < s,
            (b * UNIT) % s < s,
            a + b == s,
            s > 0,
    ;
}

/// The finalized two-color least-squares outcome: both fixed-point
/// weights (renormalized when they sum beyond one) and the capped alpha.
pub open spec fn cramer2_final(
    obs: NormalizedColor,
    f0: NormalizedColor,
    f1: NormalizedColor,
    bg: NormalizedColor,
) -> (int, int, int) {
    let d0 = sub3(f0, bg);
    let d1 = sub3(f1, bg);
    let t = sub3(obs, bg);
    let det = gram2_det(d0, d1);
    let r0 = cramer2_weight_fx(cramer2_num0(d0, d1, t), det);
    let r1 = cramer2_weight_fx(cramer2_num1(d0, d1, t), det);
    let s = r0 + r1;
    if s >= UNIT {
        (r0 * UNIT / s, r1 * UNIT / s, UNIT as int)
    } else {
        (r0, r1, s)
    }
}

/// The capped weight sum of the exact two-color least-squares solution:
/// the opacity that the full least-squares candidate offers.
pub open spec fn cramer2_alpha(
    obs: NormalizedColor,
    f0: NormalizedColor,
    f1: NormalizedColor,
    bg: NormalizedColor,
) -> int {
    let d0 = sub3(f0, bg);
    let d1 = sub3(f1, bg);
    let t = sub3(obs, bg);
    let det = gram2_det(d0, d1);
    let s = cramer2_weight_fx(cramer2_num0(d0, d1, t), det) + cramer2_weight_fx(
        cramer2_num1(d0, d1, t),
        det,
    );
    if s >= UNIT {
        UNIT as int
    } else {
        s
    }
}

/// A zero target has zero Cramer numerators.
proof fn lemma_cramer2_zero(d0: (int, int, int), d1: (int, int, int), t: (int, int, int))
    requires
        t == (0int, 0int, 0int),
    ensures
        cramer2_num0(d0, d1, t) == 0,
        cramer2_num1(d0, d1, t) == 0,
{
    assert(dot3(d0, t) == 0 && dot3(d1, t) == 0) by (nonlinear_arith)
        requires
            t.0 == 0,
            t.1 == 0,
            t.2 == 0,
            dot3(d0, t) == d0.0 * t.0 + d0.1 * t.1 + d0.2 * t.2,
            dot3(d1, t) == d1.0 * t.0 + d1.1 * t.1 + d1.2 * t.2,
    ;
    assert(0 * dot3(d1, d1) == 0 && dot3(d0, d1) * 0 == 0 && dot3(d0, d0) * 0 == 0 && dot3(
        d0,
        d1,
    ) * 0 == 0) by (nonlinear_arith);
}

/// For two foregrounds, the optimized result is one of the tried
/// candidates: fully transparent, one foreground alone at its in-tolerance
/// projection weight, or the exact two-color least-squares solution.
pub open spec fn pair_winner(
    obs: NormalizedColor,
    f0: NormalizedColor,
    f1: NormalizedColor,
    bg: NormalizedColor,
    ws: Seq<i64>,
    alpha: i64,
) -> bool {
    ||| alpha == 0
    ||| (exists|i: int|
        0 <= i < 2 && close_to_single(
            obs,
            if i == 0 {
                f0
            } else {
                f1
            },
            bg,
            RECON_TOL as int,
        ) && alpha == single_weight(
            obs,
            if i == 0 {
                f0
            } else {
                f1
            },
            bg,
        ) && #[trigger] ws[i] == alpha && ws[1 - i] == 0)
    ||| (alpha as int == cramer2_final(obs, f0, f1, bg).2 && ws[0] as int == cramer2_final(
        obs,
        f0,
        f1,
        bg,
    ).0 && ws[1] as int == cramer2_final(obs, f0, f1, bg).1)
}

/// Unmix with multiple foreground colors, optimizing for maximum opacity
/// while keeping the reconstruction within `RECON_TOL`: tries the full
/// least-squares solution, every single foreground alone, and every pair.
fn unmix_multiple_colors_optimized(
    obs: NormalizedColor,
    fgs: &Vec<NormalizedColor>,
    bg: NormalizedColor,
) -> (r: UnmixResult)
    requires
        obs.wf(),
        bg.wf(),
        all_wf(fgs@),
        2 <= fgs@.len() <= MAX_FOREGROUNDS,
    ensures
        r.wf(),
        r.weights@.len() == fgs@.len(),
        obs == bg ==> r.alpha == 0,
        forall|i: int|
            0 <= i < fgs@.len() && close_to_single(obs, #[trigger] fgs@[i], bg, RECON_TOL as int)
                ==> r.alpha >= single_weight(obs, fgs@[i], bg),
        fgs@.len() == 2 && gram2_det(sub3(fgs@[0], bg), sub3(fgs@[1], bg)) > 0 ==> r.alpha
            >= cramer2_alpha(obs, fgs@[0], fgs@[1], bg),
        sum_weights(r.weights@) >= r.alpha - fgs@.len(),
        fgs@.len() == 2 ==> pair_winner(obs, fgs@[0], fgs@[1], bg, r.weights@, r.alpha),
{
    let n = fgs.len();
    let t = sub_exec(obs, bg);
    if t.0 == 0 && t.1 == 0 && t.2 == 0 {
        proof {
            assert forall|i: int|
                0 <= i < fgs@.len() implies single_weight(obs, #[trigger] fgs@[i], bg) == 0 by {
                lemma_single_weight_bg(obs, fgs@[i], bg);
            }
            if fgs@.len() == 2 {
                lemma_cramer2_zero(
                    sub3(fgs@[0], bg),
                    sub3(fgs@[1], bg),
                    sub3(obs, bg),
                );
                assert(cramer2_alpha(obs, fgs@[0], fgs@[1], bg) == 0);
            }
        }
        return UnmixResult { weights: zero_weights(n), alpha: 0 };
    }
    let ds = diffs_of(fgs, bg);
    let mut best_w: Vec<i64> = zero_weights(n);
    let mut best_alpha: i64 = 0;

    // The opacity the full least-squares candidate offers, which the
    // search may only improve on.
    let ghost floor: int = if n == 2 && gram2_det(sub3(fgs@[0], bg), sub3(fgs@[1], bg)) > 0 {
        cramer2_alpha(obs, fgs@[0], fgs@[1], bg)
    } else {
        0
    };

    // Approach 1: the full least-squares solution over all colors.
    let solved: Option<Vec<i128>> = if n == 2 {
        match solve_two(ds[0], ds[1], t) {
            Some((w0, w1)) => {
                let mut v: Vec<i128> = Vec::new();
                v.push(w0);
                v.push(w1);
                proof {
                    assert(v@.len() == 2 && v@.last() == w1);
                    assert(v@.drop_last() =~= seq![w0]);
                    assert(seq![w0].drop_last() =~= Seq::<i128>::empty());
                    assert(seq![w0].last() == w0);
                    assert(sum_raw(Seq::<i128>::empty()) == 0);
                    assert(sum_raw(seq![w0]) == w0);
                    assert(sum_raw(v@) == w0 + w1);
                    let d0s = sub3(fgs@[0], bg);
                    let d1s = sub3(fgs@[1], bg);
                    let ts = sub3(obs, bg);
                    assert(v@[0] as int == cramer2_weight_fx(
                        cramer2_num0(d0s, d1s, ts),
                        gram2_det(d0s, d1s),
                    ));
                    assert(v@[1] as int == cramer2_weight_fx(
                        cramer2_num1(d0s, d1s, ts),
                        gram2_det(d0s, d1s),
                    ));
                    assert(gram2_det(d0s, d1s) > 0);
                }
                Some(v)
            },
            None => None,
        }
    } else if n == 3 {
        match solve_three(ds[0], ds[1], ds[2], t) {
            Some((w0, w1, w2)) => {
                let mut v: Vec<i128> = Vec::new();
                v.push(w0);
                v.push(w1);
                v.push(w2);
                Some(v)
            },
            None => None,
        }
    } else {
        solve_many(&ds, t)
    };
    match solved {
        Some(raw) => {
            let (ws, alpha) = finalize_weights(&raw);
            proof {
                if n == 2 && gram2_det(sub3(fgs@[0], bg), sub3(fgs@[1], bg)) > 0 {
                    assert(alpha as int == floor);
                    // The finalized weights are exactly the renormalized
                    // Cramer solution.
                    let fin = cramer2_final(obs, fgs@[0], fgs@[1], bg);
                    if sum_raw(raw@) >= UNIT {
                        assert(ws@[0] as int == fin.0 && ws@[1] as int == fin.1);
                    } else {
                        assert(ws@[0] as int == fin.0 && ws@[1] as int == fin.1);
                    }
                    assert(alpha as int == fin.2);
                }
            }
            if alpha > best_alpha {
                best_w = ws;
                best_alpha = alpha;
            }
            proof {
                assert(best_alpha as int >= floor);
                if n == 2 {
                    assert(pair_winner(obs, fgs@[0], fgs@[1], bg, best_w@, best_alpha));
                }
            }
        },
        None => {
            proof {
                assert(floor == 0);
                if n == 2 {
                    assert(pair_winner(obs, fgs@[0], fgs@[1], bg, best_w@, best_alpha));
                }
            }
        },
    }

    // Approach 2: each single foreground color alone, kept only when its
    // reconstruction is within tolerance and its opacity beats the best.
    let mut i: usize = 0;
    while i < n
        invariant
            n == fgs@.len(),
            2 <= n <= MAX_FOREGROUNDS,
            obs.wf(),
            bg.wf(),
            all_wf(fgs@),
            0 <= i <= n,
            best_w@.len() == n,
            forall|j: int| 0 <= j < n ==> 0 <= #[trigger] best_w@[j] <= UNIT,
            0 <= best_alpha <= UNIT,
            best_alpha as int >= floor,
            sum_weights(best_w@) <= best_alpha,
            sum_weights(best_w@) >= best_alpha - n,
            n == 2 ==> pair_winner(obs, fgs@[0], fgs@[1], bg, best_w@, best_alpha),
            best_alpha == 0 ==> forall|j: int| 0 <= j < n ==> #[trigger] best_w@[j] == 0,
            forall|j: int|
                0 <= j < i && close_to_single(obs, #[trigger] fgs@[j], bg, RECON_TOL as int)
                    ==> best_alpha >= single_weight(obs, fgs@[j], bg),
        decreases n - i,
    {
        let fg = fgs[i];
        let d = sub_exec(fg, bg);
        let nsq = dot_exec(d, d);
        if nsq != 0 {
            let w = single_weight_exec(obs, fg, bg);
            let recon = blend_exec(fg, w, bg);
            let dd = sub_exec(recon, obs);
            let errsq = dot_exec(dd, dd);
            if w > best_alpha && errsq < RECON_TOL * RECON_TOL {
                let mut ws = zero_weights(n);
                proof {
                    lemma_sum_update(ws@, i as int, w);
                }
                ws.set(i, w);
                proof {
                    if n == 2 {
                        // One foreground alone won this round.
                        assert(close_to_single(obs, fgs@[i as int], bg, RECON_TOL as int));
                        assert(ws@[i as int] == w);
                        assert(ws@[1 - i as int] == 0);
                        assert(pair_winner(obs, fgs@[0], fgs@[1], bg, ws@, w));
                    }
                }
                best_w = ws;
                best_alpha = w;
            }
        }
        i += 1;
    }

    // Approach 3: pairs of foreground colors, verified against tolerance.
    if best_alpha < 99 * UNIT / 100 {
        let mut i2: usize = 0;
        while i2 < n
            invariant
                n == fgs@.len(),
                2 <= n <= MAX_FOREGROUNDS,
                obs.wf(),
                bg.wf(),
                all_wf(fgs@),
                ds@.len() == n,
                diffs_bounded(ds@),
                -UNIT <= t.0 <= UNIT,
                -UNIT <= t.1 <= UNIT,
                -UNIT <= t.2 <= UNIT,
                0 <= i2 <= n,
                best_w@.len() == n,
                forall|j: int| 0 <= j < n ==> 0 <= #[trigger] best_w@[j] <= UNIT,
                0 <= best_alpha <= UNIT,
                best_alpha as int >= floor,
                sum_weights(best_w@) <= best_alpha,
                sum_weights(best_w@) >= best_alpha - n,
                n == 2 ==> pair_winner(obs, fgs@[0], fgs@[1], bg, best_w@, best_alpha),
                forall|q: int|
                    0 <= q < n ==> ((#[trigger] ds@[q]).0 as int, ds@[q].1 as int, ds@[q].2 as int)
                        == sub3(fgs@[q], bg),
                (t.0 as int, t.1 as int, t.2 as int) == sub3(obs, bg),
                best_alpha == 0 ==> forall|j: int| 0 <= j < n ==> #[trigger] best_w@[j] == 0,
                forall|j: int|
                    0 <= j < n && close_to_single(obs, #[trigger] fgs@[j], bg, RECON_TOL as int)
                        ==> best_alpha >= single_weight(obs, fgs@[j], bg),
            decreases n - i2,
        {
            let mut j2: usize = i2 + 1;
            while j2 < n
                invariant
                    n == fgs@.len(),
                    2 <= n <= MAX_FOREGROUNDS,
                    obs.wf(),
                    bg.wf(),
                    all_wf(fgs@),
                    ds@.len() == n,
                    diffs_bounded(ds@),
                    -UNIT <= t.0 <= UNIT,
                    -UNIT <= t.1 <= UNIT,
                    -UNIT <= t.2 <= UNIT,
                    0 <= i2 < n,
                    i2 < j2 <= n,
                    best_w@.len() == n,
                    forall|j: int| 0 <= j < n ==> 0 <= #[trigger] best_w@[j] <= UNIT,
                    0 <= best_alpha <= UNIT,
                    best_alpha as int >= floor,
                    sum_weights(best_w@) <= best_alpha,
                    sum_weights(best_w@) >= best_alpha - n,
                    n == 2 ==> pair_winner(obs, fgs@[0], fgs@[1], bg, best_w@, best_alpha),
                    forall|q: int|
                        0 <= q < n ==> ((#[trigger] ds@[q]).0 as int, ds@[q].1 as int, ds@[q].2
                            as int) == sub3(fgs@[q], bg),
                    (t.0 as int, t.1 as int, t.2 as int) == sub3(obs, bg),
                    best_alpha == 0 ==> forall|j: int| 0 <= j < n ==> #[trigger] best_w@[j] == 0,
                    forall|j: int|
                        0 <= j < n && close_to_single(obs, #[trigger] fgs@[j], bg, RECON_TOL as int)
                            ==> best_alpha >= single_weight(obs, fgs@[j], bg),
                decreases n - j2,
            {
                match solve_two(ds[i2], ds[j2], t) {
                    Some((rw0, rw1)) => {
                        let sum = rw0 + rw1;
                        if sum > 0 {
                            let (p0, p1, alpha_c): (i64, i64, i64) = if sum > UNIT as i128 {
                                proof {
                                    lemma_pair_norm_sum(rw0 as int, rw1 as int, sum as int);
                                }
                                (
                                    (rw0 * UNIT as i128 / sum) as i64,
                                    (rw1 * UNIT as i128 / sum) as i64,
                                    UNIT,
                                )
                            } else {
                                (rw0 as i64, rw1 as i64, sum as i64)
                            };
                            let recon = NormalizedColor {
                                r: pair_blend_channel(fgs[i2].r, p0, fgs[j2].r, p1, bg.r),
                                g: pair_blend_channel(fgs[i2].g, p0, fgs[j2].g, p1, bg.g),
                                b: pair_blend_channel(fgs[i2].b, p0, fgs[j2].b, p1, bg.b),
                            };
                            let dd = sub_exec(recon, obs);
                            let errsq = dot_exec(dd, dd);
                            if alpha_c > best_alpha && errsq < RECON_TOL * RECON_TOL {
                                let mut ws = zero_weights(n);
                                proof {
                                    lemma_sum_update(ws@, i2 as int, p0);
                                }
                                ws.set(i2, p0);
                                proof {
                                    lemma_sum_update(ws@, j2 as int, p1);
                                }
                                ws.set(j2, p1);
                                proof {
                                    if n == 2 {
                                        // The only pair of two foregrounds is
                                        // the full least-squares candidate.
                                        assert(i2 == 0 && j2 == 1);
                                        let d0s = sub3(fgs@[0], bg);
                                        let d1s = sub3(fgs@[1], bg);
                                        let ts = sub3(obs, bg);
                                        let fin = cramer2_final(obs, fgs@[0], fgs@[1], bg);
                                        assert(rw0 as int == cramer2_weight_fx(
                                            cramer2_num0(d0s, d1s, ts),
                                            gram2_det(d0s, d1s),
                                        ));
                                        assert(rw1 as int == cramer2_weight_fx(
                                            cramer2_num1(d0s, d1s, ts),
                                            gram2_det(d0s, d1s),
                                        ));
                                        if sum > UNIT as i128 {
                                            assert(p0 as int == fin.0 && p1 as int == fin.1
                                                && alpha_c as int == fin.2);
                                        } else if sum == UNIT as i128 {
                                            lemma_div_multiples_vanish(
                                                rw0 as int,
                                                UNIT as int,
                                            );
                                            lemma_div_multiples_vanish(
                                                rw1 as int,
                                                UNIT as int,
                                            );
                                            assert(rw0 as int * (UNIT as int) == (UNIT as int)
                                                * (rw0 as int)) by (nonlinear_arith);
                                            assert(rw1 as int * (UNIT as int) == (UNIT as int)
                                                * (rw1 as int)) by (nonlinear_arith);
                                            assert(p0 as int == fin.0 && p1 as int == fin.1
                                                && alpha_c as int == fin.2);
                                        } else {
                                            assert(p0 as int == fin.0 && p1 as int == fin.1
                                                && alpha_c as int == fin.2);
                                        }
                                        assert(ws@[0] == p0 && ws@[1] == p1);
                                        assert(pair_winner(
                                            obs,
                                            fgs@[0],
                                            fgs@[1],
                                            bg,
                                            ws@,
                                            alpha_c,
                                        ));
                                    }
                                }
                                best_w = ws;
                                best_alpha = alpha_c;
                            }
                        }
                    },
                    None => {},
                }
                j2 += 1;
            }
            i2 += 1;
        }
    }

    UnmixResult { weights: best_w, alpha: best_alpha }
}

/// Everything the simple (non-opacity-optimizing) engine promises of one
/// outcome, bundled so that callers can quantify over outcomes.  For one
/// foreground the outcome is the exact projection; for two it is the
/// exact renormalized Cramer solution or the stated singular fallback.
pub open spec fn simple_outcome_ok(
    observed: Color,
    fgs: Seq<NormalizedColor>,
    bg: NormalizedColor,
    res: UnmixResult,
) -> bool {
    &&& res.wf()
    &&& res.weights@.len() == fgs.len()
    &&& sum_weights(res.weights@) >= res.alpha - fgs.len()
    &&& (norm_color(observed) == bg ==> res.alpha == 0)
    &&& (fgs.len() == 0 ==> res.alpha == 0)
    &&& (fgs.len() == 1 ==> res.weights@[0] == single_weight(norm_color(observed), fgs[0], bg)
        && res.alpha == res.weights@[0])
    &&& (fgs.len() >= 2 ==> (res.alpha == UNIT || res.alpha == sum_weights(res.weights@)))
    &&& (fgs.len() == 2 && norm_color(observed) != bg && gram2_det(
        sub3(fgs[0], bg),
        sub3(fgs[1], bg),
    ) <= 0 ==> res.weights@ == seq![UNIT, 0i64] && res.alpha == UNIT)
    &&& (fgs.len() == 2 && norm_color(observed) != bg && gram2_det(
        sub3(fgs[0], bg),
        sub3(fgs[1], bg),
    ) > 0 ==> res.weights@[0] as int == cramer2_final(norm_color(observed), fgs[0], fgs[1], bg).0
        && res.weights@[1] as int == cramer2_final(norm_color(observed), fgs[0], fgs[1], bg).1
        && res.alpha as int == cramer2_final(norm_color(observed), fgs[0], fgs[1], bg).2)
}

/// Everything the opacity-optimizing engine promises of one outcome,
/// bundled so that callers can quantify over outcomes.
pub open spec fn optimized_outcome_ok(
    observed: Color,
    fgs: Seq<NormalizedColor>,
    bg: NormalizedColor,
    res: UnmixResult,
) -> bool {
    &&& res.wf()
    &&& res.weights@.len() == fgs.len()
    &&& sum_weights(res.weights@) >= res.alpha - fgs.len()
    &&& (norm_color(observed) == bg ==> res.alpha == 0)
    &&& (fgs.len() == 0 ==> res.alpha == 0)
    &&& (fgs.len() == 1 ==> res.weights@[0] == single_weight(norm_color(observed), fgs[0], bg)
        && res.alpha == res.weights@[0])
    &&& (fgs.len() >= 2 ==> forall|i: int|
        0 <= i < fgs.len() && close_to_single(
            norm_color(observed),
            #[trigger] fgs[i],
            bg,
            RECON_TOL as int,
        ) ==> res.alpha >= single_weight(norm_color(observed), fgs[i], bg))
    &&& (fgs.len() == 2 && gram2_det(sub3(fgs[0], bg), sub3(fgs[1], bg)) > 0 ==> res.alpha
        >= cramer2_alpha(norm_color(observed), fgs[0], fgs[1], bg))
    &&& (fgs.len() == 2 ==> pair_winner(
        norm_color(observed),
        fgs[0],
        fgs[1],
        bg,
        res.weights@,
        res.alpha,
    ))
}

/// Internal unmix function with opacity optimization control.
pub fn unmix_colors_internal(
    observed: Color,
    foreground_colors: &Vec<NormalizedColor>,
    background: NormalizedColor,
    optimize_opacity: bool,
) -> (r: UnmixResult)
    requires
        background.wf(),
        all_wf(foreground_colors@),
        foreground_colors@.len() <= MAX_FOREGROUNDS,
    ensures
        r.wf(),
        r.weights@.len() == foreground_colors@.len(),
        sum_weights(r.weights@) >= r.alpha - foreground_colors@.len(),
        norm_color(observed) == background ==> r.alpha == 0,
        foreground_colors@.len() == 0 ==> r.alpha == 0,
        foreground_colors@.len() == 1 ==> r.weights@[0] == single_weight(
            norm_color(observed),
            foreground_colors@[0],
            background,
        ) && r.alpha == r.weights@[0],
        optimize_opacity && foreground_colors@.len() >= 2 ==> forall|i: int|
            0 <= i < foreground_colors@.len() && close_to_single(
                norm_color(observed),
                #[trigger] foreground_colors@[i],
                background,
                RECON_TOL as int,
            ) ==> r.alpha >= single_weight(
                norm_color(observed),
                foreground_colors@[i],
                background,
            ),
        !optimize_opacity && foreground_colors@.len() >= 2 ==> (r.alpha == UNIT || r.alpha
            == sum_weights(r.weights@)),
        optimize_opacity && foreground_colors@.len() == 2 && gram2_det(
            sub3(foreground_colors@[0], background),
            sub3(foreground_colors@[1], background),
        ) > 0 ==> r.alpha >= cramer2_alpha(
            norm_color(observed),
            foreground_colors@[0],
            foreground_colors@[1],
            background,
        ),
        !optimize_opacity && foreground_colors@.len() == 2 && norm_color(observed) != background
            && gram2_det(
            sub3(foreground_colors@[0], background),
            sub3(foreground_colors@[1], background),
        ) <= 0 ==> r.weights@ == seq![UNIT, 0i64] && r.alpha == UNIT,
        !optimize_opacity && foreground_colors@.len() == 2 && norm_color(observed) != background
            && gram2_det(
            sub3(foreground_colors@[0], background),
            sub3(foreground_colors@[1], background),
        ) > 0 ==> r.weights@[0] as int == cramer2_final(
            norm_color(observed),
            foreground_colors@[0],
            foreground_colors@[1],
            background,
        ).0 && r.weights@[1] as int == cramer2_final(
            norm_color(observed),
            foreground_colors@[0],
            foreground_colors@[1],
            background,
        ).1 && r.alpha as int == cramer2_final(
            norm_color(observed),
            foreground_colors@[0],
            foreground_colors@[1],
            background,
        ).2,
        !optimize_opacity ==> simple_outcome_ok(observed, foreground_colors@, background, r),
        optimize_opacity ==> optimized_outcome_ok(observed, foreground_colors@, background, r),
        optimize_opacity && foreground_colors@.len() == 2 ==> pair_winner(
            norm_color(observed),
            foreground_colors@[0],
            foreground_colors@[1],
            background,
            r.weights@,
            r.alpha,
        ),
{
    let obs = normalize_color(observed);
    let n = foreground_colors.len();
    if n == 0 {
        UnmixResult { weights: Vec::new(), alpha: 0 }
    } else if n == 1 {
        let w = single_weight_exec(obs, foreground_colors[0], background);
        proof {
            if obs == background {
                lemma_single_weight_bg(obs, foreground_colors@[0], background);
            }
        }
        let mut weights: Vec<i64> = Vec::new();
        weights.push(w);
        proof {
            assert(weights@.drop_last() =~= Seq::<i64>::empty());
            assert(sum_weights(Seq::<i64>::empty()) == 0);
        }
        UnmixResult { weights, alpha: w }
    } else if optimize_opacity {
        unmix_multiple_colors_optimized(obs, foreground_colors, background)
    } else {
        unmix_multiple_colors_simple(obs, foreground_colors, background)
    }
}

/// Unmix an observed color into foreground components.
///
/// Given an observed color and known foreground/background colors,
/// determines how much of each foreground color contributed to the
/// observed color, preferring the reconstruction with the highest opacity.
pub fn unmix_colors(
    observed: Color,
    foreground_colors: &Vec<NormalizedColor>,
    background: NormalizedColor,
) -> (r: UnmixResult)
    requires
        background.wf(),
        all_wf(foreground_colors@),
        foreground_colors@.len() <= MAX_FOREGROUNDS,
    ensures
        r.wf(),
        r.weights@.len() == foreground_colors@.len(),
        sum_weights(r.weights@) >= r.alpha - foreground_colors@.len(),
        norm_color(observed) == background ==> r.alpha == 0,
        foreground_colors@.len() == 0 ==> r.alpha == 0,
        foreground_colors@.len() == 1 ==> r.weights@[0] == single_weight(
            norm_color(observed),
            foreground_colors@[0],
            background,
        ) && r.alpha == r.weights@[0],
        foreground_colors@.len() == 1 && foreground_colors@[0] == norm_color(observed)
            && foreground_colors@[0] != background ==> r.weights@[0] == UNIT && r.alpha == UNIT,
        foreground_colors@.len() == 1 && foreground_colors@[0] == background ==> r.weights@[0] == 0
            && r.alpha == 0,
        foreground_colors@.len() >= 2 ==> forall|i: int|
            0 <= i < foreground_colors@.len() && close_to_single(
                norm_color(observed),
                #[trigger] foreground_colors@[i],
                background,
                RECON_TOL as int,
            ) ==> r.alpha >= single_weight(
                norm_color(observed),
                foreground_colors@[i],
                background,
            ),
        foreground_colors@.len() == 2 && gram2_det(
            sub3(foreground_colors@[0], background),
            sub3(foreground_colors@[1], background),
        ) > 0 ==> r.alpha >= cramer2_alpha(
            norm_color(observed),
            foreground_colors@[0],
            foreground_colors@[1],
            background,
        ),
        foreground_colors@.len() == 2 ==> pair_winner(
            norm_color(observed),
            foreground_colors@[0],
            foreground_colors@[1],
            background,
            r.weights@,
            r.alpha,
        ),
{
    let r = unmix_colors_internal(observed, foreground_colors, background, true);
    proof {
        if foreground_colors@.len() == 1 {
            let obs = norm_color(observed);
            if foreground_colors@[0] == obs && foreground_colors@[0] != background {
                lemma_single_weight_self(obs, foreground_colors@[0], background);
            }
            if foreground_colors@[0] == background {
                let d = sub3(foreground_colors@[0], background);
                assert(d.0 == 0 && d.1 == 0 && d.2 == 0);
                assert(dot3(d, d) == 0) by (nonlinear_arith)
                    requires
                        d.0 == 0,
                        d.1 == 0,
                        d.2 == 0,
                        dot3(d, d) == d.0 * d.0 + d.1 * d.1 + d.2 * d.2,
                ;
            }
        }
    }
    r
}

} // verus!
