//! Deduction of unknown foreground colors from the image's own color
//! statistics.

use vstd::prelude::*;

use crate::color::{norm_color, normalize_color, Color, ForegroundColorSpec, NormalizedColor};
use crate::observe::pixel_colors;
use crate::raster::Raster;
use crate::background::{color_count, lemma_count_pos_contains, tally_ok};
use crate::fixed::{isqrt, lemma_isqrt_lt, sqrt_floor, UNIT};
use crate::unmix::{
    all_wf, blend, blend_exec, color_distance, compute_result_color, dist_sq, result_color_spec,
    simple_outcome_ok, unmix_colors_internal, MAX_FOREGROUNDS, UnmixResult,
};

verus! {

/// Max candidates for the exhaustive two-unknown pair search; a larger
/// pool is first reduced to this size by greedy diverse selection.
pub const MAX_CANDIDATES_2_UNKNOWNS: usize = 20;

/// Max candidates for the full three-unknown search.
pub const MAX_CANDIDATES_3_UNKNOWNS_ALL: usize = 25;

/// Candidates kept for a large three-unknown search.
pub const MAX_CANDIDATES_3_UNKNOWNS_SELECTED: usize = 20;

/// How many of the specifications are unknown.
pub open spec fn count_unknown(specs: Seq<ForegroundColorSpec>) -> nat
    decreases specs.len(),
{
    if specs.len() == 0 {
        0
    } else {
        count_unknown(specs.drop_last()) + (if specs.last() is Unknown {
            1nat
        } else {
            0nat
        })
    }
}

/// There are never more unknowns than specifications.
proof fn lemma_count_unknown_le_len(specs: Seq<ForegroundColorSpec>)
    ensures
        count_unknown(specs) <= specs.len(),
    decreases specs.len(),
{
    if specs.len() > 0 {
        lemma_count_unknown_le_len(specs.drop_last());
    }
}

/// Counting unknowns over a longer prefix never counts fewer.
proof fn lemma_count_unknown_take_le(specs: Seq<ForegroundColorSpec>, j: int)
    requires
        0 <= j <= specs.len(),
    ensures
        count_unknown(specs.take(j)) <= count_unknown(specs),
    decreases specs.len() - j,
{
    if j == specs.len() {
        assert(specs.take(j) =~= specs);
    } else {
        lemma_count_unknown_take_le(specs, j + 1);
        assert(specs.take(j + 1).drop_last() =~= specs.take(j));
    }
}

fn has_color(v: &Vec<Color>, c: Color) -> (b: bool)
    ensures
        b == v@.contains(c),
{
    let n = v.len();
    let mut i: usize = 0;
    while i < n
        invariant
            n == v@.len(),
            0 <= i <= n,
            forall|j: int| 0 <= j < i ==> #[trigger] v@[j] != c,
        decreases n - i,
    {
        if v[i] == c {
            proof {
                assert(v@[i as int] == c);
            }
            return true;
        }
        i += 1;
    }
    false
}

/// The saturation of a color: its largest channel minus its smallest.
pub open spec fn saturation(c: Color) -> int {
    let mx = if c.r >= c.g && c.r >= c.b {
        c.r as int
    } else if c.g >= c.b {
        c.g as int
    } else {
        c.b as int
    };
    let mn = if c.r <= c.g && c.r <= c.b {
        c.r as int
    } else if c.g <= c.b {
        c.g as int
    } else {
        c.b as int
    };
    mx - mn
}

fn saturation_exec(c: Color) -> (s: i64)
    ensures
        s == saturation(c),
        0 <= s <= 255,
{
    let mx = if c.r >= c.g && c.r >= c.b {
        c.r
    } else if c.g >= c.b {
        c.g
    } else {
        c.b
    };
    let mn = if c.r <= c.g && c.r <= c.b {
        c.r
    } else if c.g <= c.b {
        c.g
    } else {
        c.b
    };
    mx as i64 - mn as i64
}

/// How many distinct colors the list holds.
pub open spec fn distinct_count(colors: Seq<Color>) -> nat {
    colors.to_set().len()
}

/// The distance between two colors as the greedy selection compares it:
/// in thousandths of the unit cube edge.
pub open spec fn dist_key(a: Color, b: Color) -> int {
    sqrt_floor(dist_sq(norm_color(a), norm_color(b))) / 102
}

/// The least such distance from `c` to any color of `sel`.
pub open spec fn min_dist_key(c: Color, sel: Seq<Color>) -> int
    recommends
        sel.len() >= 1,
    decreases sel.len(),
{
    if sel.len() <= 1 {
        dist_key(c, sel[0])
    } else {
        let rest = min_dist_key(c, sel.drop_last());
        let last = dist_key(c, sel.last());
        if last < rest {
            last
        } else {
            rest
        }
    }
}

/// The least distance from `c` to any color of `sel`, in thousandths of
/// the unit cube edge (the tie-breaking granularity of the selection).
fn min_distance_key(c: Color, sel: &Vec<Color>) -> (k: i64)
    requires
        sel@.len() >= 1,
    ensures
        0 <= k,
        k == min_dist_key(c, sel@),
{
    let cn = normalize_color(c);
    let mut best: i64 = color_distance(cn, normalize_color(sel[0])) / 102;
    proof {
        assert(sel@.take(1)[0] == sel@[0]);
        assert(best == min_dist_key(c, sel@.take(1)));
    }
    let mut i: usize = 1;
    while i < sel.len()
        invariant
            1 <= i <= sel@.len(),
            0 <= best,
            cn == norm_color(c),
            best == min_dist_key(c, sel@.take(i as int)),
        decreases sel@.len() - i,
    {
        let d = color_distance(cn, normalize_color(sel[i])) / 102;
        proof {
            assert(sel@.take(i + 1).drop_last() =~= sel@.take(i as int));
            assert(sel@.take(i + 1).last() == sel@[i as int]);
            assert(d == dist_key(c, sel@[i as int]));
        }
        if d < best {
            best = d;
        }
        i += 1;
    }
    proof {
        assert(sel@.take(sel@.len() as int) =~= sel@);
    }
    best
}

/// A duplicate-free selection drawn from the list has at most as many
/// elements as the list has distinct colors.
proof fn lemma_distinct_le(sel: Seq<Color>, colors: Seq<Color>)
    requires
        forall|i: int, j: int| 0 <= i < j < sel.len() ==> sel[i] != sel[j],
        forall|i: int| 0 <= i < sel.len() ==> colors.contains(#[trigger] sel[i]),
    ensures
        sel.len() <= distinct_count(colors),
{
    broadcast use vstd::seq_lib::seq_to_set_is_finite;
    broadcast use vstd::set::group_set_axioms;

    assert(sel.no_duplicates());
    sel.unique_seq_to_set();
    assert forall|e: Color| sel.to_set().contains(e) implies colors.to_set().contains(e) by {
        let i = choose|i: int| 0 <= i < sel.len() && sel[i] == e;
        assert(colors.contains(e));
    }
    vstd::set_lib::lemma_len_subset(sel.to_set(), colors.to_set());
}

/// A selection containing every color of the list covers all its
/// distinct colors.
proof fn lemma_distinct_ge(sel: Seq<Color>, colors: Seq<Color>)
    requires
        forall|i: int| 0 <= i < colors.len() ==> sel.contains(#[trigger] colors[i]),
    ensures
        distinct_count(colors) <= sel.len(),
{
    broadcast use vstd::seq_lib::seq_to_set_is_finite;
    broadcast use vstd::set::group_set_axioms;

    assert forall|e: Color| colors.to_set().contains(e) implies sel.to_set().contains(e) by {
        let i = choose|i: int| 0 <= i < colors.len() && colors[i] == e;
        assert(sel.contains(e));
    }
    sel.lemma_cardinality_of_set();
    vstd::set_lib::lemma_len_subset(colors.to_set(), sel.to_set());
}

/// Select up to `n` colors that are as mutually different as possible:
/// start from a most saturated color, then repeatedly add a remaining
/// color whose least distance to the already-selected set is largest.
/// A list that already fits is returned unchanged; otherwise exactly `n`
/// colors come back, or every distinct color when there are fewer.
pub fn select_most_different_colors(colors: &Vec<Color>, n: usize) -> (sel: Vec<Color>)
    ensures
        sel@.len() <= n,
        colors@.len() <= n ==> sel@ == colors@,
        forall|i: int| 0 <= i < sel@.len() ==> colors@.contains(#[trigger] sel@[i]),
        colors@.len() > n ==> forall|i: int, j: int|
            0 <= i < j < sel@.len() ==> sel@[i] != sel@[j],
        colors@.len() > n ==> sel@.len() == (if n <= distinct_count(colors@) {
            n as int
        } else {
            distinct_count(colors@) as int
        }),
        colors@.len() > n && sel@.len() >= 1 ==> forall|i: int|
            0 <= i < colors@.len() ==> saturation(#[trigger] colors@[i]) <= saturation(sel@[0]),
        colors@.len() > n ==> forall|k: int, i: int|
            1 <= k < sel@.len() && 0 <= i < colors@.len() && !sel@.take(k).contains(colors@[i])
                ==> #[trigger] min_dist_key(colors@[i], sel@.take(k)) <= min_dist_key(
                sel@[k],
                sel@.take(k),
            ),
{
    let m = colors.len();
    if m <= n {
        let mut out: Vec<Color> = Vec::new();
        let mut i: usize = 0;
        while i < m
            invariant
                m == colors@.len(),
                0 <= i <= m,
                out@ =~= colors@.take(i as int),
            decreases m - i,
        {
            out.push(colors[i]);
            proof {
                assert(out@ =~= colors@.take(i + 1));
            }
            i += 1;
        }
        proof {
            assert(colors@.take(m as int) =~= colors@);
            assert forall|i2: int| 0 <= i2 < out@.len() implies colors@.contains(
                #[trigger] out@[i2],
            ) by {
                assert(colors@[i2] == out@[i2]);
            }
        }
        return out;
    }
    let mut selected: Vec<Color> = Vec::new();
    loop
        invariant
            m == colors@.len(),
            m > n,
            selected@.len() <= n,
            forall|i: int| 0 <= i < selected@.len() ==> colors@.contains(#[trigger] selected@[i]),
            forall|i: int, j: int|
                0 <= i < j < selected@.len() ==> selected@[i] != selected@[j],
            selected@.len() >= 1 ==> forall|i: int|
                0 <= i < m ==> saturation(#[trigger] colors@[i]) <= saturation(selected@[0]),
            forall|k: int, i: int|
                1 <= k < selected@.len() && 0 <= i < m && !selected@.take(k).contains(colors@[i])
                    ==> #[trigger] min_dist_key(colors@[i], selected@.take(k)) <= min_dist_key(
                    selected@[k],
                    selected@.take(k),
                ),
        ensures
            selected@.len() <= n,
            forall|i: int| 0 <= i < selected@.len() ==> colors@.contains(#[trigger] selected@[i]),
            forall|i: int, j: int|
                0 <= i < j < selected@.len() ==> selected@[i] != selected@[j],
            selected@.len() == n || forall|i: int|
                0 <= i < m ==> selected@.contains(#[trigger] colors@[i]),
            selected@.len() >= 1 ==> forall|i: int|
                0 <= i < m ==> saturation(#[trigger] colors@[i]) <= saturation(selected@[0]),
            forall|k: int, i: int|
                1 <= k < selected@.len() && 0 <= i < m && !selected@.take(k).contains(colors@[i])
                    ==> #[trigger] min_dist_key(colors@[i], selected@.take(k)) <= min_dist_key(
                    selected@[k],
                    selected@.take(k),
                ),
        decreases n - selected@.len(),
    {
        if selected.len() >= n {
            break ;
        }
        // The best remaining candidate under the current criterion: the
        // most saturated color first, then the one farthest from the
        // already-selected set.
        let mut found = false;
        let mut best_color = Color { r: 0, g: 0, b: 0 };
        let mut best_key: i64 = 0;
        let mut j: usize = 0;
        while j < m
            invariant
                m == colors@.len(),
                0 <= j <= m,
                found ==> colors@.contains(best_color),
                found ==> !selected@.contains(best_color),
                selected@.len() <= n,
                !found ==> forall|jj: int| 0 <= jj < j ==> selected@.contains(#[trigger] colors@[jj]),
                selected@.len() == 0 && found ==> best_key == saturation(best_color),
                selected@.len() == 0 && found ==> forall|jj: int|
                    0 <= jj < j ==> saturation(#[trigger] colors@[jj]) <= best_key,
                selected@.len() >= 1 && found ==> best_key == min_dist_key(best_color, selected@),
                selected@.len() >= 1 && found ==> forall|jj: int|
                    0 <= jj < j && !selected@.contains(#[trigger] colors@[jj]) ==> min_dist_key(
                        colors@[jj],
                        selected@,
                    ) <= best_key,
            decreases m - j,
        {
            let c = colors[j];
            if !has_color(&selected, c) {
                let key = if selected.len() == 0 {
                    saturation_exec(c)
                } else {
                    min_distance_key(c, &selected)
                };
                if !found || key >= best_key {
                    found = true;
                    best_color = c;
                    best_key = key;
                    proof {
                        assert(colors@[j as int] == c);
                    }
                }
            }
            j += 1;
        }
        if !found {
            break ;
        }
        proof {
            let post = selected@.push(best_color);
            assert forall|i: int, j2: int| 0 <= i < j2 < post.len() implies post[i] != post[j2] by {
                if j2 == selected@.len() {
                    assert(!selected@.contains(best_color));
                    assert(selected@[i] != best_color);
                }
            }
            // The pick history stays valid: earlier prefixes are
            // untouched, and the new entry was maximal over the scan.
            assert forall|k: int| 1 <= k <= selected@.len() implies post.take(k) =~= selected@.take(
                k,
            ) by {}
            if selected@.len() >= 1 {
                let k = selected@.len() as int;
                assert(post.take(k) =~= selected@);
                assert forall|i: int|
                    0 <= i < m && !post.take(k).contains(colors@[i]) implies min_dist_key(
                    colors@[i],
                    post.take(k),
                ) <= min_dist_key(post[k], post.take(k)) by {
                    assert(min_dist_key(colors@[i], selected@) <= best_key);
                }
            }
        }
        selected.push(best_color);
    }
    proof {
        if selected@.len() < n {
            // Exhausted: every color is already selected, so the
            // selection covers exactly the distinct colors.
            lemma_distinct_ge(selected@, colors@);
            lemma_distinct_le(selected@, colors@);
        } else {
            lemma_distinct_le(selected@, colors@);
        }
    }
    selected
}

/// A color is at distance zero from itself.
proof fn lemma_dist_self(c: NormalizedColor)
    ensures
        dist_sq(c, c) == 0,
{
    assert((c.r - c.r) * (c.r - c.r) == 0 && (c.g - c.g) * (c.g - c.g) == 0 && (c.b - c.b) * (c.b
        - c.b) == 0) by (nonlinear_arith);
}

/// Pushing keeps everything the sequence already contains.
proof fn lemma_contains_push(s: Seq<Color>, x: Color, y: Color)
    requires
        s.contains(y),
    ensures
        s.push(x).contains(y),
{
    let i = choose|i: int| 0 <= i < s.len() && s[i] == y;
    assert(s.push(x)[i] == y);
}

/// Distances are symmetric.
proof fn lemma_dist_sq_sym(a: NormalizedColor, b: NormalizedColor)
    ensures
        dist_sq(a, b) == dist_sq(b, a),
{
    assert((a.r - b.r) * (a.r - b.r) == (b.r - a.r) * (b.r - a.r)) by (nonlinear_arith);
    assert((a.g - b.g) * (a.g - b.g) == (b.g - a.g) * (b.g - a.g)) by (nonlinear_arith);
    assert((a.b - b.b) * (a.b - b.b) == (b.b - a.b) * (b.b - a.b)) by (nonlinear_arith);
}

/// The five plausibility levels of candidate generation, in percent.
pub open spec fn plausibility_level(p: int) -> bool {
    p == 25 || p == 50 || p == 75 || p == 90 || p == 100
}

/// Numerator of the inverted compositing equation for one channel, in
/// hundredths: `100 * observed - (100 - p) * background`.
pub open spec fn invert_num(o8: int, b8: int, p: int) -> int {
    100 * o8 - (100 - p) * b8
}

/// The channel inverts to a value within `[0, 255]`.
pub open spec fn invert_channel_ok(o8: int, b8: int, p: int) -> bool {
    0 <= invert_num(o8, b8, p) && invert_num(o8, b8, p) <= 255 * p
}

/// The inverted channel value, rounded to the nearest 8-bit value.
pub open spec fn invert_channel_val(o8: int, b8: int, p: int) -> int {
    (2 * invert_num(o8, b8, p) + p) / (2 * p)
}

/// The foreground color implied by the observation at level `p`.
pub open spec fn inverted_foreground(obs: Color, bg: Color, p: int) -> Color {
    Color {
        r: invert_channel_val(obs.r as int, bg.r as int, p) as u8,
        g: invert_channel_val(obs.g as int, bg.g as int, p) as u8,
        b: invert_channel_val(obs.b as int, bg.b as int, p) as u8,
    }
}

/// One channel's recomposition defect at level `p`, in hundredths of an
/// 8-bit unit.
pub open spec fn recompose_defect(f8: int, o8: int, b8: int, p: int) -> int {
    f8 * p + b8 * (100 - p) - 100 * o8
}

/// Every channel inverts in range, and recomposing the rounded foreground
/// reproduces the observation within five 8-bit units.
pub open spec fn inversion_valid(obs: Color, bg: Color, p: int) -> bool {
    let c = inverted_foreground(obs, bg, p);
    let dr = recompose_defect(c.r as int, obs.r as int, bg.r as int, p);
    let dg = recompose_defect(c.g as int, obs.g as int, bg.g as int, p);
    let db = recompose_defect(c.b as int, obs.b as int, bg.b as int, p);
    &&& invert_channel_ok(obs.r as int, bg.r as int, p)
    &&& invert_channel_ok(obs.g as int, bg.g as int, p)
    &&& invert_channel_ok(obs.b as int, bg.b as int, p)
    &&& dr * dr + dg * dg + db * db < 250000
}

/// The color arises by inverting the compositing equation on one of the
/// first hundred observed colors (not within 0.01 of the background) at
/// one of the five plausibility levels.
pub open spec fn candidate_from(observed: Seq<(Color, u128)>, bg: Color, c: Color) -> bool {
    exists|i: int, p: int|
        0 <= i < observed.len() && i < 100 && plausibility_level(p) && dist_sq(
            norm_color(observed[i].0),
            norm_color(bg),
        ) >= 1_040_400 && inversion_valid(observed[i].0, bg, p) && c == #[trigger] inverted_foreground(
            observed[i].0,
            bg,
            p,
        )
}

/// No two kept candidates lie within `thr` of each other.
pub open spec fn pairwise_far(cands: Seq<Color>, thr: int) -> bool {
    forall|i: int, j: int|
        0 <= i < j < cands.len() ==> dist_sq(
            norm_color(#[trigger] cands[i]),
            norm_color(#[trigger] cands[j]),
        ) >= thr * thr
}

/// Given observed colors and a background, find candidate foreground
/// colors that could have produced these observations through alpha
/// blending at one of five plausibility levels; candidates are
/// deduplicated by `threshold` and reduced to `num_candidates` by diverse
/// selection when too many remain.
pub fn find_candidate_foreground_colors(
    observed_colors: &Vec<(Color, u128)>,
    background: Color,
    num_candidates: usize,
    threshold: i64,
) -> (cands: Vec<Color>)
    requires
        0 <= threshold <= UNIT,
    ensures
        pairwise_far(cands@, threshold as int),
        cands@.len() <= num_candidates,
        forall|k: int|
            0 <= k < cands@.len() ==> candidate_from(
                observed_colors@,
                background,
                #[trigger] cands@[k],
            ),
        threshold > 0 ==> (cands@.len() == num_candidates || (forall|c: Color|
            #[trigger] candidate_from(observed_colors@, background, c) ==> near_some(
                cands@,
                c,
                threshold as int,
            ))),
{
    let bg_n = normalize_color(background);
    let mut raw: Vec<Color> = Vec::new();
    let limit = if observed_colors.len() < 100 {
        observed_colors.len()
    } else {
        100
    };
    let mut i: usize = 0;
    while i < limit
        invariant
            limit <= observed_colors@.len(),
            limit <= 100,
            0 <= i <= limit,
            bg_n == norm_color(background),
            forall|k: int|
                0 <= k < raw@.len() ==> candidate_from(
                    observed_colors@,
                    background,
                    #[trigger] raw@[k],
                ),
            forall|i2: int, p2: int|
                0 <= i2 < i && plausibility_level(p2) && dist_sq(
                    norm_color(observed_colors@[i2].0),
                    norm_color(background),
                ) >= 1_040_400 && inversion_valid(observed_colors@[i2].0, background, p2)
                    ==> raw@.contains(
                    #[trigger] inverted_foreground(observed_colors@[i2].0, background, p2),
                ),
        decreases limit - i,
    {
        let observed = observed_colors[i].0;
        let obs_n = normalize_color(observed);
        // Skip source colors that are almost exactly the background.
        let d = color_distance(obs_n, bg_n);
        proof {
            lemma_isqrt_lt(dist_sq(obs_n, bg_n), d as int, 1020);
        }
        if d >= 1020 {
            let mut pi: usize = 0;
            while pi < 5
                invariant
                    0 <= pi <= 5,
                    0 <= i < limit <= observed_colors@.len(),
                    limit <= 100,
                    observed == observed_colors@[i as int].0,
                    dist_sq(norm_color(observed), norm_color(background)) >= 1_040_400,
                    forall|k: int|
                        0 <= k < raw@.len() ==> candidate_from(
                            observed_colors@,
                            background,
                            #[trigger] raw@[k],
                        ),
                    forall|i2: int, p2: int|
                        0 <= i2 < i && plausibility_level(p2) && dist_sq(
                            norm_color(observed_colors@[i2].0),
                            norm_color(background),
                        ) >= 1_040_400 && inversion_valid(observed_colors@[i2].0, background, p2)
                            ==> raw@.contains(
                            #[trigger] inverted_foreground(observed_colors@[i2].0, background, p2),
                        ),
                    forall|pi2: int|
                        0 <= pi2 < pi && inversion_valid(observed, background, level_of(pi2))
                            ==> raw@.contains(
                            inverted_foreground(observed, background, #[trigger] level_of(pi2)),
                        ),
                decreases 5 - pi,
            {
                let p: i64 = if pi == 0 {
                    25
                } else if pi == 1 {
                    50
                } else if pi == 2 {
                    75
                } else if pi == 3 {
                    90
                } else {
                    100
                };
                proof {
                    assert(p as int == level_of(pi as int));
                }
                let ghost raw_pre = raw@;
                match invert_blend(observed, background, p) {
                    Some(cand) => {
                        proof {
                            assert(plausibility_level(p as int));
                            assert(cand == inverted_foreground(
                                observed_colors@[i as int].0,
                                background,
                                p as int,
                            ));
                            assert(candidate_from(observed_colors@, background, cand));
                        }
                        raw.push(cand);
                        proof {
                            assert forall|i2: int, p2: int|
                                0 <= i2 < i && plausibility_level(p2) && dist_sq(
                                    norm_color(observed_colors@[i2].0),
                                    norm_color(background),
                                ) >= 1_040_400 && inversion_valid(
                                    observed_colors@[i2].0,
                                    background,
                                    p2,
                                ) implies raw@.contains(
                                #[trigger] inverted_foreground(
                                    observed_colors@[i2].0,
                                    background,
                                    p2,
                                ),
                            ) by {
                                lemma_contains_push(
                                    raw_pre,
                                    cand,
                                    inverted_foreground(observed_colors@[i2].0, background, p2),
                                );
                            }
                            assert forall|pi2: int|
                                0 <= pi2 < pi + 1 && inversion_valid(
                                    observed,
                                    background,
                                    level_of(pi2),
                                ) implies raw@.contains(
                                inverted_foreground(observed, background, #[trigger] level_of(pi2)),
                            ) by {
                                if pi2 < pi {
                                    lemma_contains_push(
                                        raw_pre,
                                        cand,
                                        inverted_foreground(observed, background, level_of(pi2)),
                                    );
                                } else {
                                    assert(raw@[raw@.len() - 1] == cand);
                                }
                            }
                        }
                    },
                    None => {},
                }
                pi += 1;
            }
            proof {
                // All five levels of this observation are now covered.
                assert forall|p2: int|
                    plausibility_level(p2) && inversion_valid(observed, background, p2)
                        implies raw@.contains(
                    #[trigger] inverted_foreground(observed, background, p2),
                ) by {
                    lemma_level_positions(p2);
                    let pi2 = choose|pi2: int| 0 <= pi2 < 5 && #[trigger] level_of(pi2) == p2;
                    assert(raw@.contains(inverted_foreground(observed, background, level_of(pi2))));
                }
            }
        } else {
            proof {
                assert(dist_sq(norm_color(observed), norm_color(background)) < 1_040_400);
            }
        }
        i += 1;
    }
    // Deduplicate: drop candidates within `threshold` of one already kept.
    let mut unique: Vec<Color> = Vec::new();
    let mut j: usize = 0;
    while j < raw.len()
        invariant
            0 <= j <= raw@.len(),
            pairwise_far(unique@, threshold as int),
            0 <= threshold <= UNIT,
            forall|k: int|
                0 <= k < raw@.len() ==> candidate_from(
                    observed_colors@,
                    background,
                    #[trigger] raw@[k],
                ),
            forall|k: int|
                0 <= k < unique@.len() ==> candidate_from(
                    observed_colors@,
                    background,
                    #[trigger] unique@[k],
                ),
            threshold > 0 ==> forall|k: int|
                0 <= k < j ==> near_some(unique@, #[trigger] raw@[k], threshold as int),
        decreases raw@.len() - j,
    {
        let cand = raw[j];
        let ghost unique_pre = unique@;
        if !near_any(cand, &unique, threshold) {
            proof {
                assert forall|a: int, b: int|
                    0 <= a < b < unique@.push(cand).len() implies dist_sq(
                    norm_color(unique@.push(cand)[a]),
                    norm_color(unique@.push(cand)[b]),
                ) >= threshold as int * threshold as int by {
                    if b == unique@.len() {
                        assert(dist_sq(norm_color(unique@[a]), norm_color(cand)) >= threshold as int
                            * threshold as int);
                        lemma_dist_sq_sym(norm_color(unique@[a]), norm_color(cand));
                    }
                }
            }
            unique.push(cand);
            proof {
                if threshold > 0 {
                    // Earlier raw candidates stay covered, and the newly
                    // kept one covers itself.
                    assert forall|k: int| 0 <= k < j + 1 implies near_some(
                        unique@,
                        #[trigger] raw@[k],
                        threshold as int,
                    ) by {
                        if k < j {
                            let ik = choose|ik: int|
                                0 <= ik < unique_pre.len() && dist_sq(
                                    norm_color(#[trigger] unique_pre[ik]),
                                    norm_color(raw@[k]),
                                ) < threshold as int * threshold as int;
                            assert(unique@[ik] == unique_pre[ik]);
                        } else {
                            lemma_dist_self(norm_color(cand));
                            assert(threshold as int * threshold as int > 0) by (nonlinear_arith)
                                requires
                                    threshold > 0,
                            ;
                            assert(unique@[unique@.len() - 1] == cand);
                            assert(dist_sq(norm_color(unique@[unique@.len() - 1]), norm_color(
                                raw@[k],
                            )) < threshold as int * threshold as int);
                        }
                    }
                }
            }
        }
        j += 1;
    }
    if unique.len() > num_candidates {
        let sel = select_most_different_colors(&unique, num_candidates);
        proof {
            assert forall|a: int, b: int|
                0 <= a < b < sel@.len() implies dist_sq(
                norm_color(#[trigger] sel@[a]),
                norm_color(#[trigger] sel@[b]),
            ) >= threshold as int * threshold as int by {
                let ia = choose|ia: int| 0 <= ia < unique@.len() && unique@[ia] == sel@[a];
                let ib = choose|ib: int| 0 <= ib < unique@.len() && unique@[ib] == sel@[b];
                assert(sel@[a] != sel@[b]);
                assert(ia != ib);
                if ia < ib {
                    assert(dist_sq(norm_color(unique@[ia]), norm_color(unique@[ib]))
                        >= threshold as int * threshold as int);
                } else {
                    assert(dist_sq(norm_color(unique@[ib]), norm_color(unique@[ia]))
                        >= threshold as int * threshold as int);
                    lemma_dist_sq_sym(norm_color(unique@[ib]), norm_color(unique@[ia]));
                }
            }
            assert forall|k: int| 0 <= k < sel@.len() implies candidate_from(
                observed_colors@,
                background,
                #[trigger] sel@[k],
            ) by {
                let ik = choose|ik: int| 0 <= ik < unique@.len() && unique@[ik] == sel@[k];
                assert(candidate_from(observed_colors@, background, unique@[ik]));
            }
            if threshold > 0 {
                // Pairwise-far colors are pairwise distinct, so the
                // oversized pool reduces to exactly the requested size.
                assert forall|a: int, b: int|
                    0 <= a < unique@.len() && 0 <= b < unique@.len() && a != b implies unique@[a]
                    != unique@[b] by {
                    if unique@[a] == unique@[b] {
                        lemma_dist_self(norm_color(unique@[a]));
                        if a < b {
                            assert(dist_sq(norm_color(unique@[a]), norm_color(unique@[b]))
                                >= threshold as int * threshold as int);
                        } else {
                            assert(dist_sq(norm_color(unique@[b]), norm_color(unique@[a]))
                                >= threshold as int * threshold as int);
                        }
                        assert(threshold as int * threshold as int > 0) by (nonlinear_arith)
                            requires
                                threshold > 0,
                        ;
                        assert(false);
                    }
                }
                assert(unique@.no_duplicates());
                unique@.unique_seq_to_set();
                assert(distinct_count(unique@) == unique@.len());
                assert(sel@.len() == num_candidates);
            }
        }
        sel
    } else {
        proof {
            if threshold > 0 {
                // Every valid inversion was generated, and every generated
                // candidate is within the threshold of a kept one.
                assert forall|c: Color|
                    #[trigger] candidate_from(observed_colors@, background, c) implies near_some(
                    unique@,
                    c,
                    threshold as int,
                ) by {
                    let (i2, p2) = choose|i2: int, p2: int|
                        0 <= i2 < observed_colors@.len() && i2 < 100 && plausibility_level(p2)
                            && dist_sq(
                            norm_color(observed_colors@[i2].0),
                            norm_color(background),
                        ) >= 1_040_400 && inversion_valid(observed_colors@[i2].0, background, p2)
                            && c == #[trigger] inverted_foreground(
                            observed_colors@[i2].0,
                            background,
                            p2,
                        );
                    assert(raw@.contains(c));
                    let k = choose|k: int| 0 <= k < raw@.len() && raw@[k] == c;
                    assert(near_some(unique@, raw@[k], threshold as int));
                }
            }
        }
        unique
    }
}

/// Some kept color lies within `thr` of the candidate.
pub open spec fn near_some(kept: Seq<Color>, cand: Color, thr: int) -> bool {
    exists|i: int|
        0 <= i < kept.len() && dist_sq(norm_color(#[trigger] kept[i]), norm_color(cand)) < thr
            * thr
}

/// The plausibility level at position `i` of the enumeration.
pub open spec fn level_of(i: int) -> int {
    if i == 0 {
        25
    } else if i == 1 {
        50
    } else if i == 2 {
        75
    } else if i == 3 {
        90
    } else {
        100
    }
}

/// Every plausibility level occurs in the enumeration.
proof fn lemma_level_positions(p: int)
    requires
        plausibility_level(p),
    ensures
        exists|i: int| 0 <= i < 5 && #[trigger] level_of(i) == p,
{
    if p == 25 {
        assert(level_of(0) == p);
    } else if p == 50 {
        assert(level_of(1) == p);
    } else if p == 75 {
        assert(level_of(2) == p);
    } else if p == 90 {
        assert(level_of(3) == p);
    } else {
        assert(level_of(4) == p);
    }
}

/// Whether the candidate lies within `threshold` of any kept color.
fn near_any(cand: Color, kept: &Vec<Color>, threshold: i64) -> (b: bool)
    requires
        0 <= threshold <= UNIT,
    ensures
        b == near_some(kept@, cand, threshold as int),
        !b ==> forall|i: int|
            0 <= i < kept@.len() ==> dist_sq(norm_color(#[trigger] kept@[i]), norm_color(cand))
                >= threshold as int * threshold as int,
        b ==> kept@.len() >= 1,
{
    let cn = normalize_color(cand);
    let n = kept.len();
    let mut i: usize = 0;
    while i < n
        invariant
            n == kept@.len(),
            0 <= i <= n,
            0 <= threshold <= UNIT,
            cn == norm_color(cand),
            forall|j: int|
                0 <= j < i ==> dist_sq(norm_color(#[trigger] kept@[j]), norm_color(cand))
                    >= threshold as int * threshold as int,
        decreases n - i,
    {
        let kn = normalize_color(kept[i]);
        let d = color_distance(kn, cn);
        proof {
            lemma_isqrt_lt(dist_sq(kn, cn), d as int, threshold as int);
        }
        if d < threshold {
            return true;
        }
        i += 1;
    }
    false
}

/// The foreground color implied by the observation at plausibility level
/// `p` percent: the inverse of the compositing equation, accepted only if
/// every channel lands in range and recomposing reproduces the
/// observation within five 8-bit units.
fn invert_blend(observed: Color, background: Color, p: i64) -> (r: Option<Color>)
    requires
        25 <= p <= 100,
    ensures
        r is Some <==> inversion_valid(observed, background, p as int),
        r matches Some(c) ==> c == inverted_foreground(observed, background, p as int),
{
    let cr = invert_channel(observed.r, background.r, p);
    let cg = invert_channel(observed.g, background.g, p);
    let cb = invert_channel(observed.b, background.b, p);
    match (cr, cg, cb) {
        (Some(r), Some(g), Some(b)) => {
            // Verify reconstruction: error below 5 in 8-bit units,
            // compared with the exact rational recomposition.
            proof {
                assert(0 <= r as int * p as int <= 25500 && 0 <= g as int * p as int <= 25500 && 0
                    <= b as int * p as int <= 25500) by (nonlinear_arith)
                    requires
                        25 <= p <= 100,
                        0 <= r <= 255,
                        0 <= g <= 255,
                        0 <= b <= 255,
                ;
                assert(0 <= background.r as int * ((100 - p) as int) <= 19125 && 0
                    <= background.g as int * ((100 - p) as int) <= 19125 && 0
                    <= background.b as int * ((100 - p) as int) <= 19125) by (nonlinear_arith)
                    requires
                        25 <= p <= 100,
                        0 <= background.r <= 255,
                        0 <= background.g <= 255,
                        0 <= background.b <= 255,
                ;
            }
            let dr = r as i64 * p + background.r as i64 * (100 - p) - 100 * observed.r as i64;
            let dg = g as i64 * p + background.g as i64 * (100 - p) - 100 * observed.g as i64;
            let db = b as i64 * p + background.b as i64 * (100 - p) - 100 * observed.b as i64;
            proof {
                assert(dr * dr <= 51000 * 51000int && dg * dg <= 51000 * 51000int && db * db
                    <= 51000 * 51000int) by (nonlinear_arith)
                    requires
                        -51000 <= dr <= 51000,
                        -51000 <= dg <= 51000,
                        -51000 <= db <= 51000,
                ;
                assert(dr * dr >= 0 && dg * dg >= 0 && db * db >= 0) by (nonlinear_arith);
            }
            if dr * dr + dg * dg + db * db < 250000 {
                Some(Color { r, g, b })
            } else {
                None
            }
        },
        _ => None,
    }
}

fn invert_channel(o8: u8, b8: u8, p: i64) -> (r: Option<u8>)
    requires
        25 <= p <= 100,
    ensures
        r is Some <==> invert_channel_ok(o8 as int, b8 as int, p as int),
        r matches Some(f) ==> f == invert_channel_val(o8 as int, b8 as int, p as int),
{
    proof {
        assert(0 <= ((100 - p) as int) * (b8 as int) <= 19125) by (nonlinear_arith)
            requires
                25 <= p <= 100,
                0 <= b8 <= 255,
        ;
    }
    let num = 100 * (o8 as i64) - (100 - p) * (b8 as i64);
    if num < 0 {
        return None;
    }
    if num > 255 * p {
        return None;
    }
    proof {
        assert((2 * num + p) / (2 * p) <= 255) by (nonlinear_arith)
            requires
                25 <= p <= 100,
                0 <= num <= 255 * p,
        ;
        assert((2 * num + p) / (2 * p) >= 0) by (nonlinear_arith)
            requires
                25 <= p <= 100,
                num >= 0,
        ;
    }
    Some(((2 * num + p) / (2 * p)) as u8)
}

/// The weight of one observed color in the evaluation: the square root of
/// its count (capped at 10^13) at three decimal places.
pub open spec fn entry_weight(count: u128) -> int {
    sqrt_floor(
        (if count > 10_000_000_000_000u128 {
            10_000_000_000_000u128
        } else {
            count
        }) * 1_000_000,
    )
}

/// The reconstruction error of one observation against one unmixing
/// outcome: the distance between the observation and the outcome's
/// weighted color recomposited at its alpha.
pub open spec fn recon_error(
    obs: Color,
    res: UnmixResult,
    fgs: Seq<NormalizedColor>,
    bg: NormalizedColor,
) -> int {
    let rc = result_color_spec(res, fgs);
    sqrt_floor(dist_sq(blend(rc.0, rc.1 as int, bg), norm_color(obs)))
}

/// The count-weighted reconstruction errors, summed over the observations.
pub open spec fn weighted_error_sum(
    entries: Seq<(Color, u128)>,
    results: Seq<UnmixResult>,
    fgs: Seq<NormalizedColor>,
    bg: NormalizedColor,
) -> int
    decreases entries.len(),
{
    if entries.len() == 0 || results.len() == 0 {
        0
    } else {
        weighted_error_sum(entries.drop_last(), results.drop_last(), fgs, bg) + entry_weight(
            entries.last().1,
        ) * recon_error(entries.last().0, results.last(), fgs, bg)
    }
}

/// The total of the observation weights.
pub open spec fn weight_total(entries: Seq<(Color, u128)>) -> int
    decreases entries.len(),
{
    if entries.len() == 0 {
        0
    } else {
        weight_total(entries.drop_last()) + entry_weight(entries.last().1)
    }
}

/// One foreground's share of the tie-breaking penalty: up to 0.00001,
/// decreasing linearly with its distance from the background (the maximal
/// distance in the cube being sqrt(3)).
pub open spec fn penalty_part_of(c: NormalizedColor, bg: NormalizedColor) -> int {
    let d = sqrt_floor(dist_sq(c, bg));
    let nd = if d > 176_664 {
        176_664
    } else {
        d
    };
    (176_664 - nd) * 1_020_000 / 176_664
}

/// The tie-breaking penalty shares, summed over the foregrounds.
pub open spec fn penalty_total(fgs: Seq<NormalizedColor>, bg: NormalizedColor) -> int
    decreases fgs.len(),
{
    if fgs.len() == 0 {
        0
    } else {
        penalty_total(fgs.drop_last(), bg) + penalty_part_of(fgs.last(), bg)
    }
}

/// Scaling a quotient: split into whole and remainder parts.
proof fn lemma_div_scale(e: int, w: int, s: int)
    requires
        e >= 0,
        w >= 1,
        s >= 1,
    ensures
        (e * s) / w == (e / w) * s + ((e % w) * s) / w,
{
    vstd::arithmetic::div_mod::lemma_fundamental_div_mod(e, w);
    assert(e * s == (e % w) * s + ((e / w) * s) * w) by (nonlinear_arith)
        requires
            e == w * (e / w) + e % w,
    ;
    assert((e % w) * s >= 0) by (nonlinear_arith)
        requires
            e % w >= 0,
            s >= 1,
    ;
    vstd::arithmetic::div_mod::lemma_hoist_over_denominator((e % w) * s, (e / w) * s, w as nat);
}

/// How well a set of foreground colors reproduces the observed colors:
/// the count-weighted mean reconstruction error (in millionths of a
/// fixed-point unit), plus the tie-breaking penalty favoring foregrounds
/// far from the background.  Lower is better.  The per-observation errors
/// are those of the least-squares outcomes the unmixing engine returned,
/// existentially bound to the engine's contract.
fn evaluate_color_set(
    foreground_colors: &Vec<NormalizedColor>,
    entries: &Vec<(Color, u128)>,
    background: NormalizedColor,
) -> (score: u128)
    requires
        all_wf(foreground_colors@),
        1 <= foreground_colors@.len() <= MAX_FOREGROUNDS,
        background.wf(),
    ensures
        score <= 205_020_000_000,
        exists|results: Seq<UnmixResult>|
            {
                &&& results.len() == entries@.len()
                &&& (forall|k: int|
                    0 <= k < results.len() ==> simple_outcome_ok(
                        entries@[k].0,
                        foreground_colors@,
                        background,
                        #[trigger] results[k],
                    ))
                &&& score == (if weight_total(entries@) == 0 {
                    0int
                } else {
                    weighted_error_sum(entries@, results, foreground_colors@, background)
                        * 1_000_000 / weight_total(entries@)
                }) + penalty_total(foreground_colors@, background) / (
                foreground_colors@.len() as int)
            },
{
    let mut total_error: u128 = 0;
    let mut total_weight: u128 = 0;
    let ghost mut results: Seq<UnmixResult> = Seq::empty();
    let n = entries.len();
    let mut i: usize = 0;
    while i < n
        invariant
            n == entries@.len(),
            all_wf(foreground_colors@),
            1 <= foreground_colors@.len() <= MAX_FOREGROUNDS,
            background.wf(),
            0 <= i <= n,
            results.len() == i,
            forall|k: int|
                0 <= k < i ==> simple_outcome_ok(
                    entries@[k].0,
                    foreground_colors@,
                    background,
                    #[trigger] results[k],
                ),
            total_error == weighted_error_sum(
                entries@.take(i as int),
                results,
                foreground_colors@,
                background,
            ),
            total_weight == weight_total(entries@.take(i as int)),
            total_error <= total_weight * 204_000,
            total_weight <= i * 4_000_000_000,
        decreases n - i,
    {
        let (observed, count) = entries[i];
        // Square root of the count tempers the most common colors.
        let capped: u128 = if count > 10_000_000_000_000u128 {
            10_000_000_000_000u128
        } else {
            count
        };
        let weight = isqrt((capped * 1_000_000) as u64) as u128;
        let res = unmix_colors_internal(observed, foreground_colors, background, false);
        let (result_color, alpha) = compute_result_color(&res, foreground_colors);
        let recon = blend_exec(result_color, alpha, background);
        let obs_n = normalize_color(observed);
        let err = color_distance(recon, obs_n) as u128;
        proof {
            assert(capped * 1_000_000 <= 10_000_000_000_000_000_000u128);
            crate::fixed::lemma_sqrt_floor_of(
                (capped * 1_000_000) as int,
                (weight as u64) as int,
            );
            assert(weight == entry_weight(count));
            assert(err == recon_error(observed, res, foreground_colors@, background));
            assert(weight <= 4_000_000_000u128) by {
                assert(weight * weight <= capped * 1_000_000);
                assert(weight <= 4_000_000_000u128) by (nonlinear_arith)
                    requires
                        weight * weight <= 10_000_000_000_000_000_000u128,
                ;
            }
            assert(err * weight <= 204_000u128 * 4_000_000_000u128) by (nonlinear_arith)
                requires
                    err <= 204_000,
                    weight <= 4_000_000_000u128,
            ;
            assert(err as int * weight as int <= 204_000 * weight as int) by (nonlinear_arith)
                requires
                    0 <= err <= 204_000,
                    weight >= 0,
            ;
            assert((total_weight as int + weight as int) * 204_000 == total_weight as int
                * 204_000 + 204_000 * weight as int) by (nonlinear_arith);
            assert((i + 1) * 4_000_000_000 == i * 4_000_000_000 + 4_000_000_000)
                by (nonlinear_arith);
            assert(observed == entries@[i as int].0 && count == entries@[i as int].1);
            assert(entries@.take(i + 1).drop_last() =~= entries@.take(i as int));
            assert(entries@.take(i + 1).last() == entries@[i as int]);
            let results_new = results.push(res);
            assert(results_new.drop_last() =~= results);
            assert(results_new.last() == res);
            assert(err as int * weight as int == entry_weight(entries@[i as int].1)
                * recon_error(entries@[i as int].0, res, foreground_colors@, background))
                by (nonlinear_arith)
                requires
                    err as int == recon_error(
                        entries@[i as int].0,
                        res,
                        foreground_colors@,
                        background,
                    ),
                    weight as int == entry_weight(entries@[i as int].1),
            ;
            assert(weighted_error_sum(
                entries@.take(i + 1),
                results_new,
                foreground_colors@,
                background,
            ) == total_error + err as int * weight as int);
            assert(weight_total(entries@.take(i + 1)) == total_weight + weight);
        }
        total_error = total_error + err * weight;
        total_weight = total_weight + weight;
        proof {
            assert(simple_outcome_ok(observed, foreground_colors@, background, res));
            results = results.push(res);
            assert forall|k: int|
                0 <= k < i + 1 implies simple_outcome_ok(
                entries@[k].0,
                foreground_colors@,
                background,
                #[trigger] results[k],
            ) by {
                if k < i {
                    assert(results[k] == results.drop_last()[k]);
                } else {
                    assert(results[k] == res);
                }
            }
        }
        i += 1;
    }
    proof {
        assert(entries@.take(n as int) =~= entries@);
    }
    let base: u128 = if total_weight == 0 {
        0
    } else {
        // Exact scaled division in two steps, avoiding the wide product.
        let q = total_error / total_weight;
        let r = total_error % total_weight;
        proof {
            lemma_div_scale(total_error as int, total_weight as int, 1_000_000);
            vstd::arithmetic::div_mod::lemma_fundamental_div_mod(
                total_error as int,
                total_weight as int,
            );
            assert(q <= 204_000) by (nonlinear_arith)
                requires
                    total_error as int <= (total_weight as int) * 204_000,
                    total_weight >= 1,
                    q == total_error as int / (total_weight as int),
                    total_error as int == (total_weight as int) * (total_error as int / (
                    total_weight as int)) + (total_error as int % (total_weight as int)),
                    (total_error as int % (total_weight as int)) >= 0,
            ;
            assert((r as int) * 1_000_000 >= 0) by (nonlinear_arith)
                requires
                    r >= 0,
            ;
            vstd::arithmetic::div_mod::lemma_fundamental_div_mod(
                (r as int) * 1_000_000,
                total_weight as int,
            );
            assert((r as int) * 1_000_000 / (total_weight as int) <= 1_000_000)
                by (nonlinear_arith)
                requires
                    0 <= r,
                    (r as int) < total_weight as int,
                    total_weight >= 1,
                    (r as int) * 1_000_000 == (total_weight as int) * ((r as int) * 1_000_000 / (
                    total_weight as int)) + ((r as int) * 1_000_000 % (total_weight as int)),
                    ((r as int) * 1_000_000 % (total_weight as int)) >= 0,
            ;
        }
        q * 1_000_000 + r * 1_000_000 / total_weight
    };
    // Tie-breaking penalty: up to 0.00001 per color, decreasing linearly
    // with the color's distance from the background.
    let m = foreground_colors.len();
    let mut penalty_sum: u128 = 0;
    let mut j: usize = 0;
    while j < m
        invariant
            m == foreground_colors@.len(),
            all_wf(foreground_colors@),
            background.wf(),
            0 <= j <= m,
            penalty_sum <= j * 1_020_000,
            penalty_sum == penalty_total(foreground_colors@.take(j as int), background),
        decreases m - j,
    {
        let d = color_distance(foreground_colors[j], background);
        let nd = if d > 176_664 {
            176_664
        } else {
            d
        };
        let part = ((176_664 - nd) as u128) * 1_020_000 / 176_664;
        proof {
            assert(((176_664 - nd) as int) * 1_020_000 / 176_664 <= 1_020_000) by (nonlinear_arith)
                requires
                    0 <= nd <= 176_664,
            ;
            assert(((176_664 - nd) as int) * 1_020_000 >= 0) by (nonlinear_arith)
                requires
                    0 <= nd <= 176_664,
            ;
            assert((j + 1) * 1_020_000 == j * 1_020_000 + 1_020_000) by (nonlinear_arith);
            assert(part == penalty_part_of(foreground_colors@[j as int], background));
            assert(foreground_colors@.take(j + 1).drop_last() =~= foreground_colors@.take(
                j as int,
            ));
            assert(foreground_colors@.take(j + 1).last() == foreground_colors@[j as int]);
        }
        penalty_sum = penalty_sum + part;
        j += 1;
    }
    proof {
        assert(foreground_colors@.take(m as int) =~= foreground_colors@);
        assert(m * 1_020_000 <= 64 * 1_020_000) by (nonlinear_arith)
            requires
                m <= 64,
        ;
        vstd::arithmetic::div_mod::lemma_fundamental_div_mod(penalty_sum as int, m as int);
        assert(penalty_sum as int / (m as int) <= 1_020_000) by (nonlinear_arith)
            requires
                0 <= penalty_sum,
                penalty_sum as int <= (m as int) * 1_020_000,
                m >= 1,
                penalty_sum as int == (m as int) * (penalty_sum as int / (m as int)) + (
                penalty_sum as int % (m as int)),
                (penalty_sum as int % (m as int)) >= 0,
        ;
    }
    let penalty = penalty_sum / (m as u128);
    let score = base + penalty;
    proof {
        assert(score == (if weight_total(entries@) == 0 {
            0int
        } else {
            weighted_error_sum(entries@, results, foreground_colors@, background) * 1_000_000
                / weight_total(entries@)
        }) + penalty_total(foreground_colors@, background) / (foreground_colors@.len() as int));
    }
    score
}

/// One of the eight standard saturated anchor colors.
pub open spec fn standard_color(c: Color) -> bool {
    ||| c == (Color { r: 255, g: 0, b: 0 })
    ||| c == (Color { r: 0, g: 255, b: 0 })
    ||| c == (Color { r: 0, g: 0, b: 255 })
    ||| c == (Color { r: 255, g: 255, b: 0 })
    ||| c == (Color { r: 255, g: 0, b: 255 })
    ||| c == (Color { r: 0, g: 255, b: 255 })
    ||| c == (Color { r: 255, g: 128, b: 0 })
    ||| c == (Color { r: 128, g: 0, b: 255 })
}

/// The standard palette in its append order.
pub open spec fn standard_palette(i: int) -> Color {
    if i == 0 {
        Color { r: 255, g: 0, b: 0 }
    } else if i == 1 {
        Color { r: 0, g: 255, b: 0 }
    } else if i == 2 {
        Color { r: 0, g: 0, b: 255 }
    } else if i == 3 {
        Color { r: 255, g: 255, b: 0 }
    } else if i == 4 {
        Color { r: 255, g: 0, b: 255 }
    } else if i == 5 {
        Color { r: 0, g: 255, b: 255 }
    } else if i == 6 {
        Color { r: 255, g: 128, b: 0 }
    } else {
        Color { r: 128, g: 0, b: 255 }
    }
}

/// The first `upto` specifications name `c` as a known foreground.
pub open spec fn known_upto(specs: Seq<ForegroundColorSpec>, upto: int, c: Color) -> bool {
    exists|j: int| 0 <= j < upto && j < specs.len() && #[trigger] specs[j]
        == ForegroundColorSpec::Known(c)
}

/// The specification list names `c` as a known foreground.
pub open spec fn known_spec_color(specs: Seq<ForegroundColorSpec>, c: Color) -> bool {
    known_upto(specs, specs.len() as int, c)
}

/// Some standard anchor color is neither a known foreground nor the
/// background, so the candidate pool cannot be empty.
pub open spec fn standard_anchor_available(
    specs: Seq<ForegroundColorSpec>,
    bg: Color,
) -> bool {
    exists|si: int|
        0 <= si < 8 && !known_spec_color(specs, #[trigger] standard_palette(si))
            && standard_palette(si) != bg
}

/// A color the deduction may assign to an unknown slot: a standard anchor
/// color that is neither a known foreground nor the background, or the
/// inversion of one of the image's own pixel colors at one of the
/// plausibility levels.
pub open spec fn pool_color(
    pix: Seq<Color>,
    specs: Seq<ForegroundColorSpec>,
    bg: Color,
    c: Color,
) -> bool {
    ||| (standard_color(c) && !known_spec_color(specs, c) && c != bg)
    ||| exists|o: Color, p: int|
        pix.contains(o) && plausibility_level(p) && dist_sq(norm_color(o), norm_color(bg))
            >= 1_040_400 && inversion_valid(o, bg, p) && c == #[trigger] inverted_foreground(
            o,
            bg,
            p,
        )
}

/// The first `filled` unknown slots (in specification order) carry pool
/// colors; every later unknown slot carries the neutral gray fallback.
pub open spec fn fill_shape(
    pix: Seq<Color>,
    specs: Seq<ForegroundColorSpec>,
    bg: Color,
    out: Seq<Color>,
    filled: int,
) -> bool {
    forall|i: int|
        0 <= i < specs.len() ==> ((#[trigger] specs[i]) is Unknown ==> (if count_unknown(
            specs.take(i),
        ) < filled {
            pool_color(pix, specs, bg, out[i])
        } else {
            out[i] == (Color { r: 128, g: 128, b: 128 })
        }))
}

/// The trial foreground list for one assignment of candidate colors to the
/// unknown slots: known colors keep their place, unknown slots take the
/// trial colors in order.
fn build_trial(specs: &Vec<ForegroundColorSpec>, trial: &Vec<Color>) -> (out: Vec<NormalizedColor>)
    requires
        count_unknown(specs@) <= trial@.len(),
    ensures
        out@.len() == specs@.len(),
        all_wf(out@),
        forall|i: int|
            0 <= i < specs@.len() ==> ((#[trigger] specs@[i]) matches ForegroundColorSpec::Known(
                c,
            ) ==> out@[i] == norm_color(c)),
{
    let n = specs.len();
    let mut out: Vec<NormalizedColor> = Vec::new();
    let mut unknown_idx: usize = 0;
    let mut i: usize = 0;
    while i < n
        invariant
            n == specs@.len(),
            count_unknown(specs@) <= trial@.len(),
            0 <= i <= n,
            out@.len() == i,
            unknown_idx <= i,
            unknown_idx == count_unknown(specs@.take(i as int)),
            all_wf(out@),
            forall|j: int|
                0 <= j < i ==> ((#[trigger] specs@[j]) matches ForegroundColorSpec::Known(c)
                    ==> out@[j] == norm_color(c)),
        decreases n - i,
    {
        proof {
            assert(specs@.take(i + 1).drop_last() =~= specs@.take(i as int));
            assert(specs@.take(i + 1).last() == specs@[i as int]);
            lemma_count_unknown_take_le(specs@, i + 1);
        }
        match specs[i] {
            ForegroundColorSpec::Known(c) => {
                out.push(normalize_color(c));
            },
            ForegroundColorSpec::Unknown => {
                out.push(normalize_color(trial[unknown_idx]));
                unknown_idx += 1;
            },
        }
        i += 1;
    }
    out
}

/// Deduce unknown foreground colors from the image's pixel statistics.
///
/// Known specifications pass through unchanged at their positions; each
/// unknown slot receives the best candidate found by the combination
/// search, or a neutral gray when no candidate is available.
pub fn deduce_unknown_colors(
    image: &Raster,
    specs: &Vec<ForegroundColorSpec>,
    background_color: Color,
    threshold: i64,
) -> (out: Vec<Color>)
    requires
        image.wf(),
        specs@.len() <= MAX_FOREGROUNDS,
        0 <= threshold <= UNIT,
    ensures
        out@.len() == specs@.len(),
        forall|i: int|
            0 <= i < specs@.len() ==> ((#[trigger] specs@[i]) matches ForegroundColorSpec::Known(
                c,
            ) ==> out@[i] == c),
        exists|filled: int|
            0 <= filled <= count_unknown(specs@) && #[trigger] fill_shape(
                pixel_colors(*image),
                specs@,
                background_color,
                out@,
                filled,
            ),
        count_unknown(specs@) == 1 && standard_anchor_available(specs@, background_color)
            ==> forall|i: int|
            0 <= i < specs@.len() ==> ((#[trigger] specs@[i]) is Unknown ==> pool_color(
                pixel_colors(*image),
                specs@,
                background_color,
                out@[i],
            )),
{
    let n = specs.len();
    let mut known_colors: Vec<Color> = Vec::new();
    let mut i: usize = 0;
    while i < n
        invariant
            n == specs@.len(),
            0 <= i <= n,
            forall|c: Color|
                #[trigger] known_colors@.contains(c) <==> known_upto(specs@, i as int, c),
        decreases n - i,
    {
        let ghost pre = known_colors@;
        match specs[i] {
            ForegroundColorSpec::Known(c) => {
                known_colors.push(c);
                proof {
                    assert forall|d: Color| #[trigger] known_colors@.contains(d) implies known_upto(
                        specs@,
                        i + 1,
                        d,
                    ) by {
                        let idx = choose|idx: int|
                            0 <= idx < known_colors@.len() && known_colors@[idx] == d;
                        if idx < pre.len() {
                            assert(pre[idx] == d);
                            assert(pre.contains(d));
                        } else {
                            assert(d == c);
                            assert(specs@[i as int] == ForegroundColorSpec::Known(d));
                        }
                    }
                    assert forall|d: Color| known_upto(specs@, i + 1, d) implies
                        #[trigger] known_colors@.contains(d) by {
                        let jj = choose|jj: int|
                            0 <= jj < i + 1 && jj < specs@.len() && specs@[jj]
                                == ForegroundColorSpec::Known(d);
                        if jj < i {
                            assert(known_upto(specs@, i as int, d));
                            assert(pre.contains(d));
                            let idx = choose|idx: int| 0 <= idx < pre.len() && pre[idx] == d;
                            assert(known_colors@[idx] == d);
                        } else {
                            assert(d == c);
                            assert(known_colors@[known_colors@.len() - 1] == d);
                        }
                    }
                }
            },
            ForegroundColorSpec::Unknown => {
                proof {
                    assert forall|d: Color| known_upto(specs@, i + 1, d) implies known_upto(
                        specs@,
                        i as int,
                        d,
                    ) by {
                        let jj = choose|jj: int|
                            0 <= jj < i + 1 && jj < specs@.len() && specs@[jj]
                                == ForegroundColorSpec::Known(d);
                        assert(jj < i);
                    }
                }
            },
        }
        i += 1;
    }
    let unknown_count = count_unknown_exec(specs);

    let best_colors: Vec<Color> = if unknown_count == 0 {
        // No unknowns to deduce: the raster is not read at all.
        Vec::new()
    } else {
        let entries = crate::observe::count_colors(image);
        deduce_best_colors(
            &entries,
            specs,
            &known_colors,
            background_color,
            threshold,
            unknown_count,
            Ghost(pixel_colors(*image)),
        )
    };

    // Substitute the deduced colors positionally; gray for unfilled slots.
    let ghost pix = pixel_colors(*image);
    let mut out: Vec<Color> = Vec::new();
    let mut unknown_idx: usize = 0;
    let mut j: usize = 0;
    while j < n
        invariant
            n == specs@.len(),
            0 <= j <= n,
            out@.len() == j,
            unknown_idx <= j,
            unknown_idx == count_unknown(specs@.take(j as int)),
            pix == pixel_colors(*image),
            forall|k: int|
                0 <= k < best_colors@.len() ==> pool_color(
                    pix,
                    specs@,
                    background_color,
                    #[trigger] best_colors@[k],
                ),
            count_unknown(specs@) == 1 && standard_anchor_available(specs@, background_color)
                ==> best_colors@.len() == 1,
            forall|k: int|
                0 <= k < j ==> ((#[trigger] specs@[k]) matches ForegroundColorSpec::Known(c)
                    ==> out@[k] == c),
            forall|k: int|
                0 <= k < j ==> ((#[trigger] specs@[k]) is Unknown ==> (if count_unknown(
                    specs@.take(k),
                ) < best_colors@.len() {
                    pool_color(pix, specs@, background_color, out@[k])
                } else {
                    out@[k] == (Color { r: 128, g: 128, b: 128 })
                })),
        decreases n - j,
    {
        proof {
            assert(specs@.take(j + 1).drop_last() =~= specs@.take(j as int));
            assert(specs@.take(j + 1).last() == specs@[j as int]);
            lemma_count_unknown_take_le(specs@, j + 1);
        }
        match specs[j] {
            ForegroundColorSpec::Known(c) => {
                out.push(c);
            },
            ForegroundColorSpec::Unknown => {
                if unknown_idx < best_colors.len() {
                    out.push(best_colors[unknown_idx]);
                } else {
                    out.push(Color { r: 128, g: 128, b: 128 });
                }
                unknown_idx += 1;
            },
        }
        j += 1;
    }
    proof {
        // The first `best_colors.len()` unknown slots are filled from the
        // pool; the rest fall back to gray.
        let filled = best_colors@.len() as int;
        assert(0 <= filled <= count_unknown(specs@));
        assert(fill_shape(pix, specs@, background_color, out@, filled));
        if count_unknown(specs@) == 1 && standard_anchor_available(specs@, background_color) {
            assert(filled == 1);
            assert forall|i: int|
                0 <= i < specs@.len() && (#[trigger] specs@[i]) is Unknown implies pool_color(
                pix,
                specs@,
                background_color,
                out@[i],
            ) by {
                assert(specs@.take(i + 1).drop_last() =~= specs@.take(i));
                assert(specs@.take(i + 1).last() == specs@[i]);
                lemma_count_unknown_take_le(specs@, i + 1);
                assert(count_unknown(specs@.take(i)) == 0);
            }
        }
    }
    out
}

/// The combination search: build the candidate palette and pick the
/// assignment of candidates to unknown slots with the lowest weighted
/// reconstruction error.  Every returned color is from the pool: a
/// standard anchor color or an inversion of one of the tallied pixel
/// colors; with one unknown and an available anchor, the slot is filled.
fn deduce_best_colors(
    entries: &Vec<(Color, u128)>,
    specs: &Vec<ForegroundColorSpec>,
    known_colors: &Vec<Color>,
    background_color: Color,
    threshold: i64,
    unknown_count: usize,
    Ghost(pix): Ghost<Seq<Color>>,
) -> (best: Vec<Color>)
    requires
        1 <= unknown_count,
        unknown_count == count_unknown(specs@),
        specs@.len() <= MAX_FOREGROUNDS,
        1 <= specs@.len(),
        0 <= threshold <= UNIT,
        tally_ok(entries@, pix),
        forall|c: Color| #[trigger] known_colors@.contains(c) <==> known_spec_color(specs@, c),
    ensures
        forall|k: int|
            0 <= k < best@.len() ==> pool_color(pix, specs@, background_color, #[trigger] best@[k]),
        best@.len() <= unknown_count,
        unknown_count == 1 && standard_anchor_available(specs@, background_color)
            ==> best@.len() == 1,
{
    proof {
        lemma_count_unknown_le_len(specs@);
    }
    let top = crate::observe::top_colors(entries, 100);
    // Gather more candidates than unknowns for better selection.
    let candidates = find_candidate_foreground_colors(
        &top,
        background_color,
        unknown_count * 10,
        threshold,
    );
    proof {
        // Candidates invert tallied colors, which all occur in the image.
        assert forall|k: int| 0 <= k < candidates@.len() implies pool_color(
            pix,
            specs@,
            background_color,
            #[trigger] candidates@[k],
        ) by {
            assert(candidate_from(top@, background_color, candidates@[k]));
            let (i2, p2) = choose|i2: int, p2: int|
                0 <= i2 < top@.len() && i2 < 100 && plausibility_level(p2) && dist_sq(
                    norm_color(top@[i2].0),
                    norm_color(background_color),
                ) >= 1_040_400 && inversion_valid(top@[i2].0, background_color, p2)
                    && candidates@[k] == #[trigger] inverted_foreground(
                    top@[i2].0,
                    background_color,
                    p2,
                );
            assert(crate::observe::from_entries(entries@, top@[i2]));
            let j2 = choose|j2: int| 0 <= j2 < entries@.len() && #[trigger] entries@[j2]
                == top@[i2];
            assert(entries@[j2].1 == color_count(pix, entries@[j2].0));
            assert(entries@[j2].1 >= 1);
            lemma_count_pos_contains(pix, entries@[j2].0);
            assert(pix.contains(top@[i2].0));
        }
    }
    let mut all_candidates = candidates;

    // Standard pure colors anchor the search toward clean results.
    let mut si: usize = 0;
    while si < 8
        invariant
            0 <= si <= 8,
            0 <= threshold <= UNIT,
            forall|c: Color| #[trigger] known_colors@.contains(c) <==> known_spec_color(specs@, c),
            forall|k: int|
                0 <= k < all_candidates@.len() ==> pool_color(
                    pix,
                    specs@,
                    background_color,
                    #[trigger] all_candidates@[k],
                ),
            forall|si2: int|
                0 <= si2 < si && !known_spec_color(specs@, #[trigger] standard_palette(si2))
                    && standard_palette(si2) != background_color ==> all_candidates@.len() >= 1,
        decreases 8 - si,
    {
        let c = if si == 0 {
            Color { r: 255, g: 0, b: 0 }
        } else if si == 1 {
            Color { r: 0, g: 255, b: 0 }
        } else if si == 2 {
            Color { r: 0, g: 0, b: 255 }
        } else if si == 3 {
            Color { r: 255, g: 255, b: 0 }
        } else if si == 4 {
            Color { r: 255, g: 0, b: 255 }
        } else if si == 5 {
            Color { r: 0, g: 255, b: 255 }
        } else if si == 6 {
            Color { r: 255, g: 128, b: 0 }
        } else {
            Color { r: 128, g: 0, b: 255 }
        };
        proof {
            assert(c == standard_palette(si as int));
            assert(standard_color(c));
        }
        if !has_color(known_colors, c) && !(c == background_color) {
            if !near_any(c, &all_candidates, threshold) {
                all_candidates.push(c);
            }
        }
        si += 1;
    }
    proof {
        if standard_anchor_available(specs@, background_color) {
            let sa = choose|sa: int|
                0 <= sa < 8 && !known_spec_color(specs@, #[trigger] standard_palette(sa))
                    && standard_palette(sa) != background_color;
            assert(all_candidates@.len() >= 1);
        }
    }

    let background_norm = normalize_color(background_color);
    let mut best_colors: Vec<Color> = Vec::new();
    let mut best_error: u128 = u128::MAX;

    if unknown_count == 1 {
        let mut ci: usize = 0;
        while ci < all_candidates.len()
            invariant
                0 <= ci <= all_candidates@.len(),
                count_unknown(specs@) == 1,
                specs@.len() <= MAX_FOREGROUNDS,
                1 <= specs@.len(),
                background_norm.wf(),
                forall|k: int|
                    0 <= k < all_candidates@.len() ==> pool_color(
                        pix,
                        specs@,
                        background_color,
                        #[trigger] all_candidates@[k],
                    ),
                forall|k: int|
                    0 <= k < best_colors@.len() ==> pool_color(
                        pix,
                        specs@,
                        background_color,
                        #[trigger] best_colors@[k],
                    ),
                best_colors@.len() <= 1,
                ci == 0 ==> best_error == u128::MAX,
                ci >= 1 ==> best_colors@.len() == 1,
            decreases all_candidates@.len() - ci,
        {
            let mut trial: Vec<Color> = Vec::new();
            trial.push(all_candidates[ci]);
            proof {
                assert(trial@[0] == all_candidates@[ci as int]);
            }
            let test_fg = build_trial(specs, &trial);
            let error = evaluate_color_set(&test_fg, entries, background_norm);
            if error < best_error {
                best_error = error;
                best_colors = trial;
            }
            ci += 1;
        }
        proof {
            if standard_anchor_available(specs@, background_color) {
                assert(best_colors@.len() == 1);
            }
        }
    } else if unknown_count == 2 {
        let ghost ac = all_candidates@;
        let pool: Vec<Color>;
        if all_candidates.len() <= MAX_CANDIDATES_2_UNKNOWNS {
            pool = all_candidates;
        } else {
            pool = select_most_different_colors(&all_candidates, MAX_CANDIDATES_2_UNKNOWNS);
        }
        proof {
            assert forall|k: int| 0 <= k < pool@.len() implies pool_color(
                pix,
                specs@,
                background_color,
                #[trigger] pool@[k],
            ) by {
                if pool@ != ac {
                    let ik = choose|ik: int| 0 <= ik < ac.len() && ac[ik] == pool@[k];
                    assert(pool_color(pix, specs@, background_color, ac[ik]));
                }
            }
        }
        let m = pool.len();
        let mut ci: usize = 0;
        while ci < m
            invariant
                m == pool@.len(),
                0 <= ci <= m,
                count_unknown(specs@) == 2,
                specs@.len() <= MAX_FOREGROUNDS,
                1 <= specs@.len(),
                background_norm.wf(),
                forall|k: int|
                    0 <= k < pool@.len() ==> pool_color(
                        pix,
                        specs@,
                        background_color,
                        #[trigger] pool@[k],
                    ),
                forall|k: int|
                    0 <= k < best_colors@.len() ==> pool_color(
                        pix,
                        specs@,
                        background_color,
                        #[trigger] best_colors@[k],
                    ),
                best_colors@.len() <= 2,
            decreases m - ci,
        {
            let mut cj: usize = ci + 1;
            while cj < m
                invariant
                    m == pool@.len(),
                    0 <= ci < m,
                    ci < cj <= m,
                    count_unknown(specs@) == 2,
                    specs@.len() <= MAX_FOREGROUNDS,
                    1 <= specs@.len(),
                    background_norm.wf(),
                    forall|k: int|
                        0 <= k < pool@.len() ==> pool_color(
                            pix,
                            specs@,
                            background_color,
                            #[trigger] pool@[k],
                        ),
                    forall|k: int|
                        0 <= k < best_colors@.len() ==> pool_color(
                            pix,
                            specs@,
                            background_color,
                            #[trigger] best_colors@[k],
                        ),
                    best_colors@.len() <= 2,
                decreases m - cj,
            {
                let mut trial: Vec<Color> = Vec::new();
                trial.push(pool[ci]);
                trial.push(pool[cj]);
                proof {
                    assert(trial@[0] == pool@[ci as int] && trial@[1] == pool@[cj as int]);
                }
                let test_fg = build_trial(specs, &trial);
                let error = evaluate_color_set(&test_fg, entries, background_norm);
                if error < best_error {
                    best_error = error;
                    best_colors = trial;
                }
                cj += 1;
            }
            ci += 1;
        }
    } else if unknown_count == 3 {
        let ghost ac = all_candidates@;
        let small: Vec<Color>;
        if all_candidates.len() <= MAX_CANDIDATES_3_UNKNOWNS_ALL {
            small = all_candidates;
        } else {
            small = select_most_different_colors(
                &all_candidates,
                MAX_CANDIDATES_3_UNKNOWNS_SELECTED,
            );
        }
        proof {
            assert forall|k: int| 0 <= k < small@.len() implies pool_color(
                pix,
                specs@,
                background_color,
                #[trigger] small@[k],
            ) by {
                if small@ != ac {
                    let ik = choose|ik: int| 0 <= ik < ac.len() && ac[ik] == small@[k];
                    assert(pool_color(pix, specs@, background_color, ac[ik]));
                }
            }
        }
        let m = small.len();
        let mut ci: usize = 0;
        while ci < m
            invariant
                m == small@.len(),
                0 <= ci <= m,
                count_unknown(specs@) == 3,
                specs@.len() <= MAX_FOREGROUNDS,
                1 <= specs@.len(),
                background_norm.wf(),
                forall|k: int|
                    0 <= k < small@.len() ==> pool_color(
                        pix,
                        specs@,
                        background_color,
                        #[trigger] small@[k],
                    ),
                forall|k: int|
                    0 <= k < best_colors@.len() ==> pool_color(
                        pix,
                        specs@,
                        background_color,
                        #[trigger] best_colors@[k],
                    ),
                best_colors@.len() <= 3,
            decreases m - ci,
        {
            let mut cj: usize = ci + 1;
            while cj < m
                invariant
                    m == small@.len(),
                    0 <= ci < m,
                    ci < cj <= m,
                    count_unknown(specs@) == 3,
                    specs@.len() <= MAX_FOREGROUNDS,
                    1 <= specs@.len(),
                    background_norm.wf(),
                    forall|k: int|
                        0 <= k < small@.len() ==> pool_color(
                            pix,
                            specs@,
                            background_color,
                            #[trigger] small@[k],
                        ),
                    forall|k: int|
                        0 <= k < best_colors@.len() ==> pool_color(
                            pix,
                            specs@,
                            background_color,
                            #[trigger] best_colors@[k],
                        ),
                    best_colors@.len() <= 3,
                decreases m - cj,
            {
                let mut ck: usize = cj + 1;
                while ck < m
                    invariant
                        m == small@.len(),
                        0 <= ci < m,
                        ci < cj < m,
                        cj < ck <= m,
                        count_unknown(specs@) == 3,
                        specs@.len() <= MAX_FOREGROUNDS,
                        1 <= specs@.len(),
                        background_norm.wf(),
                        forall|k: int|
                            0 <= k < small@.len() ==> pool_color(
                                pix,
                                specs@,
                                background_color,
                                #[trigger] small@[k],
                            ),
                        forall|k: int|
                            0 <= k < best_colors@.len() ==> pool_color(
                                pix,
                                specs@,
                                background_color,
                                #[trigger] best_colors@[k],
                            ),
                        best_colors@.len() <= 3,
                    decreases m - ck,
                {
                    let mut trial: Vec<Color> = Vec::new();
                    trial.push(small[ci]);
                    trial.push(small[cj]);
                    trial.push(small[ck]);
                    proof {
                        assert(trial@[0] == small@[ci as int] && trial@[1] == small@[cj as int]
                            && trial@[2] == small@[ck as int]);
                    }
                    let test_fg = build_trial(specs, &trial);
                    let error = evaluate_color_set(&test_fg, entries, background_norm);
                    if error < best_error {
                        best_error = error;
                        best_colors = trial;
                    }
                    ck += 1;
                }
                cj += 1;
            }
            ci += 1;
        }
    } else {
        // Four or more unknowns: skip the combinatorial search and pick
        // the most mutually different candidates directly.
        best_colors = select_most_different_colors(&all_candidates, unknown_count);
        proof {
            assert forall|k: int| 0 <= k < best_colors@.len() implies pool_color(
                pix,
                specs@,
                background_color,
                #[trigger] best_colors@[k],
            ) by {
                let ik = choose|ik: int|
                    0 <= ik < all_candidates@.len() && all_candidates@[ik] == best_colors@[k];
                assert(pool_color(pix, specs@, background_color, all_candidates@[ik]));
            }
        }
    }
    best_colors
}

/// How many specifications are unknown, as executable code.
fn count_unknown_exec(specs: &Vec<ForegroundColorSpec>) -> (c: usize)
    ensures
        c == count_unknown(specs@),
{
    let n = specs.len();
    let mut count: usize = 0;
    let mut i: usize = 0;
    while i < n
        invariant
            n == specs@.len(),
            0 <= i <= n,
            count == count_unknown(specs@.take(i as int)),
            count <= i,
        decreases n - i,
    {
        proof {
            assert(specs@.take(i + 1).drop_last() =~= specs@.take(i as int));
            assert(specs@.take(i + 1).last() == specs@[i as int]);
        }
        match specs[i] {
            ForegroundColorSpec::Unknown => {
                count += 1;
            },
            ForegroundColorSpec::Known(_) => {},
        }
        i += 1;
    }
    proof {
        assert(specs@.take(n as int) =~= specs@);
    }
    count
}

} // verus!
