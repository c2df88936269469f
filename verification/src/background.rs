//! Background color detection by sampling the image border.

use vstd::prelude::*;

use vstd::arithmetic::div_mod::lemma_fundamental_div_mod;
use vstd::arithmetic::mul::lemma_mul_inequality;

use crate::color::Color;
use crate::raster::{Raster, Rgba};

verus! {

/// Configuration for background detection
pub struct BackgroundDetectionConfig {
    /// Sample every N pixels on edges
    pub edge_sample_interval: u32,
}

impl Default for BackgroundDetectionConfig {
    fn default() -> (c: Self)
        ensures
            c.edge_sample_interval == 10,
    {
        BackgroundDetectionConfig { edge_sample_interval: 10 }
    }
}

/// A translucent sample composited over black: each channel becomes
/// `round(channel * alpha / 255)`.
pub open spec fn composite_channel(c: u8, a: u8) -> u8 {
    ((c * a + 127) / 255) as u8
}

/// The color under which a sample is tallied: opaque samples keep their
/// channels, translucent ones are composited over black first.
pub open spec fn effective_color(p: Rgba) -> Color {
    if p.a == 255 {
        p.rgb()
    } else {
        Color {
            r: composite_channel(p.r, p.a),
            g: composite_channel(p.g, p.a),
            b: composite_channel(p.b, p.a),
        }
    }
}

/// The border points that detection samples, in tally order: the four
/// corners, then every `s`-th column at the top and bottom edge, then every
/// `s`-th row at the left and right edge.
pub open spec fn sample_points(w: int, h: int, s: int) -> Seq<(int, int)>
    recommends
        w >= 1,
        h >= 1,
        s >= 1,
{
    seq![(0, 0), (w - 1, 0), (0, h - 1), (w - 1, h - 1)] + Seq::new(
        (2 * ((w - 1) / s + 1)) as nat,
        |i: int| if i % 2 == 0 { ((i / 2) * s, 0) } else { ((i / 2) * s, h - 1) },
    ) + Seq::new(
        (2 * ((h - 1) / s + 1)) as nat,
        |i: int| if i % 2 == 0 { (0, (i / 2) * s) } else { (w - 1, (i / 2) * s) },
    )
}

/// The effective colors of the sampled points, in tally order.
pub open spec fn sample_colors(img: Raster, s: int) -> Seq<Color> {
    sample_points(img.spec_width(), img.spec_height(), s).map_values(
        |p: (int, int)| effective_color(img.pixel_at(p.0, p.1)),
    )
}

/// How many entries of `cs` equal `c`.
pub open spec fn color_count(cs: Seq<Color>, c: Color) -> nat
    decreases cs.len(),
{
    if cs.len() == 0 {
        0
    } else {
        color_count(cs.drop_last(), c) + (if cs.last() == c {
            1nat
        } else {
            0nat
        })
    }
}

/// The point lies on the image border.
pub open spec fn on_border(w: int, h: int, x: int, y: int) -> bool {
    x == 0 || x == w - 1 || y == 0 || y == h - 1
}

/// Every border pixel of the image tallies under the single color `u`.
pub open spec fn border_uniform(img: Raster, u: Color) -> bool {
    forall|x: int, y: int|
        0 <= x < img.spec_width() && 0 <= y < img.spec_height() && on_border(
            img.spec_width(),
            img.spec_height(),
            x,
            y,
        ) ==> effective_color(#[trigger] img.pixel_at(x, y)) == u
}

/// Appending a color to the tallied sequence raises exactly its own count.
proof fn lemma_count_push(cs: Seq<Color>, c: Color, d: Color)
    ensures
        color_count(cs.push(c), d) == color_count(cs, d) + (if c == d {
            1int
        } else {
            0int
        }),
{
    assert(cs.push(c).drop_last() =~= cs);
}

/// A color with a positive count occurs in the sequence.
pub(crate) proof fn lemma_count_pos_contains(cs: Seq<Color>, d: Color)
    requires
        color_count(cs, d) > 0,
    ensures
        cs.contains(d),
    decreases cs.len(),
{
    if cs.last() != d {
        lemma_count_pos_contains(cs.drop_last(), d);
        let i = choose|i: int| 0 <= i < cs.drop_last().len() && cs.drop_last()[i] == d;
        assert(cs[i] == d);
    } else {
        assert(cs[cs.len() - 1] == d);
    }
}

/// The least index at which the color occurs.
pub open spec fn first_occurrence(cs: Seq<Color>, c: Color) -> int
    recommends
        cs.contains(c),
    decreases cs.len(),
{
    if cs.len() == 0 {
        0
    } else if cs[0] == c {
        0
    } else {
        1 + first_occurrence(cs.skip(1), c)
    }
}

/// A color that occurs has its first occurrence at a valid index.
proof fn lemma_first_occ_bounds(cs: Seq<Color>, c: Color)
    requires
        cs.contains(c),
    ensures
        0 <= first_occurrence(cs, c) < cs.len(),
    decreases cs.len(),
{
    if cs[0] != c {
        let i = choose|i: int| 0 <= i < cs.len() && cs[i] == c;
        assert(cs.skip(1)[i - 1] == c);
        lemma_first_occ_bounds(cs.skip(1), c);
    }
}

/// Appending a color does not move the first occurrence of one already
/// present.
proof fn lemma_first_occ_push_present(cs: Seq<Color>, c: Color, d: Color)
    requires
        cs.contains(d),
    ensures
        first_occurrence(cs.push(c), d) == first_occurrence(cs, d),
    decreases cs.len(),
{
    if cs[0] != d {
        let i = choose|i: int| 0 <= i < cs.len() && cs[i] == d;
        assert(cs.skip(1)[i - 1] == d);
        assert(cs.push(c).skip(1) =~= cs.skip(1).push(c));
        lemma_first_occ_push_present(cs.skip(1), c, d);
    } else {
        assert(cs.push(c)[0] == d);
    }
}

/// A color seen for the first time first occurs at the end.
proof fn lemma_first_occ_push_new(cs: Seq<Color>, c: Color)
    requires
        !cs.contains(c),
    ensures
        first_occurrence(cs.push(c), c) == cs.len(),
    decreases cs.len(),
{
    if cs.len() == 0 {
        assert(cs.push(c)[0] == c);
    } else {
        assert(cs[0] != c);
        assert(cs.push(c)[0] != c);
        assert(cs.push(c).skip(1) =~= cs.skip(1).push(c));
        assert forall|i: int| 0 <= i < cs.skip(1).len() implies cs.skip(1)[i] != c by {
            assert(cs[i + 1] != c);
        }
        lemma_first_occ_push_new(cs.skip(1), c);
    }
}

/// Multiples of the stride up to `n / s` stay within `n`.
proof fn lemma_step_bound(k: int, n: int, s: int)
    requires
        0 <= k <= n / s,
        s >= 1,
        n >= 0,
    ensures
        k * s <= n,
{
    lemma_fundamental_div_mod(n, s);
    lemma_mul_inequality(k, n / s, s);
}

/// Every sampled point is in range and on the border.
proof fn lemma_sample_points_on_border(w: int, h: int, s: int)
    requires
        w >= 1,
        h >= 1,
        s >= 1,
    ensures
        forall|i: int|
            0 <= i < sample_points(w, h, s).len() ==> {
                let p = #[trigger] sample_points(w, h, s)[i];
                0 <= p.0 < w && 0 <= p.1 < h && on_border(w, h, p.0, p.1)
            },
{
    let nx = (w - 1) / s + 1;
    let ny = (h - 1) / s + 1;
    assert forall|i: int| 0 <= i < sample_points(w, h, s).len() implies {
        let p = #[trigger] sample_points(w, h, s)[i];
        0 <= p.0 < w && 0 <= p.1 < h && on_border(w, h, p.0, p.1)
    } by {
        let p = sample_points(w, h, s)[i];
        if i < 4 {
        } else if i < 4 + 2 * nx {
            let k = (i - 4) / 2;
            assert(0 <= k <= (w - 1) / s);
            lemma_step_bound(k, w - 1, s);
            assert(p.0 == k * s);
        } else {
            let k = (i - 4 - 2 * nx) / 2;
            assert(0 <= k <= (h - 1) / s);
            lemma_step_bound(k, h - 1, s);
            assert(p.1 == k * s);
        }
    }
}

/// Some tally entry records the color `c`.
pub open spec fn has_entry(entries: Seq<(Color, u128)>, c: Color) -> bool {
    exists|j: int| 0 <= j < entries.len() && (#[trigger] entries[j]).0 == c
}

/// The running tally: entry counts match the counts over the colors seen
/// so far and are positive, entries are distinct and ordered by first
/// occurrence, and every seen color has an entry.
pub open spec fn tally_ok(entries: Seq<(Color, u128)>, cs: Seq<Color>) -> bool {
    &&& forall|j: int|
        0 <= j < entries.len() ==> (#[trigger] entries[j]).1 == color_count(cs, entries[j].0)
    &&& forall|j: int| 0 <= j < entries.len() ==> (#[trigger] entries[j]).1 >= 1
    &&& forall|j1: int, j2: int|
        0 <= j1 < j2 < entries.len() ==> (#[trigger] entries[j1]).0 != (#[trigger] entries[j2]).0
    &&& forall|j1: int, j2: int|
        0 <= j1 < j2 < entries.len() ==> first_occurrence(cs, (#[trigger] entries[j1]).0)
            < first_occurrence(cs, (#[trigger] entries[j2]).0)
    &&& forall|i: int| 0 <= i < cs.len() ==> has_entry(entries, #[trigger] cs[i])
}

/// Updating the entry of the just-tallied color keeps the tally exact.
pub(crate) proof fn lemma_tally_update(entries: Seq<(Color, u128)>, cs: Seq<Color>, c: Color, j: int)
    requires
        tally_ok(entries, cs),
        0 <= j < entries.len(),
        entries[j].0 == c,
        entries[j].1 < u128::MAX,
    ensures
        tally_ok(entries.update(j, (c, (entries[j].1 + 1) as u128)), cs.push(c)),
{
    let post = entries.update(j, (c, (entries[j].1 + 1) as u128));
    assert forall|d: Color|
        color_count(cs.push(c), d) == color_count(cs, d) + (if c == d {
            1int
        } else {
            0int
        }) by {
        lemma_count_push(cs, c, d);
    }
    assert forall|jj: int|
        0 <= jj < post.len() implies (#[trigger] post[jj]).1 == color_count(
        cs.push(c),
        post[jj].0,
    ) by {
        if jj != j {
            assert(entries[jj].0 != c);
        }
    }
    assert forall|i: int| 0 <= i < cs.push(c).len() implies has_entry(
        post,
        #[trigger] cs.push(c)[i],
    ) by {
        if i < cs.len() {
            let jj = choose|jj: int|
                0 <= jj < entries.len() && (#[trigger] entries[jj]).0 == cs[i];
            assert(post[jj].0 == cs[i]);
        } else {
            assert(post[j].0 == c);
            assert(cs.push(c)[i] == c);
        }
    }
    // Every entry color is already present, so first occurrences and with
    // them the entry order are unchanged by the push.
    assert forall|jj: int| 0 <= jj < post.len() implies cs.contains((#[trigger] post[jj]).0) by {
        lemma_count_pos_contains(cs, post[jj].0);
    }
    assert forall|j1: int, j2: int|
        0 <= j1 < j2 < post.len() implies first_occurrence(cs.push(c), (#[trigger] post[j1]).0)
        < first_occurrence(cs.push(c), (#[trigger] post[j2]).0) by {
        lemma_first_occ_push_present(cs, c, post[j1].0);
        lemma_first_occ_push_present(cs, c, post[j2].0);
        assert(post[j1].0 == entries[j1].0 && post[j2].0 == entries[j2].0);
    }
}

/// Appending an entry for a color not yet tallied keeps the tally exact.
pub(crate) proof fn lemma_tally_new(entries: Seq<(Color, u128)>, cs: Seq<Color>, c: Color)
    requires
        tally_ok(entries, cs),
        forall|j: int| 0 <= j < entries.len() ==> (#[trigger] entries[j]).0 != c,
    ensures
        tally_ok(entries.push((c, 1)), cs.push(c)),
{
    let post = entries.push((c, 1));
    assert forall|d: Color|
        color_count(cs.push(c), d) == color_count(cs, d) + (if c == d {
            1int
        } else {
            0int
        }) by {
        lemma_count_push(cs, c, d);
    }
    if color_count(cs, c) > 0 {
        lemma_count_pos_contains(cs, c);
        let i = choose|i: int| 0 <= i < cs.len() && cs[i] == c;
        let jj = choose|jj: int| 0 <= jj < entries.len() && (#[trigger] entries[jj]).0 == cs[i];
        assert(false);
    }
    assert forall|jj: int|
        0 <= jj < post.len() implies (#[trigger] post[jj]).1 == color_count(
        cs.push(c),
        post[jj].0,
    ) by {
        if jj < entries.len() {
            assert(post[jj] == entries[jj]);
            assert(entries[jj].0 != c);
        } else {
            assert(post[jj] == (c, 1u128));
        }
    }
    assert forall|i: int| 0 <= i < cs.push(c).len() implies has_entry(
        post,
        #[trigger] cs.push(c)[i],
    ) by {
        if i < cs.len() {
            let jj = choose|jj: int|
                0 <= jj < entries.len() && (#[trigger] entries[jj]).0 == cs[i];
            assert(post[jj].0 == cs[i]);
        } else {
            assert(post[entries.len() as int].0 == c);
            assert(cs.push(c)[i] == c);
        }
    }
    // The new color was never seen, so it first occurs at the end, after
    // the unchanged first occurrences of all earlier entries.
    assert(!cs.contains(c)) by {
        if cs.contains(c) {
            let i = choose|i: int| 0 <= i < cs.len() && cs[i] == c;
            let jj = choose|jj: int| 0 <= jj < entries.len() && (#[trigger] entries[jj]).0 == cs[i];
            assert(false);
        }
    }
    lemma_first_occ_push_new(cs, c);
    assert forall|jj: int|
        0 <= jj < entries.len() implies cs.contains((#[trigger] entries[jj]).0) by {
        lemma_count_pos_contains(cs, entries[jj].0);
    }
    assert forall|j1: int, j2: int|
        0 <= j1 < j2 < post.len() implies first_occurrence(cs.push(c), (#[trigger] post[j1]).0)
        < first_occurrence(cs.push(c), (#[trigger] post[j2]).0) by {
        if j2 < entries.len() {
            lemma_first_occ_push_present(cs, c, post[j1].0);
            lemma_first_occ_push_present(cs, c, post[j2].0);
            assert(post[j1].0 == entries[j1].0 && post[j2].0 == entries[j2].0);
        } else {
            assert(post[j2].0 == c);
            assert(post[j1].0 == entries[j1].0);
            lemma_first_occ_push_present(cs, c, post[j1].0);
            lemma_first_occ_bounds(cs, post[j1].0);
        }
    }
}

/// Record one more sampled color in the tally.
pub(crate) fn tally_add(entries: &mut Vec<(Color, u128)>, c: Color, Ghost(cs): Ghost<Seq<Color>>)
    requires
        tally_ok(old(entries)@, cs),
        cs.len() < u128::MAX,
    ensures
        tally_ok(final(entries)@, cs.push(c)),
{
    let n = entries.len();
    let mut j: usize = 0;
    while j < n
        invariant
            entries@ == old(entries)@,
            n == entries@.len(),
            0 <= j <= n,
            tally_ok(entries@, cs),
            cs.len() < u128::MAX,
            forall|jj: int| 0 <= jj < j ==> (#[trigger] entries@[jj]).0 != c,
        decreases n - j,
    {
        if entries[j].0 == c {
            let count = entries[j].1;
            proof {
                lemma_count_le_len(cs, c);
                lemma_tally_update(entries@, cs, c, j as int);
            }
            entries.set(j, (c, count + 1));
            return ;
        }
        j += 1;
    }
    proof {
        lemma_tally_new(entries@, cs, c);
    }
    entries.push((c, 1));
}

/// No count exceeds the number of tallied samples.
pub(crate) proof fn lemma_count_le_len(cs: Seq<Color>, d: Color)
    ensures
        color_count(cs, d) <= cs.len(),
    decreases cs.len(),
{
    if cs.len() > 0 {
        lemma_count_le_len(cs.drop_last(), d);
    }
}

/// The tallied color with the highest count; among equal counts the one
/// that was seen first.
fn tally_max(entries: &Vec<(Color, u128)>, Ghost(cs): Ghost<Seq<Color>>) -> (best: Color)
    requires
        tally_ok(entries@, cs),
        cs.len() > 0,
    ensures
        cs.contains(best),
        forall|d: Color| color_count(cs, d) <= color_count(cs, best),
        forall|d: Color|
            #[trigger] color_count(cs, d) == color_count(cs, best) ==> first_occurrence(cs, best)
                <= first_occurrence(cs, d),
{
    proof {
        assert(cs[0] == cs[0]);
        let jj = choose|jj: int| 0 <= jj < entries@.len() && (#[trigger] entries@[jj]).0 == cs[0];
        assert(entries@.len() > 0);
    }
    let mut best_j: usize = 0;
    let mut best_count: u128 = entries[0].1;
    let mut j: usize = 1;
    while j < entries.len()
        invariant
            tally_ok(entries@, cs),
            1 <= j <= entries@.len(),
            0 <= best_j < entries@.len(),
            entries@[best_j as int].1 == best_count,
            forall|jj: int| 0 <= jj < j ==> (#[trigger] entries@[jj]).1 <= best_count,
            forall|jj: int| 0 <= jj < best_j ==> (#[trigger] entries@[jj]).1 < best_count,
        decreases entries@.len() - j,
    {
        if entries[j].1 > best_count {
            best_j = j;
            best_count = entries[j].1;
        }
        j += 1;
    }
    let best = entries[best_j].0;
    proof {
        assert(color_count(cs, best) == best_count);
        assert(best_count >= 1);
        lemma_count_pos_contains(cs, best);
        assert forall|d: Color| color_count(cs, d) <= color_count(cs, best) by {
            if color_count(cs, d) > 0 {
                lemma_count_pos_contains(cs, d);
                let i = choose|i: int| 0 <= i < cs.len() && cs[i] == d;
                let jj = choose|jj: int|
                    0 <= jj < entries@.len() && (#[trigger] entries@[jj]).0 == cs[i];
                assert(entries@[jj].1 <= best_count);
            }
        }
        // Among colors with the maximal count, the chosen entry is the
        // earliest, and entries are ordered by first occurrence.
        assert forall|d: Color|
            #[trigger] color_count(cs, d) == color_count(cs, best) implies first_occurrence(
            cs,
            best,
        ) <= first_occurrence(cs, d) by {
            lemma_count_pos_contains(cs, d);
            let i = choose|i: int| 0 <= i < cs.len() && cs[i] == d;
            let jj = choose|jj: int|
                0 <= jj < entries@.len() && (#[trigger] entries@[jj]).0 == cs[i];
            assert(entries@[jj].1 == best_count);
            assert(jj >= best_j);
            if jj > best_j {
                assert(first_occurrence(cs, entries@[best_j as int].0) < first_occurrence(
                    cs,
                    entries@[jj].0,
                ));
            }
        }
    }
    best
}

/// The first color of a non-empty sequence has a positive count.
proof fn lemma_count_first_pos(cs: Seq<Color>)
    requires
        cs.len() > 0,
    ensures
        color_count(cs, cs[0]) > 0,
    decreases cs.len(),
{
    if cs.len() > 1 {
        assert(cs.drop_last()[0] == cs[0]);
        lemma_count_first_pos(cs.drop_last());
    }
}


fn composite_channel_exec(c: u8, a: u8) -> (r: u8)
    ensures
        r == composite_channel(c, a),
{
    proof {
        assert(c as int * a as int <= 255 * 255) by (nonlinear_arith)
            requires
                c <= 255,
                a <= 255,
        ;
    }
    ((c as u32 * a as u32 + 127) / 255) as u8
}

fn effective_color_exec(p: Rgba) -> (c: Color)
    ensures
        c == effective_color(p),
{
    if p.a == 255 {
        Color { r: p.r, g: p.g, b: p.b }
    } else {
        Color {
            r: composite_channel_exec(p.r, p.a),
            g: composite_channel_exec(p.g, p.a),
            b: composite_channel_exec(p.b, p.a),
        }
    }
}

/// Detect the background color by sampling image edges and corners with the
/// default configuration.
///
/// Returns a most frequent effective color among the border samples; if the
/// whole border tallies under one color, exactly that color.
pub fn detect_background_color(img: &Raster) -> (c: Color)
    requires
        img.wf(),
        img.spec_width() >= 1,
        img.spec_height() >= 1,
    ensures
        sample_colors(*img, 10).contains(c),
        forall|d: Color| color_count(sample_colors(*img, 10), d) <= color_count(
            sample_colors(*img, 10),
            c,
        ),
        forall|d: Color|
            #[trigger] color_count(sample_colors(*img, 10), d) == color_count(
                sample_colors(*img, 10),
                c,
            ) ==> first_occurrence(sample_colors(*img, 10), c) <= first_occurrence(
                sample_colors(*img, 10),
                d,
            ),
        forall|u: Color| border_uniform(*img, u) ==> c == u,
{
    detect_background_color_with_config(img, &Default::default())
}

/// Detect the background color by sampling image edges and corners.
///
/// Tallies the effective color of the four corners and of every
/// `edge_sample_interval`-th pixel along each edge, and returns a color with
/// the highest tally; when the whole border tallies under one color, exactly
/// that color.
pub fn detect_background_color_with_config(
    img: &Raster,
    config: &BackgroundDetectionConfig,
) -> (c: Color)
    requires
        img.wf(),
        img.spec_width() >= 1,
        img.spec_height() >= 1,
        config.edge_sample_interval >= 1,
    ensures
        sample_colors(*img, config.edge_sample_interval as int).contains(c),
        forall|d: Color|
            color_count(sample_colors(*img, config.edge_sample_interval as int), d) <= color_count(
                sample_colors(*img, config.edge_sample_interval as int),
                c,
            ),
        forall|d: Color|
            #[trigger] color_count(sample_colors(*img, config.edge_sample_interval as int), d)
                == color_count(sample_colors(*img, config.edge_sample_interval as int), c)
                ==> first_occurrence(sample_colors(*img, config.edge_sample_interval as int), c)
                <= first_occurrence(sample_colors(*img, config.edge_sample_interval as int), d),
        forall|u: Color| border_uniform(*img, u) ==> c == u,
{
    let w = img.width();
    let h = img.height();
    let stride = config.edge_sample_interval as usize;
    let ghost s = stride as int;
    let ghost pts = sample_points(w as int, h as int, s);
    let ghost full = sample_colors(*img, s);
    let ghost nxg = (w - 1) as int / s + 1;
    let ghost nyg = (h - 1) as int / s + 1;
    proof {
        assert(full.len() == pts.len());
        assert(pts.len() == 4 + 2 * nxg + 2 * nyg);
    }

    let mut entries: Vec<(Color, u128)> = Vec::new();
    let ghost mut cs = Seq::<Color>::empty();

    // The four corners.
    let c0 = effective_color_exec(img.get_pixel(0, 0));
    tally_add(&mut entries, c0, Ghost(cs));
    proof {
        assert(pts[0] == (0int, 0int));
        cs = cs.push(c0);
        assert(cs =~= full.take(1));
    }
    let c1 = effective_color_exec(img.get_pixel(w - 1, 0));
    tally_add(&mut entries, c1, Ghost(cs));
    proof {
        assert(pts[1] == (w - 1 as int, 0int));
        cs = cs.push(c1);
        assert(cs =~= full.take(2));
    }
    let c2 = effective_color_exec(img.get_pixel(0, h - 1));
    tally_add(&mut entries, c2, Ghost(cs));
    proof {
        assert(pts[2] == (0int, h - 1 as int));
        cs = cs.push(c2);
        assert(cs =~= full.take(3));
    }
    let c3 = effective_color_exec(img.get_pixel(w - 1, h - 1));
    tally_add(&mut entries, c3, Ghost(cs));
    proof {
        assert(pts[3] == (w - 1 as int, h - 1 as int));
        cs = cs.push(c3);
        assert(cs =~= full.take(4));
    }

    // Top and bottom edges.
    let nx = (w - 1) / stride + 1;
    let mut k: usize = 0;
    while k < nx
        invariant
            img.wf(),
            w == img.spec_width(),
            h == img.spec_height(),
            w >= 1,
            h >= 1,
            stride >= 1,
            s == stride,
            pts == sample_points(w as int, h as int, s),
            full == sample_colors(*img, s),
            full.len() == pts.len(),
            pts.len() == 4 + 2 * nxg + 2 * nyg,
            nx == nxg,
            nxg == (w - 1) as int / s + 1,
            nyg == (h - 1) as int / s + 1,
            0 <= k <= nx,
            cs.len() == 4 + 2 * k,
            cs == full.take(4 + 2 * k),
            tally_ok(entries@, cs),
        decreases nx - k,
    {
        proof {
            lemma_step_bound(k as int, (w - 1) as int, s);
        }
        let x = k * stride;
        let p1 = effective_color_exec(img.get_pixel(x, 0));
        tally_add(&mut entries, p1, Ghost(cs));
        proof {
            assert(pts[4 + 2 * k] == (x as int, 0int));
            cs = cs.push(p1);
            assert(cs =~= full.take(4 + 2 * k + 1));
        }
        let p2 = effective_color_exec(img.get_pixel(x, h - 1));
        tally_add(&mut entries, p2, Ghost(cs));
        proof {
            assert(pts[4 + 2 * k + 1] == (x as int, h - 1 as int));
            cs = cs.push(p2);
            assert(cs =~= full.take(4 + 2 * k + 2));
        }
        k += 1;
    }

    // Left and right edges.
    let ny = (h - 1) / stride + 1;
    let mut k2: usize = 0;
    while k2 < ny
        invariant
            img.wf(),
            w == img.spec_width(),
            h == img.spec_height(),
            w >= 1,
            h >= 1,
            stride >= 1,
            s == stride,
            pts == sample_points(w as int, h as int, s),
            full == sample_colors(*img, s),
            full.len() == pts.len(),
            pts.len() == 4 + 2 * nxg + 2 * nyg,
            ny == nyg,
            nxg == (w - 1) as int / s + 1,
            nyg == (h - 1) as int / s + 1,
            0 <= k2 <= ny,
            cs.len() == 4 + 2 * nxg + 2 * k2,
            cs == full.take(4 + 2 * nxg + 2 * k2),
            tally_ok(entries@, cs),
        decreases ny - k2,
    {
        proof {
            lemma_step_bound(k2 as int, (h - 1) as int, s);
        }
        let y = k2 * stride;
        let p1 = effective_color_exec(img.get_pixel(0, y));
        tally_add(&mut entries, p1, Ghost(cs));
        proof {
            assert(pts[4 + 2 * nxg + 2 * k2] == (0int, y as int));
            cs = cs.push(p1);
            assert(cs =~= full.take(4 + 2 * nxg + 2 * k2 + 1));
        }
        let p2 = effective_color_exec(img.get_pixel(w - 1, y));
        tally_add(&mut entries, p2, Ghost(cs));
        proof {
            assert(pts[4 + 2 * nxg + 2 * k2 + 1] == (w - 1 as int, y as int));
            cs = cs.push(p2);
            assert(cs =~= full.take(4 + 2 * nxg + 2 * k2 + 2));
        }
        k2 += 1;
    }

    proof {
        assert(cs =~= full);
    }
    let best = tally_max(&entries, Ghost(cs));
    proof {
        lemma_sample_points_on_border(w as int, h as int, s);
        assert forall|u: Color| border_uniform(*img, u) implies best == u by {
            let i = choose|i: int| 0 <= i < full.len() && full[i] == best;
            let p = pts[i];
            assert(full[i] == effective_color(img.pixel_at(p.0, p.1)));
            assert(0 <= p.0 < w && 0 <= p.1 < h && on_border(w as int, h as int, p.0, p.1));
        }
    }
    best
}

} // verus!
