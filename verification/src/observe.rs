//! The pixel-observation table: occurrence counts of the distinct colors
//! of a raster.

use vstd::prelude::*;

use std::collections::HashMap;

use crate::background::{
    has_entry, lemma_count_le_len, lemma_tally_new, lemma_tally_update, tally_ok,
};
use crate::color::Color;
use crate::raster::Raster;

verus! {

/// The value is one of the table's entries.
pub open spec fn from_entries(entries: Seq<(Color, u128)>, e: (Color, u128)) -> bool {
    exists|j: int| 0 <= j < entries.len() && #[trigger] entries[j] == e
}

/// The color packed into one integer key, one byte per channel.
pub open spec fn color_key(c: Color) -> u64 {
    (c.r * 65536 + c.g * 256 + c.b) as u64
}

/// Packing is injective: equal keys mean equal colors.
proof fn lemma_color_key_injective(c1: Color, c2: Color)
    requires
        color_key(c1) == color_key(c2),
    ensures
        c1 == c2,
{
    assert(c1.r == c2.r && c1.g == c2.g && c1.b == c2.b) by (nonlinear_arith)
        requires
            0 <= c1.r <= 255,
            0 <= c1.g <= 255,
            0 <= c1.b <= 255,
            0 <= c2.r <= 255,
            0 <= c2.g <= 255,
            0 <= c2.b <= 255,
            c1.r * 65536 + c1.g * 256 + c1.b == c2.r * 65536 + c2.g * 256 + c2.b,
    ;
}

fn color_key_exec(c: Color) -> (k: u64)
    ensures
        k == color_key(c),
{
    c.r as u64 * 65536 + c.g as u64 * 256 + c.b as u64
}

/// The index is exact: a key is present exactly for tallied colors, and
/// points at that color's entry.
spec fn index_ok(index: Map<u64, usize>, entries: Seq<(Color, u128)>) -> bool {
    &&& forall|c: Color| #[trigger] index.contains_key(color_key(c)) <==> has_entry(entries, c)
    &&& forall|c: Color|
        #[trigger] index.contains_key(color_key(c)) ==> 0 <= index[color_key(c)] < entries.len()
            && entries[index[color_key(c)] as int].0 == c
}

/// The colors of the raster's pixels in row-major order, alpha ignored.
pub open spec fn pixel_colors(img: Raster) -> Seq<Color> {
    Seq::new(
        (img.spec_width() * img.spec_height()) as nat,
        |i: int| img.pixel_at(i % img.spec_width(), i / img.spec_width()).rgb(),
    )
}

/// Count the occurrences of every distinct pixel color of the raster.
/// Each returned entry holds a distinct color with its exact count, and
/// every pixel color has an entry.
pub fn count_colors(img: &Raster) -> (entries: Vec<(Color, u128)>)
    requires
        img.wf(),
    ensures
        tally_ok(entries@, pixel_colors(*img)),
{
    let w = img.width();
    let h = img.height();
    let n = img.pixel_count();
    proof {
        assert(pixel_colors(*img).len() == n);
    }
    broadcast use vstd::std_specs::hash::group_hash_axioms;

    proof {
        if n > 0 {
            assert(w >= 1) by (nonlinear_arith)
                requires
                    n == w * h,
                    n > 0,
            ;
        }
    }
    let mut entries: Vec<(Color, u128)> = Vec::new();
    // An integer-keyed index into the entry list keeps each lookup
    // constant-time.
    let mut index: HashMap<u64, usize> = HashMap::new();
    let ghost mut cs = Seq::<Color>::empty();
    let mut i: usize = 0;
    while i < n
        invariant
            img.wf(),
            w == img.spec_width(),
            h == img.spec_height(),
            n == w * h,
            n > 0 ==> w >= 1,
            0 <= i <= n,
            cs.len() == i,
            cs == pixel_colors(*img).take(i as int),
            tally_ok(entries@, cs),
            index_ok(index@, entries@),
        decreases n - i,
    {
        broadcast use vstd::std_specs::hash::group_hash_axioms;

        let x = i % w;
        let y = i / w;
        proof {
            assert(y < h) by (nonlinear_arith)
                requires
                    i < n,
                    n == w * h,
                    w >= 1,
                    y == i as int / w as int,
                    i >= 0,
            ;
            assert(x < w) by (nonlinear_arith)
                requires
                    w >= 1,
                    x == i as int % w as int,
            ;
            assert(i as int % w as int >= 0) by (nonlinear_arith)
                requires
                    w >= 1,
                    i >= 0,
            ;
            assert(i as int / w as int >= 0) by (nonlinear_arith)
                requires
                    w >= 1,
                    i >= 0,
            ;
        }
        let p = img.get_pixel(x, y);
        let c = crate::color::Color { r: p.r, g: p.g, b: p.b };
        proof {
            assert(c == img.pixel_at(x as int, y as int).rgb());
            assert(pixel_colors(*img)[i as int] == c);
        }
        let key = color_key_exec(c);
        let ghost entries_pre = entries@;
        match index.get(&key) {
            Some(j_ref) => {
                let j = *j_ref;
                proof {
                    assert(index@.contains_key(color_key(c)));
                    assert(entries@[j as int].0 == c);
                    lemma_count_le_len(cs, c);
                    lemma_tally_update(entries@, cs, c, j as int);
                }
                let count = entries[j].1;
                entries.set(j, (c, count + 1));
                proof {
                    // Colors and positions are unchanged, so the index
                    // stays exact.
                    assert forall|c2: Color| #[trigger] index@.contains_key(color_key(c2))
                        implies 0 <= index@[color_key(c2)] < entries@.len()
                        && entries@[index@[color_key(c2)] as int].0 == c2 by {
                        if index@[color_key(c2)] == j {
                            lemma_color_key_injective(c2, entries_pre[j as int].0);
                        }
                    }
                    assert forall|c2: Color| #[trigger] index@.contains_key(color_key(c2))
                        <==> has_entry(entries@, c2) by {
                        assert(has_entry(entries@, c2) <==> has_entry(entries_pre, c2)) by {
                            if has_entry(entries@, c2) {
                                let jj = choose|jj: int|
                                    0 <= jj < entries@.len() && (#[trigger] entries@[jj]).0 == c2;
                                assert(entries_pre[jj].0 == c2 || (jj == j && c2 == c));
                                assert(entries_pre[j as int].0 == c);
                            }
                            if has_entry(entries_pre, c2) {
                                let jj = choose|jj: int|
                                    0 <= jj < entries_pre.len() && (#[trigger] entries_pre[jj]).0
                                        == c2;
                                assert(entries@[jj].0 == c2 || (jj == j && c2 == c));
                                assert(entries@[j as int].0 == c);
                            }
                        }
                    }
                }
            },
            None => {
                proof {
                    assert(!index@.contains_key(color_key(c)));
                    assert(!has_entry(entries@, c));
                    assert forall|jj: int|
                        0 <= jj < entries@.len() implies (#[trigger] entries@[jj]).0 != c by {
                        if entries@[jj].0 == c {
                            assert(has_entry(entries@, c));
                        }
                    }
                    lemma_tally_new(entries@, cs, c);
                }
                let slot = entries.len();
                index.insert(key, slot);
                entries.push((c, 1));
                proof {
                    assert forall|c2: Color| #[trigger] index@.contains_key(color_key(c2))
                        <==> has_entry(entries@, c2) by {
                        if color_key(c2) == color_key(c) {
                            lemma_color_key_injective(c2, c);
                            assert(entries@[entries@.len() - 1].0 == c);
                        } else {
                            if has_entry(entries@, c2) {
                                let jj = choose|jj: int|
                                    0 <= jj < entries@.len() && (#[trigger] entries@[jj]).0 == c2;
                                assert(jj < entries_pre.len());
                                assert(entries_pre[jj].0 == c2);
                            }
                            if has_entry(entries_pre, c2) {
                                let jj = choose|jj: int|
                                    0 <= jj < entries_pre.len() && (#[trigger] entries_pre[jj]).0
                                        == c2;
                                assert(entries@[jj].0 == c2);
                            }
                        }
                    }
                    assert forall|c2: Color| #[trigger] index@.contains_key(color_key(c2))
                        implies 0 <= index@[color_key(c2)] < entries@.len()
                        && entries@[index@[color_key(c2)] as int].0 == c2 by {
                        if color_key(c2) == color_key(c) {
                            lemma_color_key_injective(c2, c);
                        } else {
                            assert(entries_pre[index@[color_key(c2)] as int].0 == c2);
                        }
                    }
                }
            },
        }
        proof {
            cs = cs.push(c);
            assert(cs =~= pixel_colors(*img).take(i + 1));
        }
        i += 1;
    }
    proof {
        assert(pixel_colors(*img).take(n as int) =~= pixel_colors(*img));
    }
    entries
}

/// Up to `k` entries with the highest counts, in descending count order
/// (ties keep the earlier entry first); the returned colors are distinct
/// entries of the table, and no entry left behind counts more than the
/// last one taken.
pub fn top_colors(entries: &Vec<(Color, u128)>, k: usize) -> (top: Vec<(Color, u128)>)
    ensures
        top@.len() <= k,
        top@.len() <= entries@.len(),
        entries@.len() >= k ==> top@.len() == k,
        entries@.len() < k ==> top@.len() == entries@.len(),
        forall|i: int, j: int| 0 <= i < j < top@.len() ==> (#[trigger] top@[i]).1 >= (
        #[trigger] top@[j]).1,
        forall|i: int| 0 <= i < top@.len() ==> from_entries(entries@, #[trigger] top@[i]),
        top@.len() > 0 ==> forall|j: int|
            0 <= j < entries@.len() ==> (from_entries(top@, #[trigger] entries@[j])
                || entries@[j].1 <= top@[top@.len() - 1].1),
{
    let n = entries.len();
    let mut used: Vec<bool> = Vec::new();
    let mut i: usize = 0;
    while i < n
        invariant
            0 <= i <= n,
            used@.len() == i,
            forall|j: int| 0 <= j < i ==> #[trigger] used@[j] == false,
        decreases n - i,
    {
        used.push(false);
        i += 1;
    }
    proof {
        lemma_count_unused_all_false(used@);
    }
    let count = if k < n {
        k
    } else {
        n
    };
    let mut top: Vec<(Color, u128)> = Vec::new();
    let mut round: usize = 0;
    while round < count
        invariant
            n == entries@.len(),
            used@.len() == n,
            count <= n,
            count <= k,
            0 <= round <= count,
            top@.len() == round,
            forall|i2: int, j2: int| 0 <= i2 < j2 < top@.len() ==> (#[trigger] top@[i2]).1 >= (
            #[trigger] top@[j2]).1,
            forall|i2: int| 0 <= i2 < top@.len() ==> from_entries(entries@, #[trigger] top@[i2]),
            // enough unused entries remain, and every unused entry counts
            // no more than the last chosen one
            (count_unused(used@) as int) == n - round,
            forall|j2: int|
                0 <= j2 < n && used@[j2] == false && top@.len() > 0 ==> (#[trigger] entries@[j2]).1
                    <= top@[top@.len() - 1].1,
            forall|j2: int|
                0 <= j2 < n && used@[j2] == true ==> from_entries(top@, #[trigger] entries@[j2]),
        decreases count - round,
    {
        // Find the unused entry with the highest count.
        let mut best: usize = n;
        let mut j: usize = 0;
        while j < n
            invariant
                n == entries@.len(),
                used@.len() == n,
                0 <= j <= n,
                best == n || (best < n && used@[best as int] == false),
                best < n ==> forall|j2: int|
                    0 <= j2 < j && used@[j2] == false ==> (#[trigger] entries@[j2]).1
                        <= entries@[best as int].1,
                best == n ==> forall|j2: int| 0 <= j2 < j ==> #[trigger] used@[j2] == true,
            decreases n - j,
        {
            if !used[j] {
                if best == n {
                    best = j;
                } else if entries[j].1 > entries[best].1 {
                    best = j;
                }
            }
            j += 1;
        }
        proof {
            if best == n {
                lemma_count_unused_zero(used@);
                assert(false);
            }
        }
        let ghost top_pre = top@;
        top.push(entries[best]);
        proof {
            assert(entries@[best as int] == top@[top@.len() - 1]);
            assert(from_entries(entries@, top@[top@.len() - 1]));
            assert(from_entries(top@, entries@[best as int]));
            assert forall|j2: int|
                0 <= j2 < n && used@[j2] == true implies from_entries(
                top@,
                #[trigger] entries@[j2],
            ) by {
                let ik = choose|ik: int| 0 <= ik < top_pre.len() && top_pre[ik] == entries@[j2];
                assert(top@[ik] == entries@[j2]);
            }
            lemma_count_unused_update(used@, best as int);
        }
        used.set(best, true);
        round += 1;
    }
    proof {
        if top@.len() > 0 {
            assert forall|j: int| 0 <= j < entries@.len() implies (from_entries(
                top@,
                #[trigger] entries@[j],
            ) || entries@[j].1 <= top@[top@.len() - 1].1) by {
                if used@[j] == true {
                } else {
                }
            }
        }
    }
    top
}

/// How many entries of the flag list are still unused.
pub open spec fn count_unused(used: Seq<bool>) -> nat
    decreases used.len(),
{
    if used.len() == 0 {
        0
    } else {
        count_unused(used.drop_last()) + (if used.last() == false {
            1nat
        } else {
            0nat
        })
    }
}

/// A list of fresh flags has every entry unused.
proof fn lemma_count_unused_all_false(used: Seq<bool>)
    requires
        forall|j: int| 0 <= j < used.len() ==> #[trigger] used[j] == false,
    ensures
        count_unused(used) == used.len(),
    decreases used.len(),
{
    if used.len() > 0 {
        assert forall|j: int| 0 <= j < used.drop_last().len() implies #[trigger] used.drop_last()[j]
            == false by {
            assert(used[j] == false);
        }
        lemma_count_unused_all_false(used.drop_last());
    }
}

/// A list whose entries are all used has no unused ones.
proof fn lemma_count_unused_zero(used: Seq<bool>)
    requires
        forall|j: int| 0 <= j < used.len() ==> #[trigger] used[j] == true,
    ensures
        count_unused(used) == 0,
    decreases used.len(),
{
    if used.len() > 0 {
        assert forall|j: int| 0 <= j < used.drop_last().len() implies #[trigger] used.drop_last()[j]
            == true by {
            assert(used[j] == true);
        }
        lemma_count_unused_zero(used.drop_last());
    }
}

/// Marking an unused entry used lowers the unused count by one.
proof fn lemma_count_unused_update(used: Seq<bool>, j: int)
    requires
        0 <= j < used.len(),
        used[j] == false,
    ensures
        count_unused(used.update(j, true)) == count_unused(used) - 1,
    decreases used.len(),
{
    if j == used.len() - 1 {
        assert(used.update(j, true).drop_last() =~= used.drop_last());
    } else {
        assert(used.update(j, true).drop_last() =~= used.drop_last().update(j, true));
        lemma_count_unused_update(used.drop_last(), j);
    }
}

} // verus!
