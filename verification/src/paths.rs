//! Naming of the output file: the input's stem with a marker suffix, an
//! optional sequence number, and the input's extension.
//!
//! The decision which candidate name is free belongs to the caller, who
//! probes the file system and supplies the set of names already taken.

use vstd::prelude::*;

verus! {

/// The largest index at which the character occurs, or -1.
pub open spec fn last_index_of(s: Seq<char>, c: char) -> int
    decreases s.len(),
{
    if s.len() == 0 {
        -1
    } else if s.last() == c {
        s.len() - 1
    } else {
        last_index_of(s.drop_last(), c)
    }
}

/// The decimal digit character for `d` in `0 ..= 9`.
pub open spec fn digit_char(d: int) -> char {
    if d == 0 {
        '0'
    } else if d == 1 {
        '1'
    } else if d == 2 {
        '2'
    } else if d == 3 {
        '3'
    } else if d == 4 {
        '4'
    } else if d == 5 {
        '5'
    } else if d == 6 {
        '6'
    } else if d == 7 {
        '7'
    } else if d == 8 {
        '8'
    } else {
        '9'
    }
}

/// The decimal representation of `k` in `0 ..= 999`.
pub open spec fn dec_rep(k: int) -> Seq<char> {
    if k < 10 {
        seq![digit_char(k)]
    } else if k < 100 {
        seq![digit_char(k / 10), digit_char(k % 10)]
    } else {
        seq![digit_char(k / 100), digit_char((k / 10) % 10), digit_char(k % 10)]
    }
}

/// Index just past the last `/`, i.e. where the file name starts.
pub open spec fn name_start(s: Seq<char>) -> int {
    last_index_of(s, '/') + 1
}

/// The absolute index of the extension dot, or -1 when the file name has
/// no usable extension (no dot, or only a leading one).
pub open spec fn ext_dot(s: Seq<char>) -> int {
    let st = name_start(s);
    let d = last_index_of(s.skip(st), '.');
    if d <= 0 {
        -1
    } else {
        st + d
    }
}

/// The output path for the given attempt: directory and stem of the input,
/// a `-bgone` marker, a `-<attempt>` counter from the second attempt on,
/// and the input's extension (`png` when it has none).
pub open spec fn output_path_spec(s: Seq<char>, k: int) -> Seq<char> {
    let st = name_start(s);
    let dp = ext_dot(s);
    let dir = s.take(st);
    let stem = if dp < 0 {
        s.skip(st)
    } else {
        s.subrange(st, dp)
    };
    let ext = if dp < 0 {
        "png"@
    } else {
        s.skip(dp + 1)
    };
    dir + stem + "-bgone"@ + (if k == 0 {
        Seq::<char>::empty()
    } else {
        seq!['-'] + dec_rep(k)
    }) + "."@ + ext
}

/// Some string of the list reads `s`.
pub open spec fn str_in(v: Seq<String>, s: Seq<char>) -> bool {
    exists|i: int| 0 <= i < v.len() && (#[trigger] v[i])@ == s
}

fn digit_str(d: u64) -> (r: &'static str)
    requires
        d <= 9,
    ensures
        r@ == seq![digit_char(d as int)],
{
    if d == 0 {
        proof {
            reveal_strlit("0");
            assert("0"@ =~= seq![digit_char(0)]);
        }
        "0"
    } else if d == 1 {
        proof {
            reveal_strlit("1");
            assert("1"@ =~= seq![digit_char(1)]);
        }
        "1"
    } else if d == 2 {
        proof {
            reveal_strlit("2");
            assert("2"@ =~= seq![digit_char(2)]);
        }
        "2"
    } else if d == 3 {
        proof {
            reveal_strlit("3");
            assert("3"@ =~= seq![digit_char(3)]);
        }
        "3"
    } else if d == 4 {
        proof {
            reveal_strlit("4");
            assert("4"@ =~= seq![digit_char(4)]);
        }
        "4"
    } else if d == 5 {
        proof {
            reveal_strlit("5");
            assert("5"@ =~= seq![digit_char(5)]);
        }
        "5"
    } else if d == 6 {
        proof {
            reveal_strlit("6");
            assert("6"@ =~= seq![digit_char(6)]);
        }
        "6"
    } else if d == 7 {
        proof {
            reveal_strlit("7");
            assert("7"@ =~= seq![digit_char(7)]);
        }
        "7"
    } else if d == 8 {
        proof {
            reveal_strlit("8");
            assert("8"@ =~= seq![digit_char(8)]);
        }
        "8"
    } else {
        proof {
            reveal_strlit("9");
            assert("9"@ =~= seq![digit_char(9)]);
        }
        "9"
    }
}

/// Append the decimal representation of `k` in `0 ..= 999`.
fn append_dec(out: &mut String, k: u64)
    requires
        k <= 999,
    ensures
        final(out)@ == old(out)@ + dec_rep(k as int),
{
    if k < 10 {
        out.append(digit_str(k));
    } else if k < 100 {
        out.append(digit_str(k / 10));
        out.append(digit_str(k % 10));
        proof {
            assert(out@ =~= old(out)@ + dec_rep(k as int));
        }
    } else {
        out.append(digit_str(k / 100));
        out.append(digit_str((k / 10) % 100 % 10));
        out.append(digit_str(k % 10));
        proof {
            assert((k as int / 10) % 100 % 10 == (k as int / 10) % 10) by (nonlinear_arith)
                requires
                    k <= 999,
        ;
            assert(out@ =~= old(out)@ + dec_rep(k as int));
        }
    }
}

/// The last occurrence of `c` in `s`, as `-1` or the index.
fn last_index_of_exec(s: &str, c: char) -> (r: i64)
    requires
        s@.len() < 0x7fff_ffff,
    ensures
        r == last_index_of(s@, c),
        -1 <= r < s@.len(),
{
    let n = s.unicode_len();
    let mut last: i64 = -1;
    let mut i: usize = 0;
    while i < n
        invariant
            n == s@.len(),
            n < 0x7fff_ffff,
            0 <= i <= n,
            last == last_index_of(s@.take(i as int), c),
            -1 <= last < i,
        decreases n - i,
    {
        proof {
            assert(s@.take(i + 1).drop_last() =~= s@.take(i as int));
            assert(s@.take(i + 1).last() == s@[i as int]);
        }
        if s.get_char(i) == c {
            last = i as i64;
        }
        i += 1;
    }
    proof {
        assert(s@.take(n as int) =~= s@);
    }
    last
}

/// The output file name for the given attempt, `0 ..= 999`: the input's
/// directory and stem, `-bgone`, a `-<attempt>` counter from the second
/// attempt on, and the input's extension (`png` when it has none).
pub fn output_file_name(input: &str, attempt: u64) -> (r: String)
    requires
        attempt <= 999,
        input@.len() < 0x7fff_ffff,
    ensures
        r@ == output_path_spec(input@, attempt as int),
{
    let n = input.unicode_len();
    let slash = last_index_of_exec(input, '/');
    let st = (slash + 1) as usize;
    // Last dot inside the file name part, as an absolute index.
    let sub = input.substring_char(st, n);
    proof {
        assert(sub@ =~= input@.skip(st as int));
    }
    let rel_dot = last_index_of_exec(sub, '.');
    let dp: i64 = if rel_dot <= 0 {
        -1
    } else {
        st as i64 + rel_dot
    };
    let mut out = String::new();
    let dir = input.substring_char(0, st);
    proof {
        assert(dir@ =~= input@.take(st as int));
    }
    out.append(dir);
    if dp < 0 {
        let stem = input.substring_char(st, n);
        proof {
            assert(stem@ =~= input@.skip(st as int));
        }
        out.append(stem);
    } else {
        let stem = input.substring_char(st, dp as usize);
        proof {
            assert(stem@ =~= input@.subrange(st as int, dp as int));
        }
        out.append(stem);
    }
    out.append("-bgone");
    if attempt > 0 {
        out.append("-");
        proof {
            reveal_strlit("-");
            assert("-"@ =~= seq!['-']);
        }
        append_dec(&mut out, attempt);
    }
    out.append(".");
    if dp < 0 {
        out.append("png");
    } else {
        let ext = input.substring_char((dp + 1) as usize, n);
        proof {
            assert(ext@ =~= input@.skip(dp + 1));
        }
        out.append(ext);
    }
    proof {
        let s = input@;
        assert(ext_dot(s) == dp as int);
        if attempt == 0 {
            assert(out@ =~= output_path_spec(s, attempt as int));
        } else {
            assert(out@ =~= output_path_spec(s, attempt as int));
        }
    }
    out
}

fn contains_str(v: &Vec<String>, s: &String) -> (b: bool)
    ensures
        b == str_in(v@, s@),
{
    let n = v.len();
    let mut i: usize = 0;
    while i < n
        invariant
            n == v@.len(),
            0 <= i <= n,
            forall|j: int| 0 <= j < i ==> (#[trigger] v@[j])@ != s@,
        decreases n - i,
    {
        if v[i].eq(s) {
            proof {
                assert(v@[i as int]@ == s@);
            }
            return true;
        }
        i += 1;
    }
    false
}

/// Determine the output path for the processed image.
///
/// An explicit output path is used as given.  Otherwise the name derives
/// from the input with a `-bgone` suffix; while the candidate is among the
/// `taken` names, a counter `-1`, `-2`, ... is appended, giving up after
/// `-999`.
pub fn determine_output_path(input: &str, output: Option<&str>, taken: &Vec<String>) -> (r: Option<
    String,
>)
    requires
        input@.len() < 0x7fff_ffff,
    ensures
        output matches Some(o) ==> (r matches Some(s) && s@ == o@),
        output is None ==> (r matches Some(s) ==> exists|k: int|
            0 <= k < 1000 && s@ == output_path_spec(input@, k) && !str_in(taken@, s@) && (forall|
                j: int,
            |
                0 <= j < k ==> str_in(taken@, #[trigger] output_path_spec(input@, j)))),
        output is None && r is None ==> forall|k: int|
            0 <= k < 1000 ==> str_in(taken@, #[trigger] output_path_spec(input@, k)),
{
    match output {
        Some(o) => Some(o.to_owned()),
        None => {
            let mut k: u64 = 0;
            while k < 1000
                invariant
                    output is None,
                    0 <= k <= 1000,
                    input@.len() < 0x7fff_ffff,
                    forall|j: int|
                        0 <= j < k ==> str_in(taken@, #[trigger] output_path_spec(input@, j)),
                decreases 1000 - k,
            {
                let cand = output_file_name(input, k);
                if !contains_str(taken, &cand) {
                    proof {
                        assert(cand@ == output_path_spec(input@, k as int));
                    }
                    return Some(cand);
                }
                k += 1;
            }
            None
        },
    }
}

} // verus!
