//! Color representations and hex parsing.

use vstd::prelude::*;

use crate::fixed::{CHANNEL_STEP, UNIT};

verus! {

/// An RGB color with 8-bit channels.
#[derive(Clone, Copy, PartialEq, Eq, Structural, Debug, Hash)]
pub struct Color {
    pub r: u8,
    pub g: u8,
    pub b: u8,
}

impl Color {
    pub fn new(r: u8, g: u8, b: u8) -> (c: Color)
        ensures
            c == (Color { r, g, b }),
    {
        Color { r, g, b }
    }
}

/// An RGB color with fixed-point channels; a channel value `v` stands for
/// the real number `v / UNIT`.  Well-formed values lie in `[0, UNIT]`.
#[derive(Clone, Copy, PartialEq, Eq, Structural, Debug)]
pub struct NormalizedColor {
    pub r: i64,
    pub g: i64,
    pub b: i64,
}

impl NormalizedColor {
    /// All channels within the unit interval.
    pub open spec fn wf(self) -> bool {
        &&& 0 <= self.r <= UNIT
        &&& 0 <= self.g <= UNIT
        &&& 0 <= self.b <= UNIT
    }

    pub fn new(r: i64, g: i64, b: i64) -> (c: NormalizedColor)
        ensures
            c == (NormalizedColor { r, g, b }),
    {
        NormalizedColor { r, g, b }
    }
}

/// A foreground color specification - either known or unknown
#[derive(Clone, Copy, PartialEq, Eq, Structural, Debug)]
pub enum ForegroundColorSpec {
    /// A known color specified by the user
    Known(Color),
    /// An unknown color to be deduced from the image
    Unknown,
}

/// The fixed-point value of an 8-bit channel: `c / 255` scaled by `UNIT`.
pub open spec fn norm_channel(c: u8) -> int {
    c * CHANNEL_STEP
}

/// The fixed-point color that stands for an 8-bit color.
pub open spec fn norm_color(c: Color) -> NormalizedColor {
    NormalizedColor { r: (c.r * CHANNEL_STEP) as i64, g: (c.g * CHANNEL_STEP) as i64, b: (c.b * CHANNEL_STEP) as i64 }
}

/// Round a well-formed fixed-point channel to the nearest 8-bit value,
/// clamping out-of-range inputs.
pub open spec fn denorm_channel(v: i64) -> u8 {
    if v <= 0 {
        0
    } else if v >= UNIT {
        255
    } else {
        ((v as int + CHANNEL_STEP as int / 2) / (CHANNEL_STEP as int)) as u8
    }
}

/// Convert a Color to a NormalizedColor; exact, since `UNIT` is a multiple
/// of 255.
pub fn normalize_color(color: Color) -> (n: NormalizedColor)
    ensures
        n == norm_color(color),
        n.wf(),
{
    NormalizedColor {
        r: color.r as i64 * CHANNEL_STEP,
        g: color.g as i64 * CHANNEL_STEP,
        b: color.b as i64 * CHANNEL_STEP,
    }
}

/// Convert a NormalizedColor back to a Color, rounding each channel to the
/// nearest 8-bit value and clamping to `[0, 255]`.
pub fn denormalize_color(color: NormalizedColor) -> (c: Color)
    ensures
        c.r == denorm_channel(color.r),
        c.g == denorm_channel(color.g),
        c.b == denorm_channel(color.b),
{
    Color { r: denorm_channel_exec(color.r), g: denorm_channel_exec(color.g), b: denorm_channel_exec(color.b) }
}

fn denorm_channel_exec(v: i64) -> (c: u8)
    ensures
        c == denorm_channel(v),
{
    if v <= 0 {
        0
    } else if v >= UNIT {
        255
    } else {
        ((v + CHANNEL_STEP / 2) / CHANNEL_STEP) as u8
    }
}

/// Error from parsing a user-supplied color string.
#[derive(Clone, Copy, PartialEq, Eq, Structural, Debug)]
pub enum ColorParseError {
    /// The string (after an optional leading `#`) is neither 3 nor 6
    /// characters long; carries the offending length.
    InvalidLength(usize),
    /// A character is not a hexadecimal digit; carries the first such
    /// character.
    InvalidDigit(char),
}

/// Whether `c` is an ASCII hexadecimal digit.
pub open spec fn is_hex_digit(c: char) -> bool {
    ||| '0' as int <= c as int <= '9' as int
    ||| 'a' as int <= c as int <= 'f' as int
    ||| 'A' as int <= c as int <= 'F' as int
}

/// The numeric value of a hexadecimal digit.
pub open spec fn hex_val(c: char) -> int {
    if '0' as int <= c as int <= '9' as int {
        c as int - '0' as int
    } else if 'a' as int <= c as int <= 'f' as int {
        c as int - 'a' as int + 10
    } else {
        c as int - 'A' as int + 10
    }
}

/// The input with one leading `#`, if any, removed.
pub open spec fn strip_hash(s: Seq<char>) -> Seq<char> {
    if s.len() > 0 && s[0] == '#' {
        s.skip(1)
    } else {
        s
    }
}

/// All characters are hexadecimal digits.
pub open spec fn all_hex(h: Seq<char>) -> bool {
    forall|i: int| 0 <= i < h.len() ==> is_hex_digit(#[trigger] h[i])
}

/// The first character that is not a hexadecimal digit.
pub open spec fn first_non_hex(h: Seq<char>) -> char
    recommends
        !all_hex(h),
    decreases h.len(),
{
    if h.len() == 0 {
        ' '
    } else if !is_hex_digit(h[0]) {
        h[0]
    } else {
        first_non_hex(h.skip(1))
    }
}

/// The color denoted by a well-formed hex digit string: 6 digits are read
/// as three pairs, 3 digits expand each digit `d` to `d * 17`.
pub open spec fn hex_color_value(h: Seq<char>) -> Color
    recommends
        h.len() == 3 || h.len() == 6,
        all_hex(h),
{
    if h.len() == 3 {
        Color {
            r: (hex_val(h[0]) * 17) as u8,
            g: (hex_val(h[1]) * 17) as u8,
            b: (hex_val(h[2]) * 17) as u8,
        }
    } else {
        Color {
            r: (hex_val(h[0]) * 16 + hex_val(h[1])) as u8,
            g: (hex_val(h[2]) * 16 + hex_val(h[3])) as u8,
            b: (hex_val(h[4]) * 16 + hex_val(h[5])) as u8,
        }
    }
}

/// What `parse_hex_color` returns for a given input.
pub open spec fn parse_hex_color_spec(s: Seq<char>) -> Result<Color, ColorParseError> {
    let h = strip_hash(s);
    if h.len() != 3 && h.len() != 6 {
        Err(ColorParseError::InvalidLength(h.len() as usize))
    } else if !all_hex(h) {
        Err(ColorParseError::InvalidDigit(first_non_hex(h)))
    } else {
        Ok(hex_color_value(h))
    }
}

fn hex_digit_value(c: char) -> (r: Option<u8>)
    ensures
        r is Some <==> is_hex_digit(c),
        r is Some ==> r->0 == hex_val(c) && r->0 < 16,
{
    let v = c as u32;
    if v >= '0' as u32 && v <= '9' as u32 {
        Some((v - '0' as u32) as u8)
    } else if v >= 'a' as u32 && v <= 'f' as u32 {
        Some((v - 'a' as u32) as u8 + 10)
    } else if v >= 'A' as u32 && v <= 'F' as u32 {
        Some((v - 'A' as u32) as u8 + 10)
    } else {
        None
    }
}

/// If the first `i` characters are hex digits and the one at `i` is not,
/// that one is the first non-hex character of the sequence.
proof fn lemma_first_non_hex(h: Seq<char>, i: int)
    requires
        0 <= i < h.len(),
        !is_hex_digit(h[i]),
        forall|j: int| 0 <= j < i ==> is_hex_digit(#[trigger] h[j]),
    ensures
        first_non_hex(h) == h[i],
    decreases i,
{
    if i > 0 {
        lemma_first_non_hex(h.skip(1), i - 1);
    }
}

/// Parse a hex color string into RGB.
/// Supports: "#ff0000", "ff0000", "#f00", "f00".
pub fn parse_hex_color(hex: &str) -> (res: Result<Color, ColorParseError>)
    ensures
        res == parse_hex_color_spec(hex@),
{
    let n = hex.unicode_len();
    let start: usize = if n > 0 && hex.get_char(0) == '#' {
        1
    } else {
        0
    };
    let len = n - start;
    let ghost h = strip_hash(hex@);
    proof {
        assert(h =~= hex@.skip(start as int));
    }
    if len != 3 && len != 6 {
        return Err(ColorParseError::InvalidLength(len));
    }
    let mut digits: [u8; 6] = [0, 0, 0, 0, 0, 0];
    let mut i: usize = 0;
    while i < len
        invariant
            0 <= i <= len,
            len == 3 || len == 6,
            start + len == n,
            n == hex@.len(),
            h == hex@.skip(start as int),
            h == strip_hash(hex@),
            forall|j: int| 0 <= j < i ==> is_hex_digit(#[trigger] h[j]),
            forall|j: int| 0 <= j < i ==> digits[j] == hex_val(h[j]),
        decreases len - i,
    {
        match hex_digit_value(hex.get_char(start + i)) {
            Some(d) => {
                digits[i] = d;
            },
            None => {
                proof {
                    assert(h[i as int] == hex@.skip(start as int)[i as int]);
                    assert(h[i as int] == hex@[start + i]);
                    assert(!is_hex_digit(h[i as int]));
                    lemma_first_non_hex(h, i as int);
                }
                return Err(ColorParseError::InvalidDigit(hex.get_char(start + i)));
            },
        }
        i += 1;
    }
    if len == 3 {
        Ok(Color { r: digits[0] * 17, g: digits[1] * 17, b: digits[2] * 17 })
    } else {
        Ok(Color {
            r: digits[0] * 16 + digits[1],
            g: digits[2] * 16 + digits[3],
            b: digits[4] * 16 + digits[5],
        })
    }
}

/// Whether the string is exactly "auto".
fn str_is_auto(s: &str) -> (b: bool)
    ensures
        b == (s@ == "auto"@),
{
    proof {
        reveal_strlit("auto");
    }
    if s.unicode_len() != 4 {
        proof {
            assert(s@ != "auto"@);
        }
        return false;
    }
    let ok = s.get_char(0) == 'a' && s.get_char(1) == 'u' && s.get_char(2) == 't' && s.get_char(3)
        == 'o';
    proof {
        if ok {
            assert(s@ =~= "auto"@);
        }
    }
    ok
}

/// What `parse_foreground_spec` returns for a given input.
pub open spec fn parse_foreground_spec_spec(s: Seq<char>) -> Result<
    ForegroundColorSpec,
    ColorParseError,
> {
    if s == "auto"@ {
        Ok(ForegroundColorSpec::Unknown)
    } else {
        match parse_hex_color_spec(s) {
            Ok(c) => Ok(ForegroundColorSpec::Known(c)),
            Err(e) => Err(e),
        }
    }
}

/// Parse a foreground color specification:
/// either a hex color or "auto" for an unknown color.
pub fn parse_foreground_spec(spec_str: &str) -> (res: Result<
    ForegroundColorSpec,
    ColorParseError,
>)
    ensures
        res == parse_foreground_spec_spec(spec_str@),
{
    if str_is_auto(spec_str) {
        Ok(ForegroundColorSpec::Unknown)
    } else {
        match parse_hex_color(spec_str) {
            Ok(c) => Ok(ForegroundColorSpec::Known(c)),
            Err(e) => Err(e),
        }
    }
}

/// Parse a list of foreground color specifications; on failure reports the
/// index of the first string that does not parse, with its error.
pub fn parse_foreground_specs(color_strings: &Vec<String>) -> (res: Result<
    Vec<ForegroundColorSpec>,
    (usize, ColorParseError),
>)
    ensures
        res is Ok <==> (forall|i: int|
            0 <= i < color_strings@.len() ==> parse_foreground_spec_spec(
                #[trigger] color_strings@[i]@,
            ) is Ok),
        res matches Ok(v) ==> v@.len() == color_strings@.len() && (forall|i: int|
            0 <= i < v@.len() ==> Ok::<_, ColorParseError>(#[trigger] v@[i])
                == parse_foreground_spec_spec(color_strings@[i]@)),
        res matches Err((i, e)) ==> i < color_strings@.len() && parse_foreground_spec_spec(
            color_strings@[i as int]@,
        ) == Err::<ForegroundColorSpec, _>(e),
{
    let mut out: Vec<ForegroundColorSpec> = Vec::new();
    let mut i: usize = 0;
    while i < color_strings.len()
        invariant
            0 <= i <= color_strings@.len(),
            out@.len() == i,
            forall|j: int|
                0 <= j < i ==> Ok::<_, ColorParseError>(#[trigger] out@[j])
                    == parse_foreground_spec_spec(color_strings@[j]@),
        decreases color_strings@.len() - i,
    {
        match parse_foreground_spec(color_strings[i].as_str()) {
            Ok(s) => {
                out.push(s);
            },
            Err(e) => {
                return Err((i, e));
            },
        }
        i += 1;
    }
    proof {
        assert forall|j: int|
            0 <= j < color_strings@.len() implies parse_foreground_spec_spec(
            #[trigger] color_strings@[j]@,
        ) is Ok by {
            assert(Ok::<_, ColorParseError>(out@[j]) == parse_foreground_spec_spec(
                color_strings@[j]@,
            ));
        }
    }
    Ok(out)
}

} // verus!
