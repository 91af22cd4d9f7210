//! Parsing of colours written as text: `#RGB`, `#RGBA`, `#RRGGBB`,
//! `#RRGGBBAA`, `rgb(r,g,b)` and `rgba(r,g,b,a)`.

use vstd::prelude::*;
use vstd::slice::slice_subrange;
use vstd::string::StringExecFns;
use crate::color::alpha::{alpha_value, parse_alpha};
use crate::color::model::{hex_char, hex_pair, Color};
use crate::color::number::{channel_value, parse_channel};
use crate::color::text::{
    ascii_lower, fields_view, is_space, split_commas, split_fields, to_ascii_lower, to_chars, trim,
    trim_slice,
};

verus! {

/// Why a text was not accepted as a colour.
#[derive(Debug, Clone, Copy, PartialEq, Eq, Structural)]
pub enum ColorParseError {
    /// The text is empty or holds white space only.
    Empty,
    /// A hex colour that is not 3, 4, 6 or 8 bytes long.
    InvalidLength,
    /// A hex colour of an accepted length with a character that is no hex digit.
    InvalidHex,
    /// Neither a hex colour nor a well-formed `rgb(..)` / `rgba(..)` call.
    InvalidFunc,
    /// A component that is no number in its range.
    OutOfRange,
}

impl ColorParseError {
    /// The message that names the error.
    pub open spec fn message(self) -> Seq<char> {
        match self {
            ColorParseError::Empty => "empty color string"@,
            ColorParseError::InvalidLength => "invalid hex length"@,
            ColorParseError::InvalidHex => "invalid hex digits"@,
            ColorParseError::InvalidFunc => "invalid rgb()/rgba() function"@,
            ColorParseError::OutOfRange => "component out of range"@,
        }
    }

    /// The error as a short message for a reader.
    pub fn to_string(&self) -> (s: String)
        ensures
            s@ == self.message(),
    {
        match self {
            ColorParseError::Empty => String::from_str("empty color string"),
            ColorParseError::InvalidLength => String::from_str("invalid hex length"),
            ColorParseError::InvalidHex => String::from_str("invalid hex digits"),
            ColorParseError::InvalidFunc => String::from_str("invalid rgb()/rgba() function"),
            ColorParseError::OutOfRange => String::from_str("component out of range"),
        }
    }
}

/// The value of a hex digit, in either case.
pub open spec fn hex_value(c: char) -> Option<u8> {
    if '0' <= c <= '9' {
        Some((c as u8 - '0' as u8) as u8)
    } else if 'a' <= c <= 'f' {
        Some((c as u8 - 'a' as u8 + 10) as u8)
    } else if 'A' <= c <= 'F' {
        Some((c as u8 - 'A' as u8 + 10) as u8)
    } else {
        None
    }
}

/// Whether every character of `s` is a hex digit.
pub open spec fn is_hex(s: Seq<char>) -> bool {
    forall|i: int| 0 <= i < s.len() ==> hex_value(#[trigger] s[i]) is Some
}

/// The number of bytes that `c` takes in UTF-8.
pub open spec fn utf8_width(c: char) -> nat {
    let u = c as u32;
    if u < 0x80 {
        1
    } else if u < 0x800 {
        2
    } else if u < 0x10000 {
        3
    } else {
        4
    }
}

/// The number of bytes that `s` takes in UTF-8.
pub open spec fn utf8_len(s: Seq<char>) -> nat
    decreases s.len(),
{
    if s.len() == 0 {
        0
    } else {
        utf8_len(s.drop_last()) + utf8_width(s.last())
    }
}

/// The value of the hex digit at position `i` of `s`.
pub open spec fn nibble(s: Seq<char>, i: int) -> int {
    hex_value(s[i]).unwrap() as int
}

/// The channel that the single hex digit at position `i` stands for: the
/// digit doubled, so `f` is `ff`.
pub open spec fn short_channel(s: Seq<char>, i: int) -> u8 {
    (17 * nibble(s, i)) as u8
}

/// The channel that the two hex digits from position `i` on stand for.
pub open spec fn long_channel(s: Seq<char>, i: int) -> u8 {
    (16 * nibble(s, i) + nibble(s, i + 1)) as u8
}

/// The colour that a hex form without its `#` stands for.
///
/// The length is counted in bytes of UTF-8, so a text of an accepted byte
/// length that holds a character outside ASCII is `InvalidHex`.
pub open spec fn parse_hex_spec(h: Seq<char>) -> Result<Color, ColorParseError> {
    let n = utf8_len(h);
    if n != 3 && n != 4 && n != 6 && n != 8 {
        Err(ColorParseError::InvalidLength)
    } else if !is_hex(h) {
        Err(ColorParseError::InvalidHex)
    } else if n == 3 {
        Ok(Color { r: short_channel(h, 0), g: short_channel(h, 1), b: short_channel(h, 2), a: 255 })
    } else if n == 4 {
        Ok(
            Color {
                r: short_channel(h, 0),
                g: short_channel(h, 1),
                b: short_channel(h, 2),
                a: short_channel(h, 3),
            },
        )
    } else if n == 6 {
        Ok(Color { r: long_channel(h, 0), g: long_channel(h, 2), b: long_channel(h, 4), a: 255 })
    } else {
        Ok(
            Color {
                r: long_channel(h, 0),
                g: long_channel(h, 2),
                b: long_channel(h, 4),
                a: long_channel(h, 6),
            },
        )
    }
}

/// A prefix takes no more bytes than the whole, and every character takes
/// at least one.
pub proof fn lemma_utf8_len_prefix(s: Seq<char>, k: int)
    requires
        0 <= k <= s.len(),
    ensures
        k <= utf8_len(s.take(k)) <= utf8_len(s),
    decreases s.len(),
{
    if k == s.len() {
        assert(s.take(k) == s);
        if k > 0 {
            lemma_utf8_len_prefix(s.drop_last(), k - 1);
            assert(s.drop_last().take(k - 1) == s.drop_last());
        }
    } else {
        lemma_utf8_len_prefix(s.drop_last(), k);
        assert(s.drop_last().take(k) == s.take(k));
    }
}

/// Text made of hex digits takes one byte for each character.
pub proof fn lemma_utf8_len_hex(s: Seq<char>)
    requires
        is_hex(s),
    ensures
        utf8_len(s) == s.len(),
    decreases s.len(),
{
    if s.len() > 0 {
        assert(hex_value(s[s.len() - 1]) is Some);
        lemma_utf8_len_hex(s.drop_last());
    }
}

/// The value of one hex digit, or `None` for any other character.
pub fn hex_digit(c: char) -> (v: Option<u8>)
    ensures
        v == hex_value(c),
        v matches Some(d) ==> d < 16,
{
    if '0' <= c && c <= '9' {
        Some(c as u8 - '0' as u8)
    } else if 'a' <= c && c <= 'f' {
        Some(c as u8 - 'a' as u8 + 10)
    } else if 'A' <= c && c <= 'F' {
        Some(c as u8 - 'A' as u8 + 10)
    } else {
        None
    }
}

/// The number of bytes that one character takes in UTF-8.
fn char_width(c: char) -> (w: usize)
    ensures
        w == utf8_width(c),
{
    let u: u32 = c as u32;
    if u < 0x80 {
        1
    } else if u < 0x800 {
        2
    } else if u < 0x10000 {
        3
    } else {
        4
    }
}

/// The UTF-8 length of `s` where that is at most 8; a larger number
/// stands for every greater length.
fn short_utf8_len(s: &[char]) -> (n: usize)
    ensures
        utf8_len(s@) <= 8 ==> n == utf8_len(s@),
        utf8_len(s@) > 8 ==> n > 8,
{
    let mut n: usize = 0;
    let mut i: usize = 0;
    while i < s.len() && n <= 8
        invariant
            i <= s@.len(),
            n == utf8_len(s@.take(i as int)),
            n <= 12,
        decreases s@.len() - i,
    {
        assert(s@.take(i + 1).drop_last() == s@.take(i as int));
        n += char_width(s[i]);
        i += 1;
    }
    proof {
        lemma_utf8_len_prefix(s@, i as int);
        if i == s@.len() {
            assert(s@.take(i as int) == s@);
        }
    }
    n
}

/// Tests that every character of `s` is a hex digit.
fn all_hex(s: &[char]) -> (b: bool)
    ensures
        b == is_hex(s@),
{
    let mut i: usize = 0;
    while i < s.len()
        invariant
            i <= s@.len(),
            is_hex(s@.take(i as int)),
        decreases s@.len() - i,
    {
        if hex_digit(s[i]).is_none() {
            return false;
        }
        assert forall|j: int| 0 <= j < i + 1 implies hex_value(#[trigger] s@.take(i + 1)[j]) is Some by {
            if j < i {
                assert(s@.take(i as int)[j] == s@[j]);
            }
        }
        i += 1;
    }
    assert(s@.take(i as int) == s@);
    true
}

/// The channel of a single hex digit.
fn short_digit(s: &[char], i: usize) -> (v: u8)
    requires
        i < s@.len(),
        is_hex(s@),
    ensures
        v == short_channel(s@, i as int),
{
    match hex_digit(s[i]) {
        Some(d) => d * 17,
        None => 0,
    }
}

/// The channel of two hex digits.
fn long_digits(s: &[char], i: usize) -> (v: u8)
    requires
        i + 1 < s@.len(),
        is_hex(s@),
    ensures
        v == long_channel(s@, i as int),
{
    let h: u8 = match hex_digit(s[i]) {
        Some(d) => d,
        None => 0,
    };
    let l: u8 = match hex_digit(s[i + 1]) {
        Some(d) => d,
        None => 0,
    };
    assert((h << 4 | l) == 16 * h + l) by (bit_vector)
        requires
            h < 16,
            l < 16,
    ;
    h << 4 | l
}

/// Reads a hex colour from its characters, without the `#`.
pub fn parse_hex_chars(h: &[char]) -> (r: Result<Color, ColorParseError>)
    ensures
        r == parse_hex_spec(h@),
{
    let n = short_utf8_len(h);
    if n != 3 && n != 4 && n != 6 && n != 8 {
        return Err(ColorParseError::InvalidLength);
    }
    if !all_hex(h) {
        return Err(ColorParseError::InvalidHex);
    }
    proof {
        lemma_utf8_len_hex(h@);
    }
    if n == 3 {
        Ok(Color::from_rgba([short_digit(h, 0), short_digit(h, 1), short_digit(h, 2), 255]))
    } else if n == 4 {
        Ok(
            Color::from_rgba(
                [short_digit(h, 0), short_digit(h, 1), short_digit(h, 2), short_digit(h, 3)],
            ),
        )
    } else if n == 6 {
        Ok(Color::from_rgba([long_digits(h, 0), long_digits(h, 2), long_digits(h, 4), 255]))
    } else {
        Ok(
            Color::from_rgba(
                [long_digits(h, 0), long_digits(h, 2), long_digits(h, 4), long_digits(h, 6)],
            ),
        )
    }
}

/// Reads a hex colour, written without its `#`: `RGB`, `RGBA`, `RRGGBB` or
/// `RRGGBBAA`, digits in either case. The short forms double each digit.
pub fn parse_hex(hex: &str) -> (r: Result<Color, ColorParseError>)
    ensures
        r == parse_hex_spec(hex@),
{
    let chars = to_chars(hex);
    parse_hex_chars(chars.as_slice())
}

/// The colour that the arguments of `rgb(..)` write: three fields between
/// commas, each a channel with white space around it.
pub open spec fn parse_css_rgb_spec(args: Seq<char>) -> Result<Color, ColorParseError> {
    let f = split_commas(args);
    if f.len() != 3 {
        Err(ColorParseError::InvalidFunc)
    } else {
        match (channel_value(trim(f[0])), channel_value(trim(f[1])), channel_value(trim(f[2]))) {
            (Some(r), Some(g), Some(b)) => Ok(Color { r, g, b, a: 255 }),
            _ => Err(ColorParseError::OutOfRange),
        }
    }
}

/// The colour that the arguments of `rgba(..)` write: three channels and
/// an alpha between commas, each with white space around it.
pub open spec fn parse_css_rgba_spec(args: Seq<char>) -> Result<Color, ColorParseError> {
    let f = split_commas(args);
    if f.len() != 4 {
        Err(ColorParseError::InvalidFunc)
    } else {
        match (
            channel_value(trim(f[0])),
            channel_value(trim(f[1])),
            channel_value(trim(f[2])),
            alpha_value(trim(f[3])),
        ) {
            (Some(r), Some(g), Some(b), Some(a)) => Ok(Color { r, g, b, a }),
            _ => Err(ColorParseError::OutOfRange),
        }
    }
}

/// The opening of an `rgb` call.
pub open spec fn rgb_open() -> Seq<char> {
    seq!['r', 'g', 'b', '(']
}

/// The opening of an `rgba` call.
pub open spec fn rgba_open() -> Seq<char> {
    seq!['r', 'g', 'b', 'a', '(']
}

/// Whether `l` starts with `open` and, after it, ends with `)`.
pub open spec fn is_call(l: Seq<char>, open: Seq<char>) -> bool {
    l.len() > open.len() && l.take(open.len() as int) == open && l.last() == ')'
}

/// What stands between the opening of a call and its closing bracket.
pub open spec fn call_args(l: Seq<char>, open: Seq<char>) -> Seq<char> {
    l.subrange(open.len() as int, l.len() - 1)
}

/// The colour that `s` writes.
///
/// White space around the text is dropped. A text that starts with `#` is a
/// hex colour, with white space after the `#` dropped too. Any other text is
/// folded to lower case and must be an `rgb(..)` or `rgba(..)` call.
pub open spec fn parse_color_spec(s: Seq<char>) -> Result<Color, ColorParseError> {
    let t = trim(s);
    if t.len() == 0 {
        Err(ColorParseError::Empty)
    } else if t[0] == '#' {
        parse_hex_spec(trim(t.drop_first()))
    } else {
        let l = ascii_lower(t);
        if is_call(l, rgb_open()) {
            parse_css_rgb_spec(call_args(l, rgb_open()))
        } else if is_call(l, rgba_open()) {
            parse_css_rgba_spec(call_args(l, rgba_open()))
        } else {
            Err(ColorParseError::InvalidFunc)
        }
    }
}

/// Reads the arguments of `rgb(..)` from their characters.
pub fn parse_css_rgb_chars(args: &[char]) -> (r: Result<Color, ColorParseError>)
    ensures
        r == parse_css_rgb_spec(args@),
{
    let fields = split_fields(args);
    if fields.len() != 3 {
        return Err(ColorParseError::InvalidFunc);
    }
    let r = parse_channel(trim_slice(fields[0]));
    let g = parse_channel(trim_slice(fields[1]));
    let b = parse_channel(trim_slice(fields[2]));
    proof {
        let f = fields_view(fields@);
        assert(f[0] == fields@[0]@ && f[1] == fields@[1]@ && f[2] == fields@[2]@);
    }
    match (r, g, b) {
        (Some(r), Some(g), Some(b)) => Ok(Color::from_rgb([r, g, b])),
        _ => Err(ColorParseError::OutOfRange),
    }
}

/// Reads the arguments of `rgba(..)` from their characters.
pub fn parse_css_rgba_chars(args: &[char]) -> (r: Result<Color, ColorParseError>)
    ensures
        r == parse_css_rgba_spec(args@),
{
    let fields = split_fields(args);
    if fields.len() != 4 {
        return Err(ColorParseError::InvalidFunc);
    }
    let r = parse_channel(trim_slice(fields[0]));
    let g = parse_channel(trim_slice(fields[1]));
    let b = parse_channel(trim_slice(fields[2]));
    let a = parse_alpha(trim_slice(fields[3]));
    proof {
        let f = fields_view(fields@);
        assert(f[0] == fields@[0]@ && f[1] == fields@[1]@ && f[2] == fields@[2]@ && f[3]
            == fields@[3]@);
    }
    match (r, g, b, a) {
        (Some(r), Some(g), Some(b), Some(a)) => Ok(Color::from_rgba([r, g, b, a])),
        _ => Err(ColorParseError::OutOfRange),
    }
}

/// Reads the arguments of `rgb(..)`: `r,g,b`, each an integer from 0 to 255.
///
/// Fewer or more than three fields are `InvalidFunc`; a field that is no
/// such integer is `OutOfRange`.
pub fn parse_css_rgb(args: &str) -> (r: Result<Color, ColorParseError>)
    ensures
        r == parse_css_rgb_spec(args@),
{
    let chars = to_chars(args);
    parse_css_rgb_chars(chars.as_slice())
}

/// Reads the arguments of `rgba(..)`: `r,g,b,a`, the first three each an
/// integer from 0 to 255, the alpha a decimal number from 0 to 1 or an
/// integer from 0 to 255.
///
/// Fewer or more than four fields are `InvalidFunc`; a field that is no
/// such number is `OutOfRange`.
pub fn parse_css_rgba(args: &str) -> (r: Result<Color, ColorParseError>)
    ensures
        r == parse_css_rgba_spec(args@),
{
    let chars = to_chars(args);
    parse_css_rgba_chars(chars.as_slice())
}

/// Tests for an `rgb(` or `rgba(` opening that a `)` closes.
fn is_call_of(l: &[char], with_alpha: bool) -> (b: bool)
    ensures
        b == is_call(
            l@,
            if with_alpha {
                rgba_open()
            } else {
                rgb_open()
            },
        ),
{
    let n = l.len();
    if with_alpha {
        if n > 5 && l[0] == 'r' && l[1] == 'g' && l[2] == 'b' && l[3] == 'a' && l[4] == '(' {
            assert(l@.take(5) == rgba_open());
            l[n - 1] == ')'
        } else {
            proof {
                if n > 5 {
                    let p = l@.take(5);
                    assert(p[0] == l@[0] && p[1] == l@[1] && p[2] == l@[2] && p[3] == l@[3] && p[4]
                        == l@[4]);
                }
            }
            false
        }
    } else {
        if n > 4 && l[0] == 'r' && l[1] == 'g' && l[2] == 'b' && l[3] == '(' {
            assert(l@.take(4) == rgb_open());
            l[n - 1] == ')'
        } else {
            proof {
                if n > 4 {
                    let p = l@.take(4);
                    assert(p[0] == l@[0] && p[1] == l@[1] && p[2] == l@[2] && p[3] == l@[3]);
                }
            }
            false
        }
    }
}

/// Reads a colour from text.
///
/// Accepted are `#RGB`, `#RGBA`, `#RRGGBB`, `#RRGGBBAA`, `rgb(r,g,b)` and
/// `rgba(r,g,b,a)`, with white space around the text and around each
/// number, and with the function names in either case.
pub fn parse_color(s: &str) -> (r: Result<Color, ColorParseError>)
    ensures
        r == parse_color_spec(s@),
{
    let chars = to_chars(s);
    let t = trim_slice(chars.as_slice());
    if t.len() == 0 {
        return Err(ColorParseError::Empty);
    }
    if t[0] == '#' {
        let rest = slice_subrange(t, 1, t.len());
        assert(rest@ == t@.drop_first());
        return parse_hex_chars(trim_slice(rest));
    }
    let lower = to_ascii_lower(t);
    let l = lower.as_slice();
    if is_call_of(l, false) {
        return parse_css_rgb_chars(slice_subrange(l, 4, l.len() - 1));
    }
    if is_call_of(l, true) {
        return parse_css_rgba_chars(slice_subrange(l, 5, l.len() - 1));
    }
    Err(ColorParseError::InvalidFunc)
}

/// A hex digit that was written for a value reads back as that value, and
/// is no white space.
pub proof fn lemma_hex_char_value(n: u8)
    requires
        n < 16,
    ensures
        hex_value(hex_char(n)) == Some(n),
        !is_space(hex_char(n)),
{
}

/// The two digits written for a byte read back as that byte.
proof fn lemma_hex_pair_value(h: Seq<char>, i: int, v: u8)
    requires
        0 <= i,
        i + 1 < h.len(),
        h[i] == hex_pair(v)[0],
        h[i + 1] == hex_pair(v)[1],
    ensures
        hex_value(h[i]) is Some,
        hex_value(h[i + 1]) is Some,
        long_channel(h, i) == v,
{
    lemma_hex_char_value(v / 16);
    lemma_hex_char_value(v % 16);
}

/// Reading back the eight hex digits of a colour gives that colour: for
/// every colour `c`, the hex form `c.into_hex8()` parses to `c`.
pub proof fn lemma_hex8_round_trip(c: Color)
    ensures
        parse_hex_spec(c.hex8()) == Ok::<Color, ColorParseError>(c),
{
    let h = c.hex8();
    assert(h.len() == 8);
    lemma_hex_pair_value(h, 0, c.r);
    lemma_hex_pair_value(h, 2, c.g);
    lemma_hex_pair_value(h, 4, c.b);
    lemma_hex_pair_value(h, 6, c.a);
    assert(is_hex(h)) by {
        assert forall|i: int| 0 <= i < h.len() implies hex_value(#[trigger] h[i]) is Some by {
            assert(i == 0 || i == 1 || i == 2 || i == 3 || i == 4 || i == 5 || i == 6 || i == 7);
        }
    }
    lemma_utf8_len_hex(h);
}

/// Reading back the six hex digits of a colour gives that colour made
/// opaque.
pub proof fn lemma_hex6_round_trip(c: Color)
    ensures
        parse_hex_spec(c.hex6()) == Ok::<Color, ColorParseError>(
            Color { r: c.r, g: c.g, b: c.b, a: 255 },
        ),
{
    let h = c.hex6();
    assert(h.len() == 6);
    lemma_hex_pair_value(h, 0, c.r);
    lemma_hex_pair_value(h, 2, c.g);
    lemma_hex_pair_value(h, 4, c.b);
    assert(is_hex(h)) by {
        assert forall|i: int| 0 <= i < h.len() implies hex_value(#[trigger] h[i]) is Some by {
            assert(i == 0 || i == 1 || i == 2 || i == 3 || i == 4 || i == 5);
        }
    }
    lemma_utf8_len_hex(h);
}

/// Reading back the canonical text of a colour gives that colour: for every
/// colour `c`, `parse_color` of `c.to_string()` is `c`.
pub proof fn lemma_text_round_trip(c: Color)
    ensures
        parse_color_spec(c.text()) == Ok::<Color, ColorParseError>(c),
{
    let s = c.text();
    let h = c.hex8();
    lemma_hex_char_value(c.r / 16);
    lemma_hex_char_value(c.a % 16);
    assert(s[0] == '#');
    assert(s.last() == hex_char(c.a % 16));
    assert(trim(s) == s);
    assert(s.drop_first() == h);
    assert(h[0] == hex_char(c.r / 16));
    assert(h.last() == hex_char(c.a % 16));
    assert(trim(h) == h);
    lemma_hex8_round_trip(c);
}

impl core::str::FromStr for Color {
    type Err = ColorParseError;

    /// Reads a colour from text, as `parse_color` does.
    fn from_str(s: &str) -> (r: Result<Self, Self::Err>)
        ensures
            r == parse_color_spec(s@),
    {
        parse_color(s)
    }
}

impl<'a> TryFrom<&'a str> for Color {
    type Error = ColorParseError;

    /// Reads a colour from text, as `parse_color` does.
    fn try_from(value: &'a str) -> (r: Result<Self, Self::Error>) {
        parse_color(value)
    }
}

impl<'a> vstd::std_specs::convert::TryFromSpecImpl<&'a str> for Color {
    open spec fn obeys_try_from_spec() -> bool {
        true
    }

    open spec fn try_from_spec(v: &'a str) -> Result<Self, Self::Error> {
        parse_color_spec(v@)
    }
}

} // verus!
