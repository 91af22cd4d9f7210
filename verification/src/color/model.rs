//! The colour value type and its lossless byte accessors.

use vstd::prelude::*;
use vstd::string::StringExecFns;

verus! {

/// The lower-case hex digit of a value below 16.
pub open spec fn hex_char(n: u8) -> char {
    if n < 10 {
        ('0' as u8 + n) as char
    } else {
        ('a' as u8 + (n - 10)) as char
    }
}

/// The two lower-case hex digits of a byte, the high one first.
pub open spec fn hex_pair(v: u8) -> Seq<char> {
    seq![hex_char(v / 16), hex_char(v % 16)]
}

/// The text of one lower-case hex digit.
fn hex_digit_str(n: u8) -> (s: &'static str)
    requires
        n < 16,
    ensures
        s@ == seq![hex_char(n)],
{
    proof {
        reveal_strlit("0");
        reveal_strlit("1");
        reveal_strlit("2");
        reveal_strlit("3");
        reveal_strlit("4");
        reveal_strlit("5");
        reveal_strlit("6");
        reveal_strlit("7");
        reveal_strlit("8");
        reveal_strlit("9");
        reveal_strlit("a");
        reveal_strlit("b");
        reveal_strlit("c");
        reveal_strlit("d");
        reveal_strlit("e");
        reveal_strlit("f");
    }
    let s = match n {
        0 => "0",
        1 => "1",
        2 => "2",
        3 => "3",
        4 => "4",
        5 => "5",
        6 => "6",
        7 => "7",
        8 => "8",
        9 => "9",
        10 => "a",
        11 => "b",
        12 => "c",
        13 => "d",
        14 => "e",
        _ => "f",
    };
    assert(s@ =~= seq![hex_char(n)]);
    s
}

/// Appends the two hex digits of `v` to `out`.
fn push_hex_pair(out: &mut String, v: u8)
    ensures
        final(out)@ == old(out)@ + hex_pair(v),
{
    out.append(hex_digit_str(v / 16));
    out.append(hex_digit_str(v % 16));
    assert(out@ =~= old(out)@ + hex_pair(v));
}

/// An sRGB colour with straight (non-premultiplied) alpha, one byte per channel.
#[derive(Clone, Copy, Debug, PartialEq, Eq, Hash, Structural)]
pub struct Color {
    pub r: u8,
    pub g: u8,
    pub b: u8,
    pub a: u8,
}

impl Default for Color {
    /// Opaque black.
    fn default() -> (c: Self)
        ensures
            c == (Color { r: 0, g: 0, b: 0, a: 255 }),
    {
        Color { r: 0, g: 0, b: 0, a: 255 }
    }
}

impl Color {
    /// The same colour with its alpha channel replaced by `a`.
    #[must_use]
    pub fn with_alpha(self, a: u8) -> (c: Self)
        ensures
            c == (Color { r: self.r, g: self.g, b: self.b, a }),
    {
        Color { r: self.r, g: self.g, b: self.b, a }
    }

    /// An opaque colour from its red, green and blue bytes.
    pub fn from_rgb(rgb: [u8; 3]) -> (c: Self)
        ensures
            c == (Color { r: rgb[0], g: rgb[1], b: rgb[2], a: 255 }),
    {
        Color { r: rgb[0], g: rgb[1], b: rgb[2], a: 255 }
    }

    /// The red, green and blue bytes, in that order.
    #[must_use]
    pub fn into_rgb(self) -> (rgb: [u8; 3])
        ensures
            rgb@ == seq![self.r, self.g, self.b],
    {
        [self.r, self.g, self.b]
    }

    /// A colour from its red, green, blue and alpha bytes.
    pub fn from_rgba(rgba: [u8; 4]) -> (c: Self)
        ensures
            c == (Color { r: rgba[0], g: rgba[1], b: rgba[2], a: rgba[3] }),
    {
        Color { r: rgba[0], g: rgba[1], b: rgba[2], a: rgba[3] }
    }

    /// The red, green, blue and alpha bytes, in that order.
    #[must_use]
    pub fn into_rgba(self) -> (rgba: [u8; 4])
        ensures
            rgba@ == seq![self.r, self.g, self.b, self.a],
    {
        [self.r, self.g, self.b, self.a]
    }

    /// The six lower-case hex digits of the red, green and blue bytes.
    pub open spec fn hex6(self) -> Seq<char> {
        hex_pair(self.r) + hex_pair(self.g) + hex_pair(self.b)
    }

    /// The eight lower-case hex digits of the four bytes, alpha last.
    pub open spec fn hex8(self) -> Seq<char> {
        self.hex6() + hex_pair(self.a)
    }

    /// The canonical text of the colour: `#` and its eight hex digits.
    pub open spec fn text(self) -> Seq<char> {
        seq!['#'] + self.hex8()
    }

    /// The colour as `rrggbb`, in lower case and without alpha.
    #[must_use]
    pub fn into_hex6(self) -> (s: String)
        ensures
            s@ == self.hex6(),
    {
        let mut s = String::new();
        push_hex_pair(&mut s, self.r);
        push_hex_pair(&mut s, self.g);
        push_hex_pair(&mut s, self.b);
        assert(s@ =~= self.hex6());
        s
    }

    /// The colour as `rrggbbaa`, in lower case.
    #[must_use]
    pub fn into_hex8(self) -> (s: String)
        ensures
            s@ == self.hex8(),
    {
        let mut s = self.into_hex6();
        push_hex_pair(&mut s, self.a);
        s
    }

    /// The canonical text of the colour, `#rrggbbaa`, which loses nothing.
    #[must_use]
    pub fn to_string(self) -> (s: String)
        ensures
            s@ == self.text(),
    {
        proof {
            reveal_strlit("#");
        }
        let mut s = String::from_str("#");
        assert(s@ =~= seq!['#']);
        push_hex_pair(&mut s, self.r);
        push_hex_pair(&mut s, self.g);
        push_hex_pair(&mut s, self.b);
        push_hex_pair(&mut s, self.a);
        assert(s@ =~= self.text());
        s
    }
}

} // verus!
