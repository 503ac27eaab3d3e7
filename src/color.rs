//! RGBA colors and their hexadecimal notation.
use vstd::prelude::*;
use vstd::string::*;

verus! {

/// A color with 8 bits per channel; alpha is stored as written, not premultiplied.
#[derive(Clone, Copy, PartialEq, Eq, Structural, Debug)]
pub struct Rgba {
    pub r: u8,
    pub g: u8,
    pub b: u8,
    pub a: u8,
}

impl Rgba {
    pub fn from_rgb(r: u8, g: u8, b: u8) -> (c: Rgba)
        ensures
            c == (Rgba { r, g, b, a: 255 }),
    {
        Rgba { r, g, b, a: 255 }
    }

    pub fn from_rgba(r: u8, g: u8, b: u8, a: u8) -> (c: Rgba)
        ensures
            c == (Rgba { r, g, b, a }),
    {
        Rgba { r, g, b, a }
    }
}

pub open spec fn is_hex_digit(b: u8) -> bool {
    (48 <= b <= 57) || (97 <= b <= 102) || (65 <= b <= 70)
}

pub open spec fn hex_digit_value(b: u8) -> nat {
    if 48 <= b <= 57 {
        (b - 48) as nat
    } else if 97 <= b <= 102 {
        (b - 87) as nat
    } else {
        (b - 55) as nat
    }
}

/// What parsing the two bytes `b0 b1` as a base-16 `u8` gives: two digits,
/// or a `+` sign followed by one digit.
pub open spec fn hex_pair(b0: u8, b1: u8) -> Option<u8> {
    if is_hex_digit(b0) && is_hex_digit(b1) {
        Some((hex_digit_value(b0) * 16 + hex_digit_value(b1)) as u8)
    } else if b0 == 43 && is_hex_digit(b1) {
        Some(hex_digit_value(b1) as u8)
    } else {
        None
    }
}

/// `s` without its leading `#` bytes.
pub open spec fn strip_hashes(s: Seq<u8>) -> Seq<u8>
    decreases s.len(),
{
    if s.len() > 0 && s[0] == 35 {
        strip_hashes(s.drop_first())
    } else {
        s
    }
}

/// The color that the digits of a hex literal (without `#`) denote:
/// three digits are each doubled, six give RGB, eight give RGBA.
pub open spec fn hex_digits_color(d: Seq<u8>) -> Option<Rgba> {
    if d.len() == 3 {
        match (hex_pair(d[0], d[0]), hex_pair(d[1], d[1]), hex_pair(d[2], d[2])) {
            (Some(r), Some(g), Some(b)) => Some(Rgba { r, g, b, a: 255 }),
            _ => None,
        }
    } else if d.len() == 6 {
        match (hex_pair(d[0], d[1]), hex_pair(d[2], d[3]), hex_pair(d[4], d[5])) {
            (Some(r), Some(g), Some(b)) => Some(Rgba { r, g, b, a: 255 }),
            _ => None,
        }
    } else if d.len() == 8 {
        match (
            hex_pair(d[0], d[1]),
            hex_pair(d[2], d[3]),
            hex_pair(d[4], d[5]),
            hex_pair(d[6], d[7]),
        ) {
            (Some(r), Some(g), Some(b), Some(a)) => Some(Rgba { r, g, b, a }),
            _ => None,
        }
    } else {
        None
    }
}

/// The color of a configured accent: six or three digits, a digit that does
/// not parse counting as 0; any other length gives mid gray.
pub open spec fn accent_color(d: Seq<u8>) -> Rgba {
    if d.len() == 6 {
        Rgba {
            r: hex_pair(d[0], d[1]).unwrap_or(0),
            g: hex_pair(d[2], d[3]).unwrap_or(0),
            b: hex_pair(d[4], d[5]).unwrap_or(0),
            a: 255,
        }
    } else if d.len() == 3 {
        Rgba {
            r: hex_pair(d[0], d[0]).unwrap_or(0),
            g: hex_pair(d[1], d[1]).unwrap_or(0),
            b: hex_pair(d[2], d[2]).unwrap_or(0),
            a: 255,
        }
    } else {
        Rgba { r: 128, g: 128, b: 128, a: 255 }
    }
}

pub open spec fn hex_chars() -> Seq<char> {
    seq!['0', '1', '2', '3', '4', '5', '6', '7', '8', '9', 'a', 'b', 'c', 'd', 'e', 'f']
}

/// Two lowercase hex digits, zero padded.
pub open spec fn byte_hex(v: u8) -> Seq<char> {
    seq![hex_chars()[v as int / 16], hex_chars()[v as int % 16]]
}

/// `#rrggbb`, lowercase.
pub open spec fn rgb_hex_text(c: Rgba) -> Seq<char> {
    seq!['#'] + byte_hex(c.r) + byte_hex(c.g) + byte_hex(c.b)
}

/// Black on bright colors, white on dark ones.
pub open spec fn contrast_of(c: Rgba) -> Rgba {
    if (c.r + c.g + c.b) / 3 > 128 {
        Rgba { r: 0, g: 0, b: 0, a: 255 }
    } else {
        Rgba { r: 255, g: 255, b: 255, a: 255 }
    }
}

pub fn hex_digit(b: u8) -> (r: Option<u8>)
    ensures
        r == (if is_hex_digit(b) {
            Some(hex_digit_value(b) as u8)
        } else {
            None::<u8>
        }),
{
    if 48 <= b && b <= 57 {
        Some(b - 48)
    } else if 97 <= b && b <= 102 {
        Some(b - 87)
    } else if 65 <= b && b <= 70 {
        Some(b - 55)
    } else {
        None
    }
}

fn parse_hex_pair(b0: u8, b1: u8) -> (r: Option<u8>)
    ensures
        r == hex_pair(b0, b1),
{
    match (hex_digit(b0), hex_digit(b1)) {
        (Some(h), Some(l)) => Some(h * 16 + l),
        (None, Some(l)) => {
            if b0 == 43 {
                Some(l)
            } else {
                None
            }
        },
        _ => None,
    }
}

/// Index of the first byte of `s` that is not `#`.
fn skip_hashes(s: &[u8]) -> (i: usize)
    ensures
        i <= s@.len(),
        strip_hashes(s@) == s@.subrange(i as int, s@.len() as int),
{
    let mut i: usize = 0;
    assert(s@.subrange(0, s@.len() as int) =~= s@);
    while i < s.len() && s[i] == 35
        invariant
            i <= s@.len(),
            strip_hashes(s@) == strip_hashes(s@.subrange(i as int, s@.len() as int)),
        decreases s@.len() - i,
    {
        assert(s@.subrange(i as int, s@.len() as int).drop_first() =~= s@.subrange(
            i + 1,
            s@.len() as int,
        ));
        i = i + 1;
    }
    assert(s@.subrange(i as int, s@.len() as int).len() == 0 || s@[i as int] != 35);
    i
}

/// Parses the digits of a hex color (after any leading `#`s) of 3, 6 or 8 digits.
pub fn parse_hex_color(hex: &str) -> (r: Option<Rgba>)
    ensures
        r == hex_digits_color(strip_hashes(hex.spec_bytes())),
{
    let s = hex.as_bytes();
    let i = skip_hashes(s);
    let ghost d = s@.subrange(i as int, s@.len() as int);
    let n = s.len() - i;
    if n == 3 {
        let r = parse_hex_pair(s[i], s[i]);
        let g = parse_hex_pair(s[i + 1], s[i + 1]);
        let b = parse_hex_pair(s[i + 2], s[i + 2]);
        assert(d[0] == s@[i as int] && d[1] == s@[i + 1] && d[2] == s@[i + 2]);
        match (r, g, b) {
            (Some(r), Some(g), Some(b)) => Some(Rgba::from_rgb(r, g, b)),
            _ => None,
        }
    } else if n == 6 || n == 8 {
        let r = parse_hex_pair(s[i], s[i + 1]);
        let g = parse_hex_pair(s[i + 2], s[i + 3]);
        let b = parse_hex_pair(s[i + 4], s[i + 5]);
        assert(d[0] == s@[i as int] && d[1] == s@[i + 1] && d[2] == s@[i + 2] && d[3]
            == s@[i + 3] && d[4] == s@[i + 4] && d[5] == s@[i + 5]);
        if n == 6 {
            match (r, g, b) {
                (Some(r), Some(g), Some(b)) => Some(Rgba::from_rgb(r, g, b)),
                _ => None,
            }
        } else {
            let a = parse_hex_pair(s[i + 6], s[i + 7]);
            assert(d[6] == s@[i + 6] && d[7] == s@[i + 7]);
            match (r, g, b, a) {
                (Some(r), Some(g), Some(b), Some(a)) => Some(Rgba::from_rgba(r, g, b, a)),
                _ => None,
            }
        }
    } else {
        None
    }
}

fn unwrap_or_zero(v: Option<u8>) -> (r: u8)
    ensures
        r == v.unwrap_or(0),
{
    match v {
        Some(x) => x,
        None => 0,
    }
}

/// The color of an accent written as hex in the settings.
pub fn color_from_hex(hex: &str) -> (c: Rgba)
    ensures
        c == accent_color(strip_hashes(hex.spec_bytes())),
{
    let s = hex.as_bytes();
    let i = skip_hashes(s);
    let ghost d = s@.subrange(i as int, s@.len() as int);
    let n = s.len() - i;
    if n == 6 {
        assert(d[0] == s@[i as int] && d[1] == s@[i + 1] && d[2] == s@[i + 2] && d[3]
            == s@[i + 3] && d[4] == s@[i + 4] && d[5] == s@[i + 5]);
        Rgba::from_rgb(
            unwrap_or_zero(parse_hex_pair(s[i], s[i + 1])),
            unwrap_or_zero(parse_hex_pair(s[i + 2], s[i + 3])),
            unwrap_or_zero(parse_hex_pair(s[i + 4], s[i + 5])),
        )
    } else if n == 3 {
        assert(d[0] == s@[i as int] && d[1] == s@[i + 1] && d[2] == s@[i + 2]);
        Rgba::from_rgb(
            unwrap_or_zero(parse_hex_pair(s[i], s[i])),
            unwrap_or_zero(parse_hex_pair(s[i + 1], s[i + 1])),
            unwrap_or_zero(parse_hex_pair(s[i + 2], s[i + 2])),
        )
    } else {
        Rgba::from_rgb(128, 128, 128)
    }
}

/// A one-character string holding the hex digit of `n`.
pub fn hex_digit_str(n: u8) -> (s: &'static str)
    requires
        n < 16,
    ensures
        s@ == seq![hex_chars()[n as int]],
{
    proof {
        reveal_strlit("0");
        reveal_strlit("1");
        reveal_strlit("2");
        reveal_strlit("3");
        reveal_strlit("4");
        reveal_strlit("5");
        reveal_strlit("6");
        reveal_strlit("7");
        reveal_strlit("8");
        reveal_strlit("9");
        reveal_strlit("a");
        reveal_strlit("b");
        reveal_strlit("c");
        reveal_strlit("d");
        reveal_strlit("e");
        reveal_strlit("f");
    }
    let s = match n {
        0 => "0",
        1 => "1",
        2 => "2",
        3 => "3",
        4 => "4",
        5 => "5",
        6 => "6",
        7 => "7",
        8 => "8",
        9 => "9",
        10 => "a",
        11 => "b",
        12 => "c",
        13 => "d",
        14 => "e",
        _ => "f",
    };
    assert(s@ =~= seq![hex_chars()[n as int]]);
    s
}

/// Appends the two lowercase hex digits of `v`.
pub fn push_byte_hex(s: &mut String, v: u8)
    ensures
        final(s)@ == old(s)@ + byte_hex(v),
{
    s.append(hex_digit_str(v / 16));
    s.append(hex_digit_str(v % 16));
    assert(final(s)@ =~= old(s)@ + byte_hex(v));
}

/// `#rrggbb` in lowercase hex; alpha is left out.
pub fn color_to_hex(color: Rgba) -> (s: String)
    ensures
        s@ == rgb_hex_text(color),
{
    proof {
        reveal_strlit("#");
    }
    let mut s = String::from_str("#");
    push_byte_hex(&mut s, color.r);
    push_byte_hex(&mut s, color.g);
    push_byte_hex(&mut s, color.b);
    assert(s@ =~= rgb_hex_text(color));
    s
}

/// A text color that stands out on `color`: black if its mean channel
/// exceeds 128, else white.
pub fn get_contrast_color(color: Rgba) -> (c: Rgba)
    ensures
        c == contrast_of(color),
{
    let brightness: u32 = (color.r as u32 + color.g as u32 + color.b as u32) / 3;
    if brightness > 128 {
        Rgba::from_rgb(0, 0, 0)
    } else {
        Rgba::from_rgb(255, 255, 255)
    }
}

} // verus!
