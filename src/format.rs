//! The notation a literal is written in, and writing a color back in it.
use vstd::prelude::*;
use vstd::string::*;
use vstd::utf8::*;

use crate::color::{Rgba, byte_hex, push_byte_hex, rgb_hex_text};
use crate::text::{dec_chars, push_decimal};

verus! {

/// How a color literal is written, so that an edited color is written the same way.
#[derive(Clone, Copy, PartialEq, Eq, Structural, Debug)]
pub enum ColorFormat {
    Hex3,
    Hex6,
    Hex8,
    Rgb,
    Rgba,
}

/// Unicode White_Space, the characters that `str::trim` removes.
pub open spec fn is_white_space(c: char) -> bool {
    ('\u{9}' <= c <= '\u{d}') || c == ' ' || c == '\u{85}' || c == '\u{a0}' || c == '\u{1680}'
        || ('\u{2000}' <= c <= '\u{200a}') || c == '\u{2028}' || c == '\u{2029}' || c
        == '\u{202f}' || c == '\u{205f}' || c == '\u{3000}'
}

pub open spec fn trim_start(s: Seq<char>) -> Seq<char>
    decreases s.len(),
{
    if s.len() > 0 && is_white_space(s[0]) {
        trim_start(s.drop_first())
    } else {
        s
    }
}

pub open spec fn trim_end(s: Seq<char>) -> Seq<char>
    decreases s.len(),
{
    if s.len() > 0 && is_white_space(s.last()) {
        trim_end(s.drop_last())
    } else {
        s
    }
}

/// `s` without leading and trailing white space.
pub open spec fn trimmed(s: Seq<char>) -> Seq<char> {
    trim_end(trim_start(s))
}

/// The format of a literal whose trimmed text has the bytes `b`.
pub open spec fn format_of(b: Seq<u8>) -> ColorFormat {
    if b.len() >= 4 && b.subrange(0, 4) == seq![114u8, 103u8, 98u8, 97u8] {
        ColorFormat::Rgba
    } else if b.len() >= 3 && b.subrange(0, 3) == seq![114u8, 103u8, 98u8] {
        ColorFormat::Rgb
    } else if b.len() >= 1 && b[0] == 35 {
        if b.len() == 4 {
            ColorFormat::Hex3
        } else if b.len() == 9 {
            ColorFormat::Hex8
        } else {
            ColorFormat::Hex6
        }
    } else {
        ColorFormat::Hex6
    }
}

/// The text of `c` written in the format `f`; `alpha` is the text written
/// for the alpha fraction of `rgba(..)`. The three-digit form writes each
/// channel divided by 17 in decimal.
pub open spec fn format_text(c: Rgba, f: ColorFormat, alpha: Seq<char>) -> Seq<char> {
    match f {
        ColorFormat::Hex3 => seq!['#'] + dec_chars((c.r / 17) as nat) + dec_chars(
            (c.g / 17) as nat,
        ) + dec_chars((c.b / 17) as nat),
        ColorFormat::Hex6 => rgb_hex_text(c),
        ColorFormat::Hex8 => rgb_hex_text(c) + byte_hex(c.a),
        ColorFormat::Rgb => seq!['r', 'g', 'b', '('] + dec_chars(c.r as nat) + seq![',', ' ']
            + dec_chars(c.g as nat) + seq![',', ' '] + dec_chars(c.b as nat) + seq![')'],
        ColorFormat::Rgba => seq!['r', 'g', 'b', 'a', '('] + dec_chars(c.r as nat) + seq![
            ',',
            ' ',
        ] + dec_chars(c.g as nat) + seq![',', ' '] + dec_chars(c.b as nat) + seq![',', ' ']
            + alpha + seq![')'],
    }
}

fn white_space(c: char) -> (r: bool)
    ensures
        r == is_white_space(c),
{
    ('\u{9}' <= c && c <= '\u{d}') || c == ' ' || c == '\u{85}' || c == '\u{a0}' || c
        == '\u{1680}' || ('\u{2000}' <= c && c <= '\u{200a}') || c == '\u{2028}' || c
        == '\u{2029}' || c == '\u{202f}' || c == '\u{205f}' || c == '\u{3000}'
}

/// `s` without leading and trailing white space.
pub fn trim_text(s: &str) -> (r: &str)
    ensures
        r@ == trimmed(s@),
{
    let n = s.unicode_len();
    let mut i: usize = 0;
    assert(s@.subrange(0, n as int) =~= s@);
    while i < n && white_space(s.get_char(i))
        invariant
            i <= n,
            n == s@.len(),
            trim_start(s@) == trim_start(s@.subrange(i as int, n as int)),
        decreases n - i,
    {
        assert(s@.subrange(i as int, n as int).drop_first() =~= s@.subrange(i + 1, n as int));
        i = i + 1;
    }
    assert(trim_start(s@) == s@.subrange(i as int, n as int));
    let mut j: usize = n;
    while j > i && white_space(s.get_char(j - 1))
        invariant
            i <= j <= n,
            n == s@.len(),
            trim_start(s@) == s@.subrange(i as int, n as int),
            trimmed(s@) == trim_end(s@.subrange(i as int, j as int)),
        decreases j,
    {
        assert(s@.subrange(i as int, j as int).drop_last() =~= s@.subrange(i as int, j - 1));
        j = j - 1;
    }
    assert(trimmed(s@) == s@.subrange(i as int, j as int));
    s.substring_char(i, j)
}

/// The format that `text` is written in: `rgba` and `rgb` by their prefix,
/// `#` with 3 or 8 digits as such, and six-digit hex for anything else.
pub fn detect_color_format(text: &str) -> (f: ColorFormat)
    ensures
        f == format_of(encode_utf8(trimmed(text@))),
{
    let t = trim_text(text);
    let b = t.as_bytes();
    let n = b.len();
    proof {
        if n >= 4 {
            assert(b@.subrange(0, 4) =~= seq![b@[0], b@[1], b@[2], b@[3]]);
        }
        if n >= 3 {
            assert(b@.subrange(0, 3) =~= seq![b@[0], b@[1], b@[2]]);
        }
    }
    if n >= 4 && b[0] == 114 && b[1] == 103 && b[2] == 98 && b[3] == 97 {
        ColorFormat::Rgba
    } else if n >= 3 && b[0] == 114 && b[1] == 103 && b[2] == 98 {
        ColorFormat::Rgb
    } else if n >= 1 && b[0] == 35 {
        if n == 4 {
            ColorFormat::Hex3
        } else if n == 9 {
            ColorFormat::Hex8
        } else {
            ColorFormat::Hex6
        }
    } else {
        ColorFormat::Hex6
    }
}

/// Writes `color` in `format`. `alpha_text` is what `rgba(..)` shows as its
/// fourth part, the alpha channel as a fraction of 255.
pub fn color_to_format(color: Rgba, format: &ColorFormat, alpha_text: &str) -> (s: String)
    ensures
        s@ == format_text(color, *format, alpha_text@),
{
    proof {
        reveal_strlit("#");
        reveal_strlit("rgb(");
        reveal_strlit("rgba(");
        reveal_strlit(", ");
        reveal_strlit(")");
    }
    match format {
        ColorFormat::Hex3 => {
            let mut s = String::from_str("#");
            push_decimal(&mut s, (color.r / 17) as usize);
            push_decimal(&mut s, (color.g / 17) as usize);
            push_decimal(&mut s, (color.b / 17) as usize);
            assert(s@ =~= format_text(color, *format, alpha_text@));
            s
        },
        ColorFormat::Hex6 | ColorFormat::Hex8 => {
            let mut s = String::from_str("#");
            push_byte_hex(&mut s, color.r);
            push_byte_hex(&mut s, color.g);
            push_byte_hex(&mut s, color.b);
            if let ColorFormat::Hex8 = format {
                push_byte_hex(&mut s, color.a);
            }
            assert(s@ =~= format_text(color, *format, alpha_text@));
            s
        },
        ColorFormat::Rgb | ColorFormat::Rgba => {
            let mut s = if let ColorFormat::Rgb = format {
                String::from_str("rgb(")
            } else {
                String::from_str("rgba(")
            };
            push_decimal(&mut s, color.r as usize);
            s.append(", ");
            push_decimal(&mut s, color.g as usize);
            s.append(", ");
            push_decimal(&mut s, color.b as usize);
            if let ColorFormat::Rgba = format {
                s.append(", ");
                s.append(alpha_text);
            }
            s.append(")");
            assert(s@ =~= format_text(color, *format, alpha_text@));
            s
        },
    }
}

} // verus!
