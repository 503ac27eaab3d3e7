//! File extensions and the accent colors shown for them.
use vstd::prelude::*;
use vstd::string::*;
use vstd::utf8::*;

use crate::color::Rgba;

verus! {

broadcast use group_utf8_lib;

/// What `str::to_lowercase` gives for `s`.
pub uninterp spec fn lower_of(s: Seq<char>) -> Seq<char>;

/// Relies on `str::to_lowercase`: a lowercase copy, which depends on the
/// characters alone.
#[verifier::external_body]
fn lowercase(s: &str) -> (r: String)
    ensures
        r@ == lower_of(s@),
{
    s.to_lowercase()
}

/// Index just after the last `.` of `s`, or 0 where it has none.
pub open spec fn last_dot_end(s: Seq<char>) -> int
    decreases s.len(),
{
    if s.len() == 0 {
        0
    } else if s.last() == '.' {
        s.len() as int
    } else {
        last_dot_end(s.drop_last())
    }
}

/// The part of a file name after its last `.`; the whole name where it has none.
pub open spec fn after_last_dot(s: Seq<char>) -> Seq<char> {
    s.subrange(last_dot_end(s), s.len() as int)
}

pub open spec fn byte_sum(b: Seq<u8>) -> nat
    decreases b.len(),
{
    if b.len() == 0 {
        0
    } else {
        byte_sum(b.drop_last()) + b.last() as nat
    }
}

/// The sixteen accent colors handed out to extensions that have none configured.
pub open spec fn palette() -> Seq<Rgba> {
    seq![
        Rgba { r: 255, g: 107, b: 107, a: 255 },
        Rgba { r: 78, g: 205, b: 196, a: 255 },
        Rgba { r: 255, g: 230, b: 109, a: 255 },
        Rgba { r: 26, g: 83, b: 92, a: 255 },
        Rgba { r: 255, g: 159, b: 67, a: 255 },
        Rgba { r: 84, g: 160, b: 255, a: 255 },
        Rgba { r: 95, g: 39, b: 205, a: 255 },
        Rgba { r: 29, g: 209, b: 161, a: 255 },
        Rgba { r: 255, g: 159, b: 243, a: 255 },
        Rgba { r: 34, g: 166, b: 179, a: 255 },
        Rgba { r: 244, g: 180, b: 26, a: 255 },
        Rgba { r: 163, g: 152, b: 173, a: 255 },
        Rgba { r: 206, g: 147, b: 216, a: 255 },
        Rgba { r: 129, g: 236, b: 182, a: 255 },
        Rgba { r: 250, g: 177, b: 133, a: 255 },
        Rgba { r: 127, g: 143, b: 166, a: 255 },
    ]
}

fn palette_color(i: usize) -> (c: Rgba)
    requires
        i < 16,
    ensures
        c == palette()[i as int],
{
    let (r, g, b) = match i {
        0 => (255, 107, 107),
        1 => (78, 205, 196),
        2 => (255, 230, 109),
        3 => (26, 83, 92),
        4 => (255, 159, 67),
        5 => (84, 160, 255),
        6 => (95, 39, 205),
        7 => (29, 209, 161),
        8 => (255, 159, 243),
        9 => (34, 166, 179),
        10 => (244, 180, 26),
        11 => (163, 152, 173),
        12 => (206, 147, 216),
        13 => (129, 236, 182),
        14 => (250, 177, 133),
        _ => (127, 143, 166),
    };
    Rgba::from_rgb(r, g, b)
}

/// The extension of a file name, lowercased: what follows its last `.`,
/// or the whole name where it has none.
pub fn get_extension(name: &str) -> (r: String)
    ensures
        r@ == lower_of(after_last_dot(name@)),
{
    let n = name.unicode_len();
    let mut i = n;
    assert(name@.subrange(0, n as int) =~= name@);
    while i > 0 && name.get_char(i - 1) != '.'
        invariant
            i <= n,
            n == name@.len(),
            last_dot_end(name@) == last_dot_end(name@.subrange(0, i as int)),
        decreases i,
    {
        assert(name@.subrange(0, i as int).drop_last() =~= name@.subrange(0, i - 1));
        i = i - 1;
    }
    proof {
        if i > 0 {
            assert(name@.subrange(0, i as int).last() == '.');
        }
    }
    let ext = name.substring_char(i, n);
    lowercase(ext)
}

/// The accent color of a file name's extension where none is configured:
/// one of the palette, picked by the sum of the bytes of the lowercased
/// extension.
pub fn get_default_ext_color(name: &str) -> (c: Rgba)
    ensures
        c == palette()[(byte_sum(encode_utf8(lower_of(after_last_dot(name@)))) % 16) as int],
{
    let ext = get_extension(name);
    let b = ext.as_str().as_bytes();
    let mut hash: u32 = 0;
    let mut j: usize = 0;
    assert(b@.subrange(0, 0).len() == 0);
    while j < b.len()
        invariant
            j <= b@.len(),
            hash < 16,
            hash == byte_sum(b@.subrange(0, j as int)) % 16,
        decreases b@.len() - j,
    {
        assert(b@.subrange(0, j + 1).drop_last() =~= b@.subrange(0, j as int));
        hash = (hash + b[j] as u32) % 16;
        j = j + 1;
    }
    assert(b@.subrange(0, j as int) =~= b@);
    palette_color(hash as usize)
}

/// Whether `b` ends with the bytes `suffix`.
pub open spec fn ends_with_bytes(b: Seq<u8>, suffix: Seq<u8>) -> bool {
    b.len() >= suffix.len() && b.subrange(b.len() - suffix.len(), b.len() as int) == suffix
}

fn has_suffix(b: &[u8], suffix: &[u8]) -> (r: bool)
    ensures
        r == ends_with_bytes(b@, suffix@),
{
    if b.len() < suffix.len() {
        return false;
    }
    let bl = b.len();
    let off = bl - suffix.len();
    let mut j: usize = 0;
    while j < suffix.len()
        invariant
            bl == b@.len(),
            off + suffix@.len() == bl,
            j <= suffix@.len(),
            forall|x: int| 0 <= x < j ==> b@[off + x] == suffix@[x],
        decreases suffix@.len() - j,
    {
        if b[off + j] != suffix[j] {
            assert(b@.subrange(off as int, b@.len() as int)[j as int] != suffix@[j as int]);
            return false;
        }
        j = j + 1;
    }
    assert(b@.subrange(off as int, b@.len() as int) =~= suffix@);
    true
}

/// Whether a directory entry is listed at all: hidden names (leading `.`) are not.
pub fn is_visible_name(name: &str) -> (r: bool)
    ensures
        r == !(name.spec_bytes().len() > 0 && name.spec_bytes()[0] == 46),
{
    let b = name.as_bytes();
    !(b.len() > 0 && b[0] == 46)
}

/// Whether a file of a theme is listed for editing: visible, and no
/// `.png` or `.jpg` image.
pub fn is_theme_config_file(name: &str) -> (r: bool)
    ensures
        r == (!(name.spec_bytes().len() > 0 && name.spec_bytes()[0] == 46) && !ends_with_bytes(
            name.spec_bytes(),
            seq![46u8, 112u8, 110u8, 103u8],
        ) && !ends_with_bytes(name.spec_bytes(), seq![46u8, 106u8, 112u8, 103u8])),
{
    let png: [u8; 4] = [46, 112, 110, 103];
    let jpg: [u8; 4] = [46, 106, 112, 103];
    assert(png@ =~= seq![46u8, 112u8, 110u8, 103u8]);
    assert(jpg@ =~= seq![46u8, 106u8, 112u8, 103u8]);
    let b = name.as_bytes();
    is_visible_name(name) && !has_suffix(b, png.as_slice()) && !has_suffix(b, jpg.as_slice())
}

/// The setting of the first entry of `exts` from `i` on whose extension is `key`.
pub open spec fn first_setting(exts: Seq<(String, bool)>, key: Seq<char>, i: int) -> Option<bool>
    decreases exts.len() - i,
{
    if i < 0 || i >= exts.len() {
        None
    } else if exts[i].0@ == key {
        Some(exts[i].1)
    } else {
        first_setting(exts, key, i + 1)
    }
}

/// Whether literals are scanned in the file `name`: its extension, with a
/// leading `.` and lowercased, is listed in `extensions` and enabled there.
pub fn scan_enabled(name: &str, extensions: &Vec<(String, bool)>) -> (r: bool)
    ensures
        r == (first_setting(extensions@, seq!['.'] + lower_of(after_last_dot(name@)), 0) == Some(
            true,
        )),
{
    proof {
        reveal_strlit(".");
    }
    let mut key = String::from_str(".");
    let ext = get_extension(name);
    key.append(ext.as_str());
    let mut j: usize = 0;
    while j < extensions.len()
        invariant
            j <= extensions@.len(),
            key@ == seq!['.'] + lower_of(after_last_dot(name@)),
            first_setting(extensions@, key@, 0) == first_setting(extensions@, key@, j as int),
        decreases extensions@.len() - j,
    {
        if extensions[j].0 == key {
            return extensions[j].1;
        }
        j = j + 1;
    }
    false
}

} // verus!
