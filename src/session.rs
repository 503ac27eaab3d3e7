//! Editing the literals of one open file: the patch engine and the state of
//! an editing session.
use vstd::prelude::*;
use vstd::string::*;
use vstd::utf8::*;

use crate::color::Rgba;
use crate::format::{ColorFormat, color_to_format, detect_color_format, format_of, format_text, trimmed};
use crate::scanner::{
    DetectedColor, LiteralModel, detect_colors_in_content, lemma_scan_ids_unique, models,
    scan_text,
};
use crate::text::{
    dec_value, has_line, is_dec_digit, lemma_line_start_bounds, lemma_newline_from_bounds, line_bytes, line_end,
    line_start, newline_from, slice_between,
};

verus! {

broadcast use group_utf8_lib;

/// Why an edit could not be applied; the text is then left as it was.
#[derive(Clone, Copy, PartialEq, Eq, Structural, Debug)]
pub enum PatchError {
    /// No literal of the current scan has the given id.
    UnknownId,
    /// The text has no such line.
    LineNotFound,
    /// The column lies at or past the end of the line, or inside a character.
    ColumnOutOfRange,
    /// The replaced span runs past the end of the line, or ends inside a character.
    SpanMismatch,
}

/// `t` with the `n` bytes at `a` replaced by `r`.
pub open spec fn splice(t: Seq<u8>, a: int, n: int, r: Seq<u8>) -> Seq<u8> {
    t.subrange(0, a) + r + t.subrange(a + n, t.len() as int)
}

/// What replacing the `old_len` bytes at column `col` of line `line` of `t`
/// by `new` gives.
pub open spec fn patch_result(t: Seq<u8>, line: nat, col: int, old_len: int, new: Seq<u8>) -> Result<
    Seq<u8>,
    PatchError,
> {
    if !has_line(t, line) {
        Err(PatchError::LineNotFound)
    } else {
        let s = line_start(t, line).unwrap();
        let l = line_bytes(t, line).len();
        if col >= l || !is_char_boundary(t, s + col) {
            Err(PatchError::ColumnOutOfRange)
        } else if col + old_len > l || !is_char_boundary(t, s + col + old_len) {
            Err(PatchError::SpanMismatch)
        } else {
            Ok(splice(t, s + col, old_len, new))
        }
    }
}

pub proof fn lemma_encode_utf8_concat(a: Seq<char>, b: Seq<char>)
    ensures
        encode_utf8(a + b) == encode_utf8(a) + encode_utf8(b),
    decreases a.len(),
{
    if a.len() == 0 {
        assert(a + b =~= b);
        assert(encode_utf8(a) + encode_utf8(b) =~= encode_utf8(b));
    } else {
        assert((a + b).drop_first() =~= a.drop_first() + b);
        lemma_encode_utf8_concat(a.drop_first(), b);
        assert(encode_utf8(a + b) =~= encode_utf8(a) + encode_utf8(b));
    }
}

/// `content` with the `n` bytes at `a` replaced by `new_text`.
fn splice_text(content: &str, a: usize, n: usize, new_text: &str) -> (s: String)
    requires
        a + n <= content.spec_bytes().len(),
        is_char_boundary(content.spec_bytes(), a as int),
        is_char_boundary(content.spec_bytes(), (a + n) as int),
    ensures
        encode_utf8(s@) == splice(content.spec_bytes(), a as int, n as int, new_text.spec_bytes()),
{
    let ghost t = content.spec_bytes();
    proof {
        is_char_boundary_start_end_of_seq(t);
    }
    let pre = slice_between(content, 0, a);
    let len = content.as_bytes().len();
    let post = slice_between(content, a + n, len);
    let mut s = String::from_str(pre);
    s.append(new_text);
    s.append(post);
    proof {
        lemma_encode_utf8_concat(pre@, new_text@);
        lemma_encode_utf8_concat(pre@ + new_text@, post@);
    }
    s
}

proof fn lemma_line_start_none_after(t: Seq<u8>, j: nat, m: nat)
    requires
        j <= m,
        line_start(t, j) is None,
    ensures
        line_start(t, m) is None,
    decreases m - j,
{
    if j < m {
        lemma_line_start_none_after(t, j, (m - 1) as nat);
    }
}

/// Offset of line `k` of `t`, as `line_start` gives it.
fn find_line_start(t: &[u8], k: usize) -> (r: Option<usize>)
    ensures
        r matches Some(s) ==> line_start(t@, k as nat) == Some(s as int),
        r is None ==> line_start(t@, k as nat) is None,
{
    let mut s: usize = 0;
    let mut j: usize = 0;
    while j < k
        invariant
            j <= k,
            s <= t@.len(),
            line_start(t@, j as nat) == Some(s as int),
        decreases k - j,
    {
        proof {
            lemma_newline_from_bounds(t@, s as int);
        }
        if s >= t.len() {
            proof {
                lemma_line_start_none_after(t@, (j + 1) as nat, k as nat);
            }
            return None;
        }
        let mut e = s;
        while e < t.len() && t[e] != 10
            invariant
                s <= e <= t@.len(),
                newline_from(t@, s as int) == newline_from(t@, e as int),
            decreases t@.len() - e,
        {
            proof {
                lemma_newline_from_bounds(t@, e as int);
            }
            e = e + 1;
        }
        if e >= t.len() {
            proof {
                lemma_line_start_none_after(t@, (j + 1) as nat, k as nat);
            }
            return None;
        }
        s = e + 1;
        j = j + 1;
    }
    Some(s)
}

/// Replaces the `old_len` bytes at column `col` of line `line` of `content`
/// by `new_text`; every other byte, line endings included, stays as it was.
pub fn replace_in_line(content: &str, line: usize, col: usize, old_len: usize, new_text: &str) -> (r:
    Result<String, PatchError>)
    ensures
        r matches Ok(s) ==> patch_result(
            content.spec_bytes(),
            line as nat,
            col as int,
            old_len as int,
            new_text.spec_bytes(),
        ) == Ok::<Seq<u8>, PatchError>(encode_utf8(s@)),
        r matches Err(e) ==> patch_result(
            content.spec_bytes(),
            line as nat,
            col as int,
            old_len as int,
            new_text.spec_bytes(),
        ) == Err::<Seq<u8>, PatchError>(e),
{
    let t = content.as_bytes();
    let s = match find_line_start(t, line) {
        Some(s) => s,
        None => {
            return Err(PatchError::LineNotFound);
        },
    };
    proof {
        lemma_line_start_bounds(t@, line as nat);
    }
    if s >= t.len() {
        return Err(PatchError::LineNotFound);
    }
    let mut e = s;
    while e < t.len() && t[e] != 10
        invariant
            s <= e <= t@.len(),
            newline_from(t@, s as int) == newline_from(t@, e as int),
        decreases t@.len() - e,
    {
        proof {
            lemma_newline_from_bounds(t@, e as int);
        }
        e = e + 1;
    }
    let hi = if e < t.len() && e > s && t[e - 1] == 13 {
        e - 1
    } else {
        e
    };
    assert(hi == line_end(t@, s as int));
    let l = hi - s;
    if col >= l || !content.is_char_boundary(s + col) {
        return Err(PatchError::ColumnOutOfRange);
    }
    if old_len > l - col || !content.is_char_boundary(s + col + old_len) {
        return Err(PatchError::SpanMismatch);
    }
    Ok(splice_text(content, s + col, old_len, new_text))
}

/// A text together with the literals found in it; the two always agree.
pub struct ScannedText {
    content: String,
    detected: Vec<DetectedColor>,
}

impl ScannedText {
    #[verifier::type_invariant]
    spec fn fresh(&self) -> bool {
        &&& models(self.detected@) == scan_text(encode_utf8(self.content@))
        &&& forall|j: int|
            0 <= j < self.detected@.len() ==> (#[trigger] self.detected@[j]).agrees_with(
                encode_utf8(self.content@),
            )
    }

    pub closed spec fn text(&self) -> Seq<char> {
        self.content@
    }

    pub closed spec fn colors(&self) -> Seq<DetectedColor> {
        self.detected@
    }

    pub open spec fn bytes(&self) -> Seq<u8> {
        encode_utf8(self.text())
    }

    /// Scans `content`.
    pub fn new(content: String) -> (r: ScannedText)
        ensures
            r.text() == content@,
    {
        let detected = detect_colors_in_content(content.as_str());
        ScannedText { content, detected }
    }

    pub fn content(&self) -> (r: &String)
        ensures
            r@ == self.text(),
    {
        &self.content
    }

    /// The literals held are exactly those of the text: nothing of an
    /// earlier text remains.
    pub fn detected_colors(&self) -> (r: &Vec<DetectedColor>)
        ensures
            r@ == self.colors(),
            models(r@) == scan_text(self.bytes()),
            forall|j: int| 0 <= j < r@.len() ==> (#[trigger] r@[j]).agrees_with(self.bytes()),
    {
        proof {
            use_type_invariant(self);
        }
        &self.detected
    }
}

/// Index of the first literal of `det` whose id is `id`.
pub open spec fn find_from(det: Seq<DetectedColor>, id: Seq<char>, i: int) -> Option<int>
    decreases det.len() - i,
{
    if i < 0 || i >= det.len() {
        None
    } else if det[i].id@ == id {
        Some(i)
    } else {
        find_from(det, id, i + 1)
    }
}

pub open spec fn find_by_id(det: Seq<DetectedColor>, id: Seq<char>) -> Option<int> {
    find_from(det, id, 0)
}

fn find_detected(det: &Vec<DetectedColor>, id: &String) -> (r: Option<usize>)
    ensures
        r matches Some(j) ==> find_by_id(det@, id@) == Some(j as int) && j < det@.len(),
        r is None ==> find_by_id(det@, id@) is None,
{
    let mut j: usize = 0;
    while j < det.len()
        invariant
            j <= det@.len(),
            find_by_id(det@, id@) == find_from(det@, id@, j as int),
        decreases det@.len() - j,
    {
        if det[j].id == *id {
            return Some(j);
        }
        j = j + 1;
    }
    None
}

/// Where the literal with id `id` of the scan `det` lies in `t`, and the text
/// that replacing it with `new` gives.
pub open spec fn apply_result(t: Seq<u8>, det: Seq<DetectedColor>, id: Seq<char>, old_len: int, new: Seq<u8>) -> Result<Seq<u8>, PatchError> {
    match find_by_id(det, id) {
        None => Err(PatchError::UnknownId),
        Some(j) => patch_result(t, det[j].line as nat, det[j].start_col as int, old_len, new),
    }
}

pub open spec fn all_digits(d: Seq<u8>) -> bool {
    forall|i: int| 0 <= i < d.len() ==> is_dec_digit(#[trigger] d[i])
}

/// The number that `b` writes as a `usize`: an optional `+`, then decimal
/// digits, the value fitting in a `usize`.
pub open spec fn usize_value(b: Seq<u8>) -> Option<nat> {
    let d = if b.len() > 0 && b[0] == 43 {
        b.drop_first()
    } else {
        b
    };
    if d.len() > 0 && all_digits(d) && dec_value(d) <= usize::MAX {
        Some(dec_value(d))
    } else {
        None
    }
}

/// Index of the first `_` of `b` at or after `i`, or the length of `b`.
pub open spec fn underscore_from(b: Seq<u8>, i: int) -> int
    decreases b.len() - i,
{
    if i < 0 || i >= b.len() {
        b.len() as int
    } else if b[i] == 95 {
        i
    } else {
        underscore_from(b, i + 1)
    }
}

/// The line and column that an id `"{line}_{column}"` names: the parts
/// before the first `_` and between it and the next `_` (or the end).
pub open spec fn id_position(b: Seq<u8>) -> Option<(nat, nat)> {
    let p = underscore_from(b, 0);
    let q = underscore_from(b, p + 1);
    if p >= b.len() {
        None
    } else {
        match (usize_value(b.subrange(0, p)), usize_value(b.subrange(p + 1, q))) {
            (Some(l), Some(c)) => Some((l, c)),
            _ => None,
        }
    }
}

/// Index of the first literal of `m` from `i` on that starts at column `c`
/// of line `k`.
pub open spec fn literal_at(m: Seq<LiteralModel>, k: nat, c: nat, i: int) -> Option<int>
    decreases m.len() - i,
{
    if i < 0 || i >= m.len() {
        None
    } else if m[i].line == k && m[i].start == c {
        Some(i)
    } else {
        literal_at(m, k, c, i + 1)
    }
}

/// One recorded replacement applied to `t`: the id gives line and column,
/// counted afresh in `t`; `orig`, the scan of the text as it was read, gives
/// the length of the literal that stood there. The same bounds hold as for a
/// single edit: where the id does not parse, no literal of `orig` starts at
/// its position, or the span does not fit in its line of `t`, `t` stays.
pub open spec fn rebuild_entry(t: Seq<u8>, e: (Seq<char>, Seq<char>), orig: Seq<LiteralModel>) -> Seq<u8> {
    match id_position(encode_utf8(e.0)) {
        None => t,
        Some((k, c)) => match literal_at(orig, k, c, 0) {
            None => t,
            Some(j) => match patch_result(
                t,
                k,
                c as int,
                orig[j].end - orig[j].start,
                encode_utf8(e.1),
            ) {
                Ok(u) => u,
                Err(_) => t,
            },
        },
    }
}

/// The recorded replacements applied to `t` one after another, in order.
pub open spec fn rebuild_text(
    t: Seq<u8>,
    mods: Seq<(Seq<char>, Seq<char>)>,
    orig: Seq<LiteralModel>,
) -> Seq<u8>
    decreases mods.len(),
{
    if mods.len() == 0 {
        t
    } else {
        rebuild_entry(rebuild_text(t, mods.drop_last(), orig), mods.last(), orig)
    }
}

fn underscore_index(b: &[u8], i: usize) -> (r: usize)
    requires
        i <= b@.len(),
    ensures
        r == underscore_from(b@, i as int),
        i <= r <= b@.len(),
{
    let mut j = i;
    while j < b.len() && b[j] != 95
        invariant
            i <= j <= b@.len(),
            underscore_from(b@, i as int) == underscore_from(b@, j as int),
        decreases b@.len() - j,
    {
        j = j + 1;
    }
    j
}

fn parse_usize(b: &[u8], lo: usize, hi: usize) -> (r: Option<usize>)
    requires
        lo <= hi <= b@.len(),
    ensures
        r matches Some(v) ==> usize_value(b@.subrange(lo as int, hi as int)) == Some(v as nat),
        r is None ==> usize_value(b@.subrange(lo as int, hi as int)) is None,
{
    let ghost w = b@.subrange(lo as int, hi as int);
    let mut i = lo;
    if i < hi && b[i] == 43 {
        i = i + 1;
    }
    let ghost d = b@.subrange(i as int, hi as int);
    assert(d =~= (if w.len() > 0 && w[0] == 43 {
        w.drop_first()
    } else {
        w
    }));
    if i >= hi {
        return None;
    }
    let mut v: u128 = 0;
    let mut big = false;
    let mut j = i;
    assert(b@.subrange(i as int, i as int).len() == 0);
    while j < hi
        invariant
            lo <= i <= j <= hi <= b@.len(),
            d == b@.subrange(i as int, hi as int),
            w == b@.subrange(lo as int, hi as int),
            d == (if w.len() > 0 && w[0] == 43 {
                w.drop_first()
            } else {
                w
            }),
            forall|x: int| i <= x < j ==> is_dec_digit(#[trigger] b@[x]),
            !big ==> v == dec_value(b@.subrange(i as int, j as int)) && v <= usize::MAX,
            big ==> dec_value(b@.subrange(i as int, j as int)) > usize::MAX,
        decreases hi - j,
    {
        if !(48 <= b[j] && b[j] <= 57) {
            assert(!is_dec_digit(d[j - i]));
            assert(!all_digits(d));
            return None;
        }
        let ghost prev = b@.subrange(i as int, j as int);
        assert(b@.subrange(i as int, j + 1).drop_last() =~= prev);
        if !big {
            let x = v * 10 + (b[j] - 48) as u128;
            if x > usize::MAX as u128 {
                big = true;
            } else {
                v = x;
            }
        }
        j = j + 1;
    }
    assert(b@.subrange(i as int, j as int) =~= d);
    assert forall|x: int| 0 <= x < d.len() implies is_dec_digit(#[trigger] d[x]) by {
        assert(d[x] == b@[i + x]);
    }
    if big {
        None
    } else {
        Some(v as usize)
    }
}

fn parse_id(id: &str) -> (r: Option<(usize, usize)>)
    ensures
        r matches Some((l, c)) ==> id_position(id.spec_bytes()) == Some((l as nat, c as nat)),
        r is None ==> id_position(id.spec_bytes()) is None,
{
    let b = id.as_bytes();
    let p = underscore_index(b, 0);
    if p >= b.len() {
        return None;
    }
    let q = underscore_index(b, p + 1);
    match (parse_usize(b, 0, p), parse_usize(b, p + 1, q)) {
        (Some(l), Some(c)) => Some((l, c)),
        _ => None,
    }
}

fn find_literal_at(det: &Vec<DetectedColor>, k: usize, c: usize) -> (r: Option<usize>)
    ensures
        r matches Some(j) ==> literal_at(models(det@), k as nat, c as nat, 0) == Some(j as int)
            && j < det@.len(),
        r is None ==> literal_at(models(det@), k as nat, c as nat, 0) is None,
{
    let ghost m = models(det@);
    let mut j: usize = 0;
    while j < det.len()
        invariant
            j <= det@.len(),
            m == models(det@),
            literal_at(m, k as nat, c as nat, 0) == literal_at(m, k as nat, c as nat, j as int),
        decreases det@.len() - j,
    {
        assert(m[j as int] == det@[j as int].model());
        if det[j].line == k && det[j].start_col == c {
            return Some(j);
        }
        j = j + 1;
    }
    None
}

/// `content` with the replacement `new_text` for the literal with id `id`
/// put in; `orig` is the scan of the text as it was read.
fn rebuild_one(content: String, id: &String, new_text: &String, orig: &Vec<DetectedColor>) -> (r:
    String)
    requires
        forall|j: int| 0 <= j < orig@.len() ==> (#[trigger] orig@[j]).start_col < orig@[j].end_col,
    ensures
        encode_utf8(r@) == rebuild_entry(encode_utf8(content@), (id@, new_text@), models(orig@)),
{
    let pos = parse_id(id.as_str());
    let (k, c) = match pos {
        None => {
            return content;
        },
        Some(p) => p,
    };
    let j = match find_literal_at(orig, k, c) {
        None => {
            return content;
        },
        Some(j) => j,
    };
    assert(models(orig@)[j as int] == orig@[j as int].model());
    let n = orig[j].end_col - orig[j].start_col;
    let spliced = match replace_in_line(content.as_str(), k, c, n, new_text.as_str()) {
        Ok(u) => Some(u),
        Err(_) => None,
    };
    match spliced {
        Some(r) => r,
        None => content,
    }
}

/// An edit in progress: the literal picked, where it is, and how it is written.
#[derive(Clone, Debug)]
pub struct ColorEditTarget {
    pub color_id: String,
    pub file_name: String,
    pub original_value: Rgba,
    pub hex_text: String,
    pub original_format: ColorFormat,
}

/// The state of one open file: its text and literals, the edit in
/// progress, and the replacements made so far (by id, in the order first made).
pub struct EditSession {
    pub buffer: ScannedText,
    pub color_edit_target: Option<ColorEditTarget>,
    pub modified_colors: Vec<(String, String)>,
    pub has_unsaved_changes: bool,
}

pub open spec fn pair_view(p: (String, String)) -> (Seq<char>, Seq<char>) {
    (p.0@, p.1@)
}

pub open spec fn mods_view(m: Seq<(String, String)>) -> Seq<(Seq<char>, Seq<char>)> {
    m.map_values(|p: (String, String)| pair_view(p))
}

pub open spec fn key_from(m: Seq<(Seq<char>, Seq<char>)>, k: Seq<char>, i: int) -> Option<int>
    decreases m.len() - i,
{
    if i < 0 || i >= m.len() {
        None
    } else if m[i].0 == k {
        Some(i)
    } else {
        key_from(m, k, i + 1)
    }
}

/// `m` with the replacement for `k` set to `v`: in place where `k` has one,
/// else appended.
pub open spec fn mods_insert(m: Seq<(Seq<char>, Seq<char>)>, k: Seq<char>, v: Seq<char>) -> Seq<(Seq<char>, Seq<char>)> {
    match key_from(m, k, 0) {
        Some(i) => m.update(i, (k, v)),
        None => m.push((k, v)),
    }
}

/// Each id has at most one recorded replacement.
pub open spec fn keys_unique(m: Seq<(Seq<char>, Seq<char>)>) -> bool {
    forall|a: int, b: int| 0 <= a < b < m.len() ==> (#[trigger] m[a]).0 != (#[trigger] m[b]).0
}

proof fn lemma_key_from(m: Seq<(Seq<char>, Seq<char>)>, k: Seq<char>, i: int)
    requires
        0 <= i,
    ensures
        key_from(m, k, i) matches Some(j) ==> i <= j < m.len() && m[j].0 == k,
        key_from(m, k, i) is None ==> forall|x: int| i <= x < m.len() ==> (#[trigger] m[x]).0 != k,
    decreases m.len() - i,
{
    if i < m.len() && m[i].0 != k {
        lemma_key_from(m, k, i + 1);
    }
}

/// Recording a replacement keeps one record per id.
pub proof fn lemma_mods_insert_unique(m: Seq<(Seq<char>, Seq<char>)>, k: Seq<char>, v: Seq<char>)
    requires
        keys_unique(m),
    ensures
        keys_unique(mods_insert(m, k, v)),
{
    lemma_key_from(m, k, 0);
    let r = mods_insert(m, k, v);
    assert forall|a: int, b: int| 0 <= a < b < r.len() implies (#[trigger] r[a]).0 != (
    #[trigger] r[b]).0 by {
        match key_from(m, k, 0) {
            Some(j) => {
                assert(m[j].0 == k);
                if a != j && b != j {
                    assert(r[a] == m[a] && r[b] == m[b]);
                } else if a == j {
                    assert(r[b] == m[b]);
                    assert(m[a].0 != m[b].0);
                } else {
                    assert(r[a] == m[a]);
                    assert(m[a].0 != m[b].0);
                }
            },
            None => {
                if b < m.len() {
                    assert(r[a] == m[a] && r[b] == m[b]);
                } else {
                    assert(r[a] == m[a]);
                }
            },
        }
    }
}

impl EditSession {
    /// Each id has at most one recorded replacement. Every method keeps this;
    /// `new` and `mark_saved` establish it.
    pub open spec fn wf(&self) -> bool {
        keys_unique(mods_view(self.modified_colors@))
    }

    /// A session on `content`, with nothing edited.
    pub fn new(content: String) -> (s: EditSession)
        ensures
            s.buffer.text() == content@,
            s.color_edit_target is None,
            s.modified_colors@.len() == 0,
            !s.has_unsaved_changes,
            s.wf(),
    {
        EditSession {
            buffer: ScannedText::new(content),
            color_edit_target: None,
            modified_colors: Vec::new(),
            has_unsaved_changes: false,
        }
    }

    /// Picks a literal for editing; its format is taken from its text.
    pub fn start_color_edit(
        &mut self,
        color_id: String,
        file_name: String,
        original_value: Rgba,
        hex_text: String,
    )
        ensures
            final(self).color_edit_target matches Some(e) && e.color_id == color_id && e.file_name
                == file_name && e.original_value == original_value && e.hex_text == hex_text
                && e.original_format == format_of(encode_utf8(trimmed(hex_text@))),
            final(self).buffer == old(self).buffer,
            final(self).modified_colors == old(self).modified_colors,
            final(self).has_unsaved_changes == old(self).has_unsaved_changes,
    {
        let original_format = detect_color_format(hex_text.as_str());
        self.color_edit_target = Some(
            ColorEditTarget { color_id, file_name, original_value, hex_text, original_format },
        );
    }

    /// Drops the edit in progress.
    pub fn close_color_edit(&mut self)
        ensures
            final(self).color_edit_target is None,
            final(self).buffer == old(self).buffer,
            final(self).modified_colors == old(self).modified_colors,
            final(self).has_unsaved_changes == old(self).has_unsaved_changes,
    {
        self.color_edit_target = None;
    }

    fn record_modified(&mut self, id: String, new_text: String)
        ensures
            mods_view(final(self).modified_colors@) == mods_insert(
                mods_view(old(self).modified_colors@),
                id@,
                new_text@,
            ),
            final(self).buffer == old(self).buffer,
            final(self).color_edit_target == old(self).color_edit_target,
            final(self).has_unsaved_changes == old(self).has_unsaved_changes,
    {
        let ghost m = mods_view(self.modified_colors@);
        let mut j: usize = 0;
        while j < self.modified_colors.len()
            invariant
                j <= self.modified_colors@.len(),
                m == mods_view(self.modified_colors@),
                m == mods_view(old(self).modified_colors@),
                key_from(m, id@, 0) == key_from(m, id@, j as int),
                self.buffer == old(self).buffer,
                self.color_edit_target == old(self).color_edit_target,
                self.has_unsaved_changes == old(self).has_unsaved_changes,
            decreases self.modified_colors@.len() - j,
        {
            if self.modified_colors[j].0 == id {
                let ghost idv = id@;
                let ghost nv = new_text@;
                self.modified_colors.set(j, (id, new_text));
                assert(mods_view(self.modified_colors@) =~= m.update(j as int, (idv, nv)));
                return;
            }
            j = j + 1;
        }
        let ghost idv = id@;
        let ghost nv = new_text@;
        self.modified_colors.push((id, new_text));
        assert(mods_view(self.modified_colors@) =~= m.push((idv, nv)));
    }

    /// Replaces the literal with id `color_id` of the current scan, which is
    /// `old_hex.len()` bytes long, by `new_hex`, and scans the new text.
    pub fn apply_color_change(&mut self, color_id: &String, old_hex: &str, new_hex: &str) -> (r:
        Result<(), PatchError>)
        ensures
            r matches Ok(_) ==> apply_result(
                old(self).buffer.bytes(),
                old(self).buffer.colors(),
                color_id@,
                old_hex.spec_bytes().len() as int,
                new_hex.spec_bytes(),
            ) == Ok::<Seq<u8>, PatchError>(final(self).buffer.bytes()),
            r matches Err(e) ==> apply_result(
                old(self).buffer.bytes(),
                old(self).buffer.colors(),
                color_id@,
                old_hex.spec_bytes().len() as int,
                new_hex.spec_bytes(),
            ) == Err::<Seq<u8>, PatchError>(e) && final(self).buffer == old(self).buffer,
            final(self).color_edit_target == old(self).color_edit_target,
            final(self).modified_colors == old(self).modified_colors,
            final(self).has_unsaved_changes == old(self).has_unsaved_changes,
            models(final(self).buffer.colors()) == scan_text(final(self).buffer.bytes()),
    {
        let det = self.buffer.detected_colors();
        let r = match find_detected(det, color_id) {
            None => Err(PatchError::UnknownId),
            Some(j) => {
                let line = det[j].line;
                let col = det[j].start_col;
                match replace_in_line(
                    self.buffer.content().as_str(),
                    line,
                    col,
                    old_hex.as_bytes().len(),
                    new_hex,
                ) {
                    Ok(s) => {
                        self.buffer = ScannedText::new(s);
                        Ok(())
                    },
                    Err(e) => Err(e),
                }
            },
        };
        proof {
            use_type_invariant(&self.buffer);
        }
        r
    }

    /// Writes `new_color` in the format of the literal being edited, records
    /// it, puts it in place of that literal, and ends the edit. `alpha_text`
    /// is the alpha fraction as `rgba(..)` shows it. Without an edit in
    /// progress nothing changes.
    pub fn update_color(&mut self, new_color: Rgba, alpha_text: &str) -> (r: Result<(), PatchError>)
        ensures
            old(self).color_edit_target is None ==> r is Ok && final(self).buffer == old(self).buffer
                && final(self).modified_colors == old(self).modified_colors
                && final(self).has_unsaved_changes == old(self).has_unsaved_changes
                && final(self).color_edit_target is None,
            old(self).color_edit_target matches Some(e) ==> {
                let new_text = format_text(new_color, e.original_format, alpha_text@);
                let res = apply_result(
                    old(self).buffer.bytes(),
                    old(self).buffer.colors(),
                    e.color_id@,
                    encode_utf8(e.hex_text@).len() as int,
                    encode_utf8(new_text),
                );
                &&& mods_view(final(self).modified_colors@) == mods_insert(
                    mods_view(old(self).modified_colors@),
                    e.color_id@,
                    new_text,
                )
                &&& final(self).has_unsaved_changes
                &&& final(self).color_edit_target is None
                &&& (r matches Ok(_) ==> res == Ok::<Seq<u8>, PatchError>(final(self).buffer.bytes()))
                &&& (r matches Err(x) ==> res == Err::<Seq<u8>, PatchError>(x) && final(self).buffer
                    == old(self).buffer)
            },
            models(final(self).buffer.colors()) == scan_text(final(self).buffer.bytes()),
            old(self).wf() ==> final(self).wf(),
    {
        proof {
            use_type_invariant(&self.buffer);
            if old(self).wf() {
                if let Some(e) = old(self).color_edit_target {
                    lemma_mods_insert_unique(
                        mods_view(old(self).modified_colors@),
                        e.color_id@,
                        format_text(new_color, e.original_format, alpha_text@),
                    );
                }
            }
        }
        match self.color_edit_target.take() {
            None => Ok(()),
            Some(target) => {
                let new_formatted = color_to_format(
                    new_color,
                    &target.original_format,
                    alpha_text,
                );
                self.record_modified(target.color_id.clone(), new_formatted.clone());
                self.has_unsaved_changes = true;
                self.apply_color_change(
                    &target.color_id,
                    target.hex_text.as_str(),
                    new_formatted.as_str(),
                )
            },
        }
    }
    /// Marks the text as written to disk: the record of replacements is
    /// cleared and nothing is unsaved.
    pub fn mark_saved(&mut self)
        ensures
            final(self).modified_colors@.len() == 0,
            !final(self).has_unsaved_changes,
            final(self).wf(),
            final(self).buffer == old(self).buffer,
            final(self).color_edit_target == old(self).color_edit_target,
    {
        self.modified_colors = Vec::new();
        self.has_unsaved_changes = false;
    }

    /// Rebuilds the text from `original`, the text as it was read, by applying
    /// the recorded replacements in order: each at the line and column its id
    /// names, over the length of the literal that `original` holds there.
    /// Then scans the result.
    pub fn rebuild_file_content(&mut self, original: &str)
        ensures
            final(self).buffer.bytes() == rebuild_text(
                original.spec_bytes(),
                mods_view(old(self).modified_colors@),
                scan_text(original.spec_bytes()),
            ),
            final(self).color_edit_target == old(self).color_edit_target,
            final(self).modified_colors == old(self).modified_colors,
            final(self).has_unsaved_changes == old(self).has_unsaved_changes,
            models(final(self).buffer.colors()) == scan_text(final(self).buffer.bytes()),
    {
        let ghost m = mods_view(self.modified_colors@);
        let orig = detect_colors_in_content(original);
        let mut content = String::from_str(original);
        let mut i: usize = 0;
        assert(m.take(0).len() == 0);
        while i < self.modified_colors.len()
            invariant
                i <= self.modified_colors@.len(),
                m == mods_view(self.modified_colors@),
                models(orig@) == scan_text(original.spec_bytes()),
                forall|j: int| 0 <= j < orig@.len() ==> (#[trigger] orig@[j]).agrees_with(original.spec_bytes()),
                encode_utf8(content@) == rebuild_text(
                    original.spec_bytes(),
                    m.take(i as int),
                    scan_text(original.spec_bytes()),
                ),
            decreases self.modified_colors@.len() - i,
        {
            let entry = &self.modified_colors[i];
            content = rebuild_one(content, &entry.0, &entry.1, &orig);
            assert(m.take(i + 1).drop_last() =~= m.take(i as int));
            i = i + 1;
        }
        assert(m.take(i as int) =~= m);
        self.buffer = ScannedText::new(content);
        proof {
            use_type_invariant(&self.buffer);
        }
    }
}

proof fn lemma_line_within_text(t: Seq<u8>, line: nat)
    requires
        has_line(t, line),
    ensures
        0 <= line_start(t, line).unwrap() <= line_end(t, line_start(t, line).unwrap()) <= t.len(),
        line_bytes(t, line).len() == line_end(t, line_start(t, line).unwrap()) - line_start(
            t,
            line,
        ).unwrap(),
{
    lemma_line_start_bounds(t, line);
    let s = line_start(t, line).unwrap();
    lemma_newline_from_bounds(t, s);
}

/// Replacing a span keeps every byte outside it: all that comes before it,
/// and all that comes after it, the rest of its line included.
pub proof fn lemma_patch_keeps_rest(t: Seq<u8>, line: nat, col: int, old_len: int, new: Seq<u8>)
    requires
        0 <= col,
        0 <= old_len,
        patch_result(t, line, col, old_len, new) is Ok,
    ensures
        ({
            let u = patch_result(t, line, col, old_len, new).unwrap();
            let a = line_start(t, line).unwrap() + col;
            &&& u.len() == t.len() - old_len + new.len()
            &&& u.subrange(0, a) == t.subrange(0, a)
            &&& u.subrange(a, a + new.len()) == new
            &&& u.subrange(a + new.len(), u.len() as int) == t.subrange(a + old_len, t.len() as int)
        }),
{
    lemma_line_within_text(t, line);
    let u = patch_result(t, line, col, old_len, new).unwrap();
    let a = line_start(t, line).unwrap() + col;
    assert(u.subrange(0, a) =~= t.subrange(0, a));
    assert(u.subrange(a, a + new.len()) =~= new);
    assert(u.subrange(a + new.len(), u.len() as int) =~= t.subrange(a + old_len, t.len() as int));
}

/// A literal that the scan reported can be replaced by any text, even an
/// empty one.
pub proof fn lemma_detected_literal_patches(t: Seq<u8>, d: DetectedColor, new: Seq<u8>)
    requires
        d.agrees_with(t),
    ensures
        encode_utf8(d.hex_text@).len() == d.end_col - d.start_col,
        patch_result(t, d.line as nat, d.start_col as int, d.end_col - d.start_col, new) is Ok,
{
    lemma_line_within_text(t, d.line as nat);
}

/// Writing a reported literal back in its own format, whatever the color
/// text comes out as, leaves every other byte of the text as it was.
pub proof fn lemma_rewrite_in_own_format(t: Seq<u8>, d: DetectedColor, alpha: Seq<char>)
    requires
        d.agrees_with(t),
    ensures
        ({
            let new = encode_utf8(
                format_text(d.value, format_of(encode_utf8(trimmed(d.hex_text@))), alpha),
            );
            let old_len = encode_utf8(d.hex_text@).len() as int;
            let r = patch_result(t, d.line as nat, d.start_col as int, old_len, new);
            let a = line_start(t, d.line as nat).unwrap() + d.start_col;
            &&& r is Ok
            &&& r.unwrap().subrange(0, a) == t.subrange(0, a)
            &&& r.unwrap().subrange(a + new.len(), r.unwrap().len() as int) == t.subrange(
                a + old_len,
                t.len() as int,
            )
        }),
{
    let new = encode_utf8(
        format_text(d.value, format_of(encode_utf8(trimmed(d.hex_text@))), alpha),
    );
    lemma_detected_literal_patches(t, d, new);
    lemma_patch_keeps_rest(
        t,
        d.line as nat,
        d.start_col as int,
        d.end_col - d.start_col,
        new,
    );
}

/// Replacing a literal that ends its line puts nothing after the new text
/// but the line's own ending and the lines that follow; an empty new text
/// just removes the literal.
pub proof fn lemma_patch_at_line_end(t: Seq<u8>, d: DetectedColor, new: Seq<u8>)
    requires
        d.agrees_with(t),
        d.end_col == line_bytes(t, d.line as nat).len(),
    ensures
        ({
            let s = line_start(t, d.line as nat).unwrap();
            let r = patch_result(t, d.line as nat, d.start_col as int, d.end_col - d.start_col, new);
            &&& r is Ok
            &&& r.unwrap() == t.subrange(0, s + d.start_col) + new + t.subrange(
                line_end(t, s),
                t.len() as int,
            )
        }),
{
    lemma_line_within_text(t, d.line as nat);
}

proof fn lemma_find_from_in_range(det: Seq<DetectedColor>, id: Seq<char>, i: int)
    ensures
        find_from(det, id, i) matches Some(j) ==> 0 <= j < det.len() && det[j].id@ == id,
    decreases det.len() - i,
{
    if 0 <= i < det.len() && det[i].id@ != id {
        lemma_find_from_in_range(det, id, i + 1);
    }
}

/// Editing a literal of a fresh scan by its id, with its own text as the old
/// text, always succeeds and keeps every byte outside its span: what comes
/// before it and what comes after it, the rest of its line included. Where
/// the literal ends its line, the new text is followed directly by the
/// line's ending.
pub proof fn lemma_apply_keeps_rest(t: Seq<u8>, det: Seq<DetectedColor>, id: Seq<char>, new: Seq<u8>)
    requires
        forall|j: int| 0 <= j < det.len() ==> (#[trigger] det[j]).agrees_with(t),
        find_by_id(det, id) is Some,
    ensures
        ({
            let d = det[find_by_id(det, id).unwrap()];
            let s = line_start(t, d.line as nat).unwrap();
            let a = s + d.start_col;
            let r = apply_result(t, det, id, encode_utf8(d.hex_text@).len() as int, new);
            &&& d.id@ == id
            &&& r is Ok
            &&& r.unwrap().subrange(0, a) == t.subrange(0, a)
            &&& r.unwrap().subrange(a + new.len(), r.unwrap().len() as int) == t.subrange(
                s + d.end_col,
                t.len() as int,
            )
            &&& d.end_col == line_bytes(t, d.line as nat).len() ==> r.unwrap() == t.subrange(0, a)
                + new + t.subrange(line_end(t, s), t.len() as int)
        }),
{
    lemma_find_from_in_range(det, id, 0);
    let j = find_by_id(det, id).unwrap();
    let d = det[j];
    assert(d.agrees_with(t));
    lemma_detected_literal_patches(t, d, new);
    lemma_patch_keeps_rest(t, d.line as nat, d.start_col as int, d.end_col - d.start_col, new);
    if d.end_col == line_bytes(t, d.line as nat).len() {
        lemma_patch_at_line_end(t, d, new);
    }
}

proof fn lemma_find_from_unique(det: Seq<DetectedColor>, id: Seq<char>, i: int, j0: int)
    requires
        0 <= i <= j0 < det.len(),
        det[j0].id@ == id,
        forall|x: int| i <= x < j0 ==> (#[trigger] det[x]).id@ != id,
    ensures
        find_from(det, id, i) == Some(j0),
    decreases j0 - i,
{
    if i < j0 {
        lemma_find_from_unique(det, id, i + 1, j0);
    }
}

/// Editing any literal `det[j]` of a fresh scan of `t` through its id, with
/// its own text as the old text, succeeds on that very literal and keeps
/// every byte outside its span; where it ends its line, the new text is
/// followed directly by the line's ending.
pub proof fn lemma_apply_at_literal(t: Seq<u8>, det: Seq<DetectedColor>, j: int, new: Seq<u8>)
    requires
        models(det) == scan_text(t),
        forall|x: int| 0 <= x < det.len() ==> (#[trigger] det[x]).agrees_with(t),
        0 <= j < det.len(),
    ensures
        ({
            let d = det[j];
            let s = line_start(t, d.line as nat).unwrap();
            let a = s + d.start_col;
            let r = apply_result(t, det, d.id@, encode_utf8(d.hex_text@).len() as int, new);
            &&& find_by_id(det, d.id@) == Some(j)
            &&& r is Ok
            &&& r.unwrap().subrange(0, a) == t.subrange(0, a)
            &&& r.unwrap().subrange(a + new.len(), r.unwrap().len() as int) == t.subrange(
                s + d.end_col,
                t.len() as int,
            )
            &&& d.end_col == line_bytes(t, d.line as nat).len() ==> r.unwrap() == t.subrange(0, a)
                + new + t.subrange(line_end(t, s), t.len() as int)
        }),
{
    lemma_scan_ids_unique(t, det);
    let id = det[j].id@;
    assert forall|x: int| 0 <= x < j implies (#[trigger] det[x]).id@ != id by {}
    lemma_find_from_unique(det, id, 0, j);
    lemma_apply_keeps_rest(t, det, id, new);
}

} // verus!
