//! Finding color literals in text: per line, first the hex literals from
//! left to right, then the `rgb(..)` / `rgba(..)` literals from left to right.
use vstd::arithmetic::div_mod::{lemma_div_denominator, lemma_hoist_over_denominator};
use vstd::prelude::*;
use vstd::string::*;
use vstd::utf8::*;

use crate::color::{Rgba, hex_digits_color, is_hex_digit, parse_hex_color, strip_hashes};
use crate::text::{
    dec_chars, dec_value, has_line, lemma_dec_chars_digits, lemma_dec_chars_injective, is_dec_digit, lemma_ascii_boundaries, lemma_line_start_bounds,
    lemma_newline_from_bounds, line_bytes, line_end, line_start, newline_dist, newline_from,
    pow10, push_decimal, slice_between,
};

verus! {

broadcast use group_utf8_lib;

/// Word bytes for the boundary after a hex literal: ASCII letters, digits
/// and `_`. The character classes of the literal grammar (word, white space,
/// digit) are ASCII by design; a byte of a non-ASCII character belongs to
/// none of them, so `#fffé` is a literal.
pub open spec fn is_word_byte(b: u8) -> bool {
    is_dec_digit(b) || (65 <= b <= 90) || (97 <= b <= 122) || b == 95
}

/// White space inside `rgb(..)`: tab, line feed, vertical tab, form feed,
/// carriage return and space.
pub open spec fn is_space_byte(b: u8) -> bool {
    (9 <= b <= 13) || b == 32
}

/// Whether byte `p` of `t` lies before the line end `hi` and equals `b`.
pub open spec fn byte_is(t: Seq<u8>, hi: int, p: int, b: u8) -> bool {
    0 <= p < hi && p < t.len() && t[p] == b
}

pub open spec fn hex_run_end(t: Seq<u8>, hi: int, p: int) -> int
    decreases hi - p,
{
    if 0 <= p < hi && p < t.len() && is_hex_digit(t[p]) {
        hex_run_end(t, hi, p + 1)
    } else {
        p
    }
}

pub open spec fn space_len(t: Seq<u8>, hi: int, p: int) -> nat
    decreases hi - p,
{
    if 0 <= p < hi && p < t.len() && is_space_byte(t[p]) {
        1 + space_len(t, hi, p + 1)
    } else {
        0
    }
}

pub open spec fn digit_len(t: Seq<u8>, hi: int, p: int) -> nat
    decreases hi - p,
{
    if 0 <= p < hi && p < t.len() && is_dec_digit(t[p]) {
        1 + digit_len(t, hi, p + 1)
    } else {
        0
    }
}

/// Length of the run of digits and dots at `p`.
pub open spec fn number_len(t: Seq<u8>, hi: int, p: int) -> nat
    decreases hi - p,
{
    if 0 <= p < hi && p < t.len() && (is_dec_digit(t[p]) || t[p] == 46) {
        1 + number_len(t, hi, p + 1)
    } else {
        0
    }
}

/// `#` and exactly `n` hex digits at `i`, not followed by a word byte of the line.
pub open spec fn hex_match(t: Seq<u8>, hi: int, i: int, n: nat) -> bool {
    &&& byte_is(t, hi, i, 35)
    &&& i + 1 + n <= hi
    &&& hex_run_end(t, hi, i + 1) == i + 1 + n
    &&& !(0 <= i + 1 + n < hi && i + 1 + n < t.len() && is_word_byte(t[i + 1 + n]))
}

/// The number of digits of the hex literal at `i`, or 0 where none starts there.
pub open spec fn hex_len_at(t: Seq<u8>, hi: int, i: int) -> nat {
    if hex_match(t, hi, i, 3) {
        3
    } else if hex_match(t, hi, i, 6) {
        6
    } else if hex_match(t, hi, i, 8) {
        8
    } else {
        0
    }
}

/// A channel written in decimal: its value, or 0 where it exceeds 255.
pub open spec fn channel_value(s: Seq<u8>) -> u8 {
    if dec_value(s) <= 255 {
        dec_value(s) as u8
    } else {
        0
    }
}

pub open spec fn dot_count(s: Seq<u8>) -> nat
    decreases s.len(),
{
    if s.len() == 0 {
        0
    } else {
        dot_count(s.drop_last()) + if s.last() == 46 {
            1nat
        } else {
            0nat
        }
    }
}

/// Index of the first `.` of `s`, or its length.
pub open spec fn first_dot(s: Seq<u8>) -> int
    decreases s.len(),
{
    if s.len() == 0 {
        0
    } else if first_dot(s.drop_last()) < s.len() - 1 {
        first_dot(s.drop_last())
    } else if s.last() == 46 {
        s.len() - 1
    } else {
        s.len() as int
    }
}

/// The alpha channel of an `rgba(..)` literal whose fourth part is the
/// digits-and-dots text `s`: the fraction it writes, times 255, truncated
/// and capped at 255; 255 where `s` is no number (two dots, or no digit).
pub open spec fn alpha_value(s: Seq<u8>) -> u8 {
    let d = first_dot(s);
    let frac = if d < s.len() {
        s.subrange(d + 1, s.len() as int)
    } else {
        Seq::<u8>::empty()
    };
    if dot_count(s) > 1 || dot_count(s) == s.len() {
        255
    } else if dec_value(s.subrange(0, d)) > 0 {
        255
    } else {
        (255 * dec_value(frac) / pow10(frac.len())) as u8
    }
}

/// The `rgb(..)` or `rgba(..)` literal at `i`: its end and color. The name
/// is followed directly by `(`; white space may stand around the numbers and
/// commas.
#[verifier::opaque]
pub open spec fn rgb_match(t: Seq<u8>, hi: int, i: int) -> Option<(int, Rgba)> {
    let p1 = i + 3 + if byte_is(t, hi, i + 3, 97) {
        1nat
    } else {
        0nat
    };
    let p2 = p1;
    let r0 = p2 + 1 + space_len(t, hi, p2 + 1);
    let r1 = r0 + digit_len(t, hi, r0);
    let c1 = r1 + space_len(t, hi, r1);
    let g0 = c1 + 1 + space_len(t, hi, c1 + 1);
    let g1 = g0 + digit_len(t, hi, g0);
    let c2 = g1 + space_len(t, hi, g1);
    let b0 = c2 + 1 + space_len(t, hi, c2 + 1);
    let b1 = b0 + digit_len(t, hi, b0);
    let q = b1 + space_len(t, hi, b1);
    let a0 = q + 1 + space_len(t, hi, q + 1);
    let a1 = a0 + number_len(t, hi, a0);
    let z = a1 + space_len(t, hi, a1);
    let r = channel_value(t.subrange(r0, r1));
    let g = channel_value(t.subrange(g0, g1));
    let b = channel_value(t.subrange(b0, b1));
    if !(byte_is(t, hi, i, 114) && byte_is(t, hi, i + 1, 103) && byte_is(t, hi, i + 2, 98)) {
        None
    } else if !byte_is(t, hi, p2, 40) || r1 == r0 || !byte_is(t, hi, c1, 44) || g1 == g0
        || !byte_is(t, hi, c2, 44) || b1 == b0 {
        None
    } else if byte_is(t, hi, q, 41) {
        Some((q + 1, Rgba { r, g, b, a: 255 }))
    } else if byte_is(t, hi, q, 44) && a1 > a0 && byte_is(t, hi, z, 41) {
        Some((z + 1, Rgba { r, g, b, a: alpha_value(t.subrange(a0, a1)) }))
    } else {
        None
    }
}

/// A color literal as the scanner reports it: its line, its columns
/// (byte offsets within the line, end exclusive) and its color.
pub struct LiteralModel {
    pub line: nat,
    pub start: int,
    pub end: int,
    pub value: Rgba,
}

/// The hex literals of the line that spans `[s, hi)` of `t`, from offset `i` on.
pub open spec fn hex_scan(t: Seq<u8>, s: int, hi: int, k: nat, i: int) -> Seq<LiteralModel>
    decreases hi - i,
{
    if i >= hi {
        Seq::empty()
    } else {
        let n = hex_len_at(t, hi, i);
        if n > 0 {
            let e = i + 1 + n;
            match hex_digits_color(strip_hashes(t.subrange(i, e))) {
                Some(c) => seq![LiteralModel { line: k, start: i - s, end: e - s, value: c }]
                    + hex_scan(t, s, hi, k, e),
                None => hex_scan(t, s, hi, k, e),
            }
        } else {
            hex_scan(t, s, hi, k, i + 1)
        }
    }
}

/// The `rgb(..)` / `rgba(..)` literals of the line `[s, hi)`, from offset `i` on.
pub open spec fn rgb_scan(t: Seq<u8>, s: int, hi: int, k: nat, i: int) -> Seq<LiteralModel>
    decreases hi - i,
{
    if i >= hi {
        Seq::empty()
    } else {
        match rgb_match(t, hi, i) {
            Some((e, c)) => if i < e <= hi {
                seq![LiteralModel { line: k, start: i - s, end: e - s, value: c }] + rgb_scan(
                    t,
                    s,
                    hi,
                    k,
                    e,
                )
            } else {
                Seq::empty()
            },
            None => rgb_scan(t, s, hi, k, i + 1),
        }
    }
}

/// The literals of the lines of `t` from the line `k`, which starts at `s`.
pub open spec fn scan_lines(t: Seq<u8>, s: int, k: nat) -> Seq<LiteralModel>
    decreases t.len() - s,
{
    if s < 0 || s >= t.len() {
        Seq::empty()
    } else {
        let hi = line_end(t, s);
        let next = s + newline_dist(t, s) + 1;
        hex_scan(t, s, hi, k, s) + rgb_scan(t, s, hi, k, s) + if next <= t.len() {
            scan_lines(t, next, k + 1)
        } else {
            Seq::empty()
        }
    }
}

/// Every literal of `t`, line by line.
pub open spec fn scan_text(t: Seq<u8>) -> Seq<LiteralModel> {
    scan_lines(t, 0, 0)
}

/// `"{line}_{column}"`.
pub open spec fn id_text(line: nat, col: nat) -> Seq<char> {
    dec_chars(line) + seq!['_'] + dec_chars(col)
}

/// One color literal found in a text.
#[derive(Clone, Debug)]
pub struct DetectedColor {
    pub id: String,
    pub value: Rgba,
    pub line: usize,
    pub start_col: usize,
    pub end_col: usize,
    pub hex_text: String,
}

impl DetectedColor {
    pub open spec fn model(&self) -> LiteralModel {
        LiteralModel {
            line: self.line as nat,
            start: self.start_col as int,
            end: self.end_col as int,
            value: self.value,
        }
    }

    /// The id names the position, the position lies in a line of `t` on
    /// character boundaries, and `hex_text` is what `t` holds there.
    pub open spec fn agrees_with(&self, t: Seq<u8>) -> bool {
        let s = line_start(t, self.line as nat).unwrap();
        &&& self.id@ == id_text(self.line as nat, self.start_col as nat)
        &&& has_line(t, self.line as nat)
        &&& self.start_col < self.end_col <= line_bytes(t, self.line as nat).len()
        &&& is_char_boundary(t, s + self.start_col)
        &&& is_char_boundary(t, s + self.end_col)
        &&& encode_utf8(self.hex_text@) == line_bytes(t, self.line as nat).subrange(
            self.start_col as int,
            self.end_col as int,
        )
    }
}

pub open spec fn models(v: Seq<DetectedColor>) -> Seq<LiteralModel> {
    v.map_values(|d: DetectedColor| d.model())
}

fn is_space(b: u8) -> (r: bool)
    ensures
        r == is_space_byte(b),
{
    (9 <= b && b <= 13) || b == 32
}

fn is_digit(b: u8) -> (r: bool)
    ensures
        r == is_dec_digit(b),
{
    48 <= b && b <= 57
}

fn is_word(b: u8) -> (r: bool)
    ensures
        r == is_word_byte(b),
{
    is_digit(b) || (65 <= b && b <= 90) || (97 <= b && b <= 122) || b == 95
}

fn byte_eq(t: &[u8], hi: usize, p: usize, b: u8) -> (r: bool)
    requires
        hi <= t@.len(),
    ensures
        r == byte_is(t@, hi as int, p as int, b),
{
    p < hi && t[p] == b
}

fn skip_spaces(t: &[u8], hi: usize, p: usize) -> (r: usize)
    requires
        hi <= t@.len(),
    ensures
        r == p + space_len(t@, hi as int, p as int),
        p <= hi ==> r <= hi,
        p > hi ==> r == p,
{
    let mut q = p;
    while q < hi && is_space(t[q])
        invariant
            hi <= t@.len(),
            p <= q,
            p <= hi ==> q <= hi,
            p > hi ==> q == p,
            p + space_len(t@, hi as int, p as int) == q + space_len(t@, hi as int, q as int),
        decreases hi - q,
    {
        q = q + 1;
    }
    q
}

fn skip_digits(t: &[u8], hi: usize, p: usize) -> (r: usize)
    requires
        hi <= t@.len(),
    ensures
        r == p + digit_len(t@, hi as int, p as int),
        p <= hi ==> r <= hi,
        p > hi ==> r == p,
        forall|j: int| p <= j < r ==> is_dec_digit(#[trigger] t@[j]),
{
    let mut q = p;
    while q < hi && is_digit(t[q])
        invariant
            hi <= t@.len(),
            p <= q,
            p <= hi ==> q <= hi,
            p > hi ==> q == p,
            p + digit_len(t@, hi as int, p as int) == q + digit_len(t@, hi as int, q as int),
            forall|j: int| p <= j < q ==> is_dec_digit(#[trigger] t@[j]),
        decreases hi - q,
    {
        q = q + 1;
    }
    q
}

fn skip_number(t: &[u8], hi: usize, p: usize) -> (r: usize)
    requires
        hi <= t@.len(),
    ensures
        r == p + number_len(t@, hi as int, p as int),
        p <= hi ==> r <= hi,
        p > hi ==> r == p,
        forall|j: int| p <= j < r ==> is_dec_digit(#[trigger] t@[j]) || t@[j] == 46,
{
    let mut q = p;
    while q < hi && (is_digit(t[q]) || t[q] == 46)
        invariant
            hi <= t@.len(),
            p <= q,
            p <= hi ==> q <= hi,
            p > hi ==> q == p,
            p + number_len(t@, hi as int, p as int) == q + number_len(t@, hi as int, q as int),
            forall|j: int| p <= j < q ==> is_dec_digit(#[trigger] t@[j]) || t@[j] == 46,
        decreases hi - q,
    {
        q = q + 1;
    }
    q
}

proof fn lemma_dec_value_first(s: Seq<u8>)
    requires
        s.len() > 0,
    ensures
        dec_value(s) == (s[0] - 48) as nat * pow10((s.len() - 1) as nat) + dec_value(s.drop_first()),
    decreases s.len(),
{
    if s.len() == 1 {
        assert(s.drop_first().len() == 0);
        assert(s.drop_last().len() == 0);
        assert(dec_value(s.drop_last()) == 0);
        assert(dec_value(s.drop_first()) == 0);
        assert(pow10(0) == 1);
        assert(s.last() == s[0]);
        let d0 = (s[0] - 48) as nat;
        assert(d0 * pow10(0) == d0);
        assert(dec_value(s) == d0);
    } else {
        let dl = s.drop_last();
        lemma_dec_value_first(dl);
        assert(s.drop_first().drop_last() =~= dl.drop_first());
        let d0 = (s[0] - 48) as nat;
        let x = (s.last() - 48) as nat;
        let p = pow10((s.len() - 2) as nat);
        let a = dec_value(dl.drop_first());
        assert(dec_value(s) == dec_value(dl) * 10 + x);
        assert(dec_value(dl) == d0 * p + a);
        assert(s.drop_first().last() == s.last());
        assert(dl[0] == s[0]);
        assert(dec_value(s.drop_first()) == a * 10 + x);
        assert(pow10((s.len() - 1) as nat) == 10 * p);
        assert((d0 * p + a) * 10 + x == d0 * (10 * p) + (a * 10 + x)) by (nonlinear_arith);
        assert(dec_value(s) == d0 * pow10((s.len() - 1) as nat) + dec_value(s.drop_first()));
    }
}

proof fn lemma_carry_step(d: nat, v: nat, p: nat)
    requires
        p > 0,
    ensures
        (255 * d + 255 * v / p) / 10 == 255 * (d * p + v) / (p * 10),
{
    assert(255 * (d * p + v) == 255 * v + (255 * d) * p) by (nonlinear_arith);
    lemma_hoist_over_denominator((255 * v) as int, (255 * d) as int, p);
    lemma_div_denominator((255 * (d * p + v)) as int, p as int, 10);
}

/// The value of the digits `t[lo..hi)`, or 256 where it exceeds 255.
fn dec_capped(t: &[u8], lo: usize, hi: usize) -> (r: u32)
    requires
        lo <= hi <= t@.len(),
        forall|j: int| lo <= j < hi ==> is_dec_digit(#[trigger] t@[j]),
    ensures
        r == (if dec_value(t@.subrange(lo as int, hi as int)) <= 255 {
            dec_value(t@.subrange(lo as int, hi as int))
        } else {
            256
        }),
{
    let mut v: u32 = 0;
    let mut j = lo;
    assert(t@.subrange(lo as int, lo as int).len() == 0);
    while j < hi
        invariant
            lo <= j <= hi <= t@.len(),
            forall|x: int| lo <= x < hi ==> is_dec_digit(#[trigger] t@[x]),
            v == (if dec_value(t@.subrange(lo as int, j as int)) <= 255 {
                dec_value(t@.subrange(lo as int, j as int))
            } else {
                256
            }),
        decreases hi - j,
    {
        let ghost prev = t@.subrange(lo as int, j as int);
        let ghost next = t@.subrange(lo as int, j + 1);
        assert(next.drop_last() =~= prev);
        assert(is_dec_digit(t@[j as int]));
        let d = (t[j] - 48) as u32;
        assert(dec_value(next) == dec_value(prev) * 10 + d);
        if v <= 255 {
            let w = v * 10 + d;
            v = if w <= 255 {
                w
            } else {
                256
            };
        }
        j = j + 1;
    }
    v
}

/// The channel written by the digits `t[lo..hi)`.
fn channel_of(t: &[u8], lo: usize, hi: usize) -> (c: u8)
    requires
        lo <= hi <= t@.len(),
        forall|j: int| lo <= j < hi ==> is_dec_digit(#[trigger] t@[j]),
    ensures
        c == channel_value(t@.subrange(lo as int, hi as int)),
{
    let v = dec_capped(t, lo, hi);
    if v <= 255 {
        v as u8
    } else {
        0
    }
}

/// The alpha channel written by the digits and dots `t[lo..hi)`.
fn alpha_of(t: &[u8], lo: usize, hi: usize) -> (a: u8)
    requires
        lo <= hi <= t@.len(),
        forall|j: int| lo <= j < hi ==> is_dec_digit(#[trigger] t@[j]) || t@[j] == 46,
    ensures
        a == alpha_value(t@.subrange(lo as int, hi as int)),
{
    let ghost s = t@.subrange(lo as int, hi as int);
    let mut dots: usize = 0;
    let mut fd: usize = lo;
    let mut j: usize = lo;
    assert(t@.subrange(lo as int, lo as int).len() == 0);
    while j < hi
        invariant
            lo <= fd <= j <= hi <= t@.len(),
            forall|x: int| lo <= x < hi ==> is_dec_digit(#[trigger] t@[x]) || t@[x] == 46,
            dots == dot_count(t@.subrange(lo as int, j as int)),
            fd - lo == first_dot(t@.subrange(lo as int, j as int)),
            dots <= j - lo,
            dots == 0 ==> fd == j,
            dots > 0 ==> fd < j && t@[fd as int] == 46,
            forall|x: int| lo <= x < fd ==> t@[x] != 46,
            forall|x: int| lo <= x < j && t@[x] == 46 && x != fd ==> dots >= 2,
        decreases hi - j,
    {
        let ghost prev = t@.subrange(lo as int, j as int);
        let ghost next = t@.subrange(lo as int, j + 1);
        assert(next.drop_last() =~= prev);
        if t[j] == 46 {
            if dots == 0 {
                fd = j;
            }
            dots = dots + 1;
        } else if dots == 0 {
            fd = j + 1;
        }
        j = j + 1;
    }
    assert(t@.subrange(lo as int, j as int) =~= s);
    if dots > 1 || dots == hi - lo {
        return 255;
    }
    assert(t@.subrange(lo as int, fd as int) =~= s.subrange(0, fd - lo));
    let ip = dec_capped(t, lo, fd);
    if ip > 0 {
        return 255;
    }
    let start: usize = if dots == 1 {
        fd + 1
    } else {
        hi
    };
    let ghost frac = t@.subrange(start as int, hi as int);
    assert(frac =~= (if fd < hi {
        s.subrange(fd - lo + 1, s.len() as int)
    } else {
        Seq::<u8>::empty()
    }));
    let mut c: u32 = 0;
    let mut k: usize = hi;
    assert(t@.subrange(hi as int, hi as int).len() == 0);
    while k > start
        invariant
            start <= k <= hi <= t@.len(),
            forall|x: int| start <= x < hi ==> is_dec_digit(#[trigger] t@[x]),
            c < 255,
            c == 255 * dec_value(t@.subrange(k as int, hi as int)) / pow10((hi - k) as nat),
        decreases k,
    {
        k = k - 1;
        let ghost rest = t@.subrange(k + 1, hi as int);
        let ghost cur = t@.subrange(k as int, hi as int);
        assert(cur.drop_first() =~= rest);
        assert(is_dec_digit(t@[k as int]));
        proof {
            lemma_dec_value_first(cur);
            let p = pow10((hi - k - 1) as nat);
            assert(p > 0) by {
                lemma_pow10_positive((hi - k - 1) as nat);
            }
            lemma_carry_step((t@[k as int] - 48) as nat, dec_value(rest), p);
            assert(pow10((hi - k) as nat) == p * 10);
        }
        c = (255 * ((t[k] - 48) as u32) + c) / 10;
    }
    c as u8
}

proof fn lemma_pow10_positive(n: nat)
    ensures
        pow10(n) > 0,
    decreases n,
{
    if n > 0 {
        lemma_pow10_positive((n - 1) as nat);
    }
}

fn hex_run(t: &[u8], hi: usize, p: usize) -> (r: usize)
    requires
        hi <= t@.len(),
        p <= hi,
    ensures
        r == hex_run_end(t@, hi as int, p as int),
        p <= r <= hi,
        forall|j: int| p <= j < r ==> is_hex_digit(#[trigger] t@[j]),
{
    let mut q = p;
    while q < hi && crate::color::hex_digit(t[q]).is_some()
        invariant
            hi <= t@.len(),
            p <= q <= hi,
            hex_run_end(t@, hi as int, p as int) == hex_run_end(t@, hi as int, q as int),
            forall|j: int| p <= j < q ==> is_hex_digit(#[trigger] t@[j]),
        decreases hi - q,
    {
        q = q + 1;
    }
    q
}

/// The number of digits of the hex literal at `i`, or 0.
fn hex_len(t: &[u8], hi: usize, i: usize) -> (n: usize)
    requires
        hi <= t@.len(),
        i < hi,
    ensures
        n == hex_len_at(t@, hi as int, i as int),
        n > 0 ==> i + 1 + n <= hi && t@[i as int] == 35,
        forall|j: int| i + 1 <= j < i + 1 + n ==> is_hex_digit(#[trigger] t@[j]),
{
    if t[i] != 35 {
        return 0;
    }
    let r = hex_run(t, hi, i + 1);
    let n = r - i - 1;
    if (n == 3 || n == 6 || n == 8) && !(r < hi && is_word(t[r])) {
        n
    } else {
        0
    }
}

/// The `rgb(..)` / `rgba(..)` literal at `i`, as its end and color.
fn rgb_at(t: &[u8], hi: usize, i: usize) -> (r: Option<(usize, Rgba)>)
    requires
        hi <= t@.len(),
        i < hi,
    ensures
        r matches Some((e, c)) ==> rgb_match(t@, hi as int, i as int) == Some((e as int, c)) && i
            < e <= hi && t@[e - 1] == 41 && t@[i as int] == 114,
        r is None ==> rgb_match(t@, hi as int, i as int) is None,
{
    reveal(rgb_match);
    if !(byte_eq(t, hi, i, 114) && byte_eq(t, hi, i + 1, 103) && byte_eq(t, hi, i + 2, 98)) {
        return None;
    }
    let p1 = if byte_eq(t, hi, i + 3, 97) {
        i + 4
    } else {
        i + 3
    };
    let p2 = p1;
    if !byte_eq(t, hi, p2, 40) {
        return None;
    }
    let r0 = skip_spaces(t, hi, p2 + 1);
    let r1 = skip_digits(t, hi, r0);
    let c1 = skip_spaces(t, hi, r1);
    if r1 == r0 || !byte_eq(t, hi, c1, 44) {
        return None;
    }
    let g0 = skip_spaces(t, hi, c1 + 1);
    let g1 = skip_digits(t, hi, g0);
    let c2 = skip_spaces(t, hi, g1);
    if g1 == g0 || !byte_eq(t, hi, c2, 44) {
        return None;
    }
    let b0 = skip_spaces(t, hi, c2 + 1);
    let b1 = skip_digits(t, hi, b0);
    let q = skip_spaces(t, hi, b1);
    if b1 == b0 {
        return None;
    }
    let r = channel_of(t, r0, r1);
    let g = channel_of(t, g0, g1);
    let b = channel_of(t, b0, b1);
    if byte_eq(t, hi, q, 41) {
        return Some((q + 1, Rgba::from_rgb(r, g, b)));
    }
    if !byte_eq(t, hi, q, 44) {
        return None;
    }
    let a0 = skip_spaces(t, hi, q + 1);
    let a1 = skip_number(t, hi, a0);
    let z = skip_spaces(t, hi, a1);
    if a1 > a0 && byte_eq(t, hi, z, 41) {
        let a = alpha_of(t, a0, a1);
        Some((z + 1, Rgba::from_rgba(r, g, b, a)))
    } else {
        None
    }
}

/// The entry for the literal at `[i, e)` of the line `k` that starts at `s`.
fn make_detected(content: &str, k: usize, s: usize, i: usize, e: usize, value: Rgba) -> (d:
    DetectedColor)
    requires
        s <= i < e <= content.spec_bytes().len(),
        is_char_boundary(content.spec_bytes(), i as int),
        is_char_boundary(content.spec_bytes(), e as int),
    ensures
        d.line == k,
        d.start_col == i - s,
        d.end_col == e - s,
        d.value == value,
        d.id@ == id_text(k as nat, (i - s) as nat),
        encode_utf8(d.hex_text@) == content.spec_bytes().subrange(i as int, e as int),
{
    proof {
        reveal_strlit("_");
    }
    let mut id = String::new();
    push_decimal(&mut id, k);
    id.append("_");
    push_decimal(&mut id, i - s);
    assert(id@ =~= id_text(k as nat, (i - s) as nat));
    let lit = slice_between(content, i, e);
    DetectedColor {
        id,
        value,
        line: k,
        start_col: i - s,
        end_col: e - s,
        hex_text: String::from_str(lit),
    }
}

/// Appends the hex literals of the line `k`, which spans `[s, hi)`.
fn scan_hex_line(
    content: &str,
    t: &[u8],
    s: usize,
    hi: usize,
    k: usize,
    out: &mut Vec<DetectedColor>,
)
    requires
        t@ == content.spec_bytes(),
        s <= hi <= t@.len(),
        s < t@.len(),
        hi == line_end(t@, s as int),
        line_start(t@, k as nat) == Some(s as int),
        forall|j: int| 0 <= j < old(out)@.len() ==> (#[trigger] old(out)@[j]).agrees_with(t@),
    ensures
        models(final(out)@) == models(old(out)@) + hex_scan(t@, s as int, hi as int, k as nat, s as int),
        forall|j: int| 0 <= j < final(out)@.len() ==> (#[trigger] final(out)@[j]).agrees_with(t@),
{
    let mut i = s;
    while i < hi
        invariant
            t@ == content.spec_bytes(),
            s <= i <= hi <= t@.len(),
            s < t@.len(),
            hi == line_end(t@, s as int),
            line_start(t@, k as nat) == Some(s as int),
            models(out@) + hex_scan(t@, s as int, hi as int, k as nat, i as int) == models(
                old(out)@,
            ) + hex_scan(t@, s as int, hi as int, k as nat, s as int),
            forall|j: int| 0 <= j < out@.len() ==> (#[trigger] out@[j]).agrees_with(t@),
        decreases hi - i,
    {
        let n = hex_len(t, hi, i);
        if n > 0 {
            let e = i + 1 + n;
            proof {
                lemma_ascii_boundaries(t@, i as int);
                assert(is_hex_digit(t@[e - 1]));
                lemma_ascii_boundaries(t@, e - 1);
            }
            let lit = slice_between(content, i, e);
            match parse_hex_color(lit) {
                Some(c) => {
                    let d = make_detected(content, k, s, i, e, c);
                    proof {
                        assert(line_bytes(t@, k as nat).subrange(
                            (i - s) as int,
                            (e - s) as int,
                        ) =~= t@.subrange(i as int, e as int));
                        assert(models(out@.push(d)) =~= models(out@) + seq![d.model()]);
                    }
                    out.push(d);
                },
                None => {},
            }
            i = e;
        } else {
            i = i + 1;
        }
    }
}

/// Appends the `rgb(..)` / `rgba(..)` literals of the line `k`, which spans `[s, hi)`.
fn scan_rgb_line(
    content: &str,
    t: &[u8],
    s: usize,
    hi: usize,
    k: usize,
    out: &mut Vec<DetectedColor>,
)
    requires
        t@ == content.spec_bytes(),
        s <= hi <= t@.len(),
        s < t@.len(),
        hi == line_end(t@, s as int),
        line_start(t@, k as nat) == Some(s as int),
        forall|j: int| 0 <= j < old(out)@.len() ==> (#[trigger] old(out)@[j]).agrees_with(t@),
    ensures
        models(final(out)@) == models(old(out)@) + rgb_scan(t@, s as int, hi as int, k as nat, s as int),
        forall|j: int| 0 <= j < final(out)@.len() ==> (#[trigger] final(out)@[j]).agrees_with(t@),
{
    let mut i = s;
    while i < hi
        invariant
            t@ == content.spec_bytes(),
            s <= i <= hi <= t@.len(),
            s < t@.len(),
            hi == line_end(t@, s as int),
            line_start(t@, k as nat) == Some(s as int),
            models(out@) + rgb_scan(t@, s as int, hi as int, k as nat, i as int) == models(
                old(out)@,
            ) + rgb_scan(t@, s as int, hi as int, k as nat, s as int),
            forall|j: int| 0 <= j < out@.len() ==> (#[trigger] out@[j]).agrees_with(t@),
        decreases hi - i,
    {
        match rgb_at(t, hi, i) {
            Some((e, c)) => {
                proof {
                    lemma_ascii_boundaries(t@, i as int);
                    lemma_ascii_boundaries(t@, e - 1);
                }
                let d = make_detected(content, k, s, i, e, c);
                proof {
                    assert(line_bytes(t@, k as nat).subrange((i - s) as int, (e - s) as int)
                        =~= t@.subrange(i as int, e as int));
                    assert(models(out@.push(d)) =~= models(out@) + seq![d.model()]);
                }
                out.push(d);
                i = e;
            },
            None => {
                i = i + 1;
            },
        }
    }
}

fn find_newline(t: &[u8], s: usize) -> (e: usize)
    requires
        s < t@.len(),
    ensures
        e == newline_from(t@, s as int),
        s <= e <= t@.len(),
{
    let mut e = s;
    while e < t.len() && t[e] != 10
        invariant
            s <= e <= t@.len(),
            newline_from(t@, s as int) == newline_from(t@, e as int),
        decreases t@.len() - e,
    {
        proof {
            lemma_newline_from_bounds(t@, e as int);
        }
        e = e + 1;
    }
    e
}

/// Every color literal of `content`: line by line, the hex literals from
/// left to right, then the `rgb(..)` / `rgba(..)` ones from left to right.
pub fn detect_colors_in_content(content: &str) -> (r: Vec<DetectedColor>)
    ensures
        models(r@) == scan_text(content.spec_bytes()),
        forall|j: int| 0 <= j < r@.len() ==> (#[trigger] r@[j]).agrees_with(content.spec_bytes()),
{
    let t = content.as_bytes();
    let mut out: Vec<DetectedColor> = Vec::new();
    let mut s: usize = 0;
    let mut k: usize = 0;
    assert(models(out@) =~= Seq::<LiteralModel>::empty());
    while s < t.len()
        invariant
            t@ == content.spec_bytes(),
            k <= s <= t@.len(),
            s < t@.len() ==> line_start(t@, k as nat) == Some(s as int),
            models(out@) + scan_lines(t@, s as int, k as nat) == scan_text(t@),
            forall|j: int| 0 <= j < out@.len() ==> (#[trigger] out@[j]).agrees_with(t@),
        decreases t@.len() - s,
    {
        let e = find_newline(t, s);
        let hi = if e < t.len() && e > s && t[e - 1] == 13 {
            e - 1
        } else {
            e
        };
        let ghost before = models(out@);
        let ghost s0 = s as int;
        let ghost k0 = k as nat;
        let ghost hex_part = hex_scan(t@, s0, hi as int, k0, s0);
        let ghost rgb_part = rgb_scan(t@, s0, hi as int, k0, s0);
        proof {
            lemma_newline_from_bounds(t@, s0);
        }
        scan_hex_line(content, t, s, hi, k, &mut out);
        scan_rgb_line(content, t, s, hi, k, &mut out);
        if e < t.len() {
            s = e + 1;
        } else {
            s = t.len();
        }
        k = k + 1;
        proof {
            let rest = scan_lines(t@, s as int, k as nat);
            assert(scan_lines(t@, s0, k0) == hex_part + rgb_part + rest);
            assert(models(out@) == before + hex_part + rgb_part);
            assert(models(out@) + rest =~= before + (hex_part + rgb_part + rest));
        }
    }
    out
}

proof fn lemma_hex_run_digits(t: Seq<u8>, hi: int, p: int)
    requires
        0 <= p,
        hi <= t.len(),
    ensures
        p <= hex_run_end(t, hi, p),
        hex_run_end(t, hi, p) <= t.len() || hex_run_end(t, hi, p) == p,
        forall|j: int| p <= j < hex_run_end(t, hi, p) ==> is_hex_digit(#[trigger] t[j]),
    decreases hi - p,
{
    if 0 <= p < hi && p < t.len() && is_hex_digit(t[p]) {
        lemma_hex_run_digits(t, hi, p + 1);
        assert(hex_run_end(t, hi, p) == hex_run_end(t, hi, p + 1));
        assert forall|j: int| p <= j < hex_run_end(t, hi, p) implies is_hex_digit(#[trigger] t[j]) by {
            if j > p {
                assert(p + 1 <= j < hex_run_end(t, hi, p + 1));
            }
        }
    }
}

/// A hex literal always denotes a color, so the scan reports every one of them.
pub proof fn lemma_hex_literal_has_color(t: Seq<u8>, hi: int, i: int)
    requires
        0 <= i,
        hi <= t.len(),
        hex_len_at(t, hi, i) > 0,
    ensures
        hex_digits_color(strip_hashes(t.subrange(i, i + 1 + hex_len_at(t, hi, i)))) is Some,
{
    let n = hex_len_at(t, hi, i);
    let e = i + 1 + n;
    lemma_hex_run_digits(t, hi, i + 1);
    let w = t.subrange(i, e);
    let d = t.subrange(i + 1, e);
    assert(w.drop_first() =~= d);
    assert(d[0] == t[i + 1]);
    assert(strip_hashes(d) == d);
    assert(strip_hashes(w) == d);
    assert(forall|j: int| 0 <= j < d.len() ==> is_hex_digit(#[trigger] d[j])) by {
        assert(forall|j: int| 0 <= j < d.len() ==> d[j] == t[i + 1 + j]);
    }
}

/// Every literal lies on line `k` between the columns `lo` and `hi`.
pub open spec fn within_line(r: Seq<LiteralModel>, k: nat, lo: int, hi: int) -> bool {
    forall|a: int| 0 <= a < r.len() ==> (#[trigger] r[a]).line == k && lo <= r[a].start < r[a].end <= hi
}

/// Each literal ends before the next one starts.
pub open spec fn spans_in_order(r: Seq<LiteralModel>) -> bool {
    forall|a: int, b: int| 0 <= a < b < r.len() ==> (#[trigger] r[a]).end <= (#[trigger] r[b]).start
}

/// The literals come line by line, each on a non-empty span.
pub open spec fn lines_in_order(r: Seq<LiteralModel>) -> bool {
    &&& forall|a: int, b: int| 0 <= a < b < r.len() ==> (#[trigger] r[a]).line <= (#[trigger] r[b]).line
    &&& forall|a: int| 0 <= a < r.len() ==> (#[trigger] r[a]).start < r[a].end
}

proof fn lemma_cons_ordered(m: LiteralModel, rest: Seq<LiteralModel>, k: nat, lo: int, mid: int, hi: int)
    requires
        m.line == k,
        lo <= m.start < m.end <= mid <= hi,
        within_line(rest, k, mid, hi),
        spans_in_order(rest),
    ensures
        within_line(seq![m] + rest, k, lo, hi),
        spans_in_order(seq![m] + rest),
{
    let r = seq![m] + rest;
    assert forall|a: int| 0 <= a < r.len() implies (#[trigger] r[a]).line == k && lo <= r[a].start
        < r[a].end <= hi by {
        if a > 0 {
            assert(r[a] == rest[a - 1]);
        } else {
            assert(r[a] == m);
        }
    }
    assert forall|a: int, b: int| 0 <= a < b < r.len() implies (#[trigger] r[a]).end <= (
    #[trigger] r[b]).start by {
        assert(r[b] == rest[b - 1]);
        if a > 0 {
            assert(r[a] == rest[a - 1]);
        } else {
            assert(r[a] == m);
        }
    }
}

/// The hex literals of a line lie in it, in order, without overlap.
pub proof fn lemma_hex_scan_in_order(t: Seq<u8>, s: int, hi: int, k: nat, i: int)
    requires
        s <= i <= hi,
    ensures
        within_line(hex_scan(t, s, hi, k, i), k, i - s, hi - s),
        spans_in_order(hex_scan(t, s, hi, k, i)),
    decreases hi - i,
{
    if i < hi {
        let n = hex_len_at(t, hi, i);
        if n > 0 {
            let e = i + 1 + n;
            lemma_hex_scan_in_order(t, s, hi, k, e);
            match hex_digits_color(strip_hashes(t.subrange(i, e))) {
                Some(c) => {
                    let m = LiteralModel { line: k, start: i - s, end: e - s, value: c };
                    lemma_cons_ordered(m, hex_scan(t, s, hi, k, e), k, i - s, e - s, hi - s);
                },
                None => {
                    let r = hex_scan(t, s, hi, k, e);
                    assert forall|a: int| 0 <= a < r.len() implies (#[trigger] r[a]).line == k && i
                        - s <= r[a].start < r[a].end <= hi - s by {}
                },
            }
        } else {
            lemma_hex_scan_in_order(t, s, hi, k, i + 1);
            let r = hex_scan(t, s, hi, k, i + 1);
            assert forall|a: int| 0 <= a < r.len() implies (#[trigger] r[a]).line == k && i - s
                <= r[a].start < r[a].end <= hi - s by {}
        }
    }
}

/// The `rgb(..)` / `rgba(..)` literals of a line lie in it, in order, without overlap.
pub proof fn lemma_rgb_scan_in_order(t: Seq<u8>, s: int, hi: int, k: nat, i: int)
    requires
        s <= i <= hi,
    ensures
        within_line(rgb_scan(t, s, hi, k, i), k, i - s, hi - s),
        spans_in_order(rgb_scan(t, s, hi, k, i)),
    decreases hi - i,
{
    if i < hi {
        match rgb_match(t, hi, i) {
            Some((e, c)) => {
                if i < e <= hi {
                    lemma_rgb_scan_in_order(t, s, hi, k, e);
                    let m = LiteralModel { line: k, start: i - s, end: e - s, value: c };
                    lemma_cons_ordered(m, rgb_scan(t, s, hi, k, e), k, i - s, e - s, hi - s);
                }
            },
            None => {
                lemma_rgb_scan_in_order(t, s, hi, k, i + 1);
                let r = rgb_scan(t, s, hi, k, i + 1);
                assert forall|a: int| 0 <= a < r.len() implies (#[trigger] r[a]).line == k && i - s
                    <= r[a].start < r[a].end <= hi - s by {}
            },
        }
    }
}

proof fn lemma_scan_lines_in_order(t: Seq<u8>, s: int, k: nat)
    requires
        0 <= s,
    ensures
        lines_in_order(scan_lines(t, s, k)),
        forall|a: int| 0 <= a < scan_lines(t, s, k).len() ==> (#[trigger] scan_lines(t, s, k)[a]).line >= k,
    decreases t.len() - s,
{
    if s < t.len() {
        let hi = line_end(t, s);
        lemma_newline_from_bounds(t, s);
        assert(s <= hi);
        lemma_hex_scan_in_order(t, s, hi, k, s);
        lemma_rgb_scan_in_order(t, s, hi, k, s);
        let h = hex_scan(t, s, hi, k, s);
        let g = rgb_scan(t, s, hi, k, s);
        let next = s + newline_dist(t, s) + 1;
        let rest = if next <= t.len() {
            scan_lines(t, next, k + 1)
        } else {
            Seq::empty()
        };
        if next <= t.len() {
            lemma_scan_lines_in_order(t, next, k + 1);
        }
        let r = h + g + rest;
        assert(scan_lines(t, s, k) == r);
        assert forall|a: int| 0 <= a < r.len() implies (#[trigger] r[a]).line >= k && r[a].start
            < r[a].end && (a < h.len() + g.len() ==> r[a].line == k) && (a >= h.len() + g.len()
            ==> r[a].line >= k + 1) by {
            if a < h.len() {
                assert(r[a] == h[a]);
            } else if a < h.len() + g.len() {
                assert(r[a] == g[a - h.len()]);
            } else {
                assert(r[a] == rest[a - h.len() - g.len()]);
            }
        }
        assert forall|a: int, b: int| 0 <= a < b < r.len() implies (#[trigger] r[a]).line <= (
        #[trigger] r[b]).line by {
            if b >= h.len() + g.len() && a >= h.len() + g.len() {
                assert(r[a] == rest[a - h.len() - g.len()]);
                assert(r[b] == rest[b - h.len() - g.len()]);
            }
        }
    }
}

/// The scan reports literals line by line, each on a non-empty span; within
/// a line the hex literals come first, then the `rgb(..)` / `rgba(..)` ones,
/// each group in order and without overlap.
pub proof fn lemma_scan_in_order(t: Seq<u8>)
    ensures
        lines_in_order(scan_text(t)),
        forall|k: nat|
            #![trigger line_start(t, k)]
            has_line(t, k) ==> {
                let s = line_start(t, k).unwrap();
                let hi = line_end(t, s);
                &&& spans_in_order(hex_scan(t, s, hi, k, s))
                &&& spans_in_order(rgb_scan(t, s, hi, k, s))
            },
{
    lemma_scan_lines_in_order(t, 0, 0);
    assert forall|k: nat| #[trigger] has_line(t, k) implies {
        let s = line_start(t, k).unwrap();
        let hi = line_end(t, s);
        &&& spans_in_order(hex_scan(t, s, hi, k, s))
        &&& spans_in_order(rgb_scan(t, s, hi, k, s))
    } by {
        let s = line_start(t, k).unwrap();
        lemma_line_start_bounds(t, k);
        lemma_newline_from_bounds(t, s);
        lemma_hex_scan_in_order(t, s, line_end(t, s), k, s);
        lemma_rgb_scan_in_order(t, s, line_end(t, s), k, s);
    }
}

/// The bytes an `rgb(..)` / `rgba(..)` literal is written with.
pub open spec fn is_rgb_byte(b: u8) -> bool {
    is_space_byte(b) || is_dec_digit(b) || b == 40 || b == 41 || b == 44 || b == 46 || b == 114
        || b == 103 || b == 98 || b == 97
}

proof fn lemma_space_run(t: Seq<u8>, hi: int, p: int)
    requires
        hi <= t.len(),
    ensures
        0 <= p ==> p + space_len(t, hi, p) <= t.len() || space_len(t, hi, p) == 0,
        forall|j: int| p <= j < p + space_len(t, hi, p) ==> is_space_byte(#[trigger] t[j]),
    decreases hi - p,
{
    if 0 <= p < hi && p < t.len() && is_space_byte(t[p]) {
        lemma_space_run(t, hi, p + 1);
        assert(space_len(t, hi, p) == 1 + space_len(t, hi, p + 1));
        assert forall|j: int| p <= j < p + space_len(t, hi, p) implies is_space_byte(#[trigger] t[j]) by {
            if j > p {
                assert(p + 1 <= j < p + 1 + space_len(t, hi, p + 1));
            }
        }
    }
}

proof fn lemma_digit_run(t: Seq<u8>, hi: int, p: int)
    requires
        hi <= t.len(),
    ensures
        0 <= p ==> p + digit_len(t, hi, p) <= t.len() || digit_len(t, hi, p) == 0,
        forall|j: int| p <= j < p + digit_len(t, hi, p) ==> is_dec_digit(#[trigger] t[j]),
    decreases hi - p,
{
    if 0 <= p < hi && p < t.len() && is_dec_digit(t[p]) {
        lemma_digit_run(t, hi, p + 1);
        assert(digit_len(t, hi, p) == 1 + digit_len(t, hi, p + 1));
        assert forall|j: int| p <= j < p + digit_len(t, hi, p) implies is_dec_digit(#[trigger] t[j]) by {
            if j > p {
                assert(p + 1 <= j < p + 1 + digit_len(t, hi, p + 1));
            }
        }
    }
}

proof fn lemma_number_run(t: Seq<u8>, hi: int, p: int)
    requires
        hi <= t.len(),
    ensures
        0 <= p ==> p + number_len(t, hi, p) <= t.len() || number_len(t, hi, p) == 0,
        forall|j: int| p <= j < p + number_len(t, hi, p) ==> (is_dec_digit(#[trigger] t[j]) || t[j] == 46),
    decreases hi - p,
{
    if 0 <= p < hi && p < t.len() && (is_dec_digit(t[p]) || t[p] == 46) {
        lemma_number_run(t, hi, p + 1);
        assert(number_len(t, hi, p) == 1 + number_len(t, hi, p + 1));
        assert forall|j: int| p <= j < p + number_len(t, hi, p) implies (is_dec_digit(#[trigger] t[j]) || t[j] == 46) by {
            if j > p {
                assert(p + 1 <= j < p + 1 + number_len(t, hi, p + 1));
            }
        }
    }
}

/// An `rgb(..)` / `rgba(..)` literal starts with `r` and holds only the
/// bytes of its notation; in particular no `#`.
pub proof fn lemma_rgb_match_bytes(t: Seq<u8>, hi: int, i: int)
    requires
        hi <= t.len(),
        rgb_match(t, hi, i) is Some,
    ensures
        ({
            let e = rgb_match(t, hi, i).unwrap().0;
            &&& 0 <= i < t.len() && t[i] == 114
            &&& i < e <= hi
            &&& forall|j: int| i <= j < e ==> is_rgb_byte(#[trigger] t[j]) && (j > i ==> t[j] != 114)
        }),
{
    reveal(rgb_match);
    let p1 = i + 3 + if byte_is(t, hi, i + 3, 97) {
        1nat
    } else {
        0nat
    };
    let p2 = p1;
    let r0 = p2 + 1 + space_len(t, hi, p2 + 1);
    let r1 = r0 + digit_len(t, hi, r0);
    let c1 = r1 + space_len(t, hi, r1);
    let g0 = c1 + 1 + space_len(t, hi, c1 + 1);
    let g1 = g0 + digit_len(t, hi, g0);
    let c2 = g1 + space_len(t, hi, g1);
    let b0 = c2 + 1 + space_len(t, hi, c2 + 1);
    let b1 = b0 + digit_len(t, hi, b0);
    let q = b1 + space_len(t, hi, b1);
    let a0 = q + 1 + space_len(t, hi, q + 1);
    let a1 = a0 + number_len(t, hi, a0);
    let z = a1 + space_len(t, hi, a1);
    lemma_space_run(t, hi, p2 + 1);
    lemma_digit_run(t, hi, r0);
    lemma_space_run(t, hi, r1);
    lemma_space_run(t, hi, c1 + 1);
    lemma_digit_run(t, hi, g0);
    lemma_space_run(t, hi, g1);
    lemma_space_run(t, hi, c2 + 1);
    lemma_digit_run(t, hi, b0);
    lemma_space_run(t, hi, b1);
    lemma_space_run(t, hi, q + 1);
    lemma_number_run(t, hi, a0);
    lemma_space_run(t, hi, a1);
    let e = rgb_match(t, hi, i).unwrap().0;
    assert forall|j: int| i <= j < e implies is_rgb_byte(#[trigger] t[j]) && (j > i ==> t[j] != 114) by {
        if j < p2 {
        } else if j == p2 {
        } else if j < r0 {
            assert(p2 + 1 <= j < p2 + 1 + space_len(t, hi, p2 + 1));
        } else if j < r1 {
            assert(r0 <= j < r0 + digit_len(t, hi, r0));
        } else if j < c1 {
            assert(r1 <= j < r1 + space_len(t, hi, r1));
        } else if j == c1 {
        } else if j < g0 {
            assert(c1 + 1 <= j < c1 + 1 + space_len(t, hi, c1 + 1));
        } else if j < g1 {
            assert(g0 <= j < g0 + digit_len(t, hi, g0));
        } else if j < c2 {
            assert(g1 <= j < g1 + space_len(t, hi, g1));
        } else if j == c2 {
        } else if j < b0 {
            assert(c2 + 1 <= j < c2 + 1 + space_len(t, hi, c2 + 1));
        } else if j < b1 {
            assert(b0 <= j < b0 + digit_len(t, hi, b0));
        } else if j < q {
            assert(b1 <= j < b1 + space_len(t, hi, b1));
        } else if j == q {
        } else if j < a0 {
            assert(q + 1 <= j < q + 1 + space_len(t, hi, q + 1));
        } else if j < a1 {
            assert(a0 <= j < a0 + number_len(t, hi, a0));
        } else if j < z {
            assert(a1 <= j < a1 + space_len(t, hi, a1));
        } else {
        }
    }
}

/// A hex literal of the line at `s`: `#`, then hex digits up to its end.
pub open spec fn hex_span_bytes(t: Seq<u8>, s: int, m: LiteralModel) -> bool {
    &&& t[s + m.start] == 35
    &&& forall|x: int| s + m.start < x < s + m.end ==> is_hex_digit(#[trigger] t[x])
}

/// An `rgb(..)` / `rgba(..)` literal of the line at `s`: `r`, then only the
/// bytes of its notation.
pub open spec fn rgb_span_bytes(t: Seq<u8>, s: int, m: LiteralModel) -> bool {
    &&& t[s + m.start] == 114
    &&& forall|x: int| s + m.start <= x < s + m.end ==> is_rgb_byte(#[trigger] t[x])
}

proof fn lemma_hex_scan_bytes(t: Seq<u8>, s: int, hi: int, k: nat, i: int)
    requires
        0 <= s <= i <= hi <= t.len(),
    ensures
        forall|a: int|
            0 <= a < hex_scan(t, s, hi, k, i).len() ==> hex_span_bytes(
                t,
                s,
                #[trigger] hex_scan(t, s, hi, k, i)[a],
            ),
    decreases hi - i,
{
    if i < hi {
        let n = hex_len_at(t, hi, i);
        if n > 0 {
            let e = i + 1 + n;
            lemma_hex_scan_bytes(t, s, hi, k, e);
            lemma_hex_run_digits(t, hi, i + 1);
            let rest = hex_scan(t, s, hi, k, e);
            match hex_digits_color(strip_hashes(t.subrange(i, e))) {
                Some(c) => {
                    let m = LiteralModel { line: k, start: i - s, end: e - s, value: c };
                    let r = seq![m] + rest;
                    assert(hex_span_bytes(t, s, m));
                    assert forall|a: int| 0 <= a < r.len() implies hex_span_bytes(
                        t,
                        s,
                        #[trigger] r[a],
                    ) by {
                        if a > 0 {
                            assert(r[a] == rest[a - 1]);
                        } else {
                            assert(r[a] == m);
                        }
                    }
                    assert(hex_scan(t, s, hi, k, i) == r);
                },
                None => {},
            }
        } else {
            lemma_hex_scan_bytes(t, s, hi, k, i + 1);
        }
    }
}

proof fn lemma_rgb_scan_bytes(t: Seq<u8>, s: int, hi: int, k: nat, i: int)
    requires
        0 <= s <= i <= hi <= t.len(),
    ensures
        forall|a: int|
            0 <= a < rgb_scan(t, s, hi, k, i).len() ==> rgb_span_bytes(
                t,
                s,
                #[trigger] rgb_scan(t, s, hi, k, i)[a],
            ),
    decreases hi - i,
{
    if i < hi {
        match rgb_match(t, hi, i) {
            Some((e, c)) => {
                if i < e <= hi {
                    lemma_rgb_scan_bytes(t, s, hi, k, e);
                    lemma_rgb_match_bytes(t, hi, i);
                    let rest = rgb_scan(t, s, hi, k, e);
                    let m = LiteralModel { line: k, start: i - s, end: e - s, value: c };
                    let r = seq![m] + rest;
                    assert(rgb_span_bytes(t, s, m));
                    assert forall|a: int| 0 <= a < r.len() implies rgb_span_bytes(
                        t,
                        s,
                        #[trigger] r[a],
                    ) by {
                        if a > 0 {
                            assert(r[a] == rest[a - 1]);
                        } else {
                            assert(r[a] == m);
                        }
                    }
                    assert(rgb_scan(t, s, hi, k, i) == r);
                }
            },
            None => {
                lemma_rgb_scan_bytes(t, s, hi, k, i + 1);
                assert(rgb_scan(t, s, hi, k, i) == rgb_scan(t, s, hi, k, i + 1));
            },
        }
    }
}

proof fn lemma_families_disjoint_at(t: Seq<u8>, s: int, hi: int, k: nat)
    requires
        0 <= s <= hi <= t.len(),
    ensures
        ({
            let h = hex_scan(t, s, hi, k, s);
            let g = rgb_scan(t, s, hi, k, s);
            forall|a: int, b: int|
                0 <= a < h.len() && 0 <= b < g.len() ==> (#[trigger] h[a]).end <= (#[trigger] g[
                    b]).start || g[b].end <= h[a].start
        }),
{
    let h = hex_scan(t, s, hi, k, s);
    let g = rgb_scan(t, s, hi, k, s);
    lemma_hex_scan_bytes(t, s, hi, k, s);
    lemma_rgb_scan_bytes(t, s, hi, k, s);
    lemma_hex_scan_in_order(t, s, hi, k, s);
    lemma_rgb_scan_in_order(t, s, hi, k, s);
    assert forall|a: int, b: int| 0 <= a < h.len() && 0 <= b < g.len() implies (#[trigger] h[
        a]).end <= (#[trigger] g[b]).start || g[b].end <= h[a].start by {
        let m1 = h[a];
        let m2 = g[b];
        assert(hex_span_bytes(t, s, m1));
        assert(rgb_span_bytes(t, s, m2));
        assert(m1.start < m1.end && m2.start < m2.end);
        if m1.start <= m2.start < m1.end {
            if m2.start > m1.start {
                assert(is_hex_digit(t[s + m2.start]));
            }
        } else if m2.start < m1.start < m2.end {
            assert(is_rgb_byte(t[s + m1.start]));
        }
    }
}

/// On one line, no hex literal overlaps an `rgb(..)` / `rgba(..)` literal.
pub proof fn lemma_line_families_disjoint(t: Seq<u8>, k: nat)
    requires
        has_line(t, k),
    ensures
        ({
            let s = line_start(t, k).unwrap();
            let hi = line_end(t, s);
            let h = hex_scan(t, s, hi, k, s);
            let g = rgb_scan(t, s, hi, k, s);
            forall|a: int, b: int|
                0 <= a < h.len() && 0 <= b < g.len() ==> (#[trigger] h[a]).end <= (#[trigger] g[
                    b]).start || g[b].end <= h[a].start
        }),
{
    let s = line_start(t, k).unwrap();
    lemma_line_start_bounds(t, k);
    lemma_newline_from_bounds(t, s);
    lemma_families_disjoint_at(t, s, line_end(t, s), k);
}

/// An id names one position only.
pub proof fn lemma_id_text_injective(l1: nat, c1: nat, l2: nat, c2: nat)
    requires
        id_text(l1, c1) == id_text(l2, c2),
    ensures
        l1 == l2,
        c1 == c2,
{
    lemma_dec_chars_digits(l1);
    lemma_dec_chars_digits(l2);
    let x = id_text(l1, c1);
    let y = id_text(l2, c2);
    let n1 = dec_chars(l1).len() as int;
    let n2 = dec_chars(l2).len() as int;
    assert(x[n1] == '_');
    assert(y[n2] == '_');
    if n1 < n2 {
        assert(y[n1] == dec_chars(l2)[n1]);
    } else if n2 < n1 {
        assert(x[n2] == dec_chars(l1)[n2]);
    }
    assert(n1 == n2);
    assert(dec_chars(l1) =~= x.subrange(0, n1));
    assert(dec_chars(l2) =~= y.subrange(0, n1));
    lemma_dec_chars_injective(l1, l2);
    assert(dec_chars(c1) =~= x.subrange(n1 + 1, x.len() as int));
    assert(dec_chars(c2) =~= y.subrange(n1 + 1, y.len() as int));
    lemma_dec_chars_injective(c1, c2);
}

/// No two literals of a list share a line and a start column.
pub open spec fn distinct_positions(r: Seq<LiteralModel>) -> bool {
    forall|a: int, b: int|
        0 <= a < b < r.len() ==> (#[trigger] r[a]).line != (#[trigger] r[b]).line || r[a].start
            != r[b].start
}

proof fn lemma_scan_lines_distinct(t: Seq<u8>, s: int, k: nat)
    requires
        0 <= s,
    ensures
        distinct_positions(scan_lines(t, s, k)),
    decreases t.len() - s,
{
    if s < t.len() {
        let hi = line_end(t, s);
        lemma_newline_from_bounds(t, s);
        lemma_families_disjoint_at(t, s, hi, k);
        lemma_hex_scan_in_order(t, s, hi, k, s);
        lemma_rgb_scan_in_order(t, s, hi, k, s);
        let h = hex_scan(t, s, hi, k, s);
        let g = rgb_scan(t, s, hi, k, s);
        let next = s + newline_dist(t, s) + 1;
        let rest = if next <= t.len() {
            scan_lines(t, next, k + 1)
        } else {
            Seq::empty()
        };
        if next <= t.len() {
            lemma_scan_lines_distinct(t, next, k + 1);
            lemma_scan_lines_in_order(t, next, k + 1);
        }
        let r = h + g + rest;
        assert(scan_lines(t, s, k) == r);
        let hg = h.len() + g.len();
        assert forall|a: int, b: int| 0 <= a < b < r.len() implies (#[trigger] r[a]).line != (
        #[trigger] r[b]).line || r[a].start != r[b].start by {
            if b < h.len() {
                assert(r[a] == h[a] && r[b] == h[b]);
            } else if b < hg {
                assert(r[b] == g[b - h.len()]);
                if a < h.len() {
                    assert(r[a] == h[a]);
                } else {
                    assert(r[a] == g[a - h.len()]);
                }
            } else if a < hg {
                assert(r[b] == rest[b - hg]);
                if a < h.len() {
                    assert(r[a] == h[a]);
                } else {
                    assert(r[a] == g[a - h.len()]);
                }
            } else {
                assert(r[a] == rest[a - hg] && r[b] == rest[b - hg]);
            }
        }
    }
}

/// The literals of one scan all have different ids.
pub proof fn lemma_scan_ids_unique(t: Seq<u8>, r: Seq<DetectedColor>)
    requires
        models(r) == scan_text(t),
        forall|j: int| 0 <= j < r.len() ==> (#[trigger] r[j]).agrees_with(t),
    ensures
        forall|a: int, b: int| 0 <= a < b < r.len() ==> (#[trigger] r[a]).id@ != (#[trigger] r[b]).id@,
{
    lemma_scan_lines_distinct(t, 0, 0);
    let m = scan_text(t);
    assert forall|a: int, b: int| 0 <= a < b < r.len() implies (#[trigger] r[a]).id@ != (
    #[trigger] r[b]).id@ by {
        assert(m[a] == r[a].model() && m[b] == r[b].model());
        assert(r[a].agrees_with(t) && r[b].agrees_with(t));
        if r[a].id@ == r[b].id@ {
            lemma_id_text_injective(
                r[a].line as nat,
                r[a].start_col as nat,
                r[b].line as nat,
                r[b].start_col as nat,
            );
        }
    }
}

/// The number of offsets in `[i, hi)` at which a hex literal starts.
pub open spec fn hex_starts(t: Seq<u8>, hi: int, i: int) -> nat
    decreases hi - i,
{
    if i >= hi {
        0
    } else {
        (if hex_len_at(t, hi, i) > 0 {
            1nat
        } else {
            0nat
        }) + hex_starts(t, hi, i + 1)
    }
}

/// The number of offsets in `[i, hi)` at which an `rgb(..)` / `rgba(..)` literal starts.
pub open spec fn rgb_starts(t: Seq<u8>, hi: int, i: int) -> nat
    decreases hi - i,
{
    if i >= hi {
        0
    } else {
        (if rgb_match(t, hi, i) is Some {
            1nat
        } else {
            0nat
        }) + rgb_starts(t, hi, i + 1)
    }
}

proof fn lemma_hex_starts_skip(t: Seq<u8>, hi: int, p: int, e: int)
    requires
        p <= e <= hi,
        forall|x: int| p <= x < e ==> t[x] != 35,
    ensures
        hex_starts(t, hi, p) == hex_starts(t, hi, e),
    decreases e - p,
{
    if p < e {
        lemma_hex_starts_skip(t, hi, p + 1, e);
    }
}

proof fn lemma_rgb_starts_skip(t: Seq<u8>, hi: int, p: int, e: int)
    requires
        p <= e <= hi,
        forall|x: int| p <= x < e ==> t[x] != 114,
    ensures
        rgb_starts(t, hi, p) == rgb_starts(t, hi, e),
    decreases e - p,
{
    reveal(rgb_match);
    if p < e {
        lemma_rgb_starts_skip(t, hi, p + 1, e);
    }
}

/// The scan of a line reports one hex literal for each offset at which one starts.
pub proof fn lemma_hex_scan_count(t: Seq<u8>, s: int, hi: int, k: nat, i: int)
    requires
        0 <= i <= hi <= t.len(),
    ensures
        hex_scan(t, s, hi, k, i).len() == hex_starts(t, hi, i),
    decreases hi - i,
{
    if i < hi {
        let n = hex_len_at(t, hi, i);
        if n > 0 {
            let e = i + 1 + n;
            lemma_hex_scan_count(t, s, hi, k, e);
            lemma_hex_literal_has_color(t, hi, i);
            lemma_hex_run_digits(t, hi, i + 1);
            lemma_hex_starts_skip(t, hi, i + 1, e);
        } else {
            lemma_hex_scan_count(t, s, hi, k, i + 1);
        }
    }
}

/// The scan of a line reports one `rgb(..)` / `rgba(..)` literal for each
/// offset at which one starts.
pub proof fn lemma_rgb_scan_count(t: Seq<u8>, s: int, hi: int, k: nat, i: int)
    requires
        0 <= i <= hi <= t.len(),
    ensures
        rgb_scan(t, s, hi, k, i).len() == rgb_starts(t, hi, i),
    decreases hi - i,
{
    if i < hi {
        match rgb_match(t, hi, i) {
            Some((e, c)) => {
                lemma_rgb_match_bytes(t, hi, i);
                lemma_rgb_scan_count(t, s, hi, k, e);
                lemma_rgb_starts_skip(t, hi, i + 1, e);
            },
            None => {
                lemma_rgb_scan_count(t, s, hi, k, i + 1);
            },
        }
    }
}

/// The number of literal starts in the lines of `t` from the one at `s` on.
pub open spec fn literal_starts(t: Seq<u8>, s: int) -> nat
    decreases t.len() - s,
{
    if s < 0 || s >= t.len() {
        0
    } else {
        let hi = line_end(t, s);
        let next = s + newline_dist(t, s) + 1;
        hex_starts(t, hi, s) + rgb_starts(t, hi, s) + if next <= t.len() {
            literal_starts(t, next)
        } else {
            0
        }
    }
}

proof fn lemma_scan_lines_count(t: Seq<u8>, s: int, k: nat)
    requires
        0 <= s,
    ensures
        scan_lines(t, s, k).len() == literal_starts(t, s),
    decreases t.len() - s,
{
    if s < t.len() {
        let hi = line_end(t, s);
        lemma_newline_from_bounds(t, s);
        lemma_hex_scan_count(t, s, hi, k, s);
        lemma_rgb_scan_count(t, s, hi, k, s);
        let next = s + newline_dist(t, s) + 1;
        if next <= t.len() {
            lemma_scan_lines_count(t, next, k + 1);
        }
    }
}

/// The scan reports exactly one literal for each place in `t` where a
/// well-formed literal starts: none is missed and none is reported twice.
pub proof fn lemma_scan_count(t: Seq<u8>)
    ensures
        scan_text(t).len() == literal_starts(t, 0),
{
    lemma_scan_lines_count(t, 0, 0);
}

/// The byte of `t` at which the literal `m` starts: `#` for a hex literal,
/// `r` for an `rgb(..)` / `rgba(..)` one.
pub open spec fn first_byte(t: Seq<u8>, m: LiteralModel) -> u8 {
    t[line_start(t, m.line).unwrap() + m.start]
}

/// Any two literals `a` before `b`: `a`'s line is not after `b`'s; on one
/// line their spans are disjoint, a hex literal never comes after an
/// `rgb(..)` / `rgba(..)` one, and two of the same kind stand left to right.
pub open spec fn scan_order(t: Seq<u8>, r: Seq<LiteralModel>) -> bool {
    forall|a: int, b: int|
        0 <= a < b < r.len() ==> {
            &&& (#[trigger] r[a]).line <= (#[trigger] r[b]).line
            &&& r[a].line == r[b].line ==> {
                &&& (r[a].end <= r[b].start || r[b].end <= r[a].start)
                &&& !(first_byte(t, r[a]) == 114 && first_byte(t, r[b]) == 35)
                &&& (first_byte(t, r[a]) == first_byte(t, r[b]) ==> r[a].end <= r[b].start)
            }
        }
}

proof fn lemma_scan_lines_order(t: Seq<u8>, s: int, k: nat)
    requires
        0 <= s,
        line_start(t, k) == Some(s),
    ensures
        scan_order(t, scan_lines(t, s, k)),
    decreases t.len() - s,
{
    if s < t.len() {
        let hi = line_end(t, s);
        lemma_newline_from_bounds(t, s);
        lemma_families_disjoint_at(t, s, hi, k);
        lemma_hex_scan_in_order(t, s, hi, k, s);
        lemma_rgb_scan_in_order(t, s, hi, k, s);
        lemma_hex_scan_bytes(t, s, hi, k, s);
        lemma_rgb_scan_bytes(t, s, hi, k, s);
        let h = hex_scan(t, s, hi, k, s);
        let g = rgb_scan(t, s, hi, k, s);
        let next = s + newline_dist(t, s) + 1;
        let rest = if next <= t.len() {
            scan_lines(t, next, k + 1)
        } else {
            Seq::empty()
        };
        if next <= t.len() {
            assert(line_start(t, k + 1) == Some(next));
            lemma_scan_lines_order(t, next, k + 1);
            lemma_scan_lines_in_order(t, next, k + 1);
        }
        let r = h + g + rest;
        assert(scan_lines(t, s, k) == r);
        let hg = h.len() + g.len();
        assert forall|a: int, b: int| 0 <= a < b < r.len() implies {
            &&& (#[trigger] r[a]).line <= (#[trigger] r[b]).line
            &&& r[a].line == r[b].line ==> {
                &&& (r[a].end <= r[b].start || r[b].end <= r[a].start)
                &&& !(first_byte(t, r[a]) == 114 && first_byte(t, r[b]) == 35)
                &&& (first_byte(t, r[a]) == first_byte(t, r[b]) ==> r[a].end <= r[b].start)
            }
        } by {
            if b < h.len() {
                assert(r[a] == h[a] && r[b] == h[b]);
                assert(h[a].start < h[a].end);
            } else if b < hg {
                assert(r[b] == g[b - h.len()]);
                assert(hex_span_bytes(t, s, r[a]) || rgb_span_bytes(t, s, r[a]));
                assert(rgb_span_bytes(t, s, r[b]));
                if a < h.len() {
                    assert(r[a] == h[a]);
                    assert(hex_span_bytes(t, s, r[a]));
                } else {
                    assert(r[a] == g[a - h.len()]);
                    assert(rgb_span_bytes(t, s, r[a]));
                    assert(g[a - h.len()].start < g[a - h.len()].end);
                }
            } else if a < hg {
                assert(r[b] == rest[b - hg]);
                if a < h.len() {
                    assert(r[a] == h[a]);
                } else {
                    assert(r[a] == g[a - h.len()]);
                }
            } else {
                assert(r[a] == rest[a - hg] && r[b] == rest[b - hg]);
            }
        }
    }
}

/// The order law of a scan, over the positions of its result.
pub proof fn lemma_scan_order(t: Seq<u8>)
    ensures
        scan_order(t, scan_text(t)),
{
    lemma_scan_lines_order(t, 0, 0);
}

} // verus!
