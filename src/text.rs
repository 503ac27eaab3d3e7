//! Byte-level text model: lines, decimal numbers, and slicing at ASCII bytes.
use vstd::prelude::*;
use vstd::string::*;
use vstd::utf8::*;

verus! {

broadcast use group_utf8_lib;

pub open spec fn is_dec_digit(b: u8) -> bool {
    48 <= b <= 57
}

/// The value of a run of decimal digits.
pub open spec fn dec_value(s: Seq<u8>) -> nat
    decreases s.len(),
{
    if s.len() == 0 {
        0
    } else {
        dec_value(s.drop_last()) * 10 + (s.last() - 48) as nat
    }
}

pub open spec fn pow10(n: nat) -> nat
    decreases n,
{
    if n == 0 {
        1
    } else {
        10 * pow10((n - 1) as nat)
    }
}

pub open spec fn dec_chars_table() -> Seq<char> {
    seq!['0', '1', '2', '3', '4', '5', '6', '7', '8', '9']
}

/// The decimal notation of `n`, without leading zeros.
pub open spec fn dec_chars(n: nat) -> Seq<char>
    decreases n,
{
    if n < 10 {
        seq![dec_chars_table()[n as int]]
    } else {
        dec_chars(n / 10).push(dec_chars_table()[(n % 10) as int])
    }
}

/// Number of bytes from `i` up to the first `\n` at or after it (or the end).
pub open spec fn newline_dist(t: Seq<u8>, i: int) -> nat
    decreases t.len() - i,
{
    if i < 0 || i >= t.len() || t[i] == 10 {
        0
    } else {
        1 + newline_dist(t, i + 1)
    }
}

/// Index of the first `\n` at or after `i`, or the length of `t`.
pub open spec fn newline_from(t: Seq<u8>, i: int) -> int {
    if i < 0 || i >= t.len() {
        t.len() as int
    } else {
        i + newline_dist(t, i)
    }
}

/// End of the line that starts at `s`: before its `\n`, and before a `\r`
/// that stands just ahead of that `\n`.
pub open spec fn line_end(t: Seq<u8>, s: int) -> int {
    let e = newline_from(t, s);
    if e < t.len() && e > s && t[e - 1] == 13 {
        e - 1
    } else {
        e
    }
}

/// Offset of the first byte after the `k`-th `\n`; `None` where `t` has fewer.
pub open spec fn line_start(t: Seq<u8>, k: nat) -> Option<int>
    decreases k,
{
    if k == 0 {
        Some(0)
    } else {
        match line_start(t, (k - 1) as nat) {
            Some(s) => {
                let e = newline_from(t, s);
                if e < t.len() {
                    Some(e + 1)
                } else {
                    None
                }
            },
            None => None,
        }
    }
}

/// Whether `t` has a line `k`; an empty piece after a final `\n` is no line.
pub open spec fn has_line(t: Seq<u8>, k: nat) -> bool {
    match line_start(t, k) {
        Some(s) => s < t.len(),
        None => false,
    }
}

/// The bytes of line `k`, without its line ending.
pub open spec fn line_bytes(t: Seq<u8>, k: nat) -> Seq<u8> {
    let s = line_start(t, k).unwrap();
    t.subrange(s, line_end(t, s))
}

proof fn lemma_newline_dist(t: Seq<u8>, i: int)
    requires
        0 <= i <= t.len(),
    ensures
        i + newline_dist(t, i) <= t.len(),
        i + newline_dist(t, i) < t.len() ==> t[i + newline_dist(t, i)] == 10,
        forall|j: int| i <= j < i + newline_dist(t, i) ==> t[j] != 10,
    decreases t.len() - i,
{
    if i < t.len() && t[i] != 10 {
        lemma_newline_dist(t, i + 1);
    }
}

pub proof fn lemma_newline_from_bounds(t: Seq<u8>, i: int)
    requires
        0 <= i,
    ensures
        newline_from(t, i) <= t.len(),
        i <= t.len() ==> i <= newline_from(t, i),
        newline_from(t, i) < t.len() ==> t[newline_from(t, i)] == 10,
        forall|j: int| i <= j < newline_from(t, i) ==> t[j] != 10,
        i < t.len() && t[i] != 10 ==> newline_from(t, i) == newline_from(t, i + 1),
{
    if i <= t.len() {
        lemma_newline_dist(t, i);
    }
}

pub proof fn lemma_line_start_bounds(t: Seq<u8>, k: nat)
    ensures
        line_start(t, k) matches Some(s) ==> 0 <= s <= t.len(),
    decreases k,
{
    if k > 0 {
        lemma_line_start_bounds(t, (k - 1) as nat);
        if let Some(s) = line_start(t, (k - 1) as nat) {
            lemma_newline_from_bounds(t, s);
        }
    }
}

/// In valid UTF-8, the byte after an ASCII byte that starts a character
/// starts a character too.
pub proof fn lemma_boundary_after_ascii(b: Seq<u8>, j: int)
    requires
        valid_utf8(b),
        0 <= j < b.len(),
        b[j] < 128,
        is_char_boundary(b, j),
    ensures
        is_char_boundary(b, j + 1),
    decreases b.len(),
{
    reveal_with_fuel(is_char_boundary, 2);
    if j > 0 {
        let l = length_of_first_scalar(b);
        let p = pop_first_scalar(b);
        assert(p[j - l] == b[j]);
        lemma_boundary_after_ascii(p, j - l);
    }
}

/// Every ASCII byte of a valid UTF-8 text starts a character, and so does
/// the byte after it.
pub proof fn lemma_ascii_boundaries(b: Seq<u8>, j: int)
    requires
        valid_utf8(b),
        0 <= j < b.len(),
        b[j] < 128,
    ensures
        is_char_boundary(b, j),
        is_char_boundary(b, j + 1),
{
    assert(!is_continuation_byte(b[j]));
    lemma_boundary_after_ascii(b, j);
}

/// The part of `s` between the byte offsets `lo` and `hi`.
pub fn slice_between<'a>(s: &'a str, lo: usize, hi: usize) -> (r: &'a str)
    requires
        lo <= hi <= s.spec_bytes().len(),
        is_char_boundary(s.spec_bytes(), lo as int),
        is_char_boundary(s.spec_bytes(), hi as int),
    ensures
        r.spec_bytes() == s.spec_bytes().subrange(lo as int, hi as int),
{
    let ghost t = s.spec_bytes();
    let (pre, _) = s.split_at(hi);
    proof {
        let p = t.subrange(0, hi as int);
        assert(p.subrange(0, lo as int) =~= t.subrange(0, lo as int));
        assert(valid_utf8(t.subrange(0, lo as int)));
        assert(is_char_boundary(p, lo as int)) by {
            if lo < hi {
                assert(p[lo as int] == t[lo as int]);
                if lo > 0 {
                    assert(!is_continuation_byte(t[lo as int]));
                }
            } else {
                is_char_boundary_start_end_of_seq(p);
            }
        }
    }
    let (_, r) = pre.split_at(lo);
    proof {
        assert(r.spec_bytes() =~= t.subrange(lo as int, hi as int));
    }
    r
}

/// A one-character string holding the decimal digit `n`.
pub fn dec_digit_str(n: usize) -> (s: &'static str)
    requires
        n < 10,
    ensures
        s@ == seq![dec_chars_table()[n as int]],
{
    proof {
        reveal_strlit("0");
        reveal_strlit("1");
        reveal_strlit("2");
        reveal_strlit("3");
        reveal_strlit("4");
        reveal_strlit("5");
        reveal_strlit("6");
        reveal_strlit("7");
        reveal_strlit("8");
        reveal_strlit("9");
    }
    let s = match n {
        0 => "0",
        1 => "1",
        2 => "2",
        3 => "3",
        4 => "4",
        5 => "5",
        6 => "6",
        7 => "7",
        8 => "8",
        _ => "9",
    };
    assert(s@ =~= seq![dec_chars_table()[n as int]]);
    s
}

/// Appends the decimal notation of `n`.
pub fn push_decimal(s: &mut String, n: usize)
    ensures
        final(s)@ == old(s)@ + dec_chars(n as nat),
    decreases n,
{
    if n >= 10 {
        push_decimal(s, n / 10);
    }
    s.append(dec_digit_str(n % 10));
    assert(final(s)@ =~= old(s)@ + dec_chars(n as nat));
}

/// The decimal notation is made of digits only and is never empty.
pub proof fn lemma_dec_chars_digits(n: nat)
    ensures
        dec_chars(n).len() >= 1,
        forall|i: int| 0 <= i < dec_chars(n).len() ==> '0' <= #[trigger] dec_chars(n)[i] <= '9',
    decreases n,
{
    if n >= 10 {
        lemma_dec_chars_digits(n / 10);
        let p = dec_chars(n / 10);
        assert forall|i: int| 0 <= i < dec_chars(n).len() implies '0' <= #[trigger] dec_chars(n)[i]
            <= '9' by {
            if i < p.len() {
                assert(dec_chars(n)[i] == p[i]);
            }
        }
    }
}

/// Two numbers with the same decimal notation are equal.
pub proof fn lemma_dec_chars_injective(a: nat, b: nat)
    requires
        dec_chars(a) == dec_chars(b),
    ensures
        a == b,
    decreases a,
{
    lemma_dec_chars_digits(a / 10);
    lemma_dec_chars_digits(b / 10);
    let da = dec_chars(a);
    if a < 10 && b < 10 {
        assert(da[0] == dec_chars_table()[a as int]);
        assert(dec_chars(b)[0] == dec_chars_table()[b as int]);
    } else if a >= 10 && b >= 10 {
        assert(da.last() == dec_chars_table()[(a % 10) as int]);
        assert(dec_chars(b).last() == dec_chars_table()[(b % 10) as int]);
        assert(a % 10 == b % 10);
        assert(dec_chars(a / 10) =~= da.drop_last());
        assert(dec_chars(b / 10) =~= dec_chars(b).drop_last());
        lemma_dec_chars_injective(a / 10, b / 10);
    } else {
        assert(da.len() != dec_chars(b).len());
    }
}

} // verus!
