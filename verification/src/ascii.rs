//! Byte-level text primitives for the strict response grammar: ASCII
//! whitespace, trimming, case folding, and decimal numerals.
//!
//! The grammar is deliberately byte-oriented: header names and numerals in
//! the wire protocol are ASCII, and folding or trimming a byte sequence
//! leaves non-ASCII UTF-8 bytes (all `>= 0x80`) untouched.

use vstd::prelude::*;

verus! {

/// ASCII whitespace: space, tab, line feed, form feed, carriage return.
pub open spec fn is_ws(b: u8) -> bool {
    b == 32 || b == 9 || b == 10 || b == 12 || b == 13
}

/// An ASCII decimal digit.
pub open spec fn is_digit(b: u8) -> bool {
    48 <= b <= 57
}

/// Fold one byte to lower case; only ASCII `A`..`Z` change.
pub open spec fn lower_byte(b: u8) -> u8 {
    if 65 <= b <= 90 {
        (b + 32) as u8
    } else {
        b
    }
}

/// Fold a byte sequence to ASCII lower case.
pub open spec fn lower_of(s: Seq<u8>) -> Seq<u8> {
    s.map_values(|b: u8| lower_byte(b))
}

/// How many whitespace bytes prefix `s`.
pub open spec fn leading_ws(s: Seq<u8>) -> int
    decreases s.len(),
{
    if s.len() == 0 || !is_ws(s[0]) {
        0
    } else {
        1 + leading_ws(s.drop_first())
    }
}

/// How many whitespace bytes close `s`.
pub open spec fn trailing_ws(s: Seq<u8>) -> int
    decreases s.len(),
{
    if s.len() == 0 || !is_ws(s[s.len() - 1]) {
        0
    } else {
        1 + trailing_ws(s.drop_last())
    }
}

/// `s` with leading and trailing ASCII whitespace removed.
pub open spec fn trim_of(s: Seq<u8>) -> Seq<u8> {
    let from = leading_ws(s);
    if from == s.len() {
        Seq::empty()
    } else {
        s.subrange(from, s.len() - trailing_ws(s))
    }
}

proof fn lemma_leading_ws_bounds(s: Seq<u8>)
    ensures
        0 <= leading_ws(s) <= s.len(),
        forall|i: int| 0 <= i < leading_ws(s) ==> is_ws(s[i]),
        leading_ws(s) < s.len() ==> !is_ws(s[leading_ws(s)]),
    decreases s.len(),
{
    if s.len() == 0 || !is_ws(s[0]) {
    } else {
        lemma_leading_ws_bounds(s.drop_first());
        assert forall|i: int| 0 <= i < leading_ws(s) implies is_ws(s[i]) by {
            if i > 0 {
                assert(is_ws(s.drop_first()[i - 1]));
            }
        }
        if leading_ws(s) < s.len() {
            assert(!is_ws(s.drop_first()[leading_ws(s) - 1]));
        }
    }
}

proof fn lemma_trailing_ws_bounds(s: Seq<u8>)
    ensures
        0 <= trailing_ws(s) <= s.len(),
        forall|i: int| s.len() - trailing_ws(s) <= i < s.len() ==> is_ws(s[i]),
        trailing_ws(s) < s.len() ==> !is_ws(s[s.len() - trailing_ws(s) - 1]),
    decreases s.len(),
{
    if s.len() == 0 || !is_ws(s[s.len() - 1]) {
    } else {
        lemma_trailing_ws_bounds(s.drop_last());
        assert forall|i: int| s.len() - trailing_ws(s) <= i < s.len() implies is_ws(s[i]) by {
            if i < s.len() - 1 {
                assert(is_ws(s.drop_last()[i]));
            }
        }
        if trailing_ws(s) < s.len() {
            assert(!is_ws(s.drop_last()[s.len() - trailing_ws(s) - 1]));
        }
    }
}

/// When every byte of `s` is whitespace, the whole of `s` is its leading run.
proof fn lemma_leading_ws_all(s: Seq<u8>)
    requires
        forall|i: int| 0 <= i < s.len() ==> is_ws(s[i]),
    ensures
        leading_ws(s) == s.len(),
    decreases s.len(),
{
    if s.len() != 0 {
        lemma_leading_ws_all(s.drop_first());
    }
}

/// The leading run stops no later than the first non-whitespace byte.
proof fn lemma_leading_ws_le(s: Seq<u8>, i: int)
    requires
        0 <= i < s.len(),
        !is_ws(s[i]),
    ensures
        leading_ws(s) <= i,
    decreases s.len(),
{
    if s.len() != 0 && is_ws(s[0]) {
        lemma_leading_ws_le(s.drop_first(), i - 1);
    }
}

/// The trailing run stops no later than the last non-whitespace byte.
proof fn lemma_trailing_ws_le(s: Seq<u8>, i: int)
    requires
        0 <= i < s.len(),
        !is_ws(s[i]),
    ensures
        trailing_ws(s) <= s.len() - 1 - i,
    decreases s.len(),
{
    if s.len() != 0 && is_ws(s[s.len() - 1]) {
        lemma_trailing_ws_le(s.drop_last(), i);
    }
}

/// Is `b` ASCII whitespace?
pub fn is_ws_byte(b: u8) -> (r: bool)
    ensures
        r == is_ws(b),
{
    b == 32 || b == 9 || b == 10 || b == 12 || b == 13
}

/// Copy of `s` with leading and trailing ASCII whitespace removed.
pub fn trim_slice(s: &[u8]) -> (r: Vec<u8>)
    ensures
        r@ == trim_of(s@),
{
    proof {
        lemma_leading_ws_bounds(s@);
        lemma_trailing_ws_bounds(s@);
    }
    let n = s.len();
    let mut from: usize = 0;
    while from < n && is_ws_byte(s[from])
        invariant
            0 <= from <= n,
            n == s@.len(),
            forall|i: int| 0 <= i < from ==> is_ws(s@[i]),
        decreases n - from,
    {
        from = from + 1;
    }
    if from == n {
        proof {
            lemma_leading_ws_all(s@);
        }
        return Vec::new();
    }
    proof {
        lemma_leading_ws_le(s@, from as int);
        assert(leading_ws(s@) == from as int);
    }
    let mut upto: usize = n;
    while upto > from && is_ws_byte(s[upto - 1])
        invariant
            from <= upto <= n,
            n == s@.len(),
            from < n,
            !is_ws(s@[from as int]),
            forall|i: int| upto <= i < n ==> is_ws(s@[i]),
        decreases upto,
    {
        upto = upto - 1;
    }
    proof {
        lemma_trailing_ws_le(s@, from as int);
        assert(upto > from);
        assert(!is_ws(s@[upto - 1]));
        assert(trailing_ws(s@) == n - upto);
    }
    let mut r: Vec<u8> = Vec::new();
    let mut i: usize = from;
    while i < upto
        invariant
            from <= i <= upto <= n,
            n == s@.len(),
            r@ == s@.subrange(from as int, i as int),
        decreases upto - i,
    {
        r.push(s[i]);
        proof {
            assert(r@ == s@.subrange(from as int, i + 1));
        }
        i = i + 1;
    }
    proof {
        assert(r@ == trim_of(s@));
    }
    r
}

/// Copy of `s` folded to ASCII lower case.
pub fn lower_slice(s: &[u8]) -> (r: Vec<u8>)
    ensures
        r@ == lower_of(s@),
{
    let n = s.len();
    let mut r: Vec<u8> = Vec::new();
    let mut i: usize = 0;
    while i < n
        invariant
            0 <= i <= n,
            n == s@.len(),
            r@ == lower_of(s@.take(i as int)),
        decreases n - i,
    {
        let b = s[i];
        let f = if 65 <= b && b <= 90 {
            b + 32
        } else {
            b
        };
        r.push(f);
        proof {
            assert(lower_of(s@.take(i + 1)) == lower_of(s@.take(i as int)).push(lower_byte(s@[i as int])))
                by {
                assert(s@.take(i + 1).map_values(|b: u8| lower_byte(b)) =~= s@.take(
                    i as int,
                ).map_values(|b: u8| lower_byte(b)).push(lower_byte(s@[i as int])));
            }
        }
        i = i + 1;
    }
    proof {
        assert(s@.take(n as int) == s@);
    }
    r
}

/// The numeric value of a digit string, most significant digit first.
pub open spec fn dec_val(s: Seq<u8>) -> int
    decreases s.len(),
{
    if s.len() == 0 {
        0
    } else {
        dec_val(s.drop_last()) * 10 + (s.last() - 48)
    }
}

/// Does `s` consist of one or more ASCII digits?
pub open spec fn all_digits(s: Seq<u8>) -> bool {
    s.len() > 0 && forall|i: int| 0 <= i < s.len() ==> is_digit(s[i])
}

/// The digit part of a numeral: everything after an optional leading `+`.
pub open spec fn digits_part(s: Seq<u8>) -> Seq<u8> {
    if s.len() > 0 && s[0] == 43 {
        s.drop_first()
    } else {
        s
    }
}

/// The number a decimal numeral denotes, if `s` is one that fits in `usize`.
/// The grammar is that of `usize::from_str`: an optional leading `+`, then
/// one or more digits, and no value above `usize::MAX`.
pub open spec fn dec_usize(s: Seq<u8>) -> Option<usize> {
    if all_digits(digits_part(s)) && dec_val(digits_part(s)) <= usize::MAX {
        Some(dec_val(digits_part(s)) as usize)
    } else {
        None
    }
}

/// Parse an ASCII decimal numeral (optional leading `+`) into a `usize`,
/// rejecting anything else and any value that overflows.
pub fn parse_dec_usize(s: &[u8]) -> (r: Option<usize>)
    ensures
        r == dec_usize(s@),
{
    let n = s.len();
    let start: usize = if n > 0 && s[0] == 43 {
        1
    } else {
        0
    };
    let ghost digits: Seq<u8> = digits_part(s@);
    proof {
        assert(digits =~= s@.subrange(start as int, n as int));
    }
    if start == n {
        return None;
    }
    let mut acc: usize = 0;
    let mut i: usize = start;
    while i < n
        invariant
            start <= i <= n,
            n == s@.len(),
            start < n,
            digits == digits_part(s@),
            digits =~= s@.subrange(start as int, n as int),
            all_digits(digits.take(i - start)) || i == start,
            acc == dec_val(digits.take(i - start)),
        decreases n - i,
    {
        let b = s[i];
        if b < 48 || b > 57 {
            proof {
                assert(0 <= i - start < digits.len());
                assert(digits[i - start] == s@[i as int]);
                assert(!is_digit(digits[i - start]));
                assert(!all_digits(digits));
                assert(dec_usize(s@) is None);
            }
            return None;
        }
        let d = (b - 48) as usize;
        proof {
            assert(digits[i - start] == s@[i as int]);
        }
        let shifted = match acc.checked_mul(10) {
            Some(v) => v,
            None => {
                proof {
                    assert(acc * 10 > usize::MAX);
                    if all_digits(digits) {
                        lemma_dec_val_grows(digits, i - start);
                        assert(dec_val(digits) >= acc * 10 + (digits[i - start] - 48));
                        assert(dec_val(digits) > usize::MAX);
                    }
                    assert(dec_usize(s@) is None);
                }
                return None;
            },
        };
        let next = match shifted.checked_add(d) {
            Some(v) => v,
            None => {
                proof {
                    if all_digits(digits) {
                        lemma_dec_val_grows(digits, i - start);
                        assert(dec_val(digits) >= acc * 10 + (digits[i - start] - 48));
                        assert(dec_val(digits) > usize::MAX);
                    }
                }
                return None;
            },
        };
        proof {
            assert(digits.take(i - start + 1).drop_last() =~= digits.take(i - start));
            assert(digits.take(i - start + 1).last() == s@[i as int]);
        }
        acc = next;
        i = i + 1;
    }
    proof {
        assert(digits.take(n - start) =~= digits);
    }
    Some(acc)
}

/// A numeral is at least the value of any of its prefixes scaled past it:
/// once a prefix overflows, the whole numeral overflows.
proof fn lemma_dec_val_grows(s: Seq<u8>, i: int)
    requires
        0 <= i < s.len(),
        forall|j: int| 0 <= j < s.len() ==> is_digit(s[j]),
    ensures
        dec_val(s) >= dec_val(s.take(i)) * 10 + (s[i] - 48),
    decreases s.len() - i,
{
    if i == s.len() - 1 {
        assert(s.take(i) =~= s.drop_last());
    } else {
        lemma_dec_val_grows(s, i + 1);
        lemma_dec_val_nonneg(s.take(i + 1));
        assert(s.take(i + 1).drop_last() =~= s.take(i));
        assert(dec_val(s.take(i + 1)) == dec_val(s.take(i)) * 10 + (s[i] - 48));
        assert(dec_val(s) >= dec_val(s.take(i + 1)) * 10 + (s[i + 1] - 48));
        assert(dec_val(s.take(i + 1)) * 10 >= dec_val(s.take(i + 1))) by (nonlinear_arith)
            requires
                dec_val(s.take(i + 1)) >= 0,
        ;
    }
}

/// A digit string denotes a non-negative number.
proof fn lemma_dec_val_nonneg(s: Seq<u8>)
    requires
        forall|j: int| 0 <= j < s.len() ==> is_digit(s[j]),
    ensures
        dec_val(s) >= 0,
    decreases s.len(),
{
    if s.len() > 0 {
        lemma_dec_val_nonneg(s.drop_last());
        assert(dec_val(s.drop_last()) * 10 >= 0) by (nonlinear_arith)
            requires
                dec_val(s.drop_last()) >= 0,
        ;
    }
}

/// Are two byte sequences equal?
pub fn bytes_eq(a: &[u8], b: &[u8]) -> (r: bool)
    ensures
        r == (a@ == b@),
{
    if a.len() != b.len() {
        return false;
    }
    let n = a.len();
    let mut i: usize = 0;
    while i < n
        invariant
            0 <= i <= n,
            n == a@.len() == b@.len(),
            forall|j: int| 0 <= j < i ==> a@[j] == b@[j],
        decreases n - i,
    {
        if a[i] != b[i] {
            return false;
        }
        i = i + 1;
    }
    proof {
        assert(a@ =~= b@);
    }
    true
}

/// How many bytes of `s` come before the first occurrence of `b`
/// (all of `s` when `b` is absent).
pub open spec fn scan_to(s: Seq<u8>, b: u8) -> nat
    decreases s.len(),
{
    if s.len() == 0 || s[0] == b {
        0
    } else {
        1 + scan_to(s.drop_first(), b)
    }
}

pub proof fn lemma_scan_to_bounds(s: Seq<u8>, b: u8)
    ensures
        scan_to(s, b) <= s.len(),
        forall|i: int| 0 <= i < scan_to(s, b) ==> s[i] != b,
        scan_to(s, b) < s.len() ==> s[scan_to(s, b) as int] == b,
    decreases s.len(),
{
    if s.len() == 0 || s[0] == b {
    } else {
        lemma_scan_to_bounds(s.drop_first(), b);
        assert forall|i: int| 0 <= i < scan_to(s, b) implies s[i] != b by {
            if i > 0 {
                assert(s.drop_first()[i - 1] != b);
            }
        }
        if scan_to(s, b) < s.len() {
            assert(s.drop_first()[scan_to(s, b) - 1] == b);
        }
    }
}

/// The scan stops no later than any occurrence of `b`.
pub proof fn lemma_scan_to_le(s: Seq<u8>, b: u8, i: int)
    requires
        0 <= i < s.len(),
        s[i] == b,
    ensures
        scan_to(s, b) <= i,
    decreases s.len(),
{
    if s.len() != 0 && s[0] != b {
        lemma_scan_to_le(s.drop_first(), b, i - 1);
    }
}

/// Index of the first occurrence of `b` in `s` (the length when absent).
pub fn find_byte(s: &[u8], b: u8) -> (r: usize)
    ensures
        r == scan_to(s@, b),
{
    proof {
        lemma_scan_to_bounds(s@, b);
    }
    let n = s.len();
    let mut i: usize = 0;
    while i < n
        invariant
            0 <= i <= n,
            n == s@.len(),
            forall|j: int| 0 <= j < i ==> s@[j] != b,
        decreases n - i,
    {
        if s[i] == b {
            proof {
                lemma_scan_to_bounds(s@, b);
                lemma_scan_to_le(s@, b, i as int);
            }
            return i;
        }
        i = i + 1;
    }
    proof {
        lemma_scan_to_bounds(s@, b);
    }
    n
}

/// How many bytes of `s` come before the first ASCII whitespace byte
/// (all of `s` when none occurs).
pub open spec fn scan_to_ws(s: Seq<u8>) -> nat
    decreases s.len(),
{
    if s.len() == 0 || is_ws(s[0]) {
        0
    } else {
        1 + scan_to_ws(s.drop_first())
    }
}

pub proof fn lemma_scan_to_ws_bounds(s: Seq<u8>)
    ensures
        scan_to_ws(s) <= s.len(),
        forall|i: int| 0 <= i < scan_to_ws(s) ==> !is_ws(s[i]),
        scan_to_ws(s) < s.len() ==> is_ws(s[scan_to_ws(s) as int]),
    decreases s.len(),
{
    if s.len() == 0 || is_ws(s[0]) {
    } else {
        lemma_scan_to_ws_bounds(s.drop_first());
        assert forall|i: int| 0 <= i < scan_to_ws(s) implies !is_ws(s[i]) by {
            if i > 0 {
                assert(!is_ws(s.drop_first()[i - 1]));
            }
        }
        if scan_to_ws(s) < s.len() {
            assert(is_ws(s.drop_first()[scan_to_ws(s) - 1]));
        }
    }
}

/// The scan stops no later than any whitespace byte.
pub proof fn lemma_scan_to_ws_le(s: Seq<u8>, i: int)
    requires
        0 <= i < s.len(),
        is_ws(s[i]),
    ensures
        scan_to_ws(s) <= i,
    decreases s.len(),
{
    if s.len() != 0 && !is_ws(s[0]) {
        lemma_scan_to_ws_le(s.drop_first(), i - 1);
    }
}

/// Index of the first ASCII whitespace byte in `s` (the length when absent).
pub fn find_ws(s: &[u8]) -> (r: usize)
    ensures
        r == scan_to_ws(s@),
{
    proof {
        lemma_scan_to_ws_bounds(s@);
    }
    let n = s.len();
    let mut i: usize = 0;
    while i < n
        invariant
            0 <= i <= n,
            n == s@.len(),
            forall|j: int| 0 <= j < i ==> !is_ws(s@[j]),
        decreases n - i,
    {
        if is_ws_byte(s[i]) {
            proof {
                lemma_scan_to_ws_bounds(s@);
                lemma_scan_to_ws_le(s@, i as int);
            }
            return i;
        }
        i = i + 1;
    }
    proof {
        lemma_scan_to_ws_bounds(s@);
    }
    n
}

/// The number a decimal numeral denotes, if `s` is one that fits in `u16`;
/// the grammar of `u16::from_str`.
pub open spec fn dec_u16(s: Seq<u8>) -> Option<u16> {
    if all_digits(digits_part(s)) && dec_val(digits_part(s)) <= u16::MAX {
        Some(dec_val(digits_part(s)) as u16)
    } else {
        None
    }
}

/// Parse an ASCII decimal numeral (optional leading `+`) into a `u16`,
/// rejecting anything else and any value that overflows.
pub fn parse_dec_u16(s: &[u8]) -> (r: Option<u16>)
    ensures
        r == dec_u16(s@),
{
    proof {
        if all_digits(digits_part(s@)) {
            lemma_dec_val_nonneg(digits_part(s@));
        }
    }
    match parse_dec_usize(s) {
        Some(v) => {
            if v <= 65535 {
                Some(v as u16)
            } else {
                None
            }
        },
        None => None,
    }
}

/// Folding to lower case twice folds once.
pub proof fn lemma_lower_idempotent(s: Seq<u8>)
    ensures
        lower_of(lower_of(s)) == lower_of(s),
{
    assert(lower_of(lower_of(s)) =~= lower_of(s)) by {
        assert forall|i: int| 0 <= i < s.len() implies lower_of(lower_of(s))[i] == lower_of(s)[i] by {
            assert(lower_of(s)[i] == lower_byte(s[i]));
            assert(lower_of(lower_of(s))[i] == lower_byte(lower_byte(s[i])));
        }
    }
}

/// A line piece with a carriage return dropped from its end, as when the
/// line was closed by a CRLF ending.
pub open spec fn strip_cr(l: Seq<u8>) -> Seq<u8> {
    if l.len() > 0 && l.last() == 13 {
        l.drop_last()
    } else {
        l
    }
}

/// The first line of `s`: the bytes before the first line feed, with a
/// carriage return dropped when the line feed closed a CRLF ending; all of
/// `s`, kept as it stands, when no line feed occurs.
pub open spec fn first_line(s: Seq<u8>) -> Seq<u8> {
    if scan_to(s, 10) >= s.len() {
        s
    } else {
        strip_cr(s.take(scan_to(s, 10) as int))
    }
}

/// Everything after the first line of `s` (empty when `s` has no line feed).
pub open spec fn rest_lines(s: Seq<u8>) -> Seq<u8> {
    if scan_to(s, 10) >= s.len() {
        Seq::empty()
    } else {
        s.skip(scan_to(s, 10) as int + 1)
    }
}

/// Split `s` into its first line and the rest.
pub fn split_first_line<'a>(s: &'a [u8]) -> (r: (&'a [u8], &'a [u8]))
    ensures
        r.0@ == first_line(s@),
        r.1@ == rest_lines(s@),
{
    proof {
        lemma_scan_to_bounds(s@, 10);
    }
    let n = s.len();
    let nl = find_byte(s, 10);
    if nl == n {
        let empty: &[u8] = &s[0..0];
        proof {
            assert(empty@ =~= rest_lines(s@));
        }
        (s, empty)
    } else {
        let line: &'a [u8] = if nl > 0 && s[nl - 1] == 13 {
            &s[0..nl - 1]
        } else {
            &s[0..nl]
        };
        let rest: &'a [u8] = &s[nl + 1..n];
        proof {
            let piece = s@.take(nl as int);
            if nl > 0 && s@[nl - 1] == 13 {
                assert(piece.len() > 0 && piece.last() == 13);
                assert(line@ =~= piece.drop_last());
            } else {
                if piece.len() > 0 {
                    assert(piece.last() == s@[nl - 1]);
                }
                assert(line@ =~= piece);
            }
            assert(rest@ =~= rest_lines(s@));
        }
        (line, rest)
    }
}

} // verus!
