//! Number parsing and extraction from ASCII bytes.
use vstd::prelude::*;
use crate::text;

pub mod integer;

pub use integer::Integer;

verus! {

/// Kind of parse error.
#[derive(Debug, Clone, Copy, PartialEq, Eq, Structural)]
pub enum ParseErrorKind {
    /// Input is empty.
    Empty,
    /// Found a non-digit character.
    InvalidDigit,
    /// Number is too large for the target type.
    Overflow,
    /// Invalid float format.
    InvalidFloat,
}

/// Error when parsing a number from bytes.
#[derive(Debug, Clone, Copy, PartialEq, Eq, Structural)]
pub struct ParseError {
    /// Kind of error.
    pub kind: ParseErrorKind,
    /// Byte position where the error occurred.
    pub position: usize,
}

/// Kind of number detected.
#[derive(Debug, Clone, Copy, PartialEq, Eq, Structural)]
pub enum NumberKind {
    /// An integer (sequence of digits, optional sign).
    Integer,
    /// A float (digits with decimal point and/or exponent).
    Float,
    /// A hexadecimal number (0x prefix).
    Hex,
}

/// A span in the input where a number was found.
#[derive(Debug, Clone, Copy, PartialEq, Eq, Structural)]
pub struct NumberSpan {
    /// Byte offset of the start of the number.
    pub offset: usize,
    /// Length in bytes.
    pub len: usize,
    /// Kind of number detected.
    pub kind: NumberKind,
}

/// An ASCII decimal digit.
pub open spec fn is_digit(b: u8) -> bool {
    48 <= b <= 57
}

/// An ASCII hexadecimal digit, in either case.
pub open spec fn is_hex(b: u8) -> bool {
    is_digit(b) || (97 <= b <= 102) || (65 <= b <= 70)
}

/// `+` or `-`.
pub open spec fn is_sign(b: u8) -> bool {
    b == 43 || b == 45
}

/// `x` or `X`.
pub open spec fn is_hex_marker(b: u8) -> bool {
    b == 120 || b == 88
}

/// `e` or `E`.
pub open spec fn is_exp_marker(b: u8) -> bool {
    b == 101 || b == 69
}

/// The decimal-digit predicate as a value.
pub open spec fn digit_pred() -> spec_fn(u8) -> bool {
    |b: u8| is_digit(b)
}

/// The hexadecimal-digit predicate as a value.
pub open spec fn hex_pred() -> spec_fn(u8) -> bool {
    |b: u8| is_hex(b)
}

/// The end of the longest run of bytes satisfying `p` that starts at `j`.
pub open spec fn run_end(s: Seq<u8>, j: int, p: spec_fn(u8) -> bool) -> int
    decreases s.len() - j,
{
    if j < 0 || j >= s.len() || !p(s[j]) {
        j
    } else {
        run_end(s, j + 1, p)
    }
}

/// A number can start at `i`: a digit, or a sign followed by a digit.
pub open spec fn number_start(s: Seq<u8>, i: int) -> bool {
    is_digit(s[i]) || (is_sign(s[i]) && i + 1 < s.len() && is_digit(s[i + 1]))
}

/// A hexadecimal number starts at `i`: `0x` or `0X` and a hex digit.
pub open spec fn hex_start(s: Seq<u8>, i: int) -> bool {
    i + 2 < s.len() && s[i] == 48 && is_hex_marker(s[i + 1]) && is_hex(s[i + 2])
}

/// A span from its bounds and kind.
pub open spec fn span(start: int, end: int, kind: NumberKind) -> NumberSpan {
    NumberSpan { offset: start as usize, len: (end - start) as usize, kind }
}

/// The end of the decimal part of a number whose integer digits end at
/// `int_end`: a `.` followed by at least one digit, and the digits after it.
pub open spec fn fraction_end(s: Seq<u8>, int_end: int) -> int {
    if int_end + 1 < s.len() && s[int_end] == 46 && is_digit(s[int_end + 1]) {
        run_end(s, int_end + 1, digit_pred())
    } else {
        int_end
    }
}

/// The end of an exponent that may follow at `at`: `e` or `E`, an optional
/// sign, and at least one digit; `at` itself when there is no exponent.
pub open spec fn exponent_end(s: Seq<u8>, at: int) -> int {
    if at < s.len() && is_exp_marker(s[at]) {
        let q = if at + 1 < s.len() && is_sign(s[at + 1]) {
            at + 2
        } else {
            at + 1
        };
        if q < s.len() && is_digit(s[q]) {
            run_end(s, q, digit_pred())
        } else {
            at
        }
    } else {
        at
    }
}

/// The token that scanning meets at `i`: the number found there, if any,
/// and where scanning goes on.
///
/// At `0x`/`0X` followed by a hex digit, a hexadecimal number is read.
/// Otherwise a decimal number is read (so a `0` before an `x` that no hex
/// digit follows is an integer): optional sign, digits, an optional fraction
/// and an optional exponent; it is a float when it has either.
pub open spec fn token_at(s: Seq<u8>, i: int) -> (Option<NumberSpan>, int) {
    if !number_start(s, i) {
        (None, i + 1)
    } else if hex_start(s, i) {
        let e = run_end(s, i + 2, hex_pred());
        (Some(span(i, e, NumberKind::Hex)), e)
    } else {
        let p = if is_sign(s[i]) {
            i + 1
        } else {
            i
        };
        let int_end = run_end(s, p, digit_pred());
        let frac_end = fraction_end(s, int_end);
        let end = exponent_end(s, frac_end);
        let kind = if frac_end > int_end || end > frac_end {
            NumberKind::Float
        } else {
            NumberKind::Integer
        };
        (Some(span(i, end, kind)), end)
    }
}

/// A run ends at or after its start, and at most at the end of `s`; every
/// byte inside it satisfies `p`, and the byte at its end (if any) does not.
pub proof fn lemma_run_end(s: Seq<u8>, j: int, p: spec_fn(u8) -> bool)
    requires
        0 <= j <= s.len(),
    ensures
        j <= run_end(s, j, p) <= s.len(),
        forall|k: int| j <= k < run_end(s, j, p) ==> p(#[trigger] s[k]),
        run_end(s, j, p) < s.len() ==> !p(s[run_end(s, j, p)]),
    decreases s.len() - j,
{
    if j < s.len() && p(s[j]) {
        lemma_run_end(s, j + 1, p);
    }
}

/// Scanning always moves forward, and stays within the input.
pub proof fn lemma_token_progress(s: Seq<u8>, i: int)
    requires
        0 <= i < s.len(),
    ensures
        i < token_at(s, i).1 <= s.len(),
{
    if number_start(s, i) {
        if hex_start(s, i) {
            lemma_run_end(s, i + 2, hex_pred());
        } else {
            let p = if is_sign(s[i]) {
                i + 1
            } else {
                i
            };
            lemma_run_end(s, p, digit_pred());
            let int_end = run_end(s, p, digit_pred());
            if int_end + 1 < s.len() && s[int_end] == 46 && is_digit(s[int_end + 1]) {
                lemma_run_end(s, int_end + 1, digit_pred());
            }
            let frac_end = fraction_end(s, int_end);
            if frac_end < s.len() && is_exp_marker(s[frac_end]) {
                let q = if frac_end + 1 < s.len() && is_sign(s[frac_end + 1]) {
                    frac_end + 2
                } else {
                    frac_end + 1
                };
                if q < s.len() && is_digit(s[q]) {
                    lemma_run_end(s, q, digit_pred());
                }
            }
        }
    }
}

/// The numbers found by scanning `s` from `i` to its end.
pub open spec fn extract_from(s: Seq<u8>, i: int) -> Seq<NumberSpan>
    decreases s.len() - i,
{
    if i < 0 || i >= s.len() {
        Seq::empty()
    } else {
        proof {
            lemma_token_progress(s, i);
        }
        let (t, next) = token_at(s, i);
        match t {
            Some(sp) => seq![sp] + extract_from(s, next),
            None => extract_from(s, next),
        }
    }
}

/// All the numbers in `s`, in order of appearance.
pub open spec fn extract_spec(s: Seq<u8>) -> Seq<NumberSpan> {
    extract_from(s, 0)
}

/// What the bytes of a reported number look like: a hexadecimal number is
/// `0x` or `0X` and at least one hex digit; an integer is an optional sign
/// and digits; a float is made of digits, signs, `.`, `e` and `E`, holds a
/// `.` or an exponent marker, starts with a sign or a digit and ends with a
/// digit. No number stops short: none is followed by another digit of its
/// kind.
pub open spec fn span_shape(s: Seq<u8>, sp: NumberSpan) -> bool {
    let a = sp.offset as int;
    let e = a + sp.len;
    &&& sp.len >= 1
    &&& e <= s.len()
    &&& match sp.kind {
        NumberKind::Hex => {
            &&& sp.len >= 3
            &&& s[a] == 48
            &&& is_hex_marker(s[a + 1])
            &&& forall|j: int| a + 2 <= j < e ==> is_hex(#[trigger] s[j])
            &&& (e == s.len() || !is_hex(s[e]))
        },
        NumberKind::Integer => {
            &&& is_digit(s[e - 1])
            &&& forall|j: int| a <= j < e ==> is_digit(#[trigger] s[j]) || (j == a && is_sign(s[j]))
            &&& (e == s.len() || !is_digit(s[e]))
        },
        NumberKind::Float => {
            &&& is_digit(s[e - 1])
            &&& (is_digit(s[a]) || is_sign(s[a]))
            &&& forall|j: int|
                a <= j < e ==> is_digit(#[trigger] s[j]) || is_sign(s[j]) || s[j] == 46
                    || is_exp_marker(s[j])
            &&& exists|j: int| a <= j < e && (s[j] == 46 || is_exp_marker(#[trigger] s[j]))
            &&& (e == s.len() || !is_digit(s[e]))
        },
    }
}

proof fn lemma_token_shape(s: Seq<u8>, i: int)
    requires
        0 <= i < s.len() <= usize::MAX,
    ensures
        token_at(s, i).0 matches Some(sp) ==> sp.offset == i && span_shape(s, sp) && i + sp.len
            == token_at(s, i).1,
{
    if number_start(s, i) {
        if hex_start(s, i) {
            lemma_run_end(s, i + 2, hex_pred());
            let e = run_end(s, i + 2, hex_pred());
            assert((hex_pred())(s[i + 2]));
            let sp = span(i, e, NumberKind::Hex);
            assert(sp.offset == i && sp.len == e - i);
            assert forall|j: int| i + 2 <= j < e implies is_hex(#[trigger] s[j]) by {
                assert((hex_pred())(s[j]));
            }
            if e < s.len() {
                assert(!(hex_pred())(s[e]));
            }
        } else {
            lemma_decimal_shape(s, i);
        }
    }
}

proof fn lemma_decimal_shape(s: Seq<u8>, i: int)
    requires
        0 <= i < s.len() <= usize::MAX,
        number_start(s, i),
        !hex_start(s, i),
    ensures
        token_at(s, i).0 matches Some(sp) ==> sp.offset == i && span_shape(s, sp) && i + sp.len
            == token_at(s, i).1,
{
    let p = if is_sign(s[i]) {
        i + 1
    } else {
        i
    };
    lemma_run_end(s, p, digit_pred());
    let int_end = run_end(s, p, digit_pred());
    let frac_end = fraction_end(s, int_end);
    let has_frac = int_end + 1 < s.len() && s[int_end] == 46 && is_digit(s[int_end + 1]);
    if has_frac {
        lemma_run_end(s, int_end + 1, digit_pred());
    }
    let end = exponent_end(s, frac_end);
    let has_exp = frac_end < s.len() && is_exp_marker(s[frac_end]);
    let q = if frac_end + 1 < s.len() && is_sign(s[frac_end + 1]) {
        frac_end + 2
    } else {
        frac_end + 1
    };
    let exp_digits = has_exp && q < s.len() && is_digit(s[q]);
    if exp_digits {
        lemma_run_end(s, q, digit_pred());
    }
    assert(int_end > p);
    assert(frac_end >= int_end);
    assert(end >= frac_end);
    assert(is_digit(s[end - 1])) by {
        if end > frac_end {
            assert((digit_pred())(s[end - 1]));
        } else if frac_end > int_end {
            assert((digit_pred())(s[frac_end - 1]));
        } else {
            assert((digit_pred())(s[int_end - 1]));
        }
    }
    let kind = if frac_end > int_end || end > frac_end {
        NumberKind::Float
    } else {
        NumberKind::Integer
    };
    assert(end == s.len() || !is_digit(s[end])) by {
        if end > frac_end {
            assert(end == run_end(s, q, digit_pred()));
            if end < s.len() {
                assert(!(digit_pred())(s[end]));
            }
        } else if frac_end > int_end {
            if end < s.len() {
                assert(!(digit_pred())(s[frac_end]));
            }
        } else {
            if end < s.len() {
                assert(!(digit_pred())(s[int_end]));
            }
        }
    }
    if frac_end > int_end {
        assert(i <= int_end < end && s[int_end] == 46);
    } else if end > frac_end {
        assert(i <= frac_end < end && is_exp_marker(s[frac_end]));
    }
    let sp = span(i, end, kind);
    assert(token_at(s, i).0 == Some(sp));
    assert(sp.offset == i && sp.len == end - i);
    assert forall|j: int| i <= j < end implies is_digit(#[trigger] s[j]) || is_sign(s[j]) || s[j]
        == 46 || is_exp_marker(s[j]) by {
        if p <= j < int_end {
            assert((digit_pred())(s[j]));
        } else if int_end + 1 <= j < frac_end {
            assert((digit_pred())(s[j]));
        } else if q <= j < end && exp_digits {
            assert((digit_pred())(s[j]));
        }
    }
    if kind == NumberKind::Integer {
        assert forall|j: int| i <= j < end implies is_digit(#[trigger] s[j]) || (j == i && is_sign(
            s[j],
        )) by {
            if p <= j < int_end {
                assert((digit_pred())(s[j]));
            }
        }
    }
}

/// The numbers found are in order of appearance, do not overlap, lie within
/// the input and have the shape of their kind.
pub proof fn lemma_extract_spans(s: Seq<u8>, i: int)
    requires
        0 <= i,
        s.len() <= usize::MAX,
    ensures
        forall|k: int|
            0 <= k < extract_from(s, i).len() ==> i <= (#[trigger] extract_from(s, i)[k]).offset
                && span_shape(s, extract_from(s, i)[k]),
        forall|k: int|
            0 < k < extract_from(s, i).len() ==> extract_from(s, i)[k - 1].offset + extract_from(
                s,
                i,
            )[k - 1].len <= (#[trigger] extract_from(s, i)[k]).offset,
    decreases s.len() - i,
{
    if i < s.len() {
        lemma_token_progress(s, i);
        lemma_token_shape(s, i);
        let (t, next) = token_at(s, i);
        lemma_extract_spans(s, next);
        let rest = extract_from(s, next);
        let all = extract_from(s, i);
        match t {
            Some(sp) => {
                assert(all == seq![sp] + rest);
                assert forall|k: int| 0 <= k < all.len() implies i <= (#[trigger] all[k]).offset
                    && span_shape(s, all[k]) by {
                    if k > 0 {
                        assert(all[k] == rest[k - 1]);
                    }
                }
                assert forall|k: int| 0 < k < all.len() implies all[k - 1].offset + all[k
                    - 1].len <= (#[trigger] all[k]).offset by {
                    assert(all[k] == rest[k - 1]);
                    if k > 1 {
                        assert(all[k - 1] == rest[k - 2]);
                    }
                }
            },
            None => {
                assert(all == rest);
            },
        }
    }
}

/// Every decimal digit of the input lies inside one of the numbers found,
/// and so does every `+` or `-` directly followed by a digit: scanning from
/// `i` leaves no digit at or after `i` out, and a sign before a digit is
/// always read as part of the number.
pub proof fn lemma_extract_covers_digits(s: Seq<u8>, i: int)
    requires
        0 <= i,
        s.len() <= usize::MAX,
    ensures
        forall|j: int|
            i <= j < s.len() && is_digit(#[trigger] s[j]) ==> exists|k: int|
                0 <= k < extract_from(s, i).len() && (#[trigger] extract_from(s, i)[k]).offset <= j
                    < extract_from(s, i)[k].offset + extract_from(s, i)[k].len,
        forall|j: int|
            i <= j && j + 1 < s.len() && is_sign(#[trigger] s[j]) && is_digit(s[j + 1]) ==> exists|
                k: int,
            |
                0 <= k < extract_from(s, i).len() && (#[trigger] extract_from(s, i)[k]).offset <= j
                    < extract_from(s, i)[k].offset + extract_from(s, i)[k].len,
{
    lemma_extract_covers_starts(s, i);
    assert forall|j: int| i <= j < s.len() && is_digit(#[trigger] s[j]) implies exists|k: int|
        0 <= k < extract_from(s, i).len() && (#[trigger] extract_from(s, i)[k]).offset <= j
            < extract_from(s, i)[k].offset + extract_from(s, i)[k].len by {
        assert(number_start(s, j));
    }
    assert forall|j: int| i <= j && j + 1 < s.len() && is_sign(#[trigger] s[j]) && is_digit(s[j + 1])
        implies exists|k: int|
        0 <= k < extract_from(s, i).len() && (#[trigger] extract_from(s, i)[k]).offset <= j
            < extract_from(s, i)[k].offset + extract_from(s, i)[k].len by {
        assert(number_start(s, j));
    }
}

proof fn lemma_extract_covers_starts(s: Seq<u8>, i: int)
    requires
        0 <= i,
        s.len() <= usize::MAX,
    ensures
        forall|j: int|
            i <= j < s.len() && #[trigger] number_start(s, j) ==> exists|k: int|
                0 <= k < extract_from(s, i).len() && (#[trigger] extract_from(s, i)[k]).offset <= j
                    < extract_from(s, i)[k].offset + extract_from(s, i)[k].len,
    decreases s.len() - i,
{
    if i < s.len() {
        lemma_token_progress(s, i);
        lemma_token_shape(s, i);
        let (t, next) = token_at(s, i);
        lemma_extract_covers_starts(s, next);
        let rest = extract_from(s, next);
        let all = extract_from(s, i);
        assert forall|j: int| i <= j < s.len() && #[trigger] number_start(s, j) implies exists|k: int|
            0 <= k < all.len() && (#[trigger] all[k]).offset <= j < all[k].offset + all[k].len by {
            match t {
                Some(sp) => {
                    assert(all == seq![sp] + rest);
                    if j < next {
                        assert(all[0] == sp);
                    } else {
                        let k = choose|k: int|
                            0 <= k < rest.len() && (#[trigger] rest[k]).offset <= j < rest[k].offset
                                + rest[k].len;
                        assert(all[k + 1] == rest[k]);
                    }
                },
                None => {
                    assert(all == rest);
                    assert(j >= next);
                },
            }
        }
    }
}

/// The decimal digits are the bytes `0` to `9`; the hexadecimal digits are
/// those and the letters `a` to `f` and `A` to `F`. The signs are `+` and
/// `-`, the hex marker `x` or `X`, the exponent marker `e` or `E`.
pub proof fn lemma_digit_classes(b: u8)
    ensures
        is_sign(b) <==> (b == '+' as u8 || b == '-' as u8),
        is_hex_marker(b) <==> (b == 'x' as u8 || b == 'X' as u8),
        is_exp_marker(b) <==> (b == 'e' as u8 || b == 'E' as u8),
        is_digit(b) <==> ('0' as u8 <= b && b <= '9' as u8),
        is_hex(b) <==> (('0' as u8 <= b && b <= '9' as u8) || ('a' as u8 <= b && b <= 'f' as u8)
            || ('A' as u8 <= b && b <= 'F' as u8)),
{
}

/// Where `0x` or `0X` is followed by a hex digit, scanning from there finds a
/// hexadecimal number that runs from the `0` to the end of the longest run
/// of hex digits (`0-9`, `a-f`, `A-F`) after the marker.
pub proof fn lemma_extract_hex(s: Seq<u8>, i: int, e: int)
    requires
        0 <= i,
        i + 2 < e <= s.len() <= usize::MAX,
        s[i] == '0' as u8,
        s[i + 1] == 'x' as u8 || s[i + 1] == 'X' as u8,
        forall|j: int|
            i + 2 <= j < e ==> {
                let b = #[trigger] s[j];
                ('0' as u8 <= b && b <= '9' as u8) || ('a' as u8 <= b && b <= 'f' as u8) || (
                'A' as u8 <= b && b <= 'F' as u8)
            },
        e == s.len() || !({
            let b = s[e];
            ('0' as u8 <= b && b <= '9' as u8) || ('a' as u8 <= b && b <= 'f' as u8) || ('A' as u8
                <= b && b <= 'F' as u8)
        }),
    ensures
        extract_from(s, i).len() > 0,
        extract_from(s, i)[0] == (NumberSpan {
            offset: i as usize,
            len: (e - i) as usize,
            kind: NumberKind::Hex,
        }),
{
    lemma_run_end(s, i + 2, hex_pred());
    let r = run_end(s, i + 2, hex_pred());
    assert((hex_pred())(s[i + 2]));
    if r < e {
        assert((hex_pred())(s[r]));
    }
    if r > e {
        assert((hex_pred())(s[e]));
    }
    assert(r == e);
    assert(hex_start(s, i));
    assert(number_start(s, i));
    lemma_token_progress(s, i);
    assert(token_at(s, i).0 == Some(span(i, e, NumberKind::Hex)));
}

/// Float text is refused exactly at its first byte that is not ASCII: the
/// check stops at the first byte of 128 or more, and at no earlier byte.
pub proof fn lemma_float_text_stops_at_non_ascii(t: Seq<u8>)
    ensures
        0 <= run_end(t, 0, ascii_pred()) <= t.len(),
        forall|j: int| 0 <= j < run_end(t, 0, ascii_pred()) ==> #[trigger] t[j] < 128,
        run_end(t, 0, ascii_pred()) < t.len() ==> t[run_end(t, 0, ascii_pred())] >= 128,
{
    lemma_run_end(t, 0, ascii_pred());
    assert forall|j: int| 0 <= j < run_end(t, 0, ascii_pred()) implies #[trigger] t[j] < 128 by {
        assert((ascii_pred())(t[j]));
    }
}

fn is_ascii_digit(b: u8) -> (r: bool)
    ensures
        r == is_digit(b),
{
    48 <= b && b <= 57
}

fn is_hex_digit(b: u8) -> (r: bool)
    ensures
        r == is_hex(b),
{
    is_ascii_digit(b) || (97 <= b && b <= 102) || (65 <= b && b <= 70)
}

fn is_number_start(data: &[u8], i: usize) -> (r: bool)
    requires
        i < data@.len(),
    ensures
        r == number_start(data@, i as int),
{
    let b = data[i];
    is_ascii_digit(b) || ((b == 43 || b == 45) && i + 1 < data.len() && is_ascii_digit(data[i + 1]))
        || (b == 48 && i + 1 < data.len() && (data[i + 1] == 120 || data[i + 1] == 88))
}

fn in_run(b: u8, hex: bool) -> (r: bool)
    ensures
        r == (if hex {
            hex_pred()
        } else {
            digit_pred()
        })(b),
{
    if hex {
        is_hex_digit(b)
    } else {
        is_ascii_digit(b)
    }
}

/// Advances over the run of digits (or of hex digits) that starts at `i`.
fn skip_run(data: &[u8], i: usize, hex: bool) -> (e: usize)
    requires
        i <= data@.len(),
    ensures
        e == run_end(data@, i as int, if hex { hex_pred() } else { digit_pred() }),
{
    let ghost p = if hex {
        hex_pred()
    } else {
        digit_pred()
    };
    let mut j = i;
    while j < data.len() && in_run(data[j], hex)
        invariant
            i <= j <= data@.len(),
            p == (if hex {
                hex_pred()
            } else {
                digit_pred()
            }),
            run_end(data@, i as int, p) == run_end(data@, j as int, p),
        decreases data@.len() - j,
    {
        j = j + 1;
    }
    j
}

fn scan_fraction(data: &[u8], int_end: usize) -> (r: usize)
    requires
        int_end <= data@.len(),
    ensures
        r == fraction_end(data@, int_end as int),
        int_end <= r <= data@.len(),
{
    let len = data.len();
    if int_end < len && data[int_end] == 46 && len - int_end > 1 && is_ascii_digit(
        data[int_end + 1],
    ) {
        let r = skip_run(data, int_end + 1, false);
        proof {
            lemma_run_end(data@, int_end + 1, digit_pred());
        }
        r
    } else {
        int_end
    }
}

fn scan_exponent(data: &[u8], at: usize) -> (r: usize)
    requires
        at <= data@.len(),
    ensures
        r == exponent_end(data@, at as int),
        at <= r <= data@.len(),
{
    let len = data.len();
    let mut i = at;
    if i < len && (data[i] == 101 || data[i] == 69) {
        let saved = i;
        i = i + 1;
        if i < len && (data[i] == 43 || data[i] == 45) {
            i = i + 1;
        }
        if i < len && is_ascii_digit(data[i]) {
            let r = skip_run(data, i, false);
            proof {
                lemma_run_end(data@, i as int, digit_pred());
            }
            r
        } else {
            saved
        }
    } else {
        i
    }
}

/// Reads the token at `i`: the number that starts there, if any, and the
/// position where scanning resumes.
fn scan_token(data: &[u8], i: usize) -> (r: (Option<NumberSpan>, usize))
    requires
        i < data@.len(),
    ensures
        r.0 == token_at(data@, i as int).0,
        r.1 == token_at(data@, i as int).1,
{
    let len = data.len();
    let ghost s = data@;
    if !is_number_start(data, i) {
        return (None, i + 1);
    }
    if len - i > 2 && data[i] == 48 && (data[i + 1] == 120 || data[i + 1] == 88) && is_hex_digit(
        data[i + 2],
    ) {
        let start = i;
        let e = skip_run(data, i + 2, true);
        proof {
            lemma_run_end(s, i + 2, hex_pred());
        }
        return (Some(NumberSpan { offset: start, len: e - start, kind: NumberKind::Hex }), e);
    }
    let start = i;
    let mut p = i;
    if data[p] == 43 || data[p] == 45 {
        p = p + 1;
    }
    if p >= len || !is_ascii_digit(data[p]) {
        proof {
            assert(false);
        }
        return (None, start + 1);
    }
    let int_end = skip_run(data, p, false);
    proof {
        lemma_run_end(s, p as int, digit_pred());
    }
    let frac_end = scan_fraction(data, int_end);
    let end = scan_exponent(data, frac_end);
    let is_float = frac_end > int_end || end > frac_end;
    if end > start && !(end == start + 1 && (data[start] == 43 || data[start] == 45)) {
        (
            Some(
                NumberSpan {
                    offset: start,
                    len: end - start,
                    kind: if is_float {
                        NumberKind::Float
                    } else {
                        NumberKind::Integer
                    },
                },
            ),
            end,
        )
    } else {
        proof {
            assert(false);
        }
        (None, end)
    }
}

/// Extracts all number spans from a text buffer: integers, floats and
/// hexadecimal numbers, in order of appearance.
pub fn extract_numbers(data: &[u8]) -> (spans: Vec<NumberSpan>)
    ensures
        spans@ == extract_spec(data@),
{
    let mut spans: Vec<NumberSpan> = Vec::new();
    let len = data.len();
    let mut i: usize = 0;
    while i < len
        invariant
            len == data@.len(),
            i <= len,
            spans@ + extract_from(data@, i as int) == extract_spec(data@),
        decreases len - i,
    {
        proof {
            lemma_token_progress(data@, i as int);
        }
        let (tok, next) = scan_token(data, i);
        let ghost before = spans@;
        match tok {
            Some(sp) => {
                spans.push(sp);
                assert(spans@ + extract_from(data@, next as int) =~= before + (seq![sp]
                    + extract_from(data@, next as int)));
            },
            None => {},
        }
        i = next;
    }
    assert(spans@ + Seq::<NumberSpan>::empty() =~= spans@);
    spans
}

/// ASCII whitespace: space, tab, line feed, form feed, carriage return.
pub open spec fn is_ascii_ws(b: u8) -> bool {
    b == 32 || b == 9 || b == 10 || b == 12 || b == 13
}

/// The whitespace predicate as a value.
pub open spec fn ws_pred() -> spec_fn(u8) -> bool {
    |b: u8| is_ascii_ws(b)
}

/// The start of the longest run of bytes satisfying `p` that ends at `j`.
pub open spec fn run_start_back(s: Seq<u8>, j: int, p: spec_fn(u8) -> bool) -> int
    decreases j,
{
    if j <= 0 || j > s.len() || !p(s[j - 1]) {
        j
    } else {
        run_start_back(s, j - 1, p)
    }
}

/// `s` without its leading and trailing ASCII whitespace.
pub open spec fn trim_spec(s: Seq<u8>) -> Seq<u8> {
    let a = run_end(s, 0, ws_pred());
    let b = run_start_back(s, s.len() as int, ws_pred());
    s.subrange(
        a,
        if b < a {
            a
        } else {
            b
        },
    )
}

/// ASCII whitespace is exactly space, tab, line feed, form feed and
/// carriage return.
pub proof fn lemma_ascii_whitespace(b: u8)
    ensures
        is_ascii_ws(b) <==> (b == ' ' as u8 || b == '\t' as u8 || b == '\n' as u8 || b == 0x0Cu8
            || b == '\r' as u8),
{
}

proof fn lemma_run_start_back(s: Seq<u8>, j: int, p: spec_fn(u8) -> bool)
    requires
        0 <= j <= s.len(),
    ensures
        0 <= run_start_back(s, j, p) <= j,
        forall|k: int| run_start_back(s, j, p) <= k < j ==> p(#[trigger] s[k]),
        run_start_back(s, j, p) > 0 ==> !p(s[run_start_back(s, j, p) - 1]),
    decreases j,
{
    if j > 0 && p(s[j - 1]) {
        lemma_run_start_back(s, j - 1, p);
    }
}

/// Trimming removes exactly the leading and trailing ASCII whitespace: the
/// result is a piece of `s` with only whitespace before and after it, and
/// it neither starts nor ends with whitespace. It is empty only when `s` is
/// all whitespace.
pub proof fn lemma_trim(s: Seq<u8>)
    ensures
        trim_spec(s).len() == 0 <==> forall|j: int| 0 <= j < s.len() ==> is_ascii_ws(#[trigger] s[j]),
        trim_spec(s).len() > 0 ==> !is_ascii_ws(trim_spec(s)[0]) && !is_ascii_ws(trim_spec(s).last()),
        exists|a: int|
            0 <= a && a + trim_spec(s).len() <= s.len() && #[trigger] s.subrange(
                a,
                a + trim_spec(s).len(),
            ) == trim_spec(s) && (forall|j: int| 0 <= j < a ==> is_ascii_ws(#[trigger] s[j]))
                && (forall|j: int| a + trim_spec(s).len() <= j < s.len() ==> is_ascii_ws(
                #[trigger] s[j],
            )),
{
    let a = run_end(s, 0, ws_pred());
    let b = run_start_back(s, s.len() as int, ws_pred());
    lemma_run_end(s, 0, ws_pred());
    lemma_run_start_back(s, s.len() as int, ws_pred());
    let t = trim_spec(s);
    assert forall|j: int| 0 <= j < a implies is_ascii_ws(#[trigger] s[j]) by {
        assert((ws_pred())(s[j]));
    }
    assert forall|j: int| b <= j < s.len() implies is_ascii_ws(#[trigger] s[j]) by {
        assert((ws_pred())(s[j]));
    }
    if a < s.len() {
        assert(!(ws_pred())(s[a]));
    }
    if b > 0 {
        assert(!(ws_pred())(s[b - 1]));
    }
    if a < b {
        assert(t[0] == s[a]);
        assert(t.last() == s[b - 1]);
        assert(s.subrange(a, a + t.len()) == t);
        assert(a + t.len() == b);
    } else {
        assert(a == s.len()) by {
            if a < s.len() {
                assert(b <= a);
                assert(is_ascii_ws(s[a]));
            }
        }
        assert(s.subrange(a, a + t.len()) =~= t);
    }
}

fn is_ascii_whitespace(b: u8) -> (r: bool)
    ensures
        r == is_ascii_ws(b),
{
    b == 32 || b == 9 || b == 10 || b == 12 || b == 13
}

fn trim_ascii(bytes: &[u8]) -> (r: (usize, &[u8]))
    ensures
        r.0 == run_end(bytes@, 0, ws_pred()),
        r.1@ == trim_spec(bytes@),
        r.0 + r.1@.len() <= bytes@.len() <= usize::MAX,
{
    let len = bytes.len();
    let mut start: usize = 0;
    while start < len && is_ascii_whitespace(bytes[start])
        invariant
            start <= len == bytes@.len(),
            run_end(bytes@, 0, ws_pred()) == run_end(bytes@, start as int, ws_pred()),
        decreases len - start,
    {
        start = start + 1;
    }
    let mut end: usize = len;
    while end > start && is_ascii_whitespace(bytes[end - 1])
        invariant
            start <= end <= len == bytes@.len(),
            start == run_end(bytes@, 0, ws_pred()),
            start < len ==> !is_ascii_ws(bytes@[start as int]),
            start < len ==> end > start,
            run_start_back(bytes@, len as int, ws_pred()) == run_start_back(
                bytes@,
                end as int,
                ws_pred(),
            ),
        decreases end,
    {
        end = end - 1;
    }
    proof {
        if end > start {
            assert(run_start_back(bytes@, end as int, ws_pred()) == end);
        } else {
            assert(end == start);
            if start < len {
                assert(run_start_back(bytes@, end as int, ws_pred()) == end);
            } else {
                lemma_run_start_back_bound(bytes@, len as int, ws_pred());
            }
        }
    }
    (start, vstd::slice::slice_subrange(bytes, start, end))
}

proof fn lemma_run_start_back_bound(s: Seq<u8>, j: int, p: spec_fn(u8) -> bool)
    requires
        0 <= j <= s.len(),
    ensures
        0 <= run_start_back(s, j, p) <= j,
    decreases j,
{
    if j > 0 && p(s[j - 1]) {
        lemma_run_start_back_bound(s, j - 1, p);
    }
}

/// `e` with its position moved `by` bytes further; an `Empty` error keeps
/// position 0.
pub open spec fn shift_error(e: ParseError, by: int) -> ParseError {
    match e.kind {
        ParseErrorKind::Empty => e,
        _ => ParseError { kind: e.kind, position: (e.position + by) as usize },
    }
}

fn shift(e: ParseError, by: usize) -> (r: ParseError)
    requires
        e.position + by <= usize::MAX,
    ensures
        r == shift_error(e, by as int),
{
    match e.kind {
        ParseErrorKind::Empty => e,
        _ => ParseError { kind: e.kind, position: e.position + by },
    }
}

/// Parses an integer from ASCII bytes, ignoring leading and trailing ASCII
/// whitespace. Handles a leading `+` (and `-` for signed types) and leading
/// zeros. The position of an error counts in `bytes`, leading whitespace
/// included.
pub fn parse_integer<T: Integer>(bytes: &[u8]) -> (r: Result<T, ParseError>)
    ensures
        r == match T::parse_spec(trim_spec(bytes@)) {
            Ok(v) => Ok::<T, ParseError>(v),
            Err(e) => Err::<T, ParseError>(shift_error(e, run_end(bytes@, 0, ws_pred()))),
        },
{
    let (start, trimmed) = trim_ascii(bytes);
    match T::parse_from_bytes(trimmed) {
        Ok(v) => Ok(v),
        Err(e) => Err(shift(e, start)),
    }
}

/// The ASCII predicate as a value.
pub open spec fn ascii_pred() -> spec_fn(u8) -> bool {
    |b: u8| b < 128
}

/// The text that a float is read from: `bytes` without its surrounding ASCII
/// whitespace. It is refused when empty (`Empty`, position 0) or when it
/// holds a byte that is not ASCII (`InvalidDigit`, at the position in `bytes`
/// of the first such byte).
pub fn float_text(bytes: &[u8]) -> (r: Result<&[u8], ParseError>)
    ensures
        ({
            let t = trim_spec(bytes@);
            let k = run_end(t, 0, ascii_pred());
            if t.len() == 0 {
                r == Err::<&[u8], ParseError>(ParseError { kind: ParseErrorKind::Empty, position: 0 })
            } else if k < t.len() {
                r == Err::<&[u8], ParseError>(
                    ParseError {
                        kind: ParseErrorKind::InvalidDigit,
                        position: (run_end(bytes@, 0, ws_pred()) + k) as usize,
                    },
                )
            } else {
                r matches Ok(text) && text@ == t
            }
        }),
        r is Ok <==> (trim_spec(bytes@).len() > 0 && forall|j: int|
            0 <= j < trim_spec(bytes@).len() ==> #[trigger] trim_spec(bytes@)[j] < 128),
        r matches Err(e) ==> (e.kind == ParseErrorKind::InvalidDigit ==> e.position < bytes@.len()
            && bytes@[e.position as int] >= 128),
{
    let (start, trimmed) = trim_ascii(bytes);
    proof {
        lemma_float_text_stops_at_non_ascii(trimmed@);
    }
    if trimmed.len() == 0 {
        return Err(ParseError { kind: ParseErrorKind::Empty, position: 0 });
    }
    let mut i: usize = 0;
    while i < trimmed.len()
        invariant
            i <= trimmed@.len(),
            trimmed@ == trim_spec(bytes@),
            start == run_end(bytes@, 0, ws_pred()),
            start + trimmed@.len() <= bytes@.len() <= usize::MAX,
            run_end(trimmed@, 0, ascii_pred()) == run_end(trimmed@, i as int, ascii_pred()),
        decreases trimmed@.len() - i,
    {
        if trimmed[i] >= 128 {
            assert(!(ascii_pred())(trimmed@[i as int]));
            assert(run_end(trimmed@, i as int, ascii_pred()) == i as int);
            proof {
                lemma_run_end(bytes@, 0, ws_pred());
                lemma_run_start_back_bound(bytes@, bytes@.len() as int, ws_pred());
            }
            assert(trim_spec(bytes@)[i as int] == bytes@[start + i]);
            return Err(ParseError { kind: ParseErrorKind::InvalidDigit, position: start + i });
        }
        i = i + 1;
    }
    Ok(trimmed)
}


impl ParseError {
    /// The error message: the kind of error and, but for empty input, its
    /// position.
    pub fn to_string(&self) -> (s: String)
        ensures
            s@ == match self.kind {
                ParseErrorKind::Empty => "empty input"@,
                ParseErrorKind::InvalidDigit => "invalid digit at position "@ + text::decimal(
                    self.position as nat,
                ),
                ParseErrorKind::Overflow => "overflow at position "@ + text::decimal(self.position as nat),
                ParseErrorKind::InvalidFloat => "invalid float at position "@ + text::decimal(
                    self.position as nat,
                ),
            },
    {
        let mut s = String::new();
        match self.kind {
            ParseErrorKind::Empty => {
                s.append("empty input");
            },
            ParseErrorKind::InvalidDigit => {
                s.append("invalid digit at position ");
                text::push_decimal(&mut s, self.position);
            },
            ParseErrorKind::Overflow => {
                s.append("overflow at position ");
                text::push_decimal(&mut s, self.position);
            },
            ParseErrorKind::InvalidFloat => {
                s.append("invalid float at position ");
                text::push_decimal(&mut s, self.position);
            },
        }
        s
    }
}

} // verus!
