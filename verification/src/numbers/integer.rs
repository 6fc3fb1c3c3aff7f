//! Integer parsing from ASCII bytes.
use vstd::prelude::*;
use super::{ParseError, ParseErrorKind};

verus! {

/// Folds the digits `b[start..end]` into a value, left to right: each digit
/// `d` turns the value `r` into `10 * r + d` (or `10 * r - d` for a negative
/// number). Stops at the first byte that is not a digit (`InvalidDigit`) or
/// at the first digit after which the value leaves `[min, max]`
/// (`Overflow`), with that byte's position.
pub open spec fn fold_digits(
    b: Seq<u8>,
    start: int,
    end: int,
    negative: bool,
    min: int,
    max: int,
) -> Result<int, ParseError>
    decreases end - start,
{
    if end <= start {
        Ok(0)
    } else {
        match fold_digits(b, start, end - 1, negative, min, max) {
            Err(e) => Err(e),
            Ok(r) => {
                let c = b[end - 1];
                if !super::is_digit(c) {
                    Err(ParseError { kind: ParseErrorKind::InvalidDigit, position: (end - 1) as usize })
                } else {
                    let d = c - 48;
                    let v = if negative {
                        r * 10 - d
                    } else {
                        r * 10 + d
                    };
                    if v < min || v > max {
                        Err(ParseError { kind: ParseErrorKind::Overflow, position: (end - 1) as usize })
                    } else {
                        Ok(v)
                    }
                }
            },
        }
    }
}

/// Parsing of an unsigned integer no larger than `max`: an optional `+`
/// followed by decimal digits.
pub open spec fn unsigned_spec(b: Seq<u8>, max: int) -> Result<int, ParseError> {
    if b.len() == 0 {
        Err(ParseError { kind: ParseErrorKind::Empty, position: 0 })
    } else if b[0] == 43 && b.len() == 1 {
        Err(ParseError { kind: ParseErrorKind::InvalidDigit, position: 1 })
    } else {
        fold_digits(b, if b[0] == 43 { 1 } else { 0 }, b.len() as int, false, 0, max)
    }
}

/// Parsing of a signed integer in `[min, max]`: an optional `+` or `-`
/// followed by decimal digits.
pub open spec fn signed_spec(b: Seq<u8>, min: int, max: int) -> Result<int, ParseError> {
    if b.len() == 0 {
        Err(ParseError { kind: ParseErrorKind::Empty, position: 0 })
    } else {
        let signed = b[0] == 45 || b[0] == 43;
        let start: int = if signed { 1 } else { 0 };
        if start >= b.len() {
            Err(ParseError { kind: ParseErrorKind::InvalidDigit, position: start as usize })
        } else {
            fold_digits(b, start, b.len() as int, b[0] == 45, min, max)
        }
    }
}

/// Once the fold has stopped on an error, longer ranges stop on the same one.
proof fn lemma_fold_err(
    b: Seq<u8>,
    start: int,
    j: int,
    k: int,
    negative: bool,
    min: int,
    max: int,
)
    requires
        start < j <= k,
        fold_digits(b, start, j, negative, min, max) is Err,
    ensures
        fold_digits(b, start, k, negative, min, max) == fold_digits(b, start, j, negative, min, max),
    decreases k - j,
{
    if k > j {
        lemma_fold_err(b, start, j, k - 1, negative, min, max);
    }
}

/// Parses an unsigned integer no larger than `max`.
fn parse_unsigned(bytes: &[u8], max: u128) -> (r: Result<u128, ParseError>)
    ensures
        match r {
            Ok(v) => unsigned_spec(bytes@, max as int) == Ok::<int, ParseError>(v as int),
            Err(e) => unsigned_spec(bytes@, max as int) == Err::<int, ParseError>(e),
        },
        r matches Err(e) ==> e.position <= bytes@.len(),
{
    let len = bytes.len();
    if len == 0 {
        return Err(ParseError { kind: ParseErrorKind::Empty, position: 0 });
    }
    let mut i: usize = 0;
    if bytes[0] == 43 {
        i = 1;
        if i >= len {
            return Err(ParseError { kind: ParseErrorKind::InvalidDigit, position: i });
        }
    }
    let start = i;
    let mut result: u128 = 0;
    let mut any_digit = false;
    while i < len
        invariant
            len == bytes@.len(),
            start <= i <= len,
            start == (if bytes@[0] == 43 { 1int } else { 0int }),
            fold_digits(bytes@, start as int, i as int, false, 0, max as int) == Ok::<int, ParseError>(
                result as int,
            ),
            result <= max,
            any_digit == (i > start),
        decreases len - i,
    {
        let b = bytes[i];
        if !(48 <= b && b <= 57) {
            proof {
                lemma_fold_err(bytes@, start as int, i + 1, len as int, false, 0, max as int);
            }
            return Err(ParseError { kind: ParseErrorKind::InvalidDigit, position: i });
        }
        any_digit = true;
        let digit = (b - 48) as u128;
        let next = match result.checked_mul(10) {
            Some(m) => m.checked_add(digit),
            None => None,
        };
        match next {
            Some(v) if v <= max => {
                result = v;
            },
            _ => {
                proof {
                    lemma_fold_err(bytes@, start as int, i + 1, len as int, false, 0, max as int);
                }
                return Err(ParseError { kind: ParseErrorKind::Overflow, position: i });
            },
        }
        i = i + 1;
    }
    if !any_digit {
        return Err(ParseError { kind: ParseErrorKind::InvalidDigit, position: 0 });
    }
    Ok(result)
}

/// Parses a signed integer in `[min, max]`.
fn parse_signed(bytes: &[u8], min: i128, max: i128) -> (r: Result<i128, ParseError>)
    requires
        min <= 0 <= max,
    ensures
        match r {
            Ok(v) => signed_spec(bytes@, min as int, max as int) == Ok::<int, ParseError>(v as int),
            Err(e) => signed_spec(bytes@, min as int, max as int) == Err::<int, ParseError>(e),
        },
        r matches Err(e) ==> e.position <= bytes@.len(),
{
    let len = bytes.len();
    if len == 0 {
        return Err(ParseError { kind: ParseErrorKind::Empty, position: 0 });
    }
    let mut i: usize = 0;
    let negative = if bytes[0] == 45 {
        i = 1;
        true
    } else if bytes[0] == 43 {
        i = 1;
        false
    } else {
        false
    };
    if i >= len {
        return Err(ParseError { kind: ParseErrorKind::InvalidDigit, position: i });
    }
    let start = i;
    let mut result: i128 = 0;
    while i < len
        invariant
            len == bytes@.len(),
            start <= i <= len,
            start == (if bytes@[0] == 45 || bytes@[0] == 43 { 1int } else { 0int }),
            negative == (bytes@[0] == 45),
            min <= 0 <= max,
            fold_digits(bytes@, start as int, i as int, negative, min as int, max as int) == Ok::<
                int,
                ParseError,
            >(result as int),
            min <= result <= max,
            negative ==> result <= 0,
            !negative ==> result >= 0,
        decreases len - i,
    {
        let b = bytes[i];
        if !(48 <= b && b <= 57) {
            proof {
                lemma_fold_err(bytes@, start as int, i + 1, len as int, negative, min as int, max as int);
            }
            return Err(ParseError { kind: ParseErrorKind::InvalidDigit, position: i });
        }
        let digit = (b - 48) as i128;
        let next = if negative {
            match result.checked_mul(10) {
                Some(m) => m.checked_sub(digit),
                None => None,
            }
        } else {
            match result.checked_mul(10) {
                Some(m) => m.checked_add(digit),
                None => None,
            }
        };
        match next {
            Some(v) if min <= v && v <= max => {
                result = v;
            },
            _ => {
                proof {
                    lemma_fold_err(bytes@, start as int, i + 1, len as int, negative, min as int, max as int);
                }
                return Err(ParseError { kind: ParseErrorKind::Overflow, position: i });
            },
        }
        i = i + 1;
    }
    Ok(result)
}

/// The decimal value of the digits `s`.
pub open spec fn dec_value(s: Seq<u8>) -> int
    decreases s.len(),
{
    if s.len() == 0 {
        0
    } else {
        dec_value(s.drop_last()) * 10 + (s.last() - 48)
    }
}

/// Every byte of `s` is a decimal digit.
pub open spec fn all_digits(s: Seq<u8>) -> bool {
    forall|i: int| 0 <= i < s.len() ==> super::is_digit(#[trigger] s[i])
}

proof fn lemma_dec_nonneg(s: Seq<u8>)
    requires
        all_digits(s),
    ensures
        dec_value(s) >= 0,
    decreases s.len(),
{
    if s.len() > 0 {
        assert(all_digits(s.drop_last())) by {
            assert forall|i: int| 0 <= i < s.drop_last().len() implies super::is_digit(
                #[trigger] s.drop_last()[i],
            ) by {
                assert(s.drop_last()[i] == s[i]);
            }
        }
        lemma_dec_nonneg(s.drop_last());
        assert(super::is_digit(s[s.len() - 1]));
    }
}

/// The fold of a range of bytes succeeds exactly when the range is all
/// digits and its decimal value (negated for a negative number) lies within
/// the bounds; the value it gives is that value.
pub proof fn lemma_fold_value(
    b: Seq<u8>,
    start: int,
    end: int,
    negative: bool,
    min: int,
    max: int,
)
    requires
        0 <= start <= end <= b.len(),
        min <= 0 <= max,
    ensures
        ({
            let sub = b.subrange(start, end);
            let v = if negative {
                -dec_value(sub)
            } else {
                dec_value(sub)
            };
            &&& (fold_digits(b, start, end, negative, min, max) is Ok <==> (all_digits(sub) && min
                <= v <= max))
            &&& (fold_digits(b, start, end, negative, min, max) matches Ok(r) ==> r == v)
        }),
    decreases end - start,
{
    let sub = b.subrange(start, end);
    if end == start {
        assert(sub.len() == 0);
    } else {
        lemma_fold_value(b, start, end - 1, negative, min, max);
        let sub1 = b.subrange(start, end - 1);
        assert(sub.drop_last() =~= sub1);
        assert(sub.last() == b[end - 1]);
        let c = b[end - 1];
        if all_digits(sub1) {
            lemma_dec_nonneg(sub1);
        }
        if !all_digits(sub1) {
            let k = choose|k: int| 0 <= k < sub1.len() && !super::is_digit(#[trigger] sub1[k]);
            assert(sub[k] == sub1[k]);
        }
        if !super::is_digit(c) {
            assert(!super::is_digit(sub[sub.len() - 1]));
        }
        if all_digits(sub1) && super::is_digit(c) {
            assert forall|i: int| 0 <= i < sub.len() implies super::is_digit(#[trigger] sub[i]) by {
                if i < sub1.len() {
                    assert(sub[i] == sub1[i]);
                }
            }
        }
    }
}

/// The decimal value of `s`, negated when `negative`.
spec fn signed_dec(s: Seq<u8>, negative: bool) -> int {
    if negative {
        -dec_value(s)
    } else {
        dec_value(s)
    }
}

/// Where the fold stops on an error: at a position inside the range, after
/// digits whose value is within the bounds, either on a byte that is not a
/// digit (`InvalidDigit`) or on the digit that takes the value out of the
/// bounds (`Overflow`).
proof fn lemma_fold_error(b: Seq<u8>, start: int, end: int, negative: bool, min: int, max: int)
    requires
        0 <= start <= end <= b.len() <= usize::MAX,
        min <= 0 <= max,
    ensures
        fold_digits(b, start, end, negative, min, max) matches Err(e) ==> {
            let p = e.position as int;
            &&& start <= p < end
            &&& all_digits(b.subrange(start, p))
            &&& min <= signed_dec(b.subrange(start, p), negative) <= max
            &&& ((e.kind == ParseErrorKind::InvalidDigit && !super::is_digit(b[p])) || (e.kind
                == ParseErrorKind::Overflow && super::is_digit(b[p]) && !(min <= signed_dec(
                b.subrange(start, p + 1),
                negative,
            ) <= max)))
        },
    decreases end - start,
{
    if end > start {
        lemma_fold_error(b, start, end - 1, negative, min, max);
        lemma_fold_value(b, start, end - 1, negative, min, max);
        let sub = b.subrange(start, end);
        assert(sub.drop_last() =~= b.subrange(start, end - 1));
        assert(sub.last() == b[end - 1]);
    }
}

/// The shape of every parse error, for a type with bounds `[min, max]`
/// (negative numbers allowed when `signed`).
spec fn parse_error_fits(bytes: Seq<u8>, signed: bool, min: int, max: int, e: ParseError) -> bool {
    let p = e.position as int;
    &&& (e.kind == ParseErrorKind::Empty <==> bytes.len() == 0)
    &&& (e.kind == ParseErrorKind::Empty ==> p == 0)
    &&& e.kind != ParseErrorKind::InvalidFloat
    &&& (e.kind == ParseErrorKind::InvalidDigit ==> ((p == bytes.len() && bytes.len() == 1
        && digits_of(bytes, signed).len() == 0) || (p < bytes.len() && !super::is_digit(bytes[p])
        && all_digits(digits_of(bytes.take(p), signed)))))
    &&& (e.kind == ParseErrorKind::Overflow ==> (p < bytes.len() && decimal_text(
        bytes.take(p + 1),
        signed,
    ) && !(min <= text_value(bytes.take(p + 1), signed) <= max) && min <= text_value(
        bytes.take(p),
        signed,
    ) <= max))
}

/// The digits before position `q` are those the fold reads from `start`.
proof fn lemma_digits_prefix(bytes: Seq<u8>, signed: bool, start: int, q: int)
    requires
        start == bytes.len() - digits_of(bytes, signed).len(),
        start <= q <= bytes.len(),
    ensures
        digits_of(bytes.take(q), signed) == bytes.subrange(start, q),
        text_value(bytes.take(q), signed) == signed_dec(
            bytes.subrange(start, q),
            signed && bytes.len() > 0 && bytes[0] == 45,
        ),
{
    if q > 0 {
        assert(bytes.take(q)[0] == bytes[0]);
        assert(bytes.take(q).skip(1) =~= bytes.subrange(1, q));
        assert(bytes.take(q) =~= bytes.subrange(0, q));
    } else {
        assert(bytes.take(q) =~= bytes.subrange(start, q));
    }
}

/// Errors of unsigned parsing have the shape that `parse_error_fits` gives,
/// and digits whose value exceeds `max` give `Overflow`.
proof fn lemma_unsigned_error(b: Seq<u8>, max: int)
    requires
        0 <= max,
        b.len() <= usize::MAX,
    ensures
        unsigned_spec(b, max) matches Err(e) ==> parse_error_fits(b, false, 0, max, e),
        decimal_text(b, false) && !(0 <= text_value(b, false) <= max) ==> unsigned_spec(b, max) is Err,
        decimal_text(b, false) ==> (unsigned_spec(b, max) matches Err(e) ==> e.kind
            == ParseErrorKind::Overflow),
{
    lemma_unsigned_value(b, max);
    if b.len() > 0 && !(b[0] == 43 && b.len() == 1) {
        let start: int = if b[0] == 43 { 1 } else { 0 };
        lemma_fold_error(b, start, b.len() as int, false, 0, max);
        if let Err(e) = unsigned_spec(b, max) {
            let p = e.position as int;
            lemma_digits_prefix(b, false, start, p);
            lemma_digits_prefix(b, false, start, p + 1);
            lemma_digits_prefix(b, false, start, b.len() as int);
            assert(b.take(b.len() as int) =~= b);
            if decimal_text(b, false) && e.kind == ParseErrorKind::InvalidDigit {
                assert(digits_of(b, false)[p - start] == b[p]);
            }
        }
    } else if b.len() == 1 {
        assert(digits_of(b, false) =~= Seq::<u8>::empty());
    }
}

/// Errors of signed parsing have the shape that `parse_error_fits` gives,
/// and digits whose value lies outside `[min, max]` give `Overflow`.
proof fn lemma_signed_error(b: Seq<u8>, min: int, max: int)
    requires
        min < 0 <= max,
        b.len() <= usize::MAX,
    ensures
        signed_spec(b, min, max) matches Err(e) ==> parse_error_fits(b, true, min, max, e),
        decimal_text(b, true) && !(min <= text_value(b, true) <= max) ==> signed_spec(b, min, max) is Err,
        decimal_text(b, true) ==> (signed_spec(b, min, max) matches Err(e) ==> e.kind
            == ParseErrorKind::Overflow),
{
    lemma_signed_value(b, min, max);
    if b.len() > 0 {
        let start: int = if b[0] == 45 || b[0] == 43 { 1 } else { 0 };
        if start < b.len() {
            lemma_fold_error(b, start, b.len() as int, b[0] == 45, min, max);
            if let Err(e) = signed_spec(b, min, max) {
                let p = e.position as int;
                lemma_digits_prefix(b, true, start, p);
                lemma_digits_prefix(b, true, start, p + 1);
                lemma_digits_prefix(b, true, start, b.len() as int);
                assert(b.take(b.len() as int) =~= b);
                if decimal_text(b, true) && e.kind == ParseErrorKind::InvalidDigit {
                    assert(digits_of(b, true)[p - start] == b[p]);
                }
            }
        } else {
            assert(digits_of(b, true) =~= Seq::<u8>::empty());
        }
    }
}

/// Parsing an unsigned integer succeeds exactly on an optional `+`
/// followed by at least one digit whose value is at most `max`, and gives
/// that value.
pub proof fn lemma_unsigned_value(b: Seq<u8>, max: int)
    requires
        0 <= max,
    ensures
        ({
            let body = if b.len() > 0 && b[0] == 43 {
                b.skip(1)
            } else {
                b
            };
            &&& (unsigned_spec(b, max) is Ok <==> (body.len() > 0 && all_digits(body) && dec_value(
                body,
            ) <= max))
            &&& (unsigned_spec(b, max) matches Ok(v) ==> v == dec_value(body))
        }),
{
    if b.len() > 0 {
        let start: int = if b[0] == 43 {
            1
        } else {
            0
        };
        lemma_fold_value(b, start, b.len() as int, false, 0, max);
        assert(b.subrange(start, b.len() as int) =~= if b[0] == 43 {
            b.skip(1)
        } else {
            b
        });
        if all_digits(b.subrange(start, b.len() as int)) {
            lemma_dec_nonneg(b.subrange(start, b.len() as int));
        }
    }
}

/// Parsing a signed integer succeeds exactly on an optional `+` or `-`
/// followed by at least one digit whose value, negated after `-`, lies in
/// `[min, max]`, and gives that value.
pub proof fn lemma_signed_value(b: Seq<u8>, min: int, max: int)
    requires
        min <= 0 <= max,
    ensures
        ({
            let signed = b.len() > 0 && (b[0] == 43 || b[0] == 45);
            let body = if signed {
                b.skip(1)
            } else {
                b
            };
            let v = if b.len() > 0 && b[0] == 45 {
                -dec_value(body)
            } else {
                dec_value(body)
            };
            &&& (signed_spec(b, min, max) is Ok <==> (body.len() > 0 && all_digits(body) && min <= v
                <= max))
            &&& (signed_spec(b, min, max) matches Ok(r) ==> r == v)
        }),
{
    if b.len() > 0 {
        let signed = b[0] == 43 || b[0] == 45;
        let start: int = if signed {
            1
        } else {
            0
        };
        if start < b.len() {
            lemma_fold_value(b, start, b.len() as int, b[0] == 45, min, max);
            assert(b.subrange(start, b.len() as int) =~= if signed {
                b.skip(1)
            } else {
                b
            });
        }
    }
}

/// A type that can be parsed as an integer from ASCII bytes.
pub trait Integer: Sized + Copy {
    /// The result of parsing `bytes` as this type.
    spec fn parse_spec(bytes: Seq<u8>) -> Result<Self, ParseError>;

    /// Parses from ASCII bytes. An error's position lies within `bytes`, or
    /// just past its end.
    fn parse_from_bytes(bytes: &[u8]) -> (r: Result<Self, ParseError>)
        ensures
            r == Self::parse_spec(bytes@),
            r matches Err(e) ==> e.position <= bytes@.len(),
    ;

    /// The smallest value of the type.
    spec fn min_value() -> int;

    /// The largest value of the type.
    spec fn max_value() -> int;

    /// A value of the type as a mathematical integer.
    spec fn as_int(v: Self) -> int;

    /// The type holds exactly the integers from `min_value()` to
    /// `max_value()`, each as one value: `i` among them too.
    proof fn lemma_range(i: int)
        ensures
            forall|v: Self| Self::min_value() <= #[trigger] Self::as_int(v) <= Self::max_value(),
            forall|v: Self, w: Self| #[trigger] Self::as_int(v) == #[trigger] Self::as_int(w) ==> v == w,
            Self::min_value() <= i <= Self::max_value() ==> exists|v: Self| #[trigger] Self::as_int(v)
                == i,
    ;

    /// Parsing succeeds exactly on an optional `+` (or `-`, for a type with
    /// negative values) followed by at least one decimal digit, whose value
    /// lies within the type's range; and it gives that value.
    proof fn lemma_parse_value(bytes: Seq<u8>)
        ensures
            Self::parse_spec(bytes) is Ok <==> (decimal_text(bytes, Self::min_value() < 0)
                && Self::min_value() <= text_value(bytes, Self::min_value() < 0) <= Self::max_value()),
            Self::parse_spec(bytes) matches Ok(v) ==> Self::as_int(v) == text_value(
                bytes,
                Self::min_value() < 0,
            ),
    ;

    /// What a parse error says. `Empty` comes exactly on empty input, at
    /// position 0. `InvalidDigit` points at the first byte that is not a
    /// digit after the optional sign, or just past a lone sign. `Overflow`
    /// points at the digit that first takes the value out of the type's
    /// range; and digits whose value lies out of range always give
    /// `Overflow`.
    proof fn lemma_parse_error(bytes: Seq<u8>)
        requires
            bytes.len() <= usize::MAX,
        ensures
            Self::parse_spec(bytes) matches Err(e) ==> {
                let p = e.position as int;
                let signed = Self::min_value() < 0;
                &&& (e.kind == ParseErrorKind::Empty <==> bytes.len() == 0)
                &&& (e.kind == ParseErrorKind::Empty ==> p == 0)
                &&& e.kind != ParseErrorKind::InvalidFloat
                &&& (e.kind == ParseErrorKind::InvalidDigit ==> ((p == bytes.len() && bytes.len() == 1
                    && digits_of(bytes, signed).len() == 0) || (p < bytes.len() && !super::is_digit(
                    bytes[p],
                ) && all_digits(digits_of(bytes.take(p), signed)))))
                &&& (e.kind == ParseErrorKind::Overflow ==> (p < bytes.len() && decimal_text(
                    bytes.take(p + 1),
                    signed,
                ) && !(Self::min_value() <= text_value(bytes.take(p + 1), signed)
                    <= Self::max_value()) && Self::min_value() <= text_value(bytes.take(p), signed)
                    <= Self::max_value()))
            },
            decimal_text(bytes, Self::min_value() < 0) && !(Self::min_value() <= text_value(
                bytes,
                Self::min_value() < 0,
            ) <= Self::max_value()) ==> Self::parse_spec(bytes) is Err,
            decimal_text(bytes, Self::min_value() < 0) ==> (Self::parse_spec(bytes) matches Err(e)
                ==> e.kind == ParseErrorKind::Overflow),
    ;
}

/// The digits of `b`: without its leading `+`, or its leading `-` when
/// `signed`.
pub open spec fn digits_of(b: Seq<u8>, signed: bool) -> Seq<u8> {
    if b.len() > 0 && (b[0] == 43 || (signed && b[0] == 45)) {
        b.skip(1)
    } else {
        b
    }
}

/// `b` is an optional sign (`+`, or `-` when `signed`) and at least one
/// decimal digit.
pub open spec fn decimal_text(b: Seq<u8>, signed: bool) -> bool {
    digits_of(b, signed).len() > 0 && all_digits(digits_of(b, signed))
}

/// The value that `b` writes in decimal, negated after a `-`.
pub open spec fn text_value(b: Seq<u8>, signed: bool) -> int {
    if signed && b.len() > 0 && b[0] == 45 {
        -dec_value(digits_of(b, signed))
    } else {
        dec_value(digits_of(b, signed))
    }
}

impl Integer for u8 {
    open spec fn parse_spec(bytes: Seq<u8>) -> Result<u8, ParseError> {
        match unsigned_spec(bytes, u8::MAX as int) {
            Ok(v) => Ok(v as u8),
            Err(e) => Err(e),
        }
    }

    fn parse_from_bytes(bytes: &[u8]) -> (r: Result<u8, ParseError>) {
        match parse_unsigned(bytes, u8::MAX as u128) {
            Ok(v) => Ok(v as u8),
            Err(e) => Err(e),
        }
    }

    open spec fn min_value() -> int {
        0
    }

    open spec fn max_value() -> int {
        u8::MAX as int
    }

    open spec fn as_int(v: u8) -> int {
        v as int
    }

    proof fn lemma_range(i: int) {
        if 0 <= i <= u8::MAX as int {
            assert(Self::as_int(i as u8) == i);
        }
    }

    proof fn lemma_parse_value(bytes: Seq<u8>) {
        lemma_unsigned_value(bytes, u8::MAX as int);
    }

    proof fn lemma_parse_error(bytes: Seq<u8>) {
        lemma_unsigned_error(bytes, u8::MAX as int);
    }
}

impl Integer for u16 {
    open spec fn parse_spec(bytes: Seq<u8>) -> Result<u16, ParseError> {
        match unsigned_spec(bytes, u16::MAX as int) {
            Ok(v) => Ok(v as u16),
            Err(e) => Err(e),
        }
    }

    fn parse_from_bytes(bytes: &[u8]) -> (r: Result<u16, ParseError>) {
        match parse_unsigned(bytes, u16::MAX as u128) {
            Ok(v) => Ok(v as u16),
            Err(e) => Err(e),
        }
    }

    open spec fn min_value() -> int {
        0
    }

    open spec fn max_value() -> int {
        u16::MAX as int
    }

    open spec fn as_int(v: u16) -> int {
        v as int
    }

    proof fn lemma_range(i: int) {
        if 0 <= i <= u16::MAX as int {
            assert(Self::as_int(i as u16) == i);
        }
    }

    proof fn lemma_parse_value(bytes: Seq<u8>) {
        lemma_unsigned_value(bytes, u16::MAX as int);
    }

    proof fn lemma_parse_error(bytes: Seq<u8>) {
        lemma_unsigned_error(bytes, u16::MAX as int);
    }
}

impl Integer for u32 {
    open spec fn parse_spec(bytes: Seq<u8>) -> Result<u32, ParseError> {
        match unsigned_spec(bytes, u32::MAX as int) {
            Ok(v) => Ok(v as u32),
            Err(e) => Err(e),
        }
    }

    fn parse_from_bytes(bytes: &[u8]) -> (r: Result<u32, ParseError>) {
        match parse_unsigned(bytes, u32::MAX as u128) {
            Ok(v) => Ok(v as u32),
            Err(e) => Err(e),
        }
    }

    open spec fn min_value() -> int {
        0
    }

    open spec fn max_value() -> int {
        u32::MAX as int
    }

    open spec fn as_int(v: u32) -> int {
        v as int
    }

    proof fn lemma_range(i: int) {
        if 0 <= i <= u32::MAX as int {
            assert(Self::as_int(i as u32) == i);
        }
    }

    proof fn lemma_parse_value(bytes: Seq<u8>) {
        lemma_unsigned_value(bytes, u32::MAX as int);
    }

    proof fn lemma_parse_error(bytes: Seq<u8>) {
        lemma_unsigned_error(bytes, u32::MAX as int);
    }
}

impl Integer for u64 {
    open spec fn parse_spec(bytes: Seq<u8>) -> Result<u64, ParseError> {
        match unsigned_spec(bytes, u64::MAX as int) {
            Ok(v) => Ok(v as u64),
            Err(e) => Err(e),
        }
    }

    fn parse_from_bytes(bytes: &[u8]) -> (r: Result<u64, ParseError>) {
        match parse_unsigned(bytes, u64::MAX as u128) {
            Ok(v) => Ok(v as u64),
            Err(e) => Err(e),
        }
    }

    open spec fn min_value() -> int {
        0
    }

    open spec fn max_value() -> int {
        u64::MAX as int
    }

    open spec fn as_int(v: u64) -> int {
        v as int
    }

    proof fn lemma_range(i: int) {
        if 0 <= i <= u64::MAX as int {
            assert(Self::as_int(i as u64) == i);
        }
    }

    proof fn lemma_parse_value(bytes: Seq<u8>) {
        lemma_unsigned_value(bytes, u64::MAX as int);
    }

    proof fn lemma_parse_error(bytes: Seq<u8>) {
        lemma_unsigned_error(bytes, u64::MAX as int);
    }
}

impl Integer for u128 {
    open spec fn parse_spec(bytes: Seq<u8>) -> Result<u128, ParseError> {
        match unsigned_spec(bytes, u128::MAX as int) {
            Ok(v) => Ok(v as u128),
            Err(e) => Err(e),
        }
    }

    fn parse_from_bytes(bytes: &[u8]) -> (r: Result<u128, ParseError>) {
        match parse_unsigned(bytes, u128::MAX as u128) {
            Ok(v) => Ok(v as u128),
            Err(e) => Err(e),
        }
    }

    open spec fn min_value() -> int {
        0
    }

    open spec fn max_value() -> int {
        u128::MAX as int
    }

    open spec fn as_int(v: u128) -> int {
        v as int
    }

    proof fn lemma_range(i: int) {
        if 0 <= i <= u128::MAX as int {
            assert(Self::as_int(i as u128) == i);
        }
    }

    proof fn lemma_parse_value(bytes: Seq<u8>) {
        lemma_unsigned_value(bytes, u128::MAX as int);
    }

    proof fn lemma_parse_error(bytes: Seq<u8>) {
        lemma_unsigned_error(bytes, u128::MAX as int);
    }
}

impl Integer for usize {
    open spec fn parse_spec(bytes: Seq<u8>) -> Result<usize, ParseError> {
        match unsigned_spec(bytes, usize::MAX as int) {
            Ok(v) => Ok(v as usize),
            Err(e) => Err(e),
        }
    }

    fn parse_from_bytes(bytes: &[u8]) -> (r: Result<usize, ParseError>) {
        match parse_unsigned(bytes, usize::MAX as u128) {
            Ok(v) => Ok(v as usize),
            Err(e) => Err(e),
        }
    }

    open spec fn min_value() -> int {
        0
    }

    open spec fn max_value() -> int {
        usize::MAX as int
    }

    open spec fn as_int(v: usize) -> int {
        v as int
    }

    proof fn lemma_range(i: int) {
        if 0 <= i <= usize::MAX as int {
            assert(Self::as_int(i as usize) == i);
        }
    }

    proof fn lemma_parse_value(bytes: Seq<u8>) {
        lemma_unsigned_value(bytes, usize::MAX as int);
    }

    proof fn lemma_parse_error(bytes: Seq<u8>) {
        lemma_unsigned_error(bytes, usize::MAX as int);
    }
}

impl Integer for i8 {
    open spec fn parse_spec(bytes: Seq<u8>) -> Result<i8, ParseError> {
        match signed_spec(bytes, i8::MIN as int, i8::MAX as int) {
            Ok(v) => Ok(v as i8),
            Err(e) => Err(e),
        }
    }

    fn parse_from_bytes(bytes: &[u8]) -> (r: Result<i8, ParseError>) {
        match parse_signed(bytes, i8::MIN as i128, i8::MAX as i128) {
            Ok(v) => Ok(v as i8),
            Err(e) => Err(e),
        }
    }

    open spec fn min_value() -> int {
        i8::MIN as int
    }

    open spec fn max_value() -> int {
        i8::MAX as int
    }

    open spec fn as_int(v: i8) -> int {
        v as int
    }

    proof fn lemma_range(i: int) {
        if i8::MIN as int <= i <= i8::MAX as int {
            assert(Self::as_int(i as i8) == i);
        }
    }

    proof fn lemma_parse_value(bytes: Seq<u8>) {
        lemma_signed_value(bytes, i8::MIN as int, i8::MAX as int);
    }

    proof fn lemma_parse_error(bytes: Seq<u8>) {
        lemma_signed_error(bytes, i8::MIN as int, i8::MAX as int);
    }
}

impl Integer for i16 {
    open spec fn parse_spec(bytes: Seq<u8>) -> Result<i16, ParseError> {
        match signed_spec(bytes, i16::MIN as int, i16::MAX as int) {
            Ok(v) => Ok(v as i16),
            Err(e) => Err(e),
        }
    }

    fn parse_from_bytes(bytes: &[u8]) -> (r: Result<i16, ParseError>) {
        match parse_signed(bytes, i16::MIN as i128, i16::MAX as i128) {
            Ok(v) => Ok(v as i16),
            Err(e) => Err(e),
        }
    }

    open spec fn min_value() -> int {
        i16::MIN as int
    }

    open spec fn max_value() -> int {
        i16::MAX as int
    }

    open spec fn as_int(v: i16) -> int {
        v as int
    }

    proof fn lemma_range(i: int) {
        if i16::MIN as int <= i <= i16::MAX as int {
            assert(Self::as_int(i as i16) == i);
        }
    }

    proof fn lemma_parse_value(bytes: Seq<u8>) {
        lemma_signed_value(bytes, i16::MIN as int, i16::MAX as int);
    }

    proof fn lemma_parse_error(bytes: Seq<u8>) {
        lemma_signed_error(bytes, i16::MIN as int, i16::MAX as int);
    }
}

impl Integer for i32 {
    open spec fn parse_spec(bytes: Seq<u8>) -> Result<i32, ParseError> {
        match signed_spec(bytes, i32::MIN as int, i32::MAX as int) {
            Ok(v) => Ok(v as i32),
            Err(e) => Err(e),
        }
    }

    fn parse_from_bytes(bytes: &[u8]) -> (r: Result<i32, ParseError>) {
        match parse_signed(bytes, i32::MIN as i128, i32::MAX as i128) {
            Ok(v) => Ok(v as i32),
            Err(e) => Err(e),
        }
    }

    open spec fn min_value() -> int {
        i32::MIN as int
    }

    open spec fn max_value() -> int {
        i32::MAX as int
    }

    open spec fn as_int(v: i32) -> int {
        v as int
    }

    proof fn lemma_range(i: int) {
        if i32::MIN as int <= i <= i32::MAX as int {
            assert(Self::as_int(i as i32) == i);
        }
    }

    proof fn lemma_parse_value(bytes: Seq<u8>) {
        lemma_signed_value(bytes, i32::MIN as int, i32::MAX as int);
    }

    proof fn lemma_parse_error(bytes: Seq<u8>) {
        lemma_signed_error(bytes, i32::MIN as int, i32::MAX as int);
    }
}

impl Integer for i64 {
    open spec fn parse_spec(bytes: Seq<u8>) -> Result<i64, ParseError> {
        match signed_spec(bytes, i64::MIN as int, i64::MAX as int) {
            Ok(v) => Ok(v as i64),
            Err(e) => Err(e),
        }
    }

    fn parse_from_bytes(bytes: &[u8]) -> (r: Result<i64, ParseError>) {
        match parse_signed(bytes, i64::MIN as i128, i64::MAX as i128) {
            Ok(v) => Ok(v as i64),
            Err(e) => Err(e),
        }
    }

    open spec fn min_value() -> int {
        i64::MIN as int
    }

    open spec fn max_value() -> int {
        i64::MAX as int
    }

    open spec fn as_int(v: i64) -> int {
        v as int
    }

    proof fn lemma_range(i: int) {
        if i64::MIN as int <= i <= i64::MAX as int {
            assert(Self::as_int(i as i64) == i);
        }
    }

    proof fn lemma_parse_value(bytes: Seq<u8>) {
        lemma_signed_value(bytes, i64::MIN as int, i64::MAX as int);
    }

    proof fn lemma_parse_error(bytes: Seq<u8>) {
        lemma_signed_error(bytes, i64::MIN as int, i64::MAX as int);
    }
}

impl Integer for i128 {
    open spec fn parse_spec(bytes: Seq<u8>) -> Result<i128, ParseError> {
        match signed_spec(bytes, i128::MIN as int, i128::MAX as int) {
            Ok(v) => Ok(v as i128),
            Err(e) => Err(e),
        }
    }

    fn parse_from_bytes(bytes: &[u8]) -> (r: Result<i128, ParseError>) {
        match parse_signed(bytes, i128::MIN as i128, i128::MAX as i128) {
            Ok(v) => Ok(v as i128),
            Err(e) => Err(e),
        }
    }

    open spec fn min_value() -> int {
        i128::MIN as int
    }

    open spec fn max_value() -> int {
        i128::MAX as int
    }

    open spec fn as_int(v: i128) -> int {
        v as int
    }

    proof fn lemma_range(i: int) {
        if i128::MIN as int <= i <= i128::MAX as int {
            assert(Self::as_int(i as i128) == i);
        }
    }

    proof fn lemma_parse_value(bytes: Seq<u8>) {
        lemma_signed_value(bytes, i128::MIN as int, i128::MAX as int);
    }

    proof fn lemma_parse_error(bytes: Seq<u8>) {
        lemma_signed_error(bytes, i128::MIN as int, i128::MAX as int);
    }
}

impl Integer for isize {
    open spec fn parse_spec(bytes: Seq<u8>) -> Result<isize, ParseError> {
        match signed_spec(bytes, isize::MIN as int, isize::MAX as int) {
            Ok(v) => Ok(v as isize),
            Err(e) => Err(e),
        }
    }

    fn parse_from_bytes(bytes: &[u8]) -> (r: Result<isize, ParseError>) {
        match parse_signed(bytes, isize::MIN as i128, isize::MAX as i128) {
            Ok(v) => Ok(v as isize),
            Err(e) => Err(e),
        }
    }

    open spec fn min_value() -> int {
        isize::MIN as int
    }

    open spec fn max_value() -> int {
        isize::MAX as int
    }

    open spec fn as_int(v: isize) -> int {
        v as int
    }

    proof fn lemma_range(i: int) {
        if isize::MIN as int <= i <= isize::MAX as int {
            assert(Self::as_int(i as isize) == i);
        }
    }

    proof fn lemma_parse_value(bytes: Seq<u8>) {
        lemma_signed_value(bytes, isize::MIN as int, isize::MAX as int);
    }

    proof fn lemma_parse_error(bytes: Seq<u8>) {
        lemma_signed_error(bytes, isize::MIN as int, isize::MAX as int);
    }
}

} // verus!
