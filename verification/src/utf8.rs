//! UTF-8 validation.
//!
//! Validity is the one of vstd's `valid_utf8`: the bytes are a sequence of
//! well-formed encodings of Unicode scalars (no overlong forms, no
//! surrogates, nothing above U+10FFFF).
use vstd::prelude::*;
use vstd::utf8::*;
use crate::positions;
use crate::text;

verus! {

/// Error returned when UTF-8 validation fails.
#[derive(Debug, Clone, Copy, PartialEq, Eq, Structural)]
pub struct Utf8Error {
    /// Byte index of the first invalid byte.
    pub valid_up_to: usize,
}

/// What a validator reports for `data`: `Ok` exactly on valid UTF-8, and
/// otherwise the end of the longest valid prefix, where no valid scalar
/// encoding starts: no longer prefix is valid UTF-8.
pub open spec fn utf8_outcome_ok(data: Seq<u8>, r: Result<(), Utf8Error>) -> bool {
    &&& (r is Ok <==> valid_utf8(data))
    &&& (r matches Err(e) ==> {
        &&& e.valid_up_to < data.len()
        &&& valid_utf8(data.take(e.valid_up_to as int))
        &&& !valid_first_scalar(data.skip(e.valid_up_to as int))
        &&& forall|k: int| e.valid_up_to < k <= data.len() ==> !valid_utf8(#[trigger] data.take(k))
    })
}

proof fn lemma_width2(b: u8, b1: u8)
    requires
        0xC0 <= b <= 0xDF,
        0x80 <= b1 <= 0xBF,
    ensures
        (codepoint_width_2(b, b1) >= 0x80) <==> (b >= 0xC2),
        codepoint_width_2(b, b1) < 0x800,
{
    assert((codepoint_width_2(b, b1) >= 0x80) <==> (b >= 0xC2)) by (bit_vector)
        requires
            0xC0 <= b <= 0xDF,
            0x80 <= b1 <= 0xBF,
    ;
    assert(codepoint_width_2(b, b1) < 0x800) by (bit_vector);
}

proof fn lemma_width3(b: u8, b1: u8, b2: u8)
    requires
        0xE0 <= b <= 0xEF,
        0x80 <= b1 <= 0xBF,
        0x80 <= b2 <= 0xBF,
    ensures
        (codepoint_width_3(b, b1, b2) >= 0x800) <==> !(b == 0xE0 && b1 < 0xA0),
        (0xD800 <= codepoint_width_3(b, b1, b2) <= 0xDFFF) <==> (b == 0xED && b1 > 0x9F),
        codepoint_width_3(b, b1, b2) <= 0xFFFF,
{
    assert((codepoint_width_3(b, b1, b2) >= 0x800) <==> !(b == 0xE0 && b1 < 0xA0))
        by (bit_vector)
        requires
            0xE0 <= b <= 0xEF,
            0x80 <= b1 <= 0xBF,
            0x80 <= b2 <= 0xBF,
    ;
    assert((0xD800 <= codepoint_width_3(b, b1, b2) <= 0xDFFF) <==> (b == 0xED && b1 > 0x9F))
        by (bit_vector)
        requires
            0xE0 <= b <= 0xEF,
            0x80 <= b1 <= 0xBF,
            0x80 <= b2 <= 0xBF,
    ;
    assert(codepoint_width_3(b, b1, b2) <= 0xFFFF) by (bit_vector);
}

proof fn lemma_width4(b: u8, b1: u8, b2: u8, b3: u8)
    requires
        0xF0 <= b <= 0xF7,
        0x80 <= b1 <= 0xBF,
        0x80 <= b2 <= 0xBF,
        0x80 <= b3 <= 0xBF,
    ensures
        (0x10000 <= codepoint_width_4(b, b1, b2, b3) <= 0x10FFFF) <==> (b <= 0xF4 && !(b
            == 0xF0 && b1 < 0x90) && !(b == 0xF4 && b1 > 0x8F)),
{
    assert((0x10000 <= codepoint_width_4(b, b1, b2, b3) <= 0x10FFFF) <==> (b <= 0xF4 && !(b
        == 0xF0 && b1 < 0x90) && !(b == 0xF4 && b1 > 0x8F))) by (bit_vector)
        requires
            0xF0 <= b <= 0xF7,
            0x80 <= b1 <= 0xBF,
            0x80 <= b2 <= 0xBF,
            0x80 <= b3 <= 0xBF,
    ;
}

proof fn lemma_continuation_mask(b: u8)
    ensures
        (b & 0xC0 == 0x80) <==> (0x80 <= b <= 0xBF),
{
    assert((b & 0xC0 == 0x80) <==> (0x80 <= b <= 0xBF)) by (bit_vector);
}

proof fn lemma_width1(b: u8)
    requires
        b < 0x80,
    ensures
        codepoint_width_1(b) == b as u32,
{
    assert(codepoint_width_1(b) == b as u32) by (bit_vector)
        requires
            b < 0x80,
    ;
}

/// Whether a well-formed scalar encoding starts at `i`, and if so its length.
fn scalar_len_at(data: &[u8], i: usize) -> (r: Option<usize>)
    requires
        i < data@.len(),
    ensures
        match r {
            Some(n) => {
                &&& valid_first_scalar(data@.skip(i as int))
                &&& n == length_of_first_scalar(data@.skip(i as int))
                &&& 1 <= n <= 4
                &&& i + n <= data@.len()
            },
            None => !valid_first_scalar(data@.skip(i as int)),
        },
{
    let len = data.len();
    let ghost s = data@.skip(i as int);
    let b = data[i];
    assert(s[0] == b);
    if b < 0x80 {
        proof {
            lemma_width1(b);
        }
        Some(1)
    } else if b < 0xC2 {
        proof {
            if b >= 0xC0 && s.len() >= 2 && is_continuation_byte(s[1]) {
                lemma_width2(b, s[1]);
            }
        }
        None
    } else if b < 0xE0 {
        if len - i <= 1 {
            return None;
        }
        let b1 = data[i + 1];
        assert(s[1] == b1);
        proof {
            lemma_continuation_mask(b1);
        }
        if b1 & 0xC0 != 0x80 {
            return None;
        }
        proof {
            lemma_width2(b, b1);
        }
        Some(2)
    } else if b < 0xF0 {
        if len - i <= 2 {
            return None;
        }
        let b1 = data[i + 1];
        let b2 = data[i + 2];
        assert(s[1] == b1 && s[2] == b2);
        proof {
            lemma_continuation_mask(b1);
            lemma_continuation_mask(b2);
        }
        if b1 & 0xC0 != 0x80 || b2 & 0xC0 != 0x80 {
            return None;
        }
        proof {
            lemma_width3(b, b1, b2);
        }
        if b == 0xE0 && b1 < 0xA0 {
            return None;
        }
        if b == 0xED && b1 > 0x9F {
            return None;
        }
        Some(3)
    } else if b < 0xF5 {
        if len - i <= 3 {
            return None;
        }
        let b1 = data[i + 1];
        let b2 = data[i + 2];
        let b3 = data[i + 3];
        assert(s[1] == b1 && s[2] == b2 && s[3] == b3);
        proof {
            lemma_continuation_mask(b1);
            lemma_continuation_mask(b2);
            lemma_continuation_mask(b3);
        }
        if b1 & 0xC0 != 0x80 || b2 & 0xC0 != 0x80 || b3 & 0xC0 != 0x80 {
            return None;
        }
        proof {
            lemma_width4(b, b1, b2, b3);
        }
        if b == 0xF0 && b1 < 0x90 {
            return None;
        }
        if b == 0xF4 && b1 > 0x8F {
            return None;
        }
        Some(4)
    } else {
        proof {
            if b <= 0xF7 && s.len() >= 4 && is_continuation_byte(s[1]) && is_continuation_byte(s[2])
                && is_continuation_byte(s[3]) {
                lemma_width4(b, s[1], s[2], s[3]);
            }
        }
        None
    }
}

/// Where a valid prefix is followed by a malformed scalar, no prefix that
/// reaches past it is valid UTF-8, the whole sequence included.
proof fn lemma_invalid_at(data: Seq<u8>, i: int)
    requires
        0 <= i < data.len(),
        valid_utf8(data.take(i)),
        !valid_first_scalar(data.skip(i)),
    ensures
        !valid_utf8(data),
        forall|k: int| i < k <= data.len() ==> !valid_utf8(#[trigger] data.take(k)),
{
    partial_valid_partial_invalid_utf8(data, i);
    assert forall|k: int| i < k <= data.len() implies !valid_utf8(#[trigger] data.take(k)) by {
        if valid_utf8(data.take(k)) {
            let pk = data.take(k);
            assert(data.take(i) =~= pk.take(i));
            lemma_prefix_boundary(data.take(i), pk);
            let x = pk.skip(i);
            assert(x =~= data.skip(i).take(x.len() as int));
            lemma_first_scalar_extend(x, data.skip(i));
        }
    }
}

/// Validates `data` byte by byte.
fn validate_utf8_scalar(data: &[u8]) -> (r: Result<(), Utf8Error>)
    ensures
        utf8_outcome_ok(data@, r),
{
    let len = data.len();
    let mut i: usize = 0;
    assert(data@.take(0) =~= Seq::<u8>::empty());
    while i < len
        invariant
            len == data@.len(),
            i <= len,
            valid_utf8(data@.take(i as int)),
        decreases len - i,
    {
        match scalar_len_at(data, i) {
            Some(n) => {
                proof {
                    assert(partial_valid_utf8(data@, i as int));
                    partial_valid_utf8_extend(data@, i as int);
                }
                i = i + n;
            },
            None => {
                proof {
                    lemma_invalid_at(data@, i as int);
                }
                return Err(Utf8Error { valid_up_to: i });
            },
        }
    }
    assert(data@.take(len as int) =~= data@);
    Ok(())
}

/// Validates that the input is UTF-8.
///
/// Returns `Ok(())` if the whole input is valid UTF-8, or an error holding
/// the position of the first byte where no valid encoding starts.
pub fn validate_utf8(data: &[u8]) -> (r: Result<(), Utf8Error>)
    ensures
        utf8_outcome_ok(data@, r),
{
    validate_utf8_scalar(data)
}

/// The bytes of a well-formed multi-byte scalar encoding are all at least 0x80.
proof fn lemma_multibyte_high(s: Seq<u8>)
    requires
        valid_first_scalar(s),
        length_of_first_scalar(s) > 1,
    ensures
        forall|k: int| 0 <= k < length_of_first_scalar(s) ==> #[trigger] s[k] >= 0x80,
{
}

/// Validates UTF-8 and collects the positions of the newline bytes in the
/// same pass.
fn validate_and_split_lines_scalar(data: &[u8]) -> (r: Result<Vec<usize>, Utf8Error>)
    ensures
        utf8_outcome_ok(
            data@,
            match r {
                Ok(_) => Ok(()),
                Err(e) => Err(e),
            },
        ),
        r matches Ok(v) ==> positions::offsets_view(v@) == positions::positions_where(data@, positions::newline_pred()),
{
    let len = data.len();
    let mut i: usize = 0;
    let mut newlines: Vec<usize> = Vec::new();
    assert(data@.take(0) =~= Seq::<u8>::empty());
    assert(positions::offsets_view(newlines@) =~= Seq::<int>::empty());
    while i < len
        invariant
            len == data@.len(),
            i <= len,
            valid_utf8(data@.take(i as int)),
            positions::offsets_view(newlines@) == positions::positions_where(data@.take(i as int), positions::newline_pred()),
        decreases len - i,
    {
        match scalar_len_at(data, i) {
            Some(n) => {
                proof {
                    assert(partial_valid_utf8(data@, i as int));
                    partial_valid_utf8_extend(data@, i as int);
                }
                let b = data[i];
                if b == 0x0A {
                    let ghost old_view = positions::offsets_view(newlines@);
                    newlines.push(i);
                    proof {
                        positions::lemma_positions_where_take(data@, positions::newline_pred(), i as int);
                        assert(positions::offsets_view(newlines@) =~= old_view.push(i as int));
                    }
                } else {
                    proof {
                        let s = data@.skip(i as int);
                        if n > 1 {
                            lemma_multibyte_high(s);
                        }
                        assert forall|k: int| i <= k < i + n implies !(positions::newline_pred())(
                            #[trigger] data@[k],
                        ) by {
                            assert(data@[k] == s[k - i]);
                        }
                        positions::lemma_positions_where_take_skip(data@, positions::newline_pred(), i as int, i + n);
                    }
                }
                proof {
                    if b == 0x0A {
                        assert(n == 1);
                    }
                }
                i = i + n;
            },
            None => {
                proof {
                    lemma_invalid_at(data@, i as int);
                }
                return Err(Utf8Error { valid_up_to: i });
            },
        }
    }
    assert(data@.take(len as int) =~= data@);
    Ok(newlines)
}

/// Validates UTF-8 and finds the line boundaries in a single pass.
///
/// Returns the byte positions of every `\n` when the input is valid UTF-8,
/// or the same error as `validate_utf8`.
pub fn validate_and_split_lines(data: &[u8]) -> (r: Result<Vec<usize>, Utf8Error>)
    ensures
        utf8_outcome_ok(
            data@,
            match r {
                Ok(_) => Ok(()),
                Err(e) => Err(e),
            },
        ),
        r matches Ok(v) ==> positions::offsets_view(v@) == positions::positions_where(data@, positions::newline_pred()),
{
    validate_and_split_lines_scalar(data)
}


impl Utf8Error {
    /// The error message: the offset of the first invalid byte.
    pub fn to_string(&self) -> (s: String)
        ensures
            s@ == "invalid UTF-8 at byte offset "@ + text::decimal(self.valid_up_to as nat),
    {
        let mut s = String::new();
        s.append("invalid UTF-8 at byte offset ");
        text::push_decimal(&mut s, self.valid_up_to);
        s
    }
}

/// A well-formed first scalar stays well-formed, with the same length, when
/// bytes are added after it.
proof fn lemma_first_scalar_extend(x: Seq<u8>, y: Seq<u8>)
    requires
        x.len() <= y.len(),
        x == y.take(x.len() as int),
        valid_first_scalar(x),
    ensures
        valid_first_scalar(y),
        length_of_first_scalar(y) == length_of_first_scalar(x),
{
    assert(x[0] == y[0]);
    if x.len() >= 2 {
        assert(x[1] == y[1]);
    }
    if x.len() >= 3 {
        assert(x[2] == y[2]);
    }
    if x.len() >= 4 {
        assert(x[3] == y[3]);
    }
}

/// When a valid prefix `a` of valid bytes `b` is shorter than `b`, a
/// well-formed scalar encoding starts in `b` where `a` ends.
proof fn lemma_prefix_boundary(a: Seq<u8>, b: Seq<u8>)
    requires
        valid_utf8(a),
        valid_utf8(b),
        a.len() < b.len(),
        a == b.take(a.len() as int),
    ensures
        valid_first_scalar(b.skip(a.len() as int)),
    decreases a.len(),
{
    if a.len() == 0 {
        assert(b.skip(0) =~= b);
    } else {
        let n = length_of_first_scalar(a);
        lemma_first_scalar_extend(a, b);
        let a1 = pop_first_scalar(a);
        let b1 = pop_first_scalar(b);
        assert(a1 =~= b1.take(a1.len() as int));
        lemma_prefix_boundary(a1, b1);
        assert(b1.skip(a1.len() as int) =~= b.skip(a.len() as int));
    }
}

/// The error position that `utf8_outcome_ok` allows is unique: it is the
/// end of the longest valid prefix. So `validate_utf8` and
/// `validate_and_split_lines` report the same position, the one that
/// `std::str::from_utf8` calls `valid_up_to`.
pub proof fn lemma_valid_up_to_unique(data: Seq<u8>, i: int, j: int)
    requires
        0 <= i < data.len(),
        0 <= j < data.len(),
        valid_utf8(data.take(i)),
        !valid_first_scalar(data.skip(i)),
        valid_utf8(data.take(j)),
        !valid_first_scalar(data.skip(j)),
    ensures
        i == j,
{
    if i < j {
        assert(data.take(i) =~= data.take(j).take(i));
        lemma_prefix_boundary(data.take(i), data.take(j));
        let x = data.take(j).skip(i);
        assert(x =~= data.skip(i).take(x.len() as int));
        lemma_first_scalar_extend(x, data.skip(i));
    } else if j < i {
        assert(data.take(j) =~= data.take(i).take(j));
        lemma_prefix_boundary(data.take(j), data.take(i));
        let x = data.take(i).skip(j);
        assert(x =~= data.skip(j).take(x.len() as int));
        lemma_first_scalar_extend(x, data.skip(j));
    }
}

/// Two validators that both meet `utf8_outcome_ok` report the same
/// outcome: `validate_utf8` and `validate_and_split_lines` agree on every
/// input, error position included.
pub proof fn lemma_outcome_unique(data: Seq<u8>, r1: Result<(), Utf8Error>, r2: Result<(), Utf8Error>)
    requires
        utf8_outcome_ok(data, r1),
        utf8_outcome_ok(data, r2),
    ensures
        r1 == r2,
{
    if r1 is Err && r2 is Err {
        let e1 = r1->Err_0;
        let e2 = r2->Err_0;
        lemma_valid_up_to_unique(data, e1.valid_up_to as int, e2.valid_up_to as int);
        assert(e1 == e2);
        assert(r1 == Err::<(), Utf8Error>(e1));
        assert(r2 == Err::<(), Utf8Error>(e2));
    } else {
        assert(r1 is Ok && r2 is Ok);
        let u1: () = r1->Ok_0;
        let u2: () = r2->Ok_0;
        assert(u1 == u2);
    }
}

} // verus!
