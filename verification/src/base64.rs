//! Standard base64 (RFC 4648) encoding and decoding.
use vstd::prelude::*;
use crate::text;

verus! {

/// Error when decoding invalid base64.
#[derive(Debug, Clone, Copy, PartialEq, Eq, Structural)]
pub struct DecodeError {
    /// Byte position of the invalid character.
    pub position: usize,
}

/// The character of the standard alphabet that stands for the 6-bit value `v`.
pub open spec fn sextet_char(v: u8) -> u8 {
    if v < 26 {
        (v + 65) as u8
    } else if v < 52 {
        (v - 26 + 97) as u8
    } else if v < 62 {
        (v - 52 + 48) as u8
    } else if v == 62 {
        43u8
    } else {
        47u8
    }
}

/// The 6-bit value of a character of the standard alphabet; `None` for any
/// other byte, the padding `=` included.
pub open spec fn char_sextet(c: u8) -> Option<u8> {
    if 65 <= c <= 90 {
        Some((c - 65) as u8)
    } else if 97 <= c <= 122 {
        Some((c - 97 + 26) as u8)
    } else if 48 <= c <= 57 {
        Some((c - 48 + 52) as u8)
    } else if c == 43 {
        Some(62u8)
    } else if c == 47 {
        Some(63u8)
    } else {
        None
    }
}

/// The padding character `=`.
pub open spec fn pad() -> u8 {
    61u8
}

/// The four characters that encode the three bytes `b0 b1 b2`.
pub open spec fn encode_group(b0: u8, b1: u8, b2: u8) -> Seq<u8> {
    seq![
        sextet_char(b0 >> 2),
        sextet_char(((b0 & 3) << 4) | (b1 >> 4)),
        sextet_char(((b1 & 15) << 2) | (b2 >> 6)),
        sextet_char(b2 & 63),
    ]
}

/// Standard padded base64 encoding of `s`.
pub open spec fn encode_spec(s: Seq<u8>) -> Seq<u8>
    decreases s.len(),
{
    if s.len() == 0 {
        Seq::empty()
    } else if s.len() == 1 {
        seq![sextet_char(s[0] >> 2), sextet_char((s[0] & 3) << 4), pad(), pad()]
    } else if s.len() == 2 {
        seq![
            sextet_char(s[0] >> 2),
            sextet_char(((s[0] & 3) << 4) | (s[1] >> 4)),
            sextet_char((s[1] & 15) << 2),
            pad(),
        ]
    } else {
        encode_group(s[0], s[1], s[2]) + encode_spec(s.skip(3))
    }
}

/// Decodes the groups of four characters of `t`, which starts at position
/// `off` of the whole input. The result holds the bytes written before
/// decoding stopped, and the position of the offending character if it
/// stopped on an error. Padding may stand only in the last group: as its
/// fourth character, or as its third and fourth. A `=` in an earlier group,
/// or a third-character `=` not followed by another, is an error at the
/// position of the offending character.
pub open spec fn decode_groups(t: Seq<u8>, off: int) -> (Seq<u8>, Option<int>)
    decreases t.len(),
{
    if t.len() < 4 {
        (Seq::empty(), None)
    } else {
        match char_sextet(t[0]) {
            None => (Seq::empty(), Some(off)),
            Some(a) => match char_sextet(t[1]) {
                None => (Seq::empty(), Some(off + 1)),
                Some(b) => if t[2] == pad() {
                    if t.len() > 4 {
                        (Seq::empty(), Some(off + 2))
                    } else if t[3] != pad() {
                        (Seq::empty(), Some(off + 3))
                    } else {
                        (seq![(a << 2) | (b >> 4)], None)
                    }
                } else {
                    match char_sextet(t[2]) {
                        None => (Seq::empty(), Some(off + 2)),
                        Some(c) => if t[3] == pad() {
                            if t.len() > 4 {
                                (Seq::empty(), Some(off + 3))
                            } else {
                                (seq![(a << 2) | (b >> 4), (b << 4) | (c >> 2)], None)
                            }
                        } else {
                            match char_sextet(t[3]) {
                                None => (Seq::empty(), Some(off + 3)),
                                Some(d) => {
                                    let rest = decode_groups(t.skip(4), off + 4);
                                    (
                                        seq![(a << 2) | (b >> 4), (b << 4) | (c >> 2), (c << 6) | d]
                                            + rest.0,
                                        rest.1,
                                    )
                                },
                            }
                        }
                    }
                },
            },
        }
    }
}

/// Decoding of a whole input: the bytes written, and the error position if
/// any. An input whose length is not a multiple of four is refused at once,
/// with its length as the position.
pub open spec fn decode_spec(s: Seq<u8>) -> (Seq<u8>, Option<int>) {
    if s.len() == 0 {
        (Seq::empty(), None)
    } else if s.len() % 4 != 0 {
        (Seq::empty(), Some(s.len() as int))
    } else {
        decode_groups(s, 0)
    }
}

/// The length of the encoding of `input_len` bytes.
pub open spec fn encoded_len_spec(input_len: int) -> int {
    ((input_len + 2) / 3) * 4
}

/// The largest number of bytes that `encoded_len` characters decode to.
pub open spec fn decoded_len_spec(encoded_len: int) -> int {
    (encoded_len / 4) * 3
}

fn encode_sextet(v: u8) -> (c: u8)
    requires
        v < 64,
    ensures
        c == sextet_char(v),
{
    if v < 26 {
        v + 65
    } else if v < 52 {
        v - 26 + 97
    } else if v < 62 {
        v - 52 + 48
    } else if v == 62 {
        43
    } else {
        47
    }
}

proof fn lemma_triple(b0: u8, b1: u8, b2: u8)
    ensures
        ({
            let t = ((b0 as u32) << 16) | ((b1 as u32) << 8) | (b2 as u32);
            &&& ((t >> 18) & 0x3F) as u8 == b0 >> 2
            &&& ((t >> 12) & 0x3F) as u8 == ((b0 & 3) << 4) | (b1 >> 4)
            &&& ((t >> 6) & 0x3F) as u8 == ((b1 & 15) << 2) | (b2 >> 6)
            &&& (t & 0x3F) as u8 == b2 & 63
            &&& (t >> 18) & 0x3F < 64
            &&& (t >> 12) & 0x3F < 64
            &&& (t >> 6) & 0x3F < 64
            &&& t & 0x3F < 64
        }),
{
    assert({
        let t = ((b0 as u32) << 16) | ((b1 as u32) << 8) | (b2 as u32);
        &&& ((t >> 18) & 0x3F) as u8 == b0 >> 2
        &&& ((t >> 12) & 0x3F) as u8 == ((b0 & 3) << 4) | (b1 >> 4)
        &&& ((t >> 6) & 0x3F) as u8 == ((b1 & 15) << 2) | (b2 >> 6)
        &&& (t & 0x3F) as u8 == b2 & 63
        &&& (t >> 18) & 0x3F < 64
        &&& (t >> 12) & 0x3F < 64
        &&& (t >> 6) & 0x3F < 64
        &&& t & 0x3F < 64
    }) by (bit_vector);
}

proof fn lemma_tail_one(b0: u8)
    ensures
        (((b0 as u32) >> 2) & 0x3F) as u8 == b0 >> 2,
        (((b0 as u32) << 4) & 0x3F) as u8 == (b0 & 3) << 4,
        ((b0 as u32) >> 2) & 0x3F < 64,
        ((b0 as u32) << 4) & 0x3F < 64,
{
    assert({
        &&& (((b0 as u32) >> 2) & 0x3F) as u8 == b0 >> 2
        &&& (((b0 as u32) << 4) & 0x3F) as u8 == (b0 & 3) << 4
        &&& ((b0 as u32) >> 2) & 0x3F < 64
        &&& ((b0 as u32) << 4) & 0x3F < 64
    }) by (bit_vector);
}

proof fn lemma_tail_two(b0: u8, b1: u8)
    ensures
        ((((b0 as u32) << 4) | ((b1 as u32) >> 4)) & 0x3F) as u8 == ((b0 & 3) << 4) | (b1 >> 4),
        (((b1 as u32) << 2) & 0x3F) as u8 == (b1 & 15) << 2,
        (((b0 as u32) << 4) | ((b1 as u32) >> 4)) & 0x3F < 64,
        ((b1 as u32) << 2) & 0x3F < 64,
{
    assert({
        &&& ((((b0 as u32) << 4) | ((b1 as u32) >> 4)) & 0x3F) as u8 == ((b0 & 3) << 4) | (b1
        >> 4)
        &&& (((b1 as u32) << 2) & 0x3F) as u8 == (b1 & 15) << 2
        &&& (((b0 as u32) << 4) | ((b1 as u32) >> 4)) & 0x3F < 64
        &&& ((b1 as u32) << 2) & 0x3F < 64
    }) by (bit_vector);
}

proof fn lemma_group_bound(i: int, oi: int, len: int, out_len: int)
    requires
        0 <= i,
        3 * oi == 4 * i,
        i + 3 <= len,
        out_len >= ((len + 2) / 3) * 4,
    ensures
        oi + 4 <= out_len,
{
    let k = i / 3;
    assert(i == 3 * k);
    assert((len + 2) / 3 >= k + 1);
    assert(((len + 2) / 3) * 4 >= (k + 1) * 4) by (nonlinear_arith)
        requires
            (len + 2) / 3 >= k + 1,
    ;
}

/// Encodes `input` to standard base64 into `output`, and returns the
/// number of bytes written. The output buffer must hold at least
/// `encoded_len(input.len())` bytes; bytes after the encoding are left
/// unchanged.
pub fn base64_encode(input: &[u8], output: &mut [u8]) -> (written: usize)
    requires
        encoded_len_spec(input@.len() as int) <= old(output)@.len(),
    ensures
        written == encode_spec(input@).len(),
        final(output)@.len() == old(output)@.len(),
        final(output)@.take(written as int) == encode_spec(input@),
        final(output)@.skip(written as int) == old(output)@.skip(written as int),
{
    encode_scalar(input, output)
}

fn encode_scalar(input: &[u8], output: &mut [u8]) -> (written: usize)
    requires
        encoded_len_spec(input@.len() as int) <= old(output)@.len(),
    ensures
        written == encode_spec(input@).len(),
        final(output)@.len() == old(output)@.len(),
        final(output)@.take(written as int) == encode_spec(input@),
        final(output)@.skip(written as int) == old(output)@.skip(written as int),
{
    let len = input.len();
    let mut oi: usize = 0;
    let mut i: usize = 0;
    assert(input@.skip(0) =~= input@);
    assert(output@.take(0) + encode_spec(input@.skip(0)) =~= encode_spec(input@));
    while len - i >= 3
        invariant
            len == input@.len(),
            i <= len,
            3 * oi == 4 * i,
            output@.len() == old(output)@.len(),
            encoded_len_spec(len as int) <= output@.len(),
            output@.take(oi as int) + encode_spec(input@.skip(i as int)) == encode_spec(input@),
            output@.skip(oi as int) == old(output)@.skip(oi as int),
        decreases len - i,
    {
        proof {
            lemma_group_bound(i as int, oi as int, len as int, output@.len() as int);
        }
        let b0 = input[i];
        let b1 = input[i + 1];
        let b2 = input[i + 2];
        let triple: u32 = ((b0 as u32) << 16) | ((b1 as u32) << 8) | (b2 as u32);
        proof {
            lemma_triple(b0, b1, b2);
        }
        let c0 = encode_sextet(((triple >> 18) & 0x3F) as u8);
        let c1 = encode_sextet(((triple >> 12) & 0x3F) as u8);
        let c2 = encode_sextet(((triple >> 6) & 0x3F) as u8);
        let c3 = encode_sextet((triple & 0x3F) as u8);
        let ghost prev = output@;
        output[oi] = c0;
        output[oi + 1] = c1;
        output[oi + 2] = c2;
        output[oi + 3] = c3;
        proof {
            let rest = input@.skip(i as int);
            assert(rest[0] == b0 && rest[1] == b1 && rest[2] == b2);
            assert(rest.skip(3) =~= input@.skip(i + 3));
            assert(encode_spec(rest) == encode_group(b0, b1, b2) + encode_spec(rest.skip(3)));
            assert(output@.take(oi + 4) =~= prev.take(oi as int) + encode_group(b0, b1, b2));
            assert(output@.skip(oi + 4) =~= prev.skip(oi + 4));
            assert(prev.skip(oi + 4) =~= old(output)@.skip(oi + 4)) by {
                assert(prev.skip(oi as int).skip(4) =~= prev.skip(oi + 4));
                assert(old(output)@.skip(oi as int).skip(4) =~= old(output)@.skip(oi + 4));
            }
        }
        oi = oi + 4;
        i = i + 3;
    }
    let rem = len - i;
    let ghost rest = input@.skip(i as int);
    assert(rest.len() == rem);
    if rem == 1 {
        proof {
            lemma_group_bound(i as int, oi as int, len as int + 2, output@.len() as int);
        }
        let b0 = input[len - 1];
        assert(rest[0] == b0);
        proof {
            lemma_tail_one(b0);
        }
        let ghost prev = output@;
        let c0 = encode_sextet(((b0 as u32 >> 2) & 0x3F) as u8);
        let c1 = encode_sextet((((b0 as u32) << 4) & 0x3F) as u8);
        output[oi] = c0;
        output[oi + 1] = c1;
        output[oi + 2] = 61u8;
        output[oi + 3] = 61u8;
        proof {
            assert(output@.take(oi + 4) =~= prev.take(oi as int) + encode_spec(rest));
            assert(output@.skip(oi + 4) =~= prev.skip(oi + 4));
            assert(prev.skip(oi as int).skip(4) =~= prev.skip(oi + 4));
            assert(old(output)@.skip(oi as int).skip(4) =~= old(output)@.skip(oi + 4));
        }
        oi = oi + 4;
    } else if rem == 2 {
        proof {
            lemma_group_bound(i as int, oi as int, len as int + 1, output@.len() as int);
        }
        let b0 = input[len - 2];
        let b1 = input[len - 1];
        assert(rest[0] == b0 && rest[1] == b1);
        proof {
            lemma_tail_one(b0);
            lemma_tail_two(b0, b1);
        }
        let ghost prev = output@;
        let c0 = encode_sextet(((b0 as u32 >> 2) & 0x3F) as u8);
        let c1 = encode_sextet(((((b0 as u32) << 4) | ((b1 as u32) >> 4)) & 0x3F) as u8);
        let c2 = encode_sextet((((b1 as u32) << 2) & 0x3F) as u8);
        output[oi] = c0;
        output[oi + 1] = c1;
        output[oi + 2] = c2;
        output[oi + 3] = 61u8;
        proof {
            assert(output@.take(oi + 4) =~= prev.take(oi as int) + encode_spec(rest));
            assert(output@.skip(oi + 4) =~= prev.skip(oi + 4));
            assert(prev.skip(oi as int).skip(4) =~= prev.skip(oi + 4));
            assert(old(output)@.skip(oi as int).skip(4) =~= old(output)@.skip(oi + 4));
        }
        oi = oi + 4;
    } else {
        assert(output@.take(oi as int) + encode_spec(rest) =~= output@.take(oi as int));
    }
    oi
}

/// Decodes `input` into `output`, the way `decode_spec` describes.
pub open spec fn decode_outcome_ok(
    input: Seq<u8>,
    before: Seq<u8>,
    after: Seq<u8>,
    r: Result<usize, DecodeError>,
) -> bool {
    let (bytes, err) = decode_spec(input);
    &&& after.len() == before.len()
    &&& after.take(bytes.len() as int) == bytes
    &&& after.skip(bytes.len() as int) == before.skip(bytes.len() as int)
    &&& match err {
        None => r == Ok::<usize, DecodeError>(bytes.len() as usize),
        Some(p) => r == Err::<usize, DecodeError>(DecodeError { position: p as usize }),
    }
}

fn decode_byte(b: u8, pos: usize) -> (r: Result<u8, DecodeError>)
    ensures
        match char_sextet(b) {
            Some(v) => r == Ok::<u8, DecodeError>(v) && v < 64,
            None => r == Err::<u8, DecodeError>(DecodeError { position: pos }),
        },
{
    if 65 <= b && b <= 90 {
        Ok(b - 65)
    } else if 97 <= b && b <= 122 {
        Ok(b - 97 + 26)
    } else if 48 <= b && b <= 57 {
        Ok(b - 48 + 52)
    } else if b == 43 {
        Ok(62)
    } else if b == 47 {
        Ok(63)
    } else {
        Err(DecodeError { position: pos })
    }
}

/// Decodes standard base64 into `output` and returns the number of bytes
/// written. The output buffer must hold the decoded bytes; a buffer of
/// `decoded_len(input.len())` bytes always does (`lemma_decoded_len_bound`).
///
/// Padding `=` may only end the last group. On an invalid or misplaced
/// character the error holds its position, and the groups decoded before it
/// have already been written.
pub fn base64_decode(input: &[u8], output: &mut [u8]) -> (r: Result<usize, DecodeError>)
    requires
        decode_spec(input@).0.len() <= old(output)@.len(),
    ensures
        decode_outcome_ok(input@, old(output)@, final(output)@, r),
{
    decode_scalar(input, output)
}

fn decode_scalar(input: &[u8], output: &mut [u8]) -> (r: Result<usize, DecodeError>)
    requires
        decode_spec(input@).0.len() <= old(output)@.len(),
    ensures
        decode_outcome_ok(input@, old(output)@, final(output)@, r),
{
    let len = input.len();
    if len == 0 {
        assert(output@.skip(0) =~= old(output)@);
        assert(output@.take(0) =~= Seq::<u8>::empty());
        return Ok(0);
    }
    if len % 4 != 0 {
        assert(output@.skip(0) =~= old(output)@);
        assert(output@.take(0) =~= Seq::<u8>::empty());
        return Err(DecodeError { position: len });
    }
    let mut oi: usize = 0;
    let mut i: usize = 0;
    assert(input@.skip(0) =~= input@);
    assert(output@.take(0) + decode_groups(input@, 0).0 =~= decode_groups(input@, 0).0);
    while i < len
        invariant
            len == input@.len(),
            len % 4 == 0,
            len > 0,
            i <= len,
            i % 4 == 0,
            4 * oi == 3 * i,
            oi <= output@.len(),
            output@.len() == old(output)@.len(),
            decode_spec(input@).0.len() <= output@.len(),
            decode_spec(input@) == (
                output@.take(oi as int) + decode_groups(input@.skip(i as int), i as int).0,
                decode_groups(input@.skip(i as int), i as int).1,
            ),
            output@.skip(oi as int) == old(output)@.skip(oi as int),
        decreases len - i,
    {
        let ghost t = input@.skip(i as int);
        let ghost prev = output@;
        assert(t[0] == input@[i as int] && t[1] == input@[i + 1] && t[2] == input@[i + 2] && t[3]
            == input@[i + 3]);
        assert(output@.take(oi as int).len() == oi);
        let a = match decode_byte(input[i], i) {
            Ok(v) => v,
            Err(e) => {
                assert(output@.take(oi as int) + Seq::<u8>::empty() =~= output@.take(oi as int));
                return Err(e);
            },
        };
        let b = match decode_byte(input[i + 1], i + 1) {
            Ok(v) => v,
            Err(e) => {
                assert(output@.take(oi as int) + Seq::<u8>::empty() =~= output@.take(oi as int));
                return Err(e);
            },
        };
        if input[i + 2] == 61u8 {
            if i + 4 < len {
                assert(output@.take(oi as int) + Seq::<u8>::empty() =~= output@.take(oi as int));
                return Err(DecodeError { position: i + 2 });
            }
            if input[i + 3] != 61u8 {
                assert(output@.take(oi as int) + Seq::<u8>::empty() =~= output@.take(oi as int));
                return Err(DecodeError { position: i + 3 });
            }
            assert(decode_groups(t, i as int).0.len() == 1);
            proof {
                assert(prev.skip(oi as int).skip(1) =~= prev.skip(oi + 1));
                assert(old(output)@.skip(oi as int).skip(1) =~= old(output)@.skip(oi + 1));
            }
            output[oi] = (a << 2) | (b >> 4);
            assert(output@.take(oi + 1) =~= prev.take(oi as int) + seq![(a << 2) | (b >> 4)]);
            assert(output@.skip(oi + 1) =~= prev.skip(oi + 1));
            return Ok(oi + 1);
        }
        let c = match decode_byte(input[i + 2], i + 2) {
            Ok(v) => v,
            Err(e) => {
                assert(output@.take(oi as int) + Seq::<u8>::empty() =~= output@.take(oi as int));
                return Err(e);
            },
        };
        if input[i + 3] == 61u8 {
            if i + 4 < len {
                assert(output@.take(oi as int) + Seq::<u8>::empty() =~= output@.take(oi as int));
                return Err(DecodeError { position: i + 3 });
            }
            assert(decode_groups(t, i as int).0.len() == 2);
            proof {
                assert(prev.skip(oi as int).skip(2) =~= prev.skip(oi + 2));
                assert(old(output)@.skip(oi as int).skip(2) =~= old(output)@.skip(oi + 2));
            }
            output[oi] = (a << 2) | (b >> 4);
            output[oi + 1] = (b << 4) | (c >> 2);
            assert(output@.take(oi + 2) =~= prev.take(oi as int) + seq![
                (a << 2) | (b >> 4),
                (b << 4) | (c >> 2),
            ]);
            assert(output@.skip(oi + 2) =~= prev.skip(oi + 2));
            return Ok(oi + 2);
        }
        let d = match decode_byte(input[i + 3], i + 3) {
            Ok(v) => v,
            Err(e) => {
                assert(output@.take(oi as int) + Seq::<u8>::empty() =~= output@.take(oi as int));
                return Err(e);
            },
        };
        assert(decode_groups(t, i as int).0.len() >= 3);
        proof {
            assert(prev.skip(oi as int).skip(3) =~= prev.skip(oi + 3));
            assert(old(output)@.skip(oi as int).skip(3) =~= old(output)@.skip(oi + 3));
        }
        output[oi] = (a << 2) | (b >> 4);
        output[oi + 1] = (b << 4) | (c >> 2);
        output[oi + 2] = (c << 6) | d;
        proof {
            let g = seq![(a << 2) | (b >> 4), (b << 4) | (c >> 2), (c << 6) | d];
            assert(output@.take(oi + 3) =~= prev.take(oi as int) + g);
            assert(output@.skip(oi + 3) =~= prev.skip(oi + 3));
            assert(t.skip(4) =~= input@.skip(i + 4));
            let rest = decode_groups(input@.skip(i + 4), i + 4);
            assert(decode_groups(t, i as int) == (g + rest.0, rest.1));
            assert(prev.take(oi as int) + (g + rest.0) =~= output@.take(oi + 3) + rest.0);
        }
        oi = oi + 3;
        i = i + 4;
    }
    proof {
        assert(input@.skip(i as int).len() == 0);
        assert(output@.take(oi as int) + Seq::<u8>::empty() =~= output@.take(oi as int));
    }
    Ok(oi)
}

/// The length of the encoding of `input_len` bytes: four characters for
/// every started group of three bytes.
pub fn encoded_len(input_len: usize) -> (n: usize)
    requires
        encoded_len_spec(input_len as int) <= usize::MAX,
    ensures
        n == encoded_len_spec(input_len as int),
{
    ((input_len + 2) / 3) * 4
}

/// The largest number of bytes that `encoded_len` characters decode to.
pub fn decoded_len(encoded_len: usize) -> (n: usize)
    ensures
        n == decoded_len_spec(encoded_len as int),
{
    (encoded_len / 4) * 3
}

proof fn lemma_sextet_char(v: u8)
    requires
        v < 64,
    ensures
        char_sextet(sextet_char(v)) == Some(v),
        sextet_char(v) != pad(),
{
}

proof fn lemma_group_bits(b0: u8, b1: u8, b2: u8)
    ensures
        b0 >> 2 < 64,
        ((b0 & 3) << 4) | (b1 >> 4) < 64,
        ((b1 & 15) << 2) | (b2 >> 6) < 64,
        b2 & 63 < 64,
        (b0 & 3) << 4 < 64,
        (b1 & 15) << 2 < 64,
        ((b0 >> 2) << 2) | ((((b0 & 3) << 4) | (b1 >> 4)) >> 4) == b0,
        ((((b0 & 3) << 4) | (b1 >> 4)) << 4) | ((((b1 & 15) << 2) | (b2 >> 6)) >> 2) == b1,
        ((((b1 & 15) << 2) | (b2 >> 6)) << 6) | (b2 & 63) == b2,
        ((b0 >> 2) << 2) | (((b0 & 3) << 4) >> 4) == b0,
        ((((b0 & 3) << 4) | (b1 >> 4)) << 4) | (((b1 & 15) << 2) >> 2) == b1,
{
    assert({
        &&& b0 >> 2 < 64
        &&& ((b0 & 3) << 4) | (b1 >> 4) < 64
        &&& ((b1 & 15) << 2) | (b2 >> 6) < 64
        &&& b2 & 63 < 64
        &&& (b0 & 3) << 4 < 64
        &&& (b1 & 15) << 2 < 64
        &&& ((b0 >> 2) << 2) | ((((b0 & 3) << 4) | (b1 >> 4)) >> 4) == b0
        &&& ((((b0 & 3) << 4) | (b1 >> 4)) << 4) | ((((b1 & 15) << 2) | (b2 >> 6)) >> 2) == b1
        &&& ((((b1 & 15) << 2) | (b2 >> 6)) << 6) | (b2 & 63) == b2
        &&& ((b0 >> 2) << 2) | (((b0 & 3) << 4) >> 4) == b0
        &&& ((((b0 & 3) << 4) | (b1 >> 4)) << 4) | (((b1 & 15) << 2) >> 2) == b1
    }) by (bit_vector);
}

/// The encoding of `n` bytes is `encoded_len(n)` characters long.
pub proof fn lemma_encode_len(s: Seq<u8>)
    ensures
        encode_spec(s).len() == encoded_len_spec(s.len() as int),
    decreases s.len(),
{
    if s.len() >= 3 {
        lemma_encode_len(s.skip(3));
    }
}

/// Every character of an encoding is in the standard alphabet or is the
/// padding `=`, and padding only occurs among the last two characters.
pub proof fn lemma_encode_alphabet(s: Seq<u8>)
    ensures
        forall|k: int|
            0 <= k < encode_spec(s).len() ==> (char_sextet(#[trigger] encode_spec(s)[k]) is Some
                || (encode_spec(s)[k] == pad() && k >= encode_spec(s).len() - 2)),
    decreases s.len(),
{
    if s.len() > 0 {
        let b0 = s[0];
        let b1 = if s.len() > 1 { s[1] } else { 0u8 };
        let b2 = if s.len() > 2 { s[2] } else { 0u8 };
        lemma_group_bits(b0, b1, b2);
        lemma_sextet_char(b0 >> 2);
        lemma_sextet_char(((b0 & 3) << 4) | (b1 >> 4));
        lemma_sextet_char(((b1 & 15) << 2) | (b2 >> 6));
        lemma_sextet_char(b2 & 63);
        lemma_sextet_char((b0 & 3) << 4);
        lemma_sextet_char((b1 & 15) << 2);
        if s.len() >= 3 {
            lemma_encode_alphabet(s.skip(3));
            let e = encode_spec(s);
            let r = encode_spec(s.skip(3));
            assert forall|k: int| 0 <= k < e.len() implies (char_sextet(#[trigger] e[k]) is Some
                || (e[k] == pad() && k >= e.len() - 2)) by {
                if k >= 4 {
                    assert(e[k] == r[k - 4]);
                }
            }
        }
    }
}

proof fn lemma_decode_encode_groups(s: Seq<u8>, off: int)
    ensures
        decode_groups(encode_spec(s), off) == (s, None::<int>),
    decreases s.len(),
{
    let e = encode_spec(s);
    if s.len() == 0 {
    } else {
        let b0 = s[0];
        let b1 = if s.len() > 1 { s[1] } else { 0u8 };
        let b2 = if s.len() > 2 { s[2] } else { 0u8 };
        lemma_group_bits(b0, b1, b2);
        lemma_sextet_char(b0 >> 2);
        lemma_sextet_char(((b0 & 3) << 4) | (b1 >> 4));
        lemma_sextet_char(((b1 & 15) << 2) | (b2 >> 6));
        lemma_sextet_char(b2 & 63);
        lemma_sextet_char((b0 & 3) << 4);
        lemma_sextet_char((b1 & 15) << 2);
        if s.len() == 1 {
            assert(seq![b0] =~= s);
        } else if s.len() == 2 {
            assert(seq![b0, b1] =~= s);
        } else {
            lemma_decode_encode_groups(s.skip(3), off + 4);
            assert(e.skip(4) =~= encode_spec(s.skip(3)));
            assert(seq![b0, b1, b2] + s.skip(3) =~= s);
        }
    }
}

/// The characters are those of the standard alphabet of RFC 4648, in its
/// order: value `v` is written as the `v`-th character of
/// `A..Z a..z 0..9 + /`, and exactly those characters decode, each to its
/// index in the alphabet.
pub proof fn lemma_standard_alphabet(v: u8, c: u8)
    ensures
        v < 64 ==> sextet_char(v) as u32
            == "ABCDEFGHIJKLMNOPQRSTUVWXYZabcdefghijklmnopqrstuvwxyz0123456789+/"@[v as int] as u32,
        char_sextet(c) == Some(v) <==> (v < 64 && c as u32
            == "ABCDEFGHIJKLMNOPQRSTUVWXYZabcdefghijklmnopqrstuvwxyz0123456789+/"@[v as int] as u32),
{
    reveal_strlit("ABCDEFGHIJKLMNOPQRSTUVWXYZabcdefghijklmnopqrstuvwxyz0123456789+/");
}

/// The padding character is `=`.
pub proof fn lemma_pad_char()
    ensures
        pad() == '=' as u8,
{
}

/// Three bytes `b0 b1 b2` are written as four characters whose values are
/// the 24-bit number `b0 b1 b2`, most significant byte first, cut into four
/// 6-bit pieces from the top. One final byte is written as two characters
/// for the byte followed by four zero bits, then `==`; two final bytes as
/// three characters for the bytes followed by two zero bits, then `=`.
pub proof fn lemma_encode_group_values(b0: u8, b1: u8, b2: u8)
    ensures
        ({
            let n = b0 as int * 65536 + b1 as int * 256 + b2 as int;
            let e = encode_spec(seq![b0, b1, b2]);
            &&& e.len() == 4
            &&& char_sextet(e[0]) == Some((n / 262144) as u8)
            &&& char_sextet(e[1]) == Some(((n / 4096) % 64) as u8)
            &&& char_sextet(e[2]) == Some(((n / 64) % 64) as u8)
            &&& char_sextet(e[3]) == Some((n % 64) as u8)
        }),
        ({
            let n = b0 as int * 16;
            let e = encode_spec(seq![b0]);
            &&& e.len() == 4
            &&& char_sextet(e[0]) == Some((n / 64) as u8)
            &&& char_sextet(e[1]) == Some((n % 64) as u8)
            &&& e[2] == pad() && e[3] == pad()
        }),
        ({
            let n = (b0 as int * 256 + b1 as int) * 4;
            let e = encode_spec(seq![b0, b1]);
            &&& e.len() == 4
            &&& char_sextet(e[0]) == Some((n / 4096) as u8)
            &&& char_sextet(e[1]) == Some(((n / 64) % 64) as u8)
            &&& char_sextet(e[2]) == Some((n % 64) as u8)
            &&& e[3] == pad()
        }),
{
    lemma_group_bits(b0, b1, b2);
    lemma_sextet_char(b0 >> 2);
    lemma_sextet_char(((b0 & 3) << 4) | (b1 >> 4));
    lemma_sextet_char(((b1 & 15) << 2) | (b2 >> 6));
    lemma_sextet_char(b2 & 63);
    lemma_sextet_char((b0 & 3) << 4);
    lemma_sextet_char((b1 & 15) << 2);
    let s3 = seq![b0, b1, b2];
    assert(s3.skip(3) =~= Seq::<u8>::empty());
    assert(s3[0] == b0 && s3[1] == b1 && s3[2] == b2);
    assert(encode_spec(s3.skip(3)) == Seq::<u8>::empty());
    assert(encode_spec(s3) =~= encode_group(b0, b1, b2));
    assert(b0 >> 2 == (b0 as int * 65536 + b1 as int * 256 + b2 as int) / 262144) by (bit_vector);
    assert(((b0 & 3) << 4) | (b1 >> 4) == ((b0 as int * 65536 + b1 as int * 256 + b2 as int) / 4096)
        % 64) by (bit_vector);
    assert(((b1 & 15) << 2) | (b2 >> 6) == ((b0 as int * 65536 + b1 as int * 256 + b2 as int) / 64)
        % 64) by (bit_vector);
    assert(b2 & 63 == (b0 as int * 65536 + b1 as int * 256 + b2 as int) % 64) by (bit_vector);
    assert(b0 >> 2 == (b0 as int * 16) / 64) by (bit_vector);
    assert((b0 & 3) << 4 == (b0 as int * 16) % 64) by (bit_vector);
    assert(b0 >> 2 == ((b0 as int * 256 + b1 as int) * 4) / 4096) by (bit_vector);
    assert(((b0 & 3) << 4) | (b1 >> 4) == (((b0 as int * 256 + b1 as int) * 4) / 64) % 64)
        by (bit_vector);
    assert((b1 & 15) << 2 == ((b0 as int * 256 + b1 as int) * 4) % 64) by (bit_vector);
}

/// Encoding works group by group: after a whole number of 3-byte groups,
/// the encoding of what follows is simply appended.
pub proof fn lemma_encode_concat(a: Seq<u8>, b: Seq<u8>)
    requires
        a.len() % 3 == 0,
    ensures
        encode_spec(a + b) == encode_spec(a) + encode_spec(b),
    decreases a.len(),
{
    if a.len() == 0 {
        assert(a + b =~= b);
        assert(encode_spec(a) + encode_spec(b) =~= encode_spec(b));
    } else {
        lemma_encode_concat(a.skip(3), b);
        assert((a + b).skip(3) =~= a.skip(3) + b);
        assert((a + b)[0] == a[0] && (a + b)[1] == a[1] && (a + b)[2] == a[2]);
        assert(encode_group(a[0], a[1], a[2]) + (encode_spec(a.skip(3)) + encode_spec(b))
            =~= encode_group(a[0], a[1], a[2]) + encode_spec(a.skip(3)) + encode_spec(b));
    }
}

/// Decoding accepts only the standard alphabet with padding at the very
/// end: on success every character decodes, but for `=` among the last two.
/// An error points at the end of an input whose length is not a multiple
/// of four, at a character outside the alphabet, or at a character that
/// follows a misplaced `=`.
pub proof fn lemma_decode_errors(s: Seq<u8>)
    ensures
        decode_spec(s).1 matches Some(p) ==> ((p == s.len() && s.len() % 4 != 0) || (0 <= p
            < s.len() && (char_sextet(s[p]) is None || (p >= 1 && s[p - 1] == pad())))),
        decode_spec(s).1 is None ==> s.len() % 4 == 0 && forall|k: int|
            0 <= k < s.len() ==> char_sextet(#[trigger] s[k]) is Some || (s[k] == pad() && k
                >= s.len() - 2),
{
    if s.len() > 0 && s.len() % 4 == 0 {
        lemma_decode_groups_errors(s, 0);
    }
}

proof fn lemma_decode_groups_errors(t: Seq<u8>, off: int)
    requires
        t.len() % 4 == 0,
    ensures
        decode_groups(t, off).1 matches Some(p) ==> (off <= p < off + t.len() && (char_sextet(
            t[p - off],
        ) is None || (p - off >= 1 && t[p - off - 1] == pad()))),
        decode_groups(t, off).1 is None ==> forall|k: int|
            0 <= k < t.len() ==> char_sextet(#[trigger] t[k]) is Some || (t[k] == pad() && k
                >= t.len() - 2),
    decreases t.len(),
{
    if t.len() >= 4 {
        let r = t.skip(4);
        lemma_decode_groups_errors(r, off + 4);
        assert(char_sextet(pad()) is None);
        if decode_groups(t, off).1 is None {
            assert forall|k: int| 0 <= k < t.len() implies char_sextet(#[trigger] t[k]) is Some || (
            t[k] == pad() && k >= t.len() - 2) by {
                if k >= 4 {
                    assert(t[k] == r[k - 4]);
                }
            }
        }
        if decode_groups(t, off).1 is Some && decode_groups(t, off).1 == decode_groups(r, off + 4).1
            && char_sextet(t[0]) is Some && char_sextet(t[1]) is Some && char_sextet(t[2]) is Some
            && char_sextet(t[3]) is Some {
            let p = decode_groups(t, off).1->Some_0;
            assert(t[p - off] == r[p - off - 4]);
            if p - off >= 5 {
                assert(t[p - off - 1] == r[p - off - 5]);
            }
        }
    }
}

/// Decoding an encoding gives back the encoded bytes, with no error.
pub proof fn lemma_roundtrip(s: Seq<u8>)
    ensures
        decode_spec(encode_spec(s)) == (s, None::<int>),
{
    lemma_encode_len(s);
    lemma_decode_encode_groups(s, 0);
    if s.len() == 0 {
        assert(s =~= Seq::<u8>::empty());
    }
}


impl DecodeError {
    /// The error message: the position of the invalid character.
    pub fn to_string(&self) -> (s: String)
        ensures
            s@ == "invalid base64 at position "@ + text::decimal(self.position as nat),
    {
        let mut s = String::new();
        s.append("invalid base64 at position ");
        text::push_decimal(&mut s, self.position);
        s
    }
}

/// Decoding writes at most `decoded_len(input.len())` bytes: three for
/// every group of four characters.
pub proof fn lemma_decoded_len_bound(s: Seq<u8>)
    ensures
        decode_spec(s).0.len() <= decoded_len_spec(s.len() as int),
{
    if s.len() > 0 && s.len() % 4 == 0 {
        lemma_decode_groups_len(s, 0);
    }
}

proof fn lemma_decode_groups_len(t: Seq<u8>, off: int)
    ensures
        decode_groups(t, off).0.len() <= (t.len() / 4) * 3,
    decreases t.len(),
{
    if t.len() >= 4 {
        lemma_decode_groups_len(t.skip(4), off + 4);
        assert(t.skip(4).len() / 4 == t.len() / 4 - 1);
    }
}

} // verus!
