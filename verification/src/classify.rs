//! Character classification with nibble lookup tables.
//!
//! Each byte is split into its high and low nibble; each nibble indexes a
//! 16-entry table, and the byte matches when the two entries share a bit.
use vstd::prelude::*;
use crate::positions;

verus! {

/// Whether byte `b` matches the lookup tables `lo` and `hi`.
pub open spec fn table_match(lo: Seq<u8>, hi: Seq<u8>, b: u8) -> bool {
    lo[(b & 15) as int] & hi[(b >> 4) as int] != 0
}

/// Whether the low-nibble table `lo` has, in the entry of `b`'s low nibble,
/// the bit named by `b`'s high nibble.
spec fn lo_bit(lo: Seq<u8>, b: u8) -> bool {
    lo[(b & 15) as int] & (1u8 << (b >> 4)) != 0
}

/// Character classifier using nibble lookup tables.
pub struct CharClassifier {
    lo_table: [u8; 16],
    hi_table: [u8; 16],
}

impl CharClassifier {
    /// The table indexed by the low nibble.
    pub closed spec fn lo(&self) -> Seq<u8> {
        self.lo_table@
    }

    /// The table indexed by the high nibble.
    pub closed spec fn hi(&self) -> Seq<u8> {
        self.hi_table@
    }

    /// Whether the classifier matches byte `b`.
    pub open spec fn matches(&self, b: u8) -> bool {
        table_match(self.lo(), self.hi(), b)
    }

    /// The classifier's matching predicate as a value.
    pub open spec fn match_pred(&self) -> spec_fn(u8) -> bool {
        |b: u8| self.matches(b)
    }

    /// Creates a classifier for a set of ASCII byte values. Non-ASCII bytes
    /// are ignored; an empty set matches nothing. The classifier matches
    /// exactly the ASCII bytes of `chars`, however many there are.
    ///
    /// Each high nibble below 8 owns one class bit: the high-nibble table
    /// holds that bit, and the low-nibble entry of a character gets the bit
    /// of the character's high nibble.
    pub fn new(chars: &[u8]) -> (c: Self)
        ensures
            forall|b: u8| #[trigger] c.matches(b) <==> (b < 128 && chars@.contains(b)),
    {
        let mut lo_table = [0u8; 16];
        let mut hi_table = [0u8; 16];
        let mut h: usize = 0;
        while h < 8
            invariant
                h <= 8,
                forall|k: int| 0 <= k < h ==> #[trigger] hi_table@[k] == 1u8 << (k as u8),
                forall|k: int| h <= k < 16 ==> #[trigger] hi_table@[k] == 0,
                forall|k: int| 0 <= k < 16 ==> #[trigger] lo_table@[k] == 0,
            decreases 8 - h,
        {
            hi_table[h] = 1u8 << (h as u8);
            h = h + 1;
        }
        proof {
            assert forall|b: u8| b < 128 implies !lo_bit(lo_table@, b) by {
                lemma_nibbles(b, b);
                lemma_class_bit(0, 0, b >> 4);
            }
        }
        let mut i: usize = 0;
        while i < chars.len()
            invariant
                i <= chars@.len(),
                forall|k: int| 0 <= k < 8 ==> #[trigger] hi_table@[k] == 1u8 << (k as u8),
                forall|k: int| 8 <= k < 16 ==> #[trigger] hi_table@[k] == 0,
                forall|b: u8|
                    b < 128 ==> (#[trigger] lo_bit(lo_table@, b) <==> exists|k: int|
                        0 <= k < i && chars@[k] == b),
            decreases chars@.len() - i,
        {
            let ch = chars[i];
            if ch <= 127 {
                let lo = (ch & 0x0F) as usize;
                let hi: u8 = ch >> 4;
                proof {
                    lemma_nibbles(ch, ch);
                }
                let ghost old_lo = lo_table@;
                lo_table[lo] = lo_table[lo] | (1u8 << hi);
                proof {
                    assert forall|b: u8| b < 128 implies (#[trigger] lo_bit(lo_table@, b)
                        <==> exists|k: int| 0 <= k < i + 1 && chars@[k] == b) by {
                        lemma_nibbles(b, ch);
                        let bl = (b & 15) as int;
                        let bh = b >> 4;
                        if bl == lo as int {
                            lemma_class_bit(old_lo[bl], hi, bh);
                        } else {
                            assert(lo_table@[bl] == old_lo[bl]);
                        }
                        if lo_bit(old_lo, b) {
                            let k = choose|k: int| 0 <= k < i && chars@[k] == b;
                            assert(0 <= k < i + 1 && chars@[k] == b);
                        }
                        if b == ch {
                            assert(chars@[i as int] == b);
                        }
                        if exists|k: int| 0 <= k < i + 1 && chars@[k] == b {
                            let k = choose|k: int| 0 <= k < i + 1 && chars@[k] == b;
                            if k < i {
                                assert(lo_bit(old_lo, b));
                            }
                        }
                    }
                }
            } else {
                proof {
                    assert forall|b: u8| b < 128 implies (#[trigger] lo_bit(lo_table@, b)
                        <==> exists|k: int| 0 <= k < i + 1 && chars@[k] == b) by {
                        if exists|k: int| 0 <= k < i + 1 && chars@[k] == b {
                            let k = choose|k: int| 0 <= k < i + 1 && chars@[k] == b;
                            assert(k < i);
                        }
                    }
                }
            }
            i = i + 1;
        }
        let c = CharClassifier { lo_table, hi_table };
        proof {
            assert forall|b: u8| #[trigger] c.matches(b) <==> (b < 128 && chars@.contains(b)) by {
                lemma_nibbles(b, b);
                let bl = (b & 15) as int;
                let bh = b >> 4;
                if b < 128 {
                    assert(hi_table@[bh as int] == 1u8 << bh);
                    if chars@.contains(b) {
                        let k = choose|k: int| 0 <= k < chars@.len() && chars@[k] == b;
                        assert(exists|k: int| 0 <= k < i && chars@[k] == b);
                    }
                    if lo_bit(lo_table@, b) {
                        let k = choose|k: int| 0 <= k < i && chars@[k] == b;
                        assert(chars@.contains(b));
                    }
                } else {
                    assert(hi_table@[bh as int] == 0);
                    lemma_class_bit(lo_table@[bl], 0, 0);
                }
            }
        }
        c
    }

    /// Finds all byte positions where the input matches one of the
    /// classifier's characters, in increasing order.
    pub fn find_all(&self, data: &[u8]) -> (r: Vec<usize>)
        ensures
            positions::offsets_view(r@) == positions::positions_where(data@, self.match_pred()),
    {
        let r = classify_scalar(&self.lo_table, &self.hi_table, data);
        assert(self.match_pred() =~= (|b: u8| table_match(self.lo_table@, self.hi_table@, b)));
        r
    }
}

impl CharClassifier {
    /// Invokes `callback` on each matching position, in increasing order.
    pub fn scan<F: FnMut(usize)>(&self, data: &[u8], mut callback: F)
        requires
            forall|p: usize| #[trigger] call_requires(callback, (p,)),
        ensures
            forall|k: int|
                0 <= k < positions::positions_where(data@, self.match_pred()).len()
                    ==> call_ensures(
                    callback,
                    (#[trigger] positions::positions_where(data@, self.match_pred())[k] as usize,),
                    (),
                ),
    {
        let positions = self.find_all(data);
        let ghost f0 = callback;
        let mut i: usize = 0;
        while i < positions.len()
            invariant
                i <= positions@.len(),
                callback == f0,
                positions::offsets_view(positions@) == positions::positions_where(data@, self.match_pred()),
                forall|p: usize| #[trigger] call_requires(callback, (p,)),
                forall|k: int| 0 <= k < i ==> call_ensures(callback, (#[trigger] positions@[k],), ()),
            decreases positions@.len() - i,
        {
            callback(positions[i]);
            i = i + 1;
        }
        proof {
            assert forall|k: int|
                0 <= k < positions::positions_where(data@, self.match_pred()).len() implies call_ensures(
                f0,
                (#[trigger] positions::positions_where(data@, self.match_pred())[k] as usize,),
                (),
            ) by {
                assert(positions::offsets_view(positions@)[k] == positions@[k] as int);
            }
        }
    }
}

fn classify_scalar(lo_table: &[u8; 16], hi_table: &[u8; 16], data: &[u8]) -> (r: Vec<usize>)
    ensures
        positions::offsets_view(r@) == positions::positions_where(
            data@,
            |b: u8| table_match(lo_table@, hi_table@, b),
        ),
{
    let ghost p = |b: u8| table_match(lo_table@, hi_table@, b);
    let mut positions: Vec<usize> = Vec::new();
    let mut i: usize = 0;
    assert(data@.take(0) =~= Seq::<u8>::empty());
    assert(positions::offsets_view(positions@) =~= Seq::<int>::empty());
    while i < data.len()
        invariant
            i <= data@.len(),
            p == (|b: u8| table_match(lo_table@, hi_table@, b)),
            positions::offsets_view(positions@) == positions::positions_where(data@.take(i as int), p),
        decreases data@.len() - i,
    {
        let b = data[i];
        let lo = (b & 0x0F) as usize;
        let hi = (b >> 4) as usize;
        proof {
            assert(b & 0x0F < 16) by (bit_vector);
            assert(b >> 4 < 16) by (bit_vector);
            positions::lemma_positions_where_take(data@, p, i as int);
        }
        if lo_table[lo] & hi_table[hi] != 0 {
            let ghost before = positions::offsets_view(positions@);
            positions.push(i);
            assert(positions::offsets_view(positions@) =~= before.push(i as int));
        }
        i = i + 1;
    }
    assert(data@.take(data@.len() as int) =~= data@);
    positions
}

/// Setting the class bit `h0` in `x` adds exactly that bit.
proof fn lemma_class_bit(x: u8, h0: u8, h: u8)
    requires
        h0 < 8,
        h < 8,
    ensures
        ((x | (1u8 << h0)) & (1u8 << h) != 0) == ((x & (1u8 << h) != 0) || h == h0),
        x & 0u8 == 0,
        0u8 & (1u8 << h) == 0,
{
    assert(((x | (1u8 << h0)) & (1u8 << h) != 0) == ((x & (1u8 << h) != 0) || h == h0))
        by (bit_vector)
        requires
            h0 < 8,
            h < 8,
    ;
    assert(x & 0u8 == 0) by (bit_vector);
    assert(0u8 & (1u8 << h) == 0) by (bit_vector)
        requires
            h < 8,
    ;
}

/// A byte is fixed by its two nibbles, and is ASCII exactly when its high
/// nibble is below 8.
proof fn lemma_nibbles(b: u8, c: u8)
    ensures
        (b & 15 == c & 15 && b >> 4 == c >> 4) <==> b == c,
        b & 15 < 16,
        b >> 4 < 16,
        b < 128 <==> b >> 4 < 8,
{
    assert((b & 15 == c & 15 && b >> 4 == c >> 4) <==> b == c) by (bit_vector);
    assert(b & 15 < 16) by (bit_vector);
    assert(b >> 4 < 16) by (bit_vector);
    assert(b < 128 <==> b >> 4 < 8) by (bit_vector);
}

} // verus!
