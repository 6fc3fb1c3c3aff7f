//! Positions of the bytes of a sequence that satisfy a predicate.
//!
//! Line splitting, field splitting and character classification all
//! report (or are built on) the ordered list of indices where some
//! kind of byte occurs; this module gives that list a single meaning.
use vstd::prelude::*;

verus! {

/// The byte `\n`.
pub open spec fn newline_pred() -> spec_fn(u8) -> bool {
    |b: u8| b == 0x0Au8
}

/// Views a vector of byte offsets as mathematical integers.
pub open spec fn offsets_view(v: Seq<usize>) -> Seq<int> {
    v.map_values(|x: usize| x as int)
}

/// The indices of the bytes of `s` that satisfy `p`, in increasing order.
pub open spec fn positions_where(s: Seq<u8>, p: spec_fn(u8) -> bool) -> Seq<int>
    decreases s.len(),
{
    if s.len() == 0 {
        Seq::empty()
    } else {
        let rest = positions_where(s.drop_last(), p);
        if p(s.last()) {
            rest.push(s.len() - 1)
        } else {
            rest
        }
    }
}

/// The newline predicate holds of the byte `\n` alone.
pub proof fn lemma_newline_pred(b: u8)
    ensures
        (newline_pred())(b) <==> b == '\n' as u8,
{
}

/// The positions of `s` that satisfy `p` are in range, strictly increasing,
/// each satisfies `p`, and every byte that satisfies `p` is listed.
pub proof fn lemma_positions_where(s: Seq<u8>, p: spec_fn(u8) -> bool)
    ensures
        forall|k: int|
            0 <= k < positions_where(s, p).len() ==> 0 <= #[trigger] positions_where(s, p)[k]
                < s.len() && p(s[positions_where(s, p)[k]]),
        forall|k: int, m: int|
            0 <= k < m < positions_where(s, p).len() ==> #[trigger] positions_where(s, p)[k]
                < #[trigger] positions_where(s, p)[m],
        forall|j: int|
            0 <= j < s.len() && #[trigger] p(s[j]) ==> exists|k: int|
                0 <= k < positions_where(s, p).len() && positions_where(s, p)[k] == j,
    decreases s.len(),
{
    if s.len() > 0 {
        let t = s.drop_last();
        lemma_positions_where(t, p);
        let r = positions_where(t, p);
        let ps = positions_where(s, p);
        assert forall|k: int| 0 <= k < ps.len() implies 0 <= #[trigger] ps[k] < s.len() && p(
            s[ps[k]],
        ) by {
            if k < r.len() {
                assert(ps[k] == r[k]);
                assert(s[r[k]] == t[r[k]]);
            }
        }
        assert forall|j: int| 0 <= j < s.len() && #[trigger] p(s[j]) implies exists|k: int|
            0 <= k < ps.len() && ps[k] == j by {
            if j < s.len() - 1 {
                assert(t[j] == s[j]);
                assert(p(t[j]));
                let k = choose|k: int| 0 <= k < r.len() && r[k] == j;
                assert(ps[k] == j);
            } else {
                assert(ps[ps.len() - 1] == j);
            }
        }
    }
}

/// The positions of a prefix one byte longer extend those of the prefix.
pub proof fn lemma_positions_where_take(s: Seq<u8>, p: spec_fn(u8) -> bool, i: int)
    requires
        0 <= i < s.len(),
    ensures
        positions_where(s.take(i + 1), p) == (if p(s[i]) {
            positions_where(s.take(i), p).push(i)
        } else {
            positions_where(s.take(i), p)
        }),
{
    assert(s.take(i + 1).drop_last() =~= s.take(i));
}

/// Extending a prefix over bytes that do not satisfy `p` adds no position.
pub proof fn lemma_positions_where_take_skip(s: Seq<u8>, p: spec_fn(u8) -> bool, i: int, j: int)
    requires
        0 <= i <= j <= s.len(),
        forall|k: int| i <= k < j ==> !p(#[trigger] s[k]),
    ensures
        positions_where(s.take(j), p) == positions_where(s.take(i), p),
    decreases j - i,
{
    if j > i {
        lemma_positions_where_take_skip(s, p, i, j - 1);
        lemma_positions_where_take(s, p, j - 1);
    }
}

/// Between two consecutive listed positions (or before the first, or after
/// the last) no byte satisfies `p`.
pub proof fn lemma_no_match_between(s: Seq<u8>, p: spec_fn(u8) -> bool, k: int, j: int)
    requires
        0 <= k <= positions_where(s, p).len(),
        0 <= j < s.len(),
        k > 0 ==> positions_where(s, p)[k - 1] < j,
        k < positions_where(s, p).len() ==> j < positions_where(s, p)[k],
    ensures
        !p(s[j]),
{
    lemma_positions_where(s, p);
    let ps = positions_where(s, p);
    if p(s[j]) {
        let m = choose|m: int| 0 <= m < ps.len() && ps[m] == j;
        if m < k {
            if m < k - 1 {
                assert(ps[m] < ps[k - 1]);
            }
        } else {
            if m > k {
                assert(ps[k] < ps[m]);
            }
        }
    }
}

/// The positions in a concatenation are those of the first part, then
/// those of the second part moved past the first.
pub proof fn lemma_positions_where_concat(a: Seq<u8>, b: Seq<u8>, p: spec_fn(u8) -> bool)
    ensures
        positions_where(a + b, p) == positions_where(a, p) + positions_where(b, p).map_values(
            |x: int| x + a.len(),
        ),
    decreases b.len(),
{
    if b.len() == 0 {
        assert(a + b =~= a);
        assert(positions_where(b, p).map_values(|x: int| x + a.len()) =~= Seq::<int>::empty());
        assert(positions_where(a, p) + Seq::<int>::empty() =~= positions_where(a, p));
    } else {
        let b1 = b.drop_last();
        lemma_positions_where_concat(a, b1, p);
        assert((a + b).drop_last() =~= a + b1);
        assert((a + b).last() == b.last());
        let ra = positions_where(a, p);
        let rb1 = positions_where(b1, p);
        let f = |x: int| x + a.len();
        if p(b.last()) {
            assert(positions_where(b, p) == rb1.push(b.len() - 1));
            assert(rb1.push(b.len() - 1).map_values(f) =~= rb1.map_values(f).push(
                b.len() - 1 + a.len(),
            ));
            assert(ra + rb1.map_values(f).push(b.len() - 1 + a.len()) =~= (ra + rb1.map_values(
                f,
            )).push((a + b).len() - 1));
        }
    }
}

} // verus!
