//! Line splitting.
//!
//! Lines end at `\n`; a `\r` just before the `\n` (CRLF) is not part of the
//! line. Content after the last newline forms a last line; a final newline
//! does not start an empty one.
use vstd::prelude::*;
use crate::positions;

verus! {

/// The positions of the newline bytes of `s`.
pub open spec fn newlines(s: Seq<u8>) -> Seq<int> {
    positions::positions_where(s, positions::newline_pred())
}

/// Where line `k` starts: at 0, or just after newline `k - 1`.
pub open spec fn line_start(nl: Seq<int>, k: int) -> int {
    if k == 0 {
        0
    } else {
        nl[k - 1] + 1
    }
}

/// Where line `k` ends, for a line closed by newline `k`: at the newline,
/// or at the carriage return just before it when the line holds one there.
pub open spec fn line_end(s: Seq<u8>, nl: Seq<int>, k: int) -> int {
    if nl[k] > line_start(nl, k) && s[nl[k] - 1] == 13 {
        nl[k] - 1
    } else {
        nl[k]
    }
}

/// The `(start, end)` byte ranges of the lines of `s`, line endings
/// stripped.
pub open spec fn line_ranges_spec(s: Seq<u8>) -> Seq<(int, int)> {
    let nl = newlines(s);
    let body = Seq::new(nl.len(), |k: int| (line_start(nl, k), line_end(s, nl, k)));
    let last = line_start(nl, nl.len() as int);
    if last < s.len() {
        body.push((last, s.len() as int))
    } else {
        body
    }
}

/// A pair of offsets as mathematical integers.
pub open spec fn pair_view(p: (usize, usize)) -> (int, int) {
    (p.0 as int, p.1 as int)
}

/// Finds the positions of all newline bytes.
fn find_newlines_scalar(data: &[u8]) -> (positions: Vec<usize>)
    ensures
        positions::offsets_view(positions@) == newlines(data@),
{
    let mut positions: Vec<usize> = Vec::new();
    let mut i: usize = 0;
    assert(data@.take(0) =~= Seq::<u8>::empty());
    assert(positions::offsets_view(positions@) =~= Seq::<int>::empty());
    while i < data.len()
        invariant
            i <= data@.len(),
            positions::offsets_view(positions@) == positions::positions_where(
                data@.take(i as int),
                positions::newline_pred(),
            ),
        decreases data@.len() - i,
    {
        proof {
            positions::lemma_positions_where_take(data@, positions::newline_pred(), i as int);
        }
        if data[i] == 10 {
            let ghost before = positions::offsets_view(positions@);
            positions.push(i);
            assert(positions::offsets_view(positions@) =~= before.push(i as int));
        }
        i = i + 1;
    }
    assert(data@.take(data@.len() as int) =~= data@);
    positions
}

/// Splits input into lines, returning the byte-offset range of each line.
///
/// Handles LF, CRLF and mixed line endings; the line ending is not part of
/// the range. Trailing content without a final newline is the last line.
pub fn line_ranges(data: &[u8]) -> (r: LineRanges<'_>)
    ensures
        r.wf(),
        r.data_view() == data@,
        r.remaining() == line_ranges_spec(data@),
{
    let positions = find_newlines_scalar(data);
    proof {
        positions::lemma_positions_where(data@, positions::newline_pred());
    }
    LineRanges { data, positions, idx: 0, prev_end: 0 }
}

/// The lines of a byte slice, as `(start, end)` ranges, one at a time.
pub struct LineRanges<'a> {
    data: &'a [u8],
    positions: Vec<usize>,
    idx: usize,
    prev_end: usize,
}

impl<'a> LineRanges<'a> {
    /// The bytes being split.
    pub closed spec fn data_view(&self) -> Seq<u8> {
        self.data@
    }

    /// How many lines have been handed out.
    pub closed spec fn emitted(&self) -> int {
        if self.idx == self.positions@.len() && self.prev_end >= self.data@.len() {
            line_ranges_spec(self.data@).len() as int
        } else {
            self.idx as int
        }
    }

    /// The lines not handed out yet.
    pub open spec fn remaining(&self) -> Seq<(int, int)> {
        line_ranges_spec(self.data_view()).skip(self.emitted())
    }

    /// The internal state is consistent.
    pub closed spec fn wf(&self) -> bool {
        let nl = newlines(self.data@);
        &&& positions::offsets_view(self.positions@) == nl
        &&& self.idx <= nl.len()
        &&& self.prev_end <= self.data@.len()
        &&& (self.prev_end == line_start(nl, self.idx as int) || (self.idx == nl.len()
            && self.prev_end == self.data@.len()))
    }

    /// The next line, or `None` after the last one.
    pub fn next(&mut self) -> (r: Option<(usize, usize)>)
        requires
            old(self).wf(),
        ensures
            final(self).wf(),
            final(self).data_view() == old(self).data_view(),
            0 <= final(self).emitted() <= line_ranges_spec(final(self).data_view()).len(),
            match r {
                Some(p) => {
                    let d = old(self).data_view();
                    let k = old(self).emitted();
                    &&& old(self).remaining().len() > 0
                    &&& pair_view(p) == old(self).remaining()[0]
                    &&& final(self).remaining() == old(self).remaining().drop_first()
                    &&& pair_view(p) == line_ranges_spec(d)[k]
                    &&& final(self).emitted() == k + 1
                    &&& p.0 <= p.1 <= d.len()
                    &&& (p.0 == 0 || d[p.0 - 1] == 10)
                    &&& (forall|j: int| p.0 <= j < p.1 ==> #[trigger] d[j] != 10)
                    &&& (k > 0 ==> line_ranges_spec(d)[k - 1].1 < p.0)
                },
                None => {
                    &&& old(self).remaining().len() == 0
                    &&& final(self).remaining() == old(self).remaining()
                    &&& old(self).emitted() == line_ranges_spec(old(self).data_view()).len()
                    &&& final(self).emitted() == old(self).emitted()
                },
            },
    {
        let ghost s = self.data@;
        let ghost nl = newlines(s);
        let ghost spec = line_ranges_spec(s);
        proof {
            positions::lemma_positions_where(s, positions::newline_pred());
        }
        if self.idx < self.positions.len() {
            let nl_pos = self.positions[self.idx];
            let ghost k = self.idx as int;
            assert(nl[k] == nl_pos as int);
            let start = self.prev_end;
            proof {
                if k > 0 {
                    assert(nl[k - 1] < nl[k]);
                }
                assert(start as int == line_start(nl, k));
                if nl_pos > 0 && nl_pos == start {
                    assert(k > 0);
                    assert(s[nl[k - 1]] == 10);
                }
            }
            let end = if nl_pos > 0 && self.data[nl_pos - 1] == 13 {
                nl_pos - 1
            } else {
                nl_pos
            };
            self.idx = self.idx + 1;
            self.prev_end = nl_pos + 1;
            proof {
                assert(spec[k] == (line_start(nl, k), line_end(s, nl, k)));
                assert(old(self).remaining() =~= spec.skip(k));
                if self.idx as int == nl.len() && self.prev_end >= s.len() {
                    assert(line_start(nl, nl.len() as int) == s.len());
                    assert(spec.len() == nl.len());
                }
                assert(self.remaining() =~= spec.skip(k + 1));
                lemma_line_range_at(s, k);
            }
            Some((start, end))
        } else if self.prev_end < self.data.len() {
            let start = self.prev_end;
            let end = self.data.len();
            self.prev_end = end;
            proof {
                assert(start as int == line_start(nl, nl.len() as int));
                assert(spec.len() == nl.len() + 1);
                assert(old(self).remaining() =~= spec.skip(nl.len() as int));
                assert(self.remaining() =~= spec.skip(spec.len() as int));
                lemma_line_range_at(s, nl.len() as int);
            }
            Some((start, end))
        } else {
            proof {
                if self.prev_end == line_start(nl, self.idx as int) {
                    assert(spec.len() == nl.len());
                }
                assert(old(self).remaining() =~= spec.skip(spec.len() as int));
            }
            None
        }
    }

    /// Collects the remaining lines.
    pub fn collect(self) -> (v: Vec<(usize, usize)>)
        requires
            self.wf(),
        ensures
            v@.map_values(|p: (usize, usize)| pair_view(p)) == self.remaining(),
    {
        let ghost total = self.remaining();
        let mut it = self;
        let mut v: Vec<(usize, usize)> = Vec::new();
        assert(v@.map_values(|p: (usize, usize)| pair_view(p)) =~= Seq::<(int, int)>::empty());
        loop
            invariant
                it.wf(),
                total == self.remaining(),
                v@.map_values(|p: (usize, usize)| pair_view(p)) + it.remaining() == total,
            decreases it.remaining().len(),
        {
            let ghost before = v@.map_values(|p: (usize, usize)| pair_view(p));
            let ghost rem = it.remaining();
            match it.next() {
                Some(p) => {
                    v.push(p);
                    assert(v@.map_values(|p: (usize, usize)| pair_view(p)) =~= before.push(
                        pair_view(p),
                    ));
                    assert(before.push(pair_view(p)) + rem.drop_first() =~= before + rem);
                },
                None => {
                    assert(before + rem =~= before);
                    return v;
                },
            }
        }
    }
}

/// The line ranges lie within the input, hold no newline and are in order.
proof fn lemma_line_ranges_basic(s: Seq<u8>)
    ensures
        forall|k: int|
            0 <= k < line_ranges_spec(s).len() ==> 0 <= (#[trigger] line_ranges_spec(s)[k]).0
                <= line_ranges_spec(s)[k].1 <= s.len(),
        forall|k: int, j: int|
            #![trigger line_ranges_spec(s)[k], s[j]]
            0 <= k < line_ranges_spec(s).len() && line_ranges_spec(s)[k].0 <= j
                < line_ranges_spec(s)[k].1 ==> s[j] != 10,
        forall|k: int|
            0 < k < line_ranges_spec(s).len() ==> line_ranges_spec(s)[k - 1].1
                < #[trigger] line_ranges_spec(s)[k].0,
{
    let nl = newlines(s);
    let spec = line_ranges_spec(s);
    positions::lemma_positions_where(s, positions::newline_pred());
    assert forall|k: int| 0 <= k < spec.len() implies 0 <= (#[trigger] spec[k]).0 <= spec[k].1
        <= s.len() by {
        if k < nl.len() {
            if k > 0 {
                assert(nl[k - 1] < nl[k]);
            }
        }
    }
    assert forall|k: int, j: int|
        #![trigger spec[k], s[j]]
        0 <= k < spec.len() && spec[k].0 <= j < spec[k].1 implies s[j] != 10 by {
        if k < nl.len() {
            if k > 0 {
                assert(nl[k - 1] < nl[k]);
            }
            positions::lemma_no_match_between(s, positions::newline_pred(), k, j);
        } else {
            positions::lemma_no_match_between(s, positions::newline_pred(), nl.len() as int, j);
        }
    }
    assert forall|k: int| 0 < k < spec.len() implies spec[k - 1].1 < #[trigger] spec[k].0 by {
        if k - 1 < nl.len() {
            assert(spec[k - 1].1 <= nl[k - 1]);
        }
    }
}

/// Every line range lies within the input, starts no later than it ends,
/// holds no newline byte, and comes after the previous one. A line starts
/// at the beginning of the input or right after a newline, and ends at the
/// end of the input, at a newline, or at a carriage return just before one.
pub proof fn lemma_line_ranges(s: Seq<u8>)
    ensures
        forall|k: int|
            0 <= k < line_ranges_spec(s).len() ==> 0 <= (#[trigger] line_ranges_spec(s)[k]).0
                <= line_ranges_spec(s)[k].1 <= s.len(),
        forall|k: int, j: int|
            #![trigger line_ranges_spec(s)[k], s[j]]
            0 <= k < line_ranges_spec(s).len() && line_ranges_spec(s)[k].0 <= j
                < line_ranges_spec(s)[k].1 ==> s[j] != 10,
        forall|k: int|
            0 < k < line_ranges_spec(s).len() ==> line_ranges_spec(s)[k - 1].1
                < #[trigger] line_ranges_spec(s)[k].0,
        forall|k: int|
            0 <= k < line_ranges_spec(s).len() ==> (#[trigger] line_ranges_spec(s)[k]).0 == 0
                || s[line_ranges_spec(s)[k].0 - 1] == 10,
        forall|k: int|
            0 <= k < line_ranges_spec(s).len() ==> {
                let e = (#[trigger] line_ranges_spec(s)[k]).1;
                e == s.len() || s[e] == 10 || (s[e] == 13 && e + 1 < s.len() && s[e + 1] == 10)
            },
{
    lemma_line_ranges_basic(s);
    let nl = newlines(s);
    let spec = line_ranges_spec(s);
    positions::lemma_positions_where(s, positions::newline_pred());
    assert forall|k: int| 0 <= k < spec.len() implies (#[trigger] spec[k]).0 == 0 || s[spec[k].0
        - 1] == 10 by {
        if k > 0 {
            assert((positions::newline_pred())(s[nl[k - 1]]));
        }
    }
    assert forall|k: int| 0 <= k < spec.len() implies {
        let e = (#[trigger] spec[k]).1;
        e == s.len() || s[e] == 10 || (s[e] == 13 && e + 1 < s.len() && s[e + 1] == 10)
    } by {
        if k < nl.len() {
            assert((positions::newline_pred())(s[nl[k]]));
        }
    }
}

/// No line is lost: the first line starts at 0, every newline closes a
/// line (which ends at it, or at a carriage return just before it), and
/// input that does not end with a newline has a last line reaching its end.
/// A carriage return before a newline is never part of a line's contents.
pub proof fn lemma_line_ranges_complete(s: Seq<u8>)
    ensures
        forall|k: int|
            0 <= k < line_ranges_spec(s).len() ==> {
                let r = #[trigger] line_ranges_spec(s)[k];
                r.1 < s.len() && s[r.1] == 10 ==> (r.1 == r.0 || s[r.1 - 1] != 13)
            },
        forall|j: int|
            0 <= j < s.len() && #[trigger] s[j] == 10 ==> exists|k: int|
                0 <= k < line_ranges_spec(s).len() && ((#[trigger] line_ranges_spec(s)[k]).1 == j
                    || (line_ranges_spec(s)[k].1 == j - 1 && s[j - 1] == 13)),
        line_ranges_spec(s).len() > 0 ==> line_ranges_spec(s)[0].0 == 0,
        s.len() > 0 && s.last() != 10 ==> line_ranges_spec(s).len() > 0 && line_ranges_spec(
            s,
        ).last().1 == s.len(),
{
    let nl = newlines(s);
    let spec = line_ranges_spec(s);
    positions::lemma_positions_where(s, positions::newline_pred());
    assert forall|k: int| 0 <= k < spec.len() implies {
        let r = #[trigger] spec[k];
        r.1 < s.len() && s[r.1] == 10 ==> (r.1 == r.0 || s[r.1 - 1] != 13)
    } by {
        if k < nl.len() {
            assert((positions::newline_pred())(s[nl[k]]));
            if spec[k].1 == nl[k] - 1 {
                assert(s[nl[k] - 1] == 13);
            }
        }
    }
    assert forall|j: int| 0 <= j < s.len() && #[trigger] s[j] == 10 implies exists|k: int|
        0 <= k < spec.len() && ((#[trigger] spec[k]).1 == j || (spec[k].1 == j - 1 && s[j - 1]
            == 13)) by {
        assert((positions::newline_pred())(s[j]));
        let k = choose|k: int| 0 <= k < nl.len() && nl[k] == j;
        assert(spec[k] == (line_start(nl, k), line_end(s, nl, k)));
    }
    if s.len() > 0 && s.last() != 10 {
        if nl.len() > 0 {
            assert((positions::newline_pred())(s[nl[nl.len() - 1]]));
            assert(nl[nl.len() - 1] != s.len() - 1);
        }
    }
}

/// The facts of `lemma_line_ranges` for the single line `k`.
proof fn lemma_line_range_at(s: Seq<u8>, k: int)
    requires
        0 <= k < line_ranges_spec(s).len(),
    ensures
        ({
            let r = line_ranges_spec(s)[k];
            &&& 0 <= r.0 <= r.1 <= s.len()
            &&& (r.0 == 0 || s[r.0 - 1] == 10)
            &&& (forall|j: int| r.0 <= j < r.1 ==> #[trigger] s[j] != 10)
            &&& (k > 0 ==> line_ranges_spec(s)[k - 1].1 < r.0)
        }),
{
    lemma_line_ranges(s);
    let r = line_ranges_spec(s)[k];
    assert forall|j: int| r.0 <= j < r.1 implies #[trigger] s[j] != 10 by {
        assert(line_ranges_spec(s)[k].0 <= j < line_ranges_spec(s)[k].1);
    }
}

/// The contents of the lines of `s`, line endings stripped.
pub open spec fn line_contents(s: Seq<u8>) -> Seq<Seq<u8>> {
    line_ranges_spec(s).map_values(|r: (int, int)| s.subrange(r.0, r.1))
}

/// `s` is empty or ends with a newline: a line starts right after it.
pub open spec fn at_line_boundary(s: Seq<u8>) -> bool {
    s.len() == 0 || s.last() == 10
}

/// `l` holds no newline byte.
pub open spec fn no_newline(l: Seq<u8>) -> bool {
    forall|i: int| 0 <= i < l.len() ==> #[trigger] l[i] != 10
}

/// `l` without a final carriage return.
pub open spec fn strip_cr(l: Seq<u8>) -> Seq<u8> {
    if l.len() > 0 && l.last() == 13 {
        l.drop_last()
    } else {
        l
    }
}

proof fn lemma_no_newline_positions(l: Seq<u8>)
    requires
        no_newline(l),
    ensures
        newlines(l) == Seq::<int>::empty(),
{
    positions::lemma_positions_where(l, positions::newline_pred());
    if newlines(l).len() > 0 {
        assert(l[newlines(l)[0]] == 10);
    }
}

proof fn lemma_boundary_start(c: Seq<u8>)
    requires
        at_line_boundary(c),
    ensures
        line_start(newlines(c), newlines(c).len() as int) == c.len(),
        line_ranges_spec(c).len() == newlines(c).len(),
{
    if c.len() > 0 {
        assert(newlines(c) == newlines(c.drop_last()).push(c.len() - 1));
    }
}

/// The lines of `c + l + "\n"`, for `c` ending at a line boundary and `l`
/// holding no newline, are those of `c` followed by `l` (without a final
/// `\r`); and the lines of `c + l`, for a non-empty `l`, are those of `c`
/// followed by `l`.
pub proof fn lemma_line_contents_extend(c: Seq<u8>, l: Seq<u8>)
    requires
        at_line_boundary(c),
        no_newline(l),
    ensures
        line_contents(c + l + seq![10u8]) == line_contents(c).push(strip_cr(l)),
        at_line_boundary(c + l + seq![10u8]),
        l.len() > 0 ==> line_contents(c + l) == line_contents(c).push(l),
{
    lemma_line_contents_newline(c, l);
    if l.len() > 0 {
        lemma_line_contents_trailing(c, l);
    }
}

#[verifier::rlimit(30)]
proof fn lemma_line_contents_newline(c: Seq<u8>, l: Seq<u8>)
    requires
        at_line_boundary(c),
        no_newline(l),
    ensures
        line_contents(c + l + seq![10u8]) == line_contents(c).push(strip_cr(l)),
        at_line_boundary(c + l + seq![10u8]),
{
    let nl = newlines(c);
    let f = |x: int| x + c.len();
    lemma_boundary_start(c);
    lemma_line_ranges_basic(c);
    lemma_no_newline_positions(l);
    positions::lemma_positions_where(c, positions::newline_pred());
    let s = c + l + seq![10u8];
    let ln = l + seq![10u8];
    assert(s =~= c + ln);
    assert(ln.drop_last() =~= l);
    assert(newlines(ln) == newlines(l).push(l.len() as int));
    assert(newlines(ln) =~= seq![l.len() as int]);
    positions::lemma_positions_where_concat(c, ln, positions::newline_pred());
    assert(newlines(ln).map_values(f) =~= seq![(c.len() + l.len()) as int]);
    let nl2 = newlines(s);
    assert(nl2 =~= nl.push((c.len() + l.len()) as int));
    let spec_c = line_ranges_spec(c);
    let spec_s = line_ranges_spec(s);
    assert(line_start(nl2, nl2.len() as int) == s.len());
    assert(spec_s.len() == nl.len() + 1);
    assert forall|k: int| 0 <= k < nl.len() implies #[trigger] spec_s[k] == spec_c[k] by {
        assert(nl2[k] == nl[k]);
        if k > 0 {
            assert(nl2[k - 1] == nl[k - 1]);
        }
        if nl[k] > line_start(nl, k) {
            assert(s[nl[k] - 1] == c[nl[k] - 1]);
        }
    }
    let end = line_end(s, nl2, nl.len() as int);
    assert(spec_s[nl.len() as int] == (c.len() as int, end));
    if l.len() > 0 {
        assert(s[c.len() + l.len() - 1] == l.last());
    }
    assert(s.subrange(c.len() as int, end) =~= strip_cr(l));
    let lc_s = line_contents(s);
    let lc_c = line_contents(c);
    assert forall|k: int| 0 <= k < lc_c.len() implies #[trigger] lc_s[k] == lc_c[k] by {
        assert(spec_s[k] == spec_c[k]);
        assert(s.subrange(spec_c[k].0, spec_c[k].1) =~= c.subrange(spec_c[k].0, spec_c[k].1));
    }
    assert(lc_s =~= lc_c.push(strip_cr(l)));
}

#[verifier::rlimit(30)]
proof fn lemma_line_contents_trailing(c: Seq<u8>, l: Seq<u8>)
    requires
        at_line_boundary(c),
        no_newline(l),
        l.len() > 0,
    ensures
        line_contents(c + l) == line_contents(c).push(l),
{
    let nl = newlines(c);
    let f = |x: int| x + c.len();
    lemma_boundary_start(c);
    lemma_line_ranges_basic(c);
    lemma_no_newline_positions(l);
    positions::lemma_positions_where(c, positions::newline_pred());
    let spec_c = line_ranges_spec(c);
    let lc_c = line_contents(c);
    let t = c + l;
    positions::lemma_positions_where_concat(c, l, positions::newline_pred());
    assert(newlines(l).map_values(f) =~= Seq::<int>::empty());
    assert(newlines(t) =~= nl);
    let spec_t = line_ranges_spec(t);
    assert(spec_t.len() == nl.len() + 1);
    assert forall|k: int| 0 <= k < nl.len() implies #[trigger] spec_t[k] == spec_c[k] by {
        if nl[k] > line_start(nl, k) {
            assert(t[nl[k] - 1] == c[nl[k] - 1]);
        }
    }
    assert(spec_t[nl.len() as int] == (c.len() as int, t.len() as int));
    assert(t.subrange(c.len() as int, t.len() as int) =~= l);
    let lc_t = line_contents(t);
    assert forall|k: int| 0 <= k < lc_c.len() implies #[trigger] lc_t[k] == lc_c[k] by {
        assert(spec_t[k] == spec_c[k]);
        assert(t.subrange(spec_c[k].0, spec_c[k].1) =~= c.subrange(spec_c[k].0, spec_c[k].1));
    }
    assert(lc_t =~= lc_c.push(l));
}

/// What a streaming line scanner does next.
#[derive(Debug, Clone, Copy, PartialEq, Eq, Structural)]
pub enum ScanStep {
    /// A line is ready: the range of its bytes in the scanner's buffer.
    Line(usize, usize),
    /// More input is needed: read at most `spare_len()` bytes and `feed`
    /// them (an empty chunk marks the end of the input), or call `fail`
    /// when reading failed.
    NeedInput,
    /// The input is exhausted and every line has been handed out.
    End,
}

/// Streaming line scanner: the decisions of reading lines from a source
/// one at a time, without holding the whole input. The caller performs the
/// reads and hands the bytes over; lines are split as `line_ranges` does.
pub struct LineScanner {
    buf: Vec<u8>,
    pos: usize,
    filled: usize,
    done: bool,
    stream: Ghost<Seq<u8>>,
    emitted: Ghost<Seq<Seq<u8>>>,
}

impl LineScanner {
    /// Every byte handed over so far.
    pub closed spec fn stream(&self) -> Seq<u8> {
        self.stream@
    }

    /// The contents of the lines handed out so far.
    pub closed spec fn emitted(&self) -> Seq<Seq<u8>> {
        self.emitted@
    }

    /// The scanner's buffer.
    pub closed spec fn buffer_view(&self) -> Seq<u8> {
        self.buf@
    }

    /// Whether the end of the input has been reached.
    pub closed spec fn is_done(&self) -> bool {
        self.done
    }

    /// How many bytes the next `feed` may hand over.
    pub closed spec fn spare(&self) -> int {
        self.buf@.len() - self.filled
    }

    /// The bytes read but not yet part of a handed-out line.
    pub closed spec fn pending(&self) -> Seq<u8> {
        self.buf@.subrange(self.pos as int, self.filled as int)
    }

    /// The bytes of the stream that precede the pending ones.
    pub closed spec fn consumed(&self) -> Seq<u8> {
        self.stream@.take(self.stream@.len() - (self.filled - self.pos))
    }

    /// The internal state is consistent: the handed-out lines are the lines
    /// of the consumed bytes.
    pub closed spec fn wf(&self) -> bool {
        &&& self.pos <= self.filled <= self.buf@.len()
        &&& self.buf@.len() > 0
        &&& self.filled - self.pos <= self.stream@.len()
        &&& self.stream@ == self.consumed() + self.pending()
        &&& self.emitted@ == line_contents(self.consumed())
        &&& (at_line_boundary(self.consumed()) || (self.done && self.pos == self.filled))
    }

    /// Creates a scanner with a 64 KiB buffer and no input yet.
    pub fn new() -> (sc: Self)
        ensures
            sc.wf(),
            sc.stream() == Seq::<u8>::empty(),
            sc.emitted() == Seq::<Seq<u8>>::empty(),
            sc.consumed() == Seq::<u8>::empty(),
            sc.pending() == Seq::<u8>::empty(),
            !sc.is_done(),
            sc.spare() == 64 * 1024,
    {
        let sc = LineScanner {
            buf: vec![0u8; 64 * 1024],
            pos: 0,
            filled: 0,
            done: false,
            stream: Ghost(Seq::empty()),
            emitted: Ghost(Seq::empty()),
        };
        assert(sc.consumed() =~= Seq::<u8>::empty());
        assert(sc.pending() =~= Seq::<u8>::empty());
        assert(line_ranges_spec(Seq::<u8>::empty()) =~= Seq::<(int, int)>::empty());
        assert(line_contents(Seq::<u8>::empty()) =~= Seq::<Seq<u8>>::empty());
        sc
    }

    /// How many bytes the next `feed` may hand over.
    pub fn spare_len(&self) -> (n: usize)
        requires
            self.wf(),
        ensures
            n == self.spare(),
    {
        self.buf.len() - self.filled
    }

    /// The bytes `start..end` of the buffer, such as a line that `poll`
    /// reported.
    pub fn line_bytes(&self, start: usize, end: usize) -> (b: &[u8])
        requires
            start <= end <= self.buffer_view().len(),
        ensures
            b@ == self.buffer_view().subrange(start as int, end as int),
    {
        vstd::slice::slice_subrange(self.buf.as_slice(), start, end)
    }

    /// Hands over the bytes read from the source; an empty chunk marks the
    /// end of the input.
    pub fn feed(&mut self, chunk: &[u8])
        requires
            old(self).wf(),
            !old(self).is_done(),
            chunk@.len() <= old(self).spare(),
        ensures
            final(self).wf(),
            final(self).stream() == old(self).stream() + chunk@,
            final(self).emitted() == old(self).emitted(),
            final(self).consumed() == old(self).consumed(),
            final(self).pending() == old(self).pending() + chunk@,
            final(self).is_done() == (chunk@.len() == 0),
    {
        if chunk.len() == 0 {
            self.done = true;
            assert(self.stream@ =~= old(self).stream@ + chunk@);
            return;
        }
        let ghost old_consumed = self.consumed();
        let ghost old_pending = self.pending();
        let cap = self.buf.len();
        let mut k: usize = 0;
        while k < chunk.len()
            invariant
                k <= chunk@.len(),
                cap == self.buf@.len(),
                self.stream@ == old(self).stream@,
                self.emitted@ == old(self).emitted@,
                self.done == old(self).done,
                self.filled + chunk@.len() <= self.buf@.len(),
                self.buf@.len() == old(self).buf@.len(),
                self.pos == old(self).pos,
                self.filled == old(self).filled,
                forall|m: int| 0 <= m < self.filled ==> #[trigger] self.buf@[m] == old(self).buf@[m],
                forall|m: int| 0 <= m < k ==> #[trigger] self.buf@[self.filled + m] == chunk@[m],
            decreases chunk@.len() - k,
        {
            self.buf.set(self.filled + k, chunk[k]);
            k = k + 1;
        }
        let ghost old_filled = self.filled as int;
        self.filled = self.filled + chunk.len();
        self.stream = Ghost(self.stream@ + chunk@);
        proof {
            assert forall|m: int| 0 <= m < self.pending().len() implies #[trigger] self.pending()[m]
                == (old_pending + chunk@)[m] by {
                if m < old_pending.len() {
                    assert(self.buf@[self.pos + m] == old(self).buf@[self.pos + m]);
                } else {
                    assert(self.buf@[old_filled + (m - old_pending.len())] == chunk@[m
                        - old_pending.len()]);
                }
            }
            assert(self.pending() =~= old_pending + chunk@);
            assert(self.consumed() =~= old_consumed);
            assert(self.stream@ =~= old_consumed + (old_pending + chunk@));
        }
    }

    /// Records that reading from the source failed: the input ends here.
    pub fn fail(&mut self)
        requires
            old(self).wf(),
        ensures
            final(self).wf(),
            final(self).stream() == old(self).stream(),
            final(self).emitted() == old(self).emitted(),
            final(self).consumed() == old(self).consumed(),
            final(self).pending() == old(self).pending(),
            final(self).is_done(),
    {
        self.done = true;
    }

    /// Decides the next step: hand out the next complete line, ask for
    /// more input, or report the end. A line is handed out as soon as it is
    /// complete: input is asked for only when no newline is pending, and
    /// the end only when nothing is pending. Once the input has ended, the
    /// trailing bytes without a final newline form the last line, and
    /// `End` means that the lines handed out are exactly the lines of the
    /// whole input, split as `line_ranges` splits them.
    pub fn poll(&mut self) -> (r: ScanStep)
        requires
            old(self).wf(),
        ensures
            final(self).wf(),
            final(self).stream() == old(self).stream(),
            final(self).is_done() == old(self).is_done(),
            final(self).emitted() == line_contents(final(self).consumed()),
            final(self).stream() == final(self).consumed() + final(self).pending(),
            old(self).is_done() && old(self).pending().len() == 0 ==> r == ScanStep::End,
            match r {
                ScanStep::Line(start, end) => start <= end <= final(self).buffer_view().len()
                    && final(self).emitted() == old(self).emitted().push(
                    final(self).buffer_view().subrange(start as int, end as int),
                ),
                ScanStep::NeedInput => !old(self).is_done() && no_newline(old(self).pending())
                    && final(self).pending() == old(self).pending() && final(self).emitted() == old(
                    self,
                ).emitted() && (final(self).spare() > 0 || final(self).buffer_view().len()
                    == usize::MAX),
                ScanStep::End => old(self).is_done() && old(self).pending().len() == 0
                    && final(self).pending().len() == 0 && final(self).emitted() == line_contents(
                    final(self).stream(),
                ),
            },
    {
        let ghost consumed = self.consumed();
        let ghost pending = self.pending();
        let start = self.pos;
        let mut j = self.pos;
        while j < self.filled && self.buf[j] != 10
            invariant
                start <= j <= self.filled <= self.buf@.len(),
                start == self.pos,
                forall|m: int| start <= m < j ==> #[trigger] self.buf@[m] != 10,
            decreases self.filled - j,
        {
            j = j + 1;
        }
        if j < self.filled {
            let end = if j > start && self.buf[j - 1] == 13 {
                j - 1
            } else {
                j
            };
            let ghost l = self.buf@.subrange(start as int, j as int);
            proof {
                assert(at_line_boundary(consumed));
                assert(no_newline(l));
                lemma_line_contents_extend(consumed, l);
                assert(self.buf@.subrange(start as int, end as int) =~= strip_cr(l));
            }
            self.pos = j + 1;
            self.emitted = Ghost(self.emitted@.push(self.buf@.subrange(start as int, end as int)));
            proof {
                assert(pending =~= l + seq![10u8] + self.pending());
                assert(self.consumed() =~= consumed + l + seq![10u8]);
                assert(self.stream@ =~= self.consumed() + self.pending());
            }
            return ScanStep::Line(start, end);
        }
        if self.done {
            if self.pos < self.filled {
                let start = self.pos;
                let end = self.filled;
                proof {
                    assert(at_line_boundary(consumed));
                    assert(no_newline(pending));
                    lemma_line_contents_extend(consumed, pending);
                }
                self.pos = self.filled;
                self.emitted = Ghost(self.emitted@.push(self.buf@.subrange(start as int, end as int)));
                proof {
                    assert(self.pending() =~= Seq::<u8>::empty());
                    assert(self.consumed() =~= consumed + pending);
                }
                return ScanStep::Line(start, end);
            }
            proof {
                assert(pending =~= Seq::<u8>::empty());
                assert(self.stream@ =~= consumed);
            }
            return ScanStep::End;
        }
        assert(no_newline(pending)) by {
            assert forall|m: int| 0 <= m < pending.len() implies #[trigger] pending[m] != 10 by {
                assert(pending[m] == self.buf@[start + m]);
            }
        }
        if self.pos > 0 {
            let n = self.filled - self.pos;
            let mut k: usize = 0;
            while k < n
                invariant
                    k <= n,
                    n == self.filled - self.pos,
                    self.pos <= self.filled <= self.buf@.len(),
                    self.pos == old(self).pos,
                    self.filled == old(self).filled,
                    self.buf@.len() == old(self).buf@.len(),
                    self.stream@ == old(self).stream@,
                    self.emitted@ == old(self).emitted@,
                    self.done == old(self).done,
                    forall|m: int| 0 <= m < k ==> #[trigger] self.buf@[m] == pending[m],
                    forall|m: int|
                        self.pos + k <= m < self.filled ==> #[trigger] self.buf@[m] == old(
                            self,
                        ).buf@[m],
                    pending == old(self).buf@.subrange(self.pos as int, self.filled as int),
                decreases n - k,
            {
                let b = self.buf[self.pos + k];
                self.buf.set(k, b);
                k = k + 1;
            }
            self.filled = n;
            self.pos = 0;
            proof {
                assert(self.pending() =~= pending);
                assert(self.consumed() =~= consumed);
            }
        }
        if self.filled == self.buf.len() {
            let cur = self.buf.len();
            let new_len = if cur <= usize::MAX / 2 {
                cur * 2
            } else {
                usize::MAX
            };
            let ghost before = self.buf@;
            self.buf.resize(new_len, 0);
            proof {
                if new_len > cur {
                    assert(self.pending() =~= before.subrange(
                        self.pos as int,
                        self.filled as int,
                    ));
                } else {
                    assert(self.buf@ =~= before);
                }
            }
        }
        ScanStep::NeedInput
    }
}

/// What a consistent scanner holds at every step: the lines handed out
/// are the lines of the bytes consumed so far, the stream is those bytes
/// followed by the pending ones, and the consumed bytes end at a line
/// boundary unless the input has ended with nothing pending.
pub proof fn lemma_scanner_state(sc: &LineScanner)
    requires
        sc.wf(),
    ensures
        sc.emitted() == line_contents(sc.consumed()),
        sc.stream() == sc.consumed() + sc.pending(),
        at_line_boundary(sc.consumed()) || (sc.is_done() && sc.pending().len() == 0),
{
}

} // verus!
