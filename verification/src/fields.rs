//! Delimited field extraction: zero-copy splitting by a delimiter byte.
use vstd::prelude::*;
use crate::positions;
use crate::lines;
use crate::lines::line_ranges;

verus! {

/// The delimiter predicate as a value.
pub open spec fn delim_pred(d: u8) -> spec_fn(u8) -> bool {
    |b: u8| b == d
}

/// The positions of the delimiter bytes of `s`.
pub open spec fn delimiters(s: Seq<u8>, d: u8) -> Seq<int> {
    positions::positions_where(s, delim_pred(d))
}

/// The `(start, end)` bounds of field `k` of `s`: from just after
/// delimiter `k - 1` (or 0) up to delimiter `k` (or the end).
pub open spec fn field_bounds(s: Seq<u8>, d: u8, k: int) -> (int, int) {
    let ds = delimiters(s, d);
    (
        if k == 0 {
            0
        } else {
            ds[k - 1] + 1
        },
        if k < ds.len() {
            ds[k]
        } else {
            s.len() as int
        },
    )
}

/// The fields of `s`: the pieces between delimiters. There is one more
/// field than there are delimiters, so empty input has one empty field.
pub open spec fn split_spec(s: Seq<u8>, d: u8) -> Seq<Seq<u8>> {
    Seq::new(
        delimiters(s, d).len() + 1,
        |k: int| s.subrange(field_bounds(s, d, k).0, field_bounds(s, d, k).1),
    )
}

/// Splits a single line into fields by delimiter. Zero-copy.
///
/// Not a CSV parser (no quoting or escaping). Any byte value is accepted as
/// the delimiter. Empty input gives a single empty field.
pub fn split_fields<'a>(line: &'a [u8], delimiter: u8) -> (f: Fields<'a>)
    ensures
        f.wf(),
        f.data_view() == line@,
        f.delimiter_view() == delimiter,
        f.remaining() == split_spec(line@, delimiter),
{
    Fields { data: line, delimiter, pos: 0, done: false, count: Ghost(0) }
}

/// The fields of a line, one at a time.
pub struct Fields<'a> {
    data: &'a [u8],
    delimiter: u8,
    pos: usize,
    done: bool,
    count: Ghost<int>,
}

impl<'a> Fields<'a> {
    /// The bytes being split.
    pub closed spec fn data_view(&self) -> Seq<u8> {
        self.data@
    }

    /// The delimiter.
    pub closed spec fn delimiter_view(&self) -> u8 {
        self.delimiter
    }

    /// How many fields have been handed out.
    pub closed spec fn emitted(&self) -> int {
        self.count@
    }

    /// The fields not handed out yet.
    pub open spec fn remaining(&self) -> Seq<Seq<u8>> {
        split_spec(self.data_view(), self.delimiter_view()).skip(self.emitted())
    }

    /// The internal state is consistent.
    pub closed spec fn wf(&self) -> bool {
        let ds = delimiters(self.data@, self.delimiter);
        &&& 0 <= self.count@ <= ds.len() + 1
        &&& self.done <==> self.count@ == ds.len() + 1
        &&& !self.done ==> self.pos == field_bounds(self.data@, self.delimiter, self.count@).0
    }

    /// The next field, or `None` after the last one.
    pub fn next(&mut self) -> (r: Option<&'a [u8]>)
        requires
            old(self).wf(),
        ensures
            final(self).wf(),
            final(self).data_view() == old(self).data_view(),
            final(self).delimiter_view() == old(self).delimiter_view(),
            match r {
                Some(f) => old(self).remaining().len() > 0 && f@ == old(self).remaining()[0]
                    && final(self).remaining() == old(self).remaining().drop_first(),
                None => old(self).remaining().len() == 0 && final(self).remaining() == old(
                    self,
                ).remaining(),
            },
    {
        let ghost s = self.data@;
        let ghost d = self.delimiter;
        let ghost ds = delimiters(s, d);
        let ghost k = self.count@;
        let ghost spec = split_spec(s, d);
        proof {
            positions::lemma_positions_where(s, delim_pred(d));
        }
        if self.done {
            assert(old(self).remaining() =~= spec.skip(spec.len() as int));
            return None;
        }
        let start = self.pos;
        proof {
            if k > 0 && k < ds.len() {
                assert(ds[k - 1] < ds[k]);
            }
        }
        proof {
            if k < ds.len() {
                assert((delim_pred(d))(s[ds[k]]));
            }
        }
        let mut j = start;
        while j < self.data.len() && self.data[j] != self.delimiter
            invariant
                start <= j <= s.len(),
                s == self.data@,
                d == self.delimiter,
                k < ds.len() ==> j <= ds[k],
                k < ds.len() ==> 0 <= ds[k] < s.len() && s[ds[k]] == d,
            decreases s.len() - j,
        {
            j = j + 1;
        }
        proof {
            assert(old(self).remaining() =~= spec.skip(k));
            if j < s.len() {
                assert((delim_pred(d))(s[j as int]));
                if k >= ds.len() || j < ds[k] {
                    positions::lemma_no_match_between(s, delim_pred(d), k, j as int);
                }
                assert(j == ds[k]);
            } else {
                if k < ds.len() {
                    assert(ds[k] < s.len());
                }
            }
        }
        if j < self.data.len() {
            self.pos = j + 1;
            self.count = Ghost(k + 1);
            let f = vstd::slice::slice_subrange(self.data, start, j);
            assert(self.remaining() =~= spec.skip(k + 1));
            Some(f)
        } else {
            self.done = true;
            self.count = Ghost((ds.len() + 1) as int);
            assert(self.remaining() =~= spec.skip(k + 1));
            if start <= self.data.len() {
                Some(vstd::slice::slice_subrange(self.data, start, self.data.len()))
            } else {
                None
            }
        }
    }

    /// Collects the remaining fields.
    pub fn collect(self) -> (v: Vec<&'a [u8]>)
        requires
            self.wf(),
        ensures
            v@.map_values(|f: &'a [u8]| f@) == self.remaining(),
    {
        let ghost total = self.remaining();
        let mut it = self;
        let mut v: Vec<&'a [u8]> = Vec::new();
        assert(v@.map_values(|f: &'a [u8]| f@) =~= Seq::<Seq<u8>>::empty());
        loop
            invariant
                it.wf(),
                total == self.remaining(),
                v@.map_values(|f: &'a [u8]| f@) + it.remaining() == total,
            decreases it.remaining().len(),
        {
            let ghost before = v@.map_values(|f: &'a [u8]| f@);
            let ghost rem = it.remaining();
            match it.next() {
                Some(f) => {
                    v.push(f);
                    assert(v@.map_values(|f: &'a [u8]| f@) =~= before.push(f@));
                    assert(before.push(f@) + rem.drop_first() =~= before + rem);
                },
                None => {
                    assert(before + rem =~= before);
                    return v;
                },
            }
        }
    }
}

/// Splits all lines, and each line into fields, the way `line_ranges` and
/// `split_fields` do. The delimiter should be neither `\n` nor `\r`: those
/// never appear inside a line.
pub fn split_records<'a>(data: &'a [u8], delimiter: u8) -> (r: Records<'a>)
    ensures
        r.wf(),
        r.data_view() == data@,
        r.delimiter_view() == delimiter,
        r.remaining_lines() == lines::line_ranges_spec(data@),
{
    let line_ranges = line_ranges(data).collect();
    Records { data, delimiter, line_ranges, idx: 0 }
}

/// The records (lines split into fields) of a byte slice, one at a time.
pub struct Records<'a> {
    data: &'a [u8],
    delimiter: u8,
    line_ranges: Vec<(usize, usize)>,
    idx: usize,
}

impl<'a> Records<'a> {
    /// The bytes being split.
    pub closed spec fn data_view(&self) -> Seq<u8> {
        self.data@
    }

    /// The delimiter.
    pub closed spec fn delimiter_view(&self) -> u8 {
        self.delimiter
    }

    /// The ranges of the lines not handed out yet.
    pub closed spec fn remaining_lines(&self) -> Seq<(int, int)> {
        lines::line_ranges_spec(self.data@).skip(self.idx as int)
    }

    /// The internal state is consistent.
    pub closed spec fn wf(&self) -> bool {
        &&& self.line_ranges@.map_values(|p: (usize, usize)| lines::pair_view(p)) == lines::line_ranges_spec(
            self.data@,
        )
        &&& self.idx <= self.line_ranges@.len()
    }

    /// The fields of the next line, or `None` after the last line.
    pub fn next(&mut self) -> (r: Option<Fields<'a>>)
        requires
            old(self).wf(),
        ensures
            final(self).wf(),
            final(self).data_view() == old(self).data_view(),
            final(self).delimiter_view() == old(self).delimiter_view(),
            match r {
                Some(f) => {
                    let line = old(self).remaining_lines()[0];
                    &&& old(self).remaining_lines().len() > 0
                    &&& f.wf()
                    &&& f.data_view() == old(self).data_view().subrange(line.0, line.1)
                    &&& f.delimiter_view() == old(self).delimiter_view()
                    &&& f.remaining() == split_spec(f.data_view(), f.delimiter_view())
                    &&& final(self).remaining_lines() == old(self).remaining_lines().drop_first()
                },
                None => old(self).remaining_lines().len() == 0 && final(self).remaining_lines()
                    == old(self).remaining_lines(),
            },
    {
        if self.idx >= self.line_ranges.len() {
            assert(old(self).remaining_lines().len() == 0);
            return None;
        }
        let (start, end) = self.line_ranges[self.idx];
        proof {
            crate::lines::lemma_line_ranges(self.data@);
            let k = self.idx as int;
            assert(lines::pair_view(self.line_ranges@[k]) == lines::line_ranges_spec(self.data@)[k]);
            assert(old(self).remaining_lines()[0] == lines::line_ranges_spec(self.data@)[k]);
        }
        self.idx = self.idx + 1;
        let line = vstd::slice::slice_subrange(self.data, start, end);
        assert(self.remaining_lines() =~= old(self).remaining_lines().drop_first());
        Some(split_fields(line, self.delimiter))
    }

    /// Collects the fields iterators of the remaining lines.
    pub fn collect(self) -> (v: Vec<Fields<'a>>)
        requires
            self.wf(),
        ensures
            v@.len() == self.remaining_lines().len(),
            forall|k: int|
                0 <= k < v@.len() ==> {
                    let line = self.remaining_lines()[k];
                    &&& (#[trigger] v@[k]).wf()
                    &&& v@[k].data_view() == self.data_view().subrange(line.0, line.1)
                    &&& v@[k].delimiter_view() == self.delimiter_view()
                    &&& v@[k].remaining() == split_spec(v@[k].data_view(), v@[k].delimiter_view())
                },
    {
        let ghost total = self.remaining_lines();
        let mut it = self;
        let mut v: Vec<Fields<'a>> = Vec::new();
        loop
            invariant
                it.wf(),
                total == self.remaining_lines(),
                it.data_view() == self.data_view(),
                it.delimiter_view() == self.delimiter_view(),
                v@.len() + it.remaining_lines().len() == total.len(),
                it.remaining_lines() == total.skip(v@.len() as int),
                forall|k: int|
                    0 <= k < v@.len() ==> {
                        let line = total[k];
                        &&& (#[trigger] v@[k]).wf()
                        &&& v@[k].data_view() == self.data_view().subrange(line.0, line.1)
                        &&& v@[k].delimiter_view() == self.delimiter_view()
                        &&& v@[k].remaining() == split_spec(
                            v@[k].data_view(),
                            v@[k].delimiter_view(),
                        )
                    },
            decreases it.remaining_lines().len(),
        {
            let ghost n = v@.len() as int;
            match it.next() {
                Some(f) => {
                    assert(total.skip(n)[0] == total[n]);
                    v.push(f);
                    assert(total.skip(n).drop_first() =~= total.skip(n + 1));
                },
                None => {
                    return v;
                },
            }
        }
    }
}

/// The fields joined back together, with the delimiter between them.
pub open spec fn join_fields(fields: Seq<Seq<u8>>, d: u8) -> Seq<u8>
    decreases fields.len(),
{
    if fields.len() == 0 {
        Seq::empty()
    } else if fields.len() == 1 {
        fields[0]
    } else {
        join_fields(fields.drop_last(), d) + seq![d] + fields.last()
    }
}

proof fn lemma_join_extend_last(fields: Seq<Seq<u8>>, d: u8, c: u8)
    requires
        fields.len() > 0,
    ensures
        join_fields(fields.update(fields.len() - 1, fields.last().push(c)), d) == join_fields(
            fields,
            d,
        ).push(c),
{
    let g = fields.update(fields.len() - 1, fields.last().push(c));
    if fields.len() > 1 {
        assert(g.drop_last() =~= fields.drop_last());
        assert(join_fields(fields.drop_last(), d) + seq![d] + fields.last().push(c) =~= (
        join_fields(fields.drop_last(), d) + seq![d] + fields.last()).push(c));
    }
}

/// The delimiter predicate holds of the delimiter byte alone.
pub proof fn lemma_delim_pred(d: u8, b: u8)
    ensures
        (delim_pred(d))(b) <==> b == d,
{
}

/// The fields are the pieces of `s` between delimiter bytes: the first
/// starts at 0, the last ends at the end of `s`, each other field ends at a
/// delimiter and the next starts just after it, and no field holds the
/// delimiter.
pub proof fn lemma_split_bounds(s: Seq<u8>, d: u8)
    ensures
        split_spec(s, d).len() >= 1,
        field_bounds(s, d, 0).0 == 0,
        field_bounds(s, d, split_spec(s, d).len() - 1).1 == s.len(),
        forall|k: int|
            0 <= k < split_spec(s, d).len() ==> {
                let (a, e) = #[trigger] field_bounds(s, d, k);
                &&& 0 <= a <= e <= s.len()
                &&& split_spec(s, d)[k] == s.subrange(a, e)
                &&& (forall|j: int| a <= j < e ==> #[trigger] s[j] != d)
            },
        forall|k: int|
            0 <= k < split_spec(s, d).len() - 1 ==> {
                let e = (#[trigger] field_bounds(s, d, k)).1;
                &&& e < s.len()
                &&& s[e] == d
                &&& field_bounds(s, d, k + 1).0 == e + 1
            },
{
    let ds = delimiters(s, d);
    let sp = split_spec(s, d);
    positions::lemma_positions_where(s, delim_pred(d));
    lemma_fields_no_delimiter(s, d);
    assert forall|k: int| 0 <= k < sp.len() implies {
        let (a, e) = #[trigger] field_bounds(s, d, k);
        &&& 0 <= a <= e <= s.len()
        &&& sp[k] == s.subrange(a, e)
        &&& (forall|j: int| a <= j < e ==> #[trigger] s[j] != d)
    } by {
        let (a, e) = field_bounds(s, d, k);
        if k > 0 && k < ds.len() {
            assert(ds[k - 1] < ds[k]);
        }
        assert forall|j: int| a <= j < e implies #[trigger] s[j] != d by {
            assert(sp[k][j - a] == s[j]);
        }
    }
    assert forall|k: int| 0 <= k < sp.len() - 1 implies {
        let e = (#[trigger] field_bounds(s, d, k)).1;
        &&& e < s.len()
        &&& s[e] == d
        &&& field_bounds(s, d, k + 1).0 == e + 1
    } by {
        assert((delim_pred(d))(s[ds[k]]));
    }
}

/// Splitting loses nothing: joining the fields with the delimiter gives
/// back the line, and no field holds the delimiter.
pub proof fn lemma_split_join(s: Seq<u8>, d: u8)
    ensures
        join_fields(split_spec(s, d), d) == s,
        forall|k: int, j: int|
            #![trigger split_spec(s, d)[k][j]]
            0 <= k < split_spec(s, d).len() && 0 <= j < split_spec(s, d)[k].len()
                ==> split_spec(s, d)[k][j] != d,
{
    lemma_join_split(s, d);
    lemma_fields_no_delimiter(s, d);
}

proof fn lemma_fields_no_delimiter(s: Seq<u8>, d: u8)
    ensures
        forall|k: int, j: int|
            #![trigger split_spec(s, d)[k][j]]
            0 <= k < split_spec(s, d).len() && 0 <= j < split_spec(s, d)[k].len()
                ==> split_spec(s, d)[k][j] != d,
{
    let ds = delimiters(s, d);
    let sp = split_spec(s, d);
    positions::lemma_positions_where(s, delim_pred(d));
    assert forall|k: int, j: int|
        #![trigger sp[k][j]]
        0 <= k < sp.len() && 0 <= j < sp[k].len() implies sp[k][j] != d by {
        let (a, e) = field_bounds(s, d, k);
        if k > 0 && k < ds.len() {
            assert(ds[k - 1] < ds[k]);
        }
        if k > 0 {
            assert(ds[k - 1] < s.len());
        }
        assert(sp[k][j] == s[a + j]);
        positions::lemma_no_match_between(s, delim_pred(d), k, a + j);
    }
}

#[verifier::rlimit(30)]
proof fn lemma_join_split(s: Seq<u8>, d: u8)
    ensures
        join_fields(split_spec(s, d), d) == s,
    decreases s.len(),
{
    let ds = delimiters(s, d);
    let sp = split_spec(s, d);
    positions::lemma_positions_where(s, delim_pred(d));
    if s.len() == 0 {
        assert(sp.len() == 1);
        assert(sp[0] =~= s);
    } else {
        let t = s.drop_last();
        let c = s.last();
        lemma_join_split(t, d);
        let dt = delimiters(t, d);
        let st = split_spec(t, d);
        positions::lemma_positions_where(t, delim_pred(d));
        assert forall|k: int| 0 <= k < dt.len() implies #[trigger] sp[k] == st[k] by {
            assert(ds[k] == dt[k]);
            if k > 0 {
                assert(ds[k - 1] == dt[k - 1]);
                assert(dt[k - 1] < dt[k]);
            }
            assert(sp[k] =~= st[k]);
        }
        if c == d {
            assert(ds == dt.push(t.len() as int));
            assert(sp.len() == st.len() + 1);
            assert(sp[dt.len() as int] =~= st[dt.len() as int]);
            assert(sp[sp.len() - 1] =~= Seq::<u8>::empty());
            assert(sp.drop_last() =~= st);
            assert(join_fields(sp, d) =~= t + seq![d] + Seq::<u8>::empty());
            assert(t + seq![d] + Seq::<u8>::empty() =~= s);
        } else {
            assert(ds == dt);
            assert(sp[dt.len() as int] =~= st[dt.len() as int].push(c));
            assert(sp =~= st.update(st.len() - 1, st.last().push(c)));
            lemma_join_extend_last(st, d, c);
            assert(t.push(c) =~= s);
        }
    }
}

} // verus!
