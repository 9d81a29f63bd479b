//! An ordered, length-exact mapping from disjoint intervals to values.
//!
//! A `SpanMap<V>` is a run-length sequence of values that exactly and
//! disjointly covers `[0, total)` with no gaps. Its mathematical model
//! is the sequence of values, one per covered position; every operation
//! is specified against that model.

use vstd::prelude::*;

use crate::interval::Interval;

verus! {

/// One run: `len` consecutive positions carrying `val`.
#[derive(Clone, Copy, Debug)]
pub struct Span<V> {
    pub len: usize,
    pub val: V,
}

/// A sequence of runs covering `[0, total)` exactly.
#[derive(Debug)]
pub struct SpanMap<V> {
    pub spans: Vec<Span<V>>,
    pub total: usize,
}

/// The value at each covered position, run by run.
pub open spec fn spans_seq<V>(s: Seq<Span<V>>) -> Seq<V>
    decreases s.len(),
{
    if s.len() == 0 {
        Seq::empty()
    } else {
        spans_seq(s.drop_last()) + Seq::new(s.last().len as nat, |i: int| s.last().val)
    }
}

/// Appending one run appends its repeated value.
pub proof fn lemma_spans_seq_push<V>(s: Seq<Span<V>>, sp: Span<V>)
    ensures
        spans_seq(s.push(sp)) == spans_seq(s) + Seq::new(sp.len as nat, |i: int| sp.val),
{
    assert(s.push(sp).drop_last() =~= s);
    assert(s.push(sp).last() == sp);
}

/// The model splits wherever the run list splits.
pub proof fn lemma_spans_seq_split<V>(s: Seq<Span<V>>, k: int)
    requires
        0 <= k <= s.len(),
    ensures
        spans_seq(s) == spans_seq(s.take(k)) + spans_seq(s.skip(k)),
    decreases s.len(),
{
    if k == s.len() {
        assert(s.take(k) =~= s);
        assert(s.skip(k) =~= Seq::<Span<V>>::empty());
        assert(spans_seq(s.skip(k)) =~= Seq::<V>::empty());
        assert(spans_seq(s) =~= spans_seq(s.take(k)) + spans_seq(s.skip(k)));
    } else {
        let d = s.drop_last();
        lemma_spans_seq_split(d, k);
        assert(s.take(k) =~= d.take(k));
        assert(s.skip(k).drop_last() =~= d.skip(k));
        assert(s.skip(k).len() > 0);
        assert(s.skip(k).last() == s.last());
        assert(spans_seq(s.skip(k)) == spans_seq(d.skip(k)) + Seq::new(
            s.last().len as nat,
            |i: int| s.last().val,
        ));
        assert(spans_seq(s) =~= spans_seq(s.take(k)) + spans_seq(s.skip(k)));
    }
}

/// The starting offset of run `k`: the model length of the runs before it.
pub open spec fn offset_of<V>(s: Seq<Span<V>>, k: int) -> int {
    spans_seq(s.take(k)).len() as int
}

/// Within run `k`'s range of offsets the model holds run `k`'s value.
pub proof fn lemma_spans_seq_run<V>(s: Seq<Span<V>>, k: int)
    requires
        0 <= k < s.len(),
    ensures
        offset_of(s, k) + s[k].len == offset_of(s, k + 1),
        offset_of(s, k + 1) <= spans_seq(s).len(),
        forall|p: int|
            offset_of(s, k) <= p < offset_of(s, k) + s[k].len ==> spans_seq(s)[p] == s[k].val,
{
    lemma_spans_seq_split(s, k);
    lemma_spans_seq_split(s.skip(k), 1);
    assert(s.skip(k).take(1) =~= seq![s[k]]);
    assert(seq![s[k]] =~= Seq::<Span<V>>::empty().push(s[k]));
    lemma_spans_seq_push(Seq::<Span<V>>::empty(), s[k]);
    assert(spans_seq(seq![s[k]]) =~= Seq::new(s[k].len as nat, |i: int| s[k].val));
    assert(s.skip(k).skip(1) =~= s.skip(k + 1));
    assert(s.take(k + 1) =~= s.take(k).push(s[k]));
    lemma_spans_seq_push(s.take(k), s[k]);
    lemma_spans_seq_split(s, k + 1);
}

impl<V: Copy> SpanMap<V> {
    /// The mathematical model: the value at each position of `[0, total)`.
    pub open spec fn view(self) -> Seq<V> {
        spans_seq(self.spans@)
    }

    /// `total` is the model's length and no run is empty.
    pub open spec fn wf(self) -> bool {
        &&& self.total == self.view().len()
        &&& forall|i: int| 0 <= i < self.spans@.len() ==> (#[trigger] self.spans@[i]).len > 0
    }

    /// No two adjacent runs carry the same value.
    pub open spec fn coalesced(self) -> bool {
        forall|i: int|
            0 <= i && i + 1 < self.spans@.len() ==> (#[trigger] self.spans@[i]).val
                != self.spans@[i + 1].val
    }

    /// The map of length zero.
    pub fn new() -> (r: SpanMap<V>)
        ensures
            r.wf(),
            r.coalesced(),
            r.view() =~= Seq::<V>::empty(),
            r.spans@.len() == 0,
    {
        SpanMap { spans: Vec::new(), total: 0 }
    }

    /// The whole of `[0, len)` carrying `val`.
    pub fn uniform(len: usize, val: V) -> (r: SpanMap<V>)
        ensures
            r.wf(),
            r.coalesced(),
            r.view() =~= Seq::new(len as nat, |i: int| val),
    {
        let mut spans: Vec<Span<V>> = Vec::new();
        if len > 0 {
            spans.push(Span { len, val });
        }
        proof {
            if len > 0 {
                lemma_spans_seq_push(Seq::<Span<V>>::empty(), Span { len, val });
            }
        }
        SpanMap { spans, total: len }
    }

    pub fn len(&self) -> (r: usize)
        requires
            self.wf(),
        ensures
            r == self.view().len(),
    {
        self.total
    }

    /// Appends one run of `len` positions carrying `val`.
    pub fn push_span(&mut self, len: usize, val: V)
        requires
            old(self).wf(),
            old(self).total + len <= usize::MAX,
        ensures
            final(self).wf(),
            final(self).view() =~= old(self).view() + Seq::new(len as nat, |i: int| val),
            len == 0 ==> final(self).spans@ == old(self).spans@,
    {
        if len == 0 {
            proof {
                assert(self.view() =~= old(self).view() + Seq::new(0nat, |i: int| val));
            }
            return ;
        }
        self.spans.push(Span { len, val });
        self.total = self.total + len;
        proof {
            lemma_spans_seq_push(old(self).spans@, Span { len, val });
        }
    }

    /// The runs of the map, in ascending order, as `(start, end, value)`
    /// triples: a finite, restartable traversal that does not mutate the
    /// map. Each call hands back the sequence from the start.
    pub fn iterate(&self) -> (r: Vec<(usize, usize, V)>)
        requires
            self.wf(),
        ensures
            r@.len() == self.spans@.len(),
            forall|k: int|
                0 <= k < r@.len() ==> (#[trigger] r@[k]).0 == offset_of(self.spans@, k)
                    && r@[k].1 == offset_of(self.spans@, k + 1) && r@[k].2 == self.spans@[k].val,
    {
        let mut out: Vec<(usize, usize, V)> = Vec::new();
        let mut pos: usize = 0;
        let mut i: usize = 0;
        proof {
            assert(self.spans@.take(0) =~= Seq::<Span<V>>::empty());
        }
        while i < self.spans.len()
            invariant
                self.wf(),
                0 <= i <= self.spans@.len(),
                pos == offset_of(self.spans@, i as int),
                pos <= self.total,
                out@.len() == i,
                forall|k: int|
                    0 <= k < i ==> (#[trigger] out@[k]).0 == offset_of(self.spans@, k)
                        && out@[k].1 == offset_of(self.spans@, k + 1) && out@[k].2
                        == self.spans@[k].val,
            decreases self.spans@.len() - i,
        {
            proof {
                lemma_spans_seq_run(self.spans@, i as int);
            }
            let sp_len = self.spans[i].len;
            out.push((pos, pos + sp_len, self.spans[i].val));
            pos = pos + sp_len;
            i = i + 1;
        }
        out
    }

    /// A copy of the values over `[from, to)`, re-based to start at 0.
    fn clip(&self, from: usize, to: usize) -> (r: SpanMap<V>)
        requires
            self.wf(),
            from <= to <= self.total,
        ensures
            r.wf(),
            r.view() =~= self.view().subrange(from as int, to as int),
    {
        let mut out: SpanMap<V> = SpanMap::new();
        let mut pos: usize = 0;
        let mut i: usize = 0;
        proof {
            assert(self.spans@.take(0) =~= Seq::<Span<V>>::empty());
        }
        while i < self.spans.len()
            invariant
                self.wf(),
                from <= to <= self.total,
                0 <= i <= self.spans@.len(),
                pos == offset_of(self.spans@, i as int),
                pos <= self.total,
                out.wf(),
                out.view() =~= self.view().subrange(
                    from as int,
                    clamp(pos as int, from as int, to as int),
                ),
            decreases self.spans@.len() - i,
        {
            proof {
                lemma_spans_seq_run(self.spans@, i as int);
            }
            let sp_len = self.spans[i].len;
            let sp_val = self.spans[i].val;
            let s_start = pos;
            let s_end = pos + sp_len;
            let lo = if from > s_start {
                from
            } else {
                s_start
            };
            let hi = if to < s_end {
                to
            } else {
                s_end
            };
            if lo < hi {
                out.push_span(hi - lo, sp_val);
                proof {
                    assert forall|q: int|
                        0 <= q < clamp(s_end as int, from as int, to as int)
                            - from implies self.view().subrange(
                        from as int,
                        clamp(s_end as int, from as int, to as int),
                    )[q] == out.view()[q] by {
                        if from + q >= lo {
                            assert(self.view()[from + q] == sp_val);
                        }
                    }
                }
            }
            pos = s_end;
            i = i + 1;
            proof {
                assert(out.view() =~= self.view().subrange(
                    from as int,
                    clamp(pos as int, from as int, to as int),
                ));
            }
        }
        proof {
            assert(self.spans@.take(self.spans@.len() as int) =~= self.spans@);
        }
        out
    }

    /// A copy limited to `iv`, re-based so it starts at offset 0.
    pub fn subseq(&self, iv: Interval) -> (r: SpanMap<V>)
        requires
            self.wf(),
            iv.wf(),
            iv.end <= self.total,
        ensures
            r.wf(),
            r.view() =~= self.view().subrange(iv.start as int, iv.end as int),
            r.view().len() == iv.spec_len(),
    {
        self.clip(iv.start, iv.end)
    }

    /// Appends a copy of every run of `other`.
    fn append_copy(&mut self, other: &SpanMap<V>)
        requires
            old(self).wf(),
            other.wf(),
            old(self).total + other.total <= usize::MAX,
        ensures
            final(self).wf(),
            final(self).view() =~= old(self).view() + other.view(),
    {
        let mut j: usize = 0;
        proof {
            assert(other.spans@.take(0) =~= Seq::<Span<V>>::empty());
        }
        while j < other.spans.len()
            invariant
                self.wf(),
                other.wf(),
                old(self).wf(),
                old(self).total + other.total <= usize::MAX,
                0 <= j <= other.spans@.len(),
                self.view() =~= old(self).view() + spans_seq(other.spans@.take(j as int)),
            decreases other.spans@.len() - j,
        {
            let sp_len = other.spans[j].len;
            let sp_val = other.spans[j].val;
            proof {
                lemma_spans_seq_run(other.spans@, j as int);
                lemma_spans_seq_push(other.spans@.take(j as int), other.spans@[j as int]);
                assert(other.spans@.take(j + 1) =~= other.spans@.take(j as int).push(
                    other.spans@[j as int],
                ));
                assert(self.view().len() == old(self).view().len() + offset_of(
                    other.spans@,
                    j as int,
                ));
                assert(offset_of(other.spans@, j as int) + sp_len <= other.total);
            }
            self.push_span(sp_len, sp_val);
            j = j + 1;
        }
        proof {
            assert(other.spans@.take(other.spans@.len() as int) =~= other.spans@);
        }
    }

    /// Replaces the content covering `iv` with a copy of `repl`, whose
    /// length need not equal `iv`'s: this is how document length changes
    /// propagate.
    pub fn edit(&mut self, iv: Interval, repl: &SpanMap<V>)
        requires
            old(self).wf(),
            repl.wf(),
            iv.wf(),
            iv.end <= old(self).total,
            iv.start + repl.total + (old(self).total - iv.end) <= usize::MAX,
        ensures
            final(self).wf(),
            final(self).view() =~= old(self).view().take(iv.start as int) + repl.view() + old(
                self,
            ).view().skip(iv.end as int),
            final(self).view().len() == old(self).view().len() - iv.spec_len()
                + repl.view().len(),
    {
        let total = self.total;
        let mut out = self.clip(0, iv.start);
        out.append_copy(repl);
        let post = self.clip(iv.end, total);
        out.append_copy(&post);
        proof {
            assert(old(self).view().subrange(0, iv.start as int) =~= old(self).view().take(
                iv.start as int,
            ));
            assert(old(self).view().subrange(iv.end as int, old(self).total as int) =~= old(
                self,
            ).view().skip(iv.end as int));
        }
        *self = out;
    }
}

impl<V: Copy> SpanMap<V> {
    /// Walks both maps in lockstep over their run boundaries and, for each
    /// minimal overlapping sub-interval, keeps `combine`'s answer. The two
    /// maps must cover the same length, so `combine` always receives `Some`
    /// here; the `Option` branch is part of the general interface, for
    /// callers whose maps need not align.
    pub fn merge<F: Fn(V, Option<V>) -> V>(&self, other: &SpanMap<V>, combine: F) -> (r: SpanMap<
        V,
    >)
        requires
            self.wf(),
            other.wf(),
            self.view().len() == other.view().len(),
            forall|k: int|
                0 <= k < self.view().len() ==> call_requires(
                    combine,
                    (self.view()[k], Some(other.view()[k])),
                ),
        ensures
            r.wf(),
            r.view().len() == self.view().len(),
            forall|k: int|
                0 <= k < self.view().len() ==> call_ensures(
                    combine,
                    (self.view()[k], Some(other.view()[k])),
                    r.view()[k],
                ),
    {
        let mut out: SpanMap<V> = SpanMap::new();
        let mut i: usize = 0;
        let mut j: usize = 0;
        let mut ioff: usize = 0;
        let mut joff: usize = 0;
        let mut pos: usize = 0;
        proof {
            assert(self.spans@.take(0) =~= Seq::<Span<V>>::empty());
            assert(other.spans@.take(0) =~= Seq::<Span<V>>::empty());
        }
        while pos < self.total
            invariant
                self.wf(),
                other.wf(),
                self.view().len() == other.view().len(),
                forall|k: int|
                    0 <= k < self.view().len() ==> call_requires(
                        combine,
                        (self.view()[k], Some(other.view()[k])),
                    ),
                0 <= i <= self.spans@.len(),
                0 <= j <= other.spans@.len(),
                pos == offset_of(self.spans@, i as int) + ioff,
                pos == offset_of(other.spans@, j as int) + joff,
                i < self.spans@.len() ==> ioff < self.spans@[i as int].len,
                i == self.spans@.len() ==> ioff == 0,
                j < other.spans@.len() ==> joff < other.spans@[j as int].len,
                j == other.spans@.len() ==> joff == 0,
                pos <= self.total,
                out.wf(),
                out.view().len() == pos,
                forall|k: int|
                    0 <= k < pos ==> call_ensures(
                        combine,
                        (self.view()[k], Some(other.view()[k])),
                        out.view()[k],
                    ),
            decreases self.total - pos,
        {
            proof {
                assert(self.spans@.take(self.spans@.len() as int) =~= self.spans@);
                assert(other.spans@.take(other.spans@.len() as int) =~= other.spans@);
                assert(i < self.spans@.len());
                assert(j < other.spans@.len());
                lemma_spans_seq_run(self.spans@, i as int);
                lemma_spans_seq_run(other.spans@, j as int);
            }
            let n_spans = self.spans.len();
            let m_spans = other.spans.len();
            let a_len = self.spans[i].len;
            let a_val = self.spans[i].val;
            let b_len = other.spans[j].len;
            let b_val = other.spans[j].val;
            let arem = a_len - ioff;
            let brem = b_len - joff;
            let step = if arem < brem {
                arem
            } else {
                brem
            };
            proof {
                assert(self.view()[pos as int] == a_val);
                assert(other.view()[pos as int] == b_val);
                assert forall|k: int| pos <= k < pos + step implies self.view()[k] == a_val
                    && other.view()[k] == b_val by {}
            }
            let v = combine(a_val, Some(b_val));
            out.push_span(step, v);
            pos = pos + step;
            ioff = ioff + step;
            joff = joff + step;
            if ioff == a_len {
                i = i + 1;
                ioff = 0;
            }
            if joff == b_len {
                j = j + 1;
                joff = 0;
            }
        }
        out
    }
}

impl SpanMap<crate::style::Style> {
    /// Appends a run of `len` positions carrying `val`, widening the last
    /// run instead when it carries the same style, so that the map never
    /// holds two adjacent runs with equal style.
    pub fn push_span_coalesce(&mut self, len: usize, val: crate::style::Style)
        requires
            old(self).wf(),
            old(self).coalesced(),
            old(self).total + len <= usize::MAX,
        ensures
            final(self).wf(),
            final(self).coalesced(),
            final(self).view() =~= old(self).view() + Seq::new(len as nat, |i: int| val),
    {
        if len == 0 {
            proof {
                assert(self.view() =~= old(self).view() + Seq::new(0nat, |i: int| val));
            }
            return ;
        }
        let n = self.spans.len();
        if n > 0 && self.spans[n - 1].val.same(&val) {
            let last = self.spans.pop().unwrap();
            self.spans.push(Span { len: last.len + len, val });
            self.total = self.total + len;
            proof {
                let d = old(self).spans@.drop_last();
                lemma_spans_seq_push(d, old(self).spans@.last());
                assert(d.push(old(self).spans@.last()) =~= old(self).spans@);
                lemma_spans_seq_push(d, Span { len: (last.len + len) as usize, val });
                assert(self.view() =~= old(self).view() + Seq::new(len as nat, |i: int| val));
            }
        } else {
            self.spans.push(Span { len, val });
            self.total = self.total + len;
            proof {
                lemma_spans_seq_push(old(self).spans@, Span { len, val });
            }
        }
    }

    /// Appends a copy of `other`'s runs, coalescing at every seam.
    pub fn append_coalesce(&mut self, other: &SpanMap<crate::style::Style>)
        requires
            old(self).wf(),
            old(self).coalesced(),
            other.wf(),
            old(self).total + other.total <= usize::MAX,
        ensures
            final(self).wf(),
            final(self).coalesced(),
            final(self).view() =~= old(self).view() + other.view(),
    {
        let mut j: usize = 0;
        proof {
            assert(other.spans@.take(0) =~= Seq::<Span<crate::style::Style>>::empty());
        }
        while j < other.spans.len()
            invariant
                self.wf(),
                self.coalesced(),
                other.wf(),
                old(self).wf(),
                old(self).total + other.total <= usize::MAX,
                0 <= j <= other.spans@.len(),
                self.view() =~= old(self).view() + spans_seq(other.spans@.take(j as int)),
            decreases other.spans@.len() - j,
        {
            let sp_len = other.spans[j].len;
            let sp_val = other.spans[j].val;
            proof {
                lemma_spans_seq_run(other.spans@, j as int);
                lemma_spans_seq_push(other.spans@.take(j as int), other.spans@[j as int]);
                assert(other.spans@.take(j + 1) =~= other.spans@.take(j as int).push(
                    other.spans@[j as int],
                ));
                assert(self.view().len() == old(self).view().len() + offset_of(
                    other.spans@,
                    j as int,
                ));
                assert(offset_of(other.spans@, j as int) + sp_len <= other.total);
            }
            self.push_span_coalesce(sp_len, sp_val);
            j = j + 1;
        }
        proof {
            assert(other.spans@.take(other.spans@.len() as int) =~= other.spans@);
        }
    }

    /// `edit`, but the result is rebuilt with every seam coalesced, so
    /// the compression invariant survives the splice.
    pub fn edit_coalesced(&mut self, iv: Interval, repl: &SpanMap<crate::style::Style>)
        requires
            old(self).wf(),
            repl.wf(),
            iv.wf(),
            iv.end <= old(self).total,
            iv.start + repl.total + (old(self).total - iv.end) <= usize::MAX,
        ensures
            final(self).wf(),
            final(self).coalesced(),
            final(self).view() =~= old(self).view().take(iv.start as int) + repl.view() + old(
                self,
            ).view().skip(iv.end as int),
            final(self).view().len() == old(self).view().len() - iv.spec_len()
                + repl.view().len(),
    {
        let total = self.total;
        let pre = self.clip(0, iv.start);
        let post = self.clip(iv.end, total);
        let mut out: SpanMap<crate::style::Style> = SpanMap::new();
        out.append_coalesce(&pre);
        out.append_coalesce(repl);
        out.append_coalesce(&post);
        proof {
            assert(old(self).view().subrange(0, iv.start as int) =~= old(self).view().take(
                iv.start as int,
            ));
            assert(old(self).view().subrange(iv.end as int, old(self).total as int) =~= old(
                self,
            ).view().skip(iv.end as int));
        }
        *self = out;
    }
}

/// The nearest point to `p` within `[lo, hi]`.
pub open spec fn clamp(p: int, lo: int, hi: int) -> int {
    if p <= lo {
        lo
    } else if p >= hi {
        hi
    } else {
        p
    }
}


/// A well-formed, fully coalesced run list is the canonical run-length
/// form of its model: two such lists with the same model are the same
/// list.
pub proof fn lemma_canonical_runs_seq<V>(a: Seq<Span<V>>, b: Seq<Span<V>>)
    requires
        forall|i: int| 0 <= i < a.len() ==> (#[trigger] a[i]).len > 0,
        forall|i: int| 0 <= i < b.len() ==> (#[trigger] b[i]).len > 0,
        forall|i: int| 0 <= i && i + 1 < a.len() ==> (#[trigger] a[i]).val != a[i + 1].val,
        forall|i: int| 0 <= i && i + 1 < b.len() ==> (#[trigger] b[i]).val != b[i + 1].val,
        spans_seq(a) == spans_seq(b),
    ensures
        a =~= b,
    decreases a.len(),
{
    if a.len() == 0 || b.len() == 0 {
        if a.len() != 0 {
            lemma_spans_seq_run(a, 0);
            assert(a.take(0) =~= Seq::<Span<V>>::empty());
            assert(spans_seq(a).len() > 0);
        }
        if b.len() != 0 {
            lemma_spans_seq_run(b, 0);
            assert(b.take(0) =~= Seq::<Span<V>>::empty());
            assert(spans_seq(b).len() > 0);
        }
        assert(a.len() == 0 && b.len() == 0);
    } else {
        lemma_spans_seq_run(a, 0);
        lemma_spans_seq_run(b, 0);
        assert(a.take(0) =~= Seq::<Span<V>>::empty());
        assert(b.take(0) =~= Seq::<Span<V>>::empty());
        assert(offset_of(a, 0) == 0);
        assert(offset_of(b, 0) == 0);
        assert(spans_seq(a)[0] == a[0].val);
        assert(spans_seq(b)[0] == b[0].val);
        if a[0].len < b[0].len {
            let p = a[0].len as int;
            assert(spans_seq(b)[p] == b[0].val);
            if a.len() == 1 {
                assert(a.take(1) =~= a);
                assert(spans_seq(a).len() == offset_of(a, 1));
                assert(false);
            } else {
                lemma_spans_seq_run(a, 1);
                assert(spans_seq(a)[p] == a[1].val);
                assert(false);
            }
        }
        if b[0].len < a[0].len {
            let p = b[0].len as int;
            assert(spans_seq(a)[p] == a[0].val);
            if b.len() == 1 {
                assert(b.take(1) =~= b);
                assert(spans_seq(b).len() == offset_of(b, 1));
                assert(false);
            } else {
                lemma_spans_seq_run(b, 1);
                assert(spans_seq(b)[p] == b[1].val);
                assert(false);
            }
        }
        assert(a[0].len == b[0].len);
        assert(a[0].val == b[0].val);
        lemma_spans_seq_split(a, 1);
        lemma_spans_seq_split(b, 1);
        assert(a.take(1) =~= seq![a[0]]);
        assert(b.take(1) =~= seq![b[0]]);
        assert(a.take(1) =~= b.take(1));
        assert(spans_seq(a.take(1)) == spans_seq(b.take(1)));
        let head = spans_seq(a.take(1)).len() as int;
        assert(spans_seq(a.skip(1)) =~= spans_seq(a).skip(head));
        assert(spans_seq(b.skip(1)) =~= spans_seq(b).skip(head));
        lemma_canonical_runs_seq(a.skip(1), b.skip(1));
        assert forall|i: int| 0 <= i < a.len() implies a[i] == b[i] by {
            if i >= 1 {
                assert(a.skip(1)[i - 1] == b.skip(1)[i - 1]);
            }
        }
    }
}

/// A well-formed, fully coalesced map is identical to every other such
/// map with the same model: runs, values and total all agree.
pub proof fn lemma_canonical_runs<V: Copy>(a: SpanMap<V>, b: SpanMap<V>)
    requires
        a.wf(),
        b.wf(),
        a.coalesced(),
        b.coalesced(),
        a.view() == b.view(),
    ensures
        a.spans@ == b.spans@,
        a.total == b.total,
{
    lemma_canonical_runs_seq(a.spans@, b.spans@);
    assert(a.spans@ =~= b.spans@);
}

} // verus!
