use vstd::prelude::*;

use crate::id::Id;
use crate::span::Span;
use crate::spanset::{
    lemma_count_take, lemma_ids_bounds, lemma_ids_push, spans_count, spans_ids, spans_wf, SpanSet,
};

verus! {

/// The ids of `s` from `high` down to `low`.
pub open spec fn span_elems(s: Span) -> Seq<int> {
    Seq::new(s.size() as nat, |k: int| s.high.0 - k)
}

/// The ids of the spans of `ss`, in the order of the spans and, within each
/// span, from `high` down to `low`. For a span set this is descending order.
#[verifier::opaque]
pub open spec fn spans_elems(ss: Seq<Span>) -> Seq<int>
    decreases ss.len(),
{
    if ss.len() == 0 {
        Seq::empty()
    } else {
        spans_elems(ss.drop_last()) + span_elems(ss.last())
    }
}

/// The position in `spans_elems(ss)` at which span `i` begins.
pub open spec fn span_start(ss: Seq<Span>, i: int) -> int {
    spans_count(ss.take(i))
}

/// Each id is listed once per span that holds it: the list is as long as
/// the count.
pub proof fn lemma_elems_len(ss: Seq<Span>)
    requires
        forall|i: int| 0 <= i < ss.len() ==> (#[trigger] ss[i]).wf(),
    ensures
        spans_elems(ss).len() == spans_count(ss),
    decreases ss.len(),
{
    reveal(spans_elems);
    reveal(spans_count);
    if ss.len() > 0 {
        let d = ss.drop_last();
        assert forall|i: int| 0 <= i < d.len() implies (#[trigger] d[i]).wf() by {
            assert(d[i] == ss[i]);
        }
        lemma_elems_len(d);
        assert(ss[ss.len() - 1].wf());
    }
}

/// Span starts grow with the span index, from zero.
pub proof fn lemma_start_mono(ss: Seq<Span>, i: int, j: int)
    requires
        forall|k: int| 0 <= k < ss.len() ==> (#[trigger] ss[k]).wf(),
        0 <= i <= j <= ss.len(),
    ensures
        0 <= span_start(ss, i) <= span_start(ss, j),
    decreases j,
{
    if j == 0 {
        reveal(spans_count);
        assert(ss.take(0).len() == 0);
    } else {
        lemma_start_mono(ss, 0, j - 1);
        lemma_count_take(ss, j - 1);
        assert(ss[j - 1].wf());
        if i < j {
            lemma_start_mono(ss, i, j - 1);
        }
    }
}

/// The id at offset `o` of span `i` stands at `span_start(ss, i) + o`.
pub proof fn lemma_elems_index(ss: Seq<Span>, i: int, o: int)
    requires
        forall|k: int| 0 <= k < ss.len() ==> (#[trigger] ss[k]).wf(),
        0 <= i < ss.len(),
        0 <= o < ss[i].size(),
    ensures
        span_start(ss, i) + o < spans_elems(ss).len(),
        spans_elems(ss)[span_start(ss, i) + o] == ss[i].high.0 - o,
    decreases ss.len(),
{
    reveal(spans_elems);
    let d = ss.drop_last();
    assert forall|k: int| 0 <= k < d.len() implies (#[trigger] d[k]).wf() by {
        assert(d[k] == ss[k]);
    }
    lemma_elems_len(d);
    lemma_elems_len(ss);
    lemma_count_take(ss, i);
    lemma_start_mono(ss, i + 1, ss.len() as int);
    assert(ss.take(ss.len() as int) =~= ss);
    assert(spans_elems(ss) == spans_elems(d) + span_elems(ss.last()));
    if i == ss.len() - 1 {
        assert(ss.take(i) =~= d);
        assert(span_start(ss, i) == spans_elems(d).len());
        assert(span_elems(ss.last())[o] == ss[i].high.0 - o);
        assert(spans_elems(ss)[span_start(ss, i) + o] == span_elems(ss.last())[o]);
    } else {
        assert(ss.take(i) =~= d.take(i));
        assert(d[i] == ss[i]);
        lemma_elems_index(d, i, o);
        lemma_start_mono(d, i, i);
        assert(span_start(ss, i) == span_start(d, i));
        assert(span_start(ss, i) + o < spans_elems(d).len());
        assert(spans_elems(ss)[span_start(ss, i) + o] == spans_elems(d)[span_start(d, i) + o]);
    }
}

/// For a well-formed sequence the listed ids strictly descend, and they are
/// exactly the ids that the spans cover.
pub proof fn lemma_elems_ids(ss: Seq<Span>)
    requires
        spans_wf(ss),
    ensures
        forall|i: int, j: int|
            0 <= i < j < spans_elems(ss).len() ==> #[trigger] spans_elems(ss)[i]
                > #[trigger] spans_elems(ss)[j],
        forall|x: int| spans_elems(ss).contains(x) <==> #[trigger] spans_ids(ss).contains(x),
    decreases ss.len(),
{
    reveal(spans_elems);
    if ss.len() == 0 {
        assert(spans_ids(ss) =~= Set::<int>::empty()) by {
            assert(ss =~= Seq::<Span>::empty());
            crate::spanset::lemma_ids_empty();
        }
    } else {
        let d = ss.drop_last();
        let last = ss.last();
        assert(spans_wf(d)) by {
            assert forall|k: int| 0 < k < d.len() implies (#[trigger] d[k]).high.0 + 1
                < d[k - 1].low.0 by {
                assert(d[k] == ss[k]);
                assert(d[k - 1] == ss[k - 1]);
            }
            assert forall|k: int| 0 <= k < d.len() implies (#[trigger] d[k]).wf() by {
                assert(d[k] == ss[k]);
            }
        }
        lemma_elems_ids(d);
        assert(ss =~= d.push(last));
        lemma_ids_push(d, last);
        assert(last.wf());
        let ed = spans_elems(d);
        let el = span_elems(last);
        let e = spans_elems(ss);
        assert(e == ed + el);
        if d.len() > 0 {
            lemma_ids_bounds(d);
            assert(last.high.0 + 1 < d.last().low.0) by {
                assert(ss[ss.len() - 1] == last);
                assert(ss[ss.len() - 2] == d.last());
            }
        }
        assert forall|i: int, j: int| 0 <= i < j < e.len() implies #[trigger] e[i] > #[trigger] e[j] by {
            if j >= ed.len() && i < ed.len() {
                assert(ed.contains(ed[i]));
                assert(spans_ids(d).contains(ed[i]));
            }
        }
        assert forall|x: int| e.contains(x) <==> #[trigger] spans_ids(ss).contains(x) by {
            if e.contains(x) {
                let k = choose|k: int| 0 <= k < e.len() && e[k] == x;
                if k < ed.len() {
                    assert(ed.contains(x));
                } else {
                    assert(last.has(x));
                }
            }
            if spans_ids(ss).contains(x) {
                if spans_ids(d).contains(x) {
                    assert(ed.contains(x));
                    let k = choose|k: int| 0 <= k < ed.len() && ed[k] == x;
                    assert(e[k] == x);
                } else {
                    assert(last.has(x));
                    let k = last.high.0 - x;
                    assert(el[k] == x);
                    assert(e[ed.len() + k] == x);
                }
            }
        }
    }
}

/// Where a two-ended walk over the ids of a span list stands.
struct Cursor {
    /// (span index, offset below that span's `high`) of the next id from
    /// the front.
    front: (usize, u64),
    /// (one past the span index, offset below that span's `high`) of the
    /// next id from the back; `(0, 0)` once the back passed the first span.
    back: (usize, u64),
}

impl Cursor {
    /// The position in `spans_elems(ss)` of the next id from the front.
    closed spec fn front_pos(&self, ss: Seq<Span>) -> int {
        span_start(ss, self.front.0 as int) + self.front.1
    }

    /// One past the position in `spans_elems(ss)` of the next id from the back.
    closed spec fn back_pos(&self, ss: Seq<Span>) -> int {
        if self.back.0 == 0 {
            0
        } else {
            span_start(ss, self.back.0 - 1) + self.back.1 + 1
        }
    }

    /// The ids of `ss` not yet handed out.
    closed spec fn remaining(&self, ss: Seq<Span>) -> Seq<int> {
        spans_elems(ss).subrange(self.front_pos(ss), self.back_pos(ss))
    }

    /// The cursors lie within the spans, the front not past the back.
    closed spec fn wf(&self, ss: Seq<Span>) -> bool {
        &&& spans_wf(ss)
        &&& self.front.0 <= ss.len()
        &&& self.front.0 < ss.len() ==> self.front.1 < ss[self.front.0 as int].size()
        &&& self.front.0 == ss.len() ==> self.front.1 == 0
        &&& self.back.0 <= ss.len()
        &&& self.back.0 > 0 ==> self.back.1 < ss[self.back.0 - 1].size()
        &&& self.back.0 == 0 ==> self.back.1 == 0
        &&& self.front_pos(ss) <= self.back_pos(ss)
        &&& self.back_pos(ss) <= spans_elems(ss).len()
    }

    proof fn lemma_positions(&self, ss: Seq<Span>)
        requires
            self.wf(ss),
        ensures
            spans_elems(ss).len() == spans_count(ss),
            0 <= self.front_pos(ss) <= self.back_pos(ss) <= spans_elems(ss).len(),
            self.remaining(ss).len() == self.back_pos(ss) - self.front_pos(ss),
            (self.front.0 >= self.back.0 || (self.front.0 + 1 == self.back.0 && self.front.1
                > self.back.1)) <==> self.front_pos(ss) >= self.back_pos(ss),
    {
        assert forall|k: int| 0 <= k < ss.len() implies (#[trigger] ss[k]).wf() by {}
        lemma_elems_len(ss);
        let fi = self.front.0 as int;
        let bi = self.back.0 as int;
        let fo = self.front.1 as int;
        let bo = self.back.1 as int;
        let fpos = self.front_pos(ss);
        let bpos = self.back_pos(ss);
        assert(fpos == span_start(ss, fi) + fo);
        lemma_start_mono(ss, 0, fi);
        if fi < ss.len() {
            lemma_count_take(ss, fi);
        }
        if bi > 0 {
            lemma_count_take(ss, bi - 1);
            assert(bpos == span_start(ss, bi - 1) + bo + 1);
            assert(bpos <= span_start(ss, bi));
        }
        if fi >= bi {
            if bi > 0 {
                lemma_start_mono(ss, bi, fi);
            }
            assert(fpos >= bpos);
        } else if fi + 1 == bi {
            assert(fo > bo <==> fpos >= bpos);
        } else {
            lemma_start_mono(ss, fi + 1, bi - 1);
            assert(fpos < span_start(ss, fi + 1));
            assert(fpos < bpos);
        }
    }

    /// A cursor over all of `spans`.
    fn start(spans: &Vec<Span>) -> (r: Cursor)
        requires
            spans_wf(spans@),
        ensures
            r.wf(spans@),
            r.remaining(spans@) == spans_elems(spans@),
    {
        let n = spans.len();
        let back = if n == 0 {
            (0, 0)
        } else {
            (n, spans[n - 1].high.0 - spans[n - 1].low.0)
        };
        let r = Cursor { front: (0, 0), back };
        proof {
            let ss = spans@;
            assert forall|k: int| 0 <= k < ss.len() implies (#[trigger] ss[k]).wf() by {}
            lemma_elems_len(ss);
            reveal(spans_count);
            assert(ss.take(0).len() == 0);
            if n > 0 {
                lemma_count_take(ss, n - 1);
                assert(ss.take(n as int) =~= ss);
            }
            assert(r.remaining(ss) =~= spans_elems(ss));
        }
        r
    }

    /// Take the largest id not yet handed out.
    #[verifier::rlimit(80)]
    fn next(&mut self, spans: &Vec<Span>) -> (r: Option<Id>)
        requires
            old(self).wf(spans@),
        ensures
            final(self).wf(spans@),
            final(self).remaining(spans@) == if old(self).remaining(spans@).len() == 0 {
                old(self).remaining(spans@)
            } else {
                old(self).remaining(spans@).drop_first()
            },
            old(self).remaining(spans@).len() == 0 ==> r.is_none(),
            old(self).remaining(spans@).len() > 0 ==> (r matches Some(id) && id.0 == old(
                self,
            ).remaining(spans@)[0]),
    {
        let ghost ss = spans@;
        proof {
            self.lemma_positions(ss);
        }
        let (fi, fo) = self.front;
        let (bi, bo) = self.back;
        if fi >= bi || (fi + 1 == bi && fo > bo) {
            return None;
        }
        let span = spans[fi];
        proof {
            lemma_elems_index(ss, fi as int, fo as int);
            lemma_count_take(ss, fi as int);
            assert(old(self).remaining(ss)[0] == spans_elems(ss)[old(self).front_pos(ss)]);
        }
        if fo == span.high.0 - span.low.0 {
            self.front = (fi + 1, 0);
        } else {
            self.front = (fi, fo + 1);
        }
        proof {
            assert(self.front_pos(ss) == old(self).front_pos(ss) + 1);
            assert(self.remaining(ss) =~= old(self).remaining(ss).drop_first());
        }
        Some(span.high.sub(fo))
    }

    /// Take the smallest id not yet handed out.
    #[verifier::rlimit(80)]
    fn next_back(&mut self, spans: &Vec<Span>) -> (r: Option<Id>)
        requires
            old(self).wf(spans@),
        ensures
            final(self).wf(spans@),
            final(self).remaining(spans@) == if old(self).remaining(spans@).len() == 0 {
                old(self).remaining(spans@)
            } else {
                old(self).remaining(spans@).drop_last()
            },
            old(self).remaining(spans@).len() == 0 ==> r.is_none(),
            old(self).remaining(spans@).len() > 0 ==> (r matches Some(id) && id.0 == old(
                self,
            ).remaining(spans@).last()),
    {
        let ghost ss = spans@;
        proof {
            self.lemma_positions(ss);
        }
        let (fi, fo) = self.front;
        let (bi, bo) = self.back;
        if fi >= bi || (fi + 1 == bi && fo > bo) {
            return None;
        }
        let span = spans[bi - 1];
        proof {
            lemma_elems_index(ss, bi - 1, bo as int);
            lemma_count_take(ss, bi - 1);
            if bi >= 2 {
                lemma_count_take(ss, bi - 2);
            }
            assert(ss.take(0).len() == 0);
            reveal(spans_count);
            assert(old(self).remaining(ss).len() > 0);
            assert(old(self).remaining(ss).last() == spans_elems(ss)[old(self).back_pos(ss) - 1]);
        }
        if bo == 0 {
            if bi >= 2 {
                let prev = spans[bi - 2];
                self.back = (bi - 1, prev.high.0 - prev.low.0);
            } else {
                self.back = (0, 0);
            }
        } else {
            self.back = (bi, bo - 1);
        }
        proof {
            assert(self.back_pos(ss) == old(self).back_pos(ss) - 1);
            assert(self.remaining(ss) =~= old(self).remaining(ss).drop_last());
        }
        Some(span.high.sub(bo))
    }
}

/// Iterator over the ids of a [`SpanSet`], largest first, that can also be
/// consumed from the back (smallest first), the two ends in any interleaving.
pub struct SpanSetIter<'a> {
    spans: &'a Vec<Span>,
    cursor: Cursor,
}

impl<'a> SpanSetIter<'a> {
    /// The ids not yet handed out, in descending order.
    pub closed spec fn remaining(&self) -> Seq<int> {
        self.cursor.remaining(self.spans@)
    }

    /// The cursors lie within the spans, the front not past the back.
    pub closed spec fn wf(&self) -> bool {
        self.cursor.wf(self.spans@)
    }

    /// Take the largest id not yet handed out.
    pub fn next(&mut self) -> (r: Option<Id>)
        requires
            old(self).wf(),
        ensures
            final(self).wf(),
            old(self).remaining().len() == 0 ==> r.is_none() && final(self).remaining()
                == old(self).remaining(),
            old(self).remaining().len() > 0 ==> (r matches Some(id) && id.0 == old(
                self,
            ).remaining()[0]) && final(self).remaining() == old(self).remaining().drop_first(),
    {
        self.cursor.next(self.spans)
    }

    /// Take the smallest id not yet handed out.
    pub fn next_back(&mut self) -> (r: Option<Id>)
        requires
            old(self).wf(),
        ensures
            final(self).wf(),
            old(self).remaining().len() == 0 ==> r.is_none() && final(self).remaining()
                == old(self).remaining(),
            old(self).remaining().len() > 0 ==> (r matches Some(id) && id.0 == old(
                self,
            ).remaining().last()) && final(self).remaining() == old(self).remaining().drop_last(),
    {
        self.cursor.next_back(self.spans)
    }

    /// Make the calls that `calls` lists, `true` for [`Self::next_back`] and
    /// `false` for [`Self::next`], and return the ids they hand out, in the
    /// order handed out.
    pub fn take_calls(&mut self, calls: &Vec<bool>) -> (r: Vec<Id>)
        requires
            old(self).wf(),
        ensures
            final(self).wf(),
            ids_of(r@) == drain(old(self).remaining(), calls@),
            final(self).remaining() == drain_rest(old(self).remaining(), calls@),
    {
        let mut out: Vec<Id> = Vec::new();
        let mut k: usize = 0;
        proof {
            assert(calls@.skip(0) =~= calls@);
            assert(ids_of(out@) + drain(self.remaining(), calls@) =~= drain(self.remaining(), calls@));
        }
        while k < calls.len()
            invariant
                self.wf(),
                k <= calls@.len(),
                ids_of(out@) + drain(self.remaining(), calls@.skip(k as int)) == drain(
                    old(self).remaining(),
                    calls@,
                ),
                drain_rest(self.remaining(), calls@.skip(k as int)) == drain_rest(
                    old(self).remaining(),
                    calls@,
                ),
            decreases calls@.len() - k,
        {
            let ghost rem = self.remaining();
            let ghost rest_calls = calls@.skip(k as int);
            proof {
                assert(rest_calls.drop_first() =~= calls@.skip(k + 1));
                assert(rest_calls[0] == calls@[k as int]);
            }
            let x = if calls[k] {
                self.next_back()
            } else {
                self.next()
            };
            if let Some(id) = x {
                let ghost before = out@;
                out.push(id);
                proof {
                    assert(ids_of(out@) =~= ids_of(before) + seq![id.0 as int]);
                    assert(ids_of(out@) + drain(self.remaining(), calls@.skip(k + 1)) =~= ids_of(
                        before,
                    ) + drain(rem, rest_calls));
                }
            } else {
                proof {
                    assert(rem.len() == 0);
                    lemma_drain_empty(calls@.skip(k + 1));
                    lemma_drain_empty(rest_calls);
                    assert(drain(self.remaining(), calls@.skip(k + 1)) =~= drain(rem, rest_calls));
                }
            }
            k += 1;
        }
        proof {
            assert(calls@.skip(k as int) =~= Seq::<bool>::empty());
            assert(ids_of(out@) + Seq::<int>::empty() =~= ids_of(out@));
        }
        out
    }
}

/// Iterator that owns a [`SpanSet`] and hands out its ids, largest first; it
/// can also be consumed from the back.
pub struct SpanSetIntoIter {
    spans: Vec<Span>,
    cursor: Cursor,
}

impl SpanSetIntoIter {
    /// The ids not yet handed out, in descending order.
    pub closed spec fn remaining(&self) -> Seq<int> {
        self.cursor.remaining(self.spans@)
    }

    /// The cursors lie within the spans, the front not past the back.
    pub closed spec fn wf(&self) -> bool {
        self.cursor.wf(self.spans@)
    }

    /// Take the largest id not yet handed out.
    pub fn next(&mut self) -> (r: Option<Id>)
        requires
            old(self).wf(),
        ensures
            final(self).wf(),
            old(self).remaining().len() == 0 ==> r.is_none() && final(self).remaining()
                == old(self).remaining(),
            old(self).remaining().len() > 0 ==> (r matches Some(id) && id.0 == old(
                self,
            ).remaining()[0]) && final(self).remaining() == old(self).remaining().drop_first(),
    {
        self.cursor.next(&self.spans)
    }

    /// Take the smallest id not yet handed out.
    pub fn next_back(&mut self) -> (r: Option<Id>)
        requires
            old(self).wf(),
        ensures
            final(self).wf(),
            old(self).remaining().len() == 0 ==> r.is_none() && final(self).remaining()
                == old(self).remaining(),
            old(self).remaining().len() > 0 ==> (r matches Some(id) && id.0 == old(
                self,
            ).remaining().last()) && final(self).remaining() == old(self).remaining().drop_last(),
    {
        self.cursor.next_back(&self.spans)
    }
}

/// The integers of a sequence of ids.
pub open spec fn ids_of(v: Seq<Id>) -> Seq<int> {
    v.map_values(|id: Id| id.0 as int)
}

/// The ids handed out by an iterator whose remaining ids are `rem` when it
/// is called as `calls` says, `true` for `next_back` and `false` for `next`.
pub open spec fn drain(rem: Seq<int>, calls: Seq<bool>) -> Seq<int>
    decreases calls.len(),
{
    if calls.len() == 0 || rem.len() == 0 {
        Seq::empty()
    } else if calls[0] {
        seq![rem.last()] + drain(rem.drop_last(), calls.drop_first())
    } else {
        seq![rem[0]] + drain(rem.drop_first(), calls.drop_first())
    }
}

/// The ids that remain after the calls `calls` on an iterator whose
/// remaining ids are `rem`.
pub open spec fn drain_rest(rem: Seq<int>, calls: Seq<bool>) -> Seq<int>
    decreases calls.len(),
{
    if calls.len() == 0 || rem.len() == 0 {
        rem
    } else if calls[0] {
        drain_rest(rem.drop_last(), calls.drop_first())
    } else {
        drain_rest(rem.drop_first(), calls.drop_first())
    }
}

/// Nothing remains, nothing is handed out, and nothing changes.
pub proof fn lemma_drain_empty(calls: Seq<bool>)
    ensures
        drain(Seq::empty(), calls) == Seq::<int>::empty(),
        drain_rest(Seq::empty(), calls) == Seq::<int>::empty(),
{
}

impl SpanSet {
    /// An iterator over the ids of this set, largest first; it can also be
    /// consumed from the back.
    pub fn iter(&self) -> (r: SpanSetIter<'_>)
        requires
            self.wf(),
        ensures
            r.wf(),
            r.remaining() == spans_elems(self.span_seq()),
    {
        let spans = self.as_spans();
        SpanSetIter { spans, cursor: Cursor::start(spans) }
    }

    /// An iterator that takes this set and hands out its ids, largest
    /// first; it can also be consumed from the back.
    pub fn into_iter(self) -> (r: SpanSetIntoIter)
        requires
            self.wf(),
        ensures
            r.wf(),
            r.remaining() == spans_elems(self.span_seq()),
    {
        let spans = self.into_spans();
        let cursor = Cursor::start(&spans);
        SpanSetIntoIter { spans, cursor }
    }
}

} // verus!
