use vstd::prelude::*;

use crate::id::Id;
use crate::span::{EndBound, Span};

verus! {

/// Whether `x` lies in one of the spans of `ss`.
pub open spec fn spans_has(ss: Seq<Span>, x: int) -> bool {
    exists|i: int| 0 <= i < ss.len() && (#[trigger] ss[i]).has(x)
}

/// The set of integers covered by the spans of `ss`.
pub open spec fn spans_ids(ss: Seq<Span>) -> Set<int> {
    Set::new(|x: int| spans_has(ss, x))
}

/// The shape of a span set: every span well formed, in strictly descending
/// order, with a gap of at least one integer between neighbours (touching or
/// overlapping spans would have been merged).
pub open spec fn spans_wf(ss: Seq<Span>) -> bool {
    &&& forall|i: int| 0 <= i < ss.len() ==> (#[trigger] ss[i]).wf()
    &&& forall|i: int| 0 < i < ss.len() ==> (#[trigger] ss[i]).high.0 + 1 < ss[i - 1].low.0
}

/// In a well-formed sequence, every later span lies below every earlier one,
/// with a gap between them.
pub proof fn lemma_spans_sorted(ss: Seq<Span>, i: int, j: int)
    requires
        spans_wf(ss),
        0 <= i < j < ss.len(),
    ensures
        ss[j].high.0 + 1 < ss[i].low.0,
    decreases j - i,
{
    if j > i + 1 {
        lemma_spans_sorted(ss, i, j - 1);
        assert(ss[j - 1].wf());
    }
}

/// Appending a span adds exactly its integers.
pub proof fn lemma_ids_push(ss: Seq<Span>, s: Span)
    ensures
        spans_ids(ss.push(s)) == spans_ids(ss).union(s.ids()),
{
    let p = ss.push(s);
    assert forall|x: int| spans_has(p, x) implies spans_has(ss, x) || s.has(x) by {
        let i = choose|i: int| 0 <= i < p.len() && (#[trigger] p[i]).has(x);
        if i < ss.len() {
            assert(ss[i] == p[i]);
        }
    }
    assert forall|x: int| spans_has(ss, x) || s.has(x) implies spans_has(p, x) by {
        if spans_has(ss, x) {
            let i = choose|i: int| 0 <= i < ss.len() && (#[trigger] ss[i]).has(x);
            assert(p[i] == ss[i]);
        } else {
            assert(p[p.len() - 1] == s);
        }
    }
    assert(spans_ids(p) =~= spans_ids(ss).union(s.ids()));
}

/// Concatenating span sequences unites their integers.
pub proof fn lemma_ids_add(s1: Seq<Span>, s2: Seq<Span>)
    ensures
        spans_ids(s1 + s2) == spans_ids(s1).union(spans_ids(s2)),
{
    let p = s1 + s2;
    assert forall|x: int| spans_has(p, x) implies spans_has(s1, x) || spans_has(s2, x) by {
        let i = choose|i: int| 0 <= i < p.len() && (#[trigger] p[i]).has(x);
        if i < s1.len() {
            assert(s1[i] == p[i]);
        } else {
            assert(s2[i - s1.len()] == p[i]);
        }
    }
    assert forall|x: int| spans_has(s1, x) || spans_has(s2, x) implies spans_has(p, x) by {
        if spans_has(s1, x) {
            let i = choose|i: int| 0 <= i < s1.len() && (#[trigger] s1[i]).has(x);
            assert(p[i] == s1[i]);
        } else {
            let i = choose|i: int| 0 <= i < s2.len() && (#[trigger] s2[i]).has(x);
            assert(p[i + s1.len()] == s2[i]);
        }
    }
    assert(spans_ids(p) =~= spans_ids(s1).union(spans_ids(s2)));
}

/// The suffix from `i` covers span `i` and the suffix from `i + 1`.
pub proof fn lemma_ids_skip(ss: Seq<Span>, i: int)
    requires
        0 <= i < ss.len(),
    ensures
        spans_ids(ss.skip(i)) == ss[i].ids().union(spans_ids(ss.skip(i + 1))),
{
    assert(ss.skip(i) =~= seq![ss[i]] + ss.skip(i + 1));
    lemma_ids_add(seq![ss[i]], ss.skip(i + 1));
    lemma_ids_single(ss[i]);
}

/// A single span covers its own integers.
pub proof fn lemma_ids_single(s: Span)
    ensures
        spans_ids(seq![s]) == s.ids(),
{
    assert(seq![s] =~= Seq::<Span>::empty().push(s));
    lemma_ids_push(Seq::<Span>::empty(), s);
    lemma_ids_empty();
}

/// No span, no integer.
pub proof fn lemma_ids_empty()
    ensures
        spans_ids(Seq::<Span>::empty()) == Set::<int>::empty(),
{
    assert(spans_ids(Seq::<Span>::empty()) =~= Set::<int>::empty());
}

/// Every integer after span `i - 1` of a well-formed sequence lies below
/// that span, with a gap.
pub proof fn lemma_skip_below(ss: Seq<Span>, i: int)
    requires
        spans_wf(ss),
        0 < i <= ss.len(),
    ensures
        forall|x: int| #[trigger] spans_ids(ss.skip(i)).contains(x) ==> x + 1 < ss[i - 1].low.0,
{
    assert forall|x: int| #[trigger] spans_ids(ss.skip(i)).contains(x) implies x + 1 < ss[i - 1].low.0 by {
        let t = ss.skip(i);
        let k = choose|k: int| 0 <= k < t.len() && (#[trigger] t[k]).has(x);
        assert(t[k] == ss[i + k]);
        lemma_spans_sorted(ss, i - 1, i + k);
    }
}

/// Every integer of a well-formed, non-empty sequence lies between the
/// `low` of its last span and the `high` of its first, and both bounds are
/// covered.
pub proof fn lemma_ids_bounds(ss: Seq<Span>)
    requires
        spans_wf(ss),
        ss.len() > 0,
    ensures
        spans_ids(ss).contains(ss[0].high.0 as int),
        spans_ids(ss).contains(ss.last().low.0 as int),
        forall|x: int| #[trigger]
            spans_ids(ss).contains(x) ==> ss.last().low.0 <= x <= ss[0].high.0,
{
    assert(ss[0].has(ss[0].high.0 as int));
    assert(ss[ss.len() - 1].has(ss.last().low.0 as int));
    assert forall|x: int| #[trigger] spans_ids(ss).contains(x) implies ss.last().low.0 <= x
        <= ss[0].high.0 by {
        let k = choose|k: int| 0 <= k < ss.len() && (#[trigger] ss[k]).has(x);
        if k > 0 {
            lemma_spans_sorted(ss, 0, k);
        }
        if k < ss.len() - 1 {
            lemma_spans_sorted(ss, k, ss.len() - 1);
        }
    }
}

/// Dropping the first span keeps a sequence well formed.
pub proof fn lemma_skip1_wf(ss: Seq<Span>)
    requires
        spans_wf(ss),
        ss.len() > 0,
    ensures
        spans_wf(ss.skip(1)),
{
    let t = ss.skip(1);
    assert forall|k: int| 0 < k < t.len() implies (#[trigger] t[k]).high.0 + 1 < t[k - 1].low.0 by {
        assert(t[k] == ss[k + 1]);
        assert(t[k - 1] == ss[k]);
    }
    assert forall|k: int| 0 <= k < t.len() implies (#[trigger] t[k]).wf() by {
        assert(t[k] == ss[k + 1]);
    }
}

/// The spans after the first cover what the whole covers outside the first.
proof fn lemma_ids_after_first(ss: Seq<Span>)
    requires
        spans_wf(ss),
        ss.len() > 0,
    ensures
        spans_ids(ss.skip(1)) == spans_ids(ss).difference(ss[0].ids()),
{
    lemma_ids_skip(ss, 0);
    lemma_skip_below(ss, 1);
    assert(ss.skip(0) =~= ss);
    assert(spans_ids(ss.skip(1)) =~= spans_ids(ss).difference(ss[0].ids()));
}

/// Two well-formed, non-empty sequences covering the same integers start
/// with the same span: its `high` is the largest integer, and the integer
/// just below its `low` is not covered.
#[verifier::rlimit(60)]
proof fn lemma_first_span_equal(s1: Seq<Span>, s2: Seq<Span>)
    requires
        spans_wf(s1),
        spans_wf(s2),
        spans_ids(s1) == spans_ids(s2),
        s1.len() > 0,
        s2.len() > 0,
    ensures
        s1[0] == s2[0],
{
    let a = s1[0];
    let b = s2[0];
    lemma_ids_bounds(s1);
    lemma_ids_bounds(s2);
    assert(a.high == b.high);
    lemma_ids_after_first(s1);
    lemma_ids_after_first(s2);
    lemma_skip_below(s1, 1);
    lemma_skip_below(s2, 1);
    if a.low.0 < b.low.0 {
        let y = b.low.0 - 1;
        assert(a.has(y));
        assert(spans_ids(s1).contains(y));
        assert(!b.has(y));
        assert(!spans_ids(s2.skip(1)).contains(y));
    }
    if b.low.0 < a.low.0 {
        let y = a.low.0 - 1;
        assert(b.has(y));
        assert(spans_ids(s2).contains(y));
        assert(!a.has(y));
        assert(!spans_ids(s1.skip(1)).contains(y));
    }
}

/// A well-formed span sequence is determined by the integers it covers:
/// two that cover the same integers are the same sequence.
pub proof fn lemma_spans_canonical(s1: Seq<Span>, s2: Seq<Span>)
    requires
        spans_wf(s1),
        spans_wf(s2),
        spans_ids(s1) == spans_ids(s2),
    ensures
        s1 == s2,
    decreases s1.len(),
{
    if s1.len() == 0 || s2.len() == 0 {
        lemma_ids_empty();
        if s1.len() > 0 {
            lemma_ids_bounds(s1);
            assert(s2 =~= Seq::<Span>::empty());
        } else if s2.len() > 0 {
            lemma_ids_bounds(s2);
            assert(s1 =~= Seq::<Span>::empty());
        } else {
            assert(s1 =~= s2);
        }
    } else {
        lemma_first_span_equal(s1, s2);
        lemma_ids_after_first(s1);
        lemma_ids_after_first(s2);
        lemma_skip1_wf(s1);
        lemma_skip1_wf(s2);
        lemma_spans_canonical(s1.skip(1), s2.skip(1));
        assert(s1 =~= seq![s1[0]] + s1.skip(1));
        assert(s2 =~= seq![s2[0]] + s2.skip(1));
    }
}

/// The number of integers covered by the spans of `ss`, counting each
/// span in full.
#[verifier::opaque]
pub open spec fn spans_count(ss: Seq<Span>) -> int
    decreases ss.len(),
{
    if ss.len() == 0 {
        0
    } else {
        spans_count(ss.drop_last()) + ss.last().size()
    }
}

/// The count of a prefix of well-formed spans is at most the whole count.
pub proof fn lemma_count_take(ss: Seq<Span>, k: int)
    requires
        forall|i: int| 0 <= i < ss.len() ==> (#[trigger] ss[i]).wf(),
        0 <= k <= ss.len(),
    ensures
        spans_count(ss.take(k)) <= spans_count(ss),
        k < ss.len() ==> spans_count(ss.take(k + 1)) == spans_count(ss.take(k)) + ss[k].size(),
    decreases ss.len(),
{
    reveal(spans_count);
    if k < ss.len() {
        assert(ss.take(k + 1).drop_last() =~= ss.take(k));
        let d = ss.drop_last();
        assert(ss.take(k) =~= d.take(k));
        if k < d.len() {
            assert(ss.take(k + 1) =~= d.take(k + 1));
        } else {
            assert(ss.take(k + 1) =~= ss);
        }
        lemma_count_take(d, k);
        assert(ss.last().wf());
    } else {
        assert(ss.take(k) =~= ss);
    }
}

/// Whether a span sequence has the shape of a span set.
pub fn spans_valid(spans: &Vec<Span>) -> (r: bool)
    ensures
        r == spans_wf(spans@),
{
    let n = spans.len();
    let mut k: usize = 0;
    while k < n
        invariant
            n == spans@.len(),
            k <= n,
            forall|i: int| 0 <= i < k ==> (#[trigger] spans@[i]).wf(),
            forall|i: int| 0 < i < k ==> (#[trigger] spans@[i]).high.0 + 1 < spans@[i - 1].low.0,
        decreases n - k,
    {
        let s = spans[k];
        if s.low.0 > s.high.0 {
            return false;
        }
        if k > 0 && (spans[k - 1].low.0 <= s.high.0 || spans[k - 1].low.0 - s.high.0 == 1) {
            return false;
        }
        k += 1;
    }
    true
}

/// The set covering the spans `lo..hi` of `spans`: unions of halves.
fn union_range(spans: &Vec<Span>, lo: usize, hi: usize) -> (r: SpanSet)
    requires
        lo <= hi <= spans@.len(),
        forall|i: int| 0 <= i < spans@.len() ==> (#[trigger] spans@[i]).wf(),
    ensures
        r.wf(),
        r@ == spans_ids(spans@.subrange(lo as int, hi as int)),
    decreases hi - lo,
{
    if hi == lo {
        proof {
            assert(spans@.subrange(lo as int, hi as int) =~= Seq::<Span>::empty());
        }
        SpanSet::empty()
    } else if hi - lo == 1 {
        proof {
            assert(spans@.subrange(lo as int, hi as int) =~= seq![spans@[lo as int]]);
            lemma_ids_single(spans@[lo as int]);
        }
        SpanSet::from_span(spans[lo])
    } else {
        let mid = lo + (hi - lo) / 2;
        let left = union_range(spans, lo, mid);
        let right = union_range(spans, mid, hi);
        proof {
            assert(spans@.subrange(lo as int, hi as int) =~= spans@.subrange(lo as int, mid as int)
                + spans@.subrange(mid as int, hi as int));
            lemma_ids_add(
                spans@.subrange(lo as int, mid as int),
                spans@.subrange(mid as int, hi as int),
            );
        }
        left.union(&right)
    }
}

/// The integers of an optional span.
pub open spec fn opt_ids(o: Option<Span>) -> Set<int> {
    match o {
        Some(s) => s.ids(),
        None => Set::empty(),
    }
}

/// The prefix of length `i + 1` covers the prefix of length `i` and span `i`.
pub proof fn lemma_ids_take(ss: Seq<Span>, i: int)
    requires
        0 <= i < ss.len(),
    ensures
        spans_ids(ss.take(i + 1)) == spans_ids(ss.take(i)).union(ss[i].ids()),
{
    assert(ss.take(i + 1) =~= ss.take(i).push(ss[i]));
    lemma_ids_push(ss.take(i), ss[i]);
}

/// Push `span` onto `spans`, merging it into the last span when the two
/// touch or overlap. `span` must not reach above the last span.
fn push_with_union(spans: &mut Vec<Span>, span: Span)
    requires
        spans_wf(old(spans)@),
        span.wf(),
        old(spans)@.len() > 0 ==> span.high.0 <= old(spans)@.last().high.0,
    ensures
        spans_wf(final(spans)@),
        spans_ids(final(spans)@) == spans_ids(old(spans)@).union(span.ids()),
        final(spans)@.len() > 0,
        span.high.0 <= final(spans)@.last().high.0,
        final(spans)@.last().low.0 <= span.low.0,
{
    let n = spans.len();
    if n == 0 {
        spans.push(span);
        proof {
            lemma_ids_push(old(spans)@, span);
        }
    } else {
        let last = spans[n - 1];
        if span.high.0 >= last.low.0 || last.low.0 - span.high.0 == 1 {
            let low = if span.low.0 < last.low.0 {
                span.low
            } else {
                last.low
            };
            let merged = Span { low, high: last.high };
            spans.set(n - 1, merged);
            proof {
                let o = old(spans)@;
                assert(o =~= o.drop_last().push(last));
                assert(spans@ =~= o.drop_last().push(merged));
                lemma_ids_push(o.drop_last(), last);
                lemma_ids_push(o.drop_last(), merged);
                assert(merged.ids() =~= last.ids().union(span.ids()));
                assert(spans_ids(spans@) =~= spans_ids(o).union(span.ids()));
            }
        } else {
            spans.push(span);
            proof {
                lemma_ids_push(old(spans)@, span);
            }
        }
    }
}

/// A set of ids, held as a sorted list of disjoint, non-adjacent spans.
#[derive(Clone, Debug)]
pub struct SpanSet {
    spans: Vec<Span>,
}

impl View for SpanSet {
    type V = Set<int>;

    open spec fn view(&self) -> Set<int> {
        spans_ids(self.span_seq())
    }
}

impl SpanSet {
    /// The spans of this set, largest first.
    pub closed spec fn span_seq(&self) -> Seq<Span> {
        self.spans@
    }

    /// The set's invariant: its spans are sorted, disjoint and non-adjacent.
    pub open spec fn wf(&self) -> bool {
        spans_wf(self.span_seq())
    }

    /// Calculates the union of two sets.
    #[verifier::rlimit(80)]
    pub fn union(&self, rhs: &SpanSet) -> (r: SpanSet)
        requires
            self.wf(),
            rhs.wf(),
        ensures
            r.wf(),
            r@ == self@.union(rhs@),
    {
        let a = &self.spans;
        let b = &rhs.spans;
        let mut spans: Vec<Span> = Vec::new();
        let mut i: usize = 0;
        let mut j: usize = 0;
        while i < a.len() || j < b.len()
            invariant
                spans_wf(a@),
                spans_wf(b@),
                i <= a@.len(),
                j <= b@.len(),
                spans_wf(spans@),
                spans_ids(spans@) == spans_ids(a@.take(i as int)).union(
                    spans_ids(b@.take(j as int)),
                ),
                spans@.len() > 0 && i < a@.len() ==> a@[i as int].high.0
                    <= spans@.last().high.0,
                spans@.len() > 0 && j < b@.len() ==> b@[j as int].high.0
                    <= spans@.last().high.0,
            decreases a@.len() - i + b@.len() - j,
        {
            if i < a.len() && (j >= b.len() || a[i].high.0 >= b[j].high.0) {
                push_with_union(&mut spans, a[i]);
                proof {
                    lemma_ids_take(a@, i as int);
                    if i + 1 < a@.len() {
                        assert(a@[i + 1].wf());
                    }
                }
                i += 1;
            } else {
                push_with_union(&mut spans, b[j]);
                proof {
                    lemma_ids_take(b@, j as int);
                    if j + 1 < b@.len() {
                        assert(b@[j + 1].wf());
                    }
                }
                j += 1;
            }
        }
        proof {
            assert(a@.take(a@.len() as int) =~= a@);
            assert(b@.take(b@.len() as int) =~= b@);
        }
        SpanSet { spans }
    }

    /// Calculates the intersection of two sets.
    ///
    /// Walks both span lists from the top. Each step emits the overlap of
    /// the two current spans, then keeps of each span only the part below
    /// the overlap; the span with the higher `low` is used up and replaced
    /// by the next one of its list.
    #[verifier::rlimit(80)]
    pub fn intersection(&self, rhs: &SpanSet) -> (r: SpanSet)
        requires
            self.wf(),
            rhs.wf(),
        ensures
            r.wf(),
            r@ == self@.intersect(rhs@),
    {
        let a = &self.spans;
        let b = &rhs.spans;
        let mut spans: Vec<Span> = Vec::new();
        let mut i: usize = 0;
        let mut j: usize = 0;
        let mut next_l: Option<Span> = None;
        let mut next_r: Option<Span> = None;
        if a.len() > 0 {
            next_l = Some(a[0]);
            i = 1;
        }
        if b.len() > 0 {
            next_r = Some(b[0]);
            j = 1;
        }
        proof {
            if a@.len() > 0 {
                lemma_ids_skip(a@, 0);
            }
            if b@.len() > 0 {
                lemma_ids_skip(b@, 0);
            }
            assert(a@.skip(0) =~= a@);
            assert(b@.skip(0) =~= b@);
            assert(a@.skip(a@.len() as int) =~= Seq::<Span>::empty());
            assert(b@.skip(b@.len() as int) =~= Seq::<Span>::empty());
            lemma_ids_empty();
            assert(spans_ids(spans@).union(
                opt_ids(next_l).union(spans_ids(a@.skip(i as int))).intersect(
                    opt_ids(next_r).union(spans_ids(b@.skip(j as int))),
                ),
            ) =~= spans_ids(a@).intersect(spans_ids(b@)));
        }
        while next_l.is_some() && next_r.is_some()
            invariant
                spans_wf(a@),
                spans_wf(b@),
                spans_wf(spans@),
                i <= a@.len(),
                j <= b@.len(),
                next_l.is_none() ==> i == a@.len(),
                next_r.is_none() ==> j == b@.len(),
                next_l matches Some(l) ==> l.wf() && 0 < i && l.low == a@[i - 1].low && l.high.0
                    <= a@[i - 1].high.0,
                next_r matches Some(r) ==> r.wf() && 0 < j && r.low == b@[j - 1].low && r.high.0
                    <= b@[j - 1].high.0,
                spans@.len() > 0 ==> (next_l matches Some(l) ==> l.high.0
                    <= spans@.last().high.0),
                spans@.len() > 0 ==> (next_r matches Some(r) ==> r.high.0
                    <= spans@.last().high.0),
                spans_ids(spans@).union(
                    opt_ids(next_l).union(spans_ids(a@.skip(i as int))).intersect(
                        opt_ids(next_r).union(spans_ids(b@.skip(j as int))),
                    ),
                ) == spans_ids(a@).intersect(spans_ids(b@)),
            decreases a@.len() - i + b@.len() - j + (if next_l.is_some() {
                1int
            } else {
                0
            }) + (if next_r.is_some() {
                1int
            } else {
                0
            }),
        {
            let l = next_l.unwrap();
            let r = next_r.unwrap();
            let ghost old_spans = spans@;
            let ghost old_i = i;
            let ghost old_j = j;
            let span_low: u64 = if l.low.0 >= r.low.0 {
                l.low.0
            } else {
                r.low.0
            };
            let span_high: u64 = if l.high.0 <= r.high.0 {
                l.high.0
            } else {
                r.high.0
            };
            let ghost mid: Set<int> = Set::new(|x: int| span_low <= x <= span_high);
            if span_low <= span_high {
                push_with_union(&mut spans, Span { low: Id(span_low), high: Id(span_high) });
                assert(Span { low: Id(span_low), high: Id(span_high) }.ids() =~= mid);
            } else {
                assert(mid =~= Set::<int>::empty());
            }
            proof {
                lemma_skip_below(a@, old_i as int);
                lemma_skip_below(b@, old_j as int);
            }
            let ghost rest_r: Set<int> = spans_ids(b@.skip(j as int));
            let end_r = if r.high.0 < span_low {
                EndBound::Included(r.high)
            } else {
                EndBound::Excluded(Id(span_low))
            };
            let below_r = Span::try_from_bounds(r.low, end_r);
            if let Some(part) = below_r {
                next_r = Some(part);
            } else if j < b.len() {
                next_r = Some(b[j]);
                proof {
                    lemma_ids_skip(b@, j as int);
                }
                j += 1;
            } else {
                next_r = None;
            }
            let ghost rest_l: Set<int> = spans_ids(a@.skip(i as int));
            let end_l = if l.high.0 < span_low {
                EndBound::Included(l.high)
            } else {
                EndBound::Excluded(Id(span_low))
            };
            let below_l = Span::try_from_bounds(l.low, end_l);
            if let Some(part) = below_l {
                next_l = Some(part);
            } else if i < a.len() {
                next_l = Some(a[i]);
                proof {
                    lemma_ids_skip(a@, i as int);
                }
                i += 1;
            } else {
                next_l = None;
            }
            proof {
                let nl = opt_ids(next_l).union(spans_ids(a@.skip(i as int)));
                let nr = opt_ids(next_r).union(spans_ids(b@.skip(j as int)));
                let ol = l.ids().union(rest_l);
                let or = r.ids().union(rest_r);
                assert(nl.subset_of(ol));
                assert(nr.subset_of(or));
                assert(ol.intersect(or) =~= mid.union(nl.intersect(nr)));
                assert(spans_ids(spans@).union(nl.intersect(nr)) =~= spans_ids(old_spans).union(
                    ol.intersect(or),
                ));
                if i < a@.len() {
                    assert(a@[i as int].wf());
                }
                if j < b@.len() {
                    assert(b@[j as int].wf());
                }
            }
        }
        proof {
            assert(a@.skip(a@.len() as int) =~= Seq::<Span>::empty());
            assert(b@.skip(b@.len() as int) =~= Seq::<Span>::empty());
            lemma_ids_empty();
            assert(spans_ids(spans@) =~= spans_ids(a@).intersect(spans_ids(b@)));
        }
        SpanSet { spans }
    }

    /// Calculates the ids that are in this set but not in `rhs`.
    ///
    /// A span of `rhs` may cut a span of this set in two: the part above
    /// the cut is emitted at once, the part below stays the current span
    /// and meets the next spans of `rhs` in turn.
    #[verifier::rlimit(80)]
    pub fn difference(&self, rhs: &SpanSet) -> (r: SpanSet)
        requires
            self.wf(),
            rhs.wf(),
        ensures
            r.wf(),
            r@ == self@.difference(rhs@),
    {
        let a = &self.spans;
        let b = &rhs.spans;
        let mut spans: Vec<Span> = Vec::new();
        let mut i: usize = 0;
        let mut j: usize = 0;
        let mut next_l: Option<Span> = None;
        let mut next_r: Option<Span> = None;
        if a.len() > 0 {
            next_l = Some(a[0]);
            i = 1;
        }
        if b.len() > 0 {
            next_r = Some(b[0]);
            j = 1;
        }
        proof {
            if a@.len() > 0 {
                lemma_ids_skip(a@, 0);
            }
            if b@.len() > 0 {
                lemma_ids_skip(b@, 0);
            }
            assert(a@.skip(0) =~= a@);
            assert(b@.skip(0) =~= b@);
            assert(a@.skip(a@.len() as int) =~= Seq::<Span>::empty());
            assert(b@.skip(b@.len() as int) =~= Seq::<Span>::empty());
            lemma_ids_empty();
            assert(spans_ids(spans@).union(
                opt_ids(next_l).union(spans_ids(a@.skip(i as int))).difference(
                    opt_ids(next_r).union(spans_ids(b@.skip(j as int))),
                ),
            ) =~= spans_ids(a@).difference(spans_ids(b@)));
        }
        while next_l.is_some()
            invariant
                spans_wf(a@),
                spans_wf(b@),
                spans_wf(spans@),
                i <= a@.len(),
                j <= b@.len(),
                next_l.is_none() ==> i == a@.len(),
                next_r.is_none() ==> j == b@.len(),
                next_l matches Some(l) ==> l.wf() && 0 < i && l.low == a@[i - 1].low && l.high.0
                    <= a@[i - 1].high.0,
                next_r matches Some(r) ==> r.wf() && 0 < j && r == b@[j - 1],
                spans@.len() > 0 ==> (next_l matches Some(l) ==> l.high.0
                    <= spans@.last().high.0),
                spans_ids(spans@).union(
                    opt_ids(next_l).union(spans_ids(a@.skip(i as int))).difference(
                        opt_ids(next_r).union(spans_ids(b@.skip(j as int))),
                    ),
                ) == spans_ids(a@).difference(spans_ids(b@)),
            decreases a@.len() - i + b@.len() - j + (if next_l.is_some() {
                1int
            } else {
                0
            }) + (if next_r.is_some() {
                1int
            } else {
                0
            }),
                match next_l {
                    Some(l) => l.high.0 as int,
                    None => 0,
                },
        {
            let l = next_l.unwrap();
            let ghost rest_l: Set<int> = spans_ids(a@.skip(i as int));
            let ghost rest_r: Set<int> = spans_ids(b@.skip(j as int));
            proof {
                lemma_skip_below(a@, i as int);
                if next_r.is_some() {
                    lemma_skip_below(b@, j as int);
                }
            }
            let mut advance_left = false;
            match next_r {
                Some(r) => {
                    if r.low.0 > l.high.0 {
                        if j < b.len() {
                            next_r = Some(b[j]);
                            proof {
                                lemma_ids_skip(b@, j as int);
                                assert(b@[j as int].wf());
                            }
                            j += 1;
                        } else {
                            next_r = None;
                        }
                        proof {
                            let nr = opt_ids(next_r).union(spans_ids(b@.skip(j as int)));
                            let ol = l.ids().union(rest_l);
                            assert(ol.difference(r.ids().union(rest_r)) =~= ol.difference(nr));
                        }
                    } else if r.high.0 < l.low.0 {
                        push_with_union(&mut spans, l);
                        advance_left = true;
                        proof {
                            let or = r.ids().union(rest_r);
                            assert(l.ids().union(rest_l).difference(or) =~= l.ids().union(
                                rest_l.difference(or),
                            ));
                        }
                    } else {
                        let ghost top: Set<int> = Set::new(|x: int| r.high.0 < x <= l.high.0);
                        if r.high.0 < l.high.0 {
                            let upper = Span { low: Id(r.high.0 + 1), high: l.high };
                            push_with_union(&mut spans, upper);
                            assert(upper.ids() =~= top);
                        } else {
                            assert(top =~= Set::<int>::empty());
                        }
                        let below = Span::try_from_bounds(l.low, EndBound::Excluded(r.low));
                        if let Some(lower) = below {
                            next_l = Some(lower);
                            proof {
                                let or = r.ids().union(rest_r);
                                assert(l.ids().union(rest_l).difference(or) =~= top.union(
                                    lower.ids().union(rest_l).difference(or),
                                ));
                            }
                        } else {
                            advance_left = true;
                            proof {
                                let or = r.ids().union(rest_r);
                                assert(l.ids().union(rest_l).difference(or) =~= top.union(
                                    rest_l.difference(or),
                                ));
                            }
                        }
                    }
                },
                None => {
                    push_with_union(&mut spans, l);
                    advance_left = true;
                    proof {
                        assert(l.ids().union(rest_l).difference(Set::<int>::empty()) =~= l.ids().union(
                            rest_l,
                        ));
                        assert(rest_l.difference(Set::<int>::empty()) =~= rest_l);
                    }
                },
            }
            if advance_left {
                if i < a.len() {
                    next_l = Some(a[i]);
                    proof {
                        lemma_ids_skip(a@, i as int);
                        assert(a@[i as int].wf());
                    }
                    i += 1;
                } else {
                    next_l = None;
                    proof {
                        assert(a@.skip(i as int) =~= Seq::<Span>::empty());
                        lemma_ids_empty();
                    }
                }
            }
            proof {
                let nl = opt_ids(next_l).union(spans_ids(a@.skip(i as int)));
                let nr = opt_ids(next_r).union(spans_ids(b@.skip(j as int)));
                assert(spans_ids(spans@).union(nl.difference(nr)) =~= spans_ids(a@).difference(
                    spans_ids(b@),
                ));
            }
        }
        proof {
            assert(a@.skip(a@.len() as int) =~= Seq::<Span>::empty());
            lemma_ids_empty();
            assert(spans_ids(spans@) =~= spans_ids(a@).difference(spans_ids(b@)));
        }
        SpanSet { spans }
    }

    /// Whether `span` can be appended: every id from the smallest of the
    /// set up to `span.high` is in the set, that is, `span` reaches no higher
    /// than the lowest span of the set.
    pub open spec fn accepts_push(&self, span: Span) -> bool {
        forall|x: int, y: int| #[trigger]
            self@.contains(y) && y <= x <= span.high.0 ==> #[trigger] self@.contains(x)
    }

    /// A span that the set accepts reaches no higher than its lowest span:
    /// the id just above that span is missing from the set.
    pub proof fn lemma_accepts_push(&self, span: Span)
        requires
            self.wf(),
            self.accepts_push(span),
        ensures
            self.span_seq().len() > 0 ==> span.high.0 <= self.span_seq().last().high.0,
    {
        let ss = self.span_seq();
        if ss.len() > 0 && span.high.0 > ss.last().high.0 {
            let last = ss.last();
            let x = last.high.0 + 1;
            assert(ss[ss.len() - 1].has(last.low.0 as int));
            assert(self@.contains(last.low.0 as int));
            assert(self@.contains(x));
            let k = choose|k: int| 0 <= k < ss.len() && (#[trigger] ss[k]).has(x);
            if k < ss.len() - 1 {
                lemma_spans_sorted(ss, k, ss.len() - 1);
            }
        }
    }

    /// Append a span that reaches no higher than the lowest span of this set,
    /// merging it into that span where the two touch or overlap.
    pub fn push_span(&mut self, span: Span)
        requires
            old(self).wf(),
            span.wf(),
            old(self).accepts_push(span),
        ensures
            final(self).wf(),
            final(self)@ == old(self)@.union(span.ids()),
            final(self).span_seq().len() > 0,
            span.high.0 <= final(self).span_seq().last().high.0,
            final(self).span_seq().last().low.0 <= span.low.0,
    {
        proof {
            old(self).lemma_accepts_push(span);
        }
        push_with_union(&mut self.spans, span);
    }

    /// Append every span of `set`, all of whose ids lie below the lowest span
    /// of this set, or in it: every id from the smallest of this set up to
    /// any id of `set` is in this set. Cheaper than [`SpanSet::union`].
    pub fn push_set(&mut self, set: &SpanSet)
        requires
            old(self).wf(),
            set.wf(),
            forall|x: int, y: int, z: int| #[trigger]
                old(self)@.contains(y) && #[trigger] set@.contains(z) && y <= x <= z
                    ==> #[trigger] old(self)@.contains(x),
        ensures
            final(self).wf(),
            final(self)@ == old(self)@.union(set@),
    {
        proof {
            if set.spans@.len() > 0 {
                let top = set.spans@[0];
                assert(top.has(top.high.0 as int));
                assert(set@.contains(top.high.0 as int));
                old(self).lemma_accepts_push(top);
            }
        }
        let n = set.spans.len();
        let mut k: usize = 0;
        while k < n
            invariant
                n == set.spans@.len(),
                k <= n,
                spans_wf(set.spans@),
                self.wf(),
                self@ == old(self)@.union(spans_ids(set.spans@.take(k as int))),
                k < n && self.spans@.len() > 0 ==> set.spans@[k as int].high.0
                    <= self.spans@.last().high.0,
            decreases n - k,
        {
            let span = set.spans[k];
            push_with_union(&mut self.spans, span);
            proof {
                lemma_ids_take(set.spans@, k as int);
                if k + 1 < n {
                    assert(set.spans@[k + 1].wf());
                }
            }
            k += 1;
        }
        proof {
            assert(set.spans@.take(n as int) =~= set.spans@);
        }
    }

    /// Make this set contain `span`. Cheapest when `span` lies below the
    /// set; otherwise the set is rebuilt as a union.
    pub fn push(&mut self, span: Span)
        requires
            old(self).wf(),
            span.wf(),
        ensures
            final(self).wf(),
            final(self)@ == old(self)@.union(span.ids()),
    {
        let n = self.spans.len();
        if n == 0 || self.spans[n - 1].high.0 >= span.high.0 {
            push_with_union(&mut self.spans, span);
        } else {
            let one = SpanSet::from_span(span);
            *self = self.union(&one);
        }
    }

    /// The set holding the ids of `span`.
    pub fn from_span(span: Span) -> (r: SpanSet)
        requires
            span.wf(),
        ensures
            r.wf(),
            r@ == span.ids(),
            r.span_seq() == seq![span],
    {
        let spans = vec![span];
        proof {
            lemma_ids_single(span);
        }
        SpanSet { spans }
    }

    /// The empty set.
    pub fn empty() -> (r: SpanSet)
        ensures
            r.wf(),
            r@ == Set::<int>::empty(),
            r.span_seq().len() == 0,
    {
        let spans: Vec<Span> = Vec::new();
        proof {
            lemma_ids_empty();
        }
        SpanSet { spans }
    }

    /// The set of every valid id. Some of them may be unknown to a store.
    pub fn full() -> (r: SpanSet)
        ensures
            r.wf(),
            r@ == Set::new(|x: int| 0 <= x <= crate::id::MAX_ID),
    {
        let r = SpanSet::from_span(Span::full());
        assert(r@ =~= Set::new(|x: int| 0 <= x <= crate::id::MAX_ID));
        r
    }

    /// Whether this set holds no id.
    pub fn is_empty(&self) -> (r: bool)
        requires
            self.wf(),
        ensures
            r == (self@ == Set::<int>::empty()),
    {
        proof {
            if self.spans@.len() > 0 {
                let s = self.spans@[0];
                assert(s.has(s.high.0 as int));
                assert(self@.contains(s.high.0 as int));
            } else {
                assert(self@ =~= Set::<int>::empty());
            }
        }
        self.spans.len() == 0
    }

    /// The spans of this set, largest first, taken out of it.
    pub fn into_spans(self) -> (r: Vec<Span>)
        ensures
            r@ == self.span_seq(),
    {
        self.spans
    }

    /// The spans of this set, largest first.
    pub fn as_spans(&self) -> (r: &Vec<Span>)
        ensures
            r@ == self.span_seq(),
    {
        &self.spans
    }

    /// The largest id of this set, or `None` when it is empty.
    pub fn max(&self) -> (r: Option<Id>)
        requires
            self.wf(),
        ensures
            r.is_none() <==> self@ == Set::<int>::empty(),
            r matches Some(m) ==> self@.contains(m.0 as int) && forall|x: int| #[trigger]
                self@.contains(x) ==> x <= m.0,
    {
        if self.spans.len() == 0 {
            proof {
                assert(self.spans@ =~= Seq::<Span>::empty());
                lemma_ids_empty();
            }
            None
        } else {
            proof {
                lemma_ids_bounds(self.spans@);
            }
            Some(self.spans[0].high)
        }
    }

    /// The smallest id of this set, or `None` when it is empty.
    pub fn min(&self) -> (r: Option<Id>)
        requires
            self.wf(),
        ensures
            r.is_none() <==> self@ == Set::<int>::empty(),
            r matches Some(m) ==> self@.contains(m.0 as int) && forall|x: int| #[trigger]
                self@.contains(x) ==> m.0 <= x,
    {
        let n = self.spans.len();
        if n == 0 {
            proof {
                assert(self.spans@ =~= Seq::<Span>::empty());
                lemma_ids_empty();
            }
            None
        } else {
            proof {
                lemma_ids_bounds(self.spans@);
            }
            Some(self.spans[n - 1].low)
        }
    }

    /// Whether every id of `span` is in this set.
    ///
    /// Finds by bisection the highest span whose `low` is not above
    /// `span.low`; the answer is yes exactly when that span covers `span`,
    /// since the gap above any span is never in the set.
    #[verifier::rlimit(80)]
    pub fn contains(&self, span: Span) -> (r: bool)
        requires
            self.wf(),
            span.wf(),
        ensures
            r == span.ids().subset_of(self@),
    {
        let ss = &self.spans;
        let n = ss.len();
        let x = span.low.0;
        let mut lo: usize = 0;
        let mut hi: usize = n;
        while lo < hi
            invariant
                n == ss@.len(),
                spans_wf(ss@),
                lo <= hi <= n,
                forall|k: int| 0 <= k < lo ==> (#[trigger] ss@[k]).low.0 > x,
                forall|k: int| hi <= k < n ==> (#[trigger] ss@[k]).low.0 <= x,
            decreases hi - lo,
        {
            let mid = lo + (hi - lo) / 2;
            if ss[mid].low.0 <= x {
                proof {
                    assert forall|k: int| mid <= k < n implies (#[trigger] ss@[k]).low.0 <= x by {
                        if k > mid {
                            lemma_spans_sorted(ss@, mid as int, k);
                            assert(ss@[k].wf());
                        }
                    }
                }
                hi = mid;
            } else {
                proof {
                    assert forall|k: int| 0 <= k <= mid implies (#[trigger] ss@[k]).low.0 > x by {
                        if k < mid {
                            lemma_spans_sorted(ss@, k, mid as int);
                            assert(ss@[mid as int].wf());
                        }
                    }
                }
                lo = mid + 1;
            }
        }
        let idx = lo;
        if idx == n {
            proof {
                assert(span.has(x as int));
                if spans_ids(ss@).contains(x as int) {
                    let k = choose|k: int| 0 <= k < n && (#[trigger] ss@[k]).has(x as int);
                }
            }
            return false;
        }
        let s = ss[idx];
        proof {
            assert forall|k: int| 0 <= k < idx implies (#[trigger] ss@[k]).low.0 > s.high.0 + 1 by {
                lemma_spans_sorted(ss@, k, idx as int);
            }
            assert forall|k: int| idx < k < n implies (#[trigger] ss@[k]).high.0 + 1 < s.low.0 by {
                lemma_spans_sorted(ss@, idx as int, k);
            }
        }
        if s.high.0 < x {
            proof {
                assert(span.has(x as int));
                if spans_ids(ss@).contains(x as int) {
                    let k = choose|k: int| 0 <= k < n && (#[trigger] ss@[k]).has(x as int);
                }
            }
            false
        } else if s.high.0 >= span.high.0 {
            proof {
                assert forall|y: int| span.ids().contains(y) implies self@.contains(y) by {
                    assert(ss@[idx as int].has(y));
                }
            }
            true
        } else {
            proof {
                let y = s.high.0 + 1;
                assert(span.has(y));
                if spans_ids(ss@).contains(y) {
                    let k = choose|k: int| 0 <= k < n && (#[trigger] ss@[k]).has(y);
                }
            }
            false
        }
    }

    /// Whether `id` is in this set.
    pub fn contains_id(&self, id: Id) -> (r: bool)
        requires
            self.wf(),
        ensures
            r == self@.contains(id.0 as int),
    {
        let one = Span::from_id(id);
        let r = self.contains(one);
        proof {
            assert(one.ids().contains(id.0 as int));
            assert(one.ids() =~= set![id.0 as int]);
        }
        r
    }

    /// The number of ids in this set, counting each span in full.
    pub open spec fn size(&self) -> int {
        spans_count(self.span_seq())
    }

    /// Count the ids in this set. The count must fit in a `u64`: some
    /// `u64` value is not in the set.
    pub fn count(&self) -> (r: u64)
        requires
            self.wf(),
            exists|x: int| 0 <= x <= u64::MAX && !self@.contains(x),
        ensures
            r == self@.len(),
            r == self.size(),
    {
        proof {
            crate::laws::lemma_count_is_iteration_length(*self);
            let x = choose|x: int| 0 <= x <= u64::MAX && !self@.contains(x);
            let all = vstd::set_lib::set_int_range(0, u64::MAX + 1);
            vstd::set_lib::lemma_int_range(0, u64::MAX + 1);
            assert forall|y: int| self@.contains(y) implies all.remove(x).contains(y) by {
                let k = choose|k: int| 0 <= k < self.spans@.len() && (#[trigger] self.spans@[k]).has(y);
            }
            vstd::set_lib::lemma_len_subset(self@, all.remove(x));
        }
        let ss = &self.spans;
        let n = ss.len();
        let mut total: u64 = 0;
        let mut k: usize = 0;
        proof {
            reveal(spans_count);
            assert(ss@.take(0).len() == 0);
        }
        while k < n
            invariant
                n == ss@.len(),
                k <= n,
                spans_wf(ss@),
                spans_count(ss@) <= u64::MAX,
                total == spans_count(ss@.take(k as int)),
            decreases n - k,
        {
            proof {
                lemma_count_take(ss@, k as int);
                lemma_count_take(ss@, k as int + 1);
            }
            total = total + ss[k].count();
            k += 1;
        }
        proof {
            assert(ss@.take(n as int) =~= ss@);
        }
        total
    }

    /// Construct a set holding the ids of the given spans, which may be in
    /// any order and may overlap or touch: such spans are merged.
    pub fn from_spans(spans: Vec<Span>) -> (r: SpanSet)
        requires
            forall|i: int| 0 <= i < spans@.len() ==> (#[trigger] spans@[i]).wf(),
        ensures
            r.wf(),
            r@ == spans_ids(spans@),
    {
        let r = union_range(&spans, 0, spans.len());
        proof {
            assert(spans@.subrange(0, spans@.len() as int) =~= spans@);
        }
        r
    }

    /// Construct a set from spans that are already sorted (largest first),
    /// disjoint and non-adjacent.
    pub fn from_sorted_spans(spans: Vec<Span>) -> (r: SpanSet)
        requires
            spans_wf(spans@),
        ensures
            r.wf(),
            r.span_seq() == spans@,
            r@ == spans_ids(spans@),
    {
        SpanSet { spans }
    }

    /// Whether the spans are sorted, disjoint and non-adjacent.
    pub fn is_valid(&self) -> (r: bool)
        ensures
            r == self.wf(),
    {
        spans_valid(&self.spans)
    }
}


} // verus!
