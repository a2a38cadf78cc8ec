use vstd::prelude::*;

use crate::id::{Id, MAX_ID};
use crate::span::Span;
use crate::spanset::{lemma_spans_sorted, spans_has, spans_ids, spans_wf, SpanSet};

verus! {

/// The mirror image of a set of ids: `x` is in it when `MAX_ID - x` is in `s`.
pub open spec fn mirror(s: Set<int>) -> Set<int> {
    Set::new(|x: int| 0 <= x <= MAX_ID && s.contains(MAX_ID - x))
}

/// Whether every integer of `s` is a valid id.
pub open spec fn all_valid(s: Set<int>) -> bool {
    forall|x: int| #[trigger] s.contains(x) ==> 0 <= x <= MAX_ID
}

/// The mirror image of a span of valid ids.
pub open spec fn span_rev_spec(s: Span) -> Span {
    Span { low: Id((MAX_ID - s.high.0) as u64), high: Id((MAX_ID - s.low.0) as u64) }
}

/// Mirror a span: `x` becomes `MAX_ID - x`.
fn span_rev(span: Span) -> (r: Span)
    requires
        span.wf(),
        span.high.0 <= MAX_ID,
    ensures
        r == span_rev_spec(span),
        r.wf(),
        r.high.0 <= MAX_ID,
{
    Span { low: Id(MAX_ID - span.high.0), high: Id(MAX_ID - span.low.0) }
}

/// The mirror image of a set of valid ids, built span by span from the
/// bottom so that the result is sorted again.
fn mirror_set(set: &SpanSet) -> (r: SpanSet)
    requires
        set.wf(),
        all_valid(set@),
    ensures
        r.wf(),
        r@ == mirror(set@),
        all_valid(r@),
{
    let ss = set.as_spans();
    let n = ss.len();
    let mut out: Vec<Span> = Vec::new();
    let mut k: usize = 0;
    proof {
        assert forall|i: int| 0 <= i < n implies (#[trigger] ss@[i]).high.0 <= MAX_ID by {
            assert(ss@[i].has(ss@[i].high.0 as int));
            assert(spans_has(ss@, ss@[i].high.0 as int));
            assert(set@.contains(ss@[i].high.0 as int));
        }
    }
    while k < n
        invariant
            n == ss@.len(),
            ss@ == set.span_seq(),
            spans_wf(ss@),
            forall|i: int| 0 <= i < n ==> (#[trigger] ss@[i]).high.0 <= MAX_ID,
            k <= n,
            out@.len() == k,
            forall|i: int| 0 <= i < k ==> #[trigger] out@[i] == span_rev_spec(ss@[n - 1 - i]),
            spans_wf(out@),
        decreases n - k,
    {
        let s = span_rev(ss[n - 1 - k]);
        proof {
            if k > 0 {
                lemma_spans_sorted(ss@, n - 1 - k, n - k);
                assert(out@[k - 1] == span_rev_spec(ss@[n - k]));
            }
        }
        let ghost prev = out@;
        out.push(s);
        proof {
            assert forall|i: int| 0 < i < out@.len() implies (#[trigger] out@[i]).high.0 + 1
                < out@[i - 1].low.0 by {
                if i < k {
                    assert(out@[i] == prev[i]);
                }
            }
        }
        k += 1;
    }
    proof {
        assert forall|x: int| spans_has(out@, x) implies mirror(set@).contains(x) by {
            let i = choose|i: int| 0 <= i < out@.len() && (#[trigger] out@[i]).has(x);
            assert(ss@[n - 1 - i].has(MAX_ID - x));
            assert(spans_has(ss@, MAX_ID - x));
        }
        assert forall|x: int| mirror(set@).contains(x) implies spans_has(out@, x) by {
            assert(spans_has(ss@, MAX_ID - x));
            let j = choose|j: int| 0 <= j < n && (#[trigger] ss@[j]).has(MAX_ID - x);
            assert(out@[n - 1 - j] == span_rev_spec(ss@[j]));
            assert(out@[n - 1 - j].has(x));
        }
        assert(spans_ids(out@) =~= mirror(set@));
    }
    SpanSet::from_sorted_spans(out)
}

/// A set of ids that is cheap to grow by pushing spans in ascending order.
///
/// It holds a [`SpanSet`] of the mirror images `MAX_ID - x` of its ids, so
/// that ascending pushes become the descending pushes a [`SpanSet`] is good at.
#[derive(Clone, Debug)]
pub struct SpanSetAsc(SpanSet);

impl View for SpanSetAsc {
    type V = Set<int>;

    closed spec fn view(&self) -> Set<int> {
        mirror(self.0@)
    }
}

impl SpanSetAsc {
    /// The mirrored set is well formed and holds valid ids only.
    pub closed spec fn wf(&self) -> bool {
        self.0.wf() && all_valid(self.0@)
    }

    /// Whether `span` may be pushed: every id from `span.low` up to the
    /// largest of the set is in the set, that is, `span` starts no lower than
    /// the highest span of the set.
    pub open spec fn accepts_push(&self, span: Span) -> bool {
        forall|x: int, y: int| #[trigger]
            self@.contains(y) && span.low.0 <= x <= y ==> #[trigger] self@.contains(x)
    }

    /// The empty set.
    pub fn empty() -> (r: SpanSetAsc)
        ensures
            r.wf(),
            r@ == Set::<int>::empty(),
    {
        let r = SpanSetAsc(SpanSet::empty());
        assert(r@ =~= Set::<int>::empty());
        r
    }

    /// Push a span of valid ids. Spans must come in ascending order.
    pub fn push_span(&mut self, span: Span)
        requires
            old(self).wf(),
            span.wf(),
            span.high.0 <= MAX_ID,
            old(self).accepts_push(span),
        ensures
            final(self).wf(),
            final(self)@ == old(self)@.union(span.ids()),
    {
        let r = span_rev(span);
        proof {
            assert forall|x: int, y: int| #[trigger]
                self.0@.contains(y) && y <= x <= r.high.0 implies #[trigger] self.0@.contains(x) by {
                assert(self@.contains(MAX_ID - y));
                assert(self@.contains(MAX_ID - x));
            }
        }
        self.0.push_span(r);
        proof {
            assert(mirror(self.0@) =~= mirror(old(self).0@).union(span.ids()));
        }
    }

    /// Whether every id of `span` is in this set.
    pub fn contains(&self, span: Span) -> (r: bool)
        requires
            self.wf(),
            span.wf(),
            span.high.0 <= MAX_ID,
        ensures
            r == span.ids().subset_of(self@),
    {
        let rs = span_rev(span);
        let r = self.0.contains(rs);
        proof {
            if r {
                assert(span.ids().subset_of(self@)) by {
                    assert forall|x: int| span.ids().contains(x) implies self@.contains(x) by {
                        assert(rs.ids().contains(MAX_ID - x));
                    }
                }
            } else {
                if span.ids().subset_of(self@) {
                    assert forall|y: int| rs.ids().contains(y) implies self.0@.contains(y) by {
                        assert(span.ids().contains(MAX_ID - y));
                    }
                }
            }
        }
        r
    }

    /// The smallest id that is both in this set and in `rhs`, if any.
    ///
    /// Finds by bisection the lowest span of this set that reaches up to
    /// `rhs.low`; only it can hold the answer.
    #[verifier::rlimit(80)]
    pub fn intersection_span_min(&self, rhs: Span) -> (r: Option<Id>)
        requires
            self.wf(),
            rhs.wf(),
        ensures
            r.is_none() <==> self@.intersect(rhs.ids()) == Set::<int>::empty(),
            r matches Some(m) ==> self@.intersect(rhs.ids()).contains(m.0 as int) && forall|
                x: int,
            | #[trigger] self@.intersect(rhs.ids()).contains(x) ==> m.0 <= x,
    {
        let ss = self.0.as_spans();
        let n = ss.len();
        proof {
            assert forall|i: int| 0 <= i < n implies (#[trigger] ss@[i]).high.0 <= MAX_ID by {
                assert(ss@[i].has(ss@[i].high.0 as int));
                assert(spans_has(ss@, ss@[i].high.0 as int));
                assert(self.0@.contains(ss@[i].high.0 as int));
            }
        }
        // In mirror image the spans ascend: span `i` becomes
        // `MAX_ID - ss[i].high ..= MAX_ID - ss[i].low`.
        let mut lo: usize = 0;
        let mut hi: usize = n;
        while lo < hi
            invariant
                n == ss@.len(),
                ss@ == self.0.span_seq(),
                spans_wf(ss@),
                forall|k: int| 0 <= k < n ==> (#[trigger] ss@[k]).high.0 <= MAX_ID,
                lo <= hi <= n,
                forall|k: int| 0 <= k < lo ==> MAX_ID - (#[trigger] ss@[k]).low.0 < rhs.low.0,
                forall|k: int| hi <= k < n ==> MAX_ID - (#[trigger] ss@[k]).low.0 >= rhs.low.0,
            decreases hi - lo,
        {
            let mid = lo + (hi - lo) / 2;
            if MAX_ID - ss[mid].low.0 >= rhs.low.0 {
                proof {
                    assert(ss@[mid as int].wf());
                    assert forall|k: int| mid <= k < n implies MAX_ID - (#[trigger] ss@[k]).low.0
                        >= rhs.low.0 by {
                        if k > mid {
                            lemma_spans_sorted(ss@, mid as int, k);
                            assert(ss@[k].wf());
                        }
                    }
                }
                hi = mid;
            } else {
                proof {
                    assert forall|k: int| 0 <= k <= mid implies MAX_ID - (#[trigger] ss@[k]).low.0
                        < rhs.low.0 by {
                        if k < mid {
                            lemma_spans_sorted(ss@, k, mid as int);
                            assert(ss@[mid as int].wf());
                        }
                    }
                }
                lo = mid + 1;
            }
        }
        let i = lo;
        let inter = Ghost(self@.intersect(rhs.ids()));
        if i == n {
            proof {
                assert(inter@ =~= Set::<int>::empty()) by {
                    assert forall|x: int| !inter@.contains(x) by {
                        if inter@.contains(x) {
                            let k = choose|k: int| 0 <= k < n && (#[trigger] ss@[k]).has(MAX_ID - x);
                        }
                    }
                }
            }
            return None;
        }
        let s = span_rev(ss[i]);
        proof {
            assert forall|k: int| i < k < n implies MAX_ID - (#[trigger] ss@[k]).high.0 > s.high.0
                + 1 by {
                lemma_spans_sorted(ss@, i as int, k);
            }
        }
        if s.low.0 <= rhs.high.0 {
            let m = if s.low.0 >= rhs.low.0 {
                s.low
            } else {
                rhs.low
            };
            proof {
                assert(ss@[i as int].has(MAX_ID - m.0));
                assert(spans_has(ss@, MAX_ID - m.0));
                assert(inter@.contains(m.0 as int));
                assert forall|x: int| #[trigger] inter@.contains(x) implies m.0 <= x by {
                    let k = choose|k: int| 0 <= k < n && (#[trigger] ss@[k]).has(MAX_ID - x);
                }
            }
            Some(m)
        } else {
            proof {
                assert(inter@ =~= Set::<int>::empty()) by {
                    assert forall|x: int| !inter@.contains(x) by {
                        if inter@.contains(x) {
                            let k = choose|k: int| 0 <= k < n && (#[trigger] ss@[k]).has(MAX_ID - x);
                        }
                    }
                }
            }
            None
        }
    }

    /// The ids in both sets.
    pub fn intersection(&self, rhs: &SpanSetAsc) -> (r: SpanSetAsc)
        requires
            self.wf(),
            rhs.wf(),
        ensures
            r.wf(),
            r@ == self@.intersect(rhs@),
    {
        let r = SpanSetAsc(self.0.intersection(&rhs.0));
        assert(r@ =~= self@.intersect(rhs@));
        r
    }

    /// The same ids as `set`, which must all be valid.
    pub fn from_span_set(set: &SpanSet) -> (r: SpanSetAsc)
        requires
            set.wf(),
            all_valid(set@),
        ensures
            r.wf(),
            r@ == set@,
    {
        let m = mirror_set(set);
        let r = SpanSetAsc(m);
        assert(r@ =~= set@);
        r
    }

    /// The same ids, as a [`SpanSet`].
    pub fn into_span_set(self) -> (r: SpanSet)
        requires
            self.wf(),
        ensures
            r.wf(),
            r@ == self@,
    {
        mirror_set(&self.0)
    }
}

} // verus!
