use vstd::prelude::*;
use vstd::string::StringSliceAdditionalSpecFns;

use crate::iter::{drain, drain_rest, ids_of, lemma_elems_ids, lemma_elems_len, spans_elems};
use crate::id::Id;
use crate::span::Span;
use crate::spanset::{lemma_spans_canonical, spans_ids, SpanSet};
use crate::text::ascii_chars;
use crate::vertex::{hex_ascii, hex_digit, hex_value, is_hex, unhex};

verus! {

/// A span set is determined by its ids: two well-formed sets with the same
/// ids hold the same spans. So every operation whose contract fixes the ids
/// of its result fixes the result itself.
pub proof fn lemma_same_ids_same_spans(x: SpanSet, y: SpanSet)
    requires
        x.wf(),
        y.wf(),
        x@ == y@,
    ensures
        x.span_seq() == y.span_seq(),
{
    lemma_spans_canonical(x.span_seq(), y.span_seq());
}

/// Union is commutative: `a.union(b)` and `b.union(a)` are the same set,
/// span for span.
pub proof fn lemma_union_commutative(a: SpanSet, b: SpanSet)
    requires
        a.wf(),
        b.wf(),
    ensures
        forall|ab: SpanSet, ba: SpanSet|
            ab.wf() && ba.wf() && #[trigger] ab@ == a@.union(b@) && #[trigger] ba@ == b@.union(
                a@,
            ) ==> ab.span_seq() == ba.span_seq(),
{
    assert forall|ab: SpanSet, ba: SpanSet|
        ab.wf() && ba.wf() && #[trigger] ab@ == a@.union(b@) && #[trigger] ba@ == b@.union(
            a@,
        ) implies ab.span_seq() == ba.span_seq() by {
        assert(a@.union(b@) =~= b@.union(a@));
        lemma_same_ids_same_spans(ab, ba);
    }
}

/// Intersection is commutative: `a.intersection(b)` and `b.intersection(a)`
/// are the same set, span for span.
pub proof fn lemma_intersection_commutative(a: SpanSet, b: SpanSet)
    requires
        a.wf(),
        b.wf(),
    ensures
        forall|ab: SpanSet, ba: SpanSet|
            ab.wf() && ba.wf() && #[trigger] ab@ == a@.intersect(b@) && #[trigger] ba@
                == b@.intersect(a@) ==> ab.span_seq() == ba.span_seq(),
{
    assert forall|ab: SpanSet, ba: SpanSet|
        ab.wf() && ba.wf() && #[trigger] ab@ == a@.intersect(b@) && #[trigger] ba@
            == b@.intersect(a@) implies ab.span_seq() == ba.span_seq() by {
        assert(a@.intersect(b@) =~= b@.intersect(a@));
        lemma_same_ids_same_spans(ab, ba);
    }
}

/// The intersection and the difference partition a set: with
/// `i = a.intersection(b)`, `d = a.difference(b)` and `e = b.difference(a)`,
/// `i.union(d)` is `a`, `i.union(e)` is `b`, and `d.intersection(e)` and
/// `d.intersection(i)` are empty.
pub proof fn lemma_difference_partition(a: SpanSet, b: SpanSet, i: SpanSet, d: SpanSet, e: SpanSet)
    requires
        a.wf(),
        b.wf(),
        i.wf(),
        d.wf(),
        e.wf(),
        i@ == a@.intersect(b@),
        d@ == a@.difference(b@),
        e@ == b@.difference(a@),
    ensures
        forall|u: SpanSet| u.wf() && #[trigger] u@ == i@.union(d@) ==> u.span_seq() == a.span_seq(),
        forall|u: SpanSet| u.wf() && #[trigger] u@ == i@.union(e@) ==> u.span_seq() == b.span_seq(),
        forall|x: SpanSet|
            x.wf() && #[trigger] x@ == d@.intersect(e@) ==> x.span_seq().len() == 0,
        forall|x: SpanSet|
            x.wf() && #[trigger] x@ == d@.intersect(i@) ==> x.span_seq().len() == 0,
{
    assert forall|u: SpanSet| u.wf() && #[trigger] u@ == i@.union(d@) implies u.span_seq()
        == a.span_seq() by {
        assert(i@.union(d@) =~= a@);
        lemma_same_ids_same_spans(u, a);
    }
    assert forall|u: SpanSet| u.wf() && #[trigger] u@ == i@.union(e@) implies u.span_seq()
        == b.span_seq() by {
        assert(i@.union(e@) =~= b@);
        lemma_same_ids_same_spans(u, b);
    }
    assert forall|x: SpanSet| x.wf() && #[trigger] x@ == d@.intersect(e@) implies x.span_seq().len()
        == 0 by {
        lemma_empty_ids_no_spans(x);
    }
    assert forall|x: SpanSet| x.wf() && #[trigger] x@ == d@.intersect(i@) implies x.span_seq().len()
        == 0 by {
        lemma_empty_ids_no_spans(x);
    }
}

/// A set whose ids are all excluded holds no span.
proof fn lemma_empty_ids_no_spans(x: SpanSet)
    requires
        x.wf(),
    ensures
        x.span_seq().len() > 0 ==> x@.contains(x.span_seq()[0].high.0 as int),
{
    if x.span_seq().len() > 0 {
        let s = x.span_seq()[0];
        assert(s.has(s.high.0 as int));
    }
}

/// The count of a set is the number of ids that a full iteration hands out;
/// that iteration hands out every id of the set once, largest first, so the
/// count is also the number of ids in the set.
pub proof fn lemma_count_is_iteration_length(s: SpanSet)
    requires
        s.wf(),
    ensures
        spans_elems(s.span_seq()).len() == s.size(),
        spans_elems(s.span_seq()).to_set() == s@,
        spans_elems(s.span_seq()).no_duplicates(),
        s@.len() == s.size(),
{
    let e = spans_elems(s.span_seq());
    assert forall|k: int| 0 <= k < s.span_seq().len() implies (#[trigger] s.span_seq()[k]).wf() by {}
    lemma_elems_len(s.span_seq());
    lemma_elems_ids(s.span_seq());
    assert(e.to_set() =~= s@);
    assert forall|i: int, j: int| 0 <= i < e.len() && 0 <= j < e.len() && i != j implies e[i]
        != e[j] by {
        if i < j {
            assert(e[i] > e[j]);
        } else {
            assert(e[j] > e[i]);
        }
    }
    e.unique_seq_to_set();
}

/// A set built from spans contains exactly the ids that one of the spans
/// holds.
pub proof fn lemma_contains_built(spans: Seq<Span>, s: SpanSet, x: int)
    requires
        s.wf(),
        s@ == spans_ids(spans),
    ensures
        s@.contains(x) <==> exists|k: int| 0 <= k < spans.len() && (#[trigger] spans[k]).has(x),
{
}

/// A hex digit reads back as the value it was written for.
proof fn lemma_hex_digit_value(n: int)
    requires
        0 <= n < 16,
    ensures
        is_hex(hex_digit(n)),
        hex_value(hex_digit(n)) == n,
{
}

/// Decoding the hex encoding of a name gives the name back, and the encoding
/// holds hex digits only, so decoding it succeeds.
pub proof fn lemma_hex_round_trip(b: Seq<u8>)
    ensures
        forall|j: int| 0 <= j < hex_ascii(b).len() ==> #[trigger] is_hex(hex_ascii(b)[j]),
        unhex(hex_ascii(b)) == b,
{
    let h = hex_ascii(b);
    assert forall|j: int| 0 <= j < h.len() implies #[trigger] is_hex(h[j]) by {
        lemma_hex_digit_value(b[j / 2] as int / 16);
        lemma_hex_digit_value(b[j / 2] as int % 16);
    }
    assert forall|i: int| 0 <= i < b.len() implies #[trigger] unhex(h)[i] == b[i] by {
        let x = b[i] as int;
        lemma_hex_digit_value(x / 16);
        lemma_hex_digit_value(x % 16);
        assert(h[2 * i] == hex_digit(x / 16));
        assert(h[2 * i + 1] == hex_digit(x % 16));
        assert(16 * (x / 16) + x % 16 == x);
    }
    assert(unhex(h) =~= b);
}

/// An odd-length hex string decodes as if a `'0'` followed it, and is valid
/// exactly when it is valid with that `'0'`.
pub proof fn lemma_hex_odd(h: Seq<u8>)
    requires
        h.len() % 2 == 1,
    ensures
        unhex(h) == unhex(h.push(48u8)),
        (forall|j: int| 0 <= j < h.len() ==> #[trigger] is_hex(h[j])) <==> (forall|j: int|
            0 <= j < h.len() + 1 ==> #[trigger] is_hex(h.push(48u8)[j])),
{
    let p = h.push(48u8);
    assert(unhex(h) =~= unhex(p)) by {
        assert forall|i: int| 0 <= i < unhex(h).len() implies #[trigger] unhex(h)[i] == unhex(p)[i] by {
            assert(p[2 * i] == h[2 * i]);
            if 2 * i + 1 < h.len() {
                assert(p[2 * i + 1] == h[2 * i + 1]);
            }
        }
    }
    if forall|j: int| 0 <= j < h.len() ==> #[trigger] is_hex(h[j]) {
        assert forall|j: int| 0 <= j < h.len() + 1 implies #[trigger] is_hex(p[j]) by {
            if j < h.len() {
                assert(p[j] == h[j]);
            }
        }
    }
    if forall|j: int| 0 <= j < h.len() + 1 ==> #[trigger] is_hex(p[j]) {
        assert forall|j: int| 0 <= j < h.len() implies #[trigger] is_hex(h[j]) by {
            assert(p[j] == h[j]);
        }
    }
}

/// Calling `next` until the end hands out the remaining ids in order.
pub proof fn lemma_drain_forward(rem: Seq<int>, calls: Seq<bool>)
    requires
        calls.len() >= rem.len(),
        forall|k: int| 0 <= k < calls.len() ==> !#[trigger] calls[k],
    ensures
        drain(rem, calls) == rem,
    decreases calls.len(),
{
    if calls.len() > 0 && rem.len() > 0 {
        lemma_drain_forward(rem.drop_first(), calls.drop_first());
        assert(seq![rem[0]] + rem.drop_first() =~= rem);
    } else {
        assert(rem =~= Seq::<int>::empty());
    }
}

/// Calling `next_back` until the end hands out the remaining ids in reverse
/// order.
pub proof fn lemma_drain_backward(rem: Seq<int>, calls: Seq<bool>)
    requires
        calls.len() >= rem.len(),
        forall|k: int| 0 <= k < calls.len() ==> #[trigger] calls[k],
    ensures
        drain(rem, calls) == rem.reverse(),
    decreases calls.len(),
{
    if calls.len() > 0 && rem.len() > 0 {
        lemma_drain_backward(rem.drop_last(), calls.drop_first());
        assert(seq![rem.last()] + rem.drop_last().reverse() =~= rem.reverse());
    } else {
        assert(rem.reverse() =~= Seq::<int>::empty());
    }
}

/// Calls from both ends, in any interleaving and enough of them, hand out
/// each remaining id exactly once: the same multiset as calls from one end.
pub proof fn lemma_drain_interleaved(rem: Seq<int>, calls: Seq<bool>)
    requires
        calls.len() >= rem.len(),
    ensures
        drain(rem, calls).to_multiset() == rem.to_multiset(),
        drain_rest(rem, calls) == Seq::<int>::empty(),
    decreases calls.len(),
{
    broadcast use vstd::seq_lib::lemma_multiset_commutative;
    if calls.len() > 0 && rem.len() > 0 {
        if calls[0] {
            lemma_drain_interleaved(rem.drop_last(), calls.drop_first());
            assert(rem =~= rem.drop_last() + seq![rem.last()]);
            vstd::seq_lib::lemma_multiset_commutative(rem.drop_last(), seq![rem.last()]);
            vstd::seq_lib::lemma_multiset_commutative(
                seq![rem.last()],
                drain(rem.drop_last(), calls.drop_first()),
            );
            assert(drain(rem, calls).to_multiset() =~= rem.to_multiset());
        } else {
            lemma_drain_interleaved(rem.drop_first(), calls.drop_first());
            assert(rem =~= seq![rem[0]] + rem.drop_first());
            vstd::seq_lib::lemma_multiset_commutative(seq![rem[0]], rem.drop_first());
            vstd::seq_lib::lemma_multiset_commutative(
                seq![rem[0]],
                drain(rem.drop_first(), calls.drop_first()),
            );
        }
    } else {
        assert(rem =~= Seq::<int>::empty());
        assert(drain(rem, calls) =~= Seq::<int>::empty());
    }
}

/// Iterating a set from the front and reversing gives the iteration from
/// the back, and both hand out the ids of the set in order. `f` and `b` are
/// what [`crate::iter::SpanSetIter::take_calls`] returns on two fresh
/// iterators of `s`, with only `next` calls and only `next_back` calls.
pub proof fn lemma_iteration_symmetric(
    s: SpanSet,
    forward: Seq<bool>,
    backward: Seq<bool>,
    f: Seq<Id>,
    b: Seq<Id>,
)
    requires
        s.wf(),
        forward.len() >= spans_elems(s.span_seq()).len(),
        backward.len() >= spans_elems(s.span_seq()).len(),
        forall|k: int| 0 <= k < forward.len() ==> !#[trigger] forward[k],
        forall|k: int| 0 <= k < backward.len() ==> #[trigger] backward[k],
        ids_of(f) == drain(spans_elems(s.span_seq()), forward),
        ids_of(b) == drain(spans_elems(s.span_seq()), backward),
    ensures
        ids_of(f).reverse() == ids_of(b),
        ids_of(f) == spans_elems(s.span_seq()),
{
    let e = spans_elems(s.span_seq());
    lemma_drain_forward(e, forward);
    lemma_drain_backward(e, backward);
}

/// Calls from both ends of a fresh iterator of `s`, in any interleaving and
/// at least as many as `s` has ids, hand out every id of `s` exactly once and
/// leave nothing, so that any further call hands out nothing. `got` and
/// `rest` are what [`crate::iter::SpanSetIter::take_calls`] returns and
/// leaves remaining.
pub proof fn lemma_iteration_interleaved(s: SpanSet, calls: Seq<bool>, got: Seq<Id>, rest: Seq<int>)
    requires
        s.wf(),
        calls.len() >= spans_elems(s.span_seq()).len(),
        ids_of(got) == drain(spans_elems(s.span_seq()), calls),
        rest == drain_rest(spans_elems(s.span_seq()), calls),
    ensures
        ids_of(got).to_multiset() == spans_elems(s.span_seq()).to_multiset(),
        ids_of(got).to_set() == s@,
        ids_of(got).len() == s@.len(),
        rest.len() == 0,
{
    let e = spans_elems(s.span_seq());
    lemma_drain_interleaved(e, calls);
    lemma_count_is_iteration_length(s);
    let g = ids_of(got);
    assert forall|x: int| g.contains(x) <==> e.contains(x) by {
        vstd::seq_lib::to_multiset_contains(g, x);
        vstd::seq_lib::to_multiset_contains(e, x);
        assert(g.to_multiset().count(x) == e.to_multiset().count(x));
    }
    assert(g.to_set() =~= e.to_set());
    vstd::seq_lib::to_multiset_len(g);
    vstd::seq_lib::to_multiset_len(e);
}

/// The text that [`crate::vertex::VertexName::to_hex`] returns spells, as
/// bytes (`as_bytes`), the hex encoding of the name; decoding those bytes
/// with [`crate::vertex::VertexName::from_hex`] succeeds and gives the name
/// back.
pub proof fn lemma_to_hex_from_hex(v: Seq<u8>, hex: &str)
    requires
        hex@ == ascii_chars(hex_ascii(v)),
    ensures
        hex.spec_bytes() == hex_ascii(v),
        forall|j: int| 0 <= j < hex.spec_bytes().len() ==> #[trigger] is_hex(hex.spec_bytes()[j]),
        unhex(hex.spec_bytes()) == v,
{
    let h = hex_ascii(v);
    lemma_hex_round_trip(v);
    assert forall|j: int| 0 <= j < h.len() implies #[trigger] h[j] < 128 by {
        assert(is_hex(h[j]));
    }
    assert(vstd::string::is_ascii(hex));
    vstd::string::is_ascii_spec_bytes(hex);
    assert(hex.spec_bytes() =~= h);
}

} // verus!
