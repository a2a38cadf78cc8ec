use dag::{EndBound, Id, Span, SpanSet, SpanSetAsc};

fn s(low: u64, high: u64) -> Span {
    Span::new(Id(low), Id(high))
}

fn ones(xs: &[u64]) -> Vec<Span> {
    xs.iter().map(|&x| s(x, x)).collect()
}

fn ranges(set: &SpanSet) -> Vec<(u64, u64)> {
    set.as_spans().iter().map(|sp| (sp.low.0, sp.high.0)).collect()
}

fn is_canonical(set: &SpanSet) -> bool {
    let v = set.as_spans();
    v.iter().all(|sp| sp.low.0 <= sp.high.0)
        && v.windows(2).all(|w| w[1].high.0 + 1 < w[0].low.0)
}

fn sample_sets() -> Vec<SpanSet> {
    vec![
        SpanSet::empty(),
        SpanSet::from_spans(vec![s(0, 10)]),
        SpanSet::from_spans(vec![s(0, 10), s(15, 20)]),
        SpanSet::from_spans(vec![s(3, 4), s(7, 8), s(10, 12)]),
        SpanSet::from_spans(ones(&[1, 3, 5, 7, 9, 11])),
        SpanSet::from_spans(vec![s(5, 19), s(30, 30)]),
        SpanSet::from_spans(vec![s(0, u64::MAX)]),
    ]
}

#[test]
fn operations_keep_spans_canonical() {
    for a in sample_sets() {
        assert!(a.is_valid());
        assert!(is_canonical(&a));
        for b in sample_sets() {
            assert!(is_canonical(&a.union(&b)));
            assert!(is_canonical(&a.intersection(&b)));
            assert!(is_canonical(&a.difference(&b)));
            let mut p = a.clone();
            p.push(s(6, 9));
            assert!(is_canonical(&p));
        }
    }
    let unsorted = SpanSet::from_spans(vec![s(7, 8), s(1, 2), s(3, 3), s(20, 25), s(9, 9)]);
    assert_eq!(ranges(&unsorted), vec![(20, 25), (7, 9), (1, 3)]);
}

#[test]
fn union_and_intersection_commute() {
    for a in sample_sets() {
        for b in sample_sets() {
            assert_eq!(ranges(&a.union(&b)), ranges(&b.union(&a)));
            assert_eq!(ranges(&a.intersection(&b)), ranges(&b.intersection(&a)));
        }
    }
}

#[test]
fn difference_partitions() {
    for a in sample_sets() {
        for b in sample_sets() {
            let i = a.intersection(&b);
            let d = a.difference(&b);
            let e = b.difference(&a);
            assert_eq!(ranges(&i.union(&d)), ranges(&a));
            assert_eq!(ranges(&i.union(&e)), ranges(&b));
            assert!(d.intersection(&e).is_empty());
            assert!(d.intersection(&i).is_empty());
        }
    }
}

#[test]
fn scenario_concrete_operations() {
    let a = SpanSet::from_spans(vec![s(1, 3), s(3, 4)]);
    assert_eq!(ranges(&a), vec![(1, 4)]);
    let u = SpanSet::from_spans(ones(&[6, 8, 10])).union(&SpanSet::from_spans(ones(&[5, 7, 9])));
    assert_eq!(ranges(&u), vec![(5, 10)]);
    let i = SpanSet::from_spans(vec![s(0, 10), s(15, 20)]).intersection(&SpanSet::from_spans(vec![s(5, 19)]));
    assert_eq!(ranges(&i), vec![(15, 19), (5, 10)]);
    let d = SpanSet::from_spans(vec![s(0, 10)]).difference(&SpanSet::from_spans(vec![s(3, 4), s(7, 8)]));
    assert_eq!(ranges(&d), vec![(9, 10), (5, 6), (0, 2)]);
    let mut p = SpanSet::from_span(s(10, 20));
    p.push(s(22, 30));
    assert_eq!(ranges(&p), vec![(22, 30), (10, 20)]);
    let mut q = SpanSet::from_span(s(10, 20));
    q.push(s(20, 30));
    assert_eq!(ranges(&q), vec![(10, 30)]);
}

#[test]
fn count_matches_iteration() {
    for a in sample_sets() {
        if a.max() == Some(Id(u64::MAX)) {
            continue;
        }
        let mut it = a.iter();
        let mut n: u64 = 0;
        while it.next().is_some() {
            n += 1;
        }
        assert_eq!(a.count(), n);
    }
    assert_eq!(SpanSet::full().count(), 1u64 << 57);
}

#[test]
fn contains_matches_the_built_set() {
    let xs = [2u64, 3, 4, 9, 11, 12, 40];
    let set = SpanSet::from_spans(ones(&xs));
    for x in 0..50u64 {
        assert_eq!(set.contains_id(Id(x)), xs.contains(&x));
    }
    assert!(set.contains(s(2, 4)));
    assert!(!set.contains(s(2, 5)));
    assert!(!set.contains(s(10, 12)));
}

#[test]
fn iteration_is_symmetric() {
    let set = SpanSet::from_spans(vec![s(3, 5), s(7, 8), s(12, 12)]);
    let mut fwd = Vec::new();
    let mut it = set.iter();
    while let Some(x) = it.next() {
        fwd.push(x.0);
    }
    let mut bwd = Vec::new();
    let mut it = set.iter();
    while let Some(x) = it.next_back() {
        bwd.push(x.0);
    }
    let mut rev = fwd.clone();
    rev.reverse();
    assert_eq!(rev, bwd);

    // Alternate ends: every id exactly once.
    let mut mixed = Vec::new();
    let mut it = set.iter();
    let mut back = false;
    loop {
        let x = if back { it.next_back() } else { it.next() };
        match x {
            Some(x) => mixed.push(x.0),
            None => break,
        }
        back = !back;
    }
    assert_eq!(mixed, vec![12, 3, 8, 4, 7, 5]);
    mixed.sort();
    assert_eq!(mixed, vec![3, 4, 5, 7, 8, 12]);
    assert!(it.next().is_none());
    assert!(it.next_back().is_none());
}

#[test]
fn min_max_and_empty() {
    let set = SpanSet::from_spans(vec![s(3, 5), s(7, 8)]);
    assert_eq!(set.max(), Some(Id(8)));
    assert_eq!(set.min(), Some(Id(3)));
    assert!(!set.is_empty());
    let e = SpanSet::empty();
    assert_eq!(e.max(), None);
    assert_eq!(e.min(), None);
    assert!(e.is_empty());
    assert_eq!(e.count(), 0);
}

#[test]
fn push_span_and_push_set_append_below() {
    let mut set = SpanSet::from_span(s(20, 30));
    set.push_span(s(10, 19));
    assert_eq!(ranges(&set), vec![(10, 30)]);
    set.push_span(s(1, 5));
    assert_eq!(ranges(&set), vec![(10, 30), (1, 5)]);
    let mut top = SpanSet::from_span(s(100, 200));
    top.push_set(&set);
    assert_eq!(ranges(&top), vec![(100, 200), (10, 30), (1, 5)]);
}

#[test]
fn sorted_spans_and_validity() {
    let set = SpanSet::from_sorted_spans(vec![s(10, 12), s(1, 3)]);
    assert_eq!(ranges(&set), vec![(10, 12), (1, 3)]);
    assert!(set.is_valid());
    assert!(dag::spanset::spans_valid(&vec![s(10, 12), s(1, 3)]));
    assert!(!dag::spanset::spans_valid(&vec![s(4, 12), s(1, 3)]));
    assert!(!dag::spanset::spans_valid(&vec![s(1, 3), s(10, 12)]));
    assert!(!dag::spanset::spans_valid(&vec![s(3, 1)]));
}

#[test]
fn span_basics() {
    let sp = s(10, 20);
    assert_eq!(sp.count(), 11);
    assert_eq!(sp.nth(0), Some(Id(20)));
    assert_eq!(sp.nth(10), Some(Id(10)));
    assert_eq!(sp.nth(11), None);
    assert!(sp.contains(Id(10)));
    assert!(!sp.contains(Id(21)));
    assert_eq!(Span::try_from_bounds(Id(3), EndBound::Included(Id(2))), None);
    assert_eq!(Span::try_from_bounds(Id(2), EndBound::Included(Id(3))), Some(s(2, 3)));
    assert_eq!(Span::try_from_bounds(Id(3), EndBound::Included(Id(3))), Some(s(3, 3)));
    assert_eq!(Span::try_from_bounds(Id(2), EndBound::Excluded(Id(5))), Some(s(2, 4)));
    assert_eq!(Span::try_from_bounds(Id(4), EndBound::Excluded(Id(5))), Some(s(4, 4)));
    assert_eq!(Span::try_from_bounds(Id(5), EndBound::Excluded(Id(5))), None);
    assert_eq!(Span::try_from_bounds(Id(0), EndBound::Excluded(Id(0))), None);
    let full = Span::full();
    assert_eq!((full.low.0, full.high.0), (0, (1u64 << 57) - 1));
    assert!(s(1, 9) < s(0, 10));
    assert!(s(0, 10) < s(1, 10));
}

#[test]
fn asc_round_trip_and_intersection() {
    let set = SpanSet::from_spans(vec![s(1, 20), s(30, 40)]);
    let asc = SpanSetAsc::from_span_set(&set);
    assert!(asc.contains(s(30, 40)));
    assert!(!asc.contains(s(20, 30)));
    assert_eq!(ranges(&asc.clone().into_span_set()), ranges(&set));
    let other = SpanSetAsc::from_span_set(&SpanSet::from_span(s(15, 35)));
    let both = asc.intersection(&other).into_span_set();
    assert_eq!(ranges(&both), vec![(30, 35), (15, 20)]);
    assert_eq!(SpanSetAsc::empty().intersection_span_min(s(0, 100)), None);
}

#[test]
fn debug_text_of_short_spans() {
    let set = SpanSet::from_spans(vec![s(1, 3), s(10, 11), s((1u64 << 56) + 2, (1u64 << 56) + 9)]);
    assert_eq!(set.to_debug_string(None), "1 2 3 10 11 N2..=N9");
    assert_eq!(set.to_debug_string(Some(0)), "and 3 spans");
    assert_eq!(SpanSet::empty().to_debug_string(None), "");
}

#[test]
fn take_calls_follows_the_schedule() {
    let set = SpanSet::from_spans(vec![s(3, 5), s(7, 8)]);
    let mut it = set.iter();
    let got = it.take_calls(&vec![false, true, true, false]);
    assert_eq!(got, vec![Id(8), Id(3), Id(4), Id(7)]);
    let rest = it.take_calls(&vec![true, true, false]);
    assert_eq!(rest, vec![Id(5)]);
    assert!(it.next().is_none());
    let mut it = set.iter();
    let all = it.take_calls(&vec![true; 5]);
    assert_eq!(all, vec![Id(3), Id(4), Id(5), Id(7), Id(8)]);
}

#[test]
fn owned_iteration_matches_borrowed() {
    let set = SpanSet::from_spans(vec![s(1, 2), s(10, 10)]);
    let mut a = set.iter();
    let mut b = set.clone().into_iter();
    assert_eq!(a.next(), b.next());
    assert_eq!(a.next_back(), b.next_back());
    assert_eq!(a.next(), b.next());
    assert_eq!(a.next(), None);
    assert_eq!(b.next_back(), None);
}
