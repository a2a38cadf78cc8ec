use dag::{Id, Span, SpanSet, SpanSetAsc};

fn s(low: u64, high: u64) -> Span {
    Span::new(Id(low), Id(high))
}

fn one(x: u64) -> Span {
    s(x, x)
}

fn ones(xs: &[u64]) -> Vec<Span> {
    xs.iter().map(|&x| one(x)).collect()
}

fn ranges(set: &SpanSet) -> Vec<(u64, u64)> {
    set.as_spans().iter().map(|sp| (sp.low.0, sp.high.0)).collect()
}

fn forward(set: &SpanSet) -> Vec<u64> {
    let mut it = set.iter();
    let mut out = Vec::new();
    while let Some(id) = it.next() {
        out.push(id.0);
    }
    out
}

fn backward(set: &SpanSet) -> Vec<u64> {
    let mut it = set.iter();
    let mut out = Vec::new();
    while let Some(id) = it.next_back() {
        out.push(id.0);
    }
    out
}

fn union(a: Vec<Span>, b: Vec<Span>) -> Vec<(u64, u64)> {
    let a = SpanSet::from_spans(a);
    let b = SpanSet::from_spans(b);
    let spans1 = ranges(&a.union(&b));
    let spans2 = ranges(&b.union(&a));
    assert_eq!(spans1, spans2);
    spans1
}

fn intersect(a: Vec<Span>, b: Vec<Span>) -> Vec<(u64, u64)> {
    let a = SpanSet::from_spans(a);
    let b = SpanSet::from_spans(b);
    let spans1 = ranges(&a.intersection(&b));
    let spans2 = ranges(&b.intersection(&a));
    assert_eq!(spans1, spans2);
    spans1
}

fn to_spans(r: &[(u64, u64)]) -> Vec<Span> {
    r.iter().map(|&(l, h)| s(l, h)).collect()
}

fn difference(a: Vec<Span>, b: Vec<Span>) -> Vec<(u64, u64)> {
    let a = SpanSet::from_spans(a);
    let b = SpanSet::from_spans(b);
    let spans1 = ranges(&a.difference(&b));
    let spans2 = ranges(&b.difference(&a));

    let intersected = intersect(a.as_spans().clone(), b.as_spans().clone());
    let unioned = union(a.as_spans().clone(), b.as_spans().clone());
    assert_eq!(
        union(to_spans(&intersected), to_spans(&spans1)),
        union(a.as_spans().clone(), Vec::new())
    );
    assert_eq!(
        union(to_spans(&intersected), to_spans(&spans2)),
        union(b.as_spans().clone(), Vec::new())
    );
    assert_eq!(
        union(
            to_spans(&spans1),
            to_spans(&union(to_spans(&intersected), to_spans(&spans2)))
        ),
        unioned
    );

    assert!(intersect(to_spans(&spans1), to_spans(&spans2)).is_empty());
    assert!(intersect(to_spans(&spans1), to_spans(&intersected)).is_empty());
    assert!(intersect(to_spans(&spans2), to_spans(&intersected)).is_empty());

    spans1
}

#[test]
fn test_overlapped_spans() {
    let span = SpanSet::from_spans(vec![s(1, 3), s(3, 4)]);
    assert_eq!(span.as_spans(), &vec![s(1, 4)]);
}

#[test]
fn test_valid_spans() {
    SpanSet::empty();
    SpanSet::from_spans(vec![s(4, 4), s(3, 3), s(1, 2)]);
}

#[test]
fn test_count() {
    let set = SpanSet::empty();
    assert_eq!(set.count(), 0);

    let set = SpanSet::from_spans(vec![s(1, 10), s(20, 20), s(31, 40)]);
    assert_eq!(set.count(), 10 + 1 + 10);
}

#[test]
fn test_contains() {
    let set = SpanSet::empty();
    assert!(!set.contains(one(0)));
    assert!(!set.contains(one(10)));

    let set = SpanSet::from_spans(vec![s(1, 1), s(2, 9), s(10, 10), s(20, 20), s(31, 35), s(36, 40)]);
    assert!(!set.contains(one(0)));
    assert!(set.contains(one(1)));
    assert!(set.contains(one(5)));
    assert!(set.contains(one(10)));
    assert!(!set.contains(one(11)));

    assert!(set.contains(s(1, 10)));
    assert!(set.contains(s(1, 8)));
    assert!(set.contains(s(3, 10)));
    assert!(set.contains(s(3, 7)));
    assert!(!set.contains(s(1, 11)));
    assert!(!set.contains(s(0, 10)));

    assert!(!set.contains(one(19)));
    assert!(!set.contains(s(19, 20)));
    assert!(set.contains(one(20)));
    assert!(!set.contains(s(20, 21)));
    assert!(!set.contains(one(21)));

    assert!(!set.contains(one(30)));
    assert!(set.contains(one(31)));
    assert!(set.contains(one(32)));
    assert!(set.contains(one(39)));
    assert!(set.contains(one(40)));
    assert!(!set.contains(one(41)));

    assert!(set.contains(s(31, 40)));
    assert!(set.contains(s(32, 40)));
    assert!(set.contains(s(31, 39)));
    assert!(set.contains(s(31, 39)));
    assert!(!set.contains(s(31, 41)));
    assert!(!set.contains(s(30, 40)));
    assert!(!set.contains(s(30, 41)));
}

#[test]
fn test_union() {
    assert_eq!(union(vec![s(1, 10)], vec![s(10, 20)]), vec![(1, 20)]);
    assert_eq!(union(vec![s(1, 30)], vec![s(10, 20)]), vec![(1, 30)]);
    assert_eq!(union(ones(&[6, 8, 10]), ones(&[5, 7, 9])), vec![(5, 10)]);
    assert_eq!(
        union(vec![s(6, 6), s(8, 9), s(10, 10)], ones(&[5])),
        vec![(8, 10), (5, 6)]
    );
}

#[test]
fn test_intersection() {
    assert_eq!(intersect(vec![s(1, 10)], vec![s(11, 20)]), vec![]);
    assert_eq!(intersect(vec![s(1, 10)], vec![s(10, 20)]), vec![(10, 10)]);
    assert_eq!(intersect(vec![s(1, 30)], vec![s(10, 20)]), vec![(10, 20)]);
    assert_eq!(
        intersect(vec![s(0, 10), s(15, 20)], vec![s(0, 30)]),
        vec![(15, 20), (0, 10)]
    );
    assert_eq!(
        intersect(vec![s(0, 10), s(15, 20)], vec![s(5, 19)]),
        vec![(15, 19), (5, 10)]
    );
    assert_eq!(intersect(ones(&[10, 9, 8, 7]), vec![s(8, 11)]), vec![(8, 10)]);
    assert_eq!(intersect(ones(&[10, 9, 8, 7]), vec![s(5, 8)]), vec![(7, 8)]);
}

#[test]
fn test_difference() {
    assert_eq!(difference(vec![s(0, 5)], Vec::new()), vec![(0, 5)]);
    assert_eq!(difference(Vec::new(), vec![s(0, 5)]), vec![]);
    assert_eq!(difference(vec![s(0, 0)], vec![s(1, 1)]), vec![(0, 0)]);
    assert_eq!(difference(vec![s(0, 0)], vec![s(0, 1)]), vec![]);
    assert_eq!(difference(vec![s(0, 10)], vec![s(0, 5)]), vec![(6, 10)]);

    assert_eq!(
        difference(vec![s(0, 10)], vec![s(3, 4), s(7, 8)]),
        vec![(9, 10), (5, 6), (0, 2)]
    );
    assert_eq!(
        difference(vec![s(3, 4), s(7, 8), s(10, 12)], vec![s(4, 11)]),
        vec![(12, 12), (3, 3)]
    );
}

#[test]
fn test_iter() {
    let set = SpanSet::empty();
    assert!(set.iter().next().is_none());
    assert!(set.iter().next_back().is_none());

    let set = SpanSet::from_span(s(0, 1));
    assert_eq!(forward(&set), vec![1, 0]);
    assert_eq!(backward(&set), vec![0, 1]);

    let mut iter = set.iter();
    assert!(iter.next().is_some());
    assert!(iter.next_back().is_some());
    assert!(iter.next_back().is_none());

    let set = SpanSet::from_spans(vec![s(3, 5), s(7, 8)]);
    assert_eq!(forward(&set), vec![8, 7, 5, 4, 3]);
    assert_eq!(backward(&set), vec![3, 4, 5, 7, 8]);

    let mut owned = set.clone().into_iter();
    let mut got = Vec::new();
    while let Some(id) = owned.next() {
        got.push(id.0);
    }
    assert_eq!(got, vec![8, 7, 5, 4, 3]);
    let mut owned = set.clone().into_iter();
    let mut got = Vec::new();
    while let Some(id) = owned.next_back() {
        got.push(id.0);
    }
    assert_eq!(got, vec![3, 4, 5, 7, 8]);
}

#[test]
fn test_push() {
    let mut set = SpanSet::from_span(s(10, 20));
    set.push(s(5, 15));
    assert_eq!(set.as_spans(), &vec![s(5, 20)]);

    let mut set = SpanSet::from_span(s(10, 20));
    set.push(s(5, 9));
    assert_eq!(set.as_spans(), &vec![s(5, 20)]);

    let mut set = SpanSet::from_span(s(10, 20));
    set.push(s(5, 8));
    assert_eq!(set.as_spans(), &vec![s(10, 20), s(5, 8)]);

    let mut set = SpanSet::from_span(s(10, 20));
    set.push(s(5, 30));
    assert_eq!(set.as_spans(), &vec![s(5, 30)]);

    let mut set = SpanSet::from_span(s(10, 20));
    set.push(s(20, 30));
    assert_eq!(set.as_spans(), &vec![s(10, 30)]);

    let mut set = SpanSet::from_span(s(10, 20));
    set.push(s(10, 20));
    assert_eq!(set.as_spans(), &vec![s(10, 20)]);

    let mut set = SpanSet::from_span(s(10, 20));
    set.push(s(22, 30));
    assert_eq!(set.as_spans(), &vec![s(22, 30), s(10, 20)]);
}

#[test]
fn test_spanset_asc() {
    let mut set = SpanSetAsc::empty();
    assert!(!set.contains(one(3)));

    set.push_span(s(1, 10));
    assert!(set.contains(one(3)));

    set.push_span(s(11, 20));
    assert!(set.contains(one(10)));
    assert!(set.contains(one(11)));
    assert!(set.contains(one(20)));
    assert!(!set.contains(one(21)));
    assert_eq!(set.clone().into_span_set().to_debug_string(None), "1..=20");

    set.push_span(s(30, 40));
    assert_eq!(
        set.clone().into_span_set().to_debug_string(None),
        "1..=20 30..=40"
    );

    assert_eq!(set.intersection_span_min(s(15, 45)), Some(Id(15)));
    assert_eq!(set.intersection_span_min(s(20, 32)), Some(Id(20)));
    assert_eq!(set.intersection_span_min(s(21, 29)), None);
    assert_eq!(set.intersection_span_min(s(21, 32)), Some(Id(30)));
    assert_eq!(set.intersection_span_min(s(35, 45)), Some(Id(35)));
    assert_eq!(set.intersection_span_min(s(45, 55)), None);
}

#[test]
fn spanset_test_debug() {
    let set = SpanSet::from_spans(vec![s(1, 1), s(2, 9), s(10, 10), s(20, 20), s(31, 35), s(36, 40)]);
    assert_eq!(set.to_debug_string(Some(10)), "1..=10 20 31..=40");
    assert_eq!(set.to_debug_string(Some(3)), "1..=10 20 31..=40");
    assert_eq!(set.to_debug_string(Some(2)), "1..=10 20 and 1 span");
    assert_eq!(set.to_debug_string(Some(1)), "1..=10 and 2 spans");
}
