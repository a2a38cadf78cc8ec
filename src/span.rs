use vstd::prelude::*;

use crate::id::Id;

verus! {

/// The end of a range of ids: the last id in it, or the first id past it.
#[derive(Copy, Clone, Debug, PartialEq, Eq, Structural)]
pub enum EndBound {
    Included(Id),
    Excluded(Id),
}

/// The inclusive range `low..=high` of ids. `low` must be `<= high`.
///
/// Spans are ordered by `high` first, then by `low`, so the field order
/// below is what the derived ordering compares.
#[derive(Copy, Clone, Debug, PartialEq, Eq, Structural, PartialOrd, Ord)]
pub struct Span {
    pub high: Id,
    pub low: Id,
}

impl Span {
    /// A span is well formed when its bounds are not inverted.
    pub open spec fn wf(self) -> bool {
        self.low.0 <= self.high.0
    }

    /// Whether the integer `x` lies in this span.
    pub open spec fn has(self, x: int) -> bool {
        self.low.0 <= x <= self.high.0
    }

    /// The set of integers covered by this span.
    pub open spec fn ids(self) -> Set<int> {
        Set::new(|x: int| self.has(x))
    }

    /// The number of integers covered by this span.
    pub open spec fn size(self) -> int {
        self.high.0 - self.low.0 + 1
    }

    /// The span `low..=high`. Inverted bounds are a caller's bug.
    pub fn new(low: Id, high: Id) -> (r: Span)
        requires
            low.0 <= high.0,
        ensures
            r.low == low,
            r.high == high,
    {
        Span { low, high }
    }

    /// The span from `low` to `end`: `low..=high` for an included end,
    /// `low..end` for an excluded one. `None` when that range is empty.
    pub fn try_from_bounds(low: Id, end: EndBound) -> (r: Option<Span>)
        ensures
            end matches EndBound::Included(high) ==> (low.0 <= high.0 ==> r == Some(
                Span { low, high },
            )) && (low.0 > high.0 ==> r.is_none()),
            end matches EndBound::Excluded(e) ==> (low.0 < e.0 ==> r == Some(
                Span { low, high: Id((e.0 - 1) as u64) },
            )) && (low.0 >= e.0 ==> r.is_none()),
    {
        match end {
            EndBound::Included(high) => {
                if low.0 <= high.0 {
                    Some(Span { low, high })
                } else {
                    None
                }
            },
            EndBound::Excluded(e) => {
                if low.0 < e.0 {
                    Some(Span { low, high: Id(e.0 - 1) })
                } else {
                    None
                }
            },
        }
    }

    /// The span holding the single id `id`.
    pub fn from_id(id: Id) -> (r: Span)
        ensures
            r.low == id,
            r.high == id,
    {
        Span { low: id, high: id }
    }

    /// The number of ids in this span.
    pub fn count(self) -> (r: u64)
        requires
            self.wf(),
            self.size() <= u64::MAX,
        ensures
            r == self.size(),
    {
        self.high.0 - self.low.0 + 1
    }

    /// The `n`-th id of this span counting down from `high`, which is the
    /// 0-th; `None` when `n` is past `low`.
    pub fn nth(self, n: u64) -> (r: Option<Id>)
        requires
            self.wf(),
        ensures
            n < self.size() ==> r == Some(Id((self.high.0 - n) as u64)),
            n >= self.size() ==> r.is_none(),
    {
        if n > self.high.0 - self.low.0 {
            None
        } else {
            Some(self.high.sub(n))
        }
    }

    /// Whether `value` lies in this span.
    pub fn contains(self, value: Id) -> (r: bool)
        ensures
            r == self.has(value.0 as int),
    {
        self.low.0 <= value.0 && value.0 <= self.high.0
    }

    /// The span of every valid id, from the first id of the first group to
    /// the last id of the last group. Some of them may be unknown to a store.
    pub fn full() -> (r: Span)
        ensures
            r.low.0 == 0,
            r.high.0 == crate::id::MAX_ID,
            r.wf(),
    {
        Span { low: Id(0), high: Id(crate::id::MAX_ID) }
    }
}

} // verus!
