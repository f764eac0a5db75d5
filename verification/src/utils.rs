//! Positions in a text: spans and repetition ranges.

use vstd::prelude::*;
use vstd::std_specs::convert::FromSpecImpl;
use vstd::std_specs::ops::AddSpecImpl;

verus! {

/// A half-open stretch `start..end` of a text, in bytes.
#[derive(Debug, Clone, Copy, PartialEq, Eq, Structural, Hash)]
pub struct Span {
    pub start: usize,
    pub end: usize,
}

impl Span {
    pub fn new(start: usize, end: usize) -> (span: Span)
        ensures
            span == (Span { start, end }),
    {
        Span { start, end }
    }

    /// The span of `len` bytes that begins at `offset`.
    pub fn new_len(offset: usize, len: usize) -> (span: Span)
        requires
            offset + len <= usize::MAX,
        ensures
            span.start == offset,
            span.end == offset + len,
    {
        Span { start: offset, end: offset + len }
    }

    pub fn empty() -> (span: Span)
        ensures
            span == (Span { start: 0, end: 0 }),
    {
        Span { start: 0, end: 0 }
    }

    /// The number of bytes the span covers.
    pub fn len(&self) -> (n: usize)
        requires
            self.start <= self.end,
        ensures
            n == self.end - self.start,
    {
        self.end - self.start
    }
}

impl std::ops::Add for Span {
    type Output = Span;

    /// The span from the start of `self` to the end of `other`.
    fn add(self, other: Span) -> (span: Span) {
        Span { start: self.start, end: other.end }
    }
}

impl AddSpecImpl for Span {
    open spec fn obeys_add_spec() -> bool {
        true
    }

    open spec fn add_req(self, other: Span) -> bool {
        true
    }

    open spec fn add_spec(self, other: Span) -> Span {
        Span { start: self.start, end: other.end }
    }
}

/// A range of counts: at least `start`, and fewer than `end` where there is
/// one.
#[derive(Debug, Clone, Copy, PartialEq, Eq, Structural, Hash)]
pub struct Range {
    pub start: usize,
    pub end: Option<usize>,
}

impl Range {
    /// The smallest count in the range.
    pub open spec fn spec_min(self) -> int {
        self.start as int
    }

    /// The largest count in the range; an `end` of zero admits zero.
    pub open spec fn spec_max(self) -> int {
        match self.end {
            Some(e) => if e == 0 {
                0
            } else {
                e - 1
            },
            None => usize::MAX as int,
        }
    }

    pub fn min(&self) -> (n: usize)
        ensures
            n == self.spec_min(),
    {
        self.start
    }

    pub fn max(&self) -> (n: usize)
        ensures
            n == self.spec_max(),
    {
        match self.end {
            Some(e) => if e == 0 {
                0
            } else {
                e - 1
            },
            None => usize::MAX,
        }
    }

    /// `n` and every larger count.
    pub fn at_least(n: usize) -> (r: Range)
        ensures
            r == (Range { start: n, end: None }),
    {
        Range { start: n, end: None }
    }
}

impl From<std::ops::Range<usize>> for Range {
    fn from(range: std::ops::Range<usize>) -> (r: Range) {
        Range { start: range.start, end: Some(range.end) }
    }
}

impl FromSpecImpl<std::ops::Range<usize>> for Range {
    open spec fn obeys_from_spec() -> bool {
        true
    }

    open spec fn from_spec(range: std::ops::Range<usize>) -> Range {
        Range { start: range.start, end: Some(range.end) }
    }
}

/// `std::ops::RangeFrom`: the range from `start` on.
#[verifier::external_type_specification]
#[verifier::reject_recursive_types(Idx)]
pub struct ExRangeFrom<Idx>(std::ops::RangeFrom<Idx>);

/// `std::ops::RangeTo`: the range up to `end`, without it.
#[verifier::external_type_specification]
#[verifier::reject_recursive_types(Idx)]
pub struct ExRangeTo<Idx>(std::ops::RangeTo<Idx>);

/// `std::ops::RangeToInclusive`: the range up to `end`, with it.
#[verifier::external_type_specification]
#[verifier::reject_recursive_types(Idx)]
pub struct ExRangeToInclusive<Idx>(std::ops::RangeToInclusive<Idx>);

/// `std::ops::RangeFull`: the range of everything.
#[verifier::external_type_specification]
pub struct ExRangeFull(std::ops::RangeFull);

impl From<std::ops::RangeFrom<usize>> for Range {
    fn from(range: std::ops::RangeFrom<usize>) -> (r: Range) {
        Range { start: range.start, end: None }
    }
}

impl FromSpecImpl<std::ops::RangeFrom<usize>> for Range {
    open spec fn obeys_from_spec() -> bool {
        true
    }

    open spec fn from_spec(range: std::ops::RangeFrom<usize>) -> Range {
        Range { start: range.start, end: None }
    }
}

impl From<std::ops::RangeTo<usize>> for Range {
    fn from(range: std::ops::RangeTo<usize>) -> (r: Range) {
        Range { start: 0, end: Some(range.end) }
    }
}

impl FromSpecImpl<std::ops::RangeTo<usize>> for Range {
    open spec fn obeys_from_spec() -> bool {
        true
    }

    open spec fn from_spec(range: std::ops::RangeTo<usize>) -> Range {
        Range { start: 0, end: Some(range.end) }
    }
}

/// The range that ends with `last`: with no end where nothing lies behind
/// `last`.
pub open spec fn through(start: usize, last: usize) -> Range {
    Range {
        start,
        end: if last == usize::MAX {
            None
        } else {
            Some((last + 1) as usize)
        },
    }
}

impl From<std::ops::RangeToInclusive<usize>> for Range {
    fn from(range: std::ops::RangeToInclusive<usize>) -> (r: Range) {
        let end = if range.end == usize::MAX {
            None
        } else {
            Some(range.end + 1)
        };
        Range { start: 0, end }
    }
}

impl FromSpecImpl<std::ops::RangeToInclusive<usize>> for Range {
    open spec fn obeys_from_spec() -> bool {
        true
    }

    open spec fn from_spec(range: std::ops::RangeToInclusive<usize>) -> Range {
        through(0, range.end)
    }
}

impl From<std::ops::RangeFull> for Range {
    fn from(range: std::ops::RangeFull) -> (r: Range) {
        Range { start: 0, end: None }
    }
}

impl FromSpecImpl<std::ops::RangeFull> for Range {
    open spec fn obeys_from_spec() -> bool {
        true
    }

    open spec fn from_spec(range: std::ops::RangeFull) -> Range {
        Range { start: 0, end: None }
    }
}

impl From<Range> for std::ops::RangeFrom<usize> {
    fn from(range: Range) -> (r: std::ops::RangeFrom<usize>) {
        std::ops::RangeFrom { start: range.start }
    }
}

impl FromSpecImpl<Range> for std::ops::RangeFrom<usize> {
    open spec fn obeys_from_spec() -> bool {
        true
    }

    open spec fn from_spec(range: Range) -> std::ops::RangeFrom<usize> {
        std::ops::RangeFrom { start: range.start }
    }
}

/// `RangeInclusive::start`: the lower bound of the range.
pub assume_specification<Idx>[ std::ops::RangeInclusive::<Idx>::start ](
    range: &std::ops::RangeInclusive<Idx>,
) -> (start: &Idx)
    ensures
        *start == range@.start,
;

/// `RangeInclusive::end`: the upper bound of the range, which belongs to it.
pub assume_specification<Idx>[ std::ops::RangeInclusive::<Idx>::end ](
    range: &std::ops::RangeInclusive<Idx>,
) -> (end: &Idx)
    ensures
        *end == range@.end,
;

impl From<std::ops::RangeInclusive<usize>> for Range {
    fn from(range: std::ops::RangeInclusive<usize>) -> (r: Range) {
        let last = *range.end();
        let end = if last == usize::MAX {
            None
        } else {
            Some(last + 1)
        };
        Range { start: *range.start(), end }
    }
}

impl FromSpecImpl<std::ops::RangeInclusive<usize>> for Range {
    open spec fn obeys_from_spec() -> bool {
        true
    }

    open spec fn from_spec(range: std::ops::RangeInclusive<usize>) -> Range {
        through(range@.start, range@.end)
    }
}

} // verus!
