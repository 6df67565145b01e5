use vstd::prelude::*;

verus! {

/// A half-open range of byte offsets into a literal.
#[derive(Clone, Copy, Debug, PartialEq, Eq, Structural, Hash)]
pub struct Span {
    pub start: u32,
    pub end: u32,
}

/// A value together with the range of the literal it was read from.
#[derive(Clone, Copy, Debug, PartialEq, Eq, Hash)]
pub struct WithSpan<T> {
    pub item: T,
    pub location: Span,
}

/// A value, with the range of the literal it was read from when it was read from one.
#[derive(Clone, Copy, Debug, PartialEq, Eq, Hash)]
pub struct WithOptionalSpan<T> {
    pub item: T,
    pub location: Option<Span>,
}

impl Span {
    pub fn new(start: u32, end: u32) -> (s: Span)
        ensures
            s.start == start,
            s.end == end,
    {
        Span { start, end }
    }

    /// The span from the start of `first` to the end of `last`.
    pub open spec fn spec_join(first: Span, last: Span) -> Span {
        Span { start: first.start, end: last.end }
    }

    /// The span from the start of `first` to the end of `last`.
    pub fn join(first: Span, last: Span) -> (s: Span)
        ensures
            s == Span::spec_join(first, last),
    {
        Span { start: first.start, end: last.end }
    }

    /// The span strictly between two spans: from the end of `before` to the start of `after`.
    pub open spec fn spec_between(before: Span, after: Span) -> Span {
        Span { start: before.end, end: after.start }
    }

    /// The span strictly between two spans: from the end of `before` to the start of `after`.
    pub fn between(before: Span, after: Span) -> (s: Span)
        ensures
            s == Span::spec_between(before, after),
    {
        Span { start: before.end, end: after.start }
    }

    /// The empty span at `offset`.
    pub fn empty_at(offset: u32) -> (s: Span)
        ensures
            s.start == offset,
            s.end == offset,
    {
        Span { start: offset, end: offset }
    }
}

impl<T> WithSpan<T> {
    pub fn new(item: T, location: Span) -> (w: WithSpan<T>)
        ensures
            w.item == item,
            w.location == location,
    {
        WithSpan { item, location }
    }
}

} // verus!
