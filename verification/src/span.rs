//! Spans: ranges of bytes of the source.

use vstd::prelude::*;

verus! {

/// A half-open range of byte offsets `[start, end)` into a source text.
#[derive(Copy, Clone, PartialEq, Eq, Structural, Debug)]
pub struct Span {
    /// Offset of the first byte.
    pub start: usize,
    /// Offset one past the last byte.
    pub end: usize,
}

impl Default for Span {
    /// The empty span at offset 0, which stands for "no position known".
    fn default() -> (s: Span)
        ensures
            s == (Span { start: 0, end: 0 }),
    {
        Span { start: 0, end: 0 }
    }
}

impl From<Span> for (usize, usize) {
    /// The start and the end of the span.
    fn from(s: Span) -> (r: (usize, usize)) {
        (s.start, s.end)
    }
}

impl vstd::std_specs::convert::FromSpecImpl<Span> for (usize, usize) {
    open spec fn obeys_from_spec() -> bool {
        true
    }

    open spec fn from_spec(s: Span) -> (usize, usize) {
        (s.start, s.end)
    }
}

impl From<(usize, usize)> for Span {
    /// The span from the first offset up to the second.
    fn from(s: (usize, usize)) -> (r: Span) {
        Span { start: s.0, end: s.1 }
    }
}

impl vstd::std_specs::convert::FromSpecImpl<(usize, usize)> for Span {
    open spec fn obeys_from_spec() -> bool {
        true
    }

    open spec fn from_spec(s: (usize, usize)) -> Span {
        Span { start: s.0, end: s.1 }
    }
}

impl Span {
    /// Builds the span `[start, end)`.
    pub fn new(start: usize, end: usize) -> (s: Span)
        ensures
            s.start == start,
            s.end == end,
    {
        Span { start, end }
    }

    /// True when the span covers no byte, as the sentinel span does.
    pub fn is_empty(&self) -> (r: bool)
        ensures
            r == (self.start >= self.end),
    {
        self.start >= self.end
    }
}

/// A value with the span of the source that it was read from.
#[derive(Debug)]
pub struct Spanned<T> {
    /// The value.
    pub value: T,
    /// Where it came from.
    pub span: Span,
}

impl<T> Spanned<T> {
    /// `value` with the empty span.
    pub fn new(value: T) -> (s: Spanned<T>)
        ensures
            s.value == value,
            s.span == (Span { start: 0, end: 0 }),
    {
        Spanned { value, span: Span { start: 0, end: 0 } }
    }

    /// `value` with the span `span`.
    pub fn with_span(value: T, span: Span) -> (s: Spanned<T>)
        ensures
            s.value == value,
            s.span == span,
    {
        Spanned { value, span }
    }

    /// The value, without its span.
    pub fn take(self) -> (value: T)
        ensures
            value == self.value,
    {
        self.value
    }
}

} // verus!
