use vstd::prelude::*;

use crate::source::SourceId;

verus! {

/// A span of source code: a source and the offsets of its start and end.
#[derive(Clone, Debug, PartialEq, Eq, Hash, PartialOrd, Ord)]
pub struct Span {
    source: SourceId,
    start: usize,
    end: usize,
}

impl Span {
    pub closed spec fn spec_source(&self) -> SourceId {
        self.source
    }

    pub closed spec fn spec_start(&self) -> usize {
        self.start
    }

    pub closed spec fn spec_end(&self) -> usize {
        self.end
    }

    /// Create a new [`Span`].
    pub fn new(source: SourceId, start: usize, end: usize) -> (span: Span)
        ensures
            span.spec_source() == source,
            span.spec_start() == start,
            span.spec_end() == end,
    {
        Span { source, start, end }
    }

    /// The source the span is in.
    pub fn source(&self) -> (s: SourceId)
        ensures
            s == self.spec_source(),
    {
        self.source.copy()
    }

    /// The offset of the beginning of the span.
    #[verifier::when_used_as_spec(spec_start)]
    pub fn start(&self) -> (s: usize)
        ensures
            s == self.spec_start(),
    {
        self.start
    }

    /// The offset of the end of the span.
    #[verifier::when_used_as_spec(spec_end)]
    pub fn end(&self) -> (e: usize)
        ensures
            e == self.spec_end(),
    {
        self.end
    }

    /// The range from start to end.
    pub fn range(&self) -> (r: core::ops::Range<usize>)
        ensures
            r.start == self.spec_start(),
            r.end == self.spec_end(),
    {
        core::ops::Range { start: self.start, end: self.end }
    }

    /// The smallest span that covers both spans, in the source of `self`.
    pub fn union(self, other: Self) -> (u: Span)
        ensures
            u.spec_source() == self.spec_source(),
            u.spec_start() == if self.spec_start() <= other.spec_start() { self.spec_start() } else { other.spec_start() },
            u.spec_end() == if self.spec_end() >= other.spec_end() { self.spec_end() } else { other.spec_end() },
    {
        let start = if self.start <= other.start { self.start } else { other.start };
        let end = if self.end >= other.end { self.end } else { other.end };
        Span { source: self.source, start, end }
    }

    /// The length of the span.
    pub fn len(&self) -> (n: usize)
        requires
            self.spec_start() <= self.spec_end(),
        ensures
            n == self.spec_end() - self.spec_start(),
    {
        self.end - self.start
    }

    /// Whether the span has a length of zero. It may still point at a place.
    pub fn is_empty(&self) -> (b: bool)
        requires
            self.spec_start() <= self.spec_end(),
        ensures
            b == (self.spec_start() == self.spec_end()),
    {
        self.len() == 0
    }

    /// A deep copy of the span.
    pub fn copy(&self) -> (s: Span)
        ensures
            s == *self,
    {
        Span { source: self.source.copy(), start: self.start, end: self.end }
    }
}

/// The union of two spans covers each of them, whichever is taken first.
pub proof fn lemma_union_covers(a: Span, b: Span)
    ensures
        ({
            let ustart = if a.spec_start() <= b.spec_start() { a.spec_start() } else { b.spec_start() };
            let uend = if a.spec_end() >= b.spec_end() { a.spec_end() } else { b.spec_end() };
            &&& ustart <= a.spec_start() && ustart <= b.spec_start()
            &&& uend >= a.spec_end() && uend >= b.spec_end()
            &&& (ustart == a.spec_start() || ustart == b.spec_start())
            &&& (uend == a.spec_end() || uend == b.spec_end())
        }),
{
}

/// A value together with the span of code it came from.
#[derive(Clone, Debug, PartialEq, Eq, Hash, PartialOrd, Ord)]
pub struct Spanned<T> {
    pub inner: T,
    pub span: Span,
}

impl<T> Spanned<T> {
    /// Create a new [`Spanned`] with the given inner value and span.
    pub fn new(inner: T, span: Span) -> (s: Spanned<T>)
        ensures
            s.inner == inner,
            s.span == span,
    {
        Spanned { inner, span }
    }

    /// A reference to the inner value.
    pub fn inner(&self) -> (r: &T)
        ensures
            *r == self.inner,
    {
        &self.inner
    }

    /// A mutable reference to the inner value; the span stays as it is.
    pub fn inner_mut(&mut self) -> (r: &mut T)
        ensures
            *r == old(self).inner,
            final(self).inner == *final(r),
            final(self).span == old(self).span,
    {
        &mut self.inner
    }

    /// The inner value, dropping the span.
    pub fn into_inner(self) -> (r: T)
        ensures
            r == self.inner,
    {
        self.inner
    }

    /// The inner value and the span.
    pub fn take(self) -> (r: (T, Span))
        ensures
            r.0 == self.inner,
            r.1 == self.span,
    {
        (self.inner, self.span)
    }

    /// A copy of the span.
    pub fn span(&self) -> (s: Span)
        ensures
            s == self.span,
    {
        self.span.copy()
    }
}

} // verus!
