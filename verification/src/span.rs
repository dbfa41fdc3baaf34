use vstd::prelude::*;

verus! {

/// A half-open byte range `start..end` into a source text.
#[derive(Clone, Copy, Debug, Eq, Hash)]
pub struct Span {
    start: usize,
    end: usize,
}

impl Span {
    /// The span with the given bounds, as a mathematical value.
    pub closed spec fn spec_new(start: usize, end: usize) -> Span {
        Span { start, end }
    }

    pub closed spec fn spec_start(self) -> usize {
        self.start
    }

    pub closed spec fn spec_end(self) -> usize {
        self.end
    }

    /// A span is determined by its bounds.
    pub broadcast proof fn lemma_span_bounds(start: usize, end: usize)
        ensures
            #[trigger] Span::spec_new(start, end).spec_start() == start,
            Span::spec_new(start, end).spec_end() == end,
    {
    }

    /// Two spans with the same bounds are equal.
    pub broadcast proof fn lemma_span_ext(a: Span, b: Span)
        requires
            a.spec_start() == b.spec_start(),
            a.spec_end() == b.spec_end(),
        ensures
            #[trigger] a.spec_start() == #[trigger] b.spec_start() ==> a == b,
    {
    }

    /// Creates the span `start..end`.
    pub fn new(start: usize, end: usize) -> (r: Span)
        requires
            start <= end,
        ensures
            r == Span::spec_new(start, end),
    {
        Span { start, end }
    }

    /// The span that begins where `left` begins and ends where `right` ends.
    pub fn across<L: Spanned + ?Sized, R: Spanned + ?Sized>(left: &L, right: &R) -> (r: Span)
        ensures
            r == Span::spec_new(left.spec_span_start(), right.spec_span_end()),
    {
        Span { start: left.span_start(), end: right.span_end() }
    }

    /// The empty span at offset zero, used for synthesized syntax.
    pub fn null() -> (r: Span)
        ensures
            r == Span::spec_new(0, 0),
    {
        Span { start: 0, end: 0 }
    }

    pub fn start(&self) -> (r: usize)
        ensures
            r == self.spec_start(),
    {
        self.start
    }

    pub fn end(&self) -> (r: usize)
        ensures
            r == self.spec_end(),
    {
        self.end
    }

    /// The bytes of `source` that this span covers.
    pub fn get<'t>(&self, source: &'t [u8]) -> (r: &'t [u8])
        requires
            self.spec_start() <= self.spec_end() <= source@.len(),
        ensures
            r@ == source@.subrange(self.spec_start() as int, self.spec_end() as int),
    {
        &source[self.start..self.end]
    }
}

impl PartialEq for Span {
    fn eq(&self, other: &Span) -> (r: bool) {
        self.start == other.start && self.end == other.end
    }
}

impl vstd::std_specs::cmp::PartialEqSpecImpl for Span {
    open spec fn obeys_eq_spec() -> bool {
        true
    }

    open spec fn eq_spec(&self, other: &Span) -> bool {
        self.spec_start() == other.spec_start() && self.spec_end() == other.spec_end()
    }
}

/// Something that covers a range of the source text.
pub trait Spanned {
    spec fn spec_span_start(&self) -> usize;

    spec fn spec_span_end(&self) -> usize;

    fn span_start(&self) -> (r: usize)
        ensures
            r == self.spec_span_start(),
    ;

    fn span_end(&self) -> (r: usize)
        ensures
            r == self.spec_span_end(),
    ;

    fn span(&self) -> (r: Span)
        ensures
            r == Span::spec_new(self.spec_span_start(), self.spec_span_end()),
    {
        Span { start: self.span_start(), end: self.span_end() }
    }
}

impl Spanned for Span {
    open spec fn spec_span_start(&self) -> usize {
        self.spec_start()
    }

    open spec fn spec_span_end(&self) -> usize {
        self.spec_end()
    }

    fn span_start(&self) -> (r: usize) {
        self.start()
    }

    fn span_end(&self) -> (r: usize) {
        self.end()
    }
}

} // verus!
