use vstd::prelude::*;

verus! {

/// A half-open byte range `[start, end)` of a document.
#[derive(Clone, Copy, Debug, PartialEq, Eq, Structural)]
pub struct Span {
    pub start: usize,
    pub end: usize,
}

impl Span {
    /// `inner` lies entirely within this span.
    pub open spec fn contains(self, inner: Span) -> bool {
        self.start <= inner.start && inner.end <= self.end
    }
}

} // verus!
