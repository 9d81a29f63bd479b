//! Half-open offset ranges over document text units.

use vstd::prelude::*;

verus! {

/// A half-open integer range `[start, end)` over document offsets.
#[derive(Clone, Copy, Debug, PartialEq, Eq, Structural)]
pub struct Interval {
    pub start: usize,
    pub end: usize,
}

impl Interval {
    /// `end` must not precede `start`.
    pub open spec fn wf(self) -> bool {
        self.start <= self.end
    }

    pub open spec fn spec_len(self) -> int {
        self.end - self.start
    }

    pub fn new(start: usize, end: usize) -> (r: Interval)
        requires
            start <= end,
        ensures
            r.start == start,
            r.end == end,
            r.wf(),
    {
        Interval { start, end }
    }

    pub fn len(&self) -> (r: usize)
        requires
            self.wf(),
        ensures
            r == self.spec_len(),
    {
        self.end - self.start
    }
}

} // verus!
