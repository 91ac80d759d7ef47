//! Proper fractions, to be shown as percentages.

use vstd::prelude::*;

verus! {

/// A part of a whole.
#[derive(Clone, Copy, Debug, PartialEq, Eq, Structural)]
pub struct Share {
    /// The part.
    pub part: u64,
    /// The whole.
    pub whole: u64,
}

impl Share {
    /// A fraction between zero and one: the whole is not zero, and the part not greater.
    pub open spec fn wf(self) -> bool {
        0 < self.whole && self.part <= self.whole
    }
}

} // verus!
