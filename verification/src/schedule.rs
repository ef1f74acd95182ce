//! The stages of a frame and their order.

use vstd::prelude::*;

verus! {

/// The stages in which the host runs this library's steps within a frame,
/// after it has propagated transforms and before it computes visibility.
#[derive(Debug, Clone, Copy, PartialEq, Eq, PartialOrd, Ord, Hash)]
pub enum OpacitySet {
    /// Every opacity is advanced by the frame's time.
    Fading,
    /// The host applies what the step before asked for, removals among it.
    PostFade,
    /// The table of effective opacities is rebuilt.
    Calculate,
    /// The table's values are handed to the attributes, each kind in any
    /// order with respect to the others.
    Apply,
}

impl OpacitySet {
    /// The place of the stage in a frame, from zero.
    pub open spec fn rank(self) -> int {
        match self {
            OpacitySet::Fading => 0,
            OpacitySet::PostFade => 1,
            OpacitySet::Calculate => 2,
            OpacitySet::Apply => 3,
        }
    }

    /// The place of the stage in a frame, from zero.
    pub fn place(self) -> (r: u8)
        ensures
            r == self.rank(),
    {
        match self {
            OpacitySet::Fading => 0,
            OpacitySet::PostFade => 1,
            OpacitySet::Calculate => 2,
            OpacitySet::Apply => 3,
        }
    }

    /// Whether this stage has to be over before `other` begins.
    pub fn runs_before(self, other: OpacitySet) -> (r: bool)
        ensures
            r == (self.rank() < other.rank()),
    {
        self.place() < other.place()
    }

    /// The stages in the order in which a frame runs them.
    pub fn in_order() -> (r: [OpacitySet; 4])
        ensures
            forall|i: int| 0 <= i < 4 ==> (#[trigger] r@[i]).rank() == i,
    {
        [OpacitySet::Fading, OpacitySet::PostFade, OpacitySet::Calculate, OpacitySet::Apply]
    }
}

} // verus!
