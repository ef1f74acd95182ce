//! The alpha channel of a colour, the simplest attribute that takes an
//! effective opacity.

use crate::sink::OpacityAsset;
use crate::sink::OpacityQuery;
use vstd::prelude::*;

verus! {

/// The alpha channel of a colour, in the units of an opacity. The other
/// channels are none of this library's business.
#[derive(Debug, Clone, Copy, PartialEq, Eq)]
pub struct Alpha(pub i64);

impl Alpha {
    /// Sets the channel.
    pub fn set_alpha(&mut self, alpha: i64)
        ensures
            *final(self) == Alpha(alpha),
    {
        self.0 = alpha;
    }
}

impl OpacityAsset for Alpha {
    open spec fn with_opacity(self, opacity: i64) -> Alpha {
        Alpha(opacity)
    }

    proof fn lemma_taken_twice(self, opacity: i64) {
    }

    proof fn lemma_taken_over(self, opacity: i64, between: i64) {
    }

    fn apply_opacity(&mut self, opacity: i64) {
        self.set_alpha(opacity)
    }
}

impl OpacityQuery for Alpha {
    type Cx = ();

    type CxModel = ();

    open spec fn model(cx: ()) -> () {
        ()
    }

    open spec fn applied(self, cx: (), opacity: i64) -> (Alpha, ()) {
        (Alpha(opacity), ())
    }

    proof fn lemma_applied_twice(self, cx: (), opacity: i64) {
    }

    proof fn lemma_attribute_ignores_context(self, cx: (), other: (), opacity: i64) {
    }

    proof fn lemma_context_taken_again(self, before: (), cx: (), opacity: i64) {
    }

    proof fn lemma_context_overwritten(self, opacity: i64, other: Alpha, between: i64, cx: ()) {
    }

    fn apply_opacity(this: &mut Alpha, cx: &mut (), opacity: i64) {
        this.set_alpha(opacity);
    }
}

} // verus!
