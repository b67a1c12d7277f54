//! What a bit-level predictor offers.

use vstd::prelude::*;

verus! {

/// A bit-level predictor.
pub trait BitModel {
    /// Whether the internal state is consistent.
    spec fn wf(&self) -> bool;

    /// The predicted probability of bit 1, in `[1, 4095]`.
    fn predict(&self) -> (p: u16)
        requires
            self.wf(),
        ensures
            1 <= p <= 4095,
    ;

    /// Adapts to the observed `bit`.
    fn update(&mut self, bit: bool)
        requires
            old(self).wf(),
        ensures
            final(self).wf(),
    ;

    /// Forgets what was seen.
    fn reset(&mut self)
        requires
            old(self).wf(),
        ensures
            final(self).wf(),
    ;
}

} // verus!
