//! Pausing and resuming dispatch by queue depth.

use vstd::prelude::*;

use crate::shared::BackpressureSignal;

verus! {

/// Watches the depth of the pending queue and says when to pause and when to resume.
///
/// A hysteresis band between `threshold / 2` and `threshold` prevents rapid oscillation:
/// - `SlowDown` only when the depth exceeds `threshold` and dispatch is not yet paused;
/// - `Resume` only when the depth is below `threshold / 2` and dispatch is paused.
#[derive(Debug)]
pub struct BackpressureController {
    pub(crate) threshold: usize,
    pub(crate) paused: bool,
}

/// The signal that `depth` calls for.
pub open spec fn signal_for(threshold: usize, paused: bool, depth: usize) -> Option<
    BackpressureSignal,
> {
    if depth > threshold && !paused {
        Some(BackpressureSignal::SlowDown)
    } else if depth < threshold / 2 && paused {
        Some(BackpressureSignal::Resume)
    } else {
        None
    }
}

/// Whether dispatch is paused after `signal`.
pub open spec fn paused_after(paused: bool, signal: Option<BackpressureSignal>) -> bool {
    match signal {
        Some(BackpressureSignal::SlowDown) => true,
        Some(BackpressureSignal::Resume) => false,
        None => paused,
    }
}

impl BackpressureController {
    pub open(crate) spec fn spec_threshold(&self) -> usize {
        self.threshold
    }

    pub open(crate) spec fn pausing(&self) -> bool {
        self.paused
    }

    /// Create a controller with `threshold`.
    pub fn new(threshold: usize) -> (r: Self)
        requires
            threshold >= 2,
        ensures
            r.spec_threshold() == threshold,
            !r.pausing(),
    {
        BackpressureController { threshold, paused: false }
    }

    /// Evaluate `depth` against the threshold and return the signal of a state transition
    /// if one is needed.
    ///
    /// Idempotent within a state: checking the same depth twice gives `SlowDown` only once.
    pub fn check(&mut self, depth: usize) -> (r: Option<BackpressureSignal>)
        ensures
            r == signal_for(old(self).spec_threshold(), old(self).pausing(), depth),
            final(self).spec_threshold() == old(self).spec_threshold(),
            final(self).pausing() == paused_after(old(self).pausing(), r),
    {
        if depth > self.threshold && !self.paused {
            self.paused = true;
            Some(BackpressureSignal::SlowDown)
        } else if depth < self.threshold / 2 && self.paused {
            self.paused = false;
            Some(BackpressureSignal::Resume)
        } else {
            None
        }
    }

    /// Apply an incoming signal (received from the executor) to the paused state.
    pub fn update(&mut self, signal: BackpressureSignal)
        ensures
            final(self).spec_threshold() == old(self).spec_threshold(),
            final(self).pausing() == paused_after(old(self).pausing(), Some(signal)),
    {
        match signal {
            BackpressureSignal::SlowDown => {
                self.paused = true;
            },
            BackpressureSignal::Resume => {
                self.paused = false;
            },
        }
    }

    /// Returns `true` when dispatch is currently paused.
    pub fn is_paused(&self) -> (r: bool)
        ensures
            r == self.pausing(),
    {
        self.paused
    }
}

/// Checking one depth twice gives a signal at most once, and a depth inside the band between
/// half the threshold and the threshold gives none at all.
pub proof fn law_check_is_idempotent(threshold: usize, paused: bool, depth: usize)
    ensures
        signal_for(
            threshold,
            paused_after(paused, signal_for(threshold, paused, depth)),
            depth,
        ) is None,
        threshold / 2 <= depth <= threshold ==> signal_for(threshold, paused, depth) is None,
{
}

/// Signals alternate: whatever depths are checked, a pause is followed by a resumption
/// before the next pause, and the other way round.
pub proof fn law_signals_alternate(threshold: usize, paused: bool, depth: usize)
    ensures
        signal_for(threshold, paused, depth) == Some(BackpressureSignal::SlowDown) ==> !paused
            && paused_after(paused, Some(BackpressureSignal::SlowDown)),
        signal_for(threshold, paused, depth) == Some(BackpressureSignal::Resume) ==> paused
            && !paused_after(paused, Some(BackpressureSignal::Resume)),
{
}

/// A signal comes whenever it is due, and only then: `SlowDown` at any depth above the threshold
/// unless dispatch is paused, `Resume` at any depth below half the threshold if it is. Dispatch is
/// paused after the one and not after the other, and without a signal it stays as it is.
pub proof fn law_signal_comes_when_due(threshold: usize, paused: bool, depth: usize)
    ensures
        ({
            let signal = signal_for(threshold, paused, depth);
            let after = paused_after(paused, signal);
            &&& !paused && depth > threshold ==> signal == Some(BackpressureSignal::SlowDown)
                && after
            &&& paused && depth < threshold / 2 ==> signal == Some(BackpressureSignal::Resume)
                && !after
            &&& !paused && depth <= threshold ==> signal is None && !after
            &&& paused && depth >= threshold / 2 ==> signal is None && after
            &&& paused_after(paused, Some(BackpressureSignal::SlowDown))
            &&& !paused_after(paused, Some(BackpressureSignal::Resume))
        }),
{
}

/// Whether dispatch is paused once each of `depths` has been checked.
pub open spec fn paused_by(threshold: usize, paused: bool, depths: Seq<usize>) -> bool
    decreases depths.len(),
{
    if depths.len() == 0 {
        paused
    } else {
        let before = paused_by(threshold, paused, depths.drop_last());
        paused_after(before, signal_for(threshold, before, depths.last()))
    }
}

/// Whether the depth at position `i` exceeds the threshold and none since is below half of it.
pub open spec fn deep_since(threshold: usize, depths: Seq<usize>, i: int) -> bool {
    &&& 0 <= i < depths.len()
    &&& depths[i] > threshold
    &&& forall|j: int| i < j < depths.len() ==> #[trigger] depths[j] >= threshold / 2
}

/// However the depth moves, a controller that starts unpaused is paused exactly if the depth has
/// exceeded the threshold and has not been below half of it since.
pub proof fn law_paused_from_above_until_below(threshold: usize, depths: Seq<usize>)
    ensures
        paused_by(threshold, false, depths) <==> exists|i: int| #[trigger]
            deep_since(threshold, depths, i),
    decreases depths.len(),
{
    if depths.len() > 0 {
        let front = depths.drop_last();
        let end = depths.len() - 1;
        law_paused_from_above_until_below(threshold, front);
        if exists|i: int| #[trigger] deep_since(threshold, front, i) {
            let i = choose|i: int| #[trigger] deep_since(threshold, front, i);
            if depths[end] >= threshold / 2 {
                assert forall|j: int| i < j < depths.len() implies #[trigger] depths[j]
                    >= threshold / 2 by {
                    if j < end {
                        assert(front[j] == depths[j]);
                    }
                }
                assert(deep_since(threshold, depths, i));
            }
        }
        if depths[end] > threshold {
            assert(deep_since(threshold, depths, end));
        }
        if exists|i: int| #[trigger] deep_since(threshold, depths, i) {
            let i = choose|i: int| #[trigger] deep_since(threshold, depths, i);
            if i < end {
                assert(depths[end] >= threshold / 2);
                assert forall|j: int| i < j < front.len() implies #[trigger] front[j] >= threshold
                    / 2 by {
                    assert(front[j] == depths[j]);
                }
                assert(deep_since(threshold, front, i));
            }
        }
    }
}

} // verus!
