//! Sharing one recording session between every visualizer on a microphone.

use vstd::prelude::*;

verus! {

/// What one activation request does to a capture that is `active` or not:
/// whether a recorder is started, and whether the capture is active after.
pub open spec fn activation_step(active: bool) -> (bool, bool) {
    (!active, true)
}

/// The start-once latch behind a shared microphone capture.
///
/// Every visualizer drawing from a capture asks it to activate; only the
/// first request starts a recorder, so several visualizers on one microphone
/// cost one recording session.
#[derive(Clone, Copy, Debug)]
pub struct CaptureActivation {
    active: bool,
}

impl CaptureActivation {
    /// Whether a recorder has been started for this capture.
    pub closed spec fn spec_active(self) -> bool {
        self.active
    }

    /// A capture whose recorder has not been started yet.
    pub fn new() -> (latch: Self)
        ensures
            !latch.spec_active(),
    {
        CaptureActivation { active: false }
    }

    /// Whether a recorder has been started for this capture.
    pub fn is_active(&self) -> (active: bool)
        ensures
            active == self.spec_active(),
    {
        self.active
    }

    /// Records an activation request, returning whether it must start the
    /// recorder: only the first request does.
    pub fn activate(&mut self) -> (start: bool)
        ensures
            (start, final(self).spec_active()) == activation_step(old(self).spec_active()),
            start == !old(self).spec_active(),
            final(self).spec_active(),
    {
        let start = !self.active;
        self.active = true;
        start
    }
}

/// The first activation of a capture starts its recorder; an activation of an
/// active capture starts none; either way the capture is active after it.
pub proof fn lemma_activation_starts_when_idle(active: bool)
    ensures
        activation_step(false).0,
        activation_step(true).0 == false,
        activation_step(active).1,
{
}

/// Once any activation has been made, no later one starts another recorder.
pub proof fn lemma_activation_starts_once(active: bool)
    ensures
        activation_step(activation_step(active).1).0 == false,
        activation_step(activation_step(active).1).1,
{
}

} // verus!
