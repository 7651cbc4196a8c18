//! The classification of one analyzed machine.

use vstd::prelude::*;

verus! {

/// The outcome of analyzing a machine.
#[derive(Clone, Copy, Debug, PartialEq, Eq, Structural)]
pub enum Outcome {
    // ----- Outcomes from actually running the machine ----------------------
    /// The machine ran and halted.
    Halted { steps: u32, ones: u32 },
    /// The machine ran but was aborted after the maximum number of steps.
    AbortedAfterMaxSteps,
    // ----- Outcomes from static analysis -----------------------------------
    /// The start action goes to the halt state: the machine stops after one
    /// step, possibly writing a single one.
    ImmediateHalt { wrote_one: bool },
    /// The machine has no transition to the halt state at all.
    NoHaltState,
    /// The start action has state 0 as its next state, so the machine runs off
    /// in one direction forever.
    SimpleElope,
    /// The halt state cannot be reached from the start state in the state
    /// graph.
    HaltStateNotReachable,
    /// While running, the machine entered a loop that only visits new cells,
    /// so it never terminates.
    RunAwayDetected,
}

impl Outcome {
    /// Whether this is `AbortedAfterMaxSteps`.
    pub fn was_aborted(&self) -> (r: bool)
        ensures
            r == (*self is AbortedAfterMaxSteps),
    {
        match self {
            Outcome::AbortedAfterMaxSteps => true,
            _ => false,
        }
    }
}

} // verus!
