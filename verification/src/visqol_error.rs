use vstd::prelude::*;

verus! {

/// Why a comparison produced no score.
#[derive(Debug, Clone, Copy, PartialEq, Eq, Structural)]
pub enum VisqolError {
    /// The two signals were sampled at different rates.
    DifferentSampleRates { reference: u32, degraded: u32 },
    /// The cross-correlation of the two signals has no peak.
    FailedToAlignSignals,
    /// The reference offers no patch to compare.
    EmptyPatchSet,
}

} // verus!
