use vstd::prelude::*;

verus! {

/// The two supported configurations of a comparison.
#[derive(Debug, PartialEq, Eq)]
pub enum Variant {
    /// Speech material: voice-activity patches and the closed-form speech mapping.
    Wideband { use_unscaled_mos_mapping: bool },
    /// Full-band material: uniform-grid patches and a trained regression model.
    Fullband { model_path: String },
}

} // verus!
