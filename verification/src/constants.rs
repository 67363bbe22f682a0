use vstd::prelude::*;

verus! {

/// Number of analysis frames in a patch cut by the voice-activity patch creator.
pub const PATCH_SIZE_AUDIO: usize = 30;

/// Number of analysis frames in a patch cut by the uniform-grid patch creator.
pub const PATCH_SIZE_SPEECH: usize = 20;

/// Number of frequency bands of a speech spectrogram.
pub const NUM_BANDS_SPEECH: usize = 21;

/// Number of frequency bands of a full-band audio spectrogram.
pub const NUM_BANDS_AUDIO: usize = 32;

/// Largest difference in duration, in whole seconds, that passes without a warning.
pub const DURATION_MISMATCH_TOLERANCE: u64 = 1;

/// Largest level a spectrogram can hold.
pub const MAX_LEVEL: u64 = 0xffff;

/// Largest number of frames in a patch, and of bands in a patch or spectrogram.
pub const MAX_PATCH_DIMENSION: usize = 0xffff;

/// A frame is active when its mean level exceeds this many hundredths of the
/// largest level.
pub const VOICE_ACTIVITY_PERCENT: u64 = 1;

/// Fixed-point unit of similarity scores: the score 1.0 is stored as `SCORE_SCALE`.
pub const SCORE_SCALE: i64 = 1_000_000;

} // verus!
