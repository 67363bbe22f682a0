use vstd::prelude::*;
use crate::alignment::{
    aligned,
    apply_lag_spec,
    best_lag,
    delayed,
    globally_align,
    lemma_alignment_is_shift_invariant,
};
use crate::alignment_laws::{lemma_identical_signals_align_in_place, lemma_peak_iff_both_sound};
use crate::audio_signal::{all_zero, AudioSignal};
use crate::comparison_patches_selector::{
    distance,
    lemma_identical_patch_matches_in_place,
    lemma_wider_search_is_no_worse,
    ComparisonPatchesSelector,
    PatchMatch,
};
use crate::constants::{
    DURATION_MISMATCH_TOLERANCE,
    PATCH_SIZE_AUDIO,
    PATCH_SIZE_SPEECH,
    SCORE_SCALE,
};
use crate::nsim::{total, NeurogramSimilarityIndexMeasure};
use crate::patch::{silent_grid, Patch, Spectrogram};
use crate::patch_creator::{
    is_active,
    lemma_patch_starts_fit,
    lemma_patches_where_activity,
    lemma_silence_has_no_patches,
    patch_is_cut,
    PatchCreator,
};
use crate::similarity_to_quality_mapper::{
    as_ints,
    mean_of,
    mean_similarity,
    SimilarityToQualityMapper,
};
use crate::variant::Variant;
use crate::visqol_error::VisqolError;

verus! {

/// The degraded signal brought to the reference's time, ready for analysis.
#[derive(Debug)]
pub struct AlignedSignals {
    /// The degraded signal after the lag was applied.
    pub degraded: AudioSignal,
    /// The delay of the degraded signal that was found, in samples.
    pub lag: i64,
    /// Whether the two signals differ in duration by more than the tolerance.
    pub duration_mismatch: bool,
}

/// The outcome of one comparison.
#[derive(Debug)]
pub struct SimilarityResult {
    /// The similarity of each reference patch to its best match, in order of time.
    pub per_patch_similarities: Vec<i64>,
    /// The mean of those similarities: what the quality mapper is fed.
    pub mean_similarity: i64,
    /// The lag that alignment applied to the degraded signal, in samples.
    pub alignment_lag: i64,
    /// The matches themselves, one for each reference patch.
    pub matches: Vec<PatchMatch>,
}

/// Configures and carries out comparisons of a degraded signal with its reference.
#[derive(Debug)]
pub struct VisqolManager<const NUM_BANDS: usize> {
    pub search_window: usize,
    pub patch_creator: PatchCreator,
    pub patch_selector: ComparisonPatchesSelector,
    pub sim_to_quality_mapper: SimilarityToQualityMapper,
}

/// The patch creator that a variant calls for.
pub open spec fn patch_creator_for(variant: Variant) -> PatchCreator {
    match variant {
        Variant::Wideband { .. } => PatchCreator::VoiceActivity { patch_size: PATCH_SIZE_AUDIO },
        Variant::Fullband { .. } => PatchCreator::UniformGrid { patch_size: PATCH_SIZE_SPEECH },
    }
}

/// The quality mapper that a variant calls for.
pub open spec fn quality_mapper_for(variant: Variant) -> SimilarityToQualityMapper {
    match variant {
        Variant::Wideband { use_unscaled_mos_mapping } => SimilarityToQualityMapper::Speech {
            scale_to_max_mos: !use_unscaled_mos_mapping,
        },
        Variant::Fullband { model_path } => SimilarityToQualityMapper::Regression { model_path },
    }
}

/// Whether two signals sampled at `sample_rate` differ in duration by more
/// than the tolerance.
pub open spec fn durations_mismatch(reference_len: int, degraded_len: int, sample_rate: int) -> bool {
    distance(reference_len, degraded_len) > DURATION_MISMATCH_TOLERANCE * sample_rate
}

/// What validation says of two signals: the error for differing sample
/// rates, else whether their durations differ by more than the tolerance.
pub open spec fn validation_of(reference: AudioSignal, degraded: AudioSignal) -> Result<
    bool,
    VisqolError,
> {
    if reference.sample_rate != degraded.sample_rate {
        Err(
            VisqolError::DifferentSampleRates {
                reference: reference.sample_rate,
                degraded: degraded.sample_rate,
            },
        )
    } else {
        Ok(
            durations_mismatch(
                reference.samples@.len() as int,
                degraded.samples@.len() as int,
                reference.sample_rate as int,
            ),
        )
    }
}

impl<const NUM_BANDS: usize> VisqolManager<NUM_BANDS> {
    /// The configured parts are usable.
    pub open spec fn wf(&self) -> bool {
        self.patch_creator.wf() && self.patch_selector.wf()
    }

    /// Number of frames that both spectrograms cover.
    pub open spec fn common_frames(reference: Seq<Seq<u16>>, degraded: Seq<Seq<u16>>) -> int {
        if reference.len() <= degraded.len() {
            reference.len() as int
        } else {
            degraded.len() as int
        }
    }

    /// Where the reference patches begin: those that the patch creator cuts
    /// from the frames that both spectrograms cover.
    pub open spec fn reference_starts(
        &self,
        reference: Seq<Seq<u16>>,
        degraded: Seq<Seq<u16>>,
    ) -> Seq<int> {
        self.patch_creator.patch_starts(reference.take(Self::common_frames(reference, degraded)))
    }

    /// The similarity of each reference patch to its best match in the
    /// degraded spectrogram, in order of time.
    pub open spec fn similarity_vector(
        &self,
        reference: Seq<Seq<u16>>,
        degraded: Seq<Seq<u16>>,
    ) -> Seq<int> {
        let starts = self.reference_starts(reference, degraded);
        Seq::new(
            starts.len(),
            |i: int|
                self.patch_selector.best_similarity(
                    reference.subrange(starts[i], starts[i] + self.patch_creator.width()),
                    degraded,
                    NUM_BANDS as int,
                    starts[i],
                    self.search_window as int,
                ),
        )
    }

    /// Whether `found` pairs the reference patch that begins at `start` with
    /// its best match in the degraded spectrogram, and `similarity` is
    /// their similarity.
    pub open spec fn is_match_at(
        &self,
        found: PatchMatch,
        similarity: i64,
        start: int,
        reference: Seq<Seq<u16>>,
        degraded: Seq<Seq<u16>>,
    ) -> bool {
        &&& found.similarity == similarity
        &&& found.reference.start == start
        &&& found.reference.bands == NUM_BANDS
        &&& found.reference@ == reference.subrange(start, start + self.patch_creator.width())
        &&& self.patch_selector.is_match(
            found,
            found.reference,
            degraded,
            self.search_window as int,
        )
    }

    /// Whether a comparison of the two spectrograms has a patch to compare.
    /// The voice-activity creator finds one where the frames that both
    /// spectrograms cover are enough for a patch and one of them is active;
    /// the uniform grid needs only enough frames.
    pub open spec fn has_patches(&self, reference: Seq<Seq<u16>>, degraded: Seq<Seq<u16>>) -> bool {
        let frames = Self::common_frames(reference, degraded);
        &&& frames >= self.patch_creator.width()
        &&& self.patch_creator is VoiceActivity ==> exists|t: int|
            0 <= t < frames && is_active(#[trigger] reference[t])
    }

    /// What a whole comparison of two signals comes to, where `analyse`
    /// stands for the analysis of a signal's samples into its spectrogram:
    /// validation, then alignment, then the comparison of the spectrograms
    /// of the reference and of the aligned degraded signal. A comparison
    /// that succeeds yields the similarity vector.
    pub open spec fn outcome(
        &self,
        reference: AudioSignal,
        degraded: AudioSignal,
        analyse: spec_fn(Seq<i32>) -> Seq<Seq<u16>>,
    ) -> Result<Seq<int>, VisqolError> {
        if reference.sample_rate != degraded.sample_rate {
            Err(
                VisqolError::DifferentSampleRates {
                    reference: reference.sample_rate,
                    degraded: degraded.sample_rate,
                },
            )
        } else {
            match aligned(reference.samples@, degraded.samples@) {
                None => Err(VisqolError::FailedToAlignSignals),
                Some(moved) => if self.has_patches(analyse(reference.samples@), analyse(moved)) {
                    Ok(self.similarity_vector(analyse(reference.samples@), analyse(moved)))
                } else {
                    Err(VisqolError::EmptyPatchSet)
                },
            }
        }
    }

    /// Creates a manager for one of the two supported configurations.
    pub fn new(variant: Variant, window_size: usize) -> (manager: Self)
        ensures
            manager.search_window == window_size,
            manager.patch_creator == patch_creator_for(variant),
            manager.sim_to_quality_mapper == quality_mapper_for(variant),
            manager.patch_selector.measure.luminance_stabiliser == 34_788_174,
            manager.patch_selector.measure.structure_stabiliser == 313_093_561,
            manager.wf(),
    {
        let patch_creator: PatchCreator;
        let sim_to_quality_mapper: SimilarityToQualityMapper;
        match variant {
            Variant::Wideband { use_unscaled_mos_mapping } => {
                patch_creator = PatchCreator::VoiceActivity { patch_size: PATCH_SIZE_AUDIO };
                sim_to_quality_mapper =
                SimilarityToQualityMapper::Speech { scale_to_max_mos: !use_unscaled_mos_mapping };
            },
            Variant::Fullband { model_path } => {
                patch_creator = PatchCreator::UniformGrid { patch_size: PATCH_SIZE_SPEECH };
                sim_to_quality_mapper = SimilarityToQualityMapper::Regression { model_path };
            },
        }
        let patch_selector = ComparisonPatchesSelector::new(NeurogramSimilarityIndexMeasure::new());
        VisqolManager {
            search_window: window_size,
            patch_creator,
            patch_selector,
            sim_to_quality_mapper,
        }
    }

    /// Checks that the two signals can be compared. Differing sample rates
    /// are an error; a difference in duration beyond the tolerance is
    /// reported as `Ok(true)`, for the caller to warn of.
    pub fn validate_input_audio(reference: &AudioSignal, degraded: &AudioSignal) -> (outcome: Result<
        bool,
        VisqolError,
    >)
        ensures
            outcome == validation_of(*reference, *degraded),
    {
        if reference.sample_rate != degraded.sample_rate {
            return Err(
                VisqolError::DifferentSampleRates {
                    reference: reference.sample_rate,
                    degraded: degraded.sample_rate,
                },
            );
        }
        let reference_len: u64 = reference.samples.len() as u64;
        let degraded_len: u64 = degraded.samples.len() as u64;
        let difference: u64 = if reference_len < degraded_len {
            degraded_len - reference_len
        } else {
            reference_len - degraded_len
        };
        Ok(difference > DURATION_MISMATCH_TOLERANCE * (reference.sample_rate as u64))
    }

    /// The first half of a comparison, on the signals themselves: validates
    /// them, then aligns the degraded signal to the reference. Validation
    /// comes first: signals of different sample rates are refused whatever
    /// alignment would have made of them.
    pub fn run(&self, reference: &AudioSignal, degraded: &AudioSignal) -> (result: Result<
        AlignedSignals,
        VisqolError,
    >)
        requires
            reference.wf(),
            degraded.wf(),
            reference.samples@.len() + degraded.samples@.len() <= isize::MAX,
        ensures
            reference.sample_rate != degraded.sample_rate ==> result == Err::<
                AlignedSignals,
                VisqolError,
            >(
                VisqolError::DifferentSampleRates {
                    reference: reference.sample_rate,
                    degraded: degraded.sample_rate,
                },
            ),
            reference.sample_rate == degraded.sample_rate && (all_zero(reference.samples@)
                || all_zero(degraded.samples@)) ==> result == Err::<AlignedSignals, VisqolError>(
                VisqolError::FailedToAlignSignals,
            ),
            reference.sample_rate == degraded.sample_rate && !all_zero(reference.samples@)
                && !all_zero(
                degraded.samples@,
            ) ==> (result matches Ok(found) && {
                &&& found.lag == best_lag(reference.samples@, degraded.samples@)
                &&& found.degraded.samples@ == apply_lag_spec(degraded.samples@, found.lag as int)
                &&& Some(found.degraded.samples@) == aligned(
                    reference.samples@,
                    degraded.samples@,
                )
                &&& found.degraded.sample_rate == degraded.sample_rate
                &&& found.degraded.wf()
                &&& found.duration_mismatch == durations_mismatch(
                    reference.samples@.len() as int,
                    degraded.samples@.len() as int,
                    reference.sample_rate as int,
                )
            }),
    {
        let duration_mismatch = match Self::validate_input_audio(reference, degraded) {
            Err(error) => {
                return Err(error);
            },
            Ok(mismatch) => mismatch,
        };
        match globally_align(reference, degraded) {
            None => Err(VisqolError::FailedToAlignSignals),
            Some((signal, lag)) => Ok(AlignedSignals { degraded: signal, lag, duration_mismatch }),
        }
    }

    /// The second half of a comparison, on the spectrograms of the
    /// reference and of the aligned degraded signal: cuts the reference
    /// patches, pairs each with its best match, and gathers the
    /// similarities. A reference without a patch is an error.
    pub fn compute_results(
        &self,
        reference: &Spectrogram,
        degraded: &Spectrogram,
        alignment_lag: i64,
    ) -> (result: Result<SimilarityResult, VisqolError>)
        requires
            self.wf(),
            reference.wf(),
            degraded.wf(),
            reference.bands == NUM_BANDS,
            degraded.bands == NUM_BANDS,
        ensures
            result is Ok <==> self.has_patches(reference@, degraded@),
            result is Err <==> self.reference_starts(reference@, degraded@).len() == 0,
            result matches Err(error) ==> error == VisqolError::EmptyPatchSet,
            result matches Ok(found) ==> {
                &&& as_ints(found.per_patch_similarities@) == self.similarity_vector(
                    reference@,
                    degraded@,
                )
                &&& found.mean_similarity == mean_of(
                    self.similarity_vector(reference@, degraded@),
                )
                &&& found.alignment_lag == alignment_lag
                &&& found.matches@.len() == found.per_patch_similarities@.len()
                &&& forall|i: int|
                    0 <= i < found.matches@.len() ==> #[trigger] self.is_match_at(
                        found.matches@[i],
                        found.per_patch_similarities@[i],
                        self.reference_starts(reference@, degraded@)[i],
                        reference@,
                        degraded@,
                    )
            },
    {
        let frames: usize = if reference.num_frames() <= degraded.num_frames() {
            reference.num_frames()
        } else {
            degraded.num_frames()
        };
        let ghost grid = reference@.take(frames as int);
        let ghost starts = self.reference_starts(reference@, degraded@);
        let ghost width = self.patch_creator.width();
        proof {
            lemma_patches_where_frames(*self, reference@, degraded@);
        }
        let patches: Vec<Patch> = self.patch_creator.create_patches_within(reference, frames);
        if patches.len() == 0 {
            return Err(VisqolError::EmptyPatchSet);
        }
        assert forall|i: int| 0 <= i < patches@.len() implies (#[trigger] patches@[i]).wf()
            && patches@[i].bands == degraded.bands && patches@[i]@.len() <= degraded@.len() by {
            assert(patch_is_cut(patches@[i], grid, reference.bands as int, starts[i], width));
        }
        let matches: Vec<PatchMatch> = self.patch_selector.find_matches(
            &patches,
            degraded,
            self.search_window,
        );
        let mut similarities: Vec<i64> = Vec::new();
        let mut i: usize = 0;
        while i < matches.len()
            invariant
                i <= matches@.len(),
                similarities@.len() == i,
                forall|j: int| 0 <= j < i ==> similarities@[j] == (#[trigger] matches@[j]).similarity,
            decreases matches@.len() - i,
        {
            similarities.push(matches[i].similarity);
            i += 1;
        }
        proof {
            let vector = self.similarity_vector(reference@, degraded@);
            assert forall|j: int| 0 <= j < vector.len() implies as_ints(similarities@)[j]
                == vector[j] by {
                assert(patch_is_cut(patches@[j], grid, reference.bands as int, starts[j], width));
                assert(self.patch_selector.is_match(
                    matches@[j],
                    patches@[j],
                    degraded@,
                    self.search_window as int,
                ));
                assert(grid.subrange(starts[j], starts[j] + width) =~= reference@.subrange(
                    starts[j],
                    starts[j] + width,
                ));
            }
            assert(as_ints(similarities@) =~= vector);
            assert forall|j: int| 0 <= j < matches@.len() implies #[trigger] self.is_match_at(
                matches@[j],
                similarities@[j],
                starts[j],
                reference@,
                degraded@,
            ) by {
                assert(patch_is_cut(patches@[j], grid, reference.bands as int, starts[j], width));
                assert(grid.subrange(starts[j], starts[j] + width) =~= reference@.subrange(
                    starts[j],
                    starts[j] + width,
                ));
                assert(self.patch_selector.is_match(
                    matches@[j],
                    patches@[j],
                    degraded@,
                    self.search_window as int,
                ));
            }
        }
        let mean = mean_similarity(&similarities);
        match mean {
            None => Err(VisqolError::EmptyPatchSet),
            Some(mean_similarity) => Ok(
                SimilarityResult {
                    per_patch_similarities: similarities,
                    mean_similarity,
                    alignment_lag,
                    matches,
                },
            ),
        }
    }
}


proof fn lemma_total_of_full_scores(scores: Seq<int>, n: nat)
    requires
        n <= scores.len(),
        forall|i: int| 0 <= i < scores.len() ==> scores[i] == SCORE_SCALE,
    ensures
        total(scores, n) == SCORE_SCALE * n,
    decreases n,
{
    if n > 0 {
        lemma_total_of_full_scores(scores, (n - 1) as nat);
    }
}

/// Identical spectrograms are maximally similar: every reference patch
/// finds its best match with the full score, and so the mean similarity is
/// the full score as well.
pub proof fn lemma_identical_spectrograms_score_full<const NUM_BANDS: usize>(
    manager: VisqolManager<NUM_BANDS>,
    spectrogram: Seq<Seq<u16>>,
)
    requires
        manager.wf(),
        NUM_BANDS > 0,
    ensures
        forall|i: int|
            0 <= i < manager.similarity_vector(spectrogram, spectrogram).len() ==> (
            #[trigger] manager.similarity_vector(spectrogram, spectrogram)[i]) == SCORE_SCALE,
        manager.similarity_vector(spectrogram, spectrogram).len() > 0 ==> mean_of(
            manager.similarity_vector(spectrogram, spectrogram),
        ) == SCORE_SCALE,
{
    let vector = manager.similarity_vector(spectrogram, spectrogram);
    let starts = manager.reference_starts(spectrogram, spectrogram);
    let width = manager.patch_creator.width();
    assert(spectrogram.take(spectrogram.len() as int) =~= spectrogram);
    lemma_patch_starts_fit(manager.patch_creator, spectrogram);
    assert forall|i: int| 0 <= i < vector.len() implies (#[trigger] vector[i]) == SCORE_SCALE by {
        assert(0 <= starts[i] <= spectrogram.len() - width);
        lemma_identical_patch_matches_in_place(
            manager.patch_selector,
            spectrogram.subrange(starts[i], starts[i] + width),
            spectrogram,
            NUM_BANDS as int,
            starts[i],
            manager.search_window as int,
        );
    }
    if vector.len() > 0 {
        lemma_total_of_full_scores(vector, vector.len());
        let n = vector.len() as int;
        assert(SCORE_SCALE * n >= 0 && (SCORE_SCALE * n) / n == SCORE_SCALE) by (nonlinear_arith)
            requires
                n > 0,
        ;
    }
}

/// A wider search window never lowers a similarity: two managers that
/// differ only in their search windows find the same reference patches, and
/// the one with the wider window finds each at least as similar to its
/// best match as the other does.
pub proof fn lemma_wider_window_never_lowers_similarity<const NUM_BANDS: usize>(
    narrow: VisqolManager<NUM_BANDS>,
    wide: VisqolManager<NUM_BANDS>,
    reference: Seq<Seq<u16>>,
    degraded: Seq<Seq<u16>>,
)
    requires
        narrow.wf(),
        narrow.patch_creator == wide.patch_creator,
        narrow.patch_selector == wide.patch_selector,
        narrow.search_window <= wide.search_window,
    ensures
        narrow.similarity_vector(reference, degraded).len() == wide.similarity_vector(
            reference,
            degraded,
        ).len(),
        forall|i: int|
            0 <= i < narrow.similarity_vector(reference, degraded).len() ==> (
            #[trigger] narrow.similarity_vector(reference, degraded)[i]) <= wide.similarity_vector(
                reference,
                degraded,
            )[i],
{
    let starts = narrow.reference_starts(reference, degraded);
    let width = narrow.patch_creator.width();
    let frames = VisqolManager::<NUM_BANDS>::common_frames(reference, degraded);
    lemma_patch_starts_fit(narrow.patch_creator, reference.take(frames));
    assert forall|i: int| 0 <= i < narrow.similarity_vector(reference, degraded).len() implies (
    #[trigger] narrow.similarity_vector(reference, degraded)[i]) <= wide.similarity_vector(
        reference,
        degraded,
    )[i] by {
        assert(0 <= starts[i] <= reference.take(frames).len() - width);
        lemma_wider_search_is_no_worse(
            narrow.patch_selector,
            reference.subrange(starts[i], starts[i] + width),
            degraded,
            NUM_BANDS as int,
            starts[i],
            narrow.search_window as int,
            wide.search_window as int,
        );
    }
}

/// A reference that is silent throughout offers the voice-activity patch
/// creator nothing to cut, so that `compute_results` returns the error for
/// an empty patch set.
pub proof fn lemma_silent_reference_has_no_patches<const NUM_BANDS: usize>(
    manager: VisqolManager<NUM_BANDS>,
    reference: Seq<Seq<u16>>,
    degraded: Seq<Seq<u16>>,
)
    requires
        manager.patch_creator is VoiceActivity,
        silent_grid(reference),
    ensures
        manager.reference_starts(reference, degraded).len() == 0,
{
    let frames = VisqolManager::<NUM_BANDS>::common_frames(reference, degraded);
    let grid = reference.take(frames);
    assert(silent_grid(grid)) by {
        assert forall|t: int, b: int| 0 <= t < grid.len() && 0 <= b < grid[t].len() implies (
        #[trigger] grid[t][b]) == 0 by {
            assert(reference[t][b] == 0);
        }
    }
    lemma_silence_has_no_patches(grid, manager.patch_creator.width());
}


/// A comparison has reference patches exactly where `has_patches` says so.
pub proof fn lemma_patches_where_frames<const NUM_BANDS: usize>(
    manager: VisqolManager<NUM_BANDS>,
    reference: Seq<Seq<u16>>,
    degraded: Seq<Seq<u16>>,
)
    requires
        manager.wf(),
    ensures
        manager.reference_starts(reference, degraded).len() > 0 <==> manager.has_patches(
            reference,
            degraded,
        ),
{
    let frames = VisqolManager::<NUM_BANDS>::common_frames(reference, degraded);
    let grid = reference.take(frames);
    let width = manager.patch_creator.width();
    if frames >= width {
        match manager.patch_creator {
            PatchCreator::VoiceActivity { .. } => {
                lemma_patches_where_activity(grid, width);
                if exists|t: int| 0 <= t < frames && is_active(#[trigger] reference[t]) {
                    let t = choose|t: int| 0 <= t < frames && is_active(#[trigger] reference[t]);
                    assert(grid[t] == reference[t]);
                }
                if exists|u: int| 0 <= u < grid.len() && is_active(#[trigger] grid[u]) {
                    let u = choose|u: int| 0 <= u < grid.len() && is_active(#[trigger] grid[u]);
                    assert(grid[u] == reference[u]);
                }
            },
            PatchCreator::UniformGrid { .. } => {
                assert(frames / width > 0) by (nonlinear_arith)
                    requires
                        frames >= width,
                        width > 0,
                ;
            },
        }
    }
}


/// A comparison is shift-invariant: a degraded signal that is delayed by
/// any number of samples of silence comes to the same outcome as the
/// degraded signal itself, whatever the analysis.
pub proof fn lemma_delay_leaves_outcome<const NUM_BANDS: usize>(
    manager: VisqolManager<NUM_BANDS>,
    reference: AudioSignal,
    degraded: AudioSignal,
    late: AudioSignal,
    delay: nat,
    analyse: spec_fn(Seq<i32>) -> Seq<Seq<u16>>,
)
    requires
        reference.wf(),
        degraded.wf(),
        late.sample_rate == degraded.sample_rate,
        late.samples@ == delayed(degraded.samples@, delay),
    ensures
        manager.outcome(reference, late, analyse) == manager.outcome(reference, degraded, analyse),
{
    lemma_alignment_is_shift_invariant(reference.samples@, degraded.samples@, delay);
}

/// A signal compared with itself either fails, where it is silent or
/// offers no patch, or has the full similarity in every patch, whatever the
/// analysis.
pub proof fn lemma_identical_signals_score_full<const NUM_BANDS: usize>(
    manager: VisqolManager<NUM_BANDS>,
    signal: AudioSignal,
    analyse: spec_fn(Seq<i32>) -> Seq<Seq<u16>>,
)
    requires
        manager.wf(),
        NUM_BANDS > 0,
    ensures
        manager.outcome(signal, signal, analyse) is Err <==> all_zero(signal.samples@)
            || !manager.has_patches(analyse(signal.samples@), analyse(signal.samples@)),
        manager.outcome(signal, signal, analyse) matches Ok(similarities) ==> forall|i: int|
            0 <= i < similarities.len() ==> (#[trigger] similarities[i]) == SCORE_SCALE,
{
    lemma_peak_iff_both_sound(signal.samples@, signal.samples@);
    if !all_zero(signal.samples@) {
        lemma_identical_signals_align_in_place(signal.samples@);
        lemma_identical_spectrograms_score_full(manager, analyse(signal.samples@));
    }
}

/// A reference that is silent throughout gets no score: the comparison
/// fails, at validation where the sample rates differ and at alignment
/// where they agree.
pub proof fn lemma_silent_reference_gets_no_score<const NUM_BANDS: usize>(
    manager: VisqolManager<NUM_BANDS>,
    reference: AudioSignal,
    degraded: AudioSignal,
    analyse: spec_fn(Seq<i32>) -> Seq<Seq<u16>>,
)
    requires
        all_zero(reference.samples@),
    ensures
        manager.outcome(reference, degraded, analyse) == (if reference.sample_rate
            != degraded.sample_rate {
            Err::<Seq<int>, VisqolError>(
                VisqolError::DifferentSampleRates {
                    reference: reference.sample_rate,
                    degraded: degraded.sample_rate,
                },
            )
        } else {
            Err::<Seq<int>, VisqolError>(VisqolError::FailedToAlignSignals)
        }),
{
    lemma_peak_iff_both_sound(reference.samples@, degraded.samples@);
}


/// Of two managers that differ only in their search windows, the one with
/// the wider window fails on the same signals as the other, and where both
/// succeed it finds every patch at least as similar, whatever the analysis.
pub proof fn lemma_wider_window_never_lowers_outcome<const NUM_BANDS: usize>(
    narrow: VisqolManager<NUM_BANDS>,
    wide: VisqolManager<NUM_BANDS>,
    reference: AudioSignal,
    degraded: AudioSignal,
    analyse: spec_fn(Seq<i32>) -> Seq<Seq<u16>>,
)
    requires
        narrow.wf(),
        narrow.patch_creator == wide.patch_creator,
        narrow.patch_selector == wide.patch_selector,
        narrow.search_window <= wide.search_window,
    ensures
        narrow.outcome(reference, degraded, analyse) matches Err(error) ==> wide.outcome(
            reference,
            degraded,
            analyse,
        ) == Err::<Seq<int>, VisqolError>(error),
        narrow.outcome(reference, degraded, analyse) matches Ok(low) ==> wide.outcome(
            reference,
            degraded,
            analyse,
        ) matches Ok(high) && low.len() == high.len() && forall|i: int|
            0 <= i < low.len() ==> (#[trigger] low[i]) <= high[i],
{
    if reference.sample_rate == degraded.sample_rate {
        match aligned(reference.samples@, degraded.samples@) {
            None => {},
            Some(moved) => {
                lemma_wider_window_never_lowers_similarity(
                    narrow,
                    wide,
                    analyse(reference.samples@),
                    analyse(moved),
                );
            },
        }
    }
}

} // verus!
