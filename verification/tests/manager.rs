use visqol::audio_signal::AudioSignal;
use visqol::comparison_patches_selector::ComparisonPatchesSelector;
use visqol::constants::{NUM_BANDS_AUDIO, NUM_BANDS_SPEECH, PATCH_SIZE_AUDIO, PATCH_SIZE_SPEECH};
use visqol::nsim::NeurogramSimilarityIndexMeasure;
use visqol::patch::Spectrogram;
use visqol::patch_creator::PatchCreator;
use visqol::similarity_to_quality_mapper::{mean_similarity, SimilarityToQualityMapper};
use visqol::variant::Variant;
use visqol::visqol_error::VisqolError;
use visqol::visqol_manager::VisqolManager;

fn wideband(window: usize) -> VisqolManager<21> {
    VisqolManager::new(Variant::Wideband { use_unscaled_mos_mapping: false }, window)
}

fn small(creator: PatchCreator, window: usize) -> VisqolManager<2> {
    VisqolManager {
        search_window: window,
        patch_creator: creator,
        patch_selector: ComparisonPatchesSelector::new(NeurogramSimilarityIndexMeasure::new()),
        sim_to_quality_mapper: SimilarityToQualityMapper::Speech { scale_to_max_mos: true },
    }
}

fn signal(samples: Vec<i32>, sample_rate: u32) -> AudioSignal {
    AudioSignal::new(samples, sample_rate).unwrap()
}

fn reference_frames() -> Vec<Vec<u16>> {
    vec![
        vec![1200, 1800],
        vec![3100, 900],
        vec![400, 4100],
        vec![6100, 6900],
        vec![7900, 400],
        vec![300, 200],
        vec![4100, 3900],
        vec![200, 8800],
    ]
}

fn degraded_frames() -> Vec<Vec<u16>> {
    vec![
        vec![1000, 2000],
        vec![3000, 1000],
        vec![500, 4000],
        vec![6000, 7000],
        vec![8000, 300],
        vec![200, 100],
        vec![4000, 4000],
        vec![100, 9000],
    ]
}

fn speech_spectrogram(frames: usize, first_active: usize, end_active: usize) -> Spectrogram {
    let rows = (0..frames)
        .map(|t| {
            if first_active <= t && t < end_active {
                (0..NUM_BANDS_SPEECH).map(|b| (1000 + 37 * t + 11 * b) as u16).collect()
            } else {
                vec![0u16; NUM_BANDS_SPEECH]
            }
        })
        .collect();
    Spectrogram::new(rows, NUM_BANDS_SPEECH).unwrap()
}

#[test]
fn band_counts_of_the_two_variants() {
    assert_eq!(NUM_BANDS_SPEECH, 21);
    assert_eq!(NUM_BANDS_AUDIO, 32);
    assert_eq!(PATCH_SIZE_AUDIO, 30);
    assert_eq!(PATCH_SIZE_SPEECH, 20);
}

#[test]
fn wideband_uses_voice_activity_and_the_speech_mapping() {
    let manager = wideband(60);
    assert_eq!(manager.search_window, 60);
    assert_eq!(manager.patch_creator, PatchCreator::VoiceActivity { patch_size: PATCH_SIZE_AUDIO });
    assert_eq!(
        manager.sim_to_quality_mapper,
        SimilarityToQualityMapper::Speech { scale_to_max_mos: true }
    );
    let unscaled: VisqolManager<21> =
        VisqolManager::new(Variant::Wideband { use_unscaled_mos_mapping: true }, 0);
    assert_eq!(
        unscaled.sim_to_quality_mapper,
        SimilarityToQualityMapper::Speech { scale_to_max_mos: false }
    );
    assert_eq!(unscaled.patch_selector.measure.luminance_stabiliser, 34_788_174);
    assert_eq!(unscaled.patch_selector.measure.structure_stabiliser, 313_093_561);
}

#[test]
fn fullband_uses_the_uniform_grid_and_a_regression_model() {
    let manager: VisqolManager<32> =
        VisqolManager::new(Variant::Fullband { model_path: String::from("model/libsvm.txt") }, 7);
    assert_eq!(manager.search_window, 7);
    assert_eq!(manager.patch_creator, PatchCreator::UniformGrid { patch_size: PATCH_SIZE_SPEECH });
    assert_eq!(
        manager.sim_to_quality_mapper,
        SimilarityToQualityMapper::Regression { model_path: String::from("model/libsvm.txt") }
    );
}

#[test]
fn different_sample_rates_fail_validation() {
    let reference = signal(vec![1, 2, 3], 16000);
    let degraded = signal(vec![1, 2, 3], 8000);
    let expected = VisqolError::DifferentSampleRates { reference: 16000, degraded: 8000 };
    assert_eq!(
        VisqolManager::<21>::validate_input_audio(&reference, &degraded),
        Err(expected)
    );
    assert_eq!(wideband(60).run(&reference, &degraded).unwrap_err(), expected);
}

#[test]
fn sample_rates_are_checked_before_alignment() {
    let silent = signal(vec![0, 0, 0], 16000);
    let other = signal(vec![0, 0], 48000);
    assert_eq!(
        wideband(0).run(&silent, &other).unwrap_err(),
        VisqolError::DifferentSampleRates { reference: 16000, degraded: 48000 }
    );
}

#[test]
fn duration_mismatch_is_a_warning_only() {
    let reference = signal(vec![1; 100], 10);
    let close = signal(vec![1; 110], 10);
    let far = signal(vec![1; 111], 10);
    let shorter = signal(vec![1; 89], 10);
    assert_eq!(VisqolManager::<2>::validate_input_audio(&reference, &reference), Ok(false));
    assert_eq!(VisqolManager::<2>::validate_input_audio(&reference, &close), Ok(false));
    assert_eq!(VisqolManager::<2>::validate_input_audio(&reference, &far), Ok(true));
    assert_eq!(VisqolManager::<2>::validate_input_audio(&reference, &shorter), Ok(true));
    assert_eq!(VisqolManager::<2>::validate_input_audio(&shorter, &reference), Ok(true));
    let aligned = wideband(0).run(&reference, &far).unwrap();
    assert!(aligned.duration_mismatch);
}

#[test]
fn run_aligns_the_degraded_signal() {
    let reference = signal(vec![3, -1, 4, -1, 5, -9], 16000);
    let degraded = signal(vec![0, 0, 0, 3, -1, 4, -1, 5, -9], 16000);
    let aligned = wideband(60).run(&reference, &degraded).unwrap();
    assert_eq!(aligned.lag, 3);
    assert_eq!(aligned.degraded.samples, vec![3, -1, 4, -1, 5, -9]);
    assert_eq!(aligned.degraded.sample_rate, 16000);
    assert!(!aligned.duration_mismatch);
}

#[test]
fn silent_signal_fails_alignment() {
    let speech = signal(vec![3, -1, 4], 16000);
    let silent = signal(vec![0, 0, 0, 0], 16000);
    assert_eq!(wideband(60).run(&speech, &silent).unwrap_err(), VisqolError::FailedToAlignSignals);
    assert_eq!(wideband(60).run(&silent, &speech).unwrap_err(), VisqolError::FailedToAlignSignals);
    assert_eq!(wideband(60).run(&silent, &silent).unwrap_err(), VisqolError::FailedToAlignSignals);
}

#[test]
fn identical_spectrograms_have_full_similarity() {
    let spectrogram = speech_spectrogram(100, 0, 100);
    for window in [0, 5, 60] {
        let result = wideband(window).compute_results(&spectrogram, &spectrogram, 0).unwrap();
        assert_eq!(result.per_patch_similarities, vec![1_000_000]);
        assert_eq!(result.mean_similarity, 1_000_000);
        assert_eq!(result.matches[0].reference.start, 35);
        assert_eq!(result.matches[0].degraded.start, 35);
    }
    let grid = small(PatchCreator::UniformGrid { patch_size: 2 }, 3);
    let pictures = Spectrogram::new(reference_frames(), 2).unwrap();
    let result = grid.compute_results(&pictures, &pictures, -4).unwrap();
    assert_eq!(result.per_patch_similarities, vec![1_000_000; 4]);
    assert_eq!(result.mean_similarity, 1_000_000);
    assert_eq!(result.alignment_lag, -4);
}

#[test]
fn silent_reference_gives_the_empty_patch_set_error() {
    let silent = speech_spectrogram(100, 0, 0);
    let speech = speech_spectrogram(100, 10, 90);
    assert_eq!(
        wideband(60).compute_results(&silent, &speech, 0).unwrap_err(),
        VisqolError::EmptyPatchSet
    );
    assert_eq!(
        wideband(60).compute_results(&silent, &silent, 0).unwrap_err(),
        VisqolError::EmptyPatchSet
    );
}

#[test]
fn reference_shorter_than_a_patch_gives_the_empty_patch_set_error() {
    let short = speech_spectrogram(29, 0, 29);
    let long = speech_spectrogram(100, 0, 100);
    assert_eq!(
        wideband(0).compute_results(&short, &long, 0).unwrap_err(),
        VisqolError::EmptyPatchSet
    );
    assert_eq!(
        wideband(0).compute_results(&long, &short, 0).unwrap_err(),
        VisqolError::EmptyPatchSet
    );
    let fullband: VisqolManager<21> =
        VisqolManager::new(Variant::Fullband { model_path: String::new() }, 0);
    let brief = speech_spectrogram(19, 0, 19);
    assert_eq!(
        fullband.compute_results(&brief, &brief, 0).unwrap_err(),
        VisqolError::EmptyPatchSet
    );
}

#[test]
fn similarities_of_known_spectrograms() {
    let reference = Spectrogram::new(reference_frames(), 2).unwrap();
    let degraded = Spectrogram::new(degraded_frames(), 2).unwrap();
    let manager = small(PatchCreator::UniformGrid { patch_size: 2 }, 0);
    let result = manager.compute_results(&reference, &degraded, 17).unwrap();
    assert_eq!(result.per_patch_similarities, vec![995_226, 999_328, 998_985, 999_238]);
    assert_eq!(result.mean_similarity, 998_194);
    assert_eq!(result.alignment_lag, 17);
    let places: Vec<(usize, usize)> =
        result.matches.iter().map(|m| (m.reference.start, m.degraded.start)).collect();
    assert_eq!(places, vec![(0, 0), (2, 2), (4, 4), (6, 6)]);
}

#[test]
fn wider_window_finds_the_displaced_frames() {
    let reference = Spectrogram::new(reference_frames(), 2).unwrap();
    let mut frames = vec![vec![0u16, 0]; 3];
    frames.extend(reference_frames());
    let degraded = Spectrogram::new(frames, 2).unwrap();
    let creator = PatchCreator::UniformGrid { patch_size: 2 };
    let fixed = small(creator, 0).compute_results(&reference, &degraded, 0).unwrap();
    assert_eq!(fixed.per_patch_similarities, vec![107_434, 232_722, 420_973, -515_080]);
    assert_eq!(fixed.mean_similarity, 61_512);
    let wide = small(creator, 3).compute_results(&reference, &degraded, 0).unwrap();
    assert_eq!(wide.per_patch_similarities, vec![1_000_000; 4]);
    let places: Vec<usize> = wide.matches.iter().map(|m| m.degraded.start).collect();
    assert_eq!(places, vec![3, 5, 7, 9]);
    for window in 0..6 {
        let narrow = small(creator, window).compute_results(&reference, &degraded, 0).unwrap();
        let wider = small(creator, window + 1).compute_results(&reference, &degraded, 0).unwrap();
        for (low, high) in
            narrow.per_patch_similarities.iter().zip(wider.per_patch_similarities.iter())
        {
            assert!(low <= high);
        }
    }
}

#[test]
fn comparison_keeps_to_the_frames_both_spectrograms_cover() {
    let reference = Spectrogram::new(reference_frames(), 2).unwrap();
    let degraded = Spectrogram::new(degraded_frames()[..5].to_vec(), 2).unwrap();
    let manager = small(PatchCreator::UniformGrid { patch_size: 2 }, 0);
    let result = manager.compute_results(&reference, &degraded, 0).unwrap();
    assert_eq!(result.per_patch_similarities, vec![995_226, 999_328]);
}

#[test]
fn mean_similarity_needs_a_similarity() {
    assert_eq!(mean_similarity(&vec![]), None);
    assert_eq!(mean_similarity(&vec![7, 8, 9, 1]), Some(6));
    assert_eq!(mean_similarity(&vec![-3, -4]), Some(-3));
    assert_eq!(mean_similarity(&vec![-1, 0]), Some(0));
    assert_eq!(mean_similarity(&vec![i64::MAX, i64::MAX]), Some(i64::MAX));
    assert_eq!(mean_similarity(&vec![i64::MIN, i64::MIN, i64::MIN]), Some(i64::MIN));
}

fn levels_of(signal: &AudioSignal) -> Spectrogram {
    let frames = signal
        .samples
        .chunks(2)
        .filter(|pair| pair.len() == 2)
        .map(|pair| pair.iter().map(|sample| sample.unsigned_abs().min(65_535) as u16).collect())
        .collect();
    Spectrogram::new(frames, 2).unwrap()
}

fn compare(manager: &VisqolManager<2>, reference: &AudioSignal, degraded: &AudioSignal) -> Vec<i64> {
    let aligned = manager.run(reference, degraded).unwrap();
    let result = manager
        .compute_results(&levels_of(reference), &levels_of(&aligned.degraded), aligned.lag)
        .unwrap();
    assert_eq!(result.alignment_lag, aligned.lag);
    result.per_patch_similarities
}

#[test]
fn whole_comparison_is_unmoved_by_a_delay() {
    let manager = small(PatchCreator::UniformGrid { patch_size: 2 }, 1);
    let reference = signal(vec![1200, -1800, 3100, 900, -400, 4100, 6100, -6900, 7900, 400], 16000);
    let degraded = signal(vec![1000, -2000, 3000, 1000, -500, 4000, 6000, -7000, 8000, 300], 16000);
    let plain = compare(&manager, &reference, &degraded);
    assert_eq!(plain.len(), 2);
    for delay in [1usize, 2, 3, 8] {
        let mut samples = vec![0; delay];
        samples.extend_from_slice(&degraded.samples);
        let late = signal(samples, 16000);
        assert_eq!(compare(&manager, &reference, &late), plain);
    }
    assert_eq!(compare(&manager, &reference, &reference), vec![1_000_000, 1_000_000]);
}
