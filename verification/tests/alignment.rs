use visqol::alignment::{apply_lag, correlate, find_best_lag, globally_align};
use visqol::audio_signal::AudioSignal;

fn signal(samples: Vec<i32>, sample_rate: u32) -> AudioSignal {
    AudioSignal::new(samples, sample_rate).unwrap()
}

#[test]
fn correlation_multiplies_samples_lag_apart() {
    let reference = vec![1, 2, 3];
    let degraded = vec![4, 5, 6, 7];
    assert_eq!(correlate(&reference, &degraded, 0), 4 + 10 + 18);
    assert_eq!(correlate(&reference, &degraded, 1), 5 + 12 + 21);
    assert_eq!(correlate(&reference, &degraded, -1), 2 * 4 + 3 * 5);
    assert_eq!(correlate(&reference, &degraded, 3), 7);
    assert_eq!(correlate(&reference, &degraded, 4), 0);
    assert_eq!(correlate(&reference, &degraded, -3), 0);
}

#[test]
fn delayed_signal_is_trimmed() {
    let reference = signal(vec![1, -2, 3, 4], 16000);
    let degraded = signal(vec![0, 0, 1, -2, 3, 4], 16000);
    let (aligned, lag) = globally_align(&reference, &degraded).unwrap();
    assert_eq!(lag, 2);
    assert_eq!(aligned.samples, vec![1, -2, 3, 4]);
    assert_eq!(aligned.sample_rate, 16000);
}

#[test]
fn advanced_signal_is_padded_with_silence() {
    let reference = signal(vec![0, 0, 5, -7, 9], 8000);
    let degraded = signal(vec![5, -7, 9], 8000);
    let (aligned, lag) = globally_align(&reference, &degraded).unwrap();
    assert_eq!(lag, -2);
    assert_eq!(aligned.samples, vec![0, 0, 5, -7, 9]);
}

#[test]
fn silent_signals_cannot_be_aligned() {
    let silent = signal(vec![0, 0, 0], 16000);
    let speech = signal(vec![3, 1, 4], 16000);
    assert!(globally_align(&silent, &silent).is_none());
    assert!(globally_align(&silent, &speech).is_none());
    assert!(globally_align(&speech, &silent).is_none());
    assert_eq!(find_best_lag(&vec![0, 0], &vec![1, 2]), None);
}

#[test]
fn earliest_lag_wins_among_equal_peaks() {
    let reference = vec![1];
    let degraded = vec![2, -2, 2];
    assert_eq!(find_best_lag(&reference, &degraded), Some(0));
}

#[test]
fn apply_lag_trims_or_pads() {
    let degraded = vec![1, 2, 3];
    assert_eq!(apply_lag(&degraded, 0), vec![1, 2, 3]);
    assert_eq!(apply_lag(&degraded, 2), vec![3]);
    assert_eq!(apply_lag(&degraded, -2), vec![0, 0, 1, 2, 3]);
}

#[test]
fn identical_signals_are_left_as_they_are() {
    let speech = signal(vec![3, -1, 4, -1, 5, -9, 2, 6], 16000);
    let (aligned, lag) = globally_align(&speech, &speech).unwrap();
    assert_eq!(lag, 0);
    assert_eq!(aligned.samples, speech.samples);
}

#[test]
fn alignment_undoes_a_delay_of_silence() {
    let reference = signal(vec![2, 7, -1, 8, -2, 8, 1, -8], 16000);
    let degraded = signal(vec![7, -1, 8, -2, 9, 1], 16000);
    let (plain, plain_lag) = globally_align(&reference, &degraded).unwrap();
    for delay in [1usize, 2, 5, 13] {
        let mut samples = vec![0; delay];
        samples.extend_from_slice(&degraded.samples);
        let late = signal(samples, 16000);
        let (moved, lag) = globally_align(&reference, &late).unwrap();
        assert_eq!(lag, plain_lag + delay as i64);
        assert_eq!(moved.samples, plain.samples);
    }
}

#[test]
fn inverted_signal_is_aligned_by_magnitude() {
    let reference = signal(vec![0, 4, -6, 2], 16000);
    let degraded = signal(vec![0, 0, 0, -4, 6, -2], 16000);
    let (aligned, lag) = globally_align(&reference, &degraded).unwrap();
    assert_eq!(lag, 2);
    assert_eq!(aligned.samples, vec![0, -4, 6, -2]);
}

#[test]
fn extreme_samples_do_not_overflow() {
    let loud = vec![i32::MIN, i32::MAX, i32::MIN];
    assert_eq!(
        correlate(&loud, &loud, 0),
        2 * (i32::MIN as i128) * (i32::MIN as i128) + (i32::MAX as i128) * (i32::MAX as i128)
    );
    assert_eq!(find_best_lag(&loud, &loud), Some(0));
}
