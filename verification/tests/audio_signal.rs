use visqol::audio_signal::AudioSignal;

#[test]
fn signal_needs_samples_and_a_rate() {
    assert!(AudioSignal::new(vec![], 16000).is_none());
    assert!(AudioSignal::new(vec![1, 2], 0).is_none());
    let signal = AudioSignal::new(vec![1, 2], 16000).unwrap();
    assert_eq!(signal.samples, vec![1, 2]);
    assert_eq!(signal.sample_rate, 16000);
    assert_eq!(signal.len(), 2);
}

#[test]
fn duration_is_length_over_rate() {
    let signal = AudioSignal::new(vec![0; 40_001], 16000).unwrap();
    assert_eq!(signal.get_duration(), (2, 8001));
    let exact = AudioSignal::new(vec![0; 24_000], 8000).unwrap();
    assert_eq!(exact.get_duration(), (3, 0));
    let short = AudioSignal::new(vec![7], 48000).unwrap();
    assert_eq!(short.get_duration(), (0, 1));
}

#[test]
fn silence_is_all_zeros() {
    assert!(AudioSignal::new(vec![0, 0, 0], 16000).unwrap().is_silent());
    assert!(!AudioSignal::new(vec![0, 0, -1], 16000).unwrap().is_silent());
}

#[test]
fn duplicate_copies_samples_and_rate() {
    let signal = AudioSignal::new(vec![5, -6, 7], 44100).unwrap();
    let copy = signal.duplicate();
    assert_eq!(copy.samples, vec![5, -6, 7]);
    assert_eq!(copy.sample_rate, 44100);
}
