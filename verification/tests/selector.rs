use visqol::comparison_patches_selector::ComparisonPatchesSelector;
use visqol::nsim::NeurogramSimilarityIndexMeasure;
use visqol::patch::{Patch, Spectrogram};

fn selector() -> ComparisonPatchesSelector {
    ComparisonPatchesSelector::new(NeurogramSimilarityIndexMeasure::new())
}

fn degraded() -> Spectrogram {
    Spectrogram::new(
        vec![
            vec![1000, 2000],
            vec![3000, 1000],
            vec![500, 4000],
            vec![6000, 7000],
            vec![8000, 300],
            vec![200, 100],
            vec![4000, 4000],
            vec![100, 9000],
        ],
        2,
    )
    .unwrap()
}

fn reference_at(start: usize) -> Patch {
    Patch { start, bands: 2, frames: vec![vec![6000, 7000], vec![8000, 300]] }
}

#[test]
fn without_a_window_the_same_position_is_compared() {
    let scores = [344_010, -158_111, -62_288, 1_000_000, 156_791, -4_353, -530_557];
    for start in 0..7 {
        let found = selector().select_best_match(&reference_at(start), &degraded(), 0);
        assert_eq!(found.degraded.start, start);
        assert_eq!(found.similarity, scores[start]);
        assert_eq!(found.reference.start, start);
        assert_eq!(found.reference.frames, reference_at(start).frames);
    }
}

#[test]
fn window_finds_the_displaced_patch() {
    let found = selector().select_best_match(&reference_at(1), &degraded(), 2);
    assert_eq!(found.degraded.start, 3);
    assert_eq!(found.similarity, 1_000_000);
    assert_eq!(found.degraded.frames, vec![vec![6000, 7000], vec![8000, 300]]);
    let near = selector().select_best_match(&reference_at(1), &degraded(), 1);
    assert_eq!(near.degraded.start, 0);
    assert_eq!(near.similarity, 344_010);
}

#[test]
fn window_is_clamped_to_the_spectrogram() {
    let early = selector().select_best_match(&reference_at(0), &degraded(), 100);
    assert_eq!(early.degraded.start, 3);
    let late = selector().select_best_match(&reference_at(40), &degraded(), 0);
    assert_eq!(late.degraded.start, 6);
    assert_eq!(late.similarity, -530_557);
    let beyond = selector().select_best_match(&reference_at(40), &degraded(), 35);
    assert_eq!(beyond.degraded.start, 5);
    assert_eq!(beyond.similarity, -4_353);
}

#[test]
fn wider_window_never_lowers_the_similarity() {
    for start in 0..7 {
        let mut previous = selector().select_best_match(&reference_at(start), &degraded(), 0);
        for window in 1..8 {
            let found = selector().select_best_match(&reference_at(start), &degraded(), window);
            assert!(found.similarity >= previous.similarity);
            previous = found;
        }
        assert_eq!(previous.similarity, 1_000_000);
    }
}

#[test]
fn nearest_of_equal_candidates_wins() {
    let a = vec![5000, 100];
    let x = vec![3000, 3000];
    let b = vec![100, 5000];
    let spectrogram =
        Spectrogram::new(vec![a.clone(), x.clone(), b.clone(), a.clone(), x.clone()], 2).unwrap();
    let reference = Patch { start: 2, bands: 2, frames: vec![a.clone()] };
    let found = selector().select_best_match(&reference, &spectrogram, 2);
    assert_eq!(found.degraded.start, 3);
    assert_eq!(found.similarity, 1_000_000);
    let narrow = selector().select_best_match(&reference, &spectrogram, 0);
    assert_eq!(narrow.degraded.start, 2);
    assert_eq!(narrow.similarity, -383_611);
}

#[test]
fn earlier_of_equally_near_candidates_wins() {
    let a = vec![5000, 100];
    let b = vec![100, 5000];
    let spectrogram =
        Spectrogram::new(vec![a.clone(), b.clone(), a.clone(), b.clone(), a.clone()], 2).unwrap();
    let reference = Patch { start: 1, bands: 2, frames: vec![a.clone()] };
    let found = selector().select_best_match(&reference, &spectrogram, 1);
    assert_eq!(found.degraded.start, 0);
    assert_eq!(found.similarity, 1_000_000);
    let level = vec![3000, 3000];
    let flat = Spectrogram::new(vec![level.clone(); 5], 2).unwrap();
    let centred = Patch { start: 2, bands: 2, frames: vec![a] };
    let same = selector().select_best_match(&centred, &flat, 2);
    assert_eq!(same.degraded.start, 2);
    assert_eq!(same.similarity, 391_640);
}

#[test]
fn matches_come_in_the_order_of_the_reference_patches() {
    let patches = vec![reference_at(5), reference_at(0), reference_at(3)];
    let matches = selector().find_matches(&patches, &degraded(), 1);
    let found: Vec<(usize, usize, i64)> = matches
        .iter()
        .map(|m| (m.reference.start, m.degraded.start, m.similarity))
        .collect();
    assert_eq!(found, vec![(5, 4, 156_791), (0, 0, 344_010), (3, 3, 1_000_000)]);
    assert!(selector().find_matches(&vec![], &degraded(), 1).is_empty());
}
