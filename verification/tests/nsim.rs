use visqol::nsim::{divide_truncating, NeurogramSimilarityIndexMeasure};
use visqol::patch::Patch;

fn patch(frames: Vec<Vec<u16>>) -> Patch {
    let bands = frames[0].len();
    Patch { start: 0, bands, frames }
}

fn rising() -> Vec<Vec<u16>> {
    vec![vec![100, 200, 300], vec![400, 500, 600], vec![700, 800, 900]]
}

fn falling() -> Vec<Vec<u16>> {
    vec![vec![900, 800, 700], vec![600, 500, 400], vec![300, 200, 100]]
}

#[test]
fn default_measure_has_customary_stabilisers() {
    let measure = NeurogramSimilarityIndexMeasure::new();
    assert_eq!(measure.luminance_stabiliser, 34_788_174);
    assert_eq!(measure.structure_stabiliser, 313_093_561);
}

#[test]
fn identical_patches_have_full_similarity() {
    let measure = NeurogramSimilarityIndexMeasure::new();
    assert_eq!(measure.similarity(&patch(rising()), &patch(rising())), 1_000_000);
    let silent = vec![vec![0u16; 3]; 3];
    assert_eq!(measure.similarity(&patch(silent.clone()), &patch(silent)), 1_000_000);
    let loud = vec![vec![65535u16; 4]; 5];
    assert_eq!(measure.similarity(&patch(loud.clone()), &patch(loud)), 1_000_000);
}

#[test]
fn similarity_of_known_patches() {
    let measure = NeurogramSimilarityIndexMeasure::new();
    assert_eq!(measure.similarity(&patch(rising()), &patch(falling())), 850_721);
    let silent = vec![vec![0u16; 3]; 3];
    assert_eq!(measure.similarity(&patch(rising()), &patch(silent.clone())), 636_421);
    let loud = vec![vec![65535u16; 3]; 3];
    assert_eq!(measure.similarity(&patch(loud), &patch(silent)), 99);
    assert_eq!(measure.similarity(&patch(vec![vec![5]]), &patch(vec![vec![7]])), 999_990);
    assert_eq!(measure.similarity(&patch(vec![vec![50000]]), &patch(vec![vec![10000]])), 384_717);
}

#[test]
fn opposed_structure_scores_below_zero() {
    let measure = NeurogramSimilarityIndexMeasure::new();
    let one = vec![vec![0, 60000, 0], vec![60000, 0, 60000], vec![0, 60000, 0]];
    let other = vec![vec![60000, 0, 60000], vec![0, 60000, 0], vec![60000, 0, 60000]];
    assert_eq!(measure.similarity(&patch(one), &patch(other)), -971_382);
    let steep = vec![vec![1000, 2000, 3000], vec![4000, 5000, 6000], vec![7000, 8000, 9000]];
    let mirrored = vec![vec![9000, 8000, 7000], vec![6000, 5000, 4000], vec![3000, 2000, 1000]];
    assert_eq!(measure.similarity(&patch(steep), &patch(mirrored)), -221_879);
}

#[test]
fn similarity_is_symmetric_and_bounded() {
    let measure = NeurogramSimilarityIndexMeasure::new();
    let steep = vec![vec![1000, 2000, 3000], vec![4000, 5000, 6000], vec![7000, 8000, 9000]];
    let forth = measure.similarity(&patch(steep.clone()), &patch(rising()));
    let back = measure.similarity(&patch(rising()), &patch(steep));
    assert_eq!(forth, 137_650);
    assert_eq!(back, forth);
    assert!(-1_000_000 <= forth && forth <= 1_000_000);
}

#[test]
fn division_rounds_towards_zero() {
    assert_eq!(divide_truncating(7, 2), 3);
    assert_eq!(divide_truncating(-7, 2), -3);
    assert_eq!(divide_truncating(-1, 3), 0);
    assert_eq!(divide_truncating(0, 5), 0);
    assert_eq!(divide_truncating(9, 3), 3);
}
