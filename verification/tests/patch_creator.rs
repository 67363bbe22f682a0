use visqol::patch::{Patch, Spectrogram};
use visqol::patch_creator::{frame_is_active, PatchCreator};

fn spectrogram_of(activity: &[bool]) -> Spectrogram {
    let frames = activity
        .iter()
        .enumerate()
        .map(|(t, active)| if *active { vec![700 + t as u16, 700] } else { vec![t as u16, 0] })
        .collect();
    Spectrogram::new(frames, 2).unwrap()
}

fn starts(patches: &[Patch]) -> Vec<usize> {
    patches.iter().map(|patch| patch.start).collect()
}

#[test]
fn spectrogram_needs_whole_frames() {
    assert!(Spectrogram::new(vec![vec![1, 2], vec![3]], 2).is_none());
    assert!(Spectrogram::new(vec![vec![1, 2]], 0).is_none());
    assert!(Spectrogram::new(vec![vec![1, 2]], 3).is_none());
    assert!(Spectrogram::new(vec![], 65_536).is_none());
    assert!(Spectrogram::new(vec![], 65_535).is_some());
    let empty = Spectrogram::new(vec![], 4).unwrap();
    assert_eq!(empty.num_frames(), 0);
    let whole = Spectrogram::new(vec![vec![1, 2], vec![3, 4]], 2).unwrap();
    assert_eq!(whole.num_frames(), 2);
    assert_eq!(whole.bands, 2);
}

#[test]
fn patch_is_a_copy_of_its_frames() {
    let spectrogram =
        Spectrogram::new(vec![vec![1, 2], vec![3, 4], vec![5, 6], vec![7, 8]], 2).unwrap();
    let patch = spectrogram.patch_at(1, 2);
    assert_eq!(patch.start, 1);
    assert_eq!(patch.bands, 2);
    assert_eq!(patch.frames, vec![vec![3, 4], vec![5, 6]]);
    assert_eq!(patch.width(), 2);
    let copy = patch.duplicate();
    assert_eq!(copy.start, 1);
    assert_eq!(copy.frames, patch.frames);
}

#[test]
fn frame_is_active_above_one_hundredth_of_full_level() {
    assert!(frame_is_active(&vec![700, 700]));
    assert!(frame_is_active(&vec![656, 655]));
    assert!(!frame_is_active(&vec![655, 655]));
    assert!(!frame_is_active(&vec![0, 0]));
    assert!(frame_is_active(&vec![1967, 0, 0]));
    assert!(!frame_is_active(&vec![1966, 0, 0]));
    assert!(!frame_is_active(&vec![]));
}

#[test]
fn uniform_grid_tiles_the_spectrogram() {
    let creator = PatchCreator::UniformGrid { patch_size: 3 };
    assert_eq!(creator.patch_size(), 3);
    let ten = spectrogram_of(&[false; 10]);
    let patches = creator.create_patches(&ten);
    assert_eq!(starts(&patches), vec![0, 3, 6]);
    assert_eq!(patches[1].frames, vec![vec![3, 0], vec![4, 0], vec![5, 0]]);
    let nine = spectrogram_of(&[true; 9]);
    assert_eq!(starts(&creator.create_patches(&nine)), vec![0, 3, 6]);
    let two = spectrogram_of(&[true; 2]);
    assert!(creator.create_patches(&two).is_empty());
}

#[test]
fn voice_activity_centres_one_patch_on_each_run() {
    let creator = PatchCreator::VoiceActivity { patch_size: 4 };
    let activity = [true, false, true, true, true, false, false, false, true, true];
    let spectrogram = spectrogram_of(&activity);
    let patches = creator.create_patches(&spectrogram);
    assert_eq!(starts(&patches), vec![0, 1, 6]);
    assert_eq!(patches[1].frames, vec![vec![1, 0], vec![702, 700], vec![703, 700], vec![704, 700]]);
    for patch in &patches {
        assert_eq!(patch.width(), 4);
        assert_eq!(patch.bands, 2);
    }
}

#[test]
fn one_long_run_gives_one_patch() {
    let creator = PatchCreator::VoiceActivity { patch_size: 4 };
    let spectrogram = spectrogram_of(&[true; 11]);
    assert_eq!(starts(&creator.create_patches(&spectrogram)), vec![3]);
}

#[test]
fn silence_gives_no_voice_activity_patch() {
    let creator = PatchCreator::VoiceActivity { patch_size: 4 };
    let silent = Spectrogram::new(vec![vec![0, 0]; 12], 2).unwrap();
    assert!(creator.create_patches(&silent).is_empty());
    let quiet = spectrogram_of(&[false; 12]);
    assert!(creator.create_patches(&quiet).is_empty());
}

#[test]
fn spectrogram_shorter_than_a_patch_gives_none() {
    let creator = PatchCreator::VoiceActivity { patch_size: 4 };
    let short = spectrogram_of(&[true, true, true]);
    assert!(creator.create_patches(&short).is_empty());
}

#[test]
fn patches_can_be_cut_from_leading_frames_only() {
    let creator = PatchCreator::VoiceActivity { patch_size: 2 };
    let activity = [false, true, true, false, false, true, true, true];
    let spectrogram = spectrogram_of(&activity);
    assert_eq!(starts(&creator.create_patches_within(&spectrogram, 8)), vec![1, 5]);
    assert_eq!(starts(&creator.create_patches_within(&spectrogram, 6)), vec![1, 4]);
    assert_eq!(starts(&creator.create_patches_within(&spectrogram, 4)), vec![1]);
    assert!(creator.create_patches_within(&spectrogram, 1).is_empty());
    let grid = PatchCreator::UniformGrid { patch_size: 3 };
    assert_eq!(starts(&grid.create_patches_within(&spectrogram, 7)), vec![0, 3]);
}
