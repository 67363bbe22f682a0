use vstd::prelude::*;
use crate::constants::MAX_PATCH_DIMENSION;

verus! {

/// The levels held in `frames`, frame by frame and, within a frame, band by band.
pub open spec fn grid_of(frames: Seq<Vec<u16>>) -> Seq<Seq<u16>> {
    Seq::new(frames.len(), |t: int| frames[t]@)
}

/// Whether every frame of `grid` holds `bands` levels.
pub open spec fn rectangular(grid: Seq<Seq<u16>>, bands: int) -> bool {
    forall|t: int| 0 <= t < grid.len() ==> (#[trigger] grid[t]).len() == bands
}

/// Whether every level of `grid` is zero.
pub open spec fn silent_grid(grid: Seq<Seq<u16>>) -> bool {
    forall|t: int, b: int| 0 <= t < grid.len() && 0 <= b < grid[t].len() ==> (#[trigger] grid[t][b]) == 0
}

/// A copy of the levels of one frame.
pub fn copy_frame(source: &Vec<u16>) -> (frame: Vec<u16>)
    ensures
        frame@ == source@,
{
    let mut frame: Vec<u16> = Vec::new();
    let mut b: usize = 0;
    while b < source.len()
        invariant
            b <= source@.len(),
            frame@ == source@.subrange(0, b as int),
        decreases source@.len() - b,
    {
        frame.push(source[b]);
        b += 1;
    }
    assert(source@.subrange(0, source@.len() as int) == source@);
    frame
}

/// A quantised time-frequency representation of a signal: one level per
/// analysis frame and frequency band, zero standing for silence.
#[derive(Debug)]
pub struct Spectrogram {
    pub frames: Vec<Vec<u16>>,
    pub bands: usize,
}

impl View for Spectrogram {
    type V = Seq<Seq<u16>>;

    open spec fn view(&self) -> Seq<Seq<u16>> {
        grid_of(self.frames@)
    }
}

impl Spectrogram {
    /// Every frame holds one level per band, and there is at least one band.
    pub open spec fn wf(&self) -> bool {
        &&& 0 < self.bands <= MAX_PATCH_DIMENSION
        &&& rectangular(self@, self.bands as int)
    }

    /// Builds a spectrogram from its frames, or nothing where a frame does
    /// not hold `bands` levels.
    pub fn new(frames: Vec<Vec<u16>>, bands: usize) -> (spectrogram: Option<Spectrogram>)
        ensures
            spectrogram is Some <==> (0 < bands <= MAX_PATCH_DIMENSION && rectangular(
                grid_of(frames@),
                bands as int,
            )),
            spectrogram matches Some(s) ==> s@ == grid_of(frames@) && s.bands == bands && s.wf(),
    {
        if bands == 0 || bands > MAX_PATCH_DIMENSION {
            return None;
        }
        let mut t: usize = 0;
        while t < frames.len()
            invariant
                t <= frames@.len(),
                forall|u: int| 0 <= u < t ==> (#[trigger] grid_of(frames@)[u]).len() == bands,
            decreases frames@.len() - t,
        {
            if frames[t].len() != bands {
                assert(grid_of(frames@)[t as int].len() != bands);
                return None;
            }
            t += 1;
        }
        Some(Spectrogram { frames, bands })
    }

    /// Number of analysis frames.
    pub fn num_frames(&self) -> (n: usize)
        ensures
            n == self@.len(),
    {
        self.frames.len()
    }

    /// The patch of `width` frames that begins at frame `start`.
    pub fn patch_at(&self, start: usize, width: usize) -> (patch: Patch)
        requires
            self.wf(),
            0 < width <= MAX_PATCH_DIMENSION,
            start + width <= self@.len(),
        ensures
            patch.start == start,
            patch.bands == self.bands,
            patch@ == self@.subrange(start as int, start + width),
            patch.wf(),
    {
        let mut frames: Vec<Vec<u16>> = Vec::new();
        let total: usize = self.frames.len();
        let mut t: usize = 0;
        assert(grid_of(frames@) =~= self@.subrange(start as int, start + 0));
        while t < width
            invariant
                self.wf(),
                t <= width,
                start + width <= total,
                total == self.frames@.len(),
                self@.len() == total,
                frames@.len() == t,
                grid_of(frames@) == self@.subrange(start as int, start + t),
            decreases width - t,
        {
            let frame = copy_frame(&self.frames[start + t]);
            let ghost before = frames@;
            frames.push(frame);
            proof {
                let cut = self@.subrange(start as int, start + t + 1);
                assert forall|u: int| 0 <= u < frames@.len() implies grid_of(frames@)[u]
                    == cut[u] by {
                    if u < t {
                        assert(grid_of(before)[u] == self@.subrange(start as int, start + t)[u]);
                    }
                }
                assert(grid_of(frames@) =~= cut);
            }
            t += 1;
        }
        let patch = Patch { start, bands: self.bands, frames };
        assert(rectangular(patch@, patch.bands as int)) by {
            assert forall|u: int| 0 <= u < patch@.len() implies (#[trigger] patch@[u]).len()
                == patch.bands by {
                assert(patch@[u] == self@[start + u]);
            }
        }
        patch
    }
}

/// A span of consecutive frames cut from a spectrogram: where it begins, and
/// the levels themselves.
#[derive(Debug)]
pub struct Patch {
    pub start: usize,
    pub bands: usize,
    pub frames: Vec<Vec<u16>>,
}

impl View for Patch {
    type V = Seq<Seq<u16>>;

    open spec fn view(&self) -> Seq<Seq<u16>> {
        grid_of(self.frames@)
    }
}

impl Patch {
    /// A patch holds at least one frame, and every frame one level per band.
    pub open spec fn wf(&self) -> bool {
        &&& 0 < self@.len() <= MAX_PATCH_DIMENSION
        &&& 0 < self.bands <= MAX_PATCH_DIMENSION
        &&& rectangular(self@, self.bands as int)
    }

    /// Number of frames.
    pub fn width(&self) -> (w: usize)
        ensures
            w == self@.len(),
    {
        self.frames.len()
    }

    /// A copy of the patch.
    pub fn duplicate(&self) -> (copy: Patch)
        ensures
            copy.start == self.start,
            copy.bands == self.bands,
            copy@ == self@,
    {
        let mut frames: Vec<Vec<u16>> = Vec::new();
        let mut t: usize = 0;
        while t < self.frames.len()
            invariant
                t <= self.frames@.len(),
                frames@.len() == t,
                forall|u: int| 0 <= u < t ==> (#[trigger] frames@[u])@ == self.frames@[u]@,
            decreases self.frames@.len() - t,
        {
            let frame = copy_frame(&self.frames[t]);
            frames.push(frame);
            t += 1;
        }
        let copy = Patch { start: self.start, bands: self.bands, frames };
        assert(copy@ =~= self@);
        copy
    }
}

} // verus!
