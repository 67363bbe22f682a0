use vstd::prelude::*;
use crate::constants::{MAX_LEVEL, MAX_PATCH_DIMENSION, VOICE_ACTIVITY_PERCENT};
use crate::patch::{silent_grid, Patch, Spectrogram};

verus! {

/// Sum of the first `n` levels of a frame.
pub open spec fn frame_energy(frame: Seq<u16>, n: nat) -> int
    decreases n,
{
    if n == 0 {
        0
    } else {
        frame_energy(frame, (n - 1) as nat) + frame[n - 1]
    }
}

/// Whether a frame carries voice: its mean level exceeds the threshold.
pub open spec fn is_active(frame: Seq<u16>) -> bool {
    100 * frame_energy(frame, frame.len()) > VOICE_ACTIVITY_PERCENT * MAX_LEVEL * frame.len()
}

/// Whether a run of active frames begins at frame `t`.
pub open spec fn is_run_start(grid: Seq<Seq<u16>>, t: int) -> bool {
    &&& 0 <= t < grid.len()
    &&& is_active(grid[t])
    &&& (t == 0 || !is_active(grid[t - 1]))
}

/// The first frame at or after `t` that is not active, or the number of
/// frames where every frame from `t` on is active.
pub open spec fn run_end(grid: Seq<Seq<u16>>, t: int) -> int
    decreases grid.len() - t,
{
    if t < 0 || t >= grid.len() || !is_active(grid[t]) {
        t
    } else {
        run_end(grid, t + 1)
    }
}

/// Where a patch of `width` frames begins that is centred on the frames from
/// `first` up to `end`, moved as little as needed to lie within `frames` frames.
pub open spec fn centred_start(first: int, end: int, width: int, frames: int) -> int {
    let middle = first + (end - first) / 2;
    if middle < width / 2 {
        0
    } else if middle - width / 2 > frames - width {
        frames - width
    } else {
        middle - width / 2
    }
}

/// Where the voice-activity patches of the runs that begin at or after frame
/// `t` begin: one patch for each run, centred on it, in order of time.
pub open spec fn voice_activity_starts_from(grid: Seq<Seq<u16>>, width: int, t: int) -> Seq<int>
    decreases grid.len() - t,
{
    if t < 0 || t >= grid.len() {
        Seq::empty()
    } else if is_run_start(grid, t) {
        seq![centred_start(t, run_end(grid, t), width, grid.len() as int)]
            + voice_activity_starts_from(grid, width, t + 1)
    } else {
        voice_activity_starts_from(grid, width, t + 1)
    }
}

/// Where the uniform-grid patches begin: side by side from the first frame,
/// as many as fit whole.
pub open spec fn uniform_grid_starts(frames: int, width: int) -> Seq<int> {
    Seq::new((frames / width) as nat, |k: int| k * width)
}

/// Whether `patch` is the patch of `width` frames that begins at `start` in `grid`.
pub open spec fn patch_is_cut(
    patch: Patch,
    grid: Seq<Seq<u16>>,
    bands: int,
    start: int,
    width: int,
) -> bool {
    &&& 0 <= start <= grid.len() - width
    &&& patch.start == start
    &&& patch.bands == bands
    &&& patch@ == grid.subrange(start, start + width)
    &&& patch.wf()
}

/// Whether `patches` are the patches of `width` frames that begin at `starts` in `grid`.
pub open spec fn patches_cut(
    patches: Seq<Patch>,
    grid: Seq<Seq<u16>>,
    bands: int,
    starts: Seq<int>,
    width: int,
) -> bool {
    &&& patches.len() == starts.len()
    &&& forall|i: int|
        0 <= i < patches.len() ==> #[trigger] patch_is_cut(
            patches[i],
            grid,
            bands,
            starts[i],
            width,
        )
}

/// The two ways of choosing which frames of a reference are analysed.
#[derive(Debug, Clone, Copy, PartialEq, Eq, Structural)]
pub enum PatchCreator {
    /// One patch for each run of consecutive active frames.
    VoiceActivity { patch_size: usize },
    /// Patches side by side over the whole spectrogram.
    UniformGrid { patch_size: usize },
}

/// No voice-activity patch begins where no frame is active.
proof fn lemma_no_activity_no_patches(grid: Seq<Seq<u16>>, width: int, t: int)
    requires
        forall|u: int| 0 <= u < grid.len() ==> !is_active(#[trigger] grid[u]),
    ensures
        voice_activity_starts_from(grid, width, t).len() == 0,
    decreases grid.len() - t,
{
    if 0 <= t < grid.len() {
        lemma_no_activity_no_patches(grid, width, t + 1);
    }
}

/// Wherever some frame is active, the first active frame at or after `t`
/// begins a run, so a voice-activity patch begins there or later.
proof fn lemma_first_activity_gives_patches(grid: Seq<Seq<u16>>, width: int, t: int, u: int)
    requires
        0 <= t <= u < grid.len(),
        is_active(grid[u]),
        t == 0 || !is_active(grid[t - 1]),
    ensures
        voice_activity_starts_from(grid, width, t).len() > 0,
    decreases u - t,
{
    if !is_active(grid[t]) {
        lemma_first_activity_gives_patches(grid, width, t + 1, u);
    }
}

/// A grid long enough for a patch has a voice-activity patch exactly when
/// one of its frames is active.
pub proof fn lemma_patches_where_activity(grid: Seq<Seq<u16>>, width: int)
    ensures
        voice_activity_starts_from(grid, width, 0).len() > 0 <==> exists|u: int|
            0 <= u < grid.len() && is_active(#[trigger] grid[u]),
{
    if exists|u: int| 0 <= u < grid.len() && is_active(#[trigger] grid[u]) {
        let u = choose|u: int| 0 <= u < grid.len() && is_active(#[trigger] grid[u]);
        lemma_first_activity_gives_patches(grid, width, 0, u);
    } else {
        lemma_no_activity_no_patches(grid, width, 0);
    }
}

proof fn lemma_voice_activity_starts_fit(grid: Seq<Seq<u16>>, width: int, t: int)
    requires
        0 < width <= grid.len(),
    ensures
        forall|i: int|
            0 <= i < voice_activity_starts_from(grid, width, t).len() ==> 0 <= (
            #[trigger] voice_activity_starts_from(grid, width, t)[i]) <= grid.len() - width,
    decreases grid.len() - t,
{
    if 0 <= t < grid.len() {
        lemma_voice_activity_starts_fit(grid, width, t + 1);
        let rest = voice_activity_starts_from(grid, width, t + 1);
        let all = voice_activity_starts_from(grid, width, t);
        assert forall|i: int| 0 <= i < all.len() implies 0 <= (#[trigger] all[i]) <= grid.len()
            - width by {
            if is_run_start(grid, t) {
                if i > 0 {
                    assert(all[i] == rest[i - 1]);
                }
            }
        }
    }
}

proof fn lemma_energy_of_silence(frame: Seq<u16>, n: nat)
    requires
        n <= frame.len(),
        forall|b: int| 0 <= b < frame.len() ==> frame[b] == 0,
    ensures
        frame_energy(frame, n) == 0,
    decreases n,
{
    if n > 0 {
        lemma_energy_of_silence(frame, (n - 1) as nat);
    }
}

/// A frame of silence is not active.
proof fn lemma_silence_is_inactive(frame: Seq<u16>)
    requires
        forall|b: int| 0 <= b < frame.len() ==> frame[b] == 0,
    ensures
        !is_active(frame),
{
    lemma_energy_of_silence(frame, frame.len());
}

proof fn lemma_energy_bound(frame: Seq<u16>, n: nat)
    requires
        n <= frame.len(),
    ensures
        0 <= frame_energy(frame, n) <= n * MAX_LEVEL,
    decreases n,
{
    if n > 0 {
        lemma_energy_bound(frame, (n - 1) as nat);
    }
}

/// Whether a frame carries voice.
pub fn frame_is_active(frame: &Vec<u16>) -> (active: bool)
    ensures
        active == is_active(frame@),
{
    let mut energy: u128 = 0;
    let mut b: usize = 0;
    while b < frame.len()
        invariant
            b <= frame@.len(),
            energy == frame_energy(frame@, b as nat),
        decreases frame@.len() - b,
    {
        proof {
            lemma_energy_bound(frame@, b as nat);
        }
        energy = energy + frame[b] as u128;
        b += 1;
    }
    proof {
        lemma_energy_bound(frame@, frame@.len());
    }
    let threshold: u128 = (VOICE_ACTIVITY_PERCENT * MAX_LEVEL) as u128;
    100 * energy > threshold * (frame.len() as u128)
}

proof fn lemma_patches_cut_push(
    patches: Seq<Patch>,
    grid: Seq<Seq<u16>>,
    bands: int,
    starts: Seq<int>,
    width: int,
    patch: Patch,
)
    requires
        patches_cut(patches, grid, bands, starts, width),
        patch_is_cut(patch, grid, bands, patch.start as int, width),
    ensures
        patches_cut(patches.push(patch), grid, bands, starts.push(patch.start as int), width),
{
    let longer = patches.push(patch);
    let marks = starts.push(patch.start as int);
    assert forall|i: int| 0 <= i < longer.len() implies #[trigger] patch_is_cut(
        longer[i],
        grid,
        bands,
        marks[i],
        width,
    ) by {
        if i < patches.len() {
            assert(patch_is_cut(patches[i], grid, bands, starts[i], width));
        }
    }
}

fn centre_patch(first: usize, end: usize, width: usize, frames: usize) -> (start: usize)
    requires
        first < end <= frames,
        0 < width <= frames,
    ensures
        start == centred_start(first as int, end as int, width as int, frames as int),
        start + width <= frames,
{
    let middle: usize = first + (end - first) / 2;
    let half: usize = width / 2;
    if middle < half {
        0
    } else if middle - half > frames - width {
        frames - width
    } else {
        middle - half
    }
}

fn voice_activity_patches(spectrogram: &Spectrogram, frames: usize, width: usize) -> (patches: Vec<
    Patch,
>)
    requires
        spectrogram.wf(),
        0 < width <= MAX_PATCH_DIMENSION,
        width <= frames <= spectrogram@.len(),
    ensures
        patches_cut(
            patches@,
            spectrogram@.take(frames as int),
            spectrogram.bands as int,
            voice_activity_starts_from(spectrogram@.take(frames as int), width as int, 0),
            width as int,
        ),
{
    let ghost grid = spectrogram@.take(frames as int);
    let ghost mut so_far: Seq<int> = Seq::empty();
    let mut patches: Vec<Patch> = Vec::new();
    let mut previous_active: bool = false;
    let mut t: usize = 0;
    assert(so_far + voice_activity_starts_from(grid, width as int, 0)
        =~= voice_activity_starts_from(grid, width as int, 0));
    while t < frames
        invariant
            spectrogram.wf(),
            0 < width <= MAX_PATCH_DIMENSION,
            width <= frames <= spectrogram@.len(),
            spectrogram@.len() == spectrogram.frames@.len(),
            grid == spectrogram@.take(frames as int),
            t <= frames,
            previous_active == (t > 0 && is_active(grid[t - 1])),
            patches_cut(patches@, grid, spectrogram.bands as int, so_far, width as int),
            so_far + voice_activity_starts_from(grid, width as int, t as int)
                == voice_activity_starts_from(grid, width as int, 0),
        decreases frames - t,
    {
        assert(grid[t as int] == spectrogram.frames@[t as int]@);
        assert(spectrogram@[t as int].len() == spectrogram.bands);
        let active = frame_is_active(&spectrogram.frames[t]);
        if active && !previous_active {
            let mut end: usize = t + 1;
            let mut open_run: bool = true;
            while open_run
                invariant
                    spectrogram.wf(),
                    frames <= spectrogram@.len(),
                    spectrogram@.len() == spectrogram.frames@.len(),
                    grid == spectrogram@.take(frames as int),
                    t < end <= frames,
                    run_end(grid, t as int) == run_end(grid, end as int),
                    !open_run ==> run_end(grid, end as int) == end,
                decreases frames - end + (if open_run { 1int } else { 0int }),
            {
                if end < frames {
                    assert(grid[end as int] == spectrogram.frames@[end as int]@);
                    assert(spectrogram@[end as int].len() == spectrogram.bands);
                    if frame_is_active(&spectrogram.frames[end]) {
                        end += 1;
                    } else {
                        open_run = false;
                    }
                } else {
                    open_run = false;
                }
            }
            let start = centre_patch(t, end, width, frames);
            let patch = spectrogram.patch_at(start, width);
            proof {
                assert(patch@ =~= grid.subrange(start as int, start + width));
                let rest = voice_activity_starts_from(grid, width as int, t + 1);
                assert(so_far.push(start as int) + rest =~= so_far + (seq![start as int] + rest));
                lemma_patches_cut_push(
                    patches@,
                    grid,
                    spectrogram.bands as int,
                    so_far,
                    width as int,
                    patch,
                );
                so_far = so_far.push(start as int);
            }
            patches.push(patch);
        }
        previous_active = active;
        t += 1;
    }
    assert(so_far =~= so_far + voice_activity_starts_from(grid, width as int, t as int));
    patches
}

fn uniform_grid_patches(spectrogram: &Spectrogram, frames: usize, width: usize) -> (patches: Vec<
    Patch,
>)
    requires
        spectrogram.wf(),
        0 < width <= MAX_PATCH_DIMENSION,
        width <= frames <= spectrogram@.len(),
    ensures
        patches_cut(
            patches@,
            spectrogram@.take(frames as int),
            spectrogram.bands as int,
            uniform_grid_starts(frames as int, width as int),
            width as int,
        ),
{
    let ghost grid = spectrogram@.take(frames as int);
    let ghost starts = uniform_grid_starts(frames as int, width as int);
    let count: usize = frames / width;
    let mut patches: Vec<Patch> = Vec::new();
    let mut k: usize = 0;
    while k < count
        invariant
            spectrogram.wf(),
            0 < width <= MAX_PATCH_DIMENSION,
            width <= frames <= spectrogram@.len(),
            grid == spectrogram@.take(frames as int),
            starts == uniform_grid_starts(frames as int, width as int),
            count == frames / width,
            k <= count,
            patches_cut(
                patches@,
                grid,
                spectrogram.bands as int,
                starts.take(k as int),
                width as int,
            ),
        decreases count - k,
    {
        proof {
            assert(0 <= k * width && k * width + width <= frames) by (nonlinear_arith)
                requires
                    0 <= k < count,
                    count == frames / width,
                    width > 0,
            ;
        }
        let start: usize = k * width;
        let patch = spectrogram.patch_at(start, width);
        proof {
            assert(patch@ =~= grid.subrange(start as int, start + width));
            assert(starts.take(k + 1) =~= starts.take(k as int).push(start as int));
            lemma_patches_cut_push(
                patches@,
                grid,
                spectrogram.bands as int,
                starts.take(k as int),
                width as int,
                patch,
            );
        }
        patches.push(patch);
        k += 1;
    }
    assert(starts.take(count as int) =~= starts);
    patches
}

impl PatchCreator {
    /// Number of frames in each patch.
    pub open spec fn width(&self) -> int {
        match self {
            PatchCreator::VoiceActivity { patch_size } => *patch_size as int,
            PatchCreator::UniformGrid { patch_size } => *patch_size as int,
        }
    }

    /// A patch holds at least one frame and no more than `MAX_PATCH_DIMENSION`.
    pub open spec fn wf(&self) -> bool {
        0 < self.width() <= MAX_PATCH_DIMENSION
    }

    /// Where the patches of a grid begin. A grid shorter than one patch has none.
    pub open spec fn patch_starts(&self, grid: Seq<Seq<u16>>) -> Seq<int> {
        if grid.len() < self.width() {
            Seq::empty()
        } else {
            match self {
                PatchCreator::VoiceActivity { patch_size } => voice_activity_starts_from(
                    grid,
                    *patch_size as int,
                    0,
                ),
                PatchCreator::UniformGrid { patch_size } => uniform_grid_starts(
                    grid.len() as int,
                    *patch_size as int,
                ),
            }
        }
    }

    /// Number of frames in each patch.
    pub fn patch_size(&self) -> (size: usize)
        ensures
            size == self.width(),
    {
        match self {
            PatchCreator::VoiceActivity { patch_size } => *patch_size,
            PatchCreator::UniformGrid { patch_size } => *patch_size,
        }
    }

    /// Cuts the patches of the first `frames` frames of a spectrogram, in
    /// order of time.
    pub fn create_patches_within(&self, spectrogram: &Spectrogram, frames: usize) -> (patches: Vec<
        Patch,
    >)
        requires
            self.wf(),
            spectrogram.wf(),
            frames <= spectrogram@.len(),
        ensures
            patches_cut(
                patches@,
                spectrogram@.take(frames as int),
                spectrogram.bands as int,
                self.patch_starts(spectrogram@.take(frames as int)),
                self.width(),
            ),
    {
        let width = self.patch_size();
        if frames < width {
            return Vec::new();
        }
        match self {
            PatchCreator::VoiceActivity { .. } => voice_activity_patches(
                spectrogram,
                frames,
                width,
            ),
            PatchCreator::UniformGrid { .. } => uniform_grid_patches(spectrogram, frames, width),
        }
    }

    /// Cuts the patches of a spectrogram, in order of time.
    pub fn create_patches(&self, spectrogram: &Spectrogram) -> (patches: Vec<Patch>)
        requires
            self.wf(),
            spectrogram.wf(),
        ensures
            patches_cut(
                patches@,
                spectrogram@,
                spectrogram.bands as int,
                self.patch_starts(spectrogram@),
                self.width(),
            ),
    {
        assert(spectrogram@.take(spectrogram@.len() as int) =~= spectrogram@);
        self.create_patches_within(spectrogram, spectrogram.num_frames())
    }
}


/// Every patch that a creator places lies within the grid.
pub proof fn lemma_patch_starts_fit(creator: PatchCreator, grid: Seq<Seq<u16>>)
    requires
        creator.wf(),
    ensures
        forall|i: int|
            0 <= i < creator.patch_starts(grid).len() ==> 0 <= (#[trigger] creator.patch_starts(
                grid,
            )[i]) <= grid.len() - creator.width(),
{
    let width = creator.width();
    if grid.len() >= width {
        match creator {
            PatchCreator::VoiceActivity { .. } => {
                lemma_voice_activity_starts_fit(grid, width, 0);
            },
            PatchCreator::UniformGrid { .. } => {
                let frames = grid.len() as int;
                assert forall|i: int| 0 <= i < creator.patch_starts(grid).len() implies 0 <= (
                #[trigger] creator.patch_starts(grid)[i]) <= grid.len() - width by {
                    assert(0 <= i * width && i * width + width <= frames) by (nonlinear_arith)
                        requires
                            0 <= i < frames / width,
                            width > 0,
                    ;
                }
            },
        }
    }
}

/// A grid that is silent throughout has no voice-activity patch.
pub proof fn lemma_silence_has_no_patches(grid: Seq<Seq<u16>>, width: int)
    requires
        silent_grid(grid),
    ensures
        voice_activity_starts_from(grid, width, 0).len() == 0,
{
    assert forall|u: int| 0 <= u < grid.len() implies !is_active(#[trigger] grid[u]) by {
        assert forall|b: int| 0 <= b < grid[u].len() implies grid[u][b] == 0 by {
            assert(grid[u][b] == 0);
        }
        lemma_silence_is_inactive(grid[u]);
    }
    lemma_no_activity_no_patches(grid, width, 0);
}


/// Within a run no further run begins: the patches from the frame after an
/// active frame on are those from the end of its run on.
proof fn lemma_no_run_within_a_run(grid: Seq<Seq<u16>>, width: int, t: int)
    requires
        0 <= t < grid.len(),
        is_active(grid[t]),
    ensures
        t < run_end(grid, t) <= grid.len(),
        voice_activity_starts_from(grid, width, t + 1) == voice_activity_starts_from(
            grid,
            width,
            run_end(grid, t),
        ),
    decreases grid.len() - t,
{
    assert(run_end(grid, t) == run_end(grid, t + 1));
    if t + 1 < grid.len() && is_active(grid[t + 1]) {
        lemma_no_run_within_a_run(grid, width, t + 1);
        assert(!is_run_start(grid, t + 1));
        assert(voice_activity_starts_from(grid, width, t + 1) == voice_activity_starts_from(
            grid,
            width,
            t + 2,
        ));
    } else {
        assert(run_end(grid, t + 1) == t + 1);
    }
}

/// No patch of a run that begins at or after frame `t` begins before a
/// patch centred on frame `t` alone would.
proof fn lemma_later_runs_start_later(grid: Seq<Seq<u16>>, width: int, t: int)
    requires
        0 < width <= grid.len(),
        0 <= t,
    ensures
        forall|i: int|
            0 <= i < voice_activity_starts_from(grid, width, t).len() ==> centred_start(
                t,
                t,
                width,
                grid.len() as int,
            ) <= #[trigger] voice_activity_starts_from(grid, width, t)[i],
    decreases grid.len() - t,
{
    if t < grid.len() {
        lemma_later_runs_start_later(grid, width, t + 1);
        let rest = voice_activity_starts_from(grid, width, t + 1);
        let all = voice_activity_starts_from(grid, width, t);
        assert forall|i: int| 0 <= i < all.len() implies centred_start(
            t,
            t,
            width,
            grid.len() as int,
        ) <= #[trigger] all[i] by {
            if is_run_start(grid, t) {
                lemma_no_run_within_a_run(grid, width, t);
                if i > 0 {
                    assert(all[i] == rest[i - 1]);
                }
            } else {
                assert(all[i] == rest[i]);
            }
        }
    }
}

/// The voice-activity patches come in order of time: none begins before
/// the one before it.
proof fn lemma_voice_activity_starts_ascend(grid: Seq<Seq<u16>>, width: int, t: int)
    requires
        0 < width <= grid.len(),
        0 <= t,
    ensures
        forall|i: int, j: int|
            0 <= i <= j < voice_activity_starts_from(grid, width, t).len()
                ==> voice_activity_starts_from(grid, width, t)[i] <= voice_activity_starts_from(
                grid,
                width,
                t,
            )[j],
    decreases grid.len() - t,
{
    if t < grid.len() {
        lemma_voice_activity_starts_ascend(grid, width, t + 1);
        let rest = voice_activity_starts_from(grid, width, t + 1);
        let all = voice_activity_starts_from(grid, width, t);
        if is_run_start(grid, t) {
            lemma_no_run_within_a_run(grid, width, t);
            let end = run_end(grid, t);
            lemma_later_runs_start_later(grid, width, end);
            assert forall|i: int, j: int| 0 <= i <= j < all.len() implies all[i] <= all[j] by {
                if j > 0 {
                    assert(all[j] == rest[j - 1]);
                    if i > 0 {
                        assert(all[i] == rest[i - 1]);
                    } else {
                        assert(centred_start(end, end, width, grid.len() as int) <= rest[j - 1]);
                    }
                }
            }
        }
    }
}

/// The patches that a creator places come in order of time.
pub proof fn lemma_patch_starts_ascend(creator: PatchCreator, grid: Seq<Seq<u16>>)
    requires
        creator.wf(),
    ensures
        forall|i: int, j: int|
            0 <= i <= j < creator.patch_starts(grid).len() ==> creator.patch_starts(grid)[i]
                <= creator.patch_starts(grid)[j],
{
    let width = creator.width();
    if grid.len() >= width {
        match creator {
            PatchCreator::VoiceActivity { .. } => {
                lemma_voice_activity_starts_ascend(grid, width, 0);
            },
            PatchCreator::UniformGrid { .. } => {
                assert forall|i: int, j: int|
                    0 <= i <= j < creator.patch_starts(grid).len() implies creator.patch_starts(
                    grid,
                )[i] <= creator.patch_starts(grid)[j] by {
                    assert(i * width <= j * width) by (nonlinear_arith)
                        requires
                            0 <= i <= j,
                            width > 0,
                    ;
                }
            },
        }
    }
}

} // verus!
