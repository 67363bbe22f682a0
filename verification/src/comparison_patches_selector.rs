use vstd::prelude::*;
use crate::constants::SCORE_SCALE;
use crate::nsim::{lemma_identical_grids_score_full, lemma_similarity_range, NeurogramSimilarityIndexMeasure};
use crate::patch::{Patch, Spectrogram};

verus! {

/// A reference patch, the patch of the degraded spectrogram found most
/// similar to it, and their similarity.
#[derive(Debug)]
pub struct PatchMatch {
    pub reference: Patch,
    pub degraded: Patch,
    pub similarity: i64,
}

/// Finds, for a reference patch, the most similar patch of a degraded
/// spectrogram near the same position.
#[derive(Debug, Clone, Copy)]
pub struct ComparisonPatchesSelector {
    pub measure: NeurogramSimilarityIndexMeasure,
}

/// The earliest frame at which a candidate may begin: `window` frames before
/// `start`, brought into the frames at which a patch can begin at all.
pub open spec fn first_candidate(start: int, window: int, last_start: int) -> int {
    if start - window < 0 {
        0
    } else if start - window > last_start {
        last_start
    } else {
        start - window
    }
}

/// The latest frame at which a candidate may begin.
pub open spec fn last_candidate(start: int, window: int, last_start: int) -> int {
    if start + window > last_start {
        last_start
    } else {
        start + window
    }
}

/// Whether a candidate may begin at `offset`.
pub open spec fn is_candidate(start: int, window: int, last_start: int, offset: int) -> bool {
    first_candidate(start, window, last_start) <= offset <= last_candidate(
        start,
        window,
        last_start,
    )
}

/// Number of frames between two positions.
pub open spec fn distance(a: int, b: int) -> int {
    if a < b {
        b - a
    } else {
        a - b
    }
}

impl ComparisonPatchesSelector {
    /// The measure is usable.
    pub open spec fn wf(&self) -> bool {
        self.measure.wf()
    }

    /// Similarity of the reference grid to the degraded patch that begins at `offset`.
    pub open spec fn score_at(
        &self,
        reference: Seq<Seq<u16>>,
        degraded: Seq<Seq<u16>>,
        bands: int,
        offset: int,
    ) -> int {
        self.measure.score(reference, degraded.subrange(offset, offset + reference.len()), bands)
    }

    /// Whether the candidate at `a` is chosen over the one at `b`: it is more
    /// similar, or as similar and nearer to `start`, or as similar, as near
    /// and not later.
    pub open spec fn no_worse(
        &self,
        reference: Seq<Seq<u16>>,
        degraded: Seq<Seq<u16>>,
        bands: int,
        start: int,
        a: int,
        b: int,
    ) -> bool {
        let score_a = self.score_at(reference, degraded, bands, a);
        let score_b = self.score_at(reference, degraded, bands, b);
        ||| score_a > score_b
        ||| score_a == score_b && distance(a, start) < distance(b, start)
        ||| score_a == score_b && distance(a, start) == distance(b, start) && a <= b
    }

    /// Whether the candidate at `offset` is chosen over every other candidate.
    pub open spec fn is_best_offset(
        &self,
        reference: Seq<Seq<u16>>,
        degraded: Seq<Seq<u16>>,
        bands: int,
        start: int,
        window: int,
        offset: int,
    ) -> bool {
        let last_start = degraded.len() - reference.len();
        &&& is_candidate(start, window, last_start, offset)
        &&& forall|o: int|
            is_candidate(start, window, last_start, o) ==> #[trigger] self.no_worse(
                reference,
                degraded,
                bands,
                start,
                offset,
                o,
            )
    }

    /// Where the best match of the reference grid begins.
    pub open spec fn best_offset(
        &self,
        reference: Seq<Seq<u16>>,
        degraded: Seq<Seq<u16>>,
        bands: int,
        start: int,
        window: int,
    ) -> int {
        choose|offset: int| self.is_best_offset(reference, degraded, bands, start, window, offset)
    }

    /// Similarity of the reference grid to its best match.
    pub open spec fn best_similarity(
        &self,
        reference: Seq<Seq<u16>>,
        degraded: Seq<Seq<u16>>,
        bands: int,
        start: int,
        window: int,
    ) -> int {
        self.score_at(
            reference,
            degraded,
            bands,
            self.best_offset(reference, degraded, bands, start, window),
        )
    }

    /// Whether `found` pairs `reference` with its best match in `degraded`.
    pub open spec fn is_match(
        &self,
        found: PatchMatch,
        reference: Patch,
        degraded: Seq<Seq<u16>>,
        window: int,
    ) -> bool {
        let offset = found.degraded.start as int;
        &&& found.reference.start == reference.start
        &&& found.reference.bands == reference.bands
        &&& found.reference@ == reference@
        &&& found.degraded.bands == reference.bands
        &&& found.degraded@ == degraded.subrange(offset, offset + reference@.len())
        &&& found.degraded.wf()
        &&& self.is_best_offset(
            reference@,
            degraded,
            reference.bands as int,
            reference.start as int,
            window,
            offset,
        )
        &&& offset == self.best_offset(
            reference@,
            degraded,
            reference.bands as int,
            reference.start as int,
            window,
        )
        &&& found.similarity == self.best_similarity(
            reference@,
            degraded,
            reference.bands as int,
            reference.start as int,
            window,
        )
        &&& -SCORE_SCALE <= found.similarity <= SCORE_SCALE
    }

    /// A selector that scores candidates with `measure`.
    pub fn new(measure: NeurogramSimilarityIndexMeasure) -> (selector: Self)
        ensures
            selector.measure == measure,
    {
        ComparisonPatchesSelector { measure }
    }

    /// Pairs a reference patch with the most similar degraded patch among
    /// those that begin within `search_window` frames of where the
    /// reference patch begins. Of equally similar candidates the nearest is
    /// taken, and of equally near ones the earlier.
    pub fn select_best_match(
        &self,
        reference: &Patch,
        degraded: &Spectrogram,
        search_window: usize,
    ) -> (found: PatchMatch)
        requires
            self.wf(),
            reference.wf(),
            degraded.wf(),
            reference.bands == degraded.bands,
            reference@.len() <= degraded@.len(),
        ensures
            self.is_match(found, *reference, degraded@, search_window as int),
    {
        let width: usize = reference.width();
        let start: usize = reference.start;
        let last_start: usize = degraded.num_frames() - width;
        let first: usize = if search_window > start {
            0
        } else if start - search_window > last_start {
            last_start
        } else {
            start - search_window
        };
        let last: usize = if start >= last_start {
            last_start
        } else if search_window >= last_start - start {
            last_start
        } else {
            start + search_window
        };
        let mut best: Patch = degraded.patch_at(first, width);
        let mut similarity: i64 = self.measure.similarity(reference, &best);
        let mut offset: usize = first + 1;
        while offset <= last
            invariant
                self.wf(),
                reference.wf(),
                degraded.wf(),
                reference.bands == degraded.bands,
                width == reference@.len(),
                start == reference.start,
                last_start == degraded@.len() - width,
                first == first_candidate(start as int, search_window as int, last_start as int),
                last == last_candidate(start as int, search_window as int, last_start as int),
                first <= best.start < offset <= last + 1,
                last <= last_start < usize::MAX,
                best.bands == reference.bands,
                best@ == degraded@.subrange(best.start as int, best.start + width),
                best.wf(),
                similarity == self.score_at(
                    reference@,
                    degraded@,
                    reference.bands as int,
                    best.start as int,
                ),
                -SCORE_SCALE <= similarity <= SCORE_SCALE,
                forall|o: int|
                    first <= o < offset ==> #[trigger] self.no_worse(
                        reference@,
                        degraded@,
                        reference.bands as int,
                        start as int,
                        best.start as int,
                        o,
                    ),
            decreases last + 1 - offset,
        {
            let candidate: Patch = degraded.patch_at(offset, width);
            let score: i64 = self.measure.similarity(reference, &candidate);
            let nearer: bool = distance_between(offset, start) < distance_between(
                best.start,
                start,
            );
            if score > similarity || (score == similarity && nearer) {
                proof {
                    let previous = best.start as int;
                    assert forall|o: int| first <= o < offset + 1 implies #[trigger] self.no_worse(
                        reference@,
                        degraded@,
                        reference.bands as int,
                        start as int,
                        offset as int,
                        o,
                    ) by {
                        if o < offset {
                            assert(self.no_worse(
                                reference@,
                                degraded@,
                                reference.bands as int,
                                start as int,
                                previous,
                                o,
                            ));
                        }
                    }
                }
                best = candidate;
                similarity = score;
            }
            offset += 1;
        }
        proof {
            assert(self.is_best_offset(
                reference@,
                degraded@,
                reference.bands as int,
                start as int,
                search_window as int,
                best.start as int,
            ));
            lemma_best_offset_is_unique(
                *self,
                reference@,
                degraded@,
                reference.bands as int,
                start as int,
                search_window as int,
                best.start as int,
                self.best_offset(
                    reference@,
                    degraded@,
                    reference.bands as int,
                    start as int,
                    search_window as int,
                ),
            );
        }
        PatchMatch { reference: reference.duplicate(), degraded: best, similarity }
    }

    /// Pairs each reference patch with its best match, in the order of the
    /// reference patches.
    pub fn find_matches(
        &self,
        patches: &Vec<Patch>,
        degraded: &Spectrogram,
        search_window: usize,
    ) -> (matches: Vec<PatchMatch>)
        requires
            self.wf(),
            degraded.wf(),
            forall|i: int|
                0 <= i < patches@.len() ==> (#[trigger] patches@[i]).wf() && patches@[i].bands
                    == degraded.bands && patches@[i]@.len() <= degraded@.len(),
        ensures
            matches@.len() == patches@.len(),
            forall|i: int|
                0 <= i < patches@.len() ==> #[trigger] self.is_match(
                    matches@[i],
                    patches@[i],
                    degraded@,
                    search_window as int,
                ),
    {
        let mut matches: Vec<PatchMatch> = Vec::new();
        let mut i: usize = 0;
        while i < patches.len()
            invariant
                self.wf(),
                degraded.wf(),
                forall|j: int|
                    0 <= j < patches@.len() ==> (#[trigger] patches@[j]).wf() && patches@[j].bands
                        == degraded.bands && patches@[j]@.len() <= degraded@.len(),
                i <= patches@.len(),
                matches@.len() == i,
                forall|j: int|
                    0 <= j < i ==> #[trigger] self.is_match(
                        matches@[j],
                        patches@[j],
                        degraded@,
                        search_window as int,
                    ),
            decreases patches@.len() - i,
        {
            assert(patches@[i as int].wf());
            let found = self.select_best_match(&patches[i], degraded, search_window);
            let ghost before = matches@;
            matches.push(found);
            proof {
                assert forall|j: int| 0 <= j < i + 1 implies #[trigger] self.is_match(
                    matches@[j],
                    patches@[j],
                    degraded@,
                    search_window as int,
                ) by {
                    if j < i {
                        assert(self.is_match(
                            before[j],
                            patches@[j],
                            degraded@,
                            search_window as int,
                        ));
                    }
                }
            }
            i += 1;
        }
        matches
    }
}

/// At most one candidate is chosen over every other.
pub proof fn lemma_best_offset_is_unique(
    selector: ComparisonPatchesSelector,
    reference: Seq<Seq<u16>>,
    degraded: Seq<Seq<u16>>,
    bands: int,
    start: int,
    window: int,
    a: int,
    b: int,
)
    requires
        selector.is_best_offset(reference, degraded, bands, start, window, a),
        selector.is_best_offset(reference, degraded, bands, start, window, b),
    ensures
        a == b,
{
    assert(selector.no_worse(reference, degraded, bands, start, a, b));
    assert(selector.no_worse(reference, degraded, bands, start, b, a));
}

proof fn lemma_best_offset_up_to(
    selector: ComparisonPatchesSelector,
    reference: Seq<Seq<u16>>,
    degraded: Seq<Seq<u16>>,
    bands: int,
    start: int,
    first: int,
    end: int,
) -> (best: int)
    requires
        first < end,
    ensures
        first <= best < end,
        forall|o: int|
            first <= o < end ==> #[trigger] selector.no_worse(
                reference,
                degraded,
                bands,
                start,
                best,
                o,
            ),
    decreases end - first,
{
    if end == first + 1 {
        first
    } else {
        let before = lemma_best_offset_up_to(
            selector,
            reference,
            degraded,
            bands,
            start,
            first,
            end - 1,
        );
        if selector.no_worse(reference, degraded, bands, start, before, end - 1) {
            before
        } else {
            assert forall|o: int| first <= o < end implies #[trigger] selector.no_worse(
                reference,
                degraded,
                bands,
                start,
                end - 1,
                o,
            ) by {
                if o < end - 1 {
                    assert(selector.no_worse(reference, degraded, bands, start, before, o));
                }
            }
            end - 1
        }
    }
}

/// Wherever a patch fits into the degraded grid at all, one candidate is
/// chosen over every other, and `best_offset` is that candidate.
pub proof fn lemma_best_offset_exists(
    selector: ComparisonPatchesSelector,
    reference: Seq<Seq<u16>>,
    degraded: Seq<Seq<u16>>,
    bands: int,
    start: int,
    window: int,
)
    requires
        0 <= start,
        0 <= window,
        reference.len() <= degraded.len(),
    ensures
        selector.is_best_offset(
            reference,
            degraded,
            bands,
            start,
            window,
            selector.best_offset(reference, degraded, bands, start, window),
        ),
{
    let last_start = degraded.len() - reference.len();
    let first = first_candidate(start, window, last_start);
    let last = last_candidate(start, window, last_start);
    let best = lemma_best_offset_up_to(
        selector,
        reference,
        degraded,
        bands,
        start,
        first,
        last + 1,
    );
    assert(selector.is_best_offset(reference, degraded, bands, start, window, best));
}

/// A wider search never finds a worse match: the similarity of the best
/// match within `narrow` frames is at most that of the best match within
/// `wide` frames.
pub proof fn lemma_wider_search_is_no_worse(
    selector: ComparisonPatchesSelector,
    reference: Seq<Seq<u16>>,
    degraded: Seq<Seq<u16>>,
    bands: int,
    start: int,
    narrow: int,
    wide: int,
)
    requires
        0 <= start,
        0 <= narrow <= wide,
        reference.len() <= degraded.len(),
    ensures
        selector.best_similarity(reference, degraded, bands, start, narrow)
            <= selector.best_similarity(reference, degraded, bands, start, wide),
{
    lemma_best_offset_exists(selector, reference, degraded, bands, start, narrow);
    lemma_best_offset_exists(selector, reference, degraded, bands, start, wide);
    let a = selector.best_offset(reference, degraded, bands, start, narrow);
    let b = selector.best_offset(reference, degraded, bands, start, wide);
    let last_start = degraded.len() - reference.len();
    assert(is_candidate(start, wide, last_start, a));
    assert(selector.no_worse(reference, degraded, bands, start, b, a));
}

/// With no search window the reference patch is compared with the degraded
/// patch at its own position, or at the last position where a patch fits.
pub proof fn lemma_exact_position_without_window(
    selector: ComparisonPatchesSelector,
    reference: Seq<Seq<u16>>,
    degraded: Seq<Seq<u16>>,
    bands: int,
    start: int,
)
    requires
        0 <= start,
        reference.len() <= degraded.len(),
    ensures
        selector.best_offset(reference, degraded, bands, start, 0) == (if start <= degraded.len()
            - reference.len() {
            start
        } else {
            degraded.len() - reference.len()
        }),
{
    lemma_best_offset_exists(selector, reference, degraded, bands, start, 0);
}

/// Where the degraded grid holds the reference patch at the patch's own
/// position, that position is its best match, with the full score.
pub proof fn lemma_identical_patch_matches_in_place(
    selector: ComparisonPatchesSelector,
    reference: Seq<Seq<u16>>,
    degraded: Seq<Seq<u16>>,
    bands: int,
    start: int,
    window: int,
)
    requires
        selector.wf(),
        reference.len() > 0,
        bands > 0,
        0 <= start,
        0 <= window,
        start + reference.len() <= degraded.len(),
        degraded.subrange(start, start + reference.len()) == reference,
    ensures
        selector.best_offset(reference, degraded, bands, start, window) == start,
        selector.best_similarity(reference, degraded, bands, start, window) == SCORE_SCALE,
{
    let c1 = selector.measure.luminance_stabiliser as int;
    let c2 = selector.measure.structure_stabiliser as int;
    lemma_identical_grids_score_full(reference, bands, c1, c2);
    let last_start = degraded.len() - reference.len();
    assert forall|o: int| is_candidate(start, window, last_start, o) implies #[trigger] selector.no_worse(
        reference,
        degraded,
        bands,
        start,
        start,
        o,
    ) by {
        lemma_similarity_range(
            reference,
            degraded.subrange(o, o + reference.len()),
            bands,
            c1,
            c2,
        );
    }
    assert(selector.is_best_offset(reference, degraded, bands, start, window, start));
    lemma_best_offset_exists(selector, reference, degraded, bands, start, window);
    lemma_best_offset_is_unique(
        selector,
        reference,
        degraded,
        bands,
        start,
        window,
        start,
        selector.best_offset(reference, degraded, bands, start, window),
    );
}

fn distance_between(a: usize, b: usize) -> (d: usize)
    ensures
        d == distance(a as int, b as int),
{
    if a < b {
        b - a
    } else {
        a - b
    }
}

} // verus!
