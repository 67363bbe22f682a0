use vstd::prelude::*;
use crate::alignment_laws::lemma_peak_iff_both_sound;
use crate::audio_signal::{all_zero, AudioSignal};

verus! {

/// The sample of `s` at position `i`, and silence outside the signal.
pub open spec fn sample_at(s: Seq<i32>, i: int) -> int {
    if 0 <= i < s.len() {
        s[i] as int
    } else {
        0
    }
}

/// The first `n` terms of the correlation at `lag`: the reference sample at
/// `i` is multiplied by the degraded sample `lag` positions later.
pub open spec fn correlation_prefix(reference: Seq<i32>, degraded: Seq<i32>, lag: int, n: nat) -> int
    decreases n,
{
    if n == 0 {
        0
    } else {
        correlation_prefix(reference, degraded, lag, (n - 1) as nat) + sample_at(reference, n - 1)
            * sample_at(degraded, n - 1 + lag)
    }
}

/// Cross-correlation of the two signals at `lag`, the delay of the degraded
/// signal against the reference. Normalising it by the energies of the two
/// signals would divide the value at every lag by the same number, so the
/// lags are compared on the plain sums.
pub open spec fn cross_correlation(reference: Seq<i32>, degraded: Seq<i32>, lag: int) -> int {
    correlation_prefix(reference, degraded, lag, reference.len())
}

/// Absolute value.
pub open spec fn magnitude(x: int) -> int {
    if x < 0 {
        -x
    } else {
        x
    }
}

/// The lags at which the two signals overlap.
pub open spec fn lag_in_range(reference: Seq<i32>, degraded: Seq<i32>, lag: int) -> bool {
    -(reference.len() as int) < lag < degraded.len()
}

/// Whether the correlation is non-zero at some lag.
pub open spec fn has_peak(reference: Seq<i32>, degraded: Seq<i32>) -> bool {
    exists|lag: int| #[trigger]
        lag_in_range(reference, degraded, lag) && cross_correlation(reference, degraded, lag) != 0
}

/// `lag` is the earliest lag at which the correlation magnitude is largest.
pub open spec fn is_best_lag(reference: Seq<i32>, degraded: Seq<i32>, lag: int) -> bool {
    &&& lag_in_range(reference, degraded, lag)
    &&& forall|k: int| #[trigger]
        lag_in_range(reference, degraded, k) ==> magnitude(
            cross_correlation(reference, degraded, k),
        ) <= magnitude(cross_correlation(reference, degraded, lag))
    &&& forall|k: int| #[trigger]
        lag_in_range(reference, degraded, k) && k < lag ==> magnitude(
            cross_correlation(reference, degraded, k),
        ) < magnitude(cross_correlation(reference, degraded, lag))
}

/// The lag that alignment applies.
pub open spec fn best_lag(reference: Seq<i32>, degraded: Seq<i32>) -> int {
    choose|lag: int| is_best_lag(reference, degraded, lag)
}

/// `n` samples of silence.
pub open spec fn silence(n: nat) -> Seq<i32> {
    Seq::new(n, |i: int| 0i32)
}

/// The degraded samples moved to the reference's time: a delay is trimmed
/// from the start, an advance is made up with silence.
pub open spec fn apply_lag_spec(degraded: Seq<i32>, lag: int) -> Seq<i32> {
    if lag >= 0 {
        degraded.subrange(lag, degraded.len() as int)
    } else {
        silence((-lag) as nat) + degraded
    }
}

/// What alignment yields: the aligned samples, or nothing where the
/// correlation has no peak.
pub open spec fn aligned(reference: Seq<i32>, degraded: Seq<i32>) -> Option<Seq<i32>> {
    if has_peak(reference, degraded) {
        Some(apply_lag_spec(degraded, best_lag(reference, degraded)))
    } else {
        None
    }
}

/// At most one lag is the best.
pub proof fn lemma_best_lag_is_unique(reference: Seq<i32>, degraded: Seq<i32>, a: int, b: int)
    requires
        is_best_lag(reference, degraded, a),
        is_best_lag(reference, degraded, b),
    ensures
        a == b,
{
    if a < b {
        assert(lag_in_range(reference, degraded, a));
    } else if b < a {
        assert(lag_in_range(reference, degraded, b));
    }
}

proof fn lemma_product_bound(x: i32, y: i32)
    ensures
        -0x4000_0000_0000_0000 <= (x as int) * (y as int) <= 0x4000_0000_0000_0000,
{
    assert(-0x4000_0000_0000_0000 <= (x as int) * (y as int) <= 0x4000_0000_0000_0000)
        by (nonlinear_arith)
        requires
            -0x8000_0000 <= x <= 0x7fff_ffff,
            -0x8000_0000 <= y <= 0x7fff_ffff,
    ;
}

/// A correlation never exceeds one largest product per reference sample.
proof fn lemma_correlation_bound(reference: Seq<i32>, degraded: Seq<i32>, lag: int, n: nat)
    ensures
        magnitude(correlation_prefix(reference, degraded, lag, n)) <= n * 0x4000_0000_0000_0000,
    decreases n,
{
    if n > 0 {
        lemma_correlation_bound(reference, degraded, lag, (n - 1) as nat);
        let x = sample_at(reference, n - 1);
        let y = sample_at(degraded, n - 1 + lag);
        if 0 <= n - 1 < reference.len() && 0 <= n - 1 + lag < degraded.len() {
            lemma_product_bound(reference[n - 1], degraded[n - 1 + lag]);
        } else {
            assert(x * y == 0) by (nonlinear_arith)
                requires
                    x == 0 || y == 0,
            ;
        }
    }
}

/// Cross-correlation of the two signals at `lag`.
pub fn correlate(reference: &Vec<i32>, degraded: &Vec<i32>, lag: i64) -> (sum: i128)
    ensures
        sum == cross_correlation(reference@, degraded@, lag as int),
{
    let mut sum: i128 = 0;
    let mut i: usize = 0;
    while i < reference.len()
        invariant
            i <= reference@.len(),
            sum == correlation_prefix(reference@, degraded@, lag as int, i as nat),
        decreases reference@.len() - i,
    {
        proof {
            lemma_correlation_bound(reference@, degraded@, lag as int, i as nat);
            lemma_correlation_bound(reference@, degraded@, lag as int, (i + 1) as nat);
        }
        let j: i128 = i as i128 + lag as i128;
        if 0 <= j && j < degraded.len() as i128 {
            let x: i128 = reference[i] as i128;
            let y: i128 = degraded[j as usize] as i128;
            proof {
                lemma_product_bound(reference@[i as int], degraded@[j as int]);
            }
            sum = sum + x * y;
        } else {
            assert(sample_at(reference@, i as int) * sample_at(degraded@, i + lag) == 0);
        }
        i += 1;
    }
    sum
}


/// Outside the lags at which the signals overlap the correlation vanishes.
pub proof fn lemma_correlation_vanishes_without_overlap(
    reference: Seq<i32>,
    degraded: Seq<i32>,
    lag: int,
    n: nat,
)
    requires
        !lag_in_range(reference, degraded, lag),
        n <= reference.len(),
    ensures
        correlation_prefix(reference, degraded, lag, n) == 0,
    decreases n,
{
    if n > 0 {
        lemma_correlation_vanishes_without_overlap(reference, degraded, lag, (n - 1) as nat);
        assert(sample_at(degraded, n - 1 + lag) == 0);
    }
}

/// The earliest largest correlation magnitude among the lags below `end`.
proof fn lemma_best_lag_below(reference: Seq<i32>, degraded: Seq<i32>, end: int) -> (best: int)
    requires
        -(reference.len() as int) + 1 < end <= degraded.len(),
    ensures
        lag_in_range(reference, degraded, best),
        best < end,
        forall|k: int| #[trigger]
            lag_in_range(reference, degraded, k) && k < end ==> magnitude(
                cross_correlation(reference, degraded, k),
            ) <= magnitude(cross_correlation(reference, degraded, best)),
        forall|k: int| #[trigger]
            lag_in_range(reference, degraded, k) && k < best ==> magnitude(
                cross_correlation(reference, degraded, k),
            ) < magnitude(cross_correlation(reference, degraded, best)),
    decreases end + reference.len(),
{
    let first = -(reference.len() as int) + 1;
    if end == first + 1 {
        first
    } else {
        let before = lemma_best_lag_below(reference, degraded, end - 1);
        if magnitude(cross_correlation(reference, degraded, end - 1)) > magnitude(
            cross_correlation(reference, degraded, before),
        ) {
            end - 1
        } else {
            before
        }
    }
}

/// Two non-empty signals have a best lag, and `best_lag` is that lag.
pub proof fn lemma_best_lag_exists(reference: Seq<i32>, degraded: Seq<i32>)
    requires
        reference.len() > 0,
        degraded.len() > 0,
    ensures
        is_best_lag(reference, degraded, best_lag(reference, degraded)),
{
    let best = lemma_best_lag_below(reference, degraded, degraded.len() as int);
    assert(is_best_lag(reference, degraded, best));
}

/// Where the correlation has a peak, its magnitude at the best lag is positive.
proof fn lemma_peak_is_positive(reference: Seq<i32>, degraded: Seq<i32>, lag: int)
    requires
        is_best_lag(reference, degraded, lag),
        has_peak(reference, degraded),
    ensures
        magnitude(cross_correlation(reference, degraded, lag)) > 0,
{
    let k = choose|k: int| #[trigger]
        lag_in_range(reference, degraded, k) && cross_correlation(reference, degraded, k) != 0;
    assert(lag_in_range(reference, degraded, k));
}

fn magnitude_of(x: i128) -> (m: i128)
    requires
        x > i128::MIN,
    ensures
        m == magnitude(x as int),
{
    if x < 0 {
        -x
    } else {
        x
    }
}

/// The lag at which the correlation magnitude peaks, the earliest such lag
/// where several share the peak; nothing where the correlation is zero at
/// every lag.
pub fn find_best_lag(reference: &Vec<i32>, degraded: &Vec<i32>) -> (found: Option<i64>)
    requires
        reference@.len() > 0,
        degraded@.len() > 0,
        reference@.len() + degraded@.len() <= isize::MAX,
    ensures
        found is Some <==> has_peak(reference@, degraded@),
        found matches Some(lag) ==> is_best_lag(reference@, degraded@, lag as int) && lag
            == best_lag(reference@, degraded@),
{
    let first: i64 = 1 - (reference.len() as i64);
    let last: i64 = (degraded.len() as i64) - 1;
    let mut best: i64 = first;
    proof {
        lemma_correlation_bound(reference@, degraded@, first as int, reference@.len());
    }
    let mut peak: i128 = magnitude_of(correlate(reference, degraded, first));
    let mut lag: i64 = first + 1;
    while lag <= last
        invariant
            first == 1 - reference@.len(),
            last == degraded@.len() - 1,
            reference@.len() + degraded@.len() <= isize::MAX,
            first < lag <= last + 1,
            first <= best < lag,
            peak == magnitude(cross_correlation(reference@, degraded@, best as int)),
            forall|k: int| #[trigger]
                lag_in_range(reference@, degraded@, k) && k < lag ==> magnitude(
                    cross_correlation(reference@, degraded@, k),
                ) <= peak,
            forall|k: int| #[trigger]
                lag_in_range(reference@, degraded@, k) && k < best ==> magnitude(
                    cross_correlation(reference@, degraded@, k),
                ) < peak,
        decreases last + 1 - lag,
    {
        proof {
            lemma_correlation_bound(reference@, degraded@, lag as int, reference@.len());
        }
        let here: i128 = magnitude_of(correlate(reference, degraded, lag));
        if here > peak {
            best = lag;
            peak = here;
        }
        lag += 1;
    }
    proof {
        assert(is_best_lag(reference@, degraded@, best as int));
        lemma_best_lag_exists(reference@, degraded@);
        lemma_best_lag_is_unique(
            reference@,
            degraded@,
            best as int,
            best_lag(reference@, degraded@),
        );
    }
    if peak == 0 {
        assert(!has_peak(reference@, degraded@)) by {
            if has_peak(reference@, degraded@) {
                lemma_peak_is_positive(reference@, degraded@, best as int);
            }
        }
        None
    } else {
        assert(lag_in_range(reference@, degraded@, best as int));
        Some(best)
    }
}

/// Moves the degraded samples to the reference's time.
pub fn apply_lag(degraded: &Vec<i32>, lag: i64) -> (moved: Vec<i32>)
    requires
        lag < degraded@.len(),
        degraded@.len() - lag <= usize::MAX,
    ensures
        moved@ == apply_lag_spec(degraded@, lag as int),
{
    let mut moved: Vec<i32> = Vec::new();
    let mut start: usize = 0;
    if lag >= 0 {
        start = lag as usize;
    } else {
        let mut padded: i64 = 0;
        while padded > lag
            invariant
                lag <= padded <= 0,
                moved@ == silence((-padded) as nat),
            decreases padded - lag,
        {
            moved.push(0i32);
            padded -= 1;
            assert(moved@ == silence((-padded) as nat));
        }
    }
    let ghost head = moved@;
    let mut i: usize = start;
    while i < degraded.len()
        invariant
            start <= i <= degraded@.len(),
            moved@ == head + degraded@.subrange(start as int, i as int),
        decreases degraded@.len() - i,
    {
        moved.push(degraded[i]);
        i += 1;
        assert(moved@ == head + degraded@.subrange(start as int, i as int));
    }
    proof {
        if lag >= 0 {
            assert(moved@ == degraded@.subrange(lag as int, degraded@.len() as int));
        } else {
            assert(degraded@.subrange(0, degraded@.len() as int) == degraded@);
        }
    }
    moved
}

/// Aligns the degraded signal to the reference in time: the lag with the
/// largest correlation magnitude is applied to the degraded signal. There is
/// nothing to align by where the correlation is zero at every lag, which is
/// the case exactly when one of the signals is silent throughout.
pub fn globally_align(reference: &AudioSignal, degraded: &AudioSignal) -> (result: Option<
    (AudioSignal, i64),
>)
    requires
        reference.wf(),
        degraded.wf(),
        reference.samples@.len() + degraded.samples@.len() <= isize::MAX,
    ensures
        result is Some <==> has_peak(reference.samples@, degraded.samples@),
        result is None <==> all_zero(reference.samples@) || all_zero(degraded.samples@),
        result matches Some((signal, lag)) ==> {
            &&& is_best_lag(reference.samples@, degraded.samples@, lag as int)
            &&& lag == best_lag(reference.samples@, degraded.samples@)
            &&& signal.samples@ == apply_lag_spec(degraded.samples@, lag as int)
            &&& Some(signal.samples@) == aligned(reference.samples@, degraded.samples@)
            &&& signal.sample_rate == degraded.sample_rate
            &&& signal.wf()
        },
{
    proof {
        lemma_peak_iff_both_sound(reference.samples@, degraded.samples@);
    }
    match find_best_lag(&reference.samples, &degraded.samples) {
        None => None,
        Some(lag) => {
            let samples = apply_lag(&degraded.samples, lag);
            Some((AudioSignal { samples, sample_rate: degraded.sample_rate }, lag))
        },
    }
}


/// The degraded samples with `delay` samples of silence put before them.
pub open spec fn delayed(degraded: Seq<i32>, delay: nat) -> Seq<i32> {
    silence(delay) + degraded
}

proof fn lemma_delay_moves_correlation(
    reference: Seq<i32>,
    degraded: Seq<i32>,
    delay: nat,
    lag: int,
    n: nat,
)
    ensures
        correlation_prefix(reference, delayed(degraded, delay), lag, n) == correlation_prefix(
            reference,
            degraded,
            lag - delay,
            n,
        ),
    decreases n,
{
    if n > 0 {
        lemma_delay_moves_correlation(reference, degraded, delay, lag, (n - 1) as nat);
        assert(sample_at(delayed(degraded, delay), n - 1 + lag) == sample_at(
            degraded,
            n - 1 + lag - delay,
        ));
    }
}

/// Alignment is shift-invariant: delaying the degraded signal by any number
/// of samples of silence moves the best lag by that number, and leaves the
/// aligned signal, or the failure to align, as it was.
pub proof fn lemma_alignment_is_shift_invariant(
    reference: Seq<i32>,
    degraded: Seq<i32>,
    delay: nat,
)
    requires
        reference.len() > 0,
        degraded.len() > 0,
    ensures
        has_peak(reference, delayed(degraded, delay)) == has_peak(reference, degraded),
        has_peak(reference, degraded) ==> best_lag(reference, delayed(degraded, delay))
            == best_lag(reference, degraded) + delay,
        aligned(reference, delayed(degraded, delay)) == aligned(reference, degraded),
{
    let late = delayed(degraded, delay);
    assert forall|k: int|
        cross_correlation(reference, late, k) == #[trigger] cross_correlation(
            reference,
            degraded,
            k - delay,
        ) by {
        lemma_delay_moves_correlation(reference, degraded, delay, k, reference.len());
    }
    if has_peak(reference, degraded) {
        let k = choose|k: int| #[trigger]
            lag_in_range(reference, degraded, k) && cross_correlation(reference, degraded, k) != 0;
        assert(cross_correlation(reference, degraded, k + delay - delay) != 0);
        assert(lag_in_range(reference, late, k + delay));
        assert(has_peak(reference, late));
    }
    if has_peak(reference, late) {
        let k = choose|k: int| #[trigger]
            lag_in_range(reference, late, k) && cross_correlation(reference, late, k) != 0;
        assert(cross_correlation(reference, degraded, k - delay) != 0);
        if !lag_in_range(reference, degraded, k - delay) {
            lemma_correlation_vanishes_without_overlap(
                reference,
                degraded,
                k - delay,
                reference.len(),
            );
        }
        assert(lag_in_range(reference, degraded, k - delay));
        assert(has_peak(reference, degraded));
    }
    if has_peak(reference, degraded) {
        lemma_best_lag_exists(reference, degraded);
        let best = best_lag(reference, degraded);
        lemma_peak_is_positive(reference, degraded, best);
        let top = magnitude(cross_correlation(reference, degraded, best));
        assert(cross_correlation(reference, late, best + delay) == cross_correlation(
            reference,
            degraded,
            best + delay - delay,
        ));
        assert forall|k: int| #[trigger] lag_in_range(reference, late, k) implies magnitude(
            cross_correlation(reference, late, k),
        ) <= top && (k < best + delay ==> magnitude(cross_correlation(reference, late, k))
            < top) by {
            assert(cross_correlation(reference, late, k) == cross_correlation(
                reference,
                degraded,
                k - delay,
            ));
            if !lag_in_range(reference, degraded, k - delay) {
                lemma_correlation_vanishes_without_overlap(
                    reference,
                    degraded,
                    k - delay,
                    reference.len(),
                );
            }
        }
        assert(is_best_lag(reference, late, best + delay));
        lemma_best_lag_exists(reference, late);
        lemma_best_lag_is_unique(reference, late, best + delay, best_lag(reference, late));
        assert(apply_lag_spec(late, best + delay) =~= apply_lag_spec(degraded, best));
    }
}

} // verus!
