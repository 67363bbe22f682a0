use vstd::prelude::*;
use crate::alignment::{
    aligned,
    apply_lag_spec,
    best_lag,
    correlation_prefix,
    cross_correlation,
    has_peak,
    is_best_lag,
    lag_in_range,
    lemma_best_lag_exists,
    lemma_best_lag_is_unique,
    magnitude,
    sample_at,
};
use crate::audio_signal::all_zero;

verus! {

proof fn lemma_silence_does_not_correlate(
    reference: Seq<i32>,
    degraded: Seq<i32>,
    lag: int,
    n: nat,
)
    requires
        all_zero(reference) || all_zero(degraded),
    ensures
        correlation_prefix(reference, degraded, lag, n) == 0,
    decreases n,
{
    if n > 0 {
        lemma_silence_does_not_correlate(reference, degraded, lag, (n - 1) as nat);
        let x = sample_at(reference, n - 1);
        let y = sample_at(degraded, n - 1 + lag);
        assert(x * y == 0) by (nonlinear_arith)
            requires
                x == 0 || y == 0,
        ;
    }
}

proof fn lemma_first_sound(s: Seq<i32>, from: int) -> (first: int)
    requires
        0 <= from,
        exists|j: int| from <= j < s.len() && s[j] != 0,
    ensures
        from <= first < s.len(),
        s[first] != 0,
        forall|j: int| from <= j < first ==> s[j] == 0,
    decreases s.len() - from,
{
    let j = choose|j: int| from <= j < s.len() && s[j] != 0;
    if s[from] != 0 {
        from
    } else {
        assert(from + 1 <= j < s.len() && s[j] != 0);
        lemma_first_sound(s, from + 1)
    }
}

proof fn lemma_last_sound(s: Seq<i32>, end: int) -> (last: int)
    requires
        end <= s.len(),
        exists|j: int| 0 <= j < end && s[j] != 0,
    ensures
        0 <= last < end,
        s[last] != 0,
        forall|j: int| last < j < end ==> s[j] == 0,
    decreases end,
{
    let j = choose|j: int| 0 <= j < end && s[j] != 0;
    if s[end - 1] != 0 {
        end - 1
    } else {
        assert(0 <= j < end - 1 && s[j] != 0);
        lemma_last_sound(s, end - 1)
    }
}

proof fn lemma_single_product(
    reference: Seq<i32>,
    degraded: Seq<i32>,
    first: int,
    last: int,
    n: nat,
)
    requires
        0 <= first < reference.len(),
        0 <= last < degraded.len(),
        forall|j: int| 0 <= j < first ==> reference[j] == 0,
        forall|j: int| last < j < degraded.len() ==> degraded[j] == 0,
        n <= reference.len(),
    ensures
        correlation_prefix(reference, degraded, last - first, n) == (if n <= first {
            0
        } else {
            reference[first] * degraded[last]
        }),
    decreases n,
{
    if n > 0 {
        lemma_single_product(reference, degraded, first, last, (n - 1) as nat);
        let x = sample_at(reference, n - 1);
        let y = sample_at(degraded, n - 1 + (last - first));
        if n - 1 != first {
            assert(x * y == 0) by (nonlinear_arith)
                requires
                    x == 0 || y == 0,
            ;
        }
    }
}

/// The correlation of two signals has a peak exactly when neither of them
/// is silent throughout.
pub proof fn lemma_peak_iff_both_sound(reference: Seq<i32>, degraded: Seq<i32>)
    ensures
        has_peak(reference, degraded) <==> !all_zero(reference) && !all_zero(degraded),
{
    if all_zero(reference) || all_zero(degraded) {
        assert forall|lag: int| cross_correlation(reference, degraded, lag) == 0 by {
            lemma_silence_does_not_correlate(reference, degraded, lag, reference.len());
        }
    } else {
        let first = lemma_first_sound(reference, 0);
        let last = lemma_last_sound(degraded, degraded.len() as int);
        lemma_single_product(reference, degraded, first, last, reference.len());
        let x = reference[first] as int;
        let y = degraded[last] as int;
        assert(x * y != 0) by (nonlinear_arith)
            requires
                x != 0,
                y != 0,
        ;
        assert(lag_in_range(reference, degraded, last - first));
    }
}

/// Sum of the squares of the samples at the positions from `low` up to `high`.
spec fn energy_between(s: Seq<i32>, low: int, high: int) -> int
    decreases high - low,
{
    if high <= low {
        0
    } else {
        energy_between(s, low, high - 1) + sample_at(s, high - 1) * sample_at(s, high - 1)
    }
}

/// Sum over the first `n` positions of the squares of a sample plus or
/// minus the sample `lag` positions later.
spec fn squared_gaps(s: Seq<i32>, lag: int, sign: int, n: nat) -> int
    decreases n,
{
    if n == 0 {
        0
    } else {
        squared_gaps(s, lag, sign, (n - 1) as nat) + (sample_at(s, n - 1) + sign * sample_at(
            s,
            n - 1 + lag,
        )) * (sample_at(s, n - 1) + sign * sample_at(s, n - 1 + lag))
    }
}

proof fn lemma_energy_splits(s: Seq<i32>, low: int, middle: int, high: int)
    requires
        low <= middle <= high,
    ensures
        energy_between(s, low, high) == energy_between(s, low, middle) + energy_between(
            s,
            middle,
            high,
        ),
        energy_between(s, low, high) >= 0,
    decreases high - low,
{
    let v = sample_at(s, high - 1);
    assert(v * v >= 0) by (nonlinear_arith);
    if middle < high {
        lemma_energy_splits(s, low, middle, high - 1);
    } else if low < high {
        lemma_energy_splits(s, low, high - 1, high - 1);
    }
}

proof fn lemma_no_energy_outside(s: Seq<i32>, low: int, high: int)
    requires
        high <= 0 || low >= s.len(),
    ensures
        energy_between(s, low, high) == 0,
    decreases high - low,
{
    if low < high {
        lemma_no_energy_outside(s, low, high - 1);
    }
}

proof fn lemma_gaps_expand(s: Seq<i32>, lag: int, sign: int, n: nat)
    requires
        sign == 1 || sign == -1,
    ensures
        squared_gaps(s, lag, sign, n) == energy_between(s, 0, n as int) + energy_between(
            s,
            lag,
            lag + n,
        ) + 2 * sign * correlation_prefix(s, s, lag, n),
    decreases n,
{
    if n > 0 {
        lemma_gaps_expand(s, lag, sign, (n - 1) as nat);
        let x = sample_at(s, n - 1);
        let y = sample_at(s, n - 1 + lag);
        assert((x + sign * y) * (x + sign * y) == x * x + y * y + 2 * sign * (x * y))
            by (nonlinear_arith)
            requires
                sign == 1 || sign == -1,
        ;
    }
}

proof fn lemma_gaps_hold_each_term(s: Seq<i32>, lag: int, sign: int, n: nat, at: int)
    requires
        0 <= at < n,
    ensures
        squared_gaps(s, lag, sign, n) >= (sample_at(s, at) + sign * sample_at(s, at + lag)) * (
        sample_at(s, at) + sign * sample_at(s, at + lag)),
        squared_gaps(s, lag, sign, n) >= 0,
    decreases n,
{
    let v = sample_at(s, n - 1) + sign * sample_at(s, n - 1 + lag);
    assert(v * v >= 0) by (nonlinear_arith);
    if at < n - 1 {
        lemma_gaps_hold_each_term(s, lag, sign, (n - 1) as nat, at);
    } else if n > 1 {
        lemma_gaps_hold_each_term(s, lag, sign, (n - 1) as nat, 0);
    }
}

proof fn lemma_shifted_energy_is_smaller(s: Seq<i32>, lag: int)
    requires
        lag_in_range(s, s, lag),
    ensures
        energy_between(s, lag, lag + s.len()) <= energy_between(s, 0, s.len() as int),
{
    let n = s.len() as int;
    if lag < 0 {
        lemma_energy_splits(s, lag, 0, lag + n);
        lemma_no_energy_outside(s, lag, 0);
        lemma_energy_splits(s, 0, lag + n, n);
        lemma_energy_splits(s, lag + n, n, n);
    } else {
        lemma_energy_splits(s, lag, n, lag + n);
        lemma_no_energy_outside(s, n, lag + n);
        lemma_energy_splits(s, 0, lag, n);
        lemma_energy_splits(s, 0, lag, lag);
    }
}

/// The correlation of a signal with itself is largest where it is not
/// shifted, and smaller at every earlier lag unless the signal is silent.
proof fn lemma_autocorrelation_peaks_unshifted(s: Seq<i32>, lag: int)
    requires
        lag_in_range(s, s, lag),
        !all_zero(s),
    ensures
        magnitude(cross_correlation(s, s, lag)) <= cross_correlation(s, s, 0),
        lag < 0 ==> magnitude(cross_correlation(s, s, lag)) < cross_correlation(s, s, 0),
{
    let n = s.len();
    lemma_shifted_energy_is_smaller(s, lag);
    lemma_gaps_expand(s, lag, 1, n);
    lemma_gaps_expand(s, lag, -1, n);
    lemma_gaps_expand(s, 0, -1, n);
    let first = lemma_first_sound(s, 0);
    lemma_gaps_hold_each_term(s, lag, 1, n, first);
    lemma_gaps_hold_each_term(s, lag, -1, n, first);
    lemma_gaps_hold_each_term(s, 0, -1, n, first);
    assert(squared_gaps(s, 0, -1, n) == 0) by {
        lemma_no_gap_without_shift(s, n);
    }
    if lag < 0 {
        let x = s[first] as int;
        assert(sample_at(s, first + lag) == 0);
        assert((x + 1 * 0) * (x + 1 * 0) > 0 && (x + (-1) * 0) * (x + (-1) * 0) > 0)
            by (nonlinear_arith)
            requires
                x != 0,
        ;
    }
}

proof fn lemma_no_gap_without_shift(s: Seq<i32>, n: nat)
    ensures
        squared_gaps(s, 0, -1, n) == 0,
    decreases n,
{
    if n > 0 {
        lemma_no_gap_without_shift(s, (n - 1) as nat);
        let x = sample_at(s, n - 1);
        assert((x + (-1) * x) * (x + (-1) * x) == 0) by (nonlinear_arith);
    }
}

/// A signal that is not silent is aligned to itself as it stands: the best
/// lag of a signal against itself is zero.
pub proof fn lemma_identical_signals_align_in_place(s: Seq<i32>)
    requires
        !all_zero(s),
    ensures
        has_peak(s, s),
        best_lag(s, s) == 0,
        aligned(s, s) == Some(s),
{
    lemma_peak_iff_both_sound(s, s);
    let first = lemma_first_sound(s, 0);
    assert forall|k: int| #[trigger] lag_in_range(s, s, k) implies magnitude(
        cross_correlation(s, s, k),
    ) <= magnitude(cross_correlation(s, s, 0)) && (k < 0 ==> magnitude(
        cross_correlation(s, s, k),
    ) < magnitude(cross_correlation(s, s, 0))) by {
        lemma_autocorrelation_peaks_unshifted(s, k);
    }
    assert(lag_in_range(s, s, 0));
    assert(is_best_lag(s, s, 0));
    lemma_best_lag_exists(s, s);
    lemma_best_lag_is_unique(s, s, 0, best_lag(s, s));
    assert(apply_lag_spec(s, 0) =~= s);
}

} // verus!
