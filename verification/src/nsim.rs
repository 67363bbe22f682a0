use vstd::prelude::*;
use crate::constants::{MAX_LEVEL, MAX_PATCH_DIMENSION, SCORE_SCALE};
use crate::patch::{grid_of, rectangular, Patch};

verus! {

/// `i` moved to the nearest index of a sequence of `n` items.
pub open spec fn clamped(i: int, n: int) -> int {
    if i < 0 {
        0
    } else if i >= n {
        n - 1
    } else {
        i
    }
}

/// The nine levels in the frames and bands next to frame `t` and band `b`;
/// at an edge of the grid the outermost level is repeated.
pub open spec fn window(grid: Seq<Seq<u16>>, bands: int, t: int, b: int) -> Seq<int> {
    Seq::new(
        9,
        |k: int|
            grid[clamped(t + k / 3 - 1, grid.len() as int)][clamped(b + k % 3 - 1, bands)] as int,
    )
}

/// Sum of the first `n` items.
pub open spec fn total(s: Seq<int>, n: nat) -> int
    decreases n,
{
    if n == 0 {
        0
    } else {
        total(s, (n - 1) as nat) + s[n - 1]
    }
}

/// Sum of the first `n` products of items at equal positions.
pub open spec fn dot(s: Seq<int>, r: Seq<int>, n: nat) -> int
    decreases n,
{
    if n == 0 {
        0
    } else {
        dot(s, r, (n - 1) as nat) + s[n - 1] * r[n - 1]
    }
}

/// Nine times the sum of products less the product of the sums: 81 times
/// the covariance of two windows, and 81 times its variance for one window
/// taken twice.
pub open spec fn scatter(x: Seq<int>, y: Seq<int>) -> int {
    9 * dot(x, y, 9) - total(x, 9) * total(y, 9)
}

/// Quotient rounded towards zero.
pub open spec fn truncated(n: int, d: int) -> int {
    if n >= 0 {
        n / d
    } else {
        -((-n) / d)
    }
}

/// Numerator of the luminance term, which compares the means of two windows.
pub open spec fn luminance_numerator(x: Seq<int>, y: Seq<int>, c1: int) -> int {
    2 * (total(x, 9) * total(y, 9)) + c1
}

/// Denominator of the luminance term.
pub open spec fn luminance_denominator(x: Seq<int>, y: Seq<int>, c1: int) -> int {
    total(x, 9) * total(x, 9) + total(y, 9) * total(y, 9) + c1
}

/// Numerator of the product of the contrast term, which compares the
/// variances of two windows, and the structure term, their covariance over
/// the product of their standard deviations. With the stabiliser of the
/// structure term set to half that of the contrast term the product is
/// `(2 cov + c2) / (var_x + var_y + c2)`, free of square roots.
pub open spec fn structure_numerator(x: Seq<int>, y: Seq<int>, c2: int) -> int {
    2 * scatter(x, y) + c2
}

/// Denominator of the product of the contrast and structure terms.
pub open spec fn structure_denominator(x: Seq<int>, y: Seq<int>, c2: int) -> int {
    scatter(x, x) + scatter(y, y) + c2
}

/// Similarity of two windows in units of `1 / SCORE_SCALE`: the product of
/// the luminance, contrast and structure terms.
pub open spec fn window_score(x: Seq<int>, y: Seq<int>, c1: int, c2: int) -> int {
    truncated(
        SCORE_SCALE * (luminance_numerator(x, y, c1) * structure_numerator(x, y, c2)),
        luminance_denominator(x, y, c1) * structure_denominator(x, y, c2),
    )
}

/// Sum of the window scores of frame `t` over its first `n` bands.
pub open spec fn row_total(
    a: Seq<Seq<u16>>,
    b: Seq<Seq<u16>>,
    bands: int,
    c1: int,
    c2: int,
    t: int,
    n: nat,
) -> int
    decreases n,
{
    if n == 0 {
        0
    } else {
        row_total(a, b, bands, c1, c2, t, (n - 1) as nat) + window_score(
            window(a, bands, t, n - 1),
            window(b, bands, t, n - 1),
            c1,
            c2,
        )
    }
}

/// Sum of the window scores of the first `n` frames.
pub open spec fn grid_total(
    a: Seq<Seq<u16>>,
    b: Seq<Seq<u16>>,
    bands: int,
    c1: int,
    c2: int,
    n: nat,
) -> int
    decreases n,
{
    if n == 0 {
        0
    } else {
        grid_total(a, b, bands, c1, c2, (n - 1) as nat) + row_total(
            a,
            b,
            bands,
            c1,
            c2,
            n - 1,
            bands as nat,
        )
    }
}

/// Similarity of two grids of equal shape in units of `1 / SCORE_SCALE`: the
/// mean of the scores of the windows around each of their cells.
pub open spec fn nsim(a: Seq<Seq<u16>>, b: Seq<Seq<u16>>, bands: int, c1: int, c2: int) -> int {
    truncated(grid_total(a, b, bands, c1, c2, a.len()), a.len() * bands)
}

/// Whether the first `n` items lie between zero and `MAX_LEVEL`.
spec fn levels(s: Seq<int>, n: nat) -> bool {
    n <= s.len() && forall|i: int| 0 <= i < n ==> 0 <= #[trigger] s[i] <= MAX_LEVEL
}

proof fn lemma_moment_bounds(x: Seq<int>, y: Seq<int>, n: nat)
    requires
        levels(x, n),
        levels(y, n),
    ensures
        0 <= total(x, n) <= n * MAX_LEVEL,
        0 <= dot(x, y, n) <= n * (MAX_LEVEL * MAX_LEVEL),
    decreases n,
{
    if n > 0 {
        lemma_moment_bounds(x, y, (n - 1) as nat);
        let u = x[n - 1];
        let v = y[n - 1];
        assert(0 <= u * v <= 0xffff * 0xffff) by (nonlinear_arith)
            requires
                0 <= u <= 0xffff,
                0 <= v <= 0xffff,
        ;
    }
}

proof fn lemma_squared_deviations(z: Seq<int>, n: nat, c: int)
    ensures
        dot(z, z, n) - 2 * (c * total(z, n)) + n * (c * c) >= 0,
    decreases n,
{
    if n > 0 {
        lemma_squared_deviations(z, (n - 1) as nat, c);
        let d0 = dot(z, z, (n - 1) as nat);
        let t0 = total(z, (n - 1) as nat);
        let v = z[n - 1];
        assert((d0 + v * v) - 2 * (c * (t0 + v)) + n * (c * c) == (d0 - 2 * (c * t0) + (n - 1) * (c
            * c)) + (v - c) * (v - c)) by (nonlinear_arith);
        assert((v - c) * (v - c) >= 0) by (nonlinear_arith);
    } else {
        assert(n * (c * c) == 0) by (nonlinear_arith)
            requires
                n == 0,
        ;
        assert(c * total(z, n) == 0) by (nonlinear_arith)
            requires
                total(z, n) == 0,
        ;
    }
}

/// The square of a sum of `n` numbers is at most `n` times the sum of their squares.
proof fn lemma_square_of_sum(z: Seq<int>, n: nat)
    ensures
        n * dot(z, z, n) >= total(z, n) * total(z, n),
    decreases n,
{
    if n > 0 {
        lemma_square_of_sum(z, (n - 1) as nat);
        let d0 = dot(z, z, (n - 1) as nat);
        let t0 = total(z, (n - 1) as nat);
        let v = z[n - 1];
        lemma_squared_deviations(z, (n - 1) as nat, v);
        assert(n * (d0 + v * v) - (t0 + v) * (t0 + v) == ((n - 1) * d0 - t0 * t0) + (d0 - 2 * (v
            * t0) + (n - 1) * (v * v))) by (nonlinear_arith);
    } else {
        assert(n * dot(z, z, n) == 0) by (nonlinear_arith)
            requires
                n == 0,
        ;
        assert(total(z, n) * total(z, n) == 0) by (nonlinear_arith)
            requires
                total(z, n) == 0,
        ;
    }
}

/// Item by item, `x + sign * y`.
spec fn combined(x: Seq<int>, y: Seq<int>, sign: int) -> Seq<int> {
    Seq::new(x.len(), |i: int| x[i] + sign * y[i])
}

proof fn lemma_combined_moments(x: Seq<int>, y: Seq<int>, sign: int, n: nat)
    requires
        n <= x.len(),
        sign == 1 || sign == -1,
    ensures
        total(combined(x, y, sign), n) == total(x, n) + sign * total(y, n),
        dot(combined(x, y, sign), combined(x, y, sign), n) == dot(x, x, n) + 2 * sign * dot(
            x,
            y,
            n,
        ) + dot(y, y, n),
    decreases n,
{
    if n > 0 {
        lemma_combined_moments(x, y, sign, (n - 1) as nat);
        let u = x[n - 1];
        let v = y[n - 1];
        assert(combined(x, y, sign)[n - 1] == u + sign * v);
        assert((u + sign * v) * (u + sign * v) == u * u + 2 * sign * (u * v) + v * v)
            by (nonlinear_arith)
            requires
                sign == 1 || sign == -1,
        ;
    }
}

/// The variance of a window is not negative, and twice the covariance of two
/// windows lies between plus and minus the sum of their variances.
proof fn lemma_scatter_bounds(x: Seq<int>, y: Seq<int>)
    requires
        x.len() == 9,
        y.len() == 9,
    ensures
        scatter(x, x) >= 0,
        scatter(y, y) >= 0,
        -(scatter(x, x) + scatter(y, y)) <= 2 * scatter(x, y) <= scatter(x, x) + scatter(y, y),
{
    lemma_square_of_sum(x, 9);
    lemma_square_of_sum(y, 9);
    let tx = total(x, 9);
    let ty = total(y, 9);
    let less = combined(x, y, -1);
    lemma_combined_moments(x, y, -1, 9);
    lemma_square_of_sum(less, 9);
    assert((tx + (-1) * ty) * (tx + (-1) * ty) == tx * tx - 2 * (tx * ty) + ty * ty)
        by (nonlinear_arith);
    let more = combined(x, y, 1);
    lemma_combined_moments(x, y, 1, 9);
    lemma_square_of_sum(more, 9);
    assert((tx + 1 * ty) * (tx + 1 * ty) == tx * tx + 2 * (tx * ty) + ty * ty)
        by (nonlinear_arith);
}


/// The neurogram similarity index measure: a structural comparison of two
/// patches, with the constants that keep its quotients defined on silence.
#[derive(Debug, Clone, Copy)]
pub struct NeurogramSimilarityIndexMeasure {
    /// Added to both parts of the luminance term.
    pub luminance_stabiliser: u32,
    /// Added to both parts of the structure term.
    pub structure_stabiliser: u32,
}

struct Moments {
    sx: u64,
    sy: u64,
    sxx: u64,
    syy: u64,
    sxy: u64,
}

fn level_near(frames: &Vec<Vec<u16>>, bands: usize, t: usize, b: usize, k: usize) -> (level: u64)
    requires
        0 < frames@.len() <= MAX_PATCH_DIMENSION,
        0 < bands <= MAX_PATCH_DIMENSION,
        rectangular(grid_of(frames@), bands as int),
        t < frames@.len(),
        b < bands,
        k < 9,
    ensures
        level == window(grid_of(frames@), bands as int, t as int, b as int)[k as int],
        level <= MAX_LEVEL,
{
    let dt: usize = k / 3;
    let db: usize = k % 3;
    let ti: usize = if t + dt < 1 {
        0
    } else if t + dt - 1 >= frames.len() {
        frames.len() - 1
    } else {
        t + dt - 1
    };
    let bi: usize = if b + db < 1 {
        0
    } else if b + db - 1 >= bands {
        bands - 1
    } else {
        b + db - 1
    };
    assert(grid_of(frames@)[ti as int].len() == bands);
    frames[ti][bi] as u64
}

fn window_moments(a: &Patch, b: &Patch, t: usize, band: usize) -> (m: Moments)
    requires
        a.wf(),
        b.wf(),
        a@.len() == b@.len(),
        a.bands == b.bands,
        t < a@.len(),
        band < a.bands,
    ensures
        ({
            let x = window(a@, a.bands as int, t as int, band as int);
            let y = window(b@, a.bands as int, t as int, band as int);
            &&& levels(x, 9)
            &&& levels(y, 9)
            &&& m.sx == total(x, 9)
            &&& m.sy == total(y, 9)
            &&& m.sxx == dot(x, x, 9)
            &&& m.syy == dot(y, y, 9)
            &&& m.sxy == dot(x, y, 9)
        }),
{
    let ghost x = window(a@, a.bands as int, t as int, band as int);
    let ghost y = window(b@, a.bands as int, t as int, band as int);
    let mut m = Moments { sx: 0, sy: 0, sxx: 0, syy: 0, sxy: 0 };
    let mut k: usize = 0;
    while k < 9
        invariant
            a.wf(),
            b.wf(),
            a@.len() == b@.len(),
            a.bands == b.bands,
            t < a@.len(),
            band < a.bands,
            x == window(a@, a.bands as int, t as int, band as int),
            y == window(b@, a.bands as int, t as int, band as int),
            k <= 9,
            levels(x, k as nat),
            levels(y, k as nat),
            m.sx == total(x, k as nat),
            m.sy == total(y, k as nat),
            m.sxx == dot(x, x, k as nat),
            m.syy == dot(y, y, k as nat),
            m.sxy == dot(x, y, k as nat),
        decreases 9 - k,
    {
        let u: u64 = level_near(&a.frames, a.bands, t, band, k);
        let v: u64 = level_near(&b.frames, b.bands, t, band, k);
        proof {
            lemma_moment_bounds(x, y, k as nat);
            lemma_moment_bounds(x, x, k as nat);
            lemma_moment_bounds(y, y, k as nat);
            assert(0 <= u * v <= 0xffff * 0xffff && 0 <= u * u <= 0xffff * 0xffff && 0 <= v * v
                <= 0xffff * 0xffff) by (nonlinear_arith)
                requires
                    0 <= u <= 0xffff,
                    0 <= v <= 0xffff,
            ;
        }
        m.sx = m.sx + u;
        m.sy = m.sy + v;
        m.sxx = m.sxx + u * u;
        m.syy = m.syy + v * v;
        m.sxy = m.sxy + u * v;
        k += 1;
    }
    m
}

/// The quotient of `n` by `d`, rounded towards zero.
pub fn divide_truncating(n: i128, d: i128) -> (q: i128)
    requires
        d > 0,
        n > i128::MIN,
    ensures
        q == truncated(n as int, d as int),
{
    if n >= 0 {
        ((n as u128) / (d as u128)) as i128
    } else {
        let q: u128 = ((-n) as u128) / (d as u128);
        -(q as i128)
    }
}

/// A quotient lies between the bounds that its dividend keeps per unit of
/// the divisor.
pub proof fn lemma_truncated_between(n: int, d: int, low: int, high: int)
    requires
        d > 0,
        low <= 0 <= high,
        low * d <= n <= high * d,
    ensures
        low <= truncated(n, d) <= high,
{
    if n >= 0 {
        assert(0 <= n / d <= high) by (nonlinear_arith)
            requires
                d > 0,
                0 <= n <= high * d,
        ;
    } else {
        let m = -n;
        let most = -low;
        assert(most * d == -(low * d)) by (nonlinear_arith)
            requires
                most == -low,
        ;
        assert(0 <= m / d <= most) by (nonlinear_arith)
            requires
                d > 0,
                0 <= m <= most * d,
        ;
    }
}

proof fn lemma_truncated_bound(n: int, d: int, bound: int)
    requires
        d > 0,
        bound >= 0,
        -(bound * d) <= n <= bound * d,
    ensures
        -bound <= truncated(n, d) <= bound,
{
    assert((-bound) * d == -(bound * d)) by (nonlinear_arith);
    lemma_truncated_between(n, d, -bound, bound);
}

fn score_window(m: &Moments, c1: u32, c2: u32, Ghost(x): Ghost<Seq<int>>, Ghost(y): Ghost<
    Seq<int>,
>) -> (score: i64)
    requires
        c1 > 0,
        c2 > 0,
        x.len() == 9,
        y.len() == 9,
        levels(x, 9),
        levels(y, 9),
        m.sx == total(x, 9),
        m.sy == total(y, 9),
        m.sxx == dot(x, x, 9),
        m.syy == dot(y, y, 9),
        m.sxy == dot(x, y, 9),
    ensures
        score == window_score(x, y, c1 as int, c2 as int),
        -SCORE_SCALE <= score <= SCORE_SCALE,
{
    let sx: i128 = m.sx as i128;
    let sy: i128 = m.sy as i128;
    let sxx: i128 = m.sxx as i128;
    let syy: i128 = m.syy as i128;
    let sxy: i128 = m.sxy as i128;
    proof {
        lemma_moment_bounds(x, y, 9);
        lemma_moment_bounds(x, x, 9);
        lemma_moment_bounds(y, y, 9);
        lemma_scatter_bounds(x, y);
        assert(0 <= sx * sy <= 589815 * 589815 && 0 <= sx * sx <= 589815 * 589815 && 0 <= sy * sy
            <= 589815 * 589815) by (nonlinear_arith)
            requires
                0 <= sx <= 589815,
                0 <= sy <= 589815,
        ;
        assert(sx * sx + sy * sy - 2 * (sx * sy) == (sx - sy) * (sx - sy) && (sx - sy) * (sx - sy)
            >= 0) by (nonlinear_arith);
    }
    let means: i128 = sx * sy;
    let luminance_top: i128 = 2 * means + c1 as i128;
    let luminance_bottom: i128 = sx * sx + sy * sy + c1 as i128;
    let structure_top: i128 = 2 * (9 * sxy - means) + c2 as i128;
    let structure_bottom: i128 = (9 * sxx - sx * sx) + (9 * syy - sy * sy) + c2 as i128;
    assert(luminance_top == luminance_numerator(x, y, c1 as int));
    assert(luminance_bottom == luminance_denominator(x, y, c1 as int));
    assert(structure_top == structure_numerator(x, y, c2 as int));
    assert(structure_bottom == structure_denominator(x, y, c2 as int));
    proof {
        let limit: int = 0x100_0000_0000;
        assert(0 < luminance_top <= luminance_bottom <= limit);
        assert(-structure_bottom <= structure_top <= structure_bottom <= limit);
        assert(-(limit * limit) <= luminance_top * structure_top <= limit * limit && 0
            < luminance_bottom * structure_bottom <= limit * limit) by (nonlinear_arith)
            requires
                0 < luminance_top <= luminance_bottom <= limit,
                -structure_bottom <= structure_top <= structure_bottom <= limit,
                0 < structure_bottom,
        ;
        lemma_window_score_range(x, y, c1 as int, c2 as int);
    }
    let top: i128 = luminance_top * structure_top;
    let bottom: i128 = luminance_bottom * structure_bottom;
    let score: i128 = divide_truncating(SCORE_SCALE as i128 * top, bottom);
    score as i64
}

impl NeurogramSimilarityIndexMeasure {
    /// Both stabilisers are positive, so that no quotient has a zero divisor.
    pub open spec fn wf(&self) -> bool {
        self.luminance_stabiliser > 0 && self.structure_stabiliser > 0
    }

    /// The similarity that this measure assigns to two grids of equal shape.
    pub open spec fn score(&self, a: Seq<Seq<u16>>, b: Seq<Seq<u16>>, bands: int) -> int {
        nsim(a, b, bands, self.luminance_stabiliser as int, self.structure_stabiliser as int)
    }

    /// The measure with the customary stabilisers for levels of sixteen bits:
    /// the squares of one and of three hundredths of the largest level,
    /// brought to the scale of the window sums.
    pub fn new() -> (measure: Self)
        ensures
            measure.luminance_stabiliser == 34_788_174,
            measure.structure_stabiliser == 313_093_561,
            measure.wf(),
    {
        NeurogramSimilarityIndexMeasure {
            luminance_stabiliser: 34_788_174,
            structure_stabiliser: 313_093_561,
        }
    }

    /// Similarity of two patches of equal shape, from `-SCORE_SCALE` for
    /// opposed structure to `SCORE_SCALE` for equal patches.
    pub fn similarity(&self, a: &Patch, b: &Patch) -> (score: i64)
        requires
            self.wf(),
            a.wf(),
            b.wf(),
            a@.len() == b@.len(),
            a.bands == b.bands,
        ensures
            score == self.score(a@, b@, a.bands as int),
            -SCORE_SCALE <= score <= SCORE_SCALE,
    {
        let c1: u32 = self.luminance_stabiliser;
        let c2: u32 = self.structure_stabiliser;
        let width: usize = a.frames.len();
        let bands: usize = a.bands;
        let mut sum: i128 = 0;
        let mut t: usize = 0;
        while t < width
            invariant
                self.wf(),
                a.wf(),
                b.wf(),
                a@.len() == b@.len(),
                a.bands == b.bands,
                c1 == self.luminance_stabiliser,
                c2 == self.structure_stabiliser,
                width == a@.len(),
                bands == a.bands,
                t <= width,
                sum == grid_total(a@, b@, bands as int, c1 as int, c2 as int, t as nat),
                -(t * bands * SCORE_SCALE) <= sum <= t * bands * SCORE_SCALE,
            decreases width - t,
        {
            let mut row: i128 = 0;
            let mut band: usize = 0;
            while band < bands
                invariant
                    self.wf(),
                    a.wf(),
                    b.wf(),
                    a@.len() == b@.len(),
                    a.bands == b.bands,
                    c1 == self.luminance_stabiliser,
                    c2 == self.structure_stabiliser,
                    bands == a.bands,
                    t < a@.len(),
                    band <= bands,
                    row == row_total(
                        a@,
                        b@,
                        bands as int,
                        c1 as int,
                        c2 as int,
                        t as int,
                        band as nat,
                    ),
                    -(band * SCORE_SCALE) <= row <= band * SCORE_SCALE,
                decreases bands - band,
            {
                let m = window_moments(a, b, t, band);
                let score = score_window(
                    &m,
                    c1,
                    c2,
                    Ghost(window(a@, a.bands as int, t as int, band as int)),
                    Ghost(window(b@, a.bands as int, t as int, band as int)),
                );
                row = row + score as i128;
                band += 1;
            }
            proof {
                assert(t * bands * SCORE_SCALE + bands * SCORE_SCALE == (t + 1) * bands
                    * SCORE_SCALE) by (nonlinear_arith);
                assert(0 <= t * bands * SCORE_SCALE <= 0xffff * 0xffff * 1_000_000)
                    by (nonlinear_arith)
                    requires
                        0 <= t <= 0xffff,
                        0 <= bands <= 0xffff,
                ;
            }
            sum = sum + row;
            t += 1;
        }
        proof {
            assert(0 < width * bands <= 0xffff * 0xffff) by (nonlinear_arith)
                requires
                    0 < width <= 0xffff,
                    0 < bands <= 0xffff,
            ;
        }
        let cells: i128 = (width as i128) * (bands as i128);
        proof {
            assert(SCORE_SCALE * (width * bands) == width * bands * SCORE_SCALE)
                by (nonlinear_arith);
            lemma_truncated_bound(sum as int, cells as int, SCORE_SCALE as int);
        }
        divide_truncating(sum, cells) as i64
    }
}


proof fn lemma_equal_windows_score_full(x: Seq<int>, c1: int, c2: int)
    requires
        x.len() == 9,
        c1 > 0,
        c2 > 0,
    ensures
        window_score(x, x, c1, c2) == SCORE_SCALE,
{
    lemma_scatter_bounds(x, x);
    let tx = total(x, 9);
    assert(tx * tx >= 0) by (nonlinear_arith);
    let top = luminance_numerator(x, x, c1) * structure_numerator(x, x, c2);
    let bottom = luminance_denominator(x, x, c1) * structure_denominator(x, x, c2);
    assert(luminance_numerator(x, x, c1) == luminance_denominator(x, x, c1));
    assert(structure_numerator(x, x, c2) == structure_denominator(x, x, c2));
    assert(top == bottom);
    assert(bottom > 0) by (nonlinear_arith)
        requires
            bottom == luminance_denominator(x, x, c1) * structure_denominator(x, x, c2),
            luminance_denominator(x, x, c1) > 0,
            structure_denominator(x, x, c2) > 0,
    ;
    assert(SCORE_SCALE * bottom >= 0 && (SCORE_SCALE * bottom) / bottom == SCORE_SCALE)
        by (nonlinear_arith)
        requires
            bottom > 0,
    ;
}

proof fn lemma_equal_rows_score_full(a: Seq<Seq<u16>>, bands: int, c1: int, c2: int, t: int, n: nat)
    requires
        c1 > 0,
        c2 > 0,
    ensures
        row_total(a, a, bands, c1, c2, t, n) == n * SCORE_SCALE,
    decreases n,
{
    if n > 0 {
        lemma_equal_rows_score_full(a, bands, c1, c2, t, (n - 1) as nat);
        lemma_equal_windows_score_full(window(a, bands, t, n - 1), c1, c2);
    }
}

proof fn lemma_equal_grids_total(a: Seq<Seq<u16>>, bands: int, c1: int, c2: int, n: nat)
    requires
        c1 > 0,
        c2 > 0,
        bands > 0,
    ensures
        grid_total(a, a, bands, c1, c2, n) == SCORE_SCALE * (n * bands),
    decreases n,
{
    if n > 0 {
        lemma_equal_grids_total(a, bands, c1, c2, (n - 1) as nat);
        lemma_equal_rows_score_full(a, bands, c1, c2, n - 1, bands as nat);
        assert(SCORE_SCALE * ((n - 1) * bands) + bands * SCORE_SCALE == SCORE_SCALE * (n * bands))
            by (nonlinear_arith);
    } else {
        assert(SCORE_SCALE * (n * bands) == 0) by (nonlinear_arith)
            requires
                n == 0,
        ;
    }
}

/// A grid is as similar to itself as any two grids can be: its similarity
/// to itself is the full score.
pub proof fn lemma_identical_grids_score_full(a: Seq<Seq<u16>>, bands: int, c1: int, c2: int)
    requires
        a.len() > 0,
        bands > 0,
        c1 > 0,
        c2 > 0,
    ensures
        nsim(a, a, bands, c1, c2) == SCORE_SCALE,
{
    lemma_equal_grids_total(a, bands, c1, c2, a.len());
    let cells = a.len() * bands;
    assert(cells > 0 && SCORE_SCALE * cells >= 0 && (SCORE_SCALE * cells) / cells == SCORE_SCALE)
        by (nonlinear_arith)
        requires
            cells == a.len() * bands,
            a.len() > 0,
            bands > 0,
    ;
}


/// The score of two windows lies between minus and plus the full score.
pub proof fn lemma_window_score_range(x: Seq<int>, y: Seq<int>, c1: int, c2: int)
    requires
        x.len() == 9,
        y.len() == 9,
        c1 > 0,
        c2 > 0,
    ensures
        -SCORE_SCALE <= window_score(x, y, c1, c2) <= SCORE_SCALE,
{
    lemma_scatter_bounds(x, y);
    let tx = total(x, 9);
    let ty = total(y, 9);
    assert(tx * tx + ty * ty - 2 * (tx * ty) == (tx - ty) * (tx - ty) && (tx - ty) * (tx - ty) >= 0
        && tx * tx + ty * ty + 2 * (tx * ty) == (tx + ty) * (tx + ty) && (tx + ty) * (tx + ty)
        >= 0) by (nonlinear_arith);
    let ln = luminance_numerator(x, y, c1);
    let ld = luminance_denominator(x, y, c1);
    let sn = structure_numerator(x, y, c2);
    let sd = structure_denominator(x, y, c2);
    assert(-ld <= ln <= ld && 0 < ld);
    assert(-sd <= sn <= sd && 0 < sd);
    assert(-(ld * sd) <= ln * sn <= ld * sd && 0 < ld * sd) by (nonlinear_arith)
        requires
            -ld <= ln <= ld,
            0 < ld,
            -sd <= sn <= sd,
            0 < sd,
    ;
    assert(-(SCORE_SCALE * (ld * sd)) <= SCORE_SCALE * (ln * sn) <= SCORE_SCALE * (ld * sd));
    lemma_truncated_bound(SCORE_SCALE * (ln * sn), ld * sd, SCORE_SCALE as int);
}

proof fn lemma_row_total_range(
    a: Seq<Seq<u16>>,
    b: Seq<Seq<u16>>,
    bands: int,
    c1: int,
    c2: int,
    t: int,
    n: nat,
)
    requires
        c1 > 0,
        c2 > 0,
    ensures
        -(SCORE_SCALE * n) <= row_total(a, b, bands, c1, c2, t, n) <= SCORE_SCALE * n,
    decreases n,
{
    if n > 0 {
        lemma_row_total_range(a, b, bands, c1, c2, t, (n - 1) as nat);
        lemma_window_score_range(window(a, bands, t, n - 1), window(b, bands, t, n - 1), c1, c2);
    }
}

proof fn lemma_grid_total_range(
    a: Seq<Seq<u16>>,
    b: Seq<Seq<u16>>,
    bands: int,
    c1: int,
    c2: int,
    n: nat,
)
    requires
        c1 > 0,
        c2 > 0,
        bands > 0,
    ensures
        -(SCORE_SCALE * (n * bands)) <= grid_total(a, b, bands, c1, c2, n) <= SCORE_SCALE * (n
            * bands),
    decreases n,
{
    if n > 0 {
        lemma_grid_total_range(a, b, bands, c1, c2, (n - 1) as nat);
        lemma_row_total_range(a, b, bands, c1, c2, n - 1, bands as nat);
        assert(SCORE_SCALE * ((n - 1) * bands) + SCORE_SCALE * bands == SCORE_SCALE * (n * bands))
            by (nonlinear_arith);
    } else {
        assert(SCORE_SCALE * (n * bands) == 0) by (nonlinear_arith)
            requires
                n == 0,
        ;
    }
}

/// The similarity of two grids lies between minus and plus the full score.
pub proof fn lemma_similarity_range(a: Seq<Seq<u16>>, b: Seq<Seq<u16>>, bands: int, c1: int, c2: int)
    requires
        a.len() > 0,
        bands > 0,
        c1 > 0,
        c2 > 0,
    ensures
        -SCORE_SCALE <= nsim(a, b, bands, c1, c2) <= SCORE_SCALE,
{
    lemma_grid_total_range(a, b, bands, c1, c2, a.len());
    let cells = a.len() * bands;
    assert(cells > 0) by (nonlinear_arith)
        requires
            cells == a.len() * bands,
            a.len() > 0,
            bands > 0,
    ;
    lemma_truncated_bound(grid_total(a, b, bands, c1, c2, a.len()), cells, SCORE_SCALE as int);
}

} // verus!
