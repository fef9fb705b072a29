//! What the sums over a window are, for samples on a grid: whole multiples of a power of
//! two, as every recording has them. There the sums are exact, and can be told in plain
//! integers.
use vstd::prelude::*;
use vstd::arithmetic::div_mod::*;
use vstd::arithmetic::power2::*;
use crate::arith::{frame, mean, mono, sum, zero, Operations, TWO};
use crate::pitch::{
    lag, max_lag, min_lag, nsdf_at, pair_sums, rms, sum_squares, MAX_HZ, MIN_HZ,
};
use crate::rounding::{
    counts_rounded, faithful, finite, hits, lemma_finite_like, lemma_grain, lemma_moderate_finite,
    lemma_ratio, lemma_whole_pattern, moderate, rounded, rounds, size, grain,
};
use crate::single::{law_grid_fits, one, Single};

verus! {

/// Whether the samples are the integers `xs`, in steps of `2^k` units.
pub open spec fn on_grid(buf: Seq<Single>, xs: Seq<int>, k: nat) -> bool {
    &&& buf.len() == xs.len()
    &&& forall|i: int|
        0 <= i < buf.len() ==> finite(#[trigger] buf[i]) && buf[i].units() == xs[i] * pow2(k)
}

/// The sum of the first `n` integers.
pub open spec fn total(xs: Seq<int>, n: nat) -> int
    decreases n,
{
    if n == 0 {
        0
    } else {
        total(xs, (n - 1) as nat) + xs[n - 1]
    }
}

/// The sum of the squares of the first `n` integers.
pub open spec fn power_of(xs: Seq<int>, n: nat) -> int
    decreases n,
{
    if n == 0 {
        0
    } else {
        power_of(xs, (n - 1) as nat) + xs[n - 1] * xs[n - 1]
    }
}

/// The sum of the products of the first `n` integers with those `tau` later.
pub open spec fn correlation(xs: Seq<int>, tau: int, n: nat) -> int
    decreases n,
{
    if n == 0 {
        0
    } else {
        correlation(xs, tau, (n - 1) as nat) + xs[n - 1] * xs[n - 1 + tau]
    }
}

/// The sum of the squared differences of the first `n` integers and those `tau` later.
pub open spec fn difference(xs: Seq<int>, tau: int, n: nat) -> int
    decreases n,
{
    if n == 0 {
        0
    } else {
        let d = xs[n - 1] - xs[n - 1 + tau];
        difference(xs, tau, (n - 1) as nat) + d * d
    }
}

/// The energy of the first `n` pairs: the squares of both.
pub open spec fn energy(xs: Seq<int>, tau: int, n: nat) -> int {
    power_of(xs, n) + power_of(xs.skip(tau), n)
}

/// Sums of squares do not fall.
proof fn lemma_power_grows(xs: Seq<int>, m: nat, n: nat)
    requires
        m <= n,
    ensures
        0 <= power_of(xs, m) <= power_of(xs, n),
    decreases n,
{
    if n > 0 {
        let x = xs[n - 1];
        assert(x * x >= 0) by (nonlinear_arith);
        if m < n {
            lemma_power_grows(xs, m, (n - 1) as nat);
        } else {
            lemma_power_grows(xs, (n - 1) as nat, (n - 1) as nat);
        }
    }
}

/// The square difference: the energy less twice the correlation. So the correlation is
/// between minus and plus half the energy.
proof fn lemma_square_difference(xs: Seq<int>, tau: int, n: nat)
    requires
        0 <= tau,
        n + tau <= xs.len(),
    ensures
        difference(xs, tau, n) == energy(xs, tau, n) - 2 * correlation(xs, tau, n),
        difference(xs, tau, n) >= 0,
        -energy(xs, tau, n) <= 2 * correlation(xs, tau, n) <= energy(xs, tau, n),
    decreases n,
{
    if n > 0 {
        lemma_square_difference(xs, tau, (n - 1) as nat);
        let a = xs[n - 1];
        let b = xs[n - 1 + tau];
        assert(xs.skip(tau)[n - 1] == b);
        assert((a - b) * (a - b) == a * a + b * b - 2 * (a * b)) by (nonlinear_arith);
        assert((a + b) * (a + b) == a * a + b * b + 2 * (a * b)) by (nonlinear_arith);
        assert((a - b) * (a - b) >= 0 && (a + b) * (a + b) >= 0) by (nonlinear_arith);
    }
}

/// The scale of a product of two samples on the grid.
proof fn lemma_square_grid(k: nat)
    requires
        86 <= k <= 149,
    ensures
        pow2(k) * pow2(k) == pow2((2 * k - 149) as nat) * one(),
        0 < pow2((2 * k - 149) as nat) <= one(),
        23 <= 2 * k - 149 <= 149,
{
    lemma_pow2_adds(k, k);
    lemma_pow2_adds((2 * k - 149) as nat, 149);
    lemma_pow2_pos((2 * k - 149) as nat);
    if 2 * k - 149 < 149 {
        lemma_pow2_strictly_increases((2 * k - 149) as nat, 149);
    }
}

/// A product on the grid is exact.
proof fn lemma_grid_product(ops: Operations, a: Single, b: Single, x: int, y: int, k: nat)
    requires
        faithful(ops),
        86 <= k <= 149,
        finite(a),
        finite(b),
        a.units() == x * pow2(k),
        b.units() == y * pow2(k),
        -0x100_0000 < x * y < 0x100_0000,
    ensures
        finite((ops.times)(a, b)),
        (ops.times)(a, b).units() == (x * y) * pow2((2 * k - 149) as nat),
{
    lemma_square_grid(k);
    let g = pow2(k) as int;
    let p = pow2((2 * k - 149) as nat) as int;
    let o = one();
    let c = law_grid_fits(x * y, (2 * k - 149) as nat);
    assert((x * g) * (y * g) == ((x * y) * p) * o) by (nonlinear_arith)
        requires
            g * g == p * o,
    ;
    assert(hits((ops.times)(a, b), c));
    lemma_finite_like((ops.times)(a, b), c);
}

/// A sum on a grid is exact.
proof fn lemma_grid_sum(ops: Operations, a: Single, b: Single, x: int, y: int, j: nat)
    requires
        faithful(ops),
        23 <= j <= 253,
        finite(a),
        finite(b),
        a.units() == x * pow2(j),
        b.units() == y * pow2(j),
        -0x100_0000 < x + y < 0x100_0000,
    ensures
        finite((ops.plus)(a, b)),
        (ops.plus)(a, b).units() == (x + y) * pow2(j),
{
    let p = pow2(j) as int;
    let c = law_grid_fits(x + y, j);
    assert(x * p + y * p == (x + y) * p) by (nonlinear_arith);
    assert(hits((ops.plus)(a, b), c));
    lemma_finite_like((ops.plus)(a, b), c);
}

/// The sums over pairs, on the grid.
proof fn lemma_pair_sums(
    ops: Operations,
    buf: Seq<Single>,
    xs: Seq<int>,
    k: nat,
    tau: int,
    n: nat,
)
    requires
        faithful(ops),
        86 <= k <= 149,
        on_grid(buf, xs, k),
        0 <= tau,
        n + tau <= buf.len(),
        energy(xs, tau, n) < 0x100_0000,
    ensures
        ({
            let sums = pair_sums(ops, buf, tau, n);
            let p = pow2((2 * k - 149) as nat) as int;
            &&& finite(sums.0)
            &&& finite(sums.1)
            &&& sums.0.units() == correlation(xs, tau, n) * p
            &&& sums.1.units() == energy(xs, tau, n) * p
        }),
    decreases n,
{
    let j = (2 * k - 149) as nat;
    let p = pow2(j) as int;
    lemma_square_grid(k);
    if n == 0 {
        assert(0 * p == 0);
        assert(zero().units() == 0);
    } else {
        let m = (n - 1) as nat;
        let a = buf[n - 1];
        let b = buf[n - 1 + tau];
        let x = xs[n - 1];
        let y = xs[n - 1 + tau];
        lemma_power_grows(xs, m, n);
        lemma_power_grows(xs.skip(tau), m, n);
        assert(xs.skip(tau)[n - 1] == y);
        lemma_pair_sums(ops, buf, xs, k, tau, m);
        lemma_square_difference(xs, tau, m);
        lemma_square_difference(xs, tau, n);
        assert(-(x * x + y * y) <= 2 * (x * y) <= x * x + y * y && x * x >= 0 && y * y >= 0)
            by (nonlinear_arith);
        let before = pair_sums(ops, buf, tau, m);
        lemma_grid_product(ops, a, b, x, y, k);
        lemma_grid_product(ops, a, a, x, x, k);
        lemma_grid_product(ops, b, b, y, y, k);
        let ab = (ops.times)(a, b);
        let aa = (ops.times)(a, a);
        let bb = (ops.times)(b, b);
        lemma_grid_sum(ops, aa, bb, x * x, y * y, j);
        let both = (ops.plus)(aa, bb);
        lemma_grid_sum(ops, before.0, ab, correlation(xs, tau, m), x * y, j);
        lemma_grid_sum(ops, before.1, both, energy(xs, tau, m), x * x + y * y, j);
    }
}

/// The NSDF is what its name says: over all pairs of samples that are `tau` apart, one
/// less the sum of their squared differences over the sum of their squares; 0 where those
/// are 0.
pub proof fn law_score_is_square_difference(
    ops: Operations,
    buf: Seq<Single>,
    xs: Seq<int>,
    k: nat,
    tau: int,
)
    requires
        faithful(ops),
        rounded(ops),
        86 <= k <= 149,
        on_grid(buf, xs, k),
        0 <= tau <= buf.len(),
        energy(xs, tau, (xs.len() - tau) as nat) < 0x100_0000,
    ensures
        ({
            let n = (xs.len() - tau) as nat;
            let squares = energy(xs, tau, n);
            let score = nsdf_at(ops, buf, tau);
            &&& squares == 0 ==> score == zero()
            &&& squares > 0 ==> {
                &&& !score.nan()
                &&& size(score.units() * squares - (squares - difference(xs, tau, n)) * one())
                    * 0x100_0000 <= squares * one() + 0x100_0000 * squares
            }
        }),
{
    let o = one();
    let n = (xs.len() - tau) as nat;
    let j = (2 * k - 149) as nat;
    let p = pow2(j) as int;
    let e = energy(xs, tau, n);
    let c = correlation(xs, tau, n);
    let sums = pair_sums(ops, buf, tau, n);
    lemma_grain();
    lemma_square_grid(k);
    lemma_pair_sums(ops, buf, xs, k, tau, n);
    lemma_square_difference(xs, tau, n);
    lemma_power_grows(xs, 0, n);
    lemma_power_grows(xs.skip(tau), 0, n);
    assert(e == 0 ==> e * p == 0);
    if e > 0 {
        assert(0 < e * p && e * p <= 0x100_0000 * o && size(c * p) <= e * p && size((2 * c) * p)
            <= e * p) by (nonlinear_arith)
            requires
                0 < e < 0x100_0000,
                -e <= 2 * c <= e,
                0 < p <= o,
        ;
        let two = Single { bits: TWO };
        lemma2_to64();
        lemma_whole_pattern(two, 128, 2);
        let twice = law_grid_fits(2 * c, j);
        assert((2 * o) * (c * p) == ((2 * c) * p) * o) by (nonlinear_arith);
        let t = (ops.times)(two, sums.0);
        assert(hits(t, twice));
        let score = (ops.over)(t, sums.1);
        assert(rounds(score, ((2 * c) * p) * o, e * p));
        let s = score.units();
        let d = 2 * c;
        assert(size(s * e - d * o) * 0x100_0000 <= size(d * o) + 0x100_0000 * e)
            by (nonlinear_arith)
            requires
                size(s * (e * p) - (d * p) * o) * 0x100_0000 <= size((d * p) * o) + 0x100_0000 * (e
                    * p),
                p > 0,
                o > 0,
        ;
        assert(size(d * o) <= e * o) by (nonlinear_arith)
            requires
                -e <= d <= e,
                o > 0,
        ;
    }
}

/// The sum of squares, on the grid.
proof fn lemma_sum_squares(ops: Operations, buf: Seq<Single>, xs: Seq<int>, k: nat, n: nat)
    requires
        faithful(ops),
        86 <= k <= 149,
        on_grid(buf, xs, k),
        n <= buf.len(),
        power_of(xs, n) < 0x100_0000,
    ensures
        ({
            let squares = sum_squares(ops, buf.take(n as int));
            &&& finite(squares)
            &&& squares.units() == power_of(xs, n) * pow2((2 * k - 149) as nat)
        }),
    decreases n,
{
    let j = (2 * k - 149) as nat;
    let p = pow2(j) as int;
    lemma_square_grid(k);
    if n == 0 {
        assert(0 * p == 0);
        assert(zero().units() == 0);
    } else {
        let m = (n - 1) as nat;
        let x = xs[n - 1];
        lemma_power_grows(xs, m, n);
        lemma_power_grows(xs, 0, m);
        lemma_sum_squares(ops, buf, xs, k, m);
        assert(buf.take(n as int).drop_last() =~= buf.take(m as int));
        assert(x * x >= 0) by (nonlinear_arith);
        lemma_grid_product(ops, buf[n - 1], buf[n - 1], x, x, k);
        let xx = (ops.times)(buf[n - 1], buf[n - 1]);
        lemma_grid_sum(ops, sum_squares(ops, buf.take(m as int)), xx, power_of(xs, m), x * x, j);
    }
}

/// Whether a square root, squared, is the number again, up to rounding.
pub open spec fn root_rounded(ops: Operations) -> bool {
    forall|a: Single|
        moderate(a) && a.units() >= 0 ==> {
            let r = #[trigger] (ops.root)(a);
            &&& !r.nan()
            &&& r.units() >= 0
            &&& size(r.units() * r.units() - a.units() * one()) * 0x40_0000 <= a.units() * one()
        }
}

/// A mean of `t` over `n` is no more than twice the greatest total.
proof fn lemma_mean_size(m: int, n: int, t: int)
    requires
        size(m * n - t) * 0x100_0000 <= t + 0x100_0000 * n,
        t >= 0,
        n >= 1,
    ensures
        m <= 2 * t + 1,
        t > 0 ==> m >= 0,
{
    assert(m <= 2 * t + 1) by (nonlinear_arith)
        requires
            (m * n - t) * 0x100_0000 <= t + 0x100_0000 * n,
            t >= 0,
            n >= 1,
    ;
    assert(t > 0 ==> m >= 0) by (nonlinear_arith)
        requires
            (t - m * n) * 0x100_0000 <= t + 0x100_0000 * n,
            n >= 1,
    ;
}

/// The square of the root of a mean, times the number, is the total.
proof fn lemma_root_of_mean(ops: Operations, mean: Single, n: int, t: int)
    requires
        root_rounded(ops),
        moderate(mean),
        mean.units() >= 0,
        size(mean.units() * n - t) * 0x100_0000 <= t + 0x100_0000 * n,
        t >= 0,
        n >= 1,
    ensures
        ({
            let r = (ops.root)(mean);
            &&& !r.nan()
            &&& r.units() >= 0
            &&& size(r.units() * r.units() * n - t * one()) * 0x10_0000 <= t * one()
                + 0x100_0000 * (n * one())
        }),
{
    lemma_grain();
    let o = one();
    let r = (ops.root)(mean).units();
    let m = mean.units();
    let d = r * r - m * o;
    let e = m * n - t;
    assert(r * r * n - t * o == d * n + e * o && (m * n) * o == t * o + e * o)
        by (nonlinear_arith)
        requires
            d == r * r - m * o,
            e == m * n - t,
    ;
    assert(size(d * n) * 0x40_0000 <= (m * n) * o) by (nonlinear_arith)
        requires
            size(d) * 0x40_0000 <= m * o,
            n >= 1,
    ;
    assert(size(e * o) * 0x100_0000 <= t * o + 0x100_0000 * (n * o)) by (nonlinear_arith)
        requires
            size(e) * 0x100_0000 <= t + 0x100_0000 * n,
            o > 0,
    ;
    assert(t * o >= 0 && n * o >= 0) by (nonlinear_arith)
        requires
            t >= 0,
            n >= 1,
            o > 0,
    ;
}

/// The level is the root mean square: its square, times the number of samples, is the sum
/// of their squares, up to rounding.
pub proof fn law_level_is_root_mean_square(
    ops: Operations,
    buf: Seq<Single>,
    xs: Seq<int>,
    k: nat,
)
    requires
        faithful(ops),
        rounded(ops),
        counts_rounded(ops),
        root_rounded(ops),
        86 <= k <= 149,
        on_grid(buf, xs, k),
        1 <= buf.len() <= 0x100_0000,
        power_of(xs, xs.len()) < 0x100_0000,
    ensures
        ({
            let level = rms(ops, buf).units();
            let squares = power_of(xs, xs.len()) * (pow2(k) * pow2(k));
            &&& !rms(ops, buf).nan()
            &&& level >= 0
            &&& size(level * level * buf.len() - squares) * 0x10_0000 <= squares + 0x100_0000
                * buf.len() * one()
        }),
{
    let o = one();
    let n = buf.len() as int;
    let j = (2 * k - 149) as nat;
    let p = pow2(j) as int;
    let q = power_of(xs, xs.len());
    let squares = sum_squares(ops, buf);
    lemma_grain();
    lemma_square_grid(k);
    lemma_sum_squares(ops, buf, xs, k, xs.len());
    assert(buf.take(n) =~= buf);
    lemma_power_grows(xs, 0, xs.len());
    let t = q * p;
    assert(0 <= t <= 0x100_0000 * o) by (nonlinear_arith)
        requires
            0 <= q < 0x100_0000,
            0 < p <= o,
            t == q * p,
    ;
    let count = (ops.of_u64)(buf.len() as u64);
    assert(count.units() == n * o);
    assert(o <= n * o <= 0x100_0000 * o) by (nonlinear_arith)
        requires
            1 <= n <= 0x100_0000,
            o > 0,
    ;
    let mean = (ops.over)(squares, count);
    assert(rounds(mean, t * o, n * o));
    let m = mean.units();
    assert(size(m * n - t) * 0x100_0000 <= t + 0x100_0000 * n) by (nonlinear_arith)
        requires
            size(m * (n * o) - t * o) * 0x100_0000 <= size(t * o) + 0x100_0000 * (n * o),
            t >= 0,
            o > 0,
    ;
    lemma_mean_size(m, n, t);
    if t == 0 {
        lemma_moderate_finite(count);
        assert(zero().units() == 0);
        assert(t * o == 0 * (n * o)) by (nonlinear_arith)
            requires
                t == 0,
        ;
        assert(hits(mean, zero()));
    }
    lemma_root_of_mean(ops, mean, n, t);
    assert(q * (pow2(k) * pow2(k)) == t * o) by (nonlinear_arith)
        requires
            t == q * p,
            pow2(k) * pow2(k) == p * o,
    ;
    let r = rms(ops, buf).units();
    assert(0x100_0000 * buf.len() * one() == 0x100_0000 * (n * o)) by (nonlinear_arith)
        requires
            n == buf.len(),
            o == one(),
    ;
}

/// The sum of the first samples of a frame, on the grid.
proof fn lemma_sum(ops: Operations, buf: Seq<Single>, xs: Seq<int>, k: nat, n: nat)
    requires
        faithful(ops),
        23 <= k <= 149,
        on_grid(buf, xs, k),
        n <= buf.len(),
        forall|m: nat| m <= n ==> -0x100_0000 < #[trigger] total(xs, m) < 0x100_0000,
    ensures
        finite(sum(ops, buf.take(n as int))),
        sum(ops, buf.take(n as int)).units() == total(xs, n) * pow2(k),
    decreases n,
{
    if n == 0 {
        assert(0 * pow2(k) == 0);
        assert(zero().units() == 0);
    } else {
        let m = (n - 1) as nat;
        lemma_sum(ops, buf, xs, k, m);
        assert(buf.take(n as int).drop_last() =~= buf.take(m as int));
        assert(-0x100_0000 < total(xs, n) < 0x100_0000);
        lemma_grid_sum(
            ops,
            sum(ops, buf.take(m as int)),
            buf[n - 1],
            total(xs, m),
            xs[n - 1],
            k,
        );
    }
}

/// The mean of a frame, on the grid.
proof fn lemma_mean(ops: Operations, one_frame: Seq<Single>, t: int, k: nat)
    requires
        faithful(ops),
        rounded(ops),
        counts_rounded(ops),
        23 <= k <= 149,
        1 <= one_frame.len() <= 0x100_0000,
        finite(sum(ops, one_frame)),
        sum(ops, one_frame).units() == t * pow2(k),
        -0x100_0000 < t < 0x100_0000,
    ensures
        ({
            let mixed = mean(ops, one_frame);
            let whole = t * pow2(k);
            let n = one_frame.len() as int;
            &&& !mixed.nan()
            &&& size(mixed.units() * n - whole) * 0x100_0000 <= size(whole) + 0x100_0000 * n
            &&& n == 1 ==> mixed.units() == whole
        }),
{
    let o = one();
    let n = one_frame.len() as int;
    let s = sum(ops, one_frame);
    let g = pow2(k) as int;
    let w = t * g;
    lemma_grain();
    lemma_pow2_pos(k);
    if k < 149 {
        lemma_pow2_strictly_increases(k, 149);
    }
    assert(size(w) <= 0x100_0000 * o) by (nonlinear_arith)
        requires
            w == t * g,
            -0x100_0000 < t < 0x100_0000,
            0 < g <= o,
    ;
    let count = (ops.of_u64)(one_frame.len() as u64);
    assert(count.units() == n * o);
    assert(o <= n * o <= 0x100_0000 * o) by (nonlinear_arith)
        requires
            1 <= n <= 0x100_0000,
            o > 0,
    ;
    let mixed = (ops.over)(s, count);
    assert(rounds(mixed, w * o, n * o));
    let m = mixed.units();
    assert(size(m * n - w) * 0x100_0000 <= size(w) + 0x100_0000 * n) by (nonlinear_arith)
        requires
            size(m * (n * o) - w * o) * 0x100_0000 <= size(w * o) + 0x100_0000 * (n * o),
            o > 0,
    ;
    if n == 1 {
        lemma_moderate_finite(count);
        assert(n * o == o && w * o == w * (n * o)) by (nonlinear_arith)
            requires
                n == 1,
        ;
        assert(hits(mixed, s));
    }
}

/// Mixing down takes the mean over the channels: the mixed sample, times the number of
/// channels, is the sum of the frame, up to rounding. One channel is kept as it is.
pub proof fn law_mix_is_mean(
    ops: Operations,
    samples: Seq<Single>,
    xs: Seq<int>,
    k: nat,
    channels: int,
    f: int,
)
    requires
        faithful(ops),
        rounded(ops),
        counts_rounded(ops),
        23 <= k <= 149,
        on_grid(samples, xs, k),
        1 <= channels <= 0x100_0000,
        0 <= f,
        (f + 1) * channels <= samples.len(),
        forall|m: nat|
            m <= channels ==> -0x100_0000 < #[trigger] total(xs.skip(f * channels), m)
                < 0x100_0000,
    ensures
        ({
            let mixed = mono(ops, samples, channels)[f];
            let whole = total(xs.skip(f * channels), channels as nat) * pow2(k);
            &&& f < mono(ops, samples, channels).len()
            &&& !mixed.nan()
            &&& size(mixed.units() * channels - whole) * 0x100_0000 <= size(whole) + 0x100_0000
                * channels
            &&& channels == 1 ==> mixed.units() == samples[f].units()
        }),
{
    let at = f * channels;
    assert((f + 1) * channels == at + channels && at >= 0) by (nonlinear_arith)
        requires
            at == f * channels,
            f >= 0,
            channels >= 1,
    ;
    lemma_div_is_ordered((f + 1) * channels, samples.len() as int, channels);
    lemma_div_by_multiple(f + 1, channels);
    assert(f < samples.len() as int / channels);
    let part = samples.skip(at);
    let ints = xs.skip(at);
    let one_frame = frame(samples, channels, f);
    assert(part.take(channels) =~= one_frame);
    assert forall|i: int| 0 <= i < part.len() implies finite(#[trigger] part[i])
        && part[i].units() == ints[i] * pow2(k) by {
        assert(finite(samples[at + i]));
    }
    lemma_sum(ops, part, ints, k, channels as nat);
    assert(-0x100_0000 < total(ints, channels as nat) < 0x100_0000);
    lemma_mean(ops, one_frame, total(ints, channels as nat), k);
    assert(mono(ops, samples, channels)[f] == mean(ops, one_frame));
    if channels == 1 {
        assert(total(ints, 0) == 0);
        assert(total(ints, 1) == total(ints, 0) + ints[0]);
        assert(at == f);
        assert(finite(samples[f]));
    }
}

/// The lag of a whole number of hertz is the whole part of the quotient.
proof fn lemma_lag(ops: Operations, sample_rate: u32, hz: u32, n: int, most: int)
    requires
        rounded(ops),
        faithful(ops),
        counts_rounded(ops),
        sample_rate <= 0x10_0000,
        (Single { bits: hz }).units() == n * one(),
        !(Single { bits: hz }).nan(),
        60 <= n <= 1200,
        most * n >= 0x10_0000,
        0 < most <= 0x1_0000,
        (most / 8 + 2) * n < 0x20_0000,
    ensures
        lag(ops, sample_rate, hz) == sample_rate as int / n,
{
    lemma_grain();
    let o = one();
    let u = grain();
    let x = sample_rate as int;
    let rate = (ops.of_u64)(sample_rate as u64);
    let pitch = Single { bits: hz };
    let period = (ops.over)(rate, pitch);
    let whole = x / n;
    let rest = x % n;
    lemma_fundamental_div_mod(x, n);
    lemma_mod_bound(x, n);
    lemma_div_pos_is_pos(x, n);
    assert(rate.units() == x * o);
    assert(60 * o <= n * o <= 1200 * o && 0 <= x * o <= 0x10_0000 * o) by (nonlinear_arith)
        requires
            60 <= n <= 1200,
            0 <= x <= 0x10_0000,
            o > 0,
    ;
    let error = (most / 8 + 2) * u;
    assert((x * o) * o <= (most * o) * (n * o)) by (nonlinear_arith)
        requires
            0 <= x <= most * n,
            o > 0,
    ;
    assert((x * o) * o >= 0) by (nonlinear_arith)
        requires
            x >= 0,
            o > 0,
    ;
    assert(most * o + 0x100_0000 <= error * 0x100_0000) by (nonlinear_arith)
        requires
            o == 0x20_0000 * u,
            u >= 0x1_0000_0000,
            error == (most / 8 + 2) * u,
            most > 0,
    ;
    lemma_ratio(ops, rate, pitch, most * o, error);
    let q = period.units();
    assert(size(q * n - x * o) <= error * n) by (nonlinear_arith)
        requires
            size(q * (n * o) - (x * o) * o) <= error * (n * o),
            o > 0,
    ;
    if rest == 0 {
        assert(0 <= whole <= 0x1_0000) by (nonlinear_arith)
            requires
                x == n * whole,
                0 <= x <= 0x10_0000,
                n >= 60,
        ;
        let exact = (ops.of_u64)(whole as u64);
        assert(exact.units() == whole * o);
        assert(0 <= whole * o <= 0x1_0000 * o) by (nonlinear_arith)
            requires
                0 <= whole <= 0x1_0000,
                o > 0,
        ;
        lemma_moderate_finite(exact);
        lemma_moderate_finite(rate);
        lemma_moderate_finite(pitch);
        assert((x * o) * o == (whole * o) * (n * o)) by (nonlinear_arith)
            requires
                x == n * whole,
        ;
        assert(hits(period, exact));
        assert(whole * o <= q < (whole + 1) * o) by (nonlinear_arith)
            requires
                q == whole * o,
                o > 0,
        ;
    } else {
        assert(error * n < o) by (nonlinear_arith)
            requires
                error == (most / 8 + 2) * u,
                (most / 8 + 2) * n < 0x20_0000,
                o == 0x20_0000 * u,
                u > 0,
        ;
        assert(whole * o <= q < (whole + 1) * o) by (nonlinear_arith)
            requires
                size(q * n - x * o) <= error * n,
                error * n < o,
                x == n * whole + rest,
                1 <= rest <= n - 1,
                n >= 60,
        ;
    }
    assert(q == o * whole + (q - whole * o) && (whole + 1) * o == whole * o + o)
        by (nonlinear_arith);
    lemma_fundamental_div_mod_converse(q, o, whole, q - whole * o);
}

/// The range of lags: those of the frequencies from 60 Hz to 1200 Hz, in whole samples.
pub proof fn law_range_of_lags(ops: Operations, sample_rate: u32)
    requires
        rounded(ops),
        faithful(ops),
        counts_rounded(ops),
        sample_rate <= 0x10_0000,
    ensures
        min_lag(ops, sample_rate) == sample_rate as int / 1200,
        max_lag(ops, sample_rate) == sample_rate as int / 60,
{
    lemma2_to64();
    lemma_whole_pattern(Single { bits: MIN_HZ }, 132, 60);
    lemma_whole_pattern(Single { bits: MAX_HZ }, 137, 1200);
    lemma_lag(ops, sample_rate, MAX_HZ, 1200, 874);
    lemma_lag(ops, sample_rate, MIN_HZ, 60, 17477);
}

} // verus!
