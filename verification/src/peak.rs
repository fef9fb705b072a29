//! What the detector reports of a period: the sample rate over a lag near that period,
//! where the parabola through the scores around it has its top.
use vstd::prelude::*;
use crate::arith::{zero, Operations, HALF, TWO};
use crate::pitch::{
    detectable, detection, is_peak, is_tallest, law_correction_is_strong, law_period_found,
    law_tallest_stands_out, max_lag, min_lag, nsdf, period, refined_lag, rms, tallest, vertex,
    window_high, window_low, CLARITY_FLOOR, K_SUB,
};
use crate::rounding::{
    counts_rounded, faithful, finite, grain, hits, lemma_difference, lemma_grain,
    lemma_moderate_finite, lemma_product, lemma_ratio_down, lemma_sum, lemma_whole_pattern,
    rounded, rounded_down, rounds, size,
};
use crate::single::{law_grid_fits, one, Single};

verus! {

/// Whether a score is a number from -2 to 2.
pub open spec fn is_score(s: Single) -> bool {
    !s.nan() && size(s.units()) <= 2 * one()
}

/// How much the scores around the lag `t` bend: twice the middle one less the other two.
pub open spec fn bend_at(scores: Seq<Single>, t: int) -> int {
    2 * scores[t].units() - scores[t - 1].units() - scores[t + 1].units()
}

/// How much the score after the lag `t` is above the one before it.
pub open spec fn rise_at(scores: Seq<Single>, t: int) -> int {
    scores[t + 1].units() - scores[t - 1].units()
}

/// Whether the three scores around the lag `t` are sound, and bend so much that rounding
/// moves the top of their parabola by `slack` at most.
pub open spec fn is_bent(scores: Seq<Single>, t: int, slack: int) -> bool {
    &&& is_score(scores[t - 1])
    &&& is_score(scores[t])
    &&& is_score(scores[t + 1])
    &&& 0 <= slack <= one()
    &&& 64 * grain() * one() <= slack * bend_at(scores, t)
    &&& size(rise_at(scores, t)) <= 8 * bend_at(scores, t)
}

/// The top of the parabola, as the detector computes it, is the real one up to rounding.
proof fn lemma_vertex(ops: Operations, scores: Seq<Single>, max: int, t: int, slack: int)
    requires
        rounded(ops),
        rounded_down(ops),
        counts_rounded(ops),
        1 <= t < max,
        t <= 0x10_0000,
        is_bent(scores, t, slack),
    ensures
        ({
            let lag = vertex(ops, scores, max, t);
            &&& !lag.nan()
            &&& size(
                2 * bend_at(scores, t) * (lag.units() - t * one()) - rise_at(scores, t) * one(),
            ) <= (slack + 2 * (t + 6) * grain()) * bend_at(scores, t)
        }),
{
    let o = one();
    let u = grain();
    let two = Single { bits: TWO };
    let half = Single { bits: HALF };
    let y0 = scores[t - 1];
    let y1 = scores[t];
    let y2 = scores[t + 1];
    let a = y0.units();
    let b = y1.units();
    let c = y2.units();
    let d = bend_at(scores, t);
    lemma_grain();
    lemma_two_and_half();
    assert(d >= 64 * u) by (nonlinear_arith)
        requires
            64 * u * o <= slack * d,
            0 <= slack <= o,
            o > 0,
            u > 0,
    ;
    // The bend, up to four grains.
    assert(size((2 * o) * b) <= (4 * o) * o) by (nonlinear_arith)
        requires
            size(b) <= 2 * o,
            o > 0,
    ;
    lemma_product(ops, two, y1, 4 * o, u);
    let twice = (ops.times)(two, y1);
    let w = twice.units();
    assert(-u <= w - 2 * b <= u) by (nonlinear_arith)
        requires
            size(w * o - (2 * o) * b) <= u * o,
            o > 0,
    ;
    lemma_difference(ops, y0, twice, 7 * o, u);
    let first = (ops.minus)(y0, twice);
    lemma_sum(ops, first, y2, 10 * o, 2 * u);
    let bend = (ops.plus)(first, y2);
    let e = -bend.units();
    assert(d - 4 * u <= e <= d + 4 * u);
    // Half the difference of the outer scores, up to three grains.
    lemma_difference(ops, y0, y2, 4 * o, u);
    let apart = (ops.minus)(y0, y2);
    let g = apart.units();
    let k = half.units();
    assert(size(k * g) <= (3 * o) * o) by (nonlinear_arith)
        requires
            size(g) <= 5 * o,
            2 * k == o,
            o > 0,
    ;
    lemma_product(ops, half, apart, 3 * o, u);
    let n = (ops.times)(half, apart).units();
    assert(-(2 * u) <= 2 * n - g <= 2 * u) by (nonlinear_arith)
        requires
            size(n * o - k * g) <= u * o,
            2 * k == o,
            o > 0,
    ;
    // Their quotient.
    let top = (ops.times)(half, apart);
    assert(size(n) <= 5 * e);
    assert(size(n * o) <= (5 * o) * e) by (nonlinear_arith)
        requires
            size(n) <= 5 * e,
            o > 0,
    ;
    lemma_ratio_down(ops, top, bend, 5 * o, u);
    let shift = (ops.over)(top, bend);
    let q = shift.units();
    lemma_shift(o, u, a, c, d, e, n, q, slack);
    assert(size(q) <= 6 * o) by (nonlinear_arith)
        requires
            size(q * e + n * o) <= u * e,
            size(n * o) <= (5 * o) * e,
            u <= o,
            e > 0,
    ;
    // The lag.
    let whole = (ops.of_u64)(t as u64);
    assert(whole.units() == t * o);
    assert(0 <= t * o <= 0x10_0000 * o) by (nonlinear_arith)
        requires
            0 <= t <= 0x10_0000,
            o > 0,
    ;
    assert((t + 6) * o + 0x100_0000 <= ((t + 6) * u) * 0x100_0000) by (nonlinear_arith)
        requires
            t >= 0,
            o == 0x20_0000 * u,
            u >= 0x100_0000,
    ;
    assert((t + 6) * o == t * o + 6 * o) by (nonlinear_arith);
    lemma_sum(ops, whole, shift, (t + 6) * o, (t + 6) * u);
    let lag = (ops.plus)(whole, shift).units();
    let x = lag - t * o;
    let r = rise_at(scores, t);
    let s = (t + 6) * u;
    assert(size(2 * d * x - r * o) <= (slack + 2 * s) * d) by (nonlinear_arith)
        requires
            size(2 * d * q - r * o) <= slack * d,
            size(x - q) <= s,
            d > 0,
    ;
    assert(slack + 2 * (t + 6) * u == slack + 2 * s) by (nonlinear_arith)
        requires
            s == (t + 6) * u,
    ;
}

/// The quotient, put together.
proof fn lemma_shift(
    o: int,
    u: int,
    a: int,
    c: int,
    d: int,
    e: int,
    n: int,
    q: int,
    slack: int,
)
    requires
        u > 0,
        o == 0x20_0000 * u,
        64 * u <= d <= 8 * o,
        d - 4 * u <= e <= d + 4 * u,
        size(2 * n - (a - c)) <= 3 * u,
        size(n) <= 5 * e,
        size(q * e + n * o) <= u * e,
        64 * u * o <= slack * d,
    ensures
        size(2 * d * q - (c - a) * o) <= slack * d,
{
    assert(size(q) <= 5 * o + u) by (nonlinear_arith)
        requires
            size(q * e + n * o) <= u * e,
            size(n) <= 5 * e,
            e > 0,
            o > 0,
            u > 0,
    ;
    let z = q * e + n * o;
    let h = e - d;
    let m = 2 * n - (a - c);
    assert(2 * d * q - (c - a) * o == 2 * z - 2 * (q * h) - m * o) by (nonlinear_arith)
        requires
            z == q * e + n * o,
            h == e - d,
            m == 2 * n - (a - c),
    ;
    assert(size(z) <= 9 * (u * o)) by (nonlinear_arith)
        requires
            size(z) <= u * e,
            e <= 9 * o,
            u > 0,
    ;
    assert(size(q * h) <= 21 * (u * o)) by (nonlinear_arith)
        requires
            size(q) <= 5 * o + u,
            size(h) <= 4 * u,
            4 * u <= o,
            u > 0,
    ;
    assert(size(m * o) <= 3 * (u * o)) by (nonlinear_arith)
        requires
            size(m) <= 3 * u,
            o > 0,
    ;
    assert(64 * u * o == 64 * (u * o)) by (nonlinear_arith);
}

/// The patterns of two and of a half.
proof fn lemma_two_and_half()
    ensures
        (Single { bits: TWO }).units() == 2 * one(),
        2 * (Single { bits: HALF }).units() == one(),
{
    vstd::arithmetic::power2::lemma2_to64();
    vstd::arithmetic::power2::lemma_pow2_unfold(149);
    vstd::arithmetic::power2::lemma_pow2_adds(23, 125);
    lemma_whole_pattern(Single { bits: TWO }, 128, 2);
    assert((Single { bits: HALF }).units() == 0x80_0000 * vstd::arithmetic::power2::pow2(125));
}

/// The lag is refined to the top of the parabola: where the scores at `t` and at its
/// neighbours lie on a parabola whose top is `e / n` samples after `t`, the detector
/// finds that top, up to rounding. (`m`, `p` and `k` say how high and how steep it is.)
pub proof fn law_top_of_parabola(
    ops: Operations,
    scores: Seq<Single>,
    max: int,
    t: int,
    slack: int,
    k: int,
    p: int,
    m: int,
    n: int,
    e: int,
)
    requires
        rounded(ops),
        rounded_down(ops),
        counts_rounded(ops),
        1 <= t < max,
        t <= 0x10_0000,
        is_bent(scores, t, slack),
        k > 0,
        m > 0,
        n > 0,
        k * scores[t - 1].units() == p - m * ((n + e) * (n + e)),
        k * scores[t].units() == p - m * (e * e),
        k * scores[t + 1].units() == p - m * ((n - e) * (n - e)),
    ensures
        ({
            let lag = vertex(ops, scores, max, t);
            &&& !lag.nan()
            &&& 2 * size(n * (lag.units() - t * one()) - e * one()) <= n * (slack + 2 * (t + 6)
                * grain())
        }),
{
    let o = one();
    let d = bend_at(scores, t);
    let r = rise_at(scores, t);
    let x = vertex(ops, scores, max, t).units() - t * o;
    let s = slack + 2 * (t + 6) * grain();
    lemma_vertex(ops, scores, max, t, slack);
    let a = scores[t - 1].units();
    let b = scores[t].units();
    let c = scores[t + 1].units();
    assert(k * d == 2 * (m * (n * n))) by (nonlinear_arith)
        requires
            d == 2 * b - a - c,
            k * a == p - m * ((n + e) * (n + e)),
            k * b == p - m * (e * e),
            k * c == p - m * ((n - e) * (n - e)),
    ;
    assert(k * r == 4 * (m * (n * e))) by (nonlinear_arith)
        requires
            r == c - a,
            k * a == p - m * ((n + e) * (n + e)),
            k * c == p - m * ((n - e) * (n - e)),
    ;
    let left = 2 * d * x - r * o;
    let right = s * d;
    let mn = m * n;
    assert(mn > 0) by (nonlinear_arith)
        requires
            m > 0,
            n > 0,
            mn == m * n,
    ;
    assert(k * left == 2 * ((k * d) * x) - (k * r) * o) by (nonlinear_arith)
        requires
            left == 2 * d * x - r * o,
    ;
    assert((2 * (m * (n * n))) * x == 2 * (mn * (n * x))) by (nonlinear_arith)
        requires
            mn == m * n,
    ;
    assert((4 * (m * (n * e))) * o == 4 * (mn * (e * o))) by (nonlinear_arith)
        requires
            mn == m * n,
    ;
    assert(mn * (n * x) - mn * (e * o) == mn * (n * x - e * o)) by (nonlinear_arith);
    assert(k * right == 2 * (mn * (n * s))) by (nonlinear_arith)
        requires
            right == s * d,
            k * d == 2 * (m * (n * n)),
            mn == m * n,
    ;
    let f = n * x - e * o;
    let g = n * s;
    assert(2 * size(f) <= g) by (nonlinear_arith)
        requires
            size(left) <= right,
            k * left == 4 * (mn * f),
            k * right == 2 * (mn * g),
            k > 0,
            mn > 0,
    ;
}

/// A lag within half a sample of a whole one.
proof fn lemma_peak_lag(ops: Operations, scores: Seq<Single>, min: int, max: int, t: int, slack: int)
    requires
        rounded(ops),
        rounded_down(ops),
        counts_rounded(ops),
        1 <= t < max,
        t <= 0x10_0000,
        is_bent(scores, t, slack),
        scores[t - 1].units() <= scores[t].units(),
        scores[t + 1].units() <= scores[t].units(),
    ensures
        ({
            let lag = refined_lag(ops, scores, min, max, t);
            &&& !lag.nan()
            &&& 2 * size(lag.units() - t * one()) <= one() + slack + 2 * (t + 6) * grain()
        }),
{
    let o = one();
    let d = bend_at(scores, t);
    let r = rise_at(scores, t);
    let x = vertex(ops, scores, max, t).units() - t * o;
    let s = slack + 2 * (t + 6) * grain();
    lemma_grain();
    lemma_vertex(ops, scores, max, t, slack);
    assert(d > 0) by (nonlinear_arith)
        requires
            64 * grain() * o <= slack * d,
            slack >= 0,
            grain() > 0,
            o > 0,
    ;
    assert(size(r) <= d);
    assert(2 * size(x) <= o + s) by (nonlinear_arith)
        requires
            size(2 * d * x - r * o) <= s * d,
            size(r) <= d,
            d > 0,
            o > 0,
    ;
    assert((ops.of_u64)(t as u64).units() == t * o);
    assert(s >= 0) by (nonlinear_arith)
        requires
            s == slack + 2 * (t + 6) * grain(),
            slack >= 0,
            t >= 0,
            grain() > 0,
    ;
}

/// The frequency belongs to the period: where the scores speak for the period `t`, and
/// have a peak there, what is reported is the sample rate over a lag within half a sample
/// of `t`, up to rounding; and so a frequency between those of one sample more and one
/// sample less. The clarity is the score at `t`.
pub proof fn law_frequency_of_period(
    ops: Operations,
    buf: Seq<Single>,
    sample_rate: u32,
    gate: Single,
    t: int,
    slack: int,
) -> (lag: Single)
    requires
        rounded(ops),
        rounded_down(ops),
        counts_rounded(ops),
        !rms(ops, buf).below(gate),
        !rms(ops, buf.take(buf.len() as int / 4)).below(gate),
        max_lag(ops, sample_rate) < buf.len(),
        1 <= min_lag(ops, sample_rate),
        1 <= sample_rate <= 0x100_0000,
        2 <= t < max_lag(ops, sample_rate),
        t <= 0x1_0000,
        ({
            let min = min_lag(ops, sample_rate);
            let max = max_lag(ops, sample_rate);
            let scores = nsdf(ops, buf, min, max);
            &&& period(ops, scores, min, max) == Some(t)
            &&& is_bent(scores, t, slack)
            &&& 4 * slack <= one()
            &&& scores[t - 1].units() <= scores[t].units()
            &&& scores[t + 1].units() <= scores[t].units()
        }),
    ensures
        ({
            let heard = detection(ops, buf, sample_rate, gate);
            let scores = nsdf(
                ops,
                buf,
                min_lag(ops, sample_rate),
                max_lag(ops, sample_rate),
            );
            &&& !lag.nan()
            &&& 2 * size(lag.units() - t * one()) <= one() + slack + 2 * (t + 6) * grain()
            &&& rounds(heard.0, sample_rate * one() * one(), lag.units())
            &&& sample_rate * one() <= heard.0.units() * (t + 1)
            &&& heard.0.units() * (t - 1) <= sample_rate * one()
            &&& heard.1 == scores[t]
            &&& heard.2 == rms(ops, buf)
        }),
{
    let o = one();
    let u = grain();
    let n = sample_rate as int;
    let min = min_lag(ops, sample_rate);
    let max = max_lag(ops, sample_rate);
    let scores = nsdf(ops, buf, min, max);
    let lag = refined_lag(ops, scores, min, max, t);
    let rate = (ops.of_u64)(sample_rate as u64);
    lemma_grain();
    lemma_peak_lag(ops, scores, min, max, t, slack);
    let l = lag.units();
    assert(8 * size(l - t * o) <= 5 * o + 0x10_0000 * u) by (nonlinear_arith)
        requires
            2 * size(l - t * o) <= o + slack + 2 * (t + 6) * u,
            4 * slack <= o,
            t <= 0x1_0000,
            u > 0,
    ;
    assert(rate.units() == n * o);
    assert(o <= n * o <= 0x100_0000 * o && 2 * o <= t * o <= 0x1_0000 * o) by (nonlinear_arith)
        requires
            1 <= n <= 0x100_0000,
            2 <= t <= 0x1_0000,
            o > 0,
    ;
    let hz = (ops.over)(rate, lag);
    assert(rounds(hz, (n * o) * o, l));
    assert(n * o * o == (n * o) * o);
    let h = hz.units();
    let x = n * o;
    lemma_between(o, t, l, x, h);
    lag
}

/// A frequency that is the rate `x` over the lag `l` lies between those of the lags on
/// either side of `t`.
proof fn lemma_between(o: int, t: int, l: int, x: int, h: int)
    requires
        o >= 0x1_0000_0000_0000,
        2 <= t <= 0x1_0000,
        16 * size(l - t * o) <= 11 * o,
        x >= o,
        size(h * l - x * o) * 0x100_0000 <= size(x * o) + 0x100_0000 * l,
    ensures
        x <= h * (t + 1),
        h * (t - 1) <= x,
{
    let xo = x * o;
    assert(2 * o <= t * o <= 0x1_0000 * o) by (nonlinear_arith)
        requires
            2 <= t <= 0x1_0000,
            o > 0,
    ;
    assert(xo >= o * o && xo > 0) by (nonlinear_arith)
        requires
            xo == x * o,
            x >= o,
            o > 0,
    ;
    assert(l <= 0x1_0001 * o && l > 0);
    // The frequency times the lag is the rate, to a part in 2^19.
    assert(l * 0x100_0000 <= xo) by (nonlinear_arith)
        requires
            l <= 0x1_0001 * o,
            xo >= o * o,
            o >= 0x1_0000_0000_0000,
    ;
    assert(h > 0) by (nonlinear_arith)
        requires
            size(h * l - xo) * 0x80_0000 <= xo,
            xo > 0,
            l > 0,
    ;
    assert(xo * 0x80_0000 <= h * l * 0x80_0000 + xo);
    let up = (t + 1) * o;
    let down = (t - 1) * o;
    assert(up == t * o + o && down == t * o - o) by (nonlinear_arith)
        requires
            up == (t + 1) * o,
            down == (t - 1) * o,
    ;
    // One sample more is longer than the lag by more than that part, one less shorter.
    assert(l * 0x80_0000 <= up * 0x7f_ffff);
    assert(down * 0x80_0001 <= l * 0x80_0000);
    assert(x * o <= h * up) by (nonlinear_arith)
        requires
            xo * 0x7f_ffff <= h * l * 0x80_0000,
            l * 0x80_0000 <= up * 0x7f_ffff,
            xo == x * o,
            h > 0,
    ;
    assert(x <= h * (t + 1)) by (nonlinear_arith)
        requires
            x * o <= h * up,
            up == (t + 1) * o,
            o > 0,
    ;
    assert(h * down <= x * o) by (nonlinear_arith)
        requires
            h * l * 0x80_0000 <= xo * 0x80_0001,
            down * 0x80_0001 <= l * 0x80_0000,
            xo == x * o,
            h > 0,
    ;
    assert(h * (t - 1) <= x) by (nonlinear_arith)
        requires
            h * down <= x * o,
            down == (t - 1) * o,
            o > 0,
    ;
}

/// A note is heard at its pitch, in its octave: a window whose tallest score is at the
/// period `t`, clear, and with only weaker scores around its half, third and quarter, is
/// reported at the sample rate over `t`, to a sample.
pub proof fn law_note_is_heard(
    ops: Operations,
    buf: Seq<Single>,
    sample_rate: u32,
    gate: Single,
    t: int,
    slack: int,
)
    requires
        rounded(ops),
        rounded_down(ops),
        counts_rounded(ops),
        !rms(ops, buf).below(gate),
        !rms(ops, buf.take(buf.len() as int / 4)).below(gate),
        max_lag(ops, sample_rate) < buf.len(),
        1 <= min_lag(ops, sample_rate),
        1 <= sample_rate <= 0x100_0000,
        t <= 0x1_0000,
        ({
            let min = min_lag(ops, sample_rate);
            let max = max_lag(ops, sample_rate);
            let scores = nsdf(ops, buf, min, max);
            let enough = (ops.times)(Single { bits: K_SUB }, scores[t]);
            &&& is_tallest(scores, min, max, t)
            &&& !scores[t].below(Single { bits: CLARITY_FLOOR })
            &&& zero().below(enough)
            &&& forall|d: int, k: int|
                #![trigger t / d, scores[k]]
                2 <= d <= 4 && min <= t / d && window_low(t / d, min) <= k <= window_high(
                    t / d,
                    max,
                ) ==> !enough.at_most(scores[k])
            &&& is_bent(scores, t, slack)
            &&& 4 * slack <= one()
        }),
    ensures
        sample_rate * one() <= detection(ops, buf, sample_rate, gate).0.units() * (t + 1),
        detection(ops, buf, sample_rate, gate).0.units() * (t - 1) <= sample_rate * one(),
{
    let min = min_lag(ops, sample_rate);
    let max = max_lag(ops, sample_rate);
    let scores = nsdf(ops, buf, min, max);
    let enough = (ops.times)(Single { bits: K_SUB }, scores[t]);
    assert(is_peak(scores, min, max, t));
    law_period_found(ops, scores, min, max, t, enough);
    law_frequency_of_period(ops, buf, sample_rate, gate, t, slack);
}

/// A peak that is even on both sides is reported at its own lag exactly.
pub proof fn law_even_peak(
    ops: Operations,
    buf: Seq<Single>,
    sample_rate: u32,
    gate: Single,
    t: int,
) -> (lag: Single)
    requires
        faithful(ops),
        !rms(ops, buf).below(gate),
        !rms(ops, buf.take(buf.len() as int / 4)).below(gate),
        max_lag(ops, sample_rate) < buf.len(),
        1 <= min_lag(ops, sample_rate),
        2 <= t < max_lag(ops, sample_rate),
        finite((ops.of_u64)(t as u64)),
        ({
            let min = min_lag(ops, sample_rate);
            let max = max_lag(ops, sample_rate);
            let scores = nsdf(ops, buf, min, max);
            let twice = (ops.times)(Single { bits: TWO }, scores[t]);
            &&& period(ops, scores, min, max) == Some(t)
            &&& finite(scores[t - 1])
            &&& scores[t - 1] == scores[t + 1]
            &&& finite((ops.plus)((ops.minus)(scores[t - 1], twice), scores[t + 1]))
        }),
    ensures
        hits(lag, (ops.of_u64)(t as u64)),
        detection(ops, buf, sample_rate, gate).0 == (ops.over)(
            (ops.of_u64)(sample_rate as u64),
            lag,
        ),
{
    let min = min_lag(ops, sample_rate);
    let max = max_lag(ops, sample_rate);
    let scores = nsdf(ops, buf, min, max);
    let y = scores[t - 1];
    let twice = (ops.times)(Single { bits: TWO }, scores[t]);
    let bend = (ops.plus)((ops.minus)(y, twice), scores[t + 1]);
    let whole = (ops.of_u64)(t as u64);
    let apart = (ops.minus)(y, y);
    let half = Single { bits: HALF };
    assert(hits(apart, zero()));
    Single::law_key_order(apart, zero());
    assert(half.units() * 0 == 0 && 0 * one() == 0);
    let top = (ops.times)(half, apart);
    assert(hits(top, zero()));
    Single::law_key_order(top, zero());
    if bend.units() != 0 {
        assert(0 * bend.units() == 0);
        let shift = (ops.over)(top, bend);
        assert(hits(shift, zero()));
        Single::law_key_order(shift, zero());
        assert(hits((ops.plus)(whole, shift), whole));
    }
    refined_lag(ops, scores, min, max, t)
}

/// A share that is near `per` hundredths.
proof fn lemma_hundredths(s: Single, m: int, per: int)
    requires
        s.bits == 0x3f00_0000 + (m - 0x80_0000),
        0x80_0000 <= m < 0x100_0000,
        -64 <= 100 * m - per * 0x100_0000 <= 64,
    ensures
        !s.nan(),
        s.units() > 0,
        size(100 * s.units() - per * one()) <= 8 * grain(),
{
    vstd::arithmetic::power2::lemma2_to64();
    vstd::arithmetic::power2::lemma_pow2_adds(24, 125);
    vstd::arithmetic::power2::lemma_pow2_adds(3, 125);
    vstd::arithmetic::power2::lemma_pow2_pos(125);
    let p = vstd::arithmetic::power2::pow2(125) as int;
    assert(s.units() == m * p);
    assert(m * p > 0 && -64 * p <= 100 * (m * p) - per * (0x100_0000 * p) <= 64 * p)
        by (nonlinear_arith)
        requires
            p > 0,
            m > 0,
            -64 <= 100 * m - per * 0x100_0000 <= 64,
    ;
}

/// Octave correction asks of a sub-multiple 0.88 of the tallest score, up to rounding.
pub proof fn law_share_asked_for(ops: Operations, score: Single)
    requires
        rounded(ops),
        !score.nan(),
        0 <= score.units() <= one(),
    ensures
        ({
            let enough = (ops.times)(Single { bits: K_SUB }, score);
            &&& !enough.nan()
            &&& size(100 * enough.units() - 88 * score.units()) <= 108 * grain()
        }),
{
    let o = one();
    let u = grain();
    let share = Single { bits: K_SUB };
    let enough = (ops.times)(share, score);
    lemma_grain();
    lemma_hundredths(share, 0xe1_47ae, 88);
    let k = share.units();
    let y = score.units();
    assert(0 <= k * y <= o * o) by (nonlinear_arith)
        requires
            0 <= k <= o,
            0 <= y <= o,
    ;
    lemma_product(ops, share, score, o, u);
    let r = enough.units();
    assert(size(100 * r - 88 * y) <= 108 * u) by (nonlinear_arith)
        requires
            size(r * o - k * y) <= u * o,
            size(100 * k - 88 * o) <= 8 * u,
            0 <= y <= o,
            o > 0,
    {
        assert(-(8 * u) * y <= (100 * k - 88 * o) * y <= (8 * u) * y);
        assert((8 * u) * y <= (8 * u) * o);
    };
}

/// A period that was climbed to scores 0.88 of the tallest, up to rounding.
pub proof fn law_climb_needs_share(ops: Operations, scores: Seq<Single>, min: int, max: int)
    requires
        rounded(ops),
        tallest(scores, min, max) is Some,
        period(ops, scores, min, max) is Some,
        scores[tallest(scores, min, max)->0].units() <= one(),
    ensures
        ({
            let peak = tallest(scores, min, max)->0;
            let t = period(ops, scores, min, max)->0;
            ||| t == peak
            ||| 100 * scores[t].units() >= 88 * scores[peak].units() - 108 * grain()
        }),
{
    let peak = tallest(scores, min, max)->0;
    let enough = (ops.times)(Single { bits: K_SUB }, scores[peak]);
    law_tallest_stands_out(scores, min, max);
    law_share_asked_for(ops, scores[peak]);
    lemma_grain();
    lemma_hundredths(Single { bits: CLARITY_FLOOR }, 0xd9_999a, 85);
    assert(zero().units() == 0);
    assert(zero().below(enough));
    law_correction_is_strong(scores, min, max, peak, enough);
}

/// The scores speak for a period if and only if the tallest peak scores 0.85, up to the
/// precision of that number.
pub proof fn law_clear_from_floor(ops: Operations, scores: Seq<Single>, min: int, max: int)
    ensures
        match tallest(scores, min, max) {
            Some(peak) => {
                let tall = scores[peak].units();
                &&& 100 * tall >= 85 * one() + 8 * grain() ==> period(
                    ops,
                    scores,
                    min,
                    max,
                ) is Some
                &&& 100 * tall < 85 * one() - 8 * grain() ==> period(
                    ops,
                    scores,
                    min,
                    max,
                ) is None
            },
            None => period(ops, scores, min, max) is None,
        },
{
    law_tallest_stands_out(scores, min, max);
    lemma_hundredths(Single { bits: CLARITY_FLOOR }, 0xd9_999a, 85);
}

/// A lag is detectable if it is no more than half a sample out of the range.
pub proof fn law_half_a_sample_out(ops: Operations, min: int, max: int, lag: Single)
    requires
        faithful(ops),
        counts_rounded(ops),
        0 <= min <= 0x10_0000,
        0 <= max <= 0x10_0000,
    ensures
        detectable(ops, min, max, lag) <==> {
            &&& !lag.nan()
            &&& (2 * min - 1) * one() <= 2 * lag.units() <= (2 * max + 1) * one()
        },
{
    let o = one();
    let half = Single { bits: HALF };
    lemma_grain();
    vstd::arithmetic::power2::lemma2_to64();
    vstd::arithmetic::power2::lemma_pow2_adds(1, 148);
    vstd::arithmetic::power2::lemma_pow2_adds(23, 125);
    let h = vstd::arithmetic::power2::pow2(148) as int;
    assert(half.units() == h && o == 2 * h);
    let shortest = (ops.of_u64)(min as u64);
    let longest = (ops.of_u64)(max as u64);
    assert(shortest.units() == min * o && longest.units() == max * o);
    assert(0 <= min * o <= 0x10_0000 * o && 0 <= max * o <= 0x10_0000 * o)
        by (nonlinear_arith)
        requires
            0 <= min <= 0x10_0000,
            0 <= max <= 0x10_0000,
            o > 0,
    ;
    lemma_moderate_finite(shortest);
    lemma_moderate_finite(longest);
    let before = law_grid_fits(2 * min - 1, 148);
    let after = law_grid_fits(2 * max + 1, 148);
    assert((2 * min - 1) * h == min * (2 * h) - h && (2 * max + 1) * h == max * (2 * h) + h && (2
        * min - 1) * (2 * h) == 2 * ((2 * min - 1) * h) && (2 * max + 1) * (2 * h) == 2 * ((2
        * max + 1) * h)) by (nonlinear_arith);
    assert(hits((ops.minus)(shortest, half), before));
    assert(hits((ops.plus)(longest, half), after));
}

} // verus!
