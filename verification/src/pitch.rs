//! Pitch detection by the McLeod pitch method: the normalized square difference
//! function (NSDF) of a window of samples, its tallest peak, and a correction
//! that climbs to a shorter period where that is nearly as strong.
use vstd::prelude::*;
use crate::arith::{
    adds, counts, divides, multiplies, raises, subtracts, takes_log10, takes_root, zero,
    Arithmetic, Operations, HALF, MINUS_UNIT, TWO, UNIT,
};
use crate::single::Single;

verus! {

/// Analysis window: 4096 samples at 48 kHz are about 85 ms. Long enough for
/// several periods of the lowest notes, short enough to keep the latency modest.
pub const FRAME_SIZE: usize = 4096;

/// Lowest detectable frequency, 60 Hz, about B1.
pub const MIN_HZ: u32 = 0x4270_0000;

/// Highest detectable frequency, 1200 Hz, about D6.
pub const MAX_HZ: u32 = 0x4496_0000;

/// Octave correction: climb from the tallest peak to a shorter sub-multiple only
/// if that scores at least 0.88 of it.
pub const K_SUB: u32 = 0x3f61_47ae;

/// A frame whose tallest peak stays below 0.85 is unvoiced.
pub const CLARITY_FLOOR: u32 = 0x3f59_999a;

/// The noise gate at the start, 0.0001 or -80 dB: it only skips dead silence.
pub const START_GATE: u32 = 0x38d1_b717;

/// The lowest gate that is shown in decibels, 0.000001.
pub const LEAST_GATE: u32 = 0x3586_37bd;

/// Decibels to a factor of ten: 20.
pub const DECIBELS: u32 = 0x41a0_0000;

/// The number 10.
pub const TEN: u32 = 0x4120_0000;

/// The sum of the squares of `xs`, added up from 0 in order.
pub open spec fn sum_squares(ops: Operations, xs: Seq<Single>) -> Single
    decreases xs.len(),
{
    if xs.len() == 0 {
        zero()
    } else {
        (ops.plus)(sum_squares(ops, xs.drop_last()), (ops.times)(xs.last(), xs.last()))
    }
}

/// The root mean square of `xs`.
pub open spec fn rms(ops: Operations, xs: Seq<Single>) -> Single {
    (ops.root)((ops.over)(sum_squares(ops, xs), (ops.of_u64)(xs.len() as u64)))
}

/// The longest whole number of samples that a period at `hz` spans.
pub open spec fn lag(ops: Operations, sample_rate: u32, hz: u32) -> int {
    let period = (ops.over)((ops.of_u64)(sample_rate as u64), Single { bits: hz });
    period.cast(period.floor_whole(), 0, usize::MAX as int)
}

/// The shortest lag that is searched.
pub open spec fn min_lag(ops: Operations, sample_rate: u32) -> int {
    lag(ops, sample_rate, MAX_HZ)
}

/// The longest lag that is searched.
pub open spec fn max_lag(ops: Operations, sample_rate: u32) -> int {
    lag(ops, sample_rate, MIN_HZ)
}

/// The correlation and the energy of the first `count` pairs of samples that
/// are `tau` apart.
pub open spec fn pair_sums(ops: Operations, buf: Seq<Single>, tau: int, count: nat) -> (
    Single,
    Single,
)
    decreases count,
{
    if count == 0 {
        (zero(), zero())
    } else {
        let before = pair_sums(ops, buf, tau, (count - 1) as nat);
        let a = buf[count - 1];
        let b = buf[count - 1 + tau];
        (
            (ops.plus)(before.0, (ops.times)(a, b)),
            (ops.plus)(before.1, (ops.plus)((ops.times)(a, a), (ops.times)(b, b))),
        )
    }
}

/// The normalized square difference of `buf` and itself `tau` samples later,
/// over all pairs that the window holds.
pub open spec fn nsdf_at(ops: Operations, buf: Seq<Single>, tau: int) -> Single {
    let sums = pair_sums(ops, buf, tau, (buf.len() - tau) as nat);
    if zero().below(sums.1) {
        (ops.over)((ops.times)(Single { bits: TWO }, sums.0), sums.1)
    } else {
        zero()
    }
}

/// The NSDF by lag, from 0 to `max`; 0 below `min`.
pub open spec fn nsdf(ops: Operations, buf: Seq<Single>, min: int, max: int) -> Seq<Single> {
    Seq::new(
        (max + 1) as nat,
        |tau: int|
            if tau < min {
                zero()
            } else {
                nsdf_at(ops, buf, tau)
            },
    )
}

/// A lag strictly inside the range at which the score has a positive peak.
pub open spec fn is_peak(scores: Seq<Single>, min: int, max: int, tau: int) -> bool {
    &&& min < tau < max
    &&& scores[tau - 1].below(scores[tau])
    &&& scores[tau + 1].at_most(scores[tau])
    &&& zero().below(scores[tau])
}

/// The tallest peak, and the first of those that are equally tall.
pub open spec fn is_tallest(scores: Seq<Single>, min: int, max: int, tau: int) -> bool {
    &&& is_peak(scores, min, max, tau)
    &&& forall|u: int| #[trigger]
        is_peak(scores, min, max, u) ==> {
            &&& scores[u].at_most(scores[tau])
            &&& u < tau ==> scores[u].below(scores[tau])
        }
}

/// The tallest peak, where there is a peak.
pub open spec fn tallest(scores: Seq<Single>, min: int, max: int) -> Option<int> {
    if exists|tau: int| is_tallest(scores, min, max, tau) {
        Some(choose|tau: int| is_tallest(scores, min, max, tau))
    } else {
        None
    }
}

/// How far around a sub-multiple the search goes.
pub open spec fn reach(target: int) -> int {
    if target / 20 > 2 {
        target / 20
    } else {
        2
    }
}

/// First lag of the search around `target`.
pub open spec fn window_low(target: int, min: int) -> int {
    if target - reach(target) < min {
        min
    } else {
        target - reach(target)
    }
}

/// Last lag of the search around `target`.
pub open spec fn window_high(target: int, max: int) -> int {
    if target + reach(target) > max {
        max
    } else {
        target + reach(target)
    }
}

/// The highest positive score from `low` to `high`, and the first of those that
/// are equally high.
pub open spec fn is_highest(scores: Seq<Single>, low: int, high: int, k: int) -> bool {
    &&& low <= k <= high
    &&& zero().below(scores[k])
    &&& forall|j: int|
        low <= j <= high && zero().below(#[trigger] scores[j]) ==> {
            &&& scores[j].at_most(scores[k])
            &&& j < k ==> scores[j].below(scores[k])
        }
}

/// The highest positive score from `low` to `high`, where there is one.
pub open spec fn highest(scores: Seq<Single>, low: int, high: int) -> Option<int> {
    if exists|k: int| is_highest(scores, low, high, k) {
        Some(choose|k: int| is_highest(scores, low, high, k))
    } else {
        None
    }
}

/// The lag near `tau / d` that scores highest, and its score; `tau / d` itself
/// with a score of 0 where nothing there is positive.
pub open spec fn sub_multiple(scores: Seq<Single>, min: int, max: int, tau: int, d: int) -> (
    int,
    Single,
) {
    let target = tau / d;
    match highest(scores, window_low(target, min), window_high(target, max)) {
        Some(k) => (k, scores[k]),
        None => (target, zero()),
    }
}

/// Whether the sub-multiple `tau / d` is in range and scores at least `enough`.
pub open spec fn qualifies(
    scores: Seq<Single>,
    min: int,
    max: int,
    tau: int,
    enough: Single,
    d: int,
) -> bool {
    &&& min <= tau / d
    &&& enough.at_most(sub_multiple(scores, min, max, tau, d).1)
}

/// Octave correction: the shortest of a half, a third and a quarter of `tau`
/// that qualifies, and `tau` where none does.
pub open spec fn corrected(
    scores: Seq<Single>,
    min: int,
    max: int,
    tau: int,
    enough: Single,
) -> int {
    if qualifies(scores, min, max, tau, enough, 4) {
        sub_multiple(scores, min, max, tau, 4).0
    } else if qualifies(scores, min, max, tau, enough, 3) {
        sub_multiple(scores, min, max, tau, 3).0
    } else if qualifies(scores, min, max, tau, enough, 2) {
        sub_multiple(scores, min, max, tau, 2).0
    } else {
        tau
    }
}

/// The period that the scores speak for, where they speak for one.
pub open spec fn period(ops: Operations, scores: Seq<Single>, min: int, max: int) -> Option<int> {
    match tallest(scores, min, max) {
        Some(tau) => if scores[tau].below(Single { bits: CLARITY_FLOOR }) {
            None
        } else {
            Some(
                corrected(
                    scores,
                    min,
                    max,
                    tau,
                    (ops.times)(Single { bits: K_SUB }, scores[tau]),
                ),
            )
        },
        None => None,
    }
}

/// The lag of the period `t`, refined by the parabola through the scores at `t` and
/// at its neighbours.
pub open spec fn vertex(ops: Operations, scores: Seq<Single>, max: int, t: int) -> Single {
    let y0 = scores[t - 1];
    let y1 = scores[t];
    let y2 = scores[if t + 1 <= max {
        t + 1
    } else {
        max
    }];
    let bend = (ops.plus)((ops.minus)(y0, (ops.times)(Single { bits: TWO }, y1)), y2);
    let whole = (ops.of_u64)(t as u64);
    if bend.equals(zero()) {
        whole
    } else {
        (ops.plus)(
            whole,
            (ops.over)((ops.times)(Single { bits: HALF }, (ops.minus)(y0, y2)), bend),
        )
    }
}

/// Whether a lag is that of a detectable frequency: no more than half a sample out of
/// the range of lags.
pub open spec fn detectable(ops: Operations, min: int, max: int, lag: Single) -> bool {
    half_before(ops, min).at_most(lag) && lag.at_most(half_after(ops, max))
}

/// The lag of the period `t`, refined by the parabola. Where the scores around `t` are
/// no peak, the parabola may point anywhere; out of the range of lags it is not
/// followed.
pub open spec fn refined_lag(
    ops: Operations,
    scores: Seq<Single>,
    min: int,
    max: int,
    t: int,
) -> Single {
    if detectable(ops, min, max, vertex(ops, scores, max, t)) {
        vertex(ops, scores, max, t)
    } else {
        (ops.of_u64)(t as u64)
    }
}

/// Half a sample before the lag `t`.
pub open spec fn half_before(ops: Operations, t: int) -> Single {
    (ops.minus)((ops.of_u64)(t as u64), Single { bits: HALF })
}

/// Half a sample after the lag `t`.
pub open spec fn half_after(ops: Operations, t: int) -> Single {
    (ops.plus)((ops.of_u64)(t as u64), Single { bits: HALF })
}

/// The frequency of the period `t`, refined between the samples.
pub open spec fn refined(
    ops: Operations,
    scores: Seq<Single>,
    min: int,
    max: int,
    t: int,
    sample_rate: u32,
) -> Single {
    (ops.over)((ops.of_u64)(sample_rate as u64), refined_lag(ops, scores, min, max, t))
}

/// Whether the window is loud enough, as a whole and in its oldest quarter, and
/// long enough for the range of lags.
pub open spec fn admitted(
    ops: Operations,
    buf: Seq<Single>,
    sample_rate: u32,
    gate: Single,
) -> bool {
    &&& !rms(ops, buf).below(gate)
    &&& !rms(ops, buf.take(buf.len() as int / 4)).below(gate)
    &&& max_lag(ops, sample_rate) < buf.len()
    &&& 1 <= min_lag(ops, sample_rate)
}

/// Frequency, clarity and level of a window; frequency and clarity are 0 where
/// it is unvoiced.
pub open spec fn detection(
    ops: Operations,
    buf: Seq<Single>,
    sample_rate: u32,
    gate: Single,
) -> (Single, Single, Single) {
    let level = rms(ops, buf);
    let min = min_lag(ops, sample_rate);
    let max = max_lag(ops, sample_rate);
    let scores = nsdf(ops, buf, min, max);
    if !admitted(ops, buf, sample_rate, gate) {
        (zero(), zero(), level)
    } else {
        match period(ops, scores, min, max) {
            Some(t) => (refined(ops, scores, min, max, t, sample_rate), scores[t], level),
            None => (zero(), zero(), level),
        }
    }
}

/// The noise gate `gate` in decibels.
pub open spec fn decibels_of(ops: Operations, gate: Single) -> Single {
    (ops.times)(
        Single { bits: DECIBELS },
        (ops.log10)(gate.spec_max(Single { bits: LEAST_GATE })),
    )
}

/// The noise gate that `decibels` stand for.
pub open spec fn gate_of(ops: Operations, decibels: Single) -> Single {
    (ops.power)(Single { bits: TEN }, (ops.over)(decibels, Single { bits: DECIBELS }))
}

/// The noise gate `gate` in decibels, as the slider shows it.
pub fn gate_to_decibels<A: Arithmetic>(gate: Single) -> (r: Single)
    ensures
        forall|ops: Operations|
            #[trigger] multiplies::<A>(ops) && #[trigger] takes_log10::<A>(ops)
                ==> r == decibels_of(ops, gate),
{
    A::times(Single { bits: DECIBELS }, A::log10(gate.max(Single { bits: LEAST_GATE })))
}

/// The noise gate that `decibels` on the slider stand for.
pub fn decibels_to_gate<A: Arithmetic>(decibels: Single) -> (r: Single)
    ensures
        forall|ops: Operations|
            #[trigger] divides::<A>(ops) && #[trigger] raises::<A>(ops)
                ==> r == gate_of(ops, decibels),
{
    A::power(Single { bits: TEN }, A::over(decibels, Single { bits: DECIBELS }))
}

/// The root mean square of the first `count` samples.
fn level<A: Arithmetic>(buf: &[Single], count: usize) -> (r: Single)
    requires
        count <= buf@.len(),
    ensures
        forall|ops: Operations|
            #[trigger] adds::<A>(ops) && #[trigger] multiplies::<A>(ops) &&
            #[trigger] divides::<A>(ops) && #[trigger] takes_root::<A>(ops) &&
            #[trigger] counts::<A>(ops) ==> r == rms(ops, buf@.take(count as int)),
{
    let mut total: Single = Single { bits: 0 };
    let mut i: usize = 0;
    while i < count
        invariant
            i <= count <= buf@.len(),
            forall|ops: Operations|
                #[trigger] adds::<A>(ops) && #[trigger] multiplies::<A>(ops) &&
                #[trigger] divides::<A>(ops) && #[trigger] takes_root::<A>(ops) &&
                #[trigger] counts::<A>(ops) ==> total == sum_squares(ops, buf@.take(i as int)),
        decreases count - i,
    {
        proof {
            assert(buf@.take(i + 1).drop_last() =~= buf@.take(i as int));
        }
        total = A::plus(total, A::times(buf[i], buf[i]));
        i += 1;
    }
    A::root(A::over(total, A::of_u64(count as u64)))
}

/// The lag of the frequency `hz`.
fn lag_of<A: Arithmetic>(sample_rate: u32, hz: u32) -> (r: usize)
    ensures
        forall|ops: Operations|
            #[trigger] divides::<A>(ops) && #[trigger] counts::<A>(ops)
                ==> r == lag(ops, sample_rate, hz),
{
    A::over(A::of_u64(sample_rate as u64), Single { bits: hz }).floor_usize()
}

/// The normalized square difference at one lag.
fn score_at<A: Arithmetic>(buf: &[Single], tau: usize) -> (r: Single)
    requires
        tau <= buf@.len(),
    ensures
        forall|ops: Operations|
            #[trigger] adds::<A>(ops) && #[trigger] multiplies::<A>(ops) &&
            #[trigger] divides::<A>(ops) ==> r == nsdf_at(ops, buf@, tau as int),
{
    let pairs: usize = buf.len() - tau;
    let mut correlation: Single = Single { bits: 0 };
    let mut energy: Single = Single { bits: 0 };
    let mut i: usize = 0;
    while i < pairs
        invariant
            i <= pairs,
            pairs + tau == buf.len(),
            forall|ops: Operations|
                #[trigger] adds::<A>(ops) && #[trigger] multiplies::<A>(ops) &&
                #[trigger] divides::<A>(ops) ==> (correlation, energy) == pair_sums(
                    ops,
                    buf@,
                    tau as int,
                    i as nat,
                ),
        decreases pairs - i,
    {
        let a: Single = buf[i];
        let b: Single = buf[i + tau];
        correlation = A::plus(correlation, A::times(a, b));
        energy = A::plus(energy, A::plus(A::times(a, a), A::times(b, b)));
        i += 1;
    }
    let silence: Single = Single { bits: 0 };
    if silence.lt(energy) {
        A::over(A::times(Single { bits: TWO }, correlation), energy)
    } else {
        silence
    }
}

/// The normalized square difference at every lag up to `max`.
fn score<A: Arithmetic>(buf: &[Single], min: usize, max: usize) -> (r: Vec<Single>)
    requires
        max < buf@.len(),
    ensures
        r@.len() == max + 1,
        forall|ops: Operations|
            #[trigger] adds::<A>(ops) && #[trigger] multiplies::<A>(ops) &&
            #[trigger] divides::<A>(ops) ==> r@ == nsdf(ops, buf@, min as int, max as int),
{
    let mut scores: Vec<Single> = Vec::new();
    let mut tau: usize = 0;
    while tau <= max
        invariant
            max < buf.len(),
            tau <= max + 1,
            scores@.len() == tau,
            forall|ops: Operations, u: int|
                #![trigger adds::<A>(ops), multiplies::<A>(ops), divides::<A>(ops), scores@[u]]
                adds::<A>(ops) && multiplies::<A>(ops) && divides::<A>(ops) && 0 <= u < tau
                    ==> scores@[u] == nsdf(
                    ops,
                    buf@,
                    min as int,
                    max as int,
                )[u],
        decreases max + 1 - tau,
    {
        if tau < min {
            scores.push(Single { bits: 0 });
        } else {
            scores.push(score_at::<A>(buf, tau));
        }
        tau += 1;
    }
    proof {
        assert forall|ops: Operations|
            #[trigger] adds::<A>(ops) && #[trigger] multiplies::<A>(ops) &&
            #[trigger] divides::<A>(ops) implies scores@ == nsdf(
            ops,
            buf@,
            min as int,
            max as int,
        ) by {
            assert(scores@ =~= nsdf(ops, buf@, min as int, max as int));
        }
    }
    scores
}

/// There is one tallest peak at most.
proof fn lemma_tallest_unique(scores: Seq<Single>, min: int, max: int, tau: int)
    requires
        is_tallest(scores, min, max, tau),
    ensures
        tallest(scores, min, max) == Some(tau),
{
    let other = tallest(scores, min, max)->0;
    assert(is_tallest(scores, min, max, other));
    assert(is_peak(scores, min, max, other));
}

/// There is one highest score at most.
proof fn lemma_highest_unique(scores: Seq<Single>, low: int, high: int, k: int)
    requires
        is_highest(scores, low, high, k),
    ensures
        highest(scores, low, high) == Some(k),
{
    let other = highest(scores, low, high)->0;
    assert(is_highest(scores, low, high, other));
    assert(zero().below(scores[other]));
}

/// The lag of the tallest peak between `min` and `max`, the first of those that
/// are equally tall.
pub fn tallest_peak(scores: &[Single], min: usize, max: usize) -> (r: Option<usize>)
    requires
        max < scores@.len(),
    ensures
        match r {
            Some(tau) => tallest(scores@, min as int, max as int) == Some(tau as int),
            None => tallest(scores@, min as int, max as int) is None,
        },
        r is None <==> forall|tau: int| !is_peak(scores@, min as int, max as int, tau),
{
    let mut found: Option<usize> = None;
    if min < max {
        let mut best: Single = Single { bits: 0 };
        let mut tau: usize = min + 1;
        while tau < max
            invariant
                min < tau <= max < scores.len(),
                match found {
                    Some(t) => {
                        &&& t < tau
                        &&& best == scores@[t as int]
                        &&& is_peak(scores@, min as int, max as int, t as int)
                        &&& forall|u: int| #[trigger]
                            is_peak(scores@, min as int, max as int, u) && u < tau ==> {
                                &&& scores@[u].at_most(best)
                                &&& u < t ==> scores@[u].below(best)
                            }
                    },
                    None => {
                        &&& best == zero()
                        &&& forall|u: int| #[trigger]
                            is_peak(scores@, min as int, max as int, u) ==> u >= tau
                    },
                },
            decreases max - tau,
        {
            if scores[tau - 1].lt(scores[tau]) && scores[tau + 1].le(scores[tau]) && best.lt(
                scores[tau],
            ) {
                best = scores[tau];
                found = Some(tau);
            }
            tau += 1;
        }
    }
    proof {
        match found {
            Some(t) => {
                assert(is_tallest(scores@, min as int, max as int, t as int));
                lemma_tallest_unique(scores@, min as int, max as int, t as int);
            },
            None => {},
        }
    }
    found
}

/// The lag of the highest positive score from `low` to `high`, the first of
/// those that are equally high.
pub fn highest_score(scores: &[Single], low: usize, high: usize) -> (r: Option<usize>)
    requires
        high < scores@.len(),
    ensures
        match r {
            Some(k) => highest(scores@, low as int, high as int) == Some(k as int),
            None => highest(scores@, low as int, high as int) is None,
        },
        r is None <==> forall|k: int|
            low <= k <= high ==> !zero().below(#[trigger] scores@[k]),
{
    let mut found: Option<usize> = None;
    let mut best: Single = Single { bits: 0 };
    let mut k: usize = low;
    while k <= high
        invariant
            high < scores.len(),
            low <= k,
            match found {
                Some(t) => {
                    &&& low <= t < k
                    &&& t <= high
                    &&& best == scores@[t as int]
                    &&& zero().below(best)
                    &&& forall|j: int|
                        low <= j < k && zero().below(#[trigger] scores@[j]) ==> {
                            &&& scores@[j].at_most(best)
                            &&& j < t ==> scores@[j].below(best)
                        }
                },
                None => {
                    &&& best == zero()
                    &&& forall|j: int| low <= j < k ==> !zero().below(#[trigger] scores@[j])
                },
            },
        decreases high + 1 - k,
    {
        if best.lt(scores[k]) {
            best = scores[k];
            found = Some(k);
        }
        k += 1;
    }
    proof {
        match found {
            Some(t) => {
                assert(is_highest(scores@, low as int, high as int, t as int));
                lemma_highest_unique(scores@, low as int, high as int, t as int);
            },
            None => {},
        }
    }
    found
}

/// The lag near `tau / d` that scores highest, where `tau / d` is in range and
/// the score is at least `enough`.
fn climb(
    scores: &[Single],
    min: usize,
    max: usize,
    tau: usize,
    enough: Single,
    d: usize,
) -> (r: Option<usize>)
    requires
        max < scores@.len(),
        tau <= max,
        d > 0,
    ensures
        r is Some <==> qualifies(scores@, min as int, max as int, tau as int, enough, d as int),
        r matches Some(k) ==> k == sub_multiple(
            scores@,
            min as int,
            max as int,
            tau as int,
            d as int,
        ).0,
{
    let target: usize = tau / d;
    proof {
        vstd::arithmetic::div_mod::lemma_div_nonincreasing(tau as int, d as int);
    }
    if target < min {
        return None;
    }
    let twentieth: usize = target / 20;
    let around: usize = if twentieth > 2 {
        twentieth
    } else {
        2
    };
    let low: usize = if target < around || target - around < min {
        min
    } else {
        target - around
    };
    let high: usize = if around > max - target {
        max
    } else {
        target + around
    };
    match highest_score(scores, low, high) {
        Some(k) => if enough.le(scores[k]) {
            Some(k)
        } else {
            None
        },
        None => if enough.le(Single { bits: 0 }) {
            Some(target)
        } else {
            None
        },
    }
}

/// Octave correction of the period `tau`: the shortest sub-multiple that scores
/// at least `enough`.
pub fn correct_octave(
    scores: &[Single],
    min: usize,
    max: usize,
    tau: usize,
    enough: Single,
) -> (r: usize)
    requires
        max < scores@.len(),
        tau <= max,
    ensures
        r == corrected(scores@, min as int, max as int, tau as int, enough),
{
    if let Some(k) = climb(scores, min, max, tau, enough, 4) {
        return k;
    }
    if let Some(k) = climb(scores, min, max, tau, enough, 3) {
        return k;
    }
    if let Some(k) = climb(scores, min, max, tau, enough, 2) {
        return k;
    }
    tau
}

/// The frequency of the period `t`, refined between the samples.
fn refine<A: Arithmetic>(
    scores: &[Single],
    min: usize,
    max: usize,
    t: usize,
    sample_rate: u32,
) -> (r: Single)
    requires
        1 <= t <= max < scores.len(),
    ensures
        forall|ops: Operations|
            #[trigger] adds::<A>(ops) && #[trigger] subtracts::<A>(ops) &&
            #[trigger] multiplies::<A>(ops) && #[trigger] divides::<A>(ops) &&
            #[trigger] counts::<A>(ops)
                ==> r == refined(ops, scores@, min as int, max as int, t as int, sample_rate),
{
    let next: usize = if t < max {
        t + 1
    } else {
        max
    };
    let y0: Single = scores[t - 1];
    let y1: Single = scores[t];
    let y2: Single = scores[next];
    let half: Single = Single { bits: HALF };
    let bend: Single = A::plus(A::minus(y0, A::times(Single { bits: TWO }, y1)), y2);
    let whole: Single = A::of_u64(t as u64);
    let tau: Single = if bend.same(Single { bits: 0 }) {
        whole
    } else {
        A::plus(whole, A::over(A::times(half, A::minus(y0, y2)), bend))
    };
    let shortest: Single = A::minus(A::of_u64(min as u64), half);
    let longest: Single = A::plus(A::of_u64(max as u64), half);
    A::over(
        A::of_u64(sample_rate as u64),
        if shortest.le(tau) && tau.le(longest) {
            tau
        } else {
            whole
        },
    )
}

/// The highest score lies where it was looked for.
proof fn lemma_highest_in_window(scores: Seq<Single>, low: int, high: int)
    ensures
        highest(scores, low, high) matches Some(k) ==> is_highest(scores, low, high, k),
{
}

/// Estimates the fundamental of `buf`. Returns frequency in Hz, clarity and
/// level. Frequency and clarity are 0 where the window is unvoiced: it, or its
/// oldest quarter, is below the noise gate, or nothing in it is periodic enough.
pub fn detect_pitch<A: Arithmetic>(buf: &[Single], sample_rate: u32, rms_gate: Single) -> (r: (
    Single,
    Single,
    Single,
))
    ensures
        r.2.below(rms_gate) ==> r.0 == zero() && r.1 == zero(),
        forall|ops: Operations|
            #[trigger] adds::<A>(ops) && #[trigger] subtracts::<A>(ops) &&
            #[trigger] multiplies::<A>(ops) && #[trigger] divides::<A>(ops) &&
            #[trigger] takes_root::<A>(ops) && #[trigger] counts::<A>(ops)
                ==> r == detection(ops, buf@, sample_rate, rms_gate),
{
    let silence: Single = Single { bits: 0 };
    let n: usize = buf.len();
    let rms: Single = level::<A>(buf, n);
    proof {
        assert(buf@.take(n as int) =~= buf@);
    }
    if rms.lt(rms_gate) {
        return (silence, silence, rms);
    }
    let head: Single = level::<A>(buf, n / 4);
    if head.lt(rms_gate) {
        return (silence, silence, rms);
    }
    let min: usize = lag_of::<A>(sample_rate, MAX_HZ);
    let max: usize = lag_of::<A>(sample_rate, MIN_HZ);
    if max >= n || min < 1 {
        return (silence, silence, rms);
    }
    let scores: Vec<Single> = score::<A>(buf, min, max);
    let peak: usize = match tallest_peak(&scores, min, max) {
        Some(tau) => tau,
        None => {
            return (silence, silence, rms);
        },
    };
    proof {
        assert(is_tallest(scores@, min as int, max as int, peak as int));
    }
    if scores[peak].lt(Single { bits: CLARITY_FLOOR }) {
        return (silence, silence, rms);
    }
    let enough: Single = A::times(Single { bits: K_SUB }, scores[peak]);
    let t: usize = correct_octave(&scores, min, max, peak, enough);
    proof {
        law_period_in_range(scores@, min as int, max as int, peak as int, enough);
    }
    let hz: Single = refine::<A>(&scores, min, max, t, sample_rate);
    (hz, scores[t], rms)
}

/// Every period that octave correction settles on lies in the range of lags:
/// between the periods of the highest and of the lowest detectable frequency.
pub proof fn law_period_in_range(
    scores: Seq<Single>,
    min: int,
    max: int,
    tau: int,
    enough: Single,
)
    requires
        0 <= min <= tau <= max,
    ensures
        min <= corrected(scores, min, max, tau, enough) <= max,
{
    assert forall|d: int| 2 <= d <= 4 && min <= tau / d implies min <= #[trigger] sub_multiple(
        scores,
        min,
        max,
        tau,
        d,
    ).0 <= max by {
        let target = tau / d;
        assert(target <= tau) by (nonlinear_arith)
            requires
                target == tau / d,
                d >= 2,
                tau >= 0,
        ;
        lemma_highest_in_window(scores, window_low(target, min), window_high(target, max));
    }
}

/// Where the parabola points into the range of lags, it is followed; the refined lag is
/// in that range in any case.
pub proof fn law_refined_in_range(
    ops: Operations,
    scores: Seq<Single>,
    min: int,
    max: int,
    t: int,
)
    requires
        detectable(ops, min, max, (ops.of_u64)(t as u64)),
    ensures
        detectable(ops, min, max, vertex(ops, scores, max, t)) ==> refined_lag(
            ops,
            scores,
            min,
            max,
            t,
        ) == vertex(ops, scores, max, t),
        detectable(ops, min, max, refined_lag(ops, scores, min, max, t)),
{
}

/// Whether lags and frequencies keep their order, as rounding does not change it: larger
/// counts are larger numbers, half a sample more or less is no step the other way, a
/// whole lag stays positive without it, and the longer a lag, the lower its frequency.
pub open spec fn lags_in_order(ops: Operations) -> bool {
    &&& forall|m: u64, n: u64|
        m <= n ==> (#[trigger] (ops.of_u64)(m)).at_most(#[trigger] (ops.of_u64)(n))
    &&& forall|n: u64|
        {
            let whole = #[trigger] (ops.of_u64)(n);
            &&& (ops.minus)(whole, Single { bits: HALF }).at_most(whole)
            &&& whole.at_most((ops.plus)(whole, Single { bits: HALF }))
            &&& n >= 1 ==> zero().below((ops.minus)(whole, Single { bits: HALF }))
        }
    &&& forall|rate: u64, a: Single, b: Single|
        zero().below(a) && a.at_most(b) ==> (#[trigger] (ops.over)((ops.of_u64)(rate), b)).at_most(
            #[trigger] (ops.over)((ops.of_u64)(rate), a),
        )
}

/// A reported frequency is detectable: it lies between those of the longest and the
/// shortest lag, half a sample of lag on either side. So it is a number, and positive
/// where that of the longest lag is.
pub proof fn law_frequency_in_range(
    ops: Operations,
    buf: Seq<Single>,
    sample_rate: u32,
    gate: Single,
)
    requires
        lags_in_order(ops),
    ensures
        ({
            let hz = detection(ops, buf, sample_rate, gate).0;
            let rate = (ops.of_u64)(sample_rate as u64);
            let lowest = (ops.over)(rate, half_after(ops, max_lag(ops, sample_rate)));
            let highest = (ops.over)(rate, half_before(ops, min_lag(ops, sample_rate)));
            ||| hz == zero()
            ||| lowest.at_most(hz) && hz.at_most(highest) && (zero().below(lowest)
                ==> zero().below(hz))
        }),
{
    let min = min_lag(ops, sample_rate);
    let max = max_lag(ops, sample_rate);
    let scores = nsdf(ops, buf, min, max);
    if let Some(t) = period(ops, scores, min, max) {
        if admitted(ops, buf, sample_rate, gate) {
            let peak = tallest(scores, min, max)->0;
            let enough = (ops.times)(Single { bits: K_SUB }, scores[peak]);
            assert(is_tallest(scores, min, max, peak));
            law_period_in_range(scores, min, max, peak, enough);
            let shortest = (ops.of_u64)(min as u64);
            let whole = (ops.of_u64)(t as u64);
            let longest = (ops.of_u64)(max as u64);
            assert(shortest.at_most(whole) && whole.at_most(longest));
            assert(detectable(ops, min, max, whole));
            law_refined_in_range(ops, scores, min, max, t);
            let rate = (ops.of_u64)(sample_rate as u64);
            let lag = refined_lag(ops, scores, min, max, t);
            assert((ops.over)(rate, half_after(ops, max)).at_most((ops.over)(rate, lag)));
            assert((ops.over)(rate, lag).at_most((ops.over)(rate, half_before(ops, min))));
        }
    }
}

/// The search around a sub-multiple: the lags in range that are no further from it than
/// a twentieth of it, or than two samples.
pub proof fn law_search_window(target: int, min: int, max: int, k: int)
    requires
        0 <= target,
    ensures
        window_low(target, min) <= k <= window_high(target, max) <==> {
            &&& min <= k <= max
            &&& -target <= 20 * (k - target) <= target || -2 <= k - target <= 2
        },
{
}

/// Whether the score at `u`, strictly inside the range, is positive, more than the one
/// before it and no less than the one after it.
pub open spec fn stands_out(scores: Seq<Single>, min: int, max: int, u: int) -> bool {
    &&& min < u < max
    &&& !scores[u - 1].nan() && !scores[u].nan() && !scores[u + 1].nan()
    &&& scores[u].units() > 0
    &&& scores[u - 1].units() < scores[u].units()
    &&& scores[u + 1].units() <= scores[u].units()
}

/// Of the peaks up to `n`, one is tallest.
proof fn lemma_tallest_up_to(scores: Seq<Single>, min: int, max: int, n: int, u: int) -> (t: int)
    requires
        is_peak(scores, min, max, u),
        u <= n,
    ensures
        is_peak(scores, min, max, t),
        t <= n,
        forall|v: int| #[trigger]
            is_peak(scores, min, max, v) && v <= n ==> {
                &&& scores[v].at_most(scores[t])
                &&& v < t ==> scores[v].below(scores[t])
            },
    decreases n - min,
{
    if exists|w: int| #[trigger] is_peak(scores, min, max, w) && w <= n - 1 {
        let w = choose|w: int| #[trigger] is_peak(scores, min, max, w) && w <= n - 1;
        let t = lemma_tallest_up_to(scores, min, max, n - 1, w);
        if is_peak(scores, min, max, n) && scores[t].below(scores[n]) {
            n
        } else {
            t
        }
    } else {
        n
    }
}

/// The tallest peak is the highest score of all that stand out, and the first of those
/// that are as high; and there is one as soon as any score stands out.
pub proof fn law_tallest_stands_out(scores: Seq<Single>, min: int, max: int)
    ensures
        match tallest(scores, min, max) {
            Some(t) => {
                &&& stands_out(scores, min, max, t)
                &&& forall|u: int| #[trigger]
                    stands_out(scores, min, max, u) ==> {
                        &&& scores[u].units() <= scores[t].units()
                        &&& u < t ==> scores[u].units() < scores[t].units()
                    }
            },
            None => forall|u: int| !stands_out(scores, min, max, u),
        },
{
    assert(zero().units() == 0);
    assert forall|u: int| #[trigger]
        stands_out(scores, min, max, u) implies is_peak(scores, min, max, u) && tallest(
        scores,
        min,
        max,
    ) is Some by {
        let t = lemma_tallest_up_to(scores, min, max, max, u);
        assert(is_tallest(scores, min, max, t));
        lemma_tallest_unique(scores, min, max, t);
    }
    if let Some(t) = tallest(scores, min, max) {
        assert(is_tallest(scores, min, max, t));
        assert(is_peak(scores, min, max, t));
    }
}

/// Octave correction takes the shortest sub-multiple that will do, and there the highest
/// score: where one around `tau / d` scores `enough`, and none around a shorter one in
/// range does, the result lies around `tau / d`, nothing there scores more, and nothing
/// before it there scores as much.
pub proof fn law_shortest_wins(
    scores: Seq<Single>,
    min: int,
    max: int,
    tau: int,
    enough: Single,
    d: int,
    k: int,
)
    requires
        zero().below(enough),
        2 <= d <= 4,
        min <= tau / d,
        window_low(tau / d, min) <= k <= window_high(tau / d, max),
        enough.at_most(scores[k]),
        forall|e: int, j: int|
            #![trigger tau / e, scores[j]]
            d < e <= 4 && min <= tau / e && window_low(tau / e, min) <= j <= window_high(
                tau / e,
                max,
            ) ==> !enough.at_most(scores[j]),
    ensures
        ({
            let t = corrected(scores, min, max, tau, enough);
            &&& window_low(tau / d, min) <= t <= window_high(tau / d, max)
            &&& !scores[t].nan()
            &&& scores[k].units() <= scores[t].units()
            &&& forall|j: int|
                window_low(tau / d, min) <= j <= window_high(tau / d, max)
                    && !(#[trigger] scores[j]).nan() ==> {
                    &&& scores[j].units() <= scores[t].units()
                    &&& j < t ==> scores[j].units() < scores[t].units()
                }
        }),
{
    let low = window_low(tau / d, min);
    let high = window_high(tau / d, max);
    assert(zero().units() == 0);
    lemma_highest_exists(scores, low, high, k);
    lemma_highest_in_window(scores, low, high);
    assert(qualifies(scores, min, max, tau, enough, d));
    assert forall|e: int| d < e <= 4 implies !#[trigger] qualifies(
        scores,
        min,
        max,
        tau,
        enough,
        e,
    ) by {
        lemma_highest_in_window(scores, window_low(tau / e, min), window_high(tau / e, max));
    }
    let t = corrected(scores, min, max, tau, enough);
    assert(is_highest(scores, low, high, t));
}

/// The scores are the NSDF at each lag of the range, and 0 at the shorter ones.
pub proof fn law_scores_by_lag(
    ops: Operations,
    buf: Seq<Single>,
    min: int,
    max: int,
    tau: int,
)
    requires
        0 <= tau <= max,
    ensures
        nsdf(ops, buf, min, max).len() == max + 1,
        min <= tau ==> nsdf(ops, buf, min, max)[tau] == nsdf_at(ops, buf, tau),
        tau < min ==> nsdf(ops, buf, min, max)[tau] == zero(),
{
}

/// What is reported: always the level; and frequency and clarity of the period that the
/// scores speak for, where the window and its oldest quarter are not below the noise
/// gate, the range of lags starts at one sample or more and ends within the window, and
/// the scores speak for a period; else 0 for both.
pub proof fn law_report(
    ops: Operations,
    buf: Seq<Single>,
    sample_rate: u32,
    gate: Single,
    quarter: int,
)
    requires
        4 * quarter <= buf.len() < 4 * quarter + 4,
    ensures
        ({
            let min = min_lag(ops, sample_rate);
            let max = max_lag(ops, sample_rate);
            let scores = nsdf(ops, buf, min, max);
            let found = period(ops, scores, min, max);
            let report = detection(ops, buf, sample_rate, gate);
            let heard = {
                &&& !rms(ops, buf).below(gate)
                &&& !rms(ops, buf.take(quarter)).below(gate)
                &&& min >= 1
                &&& max < buf.len()
                &&& found is Some
            };
            &&& report.2 == rms(ops, buf)
            &&& !heard ==> report.0 == zero() && report.1 == zero()
            &&& heard ==> report.1 == scores[found->0]
            &&& heard ==> report.0 == (ops.over)(
                (ops.of_u64)(sample_rate as u64),
                refined_lag(ops, scores, min, max, found->0),
            )
        }),
{
    assert(buf.len() as int / 4 == quarter);
}

/// At the longest lag the parabola takes the score there for the next one too.
pub proof fn law_parabola_at_end(ops: Operations, scores: Seq<Single>, t: int)
    requires
        1 <= t < scores.len(),
    ensures
        vertex(ops, scores, t, t) == vertex(
            ops,
            scores.take(t + 1).push(scores[t]),
            t + 1,
            t,
        ),
{
}

/// Octave correction never drops to a longer period. Around the half of a period of
/// two samples the search reaches past it; there the period is that of the tallest
/// peak.
pub proof fn law_correction_climbs(
    scores: Seq<Single>,
    min: int,
    max: int,
    tau: int,
    enough: Single,
)
    requires
        1 <= min <= tau <= max,
        tau == 2 ==> is_tallest(scores, min, max, tau),
    ensures
        corrected(scores, min, max, tau, enough) <= tau,
{
    lemma_highest_in_window(scores, window_low(tau / 2, min), window_high(tau / 2, max));
    lemma_highest_in_window(scores, window_low(tau / 3, min), window_high(tau / 3, max));
    lemma_highest_in_window(scores, window_low(tau / 4, min), window_high(tau / 4, max));
}

/// A shorter period is chosen only if it scores at least `enough`.
pub proof fn law_correction_is_strong(
    scores: Seq<Single>,
    min: int,
    max: int,
    tau: int,
    enough: Single,
)
    requires
        zero().below(enough),
    ensures
        corrected(scores, min, max, tau, enough) == tau || enough.at_most(
            scores[corrected(scores, min, max, tau, enough)],
        ),
{
}

/// Where nothing around a half, a third or a quarter of the period, as far as those
/// are in range, scores `enough`, the period stands: a mere harmonic does not raise the octave.
pub proof fn law_harmonic_kept(
    scores: Seq<Single>,
    min: int,
    max: int,
    tau: int,
    enough: Single,
)
    requires
        zero().below(enough),
        forall|d: int, k: int|
            #![trigger tau / d, scores[k]]
            2 <= d <= 4 && min <= tau / d && window_low(tau / d, min) <= k <= window_high(
                tau / d,
                max,
            ) ==> !enough.at_most(scores[k]),
    ensures
        corrected(scores, min, max, tau, enough) == tau,
{
    assert forall|d: int| 2 <= d <= 4 implies !#[trigger] qualifies(
        scores,
        min,
        max,
        tau,
        enough,
        d,
    ) by {
        lemma_highest_in_window(scores, window_low(tau / d, min), window_high(tau / d, max));
    }
}

/// A score of `enough` near a sub-multiple in range is taken: the result lies
/// near that sub-multiple or near a shorter one, and scores `enough`.
pub proof fn law_sub_octave_taken(
    scores: Seq<Single>,
    min: int,
    max: int,
    tau: int,
    enough: Single,
    d: int,
    k: int,
)
    requires
        0 <= min <= tau / d,
        0 <= tau <= max,
        2 <= d <= 4,
        zero().below(enough),
        window_low(tau / d, min) <= k <= window_high(tau / d, max) < scores.len(),
        enough.at_most(scores[k]),
    ensures
        exists|e: int|
            d <= e <= 4 && window_low(#[trigger] (tau / e), min) <= corrected(
                scores,
                min,
                max,
                tau,
                enough,
            ) <= window_high(tau / e, max),
        enough.at_most(scores[corrected(scores, min, max, tau, enough)]),
{
    let low = window_low(tau / d, min);
    let high = window_high(tau / d, max);
    lemma_highest_exists(scores, low, high, k);
    assert(qualifies(scores, min, max, tau, enough, d));
    let e = if qualifies(scores, min, max, tau, enough, 4) {
        4int
    } else if qualifies(scores, min, max, tau, enough, 3) {
        3
    } else {
        2
    };
    assert(d <= e);
    assert(qualifies(scores, min, max, tau, enough, e));
    lemma_highest_in_window(scores, window_low(tau / e, min), window_high(tau / e, max));
    assert(window_low(tau / e, min) <= corrected(scores, min, max, tau, enough));
}

/// A period that is clear and tallest, with nothing but weaker harmonics around its
/// half, its third and its quarter, is the one that the scores speak for.
pub proof fn law_period_found(
    ops: Operations,
    scores: Seq<Single>,
    min: int,
    max: int,
    tau: int,
    enough: Single,
)
    requires
        is_tallest(scores, min, max, tau),
        !scores[tau].below(Single { bits: CLARITY_FLOOR }),
        enough == (ops.times)(Single { bits: K_SUB }, scores[tau]),
        zero().below(enough),
        forall|d: int, k: int|
            #![trigger tau / d, scores[k]]
            2 <= d <= 4 && min <= tau / d && window_low(tau / d, min) <= k <= window_high(
                tau / d,
                max,
            ) ==> !enough.at_most(scores[k]),
    ensures
        period(ops, scores, min, max) == Some(tau),
{
    lemma_tallest_unique(scores, min, max, tau);
    law_harmonic_kept(scores, min, max, tau, enough);
}

/// A peak at a multiple of a period is not the tallest where it is no taller than
/// the peak at the period: equal peaks do not drop the octave.
pub proof fn law_first_of_equals(scores: Seq<Single>, min: int, max: int, tau: int, multiple: int)
    requires
        is_peak(scores, min, max, tau),
        tau < multiple,
        scores[multiple].at_most(scores[tau]),
    ensures
        tallest(scores, min, max) != Some(multiple),
{
    if tallest(scores, min, max) == Some(multiple) {
        assert(is_tallest(scores, min, max, multiple));
    }
}

/// The octave is not dropped because a multiple scores a little higher: where the
/// tallest peak lies at two, three or four times a period in range, and that
/// period scores the share of it that octave correction asks for, the result is
/// near the period or shorter, and so shorter than the multiple. The multiples
/// left out, of less than five samples, are no longer than the search is wide.
pub proof fn law_octave_not_dropped(
    ops: Operations,
    scores: Seq<Single>,
    min: int,
    max: int,
    multiple: int,
    d: int,
    tau: int,
    enough: Single,
)
    requires
        tallest(scores, min, max) == Some(multiple),
        !scores[multiple].below(Single { bits: CLARITY_FLOOR }),
        enough == (ops.times)(Single { bits: K_SUB }, scores[multiple]),
        zero().below(enough),
        2 <= d <= 4,
        1 <= min <= multiple / d,
        5 <= multiple,
        max < scores.len(),
        window_low(multiple / d, min) <= tau <= window_high(multiple / d, max),
        enough.at_most(scores[tau]),
    ensures
        period(ops, scores, min, max) matches Some(t) && t < multiple && t <= window_high(
            multiple / d,
            max,
        ) && enough.at_most(scores[t]),
{
    assert(is_tallest(scores, min, max, multiple));
    law_sub_octave_taken(scores, min, max, multiple, enough, d, tau);
    let t = corrected(scores, min, max, multiple, enough);
    let e = choose|e: int|
        d <= e <= 4 && window_low(#[trigger] (multiple / e), min) <= t <= window_high(
            multiple / e,
            max,
        );
    assert(multiple / e <= multiple / d && multiple / d <= multiple / 2) by {
        vstd::arithmetic::div_mod::lemma_div_is_ordered_by_denominator(multiple, d, e);
        vstd::arithmetic::div_mod::lemma_div_is_ordered_by_denominator(multiple, 2, d);
    }
}

/// The more is asked of a sub-multiple, the less is climbed: what qualifies for
/// more qualifies for less, and a period that stands at less stands at more.
pub proof fn law_stricter_climbs_less(
    scores: Seq<Single>,
    min: int,
    max: int,
    tau: int,
    less: Single,
    more: Single,
)
    requires
        less.at_most(more),
    ensures
        forall|d: int|
            qualifies(scores, min, max, tau, more, d) ==> #[trigger] qualifies(
                scores,
                min,
                max,
                tau,
                less,
                d,
            ),
        (forall|d: int| 2 <= d <= 4 ==> !#[trigger] qualifies(scores, min, max, tau, less, d))
            ==> corrected(scores, min, max, tau, more) == tau,
{
    assert forall|d: int| qualifies(scores, min, max, tau, more, d) implies #[trigger] qualifies(
        scores,
        min,
        max,
        tau,
        less,
        d,
    ) by {}
    if forall|d: int| 2 <= d <= 4 ==> !#[trigger] qualifies(scores, min, max, tau, less, d) {
        assert(!qualifies(scores, min, max, tau, less, 2));
        assert(!qualifies(scores, min, max, tau, less, 3));
        assert(!qualifies(scores, min, max, tau, less, 4));
    }
}

/// Where some score is positive, one is highest, and no lower than that one.
proof fn lemma_highest_exists(scores: Seq<Single>, low: int, high: int, k: int)
    requires
        low <= k <= high,
        zero().below(scores[k]),
    ensures
        highest(scores, low, high) is Some,
        scores[k].at_most(scores[highest(scores, low, high)->0]),
    decreases high - low,
{
    if low == high {
        assert(is_highest(scores, low, high, k));
        lemma_highest_unique(scores, low, high, k);
    } else if k < high {
        lemma_highest_exists(scores, low, high - 1, k);
        let t = highest(scores, low, high - 1)->0;
        assert(is_highest(scores, low, high - 1, t));
        let best = if scores[t].below(scores[high]) {
            high
        } else {
            t
        };
        assert(is_highest(scores, low, high, best));
        lemma_highest_unique(scores, low, high, best);
    } else if exists|j: int| low <= j <= high - 1 && zero().below(#[trigger] scores[j]) {
        let j = choose|j: int| low <= j <= high - 1 && zero().below(#[trigger] scores[j]);
        lemma_highest_exists(scores, low, high - 1, j);
        let t = highest(scores, low, high - 1)->0;
        assert(is_highest(scores, low, high - 1, t));
        let best = if scores[t].below(scores[high]) {
            high
        } else {
            t
        };
        assert(is_highest(scores, low, high, best));
        lemma_highest_unique(scores, low, high, best);
    } else {
        assert(is_highest(scores, low, high, high));
        lemma_highest_unique(scores, low, high, high);
    }
}

/// A voiced period is clear: its score is positive, and it reaches the clarity
/// floor, or it was climbed to and reaches the share of the tallest peak that
/// octave correction asks for.
pub proof fn law_voiced_is_clear(ops: Operations, scores: Seq<Single>, min: int, max: int)
    ensures
        period(ops, scores, min, max) matches Some(t) ==> {
            let peak = tallest(scores, min, max)->0;
            let enough = (ops.times)(Single { bits: K_SUB }, scores[peak]);
            zero().below(enough) ==> {
                &&& zero().below(scores[t])
                &&& Single { bits: CLARITY_FLOOR }.at_most(scores[t]) || enough.at_most(scores[t])
            }
        },
{
    if let Some(t) = period(ops, scores, min, max) {
        let peak = tallest(scores, min, max)->0;
        let enough = (ops.times)(Single { bits: K_SUB }, scores[peak]);
        assert(is_tallest(scores, min, max, peak));
        if zero().below(enough) {
            law_correction_is_strong(scores, min, max, peak, enough);
        }
    }
}

/// A window below the noise gate, or whose oldest quarter is below it, is unvoiced.
pub proof fn law_gate_silences(
    ops: Operations,
    buf: Seq<Single>,
    sample_rate: u32,
    gate: Single,
)
    requires
        rms(ops, buf).below(gate) || rms(ops, buf.take(buf.len() as int / 4)).below(gate),
    ensures
        detection(ops, buf, sample_rate, gate) == (zero(), zero(), rms(ops, buf)),
{
}

/// The noise gate only ever silences: what passes a gate is reported alike under every
/// lower one.
pub proof fn law_lower_gate(
    ops: Operations,
    buf: Seq<Single>,
    sample_rate: u32,
    lower: Single,
    higher: Single,
)
    requires
        lower.at_most(higher),
        admitted(ops, buf, sample_rate, higher),
    ensures
        detection(ops, buf, sample_rate, lower) == detection(ops, buf, sample_rate, higher),
{
}

/// Whether every operation that the first `count` pairs take part in is exact, so that
/// nothing is lost to rounding. `sample` reads a sample as an integer, and `square` a
/// product of two samples or a sum of such products: each on a scale of its own.
pub open spec fn exact(
    ops: Operations,
    sample: spec_fn(Single) -> int,
    square: spec_fn(Single) -> int,
    buf: Seq<Single>,
    tau: int,
    count: nat,
) -> bool
    decreases count,
{
    if count == 0 {
        square(zero()) == 0
    } else {
        let before = pair_sums(ops, buf, tau, (count - 1) as nat);
        let a = buf[count - 1];
        let b = buf[count - 1 + tau];
        let ab = (ops.times)(a, b);
        let aa = (ops.times)(a, a);
        let bb = (ops.times)(b, b);
        let both = (ops.plus)(aa, bb);
        &&& exact(ops, sample, square, buf, tau, (count - 1) as nat)
        &&& square(ab) == sample(a) * sample(b)
        &&& square(aa) == sample(a) * sample(a)
        &&& square(bb) == sample(b) * sample(b)
        &&& square(both) == square(aa) + square(bb)
        &&& square((ops.plus)(before.0, ab)) == square(before.0) + square(ab)
        &&& square((ops.plus)(before.1, both)) == square(before.1) + square(both)
    }
}

/// Whether twice the correlation `x` over the energy `e` is no further from 0 than the
/// readings say: from -1 to 1 where the first is no larger than the second, and 1 where
/// they are equal.
pub open spec fn quotient_fits(
    ops: Operations,
    square: spec_fn(Single) -> int,
    x: Single,
    e: Single,
) -> bool {
    let score = (ops.over)((ops.times)(Single { bits: TWO }, x), e);
    &&& -square(e) <= 2 * square(x) <= square(e) ==> in_unit(score)
    &&& 2 * square(x) == square(e) ==> score.equals(Single { bits: UNIT })
}

/// Whether a score lies in the range from -1 to 1.
pub open spec fn in_unit(score: Single) -> bool {
    (Single { bits: MINUS_UNIT }).at_most(score) && score.at_most(Single { bits: UNIT })
}

/// Whether nothing that the score at the lag `tau` is made of is lost to rounding.
pub open spec fn exact_score(
    ops: Operations,
    sample: spec_fn(Single) -> int,
    square: spec_fn(Single) -> int,
    buf: Seq<Single>,
    tau: int,
) -> bool {
    let count = (buf.len() - tau) as nat;
    let sums = pair_sums(ops, buf, tau, count);
    &&& exact(ops, sample, square, buf, tau, count)
    &&& zero().below(sums.1) ==> quotient_fits(ops, square, sums.0, sums.1)
}

/// Where nothing is lost to rounding, twice the correlation lies between minus
/// and plus the energy.
pub proof fn law_correlation_bounded(
    ops: Operations,
    sample: spec_fn(Single) -> int,
    square: spec_fn(Single) -> int,
    buf: Seq<Single>,
    tau: int,
    count: nat,
)
    requires
        exact(ops, sample, square, buf, tau, count),
    ensures
        ({
            let sums = pair_sums(ops, buf, tau, count);
            -square(sums.1) <= 2 * square(sums.0) <= square(sums.1)
        }),
    decreases count,
{
    if count > 0 {
        law_correlation_bounded(ops, sample, square, buf, tau, (count - 1) as nat);
        let a = sample(buf[count - 1]);
        let b = sample(buf[count - 1 + tau]);
        assert(2 * (a * b) <= a * a + b * b && -(a * a + b * b) <= 2 * (a * b)) by {
            assert((a - b) * (a - b) >= 0 && (a + b) * (a + b) >= 0) by (nonlinear_arith);
            assert((a - b) * (a - b) == a * a + b * b - 2 * (a * b)) by (nonlinear_arith);
            assert((a + b) * (a + b) == a * a + b * b + 2 * (a * b)) by (nonlinear_arith);
        }
    }
}

/// Zero lies in the range from -1 to 1.
proof fn lemma_zero_in_unit()
    ensures
        in_unit(zero()),
{
    Single::law_key_order(Single { bits: MINUS_UNIT }, zero());
    Single::law_key_order(zero(), Single { bits: UNIT });
}

/// The NSDF is in the range from -1 to 1, where nothing is lost to rounding.
pub proof fn law_nsdf_bounded(
    ops: Operations,
    sample: spec_fn(Single) -> int,
    square: spec_fn(Single) -> int,
    buf: Seq<Single>,
    tau: int,
)
    requires
        exact_score(ops, sample, square, buf, tau),
    ensures
        in_unit(nsdf_at(ops, buf, tau)),
{
    law_correlation_bounded(ops, sample, square, buf, tau, (buf.len() - tau) as nat);
    lemma_zero_in_unit();
}

/// The clarity is in the range from 0 to 1, where nothing that the scores are made of is
/// lost to rounding, and the share of the tallest peak that octave correction asks for
/// is positive.
pub proof fn law_clarity_bounded(
    ops: Operations,
    sample: spec_fn(Single) -> int,
    square: spec_fn(Single) -> int,
    buf: Seq<Single>,
    sample_rate: u32,
    gate: Single,
)
    requires
        admitted(ops, buf, sample_rate, gate) ==> forall|tau: int|
            min_lag(ops, sample_rate) <= tau <= max_lag(ops, sample_rate)
                ==> #[trigger] exact_score(ops, sample, square, buf, tau),
        forall|score: Single|
            zero().below(score) && score.at_most(Single { bits: UNIT })
                && !score.below(Single { bits: CLARITY_FLOOR }) ==> zero().below(
                #[trigger] (ops.times)(Single { bits: K_SUB }, score),
            ),
    ensures
        zero().at_most(detection(ops, buf, sample_rate, gate).1),
        detection(ops, buf, sample_rate, gate).1.at_most(Single { bits: UNIT }),
{
    let min = min_lag(ops, sample_rate);
    let max = max_lag(ops, sample_rate);
    let scores = nsdf(ops, buf, min, max);
    lemma_zero_in_unit();
    if let Some(t) = period(ops, scores, min, max) {
        if admitted(ops, buf, sample_rate, gate) {
            let peak = tallest(scores, min, max)->0;
            let enough = (ops.times)(Single { bits: K_SUB }, scores[peak]);
            assert(is_tallest(scores, min, max, peak));
            assert(exact_score(ops, sample, square, buf, peak));
            law_nsdf_bounded(ops, sample, square, buf, peak);
            law_period_in_range(scores, min, max, peak, enough);
            assert(exact_score(ops, sample, square, buf, t));
            law_nsdf_bounded(ops, sample, square, buf, t);
            law_voiced_is_clear(ops, scores, min, max);
        }
    }
}

/// A signal that repeats itself after `tau` samples, and is not silent, has a score of 1
/// there, where nothing is lost to rounding.
pub proof fn law_period_scores_full(
    ops: Operations,
    sample: spec_fn(Single) -> int,
    square: spec_fn(Single) -> int,
    buf: Seq<Single>,
    tau: int,
)
    requires
        0 <= tau <= buf.len(),
        exact_score(ops, sample, square, buf, tau),
        forall|i: int| 0 <= i < buf.len() - tau ==> #[trigger] buf[i] == buf[i + tau],
        zero().below(pair_sums(ops, buf, tau, (buf.len() - tau) as nat).1),
    ensures
        nsdf_at(ops, buf, tau).equals(Single { bits: UNIT }),
{
    lemma_repeating_sums(ops, sample, square, buf, tau, (buf.len() - tau) as nat);
}

/// Of a signal that repeats itself after `tau` samples, twice the correlation is the
/// energy.
proof fn lemma_repeating_sums(
    ops: Operations,
    sample: spec_fn(Single) -> int,
    square: spec_fn(Single) -> int,
    buf: Seq<Single>,
    tau: int,
    count: nat,
)
    requires
        exact(ops, sample, square, buf, tau, count),
        forall|i: int| 0 <= i < count ==> #[trigger] buf[i] == buf[i + tau],
    ensures
        ({
            let sums = pair_sums(ops, buf, tau, count);
            2 * square(sums.0) == square(sums.1)
        }),
    decreases count,
{
    if count > 0 {
        lemma_repeating_sums(ops, sample, square, buf, tau, (count - 1) as nat);
        assert(buf[count - 1] == buf[count - 1 + tau]);
    }
}

} // verus!
