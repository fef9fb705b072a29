//! The reference tone: a sine oscillator, steered by a frequency and a gain.
use vstd::prelude::*;
use vstd::arithmetic::div_mod::*;
use vstd::arithmetic::mul::*;
use crate::arith::{
    adds, counts, divides, multiplies, subtracts, takes_sine, Arithmetic, Operations,
};
use crate::notes::CONCERT_HZ;
use crate::rounding::{
    counts_rounded, grain, lemma_difference, lemma_grain, lemma_product, lemma_sum,
    lemma_whole_pattern, rounded, rounds, size,
};
use crate::single::{close, one, Single};

verus! {

/// A full turn, 2 pi.
pub const TURN: u32 = 0x40c9_0fdb;

/// How much of the way to its target the gain moves per frame, 0.0008: a fade of
/// about 25 ms.
pub const FADE: u32 = 0x3a51_b717;

/// What the reference tone is to sound like.
#[derive(Clone, Copy, Debug, PartialEq, Eq, Structural)]
pub struct Tone {
    freq: Single,
    gain: Single,
}

impl Tone {
    /// The frequency in Hz.
    pub closed spec fn spec_freq(self) -> Single {
        self.freq
    }

    /// The linear amplitude that the gain moves to; 0 is silent.
    pub closed spec fn spec_gain(self) -> Single {
        self.gain
    }

    /// A silent concert A.
    pub fn new() -> (r: Tone)
        ensures
            r.spec_freq() == (Single { bits: CONCERT_HZ }),
            r.spec_gain() == (Single { bits: 0 }),
    {
        Tone { freq: Single { bits: CONCERT_HZ }, gain: Single { bits: 0 } }
    }

    /// Sets the frequency.
    pub fn set_freq(&mut self, f: Single)
        ensures
            final(self).spec_freq() == f,
            final(self).spec_gain() == old(self).spec_gain(),
    {
        self.freq = f;
    }

    /// The frequency.
    pub fn freq(&self) -> (r: Single)
        ensures
            r == self.spec_freq(),
    {
        self.freq
    }

    /// Sets the gain.
    pub fn set_gain(&mut self, g: Single)
        ensures
            final(self).spec_gain() == g,
            final(self).spec_freq() == old(self).spec_freq(),
    {
        self.gain = g;
    }

    /// The gain.
    pub fn gain(&self) -> (r: Single)
        ensures
            r == self.spec_gain(),
    {
        self.gain
    }
}

/// The state of the oscillator between two frames.
#[derive(Clone, Copy, Debug, PartialEq, Eq, Structural)]
pub struct Oscillator {
    /// The angle of the sine.
    pub phase: Single,
    /// The gain as it is now, on its way to the target.
    pub level: Single,
}

/// How far the phase moves per frame.
pub open spec fn phase_step(ops: Operations, freq: Single, sample_rate: u32) -> Single {
    (ops.over)((ops.times)(Single { bits: TURN }, freq), (ops.of_u64)(sample_rate as u64))
}

/// The oscillator one frame later: the gain a little nearer to its target, the
/// phase one step on, wrapped to a turn.
pub open spec fn advanced(
    ops: Operations,
    o: Oscillator,
    target: Single,
    step: Single,
) -> Oscillator {
    let turned = (ops.plus)(o.phase, step);
    Oscillator {
        phase: if (Single { bits: TURN }).at_most(turned) {
            (ops.minus)(turned, Single { bits: TURN })
        } else {
            turned
        },
        level: (ops.plus)(
            o.level,
            (ops.times)((ops.minus)(target, o.level), Single { bits: FADE }),
        ),
    }
}

/// The sample of the frame that takes the oscillator on from `o`.
pub open spec fn sounded(
    ops: Operations,
    o: Oscillator,
    target: Single,
    step: Single,
) -> Single {
    (ops.times)((ops.sine)(o.phase), advanced(ops, o, target, step).level)
}

/// The oscillator `frames` frames later.
pub open spec fn after(
    ops: Operations,
    o: Oscillator,
    target: Single,
    step: Single,
    frames: nat,
) -> Oscillator
    decreases frames,
{
    if frames == 0 {
        o
    } else {
        advanced(ops, after(ops, o, target, step, (frames - 1) as nat), target, step)
    }
}

/// The number of frames that a buffer of interleaved samples holds, a last one
/// that is cut short included.
pub open spec fn frames_in(length: int, channels: int) -> int {
    (length + channels - 1) / channels
}

/// Whether sample `j` of a buffer is that of its frame.
spec fn plays_at(out: Seq<Single>, frames: Seq<Single>, channels: int, j: int) -> bool {
    0 <= j / channels < frames.len() && out[j] == frames[j / channels]
}

/// Whether each of the first `n` samples of a buffer is that of its frame.
spec fn plays(out: Seq<Single>, frames: Seq<Single>, n: int, channels: int) -> bool {
    forall|j: int| 0 <= j < n ==> #[trigger] plays_at(out, frames, channels, j)
}

/// A further frame leaves the samples before it alone.
proof fn lemma_plays_push(
    out: Seq<Single>,
    frames: Seq<Single>,
    n: int,
    channels: int,
    sample: Single,
)
    requires
        plays(out, frames, n, channels),
    ensures
        plays(out, frames.push(sample), n, channels),
{
    assert forall|j: int| 0 <= j < n implies #[trigger] plays_at(
        out,
        frames.push(sample),
        channels,
        j,
    ) by {
        assert(plays_at(out, frames, channels, j));
    }
}

/// One sample more, that of its frame.
proof fn lemma_plays_next(out: Seq<Single>, frames: Seq<Single>, n: int, channels: int)
    requires
        plays(out, frames, n, channels),
        0 <= n < out.len(),
        0 <= n / channels < frames.len(),
    ensures
        plays(out.update(n, frames[n / channels]), frames, n + 1, channels),
{
    let longer = out.update(n, frames[n / channels]);
    assert forall|j: int| 0 <= j < n + 1 implies #[trigger] plays_at(
        longer,
        frames,
        channels,
        j,
    ) by {
        if j < n {
            assert(plays_at(out, frames, channels, j));
        }
    }
}

impl Oscillator {
    /// At rest: phase and gain are 0.
    pub fn new() -> (r: Oscillator)
        ensures
            r == (Oscillator { phase: Single { bits: 0 }, level: Single { bits: 0 } }),
    {
        Oscillator { phase: Single { bits: 0 }, level: Single { bits: 0 } }
    }

    /// The next sample.
    pub fn next<A: Arithmetic>(&mut self, target: Single, step: Single) -> (r: Single)
        ensures
            forall|ops: Operations|
                #[trigger] adds::<A>(ops) && #[trigger] subtracts::<A>(ops) &&
                #[trigger] multiplies::<A>(ops) ==> *final(self) == advanced(
                    ops,
                    *old(self),
                    target,
                    step,
                ),
            forall|ops: Operations|
                #[trigger] adds::<A>(ops) && #[trigger] subtracts::<A>(ops) &&
                #[trigger] multiplies::<A>(ops) && #[trigger] takes_sine::<A>(ops) ==> r
                    == sounded(ops, *old(self), target, step),
    {
        self.level = A::plus(
            self.level,
            A::times(A::minus(target, self.level), Single { bits: FADE }),
        );
        let sample: Single = A::times(A::sine(self.phase), self.level);
        let turned: Single = A::plus(self.phase, step);
        let turn: Single = Single { bits: TURN };
        self.phase = if turn.le(turned) {
            A::minus(turned, turn)
        } else {
            turned
        };
        sample
    }

    /// Fills a buffer of interleaved samples: every channel of a frame gets the
    /// frame's sample, also in a last frame that is cut short.
    pub fn render<A: Arithmetic>(
        &mut self,
        tone: &Tone,
        sample_rate: u32,
        channels: usize,
        out: &mut [Single],
    )
        requires
            channels > 0,
        ensures
            final(out)@.len() == old(out)@.len(),
            forall|i: int, j: int|
                0 <= i < old(out)@.len() && 0 <= j < old(out)@.len() && i / channels as int
                    == j / channels as int
                        ==> #[trigger] final(out)@[i] == #[trigger] final(out)@[j],
            forall|ops: Operations|
                #[trigger] adds::<A>(ops) && #[trigger] subtracts::<A>(ops) &&
                #[trigger] multiplies::<A>(ops) && #[trigger] divides::<A>(ops) &&
                #[trigger] takes_sine::<A>(ops) && #[trigger] counts::<A>(ops) ==> {
                    let step = phase_step(ops, tone.spec_freq(), sample_rate);
                    let target = tone.spec_gain();
                    final(out)@ == Seq::new(
                        old(out)@.len(),
                        |i: int|
                            sounded(
                                ops,
                                after(
                                    ops,
                                    *old(self),
                                    target,
                                    step,
                                    (i / channels as int) as nat,
                                ),
                                target,
                                step,
                            ),
                    )
                },
            forall|ops: Operations|
                #[trigger] adds::<A>(ops) && #[trigger] subtracts::<A>(ops) &&
                #[trigger] multiplies::<A>(ops) && #[trigger] divides::<A>(ops) &&
                #[trigger] counts::<A>(ops) ==> *final(self) == after(
                    ops,
                    *old(self),
                    tone.spec_gain(),
                    phase_step(ops, tone.spec_freq(), sample_rate),
                    frames_in(old(out)@.len() as int, channels as int) as nat,
                ),
    {
        let step: Single = A::over(
            A::times(Single { bits: TURN }, tone.freq()),
            A::of_u64(sample_rate as u64),
        );
        let target: Single = tone.gain();
        let length: usize = out.len();
        let ghost start = *self;
        let ghost mut k: nat = 0;
        let ghost mut played: Seq<Single> = Seq::empty();
        let mut i: usize = 0;
        proof {
            lemma_mul_basics(channels as int);
        }
        while i < length
            invariant
                channels > 0,
                length == out@.len(),
                target == tone.spec_gain(),
                i <= length,
                i <= k * channels,
                i == length || i == k * channels,
                i == 0 ==> k == 0,
                k > 0 ==> (k - 1) * channels < i,
                played.len() == k,
                plays(out@, played, i as int, channels as int),
                forall|ops: Operations|
                    #[trigger] adds::<A>(ops) && #[trigger] subtracts::<A>(ops) &&
                    #[trigger] multiplies::<A>(ops) && #[trigger] divides::<A>(ops) &&
                    #[trigger] counts::<A>(ops) ==> {
                        &&& step == phase_step(ops, tone.spec_freq(), sample_rate)
                        &&& *self == after(ops, start, target, step, k)
                    },
                forall|ops: Operations, j: int|
                    #![trigger adds::<A>(ops), subtracts::<A>(ops), multiplies::<A>(ops),
                        divides::<A>(ops), takes_sine::<A>(ops), counts::<A>(ops), out@[j]]
                    adds::<A>(ops) && subtracts::<A>(ops) && multiplies::<A>(ops) &&
                        divides::<A>(ops) && takes_sine::<A>(ops) && counts::<A>(ops) && 0 <= j < i
                            ==> out@[j] == sounded(
                        ops,
                        after(ops, start, target, step, (j / channels as int) as nat),
                        target,
                        step,
                    ),
            decreases length - i,
        {
            let sample: Single = self.next::<A>(target, step);
            let end: usize = if channels <= length - i {
                i + channels
            } else {
                length
            };
            let ghost from = i as int;
            proof {
                assert((k + 1) * channels == k * channels + channels) by (nonlinear_arith);
                lemma_plays_push(out@, played, i as int, channels as int, sample);
                played = played.push(sample);
            }
            while i < end
                invariant
                    channels > 0,
                    length == out@.len(),
                    from <= i <= end <= length,
                    end <= from + channels,
                    from == k * channels,
                    played.len() == k + 1,
                    played[k as int] == sample,
                    plays(out@, played, i as int, channels as int),
                    forall|ops: Operations|
                        #[trigger] adds::<A>(ops) && #[trigger] subtracts::<A>(ops) &&
                        #[trigger] multiplies::<A>(ops) && #[trigger] divides::<A>(ops) &&
                        #[trigger] takes_sine::<A>(ops) && #[trigger] counts::<A>(ops)
                            ==> sample == sounded(
                            ops,
                            after(ops, start, target, step, k),
                            target,
                            step,
                        ),
                    forall|ops: Operations, j: int|
                        #![trigger adds::<A>(ops), subtracts::<A>(ops), multiplies::<A>(ops),
                            divides::<A>(ops), takes_sine::<A>(ops), counts::<A>(ops), out@[j]]
                        adds::<A>(ops) && subtracts::<A>(ops) && multiplies::<A>(ops) &&
                            divides::<A>(ops) && takes_sine::<A>(ops) && counts::<A>(ops) && 0 <= j < i
                                ==> out@[j] == sounded(
                            ops,
                            after(ops, start, target, step, (j / channels as int) as nat),
                            target,
                            step,
                        ),
                decreases end - i,
            {
                proof {
                    lemma_mul_is_commutative(k as int, channels as int);
                    lemma_fundamental_div_mod_converse(
                        i as int,
                        channels as int,
                        k as int,
                        i - from,
                    );
                    lemma_plays_next(out@, played, i as int, channels as int);
                }
                out[i] = sample;
                i += 1;
            }
            proof {
                k = k + 1;
            }
        }
        proof {
            if k > 0 {
                let c = channels as int;
                assert((k - 1) * channels == k * channels - channels) by (nonlinear_arith);
                lemma_mul_is_commutative(k as int, c);
                lemma_fundamental_div_mod_converse(
                    length + c - 1,
                    c,
                    k as int,
                    length + c - 1 - k * c,
                );
            } else {
                lemma_fundamental_div_mod_converse(
                    length + channels - 1,
                    channels as int,
                    0,
                    channels - 1,
                );
            }
            assert forall|j: int, l: int|
                0 <= j < length && 0 <= l < length && j / channels as int == l
                    / channels as int implies #[trigger] out@[j] == #[trigger] out@[l] by {
                assert(plays_at(out@, played, channels as int, j));
                assert(plays_at(out@, played, channels as int, l));
            }
            assert forall|ops: Operations|
                #[trigger] adds::<A>(ops) && #[trigger] subtracts::<A>(ops) &&
                #[trigger] multiplies::<A>(ops) && #[trigger] divides::<A>(ops) &&
                #[trigger] takes_sine::<A>(ops) && #[trigger] counts::<A>(ops)
                    implies out@ == Seq::new(
                out@.len(),
                |j: int|
                    sounded(
                        ops,
                        after(ops, start, target, step, (j / channels as int) as nat),
                        target,
                        step,
                    ),
            ) by {
                assert(out@ =~= Seq::new(
                    out@.len(),
                    |j: int|
                        sounded(
                            ops,
                            after(ops, start, target, step, (j / channels as int) as nat),
                            target,
                            step,
                        ),
                ));
            }
        }
    }
}

/// The phase runs on from one buffer to the next: two stretches of frames leave
/// the oscillator where one stretch of their length does.
pub proof fn law_phase_continues(
    ops: Operations,
    o: Oscillator,
    target: Single,
    step: Single,
    first: nat,
    second: nat,
)
    ensures
        after(ops, after(ops, o, target, step, first), target, step, second) == after(
            ops,
            o,
            target,
            step,
            first + second,
        ),
    decreases second,
{
    if second > 0 {
        law_phase_continues(ops, o, target, step, first, (second - 1) as nat);
    }
}

/// Whether `x` lies between `a` and `b`, which may come in either order.
pub open spec fn between(a: int, x: int, b: int) -> bool {
    a <= x <= b || b <= x <= a
}

/// Whether one step of the gain from `level` towards `target` is sound: the gap is at
/// most doubled by rounding, the part of it that is taken is half of it at most, and
/// the sum does not pass the target where the exact sum does not.
pub open spec fn fades_soundly(ops: Operations, level: Single, target: Single) -> bool {
    let gap = (ops.minus)(target, level);
    let part = (ops.times)(gap, Single { bits: FADE });
    let next = (ops.plus)(level, part);
    &&& !next.nan()
    &&& between(0, gap.units(), 2 * (target.units() - level.units()))
    &&& between(0, 2 * part.units(), gap.units())
    &&& between(level.units(), level.units() + part.units(), target.units()) ==> between(
        level.units(),
        next.units(),
        target.units(),
    )
}

/// The fade never passes its target, and never turns back: over any number of frames
/// the gain stays between where it was and the target. So a gain from 0 up to the
/// target stays one.
pub proof fn law_fade_never_passes(
    ops: Operations,
    o: Oscillator,
    target: Single,
    step: Single,
    frames: nat,
)
    requires
        forall|k: nat|
            k < frames ==> fades_soundly(
                ops,
                (#[trigger] after(ops, o, target, step, k)).level,
                target,
            ),
    ensures
        between(
            o.level.units(),
            after(ops, o, target, step, frames).level.units(),
            target.units(),
        ),
    decreases frames,
{
    if frames > 0 {
        law_fade_never_passes(ops, o, target, step, (frames - 1) as nat);
        assert(fades_soundly(
            ops,
            after(ops, o, target, step, (frames - 1) as nat).level,
            target,
        ));
    }
}

/// A full turn, in units of `2^-149`.
pub open spec fn full_turn() -> int {
    (Single { bits: TURN }).units()
}

/// The share of the way that the gain moves per frame, in units of `2^-149`.
spec fn fade_share() -> int {
    (Single { bits: FADE }).units()
}

/// The tone has the frequency that was asked for, at every sample rate: the step per
/// frame, times the sample rate, is a full turn times the frequency, up to rounding.
pub proof fn law_step_makes_frequency(ops: Operations, freq: Single, sample_rate: u32)
    requires
        rounded(ops),
        counts_rounded(ops),
        !freq.nan(),
        size(freq.units()) <= 0x10_0000 * one(),
        1 <= sample_rate <= 0x100_0000,
    ensures
        ({
            let turn = full_turn();
            let step = phase_step(ops, freq, sample_rate);
            &&& !step.nan()
            &&& size(step.units() * sample_rate * one() - turn * freq.units()) * 0x40_0000 <= size(
                turn * freq.units(),
            ) + 0x100_0000 * sample_rate * one()
        }),
{
    let o = one();
    let n = sample_rate as int;
    let turn = Single { bits: TURN };
    let rate = (ops.of_u64)(sample_rate as u64);
    let x = (ops.times)(turn, freq);
    let step = phase_step(ops, freq, sample_rate);
    lemma_grain();
    lemma_turn();
    assert(rate.units() == n * o);
    assert(o <= n * o <= 0x100_0000 * o) by (nonlinear_arith)
        requires
            1 <= n <= 0x100_0000,
            o > 0,
    ;
    let t = turn.units();
    let f = freq.units();
    let v = x.units();
    assert(rounds(x, t * f, o));
    let exact = t * f;
    assert(size(exact) <= 7 * o * (0x10_0000 * o)) by (nonlinear_arith)
        requires
            0 <= t <= 7 * o,
            size(f) <= 0x10_0000 * o,
            exact == t * f,
            o > 0,
    ;
    assert(size(v) <= 0x80_0000 * o) by (nonlinear_arith)
        requires
            size(v * o - exact) * 0x100_0000 <= size(exact) + 0x100_0000 * o,
            size(exact) <= 7 * o * (0x10_0000 * o),
            o >= 0x100_0000,
    ;
    assert(rounds(step, v * o, n * o));
    let s = step.units();
    assert(size(s * n - v) * 0x100_0000 <= size(v) + 0x100_0000 * n) by (nonlinear_arith)
        requires
            size(s * (n * o) - v * o) * 0x100_0000 <= size(v * o) + 0x100_0000 * (n * o),
            o > 0,
    ;
    let w = v * o;
    let z = s * n * o;
    assert(size(z - w) * 0x100_0000 <= size(w) + 0x100_0000 * n * o) by (nonlinear_arith)
        requires
            size(s * n - v) * 0x100_0000 <= size(v) + 0x100_0000 * n,
            w == v * o,
            z == s * n * o,
            o > 0,
    ;
    assert(n * o >= o);
    assert(0x100_0000 * n * o == 0x100_0000 * (n * o)) by (nonlinear_arith);
}

/// A full turn is a little more than six.
proof fn lemma_turn()
    ensures
        6 * one() <= full_turn() <= 7 * one(),
        !(Single { bits: TURN }).nan(),
{
    vstd::arithmetic::power2::lemma2_to64();
    let six = Single { bits: 0x40c0_0000 };
    let seven = Single { bits: 0x40e0_0000 };
    lemma_whole_pattern(six, 129, 6);
    lemma_whole_pattern(seven, 129, 7);
    Single::law_key_order(six, Single { bits: TURN });
    Single::law_key_order(Single { bits: TURN }, seven);
}

/// Whether `phase` is `turned` less a number of full turns, up to `slack`.
pub open spec fn turns_back(phase: int, turned: int, turns: int, slack: int) -> bool {
    close(phase + turns * full_turn(), turned, slack)
}

/// The phase goes round: over any stretch of frames, it moves by the step of each, less
/// the full turns, up to what rounding takes per frame; and it stays within a turn. So
/// over `sample_rate` frames it makes as many turns as the frequency says.
pub proof fn law_phase_goes_round(
    ops: Operations,
    o: Oscillator,
    target: Single,
    step: Single,
    frames: nat,
) -> (turns: int)
    requires
        rounded(ops),
        !o.phase.nan(),
        !step.nan(),
        0 <= o.phase.units() <= full_turn(),
        0 <= step.units() <= 6 * one(),
        frames <= 0x4_0000,
    ensures
        ({
            let phase = after(ops, o, target, step, frames).phase;
            &&& !phase.nan()
            &&& turns >= 0
            &&& -(4 * frames * grain()) <= phase.units() <= full_turn() + 4
                * frames * grain()
            &&& turns_back(
                phase.units(),
                o.phase.units() + frames * step.units(),
                turns,
                4 * frames * grain(),
            )
        }),
    decreases frames,
{
    let u = grain();
    let turn = Single { bits: TURN };
    lemma_grain();
    lemma_turn();
    if frames == 0 {
        assert(0 * step.units() == 0 && 0 * turn.units() == 0);
        0
    } else {
        let before = law_phase_goes_round(ops, o, target, step, (frames - 1) as nat);
        let phase = after(ops, o, target, step, (frames - 1) as nat).phase;
        let k = frames - 1;
        let turned = (ops.plus)(phase, step);
        assert(4 * k * u <= 0x10_0000 * u && 4 * frames * u == 4 * k * u + 4 * u && frames
            * step.units() == k * step.units() + step.units() && (before + 1) * turn.units()
            == before * turn.units() + turn.units()) by (nonlinear_arith)
            requires
                0 <= k < 0x4_0000,
                frames == k + 1,
                u > 0,
        ;
        lemma_sum(ops, phase, step, 15 * one(), 2 * u);
        if turn.at_most(turned) {
            lemma_difference(ops, turned, turn, 9 * one(), 2 * u);
            before + 1
        } else {
            before
        }
    }
}

/// The gain fades at its rate: one step takes it 0.0008 of the way to its target, up to
/// rounding.
pub proof fn law_fade_rate(ops: Operations, o: Oscillator, target: Single, step: Single)
    requires
        rounded(ops),
        !o.level.nan(),
        !target.nan(),
        size(o.level.units()) <= 2 * one(),
        size(target.units()) <= 2 * one(),
    ensures
        ({
            let next = advanced(ops, o, target, step).level;
            &&& !next.nan()
            &&& size(
                10000 * (next.units() - o.level.units()) - 8 * (target.units()
                    - o.level.units()),
            ) <= 0x8000 * grain()
        }),
{
    let u = grain();
    let fade = Single { bits: FADE };
    let gap = (ops.minus)(target, o.level);
    let part = (ops.times)(gap, fade);
    lemma_grain();
    lemma_fade();
    lemma_difference(ops, target, o.level, 4 * one(), u);
    let g = gap.units();
    let f = fade.units();
    assert(size(g * f) <= one() * one()) by (nonlinear_arith)
        requires
            size(g) <= 5 * one(),
            0 <= 1000 * f <= one(),
            one() > 0,
    ;
    lemma_product(ops, gap, fade, one(), u);
    let p = part.units();
    assert(size(10000 * p - 8 * g) <= 0x5000 * u) by (nonlinear_arith)
        requires
            size(p * one() - g * f) <= u * one(),
            size(g) <= 5 * one(),
            size(10000 * f - 8 * one()) <= u,
            one() == 0x20_0000 * u,
            u > 0,
    ;
    lemma_sum(ops, o.level, part, 3 * one(), u);
}

/// The share of the way that the gain moves per frame is 0.0008.
proof fn lemma_fade()
    ensures
        size(10000 * fade_share() - 8 * one()) <= grain(),
        0 <= 1000 * fade_share() <= one(),
        !(Single { bits: FADE }).nan(),
{
    vstd::arithmetic::power2::lemma2_to64();
    vstd::arithmetic::power2::lemma_pow2_adds(34, 115);
    vstd::arithmetic::power2::lemma_pow2_adds(13, 115);
    let p = vstd::arithmetic::power2::pow2(115) as int;
    assert(fade_share() == 0xd1_b717 * p);
    assert(one() == 0x4_0000_0000 * p) by {
        vstd::arithmetic::power2::lemma2_to64_rest();
    }
    assert(grain() == 0x2000 * p);
}

/// A sample is the sine of the phase at the new gain: no louder than the gain where the
/// sine is at most one, silent where the gain is 0, and in the ratio of the sines
/// otherwise, up to rounding.
pub proof fn law_sample_is_sine(ops: Operations, o: Oscillator, target: Single, step: Single)
    requires
        rounded(ops),
        !(ops.sine)(o.phase).nan(),
        size((ops.sine)(o.phase).units()) <= one(),
        !advanced(ops, o, target, step).level.nan(),
        size(advanced(ops, o, target, step).level.units()) <= 2 * one(),
    ensures
        ({
            let level = advanced(ops, o, target, step).level.units();
            let sample = sounded(ops, o, target, step);
            &&& !sample.nan()
            &&& size(sample.units() * one() - (ops.sine)(o.phase).units() * level) <= grain()
                * one()
            &&& size(sample.units()) <= size(level) + grain()
        }),
{
    let u = grain();
    let sine = (ops.sine)(o.phase);
    let level = advanced(ops, o, target, step).level;
    lemma_grain();
    let a = sine.units();
    let b = level.units();
    assert(size(a * b) <= (2 * one()) * one() && size(a * b) <= size(b) * one()) by (nonlinear_arith)
        requires
            size(a) <= one(),
            size(b) <= 2 * one(),
            one() > 0,
    ;
    lemma_product(ops, sine, level, 2 * one(), u);
    let s = sounded(ops, o, target, step).units();
    assert(size(s) <= size(b) + u) by (nonlinear_arith)
        requires
            size(s * one() - a * b) <= u * one(),
            size(a * b) <= size(b) * one(),
            one() > 0,
    ;
}

/// The frames of a buffer cover it, and none lies past its end.
pub proof fn law_frames_cover_buffer(length: int, channels: int)
    requires
        0 <= length,
        0 < channels,
    ensures
        length <= frames_in(length, channels) * channels < length + channels,
{
    lemma_fundamental_div_mod(length + channels - 1, channels);
    lemma_mod_bound(length + channels - 1, channels);
    lemma_mul_is_commutative(channels, frames_in(length, channels));
}

/// Before any frame the oscillator is where it was, and after one it is one step on.
pub proof fn law_first_frame(ops: Operations, o: Oscillator, target: Single, step: Single)
    ensures
        after(ops, o, target, step, 0) == o,
        after(ops, o, target, step, 1) == advanced(ops, o, target, step),
{
    reveal_with_fuel(after, 2);
}

} // verus!
