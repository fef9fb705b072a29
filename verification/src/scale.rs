//! What the two scales are for: twelve semitones to the octave and twenty decibels to a
//! factor of ten, there and back.
use vstd::prelude::*;
use vstd::arithmetic::power2::*;
use crate::analysis::DEFAULT_GATE;
use crate::arith::{zero, Operations, TWO, UNIT};
use crate::notes::{
    cents_of, hz_of, midi_of, nearest_note, CENTS, CONCERT_HZ, CONCERT_MIDI, SEMITONES,
};
use crate::pitch::{decibels_of, gate_of, DECIBELS, LEAST_GATE, START_GATE, TEN};
use crate::rounding::{
    faithful, finite, grain, hits, lemma_difference, lemma_grain, lemma_product, lemma_ratio,
    lemma_sum, lemma_whole_pattern, moderate, rounded, rounds, size,
};
use crate::single::{close, law_nearest, one, Single};

verus! {

/// Two to the power `x`.
pub open spec fn exp2(ops: Operations, x: Single) -> Single {
    (ops.power)(Single { bits: TWO }, x)
}

/// Whether two to the power `x` is a positive number of a moderate size.
pub open spec fn exp2_positive(ops: Operations, x: Single) -> bool {
    &&& !exp2(ops, x).nan()
    &&& grain() <= 0x8_0000_0000 * exp2(ops, x).units()
    &&& exp2(ops, x).units() <= 0x8_0000_0000 * one()
}

/// Whether powers of two double from one exponent to the next, within 32 octaves.
pub open spec fn exp2_doubles(ops: Operations) -> bool {
    forall|x: Single, y: Single|
        !x.nan() && !y.nan() && size(x.units()) <= 32 * one() && close(
            y.units(),
            x.units() + one(),
            64 * grain(),
        ) ==> {
            &&& exp2_positive(ops, x)
            &&& exp2_positive(ops, y)
            &&& size((#[trigger] exp2(ops, y)).units() - 2 * (#[trigger] exp2(ops, x)).units())
                * 0x2000 <= exp2(ops, x).units()
        }
}

/// Whether powers of two turn equal steps into equal ratios, within 32 octaves.
pub open spec fn exp2_steps(ops: Operations) -> bool {
    forall|a: Single, b: Single, c: Single, d: Single|
        #![trigger exp2(ops, a), exp2(ops, b), exp2(ops, c), exp2(ops, d)]
        !a.nan() && !b.nan() && !c.nan() && !d.nan() && size(a.units()) <= 32 * one() && size(
            b.units(),
        ) <= 32 * one() && size(c.units()) <= 32 * one() && size(d.units()) <= 32 * one() && close(
            b.units() - a.units(),
            d.units() - c.units(),
            64 * grain(),
        ) ==> {
            let ad = exp2(ops, a).units() * exp2(ops, d).units();
            &&& exp2_positive(ops, a)
            &&& exp2_positive(ops, b)
            &&& exp2_positive(ops, c)
            &&& exp2_positive(ops, d)
            &&& size(exp2(ops, b).units() * exp2(ops, c).units() - ad) * 0x2000 <= ad
        }
}

/// Whether the logarithm undoes the power at `x`: where `q` is two to the power `x` up to
/// rounding, its logarithm is `x`.
pub open spec fn log2_at(ops: Operations, x: Single, q: Single) -> bool {
    &&& exp2_positive(ops, x)
    &&& size(q.units() - exp2(ops, x).units()) * 0x10_0000 <= exp2(ops, x).units() ==> {
        &&& !(ops.log2)(q).nan()
        &&& size((ops.log2)(q).units() - x.units()) <= 64 * grain()
    }
}

/// Whether the logarithm undoes the power, within 32 octaves.
pub open spec fn log2_undoes(ops: Operations) -> bool {
    forall|x: Single, q: Single|
        !x.nan() && !q.nan() && size(x.units()) <= 32 * one() ==> #[trigger] log2_at(ops, x, q)
}

/// How many octaves the note `midi` lies above concert A.
spec fn octaves(ops: Operations, midi: Single) -> Single {
    (ops.over)((ops.minus)(midi, Single { bits: CONCERT_MIDI }), Single { bits: SEMITONES })
}

proof fn lemma_octaves(ops: Operations, midi: Single)
    requires
        rounded(ops),
        !midi.nan(),
        size(midi.units()) <= 256 * one(),
    ensures
        ({
            let x = octaves(ops, midi);
            &&& !x.nan()
            &&& close(12 * x.units(), midi.units() - 69 * one(), 96 * grain())
            &&& size(x.units()) <= 28 * one()
        }),
{
    let o = one();
    let u = grain();
    let concert = Single { bits: CONCERT_MIDI };
    let twelve = Single { bits: SEMITONES };
    let d = (ops.minus)(midi, concert);
    lemma_grain();
    vstd::arithmetic::power2::lemma2_to64();
    lemma_whole_pattern(concert, 133, 69);
    lemma_whole_pattern(twelve, 130, 12);
    lemma_difference(ops, midi, concert, 325 * o, 42 * u);
    let a = d.units();
    assert(size(a * o) <= (28 * o) * (12 * o)) by (nonlinear_arith)
        requires
            size(a) <= 336 * o,
            o > 0,
    ;
    lemma_ratio(ops, d, twelve, 28 * o, 4 * u);
    let x = octaves(ops, midi).units();
    assert(-(48 * u) <= 12 * x - a <= 48 * u) by (nonlinear_arith)
        requires
            size(x * (12 * o) - a * o) <= (4 * u) * (12 * o),
            o > 0,
    ;
}

/// A frequency is 440 times the power of two, up to rounding.
proof fn lemma_frequency(ops: Operations, midi: Single)
    requires
        rounded(ops),
        !midi.nan(),
        size(midi.units()) <= 256 * one(),
        exp2_positive(ops, octaves(ops, midi)),
    ensures
        ({
            let exact = 440 * exp2(ops, octaves(ops, midi)).units();
            &&& !hz_of(ops, midi).nan()
            &&& size(hz_of(ops, midi).units() - exact) * 0x100_0000 <= exact + 0x100_0000
            &&& exact >= 0x1_0000_0000_0000
            &&& exact <= 0xe00_0000_0000 * one()
        }),
{
    let o = one();
    let concert = Single { bits: CONCERT_HZ };
    let p = exp2(ops, octaves(ops, midi));
    lemma_grain();
    lemma_grain_large();
    vstd::arithmetic::power2::lemma2_to64();
    lemma_whole_pattern(concert, 135, 440);
    let h = hz_of(ops, midi);
    assert(rounds(h, (440 * o) * p.units(), o));
    let x = h.units();
    let e = p.units();
    assert(size(x - 440 * e) * 0x100_0000 <= 440 * e + 0x100_0000) by (nonlinear_arith)
        requires
            size(x * o - (440 * o) * e) * 0x100_0000 <= size((440 * o) * e) + 0x100_0000 * o,
            e >= 0,
            o > 0,
    ;
}

/// The grain is very large against a unit.
proof fn lemma_grain_large()
    ensures
        grain() >= 0x8_0000_0000 * 0x1_0000_0000_0000,
{
    vstd::arithmetic::power2::lemma2_to64();
    vstd::arithmetic::power2::lemma2_to64_rest();
    vstd::arithmetic::power2::lemma_pow2_adds(64, 64);
    let p = vstd::arithmetic::power2::pow2(64) as int;
    assert(p * p >= 0x8_0000_0000 * 0x1_0000_0000_0000) by (nonlinear_arith)
        requires
            p == 0x1_0000_0000_0000_0000,
    ;
}

/// Twelve semitones are a factor of two, everywhere on the scale: the frequency of the
/// note twelve above is twice that of the note, up to rounding.
pub proof fn law_twelve_semitones_double(ops: Operations, midi: Single, above: Single)
    requires
        rounded(ops),
        exp2_doubles(ops),
        !midi.nan(),
        !above.nan(),
        size(midi.units()) <= 200 * one(),
        above.units() == midi.units() + 12 * one(),
    ensures
        0 < hz_of(ops, midi).units(),
        size(hz_of(ops, above).units() - 2 * hz_of(ops, midi).units()) * 0x1000 <= hz_of(
            ops,
            midi,
        ).units(),
{
    let x = octaves(ops, midi);
    let y = octaves(ops, above);
    lemma_grain();
    lemma_octaves(ops, midi);
    lemma_octaves(ops, above);
    let p = exp2(ops, x).units();
    let q = exp2(ops, y).units();
    assert(size(q - 2 * p) * 0x2000 <= p);
    lemma_frequency(ops, midi);
    lemma_frequency(ops, above);
}

/// Equal steps are equal ratios: where `b` is as far above `a` as `d` is above `c`, the
/// frequencies of `b` and `a` are in the ratio of those of `d` and `c`, up to rounding.
pub proof fn law_equal_steps_equal_ratios(
    ops: Operations,
    a: Single,
    b: Single,
    c: Single,
    d: Single,
)
    requires
        rounded(ops),
        exp2_steps(ops),
        !a.nan() && !b.nan() && !c.nan() && !d.nan(),
        size(a.units()) <= 256 * one(),
        size(b.units()) <= 256 * one(),
        size(c.units()) <= 256 * one(),
        size(d.units()) <= 256 * one(),
        b.units() - a.units() == d.units() - c.units(),
    ensures
        ({
            let ad = hz_of(ops, a).units() * hz_of(ops, d).units();
            &&& 0 < ad
            &&& size(hz_of(ops, b).units() * hz_of(ops, c).units() - ad) * 0x1000 <= ad
        }),
{
    lemma_grain();
    lemma_octaves(ops, a);
    lemma_octaves(ops, b);
    lemma_octaves(ops, c);
    lemma_octaves(ops, d);
    let pa = exp2(ops, octaves(ops, a)).units();
    let pb = exp2(ops, octaves(ops, b)).units();
    let pc = exp2(ops, octaves(ops, c)).units();
    let pd = exp2(ops, octaves(ops, d)).units();
    assert(size(pb * pc - pa * pd) * 0x2000 <= pa * pd);
    lemma_frequency(ops, a);
    lemma_frequency(ops, b);
    lemma_frequency(ops, c);
    lemma_frequency(ops, d);
    lemma_ratios(
        440 * pa,
        440 * pb,
        440 * pc,
        440 * pd,
        hz_of(ops, a).units(),
        hz_of(ops, b).units(),
        hz_of(ops, c).units(),
        hz_of(ops, d).units(),
    );
}

/// Products of numbers that are known up to rounding.
proof fn lemma_product_near(x: int, y: int, p: int, q: int)
    requires
        x > 0,
        y > 0,
        size(p - x) * 0x80_0000 <= x,
        size(q - y) * 0x80_0000 <= y,
    ensures
        size(p * q - x * y) * 0x20_0000 <= x * y,
{
    let e = p - x;
    let f = q - y;
    assert(p * q - x * y == e * y + x * f + e * f) by (nonlinear_arith)
        requires
            p == x + e,
            q == y + f,
    ;
    assert(size(e * y) * 0x80_0000 <= x * y) by (nonlinear_arith)
        requires
            size(e) * 0x80_0000 <= x,
            y > 0,
    ;
    assert(size(x * f) * 0x80_0000 <= x * y) by (nonlinear_arith)
        requires
            size(f) * 0x80_0000 <= y,
            x > 0,
    ;
    assert(size(e * f) * 0x80_0000 <= x * y) by (nonlinear_arith)
        requires
            size(e) * 0x80_0000 <= x,
            size(f) <= y,
            x > 0,
            y > 0,
    ;
}

proof fn lemma_ratios(
    xa: int,
    xb: int,
    xc: int,
    xd: int,
    a: int,
    b: int,
    c: int,
    d: int,
)
    requires
        xa >= 0x1_0000_0000_0000,
        xb >= 0x1_0000_0000_0000,
        xc >= 0x1_0000_0000_0000,
        xd >= 0x1_0000_0000_0000,
        size(a - xa) * 0x100_0000 <= xa + 0x100_0000,
        size(b - xb) * 0x100_0000 <= xb + 0x100_0000,
        size(c - xc) * 0x100_0000 <= xc + 0x100_0000,
        size(d - xd) * 0x100_0000 <= xd + 0x100_0000,
        exists|pa: int, pb: int, pc: int, pd: int|
            xa == 440 * pa && xb == 440 * pb && xc == 440 * pc && xd == 440 * pd && size(
                #[trigger] (pb * pc) - #[trigger] (pa * pd),
            ) * 0x2000 <= pa * pd,
    ensures
        0 < a * d,
        size(b * c - a * d) * 0x1000 <= a * d,
{
    let (pa, pb, pc, pd) = choose|pa: int, pb: int, pc: int, pd: int|
        xa == 440 * pa && xb == 440 * pb && xc == 440 * pc && xd == 440 * pd && size(
            #[trigger] (pb * pc) - #[trigger] (pa * pd),
        ) * 0x2000 <= pa * pd;
    let m = pb * pc;
    let n = pa * pd;
    assert(xb * xc == 193600 * m && xa * xd == 193600 * n) by (nonlinear_arith)
        requires
            xa == 440 * pa,
            xb == 440 * pb,
            xc == 440 * pc,
            xd == 440 * pd,
            m == pb * pc,
            n == pa * pd,
    ;
    lemma_product_near(xa, xd, a, d);
    lemma_product_near(xb, xc, b, c);
    assert(xa * xd > 0) by (nonlinear_arith)
        requires
            xa > 0,
            xd > 0,
    ;
}

/// A note comes back: its frequency, turned into a pitch again, is the note to a
/// thousandth of a semitone.
pub proof fn law_note_comes_back(ops: Operations, midi: Single)
    requires
        rounded(ops),
        log2_undoes(ops),
        !midi.nan(),
        size(midi.units()) <= 256 * one(),
    ensures
        !midi_of(ops, hz_of(ops, midi)).nan(),
        1000 * size(midi_of(ops, hz_of(ops, midi)).units() - midi.units()) < one(),
{
    let o = one();
    let u = grain();
    let x = octaves(ops, midi);
    let concert = Single { bits: CONCERT_HZ };
    let h = hz_of(ops, midi);
    let q = (ops.over)(h, concert);
    let l = (ops.log2)(q);
    lemma_grain();
    lemma_grain_large();
    lemma_octaves(ops, midi);
    vstd::arithmetic::power2::lemma2_to64();
    lemma_whole_pattern(concert, 135, 440);
    let p = exp2(ops, x).units();
    assert(log2_at(ops, x, zero()));
    lemma_frequency(ops, midi);
    let v = h.units();
    assert(rounds(q, v * o, 440 * o));
    let w = q.units();
    assert(size(440 * w - v) * 0x100_0000 <= size(v) + 0x100_0000 * 440) by (nonlinear_arith)
        requires
            size(w * (440 * o) - v * o) * 0x100_0000 <= size(v * o) + 0x100_0000 * (440 * o),
            o > 0,
    ;
    assert(size(w - p) * 0x10_0000 <= p);
    assert(log2_at(ops, x, q));
    let semitones = Single { bits: SEMITONES };
    let base = Single { bits: CONCERT_MIDI };
    lemma_whole_pattern(semitones, 130, 12);
    lemma_whole_pattern(base, 133, 69);
    let t = (ops.times)(semitones, l);
    let g = l.units();
    assert(size((12 * o) * g) <= (349 * o) * o) by (nonlinear_arith)
        requires
            -(349 * o) <= 12 * g <= 349 * o,
            o > 0,
    ;
    lemma_product(ops, semitones, l, 349 * o, 45 * u);
    let r = t.units();
    assert(-(45 * u) <= r - 12 * g <= 45 * u) by (nonlinear_arith)
        requires
            size(r * o - (12 * o) * g) <= (45 * u) * o,
            o > 0,
    ;
    lemma_sum(ops, base, t, 420 * o, 54 * u);
}

/// A number of no units is 0.
proof fn lemma_zero_finite(s: Single)
    requires
        !s.nan(),
        s.units() == 0,
    ensures
        finite(s),
{
    Single::law_key_order(s, zero());
}

/// A number of `n` is no infinity.
proof fn lemma_whole_finite(s: Single, pattern: Single)
    requires
        !s.nan(),
        finite(pattern),
        s.units() == pattern.units(),
    ensures
        finite(s),
{
    Single::law_key_order(s, pattern);
}

/// Note 69 is concert A: its frequency is 440 Hz, and 440 Hz is note 69, exactly.
pub proof fn law_concert_pitch(ops: Operations)
    requires
        faithful(ops),
        forall|s: Single|
            hits(s, Single { bits: UNIT }) ==> hits(#[trigger] (ops.log2)(s), zero()),
        forall|s: Single|
            hits(s, zero()) ==> hits(#[trigger] exp2(ops, s), Single { bits: UNIT }),
    ensures
        hits(hz_of(ops, Single { bits: CONCERT_MIDI }), Single { bits: CONCERT_HZ }),
        hits(midi_of(ops, Single { bits: CONCERT_HZ }), Single { bits: CONCERT_MIDI }),
        (Single { bits: CONCERT_HZ }).units() == 440 * one(),
        (Single { bits: CONCERT_MIDI }).units() == 69 * one(),
{
    let o = one();
    let hz = Single { bits: CONCERT_HZ };
    let midi = Single { bits: CONCERT_MIDI };
    let twelve = Single { bits: SEMITONES };
    let unit = Single { bits: UNIT };
    lemma_grain();
    vstd::arithmetic::power2::lemma2_to64();
    lemma_whole_pattern(hz, 135, 440);
    lemma_whole_pattern(midi, 133, 69);
    lemma_whole_pattern(twelve, 130, 12);
    lemma_whole_pattern(unit, 127, 1);
    // From the note to the frequency.
    let d = (ops.minus)(midi, midi);
    assert(hits(d, zero()));
    lemma_zero_finite(d);
    let x = (ops.over)(d, twelve);
    assert(0 * o == 0 && 0 * (12 * o) == 0);
    assert(hits(x, zero()));
    let p = exp2(ops, x);
    assert(hits(p, unit));
    lemma_whole_finite(p, unit);
    assert((440 * o) * o == (440 * o) * o);
    assert(hits((ops.times)(hz, p), hz));
    // From the frequency to the note.
    let q = (ops.over)(hz, hz);
    assert((440 * o) * o == o * (440 * o)) by (nonlinear_arith);
    assert(hits(q, unit));
    let l = (ops.log2)(q);
    assert(hits(l, zero()));
    lemma_zero_finite(l);
    let t = (ops.times)(twelve, l);
    assert((12 * o) * 0 == 0);
    assert(hits(t, zero()));
    lemma_zero_finite(t);
    assert(hits((ops.plus)(midi, t), midi));
}

/// Ten to the power `x`.
pub open spec fn exp10(ops: Operations, x: Single) -> Single {
    (ops.power)(Single { bits: TEN }, x)
}

/// Whether powers of ten go up tenfold from one exponent to the next, within 16.
pub open spec fn exp10_tenfold(ops: Operations) -> bool {
    forall|x: Single, y: Single|
        !x.nan() && !y.nan() && size(x.units()) <= 16 * one() && close(
            y.units(),
            x.units() + one(),
            64 * grain(),
        ) ==> size(
            (#[trigger] exp10(ops, y)).units() - 10 * (#[trigger] exp10(ops, x)).units(),
        ) * 0x400 <= exp10(ops, x).units()
}

/// A twentieth of a number of decibels.
proof fn lemma_twentieth(ops: Operations, d: Single)
    requires
        rounded(ops),
        !d.nan(),
        size(d.units()) <= 220 * one(),
    ensures
        ({
            let x = (ops.over)(d, Single { bits: DECIBELS });
            &&& !x.nan()
            &&& close(20 * x.units(), d.units(), 60 * grain())
            &&& size(x.units()) <= 12 * one()
        }),
{
    let o = one();
    let u = grain();
    let twenty = Single { bits: DECIBELS };
    lemma_grain();
    vstd::arithmetic::power2::lemma2_to64();
    lemma_whole_pattern(twenty, 131, 20);
    let a = d.units();
    assert(size(a * o) <= (11 * o) * (20 * o)) by (nonlinear_arith)
        requires
            size(a) <= 220 * o,
            o > 0,
    ;
    lemma_ratio(ops, d, twenty, 11 * o, 3 * u);
    let x = (ops.over)(d, twenty).units();
    assert(-(60 * u) <= 20 * x - a <= 60 * u) by (nonlinear_arith)
        requires
            size(x * (20 * o) - a * o) <= (3 * u) * (20 * o),
            o > 0,
    ;
}

/// Twenty decibels are a factor of ten, everywhere on the slider.
pub proof fn law_twenty_decibels_tenfold(ops: Operations, lower: Single, higher: Single)
    requires
        rounded(ops),
        exp10_tenfold(ops),
        !lower.nan(),
        !higher.nan(),
        size(lower.units()) <= 200 * one(),
        higher.units() == lower.units() + 20 * one(),
    ensures
        size(gate_of(ops, higher).units() - 10 * gate_of(ops, lower).units()) * 0x400 <= gate_of(
            ops,
            lower,
        ).units(),
{
    let x = (ops.over)(lower, Single { bits: DECIBELS });
    let y = (ops.over)(higher, Single { bits: DECIBELS });
    lemma_grain();
    lemma_twentieth(ops, lower);
    lemma_twentieth(ops, higher);
    assert(size(exp10(ops, y).units() - 10 * exp10(ops, x).units()) * 0x400 <= exp10(
        ops,
        x,
    ).units());
}

/// A noise gate comes back: shown in decibels and set to what is shown, it is the same
/// again, up to rounding. It is so for every one that is not below the lowest shown.
pub proof fn law_gate_comes_back(ops: Operations, gate: Single)
    requires
        rounded(ops),
        (Single { bits: LEAST_GATE }).at_most(gate),
        !(ops.log10)(gate).nan(),
        size((ops.log10)(gate).units()) <= 8 * one(),
        forall|x: Single|
            !x.nan() && close(x.units(), (ops.log10)(gate).units(), 8 * grain()) ==> size(
                (#[trigger] exp10(ops, x)).units() - gate.units(),
            ) * 0x1000 <= gate.units(),
    ensures
        size(gate_of(ops, decibels_of(ops, gate)).units() - gate.units()) * 0x1000 <= gate.units(),
{
    let o = one();
    let u = grain();
    let twenty = Single { bits: DECIBELS };
    let l = (ops.log10)(gate);
    let d = (ops.times)(twenty, l);
    lemma_grain();
    vstd::arithmetic::power2::lemma2_to64();
    lemma_whole_pattern(twenty, 131, 20);
    let g = l.units();
    assert(size((20 * o) * g) <= (160 * o) * o) by (nonlinear_arith)
        requires
            -(8 * o) <= g <= 8 * o,
            o > 0,
    ;
    lemma_product(ops, twenty, l, 160 * o, 22 * u);
    let r = d.units();
    assert(-(22 * u) <= r - 20 * g <= 22 * u) by (nonlinear_arith)
        requires
            size(r * o - (20 * o) * g) <= (22 * u) * o,
            o > 0,
    ;
    lemma_twentieth(ops, d);
    assert(decibels_of(ops, gate) == d) by {
        if gate.below(Single { bits: LEAST_GATE }) {
            assert(false);
        }
    }
    let x = (ops.over)(d, twenty);
    assert(size(exp10(ops, x).units() - gate.units()) * 0x1000 <= gate.units());
}

/// A gate below the lowest shown is shown as that one.
pub proof fn law_least_gate_shown(ops: Operations, gate: Single)
    requires
        gate.below(Single { bits: LEAST_GATE }),
    ensures
        decibels_of(ops, gate) == decibels_of(ops, Single { bits: LEAST_GATE }),
{
}

/// Whether whole notes are singles exactly.
pub open spec fn notes_exact(ops: Operations) -> bool {
    forall|n: i32|
        -0x100_0000 <= n <= 0x100_0000 ==> !(#[trigger] (ops.of_i32)(n)).nan() && (ops.of_i32)(
            n,
        ).units() == n * one()
}

/// The readout adds up: a hundred times the note and the cents together are a hundred
/// times the pitch, to half a cent; and the note is the nearest, so that the cents are
/// fifty at most.
pub proof fn law_readout_adds_up(ops: Operations, midi: Single)
    requires
        rounded(ops),
        notes_exact(ops),
        !midi.nan(),
        size(midi.units()) <= 0x1000 * one(),
    ensures
        2 * size(
            100 * midi.units() - (100 * nearest_note(midi) + cents_of(ops, midi)) * one(),
        ) <= one() + 0x1000 * grain(),
        -50 <= cents_of(ops, midi) <= 50,
{
    let o = one();
    let u = grain();
    let hundred = Single { bits: CENTS };
    lemma_grain();
    vstd::arithmetic::power2::lemma2_to64();
    lemma_whole_pattern(hundred, 133, 100);
    law_nearest(midi);
    let n = midi.nearest_whole();
    let m = midi.units();
    assert(-0x1001 <= n <= 0x1001) by (nonlinear_arith)
        requires
            -o <= 2 * (m - n * o) <= o,
            -(0x1000 * o) <= m <= 0x1000 * o,
            o > 0,
    ;
    let note = (ops.of_i32)(n as i32);
    assert(note.units() == n * o);
    assert(-(0x1001 * o) <= n * o <= 0x1001 * o) by (nonlinear_arith)
        requires
            -0x1001 <= n <= 0x1001,
            o > 0,
    ;
    let d = (ops.minus)(midi, note);
    lemma_difference(ops, midi, note, o, u);
    let a = d.units();
    assert(size(a * (100 * o)) <= (51 * o) * o) by (nonlinear_arith)
        requires
            -(51 * o) <= 100 * a <= 51 * o,
            o > 0,
    ;
    lemma_product(ops, d, hundred, 51 * o, 8 * u);
    let off = (ops.times)(d, hundred);
    let f = off.units();
    assert(-(8 * u) <= f - 100 * a <= 8 * u) by (nonlinear_arith)
        requires
            size(f * o - a * (100 * o)) <= (8 * u) * o,
            o > 0,
    ;
    law_nearest(off);
    let c = off.nearest_whole();
    assert(-51 < c < 51) by (nonlinear_arith)
        requires
            -o <= 2 * (f - c * o) <= o,
            -(50 * o + 200 * u) <= f <= 50 * o + 200 * u,
            o == 0x20_0000 * u,
            u > 0,
    ;
    assert((100 * n + c) * o == 100 * (n * o) + c * o) by (nonlinear_arith);
}

/// A pattern that stands for a part of one.
proof fn lemma_part_of_one(s: Single, e: int, m: int, parts: int)
    requires
        s.bits == 0x80_0000 * e + (m - 0x80_0000),
        0x80_0000 <= m < 0x100_0000,
        104 <= e <= 126,
        parts > 0,
        -parts <= 2 * (parts * m - pow2((150 - e) as nat)) <= parts,
    ensures
        !s.nan(),
        s.units() > 0,
        size(parts * s.units() - one()) * 0x80_0000 <= one(),
{
    lemma_pow2_adds((150 - e) as nat, (e - 1) as nat);
    lemma_pow2_pos((e - 1) as nat);
    let p = pow2((e - 1) as nat) as int;
    let w = pow2((150 - e) as nat) as int;
    assert(s.units() == m * p);
    assert(m * p > 0) by (nonlinear_arith)
        requires
            m > 0,
            p > 0,
    ;
    let d = parts * m - w;
    assert(parts * (m * p) - w * p == d * p) by (nonlinear_arith)
        requires
            d == parts * m - w,
    ;
    assert(size(d) * 0x80_0000 <= w) by (nonlinear_arith)
        requires
            2 * size(d) <= parts,
            d == parts * m - w,
            m >= 0x80_0000,
            parts > 0,
    ;
    assert(size(d * p) * 0x80_0000 <= w * p) by (nonlinear_arith)
        requires
            size(d) * 0x80_0000 <= w,
            p > 0,
    ;
}

/// The noise gates: that of the display at the start is a ten-thousandth, that of the analyzer a
/// thousandth, and the least that is shown a millionth, each to the precision of a single.
pub proof fn law_gates()
    ensures
        size(10_000 * (Single { bits: START_GATE }).units() - one()) * 0x80_0000 <= one(),
        size(1_000 * (Single { bits: DEFAULT_GATE }).units() - one()) * 0x80_0000 <= one(),
        size(1_000_000 * (Single { bits: LEAST_GATE }).units() - one()) * 0x80_0000 <= one(),
{
    lemma2_to64();
    lemma2_to64_rest();
    lemma_part_of_one(Single { bits: START_GATE }, 113, 0xd1_b717, 10_000);
    lemma_part_of_one(Single { bits: DEFAULT_GATE }, 117, 0x83_126f, 1_000);
    lemma_part_of_one(Single { bits: LEAST_GATE }, 107, 0x86_37bd, 1_000_000);
}

} // verus!
