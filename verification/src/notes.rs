//! Notes of the chromatic scale: their names, and the frequencies they stand for.
use vstd::prelude::*;
use crate::arith::{
    adds, converts, divides, multiplies, raises, subtracts, takes_log2, Arithmetic, Operations,
    TWO,
};
use crate::rounding::{
    grain, lemma_grain, lemma_product, lemma_sum, lemma_whole_pattern, rounded, size,
};
use crate::single::{close, one, Single};

verus! {

/// The names of the twelve pitch classes.
pub const NOTE_NAMES: [&'static str; 12] = [
    "C",
    "C#",
    "D",
    "D#",
    "E",
    "F",
    "F#",
    "G",
    "G#",
    "A",
    "A#",
    "B",
];

/// The decimal digits.
pub const DIGITS: [&'static str; 10] = ["0", "1", "2", "3", "4", "5", "6", "7", "8", "9"];

/// The frequency of concert A, 440 Hz.
pub const CONCERT_HZ: u32 = 0x43dc_0000;

/// The MIDI number of concert A, 69.
pub const CONCERT_MIDI: u32 = 0x428a_0000;

/// Semitones to the octave.
pub const SEMITONES: u32 = 0x4140_0000;

/// Cents to the semitone.
pub const CENTS: u32 = 0x42c8_0000;

/// The decimal digits of `n`.
pub open spec fn digits(n: nat) -> Seq<char>
    decreases n,
{
    if n < 10 {
        DIGITS@[n as int]@
    } else {
        digits(n / 10) + DIGITS@[(n % 10) as int]@
    }
}

/// The integer `n` in decimal notation.
pub open spec fn decimal(n: int) -> Seq<char> {
    if n < 0 {
        "-"@ + digits((-n) as nat)
    } else {
        digits(n as nat)
    }
}

/// The name of the note `midi`: its pitch class, and its octave, where note 60
/// opens octave 4.
pub open spec fn name_of(midi: int) -> Seq<char> {
    NOTE_NAMES@[midi % 12]@ + decimal(midi / 12 - 1)
}

fn push_digits(text: &mut String, n: u64)
    ensures
        final(text)@ == old(text)@ + digits(n as nat),
    decreases n,
{
    if n < 10 {
        text.append(DIGITS[n as usize]);
    } else {
        push_digits(text, n / 10);
        text.append(DIGITS[(n % 10) as usize]);
        proof {
            assert(text@ =~= old(text)@ + (digits((n / 10) as nat) + DIGITS@[(n % 10) as int]@));
        }
    }
}

/// Appends the integer `n` in decimal notation.
pub fn push_decimal(text: &mut String, n: i64)
    requires
        n > i64::MIN,
    ensures
        final(text)@ == old(text)@ + decimal(n as int),
{
    if n < 0 {
        text.append("-");
        push_digits(text, (-n) as u64);
        proof {
            assert(text@ =~= old(text)@ + decimal(n as int));
        }
    } else {
        push_digits(text, n as u64);
    }
}

/// The name of the note `midi`, such as `A4` for 69.
pub fn note_name(midi: i32) -> (r: String)
    ensures
        r@ == name_of(midi as int),
{
    // 2.4 billion is a multiple of 12 that lifts every `i32` above 0.
    let lifted: u64 = (midi as i64 + 2_400_000_000) as u64;
    let class: usize = (lifted % 12) as usize;
    let octave: i64 = (lifted / 12) as i64 - 200_000_001;
    let mut name: String = String::new();
    name.append(NOTE_NAMES[class]);
    push_decimal(&mut name, octave);
    proof {
        assert(class == midi as int % 12);
        assert(octave == midi as int / 12 - 1);
        assert(name@ =~= name_of(midi as int));
    }
    name
}

/// The note, in semitones on the MIDI scale, of the frequency `hz`.
pub open spec fn midi_of(ops: Operations, hz: Single) -> Single {
    (ops.plus)(
        Single { bits: CONCERT_MIDI },
        (ops.times)(
            Single { bits: SEMITONES },
            (ops.log2)((ops.over)(hz, Single { bits: CONCERT_HZ })),
        ),
    )
}

/// The frequency of the note `midi`.
pub open spec fn hz_of(ops: Operations, midi: Single) -> Single {
    (ops.times)(
        Single { bits: CONCERT_HZ },
        (ops.power)(
            Single { bits: TWO },
            (ops.over)(
                (ops.minus)(midi, Single { bits: CONCERT_MIDI }),
                Single { bits: SEMITONES },
            ),
        ),
    )
}

/// The note, in semitones on the MIDI scale, of the frequency `hz`.
pub fn hz_to_midi<A: Arithmetic>(hz: Single) -> (r: Single)
    ensures
        forall|ops: Operations|
            #[trigger] adds::<A>(ops) && #[trigger] multiplies::<A>(ops) &&
            #[trigger] divides::<A>(ops) && #[trigger] takes_log2::<A>(ops)
                ==> r == midi_of(ops, hz),
{
    A::plus(
        Single { bits: CONCERT_MIDI },
        A::times(Single { bits: SEMITONES }, A::log2(A::over(hz, Single { bits: CONCERT_HZ }))),
    )
}

/// The frequency of the note `midi`.
pub fn midi_to_hz<A: Arithmetic>(midi: Single) -> (r: Single)
    ensures
        forall|ops: Operations|
            #[trigger] subtracts::<A>(ops) && #[trigger] multiplies::<A>(ops) &&
            #[trigger] divides::<A>(ops) && #[trigger] raises::<A>(ops) ==> r == hz_of(ops, midi),
{
    A::times(
        Single { bits: CONCERT_HZ },
        A::power(
            Single { bits: TWO },
            A::over(A::minus(midi, Single { bits: CONCERT_MIDI }), Single { bits: SEMITONES }),
        ),
    )
}

/// What the live readout shows of a pitch.
#[derive(Clone, Copy, Debug, PartialEq, Eq, Structural)]
pub struct Readout {
    /// The frequency.
    pub hz: Single,
    /// The nearest note.
    pub note: i32,
    /// How far the pitch lies from that note, in cents.
    pub cents: i32,
}

/// The nearest note to the pitch `midi`.
pub open spec fn nearest_note(midi: Single) -> int {
    midi.cast(midi.nearest_whole(), i32::MIN as int, i32::MAX as int)
}

/// How far the pitch `midi` lies from the nearest note, in whole cents.
pub open spec fn cents_of(ops: Operations, midi: Single) -> int {
    let note = nearest_note(midi) as i32;
    let off = (ops.times)((ops.minus)(midi, (ops.of_i32)(note)), Single { bits: CENTS });
    off.cast(off.nearest_whole(), i32::MIN as int, i32::MAX as int)
}

/// What the live readout shows of the pitch `midi`.
pub fn readout<A: Arithmetic>(midi: Single) -> (r: Readout)
    ensures
        r.note == nearest_note(midi),
        forall|ops: Operations|
            #[trigger] subtracts::<A>(ops) && #[trigger] multiplies::<A>(ops) &&
            #[trigger] divides::<A>(ops) && #[trigger] raises::<A>(ops)
                ==> r.hz == hz_of(ops, midi),
        forall|ops: Operations|
            #[trigger] subtracts::<A>(ops) && #[trigger] multiplies::<A>(ops) &&
            #[trigger] converts::<A>(ops) ==> r.cents == cents_of(ops, midi),
{
    let note: i32 = midi.round_i32();
    let off: Single = A::times(A::minus(midi, A::of_i32(note)), Single { bits: CENTS });
    Readout { hz: midi_to_hz::<A>(midi), note, cents: off.round_i32() }
}

/// A note and the one an octave above it share their pitch class, and the octave
/// number goes up by one.
pub proof fn law_octave_up(midi: int)
    ensures
        name_of(midi + 12) == NOTE_NAMES@[midi % 12]@ + decimal(midi / 12),
{
    assert((midi + 12) % 12 == midi % 12);
    assert((midi + 12) / 12 == midi / 12 + 1);
}

/// Whether `f` keeps the order of the positive numbers.
pub open spec fn keeps_order(f: spec_fn(Single) -> Single) -> bool {
    forall|a: Single, b: Single|
        (Single { bits: 0 }).below(a) && a.at_most(b) ==> (#[trigger] f(a)).at_most(#[trigger] f(b))
}

/// Whether `f` keeps the order of all numbers.
pub open spec fn keeps_all_order(f: spec_fn(Single) -> Single) -> bool {
    forall|a: Single, b: Single|
        a.at_most(b) ==> (#[trigger] f(a)).at_most(#[trigger] f(b))
}

/// The scale rises with the frequency, as the logarithm does.
pub proof fn law_scale_rises(ops: Operations, low: Single, high: Single)
    requires
        (Single { bits: 0 }).below(low),
        low.at_most(high),
        (Single { bits: 0 }).below((ops.over)(low, Single { bits: CONCERT_HZ })),
        keeps_order(|x: Single| (ops.over)(x, Single { bits: CONCERT_HZ })),
        keeps_order(ops.log2),
        keeps_all_order(|x: Single| (ops.times)(Single { bits: SEMITONES }, x)),
        keeps_all_order(|x: Single| (ops.plus)(Single { bits: CONCERT_MIDI }, x)),
    ensures
        midi_of(ops, low).at_most(midi_of(ops, high)),
{
    let ratio = |x: Single| (ops.over)(x, Single { bits: CONCERT_HZ });
    let semitones = |x: Single| (ops.times)(Single { bits: SEMITONES }, x);
    let shifted = |x: Single| (ops.plus)(Single { bits: CONCERT_MIDI }, x);
    let a = (ops.log2)(ratio(low));
    let b = (ops.log2)(ratio(high));
    assert(ratio(low).at_most(ratio(high)));
    assert(a.at_most(b));
    assert(semitones(a).at_most(semitones(b)));
    assert(shifted(semitones(a)).at_most(shifted(semitones(b))));
}

/// Twice the frequency is twelve semitones higher where its logarithm is higher by
/// one. Both are so up to what rounding takes: `log` in the logarithms, `product` and
/// `sum` in the two steps that follow. Where nothing is lost, it is twelve semitones
/// exactly.
pub proof fn law_octave_is_twelve(
    ops: Operations,
    hz: Single,
    log: int,
    product: int,
    sum: int,
)
    requires
        ({
            let doubled = (ops.times)(Single { bits: TWO }, hz);
            let a = (ops.log2)((ops.over)(hz, Single { bits: CONCERT_HZ }));
            let b = (ops.log2)((ops.over)(doubled, Single { bits: CONCERT_HZ }));
            let twelve_a = (ops.times)(Single { bits: SEMITONES }, a);
            let twelve_b = (ops.times)(Single { bits: SEMITONES }, b);
            let concert = Single { bits: CONCERT_MIDI }.units();
            &&& close(b.units(), a.units() + one(), log)
            &&& close(twelve_a.units(), 12 * a.units(), product)
            &&& close(twelve_b.units(), 12 * b.units(), product)
            &&& close(midi_of(ops, hz).units(), concert + twelve_a.units(), sum)
            &&& close(midi_of(ops, doubled).units(), concert + twelve_b.units(), sum)
        }),
    ensures
        close(
            midi_of(ops, (ops.times)(Single { bits: TWO }, hz)).units(),
            midi_of(ops, hz).units() + 12 * one(),
            12 * log + 2 * product + 2 * sum,
        ),
{
}

/// Doubling the frequency raises the pitch by an octave, to a thousandth of a semitone:
/// where the basic operations are exact up to rounding, and the logarithm of a ratio
/// within sixteen octaves goes up by one to a part in `2^14`.
pub proof fn law_octave_to_a_thousandth(ops: Operations, hz: Single)
    requires
        rounded(ops),
        ({
            let doubled = (ops.times)(Single { bits: TWO }, hz);
            let a = (ops.log2)((ops.over)(hz, Single { bits: CONCERT_HZ }));
            let b = (ops.log2)((ops.over)(doubled, Single { bits: CONCERT_HZ }));
            &&& !a.nan()
            &&& !b.nan()
            &&& size(a.units()) <= 16 * one()
            &&& size(b.units() - a.units() - one()) <= 128 * grain()
        }),
    ensures
        1000 * size(
            midi_of(ops, (ops.times)(Single { bits: TWO }, hz)).units() - midi_of(ops, hz).units()
                - 12 * one(),
        ) < one(),
{
    let doubled = (ops.times)(Single { bits: TWO }, hz);
    let a = (ops.log2)((ops.over)(hz, Single { bits: CONCERT_HZ }));
    let b = (ops.log2)((ops.over)(doubled, Single { bits: CONCERT_HZ }));
    lemma_grain();
    lemma_pitch_of_log(ops, hz, a);
    lemma_pitch_of_log(ops, doubled, b);
    law_octave_is_twelve(ops, hz, 128 * grain(), 27 * grain(), 36 * grain());
}

/// What rounding takes on the way from a logarithm to a pitch.
proof fn lemma_pitch_of_log(ops: Operations, hz: Single, log: Single)
    requires
        rounded(ops),
        log == (ops.log2)((ops.over)(hz, Single { bits: CONCERT_HZ })),
        !log.nan(),
        size(log.units()) <= 17 * one() + 128 * grain(),
    ensures
        ({
            let twelve = (ops.times)(Single { bits: SEMITONES }, log);
            let concert = Single { bits: CONCERT_MIDI }.units();
            &&& close(twelve.units(), 12 * log.units(), 27 * grain())
            &&& close(midi_of(ops, hz).units(), concert + twelve.units(), 36 * grain())
        }),
{
    let semitones = Single { bits: SEMITONES };
    let concert = Single { bits: CONCERT_MIDI };
    let twelve = (ops.times)(semitones, log);
    let o = one();
    let u = grain();
    let l = log.units();
    lemma_grain();
    vstd::arithmetic::power2::lemma2_to64();
    lemma_whole_pattern(semitones, 130, 12);
    lemma_whole_pattern(concert, 133, 69);
    assert(size((12 * o) * l) <= (205 * o) * o) by (nonlinear_arith)
        requires
            -(205 * o) <= 12 * l <= 205 * o,
            o > 0,
    ;
    lemma_product(ops, semitones, log, 205 * o, 27 * u);
    let r = twelve.units();
    assert(-(27 * u) <= r - 12 * l <= 27 * u) by (nonlinear_arith)
        requires
            size(r * o - (12 * o) * l) <= (27 * u) * o,
            o > 0,
    ;
    lemma_sum(ops, concert, twelve, 275 * o, 36 * u);
}

/// The decimal digits are ten characters from `0` to `9`.
proof fn lemma_digit(d: int)
    requires
        0 <= d < 10,
    ensures
        DIGITS@[d]@.len() == 1,
        DIGITS@[d]@[0] as int == '0' as int + d,
{
    reveal_strlit("0");
    reveal_strlit("1");
    reveal_strlit("2");
    reveal_strlit("3");
    reveal_strlit("4");
    reveal_strlit("5");
    reveal_strlit("6");
    reveal_strlit("7");
    reveal_strlit("8");
    reveal_strlit("9");
}

/// A number has at least one digit, and its notation starts with one.
proof fn lemma_digits_start(n: nat)
    ensures
        digits(n).len() >= 1,
        n >= 10 ==> digits(n).len() >= 2,
        '0' as int <= digits(n)[0] as int <= '9' as int,
    decreases n,
{
    if n < 10 {
        lemma_digit(n as int);
    } else {
        lemma_digits_start(n / 10);
        lemma_digit((n % 10) as int);
    }
}

/// No two numbers have the same digits.
proof fn lemma_digits_distinct(a: nat, b: nat)
    requires
        digits(a) == digits(b),
    ensures
        a == b,
    decreases a,
{
    lemma_digits_start(a);
    lemma_digits_start(b);
    lemma_digit((a % 10) as int);
    lemma_digit((b % 10) as int);
    if a < 10 {
        lemma_digit(a as int);
        if b < 10 {
            lemma_digit(b as int);
        }
    } else if b >= 10 {
        assert(digits(a).last() == DIGITS@[(a % 10) as int]@[0]);
        assert(digits(b).last() == DIGITS@[(b % 10) as int]@[0]);
        assert(digits(a).drop_last() =~= digits(a / 10));
        assert(digits(b).drop_last() =~= digits(b / 10));
        lemma_digits_distinct(a / 10, b / 10);
    } else {
        lemma_digit(b as int);
    }
}

/// Decimal notation starts with a digit or with a minus sign.
proof fn lemma_decimal_start(n: int)
    ensures
        decimal(n).len() >= 1,
        n < 0 ==> decimal(n)[0] == '-',
        n >= 0 ==> '0' as int <= decimal(n)[0] as int <= '9' as int,
{
    reveal_strlit("-");
    if n < 0 {
        lemma_digits_start((-n) as nat);
    } else {
        lemma_digits_start(n as nat);
    }
}

/// No two integers have the same decimal notation.
pub proof fn law_decimal_distinct(a: int, b: int)
    requires
        decimal(a) == decimal(b),
    ensures
        a == b,
{
    reveal_strlit("-");
    lemma_decimal_start(a);
    lemma_decimal_start(b);
    if a < 0 {
        assert(decimal(a).skip(1) =~= digits((-a) as nat));
        assert(decimal(b).skip(1) =~= digits((-b) as nat));
        lemma_digits_distinct((-a) as nat, (-b) as nat);
    } else {
        lemma_digits_distinct(a as nat, b as nat);
    }
}

/// The names of the pitch classes are one letter, or one letter and a sharp, and
/// no two are alike.
proof fn lemma_classes(a: int, b: int)
    requires
        0 <= a < 12,
        0 <= b < 12,
    ensures
        1 <= NOTE_NAMES@[a]@.len() <= 2,
        NOTE_NAMES@[a]@.len() == 2 ==> NOTE_NAMES@[a]@[1] == '#',
        NOTE_NAMES@[a]@.len() == NOTE_NAMES@[b]@.len() && NOTE_NAMES@[a]@[0]
            == NOTE_NAMES@[b]@[0] ==> a == b,
{
    reveal_strlit("C");
    reveal_strlit("C#");
    reveal_strlit("D");
    reveal_strlit("D#");
    reveal_strlit("E");
    reveal_strlit("F");
    reveal_strlit("F#");
    reveal_strlit("G");
    reveal_strlit("G#");
    reveal_strlit("A");
    reveal_strlit("A#");
    reveal_strlit("B");
}

/// No two notes have the same name.
pub proof fn law_names_distinct(a: int, b: int)
    requires
        name_of(a) == name_of(b),
    ensures
        a == b,
{
    let ca = NOTE_NAMES@[a % 12]@;
    let cb = NOTE_NAMES@[b % 12]@;
    let na = name_of(a);
    let nb = name_of(b);
    lemma_classes(a % 12, b % 12);
    lemma_classes(b % 12, a % 12);
    lemma_decimal_start(a / 12 - 1);
    lemma_decimal_start(b / 12 - 1);
    assert(na[0] == ca[0] && nb[0] == cb[0]);
    if ca.len() != cb.len() {
        assert(na[1] == nb[1]);
    }
    assert(na.skip(ca.len() as int) =~= decimal(a / 12 - 1));
    assert(nb.skip(cb.len() as int) =~= decimal(b / 12 - 1));
    law_decimal_distinct(a / 12 - 1, b / 12 - 1);
}

/// The number that a row of decimal digits stands for.
pub open spec fn read_digits(text: Seq<char>) -> int
    decreases text.len(),
{
    if text.len() == 0 {
        0
    } else {
        10 * read_digits(text.drop_last()) + (text.last() as int - '0' as int)
    }
}

/// Decimal notation reads back: digits, behind a minus sign where the number is negative,
/// and no zero before another digit.
pub proof fn law_decimal_reads_back(n: int)
    ensures
        n >= 0 ==> read_digits(decimal(n)) == n,
        n < 0 ==> decimal(n)[0] == '-' && read_digits(decimal(n).skip(1)) == -n,
        n >= 10 ==> decimal(n)[0] != '0',
        n <= -1 ==> decimal(n)[1] != '0',
{
    reveal_strlit("-");
    if n >= 0 {
        lemma_digits_read_back(n as nat);
    } else {
        lemma_digits_read_back((-n) as nat);
        assert(decimal(n).skip(1) =~= digits((-n) as nat));
        assert(decimal(n)[1] == digits((-n) as nat)[0]);
    }
}

proof fn lemma_digits_read_back(n: nat)
    ensures
        read_digits(digits(n)) == n,
        digits(n).len() >= 1,
        n >= 1 ==> digits(n)[0] != '0',
    decreases n,
{
    reveal_with_fuel(read_digits, 2);
    if n < 10 {
        lemma_digit(n as int);
        assert(digits(n).drop_last().len() == 0);
    } else {
        lemma_digits_read_back(n / 10);
        lemma_digit((n % 10) as int);
        assert(digits(n).drop_last() =~= digits(n / 10));
    }
}

/// The naturals have the letters from C to B, each octave anew at its C, and a semitone
/// above a natural, but for E and B, is its sharp. The octave of note 60 is the fourth.
pub proof fn law_scale_names(octave: int, degree: int)
    requires
        0 <= degree < 7,
    ensures
        ({
            let steps = seq![0int, 2, 4, 5, 7, 9, 11];
            let letters = seq!['C', 'D', 'E', 'F', 'G', 'A', 'B'];
            let natural = 60 + 12 * (octave - 4) + steps[degree];
            &&& name_of(natural) == seq![letters[degree]] + decimal(octave)
            &&& degree != 2 && degree != 6 ==> name_of(natural + 1) == seq![
                letters[degree],
                '#',
            ] + decimal(octave)
        }),
{
    reveal_strlit("C");
    reveal_strlit("C#");
    reveal_strlit("D");
    reveal_strlit("D#");
    reveal_strlit("E");
    reveal_strlit("F");
    reveal_strlit("F#");
    reveal_strlit("G");
    reveal_strlit("G#");
    reveal_strlit("A");
    reveal_strlit("A#");
    reveal_strlit("B");
    let steps = seq![0int, 2, 4, 5, 7, 9, 11];
    let letters = seq!['C', 'D', 'E', 'F', 'G', 'A', 'B'];
    let natural = 60 + 12 * (octave - 4) + steps[degree];
    assert(natural % 12 == steps[degree] && natural / 12 == octave + 1);
    assert(NOTE_NAMES@[steps[degree]]@ =~= seq![letters[degree]]);
    if degree != 2 && degree != 6 {
        assert((natural + 1) % 12 == steps[degree] + 1 && (natural + 1) / 12 == octave + 1);
        assert(NOTE_NAMES@[steps[degree] + 1]@ =~= seq![letters[degree], '#']);
    }
}

} // verus!
