//! The offline analyzer: the detector run over a recording, the track smoothed as
//! the display smooths it, and the artifacts counted.
use vstd::prelude::*;
use vstd::arithmetic::div_mod::*;
use vstd::arithmetic::mul::*;
use crate::arith::{
    adds, counts, divides, multiplies, subtracts, takes_log2, takes_root, zero, Arithmetic,
    Operations, HALF,
};
use crate::histogram::{
    histogram, is_histogram, nearest_notes, notes_of, Tally, HISTOGRAM_ROWS,
};
use crate::history::{
    all_numbers, around, is_votable, law_shown_is_number, lemma_voiced_orderly, showable,
    smooth_at, smoothed, votable, voiced, HIST_LEN,
};
use crate::notes::{hz_to_midi, midi_of, SEMITONES};
use crate::order::{count, lemma_count_monotone, lemma_count_same, middle, orderly, select};
use crate::pitch::{detect_pitch, detection};
use crate::rounding::{
    counts_rounded, grain, lemma_grain, lemma_ratio, lemma_whole_pattern, moderate, rounded,
    rounds, size,
};
use crate::single::{law_abs, law_nearest, one, Single};

verus! {

/// Frames per second, 60: the cadence of the display.
pub const UI_HZ: u32 = 0x4270_0000;

/// The noise gate where none is given, 0.001.
pub const DEFAULT_GATE: u32 = 0x3a83_126f;

/// The number 100.
pub const HUNDRED: u32 = 0x42c8_0000;

/// How near to an octave a jump is to count as one, 1.5 semitones.
pub const OCTAVE_SLACK: u32 = 0x3fc0_0000;

/// About how many rows the timeline has.
pub const TIMELINE_ROWS: usize = 60;

/// What the command line asks for.
#[derive(Clone, Copy, Debug, PartialEq, Eq, Structural)]
pub struct Options {
    /// The noise gate.
    pub gate: Single,
    /// Whether to print the timeline.
    pub timeline: bool,
}

/// The first number in `numbers` from place `at` on.
pub open spec fn first_number(numbers: Seq<Option<Single>>, at: int) -> Option<Single>
    decreases numbers.len() - at,
{
    if at < 0 || at >= numbers.len() {
        None
    } else if numbers[at] is Some {
        numbers[at]
    } else {
        first_number(numbers, at + 1)
    }
}

/// What a command line asks for: the program, the file, and then, in any order, a
/// gate and the word for the timeline. `numbers` holds what each argument is as a
/// number. Nothing where the file is missing.
pub fn options(args: &[String], numbers: &[Option<Single>]) -> (r: Option<Options>)
    requires
        args@.len() == numbers@.len(),
    ensures
        r is None <==> args@.len() < 2,
        r matches Some(o) ==> {
            &&& o.gate == (match first_number(numbers@, 2) {
                Some(gate) => gate,
                None => Single { bits: DEFAULT_GATE },
            })
            &&& o.timeline <==> exists|i: int|
                0 <= i < args@.len() && (#[trigger] args@[i])@ == "--timeline"@
        },
{
    let n: usize = args.len();
    if n < 2 {
        return None;
    }
    let mut gate: Single = Single { bits: DEFAULT_GATE };
    let mut i: usize = 2;
    while i < n && numbers[i].is_none()
        invariant
            n == numbers@.len(),
            2 <= i <= n,
            first_number(numbers@, 2) == first_number(numbers@, i as int),
        decreases n - i,
    {
        i += 1;
    }
    if i < n {
        if let Some(given) = numbers[i] {
            gate = given;
        }
    }
    let word: String = String::from_str("--timeline");
    let mut timeline: bool = false;
    let mut j: usize = 0;
    while j < n
        invariant
            n == args@.len(),
            j <= n,
            word@ == "--timeline"@,
            timeline <==> exists|i: int|
                0 <= i < j && (#[trigger] args@[i])@ == "--timeline"@,
        decreases n - j,
    {
        if args[j] == word {
            timeline = true;
        }
        j += 1;
    }
    Some(Options { gate, timeline })
}

/// The number of samples from one frame to the next.
pub open spec fn hop_of(ops: Operations, sample_rate: u32) -> int {
    let step = (ops.over)((ops.of_u64)(sample_rate as u64), Single { bits: UI_HZ });
    step.cast(step.nearest_whole(), 0, usize::MAX as int)
}

/// The number of samples from one frame to the next, at the cadence of the
/// display.
pub fn hop<A: Arithmetic>(sample_rate: u32) -> (r: usize)
    ensures
        forall|ops: Operations|
            #[trigger] divides::<A>(ops) && #[trigger] counts::<A>(ops)
                ==> r == hop_of(ops, sample_rate),
{
    A::over(A::of_u64(sample_rate as u64), Single { bits: UI_HZ }).round_usize()
}

/// The time of sample `n`, in seconds.
pub open spec fn time_of(ops: Operations, n: usize, sample_rate: u32) -> Single {
    (ops.over)((ops.of_u64)(n as u64), (ops.of_u64)(sample_rate as u64))
}

/// The time of sample `n`, in seconds.
pub fn time<A: Arithmetic>(n: usize, sample_rate: u32) -> (r: Single)
    ensures
        forall|ops: Operations|
            #[trigger] divides::<A>(ops) && #[trigger] counts::<A>(ops)
                ==> r == time_of(ops, n, sample_rate),
{
    A::over(A::of_u64(n as u64), A::of_u64(sample_rate as u64))
}

/// `part` of `whole`, in percent.
pub open spec fn percent_of(ops: Operations, part: usize, whole: usize) -> Single {
    (ops.over)(
        (ops.times)(Single { bits: HUNDRED }, (ops.of_u64)(part as u64)),
        (ops.of_u64)(whole as u64),
    )
}

/// `part` of `whole`, in percent.
pub fn percent<A: Arithmetic>(part: usize, whole: usize) -> (r: Single)
    ensures
        forall|ops: Operations|
            #[trigger] multiplies::<A>(ops) && #[trigger] divides::<A>(ops) &&
            #[trigger] counts::<A>(ops) ==> r == percent_of(ops, part, whole),
{
    A::over(A::times(Single { bits: HUNDRED }, A::of_u64(part as u64)), A::of_u64(whole as u64))
}

/// What the detector heard in one frame.
#[derive(Clone, Copy, Debug, PartialEq, Eq, Structural)]
pub struct Estimate {
    /// The first sample of the frame.
    pub start: usize,
    /// The frequency; 0 where the frame is unvoiced.
    pub hz: Single,
    /// The clarity.
    pub clarity: Single,
    /// The root mean square.
    pub level: Single,
}

/// The number of whole windows that `length` samples hold, `hop` apart.
pub open spec fn frame_count(length: int, window: int, hop: int) -> int {
    if window <= length {
        (length - window) / hop + 1
    } else {
        0
    }
}

/// What the detector hears in frame `k`.
pub open spec fn estimate_of(
    ops: Operations,
    samples: Seq<Single>,
    sample_rate: u32,
    gate: Single,
    window: int,
    hop: int,
    k: int,
) -> Estimate {
    let heard = detection(
        ops,
        samples.subrange(k * hop, k * hop + window),
        sample_rate,
        gate,
    );
    Estimate { start: (k * hop) as usize, hz: heard.0, clarity: heard.1, level: heard.2 }
}

/// What the detector hears in each frame of a recording.
pub open spec fn track_of(
    ops: Operations,
    samples: Seq<Single>,
    sample_rate: u32,
    gate: Single,
    window: int,
    hop: int,
) -> Seq<Estimate> {
    Seq::new(
        frame_count(samples.len() as int, window, hop) as nat,
        |k: int| estimate_of(ops, samples, sample_rate, gate, window, hop, k),
    )
}

/// Runs the detector over a recording, one window after the other, `hop` samples
/// apart.
pub fn track<A: Arithmetic>(
    samples: &[Single],
    sample_rate: u32,
    gate: Single,
    window: usize,
    hop: usize,
) -> (r: Vec<Estimate>)
    requires
        hop > 0 || window > samples@.len(),
    ensures
        r@.len() == frame_count(samples@.len() as int, window as int, hop as int),
        forall|k: int| 0 <= k < r@.len() ==> (#[trigger] r@[k]).start == k * hop,
        forall|ops: Operations|
            #[trigger] adds::<A>(ops) && #[trigger] subtracts::<A>(ops) &&
            #[trigger] multiplies::<A>(ops) && #[trigger] divides::<A>(ops) &&
            #[trigger] takes_root::<A>(ops) && #[trigger] counts::<A>(ops) ==> r@ == track_of(
                ops,
                samples@,
                sample_rate,
                gate,
                window as int,
                hop as int,
            ),
{
    let length: usize = samples.len();
    let mut heard: Vec<Estimate> = Vec::new();
    if window <= length {
        let last: usize = length - window;
        let mut start: usize = 0;
        let mut more: bool = true;
        proof {
            lemma_mul_basics(hop as int);
        }
        while more
            invariant
                hop > 0,
                length == samples@.len(),
                last + window == length,
                more ==> start <= last && start == heard@.len() * hop,
                !more ==> heard@.len() == last as int / hop as int + 1,
                forall|k: int| 0 <= k < heard@.len() ==> (#[trigger] heard@[k]).start == k * hop,
                forall|ops: Operations, k: int|
                    #![trigger adds::<A>(ops), subtracts::<A>(ops), multiplies::<A>(ops),
                        divides::<A>(ops), takes_root::<A>(ops), counts::<A>(ops), heard@[k]]
                    adds::<A>(ops) && subtracts::<A>(ops) && multiplies::<A>(ops) &&
                        divides::<A>(ops) && takes_root::<A>(ops) && counts::<A>(ops) && 0 <= k < heard@.len()
                            ==> heard@[k] == estimate_of(
                        ops,
                        samples@,
                        sample_rate,
                        gate,
                        window as int,
                        hop as int,
                        k,
                    ),
            decreases last - start + (if more {
                1int
            } else {
                0
            }),
        {
            let (hz, clarity, level) = detect_pitch::<A>(
                vstd::slice::slice_subrange(samples, start, start + window),
                sample_rate,
                gate,
            );
            heard.push(Estimate { start, hz, clarity, level });
            proof {
                let n = heard@.len() as int;
                assert(n * hop == (n - 1) * hop + hop) by (nonlinear_arith);
            }
            if hop > last - start {
                proof {
                    let n = heard@.len() as int;
                    lemma_mul_is_commutative(n - 1, hop as int);
                    lemma_fundamental_div_mod_converse(
                        last as int,
                        hop as int,
                        n - 1,
                        last - start,
                    );
                }
                more = false;
            } else {
                start += hop;
            }
        }
    }
    proof {
        assert forall|ops: Operations|
            #[trigger] adds::<A>(ops) && #[trigger] subtracts::<A>(ops) &&
            #[trigger] multiplies::<A>(ops) && #[trigger] divides::<A>(ops) &&
            #[trigger] takes_root::<A>(ops) && #[trigger] counts::<A>(ops)
                implies heard@ == track_of(
            ops,
            samples@,
            sample_rate,
            gate,
            window as int,
            hop as int,
        ) by {
            assert(heard@ =~= track_of(
                ops,
                samples@,
                sample_rate,
                gate,
                window as int,
                hop as int,
            ));
        }
    }
    heard
}

/// The pitch of a frame, where it is voiced.
pub open spec fn pitch_of(ops: Operations, heard: Estimate) -> Option<Single> {
    if zero().below(heard.hz) {
        Some(midi_of(ops, heard.hz))
    } else {
        None
    }
}

/// The pitches of the voiced frames, frame by frame.
pub fn pitches<A: Arithmetic>(heard: &[Estimate]) -> (r: Vec<Option<Single>>)
    ensures
        r@.len() == heard@.len(),
        forall|k: int|
            0 <= k < r@.len() ==> ((#[trigger] r@[k]) is Some <==> zero().below(heard@[k].hz)),
        forall|ops: Operations|
            #[trigger] adds::<A>(ops) && #[trigger] multiplies::<A>(ops) &&
            #[trigger] divides::<A>(ops) && #[trigger] takes_log2::<A>(ops)
                ==> r@ == heard@.map_values(|e: Estimate| pitch_of(ops, e)),
{
    let n: usize = heard.len();
    let silence: Single = Single { bits: 0 };
    let mut raw: Vec<Option<Single>> = Vec::new();
    let mut k: usize = 0;
    while k < n
        invariant
            n == heard@.len(),
            k <= n,
            raw@.len() == k,
            silence == zero(),
            forall|j: int|
                0 <= j < k ==> ((#[trigger] raw@[j]) is Some <==> zero().below(heard@[j].hz)),
            forall|ops: Operations, j: int|
                #![trigger adds::<A>(ops), multiplies::<A>(ops), divides::<A>(ops),
                    takes_log2::<A>(ops), raw@[j]]
                adds::<A>(ops) && multiplies::<A>(ops) && divides::<A>(ops) &&
                    takes_log2::<A>(ops) && 0 <= j < k ==> raw@[j] == pitch_of(ops, heard@[j]),
        decreases n - k,
    {
        raw.push(
            if silence.lt(heard[k].hz) {
                Some(hz_to_midi::<A>(heard[k].hz))
            } else {
                None
            },
        );
        k += 1;
    }
    proof {
        assert forall|ops: Operations|
            #[trigger] adds::<A>(ops) && #[trigger] multiplies::<A>(ops) &&
            #[trigger] divides::<A>(ops) && #[trigger] takes_log2::<A>(ops) implies raw@
            == heard@.map_values(|e: Estimate| pitch_of(ops, e)) by {
            assert(raw@ =~= heard@.map_values(|e: Estimate| pitch_of(ops, e)));
        }
    }
    raw
}

/// Whether every frame of a track can be shown, so that it can be smoothed.
pub fn is_orderly(raw: &[Option<Single>]) -> (r: bool)
    ensures
        r == showable(raw@),
{
    let n: usize = raw.len();
    let mut i: usize = 0;
    while i < n
        invariant
            n == raw@.len(),
            i <= n,
            forall|k: int| 0 <= k < i ==> votable(#[trigger] around(raw@, k)),
        decreases n - i,
    {
        let low: usize = if i < 2 {
            0
        } else {
            i - 2
        };
        let high: usize = if n < 3 || i > n - 3 {
            n
        } else {
            i + 3
        };
        let window: &[Option<Single>] = vstd::slice::slice_subrange(raw, low, high);
        proof {
            assert(window@ == around(raw@, i as int));
        }
        if !is_votable(window) {
            return false;
        }
        i += 1;
    }
    true
}

/// The track as the display shows it.
pub open spec fn smooth_of(raw: Seq<Option<Single>>) -> Seq<Option<Single>> {
    Seq::new(raw.len(), |i: int| smoothed(raw, i))
}

/// Smooths a track as the display does.
pub fn smooth(raw: &[Option<Single>]) -> (r: Vec<Option<Single>>)
    requires
        showable(raw@),
    ensures
        r@ == smooth_of(raw@),
{
    let n: usize = raw.len();
    let mut shown: Vec<Option<Single>> = Vec::new();
    let mut i: usize = 0;
    while i < n
        invariant
            n == raw@.len(),
            i <= n,
            showable(raw@),
            shown@ == smooth_of(raw@).take(i as int),
        decreases n - i,
    {
        shown.push(smooth_at(raw, i));
        i += 1;
        proof {
            assert(shown@ =~= smooth_of(raw@).take(i as int));
        }
    }
    proof {
        assert(shown@ =~= smooth_of(raw@));
    }
    shown
}

/// The pitches of the frames that are shown, in order.
pub fn shown_pitches(shown: &[Option<Single>]) -> (r: Vec<Single>)
    ensures
        r@ == voiced(shown@),
{
    let n: usize = shown.len();
    let mut found: Vec<Single> = Vec::new();
    let mut k: usize = 0;
    while k < n
        invariant
            n == shown@.len(),
            k <= n,
            found@ == voiced(shown@.take(k as int)),
        decreases n - k,
    {
        proof {
            assert(shown@.take(k + 1).drop_last() =~= shown@.take(k as int));
        }
        if let Some(pitch) = shown[k] {
            found.push(pitch);
        }
        k += 1;
    }
    proof {
        assert(shown@.take(n as int) =~= shown@);
    }
    found
}

/// The median pitch, the held note; nothing where no frame is voiced.
pub fn median(heard: &[Single]) -> (r: Option<Single>)
    requires
        heard@.len() < 2 || orderly(heard@),
    ensures
        r == (if heard@.len() == 0 {
            None
        } else {
            Some(middle(heard@))
        }),
{
    let n: usize = heard.len();
    if n == 0 {
        return None;
    }
    let place: usize = select(heard, n / 2);
    Some(heard[place])
}

/// What is wrong with a track, measured against the held note.
#[derive(Clone, Copy, Debug, PartialEq, Eq, Structural)]
pub struct Artifacts {
    /// Frames more than half a semitone off.
    pub off_semi: usize,
    /// Frames about an octave too low.
    pub octave_low: usize,
    /// Frames about an octave too high.
    pub octave_high: usize,
    /// The largest deviation, in semitones.
    pub max_dev: Single,
}

/// How far `pitch` lies from the held note.
pub open spec fn deviation(ops: Operations, pitch: Single, held: Single) -> Single {
    (ops.minus)(pitch, held)
}

/// Whether a deviation is more than half a semitone.
pub open spec fn is_off(dev: Single) -> bool {
    (Single { bits: HALF }).below(dev.spec_abs())
}

/// Whether a deviation is about an octave down.
pub open spec fn is_octave_low(ops: Operations, dev: Single) -> bool {
    (ops.plus)(dev, Single { bits: SEMITONES }).spec_abs().below(Single { bits: OCTAVE_SLACK })
}

/// Whether a deviation is about an octave up.
pub open spec fn is_octave_high(ops: Operations, dev: Single) -> bool {
    (ops.minus)(dev, Single { bits: SEMITONES }).spec_abs().below(Single { bits: OCTAVE_SLACK })
}

/// The largest deviation, from 0 up.
pub open spec fn largest(ops: Operations, heard: Seq<Single>, held: Single) -> Single
    decreases heard.len(),
{
    if heard.len() == 0 {
        zero()
    } else {
        largest(ops, heard.drop_last(), held).spec_max(
            deviation(ops, heard.last(), held).spec_abs(),
        )
    }
}

/// What is wrong with the pitches `heard`, measured against the held note.
pub open spec fn artifacts_of(ops: Operations, heard: Seq<Single>, held: Single) -> Artifacts {
    Artifacts {
        off_semi: count(
            heard.len(),
            |i: int| is_off(deviation(ops, heard[i], held)),
        ) as usize,
        octave_low: count(
            heard.len(),
            |i: int| is_octave_low(ops, deviation(ops, heard[i], held)),
        ) as usize,
        octave_high: count(
            heard.len(),
            |i: int| is_octave_high(ops, deviation(ops, heard[i], held)),
        ) as usize,
        max_dev: largest(ops, heard, held),
    }
}

/// Counts what is wrong with the pitches `heard`, measured against the held note.
pub fn artifacts<A: Arithmetic>(heard: &[Single], held: Single) -> (r: Artifacts)
    ensures
        r.off_semi <= heard@.len(),
        r.octave_low <= heard@.len(),
        r.octave_high <= heard@.len(),
        forall|ops: Operations|
            #[trigger] adds::<A>(ops) && #[trigger] subtracts::<A>(ops)
                ==> r == artifacts_of(ops, heard@, held),
{
    let n: usize = heard.len();
    let half: Single = Single { bits: HALF };
    let octave: Single = Single { bits: SEMITONES };
    let slack: Single = Single { bits: OCTAVE_SLACK };
    let mut found: Artifacts = Artifacts {
        off_semi: 0,
        octave_low: 0,
        octave_high: 0,
        max_dev: Single { bits: 0 },
    };
    let mut k: usize = 0;
    while k < n
        invariant
            n == heard@.len(),
            k <= n,
            half.bits == HALF,
            octave.bits == SEMITONES,
            slack.bits == OCTAVE_SLACK,
            found.off_semi <= k,
            found.octave_low <= k,
            found.octave_high <= k,
            forall|ops: Operations|
                #[trigger] adds::<A>(ops) && #[trigger] subtracts::<A>(ops) ==> {
                    &&& found.off_semi == count(
                        k as nat,
                        |i: int| is_off(deviation(ops, heard@[i], held)),
                    )
                    &&& found.octave_low == count(
                        k as nat,
                        |i: int| is_octave_low(ops, deviation(ops, heard@[i], held)),
                    )
                    &&& found.octave_high == count(
                        k as nat,
                        |i: int| is_octave_high(ops, deviation(ops, heard@[i], held)),
                    )
                    &&& found.max_dev == largest(ops, heard@.take(k as int), held)
                },
        decreases n - k,
    {
        proof {
            assert(heard@.take(k + 1).drop_last() =~= heard@.take(k as int));
        }
        let dev: Single = A::minus(heard[k], held);
        if half.lt(dev.abs()) {
            found.off_semi = found.off_semi + 1;
        }
        if A::plus(dev, octave).abs().lt(slack) {
            found.octave_low = found.octave_low + 1;
        }
        if A::minus(dev, octave).abs().lt(slack) {
            found.octave_high = found.octave_high + 1;
        }
        found.max_dev = found.max_dev.max(dev.abs());
        k += 1;
    }
    proof {
        assert(heard@.take(n as int) =~= heard@);
    }
    found
}

/// A frame more than half a semitone off, and its deviation.
#[derive(Clone, Copy, Debug, PartialEq, Eq, Structural)]
pub struct Fault {
    pub index: usize,
    pub dev: Single,
}

/// The faults among the first `n` frames.
pub open spec fn faults_of(
    ops: Operations,
    shown: Seq<Option<Single>>,
    held: Single,
    n: nat,
) -> Seq<Fault>
    decreases n,
{
    if n == 0 {
        Seq::empty()
    } else {
        let before = faults_of(ops, shown, held, (n - 1) as nat);
        match shown[n - 1] {
            Some(pitch) => {
                let dev = deviation(ops, pitch, held);
                if is_off(dev) {
                    before.push(Fault { index: (n - 1) as usize, dev })
                } else {
                    before
                }
            },
            None => before,
        }
    }
}

/// The frames that are shown more than half a semitone off the held note.
pub fn faults<A: Arithmetic>(shown: &[Option<Single>], held: Single) -> (r: Vec<Fault>)
    ensures
        forall|k: int|
            0 <= k < r@.len() ==> {
                &&& (#[trigger] r@[k]).index < shown@.len()
                &&& shown@[r@[k].index as int] is Some
                &&& is_off(r@[k].dev)
            },
        forall|ops: Operations|
            #[trigger] subtracts::<A>(ops) ==> r@ == faults_of(ops, shown@, held, shown@.len()),
{
    let n: usize = shown.len();
    let half: Single = Single { bits: HALF };
    let mut found: Vec<Fault> = Vec::new();
    let mut k: usize = 0;
    while k < n
        invariant
            n == shown@.len(),
            k <= n,
            half.bits == HALF,
            forall|j: int|
                0 <= j < found@.len() ==> {
                    &&& (#[trigger] found@[j]).index < shown@.len()
                    &&& shown@[found@[j].index as int] is Some
                    &&& is_off(found@[j].dev)
                },
            forall|ops: Operations|
                #[trigger] subtracts::<A>(ops) ==> found@ == faults_of(ops, shown@, held, k as nat),
        decreases n - k,
    {
        if let Some(pitch) = shown[k] {
            let dev: Single = A::minus(pitch, held);
            if half.lt(dev.abs()) {
                found.push(Fault { index: k, dev });
            }
        }
        k += 1;
    }
    found
}

/// What the timeline says of a frame.
#[derive(Clone, Copy, Debug, PartialEq, Eq, Structural)]
pub enum Label {
    /// A pitch is shown.
    Voiced { pitch: Single },
    /// The frame is below the noise gate.
    Silence,
    /// The frame is loud enough, but no pitch is shown.
    Unvoiced,
}

/// A row of the timeline.
#[derive(Clone, Copy, Debug, PartialEq, Eq, Structural)]
pub struct Row {
    pub index: usize,
    pub label: Label,
}

/// What the timeline says of a frame.
pub open spec fn label_of(shown: Option<Single>, level: Single, gate: Single) -> Label {
    match shown {
        Some(pitch) => Label::Voiced { pitch },
        None => if level.below(gate) {
            Label::Silence
        } else {
            Label::Unvoiced
        },
    }
}

/// Every how many frames the timeline has a row.
pub open spec fn timeline_step(frames: int) -> int {
    if frames / (TIMELINE_ROWS as int) > 1 {
        frames / (TIMELINE_ROWS as int)
    } else {
        1
    }
}

/// The timeline: a row for every frame whose index is a multiple of the step.
pub open spec fn timeline_of(
    heard: Seq<Estimate>,
    shown: Seq<Option<Single>>,
    gate: Single,
) -> Seq<Row> {
    let step = timeline_step(heard.len() as int);
    Seq::new(
        ((heard.len() + step - 1) / step) as nat,
        |k: int|
            Row {
                index: (k * step) as usize,
                label: label_of(shown[k * step], heard[k * step].level, gate),
            },
    )
}

/// The timeline of a track.
pub fn timeline(heard: &[Estimate], shown: &[Option<Single>], gate: Single) -> (r: Vec<Row>)
    requires
        heard@.len() == shown@.len(),
    ensures
        r@ == timeline_of(heard@, shown@, gate),
{
    let n: usize = heard.len();
    let step: usize = if n / TIMELINE_ROWS > 1 {
        n / TIMELINE_ROWS
    } else {
        1
    };
    let ghost all = timeline_of(heard@, shown@, gate);
    let mut rows: Vec<Row> = Vec::new();
    let mut i: usize = 0;
    let mut more: bool = n > 0;
    proof {
        lemma_mul_basics(step as int);
        if n == 0 {
            lemma_fundamental_div_mod_converse(step - 1, step as int, 0, step - 1);
        }
    }
    while more
        invariant
            n == heard@.len(),
            n == shown@.len(),
            step == timeline_step(n as int),
            step > 0,
            all == timeline_of(heard@, shown@, gate),
            more ==> i < n && i == rows@.len() * step,
            !more ==> rows@.len() == all.len(),
            rows@.len() <= all.len(),
            rows@ == all.take(rows@.len() as int),
        decreases n - i + (if more {
            1int
        } else {
            0
        }),
    {
        let label: Label = match shown[i] {
            Some(pitch) => Label::Voiced { pitch },
            None => if heard[i].level.lt(gate) {
                Label::Silence
            } else {
                Label::Unvoiced
            },
        };
        let ghost k = rows@.len() as int;
        proof {
            // Row `k` exists: `k * step < n`.
            lemma_mul_is_commutative(k, step as int);
            lemma_mul_is_commutative(k + 1, step as int);
            lemma_mul_is_distributive_add(step as int, k, 1);
            lemma_div_is_ordered(step * (k + 1), n + step - 1, step as int);
            lemma_div_by_multiple(k + 1, step as int);
        }
        rows.push(Row { index: i, label });
        proof {
            assert(rows@ =~= all.take(k + 1));
        }
        if step >= n - i {
            proof {
                lemma_fundamental_div_mod_converse(
                    n + step - 1,
                    step as int,
                    k + 1,
                    n + step - 1 - step * (k + 1),
                );
            }
            more = false;
        } else {
            i += step;
        }
    }
    proof {
        assert(rows@ =~= all);
    }
    rows
}

/// Smoothing makes no NaN: where every frame can be shown, what is shown are numbers,
/// and the held note can be found.
pub proof fn law_smoothing_keeps_numbers(raw: Seq<Option<Single>>)
    requires
        showable(raw),
    ensures
        all_numbers(smooth_of(raw)),
        orderly(voiced(smooth_of(raw))),
{
    let shown = smooth_of(raw);
    assert forall|i: int| 0 <= i < shown.len() implies match #[trigger] shown[i] {
        Some(pitch) => !pitch.nan(),
        None => true,
    } by {
        assert(votable(around(raw, i)));
        law_shown_is_number(raw, i);
    }
    lemma_voiced_orderly(shown);
}

/// What the analyzer makes of the pitches that are shown.
pub struct Verdict {
    /// The number of frames that are shown.
    pub voiced: usize,
    /// The held note: their median.
    pub held: Single,
    /// What is wrong with them.
    pub artifacts: Artifacts,
    /// The most frequent notes.
    pub notes: Vec<Tally>,
}

/// A recording as the analyzer sees it.
pub struct Analysis {
    /// What the detector heard, frame by frame.
    pub heard: Vec<Estimate>,
    /// What the display shows of it, frame by frame.
    pub shown: Vec<Option<Single>>,
    /// What that comes to; nothing where no frame is shown.
    pub verdict: Option<Verdict>,
}

/// The pitches of the voiced frames of a recording, at the cadence of the display.
pub open spec fn raw_of(
    ops: Operations,
    samples: Seq<Single>,
    sample_rate: u32,
    gate: Single,
    window: int,
) -> Seq<Option<Single>> {
    track_of(ops, samples, sample_rate, gate, window, hop_of(ops, sample_rate)).map_values(
        |e: Estimate| pitch_of(ops, e),
    )
}

/// Runs the detector over a recording, smooths the track as the display does, and
/// grades what is shown. Nothing where that has no end, as the frames do not move on,
/// or where a window of frames cannot be put in order.
pub fn analyze<A: Arithmetic>(
    samples: &[Single],
    sample_rate: u32,
    gate: Single,
    window: usize,
) -> (r: Option<Analysis>)
    ensures
        r matches Some(a) ==> {
            let found = voiced(a.shown@);
            &&& a.shown@.len() == a.heard@.len()
            &&& a.verdict is None <==> found.len() == 0
            &&& a.verdict matches Some(v) ==> {
                &&& v.voiced == found.len()
                &&& v.held == middle(found)
                &&& is_histogram(notes_of(found), v.notes@, HISTOGRAM_ROWS as int)
            }
        },
        forall|ops: Operations|
            #[trigger] adds::<A>(ops) && #[trigger] subtracts::<A>(ops) &&
            #[trigger] multiplies::<A>(ops) && #[trigger] divides::<A>(ops) &&
            #[trigger] takes_root::<A>(ops) && #[trigger] counts::<A>(ops) &&
            #[trigger] takes_log2::<A>(ops) ==> {
                let step = hop_of(ops, sample_rate);
                let raw = raw_of(ops, samples@, sample_rate, gate, window as int);
                &&& r is Some <==> (step > 0 || window > samples@.len()) && showable(raw)
                &&& r matches Some(a) ==> {
                    &&& a.heard@ == track_of(
                        ops,
                        samples@,
                        sample_rate,
                        gate,
                        window as int,
                        step,
                    )
                    &&& a.shown@ == smooth_of(raw)
                    &&& a.verdict matches Some(v) ==> v.artifacts == artifacts_of(
                        ops,
                        voiced(a.shown@),
                        v.held,
                    )
                }
            },
{
    let step: usize = hop::<A>(sample_rate);
    if step == 0 && window <= samples.len() {
        return None;
    }
    let heard: Vec<Estimate> = track::<A>(samples, sample_rate, gate, window, step);
    let raw: Vec<Option<Single>> = pitches::<A>(&heard);
    if !is_orderly(&raw) {
        return None;
    }
    let shown: Vec<Option<Single>> = smooth(&raw);
    let found: Vec<Single> = shown_pitches(&shown);
    proof {
        law_smoothing_keeps_numbers(raw@);
    }
    let verdict: Option<Verdict> = match median(&found) {
        Some(held) => {
            let notes: Vec<i32> = nearest_notes(&found);
            Some(
                Verdict {
                    voiced: found.len(),
                    held,
                    artifacts: artifacts::<A>(&found, held),
                    notes: histogram(&notes),
                },
            )
        },
        None => None,
    };
    Some(Analysis { heard, shown, verdict })
}

/// The analyzer smooths as the display does: a frame of the recording that the
/// display shows, with two more on either side, is shown as it is here.
pub proof fn law_display_agrees(raw: Seq<Option<Single>>, offset: int, i: int)
    requires
        0 <= offset,
        offset + HIST_LEN <= raw.len(),
        2 <= i < HIST_LEN - 2,
    ensures
        smoothed(raw.subrange(offset, offset + HIST_LEN), i) == smooth_of(raw)[offset + i],
{
    assert(around(raw.subrange(offset, offset + HIST_LEN), i) =~= around(raw, offset + i));
}

/// The largest deviation bounds that of every frame, up or down, and is reached: it is 0,
/// or the size of the deviation of some frame. A deviation that is no number is passed
/// over.
pub proof fn law_largest_deviation(ops: Operations, heard: Seq<Single>, held: Single)
    ensures
        ({
            let most = artifacts_of(ops, heard, held).max_dev;
            &&& !most.nan()
            &&& 0 <= most.units()
            &&& forall|i: int|
                0 <= i < heard.len() && !(ops.minus)(#[trigger] heard[i], held).nan() ==> {
                    let dev = (ops.minus)(heard[i], held).units();
                    -most.units() <= dev <= most.units()
                }
            &&& most.units() == 0 || exists|i: int|
                0 <= i < heard.len() && !(ops.minus)(#[trigger] heard[i], held).nan() && {
                    let dev = (ops.minus)(heard[i], held).units();
                    dev == most.units() || dev == -most.units()
                }
        }),
    decreases heard.len(),
{
    if heard.len() > 0 {
        let before = heard.drop_last();
        law_largest_deviation(ops, before, held);
        let most = artifacts_of(ops, heard, held).max_dev;
        let old_most = artifacts_of(ops, before, held).max_dev;
        let last = (ops.minus)(heard.last(), held);
        law_abs(last);
        let n = heard.len() - 1;
        assert(heard[n] == heard.last());
        assert forall|i: int|
            0 <= i < heard.len() && !(ops.minus)(#[trigger] heard[i], held).nan() implies {
            let dev = (ops.minus)(heard[i], held).units();
            -most.units() <= dev <= most.units()
        } by {
            if i < n {
                assert(before[i] == heard[i]);
            }
        }
        if most.units() != 0 && most.units() == old_most.units() {
            let i = choose|i: int|
                0 <= i < before.len() && !(ops.minus)(#[trigger] before[i], held).nan() && {
                    let dev = (ops.minus)(before[i], held).units();
                    dev == old_most.units() || dev == -old_most.units()
                };
            assert(heard[i] == before[i]);
        }
    }
}

/// A recording without frames has no artifacts.
pub proof fn law_no_frames_no_artifacts(ops: Operations, held: Single)
    ensures
        artifacts_of(ops, Seq::empty(), held) == (Artifacts {
            off_semi: 0,
            octave_low: 0,
            octave_high: 0,
            max_dev: zero(),
        }),
{
}

/// A further element counts for itself.
proof fn lemma_count_push(n: nat, f: spec_fn(int) -> bool, g: spec_fn(int) -> bool)
    requires
        forall|i: int| 0 <= i < n ==> #[trigger] f(i) == g(i),
    ensures
        count(n + 1, g) == count(n, f) + (if g(n as int) {
            1int
        } else {
            0
        }),
        count(n, f) <= n,
{
    lemma_count_same(n, f, g);
    lemma_count_monotone(n, f, f);
}

/// Each frame counts for itself: one more frame adds one to those that are off if and
/// only if it deviates by more than half a semitone; one to those an octave down where it
/// lies within a semitone and a half of twelve below the held note, and to those an
/// octave up likewise, to the last grain of rounding.
pub proof fn law_each_frame_counts(
    ops: Operations,
    heard: Seq<Single>,
    pitch: Single,
    held: Single,
)
    requires
        heard.len() < usize::MAX,
    ensures
        ({
            let before = artifacts_of(ops, heard, held);
            let after = artifacts_of(ops, heard.push(pitch), held);
            let dev = (ops.minus)(pitch, held);
            &&& after.off_semi == before.off_semi + (if !dev.nan() && 2 * size(dev.units())
                > one() {
                1int
            } else {
                0
            })
            &&& before.octave_low <= after.octave_low <= before.octave_low + 1
            &&& before.octave_high <= after.octave_high <= before.octave_high + 1
            &&& rounded(ops) && moderate(dev) ==> {
                let down = 2 * size(dev.units() + 12 * one());
                let up = 2 * size(dev.units() - 12 * one());
                &&& down < 3 * one() - 4 * grain() ==> after.octave_low == before.octave_low + 1
                &&& down > 3 * one() + 4 * grain() ==> after.octave_low == before.octave_low
                &&& up < 3 * one() - 4 * grain() ==> after.octave_high == before.octave_high + 1
                &&& up > 3 * one() + 4 * grain() ==> after.octave_high == before.octave_high
            }
        }),
{
    let more = heard.push(pitch);
    let n = heard.len();
    let dev = (ops.minus)(pitch, held);
    let octave = Single { bits: SEMITONES };
    let low = (ops.plus)(dev, octave);
    let high = (ops.minus)(dev, octave);
    lemma_count_push(
        n,
        |i: int| is_off(deviation(ops, heard[i], held)),
        |i: int| is_off(deviation(ops, more[i], held)),
    );
    lemma_count_push(
        n,
        |i: int| is_octave_low(ops, deviation(ops, heard[i], held)),
        |i: int| is_octave_low(ops, deviation(ops, more[i], held)),
    );
    lemma_count_push(
        n,
        |i: int| is_octave_high(ops, deviation(ops, heard[i], held)),
        |i: int| is_octave_high(ops, deviation(ops, more[i], held)),
    );
    law_abs(dev);
    law_abs(low);
    law_abs(high);
    lemma_grain();
    vstd::arithmetic::power2::lemma2_to64();
    vstd::arithmetic::power2::lemma_pow2_unfold(149);
    vstd::arithmetic::power2::lemma_pow2_adds(23, 125);
    vstd::arithmetic::power2::lemma_pow2_adds(22, 126);
    assert(Single { bits: HALF }.units() == 0x80_0000 * vstd::arithmetic::power2::pow2(125));
    assert(2 * Single { bits: HALF }.units() == one());
    assert(Single { bits: OCTAVE_SLACK }.units() == 0xc0_0000 * vstd::arithmetic::power2::pow2(
        126,
    ));
    assert(2 * Single { bits: OCTAVE_SLACK }.units() == 3 * one());
    lemma_whole_pattern(octave, 130, 12);
    assert(more[n as int] == pitch);
    if rounded(ops) && moderate(dev) {
        assert(rounds(low, dev.units() + 12 * one(), 1));
        assert(rounds(high, dev.units() - 12 * one(), 1));
    }
}

/// The faults are the frames that are off, each once and in order, with their deviation.
pub proof fn law_faults_are_frames_off(
    ops: Operations,
    shown: Seq<Option<Single>>,
    held: Single,
    n: nat,
)
    requires
        n <= shown.len(),
        n <= usize::MAX,
    ensures
        ({
            let found = faults_of(ops, shown, held, n);
            &&& forall|j: int|
                0 <= j < found.len() ==> {
                    let i = (#[trigger] found[j]).index as int;
                    &&& i < n
                    &&& shown[i] matches Some(pitch) && found[j].dev == (ops.minus)(pitch, held)
                    &&& !found[j].dev.nan() && 2 * size(found[j].dev.units()) > one()
                }
            &&& forall|j: int, k: int|
                0 <= j < k < found.len() ==> (#[trigger] found[j]).index < (
                #[trigger] found[k]).index
            &&& forall|i: int|
                0 <= i < n && ((#[trigger] shown[i]) matches Some(pitch) && {
                    let dev = (ops.minus)(pitch, held);
                    !dev.nan() && 2 * size(dev.units()) > one()
                }) ==> exists|j: int| 0 <= j < found.len() && (#[trigger] found[j]).index == i
        }),
    decreases n,
{
    if n > 0 {
        law_faults_are_frames_off(ops, shown, held, (n - 1) as nat);
        let before = faults_of(ops, shown, held, (n - 1) as nat);
        let found = faults_of(ops, shown, held, n);
        vstd::arithmetic::power2::lemma2_to64();
        vstd::arithmetic::power2::lemma_pow2_unfold(149);
        vstd::arithmetic::power2::lemma_pow2_adds(23, 125);
        assert(Single { bits: HALF }.units() == 0x80_0000 * vstd::arithmetic::power2::pow2(125));
        assert(2 * Single { bits: HALF }.units() == one());
        if let Some(pitch) = shown[n - 1] {
            law_abs((ops.minus)(pitch, held));
        }
        assert forall|i: int|
            0 <= i < n && ((#[trigger] shown[i]) matches Some(pitch) && {
                let dev = (ops.minus)(pitch, held);
                !dev.nan() && 2 * size(dev.units()) > one()
            }) implies exists|j: int| 0 <= j < found.len() && (#[trigger] found[j]).index == i by {
            if i < n - 1 {
                let j = choose|j: int| 0 <= j < before.len() && (#[trigger] before[j]).index == i;
                assert(found[j].index == i);
            } else {
                assert(found[found.len() - 1].index == i);
            }
        }
    }
}

/// A frame is tracked if and only if its whole window lies in the recording.
pub proof fn law_frames_fit(length: int, window: int, hop: int, k: int)
    requires
        0 <= length,
        0 <= window,
        0 < hop,
        0 <= k,
    ensures
        k < frame_count(length, window, hop) <==> k * hop + window <= length,
{
    let room = length - window;
    if room >= 0 {
        lemma_fundamental_div_mod(room, hop);
        lemma_mod_bound(room, hop);
        let q = room / hop;
        assert(k <= q ==> k * hop <= hop * q) by (nonlinear_arith)
            requires
                hop > 0,
        ;
        assert(k >= q + 1 ==> k * hop >= hop * q + hop) by (nonlinear_arith)
            requires
                hop > 0,
        ;
    } else {
        lemma_mul_nonnegative(k, hop);
    }
}

/// A frame of the track is what the detector reports of the window that starts `hop`
/// samples after the one before.
pub proof fn law_track_is_detection(
    ops: Operations,
    samples: Seq<Single>,
    sample_rate: u32,
    gate: Single,
    window: int,
    hop: int,
    k: int,
)
    requires
        samples.len() <= usize::MAX,
        0 <= window,
        0 < hop,
        0 <= k,
        k * hop + window <= samples.len(),
    ensures
        ({
            let track = track_of(ops, samples, sample_rate, gate, window, hop);
            let heard = detection(ops, samples.skip(k * hop).take(window), sample_rate, gate);
            &&& k < track.len()
            &&& track[k].start == k * hop
            &&& track[k].hz == heard.0
            &&& track[k].clarity == heard.1
            &&& track[k].level == heard.2
            &&& pitch_of(ops, track[k]) == (if zero().below(heard.0) {
                Some(midi_of(ops, heard.0))
            } else {
                None
            })
        }),
{
    law_frames_fit(samples.len() as int, window, hop, k);
    lemma_mul_nonnegative(k, hop);
    assert(samples.skip(k * hop).take(window) =~= samples.subrange(k * hop, k * hop + window));
}

/// Sixty frames a second: sixty hops are the sample rate, to half a hop's rounding of
/// each.
pub proof fn law_sixty_hops_a_second(ops: Operations, sample_rate: u32)
    requires
        rounded(ops),
        counts_rounded(ops),
        sample_rate <= 0x10_0000,
    ensures
        -30 <= 60 * hop_of(ops, sample_rate) - sample_rate <= 30,
{
    let o = one();
    let u = grain();
    let n = sample_rate as int;
    let rate = (ops.of_u64)(sample_rate as u64);
    let sixty = Single { bits: UI_HZ };
    let step = (ops.over)(rate, sixty);
    lemma_grain();
    vstd::arithmetic::power2::lemma2_to64();
    lemma_whole_pattern(sixty, 132, 60);
    assert(rate.units() == n * o);
    assert(size((n * o) * o) <= (0x5000 * o) * (60 * o)) by (nonlinear_arith)
        requires
            0 <= n <= 0x10_0000,
            o > 0,
    ;
    assert(n * o <= 0x10_0000 * o && n * o >= 0) by (nonlinear_arith)
        requires
            0 <= n <= 0x10_0000,
            o > 0,
    ;
    lemma_ratio(ops, rate, sixty, 0x5000 * o, 0xb00 * u);
    let x = step.units();
    assert(-(0xb00 * u * 60) <= 60 * x - n * o <= 0xb00 * u * 60) by (nonlinear_arith)
        requires
            size(x * (60 * o) - (n * o) * o) <= (0xb00 * u) * (60 * o),
            o > 0,
    ;
    law_nearest(step);
    let h = step.nearest_whole();
    assert(-(31 * o) < (60 * h - n) * o < 31 * o) by (nonlinear_arith)
        requires
            -o <= 2 * (x - h * o) <= o,
            -(0xb00 * u * 60) <= 60 * x - n * o <= 0xb00 * u * 60,
            o == 0x20_0000 * u,
            u > 0,
    ;
    assert(-31 < 60 * h - n < 31) by (nonlinear_arith)
        requires
            -(31 * o) < (60 * h - n) * o < 31 * o,
            o > 0,
    ;
    if h < 0 {
        assert(60 * h - n <= -60);
    }
    assert(0 <= h <= 0x2_0000);
}

/// The time of a sample, times the sample rate, is its number, up to rounding.
pub proof fn law_time_counts_samples(ops: Operations, n: usize, sample_rate: u32)
    requires
        rounded(ops),
        counts_rounded(ops),
        n <= 0x100_0000,
        1 <= sample_rate <= 0x100_0000,
    ensures
        !time_of(ops, n, sample_rate).nan(),
        size(time_of(ops, n, sample_rate).units() * sample_rate - n * one()) * 0x100_0000 <= n
            * one() + 0x100_0000 * sample_rate,
{
    lemma_quotient_of_counts(ops, n as int, sample_rate as int);
}

/// The quotient of two counts.
proof fn lemma_quotient_of_counts(ops: Operations, n: int, d: int)
    requires
        rounded(ops),
        counts_rounded(ops),
        0 <= n <= 0x100_0000,
        1 <= d <= 0x100_0000,
    ensures
        ({
            let q = (ops.over)((ops.of_u64)(n as u64), (ops.of_u64)(d as u64));
            &&& !q.nan()
            &&& size(q.units() * d - n * one()) * 0x100_0000 <= n * one() + 0x100_0000 * d
        }),
{
    let o = one();
    let a = (ops.of_u64)(n as u64);
    let b = (ops.of_u64)(d as u64);
    let q = (ops.over)(a, b);
    lemma_grain();
    assert(a.units() == n * o && b.units() == d * o);
    assert(0 <= n * o <= 0x100_0000 * o && o <= d * o <= 0x100_0000 * o) by (nonlinear_arith)
        requires
            0 <= n <= 0x100_0000,
            1 <= d <= 0x100_0000,
            o > 0,
    ;
    assert(rounds(q, (n * o) * o, d * o));
    let x = q.units();
    assert(size(x * d - n * o) * 0x100_0000 <= n * o + 0x100_0000 * d) by (nonlinear_arith)
        requires
            size(x * (d * o) - (n * o) * o) * 0x100_0000 <= size((n * o) * o) + 0x100_0000 * (d
                * o),
            n >= 0,
            o > 0,
    ;
}

/// A percentage, times the whole, is a hundred times the part, up to rounding.
pub proof fn law_percent_of_whole(ops: Operations, part: usize, whole: usize)
    requires
        rounded(ops),
        counts_rounded(ops),
        part <= 0x100_0000,
        1 <= whole <= 0x100_0000,
    ensures
        !percent_of(ops, part, whole).nan(),
        size(percent_of(ops, part, whole).units() * whole - 100 * part * one()) * 0x100_0000
            <= 300 * part * one() + 0x400_0000 * whole,
{
    let o = one();
    let p = part as int;
    let w = whole as int;
    let a = (ops.of_u64)(part as u64);
    let b = (ops.of_u64)(whole as u64);
    let hundred = Single { bits: HUNDRED };
    let x = (ops.times)(hundred, a);
    let q = (ops.over)(x, b);
    lemma_grain();
    vstd::arithmetic::power2::lemma2_to64();
    lemma_whole_pattern(hundred, 133, 100);
    assert(a.units() == p * o && b.units() == w * o);
    assert(0 <= p * o <= 0x100_0000 * o && o <= w * o <= 0x100_0000 * o) by (nonlinear_arith)
        requires
            0 <= p <= 0x100_0000,
            1 <= w <= 0x100_0000,
            o > 0,
    ;
    assert(rounds(x, (100 * o) * (p * o), o));
    let v = x.units();
    let e = p * o;
    assert(size(v - 100 * e) * 0x100_0000 <= 100 * e + 0x100_0000) by (nonlinear_arith)
        requires
            size(v * o - (100 * o) * e) * 0x100_0000 <= size((100 * o) * e) + 0x100_0000 * o,
            e >= 0,
            o > 0,
    ;
    assert(rounds(q, v * o, w * o));
    let r = q.units();
    assert(size(r * w - v) * 0x100_0000 <= size(v) + 0x100_0000 * w) by (nonlinear_arith)
        requires
            size(r * (w * o) - v * o) * 0x100_0000 <= size(v * o) + 0x100_0000 * (w * o),
            o > 0,
    ;
    assert(100 * p * o == 100 * e && 300 * p * o == 300 * e) by (nonlinear_arith)
        requires
            e == p * o,
    ;
}

/// The timeline has a row for every frame of a short recording, and between sixty and a
/// hundred and nineteen rows of a longer one, evenly spread from the first frame on.
pub proof fn law_timeline_rows(
    heard: Seq<Estimate>,
    shown: Seq<Option<Single>>,
    gate: Single,
    k: int,
)
    requires
        heard.len() == shown.len(),
        heard.len() <= usize::MAX,
        0 <= k,
    ensures
        ({
            let rows = timeline_of(heard, shown, gate);
            &&& heard.len() < 60 ==> rows.len() == heard.len()
            &&& heard.len() >= 60 ==> 60 <= rows.len() <= 119
            &&& heard.len() >= 60 ==> 60 * rows[1].index <= heard.len() < 60 * rows[1].index + 60
            &&& k < rows.len() ==> {
                &&& rows[0].index == 0
                &&& rows[k].index < heard.len()
                &&& rows.len() > 1 ==> rows[k].index == k * rows[1].index
            }
            &&& k + 1 == rows.len() && k >= 1 ==> rows[k].index + rows[1].index >= heard.len()
        }),
{
    let n = heard.len() as int;
    let step = timeline_step(n);
    let rows = timeline_of(heard, shown, gate);
    let m = (n + step - 1) / step;
    lemma_fundamental_div_mod(n + step - 1, step);
    lemma_mod_bound(n + step - 1, step);
    assert(step >= 1);
    assert(m >= 0) by (nonlinear_arith)
        requires
            m == (n + step - 1) / step,
            n >= 0,
            step >= 1,
    ;
    if n >= 60 {
        assert(60 * step <= n < 120 * step);
        assert(60 <= m <= 119 || m == 120) by (nonlinear_arith)
            requires
                n + step - 1 == step * m + (n + step - 1) % step,
                0 <= (n + step - 1) % step < step,
                60 * step <= n < 120 * step,
                step >= 1,
        ;
        if m == 120 {
            assert(step * 120 == 120 * step);
            assert(n + step - 1 >= 120 * step);
            lemma_timeline_short(n, step);
        }
    } else {
        assert(step == 1);
    }
    if k < rows.len() {
        assert(k * step < n && 0 <= k * step) by (nonlinear_arith)
            requires
                0 <= k < m,
                n + step - 1 == step * m + (n + step - 1) % step,
                0 <= (n + step - 1) % step < step,
                step >= 1,
        ;
        assert(0 * step == 0);
        assert(1 * step == step);
        if rows.len() > 1 {
            assert(step < n) by (nonlinear_arith)
                requires
                    2 <= m,
                    n + step - 1 == step * m + (n + step - 1) % step,
                    0 <= (n + step - 1) % step < step,
                    step >= 1,
            ;
        }
        if k + 1 == m {
            assert(k * step + step >= n) by (nonlinear_arith)
                requires
                    k + 1 == m,
                    n + step - 1 == step * m + (n + step - 1) % step,
                    0 <= (n + step - 1) % step < step,
                    step >= 1,
            ;
        }
    }
}

/// The rows of a longer recording are fewer than twice sixty.
proof fn lemma_timeline_short(n: int, step: int)
    requires
        n >= 60,
        step == timeline_step(n),
    ensures
        n + step - 1 < 120 * step,
{
}

/// What a row says: the pitch where one is shown, and else whether the frame is too quiet
/// for the noise gate.
pub proof fn law_row_labels(
    heard: Seq<Estimate>,
    shown: Seq<Option<Single>>,
    gate: Single,
    k: int,
)
    requires
        heard.len() == shown.len(),
        heard.len() <= usize::MAX,
        0 <= k < timeline_of(heard, shown, gate).len(),
    ensures
        ({
            let row = timeline_of(heard, shown, gate)[k];
            let i = row.index as int;
            &&& shown[i] matches Some(pitch) ==> row.label == (Label::Voiced { pitch })
            &&& shown[i] is None && heard[i].level.below(gate) ==> row.label is Silence
            &&& shown[i] is None && !heard[i].level.below(gate) ==> row.label is Unvoiced
        }),
{
    law_timeline_rows(heard, shown, gate, k);
    let step = timeline_step(heard.len() as int);
    let rows = timeline_of(heard, shown, gate);
    assert(0 * step == 0 && 1 * step == step);
    lemma_fundamental_div_mod(heard.len() + step - 1, step);
    lemma_mod_bound(heard.len() + step - 1, step);
    let n = heard.len() as int;
    let m = (n + step - 1) / step;
    assert(k * step < n && 0 <= k * step) by (nonlinear_arith)
        requires
            0 <= k < m,
            n + step - 1 == step * m + (n + step - 1) % step,
            0 <= (n + step - 1) % step < step,
            step >= 1,
    ;
}

/// The noise gate that counts is the first number after the file.
pub proof fn law_first_number(numbers: Seq<Option<Single>>, at: int, i: int)
    requires
        0 <= at <= i < numbers.len(),
        numbers[i] is Some,
        forall|j: int| at <= j < i ==> (#[trigger] numbers[j]) is None,
    ensures
        first_number(numbers, at) == numbers[i],
    decreases i - at,
{
    if at < i {
        law_first_number(numbers, at + 1, i);
    }
}

/// Without a number, there is no gate given.
pub proof fn law_no_number(numbers: Seq<Option<Single>>, at: int)
    requires
        0 <= at,
        forall|j: int| at <= j < numbers.len() ==> (#[trigger] numbers[j]) is None,
    ensures
        first_number(numbers, at) is None,
    decreases numbers.len() - at,
{
    if at < numbers.len() {
        law_no_number(numbers, at + 1);
    }
}

} // verus!
