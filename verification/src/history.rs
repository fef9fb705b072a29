//! The pitch history: what the detector heard frame by frame, and the five-frame
//! median filter through which it is shown.
use vstd::prelude::*;
use crate::arith::{
    adds, counts, divides, multiplies, subtracts, takes_log2, takes_root, zero, Arithmetic,
    Operations,
};
use crate::notes::{hz_to_midi, midi_of};
use crate::order::{
    count, law_minority_outvoted, law_places_filled, lemma_count_none, lemma_count_two, middle,
    orderly, ranked, select,
};
use crate::pitch::{detect_pitch, detection};
use crate::single::Single;

verus! {

/// The number of frames that the display shows.
pub const HIST_LEN: usize = 800;

/// The pitches of the voiced frames, in order.
pub open spec fn voiced(track: Seq<Option<Single>>) -> Seq<Single>
    decreases track.len(),
{
    if track.len() == 0 {
        Seq::empty()
    } else {
        match track.last() {
            Some(pitch) => voiced(track.drop_last()).push(pitch),
            None => voiced(track.drop_last()),
        }
    }
}

/// Whether every voiced frame is a number.
pub open spec fn all_numbers(track: Seq<Option<Single>>) -> bool {
    forall|k: int| 0 <= k < track.len() ==> match #[trigger] track[k] {
        Some(pitch) => !pitch.nan(),
        None => true,
    }
}

/// The frames within two of frame `i`.
pub open spec fn around(track: Seq<Option<Single>>, i: int) -> Seq<Option<Single>> {
    let low = if i < 2 {
        0
    } else {
        i - 2
    };
    let high = if i + 3 > track.len() {
        track.len() as int
    } else {
        i + 3
    };
    if low < high {
        track.subrange(low, high)
    } else {
        Seq::empty()
    }
}

/// The median of the voiced frames of a window; nothing where fewer than three
/// are voiced, which is an isolated blip and no note.
pub open spec fn vote_of(window: Seq<Option<Single>>) -> Option<Single> {
    if voiced(window).len() < 3 {
        None
    } else {
        Some(middle(voiced(window)))
    }
}

/// Whether the voiced frames of a window can be put in order, where that is
/// called for.
pub open spec fn votable(window: Seq<Option<Single>>) -> bool {
    voiced(window).len() < 3 || orderly(voiced(window))
}

/// Whether every frame of a track can be shown.
pub open spec fn showable(track: Seq<Option<Single>>) -> bool {
    forall|i: int| 0 <= i < track.len() ==> votable(#[trigger] around(track, i))
}

/// Frame `i` of the track as it is shown: the median of the voiced frames within
/// two of it.
pub open spec fn smoothed(track: Seq<Option<Single>>, i: int) -> Option<Single> {
    vote_of(around(track, i))
}

/// The median of the voiced frames of a window.
pub fn vote(window: &[Option<Single>]) -> (r: Option<Single>)
    requires
        votable(window@),
    ensures
        r == vote_of(window@),
{
    let length: usize = window.len();
    let mut pitches: Vec<Single> = Vec::new();
    let mut j: usize = 0;
    while j < length
        invariant
            length == window@.len(),
            j <= length,
            pitches@ == voiced(window@.take(j as int)),
        decreases length - j,
    {
        proof {
            assert(window@.take(j + 1).drop_last() =~= window@.take(j as int));
        }
        if let Some(pitch) = window[j] {
            pitches.push(pitch);
        }
        j += 1;
    }
    proof {
        assert(window@.take(length as int) =~= window@);
    }
    let n: usize = pitches.len();
    if n < 3 {
        return None;
    }
    let place: usize = select(&pitches, n / 2);
    Some(pitches[place])
}

/// Whether the voiced frames of a window can be put in order, where that is called
/// for.
pub fn is_votable(window: &[Option<Single>]) -> (r: bool)
    ensures
        r == votable(window@),
{
    let length: usize = window.len();
    let mut heard: usize = 0;
    let mut numbers: bool = true;
    let mut j: usize = 0;
    while j < length
        invariant
            length == window@.len(),
            heard <= j <= length,
            heard == voiced(window@.take(j as int)).len(),
            numbers == orderly(voiced(window@.take(j as int))),
        decreases length - j,
    {
        proof {
            assert(window@.take(j + 1).drop_last() =~= window@.take(j as int));
        }
        let ghost before = voiced(window@.take(j as int));
        if let Some(pitch) = window[j] {
            proof {
                assert(voiced(window@.take(j + 1)) == before.push(pitch));
                lemma_orderly_push(before, pitch);
            }
            heard += 1;
            numbers = numbers && !pitch.is_nan();
        }
        j += 1;
    }
    proof {
        assert(window@.take(length as int) =~= window@);
    }
    heard < 3 || numbers
}

/// One pitch more can be put in order if it is a number.
proof fn lemma_orderly_push(pitches: Seq<Single>, pitch: Single)
    ensures
        orderly(pitches.push(pitch)) == (orderly(pitches) && !pitch.nan()),
{
    let longer = pitches.push(pitch);
    assert(longer[pitches.len() as int] == pitch);
    if orderly(longer) {
        assert forall|i: int| 0 <= i < pitches.len() implies !(#[trigger] pitches[i]).nan() by {
            assert(longer[i] == pitches[i]);
        }
    }
}

/// Frame `i` of a track, smoothed.
pub fn smooth_at(track: &[Option<Single>], i: usize) -> (r: Option<Single>)
    requires
        votable(around(track@, i as int)),
    ensures
        r == smoothed(track@, i as int),
{
    let length: usize = track.len();
    let low: usize = if i < 2 {
        0
    } else {
        i - 2
    };
    let high: usize = if length < 3 || i > length - 3 {
        length
    } else {
        i + 3
    };
    if low < high {
        vote(vstd::slice::slice_subrange(track, low, high))
    } else {
        None
    }
}

/// A piece of the drawn trace: from the frame before `index` to that frame.
#[derive(Clone, Copy, Debug, PartialEq, Eq, Structural)]
pub struct Segment {
    pub index: usize,
    pub from: Single,
    pub to: Single,
}

/// The pieces of the trace over the first `n` frames: each two neighbours that
/// are both shown are joined.
pub open spec fn segments(track: Seq<Option<Single>>, n: nat) -> Seq<Segment>
    decreases n,
{
    if n <= 1 {
        Seq::empty()
    } else {
        let before = segments(track, (n - 1) as nat);
        match (smoothed(track, n - 2), smoothed(track, n - 1)) {
            (Some(from), Some(to)) => before.push(Segment { index: (n - 1) as usize, from, to }),
            _ => before,
        }
    }
}

/// The most recent [`HIST_LEN`] frames. Its view is the frames in the order in
/// which they came, oldest first: the pitch of a voiced frame, on the MIDI scale.
pub struct History {
    slots: Vec<Option<Single>>,
    write_idx: usize,
}

impl View for History {
    type V = Seq<Option<Single>>;

    closed spec fn view(&self) -> Seq<Option<Single>> {
        Seq::new(
            HIST_LEN as nat,
            |j: int| self.slots@[(self.write_idx + j) % (HIST_LEN as int)],
        )
    }
}

impl History {
    /// The ring is whole, and the place of the next write lies in it.
    pub closed spec fn wf(self) -> bool {
        &&& self.slots@.len() == HIST_LEN
        &&& self.write_idx < HIST_LEN
    }

    /// The history always holds [`HIST_LEN`] frames.
    pub proof fn law_history_size(self)
        ensures
            self@.len() == HIST_LEN,
    {
    }

    /// No frame is voiced yet.
    pub fn new() -> (r: History)
        ensures
            r.wf(),
            r@ == Seq::new(HIST_LEN as nat, |j: int| None::<Single>),
    {
        let mut slots: Vec<Option<Single>> = Vec::new();
        while slots.len() < HIST_LEN
            invariant
                slots@.len() <= HIST_LEN,
                forall|j: int| 0 <= j < slots@.len() ==> slots@[j] is None,
            decreases HIST_LEN - slots@.len(),
        {
            slots.push(None);
        }
        let r = History { slots, write_idx: 0 };
        proof {
            assert(r@ =~= Seq::new(HIST_LEN as nat, |j: int| None::<Single>));
        }
        r
    }

    /// Takes in a frame in place of the oldest.
    pub fn push(&mut self, frame: Option<Single>)
        requires
            old(self).wf(),
        ensures
            final(self).wf(),
            final(self)@ == old(self)@.drop_first().push(frame),
    {
        let ghost before = self@;
        let ghost at = self.write_idx as int;
        self.slots.set(self.write_idx, frame);
        self.write_idx = (self.write_idx + 1) % HIST_LEN;
        proof {
            assert forall|j: int| 0 <= j < HIST_LEN implies self@[j]
                == before.drop_first().push(frame)[j] by {
                if at + 1 < HIST_LEN {
                    assert(self.write_idx == at + 1);
                } else {
                    assert(self.write_idx == 0);
                }
            }
            assert(self@ =~= before.drop_first().push(frame));
        }
    }

    /// Listens to a window of samples, and takes in a frame of what it heard: voiced
    /// at the pitch that the detector reports where its frequency is positive.
    pub fn hear<A: Arithmetic>(&mut self, window: &[Single], sample_rate: u32, gate: Single)
        requires
            old(self).wf(),
        ensures
            final(self).wf(),
            final(self)@.drop_last() == old(self)@.drop_first(),
            forall|ops: Operations|
                #[trigger] adds::<A>(ops) && #[trigger] subtracts::<A>(ops) &&
                #[trigger] multiplies::<A>(ops) && #[trigger] divides::<A>(ops) &&
                #[trigger] takes_root::<A>(ops) && #[trigger] counts::<A>(ops) ==> {
                    let hz = detection(ops, window@, sample_rate, gate).0;
                    final(self)@.last() is Some <==> zero().below(hz)
                },
            forall|ops: Operations|
                #[trigger] adds::<A>(ops) && #[trigger] subtracts::<A>(ops) &&
                #[trigger] multiplies::<A>(ops) && #[trigger] divides::<A>(ops) &&
                #[trigger] takes_root::<A>(ops) && #[trigger] counts::<A>(ops) &&
                #[trigger] takes_log2::<A>(ops) ==> {
                    let hz = detection(ops, window@, sample_rate, gate).0;
                    final(self)@ == old(self)@.drop_first().push(
                        if zero().below(hz) {
                            Some(midi_of(ops, hz))
                        } else {
                            None
                        },
                    )
                },
    {
        let (hz, _clarity, _level) = detect_pitch::<A>(window, sample_rate, gate);
        self.record::<A>(hz);
    }

    /// Takes in a frame in which the detector heard the frequency `hz`: voiced
    /// where that is positive.
    pub fn record<A: Arithmetic>(&mut self, hz: Single)
        requires
            old(self).wf(),
        ensures
            final(self).wf(),
            final(self)@.drop_last() == old(self)@.drop_first(),
            final(self)@.last() is Some <==> zero().below(hz),
            forall|ops: Operations|
                #[trigger] adds::<A>(ops) && #[trigger] multiplies::<A>(ops) &&
                #[trigger] divides::<A>(ops) && #[trigger] takes_log2::<A>(ops)
                    ==> final(self)@ == old(self)@.drop_first().push(
                    if zero().below(hz) {
                        Some(midi_of(ops, hz))
                    } else {
                        None
                    },
                ),
    {
        let silence: Single = Single { bits: 0 };
        let frame: Option<Single> = if silence.lt(hz) {
            Some(hz_to_midi::<A>(hz))
        } else {
            None
        };
        self.push(frame);
        proof {
            assert(self@.drop_last() =~= old(self)@.drop_first());
        }
    }

    /// The frames within two of frame `i`.
    fn window(&self, i: usize) -> (r: Vec<Option<Single>>)
        requires
            self.wf(),
        ensures
            r@ == around(self@, i as int),
    {
        let low: usize = if i < 2 {
            0
        } else {
            i - 2
        };
        let high: usize = if i > HIST_LEN - 3 {
            HIST_LEN
        } else {
            i + 3
        };
        let mut window: Vec<Option<Single>> = Vec::new();
        let mut j: usize = low;
        while j < high
            invariant
                self.wf(),
                low <= j,
                j <= high || low > high,
                high <= HIST_LEN,
                low <= high ==> window@ == self@.subrange(low as int, j as int),
                low > high ==> window@ == Seq::<Option<Single>>::empty(),
            decreases high - j,
        {
            window.push(self.slots[(self.write_idx + j) % HIST_LEN]);
            j += 1;
            proof {
                assert(window@ =~= self@.subrange(low as int, j as int));
            }
        }
        proof {
            assert(window@ =~= around(self@, i as int));
        }
        window
    }

    /// Frame `i` as it is shown, where 0 is the oldest: the median of the voiced
    /// frames within two of it, and nothing where fewer than three are voiced.
    pub fn median5(&self, i: usize) -> (r: Option<Single>)
        requires
            self.wf(),
            votable(around(self@, i as int)),
        ensures
            r == smoothed(self@, i as int),
    {
        let window: Vec<Option<Single>> = self.window(i);
        vote(&window)
    }

    /// The trace as it is drawn: every two neighbouring frames that are both
    /// shown are joined, and the trace breaks where one is not.
    pub fn trace(&self) -> (r: Vec<Segment>)
        requires
            self.wf(),
            showable(self@),
        ensures
            r@ == segments(self@, HIST_LEN as nat),
    {
        let mut pieces: Vec<Segment> = Vec::new();
        let mut before: Option<Single> = None;
        let mut i: usize = 0;
        while i < HIST_LEN
            invariant
                self.wf(),
                showable(self@),
                i <= HIST_LEN,
                i == 0 ==> before is None,
                i > 0 ==> before == smoothed(self@, i - 1),
                pieces@ == segments(self@, i as nat),
            decreases HIST_LEN - i,
        {
            let here: Option<Single> = self.median5(i);
            if let (Some(from), Some(to)) = (before, here) {
                pieces.push(Segment { index: i, from, to });
            }
            before = here;
            i += 1;
        }
        pieces
    }

    /// Whether every frame can be shown.
    pub fn is_orderly(&self) -> (r: bool)
        requires
            self.wf(),
        ensures
            r == showable(self@),
    {
        let mut i: usize = 0;
        while i < HIST_LEN
            invariant
                self.wf(),
                i <= HIST_LEN,
                forall|k: int| 0 <= k < i ==> votable(#[trigger] around(self@, k)),
            decreases HIST_LEN - i,
        {
            let window: Vec<Option<Single>> = self.window(i);
            if !is_votable(&window) {
                return false;
            }
            i += 1;
        }
        true
    }
}

/// Where every voiced frame is a number, the voiced frames can be put in order.
pub proof fn lemma_voiced_orderly(track: Seq<Option<Single>>)
    requires
        all_numbers(track),
    ensures
        orderly(voiced(track)),
    decreases track.len(),
{
    if track.len() > 0 {
        let shorter = track.drop_last();
        assert forall|k: int| 0 <= k < shorter.len() implies match #[trigger] shorter[k] {
            Some(pitch) => !pitch.nan(),
            None => true,
        } by {
            assert(shorter[k] == track[k]);
        }
        lemma_voiced_orderly(shorter);
        assert(track.last() == track[track.len() - 1]);
    }
}

/// Frame `k` of the window around frame `i`, by its place in the track.
proof fn lemma_around(track: Seq<Option<Single>>, i: int, k: int) -> (j: int)
    requires
        0 <= k < around(track, i).len(),
    ensures
        0 <= j < track.len(),
        i - 2 <= j <= i + 2,
        around(track, i)[k] == track[j],
{
    if i < 2 {
        k
    } else {
        i - 2 + k
    }
}

/// Where every voiced frame is a number, every frame can be shown.
pub proof fn law_numbers_are_shown(track: Seq<Option<Single>>)
    requires
        all_numbers(track),
    ensures
        showable(track),
{
    assert forall|i: int| 0 <= i < track.len() implies votable(#[trigger] around(track, i)) by {
        let window = around(track, i);
        assert forall|k: int| 0 <= k < window.len() implies match #[trigger] window[k] {
            Some(pitch) => !pitch.nan(),
            None => true,
        } by {
            let j = lemma_around(track, i, k);
            assert(window[k] == track[j]);
        }
        lemma_voiced_orderly(window);
    }
}

/// What is shown is a number.
pub proof fn law_shown_is_number(track: Seq<Option<Single>>, i: int)
    requires
        votable(around(track, i)),
    ensures
        smoothed(track, i) matches Some(shown) ==> !shown.nan(),
{
    let pitches = voiced(around(track, i));
    if pitches.len() >= 3 {
        law_places_filled(pitches, pitches.len() as int / 2);
    }
}

/// The frame from which voiced frame `n` comes.
proof fn lemma_voiced_from(track: Seq<Option<Single>>, n: int) -> (k: int)
    requires
        0 <= n < voiced(track).len(),
    ensures
        0 <= k < track.len(),
        track[k] == Some(voiced(track)[n]),
    decreases track.len(),
{
    let last = track.len() - 1;
    if n < voiced(track.drop_last()).len() {
        lemma_voiced_from(track.drop_last(), n)
    } else {
        last
    }
}

/// Where every frame is voiced, the voiced frames are all of them.
proof fn lemma_all_voiced(track: Seq<Option<Single>>)
    requires
        forall|k: int| 0 <= k < track.len() ==> (#[trigger] track[k]) is Some,
    ensures
        voiced(track) == Seq::new(track.len(), |k: int| track[k]->0),
    decreases track.len(),
{
    if track.len() > 0 {
        let shorter = track.drop_last();
        assert forall|k: int| 0 <= k < shorter.len() implies (#[trigger] shorter[k]) is Some by {
            assert(shorter[k] == track[k]);
        }
        lemma_all_voiced(shorter);
        assert(track.last() == track[track.len() - 1]);
    }
    assert(voiced(track) =~= Seq::new(track.len(), |k: int| track[k]->0));
}

/// As many frames are voiced as are counted so.
proof fn lemma_voiced_count(track: Seq<Option<Single>>, n: nat)
    requires
        n <= track.len(),
    ensures
        voiced(track.take(n as int)).len() == count(n, |k: int| track[k] is Some),
    decreases n,
{
    if n > 0 {
        lemma_voiced_count(track, (n - 1) as nat);
        assert(track.take(n as int).drop_last() =~= track.take(n - 1));
    }
}

/// The filter removes spikes of one or two frames: where the frames within two
/// of frame `i` are voiced, and all but two of them, `p` and `q`, lie between
/// `low` and `high`, so does what is shown.
pub proof fn law_spikes_removed(
    track: Seq<Option<Single>>,
    i: int,
    p: int,
    q: int,
    low: int,
    high: int,
)
    requires
        2 <= i < track.len() - 2,
        forall|j: int| i - 2 <= j <= i + 2 ==> (#[trigger] track[j]) is Some,
        forall|j: int|
            i - 2 <= j <= i + 2 && j != p && j != q ==> low <= (#[trigger] track[j])->0.units()
                <= high,
    ensures
        smoothed(track, i) matches Some(shown) && low <= shown.units() <= high,
{
    let window = around(track, i);
    assert forall|k: int| 0 <= k < window.len() implies (#[trigger] window[k]) is Some by {
        assert(window[k] == track[i - 2 + k]);
    }
    lemma_all_voiced(window);
    let pitches = voiced(window);
    let outside = |k: int| !(low <= pitches[k].units() <= high);
    assert forall|k: int| 0 <= k < 5 && #[trigger] outside(k) implies k == p - (i - 2) || k == q
        - (i - 2) by {
        assert(pitches[k] == track[i - 2 + k]->0);
    }
    lemma_count_two(5, outside, p - (i - 2), q - (i - 2));
    law_minority_outvoted(pitches, low, high);
}

/// The filter outvotes outliers: where fewer than half of the voiced frames within
/// two of frame `i` lie outside the range from `low` to `high`, and three are
/// voiced, what is shown lies in it.
pub proof fn law_outliers_outvoted(track: Seq<Option<Single>>, i: int, low: int, high: int)
    requires
        voiced(around(track, i)).len() >= 3,
        2 * count(
            voiced(around(track, i)).len(),
            |k: int| !(low <= voiced(around(track, i))[k].units() <= high),
        ) < voiced(around(track, i)).len(),
    ensures
        smoothed(track, i) matches Some(shown) && low <= shown.units() <= high,
{
    law_minority_outvoted(voiced(around(track, i)), low, high);
}

/// The filter leaves slides untouched: where the frames within two of frame `i`
/// are voiced, and rise or fall all the way, the pitch of frame `i` is shown.
pub proof fn law_slide_kept(track: Seq<Option<Single>>, i: int)
    requires
        2 <= i < track.len() - 2,
        forall|j: int| i - 2 <= j <= i + 2 ==> (#[trigger] track[j]) is Some,
        ({
            ||| forall|j: int, k: int|
                i - 2 <= j <= k <= i + 2 ==> (#[trigger] track[j])->0.units() <= (
                #[trigger] track[k])->0.units()
            ||| forall|j: int, k: int|
                i - 2 <= j <= k <= i + 2 ==> (#[trigger] track[k])->0.units() <= (
                #[trigger] track[j])->0.units()
        }),
    ensures
        smoothed(track, i) matches Some(shown) && shown.units() == track[i]->0.units(),
{
    let here = track[i]->0.units();
    let first = track[i - 2]->0.units();
    let last = track[i + 2]->0.units();
    if forall|j: int, k: int|
        i - 2 <= j <= k <= i + 2 ==> (#[trigger] track[j])->0.units() <= (
        #[trigger] track[k])->0.units() {
        law_spikes_removed(track, i, i - 2, i - 1, here, last);
        law_spikes_removed(track, i, i + 1, i + 2, first, here);
    } else {
        law_spikes_removed(track, i, i - 2, i - 1, last, here);
        law_spikes_removed(track, i, i + 1, i + 2, here, first);
    }
}

/// The filter invents nothing: a pitch that is shown at frame `i` was heard in a
/// frame within two of it.
pub proof fn law_shown_was_heard(track: Seq<Option<Single>>, i: int)
    requires
        smoothed(track, i) is Some,
    ensures
        exists|j: int|
            0 <= j < track.len() && i - 2 <= j <= i + 2 && #[trigger] track[j] == smoothed(track, i),
{
    let window = around(track, i);
    let pitches = voiced(window);
    let half = pitches.len() as int / 2;
    law_places_filled(pitches, half);
    let k = lemma_voiced_from(window, choose|n: int| ranked(pitches, half, n));
    let j = lemma_around(track, i, k);
    assert(track[j] == smoothed(track, i));
}

/// The filter leaves a sustained pitch untouched: where at least three frames
/// within two of frame `i` are voiced, and all of those at one pitch, that pitch
/// is shown.
pub proof fn law_sustained_kept(track: Seq<Option<Single>>, i: int, pitch: int)
    requires
        voiced(around(track, i)).len() >= 3,
        forall|k: int|
            0 <= k < voiced(around(track, i)).len() ==> (#[trigger] voiced(
                around(track, i),
            )[k]).units() == pitch,
    ensures
        smoothed(track, i) matches Some(shown) && shown.units() == pitch,
{
    let pitches = voiced(around(track, i));
    lemma_count_none(pitches.len(), |k: int| !(pitch <= pitches[k].units() <= pitch));
    law_minority_outvoted(pitches, pitch, pitch);
}

/// The filter drops isolated blips: where of the frames within two of frame `i`
/// at most two, `p` and `q`, are voiced, nothing is shown.
pub proof fn law_blip_dropped(track: Seq<Option<Single>>, i: int, p: int, q: int)
    requires
        0 <= i < track.len(),
        forall|j: int|
            0 <= j < track.len() && i - 2 <= j <= i + 2 && j != p && j != q ==> (
            #[trigger] track[j]) is None,
    ensures
        smoothed(track, i) is None,
{
    let window = around(track, i);
    let low = if i < 2 {
        0
    } else {
        i - 2
    };
    let heard = |k: int| window[k] is Some;
    assert forall|k: int| 0 <= k < window.len() && #[trigger] heard(k) implies k == p - low || k
        == q - low by {
        assert(window[k] == track[low + k]);
    }
    lemma_count_two(window.len(), heard, p - low, q - low);
    lemma_voiced_count(window, window.len());
    assert(window.take(window.len() as int) =~= window);
}

/// Every piece of the trace joins two neighbouring frames that are both shown.
pub proof fn law_trace_joins_neighbours(track: Seq<Option<Single>>, n: nat, k: int)
    requires
        n <= usize::MAX,
        0 <= k < segments(track, n).len(),
    ensures
        ({
            let piece = segments(track, n)[k];
            &&& 1 <= piece.index < n
            &&& smoothed(track, piece.index - 1) == Some(piece.from)
            &&& smoothed(track, piece.index as int) == Some(piece.to)
        }),
    decreases n,
{
    if n > 1 && k < segments(track, (n - 1) as nat).len() {
        law_trace_joins_neighbours(track, (n - 1) as nat, k);
    }
}

/// Every two neighbouring frames that are both shown are joined.
pub proof fn law_neighbours_are_joined(track: Seq<Option<Single>>, n: nat, i: int) -> (k: int)
    requires
        n <= usize::MAX,
        1 <= i < n,
        smoothed(track, i - 1) is Some,
        smoothed(track, i) is Some,
    ensures
        0 <= k < segments(track, n).len(),
        segments(track, n)[k].index == i,
    decreases n,
{
    if i < n - 1 {
        law_neighbours_are_joined(track, (n - 1) as nat, i)
    } else {
        segments(track, n).len() - 1
    }
}

/// The trace is drawn from the oldest frame to the newest, no piece twice.
pub proof fn law_trace_in_order(track: Seq<Option<Single>>, n: nat, k: int, l: int)
    requires
        n <= usize::MAX,
        0 <= k < l < segments(track, n).len(),
    ensures
        segments(track, n)[k].index < segments(track, n)[l].index,
    decreases n,
{
    if n > 1 {
        let before = segments(track, (n - 1) as nat);
        law_trace_joins_neighbours(track, (n - 1) as nat, k);
        if l < before.len() {
            law_trace_in_order(track, (n - 1) as nat, k, l);
        }
    }
}

/// The voiced frames of two stretches are those of the first, and then those of the second.
pub proof fn law_voiced_in_order(first: Seq<Option<Single>>, second: Seq<Option<Single>>)
    ensures
        voiced(first + second) == voiced(first) + voiced(second),
    decreases second.len(),
{
    if second.len() == 0 {
        assert(first + second =~= first);
        assert(voiced(first) + voiced(second) =~= voiced(first));
    } else {
        assert((first + second).drop_last() =~= first + second.drop_last());
        law_voiced_in_order(first, second.drop_last());
        assert(voiced(first + second) =~= voiced(first) + voiced(second));
    }
}

/// A voiced frame counts with its pitch, and an unvoiced one does not.
pub proof fn law_one_frame_voiced(frame: Option<Single>)
    ensures
        voiced(seq![frame]) == (match frame {
            Some(pitch) => seq![pitch],
            None => seq![],
        }),
{
    assert(seq![frame].drop_last() =~= Seq::empty());
    assert(voiced(seq![frame].drop_last()) =~= Seq::empty());
    assert(voiced(seq![frame]) =~= match frame {
        Some(pitch) => seq![pitch],
        None => seq![],
    });
}

} // verus!
