//! The target note: set by clicking or dragging on the plot, and played as the
//! reference tone.
use vstd::prelude::*;
use crate::arith::{adds, divides, multiplies, raises, subtracts, Arithmetic, Operations};
use crate::notes::{hz_of, midi_to_hz, name_of, nearest_note, note_name};
use crate::plot::{
    comes_back, edge_of, high_of, is_visible, is_whole, law_lookup_undoes_drawing,
    law_pointer_at_pitch, law_pointer_finds_line, law_snapped_is_whole, low_of, note_under,
    on_screen, pitch_under, y_of, Area, Point, Viewport,
};
use crate::rounding::rounded;
use crate::single::Single;
use crate::tone::Tone;

verus! {

/// The target note, snapped to a semitone, and whether it sounds.
#[derive(Clone, Copy, Debug, PartialEq, Eq, Structural)]
pub struct Reference {
    pub target: Option<Single>,
    pub on: bool,
}

/// What the pointer did on the plot.
#[derive(Clone, Copy, Debug, PartialEq, Eq, Structural)]
pub struct Gesture {
    /// The pointer is held and moved.
    pub dragged: bool,
    /// The pointer was pressed and let go.
    pub clicked: bool,
    /// Where it is, where that is known.
    pub at: Option<Point>,
}

/// Whether `note` is the target.
pub open spec fn is_target(r: Reference, note: Single) -> bool {
    match r.target {
        Some(target) => target.equals(note),
        None => false,
    }
}

/// The target after a drag to `note`: it sounds.
pub open spec fn dragged_to(r: Reference, note: Single) -> Reference {
    Reference { target: Some(note), on: true }
}

/// The target after a click on `note`: the same note is muted or unmuted, another
/// one becomes the target and sounds.
pub open spec fn clicked_on(r: Reference, note: Single) -> Reference {
    if is_target(r, note) {
        Reference { target: r.target, on: !r.on }
    } else {
        Reference { target: Some(note), on: true }
    }
}

/// The target after a gesture. One outside the plot, on the scale, does nothing.
pub open spec fn moved_by(
    ops: Operations,
    r: Reference,
    viewport: Viewport,
    area: Area,
    gesture: Gesture,
) -> Reference {
    match gesture.at {
        Some(at) => {
            let note = note_under(ops, viewport, area, at.y);
            if !at.x.at_most(edge_of(ops, area)) {
                r
            } else if gesture.dragged {
                dragged_to(r, note)
            } else if gesture.clicked {
                clicked_on(r, note)
            } else {
                r
            }
        },
        None => r,
    }
}

/// The gain of the reference tone: `volume` while a target sounds, else silence.
pub open spec fn gain_of(r: Reference, volume: Single) -> Single {
    if r.on && r.target is Some {
        volume
    } else {
        Single { bits: 0 }
    }
}

impl Reference {
    /// No target, and no sound.
    pub fn new() -> (r: Reference)
        ensures
            r == (Reference { target: None, on: false }),
    {
        Reference { target: None, on: false }
    }

    /// Drags the target to `note`.
    pub fn drag(&mut self, note: Single)
        ensures
            *final(self) == dragged_to(*old(self), note),
    {
        self.target = Some(note);
        self.on = true;
    }

    /// Clicks on `note`.
    pub fn click(&mut self, note: Single)
        ensures
            *final(self) == clicked_on(*old(self), note),
    {
        let again: bool = match self.target {
            Some(target) => target.same(note),
            None => false,
        };
        if again {
            self.on = !self.on;
        } else {
            self.target = Some(note);
            self.on = true;
        }
    }

    /// Follows what the pointer did on the plot.
    pub fn follow<A: Arithmetic>(&mut self, viewport: &Viewport, area: &Area, gesture: Gesture)
        ensures
            forall|ops: Operations|
                #[trigger] adds::<A>(ops) && #[trigger] subtracts::<A>(ops) &&
                #[trigger] multiplies::<A>(ops) && #[trigger] divides::<A>(ops)
                    ==> *final(self) == moved_by(
                    ops,
                    *old(self),
                    *viewport,
                    *area,
                    gesture,
                ),
            gesture.at is None ==> *final(self) == *old(self),
            !gesture.dragged && !gesture.clicked ==> *final(self) == *old(self),
    {
        if let Some(at) = gesture.at {
            if at.x.le(area.edge::<A>()) {
                if gesture.dragged {
                    let note: Single = area.note_at::<A>(viewport, at.y);
                    self.drag(note);
                } else if gesture.clicked {
                    let note: Single = area.note_at::<A>(viewport, at.y);
                    self.click(note);
                }
            }
        }
    }

    /// Switches the sound, which only a target can have.
    pub fn switch(&mut self, on: bool)
        ensures
            final(self).target == old(self).target,
            final(self).on == (if old(self).target is Some {
                on
            } else {
                old(self).on
            }),
    {
        if self.target.is_some() {
            self.on = on;
        }
    }

    /// Brings the reference tone in line with the target: its frequency where
    /// there is one, and the gain.
    pub fn steer<A: Arithmetic>(&self, tone: &mut Tone, volume: Single)
        ensures
            final(tone).spec_gain() == gain_of(*self, volume),
            self.target is None ==> final(tone).spec_freq() == old(tone).spec_freq(),
            forall|ops: Operations|
                #[trigger] subtracts::<A>(ops) && #[trigger] multiplies::<A>(ops) &&
                #[trigger] divides::<A>(ops) && #[trigger] raises::<A>(ops) && self.target is Some
                    ==> final(tone).spec_freq() == hz_of(
                    ops,
                    self.target->0,
                ),
    {
        if let Some(midi) = self.target {
            tone.set_freq(midi_to_hz::<A>(midi));
        }
        tone.set_gain(
            if self.on && self.target.is_some() {
                volume
            } else {
                Single { bits: 0 }
            },
        );
    }

    /// The name of the target note.
    pub fn target_name(&self) -> (r: Option<String>)
        ensures
            match self.target {
                Some(midi) => r matches Some(name) && name@ == name_of(nearest_note(midi)),
                None => r is None,
            },
    {
        match self.target {
            Some(midi) => Some(note_name(midi.round_i32())),
            None => None,
        }
    }
}

/// Clicking the target note again mutes it, and once more unmutes it: two clicks
/// leave everything as it was.
pub proof fn law_click_twice(r: Reference, note: Single)
    requires
        is_target(r, note),
    ensures
        clicked_on(r, note) == (Reference { target: r.target, on: !r.on }),
        clicked_on(clicked_on(r, note), note) == r,
{
}

/// A click on a new note sets it and plays it, and clicking it again mutes it.
pub proof fn law_click_sets_and_mutes(r: Reference, note: Single)
    requires
        !is_target(r, note),
        !note.nan(),
    ensures
        clicked_on(r, note) == (Reference { target: Some(note), on: true }),
        clicked_on(clicked_on(r, note), note) == (Reference { target: Some(note), on: false }),
{
}

/// The target stays a whole note, wherever the pointer clicks or drags at a pitch.
pub proof fn law_target_stays_whole(
    ops: Operations,
    r: Reference,
    viewport: Viewport,
    area: Area,
    gesture: Gesture,
)
    requires
        r.target matches Some(target) ==> is_whole(target),
        gesture.at matches Some(at) ==> !pitch_under(ops, viewport, area, at.y).nan(),
    ensures
        moved_by(ops, r, viewport, area, gesture).target matches Some(target) ==> is_whole(
            target,
        ),
{
    if let Some(at) = gesture.at {
        law_snapped_is_whole(ops, viewport, area, at.y);
    }
}

/// The target stays a whole note, wherever on the screen the pointer clicks or drags.
pub proof fn law_target_stays_a_note(
    ops: Operations,
    r: Reference,
    viewport: Viewport,
    area: Area,
    gesture: Gesture,
)
    requires
        rounded(ops),
        viewport.in_limits(),
        is_visible(area),
        gesture.at matches Some(at) ==> on_screen(at.y),
        r.target matches Some(target) ==> is_whole(target),
    ensures
        moved_by(ops, r, viewport, area, gesture).target matches Some(target) ==> is_whole(
            target,
        ),
{
    if let Some(at) = gesture.at {
        law_pointer_at_pitch(ops, viewport, area, at.y);
    }
}

/// A click on a line of the grid sets the note of that line and plays it: the target
/// line appears where the pointer is.
pub proof fn law_click_finds_line(
    ops: Operations,
    r: Reference,
    viewport: Viewport,
    area: Area,
    x: Single,
    midi: Single,
)
    requires
        rounded(ops),
        viewport.in_limits(),
        is_visible(area),
        is_whole(midi),
        low_of(ops, viewport).units() <= midi.units() <= high_of(ops, viewport).units(),
        x.at_most(edge_of(ops, area)),
        !is_target(r, midi),
    ensures
        ({
            let at = Point { x, y: y_of(ops, viewport, area, midi) };
            let click = Gesture { dragged: false, clicked: true, at: Some(at) };
            let after = moved_by(ops, r, viewport, area, click);
            after.on && is_target(after, midi)
        }),
{
    law_pointer_finds_line(ops, viewport, area, midi);
}

/// A click on the line of a note sets that note and plays it, wherever what rounding
/// takes is less than half a semitone.
pub proof fn law_click_hits_line(
    ops: Operations,
    r: Reference,
    viewport: Viewport,
    area: Area,
    x: Single,
    midi: Single,
    note: int,
    screen: int,
    share: int,
)
    requires
        is_whole(midi),
        comes_back(ops, viewport, area, midi, note, screen, share),
        x.at_most(edge_of(ops, area)),
        !is_target(r, midi),
    ensures
        ({
            let at = Point { x, y: y_of(ops, viewport, area, midi) };
            let click = Gesture { dragged: false, clicked: true, at: Some(at) };
            let after = moved_by(ops, r, viewport, area, click);
            after.on && is_target(after, midi)
        }),
{
    law_lookup_undoes_drawing(ops, viewport, area, midi, note, screen, share);
}

/// A drag always leaves the target sounding, at the note dragged to last.
pub proof fn law_drag_retunes(r: Reference, first: Single, last: Single)
    ensures
        dragged_to(dragged_to(r, first), last) == (Reference { target: Some(last), on: true }),
{
}

/// Without a target the reference tone is silent, and so is a muted one.
pub proof fn law_silent_unless_on(r: Reference, volume: Single)
    requires
        r.target is None || !r.on,
    ensures
        gain_of(r, volume) == (Single { bits: 0 }),
{
}

/// A gesture that is over the scale, beyond the edge of the plot, changes nothing, and
/// neither does the pointer while it only moves. A drag within the plot sets the note under
/// the pointer and plays it, even where it ends as a click; a click goes by that note.
pub proof fn law_gesture(
    ops: Operations,
    r: Reference,
    viewport: Viewport,
    area: Area,
    gesture: Gesture,
    at: Point,
)
    requires
        gesture.at == Some(at),
    ensures
        ({
            let after = moved_by(ops, r, viewport, area, gesture);
            let note = note_under(ops, viewport, area, at.y);
            let over_plot = at.x.at_most(edge_of(ops, area));
            &&& !over_plot ==> after == r
            &&& !gesture.dragged && !gesture.clicked ==> after == r
            &&& over_plot && gesture.dragged ==> after.target == Some(note) && after.on
            &&& over_plot && !gesture.dragged && gesture.clicked ==> {
                let again = r.target matches Some(target) && !target.nan() && !note.nan()
                    && target.units() == note.units();
                &&& again ==> after.target == r.target && after.on == !r.on
                &&& !again ==> after.target == Some(note) && after.on
            }
        }),
{
}

/// A target that is on sounds at the volume that is set.
pub proof fn law_sounds_at_volume(r: Reference, volume: Single)
    requires
        r.target is Some,
        r.on,
    ensures
        gain_of(r, volume) == volume,
{
}

} // verus!
