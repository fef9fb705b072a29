//! The plot: which notes it spans, where on the screen a pitch goes, and which
//! note lies under the pointer.
use vstd::prelude::*;
use crate::arith::{adds, counts, divides, multiplies, subtracts, Arithmetic, Operations, UNIT};
use crate::history::HIST_LEN;
use crate::rounding::{
    counts_rounded, faithful, grain, hits, lemma_difference, lemma_grain, lemma_moderate_finite,
    lemma_product, lemma_ratio, lemma_sum, lemma_whole_pattern, nan_only_if_due, rounded,
    rounds, size,
};
use crate::single::{close, law_nearest_unique, law_round_fits, one, Single};

verus! {

/// Width of the scale on the right, 50 points.
pub const SCALE_WIDTH: u32 = 0x4248_0000;

/// Semitones from the centre to the edge, per octave of range: 6.
pub const HALF_OCTAVE: u32 = 0x40c0_0000;

/// Semitones that the centre moves per point scrolled, 0.02.
pub const SCROLL: u32 = 0x3ca3_d70a;

/// Lowest centre, note 30.
pub const CENTER_MIN: u32 = 0x41f0_0000;

/// Highest centre, note 90.
pub const CENTER_MAX: u32 = 0x42b4_0000;

/// Narrowest range, 1 octave.
pub const RANGE_MIN: u32 = 0x3f80_0000;

/// Widest range, 6 octaves.
pub const RANGE_MAX: u32 = 0x40c0_0000;

/// The centre at the start, note 48.
pub const CENTER_START: u32 = 0x4240_0000;

/// The range at the start, 3 octaves.
pub const RANGE_START: u32 = 0x4040_0000;

/// The notes that the centre can be set to.
pub const CENTER_NOTES: [i32; 5] = [48, 55, 60, 67, 72];

/// The notes that the centre can be set to, as singles.
pub const CENTER_PRESETS: [u32; 5] = [
    0x4240_0000,
    0x425c_0000,
    0x4270_0000,
    0x4286_0000,
    0x4290_0000,
];

/// The octaves that the range can be set to.
pub const RANGE_OCTAVES: [u32; 4] = [2, 3, 4, 5];

/// The octaves that the range can be set to, as singles.
pub const RANGE_PRESETS: [u32; 4] = [0x4000_0000, 0x4040_0000, 0x4080_0000, 0x40a0_0000];

/// Whether `s` lies in the range from `low` to `high`, or is a NaN.
pub open spec fn held(s: Single, low: u32, high: u32) -> bool {
    !s.below(Single { bits: low }) && !(Single { bits: high }).below(s)
}

/// Whether `s` is a number in the range from `low` to `high`.
pub open spec fn within(s: Single, low: u32, high: u32) -> bool {
    (Single { bits: low }).at_most(s) && s.at_most(Single { bits: high })
}

/// Whether `s` is a number strictly between `low` and `high`.
pub open spec fn inside(s: Single, low: u32, high: u32) -> bool {
    (Single { bits: low }).below(s) && s.below(Single { bits: high })
}

/// Whether `factor` is one that fingers can make: from a 16th to 16.
pub open spec fn is_pinch(factor: Single) -> bool {
    !factor.nan() && one() <= 16 * factor.units() && factor.units() <= 16 * one()
}

/// Where a scroll of `points` moves the centre, before it is held to its limits.
pub open spec fn scrolled(ops: Operations, center: Single, points: Single) -> Single {
    (ops.plus)(center, (ops.times)(points, Single { bits: SCROLL }))
}

/// The stretch of notes that is in view.
#[derive(Clone, Copy, Debug, PartialEq, Eq, Structural)]
pub struct Viewport {
    center: Single,
    range: Single,
}

impl Viewport {
    /// The note in the middle.
    pub closed spec fn spec_center(self) -> Single {
        self.center
    }

    /// The number of octaves in view.
    pub closed spec fn spec_range(self) -> Single {
        self.range
    }

    /// Centre and range are held to their limits.
    pub open spec fn wf(self) -> bool {
        &&& held(self.spec_center(), CENTER_MIN, CENTER_MAX)
        &&& held(self.spec_range(), RANGE_MIN, RANGE_MAX)
    }

    /// Centre and range are numbers within their limits.
    pub open spec fn in_limits(self) -> bool {
        &&& within(self.spec_center(), CENTER_MIN, CENTER_MAX)
        &&& within(self.spec_range(), RANGE_MIN, RANGE_MAX)
    }

    /// Three octaves around note 48.
    pub fn new() -> (r: Viewport)
        ensures
            r.wf(),
            r.in_limits(),
            r.spec_center() == (Single { bits: CENTER_START }),
            r.spec_range() == (Single { bits: RANGE_START }),
    {
        let r = Viewport {
            center: Single { bits: CENTER_START },
            range: Single { bits: RANGE_START },
        };
        proof {
            lemma_held(r.center, CENTER_MIN, CENTER_MAX);
            lemma_held(r.range, RANGE_MIN, RANGE_MAX);
        }
        r
    }

    /// The note in the middle.
    pub fn center(&self) -> (r: Single)
        ensures
            r == self.spec_center(),
    {
        self.center
    }

    /// The number of octaves in view.
    pub fn range(&self) -> (r: Single)
        ensures
            r == self.spec_range(),
    {
        self.range
    }

    /// Moves the centre by a scroll of `points`.
    pub fn pan<A: Arithmetic>(&mut self, points: Single)
        requires
            old(self).wf(),
        ensures
            final(self).wf(),
            final(self).spec_range() == old(self).spec_range(),
            points.equals(Single { bits: 0 }) ==> *final(self) == *old(self),
            forall|ops: Operations|
                #[trigger] adds::<A>(ops) && #[trigger] multiplies::<A>(ops) && !points.equals(
                    Single { bits: 0 },
                ) ==> final(self).spec_center() == scrolled(
                    ops,
                    old(self).spec_center(),
                    points,
                ).spec_clamp(Single { bits: CENTER_MIN }, Single { bits: CENTER_MAX }),
            forall|ops: Operations|
                #[trigger] adds::<A>(ops) && #[trigger] multiplies::<A>(ops)
                    && old(self).in_limits() && !scrolled(
                    ops,
                    old(self).spec_center(),
                    points,
                ).nan() ==> final(self).in_limits(),
            forall|ops: Operations|
                #[trigger] adds::<A>(ops) && #[trigger] multiplies::<A>(ops) && nan_only_if_due(ops)
                    && old(self).in_limits() && !points.nan() ==> final(self).in_limits(),
            forall|ops: Operations|
                #[trigger] adds::<A>(ops) && #[trigger] multiplies::<A>(ops) && rounded(ops)
                    && old(self).in_limits() && on_screen(points)
                    && inside(final(self).spec_center(), CENTER_MIN, CENTER_MAX) ==> 256 * size(
                    50 * (final(self).spec_center().units() - old(self).spec_center().units())
                        - points.units(),
                ) <= one(),
    {
        proof {
            vstd::arithmetic::power2::lemma_pow2_pos(149);
            assert forall|ops: Operations|
                #[trigger] adds::<A>(ops) && #[trigger] multiplies::<A>(ops) && rounded(ops)
                    && self.in_limits() && on_screen(points) implies !scrolled(
                ops,
                self.center,
                points,
            ).nan() && 256 * size(
                50 * (scrolled(ops, self.center, points).units() - self.center.units())
                    - points.units(),
            ) <= one() by {
                law_scroll_fifty_to_semitone(ops, self.center, points);
            }
            assert forall|ops: Operations|
                #[trigger] adds::<A>(ops) && #[trigger] multiplies::<A>(ops) && nan_only_if_due(ops)
                    && self.in_limits() && !points.nan() implies !scrolled(
                ops,
                self.center,
                points,
            ).nan() by {
                law_scroll_makes_no_nan(ops, self.center, points);
            }
        }
        if !points.same(Single { bits: 0 }) {
            proof {
                Single::law_key_order(
                    Single { bits: CENTER_MIN },
                    Single { bits: CENTER_MAX },
                );
            }
            self.center = A::plus(self.center, A::times(points, Single { bits: SCROLL })).clamp(
                Single { bits: CENTER_MIN },
                Single { bits: CENTER_MAX },
            );
        }
    }

    /// Narrows the range by the factor of a pinch.
    pub fn zoom<A: Arithmetic>(&mut self, factor: Single)
        requires
            old(self).wf(),
        ensures
            final(self).wf(),
            final(self).spec_center() == old(self).spec_center(),
            factor.equals(Single { bits: UNIT }) ==> *final(self) == *old(self),
            forall|ops: Operations|
                #[trigger] divides::<A>(ops) && !factor.equals(Single { bits: UNIT })
                    ==> final(self).spec_range() == (ops.over)(
                    old(self).spec_range(),
                    factor,
                ).spec_clamp(Single { bits: RANGE_MIN }, Single { bits: RANGE_MAX }),
            forall|ops: Operations|
                #[trigger] divides::<A>(ops) && old(self).in_limits() && !(ops.over)(
                    old(self).spec_range(),
                    factor,
                ).nan() ==> final(self).in_limits(),
            forall|ops: Operations|
                #[trigger] divides::<A>(ops) && nan_only_if_due(ops) && old(self).in_limits()
                    && !factor.nan() ==> final(self).in_limits(),
            forall|ops: Operations|
                #[trigger] divides::<A>(ops) && rounded(ops) && old(self).in_limits() && is_pinch(
                    factor,
                ) && inside(final(self).spec_range(), RANGE_MIN, RANGE_MAX) ==> size(
                    final(self).spec_range().units() * factor.units()
                        - old(self).spec_range().units() * one(),
                ) * 0x10_0000 <= old(self).spec_range().units() * one(),
    {
        proof {
            lemma_limits();
            assert forall|ops: Operations|
                #[trigger] divides::<A>(ops) && rounded(ops) && self.in_limits() && is_pinch(
                    factor,
                ) implies !(ops.over)(self.range, factor).nan() && size(
                (ops.over)(self.range, factor).units() * factor.units() - self.range.units()
                    * one(),
            ) * 0x10_0000 <= self.range.units() * one() by {
                law_pinch_divides(ops, self.range, factor);
            }
            assert forall|ops: Operations|
                #[trigger] divides::<A>(ops) && nan_only_if_due(ops) && self.in_limits()
                    && !factor.nan() implies !(ops.over)(self.range, factor).nan() by {
                law_pinch_makes_no_nan(ops, self.range, factor);
            }
        }
        if !factor.same(Single { bits: UNIT }) {
            proof {
                Single::law_key_order(Single { bits: RANGE_MIN }, Single { bits: RANGE_MAX });
            }
            self.range = A::over(self.range, factor).clamp(
                Single { bits: RANGE_MIN },
                Single { bits: RANGE_MAX },
            );
        }
    }

    /// Sets the centre to one of [`CENTER_NOTES`].
    pub fn choose_center(&mut self, preset: usize)
        requires
            old(self).wf(),
            preset < 5,
        ensures
            final(self).wf(),
            final(self).spec_center() == (Single { bits: CENTER_PRESETS@[preset as int] }),
            final(self).spec_range() == old(self).spec_range(),
            old(self).in_limits() ==> final(self).in_limits(),
    {
        self.center = Single { bits: CENTER_PRESETS[preset] };
        proof {
            lemma_held(self.center, CENTER_MIN, CENTER_MAX);
        }
    }

    /// Sets the range to one of [`RANGE_OCTAVES`].
    pub fn choose_range(&mut self, preset: usize)
        requires
            old(self).wf(),
            preset < 4,
        ensures
            final(self).wf(),
            final(self).spec_range() == (Single { bits: RANGE_PRESETS@[preset as int] }),
            final(self).spec_center() == old(self).spec_center(),
            old(self).in_limits() ==> final(self).in_limits(),
    {
        self.range = Single { bits: RANGE_PRESETS[preset] };
        proof {
            lemma_held(self.range, RANGE_MIN, RANGE_MAX);
        }
    }

    /// The lowest note in view.
    pub fn low<A: Arithmetic>(&self) -> (r: Single)
        ensures
            forall|ops: Operations|
                #[trigger] subtracts::<A>(ops) && #[trigger] multiplies::<A>(ops)
                    ==> r == low_of(ops, *self),
    {
        A::minus(self.center, A::times(self.range, Single { bits: HALF_OCTAVE }))
    }

    /// The highest note in view.
    pub fn high<A: Arithmetic>(&self) -> (r: Single)
        ensures
            forall|ops: Operations|
                #[trigger] adds::<A>(ops) && #[trigger] multiplies::<A>(ops)
                    ==> r == high_of(ops, *self),
    {
        A::plus(self.center, A::times(self.range, Single { bits: HALF_OCTAVE }))
    }
}

/// A positive pattern between two others is a number between theirs.
proof fn lemma_held(s: Single, low: u32, high: u32)
    requires
        low <= s.bits <= high < 0x7f80_0000,
    ensures
        held(s, low, high),
        within(s, low, high),
{
    Single::law_key_order(s, Single { bits: low });
    Single::law_key_order(Single { bits: high }, s);
}

/// The lowest note in view.
pub open spec fn low_of(ops: Operations, viewport: Viewport) -> Single {
    (ops.minus)(
        viewport.spec_center(),
        (ops.times)(viewport.spec_range(), Single { bits: HALF_OCTAVE }),
    )
}

/// The highest note in view.
pub open spec fn high_of(ops: Operations, viewport: Viewport) -> Single {
    (ops.plus)(
        viewport.spec_center(),
        (ops.times)(viewport.spec_range(), Single { bits: HALF_OCTAVE }),
    )
}

/// How a line of the grid stands out.
#[derive(Clone, Copy, Debug, PartialEq, Eq, Structural)]
pub enum LineKind {
    /// Concert A.
    Concert,
    /// A C, which opens an octave.
    Octave,
    /// Any other note.
    Plain,
}

/// A line of the grid.
#[derive(Clone, Copy, Debug, PartialEq, Eq, Structural)]
pub struct GridLine {
    pub note: i32,
    pub kind: LineKind,
}

/// How the line of `note` stands out.
pub open spec fn kind_of(note: int) -> LineKind {
    if note == 69 {
        LineKind::Concert
    } else if note % 12 == 0 {
        LineKind::Octave
    } else {
        LineKind::Plain
    }
}

/// The lines of the notes from `first` to `last`.
pub open spec fn lines(first: int, last: int) -> Seq<GridLine> {
    Seq::new(
        (if first <= last {
            last - first + 1
        } else {
            0
        }) as nat,
        |k: int| GridLine { note: (first + k) as i32, kind: kind_of(first + k) },
    )
}

/// The lines of the whole notes from `low` to `high`.
pub open spec fn grid_of(low: Single, high: Single) -> Seq<GridLine> {
    lines(
        low.cast(low.ceil_whole(), i32::MIN as int, i32::MAX as int),
        high.cast(high.floor_whole(), i32::MIN as int, i32::MAX as int),
    )
}

/// How the line of `note` stands out.
pub fn line_kind(note: i32) -> (r: LineKind)
    ensures
        r == kind_of(note as int),
{
    // 2.4 billion is a multiple of 12 that lifts every `i32` above 0.
    let lifted: u64 = (note as i64 + 2_400_000_000) as u64;
    if note == 69 {
        LineKind::Concert
    } else if lifted % 12 == 0 {
        LineKind::Octave
    } else {
        LineKind::Plain
    }
}

/// The grid: one line for each whole note from `low` to `high`.
pub fn grid(low: Single, high: Single) -> (r: Vec<GridLine>)
    ensures
        r@ == grid_of(low, high),
{
    let first: i32 = low.ceil_i32();
    let last: i32 = high.floor_i32();
    let mut drawn: Vec<GridLine> = Vec::new();
    let mut note: i64 = first as i64;
    while note <= last as i64
        invariant
            first <= note,
            note <= last + 1 || note == first,
            drawn@ == lines(first as int, note - 1),
        decreases last + 1 - note,
    {
        drawn.push(GridLine { note: note as i32, kind: line_kind(note as i32) });
        note += 1;
        proof {
            assert(drawn@ =~= lines(first as int, note - 1));
        }
    }
    proof {
        assert(drawn@ =~= lines(first as int, last as int));
    }
    drawn
}

/// The rectangle that the plot and its scale fill.
#[derive(Clone, Copy, Debug, PartialEq, Eq, Structural)]
pub struct Area {
    pub left: Single,
    pub top: Single,
    pub right: Single,
    pub bottom: Single,
}

/// A place on the screen.
#[derive(Clone, Copy, Debug, PartialEq, Eq, Structural)]
pub struct Point {
    pub x: Single,
    pub y: Single,
}

/// Where the plot ends and the scale begins.
pub open spec fn edge_of(ops: Operations, area: Area) -> Single {
    (ops.minus)(area.right, Single { bits: SCALE_WIDTH })
}

/// The height of the pitch `midi` on the screen.
pub open spec fn y_of(ops: Operations, viewport: Viewport, area: Area, midi: Single) -> Single {
    let low = low_of(ops, viewport);
    let span = (ops.minus)(high_of(ops, viewport), low);
    (ops.minus)(
        area.bottom,
        (ops.times)(
            (ops.over)((ops.minus)(midi, low), span),
            (ops.minus)(area.bottom, area.top),
        ),
    )
}

/// Where on the screen frame `index` of the history is drawn, from left to right.
pub open spec fn x_of(ops: Operations, area: Area, index: usize) -> Single {
    let share = (ops.over)(
        (ops.of_u64)(index as u64),
        (ops.minus)((ops.of_u64)(HIST_LEN as u64), Single { bits: UNIT }),
    );
    (ops.plus)(area.left, (ops.times)(share, (ops.minus)(edge_of(ops, area), area.left)))
}

/// The pitch under the height `y`.
pub open spec fn pitch_under(
    ops: Operations,
    viewport: Viewport,
    area: Area,
    y: Single,
) -> Single {
    let low = low_of(ops, viewport);
    let share = (ops.over)((ops.minus)(area.bottom, y), (ops.minus)(area.bottom, area.top));
    (ops.plus)(low, (ops.times)(share, (ops.minus)(high_of(ops, viewport), low)))
}

/// The note under the height `y`, snapped to a semitone.
pub open spec fn note_under(
    ops: Operations,
    viewport: Viewport,
    area: Area,
    y: Single,
) -> Single {
    pitch_under(ops, viewport, area, y).spec_round()
}

/// Whether `s` is a whole number.
pub open spec fn is_whole(s: Single) -> bool {
    !s.nan() && s.units() % one() == 0
}

impl Area {
    /// Where the plot ends and the scale begins.
    pub fn edge<A: Arithmetic>(&self) -> (r: Single)
        ensures
            forall|ops: Operations|
                #[trigger] subtracts::<A>(ops) ==> r == edge_of(ops, *self),
    {
        A::minus(self.right, Single { bits: SCALE_WIDTH })
    }

    /// The height of the pitch `midi` on the screen.
    pub fn height_of<A: Arithmetic>(&self, viewport: &Viewport, midi: Single) -> (r: Single)
        ensures
            forall|ops: Operations|
                #[trigger] adds::<A>(ops) && #[trigger] subtracts::<A>(ops) &&
                #[trigger] multiplies::<A>(ops) && #[trigger] divides::<A>(ops)
                    ==> r == y_of(ops, *viewport, *self, midi),
    {
        let low: Single = viewport.low::<A>();
        let span: Single = A::minus(viewport.high::<A>(), low);
        A::minus(
            self.bottom,
            A::times(A::over(A::minus(midi, low), span), A::minus(self.bottom, self.top)),
        )
    }

    /// Where the pitch `midi` of frame `index` is drawn.
    pub fn place<A: Arithmetic>(&self, viewport: &Viewport, index: usize, midi: Single) -> (r:
        Point)
        ensures
            forall|ops: Operations|
                #[trigger] adds::<A>(ops) && #[trigger] subtracts::<A>(ops) &&
                #[trigger] multiplies::<A>(ops) && #[trigger] divides::<A>(ops) &&
                #[trigger] counts::<A>(ops) ==> r == (Point {
                    x: x_of(ops, *self, index),
                    y: y_of(ops, *viewport, *self, midi),
                }),
    {
        let share: Single = A::over(
            A::of_u64(index as u64),
            A::minus(A::of_u64(HIST_LEN as u64), Single { bits: UNIT }),
        );
        let x: Single = A::plus(
            self.left,
            A::times(share, A::minus(self.edge::<A>(), self.left)),
        );
        Point { x, y: self.height_of::<A>(viewport, midi) }
    }

    /// The note under the height `y`, snapped to a semitone.
    pub fn note_at<A: Arithmetic>(&self, viewport: &Viewport, y: Single) -> (r: Single)
        ensures
            forall|ops: Operations|
                #[trigger] adds::<A>(ops) && #[trigger] subtracts::<A>(ops) &&
                #[trigger] multiplies::<A>(ops) && #[trigger] divides::<A>(ops)
                    ==> r == note_under(ops, *viewport, *self, y),
            !r.nan() ==> is_whole(r),
    {
        let low: Single = viewport.low::<A>();
        let share: Single = A::over(A::minus(self.bottom, y), A::minus(self.bottom, self.top));
        let note: Single = A::plus(low, A::times(share, A::minus(viewport.high::<A>(), low)));
        proof {
            vstd::arithmetic::power2::lemma_pow2_pos(149);
            vstd::arithmetic::div_mod::lemma_mod_multiples_basic(
                note.nearest_whole(),
                one(),
            );
        }
        note.round()
    }
}

/// A note that is snapped to is a whole number, wherever the pointer lies at a pitch.
pub proof fn law_snapped_is_whole(ops: Operations, viewport: Viewport, area: Area, y: Single)
    requires
        !pitch_under(ops, viewport, area, y).nan(),
    ensures
        is_whole(note_under(ops, viewport, area, y)),
{
    let aimed = pitch_under(ops, viewport, area, y);
    law_round_fits(aimed);
    vstd::arithmetic::power2::lemma_pow2_pos(149);
    vstd::arithmetic::div_mod::lemma_mod_multiples_basic(aimed.nearest_whole(), one());
}

/// Any scroll keeps the centre a number: what [`Viewport::pan`] holds to its limits is
/// no NaN.
pub proof fn law_scroll_makes_no_nan(ops: Operations, center: Single, points: Single)
    requires
        nan_only_if_due(ops),
        within(center, CENTER_MIN, CENTER_MAX),
        !points.nan(),
    ensures
        !scrolled(ops, center, points).nan(),
{
    Single::law_key_order(center, Single { bits: CENTER_MAX });
    Single::law_key_order(Single { bits: CENTER_MIN }, center);
}

/// Any pinch keeps the range a number: what [`Viewport::zoom`] holds to its limits is no
/// NaN.
pub proof fn law_pinch_makes_no_nan(ops: Operations, range: Single, factor: Single)
    requires
        nan_only_if_due(ops),
        within(range, RANGE_MIN, RANGE_MAX),
        !factor.nan(),
    ensures
        !(ops.over)(range, factor).nan(),
{
    Single::law_key_order(range, Single { bits: RANGE_MAX });
    Single::law_key_order(Single { bits: RANGE_MIN }, range);
}

/// Whether `s` is a number of points that a screen can have: no more than `2^14`.
pub open spec fn on_screen(s: Single) -> bool {
    !s.nan() && size(s.units()) <= 0x4000 * one()
}

/// Whether the plot lies on the screen and is at least four points high.
pub open spec fn is_visible(area: Area) -> bool {
    &&& on_screen(area.top)
    &&& on_screen(area.bottom)
    &&& area.bottom.units() - area.top.units() >= 4 * one()
}

/// The notes at the edges of the view, and how far they are apart.
proof fn lemma_view(ops: Operations, viewport: Viewport)
    requires
        rounded(ops),
        viewport.in_limits(),
    ensures
        ({
            let low = low_of(ops, viewport);
            let high = high_of(ops, viewport);
            let span = (ops.minus)(high, low);
            &&& !low.nan()
            &&& !high.nan()
            &&& !span.nan()
            &&& -7 * one() <= low.units() <= 85 * one()
            &&& 35 * one() <= high.units() <= 127 * one()
            &&& 11 * one() <= span.units() <= 73 * one()
            &&& size(span.units() - (high.units() - low.units())) <= 32 * grain()
        }),
{
    let o = one();
    let u = grain();
    let six = Single { bits: HALF_OCTAVE };
    let center = viewport.spec_center();
    let range = viewport.spec_range();
    let half = (ops.times)(range, six);
    let low = low_of(ops, viewport);
    let high = high_of(ops, viewport);
    lemma_grain();
    vstd::arithmetic::power2::lemma2_to64();
    lemma_whole_pattern(six, 129, 6);
    lemma_whole_pattern(Single { bits: CENTER_MIN }, 131, 30);
    lemma_whole_pattern(Single { bits: CENTER_MAX }, 133, 90);
    lemma_whole_pattern(Single { bits: RANGE_MIN }, 127, 1);
    lemma_whole_pattern(Single { bits: RANGE_MAX }, 129, 6);
    let g = range.units();
    assert(size(g * (6 * o)) <= (36 * o) * o) by (nonlinear_arith)
        requires
            o <= g <= 6 * o,
            o > 0,
    ;
    lemma_product(ops, range, six, 36 * o, 8 * u);
    let w = half.units();
    assert(-(8 * u) <= w - 6 * g <= 8 * u) by (nonlinear_arith)
        requires
            size(w * o - g * (6 * o)) <= (8 * u) * o,
            o > 0,
    ;
    lemma_difference(ops, center, half, 90 * o, 32 * u);
    lemma_sum(ops, center, half, 127 * o, 32 * u);
    lemma_difference(ops, high, low, 73 * o, 32 * u);
}

/// The height of the plot.
proof fn lemma_height(ops: Operations, area: Area)
    requires
        rounded(ops),
        is_visible(area),
    ensures
        ({
            let height = (ops.minus)(area.bottom, area.top);
            &&& !height.nan()
            &&& 3 * one() <= height.units() <= 0x8001 * one()
        }),
{
    lemma_grain();
    lemma_difference(ops, area.bottom, area.top, 0x8000 * one(), 0x2000 * grain());
}

/// Wherever on the screen the pointer is, it lies at a pitch, so that the note it is
/// snapped to is a whole number.
pub proof fn law_pointer_at_pitch(ops: Operations, viewport: Viewport, area: Area, y: Single)
    requires
        rounded(ops),
        viewport.in_limits(),
        is_visible(area),
        on_screen(y),
    ensures
        !pitch_under(ops, viewport, area, y).nan(),
        is_whole(note_under(ops, viewport, area, y)),
{
    let o = one();
    let u = grain();
    let low = low_of(ops, viewport);
    let span = (ops.minus)(high_of(ops, viewport), low);
    let height = (ops.minus)(area.bottom, area.top);
    let back = (ops.minus)(area.bottom, y);
    let share = (ops.over)(back, height);
    let climb = (ops.times)(share, span);
    lemma_grain();
    lemma_view(ops, viewport);
    lemma_height(ops, area);
    lemma_difference(ops, area.bottom, y, 0x8000 * o, 0x2000 * u);
    let b = back.units();
    let h = height.units();
    assert(size(b * o) <= (0x8001 * o) * h) by (nonlinear_arith)
        requires
            size(b) <= 0x8001 * o,
            h >= o,
            o > 0,
    ;
    lemma_ratio(ops, back, height, 0x8001 * o, 0x2000 * u);
    let x = share.units();
    assert(size(x) <= 0x8002 * o) by (nonlinear_arith)
        requires
            size(x * h - b * o) <= (0x2000 * u) * h,
            size(b * o) <= (0x8001 * o) * h,
            0x2000 * u <= o,
            h > 0,
    ;
    let s = span.units();
    assert(size(x * s) <= (0x49_0000 * o) * o) by (nonlinear_arith)
        requires
            size(x) <= 0x8002 * o,
            0 <= s <= 73 * o,
            o > 0,
    ;
    lemma_product(ops, share, span, 0x49_0000 * o, 0x20_0000 * u);
    let c = climb.units();
    assert(size(c) <= 0x4a_0000 * o) by (nonlinear_arith)
        requires
            size(c * o - x * s) <= (0x20_0000 * u) * o,
            size(x * s) <= (0x49_0000 * o) * o,
            o == 0x20_0000 * u,
            o > 0,
    ;
    lemma_sum(ops, low, climb, 0x4b_0000 * o, 0x20_0000 * u);
    law_snapped_is_whole(ops, viewport, area, y);
}

/// Whether the pitch `midi`, drawn and then looked up at the height where it was
/// drawn, loses less than half a semitone to rounding: each step is `note` off at
/// most where it makes a pitch, `screen` where it makes a length on the screen, and
/// `share` where it makes a share of the view; all in units of `2^-149`.
pub open spec fn comes_back(
    ops: Operations,
    viewport: Viewport,
    area: Area,
    midi: Single,
    note: int,
    screen: int,
    share: int,
) -> bool {
    let low = low_of(ops, viewport);
    let span = (ops.minus)(high_of(ops, viewport), low);
    let height = (ops.minus)(area.bottom, area.top);
    let rise = (ops.minus)(midi, low);
    let part = (ops.over)(rise, span);
    let run = (ops.times)(part, height);
    let y = y_of(ops, viewport, area, midi);
    let back = (ops.minus)(area.bottom, y);
    let again = (ops.over)(back, height);
    let climb = (ops.times)(again, span);
    let s = span.units();
    let h = height.units();
    &&& s > 0
    &&& h > 0
    &&& !pitch_under(ops, viewport, area, y).nan()
    &&& close(rise.units(), midi.units() - low.units(), note)
    &&& close(part.units() * s, rise.units() * one(), share * s)
    &&& close(run.units() * one(), part.units() * h, screen * one())
    &&& close(y.units(), area.bottom.units() - run.units(), screen)
    &&& close(back.units(), area.bottom.units() - y.units(), screen)
    &&& close(again.units() * h, back.units() * one(), share * h)
    &&& close(climb.units() * one(), again.units() * s, note * one())
    &&& close(
        pitch_under(ops, viewport, area, y).units(),
        low.units() + climb.units(),
        note,
    )
    &&& 2 * (2 * (share * s * h) + 3 * (note * one() * h) + 3 * (screen * one() * s)) < one()
        * one() * h
}

/// The steps of drawing and looking up, put together: `o` stands for one, `s` and `h`
/// for the span of notes and the height.
proof fn lemma_comes_back(
    o: int,
    s: int,
    h: int,
    low: int,
    bottom: int,
    midi: int,
    rise: int,
    part: int,
    run: int,
    y: int,
    back: int,
    again: int,
    climb: int,
    found: int,
    note: int,
    screen: int,
    share: int,
)
    requires
        o > 0,
        s > 0,
        h > 0,
        close(rise, midi - low, note),
        close(part * s, rise * o, share * s),
        close(run * o, part * h, screen * o),
        close(y, bottom - run, screen),
        close(back, bottom - y, screen),
        close(again * h, back * o, share * h),
        close(climb * o, again * s, note * o),
        close(found, low + climb, note),
        2 * (2 * (share * s * h) + 3 * (note * o * h) + 3 * (screen * o * s)) < o * o * h,
    ensures
        -o < 2 * (found - midi) < o,
{
    // How far the share read back lies from the share drawn, times the height.
    let x = (again - part) * h;
    assert(x == again * h - part * h) by (nonlinear_arith)
        requires
            x == (again - part) * h,
    ;
    let d = back - run;
    assert(-2 * screen <= d <= 2 * screen);
    assert(d * o == back * o - run * o) by (nonlinear_arith)
        requires
            d == back - run,
    ;
    assert(-2 * (screen * o) <= d * o <= 2 * (screen * o)) by (nonlinear_arith)
        requires
            -2 * screen <= d <= 2 * screen,
            o > 0,
    ;
    let xmax = 3 * (screen * o) + share * h;
    assert(-xmax <= x <= xmax);
    assert(-(xmax * s) <= x * s <= xmax * s) by (nonlinear_arith)
        requires
            -xmax <= x <= xmax,
            s > 0,
    ;
    assert(xmax * s == 3 * (screen * o * s) + share * s * h) by (nonlinear_arith)
        requires
            xmax == 3 * (screen * o) + share * h,
    ;
    // How far the pitch read back lies from the pitch drawn, times one and the height.
    let a = part * s - rise * o;
    let b = climb * o - again * s;
    let e = (found - low - climb) + (rise - midi + low);
    assert(-2 * note <= e <= 2 * note);
    let f = found - midi;
    assert(f * o == a + b + (again * s - part * s) + e * o) by (nonlinear_arith)
        requires
            a == part * s - rise * o,
            b == climb * o - again * s,
            e == found - climb + rise - midi,
            f == found - midi,
    ;
    assert((again * s - part * s) * h == x * s) by (nonlinear_arith)
        requires
            x == (again - part) * h,
    ;
    let g = a + b;
    assert(f * o * h == g * h + x * s + e * o * h) by (nonlinear_arith)
        requires
            f * o == g + (again * s - part * s) + e * o,
            (again * s - part * s) * h == x * s,
    ;
    let gmax = share * s + note * o;
    assert(-gmax <= g <= gmax);
    assert(-(gmax * h) <= g * h <= gmax * h) by (nonlinear_arith)
        requires
            -gmax <= g <= gmax,
            h > 0,
    ;
    assert(gmax * h == share * s * h + note * o * h) by (nonlinear_arith)
        requires
            gmax == share * s + note * o,
    ;
    assert(o * h > 0) by (nonlinear_arith)
        requires
            o > 0,
            h > 0,
    ;
    let w = o * h;
    assert(-2 * (note * w) <= e * w <= 2 * (note * w)) by (nonlinear_arith)
        requires
            -2 * note <= e <= 2 * note,
            w > 0,
    ;
    assert(e * o * h == e * w && note * o * h == note * w && f * o * h == f * w && o * o * h == o
        * w) by (nonlinear_arith)
        requires
            w == o * h,
    ;
    assert(2 * (f * w) < o * w && -(o * w) < 2 * (f * w));
    assert(-o < 2 * f < o) by (nonlinear_arith)
        requires
            2 * (f * w) < o * w,
            -(o * w) < 2 * (f * w),
            w > 0,
    ;
}

/// Looking up undoes drawing: the note under the height at which a whole note is
/// drawn is that note.
pub proof fn law_lookup_undoes_drawing(
    ops: Operations,
    viewport: Viewport,
    area: Area,
    midi: Single,
    note: int,
    screen: int,
    share: int,
)
    requires
        is_whole(midi),
        comes_back(ops, viewport, area, midi, note, screen, share),
    ensures
        note_under(ops, viewport, area, y_of(ops, viewport, area, midi)).equals(midi),
{
    let low = low_of(ops, viewport);
    let span = (ops.minus)(high_of(ops, viewport), low);
    let height = (ops.minus)(area.bottom, area.top);
    let rise = (ops.minus)(midi, low);
    let part = (ops.over)(rise, span);
    let run = (ops.times)(part, height);
    let y = y_of(ops, viewport, area, midi);
    let back = (ops.minus)(area.bottom, y);
    let again = (ops.over)(back, height);
    let climb = (ops.times)(again, span);
    let found = pitch_under(ops, viewport, area, y);
    vstd::arithmetic::power2::lemma_pow2_pos(149);
    lemma_comes_back(
        one(),
        span.units(),
        height.units(),
        low.units(),
        area.bottom.units(),
        midi.units(),
        rise.units(),
        part.units(),
        run.units(),
        y.units(),
        back.units(),
        again.units(),
        climb.units(),
        found.units(),
        note,
        screen,
        share,
    );
    let n = midi.units() / one();
    vstd::arithmetic::div_mod::lemma_fundamental_div_mod(midi.units(), one());
    vstd::arithmetic::mul::lemma_mul_is_commutative(one(), n);
    law_nearest_unique(found, n);
    law_round_fits(found);
}

/// How far a step that makes a length on the screen can be off, in a plot of the height
/// `h` on the screen.
pub open spec fn screen_slack(h: int) -> int {
    (4 * h + 0x8000 * one()) / 0x100_0000 + 2
}

/// A grid line comes back: a whole note in view, drawn and then looked up at the height
/// where it was drawn, loses less than half a semitone to rounding.
pub proof fn law_grid_line_comes_back(
    ops: Operations,
    viewport: Viewport,
    area: Area,
    midi: Single,
)
    requires
        rounded(ops),
        viewport.in_limits(),
        is_visible(area),
        !midi.nan(),
        low_of(ops, viewport).units() <= midi.units() <= high_of(ops, viewport).units(),
    ensures
        comes_back(
            ops,
            viewport,
            area,
            midi,
            64 * grain(),
            screen_slack((ops.minus)(area.bottom, area.top).units()),
            grain(),
        ),
{
    let o = one();
    let u = grain();
    let low = low_of(ops, viewport);
    let span = (ops.minus)(high_of(ops, viewport), low);
    let height = (ops.minus)(area.bottom, area.top);
    let rise = (ops.minus)(midi, low);
    let part = (ops.over)(rise, span);
    let run = (ops.times)(part, height);
    let y = y_of(ops, viewport, area, midi);
    let back = (ops.minus)(area.bottom, y);
    let again = (ops.over)(back, height);
    let climb = (ops.times)(again, span);
    let s = span.units();
    let h = height.units();
    let slack = screen_slack(h);
    lemma_grain();
    lemma_view(ops, viewport);
    lemma_height(ops, area);
    assert(4 * h + 0x8000 * o + 0x100_0000 <= slack * 0x100_0000 <= 4 * h + 0x8000 * o
        + 0x200_0000);
    assert(2 * (438 * slack) <= h);
    lemma_difference(ops, midi, low, 74 * o, 16 * u);
    let a = rise.units();
    assert(size(a) <= 2 * s);
    assert(size(a * o) <= (2 * o) * s) by (nonlinear_arith)
        requires
            size(a) <= 2 * s,
            o > 0,
    ;
    lemma_ratio(ops, rise, span, 2 * o, u);
    let p = part.units();
    assert(size(p) <= 3 * o) by (nonlinear_arith)
        requires
            size(p * s - a * o) <= u * s,
            size(a * o) <= (2 * o) * s,
            u <= o,
            s > 0,
    ;
    assert(size(p * h) <= (3 * h) * o) by (nonlinear_arith)
        requires
            size(p) <= 3 * o,
            h > 0,
    ;
    lemma_product(ops, part, height, 3 * h, slack);
    let r = run.units();
    assert(size(r) <= 3 * h + slack) by (nonlinear_arith)
        requires
            size(r * o - p * h) <= slack * o,
            size(p * h) <= (3 * h) * o,
            o > 0,
    ;
    lemma_difference(ops, area.bottom, run, 0x4000 * o + 3 * h + slack, slack);
    lemma_difference(ops, area.bottom, y, 3 * h + 2 * slack, slack);
    let b = back.units();
    assert(size(b) <= 4 * h);
    assert(size(b * o) <= (4 * o) * h) by (nonlinear_arith)
        requires
            size(b) <= 4 * h,
            o > 0,
    ;
    lemma_ratio(ops, back, height, 4 * o, u);
    let x = again.units();
    assert(size(x) <= 5 * o) by (nonlinear_arith)
        requires
            size(x * h - b * o) <= u * h,
            size(b * o) <= (4 * o) * h,
            u <= o,
            h > 0,
    ;
    assert(size(x * s) <= (365 * o) * o) by (nonlinear_arith)
        requires
            size(x) <= 5 * o,
            0 <= s <= 73 * o,
            o > 0,
    ;
    lemma_product(ops, again, span, 365 * o, 64 * u);
    let c = climb.units();
    assert(size(c) <= 366 * o) by (nonlinear_arith)
        requires
            size(c * o - x * s) <= (64 * u) * o,
            size(x * s) <= (365 * o) * o,
            64 * u <= o,
            o > 0,
    ;
    lemma_sum(ops, low, climb, 452 * o, 64 * u);
    lemma_slack_suffices(o, u, s, h, slack);
}

/// The slack of all steps together is less than half a semitone.
proof fn lemma_slack_suffices(o: int, u: int, s: int, h: int, slack: int)
    requires
        u > 0,
        o == 0x20_0000 * u,
        0 <= s <= 73 * o,
        h > 0,
        slack >= 0,
        2 * (438 * slack) <= h,
    ensures
        2 * (2 * (u * s * h) + 3 * ((64 * u) * o * h) + 3 * (slack * o * s)) < o * o * h,
{
    let k = u * o * h;
    assert(k > 0) by (nonlinear_arith)
        requires
            u > 0,
            o > 0,
            h > 0,
            k == u * o * h,
    ;
    assert(u * s * h <= 73 * k) by (nonlinear_arith)
        requires
            s <= 73 * o,
            u > 0,
            h > 0,
            k == u * o * h,
    ;
    assert((64 * u) * o * h == 64 * k) by (nonlinear_arith)
        requires
            k == u * o * h,
    ;
    assert(o * o * h == 0x20_0000 * k) by (nonlinear_arith)
        requires
            k == u * o * h,
            o == 0x20_0000 * u,
    ;
    let q = slack * o * o;
    assert(slack * o * s <= 73 * q) by (nonlinear_arith)
        requires
            s <= 73 * o,
            slack >= 0,
            o > 0,
            q == slack * o * o,
    ;
    assert(876 * q <= o * o * h) by (nonlinear_arith)
        requires
            876 * slack <= h,
            q == slack * o * o,
            o > 0,
    ;
}

/// The pointer undoes the drawing of the grid: the note under the height at which the
/// line of a whole note in view is drawn is that note.
pub proof fn law_pointer_finds_line(
    ops: Operations,
    viewport: Viewport,
    area: Area,
    midi: Single,
)
    requires
        rounded(ops),
        viewport.in_limits(),
        is_visible(area),
        is_whole(midi),
        low_of(ops, viewport).units() <= midi.units() <= high_of(ops, viewport).units(),
    ensures
        note_under(ops, viewport, area, y_of(ops, viewport, area, midi)).equals(midi),
{
    let slack = screen_slack((ops.minus)(area.bottom, area.top).units());
    law_grid_line_comes_back(ops, viewport, area, midi);
    law_lookup_undoes_drawing(ops, viewport, area, midi, 64 * grain(), slack, grain());
}

/// The grid has a line for a note if and only if the note is in view.
pub proof fn law_grid_covers_view(low: Single, high: Single, note: i32)
    requires
        !low.nan(),
        !high.nan(),
        low.ceil_whole() <= i32::MAX,
        i32::MIN <= high.floor_whole(),
    ensures
        grid_of(low, high).contains(GridLine { note, kind: kind_of(note as int) })
            <==> low.units() <= note * one() <= high.units(),
{
    let unit = one();
    let first = low.cast(low.ceil_whole(), i32::MIN as int, i32::MAX as int);
    let last = high.cast(high.floor_whole(), i32::MIN as int, i32::MAX as int);
    let n = note as int;
    vstd::arithmetic::power2::lemma_pow2_pos(149);
    lemma_floor(high.units(), unit, n);
    lemma_floor(-low.units(), unit, -n);
    assert((-n) * unit == -(n * unit)) by (nonlinear_arith);
    if first <= n <= last {
        assert(grid_of(low, high)[n - first] == (GridLine { note, kind: kind_of(n) }));
    }
}

/// A whole number is at most a quotient if and only if its multiple is at most
/// the dividend.
proof fn lemma_floor(x: int, d: int, n: int)
    requires
        d > 0,
    ensures
        n <= x / d <==> n * d <= x,
{
    let q = x / d;
    vstd::arithmetic::div_mod::lemma_fundamental_div_mod(x, d);
    vstd::arithmetic::div_mod::lemma_mod_bound(x, d);
    assert(n <= q ==> n * d <= q * d) by (nonlinear_arith)
        requires
            d > 0,
    ;
    assert(n >= q + 1 ==> n * d >= q * d + d) by (nonlinear_arith)
        requires
            d > 0,
    ;
    assert(d * q == q * d) by (nonlinear_arith);
}

/// The view is twelve semitones wide per octave of range, and the centre is in its middle.
pub proof fn law_view_around_center(ops: Operations, viewport: Viewport)
    requires
        rounded(ops),
        viewport.in_limits(),
    ensures
        ({
            let low = low_of(ops, viewport).units();
            let high = high_of(ops, viewport).units();
            &&& size(high - low - 12 * viewport.spec_range().units()) <= 80 * grain()
            &&& size(high + low - 2 * viewport.spec_center().units()) <= 64 * grain()
        }),
{
    let o = one();
    let u = grain();
    let six = Single { bits: HALF_OCTAVE };
    let center = viewport.spec_center();
    let range = viewport.spec_range();
    let half = (ops.times)(range, six);
    lemma_grain();
    vstd::arithmetic::power2::lemma2_to64();
    lemma_whole_pattern(six, 129, 6);
    lemma_whole_pattern(Single { bits: CENTER_MIN }, 131, 30);
    lemma_whole_pattern(Single { bits: CENTER_MAX }, 133, 90);
    lemma_whole_pattern(Single { bits: RANGE_MIN }, 127, 1);
    lemma_whole_pattern(Single { bits: RANGE_MAX }, 129, 6);
    let g = range.units();
    assert(size(g * (6 * o)) <= (36 * o) * o) by (nonlinear_arith)
        requires
            o <= g <= 6 * o,
            o > 0,
    ;
    lemma_product(ops, range, six, 36 * o, 8 * u);
    let w = half.units();
    assert(-(8 * u) <= w - 6 * g <= 8 * u) by (nonlinear_arith)
        requires
            size(w * o - g * (6 * o)) <= (8 * u) * o,
            o > 0,
    ;
    lemma_difference(ops, center, half, 90 * o, 32 * u);
    lemma_sum(ops, center, half, 127 * o, 32 * u);
}

/// The plot is to scale: a pitch in view is drawn as far above the bottom, against the
/// height of the plot, as it lies above the lowest note, against the notes in view. So the
/// lowest note is at the bottom and the highest at the top. It is so to a fifth of a point.
pub proof fn law_height_to_scale(ops: Operations, viewport: Viewport, area: Area, midi: Single)
    requires
        rounded(ops),
        viewport.in_limits(),
        is_visible(area),
        !midi.nan(),
        low_of(ops, viewport).units() <= midi.units() <= high_of(ops, viewport).units(),
    ensures
        ({
            let low = low_of(ops, viewport).units();
            let high = high_of(ops, viewport).units();
            let y = y_of(ops, viewport, area, midi);
            let rise = (area.bottom.units() - y.units()) * (high - low);
            let share = (midi.units() - low) * (area.bottom.units() - area.top.units());
            &&& !y.nan()
            &&& 5 * size(rise - share) <= one() * (high - low)
        }),
{
    let o = one();
    let u = grain();
    let low = low_of(ops, viewport);
    let high = high_of(ops, viewport);
    let span = (ops.minus)(high, low);
    let rise = (ops.minus)(midi, low);
    let share = (ops.over)(rise, span);
    let height = (ops.minus)(area.bottom, area.top);
    let climb = (ops.times)(share, height);
    lemma_grain();
    lemma_view(ops, viewport);
    lemma_height(ops, area);
    lemma_difference(ops, area.bottom, area.top, 0x8000 * o, 0x1800 * u);
    lemma_difference(ops, midi, low, 134 * o, 32 * u);
    let s = span.units();
    let r = rise.units();
    let h = height.units();
    assert(size(r * o) <= (2 * o) * s) by (nonlinear_arith)
        requires
            size(r) <= 2 * s,
            o > 0,
    ;
    lemma_ratio(ops, rise, span, 2 * o, u);
    let q = share.units();
    assert(-o <= q <= 2 * o) by (nonlinear_arith)
        requires
            size(q * s - r * o) <= u * s,
            -(32 * u) <= r <= s + 64 * u,
            s >= 11 * o,
            o == 0x20_0000 * u,
            u > 0,
    ;
    lemma_share(q, s, r, o, u);
    assert(size(q * h) <= (0x8010 * o) * o) by (nonlinear_arith)
        requires
            -(64 * u) <= q <= o + 64 * u,
            0 <= h <= 0x8001 * o,
            o == 0x20_0000 * u,
            u > 0,
    ;
    lemma_product(ops, share, height, 0x8010 * o, 0x1800 * u);
    let c = climb.units();
    assert(size(c) <= 0x8011 * o) by (nonlinear_arith)
        requires
            size(c * o - q * h) <= (0x1800 * u) * o,
            size(q * h) <= (0x8010 * o) * o,
            o == 0x20_0000 * u,
            u > 0,
    ;
    lemma_difference(ops, area.bottom, climb, 0xc011 * o, 0x2000 * u);
    let d = area.bottom.units() - y_of(ops, viewport, area, midi).units();
    assert(size(d - c) <= 0x2000 * u);
    lemma_to_scale(
        d,
        c,
        q,
        s,
        r,
        h,
        high.units() - low.units(),
        midi.units() - low.units(),
        area.bottom.units() - area.top.units(),
    );
}

/// A share of a whole, from 0 to 1, up to rounding.
proof fn lemma_share(q: int, s: int, r: int, o: int, u: int)
    requires
        size(q * s - r * o) <= u * s,
        -(32 * u) <= r <= s + 64 * u,
        s >= 11 * o,
        o > 0,
        u > 0,
    ensures
        -(64 * u) <= q <= o + 64 * u,
{
    assert(r * o <= s * o + (64 * u) * o && r * o >= -(32 * u) * o) by (nonlinear_arith)
        requires
            -(32 * u) <= r <= s + 64 * u,
            o > 0,
    ;
    let us = u * s;
    let uo = u * o;
    assert((64 * u) * o == 64 * uo && -(32 * u) * o == -32 * uo && (6 * u) * s == 6 * us && -(6
        * u) * s == -6 * us && 11 * uo <= us && uo > 0) by (nonlinear_arith)
        requires
            us == u * s,
            uo == u * o,
            s >= 11 * o,
            o > 0,
            u > 0,
    ;
    assert(q * s <= (o + 7 * u) * s && q * s >= -(7 * u) * s) by (nonlinear_arith)
        requires
            q * s <= s * o + (6 * u) * s + u * s,
            q * s >= -(6 * u) * s - u * s,
    ;
    assert(q <= o + 7 * u && q >= -(7 * u)) by (nonlinear_arith)
        requires
            q * s <= (o + 7 * u) * s,
            q * s >= -(7 * u) * s,
            s > 0,
    ;
}

/// What rounding takes of a height, added up.
proof fn lemma_to_scale(
    d: int,
    c: int,
    q: int,
    s: int,
    r: int,
    h: int,
    wide: int,
    part: int,
    tall: int,
)
    requires
        size(d - c) <= 0x2000 * grain(),
        size(c * one() - q * h) <= (0x1800 * grain()) * one(),
        size(q * s - r * one()) <= grain() * s,
        size(s - wide) <= 32 * grain(),
        size(r - part) <= 32 * grain(),
        size(h - tall) <= 0x1800 * grain(),
        11 * one() <= s <= 73 * one(),
        0 <= part <= 134 * one(),
        0 <= h <= 0x8001 * one(),
        size(c) <= 0x8011 * one(),
    ensures
        5 * size(d * wide - part * tall) <= one() * wide,
{
    lemma_grain();
    let o = one();
    let u = grain();
    // d * wide to d * s, to c * s
    assert(size(d * wide - d * s) <= 32 * u * (0x8012 * o)) by (nonlinear_arith)
        requires
            size(s - wide) <= 32 * u,
            size(d) <= 0x8012 * o,
            u > 0,
            o > 0,
    ;
    assert(size(d * s - c * s) <= 0x2000 * u * s) by (nonlinear_arith)
        requires
            size(d - c) <= 0x2000 * u,
            s > 0,
    ;
    // c * s * o to q * h * s, to r * o * h
    assert(size((c * s) * o - (q * s) * h) <= 0x1800 * u * s * o) by (nonlinear_arith)
        requires
            size(c * o - q * h) <= (0x1800 * u) * o,
            s > 0,
    ;
    assert(size((q * s) * h - (r * h) * o) <= u * s * (0x8001 * o)) by (nonlinear_arith)
        requires
            size(q * s - r * o) <= u * s,
            0 <= h <= 0x8001 * o,
            u > 0,
            s > 0,
    ;
    assert(size(c * s - r * h) <= 0x9801 * u * s) by (nonlinear_arith)
        requires
            size((c * s) * o - (r * h) * o) <= 0x1800 * u * s * o + u * s * (0x8001 * o),
            o > 0,
    ;
    // r * h to part * h, to part * tall
    assert(size(r * h - part * h) <= 32 * u * (0x8001 * o)) by (nonlinear_arith)
        requires
            size(r - part) <= 32 * u,
            0 <= h <= 0x8001 * o,
            u > 0,
    ;
    assert(size(part * h - part * tall) <= 0x1800 * u * (134 * o)) by (nonlinear_arith)
        requires
            size(h - tall) <= 0x1800 * u,
            0 <= part <= 134 * o,
            u > 0,
    ;
    let us = u * s;
    let uo = u * o;
    assert(32 * u * (0x8012 * o) == 0x10_0240 * uo && 0x2000 * u * s == 0x2000 * us && 0x9801 * u
        * s == 0x9801 * us && 32 * u * (0x8001 * o) == 0x10_0020 * uo && 0x1800 * u * (134 * o)
        == 0xc_9000 * uo) by (nonlinear_arith)
        requires
            us == u * s,
            uo == u * o,
    ;
    assert(11 * uo <= us) by (nonlinear_arith)
        requires
            us == u * s,
            uo == u * o,
            11 * o <= s,
            u > 0,
    ;
    assert(o * wide >= 0x20_0000 * us - 32 * uo) by (nonlinear_arith)
        requires
            us == u * s,
            uo == u * o,
            wide >= s - 32 * u,
            o == 0x20_0000 * u,
            u > 0,
    ;
}

/// The plot ends fifty points before the right edge.
pub proof fn law_scale_is_fifty_wide(ops: Operations, area: Area)
    requires
        rounded(ops),
        on_screen(area.right),
    ensures
        !edge_of(ops, area).nan(),
        512 * size(edge_of(ops, area).units() - (area.right.units() - 50 * one())) <= one(),
{
    lemma_grain();
    vstd::arithmetic::power2::lemma2_to64();
    lemma_whole_pattern(Single { bits: SCALE_WIDTH }, 132, 50);
    lemma_difference(
        ops,
        area.right,
        Single { bits: SCALE_WIDTH },
        0x4032 * one(),
        0x1000 * grain(),
    );
}

/// Time runs evenly from left to right: the oldest frame is at the left, the newest at the
/// edge of the plot, and each of the others as far between as it is old. It is so to a
/// 32nd of a point.
pub proof fn law_time_to_scale(ops: Operations, area: Area, index: usize)
    requires
        rounded(ops),
        faithful(ops),
        counts_rounded(ops),
        on_screen(area.left),
        on_screen(area.right),
        index < HIST_LEN,
    ensures
        ({
            let x = x_of(ops, area, index);
            let width = edge_of(ops, area).units() - area.left.units();
            &&& !x.nan()
            &&& 32 * size((HIST_LEN - 1) * (x.units() - area.left.units()) - index * width)
                <= (HIST_LEN - 1) * one()
        }),
{
    let o = one();
    let u = grain();
    let i = index as int;
    let at = (ops.of_u64)(index as u64);
    let all = (ops.of_u64)(HIST_LEN as u64);
    let first = Single { bits: UNIT };
    let last = (ops.minus)(all, first);
    let share = (ops.over)(at, last);
    let edge = edge_of(ops, area);
    let wide = (ops.minus)(edge, area.left);
    let shift = (ops.times)(share, wide);
    lemma_grain();
    vstd::arithmetic::power2::lemma2_to64();
    lemma_whole_pattern(first, 127, 1);
    law_scale_is_fifty_wide(ops, area);
    let before = (ops.of_u64)(799);
    assert(before.units() == 799 * o && all.units() == 800 * o && at.units() == i * o);
    lemma_moderate_finite(before);
    lemma_moderate_finite(all);
    assert(hits(last, before));
    assert(0 <= i * o <= 799 * o) by (nonlinear_arith)
        requires
            0 <= i <= 799,
            o > 0,
    ;
    assert((i * o) * o <= o * (799 * o) && (i * o) * o >= 0) by (nonlinear_arith)
        requires
            0 <= i <= 799,
            o > 0,
    ;
    lemma_ratio(ops, at, last, o, u);
    let q = share.units();
    assert(size(799 * q - i * o) <= 799 * u) by (nonlinear_arith)
        requires
            size(q * (799 * o) - (i * o) * o) <= u * (799 * o),
            o > 0,
    ;
    lemma_difference(ops, edge, area.left, 0x8033 * o, 0x1800 * u);
    let w = wide.units();
    assert(size(q * w) <= (0x8040 * o) * o) by (nonlinear_arith)
        requires
            -u <= q <= o + u,
            size(w) <= 0x8034 * o,
            o == 0x20_0000 * u,
            u > 0,
    ;
    lemma_product(ops, share, wide, 0x8040 * o, 0x1800 * u);
    let c = shift.units();
    assert(size(c) <= 0x8041 * o) by (nonlinear_arith)
        requires
            size(c * o - q * w) <= (0x1800 * u) * o,
            size(q * w) <= (0x8040 * o) * o,
            o == 0x20_0000 * u,
            u > 0,
    ;
    lemma_sum(ops, area.left, shift, 0xc041 * o, 0x2000 * u);
    let x = x_of(ops, area, index).units() - area.left.units();
    let width = edge.units() - area.left.units();
    assert(size((799 * q) * w - (i * w) * o) <= 799 * u * (0x8034 * o)) by (nonlinear_arith)
        requires
            size(799 * q - i * o) <= 799 * u,
            size(w) <= 0x8034 * o,
            u > 0,
            o > 0,
    ;
    assert((799 * q) * w == 799 * (q * w)) by (nonlinear_arith);
    assert(size(799 * c - i * w) <= 799 * (0x9834 * u)) by (nonlinear_arith)
        requires
            size(799 * (c * o) - 799 * (q * w)) <= 799 * ((0x1800 * u) * o),
            size(799 * (q * w) - (i * w) * o) <= 799 * u * (0x8034 * o),
            o > 0,
    ;
    assert(size(i * w - i * width) <= 799 * (0x1800 * u)) by (nonlinear_arith)
        requires
            size(w - width) <= 0x1800 * u,
            0 <= i <= 799,
            u > 0,
    ;
    let right = i * width;
    assert(size(799 * x - right) <= 799 * (0xd034 * u));
}

/// A scroll of fifty points moves the centre by a semitone.
pub proof fn law_scroll_fifty_to_semitone(ops: Operations, center: Single, points: Single)
    requires
        rounded(ops),
        within(center, CENTER_MIN, CENTER_MAX),
        on_screen(points),
    ensures
        !scrolled(ops, center, points).nan(),
        256 * size(
            50 * (scrolled(ops, center, points).units() - center.units()) - points.units(),
        ) <= one(),
{
    let o = one();
    let u = grain();
    let step = Single { bits: SCROLL };
    lemma_grain();
    vstd::arithmetic::power2::lemma2_to64();
    lemma_whole_pattern(Single { bits: CENTER_MIN }, 131, 30);
    lemma_whole_pattern(Single { bits: CENTER_MAX }, 133, 90);
    vstd::arithmetic::power2::lemma_pow2_adds(29, 120);
    vstd::arithmetic::power2::lemma_pow2_adds(8, 120);
    vstd::arithmetic::power2::lemma_pow2_pos(120);
    let p = vstd::arithmetic::power2::pow2(120) as int;
    let k = step.units();
    assert(k == 0xa3_d70a * p && u == 256 * p && o == 0x2000_0000 * p);
    let x = points.units();
    assert(size(x * k) <= (330 * o) * o) by (nonlinear_arith)
        requires
            size(x) <= 0x4000 * o,
            0 <= 50 * k <= o,
    ;
    lemma_product(ops, points, step, 330 * o, 64 * u);
    let m = (ops.times)(points, step).units();
    assert(size(x * (50 * k) - x * o) <= (768 * u) * o) by (nonlinear_arith)
        requires
            size(x) <= 0x4000 * o,
            50 * k == o - 12 * p,
            u == 256 * p,
            p > 0,
            o > 0,
    ;
    assert(size(50 * m - x) <= 3968 * u) by (nonlinear_arith)
        requires
            size(m * o - x * k) <= (64 * u) * o,
            size(x * (50 * k) - x * o) <= (768 * u) * o,
            o > 0,
    ;
    lemma_sum(ops, center, (ops.times)(points, step), 500 * o, 64 * u);
}

/// The limits of the range, as numbers.
proof fn lemma_limits()
    ensures
        one() > 0,
        (Single { bits: RANGE_MIN }).units() == one(),
        (Single { bits: RANGE_MAX }).units() == 6 * one(),
        (Single { bits: UNIT }).units() == one(),
{
    vstd::arithmetic::power2::lemma2_to64();
    vstd::arithmetic::power2::lemma_pow2_pos(149);
    lemma_whole_pattern(Single { bits: RANGE_MIN }, 127, 1);
    lemma_whole_pattern(Single { bits: RANGE_MAX }, 129, 6);
}

/// A pinch by a factor makes the range smaller by that factor, up to rounding.
pub proof fn law_pinch_divides(ops: Operations, range: Single, factor: Single)
    requires
        rounded(ops),
        within(range, RANGE_MIN, RANGE_MAX),
        is_pinch(factor),
    ensures
        !(ops.over)(range, factor).nan(),
        size((ops.over)(range, factor).units() * factor.units() - range.units() * one())
            * 0x10_0000 <= range.units() * one(),
{
    let o = one();
    let f = factor.units();
    let g = range.units();
    lemma_grain();
    lemma_limits();
    let r = (ops.over)(range, factor);
    assert(rounds(r, g * o, f));
    assert(0x100_0000 * f <= g * o) by (nonlinear_arith)
        requires
            f <= 16 * o,
            g >= o,
            o >= 0x1_0000_0000,
    ;
}

/// Which lines stand out: that of concert A, and those of the notes that are whole octaves
/// from note 0.
pub proof fn law_lines_that_stand_out(note: int, octave: int)
    ensures
        kind_of(note) == LineKind::Concert <==> note == 69,
        kind_of(12 * octave) == LineKind::Octave,
        12 * octave < note < 12 * octave + 12 ==> kind_of(note) != LineKind::Octave,
{
}

/// The lines of the grid are in order, one for each semitone.
pub proof fn law_grid_in_order(low: Single, high: Single, i: int)
    requires
        0 <= i < grid_of(low, high).len() - 1,
    ensures
        grid_of(low, high)[i + 1].note == grid_of(low, high)[i].note + 1,
        grid_of(low, high)[i].kind == kind_of(grid_of(low, high)[i].note as int),
        grid_of(low, high)[i + 1].kind == kind_of(grid_of(low, high)[i + 1].note as int),
{
}

/// The presets are what their buttons say.
pub proof fn law_presets(center: int, range: int)
    requires
        0 <= center < 5,
        0 <= range < 4,
    ensures
        (Single { bits: CENTER_PRESETS@[center] }).units() == CENTER_NOTES@[center] * one(),
        (Single { bits: RANGE_PRESETS@[range] }).units() == RANGE_OCTAVES@[range] * one(),
{
    vstd::arithmetic::power2::lemma2_to64();
    lemma_whole_pattern(Single { bits: 0x4240_0000 }, 132, 48);
    lemma_whole_pattern(Single { bits: 0x425c_0000 }, 132, 55);
    lemma_whole_pattern(Single { bits: 0x4270_0000 }, 132, 60);
    lemma_whole_pattern(Single { bits: 0x4286_0000 }, 133, 67);
    lemma_whole_pattern(Single { bits: 0x4290_0000 }, 133, 72);
    lemma_whole_pattern(Single { bits: 0x4000_0000 }, 128, 2);
    lemma_whole_pattern(Single { bits: 0x4040_0000 }, 128, 3);
    lemma_whole_pattern(Single { bits: 0x4080_0000 }, 129, 4);
    lemma_whole_pattern(Single { bits: 0x40a0_0000 }, 129, 5);
}

} // verus!
