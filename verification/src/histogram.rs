//! The note histogram: which notes a recording holds, the most frequent first.
use vstd::prelude::*;
use crate::single::Single;

verus! {

/// The most rows that the histogram has.
pub const HISTOGRAM_ROWS: usize = 8;

/// A note, and in how many frames it occurs.
#[derive(Clone, Copy, Debug, PartialEq, Eq, Structural)]
pub struct Tally {
    pub note: i32,
    pub frames: usize,
}

/// How often `note` occurs in `notes`.
pub open spec fn occurrences(notes: Seq<i32>, note: i32) -> nat
    decreases notes.len(),
{
    if notes.len() == 0 {
        0
    } else {
        occurrences(notes.drop_last(), note) + (if notes.last() == note {
            1nat
        } else {
            0
        })
    }
}

/// Whether `a` comes before `b`: it occurs more often, or as often and is lower.
pub open spec fn ahead(notes: Seq<i32>, a: i32, b: i32) -> bool {
    ||| occurrences(notes, a) > occurrences(notes, b)
    ||| occurrences(notes, a) == occurrences(notes, b) && a < b
}

/// Whether `note` has a row.
pub open spec fn has_row(rows: Seq<Tally>, note: i32) -> bool {
    exists|i: int| 0 <= i < rows.len() && (#[trigger] rows[i]).note == note
}

/// Whether each row says how often its note occurs, which is at least once.
pub open spec fn counted(notes: Seq<i32>, rows: Seq<Tally>) -> bool {
    forall|i: int|
        0 <= i < rows.len() ==> {
            &&& (#[trigger] rows[i]).frames == occurrences(notes, rows[i].note)
            &&& rows[i].frames > 0
        }
}

/// Whether each row comes before those that follow it.
pub open spec fn in_order(notes: Seq<i32>, rows: Seq<Tally>) -> bool {
    forall|i: int, j: int|
        0 <= i < j < rows.len() ==> ahead(
            notes,
            (#[trigger] rows[i]).note,
            (#[trigger] rows[j]).note,
        )
}

/// Whether `rows` are the `limit` most frequent of `notes`, or all of them where
/// they are fewer: in order, and with no note left out that comes before the
/// last.
pub open spec fn is_histogram(notes: Seq<i32>, rows: Seq<Tally>, limit: int) -> bool {
    &&& rows.len() <= limit
    &&& counted(notes, rows)
    &&& in_order(notes, rows)
    &&& forall|note: i32| #[trigger]
        occurrences(notes, note) > 0 && !has_row(rows, note) ==> {
            &&& rows.len() == limit
            &&& forall|i: int|
                0 <= i < rows.len() ==> ahead(notes, (#[trigger] rows[i]).note, note)
        }
}

/// No two rows are of one note.
spec fn distinct(rows: Seq<Tally>) -> bool {
    forall|i: int, j: int|
        0 <= i < j < rows.len() ==> (#[trigger] rows[i]).note != (#[trigger] rows[j]).note
}

/// Whether every note that occurs has a row.
spec fn complete(notes: Seq<i32>, rows: Seq<Tally>) -> bool {
    forall|note: i32| #[trigger] occurrences(notes, note) > 0 ==> has_row(rows, note)
}

/// One note more is one occurrence more of it, and of no other.
proof fn lemma_occurrences_push(notes: Seq<i32>, last: i32, note: i32)
    ensures
        occurrences(notes.push(last), note) == occurrences(notes, note) + (if last == note {
            1nat
        } else {
            0
        }),
        occurrences(notes, note) <= notes.len(),
    decreases notes.len(),
{
    assert(notes.push(last).drop_last() =~= notes);
    if notes.len() > 0 {
        lemma_occurrences_push(notes.drop_last(), notes.last(), note);
    }
}

/// Counts the notes, one row for each.
fn tally(notes: &[i32]) -> (rows: Vec<Tally>)
    ensures
        counted(notes@, rows@),
        distinct(rows@),
        complete(notes@, rows@),
{
    let n: usize = notes.len();
    let mut rows: Vec<Tally> = Vec::new();
    let mut k: usize = 0;
    proof {
        assert forall|note: i32| #[trigger] occurrences(notes@.take(0), note) == 0 by {}
    }
    while k < n
        invariant
            n == notes@.len(),
            k <= n,
            counted(notes@.take(k as int), rows@),
            distinct(rows@),
            complete(notes@.take(k as int), rows@),
        decreases n - k,
    {
        let note: i32 = notes[k];
        let ghost seen = notes@.take(k as int);
        let ghost before = rows@;
        let size: usize = rows.len();
        let mut i: usize = 0;
        while i < size && rows[i].note != note
            invariant
                size == rows@.len(),
                i <= size,
                forall|j: int| 0 <= j < i ==> (#[trigger] rows@[j]).note != note,
            decreases size - i,
        {
            i += 1;
        }
        proof {
            assert(notes@.take(k + 1) =~= seen.push(note));
            assert forall|other: i32| #[trigger]
                occurrences(notes@.take(k + 1), other) == occurrences(seen, other) + (if other
                    == note {
                    1nat
                } else {
                    0
                }) && occurrences(seen, other) <= k by {
                lemma_occurrences_push(seen, note, other);
            }
            lemma_occurrences_push(seen, note, note);
        }
        if i < size {
            let row: Tally = Tally { note, frames: rows[i].frames + 1 };
            rows.set(i, row);
            proof {
                assert forall|other: i32| #[trigger]
                    occurrences(notes@.take(k + 1), other) > 0 implies has_row(rows@, other) by {
                    if other == note {
                        assert(rows@[i as int].note == other);
                    } else {
                        assert(has_row(before, other));
                        let j = choose|j: int|
                            0 <= j < before.len() && (#[trigger] before[j]).note == other;
                        assert(rows@[j].note == other);
                    }
                }
            }
        } else {
            rows.push(Tally { note, frames: 1 });
            proof {
                assert(!has_row(before, note));
                assert(occurrences(seen, note) == 0);
                assert forall|other: i32| #[trigger]
                    occurrences(notes@.take(k + 1), other) > 0 implies has_row(rows@, other) by {
                    if other == note {
                        assert(rows@[size as int].note == other);
                    } else {
                        assert(has_row(before, other));
                        let j = choose|j: int|
                            0 <= j < before.len() && (#[trigger] before[j]).note == other;
                        assert(rows@[j].note == other);
                    }
                }
            }
        }
        k += 1;
    }
    proof {
        assert(notes@.take(n as int) =~= notes@);
    }
    rows
}

/// The place of the row that comes before all the others.
fn foremost(rows: &Vec<Tally>, Ghost(notes): Ghost<Seq<i32>>) -> (r: usize)
    requires
        rows@.len() > 0,
        counted(notes, rows@),
        distinct(rows@),
    ensures
        r < rows@.len(),
        forall|j: int|
            0 <= j < rows@.len() && j != r ==> ahead(
                notes,
                rows@[r as int].note,
                (#[trigger] rows@[j]).note,
            ),
{
    let mut best: usize = 0;
    let mut i: usize = 1;
    while i < rows.len()
        invariant
            counted(notes, rows@),
            distinct(rows@),
            best < i <= rows@.len(),
            forall|j: int|
                0 <= j < i && j != best ==> ahead(
                    notes,
                    rows@[best as int].note,
                    (#[trigger] rows@[j]).note,
                ),
        decreases rows@.len() - i,
    {
        let a: Tally = rows[i];
        let b: Tally = rows[best];
        if a.frames > b.frames || a.frames == b.frames && a.note < b.note {
            best = i;
        }
        i += 1;
    }
    best
}

/// The most frequent of `notes`, the lower first where two are equally frequent,
/// [`HISTOGRAM_ROWS`] at most.
pub fn histogram(notes: &[i32]) -> (r: Vec<Tally>)
    ensures
        is_histogram(notes@, r@, HISTOGRAM_ROWS as int),
{
    let mut rest: Vec<Tally> = tally(notes);
    let mut rows: Vec<Tally> = Vec::new();
    while rows.len() < HISTOGRAM_ROWS && rest.len() > 0
        invariant
            rows@.len() <= HISTOGRAM_ROWS,
            counted(notes@, rest@),
            distinct(rest@),
            counted(notes@, rows@),
            in_order(notes@, rows@),
            forall|i: int, j: int|
                0 <= i < rows@.len() && 0 <= j < rest@.len() ==> ahead(
                    notes@,
                    (#[trigger] rows@[i]).note,
                    (#[trigger] rest@[j]).note,
                ),
            forall|note: i32| #[trigger]
                occurrences(notes@, note) > 0 ==> has_row(rows@, note) || has_row(rest@, note),
        decreases rest@.len(),
    {
        let best: usize = foremost(&rest, Ghost(notes@));
        let ghost rows_before = rows@;
        let ghost rest_before = rest@;
        let row: Tally = rest.remove(best);
        rows.push(row);
        proof {
            assert forall|j: int| 0 <= j < rest@.len() implies (#[trigger] rest@[j])
                == rest_before[if j < best {
                j
            } else {
                j + 1
            }] by {}
            assert forall|note: i32| #[trigger] occurrences(notes@, note) > 0 implies has_row(
                rows@,
                note,
            ) || has_row(rest@, note) by {
                if has_row(rows_before, note) {
                    let i = choose|i: int|
                        0 <= i < rows_before.len() && (#[trigger] rows_before[i]).note == note;
                    assert(rows@[i].note == note);
                } else {
                    let j = choose|j: int|
                        0 <= j < rest_before.len() && (#[trigger] rest_before[j]).note == note;
                    if j == best {
                        assert(rows@[rows_before.len() as int].note == note);
                    } else if j < best {
                        assert(rest@[j].note == note);
                    } else {
                        assert(rest@[j - 1].note == note);
                    }
                }
            }
        }
    }
    rows
}

/// The notes nearest to the pitches.
pub open spec fn notes_of(pitches: Seq<Single>) -> Seq<i32> {
    pitches.map_values(|p: Single| crate::notes::nearest_note(p) as i32)
}

/// The notes nearest to the pitches.
pub fn nearest_notes(pitches: &[Single]) -> (r: Vec<i32>)
    ensures
        r@ == notes_of(pitches@),
{
    let n: usize = pitches.len();
    let mut notes: Vec<i32> = Vec::new();
    let mut k: usize = 0;
    while k < n
        invariant
            n == pitches@.len(),
            k <= n,
            notes@ == notes_of(pitches@).take(k as int),
        decreases n - k,
    {
        notes.push(pitches[k].round_i32());
        k += 1;
        proof {
            assert(notes@ =~= notes_of(pitches@).take(k as int));
        }
    }
    proof {
        assert(notes@ =~= notes_of(pitches@));
    }
    notes
}

/// There is one histogram only: what [`is_histogram`] asks for settles every row.
pub proof fn law_histogram_unique(notes: Seq<i32>, a: Seq<Tally>, b: Seq<Tally>, limit: int)
    requires
        is_histogram(notes, a, limit),
        is_histogram(notes, b, limit),
    ensures
        a == b,
{
    lemma_rows_agree(notes, a, b, limit, a.len());
    lemma_rows_agree(notes, b, a, limit, b.len());
    assert(a =~= b);
}

/// The first `k` rows of one histogram are those of another.
proof fn lemma_rows_agree(
    notes: Seq<i32>,
    a: Seq<Tally>,
    b: Seq<Tally>,
    limit: int,
    k: nat,
)
    requires
        is_histogram(notes, a, limit),
        is_histogram(notes, b, limit),
        k <= a.len(),
    ensures
        k <= b.len(),
        forall|i: int| 0 <= i < k ==> a[i] == b[i],
    decreases k,
{
    if k > 0 {
        lemma_rows_agree(notes, a, b, limit, (k - 1) as nat);
        let at = k - 1;
        let x = a[at].note;
        assert(occurrences(notes, x) > 0);
        if has_row(b, x) {
            let m = choose|m: int| 0 <= m < b.len() && (#[trigger] b[m]).note == x;
            if m < at {
                assert(a[m] == b[m]);
                assert(ahead(notes, a[m].note, a[at].note));
            } else if m > at {
                // A row of `b` before `x` would have to be a row of `a` before it.
                let y = b[at].note;
                assert(ahead(notes, y, x));
                assert(occurrences(notes, y) > 0);
                if has_row(a, y) {
                    let l = choose|l: int| 0 <= l < a.len() && (#[trigger] a[l]).note == y;
                    if l < at {
                        assert(a[l] == b[l]);
                        assert(ahead(notes, b[l].note, b[at].note));
                    } else if l > at {
                        assert(ahead(notes, a[at].note, a[l].note));
                    }
                } else {
                    assert(ahead(notes, a[at].note, y));
                }
            }
        } else {
            assert(b.len() == limit);
            assert(at < b.len());
            let y = b[at].note;
            assert(ahead(notes, y, x));
            assert(occurrences(notes, y) > 0);
            if has_row(a, y) {
                let l = choose|l: int| 0 <= l < a.len() && (#[trigger] a[l]).note == y;
                if l < at {
                    assert(a[l] == b[l]);
                    assert(ahead(notes, b[l].note, b[at].note));
                } else if l > at {
                    assert(ahead(notes, a[at].note, a[l].note));
                }
            } else {
                assert(ahead(notes, a[at].note, y));
            }
        }
    }
}

/// Occurrences add up, over two halves of a recording.
pub proof fn law_occurrences_add_up(first: Seq<i32>, second: Seq<i32>, note: i32)
    ensures
        occurrences(first + second, note) == occurrences(first, note) + occurrences(second, note),
    decreases second.len(),
{
    if second.len() == 0 {
        assert(first + second =~= first);
    } else {
        assert((first + second).drop_last() =~= first + second.drop_last());
        law_occurrences_add_up(first, second.drop_last(), note);
    }
}

/// Of a single note there is one occurrence, and of the others none.
pub proof fn law_one_occurrence(heard: i32, note: i32)
    ensures
        occurrences(seq![heard], note) == (if note == heard {
            1nat
        } else {
            0
        }),
{
    assert(seq![heard].drop_last() =~= Seq::<i32>::empty());
    assert(occurrences(seq![heard].drop_last(), note) == 0);
}

/// The rows go from the most frequent note to the least, from the lower to the higher among
/// those that are as frequent; and a note without a row is no more frequent than any that
/// has one.
pub proof fn law_rows_fall(notes: Seq<i32>, rows: Seq<Tally>, limit: int, i: int, j: int, note: i32)
    requires
        is_histogram(notes, rows, limit),
        0 <= i < j < rows.len(),
        occurrences(notes, note) > 0,
    ensures
        rows[i].frames == occurrences(notes, rows[i].note),
        rows[i].frames > 0,
        rows[i].frames >= rows[j].frames,
        rows[i].frames == rows[j].frames ==> rows[i].note < rows[j].note,
        (forall|k: int| 0 <= k < rows.len() ==> (#[trigger] rows[k]).note != note) ==> {
            &&& rows.len() == limit
            &&& rows[j].frames >= occurrences(notes, note)
            &&& rows[j].frames == occurrences(notes, note) ==> rows[j].note < note
        },
{
    assert(ahead(notes, rows[i].note, rows[j].note));
    if !has_row(rows, note) {
        assert(ahead(notes, rows[j].note, note));
    }
}

} // verus!
