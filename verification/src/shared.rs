//! The window of most recent samples, shared between the audio callback, which
//! fills it, and the display, which reads it.
use vstd::prelude::*;
use vstd::arithmetic::div_mod::*;
use vstd::arithmetic::mul::*;
use crate::arith::{adds, counts, divides, frame, frame_mean, mean, mono, Arithmetic, Operations};
use crate::pitch::FRAME_SIZE;
use crate::single::Single;

verus! {

/// A ring of the most recent [`FRAME_SIZE`] samples, mixed down to one channel.
/// Its view is the samples in the order in which they came, oldest first.
pub struct Shared {
    ring: Vec<Single>,
    write: usize,
}

/// `window` moved on by the samples `fresh`: as many of the oldest drop out.
pub open spec fn latest(window: Seq<Single>, fresh: Seq<Single>) -> Seq<Single> {
    (window + fresh).skip(fresh.len() as int)
}

impl View for Shared {
    type V = Seq<Single>;

    closed spec fn view(&self) -> Seq<Single> {
        Seq::new(
            FRAME_SIZE as nat,
            |j: int| self.ring@[(self.write + j) % (FRAME_SIZE as int)],
        )
    }
}

impl Shared {
    /// The ring is whole, and the place of the next write lies in it.
    pub closed spec fn wf(self) -> bool {
        &&& self.ring@.len() == FRAME_SIZE
        &&& self.write < FRAME_SIZE
    }

    /// The place in the ring of the next write.
    pub closed spec fn next_write(self) -> int {
        self.write as int
    }

    /// The place of the next write lies in the ring.
    pub proof fn law_write_in_ring(self)
        requires
            self.wf(),
        ensures
            0 <= self.next_write() < FRAME_SIZE,
    {
    }

    /// The window always holds [`FRAME_SIZE`] samples.
    pub proof fn law_window_size(self)
        ensures
            self@.len() == FRAME_SIZE,
    {
    }

    /// A window of silence.
    pub fn new() -> (r: Shared)
        ensures
            r.wf(),
            r.next_write() == 0,
            r@ == Seq::new(FRAME_SIZE as nat, |j: int| Single { bits: 0 }),
    {
        let ring: Vec<Single> = vec![Single { bits: 0 }; FRAME_SIZE];
        let r = Shared { ring, write: 0 };
        proof {
            assert(r@ =~= Seq::new(FRAME_SIZE as nat, |j: int| Single { bits: 0 }));
        }
        r
    }

    /// Stores one sample in place of the oldest.
    fn store(&mut self, sample: Single)
        requires
            old(self).wf(),
        ensures
            final(self).wf(),
            final(self).next_write() == (old(self).next_write() + 1) % (FRAME_SIZE as int),
            final(self)@ == old(self)@.drop_first().push(sample),
    {
        let ghost before = self@;
        let ghost at = self.write as int;
        self.ring.set(self.write, sample);
        self.write = (self.write + 1) % FRAME_SIZE;
        proof {
            assert forall|j: int| 0 <= j < FRAME_SIZE implies self@[j]
                == before.drop_first().push(sample)[j] by {
                if at + 1 < FRAME_SIZE {
                    assert(self.write == at + 1);
                } else {
                    assert(self.write == 0);
                }
            }
            assert(self@ =~= before.drop_first().push(sample));
        }
    }

    /// Takes in a block of interleaved samples: each whole frame is mixed down to
    /// its mean and stored, and what is left over at the end is dropped.
    pub fn push<A: Arithmetic>(&mut self, samples: &[Single], channels: usize)
        requires
            old(self).wf(),
            channels > 0,
        ensures
            final(self).wf(),
            final(self).next_write() == (old(self).next_write() + samples@.len() as int
                / channels as int) % (FRAME_SIZE as int),
            samples@.len() < channels ==> *final(self) == *old(self),
            forall|j: int|
                0 <= j < FRAME_SIZE - samples@.len() as int / channels as int
                    ==> #[trigger] final(self)@[j] == old(self)@[j + samples@.len() as int
                    / channels as int],
            forall|ops: Operations|
                #[trigger] adds::<A>(ops) && #[trigger] divides::<A>(ops) &&
                #[trigger] counts::<A>(ops) ==> final(self)@ == latest(
                    old(self)@,
                    mono(ops, samples@, channels as int),
                ),
    {
        let length: usize = samples.len();
        let mut i: usize = 0;
        let ghost start = self@;
        let ghost mut taken: Seq<Single> = Seq::empty();
        proof {
            assert(latest(start, taken) =~= start);
            lemma_mul_basics(channels as int);
        }
        while channels <= length - i
            invariant
                channels > 0,
                length == samples@.len(),
                i <= length,
                i == taken.len() * channels,
                self.wf(),
                self@ == latest(start, taken),
                self.next_write() == (old(self).next_write() + taken.len()) % (FRAME_SIZE as int),
                taken.len() == 0 ==> *self == *old(self),
                start.len() == FRAME_SIZE,
                forall|ops: Operations, k: int|
                    #![trigger adds::<A>(ops), divides::<A>(ops), counts::<A>(ops), taken[k]]
                    adds::<A>(ops) && divides::<A>(ops) && counts::<A>(ops) && 0 <= k < taken.len()
                        ==> taken[k] == mean(
                        ops,
                        frame(samples@, channels as int, k),
                    ),
            decreases length - i,
        {
            let sample: Single = frame_mean::<A>(samples, i, channels);
            self.store(sample);
            proof {
                assert(latest(start, taken.push(sample)) =~= latest(
                    start,
                    taken,
                ).drop_first().push(sample));
                lemma_mul_is_distributive_add_other_way(
                    channels as int,
                    taken.len() as int,
                    1,
                );
                taken = taken.push(sample);
            }
            i += channels;
        }
        proof {
            if length < channels {
                lemma_basic_div(length as int, channels as int);
            }
            lemma_mul_is_commutative(taken.len() as int, channels as int);
            lemma_fundamental_div_mod_converse(
                length as int,
                channels as int,
                taken.len() as int,
                length - i,
            );
            assert forall|ops: Operations|
                #[trigger] adds::<A>(ops) && #[trigger] divides::<A>(ops) &&
                #[trigger] counts::<A>(ops) implies self@ == latest(
                start,
                mono(ops, samples@, channels as int),
            ) by {
                assert(taken =~= mono(ops, samples@, channels as int));
            }
        }
    }

    /// Copies the most recent samples into `out`, oldest first: as many as it
    /// takes. Where `out` is longer than the window, the rest of it is kept.
    pub fn snapshot(&self, out: &mut [Single])
        requires
            self.wf(),
        ensures
            ({
                let n = if old(out)@.len() < FRAME_SIZE {
                    old(out)@.len() as int
                } else {
                    FRAME_SIZE as int
                };
                final(out)@ == self@.skip(FRAME_SIZE - n) + old(out)@.skip(n)
            }),
    {
        let length: usize = out.len();
        let n: usize = if length < FRAME_SIZE {
            length
        } else {
            FRAME_SIZE
        };
        let start: usize = (self.write + FRAME_SIZE - n) % FRAME_SIZE;
        let ghost before = out@;
        let mut i: usize = 0;
        while i < n
            invariant
                self.wf(),
                n <= FRAME_SIZE,
                n <= before.len(),
                i <= n,
                start == (self.write + FRAME_SIZE - n) % (FRAME_SIZE as int),
                start < FRAME_SIZE,
                out@.len() == before.len(),
                forall|j: int| 0 <= j < i ==> out@[j] == self@[FRAME_SIZE - n + j],
                forall|j: int| i <= j < before.len() ==> out@[j] == before[j],
            decreases n - i,
        {
            proof {
                assert((start + i) % (FRAME_SIZE as int) == (self.write + (FRAME_SIZE - n + i))
                    % (FRAME_SIZE as int));
            }
            out[i] = self.ring[(start + i) % FRAME_SIZE];
            i += 1;
        }
        proof {
            assert(out@ =~= self@.skip(FRAME_SIZE - n) + before.skip(n as int));
        }
    }
}

/// Moving on twice is moving on by both blocks at once.
pub proof fn law_push_twice(window: Seq<Single>, first: Seq<Single>, second: Seq<Single>)
    ensures
        latest(latest(window, first), second) == latest(window, first + second),
{
    assert(latest(latest(window, first), second) =~= latest(window, first + second));
}

/// Once a whole window of samples has come in, nothing older is left, and the
/// window holds the most recent ones.
pub proof fn law_window_turned(window: Seq<Single>, fresh: Seq<Single>)
    requires
        fresh.len() >= window.len(),
    ensures
        latest(window, fresh) == fresh.skip(fresh.len() - window.len()),
{
    assert(latest(window, fresh) =~= fresh.skip(fresh.len() - window.len()));
}

/// Where a block ends with a whole frame, it makes no difference whether the
/// next block comes on its own or as a part of it.
pub proof fn law_blocks_join(
    ops: Operations,
    first: Seq<Single>,
    second: Seq<Single>,
    channels: int,
)
    requires
        channels > 0,
        first.len() as int % channels == 0,
    ensures
        mono(ops, first + second, channels) == mono(ops, first, channels) + mono(
            ops,
            second,
            channels,
        ),
{
    let q = first.len() as int / channels;
    let p = second.len() as int / channels;
    let r = second.len() as int % channels;
    lemma_fundamental_div_mod(first.len() as int, channels);
    lemma_fundamental_div_mod(second.len() as int, channels);
    lemma_mod_bound(second.len() as int, channels);
    lemma_mul_is_distributive_add(channels, q, p);
    lemma_mul_is_commutative(channels, q + p);
    lemma_fundamental_div_mod_converse((first + second).len() as int, channels, q + p, r);
    lemma_div_pos_is_pos(first.len() as int, channels);
    lemma_div_pos_is_pos(second.len() as int, channels);
    let whole = mono(ops, first + second, channels);
    let parts = mono(ops, first, channels) + mono(ops, second, channels);
    assert forall|k: int| 0 <= k < q + p implies whole[k] == parts[k] by {
        if k < q {
            assert(0 <= k * channels && k * channels + channels <= first.len()) by (nonlinear_arith)
                requires
                    0 <= k < q,
                    channels > 0,
                    first.len() == channels * q,
            ;
            assert(frame(first + second, channels, k) =~= frame(first, channels, k));
        } else {
            let j = k - q;
            assert(k * channels == first.len() + j * channels && 0 <= j * channels && j * channels
                + channels <= second.len()) by (nonlinear_arith)
                requires
                    0 <= j < p,
                    k == q + j,
                    channels > 0,
                    first.len() == channels * q,
                    second.len() == channels * p + r,
                    r >= 0,
            ;
            assert(frame(first + second, channels, k) =~= frame(second, channels, j));
        }
    }
    assert(whole =~= parts);
}

/// Moving on by a block puts the block at the end, in its order, and what was there that
/// much further to the front, in its order.
pub proof fn law_block_comes_last(window: Seq<Single>, fresh: Seq<Single>, j: int)
    requires
        fresh.len() <= window.len(),
        0 <= j < window.len(),
    ensures
        latest(window, fresh).len() == window.len(),
        j < window.len() - fresh.len() ==> latest(window, fresh)[j] == window[j + fresh.len()],
        j >= window.len() - fresh.len() ==> latest(window, fresh)[j] == fresh[j - (window.len()
            - fresh.len())],
{
}

} // verus!
