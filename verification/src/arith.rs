//! The floating-point operations that the library calls, and the sums and means
//! that it builds from them.
//!
//! Which pattern an addition or a square root answers is the business of whoever
//! implements [`Arithmetic`]; nothing is taken for granted about it. A contract
//! here speaks of every [`Operations`], a choice of mathematical functions, and
//! names the operations that it goes through: where the implementation gives the
//! answers of those functions there, and so always the same answer for the same
//! operands, the result is the one that the functions give.
use vstd::prelude::*;
use vstd::arithmetic::div_mod::*;
use vstd::arithmetic::mul::*;
use crate::single::Single;

verus! {

/// The operations on singles, each rounded as the implementation rounds.
pub trait Arithmetic {
    /// `a + b`.
    fn plus(a: Single, b: Single) -> Single;

    /// `a - b`.
    fn minus(a: Single, b: Single) -> Single;

    /// `a * b`.
    fn times(a: Single, b: Single) -> Single;

    /// `a / b`.
    fn over(a: Single, b: Single) -> Single;

    /// The square root of `a`.
    fn root(a: Single) -> Single;

    /// The logarithm of `a` to the base 2.
    fn log2(a: Single) -> Single;

    /// The logarithm of `a` to the base 10.
    fn log10(a: Single) -> Single;

    /// `a` to the power `b`.
    fn power(a: Single, b: Single) -> Single;

    /// The sine of the angle `a`.
    fn sine(a: Single) -> Single;

    /// The single nearest to the count `n`.
    fn of_u64(n: u64) -> Single;

    /// The single nearest to the integer `n`.
    fn of_i32(n: i32) -> Single;
}

/// A mathematical function for each operation of [`Arithmetic`].
pub struct Operations {
    pub plus: spec_fn(Single, Single) -> Single,
    pub minus: spec_fn(Single, Single) -> Single,
    pub times: spec_fn(Single, Single) -> Single,
    pub over: spec_fn(Single, Single) -> Single,
    pub root: spec_fn(Single) -> Single,
    pub log2: spec_fn(Single) -> Single,
    pub log10: spec_fn(Single) -> Single,
    pub power: spec_fn(Single, Single) -> Single,
    pub sine: spec_fn(Single) -> Single,
    pub of_u64: spec_fn(u64) -> Single,
    pub of_i32: spec_fn(i32) -> Single,
}

/// Whether every sum that `A` gives is the one that `ops` gives.
pub open spec fn adds<A: Arithmetic>(ops: Operations) -> bool {
    forall|a: Single, b: Single, r: Single| #[trigger]
        call_ensures(A::plus, (a, b), r) ==> r == (ops.plus)(a, b)
}

/// Whether every difference that `A` gives is the one that `ops` gives.
pub open spec fn subtracts<A: Arithmetic>(ops: Operations) -> bool {
    forall|a: Single, b: Single, r: Single| #[trigger]
        call_ensures(A::minus, (a, b), r) ==> r == (ops.minus)(a, b)
}

/// Whether every product that `A` gives is the one that `ops` gives.
pub open spec fn multiplies<A: Arithmetic>(ops: Operations) -> bool {
    forall|a: Single, b: Single, r: Single| #[trigger]
        call_ensures(A::times, (a, b), r) ==> r == (ops.times)(a, b)
}

/// Whether every quotient that `A` gives is the one that `ops` gives.
pub open spec fn divides<A: Arithmetic>(ops: Operations) -> bool {
    forall|a: Single, b: Single, r: Single| #[trigger]
        call_ensures(A::over, (a, b), r) ==> r == (ops.over)(a, b)
}

/// Whether every square root that `A` gives is the one that `ops` gives.
pub open spec fn takes_root<A: Arithmetic>(ops: Operations) -> bool {
    forall|a: Single, r: Single| #[trigger]
        call_ensures(A::root, (a,), r) ==> r == (ops.root)(a)
}

/// Whether every logarithm to the base 2 that `A` gives is the one that `ops` gives.
pub open spec fn takes_log2<A: Arithmetic>(ops: Operations) -> bool {
    forall|a: Single, r: Single| #[trigger]
        call_ensures(A::log2, (a,), r) ==> r == (ops.log2)(a)
}

/// Whether every logarithm to the base 10 that `A` gives is the one that `ops` gives.
pub open spec fn takes_log10<A: Arithmetic>(ops: Operations) -> bool {
    forall|a: Single, r: Single| #[trigger]
        call_ensures(A::log10, (a,), r) ==> r == (ops.log10)(a)
}

/// Whether every power that `A` gives is the one that `ops` gives.
pub open spec fn raises<A: Arithmetic>(ops: Operations) -> bool {
    forall|a: Single, b: Single, r: Single| #[trigger]
        call_ensures(A::power, (a, b), r) ==> r == (ops.power)(a, b)
}

/// Whether every sine that `A` gives is the one that `ops` gives.
pub open spec fn takes_sine<A: Arithmetic>(ops: Operations) -> bool {
    forall|a: Single, r: Single| #[trigger]
        call_ensures(A::sine, (a,), r) ==> r == (ops.sine)(a)
}

/// Whether every single for a count that `A` gives is the one that `ops` gives.
pub open spec fn counts<A: Arithmetic>(ops: Operations) -> bool {
    forall|n: u64, r: Single| #[trigger]
        call_ensures(A::of_u64, (n,), r) ==> r == (ops.of_u64)(n)
}

/// Whether every single for an integer that `A` gives is the one that `ops` gives.
pub open spec fn converts<A: Arithmetic>(ops: Operations) -> bool {
    forall|n: i32, r: Single| #[trigger]
        call_ensures(A::of_i32, (n,), r) ==> r == (ops.of_i32)(n)
}

/// The number 2.
pub const TWO: u32 = 0x4000_0000;

/// The number 0.5.
pub const HALF: u32 = 0x3f00_0000;

/// The number 1.
pub const UNIT: u32 = 0x3f80_0000;

/// The number -1.
pub const MINUS_UNIT: u32 = 0xbf80_0000;

/// The number 0.
pub open spec fn zero() -> Single {
    Single { bits: 0 }
}

/// The sum of `xs`, added up from 0 in order.
pub open spec fn sum(ops: Operations, xs: Seq<Single>) -> Single
    decreases xs.len(),
{
    if xs.len() == 0 {
        zero()
    } else {
        (ops.plus)(sum(ops, xs.drop_last()), xs.last())
    }
}

/// The mean of `xs`: their sum over their number.
pub open spec fn mean(ops: Operations, xs: Seq<Single>) -> Single {
    (ops.over)(sum(ops, xs), (ops.of_u64)(xs.len() as u64))
}

/// The `k`th frame of interleaved samples: one sample of each channel.
pub open spec fn frame(samples: Seq<Single>, channels: int, k: int) -> Seq<Single> {
    samples.subrange(k * channels, k * channels + channels)
}

/// Interleaved samples mixed down to one channel: the mean of each whole frame.
/// What is left over at the end is dropped.
pub open spec fn mono(ops: Operations, samples: Seq<Single>, channels: int) -> Seq<Single> {
    Seq::new(
        (samples.len() as int / channels) as nat,
        |k: int| mean(ops, frame(samples, channels, k)),
    )
}

/// The mean of the `channels` samples from `start` on.
pub fn frame_mean<A: Arithmetic>(samples: &[Single], start: usize, channels: usize) -> (r: Single)
    requires
        start + channels <= samples.len(),
    ensures
        forall|ops: Operations|
            #[trigger] adds::<A>(ops) && #[trigger] divides::<A>(ops) &&
            #[trigger] counts::<A>(ops) ==> r == mean(
                ops,
                samples@.subrange(start as int, start + channels),
            ),
{
    let mut total: Single = Single { bits: 0 };
    let mut c: usize = 0;
    while c < channels
        invariant
            c <= channels,
            start + channels <= samples.len(),
            forall|ops: Operations|
                #[trigger] adds::<A>(ops) && #[trigger] divides::<A>(ops) &&
                #[trigger] counts::<A>(ops) ==> total == sum(
                    ops,
                    samples@.subrange(start as int, start + c),
                ),
        decreases channels - c,
    {
        proof {
            let longer = samples@.subrange(start as int, start + c + 1);
            assert(longer.drop_last() =~= samples@.subrange(start as int, start + c));
        }
        total = A::plus(total, samples[start + c]);
        c += 1;
    }
    A::over(total, A::of_u64(channels as u64))
}

/// Mixes interleaved samples down to one channel.
pub fn mix_down<A: Arithmetic>(samples: &[Single], channels: usize) -> (r: Vec<Single>)
    requires
        channels > 0,
    ensures
        r@.len() == samples@.len() as int / channels as int,
        forall|ops: Operations|
            #[trigger] adds::<A>(ops) && #[trigger] divides::<A>(ops) &&
            #[trigger] counts::<A>(ops) ==> r@ == mono(ops, samples@, channels as int),
{
    let length: usize = samples.len();
    let mut mixed: Vec<Single> = Vec::new();
    let mut i: usize = 0;
    proof {
        lemma_mul_basics(channels as int);
    }
    while channels <= length - i
        invariant
            channels > 0,
            length == samples@.len(),
            i <= length,
            i == mixed@.len() * channels,
            forall|ops: Operations, k: int|
                #![trigger adds::<A>(ops), divides::<A>(ops), counts::<A>(ops), mixed@[k]]
                adds::<A>(ops) && divides::<A>(ops) && counts::<A>(ops) && 0 <= k < mixed@.len()
                    ==> mixed@[k] == mean(
                    ops,
                    frame(samples@, channels as int, k),
                ),
        decreases length - i,
    {
        mixed.push(frame_mean::<A>(samples, i, channels));
        i += channels;
        proof {
            let n = mixed@.len() as int;
            assert(n * channels == (n - 1) * channels + channels) by (nonlinear_arith);
        }
    }
    proof {
        lemma_mul_is_commutative(mixed@.len() as int, channels as int);
        lemma_fundamental_div_mod_converse(
            length as int,
            channels as int,
            mixed@.len() as int,
            length - i,
        );
        assert forall|ops: Operations|
            #[trigger] adds::<A>(ops) && #[trigger] divides::<A>(ops) &&
            #[trigger] counts::<A>(ops) implies mixed@ == mono(
            ops,
            samples@,
            channels as int,
        ) by {
            assert(mixed@ =~= mono(ops, samples@, channels as int));
        }
    }
    mixed
}

} // verus!
