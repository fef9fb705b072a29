//! Loudness and polarity: the detector is normalized, so that neither moves the
//! pitch or the clarity that it reports.
use vstd::prelude::*;
use crate::arith::{zero, Operations, TWO};
use crate::pitch::{
    admitted, detection, max_lag, min_lag, nsdf, nsdf_at, pair_sums, rms, sum_squares,
};
use crate::rounding::naught;
use crate::single::Single;

verus! {

/// A change of loudness: what it makes of a sample, of a product of two samples, and
/// of a level. To make everything `c` times as loud multiplies these by `c`, by
/// `c * c`, and by `c` without its sign.
pub struct Loudness {
    pub sample: spec_fn(Single) -> Single,
    pub square: spec_fn(Single) -> Single,
    pub level: spec_fn(Single) -> Single,
}

/// The samples at another loudness.
pub open spec fn scaled(change: Loudness, buf: Seq<Single>) -> Seq<Single> {
    Seq::new(buf.len(), |i: int| (change.sample)(buf[i]))
}

/// Whether the change goes through every step of the sum of squares of `xs`: no step
/// rounds otherwise, or leaves the range of singles.
pub open spec fn squares_scale(ops: Operations, change: Loudness, xs: Seq<Single>) -> bool
    decreases xs.len(),
{
    if xs.len() == 0 {
        (change.square)(zero()) == zero()
    } else {
        let before = sum_squares(ops, xs.drop_last());
        let x = xs.last();
        let xx = (ops.times)(x, x);
        &&& squares_scale(ops, change, xs.drop_last())
        &&& (ops.times)((change.sample)(x), (change.sample)(x)) == (change.square)(xx)
        &&& (ops.plus)((change.square)(before), (change.square)(xx)) == (change.square)(
            (ops.plus)(before, xx),
        )
    }
}

/// Whether the change goes through the level of `xs`, and through its comparison
/// with the noise gate.
pub open spec fn level_scales(
    ops: Operations,
    change: Loudness,
    xs: Seq<Single>,
    gate: Single,
) -> bool {
    let total = sum_squares(ops, xs);
    let n = (ops.of_u64)(xs.len() as u64);
    let mean = (ops.over)(total, n);
    &&& squares_scale(ops, change, xs)
    &&& (ops.over)((change.square)(total), n) == (change.square)(mean)
    &&& (ops.root)((change.square)(mean)) == (change.level)((ops.root)(mean))
    &&& (change.level)(rms(ops, xs)).below((change.level)(gate)) == rms(ops, xs).below(gate)
}

/// Whether the change goes through every step of the correlation and the energy of
/// the first `count` pairs.
pub open spec fn pairs_scale(
    ops: Operations,
    change: Loudness,
    buf: Seq<Single>,
    tau: int,
    count: nat,
) -> bool
    decreases count,
{
    if count == 0 {
        (change.square)(zero()) == zero()
    } else {
        let before = pair_sums(ops, buf, tau, (count - 1) as nat);
        let a = buf[count - 1];
        let b = buf[count - 1 + tau];
        let ab = (ops.times)(a, b);
        let aa = (ops.times)(a, a);
        let bb = (ops.times)(b, b);
        let both = (ops.plus)(aa, bb);
        &&& pairs_scale(ops, change, buf, tau, (count - 1) as nat)
        &&& (ops.times)((change.sample)(a), (change.sample)(b)) == (change.square)(ab)
        &&& (ops.times)((change.sample)(a), (change.sample)(a)) == (change.square)(aa)
        &&& (ops.times)((change.sample)(b), (change.sample)(b)) == (change.square)(bb)
        &&& (ops.plus)((change.square)(aa), (change.square)(bb)) == (change.square)(both)
        &&& (ops.plus)((change.square)(before.0), (change.square)(ab)) == (change.square)(
            (ops.plus)(before.0, ab),
        )
        &&& (ops.plus)((change.square)(before.1), (change.square)(both)) == (change.square)(
            (ops.plus)(before.1, both),
        )
    }
}

/// Whether the change goes through the sums at the lag `tau`, and cancels in their
/// quotient.
pub open spec fn score_scales(
    ops: Operations,
    change: Loudness,
    buf: Seq<Single>,
    tau: int,
) -> bool {
    let sums = pair_sums(ops, buf, tau, (buf.len() - tau) as nat);
    let two = Single { bits: TWO };
    &&& pairs_scale(ops, change, buf, tau, (buf.len() - tau) as nat)
    &&& zero().below((change.square)(sums.1)) == zero().below(sums.1)
    &&& zero().below(sums.1) ==> (ops.over)(
        (ops.times)(two, (change.square)(sums.0)),
        (change.square)(sums.1),
    ) == (ops.over)((ops.times)(two, sums.0), sums.1)
}

/// Whether the change goes through everything that the detector computes of `buf`.
/// Doubling and halving do, as long as no square and no sum gets out of range.
pub open spec fn goes_through(
    ops: Operations,
    change: Loudness,
    buf: Seq<Single>,
    sample_rate: u32,
    gate: Single,
) -> bool {
    &&& level_scales(ops, change, buf, gate)
    &&& level_scales(ops, change, buf.take(buf.len() as int / 4), gate)
    &&& admitted(ops, buf, sample_rate, gate) ==> forall|tau: int|
        min_lag(ops, sample_rate) <= tau <= max_lag(ops, sample_rate) ==> #[trigger] score_scales(
            ops,
            change,
            buf,
            tau,
        )
}

proof fn lemma_sum_squares(ops: Operations, change: Loudness, xs: Seq<Single>)
    requires
        squares_scale(ops, change, xs),
    ensures
        sum_squares(ops, scaled(change, xs)) == (change.square)(sum_squares(ops, xs)),
    decreases xs.len(),
{
    if xs.len() > 0 {
        lemma_sum_squares(ops, change, xs.drop_last());
        assert(scaled(change, xs).drop_last() =~= scaled(change, xs.drop_last()));
    }
}

proof fn lemma_pair_sums(
    ops: Operations,
    change: Loudness,
    buf: Seq<Single>,
    tau: int,
    count: nat,
)
    requires
        pairs_scale(ops, change, buf, tau, count),
        0 <= tau,
        count + tau <= buf.len(),
    ensures
        ({
            let sums = pair_sums(ops, buf, tau, count);
            pair_sums(ops, scaled(change, buf), tau, count) == (
                (change.square)(sums.0),
                (change.square)(sums.1),
            )
        }),
    decreases count,
{
    if count > 0 {
        lemma_pair_sums(ops, change, buf, tau, (count - 1) as nat);
    }
}

/// Pitch and clarity do not depend on the loudness: where everything, the noise gate
/// included, is made louder or softer alike, the detector reports the same pitch and
/// the same clarity, and a level that is louder or softer alike.
pub proof fn law_loudness_ignored(
    ops: Operations,
    change: Loudness,
    buf: Seq<Single>,
    sample_rate: u32,
    gate: Single,
)
    requires
        goes_through(ops, change, buf, sample_rate, gate),
    ensures
        ({
            let heard = detection(ops, buf, sample_rate, gate);
            detection(ops, scaled(change, buf), sample_rate, (change.level)(gate)) == (
                heard.0,
                heard.1,
                (change.level)(heard.2),
            )
        }),
{
    let other = scaled(change, buf);
    let quarter = buf.len() as int / 4;
    let min = min_lag(ops, sample_rate);
    let max = max_lag(ops, sample_rate);
    lemma_sum_squares(ops, change, buf);
    lemma_sum_squares(ops, change, buf.take(quarter));
    assert(other.take(quarter) =~= scaled(change, buf.take(quarter)));
    if admitted(ops, buf, sample_rate, gate) {
        assert forall|tau: int| min <= tau <= max implies nsdf_at(ops, other, tau) == nsdf_at(
            ops,
            buf,
            tau,
        ) by {
            assert(score_scales(ops, change, buf, tau));
            lemma_pair_sums(ops, change, buf, tau, (buf.len() - tau) as nat);
        }
        assert(nsdf(ops, other, min, max) =~= nsdf(ops, buf, min, max));
    }
}

/// The number with the other sign.
pub open spec fn flipped(s: Single) -> Single {
    Single {
        bits: if s.bits >= 0x8000_0000 {
            (s.bits - 0x8000_0000) as u32
        } else {
            (s.bits + 0x8000_0000) as u32
        },
    }
}

/// The change of loudness that turns the signal over.
pub open spec fn inversion() -> Loudness {
    Loudness {
        sample: |s: Single| flipped(s),
        square: |s: Single| s,
        level: |s: Single| s,
    }
}

proof fn lemma_squares_flip(ops: Operations, xs: Seq<Single>)
    requires
        forall|a: Single, b: Single| #[trigger]
            (ops.times)(flipped(a), flipped(b)) == (ops.times)(a, b),
    ensures
        squares_scale(ops, inversion(), xs),
    decreases xs.len(),
{
    if xs.len() > 0 {
        lemma_squares_flip(ops, xs.drop_last());
    }
}

proof fn lemma_pairs_flip(ops: Operations, buf: Seq<Single>, tau: int, count: nat)
    requires
        forall|a: Single, b: Single| #[trigger]
            (ops.times)(flipped(a), flipped(b)) == (ops.times)(a, b),
    ensures
        pairs_scale(ops, inversion(), buf, tau, count),
    decreases count,
{
    if count > 0 {
        lemma_pairs_flip(ops, buf, tau, (count - 1) as nat);
    }
}

/// Nothing depends on the polarity: where the signs of two factors cancel, a signal
/// turned over is heard as the signal itself.
pub proof fn law_polarity_ignored(
    ops: Operations,
    buf: Seq<Single>,
    sample_rate: u32,
    gate: Single,
)
    requires
        forall|a: Single, b: Single| #[trigger]
            (ops.times)(flipped(a), flipped(b)) == (ops.times)(a, b),
    ensures
        detection(ops, Seq::new(buf.len(), |i: int| flipped(buf[i])), sample_rate, gate)
            == detection(ops, buf, sample_rate, gate),
{
    lemma_squares_flip(ops, buf);
    lemma_squares_flip(ops, buf.take(buf.len() as int / 4));
    assert forall|tau: int| #[trigger] score_scales(ops, inversion(), buf, tau) by {
        lemma_pairs_flip(ops, buf, tau, (buf.len() - tau) as nat);
    }
    law_loudness_ignored(ops, inversion(), buf, sample_rate, gate);
    assert(scaled(inversion(), buf) =~= Seq::new(buf.len(), |i: int| flipped(buf[i])));
}

/// Twice the number, for 0 and for a number that is not too near to the limits of
/// singles; infinities and NaNs stay what they are.
pub open spec fn doubled(s: Single) -> Single {
    if s.magnitude() == 0 || s.magnitude() >= 0x7f80_0000 {
        s
    } else {
        Single { bits: (s.bits + 0x80_0000) as u32 }
    }
}

/// Whether a number is no 0, and so far from the limits of singles that it can be doubled
/// three times, or halved, without rounding.
pub open spec fn carries(s: Single) -> bool {
    0x100_0000 <= s.magnitude() < 0x7e00_0000
}

/// Whether a number can be doubled without rounding.
pub open spec fn settled(s: Single) -> bool {
    naught(s) || carries(s)
}

/// The change of loudness that doubles everything.
pub open spec fn doubling() -> Loudness {
    Loudness {
        sample: |s: Single| doubled(s),
        square: |s: Single| doubled(doubled(s)),
        level: |s: Single| doubled(s),
    }
}

/// Whether doubling goes through the operations, as it does in binary arithmetic as long
/// as nothing comes near to the limits of singles.
pub open spec fn binary(ops: Operations) -> bool {
    &&& forall|a: Single, b: Single|
        settled(a) && settled(b) && (naught(a) || naught(b) || carries((ops.times)(a, b)))
            ==> #[trigger] (ops.times)(doubled(a), doubled(b)) == doubled(
            doubled((ops.times)(a, b)),
        )
    &&& forall|a: Single, b: Single|
        settled(a) && settled(b) && settled((ops.plus)(a, b)) ==> #[trigger] (ops.plus)(
            doubled(doubled(a)),
            doubled(doubled(b)),
        ) == doubled(doubled((ops.plus)(a, b)))
    &&& forall|a: Single, n: Single|
        naught(a) || carries(a) && carries((ops.over)(a, n)) ==> #[trigger] (ops.over)(
            doubled(doubled(a)),
            n,
        ) == doubled(doubled((ops.over)(a, n)))
    &&& forall|a: Single|
        settled(a) || a.nan() ==> #[trigger] (ops.root)(doubled(doubled(a))) == doubled(
            (ops.root)(a),
        )
    &&& forall|x: Single, e: Single|
        settled(x) && carries(e) ==> #[trigger] (ops.over)(
            (ops.times)(Single { bits: TWO }, doubled(doubled(x))),
            doubled(doubled(e)),
        ) == (ops.over)((ops.times)(Single { bits: TWO }, x), e)
}

/// Whether a product stays away from the limits of singles.
pub open spec fn product_settled(ops: Operations, a: Single, b: Single) -> bool {
    &&& settled(a)
    &&& settled(b)
    &&& settled((ops.times)(a, b))
    &&& naught(a) || naught(b) || carries((ops.times)(a, b))
}

/// Whether no square and no sum of squares of `xs` comes near to the limits of singles.
pub open spec fn squares_settled(ops: Operations, xs: Seq<Single>) -> bool
    decreases xs.len(),
{
    xs.len() > 0 ==> {
        &&& squares_settled(ops, xs.drop_last())
        &&& product_settled(ops, xs.last(), xs.last())
        &&& settled(sum_squares(ops, xs))
    }
}

/// Whether the level of `xs` does not come near to the limits of singles; that of no
/// samples at all is a NaN.
pub open spec fn level_settled(ops: Operations, xs: Seq<Single>) -> bool {
    let total = sum_squares(ops, xs);
    let mean = (ops.over)(total, (ops.of_u64)(xs.len() as u64));
    &&& squares_settled(ops, xs)
    &&& naught(total) || carries(mean)
    &&& settled(mean) || mean.nan()
    &&& settled(rms(ops, xs)) || rms(ops, xs).nan()
}

/// Whether nothing that the correlation and the energy of the first `count` pairs are
/// made of comes near to the limits of singles.
pub open spec fn pairs_settled(ops: Operations, buf: Seq<Single>, tau: int, count: nat) -> bool
    decreases count,
{
    count > 0 ==> {
        let a = buf[count - 1];
        let b = buf[count - 1 + tau];
        let sums = pair_sums(ops, buf, tau, count);
        &&& pairs_settled(ops, buf, tau, (count - 1) as nat)
        &&& product_settled(ops, a, b)
        &&& product_settled(ops, a, a)
        &&& product_settled(ops, b, b)
        &&& settled((ops.plus)((ops.times)(a, a), (ops.times)(b, b)))
        &&& settled(sums.0)
        &&& settled(sums.1)
    }
}

/// Whether nothing that the detector makes of `buf` comes near to the limits of singles.
pub open spec fn all_settled(
    ops: Operations,
    buf: Seq<Single>,
    sample_rate: u32,
    gate: Single,
) -> bool {
    &&& settled(gate)
    &&& level_settled(ops, buf)
    &&& level_settled(ops, buf.take(buf.len() as int / 4))
    &&& forall|tau: int|
        min_lag(ops, sample_rate) <= tau <= max_lag(ops, sample_rate) && tau <= buf.len()
            ==> #[trigger] pairs_settled(ops, buf, tau, (buf.len() - tau) as nat)
}

/// Doubling keeps the order.
proof fn lemma_doubled_order(a: Single, b: Single)
    requires
        naught(a) || 0x80_0000 <= a.magnitude() < 0x7f00_0000 || a.nan(),
        naught(b) || 0x80_0000 <= b.magnitude() < 0x7f00_0000 || b.nan(),
    ensures
        doubled(a).below(doubled(b)) == a.below(b),
{
    Single::law_key_order(a, b);
    Single::law_key_order(doubled(a), doubled(b));
}

/// Doubling a settled number adds to its exponent.
proof fn lemma_doubled_magnitude(s: Single)
    requires
        settled(s),
    ensures
        naught(s) ==> doubled(s) == s,
        carries(s) ==> doubled(s).magnitude() == s.magnitude() + 0x80_0000,
        doubled(s).negative() == s.negative(),
{
}

proof fn lemma_squares_double(ops: Operations, xs: Seq<Single>)
    requires
        binary(ops),
        squares_settled(ops, xs),
    ensures
        squares_scale(ops, doubling(), xs),
        settled(sum_squares(ops, xs)),
    decreases xs.len(),
{
    if xs.len() > 0 {
        lemma_squares_double(ops, xs.drop_last());
    }
}

proof fn lemma_level_doubles(ops: Operations, xs: Seq<Single>, gate: Single)
    requires
        binary(ops),
        level_settled(ops, xs),
        settled(gate),
    ensures
        level_scales(ops, doubling(), xs, gate),
{
    lemma_squares_double(ops, xs);
    lemma_doubled_order(rms(ops, xs), gate);
}

proof fn lemma_pairs_double(ops: Operations, buf: Seq<Single>, tau: int, count: nat)
    requires
        binary(ops),
        pairs_settled(ops, buf, tau, count),
    ensures
        pairs_scale(ops, doubling(), buf, tau, count),
        settled(pair_sums(ops, buf, tau, count).0),
        settled(pair_sums(ops, buf, tau, count).1),
    decreases count,
{
    if count > 0 {
        lemma_pairs_double(ops, buf, tau, (count - 1) as nat);
    }
}

/// Twice as loud, the same pitch: where every sample and the noise gate are doubled, the
/// detector reports the same frequency and the same clarity, and twice the level. No
/// square and no sum may come near to the limits of singles.
pub proof fn law_doubling_ignored(
    ops: Operations,
    buf: Seq<Single>,
    sample_rate: u32,
    gate: Single,
)
    requires
        binary(ops),
        all_settled(ops, buf, sample_rate, gate),
    ensures
        ({
            let heard = detection(ops, buf, sample_rate, gate);
            detection(
                ops,
                Seq::new(buf.len(), |i: int| doubled(buf[i])),
                sample_rate,
                doubled(gate),
            ) == (heard.0, heard.1, doubled(heard.2))
        }),
{
    lemma_level_doubles(ops, buf, gate);
    lemma_level_doubles(ops, buf.take(buf.len() as int / 4), gate);
    assert forall|tau: int|
        admitted(ops, buf, sample_rate, gate) && min_lag(ops, sample_rate) <= tau <= max_lag(
            ops,
            sample_rate,
        ) implies #[trigger] score_scales(ops, doubling(), buf, tau) by {
        let count = (buf.len() - tau) as nat;
        assert(pairs_settled(ops, buf, tau, count));
        lemma_pairs_double(ops, buf, tau, count);
        let energy = pair_sums(ops, buf, tau, count).1;
        lemma_doubled_magnitude(energy);
        lemma_doubled_order(zero(), energy);
        lemma_doubled_order(zero(), doubled(energy));
    }
    law_loudness_ignored(ops, doubling(), buf, sample_rate, gate);
    assert(scaled(doubling(), buf) =~= Seq::new(buf.len(), |i: int| doubled(buf[i])));
}

/// The number doubled `k` times.
pub open spec fn louder(s: Single, k: nat) -> Single
    decreases k,
{
    if k == 0 {
        s
    } else {
        doubled(louder(s, (k - 1) as nat))
    }
}

/// The samples doubled `k` times.
pub open spec fn all_louder(buf: Seq<Single>, k: nat) -> Seq<Single> {
    Seq::new(buf.len(), |i: int| louder(buf[i], k))
}

/// Pitch and clarity are the same at every power of two of the loudness, upwards from
/// any: where everything is `2^k` times as loud, only the level is.
pub proof fn law_power_of_two_ignored(
    ops: Operations,
    buf: Seq<Single>,
    sample_rate: u32,
    gate: Single,
    k: nat,
)
    requires
        binary(ops),
        forall|j: nat|
            j < k ==> #[trigger] all_settled(
                ops,
                all_louder(buf, j),
                sample_rate,
                louder(gate, j),
            ),
    ensures
        ({
            let heard = detection(ops, buf, sample_rate, gate);
            detection(ops, all_louder(buf, k), sample_rate, louder(gate, k)) == (
                heard.0,
                heard.1,
                louder(heard.2, k),
            )
        }),
    decreases k,
{
    if k == 0 {
        assert(all_louder(buf, 0) =~= buf);
    } else {
        let j = (k - 1) as nat;
        law_power_of_two_ignored(ops, buf, sample_rate, gate, j);
        assert(all_settled(ops, all_louder(buf, j), sample_rate, louder(gate, j)));
        law_doubling_ignored(ops, all_louder(buf, j), sample_rate, louder(gate, j));
        assert(all_louder(buf, k) =~= Seq::new(
            buf.len(),
            |i: int| doubled(all_louder(buf, j)[i]),
        ));
    }
}

} // verus!
