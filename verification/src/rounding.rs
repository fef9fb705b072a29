//! What IEEE 754 says of the four basic operations: how far a result may lie from the
//! exact one, and which operands make a NaN.
//!
//! Nothing in the library rests on it. It is what a law can ask of the operations in
//! order to speak of the numbers that come out.
use vstd::prelude::*;
use vstd::arithmetic::power2::*;
use vstd::arithmetic::mul::*;
use crate::arith::Operations;
use crate::single::{one, Single};

verus! {

/// `x` without its sign.
pub open spec fn size(x: int) -> int {
    if x < 0 {
        -x
    } else {
        x
    }
}

/// Whether `s` is a number of no more than `2^48`.
pub open spec fn moderate(s: Single) -> bool {
    !s.nan() && size(s.units()) <= 0x1_0000_0000_0000 * one()
}

/// Whether `r` is the quotient of `x` and `scale` up to rounding: no further off than a
/// part in `2^24` of it and one unit.
pub open spec fn rounds(r: Single, x: int, scale: int) -> bool {
    !r.nan() && size(r.units() * scale - x) * 0x100_0000 <= size(x) + 0x100_0000 * scale
}

/// Whether moderate operands get results that are exact up to rounding, where those are
/// moderate too.
pub open spec fn rounded(ops: Operations) -> bool {
    &&& forall|a: Single, b: Single|
        moderate(a) && moderate(b) ==> rounds(
            #[trigger] (ops.plus)(a, b),
            a.units() + b.units(),
            1,
        )
    &&& forall|a: Single, b: Single|
        moderate(a) && moderate(b) ==> rounds(
            #[trigger] (ops.minus)(a, b),
            a.units() - b.units(),
            1,
        )
    &&& forall|a: Single, b: Single|
        moderate(a) && moderate(b) ==> rounds(
            #[trigger] (ops.times)(a, b),
            a.units() * b.units(),
            one(),
        )
    &&& forall|a: Single, b: Single|
        moderate(a) && moderate(b) && b.units() > 0 && size(a.units()) <= 0x1_0000_0000_0000
            * b.units() ==> rounds(#[trigger] (ops.over)(a, b), a.units() * one(), b.units())
}

/// Whether the pattern stands for an infinity.
pub open spec fn infinite(s: Single) -> bool {
    s.magnitude() == 0x7f80_0000
}

/// Whether the pattern stands for 0, with either sign.
pub open spec fn naught(s: Single) -> bool {
    s.magnitude() == 0
}

/// Whether numbers make a NaN only where they have to: of two infinities, or of 0 and an
/// infinity in a product, or of two zeros in a quotient.
pub open spec fn nan_only_if_due(ops: Operations) -> bool {
    &&& forall|a: Single, b: Single|
        !a.nan() && !b.nan() && !(infinite(a) && infinite(b))
            ==> !(#[trigger] (ops.plus)(a, b)).nan()
    &&& forall|a: Single, b: Single|
        !a.nan() && !b.nan() && !(infinite(a) && infinite(b))
            ==> !(#[trigger] (ops.minus)(a, b)).nan()
    &&& forall|a: Single, b: Single|
        !a.nan() && !b.nan() && !(infinite(a) && naught(b)) && !(naught(a) && infinite(b))
            ==> !(#[trigger] (ops.times)(a, b)).nan()
    &&& forall|a: Single, b: Single|
        !a.nan() && !b.nan() && !(infinite(a) && infinite(b)) && !(naught(a) && naught(b))
            ==> !(#[trigger] (ops.over)(a, b)).nan()
}

/// Whether a negative divisor gets a quotient that is exact up to rounding too.
pub open spec fn rounded_down(ops: Operations) -> bool {
    forall|a: Single, b: Single|
        moderate(a) && moderate(b) && b.units() < 0 && size(a.units()) <= 0x1_0000_0000_0000
            * -b.units() ==> rounds(#[trigger] (ops.over)(a, b), -a.units() * one(), -b.units())
}

/// Whether a count is the single nearest to it: itself up to `2^24`, and itself up to
/// rounding beyond.
pub open spec fn counts_rounded(ops: Operations) -> bool {
    forall|n: u64|
        n <= 0x1_0000_0000 ==> {
            &&& rounds(#[trigger] (ops.of_u64)(n), n * one(), 1)
            &&& n <= 0x100_0000 ==> (ops.of_u64)(n).units() == n * one()
        }
}

/// Whether the pattern stands for a number that is no infinity.
pub open spec fn finite(s: Single) -> bool {
    s.magnitude() < 0x7f80_0000
}

/// Whether a result that is a single is hit exactly.
pub open spec fn faithful(ops: Operations) -> bool {
    &&& forall|a: Single, b: Single, c: Single|
        finite(a) && finite(b) && finite(c) && a.units() + b.units() == c.units()
            ==> #[trigger] hits((ops.plus)(a, b), c)
    &&& forall|a: Single, b: Single, c: Single|
        finite(a) && finite(b) && finite(c) && a.units() - b.units() == c.units()
            ==> #[trigger] hits((ops.minus)(a, b), c)
    &&& forall|a: Single, b: Single, c: Single|
        finite(a) && finite(b) && finite(c) && a.units() * b.units() == c.units() * one()
            ==> #[trigger] hits((ops.times)(a, b), c)
    &&& forall|a: Single, b: Single, c: Single|
        finite(a) && finite(b) && finite(c) && b.units() != 0 && a.units() * one() == c.units()
            * b.units() ==> #[trigger] hits((ops.over)(a, b), c)
}

/// Whether `r` is the number `c`.
pub open spec fn hits(r: Single, c: Single) -> bool {
    !r.nan() && r.units() == c.units()
}

/// A part of one in `2^21`: the grain in which the laws count what rounding takes.
pub open spec fn grain() -> int {
    pow2(128) as int
}

/// The grain is large against a unit, and divides one.
pub proof fn lemma_grain()
    ensures
        one() == 0x20_0000 * grain(),
        grain() >= 0x1_0000_0000,
{
    lemma2_to64();
    lemma2_to64_rest();
    lemma_pow2_adds(21, 128);
    lemma_pow2_strictly_increases(32, 128);
}

/// The pattern of the whole number `n`.
pub proof fn lemma_whole_pattern(s: Single, e: int, n: int)
    requires
        s.bits < 0x8000_0000,
        127 <= e <= 150,
        s.bits as int / 0x80_0000 == e,
        0x80_0000 + s.bits as int % 0x80_0000 == n * pow2((150 - e) as nat),
    ensures
        s.units() == n * one(),
{
    lemma_pow2_adds((150 - e) as nat, (e - 1) as nat);
    lemma_mul_is_associative(
        n,
        pow2((150 - e) as nat) as int,
        pow2((e - 1) as nat) as int,
    );
}

/// What rounding takes of a quotient of no more than `most`.
pub proof fn lemma_rounding_error(r: Single, x: int, scale: int, most: int, error: int)
    requires
        rounds(r, x, scale),
        scale > 0,
        size(x) <= most * scale,
        most + 0x100_0000 <= error * 0x100_0000,
    ensures
        !r.nan(),
        size(r.units() * scale - x) <= error * scale,
{
    let off = size(r.units() * scale - x);
    assert(off <= error * scale) by (nonlinear_arith)
        requires
            off * 0x100_0000 <= most * scale + 0x100_0000 * scale,
            most + 0x100_0000 <= error * 0x100_0000,
            scale > 0,
    ;
}

/// What rounding takes of a sum of no more than `most`.
pub proof fn lemma_sum(ops: Operations, a: Single, b: Single, most: int, error: int)
    requires
        rounded(ops),
        moderate(a),
        moderate(b),
        size(a.units() + b.units()) <= most,
        most + 0x100_0000 <= error * 0x100_0000,
    ensures
        !(ops.plus)(a, b).nan(),
        size((ops.plus)(a, b).units() - (a.units() + b.units())) <= error,
{
    lemma_rounding_error((ops.plus)(a, b), a.units() + b.units(), 1, most, error);
}

/// What rounding takes of a difference of no more than `most`.
pub proof fn lemma_difference(ops: Operations, a: Single, b: Single, most: int, error: int)
    requires
        rounded(ops),
        moderate(a),
        moderate(b),
        size(a.units() - b.units()) <= most,
        most + 0x100_0000 <= error * 0x100_0000,
    ensures
        !(ops.minus)(a, b).nan(),
        size((ops.minus)(a, b).units() - (a.units() - b.units())) <= error,
{
    lemma_rounding_error((ops.minus)(a, b), a.units() - b.units(), 1, most, error);
}

/// What rounding takes of a product of no more than `most`.
pub proof fn lemma_product(ops: Operations, a: Single, b: Single, most: int, error: int)
    requires
        rounded(ops),
        moderate(a),
        moderate(b),
        size(a.units() * b.units()) <= most * one(),
        most + 0x100_0000 <= error * 0x100_0000,
    ensures
        !(ops.times)(a, b).nan(),
        size((ops.times)(a, b).units() * one() - a.units() * b.units()) <= error * one(),
{
    lemma_grain();
    lemma_rounding_error((ops.times)(a, b), a.units() * b.units(), one(), most, error);
}

/// What rounding takes of a quotient of no more than `most`.
pub proof fn lemma_ratio(ops: Operations, a: Single, b: Single, most: int, error: int)
    requires
        rounded(ops),
        moderate(a),
        moderate(b),
        b.units() > 0,
        size(a.units()) <= 0x1_0000_0000_0000 * b.units(),
        size(a.units() * one()) <= most * b.units(),
        most + 0x100_0000 <= error * 0x100_0000,
    ensures
        !(ops.over)(a, b).nan(),
        size((ops.over)(a, b).units() * b.units() - a.units() * one()) <= error * b.units(),
{
    lemma_rounding_error((ops.over)(a, b), a.units() * one(), b.units(), most, error);
}

/// What rounding takes of a quotient by a negative number, of no more than `most`.
pub proof fn lemma_ratio_down(ops: Operations, a: Single, b: Single, most: int, error: int)
    requires
        rounded_down(ops),
        moderate(a),
        moderate(b),
        b.units() < 0,
        size(a.units()) <= 0x1_0000_0000_0000 * -b.units(),
        size(a.units() * one()) <= most * -b.units(),
        most + 0x100_0000 <= error * 0x100_0000,
    ensures
        !(ops.over)(a, b).nan(),
        size((ops.over)(a, b).units() * -b.units() + a.units() * one()) <= error * -b.units(),
{
    let x = -a.units() * one();
    assert(x == -(a.units() * one())) by (nonlinear_arith)
        requires
            x == -a.units() * one(),
    ;
    lemma_rounding_error((ops.over)(a, b), x, -b.units(), most, error);
}

/// Numbers of the same size are both finite or both not.
pub proof fn lemma_finite_like(s: Single, c: Single)
    requires
        hits(s, c),
        finite(c),
    ensures
        finite(s),
{
    Single::law_key_order(s, c);
}

/// A moderate number is no infinity.
pub proof fn lemma_moderate_finite(s: Single)
    requires
        moderate(s),
    ensures
        finite(s),
{
    if s.magnitude() == 0x7f80_0000 {
        lemma2_to64();
        lemma2_to64_rest();
        lemma_pow2_adds(149, 105);
        lemma_pow2_strictly_increases(64, 105);
        lemma_pow2_pos(149);
        let o = one();
        let p = pow2(105) as int;
        assert(0x80_0000 * (o * p) > 0x1_0000_0000_0000 * o) by (nonlinear_arith)
            requires
                p > 0x1_0000_0000_0000_0000,
                o > 0,
        ;
        assert(size(s.units()) == 0x80_0000 * pow2(254));
    }
}

} // verus!
