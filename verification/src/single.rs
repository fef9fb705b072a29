//! IEEE 754 single-precision numbers, held as their bit patterns.
//!
//! The library never computes with floating point itself. It orders, compares,
//! truncates and rounds the numbers by their patterns, and everything it says
//! about them is stated over the integers: a number that is not a NaN counts a
//! whole number of units of `2^-149`, the smallest positive single.
use vstd::prelude::*;
use vstd::arithmetic::power2::*;
use vstd::arithmetic::div_mod::*;
use vstd::arithmetic::mul::*;

verus! {

/// A single-precision number, by its bit pattern. `==` compares patterns; the
/// numeric comparisons are the methods [`Single::lt`], [`Single::le`] and
/// [`Single::same`].
#[derive(Clone, Copy, Debug, PartialEq, Eq, Structural)]
pub struct Single {
    pub bits: u32,
}

/// The non-negative binary floating-point number whose pattern is `magnitude`, in
/// multiples of the smallest positive number of its format, where `base` is the
/// pattern at which the exponent first counts: `2^23` for a single. Infinity
/// counts as the power of two that comes after the largest number.
pub open spec fn units_in(magnitude: int, base: int) -> int {
    let exponent = magnitude / base;
    let fraction = magnitude % base;
    if exponent == 0 {
        fraction
    } else {
        (base + fraction) * pow2((exponent - 1) as nat)
    }
}

/// The number of units of `2^-149` in the non-negative number whose pattern is
/// `magnitude`. Infinity counts as `2^128`.
pub open spec fn units_of(magnitude: int) -> int {
    units_in(magnitude, 0x80_0000)
}

/// One, in units of `2^-149`.
pub open spec fn one() -> int {
    pow2(149) as int
}

/// `x` moved into the range from `low` to `high`.
pub open spec fn saturate(x: int, low: int, high: int) -> int {
    if x < low {
        low
    } else if x > high {
        high
    } else {
        x
    }
}

/// Whether `x` is within `slack` of `y`.
pub open spec fn close(x: int, y: int, slack: int) -> bool {
    -slack <= x - y <= slack
}

impl Single {
    /// Whether the sign bit is set.
    pub open spec fn negative(self) -> bool {
        self.bits >= 0x8000_0000
    }

    /// The pattern without its sign bit.
    pub open spec fn magnitude(self) -> int {
        if self.negative() {
            self.bits - 0x8000_0000
        } else {
            self.bits as int
        }
    }

    /// Whether the pattern stands for no number.
    pub open spec fn nan(self) -> bool {
        self.magnitude() > 0x7f80_0000
    }

    /// The number, in units of `2^-149`; of no meaning for a NaN.
    pub open spec fn units(self) -> int {
        if self.negative() {
            -units_of(self.magnitude())
        } else {
            units_of(self.magnitude())
        }
    }

    /// `self < other` as numbers; false where either is a NaN.
    pub open spec fn below(self, other: Single) -> bool {
        !self.nan() && !other.nan() && self.units() < other.units()
    }

    /// `self <= other` as numbers; false where either is a NaN.
    pub open spec fn at_most(self, other: Single) -> bool {
        !self.nan() && !other.nan() && self.units() <= other.units()
    }

    /// `self == other` as numbers; false where either is a NaN.
    pub open spec fn equals(self, other: Single) -> bool {
        !self.nan() && !other.nan() && self.units() == other.units()
    }

    /// The largest whole number not above this one.
    pub open spec fn floor_whole(self) -> int {
        self.units() / one()
    }

    /// The smallest whole number not below this one.
    pub open spec fn ceil_whole(self) -> int {
        -((-self.units()) / one())
    }

    /// The nearest whole number, halves away from zero.
    pub open spec fn nearest_whole(self) -> int {
        if self.negative() {
            -((units_of(self.magnitude()) + pow2(148)) / one())
        } else {
            (units_of(self.magnitude()) + pow2(148)) / one()
        }
    }
}

/// Patterns without a sign order as the numbers that they stand for.
pub proof fn lemma_units_in_increase(a: int, b: int, base: int)
    requires
        0 <= a < b,
        base > 0,
    ensures
        0 <= units_in(a, base) < units_in(b, base),
{
    let ea = a / base;
    let fa = a % base;
    let eb = b / base;
    let fb = b % base;
    lemma_fundamental_div_mod(a, base);
    lemma_fundamental_div_mod(b, base);
    lemma_mod_bound(a, base);
    lemma_mod_bound(b, base);
    lemma_div_is_ordered(a, b, base);
    lemma_div_pos_is_pos(a, base);
    if ea > 0 {
        lemma_pow2_pos((ea - 1) as nat);
        lemma_mul_strictly_positive(base + fa, pow2((ea - 1) as nat) as int);
    }
    if eb > 0 {
        let pb = pow2((eb - 1) as nat) as int;
        lemma_pow2_pos((eb - 1) as nat);
        if ea == eb {
            lemma_mul_strict_inequality(base + fa, base + fb, pb);
        } else {
            lemma_mul_inequality(base, base + fb, pb);
            if ea == 0 {
                lemma_mul_inequality(1, pb, base);
                lemma_mul_is_commutative(pb, base);
            } else {
                let pa = pow2((ea - 1) as nat) as int;
                lemma_mul_strict_inequality(base + fa, 2 * base, pa);
                lemma_pow2_unfold(ea as nat);
                if ea < eb - 1 {
                    lemma_pow2_strictly_increases(ea as nat, (eb - 1) as nat);
                }
                lemma_mul_inequality(2 * pa, pb, base);
                lemma_mul_is_commutative(pb, base);
                assert((2 * base) * pa == (2 * pa) * base) by (nonlinear_arith);
            }
        }
    }
}

/// Patterns without a sign order as the numbers that they stand for.
proof fn lemma_units_increase(a: int, b: int)
    requires
        0 <= a < b,
    ensures
        0 <= units_of(a) < units_of(b),
{
    lemma_units_in_increase(a, b, 0x80_0000);
}

impl Single {
    /// A key that orders as the numbers do: the pattern as a signed magnitude.
    pub open spec fn spec_key(self) -> int {
        if self.negative() {
            -self.magnitude()
        } else {
            self.magnitude()
        }
    }

    /// Keys order as numbers do.
    pub proof fn law_key_order(a: Single, b: Single)
        ensures
            a.spec_key() < b.spec_key() <==> a.units() < b.units(),
            a.spec_key() == b.spec_key() <==> a.units() == b.units(),
    {
        let ma = a.magnitude();
        let mb = b.magnitude();
        if ma < mb {
            lemma_units_increase(ma, mb);
        }
        if mb < ma {
            lemma_units_increase(mb, ma);
        }
        if 0 < ma {
            lemma_units_increase(0, ma);
        }
        if 0 < mb {
            lemma_units_increase(0, mb);
        }
    }

    /// The key of the number.
    pub fn key(self) -> (k: i64)
        ensures
            k == self.spec_key(),
            -0x8000_0000 < k < 0x8000_0000,
    {
        if self.bits >= 0x8000_0000 {
            -((self.bits - 0x8000_0000) as i64)
        } else {
            self.bits as i64
        }
    }

    /// Whether the pattern stands for no number.
    pub fn is_nan(self) -> (r: bool)
        ensures
            r == self.nan(),
    {
        if self.bits >= 0x8000_0000 {
            self.bits - 0x8000_0000 > 0x7f80_0000
        } else {
            self.bits > 0x7f80_0000
        }
    }

    /// `self < other`.
    pub fn lt(self, other: Single) -> (r: bool)
        ensures
            r == self.below(other),
    {
        proof {
            Single::law_key_order(self, other);
        }
        !self.is_nan() && !other.is_nan() && self.key() < other.key()
    }

    /// `self <= other`.
    pub fn le(self, other: Single) -> (r: bool)
        ensures
            r == self.at_most(other),
    {
        proof {
            Single::law_key_order(self, other);
        }
        !self.is_nan() && !other.is_nan() && self.key() <= other.key()
    }

    /// `self == other`.
    pub fn same(self, other: Single) -> (r: bool)
        ensures
            r == self.equals(other),
    {
        proof {
            Single::law_key_order(self, other);
        }
        !self.is_nan() && !other.is_nan() && self.key() == other.key()
    }
}

/// A quotient from its remainder: `x / d` and `x % d` where `x == d * q + r`.
proof fn lemma_quotient(x: int, d: int, q: int, r: int)
    requires
        x == d * q + r,
        0 <= r < d,
    ensures
        x / d == q,
        x % d == r,
{
    lemma_mul_is_commutative(d, q);
    lemma_fundamental_div_mod_converse(x, d, q, r);
}

/// The unsigned pattern `magnitude` split at the binary point.
proof fn lemma_split(magnitude: int, shift: nat)
    requires
        126 <= magnitude / 0x80_0000 < 150,
        shift == 150 - magnitude / 0x80_0000,
    ensures
        ({
            let m = 0x80_0000 + magnitude % 0x80_0000;
            let k = pow2(shift) as int;
            let p = pow2((149 - shift) as nat) as int;
            &&& units_of(magnitude) / one() == m / k
            &&& units_of(magnitude) % one() == (m % k) * p
            &&& one() == k * p
            &&& p > 0
            &&& k > 0
        }),
{
    let m = 0x80_0000 + magnitude % 0x80_0000;
    let k = pow2(shift) as int;
    let p = pow2((149 - shift) as nat) as int;
    lemma_pow2_pos(shift);
    lemma_pow2_pos((149 - shift) as nat);
    lemma_pow2_adds(shift, (149 - shift) as nat);
    let q = m / k;
    let g = m % k;
    lemma_fundamental_div_mod(m, k);
    lemma_mod_bound(m, k);
    assert(units_of(magnitude) == m * p);
    assert(m * p == (k * p) * q + g * p) by (nonlinear_arith)
        requires
            m == k * q + g,
    ;
    assert(0 <= g * p < k * p) by (nonlinear_arith)
        requires
            0 <= g < k,
            p > 0,
    ;
    lemma_quotient(units_of(magnitude), one(), q, g * p);
}

/// Splits the unsigned pattern of a number at the binary point: the whole part,
/// at most `u64::MAX`, and what lies behind the point: 0 for nothing, 1 for less
/// than a half, 2 for a half or more.
fn split(magnitude: u32) -> (r: (u64, u8))
    requires
        magnitude <= 0x7f80_0000,
    ensures
        r.0 == saturate(units_of(magnitude as int) / one(), 0, u64::MAX as int),
        r.1 <= 2,
        r.1 > 0 ==> r.0 < 0x100_0000,
        r.1 == 0 <==> units_of(magnitude as int) % one() == 0,
        r.1 == 2 <==> 2 * (units_of(magnitude as int) % one()) >= one(),
        units_of(magnitude as int) >= 0,
{
    let e: u32 = magnitude / 0x80_0000;
    let f: u32 = magnitude % 0x80_0000;
    let ghost u = units_of(magnitude as int);
    proof {
        lemma2_to64();
        lemma2_to64_rest();
        if magnitude > 0 {
            lemma_units_increase(0, magnitude as int);
        }
        lemma_pow2_unfold(149);
        lemma_pow2_strictly_increases(24, 148);
    }
    if e == 0 {
        proof {
            lemma_quotient(u, one(), 0, u);
        }
        if f == 0 {
            (0, 0)
        } else {
            (0, 1)
        }
    } else if e < 126 {
        proof {
            let m = 0x80_0000 + f as int;
            let p = pow2((e - 1) as nat) as int;
            let h = pow2((149 - e) as nat) as int;
            lemma_pow2_pos((e - 1) as nat);
            lemma_pow2_adds((149 - e) as nat, (e - 1) as nat);
            if 149 - e > 24 {
                lemma_pow2_strictly_increases(24, (149 - e) as nat);
            }
            assert(m * p < h * p) by (nonlinear_arith)
                requires
                    m < h,
                    p > 0,
            ;
            lemma_quotient(u, one(), 0, u);
        }
        (0, 1)
    } else if e < 150 {
        let shift: u32 = 150 - e;
        let m: u64 = 0x80_0000 + f as u64;
        let q: u64 = m >> shift;
        let k: u64 = 1u64 << shift;
        proof {
            vstd::bits::lemma_u64_shr_is_div(m, shift as u64);
            vstd::bits::lemma_u64_pow2_no_overflow(shift as nat);
            assert(1 * pow2(shift as nat) <= u64::MAX);
            vstd::bits::lemma_u64_shl_is_mul(1, shift as u64);
            lemma_split(magnitude as int, shift as nat);
            lemma_div_nonincreasing(m as int, k as int);
        }
        let g: u64 = m % k;
        proof {
            let p = pow2((149 - shift) as nat) as int;
            let gi = g as int;
            let ki = k as int;
            assert((gi == 0 <==> gi * p == 0) && (2 * gi >= ki <==> 2 * (gi * p) >= ki * p)) by (nonlinear_arith)
                requires
                    p > 0,
                    gi >= 0,
            ;
            if shift < 24 {
                lemma_pow2_strictly_increases(shift as nat, 24);
            }
        }
        if g == 0 {
            (q, 0)
        } else if g >= k - g {
            (q, 2)
        } else {
            (q, 1)
        }
    } else {
        proof {
            let m = 0x80_0000 + f as int;
            let w = pow2((e - 150) as nat) as int;
            lemma_pow2_adds((e - 150) as nat, 149);
            lemma_mul_is_associative(m, w, one());
            lemma_mul_is_commutative(m * w, one());
            lemma_quotient(u, one(), m * w, 0);
            if e >= 191 {
                if e > 191 {
                    lemma_pow2_strictly_increases(41, (e - 150) as nat);
                }
                lemma_mul_inequality(0x80_0000, m, w);
                lemma_mul_inequality(pow2(41) as int, w, 0x80_0000);
                lemma_mul_is_commutative(0x80_0000, w);
            } else {
                if e < 190 {
                    lemma_pow2_strictly_increases((e - 150) as nat, 40);
                }
                lemma_pow2_pos((e - 150) as nat);
                lemma_mul_inequality(m, 0xff_ffff, w);
                lemma_mul_inequality(w, pow2(40) as int, 0xff_ffff);
                lemma_mul_is_commutative(0xff_ffff, w);
                lemma_mul_nonnegative(m, w);
            }
        }
        if e >= 191 {
            (u64::MAX, 0)
        } else {
            let m: u64 = 0x80_0000 + f as u64;
            let shift: u32 = e - 150;
            proof {
                vstd::bits::lemma_u64_shl_is_mul(m, shift as u64);
            }
            (m << shift, 0)
        }
    }
}

/// The pattern of `m * 2^(e - 150)`, where that number is a normal single.
fn encode(m: u32, e: u32) -> (magnitude: u32)
    requires
        0 < m < 0x100_0000,
        24 <= e < 255,
    ensures
        0 < magnitude < 0x7f80_0000,
        units_of(magnitude as int) == m * pow2((e - 1) as nat),
{
    let mut mantissa: u32 = m;
    let mut exponent: u32 = e;
    proof {
        lemma2_to64();
        lemma_mul_basics(m as int);
    }
    while mantissa < 0x80_0000
        invariant
            0 < m,
            mantissa < 0x100_0000,
            e - 23 <= exponent <= e,
            24 <= e < 255,
            mantissa == m * pow2((e - exponent) as nat),
            pow2(0) == 1,
            pow2(23) == 0x80_0000,
        decreases 0x100_0000 - mantissa,
    {
        proof {
            let n = (e - exponent) as nat;
            if n == 23 {
                lemma_mul_inequality(1, m as int, 0x80_0000);
            }
            lemma_pow2_unfold(n + 1);
            assert(2 * (m * pow2(n)) == m * (2 * pow2(n))) by (nonlinear_arith);
            lemma_pow2_pos(n);
            lemma_mul_strictly_positive(m as int, pow2(n) as int);
        }
        mantissa = mantissa * 2;
        exponent = exponent - 1;
    }
    proof {
        lemma_pow2_adds((e - exponent) as nat, (exponent - 1) as nat);
        lemma_mul_is_associative(
            m as int,
            pow2((e - exponent) as nat) as int,
            pow2((exponent - 1) as nat) as int,
        );
        let magnitude = exponent * 0x80_0000 + (mantissa - 0x80_0000);
        assert(magnitude / 0x80_0000 == exponent);
        assert(magnitude % 0x80_0000 == mantissa - 0x80_0000);
    }
    exponent * 0x80_0000 + (mantissa - 0x80_0000)
}

/// Rounding by the remainder: `(u + d / 2) / d` and `-((-u) / d)`.
proof fn lemma_rounding(u: int, half: int)
    requires
        u >= 0,
        half > 0,
    ensures
        (u + half) / (2 * half) == u / (2 * half) + (if 2 * (u % (2 * half)) >= 2 * half {
            1int
        } else {
            0
        }),
        -((-u) / (2 * half)) == u / (2 * half) + (if u % (2 * half) > 0 {
            1int
        } else {
            0
        }),
{
    let d = 2 * half;
    let q = u / d;
    let r = u % d;
    lemma_fundamental_div_mod(u, d);
    lemma_mod_bound(u, d);
    assert(d * (q + 1) == d * q + d && d * (-q) == -(d * q) && d * (-(q + 1)) == -(d * q) - d) by (nonlinear_arith);
    if 2 * r >= d {
        lemma_quotient(u + half, d, q + 1, r - half);
    } else {
        lemma_quotient(u + half, d, q, r + half);
    }
    if r > 0 {
        lemma_quotient(-u, d, -(q + 1), d - r);
    } else {
        lemma_quotient(-u, d, -q, 0);
    }
}

proof fn lemma_one()
    ensures
        one() == 2 * pow2(148),
        pow2(148) > 0,
{
    lemma_pow2_unfold(149);
    lemma_pow2_pos(148);
}

/// `x` as an `i32`, at most `i32::MAX`, under the sign given.
fn signed(x: u64, negative: bool) -> (r: i32)
    ensures
        r == saturate(
            if negative {
                -(x as int)
            } else {
                x as int
            },
            i32::MIN as int,
            i32::MAX as int,
        ),
{
    if negative {
        if x >= 0x8000_0000 {
            i32::MIN
        } else {
            (-(x as i64)) as i32
        }
    } else if x > 0x7fff_ffff {
        i32::MAX
    } else {
        x as i32
    }
}

impl Single {
    /// `x` held to the range of a machine integer; 0 for a NaN.
    pub open spec fn cast(self, x: int, low: int, high: int) -> int {
        if self.nan() {
            0
        } else {
            saturate(x, low, high)
        }
    }

    fn sign_and_magnitude(self) -> (r: (bool, u32))
        ensures
            r.0 == self.negative(),
            r.1 == self.magnitude(),
    {
        if self.bits >= 0x8000_0000 {
            (true, self.bits - 0x8000_0000)
        } else {
            (false, self.bits)
        }
    }

    /// The largest whole number not above this one, held to a `usize`.
    pub fn floor_usize(self) -> (r: usize)
        ensures
            r == self.cast(self.floor_whole(), 0, usize::MAX as int),
    {
        if self.is_nan() {
            return 0;
        }
        let (negative, magnitude) = self.sign_and_magnitude();
        let (whole, rest) = split(magnitude);
        proof {
            lemma_one();
            lemma_rounding(units_of(magnitude as int), pow2(148) as int);
        }
        if negative {
            0
        } else if whole > usize::MAX as u64 {
            usize::MAX
        } else {
            whole as usize
        }
    }

    /// The nearest whole number, halves away from zero, held to a `usize`.
    pub fn round_usize(self) -> (r: usize)
        ensures
            r == self.cast(self.nearest_whole(), 0, usize::MAX as int),
    {
        if self.is_nan() {
            return 0;
        }
        let (negative, magnitude) = self.sign_and_magnitude();
        let (whole, rest) = split(magnitude);
        proof {
            lemma_one();
            lemma_rounding(units_of(magnitude as int), pow2(148) as int);
        }
        let near: u64 = if rest == 2 {
            whole + 1
        } else {
            whole
        };
        if negative {
            0
        } else if near > usize::MAX as u64 {
            usize::MAX
        } else {
            near as usize
        }
    }

    /// The largest whole number not above this one, held to an `i32`.
    pub fn floor_i32(self) -> (r: i32)
        ensures
            r == self.cast(self.floor_whole(), i32::MIN as int, i32::MAX as int),
    {
        if self.is_nan() {
            return 0;
        }
        let (negative, magnitude) = self.sign_and_magnitude();
        let (whole, rest) = split(magnitude);
        proof {
            lemma_one();
            lemma_rounding(units_of(magnitude as int), pow2(148) as int);
        }
        if negative && rest > 0 {
            signed(whole + 1, true)
        } else {
            signed(whole, negative)
        }
    }

    /// The smallest whole number not below this one, held to an `i32`.
    pub fn ceil_i32(self) -> (r: i32)
        ensures
            r == self.cast(self.ceil_whole(), i32::MIN as int, i32::MAX as int),
    {
        if self.is_nan() {
            return 0;
        }
        let (negative, magnitude) = self.sign_and_magnitude();
        let (whole, rest) = split(magnitude);
        proof {
            lemma_one();
            lemma_rounding(units_of(magnitude as int), pow2(148) as int);
        }
        if !negative && rest > 0 {
            signed(whole + 1, false)
        } else {
            signed(whole, negative)
        }
    }

    /// The nearest whole number, halves away from zero, held to an `i32`.
    pub fn round_i32(self) -> (r: i32)
        ensures
            r == self.cast(self.nearest_whole(), i32::MIN as int, i32::MAX as int),
    {
        if self.is_nan() {
            return 0;
        }
        let (negative, magnitude) = self.sign_and_magnitude();
        let (whole, rest) = split(magnitude);
        proof {
            lemma_one();
            lemma_rounding(units_of(magnitude as int), pow2(148) as int);
        }
        if rest == 2 {
            signed(whole + 1, negative)
        } else {
            signed(whole, negative)
        }
    }

    /// Whether `r` is this number at the nearest whole number, halves away from
    /// zero, with the sign kept.
    pub open spec fn rounds_to(self, r: Single) -> bool {
        &&& !r.nan()
        &&& r.negative() == self.negative()
        &&& r.units() == self.nearest_whole() * one()
    }

    /// The nearest whole number, halves away from zero, as a single; the sign is
    /// kept, and a NaN stays what it is.
    pub open spec fn spec_round(self) -> Single {
        if self.nan() {
            self
        } else {
            choose|r: Single| self.rounds_to(r)
        }
    }

    /// The nearest whole number, halves away from zero, as a single; the sign is
    /// kept, and a NaN stays what it is.
    pub fn round(self) -> (r: Single)
        ensures
            r == self.spec_round(),
            !self.nan() ==> self.rounds_to(r),
    {
        if self.is_nan() {
            return self;
        }
        let rounded: Single = self.round_number();
        proof {
            Single::law_pattern(rounded, self.spec_round());
        }
        rounded
    }

    fn round_number(self) -> (r: Single)
        requires
            !self.nan(),
        ensures
            self.rounds_to(r),
    {
        let (negative, magnitude) = self.sign_and_magnitude();
        let (whole, rest) = split(magnitude);
        let ghost u = units_of(magnitude as int);
        proof {
            lemma_one();
            lemma_rounding(u, pow2(148) as int);
            lemma_fundamental_div_mod(u, one());
            lemma_mul_is_commutative(one(), u / one());
        }
        if rest == 0 {
            proof {
                assert((-(u / one())) * one() == -((u / one()) * one())) by (nonlinear_arith);
            }
            return self;
        }
        let near: u32 = if rest == 2 {
            (whole + 1) as u32
        } else {
            whole as u32
        };
        proof {
            let n = near as int;
            assert((-n) * one() == -(n * one())) by (nonlinear_arith);
            assert(self.nearest_whole() == (if negative {
                -n
            } else {
                n
            }));
        }
        let rounded: u32 = if near == 0 {
            0
        } else {
            proof {
                lemma_whole_fits(magnitude as int);
            }
            encode(near, 150)
        };
        if negative {
            Single { bits: rounded + 0x8000_0000 }
        } else {
            Single { bits: rounded }
        }
    }
}

/// A number with something behind the binary point is below `2^23`.
proof fn lemma_whole_fits(magnitude: int)
    requires
        0 <= magnitude <= 0x7f80_0000,
        units_of(magnitude) % one() != 0,
    ensures
        units_of(magnitude) / one() < 0x80_0000,
{
    let e = magnitude / 0x80_0000;
    let f = magnitude % 0x80_0000;
    lemma2_to64();
    if e >= 150 {
        let m = 0x80_0000 + f;
        let w = pow2((e - 150) as nat) as int;
        lemma_pow2_adds((e - 150) as nat, 149);
        lemma_mul_is_associative(m, w, one());
        lemma_mul_is_commutative(m * w, one());
        lemma_pow2_pos(149);
        lemma_quotient(units_of(magnitude), one(), m * w, 0);
    } else {
        lemma_units_increase(magnitude, 0x4b00_0000);
        assert((0x4b00_0000int) / 0x80_0000 == 150);
        assert((0x4b00_0000int) % 0x80_0000 == 0);
        assert(units_of(0x4b00_0000) == 0x80_0000 * one());
        lemma_pow2_pos(149);
        lemma_multiply_divide_lt(units_of(magnitude), one(), 0x80_0000);
    }
}

impl Single {
    /// The number without its sign.
    pub open spec fn spec_abs(self) -> Single {
        Single { bits: self.magnitude() as u32 }
    }

    /// The number without its sign.
    pub fn abs(self) -> (r: Single)
        ensures
            r == self.spec_abs(),
            r.nan() == self.nan(),
            r.units() == (if self.units() < 0 {
                -self.units()
            } else {
                self.units()
            }),
    {
        let (negative, magnitude) = self.sign_and_magnitude();
        proof {
            if magnitude > 0 {
                lemma_units_increase(0, magnitude as int);
            }
        }
        Single { bits: magnitude }
    }

    /// The larger of two numbers; the other one where one is a NaN.
    pub open spec fn spec_max(self, other: Single) -> Single {
        if self.nan() || self.below(other) {
            other
        } else {
            self
        }
    }

    /// The larger of two numbers; the other one where one is a NaN.
    pub fn max(self, other: Single) -> (r: Single)
        ensures
            r == self.spec_max(other),
    {
        if self.is_nan() || self.lt(other) {
            other
        } else {
            self
        }
    }

    /// The number moved into the range from `low` to `high`; a NaN stays one.
    pub open spec fn spec_clamp(self, low: Single, high: Single) -> Single {
        if self.below(low) {
            low
        } else if high.below(self) {
            high
        } else {
            self
        }
    }

    /// The number moved into the range from `low` to `high`; a NaN stays one.
    pub fn clamp(self, low: Single, high: Single) -> (r: Single)
        requires
            low.at_most(high),
        ensures
            r == self.spec_clamp(low, high),
            !r.below(low),
            !high.below(r),
    {
        if self.lt(low) {
            low
        } else if high.lt(self) {
            high
        } else {
            self
        }
    }

    /// The single that is `x / 32768`: a signed 16-bit sample on the scale from
    /// -1 to 1.
    pub open spec fn is_sample(self, x: int) -> bool {
        &&& !self.nan()
        &&& self.negative() == (x < 0)
        &&& self.units() * 0x8000 == x * one()
    }

    /// The 16-bit sample `x` on the scale from -1 to 1.
    pub open spec fn of_sample(x: int) -> Single {
        choose|s: Single| s.is_sample(x)
    }

    /// A signed 16-bit sample on the scale from -1 to 1.
    pub fn from_i16(x: i16) -> (r: Single)
        ensures
            r.is_sample(x as int),
            r == Single::of_sample(x as int),
    {
        let sample = Single::sample_pattern(x);
        proof {
            Single::law_sample_unique(sample, Single::of_sample(x as int), x as int);
        }
        sample
    }

    fn sample_pattern(x: i16) -> (r: Single)
        ensures
            r.is_sample(x as int),
    {
        if x == 0 {
            return Single { bits: 0 };
        }
        let negative: bool = x < 0;
        let size: u32 = if negative {
            (-(x as i32)) as u32
        } else {
            x as u32
        };
        let magnitude: u32 = encode(size, 135);
        proof {
            lemma2_to64();
            lemma_pow2_adds(134, 15);
            let n = size as int;
            let p = pow2(134) as int;
            assert((n * p) * 0x8000 == n * (p * 0x8000)) by (nonlinear_arith);
            assert((-n) * one() == -(n * one())) by (nonlinear_arith);
        }
        if negative {
            Single { bits: magnitude + 0x8000_0000 }
        } else {
            Single { bits: magnitude }
        }
    }

    /// An unsigned 16-bit sample on the scale from -1 to 1.
    pub fn from_u16(x: u16) -> (r: Single)
        ensures
            r.is_sample(x - 0x8000),
            r == Single::of_sample(x - 0x8000),
    {
        Single::from_i16((x as i32 - 0x8000) as i16)
    }

    /// A number and its sign settle the pattern.
    pub proof fn law_pattern(a: Single, b: Single)
        requires
            a.negative() == b.negative(),
            a.units() == b.units(),
        ensures
            a == b,
    {
        Single::law_key_order(a, b);
    }

    /// A 16-bit sample stands for one pattern only, so that a signed and an
    /// unsigned sample of one level are the same number.
    pub proof fn law_sample_unique(a: Single, b: Single, x: int)
        requires
            a.is_sample(x),
            b.is_sample(x),
        ensures
            a == b,
    {
        Single::law_pattern(a, b);
    }
}

/// A pattern for `m * 2^(e - 150)`; `k` doublings bring `m` up to `2^23`.
proof fn lemma_encodable(m: int, e: int, k: nat) -> (magnitude: int)
    requires
        0 < m < 0x100_0000,
        k < e < 255,
        m * pow2(k) >= 0x80_0000,
    ensures
        0 < magnitude < 0x7f80_0000,
        units_of(magnitude) == m * pow2((e - 1) as nat),
    decreases k,
{
    if m >= 0x80_0000 {
        let magnitude = e * 0x80_0000 + (m - 0x80_0000);
        assert(magnitude / 0x80_0000 == e);
        assert(magnitude % 0x80_0000 == m - 0x80_0000);
        magnitude
    } else {
        lemma2_to64();
        lemma_mul_basics(m);
        assert(k > 0);
        lemma_pow2_unfold(k);
        lemma_pow2_unfold((e - 1) as nat);
        let half = pow2((k - 1) as nat) as int;
        assert((2 * m) * half == m * (2 * half)) by (nonlinear_arith);
        let rest = pow2((e - 2) as nat) as int;
        assert((2 * m) * rest == m * (2 * rest)) by (nonlinear_arith);
        lemma_encodable(2 * m, e - 1, (k - 1) as nat)
    }
}

/// Every number rounds to a single: the whole number nearest to it.
pub proof fn law_round_fits(s: Single)
    requires
        !s.nan(),
    ensures
        s.rounds_to(s.spec_round()),
{
    let u = units_of(s.magnitude());
    lemma_one();
    if 0 < s.magnitude() {
        lemma_units_increase(0, s.magnitude());
    }
    lemma_rounding(u, pow2(148) as int);
    lemma_fundamental_div_mod(u, one());
    lemma_mul_is_commutative(one(), u / one());
    if u % one() == 0 {
        assert((-(u / one())) * one() == -((u / one()) * one())) by (nonlinear_arith);
        assert(s.rounds_to(s));
    } else {
        lemma_whole_fits(s.magnitude());
        lemma_div_pos_is_pos(u, one());
        let n = (u + pow2(148)) / one();
        assert((-n) * one() == -(n * one())) by (nonlinear_arith);
        lemma2_to64();
        let magnitude = if n == 0 {
            0
        } else {
            lemma_mul_inequality(1, n, 0x80_0000);
            lemma_encodable(n, 150, 23)
        };
        let r = Single {
            bits: (if s.negative() {
                magnitude + 0x8000_0000
            } else {
                magnitude
            }) as u32,
        };
        assert(r.magnitude() == magnitude);
        assert(s.rounds_to(r));
    }
}

/// Every 16-bit sample has a single: `x / 32768` exactly.
pub proof fn law_sample_fits(x: int)
    requires
        -0x8000 <= x < 0x8000,
    ensures
        Single::of_sample(x).is_sample(x),
{
    lemma2_to64();
    let n = if x < 0 {
        -x
    } else {
        x
    };
    let magnitude = if x == 0 {
        0
    } else {
        lemma_mul_inequality(1, n, 0x80_0000);
        lemma_encodable(n, 135, 23)
    };
    let s = Single {
        bits: (if x < 0 {
            magnitude + 0x8000_0000
        } else {
            magnitude
        }) as u32,
    };
    let p = pow2(134) as int;
    lemma_pow2_adds(134, 15);
    assert((n * p) * 0x8000 == n * (p * 0x8000)) by (nonlinear_arith);
    assert((-n) * one() == -(n * one())) by (nonlinear_arith);
    assert(s.magnitude() == magnitude);
    assert(s.is_sample(x));
}

/// A number without its sign has its size, and is a NaN where the number is.
pub proof fn law_abs(s: Single)
    ensures
        s.spec_abs().nan() == s.nan(),
        s.units() >= 0 ==> s.spec_abs().units() == s.units(),
        s.units() < 0 ==> s.spec_abs().units() == -s.units(),
{
    if s.magnitude() > 0 {
        lemma_units_increase(0, s.magnitude());
    }
}

/// The larger of two numbers is one of them, and no smaller than either.
pub proof fn law_max(a: Single, b: Single)
    requires
        !a.nan(),
        !b.nan(),
    ensures
        a.spec_max(b) == a || a.spec_max(b) == b,
        a.at_most(a.spec_max(b)),
        b.at_most(a.spec_max(b)),
{
}

/// Clamping moves a number no further than it has to: into the range, and not at all
/// where it lies there.
pub proof fn law_clamp(s: Single, low: Single, high: Single)
    requires
        !s.nan(),
        low.at_most(high),
    ensures
        low.at_most(s.spec_clamp(low, high)),
        s.spec_clamp(low, high).at_most(high),
        low.at_most(s) && s.at_most(high) ==> s.spec_clamp(low, high) == s,
        s.below(low) ==> s.spec_clamp(low, high) == low,
        high.below(s) ==> s.spec_clamp(low, high) == high,
{
}

/// The whole numbers around a number: the largest that is not above it, and the smallest
/// that is not below it.
pub proof fn law_floor_and_ceiling(s: Single)
    ensures
        s.floor_whole() * one() <= s.units() < (s.floor_whole() + 1) * one(),
        (s.ceil_whole() - 1) * one() < s.units() <= s.ceil_whole() * one(),
{
    let u = s.units();
    lemma_one();
    lemma_fundamental_div_mod(u, one());
    lemma_mod_bound(u, one());
    lemma_fundamental_div_mod(-u, one());
    lemma_mod_bound(-u, one());
    let f = u / one();
    let c = (-u) / one();
    assert((f + 1) * one() == one() * f + one() && f * one() == one() * f && (-c) * one() == -(one()
        * c) && (-c - 1) * one() == -(one() * c) - one()) by (nonlinear_arith);
}

/// A conversion to a machine integer is exact where the number fits, and stops at the
/// limits where it does not.
pub proof fn law_cast(s: Single, x: int, low: int, high: int)
    requires
        !s.nan(),
        low <= high,
    ensures
        low <= x <= high ==> s.cast(x, low, high) == x,
        x < low ==> s.cast(x, low, high) == low,
        x > high ==> s.cast(x, low, high) == high,
{
}

/// A whole number of up to 24 bits, times a power of two, is a single.
pub proof fn law_grid_fits(n: int, j: nat) -> (s: Single)
    requires
        -0x100_0000 < n < 0x100_0000,
        23 <= j <= 253,
    ensures
        s.magnitude() < 0x7f80_0000,
        s.units() == n * pow2(j),
{
    lemma2_to64();
    let size = if n < 0 {
        -n
    } else {
        n
    };
    let magnitude = if n == 0 {
        0
    } else {
        lemma_mul_inequality(1, size, 0x80_0000);
        lemma_encodable(size, (j + 1) as int, 23)
    };
    let s = Single {
        bits: (if n < 0 {
            magnitude + 0x8000_0000
        } else {
            magnitude
        }) as u32,
    };
    let p = pow2(j) as int;
    assert((-size) * p == -(size * p) && 0 * p == 0) by (nonlinear_arith);
    assert(s.magnitude() == magnitude);
    s
}

/// A whole number less than a half away is the nearest.
pub proof fn law_nearest_unique(s: Single, n: int)
    requires
        -one() < 2 * (s.units() - n * one()) < one(),
    ensures
        s.nearest_whole() == n,
{
    lemma_one();
    assert(one() * (-n) == -(n * one()) && one() * n == n * one()) by (nonlinear_arith);
    if s.negative() {
        let v = -s.units();
        lemma_quotient(v + pow2(148), one(), -n, v + pow2(148) + n * one());
    } else {
        let v = s.units();
        lemma_quotient(v + pow2(148), one(), n, v + pow2(148) - n * one());
    }
}

/// The nearest whole number is no more than a half away.
pub proof fn law_nearest(s: Single)
    ensures
        -one() <= 2 * (s.units() - s.nearest_whole() * one()) <= one(),
{
    let u = units_of(s.magnitude());
    let q = (u + pow2(148)) / one();
    lemma_one();
    lemma_fundamental_div_mod(u + pow2(148), one());
    lemma_mod_bound(u + pow2(148), one());
    lemma_mul_is_commutative(one(), q);
    assert((-q) * one() == -(q * one())) by (nonlinear_arith);
}

} // verus!
