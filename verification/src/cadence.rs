//! When the next frame is due.
use vstd::prelude::*;
use vstd::arithmetic::power2::*;
use crate::single::{lemma_units_in_increase, units_in};

verus! {

/// The time between two frames, a 60th of a second, as a double.
pub const FRAME_TIME: u64 = 0x3f91_1111_1111_1111;

/// A double-precision number, by its bit pattern.
#[derive(Clone, Copy, Debug, PartialEq, Eq, Structural)]
pub struct Double {
    pub bits: u64,
}

impl Double {
    /// Whether the sign bit is set.
    pub open spec fn negative(self) -> bool {
        self.bits >= 0x8000_0000_0000_0000
    }

    /// The pattern without its sign bit.
    pub open spec fn magnitude(self) -> int {
        if self.negative() {
            self.bits - 0x8000_0000_0000_0000
        } else {
            self.bits as int
        }
    }

    /// Whether the pattern stands for no number.
    pub open spec fn nan(self) -> bool {
        self.magnitude() > 0x7ff0_0000_0000_0000
    }

    /// The number, in multiples of the smallest positive double; of no meaning for
    /// a NaN.
    pub open spec fn units(self) -> int {
        if self.negative() {
            -units_in(self.magnitude(), 0x10_0000_0000_0000)
        } else {
            units_in(self.magnitude(), 0x10_0000_0000_0000)
        }
    }

    /// `self < other` as numbers; false where either is a NaN.
    pub open spec fn below(self, other: Double) -> bool {
        !self.nan() && !other.nan() && self.units() < other.units()
    }
}

/// A second, in multiples of the smallest positive double.
pub open spec fn second() -> int {
    0x10_0000_0000_0000 * (pow2(1022) as int)
}

/// Sixty times the time between two frames is a second, to a part in `2^56`.
pub proof fn law_sixty_frames_a_second()
    ensures
        !(Double { bits: FRAME_TIME }).nan(),
        60 * (Double { bits: FRAME_TIME }).units() < second(),
        60 * (Double { bits: FRAME_TIME }).units() >= second() - second() / 0x100_0000_0000_0000,
{
    lemma2_to64();
    lemma_pow2_adds(6, 1016);
    lemma_pow2_pos(1016);
    let p = pow2(1016) as int;
    assert((Double { bits: FRAME_TIME }).units() == 0x11_1111_1111_1111 * p);
    assert(second() == 0x400_0000_0000_0000 * p);
}

/// Whether a frame is due: the time since the last one is not below the time
/// between two.
pub fn frame_due(elapsed: Double) -> (r: bool)
    ensures
        r == !elapsed.below(Double { bits: FRAME_TIME }),
        elapsed.nan() ==> r,
        !elapsed.nan() && 60 * elapsed.units() >= second() ==> r,
        !elapsed.nan() && 60 * elapsed.units() < second() - second() / 0x100_0000_0000_0000
            ==> !r,
{
    proof {
        law_sixty_frames_a_second();
        let base = 0x10_0000_0000_0000int;
        let at = FRAME_TIME as int;
        let m = elapsed.magnitude();
        lemma_units_in_increase(0, at, base);
        if m < at {
            lemma_units_in_increase(m, at, base);
        }
        if at < m {
            lemma_units_in_increase(at, m, base);
        }
        if 0 < m {
            lemma_units_in_increase(0, m, base);
        }
    }
    if elapsed.bits >= 0x8000_0000_0000_0000 {
        elapsed.bits - 0x8000_0000_0000_0000 > 0x7ff0_0000_0000_0000
    } else {
        elapsed.bits >= FRAME_TIME
    }
}

} // verus!
