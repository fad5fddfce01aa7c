//! Real-valued settings, held as the bits of a double.

use crate::numeric::ceil_div;
use vstd::arithmetic::power2::pow2;
use vstd::prelude::*;

verus! {

/// The bits of positive infinity; everything above them in magnitude is no number.
pub const INFINITY_BITS: u64 = 0x7ff0_0000_0000_0000;

/// The bits of one.
pub const ONE_BITS: u64 = 0x3ff0_0000_0000_0000;

/// The bits of negative zero, which are also the sign bit.
pub const SIGN_BITS: u64 = 0x8000_0000_0000_0000;

/// How many values a uniform draw from the unit interval can take.
pub const DRAWS: u64 = 0x0020_0000_0000_0000;

/// A setting that is a real number: the bits of an IEEE 754 double.
#[derive(Debug, Clone, Copy, PartialEq, Eq, Structural)]
pub struct Real {
    pub bits: u64,
}

impl Real {
    /// Neither infinite nor undefined.
    pub open spec fn finite(self) -> bool {
        self.bits < INFINITY_BITS || SIGN_BITS <= self.bits < SIGN_BITS + INFINITY_BITS
    }

    /// Finite and greater than zero.
    pub open spec fn positive(self) -> bool {
        0 < self.bits < INFINITY_BITS
    }

    /// From zero to one, both included.
    pub open spec fn unit(self) -> bool {
        self.bits <= ONE_BITS || self.bits == SIGN_BITS
    }

    /// Greater than one; infinity is, an undefined value is not.
    pub open spec fn above_one(self) -> bool {
        ONE_BITS < self.bits <= INFINITY_BITS
    }

    /// Greater than zero; infinity is, an undefined value is not.
    pub open spec fn above_zero(self) -> bool {
        0 < self.bits <= INFINITY_BITS
    }

    /// Finite and at least zero.
    pub open spec fn not_negative(self) -> bool {
        self.bits < INFINITY_BITS || self.bits == SIGN_BITS
    }

    pub fn is_not_negative(&self) -> (result: bool)
        ensures
            result == self.not_negative(),
    {
        self.bits < INFINITY_BITS || self.bits == SIGN_BITS
    }

    pub fn is_positive(&self) -> (result: bool)
        ensures
            result == self.positive(),
    {
        0 < self.bits && self.bits < INFINITY_BITS
    }

    pub fn is_unit(&self) -> (result: bool)
        ensures
            result == self.unit(),
    {
        self.bits <= ONE_BITS || self.bits == SIGN_BITS
    }

    pub fn is_above_one(&self) -> (result: bool)
        ensures
            result == self.above_one(),
    {
        ONE_BITS < self.bits && self.bits <= INFINITY_BITS
    }

    pub fn is_above_zero(&self) -> (result: bool)
        ensures
            result == self.above_zero(),
    {
        0 < self.bits && self.bits <= INFINITY_BITS
    }

    /// The significand, with the bit that normal numbers leave out.
    pub open spec fn significand(self) -> nat {
        if self.bits / 0x10_0000_0000_0000 == 0 {
            self.bits as nat
        } else {
            (self.bits % 0x10_0000_0000_0000) as nat + 0x10_0000_0000_0000
        }
    }

    /// How far the significand of a number below one lies to the left of a count of draws: the
    /// number times the count of all draws is the significand over two to this power.
    pub open spec fn fraction_shift(self) -> nat {
        let exponent = self.bits / 0x10_0000_0000_0000;
        if exponent == 0 {
            1021
        } else {
            (1022 - exponent) as nat
        }
    }

    /// How many of the draws `k / DRAWS`, with `k` from zero up, lie below this number.
    pub open spec fn draws_below(self) -> nat {
        if self.bits > INFINITY_BITS {
            0
        } else if self.bits >= ONE_BITS {
            DRAWS as nat
        } else {
            ceil_div(self.significand(), pow2(self.fraction_shift()))
        }
    }

    /// Counts the draws that lie below this number.
    pub fn count_draws_below(&self) -> (count: u64)
        ensures
            count == self.draws_below(),
            count <= DRAWS,
    {
        if self.bits > INFINITY_BITS {
            return 0;
        }
        if self.bits >= ONE_BITS {
            return DRAWS;
        }
        let exponent = self.bits / 0x10_0000_0000_0000;
        let significand: u64 = if exponent == 0 {
            self.bits
        } else {
            self.bits % 0x10_0000_0000_0000 + 0x10_0000_0000_0000
        };
        let shift: u64 = if exponent == 0 {
            1021
        } else {
            1022 - exponent
        };
        assert(significand == self.significand());
        assert(shift == self.fraction_shift());
        assert(significand < DRAWS);
        if shift > 53 {
            proof {
                vstd::arithmetic::power2::lemma2_to64_rest();
                vstd::arithmetic::power2::lemma_pow2_strictly_increases(53, shift as nat);
                let base = pow2(shift as nat) as int;
                assert(pow2(53) == DRAWS);
                let m = significand as int;
                if m == 0 {
                    assert((base - 1) / base == 0) by (nonlinear_arith)
                        requires
                            base > 0,
                    ;
                } else {
                    assert((m + base - 1) / base == 1) by (nonlinear_arith)
                        requires
                            0 < m < base,
                    ;
                }
            }
            if significand == 0 {
                0
            } else {
                1
            }
        } else {
            proof {
                vstd::arithmetic::power2::lemma2_to64_rest();
                if shift < 53 {
                    vstd::arithmetic::power2::lemma_pow2_strictly_increases(shift as nat, 53);
                }
                assert(pow2(53) == DRAWS);
                vstd::arithmetic::power2::lemma_pow2_pos(shift as nat);
                vstd::bits::lemma_u64_shl_is_mul(1, shift);
            }
            let base: u64 = 1u64 << shift;
            assert(base == pow2(shift as nat));
            let count = (significand + base - 1) / base;
            proof {
                let m = significand as int;
                let b = base as int;
                assert((m + b - 1) / b <= DRAWS) by (nonlinear_arith)
                    requires
                        0 <= m < DRAWS,
                        b >= 1,
                ;
            }
            count
        }
    }

    /// A uniform draw, made from a random word, lies below this number.
    pub open spec fn exceeds_draw(self, word: u64) -> bool {
        (word / 2048) < self.draws_below()
    }

    /// Tells whether a uniform draw, made from a random word, lies below this number.
    pub fn is_above_draw(&self, word: u64) -> (result: bool)
        ensures
            result == self.exceeds_draw(word),
    {
        word / 2048 < self.count_draws_below()
    }
}

/// Probability one always comes to pass, probability zero never.
pub proof fn law_certain_draws(word: u64)
    ensures
        (Real { bits: ONE_BITS }).exceeds_draw(word),
        !(Real { bits: 0 }).exceeds_draw(word),
{
    let zero = Real { bits: 0 };
    vstd::arithmetic::power2::lemma_pow2_pos(1021);
    let base = pow2(1021) as int;
    assert((0 + base - 1) / base == 0) by (nonlinear_arith)
        requires
            base > 0,
    ;
    assert(zero.draws_below() == 0);
}

} // verus!
