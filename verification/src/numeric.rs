//! Small arithmetic used throughout.

use vstd::prelude::*;

verus! {

/// `dividend / divisor`, rounded up.
pub open spec fn ceil_div(dividend: nat, divisor: nat) -> nat {
    (dividend + divisor - 1) as nat / divisor
}

/// Divides, rounding up.
pub fn div_ceil(dividend: usize, divisor: usize) -> (quotient: usize)
    requires
        divisor > 0,
    ensures
        quotient == ceil_div(dividend as nat, divisor as nat),
        quotient <= dividend,
{
    let q = dividend / divisor;
    let r = dividend % divisor;
    let ghost a = dividend as int;
    let ghost b = divisor as int;
    proof {
        vstd::arithmetic::div_mod::lemma_fundamental_div_mod(a, b);
        assert(q <= a && (r > 0 ==> q < a) && a == b * q + r) by (nonlinear_arith)
            requires
                a == b * q + r,
                b > 0,
                q >= 0,
                0 <= r < b,
                a >= 0,
        ;
    }
    if r > 0 {
        proof {
            assert(a + b - 1 == b * (q + 1) + (r - 1)) by (nonlinear_arith)
                requires
                    a == b * q + r,
            ;
            vstd::arithmetic::div_mod::lemma_fundamental_div_mod_converse(a + b - 1, b, q + 1, r - 1);
        }
        q + 1
    } else {
        proof {
            assert(a + b - 1 == b * q + (b - 1)) by (nonlinear_arith)
                requires
                    a == b * q + r,
                    r == 0,
            ;
            vstd::arithmetic::div_mod::lemma_fundamental_div_mod_converse(a + b - 1, b, q as int, b - 1);
        }
        q
    }
}

/// The nearest number to `value` between `min` and `max`.
pub open spec fn clamped(value: u64, min: u64, max: u64) -> u64 {
    if value < min {
        min
    } else if value > max {
        max
    } else {
        value
    }
}

/// Brings `value` into the range from `min` to `max`.
pub fn clamp(value: u64, min: u64, max: u64) -> (result: u64)
    ensures
        result == clamped(value, min, max),
{
    if value < min {
        min
    } else if value > max {
        max
    } else {
        value
    }
}

/// `value` as a signed number, or the largest one.
pub open spec fn signed(value: u64) -> i64 {
    if value <= 0x7fff_ffff_ffff_ffff {
        value as i64
    } else {
        0x7fff_ffff_ffff_ffff
    }
}

/// Converts to a signed number, saturating.
pub fn saturating_i64(value: u64) -> (result: i64)
    ensures
        result == signed(value),
        result >= 0,
{
    if value <= 0x7fff_ffff_ffff_ffff {
        value as i64
    } else {
        0x7fff_ffff_ffff_ffff
    }
}

/// The milliseconds from `earlier` to `later`; zero where `later` comes first.
pub open spec fn elapsed(later: i64, earlier: i64) -> u64 {
    if later > earlier {
        if later - earlier > 0x7fff_ffff_ffff_ffff {
            0x7fff_ffff_ffff_ffff
        } else {
            (later - earlier) as u64
        }
    } else {
        0
    }
}

/// Measures the time from `earlier` to `later`, saturating.
pub fn elapsed_ms(later: i64, earlier: i64) -> (result: u64)
    ensures
        result == elapsed(later, earlier),
{
    if later > earlier {
        let difference = later as i128 - earlier as i128;
        if difference > 0x7fff_ffff_ffff_ffff {
            0x7fff_ffff_ffff_ffff
        } else {
            difference as u64
        }
    } else {
        0
    }
}

} // verus!
