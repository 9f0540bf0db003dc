//! The traded amount of a record.
//!
//! On disk the amount is a 32-bit IEEE-754 number. The library holds it as a
//! whole number of hundredths, rounded towards zero: what is not a number
//! counts as nothing, and so does a negative amount; an amount too large for
//! 64 bits, or infinite, counts as the largest one.

use vstd::arithmetic::div_mod::lemma_div_denominator;
use vstd::arithmetic::power2::{lemma_pow2_pos, lemma_pow2_strictly_increases, lemma_pow2_unfold, pow2};
use vstd::prelude::*;

verus! {

/// The 23 fraction bits of a 32-bit float.
pub open spec fn float_fraction(bits: u32) -> int {
    bits as int % 0x80_0000
}

/// The 8 exponent bits of a 32-bit float.
pub open spec fn float_exponent(bits: u32) -> int {
    (bits as int / 0x80_0000) % 0x100
}

/// The sign bit of a 32-bit float.
pub open spec fn float_negative(bits: u32) -> bool {
    bits >= 0x8000_0000
}

/// A hundred times the magnitude of a finite 32-bit float, rounded down.
/// A float with exponent bits `e > 0` and fraction bits `f` has the
/// magnitude `(2^23 + f) * 2^(e - 150)`; with `e == 0` it is `f * 2^-149`.
pub open spec fn float_hundredths(bits: u32) -> int {
    let e = float_exponent(bits);
    let f = float_fraction(bits);
    if e == 0 {
        (f * 100) / (pow2(149) as int)
    } else if e >= 150 {
        (f + 0x80_0000) * 100 * pow2((e - 150) as nat)
    } else {
        ((f + 0x80_0000) * 100) / (pow2((150 - e) as nat) as int)
    }
}

/// The amount, in hundredths, that the bit pattern `bits` stands for.
pub open spec fn amount_of_bits(bits: u32) -> int {
    if float_exponent(bits) == 255 {
        if float_fraction(bits) == 0 && !float_negative(bits) {
            u64::MAX as int
        } else {
            0
        }
    } else if float_negative(bits) {
        0
    } else if float_hundredths(bits) > u64::MAX {
        u64::MAX as int
    } else {
        float_hundredths(bits)
    }
}

/// `value` doubled `times` times, or the largest number where that is more.
fn scale_up(value: u64, times: u32) -> (scaled: u64)
    ensures
        scaled == if value * pow2(times as nat) > u64::MAX {
            u64::MAX as int
        } else {
            value * pow2(times as nat)
        },
{
    let mut v = value;
    let mut k: u32 = 0;
    proof {
        vstd::arithmetic::power2::lemma2_to64();
    }
    while k < times
        invariant
            k <= times,
            v == value * pow2(k as nat),
        decreases times - k,
    {
        if v > u64::MAX / 2 {
            proof {
                lemma_pow2_unfold((k + 1) as nat);
                if k + 1 < times {
                    lemma_pow2_strictly_increases((k + 1) as nat, times as nat);
                }
                let a = pow2((k + 1) as nat) as int;
                let b = pow2(times as nat) as int;
                assert(value * a <= value * b) by (nonlinear_arith)
                    requires
                        a <= b,
                        value >= 0,
                ;
                assert(value * a == 2 * (value * pow2(k as nat))) by (nonlinear_arith)
                    requires
                        a == 2 * pow2(k as nat),
                ;
            }
            return u64::MAX;
        }
        proof {
            lemma_pow2_unfold((k + 1) as nat);
            assert(value * pow2((k + 1) as nat) == 2 * (value * pow2(k as nat))) by (nonlinear_arith)
                requires
                    pow2((k + 1) as nat) == 2 * pow2(k as nat),
            ;
        }
        v = v * 2;
        k += 1;
    }
    v
}

/// `value` halved `times` times, each time rounding down.
fn scale_down(value: u64, times: u32) -> (scaled: u64)
    ensures
        scaled == (value as int) / (pow2(times as nat) as int),
{
    let mut v = value;
    let mut k: u32 = 0;
    proof {
        vstd::arithmetic::power2::lemma2_to64();
    }
    while k < times && v > 0
        invariant
            k <= times,
            v == (value as int) / (pow2(k as nat) as int),
        decreases times - k,
    {
        proof {
            lemma_pow2_unfold((k + 1) as nat);
            lemma_pow2_pos(k as nat);
            lemma_div_denominator(value as int, pow2(k as nat) as int, 2);
            assert(pow2(k as nat) * 2 == pow2((k + 1) as nat));
        }
        v = v / 2;
        k += 1;
    }
    proof {
        if k < times {
            lemma_pow2_pos(k as nat);
            lemma_pow2_pos(times as nat);
            lemma_pow2_strictly_increases(k as nat, times as nat);
            let a = pow2(k as nat) as int;
            let b = pow2(times as nat) as int;
            assert(value < a) by (nonlinear_arith)
                requires
                    (value as int) / a == 0,
                    a > 0,
                    value >= 0,
            ;
            assert((value as int) / b == 0) by (nonlinear_arith)
                requires
                    0 <= value < b,
            ;
        }
    }
    v
}

/// Reads an amount, in hundredths, out of the bits of a 32-bit float.
pub fn amount_from_bits(bits: u32) -> (amount: u64)
    ensures
        amount == amount_of_bits(bits),
{
    let fraction = bits % 0x80_0000;
    let exponent = (bits / 0x80_0000) % 0x100;
    let negative = bits >= 0x8000_0000;
    if exponent == 255 {
        if fraction == 0 && !negative {
            u64::MAX
        } else {
            0
        }
    } else if negative {
        0
    } else if exponent == 0 {
        scale_down((fraction as u64) * 100, 149)
    } else {
        let scaled: u64 = (fraction as u64 + 0x80_0000) * 100;
        if exponent >= 150 {
            scale_up(scaled, exponent - 150)
        } else {
            proof {
                lemma_pow2_pos((150 - exponent) as nat);
                assert((scaled as int) / (pow2((150 - exponent) as nat) as int) <= scaled)
                    by (nonlinear_arith)
                    requires
                        scaled >= 0,
                        pow2((150 - exponent) as nat) > 0,
                ;
            }
            scale_down(scaled, 150 - exponent)
        }
    }
}

} // verus!
