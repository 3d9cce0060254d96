//! Floating-point values carried as their IEEE-754 bit patterns.
//!
//! Tensor elements cross this library as the 32-bit pattern of an `f32` or the
//! 16-bit pattern of a bfloat16; nothing here evaluates a floating-point number.

use vstd::prelude::*;

verus! {

/// The patterns that stand for no number: all exponent bits set, and a fraction
/// other than 0.
pub open spec fn f32_nan(bits: u32) -> bool {
    bits % 0x8000_0000 > 0x7f80_0000
}

/// The bfloat16 pattern nearest to the `f32` pattern `bits`, ties to even: half a
/// unit in the last kept place, less one unless the kept part is odd, is added, and
/// the low half is dropped. Of a NaN the high half is kept, with the quiet bit set
/// where no other bit of its fraction is.
pub open spec fn bf16_round(bits: u32) -> u16 {
    let high = bits / 0x1_0000;
    if f32_nan(bits) {
        if high % 0x80 == 0 {
            (high + 0x40) as u16
        } else {
            high as u16
        }
    } else {
        ((bits + 0x7fff + high % 2) / 0x1_0000) as u16
    }
}

/// The `f32` pattern with the same value as a bfloat16 pattern.
pub open spec fn bf16_widen(bits: u16) -> u32 {
    (bits * 0x1_0000) as u32
}

/// Exact IEEE-754 / bfloat16 round-to-nearest-even conversion of an `f32` pattern.
#[inline]
pub fn f32_to_bf16_bits(bits: u32) -> (r: u16)
    ensures
        r == bf16_round(bits),
        f32_nan(bits) ==> f32_nan(bf16_widen(r)),
{
    assert(bits >> 16 == bits / 0x1_0000) by (bit_vector);
    if bits % 0x8000_0000 > 0x7f80_0000 {
        let kept: u32 = bits >> 16;
        if kept % 0x80 == 0 {
            return (kept + 0x40) as u16;
        }
        return kept as u16;
    }
    let lsb: u32 = (bits >> 16) & 1;
    assert((bits >> 16) & 1 == (bits / 0x1_0000) % 2) by (bit_vector);
    let biased: u32 = bits + (0x7fff + lsb);
    let high: u32 = biased >> 16;
    assert(biased >> 16 == biased / 0x1_0000) by (bit_vector);
    high as u16
}

/// The `f32` pattern of a bfloat16 pattern.
#[inline]
pub fn bf16_bits_to_f32(bits: u16) -> (r: u32)
    ensures
        r == bf16_widen(bits),
{
    let wide: u32 = bits as u32;
    assert(wide << 16 == wide * 0x1_0000) by (bit_vector)
        requires
            wide <= 0xffff,
    ;
    wide << 16
}

/// Widening a bfloat16 pattern and rounding it back gives the pattern itself.
pub proof fn law_bf16_widen_round_identity(bits: u16)
    ensures
        bf16_round(bf16_widen(bits)) == bits,
{
}

/// A NaN stays a NaN, and no number becomes one.
pub proof fn law_bf16_round_keeps_nan(bits: u32)
    ensures
        f32_nan(bf16_widen(bf16_round(bits))) == f32_nan(bits),
{
}

/// Rounding to bfloat16 moves the pattern of a number by at most half a unit in the
/// last kept place, and by exactly half only to an even kept part.
pub proof fn law_bf16_round_is_nearest_even(bits: u32)
    requires
        !f32_nan(bits),
    ensures
        bits - 0x8000 <= bf16_widen(bf16_round(bits)) <= bits + 0x8000,
        bf16_widen(bf16_round(bits)) == bits - 0x8000 || bf16_widen(bf16_round(bits)) == bits
            + 0x8000 ==> bf16_round(bits) % 2 == 0,
{
}

/// The weight of the last of 24 significant bits of `n`: 1 below 2^24, and twice as
/// much for each further bit.
pub open spec fn f32_unit(n: nat) -> nat
    decreases n,
{
    if n < 0x100_0000 {
        1
    } else {
        2 * f32_unit(n / 2)
    }
}

/// The value of `n as f32`: `n` rounded to 24 significant bits, ties to even.
pub open spec fn f32_nearest(n: nat) -> nat {
    let unit = f32_unit(n);
    let q = n / unit;
    let r = n % unit;
    if 2 * r > unit || (2 * r == unit && q % 2 == 1) {
        (q + 1) * unit
    } else {
        q * unit
    }
}

proof fn lemma_unit_bounds(n: nat)
    ensures
        1 <= f32_unit(n),
        f32_unit(n) <= n || n == 0 || f32_unit(n) == 1,
    decreases n,
{
    if n >= 0x100_0000 {
        lemma_unit_bounds(n / 2);
    }
}

/// `n as f32`, as an integer.
pub fn round_to_f32(n: u64) -> (r: u128)
    ensures
        r == f32_nearest(n as nat),
        r <= 2 * n,
{
    let mut unit: u64 = 1;
    let mut m: u64 = n;
    while m >= 0x100_0000
        invariant
            1 <= unit,
            unit * f32_unit(m as nat) == f32_unit(n as nat),
            unit * m <= n,
        decreases m,
    {
        assert(2 * unit * (m / 2) <= unit * m) by (nonlinear_arith);
        assert(2 * unit * f32_unit((m / 2) as nat) == unit * (2 * f32_unit((m / 2) as nat)))
            by (nonlinear_arith);
        assert(2 * unit <= n) by (nonlinear_arith)
            requires
                unit * m <= n,
                m >= 2,
                unit >= 1,
        ;
        m = m / 2;
        unit = 2 * unit;
    }
    proof {
        lemma_unit_bounds(n as nat);
        assert(unit * 1 == unit);
    }
    let q: u64 = n / unit;
    let rem: u64 = n % unit;
    assert(q * unit <= n && (q + 1) * unit <= n + unit) by (nonlinear_arith)
        requires
            unit >= 1,
            q == n / unit,
    ;
    if 2 * (rem as u128) > unit as u128 || (2 * (rem as u128) == unit as u128 && q % 2 == 1) {
        assert((q + 1) * unit <= 2 * 0xffff_ffff_ffff_ffff);
        assert(n >= unit) by {
            if n == 0 {
                assert(rem == 0) by (nonlinear_arith)
                    requires
                        n == 0,
                        unit >= 1,
                        rem == n % unit,
                ;
            }
            if unit == 1 {
                assert(rem == 0);
            }
        }
        (q as u128 + 1) * unit as u128
    } else {
        q as u128 * unit as u128
    }
}

/// Every integer up to 2^24 is an `f32` value.
pub proof fn law_f32_exact_to_24_bits(n: nat)
    requires
        n <= 0x100_0000,
    ensures
        f32_nearest(n) == n,
{
    let unit = f32_unit(n);
    if n < 0x100_0000 {
        assert(n / unit == n && n % unit == 0 && n * unit == n) by (nonlinear_arith)
            requires
                unit == 1,
        ;
    } else {
        assert(unit == 2) by {
            assert(f32_unit(0x80_0000) == 1);
        }
        assert(n / unit == 0x80_0000 && n % unit == 0 && 0x80_0000 * unit == n) by (nonlinear_arith)
            requires
                unit == 2,
                n == 0x100_0000,
        ;
    }
}

} // verus!
