//! Saturating fixed-point arithmetic, a collaborator of the core.
//!
//! Values are signed 32-bit integers scaled by a power of two. All
//! operations saturate at the representable range instead of wrapping, and
//! division by zero is an error, never a panic.

use vstd::arithmetic::power2::{lemma2_to64, pow2};
use vstd::bits::lemma_u64_shl_is_mul;
use vstd::math::abs;
use vstd::prelude::*;

use crate::error::{Result, WMMSCoreError};

verus! {

/// A fixed-point number with `FRAC_BITS` fractional bits.
#[derive(Clone, Copy, Debug, PartialEq, Eq, Hash)]
pub struct FixedU32<const FRAC_BITS: u32>(pub i32);

/// 16.16 fixed point.
pub type Q16_16 = FixedU32<16>;

/// 24.8 fixed point.
pub type Q24_8 = FixedU32<8>;

/// Saturation to the signed 32-bit range.
pub open spec fn sat_i32(x: int) -> int {
    if x > i32::MAX {
        i32::MAX as int
    } else if x < i32::MIN {
        i32::MIN as int
    } else {
        x
    }
}

/// Division truncating toward zero, as machine division does.
pub open spec fn trunc_div(a: int, b: int) -> int
    recommends
        b != 0,
{
    if (a < 0) == (b < 0) {
        abs(a) as int / abs(b) as int
    } else {
        -(abs(a) as int / abs(b) as int)
    }
}

impl<const FRAC_BITS: u32> FixedU32<FRAC_BITS> {
    /// The scale factor as an `i64`.
    fn scale64() -> (r: i64)
        requires
            FRAC_BITS < 31,
        ensures
            r == pow2(FRAC_BITS as nat),
            1 <= r <= 0x4000_0000,
    {
        proof {
            lemma2_to64();
            if FRAC_BITS < 30 {
                vstd::arithmetic::power2::lemma_pow2_strictly_increases(
                    FRAC_BITS as nat,
                    30,
                );
            }
            vstd::arithmetic::power2::lemma_pow2_pos(FRAC_BITS as nat);
            lemma_u64_shl_is_mul(1u64, FRAC_BITS as u64);
        }
        let s = 1u64 << FRAC_BITS;
        s as i64
    }

    /// The integer `v`, scaled; saturates at the representable range.
    pub fn from_i32(v: i32) -> (r: Self)
        requires
            FRAC_BITS < 31,
        ensures
            r.0 == sat_i32(v * pow2(FRAC_BITS as nat)),
    {
        let s = Self::scale64();
        proof {
            lemma_scaled_product_bounds(v as int, s as int);
        }
        let prod = (v as i64) * s;
        Self(clamp_i64_to_i32(prod))
    }

    /// Saturating addition.
    pub fn add(self, other: Self) -> (r: Self)
        ensures
            r.0 == sat_i32(self.0 + other.0),
    {
        let sum = (self.0 as i64) + (other.0 as i64);
        Self(clamp_i64_to_i32(sum))
    }

    /// Saturating subtraction.
    pub fn sub(self, other: Self) -> (r: Self)
        ensures
            r.0 == sat_i32(self.0 - other.0),
    {
        let diff = (self.0 as i64) - (other.0 as i64);
        Self(clamp_i64_to_i32(diff))
    }

    /// Saturating multiplication: the product rescaled by flooring.
    pub fn mul(self, other: Self) -> (r: Self)
        requires
            FRAC_BITS < 31,
        ensures
            r.0 == sat_i32((self.0 * other.0) / pow2(FRAC_BITS as nat) as int),
    {
        let s = Self::scale64();
        proof {
            lemma_i32_product_bounds(self.0 as int, other.0 as int);
        }
        let prod = (self.0 as i64) * (other.0 as i64);
        let q = floor_div_i64(prod, s);
        Self(clamp_i64_to_i32(q))
    }

    /// Division rescaled to fixed point; truncates toward zero, saturates
    /// at the representable range, and fails on a zero divisor.
    pub fn div(self, other: Self) -> (r: Result<Self>)
        requires
            FRAC_BITS < 31,
        ensures
            match r {
                Ok(v) => other.0 != 0 && v.0 == sat_i32(trunc_div(
                    self.0 * pow2(FRAC_BITS as nat) as int,
                    other.0 as int,
                )),
                Err(e) => other.0 == 0 && (e matches WMMSCoreError::InvalidValue(_)),
            },
    {
        if other.0 == 0 {
            return Err(WMMSCoreError::InvalidValue(zero_divisor_message()));
        }
        let s = Self::scale64();
        proof {
            lemma_scaled_product_bounds(self.0 as int, s as int);
        }
        let a = (self.0 as i64) * s;
        let q = trunc_div_i64(a, other.0 as i64);
        Ok(Self(clamp_i64_to_i32(q)))
    }
}

/// A 32-bit value times a scale of at most two to the thirtieth stays well
/// inside the 64-bit range.
proof fn lemma_scaled_product_bounds(v: int, s: int)
    requires
        -0x8000_0000 <= v <= 0x7FFF_FFFF,
        1 <= s <= 0x4000_0000,
    ensures
        -0x4000_0000_0000_0000 <= v * s <= 0x4000_0000_0000_0000,
{
    assert(-0x4000_0000_0000_0000 <= v * s <= 0x4000_0000_0000_0000) by (nonlinear_arith)
        requires
            -0x8000_0000 <= v <= 0x7FFF_FFFF,
            1 <= s <= 0x4000_0000,
    ;
}

/// The product of two 32-bit values stays well inside the 64-bit range.
proof fn lemma_i32_product_bounds(a: int, b: int)
    requires
        -0x8000_0000 <= a <= 0x7FFF_FFFF,
        -0x8000_0000 <= b <= 0x7FFF_FFFF,
    ensures
        -0x4000_0000_0000_0000 <= a * b <= 0x4000_0000_0000_0000,
{
    assert(-0x4000_0000_0000_0000 <= a * b <= 0x4000_0000_0000_0000) by (nonlinear_arith)
        requires
            -0x8000_0000 <= a <= 0x7FFF_FFFF,
            -0x8000_0000 <= b <= 0x7FFF_FFFF,
    ;
}

/// The error text for a zero divisor.
fn zero_divisor_message() -> (r: String) {
    "division by zero".to_owned()
}

/// Clamps a 64-bit value into the signed 32-bit range.
fn clamp_i64_to_i32(x: i64) -> (r: i32)
    ensures
        r == sat_i32(x as int),
{
    if x > 0x7FFF_FFFFi64 {
        0x7FFF_FFFFi32
    } else if x < -0x8000_0000i64 {
        -0x8000_0000i32
    } else {
        x as i32
    }
}

/// Floor division of a 64-bit value by a positive divisor.
fn floor_div_i64(a: i64, b: i64) -> (r: i64)
    requires
        1 <= b <= 0x4000_0000_0000_0000,
        -0x4000_0000_0000_0000 <= a <= 0x4000_0000_0000_0000,
    ensures
        r == (a as int) / (b as int),
{
    if a >= 0 {
        let q = (a as u64) / (b as u64);
        proof {
            assert((a as u64) as int == a as int);
            assert((a as int) / (b as int) >= 0) by (nonlinear_arith)
                requires
                    a >= 0 && b >= 1,
            ;
            assert((a as int) / (b as int) <= a as int) by (nonlinear_arith)
                requires
                    a >= 0 && b >= 1,
            ;
        }
        q as i64
    } else {
        // floor(a / b) == -ceil(-a / b) == -((-a + b - 1) / b)
        let m = (-a) as u64;
        let q = (m + (b as u64) - 1) / (b as u64);
        proof {
            let mi = m as int;
            let bi = b as int;
            let qi = (mi + bi - 1) / bi;
            vstd::arithmetic::div_mod::lemma_fundamental_div_mod(mi + bi - 1, bi);
            assert(mi + bi - 1 == bi * qi + (mi + bi - 1) % bi);
            vstd::arithmetic::div_mod::lemma_div_pos_is_pos(mi + bi - 1, bi);
            vstd::arithmetic::div_mod::lemma_div_nonincreasing(mi + bi - 1, bi);
            assert(0 <= qi <= mi + bi - 1);
            assert(qi * bi >= mi);
            assert(0 <= qi * bi - mi < bi);
            assert(-mi == (-qi) * bi + (qi * bi - mi)) by (nonlinear_arith);
            vstd::arithmetic::div_mod::lemma_fundamental_div_mod_converse_div(
                -mi,
                bi,
                -qi,
                qi * bi - mi,
            );
            assert((-mi) / bi == -qi);
            assert(q == qi);
        }
        -(q as i64)
    }
}

/// Division of 64-bit values truncating toward zero.
fn trunc_div_i64(a: i64, b: i64) -> (r: i64)
    requires
        b != 0,
        -0x4000_0000_0000_0000 <= a <= 0x4000_0000_0000_0000,
        -0x4000_0000_0000_0000 <= b <= 0x4000_0000_0000_0000,
    ensures
        r == trunc_div(a as int, b as int),
{
    let ma: u64 = if a >= 0 {
        a as u64
    } else {
        (-a) as u64
    };
    let mb: u64 = if b >= 0 {
        b as u64
    } else {
        (-b) as u64
    };
    proof {
        assert(ma as int == abs(a as int));
        assert(mb as int == abs(b as int));
        assert((ma as int) / (mb as int) <= ma as int) by (nonlinear_arith)
            requires
                ma >= 0 && mb >= 1,
        ;
        assert((ma as int) / (mb as int) >= 0) by (nonlinear_arith)
            requires
                ma >= 0 && mb >= 1,
        ;
    }
    let q = ma / mb;
    if (a < 0) != (b < 0) {
        -(q as i64)
    } else {
        q as i64
    }
}

} // verus!
