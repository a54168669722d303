//! Fixed-point trigonometry over whole degrees.
//!
//! Angles are integers in degrees; sine and cosine come back in thousandths.
//! The half-wave uses Bhaskara's rational approximation, which is exact at
//! 0, 30, 90, 150 and 180 degrees and within a few thousandths elsewhere,
//! so the whole transform pipeline stays in integer arithmetic.

use vstd::prelude::*;

verus! {

/// Bhaskara's sine approximation on [0, 180] degrees, in thousandths:
/// `4000·d·(180−d) / (40500 − d·(180−d))`.
pub open spec fn sin_half_mdeg(d: int) -> int
    recommends
        0 <= d <= 180,
{
    (4000 * (d * (180 - d))) / (40500 - d * (180 - d))
}

/// Sine of an angle in whole degrees, in thousandths.
pub open spec fn sin_mdeg(d: int) -> int {
    let n = d % 360;
    if n <= 180 {
        sin_half_mdeg(n)
    } else {
        -sin_half_mdeg(n - 180)
    }
}

/// Cosine of an angle in whole degrees, in thousandths.
pub open spec fn cos_mdeg(d: int) -> int {
    sin_mdeg(d + 90)
}

/// Reduce an angle in degrees into [0, 360), as the mathematical `% 360`.
fn norm360(d: i32) -> (r: i32)
    ensures
        r as int == (d as int) % 360,
        0 <= r < 360,
{
    if d >= 0 {
        ((d as u64) % 360) as i32
    } else {
        let m = (((-(d as i64)) - 1) as u64) % 360;
        proof {
            let qi = (d as int) / 360;
            let ri = (d as int) % 360;
            vstd::arithmetic::div_mod::lemma_fundamental_div_mod(d as int, 360);
            vstd::arithmetic::div_mod::lemma_mod_bound(d as int, 360);
            vstd::arithmetic::div_mod::lemma_fundamental_div_mod_converse(
                -(d as int) - 1, 360, -qi - 1, 360 - ri - 1);
        }
        359 - (m as i32)
    }
}

/// Sine of `d` whole degrees, in thousandths.
pub fn sin_milli(d: i32) -> (r: i32)
    ensures
        r as int == sin_mdeg(d as int),
        -1000 <= r <= 1000,
{
    let n = norm360(d);
    let neg = n > 180;
    let h: i64 = if n > 180 { n as i64 - 180 } else { n as i64 };
    proof {
        assert(0 <= (h as int) * (180 - h as int) <= 8100) by (nonlinear_arith)
            requires
                0 <= h as int <= 180,
        ;
    }
    let p: i64 = h * (180 - h);
    let num: i64 = 4000 * p;
    let den: i64 = 40500 - p;
    let q = ((num as u64) / (den as u64)) as i64;
    proof {
        vstd::arithmetic::div_mod::lemma_div_pos_is_pos(num as int, den as int);
        assert(num as int <= 1000 * (den as int));
        vstd::arithmetic::div_mod::lemma_multiply_divide_le(num as int, den as int, 1000);
    }
    if neg {
        -(q as i32)
    } else {
        q as i32
    }
}

/// Cosine of `d` whole degrees, in thousandths.
pub fn cos_milli(d: i32) -> (r: i32)
    ensures
        r as int == cos_mdeg(d as int),
        -1000 <= r <= 1000,
{
    let n = norm360(d);
    let r = sin_milli(n + 90);
    proof {
        vstd::arithmetic::div_mod::lemma_add_mod_noop(d as int, 90, 360);
        vstd::arithmetic::div_mod::lemma_mod_twice(d as int, 360);
        vstd::arithmetic::div_mod::lemma_small_mod(90nat, 360nat);
        assert(((n as int) + 90) % 360 == ((d as int) + 90) % 360);
    }
    r
}

} // verus!
