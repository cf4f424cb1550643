//! Fixed-point arithmetic for coordinates in the complex plane.
//!
//! A coordinate is an `i64` holding `SCALE` times its real value, so the
//! representable grid has a spacing of `1 / SCALE`.  Products are scaled back
//! down with the quotient rounded toward minus infinity.

use vstd::prelude::*;
use vstd::arithmetic::div_mod::{
    lemma_div_is_ordered, lemma_div_multiples_vanish_fancy, lemma_div_pos_is_pos,
    lemma_fundamental_div_mod,
};

verus! {

/// One unit of the fixed-point scale: a stored value `v` stands for the real
/// number `v / SCALE` (`SCALE` is two to the twenty-fourth power).
pub const SCALE: i64 = 16777216;

/// Largest magnitude accepted for a coordinate handed to the escape-time
/// kernel: eight whole units, far beyond the region where the set lives.
pub const COORD_LIMIT: i64 = 134217728;

/// Magnitude bound kept for the orbit variables inside the kernel: from
/// `|z| <= 2` and `|c| <= 8` one step of the recurrence stays within
/// twenty-four units (see the kernel's loop invariant).
pub const ORBIT_BOUND: i64 = 402653184;

/// The scaled-down product of two fixed-point values, rounded toward minus
/// infinity (the Euclidean quotient of the exact product by `SCALE`).
pub open spec fn fx(a: int, b: int) -> int {
    (a * b) / (SCALE as int)
}

/// Floor division by `SCALE` of a negative number, written with the
/// round-up form that the executable code uses on the negated value.
proof fn lemma_floor_div_neg_scale(p: int)
    requires
        p < 0,
    ensures
        p / (SCALE as int) == -((-p + (SCALE as int) - 1) / (SCALE as int)),
{
    let d = SCALE as int;
    let q = p / d;
    let r = p % d;
    lemma_fundamental_div_mod(p, d);
    assert(d * (-q) == -(d * q)) by (nonlinear_arith);
    assert(-p + d - 1 == d * (-q) + (d - 1 - r));
    lemma_div_multiples_vanish_fancy(-q, d - 1 - r, d);
}

/// The scaled-down product of two values of magnitude at most `m` has
/// magnitude at most `m * m / SCALE`.
pub proof fn lemma_fx_range(a: int, b: int, m: int)
    requires
        0 <= m,
        -m <= a <= m,
        -m <= b <= m,
    ensures
        (-(m * m)) / (SCALE as int) <= fx(a, b) <= (m * m) / (SCALE as int),
{
    let s = SCALE as int;
    assert(-(m * m) <= a * b <= m * m) by (nonlinear_arith)
        requires
            0 <= m,
            -m <= a <= m,
            -m <= b <= m,
    ;
    lemma_div_is_ordered(-(m * m), a * b, s);
    lemma_div_is_ordered(a * b, m * m, s);
}

/// A scaled-down square is never negative.
pub proof fn lemma_fx_square_nonneg(a: int)
    ensures
        0 <= fx(a, a),
{
    assert(0 <= a * a) by (nonlinear_arith);
    lemma_div_pos_is_pos(a * a, SCALE as int);
}

/// A value whose scaled-down square is below four units has magnitude at
/// most two units.
pub proof fn lemma_small_mag(a: int)
    requires
        fx(a, a) < 4 * (SCALE as int),
    ensures
        -2 * (SCALE as int) <= a <= 2 * (SCALE as int),
{
    let s = SCALE as int;
    lemma_fundamental_div_mod(a * a, s);
    assert(a * a < 4 * s * s);
    assert(-2 * s <= a <= 2 * s) by (nonlinear_arith)
        requires
            a * a < 4 * s * s,
            s == SCALE as int,
    ;
}

/// Multiplies two fixed-point values and scales the product back down,
/// rounding toward minus infinity.
pub(crate) fn fx_mul(a: i64, b: i64) -> (r: i64)
    requires
        -0x2000_0000 <= a <= 0x2000_0000,
        -0x2000_0000 <= b <= 0x2000_0000,
    ensures
        r == fx(a as int, b as int),
{
    proof {
        assert(-0x4000_0000_0000_0000 <= a * b <= 0x4000_0000_0000_0000) by (nonlinear_arith)
            requires
                -0x2000_0000 <= a <= 0x2000_0000,
                -0x2000_0000 <= b <= 0x2000_0000,
        ;
    }
    let p: i64 = a * b;
    if p >= 0 {
        proof {
            lemma_div_pos_is_pos(p as int, SCALE as int);
            lemma_div_is_ordered(p as int, 0x4000_0000_0000_0000, SCALE as int);
        }
        ((p as u64) / 16777216) as i64
    } else {
        proof {
            lemma_floor_div_neg_scale(p as int);
            lemma_div_pos_is_pos(-(p as int) + (SCALE as int) - 1, SCALE as int);
            lemma_div_is_ordered(
                -(p as int) + (SCALE as int) - 1,
                0x4000_0000_0000_0000 + (SCALE as int),
                SCALE as int,
            );
        }
        let m: u64 = (-p) as u64;
        -(((m + 16777215) / 16777216) as i64)
    }
}

} // verus!
