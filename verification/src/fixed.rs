//! Fixed-point representation shared by the whole engine.
//!
//! One whole unit (of parameter value, control-point fraction or fader
//! travel) is `SCALE` steps.  Times are plain `i64` ticks.  All divisions in
//! the engine round toward zero, as Rust's `/` does for a positive divisor;
//! `div_trunc` is the specification of that rounding.

use vstd::prelude::*;

verus! {

/// Fixed-point unit: one whole unit of value, fraction or fader travel.
pub const SCALE: i64 = 1000;

/// `SCALE` cubed, the common denominator of the cubic blend.
pub const SCALE_CUBED: i64 = 1_000_000_000;

/// Largest magnitude a curve coordinate (time or value) may have.
pub const COORD_LIMIT: i64 = 1_000_000_000;

/// Largest magnitude a coordinate of a freshly built curve may have; leaves
/// room for the time shift applied when a timeline is cut into clips.
pub const SOURCE_LIMIT: i64 = 500_000_000;

/// Largest magnitude a keyframe time or value may have.
pub const KEY_LIMIT: i64 = 10_000_000;

/// Largest magnitude an explicit control-point fraction may have
/// (twenty whole units: generous room for overshoot handles).
pub const FRAC_LIMIT: i64 = 20_000;

/// Fraction of the keyframe delta used for the first implicit handle.
pub const DEFAULT_CONTROL_1: i64 = 330;

/// Fraction of the keyframe delta used for the second implicit handle.
pub const DEFAULT_CONTROL_2: i64 = 660;

/// Quotient of `n` by `d` rounded toward zero, as Rust's `/` computes it
/// for a positive divisor.
pub open spec fn div_trunc(n: int, d: int) -> int {
    if n >= 0 {
        n / d
    } else {
        -((-n) / d)
    }
}

/// Truncating division by a positive divisor.
pub fn div_fixed(n: i64, d: i64) -> (r: i64)
    requires
        0 < d,
        i64::MIN < n,
    ensures
        r == div_trunc(n as int, d as int),
{
    proof {
        if n >= 0 {
            vstd::arithmetic::div_mod::lemma_div_nonincreasing(n as int, d as int);
            vstd::arithmetic::div_mod::lemma_div_pos_is_pos(n as int, d as int);
        } else {
            vstd::arithmetic::div_mod::lemma_div_nonincreasing(-(n as int), d as int);
            vstd::arithmetic::div_mod::lemma_div_pos_is_pos(-(n as int), d as int);
        }
    }
    match n.checked_div(d) {
        Some(q) => q,
        None => 0,
    }
}

/// The product of two bounded factors is bounded by the product of the
/// bounds.
pub proof fn lemma_mul_bound(x: int, y: int, bx: int, by: int)
    by (nonlinear_arith)
    requires
        -bx <= x <= bx,
        -by <= y <= by,
        0 <= bx,
        0 <= by,
    ensures
        -(bx * by) <= x * y <= bx * by,
{
}

/// Truncating division keeps a bound: if `|n| <= b` then
/// `|div_trunc(n, d)| <= b / d`.
pub proof fn lemma_div_trunc_bound(n: int, d: int, b: int)
    requires
        0 < d,
        -b <= n <= b,
    ensures
        -(b / d) <= div_trunc(n, d) <= b / d,
{
    if n >= 0 {
        vstd::arithmetic::div_mod::lemma_div_pos_is_pos(n, d);
        vstd::arithmetic::div_mod::lemma_div_is_ordered(n, b, d);
        vstd::arithmetic::div_mod::lemma_div_pos_is_pos(b, d);
    } else {
        vstd::arithmetic::div_mod::lemma_div_pos_is_pos(-n, d);
        vstd::arithmetic::div_mod::lemma_div_is_ordered(-n, b, d);
        vstd::arithmetic::div_mod::lemma_div_pos_is_pos(b, d);
    }
}

/// Dividing `d * x` by `d` gives back `x`, under truncating rounding, for
/// every integer `x`.
pub proof fn lemma_div_trunc_exact(x: int, d: int)
    requires
        0 < d,
    ensures
        div_trunc(d * x, d) == x,
{
    if x >= 0 {
        vstd::arithmetic::mul::lemma_mul_nonnegative(d, x);
        vstd::arithmetic::div_mod::lemma_div_multiples_vanish(x, d);
    } else {
        assert(d * x < 0) by (nonlinear_arith)
            requires
                0 < d,
                x < 0,
        ;
        assert(-(d * x) == d * (-x)) by (nonlinear_arith);
        vstd::arithmetic::div_mod::lemma_div_multiples_vanish(-x, d);
    }
}

/// Scaling numerator and denominator by the same positive factor does not
/// change the truncating quotient.
pub proof fn lemma_div_trunc_scaled(k: int, m: int, d: int)
    requires
        0 < m,
        0 < d,
    ensures
        div_trunc(m * k, m * d) == div_trunc(k, d),
{
    vstd::arithmetic::mul::lemma_mul_strictly_positive(m, d);
    if k >= 0 {
        vstd::arithmetic::mul::lemma_mul_nonnegative(m, k);
        vstd::arithmetic::div_mod::lemma_div_multiples_vanish_quotient(m, k, d);
    } else {
        assert(m * k < 0) by (nonlinear_arith)
            requires
                0 < m,
                k < 0,
        ;
        assert(-(m * k) == m * (-k)) by (nonlinear_arith);
        vstd::arithmetic::div_mod::lemma_div_multiples_vanish_quotient(m, -k, d);
    }
}

} // verus!
