//! A single cubic parametric curve segment between two keyframes.
//!
//! The blend is the standard cubic Bernstein combination of the start
//! value, the two control-point values and the end value.  The curve
//! parameter runs from `0` to `SCALE`; time coordinates only delimit the
//! segment, they take no part in the blend itself.

use vstd::prelude::*;

use crate::fixed::{
    div_fixed, div_trunc, lemma_div_trunc_exact, lemma_div_trunc_scaled, lemma_mul_bound,
    COORD_LIMIT, SCALE, SCALE_CUBED,
};

verus! {

/// One coordinate pair of a curve: a time tick and a fixed-point value.
#[derive(Clone, Copy, Debug, PartialEq, Eq, Structural)]
pub struct Point {
    pub time: i64,
    pub value: i64,
}

/// A cubic curve segment: start and end points plus two control points.
#[derive(Clone, Copy, Debug, PartialEq, Eq, Structural)]
pub struct Curve {
    pub start: Point,
    pub control1: Point,
    pub control2: Point,
    pub end: Point,
}

/// Both coordinates of `p` have magnitude at most `limit`.
pub open spec fn point_in_range(p: Point, limit: int) -> bool {
    &&& -limit <= p.time <= limit
    &&& -limit <= p.value <= limit
}

impl Curve {
    /// All four points of the curve lie within `limit`.
    pub open spec fn in_range(self, limit: int) -> bool {
        &&& point_in_range(self.start, limit)
        &&& point_in_range(self.control1, limit)
        &&& point_in_range(self.control2, limit)
        &&& point_in_range(self.end, limit)
    }

    /// A curve is well formed when its coordinates are bounded and it
    /// spans a strictly positive stretch of time.
    pub open spec fn wf(self) -> bool {
        &&& self.in_range(COORD_LIMIT as int)
        &&& self.start.time < self.end.time
    }

    /// Numerator of the cubic Bernstein blend at parameter `t`, over the
    /// common denominator `SCALE_CUBED`.
    pub open spec fn blend_numerator(self, t: int) -> int {
        let st = SCALE - t;
        (st * st * st) * self.start.value + (3 * st * st * t) * self.control1.value + (3 * st * (t
            * t)) * self.control2.value + (t * t * t) * self.end.value
    }

    /// Value of the curve at parameter `t`, with the final truncating
    /// division by the blend's denominator.
    pub open spec fn value_at(self, t: int) -> int {
        div_trunc(self.blend_numerator(t), SCALE_CUBED as int)
    }

    /// The start point of the segment.
    pub fn start_point(&self) -> (r: Point)
        ensures
            r == self.start,
    {
        self.start
    }

    /// The end point of the segment.
    pub fn end_point(&self) -> (r: Point)
        ensures
            r == self.end,
    {
        self.end
    }

    /// Evaluates the cubic blend at parameter `local_t` in `[0, SCALE]`.
    pub fn evaluate(&self, local_t: i64) -> (r: i64)
        requires
            self.wf(),
            0 <= local_t <= SCALE,
        ensures
            r == self.value_at(local_t as int),
    {
        let p0 = self.start.value;
        let p1 = self.control1.value;
        let p2 = self.control2.value;
        let p3 = self.end.value;
        let st: i64 = SCALE - local_t;
        proof {
            let t = local_t as int;
            let sti = SCALE - t;
            assert(0 <= sti * sti <= 1_000_000) by (nonlinear_arith)
                requires
                    0 <= sti <= 1000,
            ;
            assert(0 <= (sti * sti) * sti <= 1_000_000_000) by (nonlinear_arith)
                requires
                    0 <= sti <= 1000,
            ;
            assert(0 <= (3 * sti) * sti <= 3_000_000) by (nonlinear_arith)
                requires
                    0 <= sti <= 1000,
            ;
            assert(0 <= ((3 * sti) * sti) * t <= 3_000_000_000) by (nonlinear_arith)
                requires
                    0 <= sti <= 1000,
                    0 <= t <= 1000,
            ;
            assert(0 <= t * t <= 1_000_000) by (nonlinear_arith)
                requires
                    0 <= t <= 1000,
            ;
            assert(0 <= (3 * sti) * (t * t) <= 3_000_000_000) by (nonlinear_arith)
                requires
                    0 <= sti <= 1000,
                    0 <= t <= 1000,
            ;
            assert(0 <= (t * t) * t <= 1_000_000_000) by (nonlinear_arith)
                requires
                    0 <= t <= 1000,
            ;
        }
        let w0: i64 = st * st * st;
        let w1: i64 = 3 * st * st * local_t;
        let w2: i64 = 3 * st * (local_t * local_t);
        let w3: i64 = local_t * local_t * local_t;
        proof {
            lemma_mul_bound(w0 as int, p0 as int, 1_000_000_000, 1_000_000_000);
            lemma_mul_bound(w1 as int, p1 as int, 3_000_000_000, 1_000_000_000);
            lemma_mul_bound(w2 as int, p2 as int, 3_000_000_000, 1_000_000_000);
            lemma_mul_bound(w3 as int, p3 as int, 1_000_000_000, 1_000_000_000);
        }
        let total: i64 = w0 * p0 + w1 * p1 + w2 * p2 + w3 * p3;
        assert(total == self.blend_numerator(local_t as int));
        div_fixed(total, SCALE_CUBED)
    }
}

/// Endpoint law: the blend of any curve at parameter `0` is exactly the
/// start value, and at parameter `SCALE` exactly the end value.
pub proof fn lemma_evaluate_endpoints(c: Curve)
    ensures
        c.value_at(0) == c.start.value,
        c.value_at(SCALE as int) == c.end.value,
{
    let v0 = c.start.value as int;
    let v1 = c.control1.value as int;
    let v2 = c.control2.value as int;
    let v3 = c.end.value as int;
    let n0 = c.blend_numerator(0);
    assert(n0 == (1000 * 1000 * 1000) * v0 + (3 * 1000 * 1000 * 0) * v1 + (3 * 1000 * (0 * 0)) * v2
        + (0 * 0 * 0) * v3);
    assert(n0 == 1_000_000_000 * v0) by (nonlinear_arith)
        requires
            n0 == (1000 * 1000 * 1000) * v0 + (3 * 1000 * 1000 * 0) * v1 + (3 * 1000 * (0 * 0)) * v2
                + (0 * 0 * 0) * v3,
    ;
    lemma_div_trunc_exact(v0, 1_000_000_000);
    let n1 = c.blend_numerator(SCALE as int);
    assert(n1 == (0 * 0 * 0) * v0 + (3 * 0 * 0 * 1000) * v1 + (3 * 0 * (1000 * 1000)) * v2 + (1000
        * 1000 * 1000) * v3);
    assert(n1 == 1_000_000_000 * v3) by (nonlinear_arith)
        requires
            n1 == (0 * 0 * 0) * v0 + (3 * 0 * 0 * 1000) * v1 + (3 * 0 * (1000 * 1000)) * v2 + (1000
                * 1000 * 1000) * v3,
    ;
    lemma_div_trunc_exact(v3, 1_000_000_000);
}

/// Straight-line law: a curve whose control-point values coincide with its
/// endpoint values — as produced by the explicit whole-unit handle
/// fractions `(0, 0)` and `(1, 1)` — passes through the midpoint of its
/// endpoint values at the middle of its parameter range.
pub proof fn lemma_unit_controls_midpoint(c: Curve)
    requires
        c.control1.value == c.start.value,
        c.control2.value == c.end.value,
    ensures
        c.value_at((SCALE as int) / 2) == div_trunc(c.start.value + c.end.value, 2),
{
    let v0 = c.start.value as int;
    let v1 = c.control1.value as int;
    let v2 = c.control2.value as int;
    let v3 = c.end.value as int;
    let n = c.blend_numerator(500);
    assert(n == (500 * 500 * 500) * v0 + (3 * 500 * 500 * 500) * v1 + (3 * 500 * (500 * 500)) * v2
        + (500 * 500 * 500) * v3);
    assert(n == 500_000_000 * (v0 + v3)) by (nonlinear_arith)
        requires
            n == (500 * 500 * 500) * v0 + (3 * 500 * 500 * 500) * v1 + (3 * 500 * (500 * 500)) * v2
                + (500 * 500 * 500) * v3,
            v1 == v0,
            v2 == v3,
    ;
    lemma_div_trunc_scaled(v0 + v3, 500_000_000, 2);
    assert(500_000_000 * 2 == 1_000_000_000) by (nonlinear_arith);
}

} // verus!
