//! Fixed-point 2D vectors and the per-axis chase step.
//!
//! A follower closes the fraction `num / den` of the gap to its target on
//! each update, one axis at a time, with the step rounded toward zero. All
//! coordinates are bounded by `COORD_LIMIT` so that squared distances and
//! scaled steps stay inside `i64` and `u64` arithmetic.

use vstd::arithmetic::div_mod::{lemma_div_is_ordered, lemma_div_multiples_vanish, lemma_div_pos_is_pos};
use vstd::arithmetic::mul::{lemma_mul_inequality, lemma_mul_nonnegative, lemma_mul_upper_bound};
use vstd::prelude::*;

verus! {

/// Largest coordinate magnitude the engine accepts.
pub const COORD_LIMIT: i64 = 1_000_000_000;

/// Largest denominator accepted for the follow weight fraction.
pub const WEIGHT_DEN_LIMIT: u64 = 1_000_000;

/// Largest padding threshold the engine accepts.
pub const PADDING_LIMIT: i64 = 2_000_000_000;

/// A world-space coordinate at the caller's fixed-point scale.
#[derive(Clone, Copy, PartialEq, Eq, Structural, Debug)]
pub struct Vec2i {
    pub x: i64,
    pub y: i64,
}

/// Both coordinates within `COORD_LIMIT`.
pub open spec fn in_bounds(p: Vec2i) -> bool {
    &&& -COORD_LIMIT <= p.x <= COORD_LIMIT
    &&& -COORD_LIMIT <= p.y <= COORD_LIMIT
}

/// A valid follow-weight fraction `num / den`, strictly between 0 and 1.
pub open spec fn valid_weight(num: u64, den: u64) -> bool {
    1 <= num < den <= WEIGHT_DEN_LIMIT
}

pub open spec fn sq(v: int) -> int {
    v * v
}

/// Squared Euclidean distance between two points.
pub open spec fn dist2(a: Vec2i, b: Vec2i) -> int {
    sq(a.x - b.x) + sq(a.y - b.y)
}

/// The signed step along one axis: the fraction `num / den` of the gap `d`,
/// rounded toward zero.
pub open spec fn axis_step(d: int, num: int, den: int) -> int {
    if d >= 0 {
        (d * num) / den
    } else {
        let m = ((-d) * num) / den;
        -m
    }
}

/// One axis of a nudge: the position after stepping toward `target`.
pub open spec fn axis_nudge(pos: int, target: int, num: int, den: int) -> int {
    pos + axis_step(target - pos, num, den)
}

/// The point after one nudge of `p` toward `t` with weight `num / den`.
pub open spec fn nudged(p: Vec2i, t: Vec2i, num: int, den: int) -> Vec2i {
    Vec2i {
        x: axis_nudge(p.x as int, t.x as int, num, den) as i64,
        y: axis_nudge(p.y as int, t.y as int, num, den) as i64,
    }
}

/// The step never overshoots: the new axis value stays between the old
/// value and the target, so the gap keeps its sign and never grows.
pub proof fn lemma_axis_nudge_between(pos: int, target: int, num: int, den: int)
    requires
        1 <= num < den,
    ensures
        pos <= target ==> pos <= axis_nudge(pos, target, num, den) <= target,
        target <= pos ==> target <= axis_nudge(pos, target, num, den) <= pos,
{
    let d = target - pos;
    if d >= 0 {
        lemma_mul_nonnegative(d, num);
        lemma_div_pos_is_pos(d * num, den);
        lemma_mul_inequality(num, den, d);
        assert(d * num <= d * den);
        lemma_div_is_ordered(d * num, d * den, den);
        lemma_div_multiples_vanish(d, den);
        assert(d * den == den * d);
        assert((d * num) / den <= d);
    } else {
        let e = -d;
        lemma_mul_nonnegative(e, num);
        lemma_div_pos_is_pos(e * num, den);
        lemma_mul_inequality(num, den, e);
        assert(e * num <= e * den);
        lemma_div_is_ordered(e * num, e * den, den);
        lemma_div_multiples_vanish(e, den);
        assert(e * den == den * e);
        assert((e * num) / den <= e);
    }
}

/// One axis of the executable nudge.
fn axis_nudge_exec(pos: i64, target: i64, num: u64, den: u64) -> (r: i64)
    requires
        -COORD_LIMIT <= pos <= COORD_LIMIT,
        -COORD_LIMIT <= target <= COORD_LIMIT,
        valid_weight(num, den),
    ensures
        r == axis_nudge(pos as int, target as int, num as int, den as int),
        pos <= target ==> pos <= r <= target,
        target <= pos ==> target <= r <= pos,
{
    proof {
        lemma_axis_nudge_between(pos as int, target as int, num as int, den as int);
    }
    let d: i64 = target - pos;
    if d >= 0 {
        proof {
            lemma_mul_upper_bound(d as int, 2 * COORD_LIMIT as int, num as int, WEIGHT_DEN_LIMIT as int);
        }
        let prod: u64 = (d as u64) * num;
        let step: u64 = prod / den;
        pos + (step as i64)
    } else {
        let e: i64 = -d;
        proof {
            lemma_mul_upper_bound(e as int, 2 * COORD_LIMIT as int, num as int, WEIGHT_DEN_LIMIT as int);
        }
        let prod: u64 = (e as u64) * num;
        let step: u64 = prod / den;
        pos - (step as i64)
    }
}

impl Vec2i {
    /// Move this point the fraction `num / den` of the way toward `target`,
    /// per axis, rounding the step toward zero.
    pub fn nudge_toward(self, target: Vec2i, num: u64, den: u64) -> (r: Vec2i)
        requires
            in_bounds(self),
            in_bounds(target),
            valid_weight(num, den),
        ensures
            r == nudged(self, target, num as int, den as int),
            in_bounds(r),
    {
        let x = axis_nudge_exec(self.x, target.x, num, den);
        let y = axis_nudge_exec(self.y, target.y, num, den);
        Vec2i { x, y }
    }

    /// Squared distance to `other`.
    pub fn dist2_to(self, other: Vec2i) -> (r: i64)
        requires
            in_bounds(self),
            in_bounds(other),
        ensures
            r == dist2(self, other),
    {
        let dx: i64 = self.x - other.x;
        let dy: i64 = self.y - other.y;
        proof {
            lemma_sq_bound(dx as int, 2 * COORD_LIMIT as int);
            lemma_sq_bound(dy as int, 2 * COORD_LIMIT as int);
        }
        dx * dx + dy * dy
    }
}

/// `|v| <= b` bounds the square: `v * v <= b * b`.
pub proof fn lemma_sq_bound(v: int, b: int)
    requires
        -b <= v <= b,
        0 <= b,
    ensures
        0 <= v * v <= b * b,
{
    if v >= 0 {
        lemma_mul_nonnegative(v, v);
        lemma_mul_upper_bound(v, b, v, b);
    } else {
        lemma_mul_nonnegative(-v, -v);
        lemma_mul_upper_bound(-v, b, -v, b);
        assert(v * v == (-v) * (-v)) by (nonlinear_arith);
    }
}

} // verus!
