//! Plane geometry on fixed-point coordinates.
//!
//! The growth axis points down into the soil: the surface datum is
//! `y == 0` and roots live at `y >= 0`.

use vstd::prelude::*;
use vstd::arithmetic::div_mod::lemma_div_is_ordered;
use crate::fixed::{fx_mul, fx_mul_s, FX_COS_45, FX_ONE};

verus! {

/// The largest magnitude a direction component may have: two units.
pub const DIR_CAP: i64 = 2_000_000;

/// A point of the field, in fixed-point coordinates.
#[derive(Clone, Copy, PartialEq, Eq, Structural, Debug)]
pub struct Point {
    pub x: i64,
    pub y: i64,
}

impl Point {
    pub fn new(x: i64, y: i64) -> (r: Point)
        ensures
            r.x == x,
            r.y == y,
    {
        Point { x, y }
    }
}

/// The magnitude of a fixed-point product is bounded by the product of
/// bounds on its factors.
pub proof fn lemma_fx_mul_bound(a: int, b: int, ca: int, cb: int)
    requires
        -ca <= a <= ca,
        -cb <= b <= cb,
        0 <= ca,
        0 <= cb,
    ensures
        -((ca * cb) / (FX_ONE as int)) <= fx_mul_s(a, b) <= (ca * cb) / (FX_ONE as int),
{
    let f = FX_ONE as int;
    assert(-(ca * cb) <= a * b <= ca * cb) by (nonlinear_arith)
        requires -ca <= a <= ca, -cb <= b <= cb, 0 <= ca, 0 <= cb;
    if a * b >= 0 {
        lemma_div_is_ordered(a * b, ca * cb, f);
        assert(fx_mul_s(a, b) >= 0) by {
            vstd::arithmetic::div_mod::lemma_div_pos_is_pos(a * b, f);
        }
    } else {
        lemma_div_is_ordered(-(a * b), ca * cb, f);
        assert(-(a * b) / f >= 0) by {
            vstd::arithmetic::div_mod::lemma_div_pos_is_pos(-(a * b), f);
        }
    }
}

/// The first coordinate of a direction rotated by a quarter of a right
/// angle; `positive` selects the sense of the turn.
pub open spec fn rot45_x_s(dx: int, dy: int, positive: bool) -> int {
    if positive {
        fx_mul_s(FX_COS_45 as int, dx) - fx_mul_s(FX_COS_45 as int, dy)
    } else {
        fx_mul_s(FX_COS_45 as int, dx) + fx_mul_s(FX_COS_45 as int, dy)
    }
}

/// The second coordinate of the same rotation.
pub open spec fn rot45_y_s(dx: int, dy: int, positive: bool) -> int {
    if positive {
        fx_mul_s(FX_COS_45 as int, dx) + fx_mul_s(FX_COS_45 as int, dy)
    } else {
        -fx_mul_s(FX_COS_45 as int, dx) + fx_mul_s(FX_COS_45 as int, dy)
    }
}

/// Rotates the direction `(dx, dy)` by 45 degrees, counter-clockwise
/// when `positive` holds, clockwise otherwise.
pub fn rotate_45(dx: i64, dy: i64, positive: bool) -> (r: Point)
    requires
        -DIR_CAP <= dx <= DIR_CAP,
        -DIR_CAP <= dy <= DIR_CAP,
    ensures
        r.x == rot45_x_s(dx as int, dy as int, positive),
        r.y == rot45_y_s(dx as int, dy as int, positive),
        -3_000_000 <= r.x <= 3_000_000,
        -3_000_000 <= r.y <= 3_000_000,
{
    proof {
        lemma_fx_mul_bound(FX_COS_45 as int, dx as int, FX_COS_45 as int, DIR_CAP as int);
        lemma_fx_mul_bound(FX_COS_45 as int, dy as int, FX_COS_45 as int, DIR_CAP as int);
    }
    let cx = fx_mul(FX_COS_45, dx);
    let cy = fx_mul(FX_COS_45, dy);
    if positive {
        Point { x: cx - cy, y: cx + cy }
    } else {
        Point { x: cx + cy, y: cy - cx }
    }
}

/// The cosine-like part of the rotation carrying direction `a` onto
/// direction `b`: their fixed-point dot product.
pub open spec fn dir_dot_s(ax: int, ay: int, bx: int, by: int) -> int {
    fx_mul_s(ax, bx) + fx_mul_s(ay, by)
}

/// The sine-like part of the same rotation: their fixed-point cross
/// product.
pub open spec fn dir_cross_s(ax: int, ay: int, bx: int, by: int) -> int {
    fx_mul_s(ax, by) - fx_mul_s(ay, bx)
}

/// The first coordinate of `u` turned by the inverse of the rotation
/// carrying `a` onto `b`: the old branching turn, mirrored.
pub open spec fn mirror_x_s(ax: int, ay: int, bx: int, by: int, ux: int, uy: int) -> int {
    fx_mul_s(dir_dot_s(ax, ay, bx, by), ux) + fx_mul_s(dir_cross_s(ax, ay, bx, by), uy)
}

/// The second coordinate of the same mirrored turn.
pub open spec fn mirror_y_s(ax: int, ay: int, bx: int, by: int, ux: int, uy: int) -> int {
    fx_mul_s(dir_dot_s(ax, ay, bx, by), uy) - fx_mul_s(dir_cross_s(ax, ay, bx, by), ux)
}

/// Turns the direction `u` by the inverse of the rotation that carries
/// direction `a` onto direction `b`. For unit directions this mirrors
/// the turn from `a` to `b` around `u`: how a new branch leaves at the
/// opposite angle of the latest existing one.
pub fn mirror_turn(a: Point, b: Point, u: Point) -> (r: Point)
    requires
        -DIR_CAP <= a.x <= DIR_CAP,
        -DIR_CAP <= a.y <= DIR_CAP,
        -DIR_CAP <= b.x <= DIR_CAP,
        -DIR_CAP <= b.y <= DIR_CAP,
        -DIR_CAP <= u.x <= DIR_CAP,
        -DIR_CAP <= u.y <= DIR_CAP,
    ensures
        r.x == mirror_x_s(a.x as int, a.y as int, b.x as int, b.y as int, u.x as int, u.y as int),
        r.y == mirror_y_s(a.x as int, a.y as int, b.x as int, b.y as int, u.x as int, u.y as int),
        -32_000_000 <= r.x <= 32_000_000,
        -32_000_000 <= r.y <= 32_000_000,
{
    proof {
        lemma_fx_mul_bound(a.x as int, b.x as int, DIR_CAP as int, DIR_CAP as int);
        lemma_fx_mul_bound(a.y as int, b.y as int, DIR_CAP as int, DIR_CAP as int);
        lemma_fx_mul_bound(a.x as int, b.y as int, DIR_CAP as int, DIR_CAP as int);
        lemma_fx_mul_bound(a.y as int, b.x as int, DIR_CAP as int, DIR_CAP as int);
    }
    let c = fx_mul(a.x, b.x) + fx_mul(a.y, b.y);
    let s = fx_mul(a.x, b.y) - fx_mul(a.y, b.x);
    proof {
        lemma_fx_mul_bound(c as int, u.x as int, 8_000_000, DIR_CAP as int);
        lemma_fx_mul_bound(c as int, u.y as int, 8_000_000, DIR_CAP as int);
        lemma_fx_mul_bound(s as int, u.x as int, 8_000_000, DIR_CAP as int);
        lemma_fx_mul_bound(s as int, u.y as int, 8_000_000, DIR_CAP as int);
    }
    Point { x: fx_mul(c, u.x) + fx_mul(s, u.y), y: fx_mul(c, u.y) - fx_mul(s, u.x) }
}

} // verus!
