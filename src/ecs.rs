//! The rules of the entity-component scene's systems, on plain values:
//! deceleration of velocities, acceleration by held keys, and position
//! integration.
use vstd::prelude::*;
use crate::geometry::{len_sq, scale_trunc, Vec2, COORD_LIMIT};
use crate::object::{lemma_scale_shrinks, MAX_SPEED};
use crate::play::clamp;
use crate::scene::HeldKeys;

verus! {

/// Clamps `c` into the coordinate range.
pub open spec fn clamp_coord(c: int) -> int {
    clamp(c, COORD_LIMIT as int)
}

fn clamp_value(c: i128) -> (r: i64)
    ensures
        r == clamp_coord(c as int),
{
    if c < -(COORD_LIMIT as i128) {
        -COORD_LIMIT
    } else if c > COORD_LIMIT as i128 {
        COORD_LIMIT
    } else {
        c as i64
    }
}

/// The velocity after one frame of deceleration: a moving velocity is
/// scaled by `num / den` toward zero, and stops once its squared length is
/// below `rest_sq`.
pub open spec fn decelerated(v: Vec2, num: int, den: int, rest_sq: int) -> Vec2 {
    if v.x == 0 && v.y == 0 {
        v
    } else {
        let n = Vec2 { x: scale_trunc(v.x as int, num, den) as i64, y: scale_trunc(v.y as int, num, den) as i64 };
        if len_sq(n) < rest_sq {
            Vec2 { x: 0, y: 0 }
        } else {
            n
        }
    }
}

/// Executable `decelerated`.
pub fn decelerate(v: Vec2, num: i64, den: i64, rest_sq: i64) -> (r: Vec2)
    requires
        v.wf(),
        0 <= num < den <= COORD_LIMIT,
    ensures
        r == decelerated(v, num as int, den as int, rest_sq as int),
        r.wf(),
{
    if v.is_zero() {
        return v;
    }
    proof {
        lemma_scale_shrinks(v.x as int, num as int, den as int);
        lemma_scale_shrinks(v.y as int, num as int, den as int);
        crate::geometry::lemma_product_fits(v.x as int, num as int);
        crate::geometry::lemma_product_fits(v.y as int, num as int);
    }
    let x = crate::geometry::div_toward_zero((v.x as i128) * (num as i128), den as i128) as i64;
    let y = crate::geometry::div_toward_zero((v.y as i128) * (num as i128), den as i128) as i64;
    let n = Vec2 { x, y };
    if n.len_sq() < rest_sq as i128 {
        Vec2::zero()
    } else {
        n
    }
}

/// The velocity after the held keys push it: each held arrow adds `speed`
/// along its direction (so diagonals add up), clamped to the coordinate
/// range.
pub open spec fn accelerated(v: Vec2, held: HeldKeys, speed: int) -> Vec2 {
    let dx = (if held.right { speed } else { 0 }) - (if held.left { speed } else { 0 });
    let dy = (if held.down { speed } else { 0 }) - (if held.up { speed } else { 0 });
    Vec2 { x: clamp_coord(v.x + dx) as i64, y: clamp_coord(v.y + dy) as i64 }
}

/// Executable `accelerated`.
pub fn accelerate(v: Vec2, held: &HeldKeys, speed: i64) -> (r: Vec2)
    requires
        v.wf(),
        0 <= speed <= MAX_SPEED,
    ensures
        r == accelerated(v, *held, speed as int),
        r.wf(),
{
    let s = speed as i128;
    let dx: i128 = (if held.right { s } else { 0 }) - (if held.left { s } else { 0 });
    let dy: i128 = (if held.down { s } else { 0 }) - (if held.up { s } else { 0 });
    Vec2 { x: clamp_value(v.x as i128 + dx), y: clamp_value(v.y as i128 + dy) }
}

/// The position after moving `dt` ticks at `vel`, clamped to the
/// coordinate range.
pub open spec fn advanced(pos: Vec2, vel: Vec2, dt: int) -> Vec2 {
    Vec2 { x: clamp_coord(pos.x + vel.x * dt) as i64, y: clamp_coord(pos.y + vel.y * dt) as i64 }
}

/// Executable `advanced`.
pub fn advance(pos: Vec2, vel: Vec2, dt: i64) -> (r: Vec2)
    requires
        pos.wf(),
        vel.wf(),
    ensures
        r == advanced(pos, vel, dt as int),
        r.wf(),
{
    proof {
        assert(-0x1_0000_0000_0000_0000_0000_0000_0000 <= vel.x * dt <= 0x1_0000_0000_0000_0000_0000_0000_0000
            && -0x1_0000_0000_0000_0000_0000_0000_0000 <= vel.y * dt <= 0x1_0000_0000_0000_0000_0000_0000_0000)
            by (nonlinear_arith)
            requires
                -0x100_0000_0000 <= vel.x <= 0x100_0000_0000,
                -0x100_0000_0000 <= vel.y <= 0x100_0000_0000,
                -0x8000_0000_0000_0000 <= dt <= 0x8000_0000_0000_0000,
        ;
    }
    let x = clamp_value(pos.x as i128 + (vel.x as i128) * (dt as i128));
    let y = clamp_value(pos.y as i128 + (vel.y as i128) * (dt as i128));
    Vec2 { x, y }
}

} // verus!
