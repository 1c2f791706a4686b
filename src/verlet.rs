use vstd::prelude::*;
use crate::vector::{COORD_LIMIT, Vec2, clamp_coord, trunc_div, div_toward_zero};

verus! {

/// Square of the number of microseconds in a second: scales `acceleration * dt * dt`.
pub const MICROS_SQUARED: i128 = 1_000_000_000_000;

/// The vector with both coordinates clamped into the world box.
pub open spec fn clamped(x: int, y: int) -> Vec2 {
    Vec2 { x: clamp_coord(x) as i64, y: clamp_coord(y) as i64 }
}

/// Clamps a coordinate into the world box.
pub fn clamp_to_world(v: i128) -> (r: i64)
    ensures
        r == clamp_coord(v as int),
{
    if v > COORD_LIMIT as i128 {
        COORD_LIMIT
    } else if v < -(COORD_LIMIT as i128) {
        -COORD_LIMIT
    } else {
        v as i64
    }
}

/// Distance covered under constant acceleration `a` (units per second squared)
/// during `dt` microseconds, as `a * dt * dt` rounded toward zero.
pub open spec fn drift(a: int, dt: int) -> int {
    trunc_div(a * dt * dt, MICROS_SQUARED as int)
}

fn drift_of(a: i64, dt: u32) -> (r: i128)
    requires
        -COORD_LIMIT <= a <= COORD_LIMIT,
    ensures
        r == drift(a as int, dt as int),
        -0x1_0000_0000_0000_0000_0000_0000_0000 <= r <= 0x1_0000_0000_0000_0000_0000_0000_0000,
{
    let d: i128 = dt as i128;
    assert(-0x100_0000_0000_0000_0000 <= a * d <= 0x100_0000_0000_0000_0000) by (nonlinear_arith)
        requires
            -0x100_0000_0000 <= a <= 0x100_0000_0000,
            0 <= d <= 0xFFFF_FFFF,
    ;
    assert(-0x1_0000_0000_0000_0000_0000_0000_0000 <= a * d * d <= 0x1_0000_0000_0000_0000_0000_0000_0000) by (nonlinear_arith)
        requires
            -0x100_0000_0000 <= a <= 0x100_0000_0000,
            0 <= d <= 0xFFFF_FFFF,
    ;
    proof {
        crate::vector::lemma_trunc_div_bounded(a * d * d, MICROS_SQUARED as int);
    }
    div_toward_zero((a as i128) * d * d, MICROS_SQUARED)
}

/// A particle: its position now and one sub-step ago, the acceleration gathered
/// for the coming sub-step, and its radius. Velocity is `current_position - old_position`.
#[derive(Clone, Copy, Debug, PartialEq, Eq, Structural)]
pub struct VerletObject {
    pub current_position: Vec2,
    pub old_position: Vec2,
    pub acceleration: Vec2,
    pub radius: i64,
}

impl VerletObject {
    /// All vectors in the world box and a radius of `0 ..= COORD_LIMIT`.
    pub open spec fn wf(self) -> bool {
        &&& self.current_position.in_world()
        &&& self.old_position.in_world()
        &&& self.acceleration.in_world()
        &&& 0 <= self.radius <= COORD_LIMIT
    }

    /// The particle after one Verlet step of `dt` microseconds.
    pub open spec fn integrated(self, dt: int) -> VerletObject {
        let c = self.current_position;
        let o = self.old_position;
        let a = self.acceleration;
        VerletObject {
            current_position: clamped(
                c.x + (c.x - o.x) + drift(a.x as int, dt),
                c.y + (c.y - o.y) + drift(a.y as int, dt),
            ),
            old_position: c,
            acceleration: Vec2 { x: 0, y: 0 },
            radius: self.radius,
        }
    }

    /// The particle with `acc` added to its accumulated acceleration.
    pub open spec fn accelerated(self, acc: Vec2) -> VerletObject {
        VerletObject {
            acceleration: clamped(self.acceleration.x + acc.x, self.acceleration.y + acc.y),
            ..self
        }
    }

    /// A particle at rest at `pos`.
    pub fn new(pos: Vec2, radius: i64) -> (r: VerletObject)
        ensures
            r.current_position == pos,
            r.old_position == pos,
            r.acceleration == (Vec2 { x: 0, y: 0 }),
            r.radius == radius,
    {
        VerletObject {
            current_position: pos,
            old_position: pos,
            acceleration: Vec2 { x: 0, y: 0 },
            radius,
        }
    }

    /// Advances the particle by `dt` microseconds: the implicit velocity is kept,
    /// the accumulated acceleration is applied and then cleared.
    pub fn update_position(&mut self, dt: u32)
        requires
            old(self).wf(),
        ensures
            *final(self) == old(self).integrated(dt as int),
            final(self).wf(),
    {
        let c = self.current_position;
        let o = self.old_position;
        let dx = drift_of(self.acceleration.x, dt);
        let dy = drift_of(self.acceleration.y, dt);
        let nx = clamp_to_world(c.x as i128 + (c.x as i128 - o.x as i128) + dx);
        let ny = clamp_to_world(c.y as i128 + (c.y as i128 - o.y as i128) + dy);
        self.old_position = c;
        self.current_position = Vec2 { x: nx, y: ny };
        self.acceleration = Vec2 { x: 0, y: 0 };
    }

    /// Adds `acc` to the acceleration gathered for the coming sub-step.
    pub fn accelerate(&mut self, acc: Vec2)
        requires
            old(self).wf(),
            acc.in_world(),
        ensures
            *final(self) == old(self).accelerated(acc),
            final(self).wf(),
    {
        let ax = clamp_to_world(self.acceleration.x as i128 + acc.x as i128);
        let ay = clamp_to_world(self.acceleration.y as i128 + acc.y as i128);
        self.acceleration = Vec2 { x: ax, y: ay };
    }
}

} // verus!
