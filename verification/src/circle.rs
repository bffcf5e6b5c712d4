//! The simulated body: a circular point mass.

use vstd::prelude::*;

verus! {

use crate::fixed::LIMIT;
use crate::fixed::SCALE;
use crate::fixed::clip;
use crate::fixed::div_s;
use crate::fixed::lemma_mul_bounds;
use crate::fixed::lemma_tdiv_bounds;
use crate::fixed::mul_s;
use crate::fixed::clip_to;
use crate::fixed::div_trunc;

/// A two-component vector of fixed-point scalars.
#[derive(Clone, Copy, PartialEq, Eq, Structural, Debug)]
pub struct Vec2 {
    pub x: i64,
    pub y: i64,
}

/// An opaque four-component visual tag, carried through the simulation
/// unmodified; the renderer owns its meaning.
#[derive(Clone, Copy, PartialEq, Eq, Structural, Debug)]
pub struct Color {
    pub r: u32,
    pub g: u32,
    pub b: u32,
    pub a: u32,
}

/// The mathematical state of one circle.
pub ghost struct CircleModel {
    pub px: int,
    pub py: int,
    pub vx: int,
    pub vy: int,
    pub amortization: int,
    pub mass: int,
    pub radius: int,
    pub color: Color,
    pub is_static: bool,
}

impl CircleModel {
    /// Every scalar is representable; radius and mass are strictly positive,
    /// and the mass small enough that its reciprocal does not vanish at the
    /// fixed-point resolution.
    pub open spec fn wf(self) -> bool {
        &&& -(LIMIT as int) <= self.px <= LIMIT as int
        &&& -(LIMIT as int) <= self.py <= LIMIT as int
        &&& -(LIMIT as int) <= self.vx <= LIMIT as int
        &&& -(LIMIT as int) <= self.vy <= LIMIT as int
        &&& -(LIMIT as int) <= self.amortization <= LIMIT as int
        &&& 1 <= self.radius <= LIMIT as int
        &&& 1 <= self.mass <= (SCALE as int) * (SCALE as int)
    }
}

/// `b` with `force / mass` added to its velocity, each component clipped.
pub open spec fn force_applied(b: CircleModel, fx: int, fy: int) -> CircleModel {
    CircleModel {
        vx: clip(b.vx + div_s(fx, b.mass)),
        vy: clip(b.vy + div_s(fy, b.mass)),
        ..b
    }
}

/// `b` displaced by the offset, unless it is static.
pub open spec fn offset_applied(b: CircleModel, ox: int, oy: int) -> CircleModel {
    if b.is_static {
        b
    } else {
        CircleModel { px: clip(b.px + ox), py: clip(b.py + oy), ..b }
    }
}

/// `b` moved by `velocity * delta_time * time_speed`, unless it is static.
pub open spec fn integrated(b: CircleModel, delta_time: int, time_speed: int) -> CircleModel {
    if b.is_static {
        b
    } else {
        CircleModel {
            px: clip(b.px + mul_s(mul_s(b.vx, delta_time), time_speed)),
            py: clip(b.py + mul_s(mul_s(b.vy, delta_time), time_speed)),
            ..b
        }
    }
}

/// A simulated circle: position and velocity in fixed-point world units,
/// a rebound ("amortization") coefficient, mass, radius, a visual tag, and
/// a flag marking immovable bodies.
#[derive(Clone, Copy, Debug)]
pub struct Circle {
    pub position: Vec2,
    pub velocity: Vec2,
    pub amortization: i64,
    pub mass: i64,
    pub radius: i64,
    pub color: Color,
    pub is_static: bool,
}

impl View for Circle {
    type V = CircleModel;

    open spec fn view(&self) -> CircleModel {
        CircleModel {
            px: self.position.x as int,
            py: self.position.y as int,
            vx: self.velocity.x as int,
            vy: self.velocity.y as int,
            amortization: self.amortization as int,
            mass: self.mass as int,
            radius: self.radius as int,
            color: self.color,
            is_static: self.is_static,
        }
    }
}

impl Circle {
    /// Builds a circle from its parts.
    pub fn new(
        position: Vec2,
        velocity: Vec2,
        amortization: i64,
        mass: i64,
        radius: i64,
        color: Color,
        is_static: bool,
    ) -> (c: Circle)
        requires
            -LIMIT <= position.x <= LIMIT,
            -LIMIT <= position.y <= LIMIT,
            -LIMIT <= velocity.x <= LIMIT,
            -LIMIT <= velocity.y <= LIMIT,
            -LIMIT <= amortization <= LIMIT,
            1 <= radius <= LIMIT,
            1 <= mass <= SCALE * SCALE,
        ensures
            c@.wf(),
            c@ == (CircleModel {
                px: position.x as int,
                py: position.y as int,
                vx: velocity.x as int,
                vy: velocity.y as int,
                amortization: amortization as int,
                mass: mass as int,
                radius: radius as int,
                color: color,
                is_static: is_static,
            }),
    {
        Circle { position, velocity, amortization, mass, radius, color, is_static }
    }

    /// Adds `force / mass` to the velocity, unconditionally; the engine is
    /// responsible for not applying forces to static bodies.
    pub fn apply_force(&mut self, force: Vec2)
        requires
            old(self)@.wf(),
            -LIMIT <= force.x <= LIMIT,
            -LIMIT <= force.y <= LIMIT,
        ensures
            final(self)@ == force_applied(old(self)@, force.x as int, force.y as int),
            final(self)@.wf(),
    {
        proof {
            lemma_mul_bounds(force.x as int, SCALE as int, LIMIT as int, SCALE as int);
            lemma_mul_bounds(force.y as int, SCALE as int, LIMIT as int, SCALE as int);
            lemma_tdiv_bounds(force.x as int * (SCALE as int), self.mass as int);
            lemma_tdiv_bounds(force.y as int * (SCALE as int), self.mass as int);
        }
        let dvx = div_trunc(force.x as i128 * SCALE as i128, self.mass as i128);
        let dvy = div_trunc(force.y as i128 * SCALE as i128, self.mass as i128);
        self.velocity.x = clip_to(self.velocity.x as i128 + dvx);
        self.velocity.y = clip_to(self.velocity.y as i128 + dvy);
    }

    /// Displaces the circle, unless it is static. Used for overlap
    /// correction, never for velocity-driven motion.
    pub fn apply_offset(&mut self, offset: Vec2)
        requires
            old(self)@.wf(),
            -LIMIT <= offset.x <= LIMIT,
            -LIMIT <= offset.y <= LIMIT,
        ensures
            final(self)@ == offset_applied(old(self)@, offset.x as int, offset.y as int),
            final(self)@.wf(),
    {
        if !self.is_static {
            self.position.x = clip_to(self.position.x as i128 + offset.x as i128);
            self.position.y = clip_to(self.position.y as i128 + offset.y as i128);
        }
    }

    /// Moves the circle by `velocity * delta_time * time_speed`, unless it
    /// is static.
    pub fn update(&mut self, delta_time: i64, time_speed: i64)
        requires
            old(self)@.wf(),
            0 <= delta_time <= LIMIT,
            0 <= time_speed <= LIMIT,
        ensures
            final(self)@ == integrated(old(self)@, delta_time as int, time_speed as int),
            final(self)@.wf(),
    {
        if !self.is_static {
            proof {
                lemma_mul_bounds(
                    self.velocity.x as int,
                    delta_time as int,
                    LIMIT as int,
                    LIMIT as int,
                );
                lemma_mul_bounds(
                    self.velocity.y as int,
                    delta_time as int,
                    LIMIT as int,
                    LIMIT as int,
                );
                lemma_tdiv_bounds(self.velocity.x as int * delta_time as int, SCALE as int);
                lemma_tdiv_bounds(self.velocity.y as int * delta_time as int, SCALE as int);
            }
            let tx = div_trunc(self.velocity.x as i128 * delta_time as i128, SCALE as i128);
            let ty = div_trunc(self.velocity.y as i128 * delta_time as i128, SCALE as i128);
            proof {
                lemma_mul_bounds(
                    tx as int,
                    time_speed as int,
                    (LIMIT as int) * (LIMIT as int),
                    LIMIT as int,
                );
                lemma_mul_bounds(
                    ty as int,
                    time_speed as int,
                    (LIMIT as int) * (LIMIT as int),
                    LIMIT as int,
                );
                lemma_tdiv_bounds(tx as int * time_speed as int, SCALE as int);
            }
            let sx = div_trunc(tx * time_speed as i128, SCALE as i128);
            let sy = div_trunc(ty * time_speed as i128, SCALE as i128);
            self.position.x = clip_to(self.position.x as i128 + sx);
            self.position.y = clip_to(self.position.y as i128 + sy);
        }
    }
}

} // verus!
