//! Bodies, point-mass particles, the simulation configuration, and the
//! semi-implicit Euler integrator.
//!
//! All kinematic state is held in fixed-point integer units.  The validity
//! predicates bound every quantity so that each arithmetic step of the engine
//! is proved free of overflow.

use vstd::prelude::*;
use crate::num::{tdiv, tdiv_i128, sqrt_floor, isqrt_u128, iabs,
    lemma_sqrt_floor_bounds, lemma_tdiv_abs_le, lemma_tdiv_scale_le};

verus! {

/// Largest admissible mass of a single body.
pub const MASS_MAX: i64 = 1_000_000;

/// Largest admissible magnitude of a position coordinate.
pub const POS_LIMIT: i64 = 1_000_000_000;

/// Largest admissible magnitude of a velocity coordinate.
pub const VEL_LIMIT: i64 = 1_000_000_000;

/// Largest admissible number of bodies in a store.
pub const COUNT_MAX: usize = 1_000_000;

/// Upper bound on the mass aggregated over any body store:
/// `MASS_MAX * COUNT_MAX`.
pub const TOTAL_MASS_CAP: i64 = 1_000_000_000_000;

/// Largest admissible gravitational constant.
pub const G_CAP: i64 = 1_000_000;

/// Largest admissible time-step denominator.
pub const DT_CAP: i64 = 1_000_000;

/// Largest admissible distance floor.
pub const FLOOR_CAP: i64 = 1_000;

/// A two-dimensional fixed-point vector.
#[derive(Clone, Copy, PartialEq, Eq, Structural, Debug)]
pub struct Vec2 {
    pub x: i64,
    pub y: i64,
}

/// An immutable point-mass snapshot of a body, tagged with the body's index
/// in the store.  Tree nodes reference bodies through these.
#[derive(Clone, Copy, PartialEq, Eq, Structural, Debug)]
pub struct Particle {
    pub id: usize,
    pub mass: i64,
    pub pos: Vec2,
}

/// A mutable point mass.  `radius` is derived from the mass (its square
/// root) and is used only for collision extent; `acceleration` is a scratch
/// value valid within one step.
#[derive(Clone, Copy, PartialEq, Eq, Structural, Debug)]
pub struct Body {
    pub mass: i64,
    pub position: Vec2,
    pub velocity: Vec2,
    pub acceleration: Vec2,
    pub radius: i64,
}

/// Configuration injected by the application shell: the gravitational
/// constant, the distance floor guarding near-zero separations, and the
/// time step as the ratio `dt_num / dt_den` (at most one time unit).
#[derive(Clone, Copy, PartialEq, Eq, Structural, Debug)]
pub struct SimConfig {
    pub g: i64,
    pub dist_floor: i64,
    pub dt_num: i64,
    pub dt_den: i64,
}

pub open spec fn valid_config(c: SimConfig) -> bool {
    &&& 1 <= c.g <= G_CAP
    &&& 1 <= c.dist_floor <= FLOOR_CAP
    &&& 0 <= c.dt_num <= c.dt_den
    &&& 1 <= c.dt_den <= DT_CAP
}

pub open spec fn valid_particle(p: Particle) -> bool {
    &&& 1 <= p.mass <= MASS_MAX
    &&& -POS_LIMIT <= p.pos.x <= POS_LIMIT
    &&& -POS_LIMIT <= p.pos.y <= POS_LIMIT
}

pub open spec fn valid_body(b: Body) -> bool {
    &&& 1 <= b.mass <= MASS_MAX
    &&& -POS_LIMIT <= b.position.x <= POS_LIMIT
    &&& -POS_LIMIT <= b.position.y <= POS_LIMIT
    &&& -VEL_LIMIT <= b.velocity.x <= VEL_LIMIT
    &&& -VEL_LIMIT <= b.velocity.y <= VEL_LIMIT
    &&& b.radius == sqrt_floor(b.mass as nat)
}

pub open spec fn valid_bodies(s: Seq<Body>) -> bool {
    &&& s.len() <= COUNT_MAX
    &&& forall|i: int| 0 <= i < s.len() ==> valid_body(#[trigger] s[i])
}

/// The particle snapshot of the body at index `i`.
pub open spec fn particle_at(s: Seq<Body>, i: int) -> Particle {
    Particle { id: i as usize, mass: s[i].mass, pos: s[i].position }
}

/// The particle snapshots of a whole body store, in index order.
pub open spec fn particles(s: Seq<Body>) -> Seq<Particle> {
    Seq::new(s.len(), |i: int| particle_at(s, i))
}

/// Net-force magnitudes handed to the integrator are bounded by
/// `g * mass * TOTAL_MASS_CAP`: the traversal proves this bound for every
/// force it accumulates.
pub open spec fn force_in_cap(b: Body, fx: int, fy: int, c: SimConfig) -> bool {
    &&& iabs(fx) <= c.g * b.mass * TOTAL_MASS_CAP
    &&& iabs(fy) <= c.g * b.mass * TOTAL_MASS_CAP
}

/// One semi-implicit Euler step: acceleration from the net force, then
/// velocity, then position from the updated velocity.  Divisions truncate
/// toward zero.
pub open spec fn integrate(b: Body, fx: int, fy: int, c: SimConfig) -> Body {
    let ax = tdiv(fx, b.mass as int);
    let ay = tdiv(fy, b.mass as int);
    let vx = b.velocity.x + tdiv(ax * c.dt_num, c.dt_den as int);
    let vy = b.velocity.y + tdiv(ay * c.dt_num, c.dt_den as int);
    let px = b.position.x + tdiv(vx * c.dt_num, c.dt_den as int);
    let py = b.position.y + tdiv(vy * c.dt_num, c.dt_den as int);
    Body {
        mass: b.mass,
        position: Vec2 { x: px as i64, y: py as i64 },
        velocity: Vec2 { x: vx as i64, y: vy as i64 },
        acceleration: Vec2 { x: ax as i64, y: ay as i64 },
        radius: b.radius,
    }
}

/// The bounds that `integrate` guarantees whenever the force respects
/// `force_in_cap`: nothing leaves `i64`, though positions and velocities may
/// leave the validity window, which the caller must re-check per step.
pub proof fn lemma_integrate_bounds(b: Body, fx: int, fy: int, c: SimConfig)
    requires
        valid_body(b),
        valid_config(c),
        force_in_cap(b, fx, fy, c),
    ensures
        iabs(fx) <= G_CAP * MASS_MAX * TOTAL_MASS_CAP,
        iabs(fy) <= G_CAP * MASS_MAX * TOTAL_MASS_CAP,
        iabs(tdiv(fx, b.mass as int)) <= G_CAP * TOTAL_MASS_CAP,
        iabs(tdiv(fy, b.mass as int)) <= G_CAP * TOTAL_MASS_CAP,
        iabs(b.velocity.x + tdiv(tdiv(fx, b.mass as int) * c.dt_num, c.dt_den as int))
            <= VEL_LIMIT + G_CAP * TOTAL_MASS_CAP,
        iabs(b.velocity.y + tdiv(tdiv(fy, b.mass as int) * c.dt_num, c.dt_den as int))
            <= VEL_LIMIT + G_CAP * TOTAL_MASS_CAP,
{
    lemma_axis_bounds(b.mass as int, b.velocity.x as int, fx, c);
    lemma_axis_bounds(b.mass as int, b.velocity.y as int, fy, c);
}

proof fn lemma_axis_bounds(m: int, v: int, f: int, c: SimConfig)
    requires
        1 <= m <= MASS_MAX,
        -VEL_LIMIT <= v <= VEL_LIMIT,
        valid_config(c),
        iabs(f) <= c.g * m * TOTAL_MASS_CAP,
    ensures
        iabs(f) <= G_CAP * MASS_MAX * TOTAL_MASS_CAP,
        iabs(tdiv(f, m)) <= G_CAP * TOTAL_MASS_CAP,
        iabs(v + tdiv(tdiv(f, m) * c.dt_num, c.dt_den as int)) <= VEL_LIMIT + G_CAP * TOTAL_MASS_CAP,
{
    let cap = c.g * m * TOTAL_MASS_CAP;
    vstd::arithmetic::mul::lemma_mul_nonnegative(c.g as int, m);
    vstd::arithmetic::mul::lemma_mul_nonnegative(c.g * m, TOTAL_MASS_CAP as int);
    lemma_tdiv_abs_le(f, m, cap);
    assert(cap / m == c.g * TOTAL_MASS_CAP) by {
        vstd::arithmetic::mul::lemma_mul_is_commutative(c.g as int, m);
        vstd::arithmetic::mul::lemma_mul_is_associative(m, c.g as int, TOTAL_MASS_CAP as int);
        assert(cap == m * (c.g * TOTAL_MASS_CAP));
        vstd::arithmetic::div_mod::lemma_div_multiples_vanish(c.g * TOTAL_MASS_CAP, m);
    }
    vstd::arithmetic::mul::lemma_mul_inequality(c.g as int, G_CAP as int, TOTAL_MASS_CAP as int);
    vstd::arithmetic::mul::lemma_mul_upper_bound(c.g as int, G_CAP as int, m, MASS_MAX as int);
    vstd::arithmetic::mul::lemma_mul_inequality(c.g * m, G_CAP * MASS_MAX, TOTAL_MASS_CAP as int);
    let a = tdiv(f, m);
    lemma_tdiv_scale_le(a, c.dt_num as int, c.dt_den as int);
}

impl Body {
    /// A fresh body at rest in its scratch state; the radius is the floor
    /// square root of the mass.
    pub fn new(mass: i64, position: Vec2, velocity: Vec2) -> (b: Body)
        requires
            1 <= mass <= MASS_MAX,
            -POS_LIMIT <= position.x <= POS_LIMIT,
            -POS_LIMIT <= position.y <= POS_LIMIT,
            -VEL_LIMIT <= velocity.x <= VEL_LIMIT,
            -VEL_LIMIT <= velocity.y <= VEL_LIMIT,
        ensures
            b.mass == mass,
            b.position == position,
            b.velocity == velocity,
            b.acceleration == (Vec2 { x: 0i64, y: 0i64 }),
            b.radius == sqrt_floor(mass as nat),
            valid_body(b),
    {
        let r: u128 = isqrt_u128(mass as u128);
        proof {
            lemma_sqrt_floor_bounds(mass as nat);
            assert(r * r <= mass as int);
            assert(r <= mass as int) by (nonlinear_arith)
                requires r * r <= mass as int && r >= 0 && mass >= 1,
            ;
        }
        Body {
            mass,
            position,
            velocity,
            acceleration: Vec2 { x: 0, y: 0 },
            radius: r as i64,
        }
    }

    /// Apply the net force accumulated for this step: acceleration, then
    /// velocity, then position.
    pub fn update(&mut self, fx: i128, fy: i128, cfg: &SimConfig)
        requires
            valid_body(*old(self)),
            valid_config(*cfg),
            force_in_cap(*old(self), fx as int, fy as int, *cfg),
        ensures
            *final(self) == integrate(*old(self), fx as int, fy as int, *cfg),
    {
        proof {
            lemma_integrate_bounds(*self, fx as int, fy as int, *cfg);
        }
        let m: i128 = self.mass as i128;
        let ax: i128 = tdiv_i128(fx, m);
        let ay: i128 = tdiv_i128(fy, m);
        proof {
            crate::num::lemma_abs_mul_le(ax as int, cfg.dt_num as int,
                G_CAP * TOTAL_MASS_CAP, DT_CAP as int);
            crate::num::lemma_abs_mul_le(ay as int, cfg.dt_num as int,
                G_CAP * TOTAL_MASS_CAP, DT_CAP as int);
        }
        let dvx: i128 = tdiv_i128(ax * cfg.dt_num as i128, cfg.dt_den as i128);
        let dvy: i128 = tdiv_i128(ay * cfg.dt_num as i128, cfg.dt_den as i128);
        proof {
            crate::num::lemma_tdiv_scale_le(ax as int, cfg.dt_num as int, cfg.dt_den as int);
            crate::num::lemma_tdiv_scale_le(ay as int, cfg.dt_num as int, cfg.dt_den as int);
        }
        let vx: i128 = self.velocity.x as i128 + dvx;
        let vy: i128 = self.velocity.y as i128 + dvy;
        proof {
            crate::num::lemma_abs_mul_le(vx as int, cfg.dt_num as int,
                VEL_LIMIT + G_CAP * TOTAL_MASS_CAP, DT_CAP as int);
            crate::num::lemma_abs_mul_le(vy as int, cfg.dt_num as int,
                VEL_LIMIT + G_CAP * TOTAL_MASS_CAP, DT_CAP as int);
        }
        let dpx: i128 = tdiv_i128(vx * cfg.dt_num as i128, cfg.dt_den as i128);
        let dpy: i128 = tdiv_i128(vy * cfg.dt_num as i128, cfg.dt_den as i128);
        proof {
            crate::num::lemma_tdiv_scale_le(vx as int, cfg.dt_num as int, cfg.dt_den as int);
            crate::num::lemma_tdiv_scale_le(vy as int, cfg.dt_num as int, cfg.dt_den as int);
        }
        let px: i128 = self.position.x as i128 + dpx;
        let py: i128 = self.position.y as i128 + dpy;
        self.acceleration = Vec2 { x: ax as i64, y: ay as i64 };
        self.velocity = Vec2 { x: vx as i64, y: vy as i64 };
        self.position = Vec2 { x: px as i64, y: py as i64 };
    }

    /// Collision-response hook: the baseline policy changes nothing beyond
    /// the positional separation already applied by the resolver.
    pub fn collide(&mut self, other: &Body)
        ensures
            *final(self) == *old(self),
    {
    }
}

/// Whether every body is inside the validity window, so that another step
/// may be taken; the application shell re-checks this between steps.
pub fn bodies_all_valid(bodies: &Vec<Body>) -> (ok: bool)
    ensures
        ok == valid_bodies(bodies@),
{
    if bodies.len() > COUNT_MAX {
        return false;
    }
    let mut i: usize = 0;
    while i < bodies.len()
        invariant
            0 <= i <= bodies@.len(),
            bodies@.len() <= COUNT_MAX,
            forall|j: int| 0 <= j < i ==> valid_body(#[trigger] bodies@[j]),
        decreases bodies@.len() - i,
    {
        let b = bodies[i];
        let mass_ok: bool = 1 <= b.mass && b.mass <= MASS_MAX;
        let pos_ok: bool = -POS_LIMIT <= b.position.x && b.position.x <= POS_LIMIT
            && -POS_LIMIT <= b.position.y && b.position.y <= POS_LIMIT;
        let vel_ok: bool = -VEL_LIMIT <= b.velocity.x && b.velocity.x <= VEL_LIMIT
            && -VEL_LIMIT <= b.velocity.y && b.velocity.y <= VEL_LIMIT;
        if !(mass_ok && pos_ok && vel_ok) {
            return false;
        }
        let r: u128 = isqrt_u128(b.mass as u128);
        proof {
            lemma_sqrt_floor_bounds(b.mass as nat);
            assert(r <= b.mass as int) by (nonlinear_arith)
                requires r * r <= b.mass as int && r >= 0 && b.mass >= 1,
            ;
        }
        if b.radius != r as i64 {
            return false;
        }
        i += 1;
    }
    true
}

} // verus!
