//! The force approximator: a theta-controlled traversal of the quadrant
//! tree that accumulates each body's net gravitational force, and the
//! gravitation pass that integrates every body under that force.

use vstd::prelude::*;
use crate::body::{Body, Vec2, Particle, SimConfig, valid_bodies, valid_body, valid_particle,
    valid_config, particles, particle_at, integrate, force_in_cap, MASS_MAX, POS_LIMIT,
    TOTAL_MASS_CAP, G_CAP};
use crate::num::{tdiv, tdiv_i128, sqrt_floor, isqrt_u128, iabs, lemma_sqrt_floor_bounds,
    lemma_tdiv_abs_le, lemma_abs_mul_le};
use crate::quadtree::{Quadrant, Kids, members, mass_sum, wf_quad, all_valid, kids4,
    lemma_sums_concat, lemma_sums_bounds, GEOM_CAP};
use crate::tree::{QuadTree, wf_tree, max2, SIDE_CAP, THETA_CAP};

verus! {

/// The guarded distance between two points: the floor square root of the
/// squared separation, clamped below by the distance floor.
pub open spec fn dist_of(dx: int, dy: int, floor: int) -> int {
    max2(sqrt_floor((dx * dx + dy * dy) as nat) as int, floor)
}

/// Force exerted on `b` by a point aggregate of mass `qm` at `(qx, qy)`:
/// `offset * g * mass(b) * qm / dist^3`, one truncating division at the end.
pub open spec fn pf_x(qx: int, qy: int, qm: int, b: Particle, c: SimConfig) -> int {
    let dx = qx - b.pos.x;
    let dy = qy - b.pos.y;
    let d = dist_of(dx, dy, c.dist_floor as int);
    tdiv(dx * (c.g * b.mass * qm), d * d * d)
}

pub open spec fn pf_y(qx: int, qy: int, qm: int, b: Particle, c: SimConfig) -> int {
    let dx = qx - b.pos.x;
    let dy = qy - b.pos.y;
    let d = dist_of(dx, dy, c.dist_floor as int);
    tdiv(dy * (c.g * b.mass * qm), d * d * d)
}

/// A coordinate is bounded by the guarded distance.
pub proof fn lemma_abs_le_dist(dx: int, dy: int, floor: int)
    requires
        1 <= floor,
    ensures
        1 <= dist_of(dx, dy, floor),
        iabs(dx) <= dist_of(dx, dy, floor),
        iabs(dy) <= dist_of(dx, dy, floor),
{
    let n = (dx * dx + dy * dy) as nat;
    assert(dx * dx >= 0 && dy * dy >= 0) by (nonlinear_arith);
    assert(iabs(dx) * iabs(dx) == dx * dx && iabs(dy) * iabs(dy) == dy * dy) by (nonlinear_arith);
    lemma_sqrt_floor_bounds(n);
    let s = sqrt_floor(n) as int;
    if iabs(dx) > s {
        assert(iabs(dx) * iabs(dx) >= (s + 1) * (s + 1)) by (nonlinear_arith)
            requires iabs(dx) >= s + 1 && s >= 0,
        ;
    }
    if iabs(dy) > s {
        assert(iabs(dy) * iabs(dy) >= (s + 1) * (s + 1)) by (nonlinear_arith)
            requires iabs(dy) >= s + 1 && s >= 0,
        ;
    }
}

/// The point-force magnitude is at most `g * mass(b) * qm` per coordinate.
proof fn lemma_pf_bound(qx: int, qy: int, qm: int, b: Particle, c: SimConfig)
    requires
        valid_particle(b),
        valid_config(c),
        0 <= qm,
    ensures
        iabs(pf_x(qx, qy, qm, b, c)) <= c.g * b.mass * qm,
        iabs(pf_y(qx, qy, qm, b, c)) <= c.g * b.mass * qm,
{
    let dx = qx - b.pos.x;
    let dy = qy - b.pos.y;
    let d = dist_of(dx, dy, c.dist_floor as int);
    lemma_abs_le_dist(dx, dy, c.dist_floor as int);
    assert(0 <= c.g * b.mass * qm) by (nonlinear_arith)
        requires c.g >= 1 && b.mass >= 1 && qm >= 0,
    ;
    lemma_coord_div_bound(dx, d, c.g * b.mass * qm);
    lemma_coord_div_bound(dy, d, c.g * b.mass * qm);
}

/// `|tdiv(dx * a, d^3)| <= a` whenever `|dx| <= d` and `1 <= d`, `0 <= a`.
proof fn lemma_coord_div_bound(dx: int, d: int, a: int)
    requires
        1 <= d,
        iabs(dx) <= d,
        0 <= a,
    ensures
        iabs(tdiv(dx * a, d * d * d)) <= a,
{
    assert(-(d * a) <= dx * a <= d * a) by (nonlinear_arith)
        requires iabs(dx) <= d && 0 <= a && -iabs(dx) <= dx <= iabs(dx),
    ;
    assert(d * a >= 0) by (nonlinear_arith)
        requires d >= 1 && a >= 0,
    ;
    assert(d * d * d >= 1) by (nonlinear_arith)
        requires d >= 1,
    ;
    lemma_tdiv_abs_le(dx * a, d * d * d, d * a);
    assert((d * a) / (d * d * d) <= a) by {
        assert(d * a <= (d * d * d) * a) by (nonlinear_arith)
            requires d >= 1 && a >= 0,
        ;
        vstd::arithmetic::div_mod::lemma_div_is_ordered(d * a, (d * d * d) * a, d * d * d);
        assert(((d * d * d) * a) / (d * d * d) == a) by {
            vstd::arithmetic::div_mod::lemma_div_multiples_vanish(a, d * d * d);
            assert((d * d * d) * a == a * (d * d * d)) by (nonlinear_arith);
        }
    }
}

/// Executable point force.
pub(crate) fn point_force(qx: i128, qy: i128, qm: i64, b: &Particle, cfg: &SimConfig) -> (r: (i128, i128))
    requires
        -POS_LIMIT <= qx <= POS_LIMIT,
        -POS_LIMIT <= qy <= POS_LIMIT,
        0 <= qm <= TOTAL_MASS_CAP,
        valid_particle(*b),
        valid_config(*cfg),
    ensures
        r.0 == pf_x(qx as int, qy as int, qm as int, *b, *cfg),
        r.1 == pf_y(qx as int, qy as int, qm as int, *b, *cfg),
        iabs(r.0 as int) <= cfg.g * b.mass * qm,
        iabs(r.1 as int) <= cfg.g * b.mass * qm,
{
    let dx: i128 = qx - b.pos.x as i128;
    let dy: i128 = qy - b.pos.y as i128;
    proof {
        lemma_abs_mul_le(dx as int, dx as int, 2 * POS_LIMIT, 2 * POS_LIMIT);
        lemma_abs_mul_le(dy as int, dy as int, 2 * POS_LIMIT, 2 * POS_LIMIT);
        assert(dx * dx >= 0 && dy * dy >= 0) by (nonlinear_arith);
    }
    let d2: i128 = dx * dx + dy * dy;
    let sq: u128 = isqrt_u128(d2 as u128);
    proof {
        assert(sq * sq <= d2 as int);
        assert(sq <= 3_000_000_000) by (nonlinear_arith)
            requires sq * sq <= 8_000_000_000_000_000_000int && sq >= 0,
        ;
    }
    let d: i128 = if (sq as i128) >= cfg.dist_floor as i128 {
        sq as i128
    } else {
        cfg.dist_floor as i128
    };
    proof {
        lemma_abs_le_dist(dx as int, dy as int, cfg.dist_floor as int);
        assert(d == dist_of(dx as int, dy as int, cfg.dist_floor as int));
        lemma_abs_mul_le(d as int, d as int, 3_000_000_000, 3_000_000_000);
        lemma_abs_mul_le(d as int * d as int, d as int, 9_000_000_000_000_000_000,
            3_000_000_000);
        lemma_abs_mul_le(cfg.g as int, b.mass as int, G_CAP as int, MASS_MAX as int);
        lemma_abs_mul_le(cfg.g * b.mass, qm as int, G_CAP * MASS_MAX, TOTAL_MASS_CAP as int);
        lemma_abs_mul_le(dx as int, cfg.g * b.mass * qm, 2 * POS_LIMIT,
            G_CAP * MASS_MAX * TOTAL_MASS_CAP);
        lemma_abs_mul_le(dy as int, cfg.g * b.mass * qm, 2 * POS_LIMIT,
            G_CAP * MASS_MAX * TOTAL_MASS_CAP);
    }
    proof {
        assert(d * d * d >= 1) by (nonlinear_arith)
            requires d >= 1,
        ;
    }
    let d3: i128 = d * d * d;
    let scale: i128 = cfg.g as i128 * b.mass as i128 * qm as i128;
    let fx: i128 = tdiv_i128(dx * scale, d3);
    let fy: i128 = tdiv_i128(dy * scale, d3);
    proof {
        lemma_pf_bound(qx as int, qy as int, qm as int, *b, *cfg);
    }
    (fx, fy)
}

/// Net force on `b` from a particle sequence taken body by body, the
/// particle with `b`'s own index excluded.
pub open spec fn fsum_x(s: Seq<Particle>, b: Particle, c: SimConfig) -> int
    decreases s.len(),
{
    if s.len() == 0 {
        0
    } else {
        fsum_x(s.drop_last(), b, c) + (if s.last().id == b.id {
            0
        } else {
            pf_x(s.last().pos.x as int, s.last().pos.y as int, s.last().mass as int, b, c)
        })
    }
}

pub open spec fn fsum_y(s: Seq<Particle>, b: Particle, c: SimConfig) -> int
    decreases s.len(),
{
    if s.len() == 0 {
        0
    } else {
        fsum_y(s.drop_last(), b, c) + (if s.last().id == b.id {
            0
        } else {
            pf_y(s.last().pos.x as int, s.last().pos.y as int, s.last().mass as int, b, c)
        })
    }
}

/// The per-body sum is bounded by `g * mass(b) * mass_sum(s)`.
pub proof fn lemma_fsum_bound(s: Seq<Particle>, b: Particle, c: SimConfig)
    requires
        all_valid(s),
        valid_particle(b),
        valid_config(c),
    ensures
        iabs(fsum_x(s, b, c)) <= c.g * b.mass * mass_sum(s),
        iabs(fsum_y(s, b, c)) <= c.g * b.mass * mass_sum(s),
    decreases s.len(),
{
    lemma_sums_bounds(s);
    if s.len() == 0 {
        assert(c.g * b.mass * 0 == 0) by (nonlinear_arith);
    } else {
        assert(all_valid(s.drop_last())) by {
            assert(forall|i: int| 0 <= i < s.len() - 1 ==> s.drop_last()[i] == #[trigger] s[i]);
        }
        lemma_fsum_bound(s.drop_last(), b, c);
        let p = s.last();
        assert(valid_particle(p));
        lemma_pf_bound(p.pos.x as int, p.pos.y as int, p.mass as int, b, c);
        assert(c.g * b.mass * mass_sum(s.drop_last()) + c.g * b.mass * p.mass == c.g * b.mass
            * mass_sum(s)) by (nonlinear_arith)
            requires mass_sum(s) == mass_sum(s.drop_last()) + p.mass,
        ;
        assert(c.g * b.mass * p.mass >= 0) by (nonlinear_arith)
            requires c.g >= 1 && b.mass >= 1 && p.mass >= 1,
        ;
    }
}

/// The tree-approximated force on `b` from a node whose square has the
/// given side: empty nodes contribute nothing; a node passing the theta
/// admissibility test acts as one point mass at its centre of mass; an
/// inadmissible leaf contributes its particles one by one, excluding `b`
/// itself; an inadmissible internal node descends with halved side.
pub open spec fn tf_x(q: Quadrant, side: int, b: Particle, c: SimConfig, tn: int, td: int) -> int
    decreases q,
{
    if q.total_mass == 0 {
        0
    } else {
        let comx = tdiv(q.mps_x as int, q.total_mass as int);
        let comy = tdiv(q.mps_y as int, q.total_mass as int);
        let d = dist_of(comx - b.pos.x, comy - b.pos.y, c.dist_floor as int);
        if side * td < tn * d {
            pf_x(comx, comy, q.total_mass as int, b, c)
        } else {
            match q.kids {
                Kids::Leaf(ms) => fsum_x(ms@, b, c),
                Kids::Four(ch) => tf_x(ch.q0, side / 2, b, c, tn, td) + tf_x(
                    ch.q1,
                    side / 2,
                    b,
                    c,
                    tn,
                    td,
                ) + tf_x(ch.q2, side / 2, b, c, tn, td) + tf_x(ch.q3, side / 2, b, c, tn, td),
            }
        }
    }
}

pub open spec fn tf_y(q: Quadrant, side: int, b: Particle, c: SimConfig, tn: int, td: int) -> int
    decreases q,
{
    if q.total_mass == 0 {
        0
    } else {
        let comx = tdiv(q.mps_x as int, q.total_mass as int);
        let comy = tdiv(q.mps_y as int, q.total_mass as int);
        let d = dist_of(comx - b.pos.x, comy - b.pos.y, c.dist_floor as int);
        if side * td < tn * d {
            pf_y(comx, comy, q.total_mass as int, b, c)
        } else {
            match q.kids {
                Kids::Leaf(ms) => fsum_y(ms@, b, c),
                Kids::Four(ch) => tf_y(ch.q0, side / 2, b, c, tn, td) + tf_y(
                    ch.q1,
                    side / 2,
                    b,
                    c,
                    tn,
                    td,
                ) + tf_y(ch.q2, side / 2, b, c, tn, td) + tf_y(ch.q3, side / 2, b, c, tn, td),
            }
        }
    }
}

/// The accumulated tree force is bounded by `g * mass(b)` times the mass
/// below the node.
pub proof fn lemma_tf_bound(q: Quadrant, side: int, b: Particle, c: SimConfig, tn: int, td: int)
    requires
        wf_quad(q),
        valid_particle(b),
        valid_config(c),
    ensures
        iabs(tf_x(q, side, b, c, tn, td)) <= c.g * b.mass * mass_sum(members(q)),
        iabs(tf_y(q, side, b, c, tn, td)) <= c.g * b.mass * mass_sum(members(q)),
    decreases q,
{
    lemma_sums_bounds(members(q));
    assert(c.g * b.mass * mass_sum(members(q)) >= 0) by (nonlinear_arith)
        requires c.g >= 1 && b.mass >= 1 && mass_sum(members(q)) >= 0,
    ;
    if q.total_mass == 0 {
    } else {
        let comx = tdiv(q.mps_x as int, q.total_mass as int);
        let comy = tdiv(q.mps_y as int, q.total_mass as int);
        let d = dist_of(comx - b.pos.x, comy - b.pos.y, c.dist_floor as int);
        if side * td < tn * d {
            lemma_pf_bound(comx, comy, q.total_mass as int, b, c);
        } else {
            match q.kids {
                Kids::Leaf(ms) => {
                    lemma_fsum_bound(ms@, b, c);
                },
                Kids::Four(ch) => {
                    lemma_tf_bound(ch.q0, side / 2, b, c, tn, td);
                    lemma_tf_bound(ch.q1, side / 2, b, c, tn, td);
                    lemma_tf_bound(ch.q2, side / 2, b, c, tn, td);
                    lemma_tf_bound(ch.q3, side / 2, b, c, tn, td);
                    lemma_sums_concat(members(ch.q0), members(ch.q1));
                    lemma_sums_concat(members(ch.q0) + members(ch.q1), members(ch.q2));
                    lemma_sums_concat(
                        members(ch.q0) + members(ch.q1) + members(ch.q2),
                        members(ch.q3),
                    );
                    assert(c.g * b.mass * mass_sum(members(ch.q0)) + c.g * b.mass * mass_sum(
                        members(ch.q1),
                    ) + c.g * b.mass * mass_sum(members(ch.q2)) + c.g * b.mass * mass_sum(
                        members(ch.q3),
                    ) == c.g * b.mass * mass_sum(members(q))) by (nonlinear_arith)
                        requires mass_sum(members(q)) == mass_sum(members(ch.q0)) + mass_sum(
                            members(ch.q1),
                        ) + mass_sum(members(ch.q2)) + mass_sum(members(ch.q3)),
                    ;
                },
            }
        }
    }
}

/// Executable tree-force traversal.
fn force_from(q: &Quadrant, side: i64, b: &Particle, cfg: &SimConfig, tn: i64, td: i64) -> (r: (
    i128,
    i128,
))
    requires
        wf_quad(*q),
        q.total_mass <= TOTAL_MASS_CAP,
        valid_particle(*b),
        valid_config(*cfg),
        0 <= side <= GEOM_CAP,
        0 <= tn <= THETA_CAP,
        1 <= td <= THETA_CAP,
    ensures
        r.0 == tf_x(*q, side as int, *b, *cfg, tn as int, td as int),
        r.1 == tf_y(*q, side as int, *b, *cfg, tn as int, td as int),
    decreases *q,
{
    proof {
        lemma_sums_bounds(members(*q));
    }
    if q.total_mass == 0 {
        return (0, 0);
    }
    proof {
        lemma_tdiv_abs_le(q.mps_x as int, q.total_mass as int, q.total_mass * POS_LIMIT);
        lemma_tdiv_abs_le(q.mps_y as int, q.total_mass as int, q.total_mass * POS_LIMIT);
        assert((q.total_mass * POS_LIMIT) / (q.total_mass as int) == POS_LIMIT) by {
            vstd::arithmetic::div_mod::lemma_div_multiples_vanish(
                POS_LIMIT as int,
                q.total_mass as int,
            );
            assert(q.total_mass * POS_LIMIT == (q.total_mass as int) * (POS_LIMIT as int));
        }
    }
    let comx: i128 = tdiv_i128(q.mps_x, q.total_mass as i128);
    let comy: i128 = tdiv_i128(q.mps_y, q.total_mass as i128);
    let dx: i128 = comx - b.pos.x as i128;
    let dy: i128 = comy - b.pos.y as i128;
    proof {
        lemma_abs_mul_le(dx as int, dx as int, 2 * POS_LIMIT, 2 * POS_LIMIT);
        lemma_abs_mul_le(dy as int, dy as int, 2 * POS_LIMIT, 2 * POS_LIMIT);
        assert(dx * dx >= 0 && dy * dy >= 0) by (nonlinear_arith);
    }
    let d2: i128 = dx * dx + dy * dy;
    let sq: u128 = isqrt_u128(d2 as u128);
    proof {
        assert(sq * sq <= d2 as int);
        assert(sq <= 3_000_000_000) by (nonlinear_arith)
            requires sq * sq <= 8_000_000_000_000_000_000int && sq >= 0,
        ;
    }
    let d: i128 = if (sq as i128) >= cfg.dist_floor as i128 {
        sq as i128
    } else {
        cfg.dist_floor as i128
    };
    proof {
        assert(d == dist_of(dx as int, dy as int, cfg.dist_floor as int));
        lemma_abs_mul_le(side as int, td as int, GEOM_CAP as int, THETA_CAP as int);
        lemma_abs_mul_le(tn as int, d as int, THETA_CAP as int, 3_000_000_000);
    }
    if (side as i128) * (td as i128) < (tn as i128) * d {
        let r = point_force(comx, comy, q.total_mass, b, cfg);
        return r;
    }
    match &q.kids {
        Kids::Leaf(ms) => {
            let ghost s = ms@;
            let mut fx: i128 = 0;
            let mut fy: i128 = 0;
            let mut k: usize = 0;
            while k < ms.len()
                invariant
                    0 <= k <= s.len(),
                    ms@ == s,
                    all_valid(s),
                    mass_sum(s) <= TOTAL_MASS_CAP,
                    valid_particle(*b),
                    valid_config(*cfg),
                    fx == fsum_x(s.take(k as int), *b, *cfg),
                    fy == fsum_y(s.take(k as int), *b, *cfg),
                    iabs(fx as int) <= cfg.g * b.mass * mass_sum(s.take(k as int)),
                    iabs(fy as int) <= cfg.g * b.mass * mass_sum(s.take(k as int)),
                decreases s.len() - k,
            {
                let p = ms[k];
                proof {
                    assert(p == s[k as int]);
                    assert(valid_particle(p));
                    assert(s.take(k as int + 1).drop_last() =~= s.take(k as int));
                    assert(s.take(k as int + 1).last() == p);
                    assert(s =~= s.take(k as int + 1) + s.skip(k as int + 1));
                    lemma_sums_concat(s.take(k as int + 1), s.skip(k as int + 1));
                    assert(all_valid(s.take(k as int + 1))) by {
                        assert(forall|i: int|
                            0 <= i < k + 1 ==> s.take(k as int + 1)[i] == #[trigger] s[i]);
                    }
                    assert(all_valid(s.skip(k as int + 1))) by {
                        assert(forall|i: int|
                            0 <= i < s.len() - (k + 1) ==> s.skip(k as int + 1)[i]
                                == #[trigger] s[i + k + 1]);
                    }
                    lemma_sums_bounds(s.take(k as int + 1));
                    lemma_sums_bounds(s.skip(k as int + 1));
                    lemma_sums_bounds(s.take(k as int));
                    lemma_fsum_bound(s.take(k as int + 1), *b, *cfg);
                    assert(cfg.g * b.mass * mass_sum(s.take(k as int + 1)) <= cfg.g * b.mass
                        * TOTAL_MASS_CAP) by (nonlinear_arith)
                        requires
                            cfg.g >= 1 && b.mass >= 1 && mass_sum(s.take(k as int + 1))
                                <= TOTAL_MASS_CAP,
                    ;
                }
                if p.id != b.id {
                    let f = point_force(
                        p.pos.x as i128,
                        p.pos.y as i128,
                        p.mass,
                        b,
                        cfg,
                    );
                    proof {
                        assert(cfg.g * b.mass * mass_sum(s.take(k as int))
                            <= G_CAP * MASS_MAX * TOTAL_MASS_CAP) by (nonlinear_arith)
                            requires
                                1 <= cfg.g <= G_CAP && 1 <= b.mass <= MASS_MAX && 0 <= mass_sum(
                                    s.take(k as int),
                                ) <= TOTAL_MASS_CAP,
                        ;
                        assert(cfg.g * b.mass * p.mass <= G_CAP * MASS_MAX * MASS_MAX)
                            by (nonlinear_arith)
                            requires
                                1 <= cfg.g <= G_CAP && 1 <= b.mass <= MASS_MAX && 1 <= p.mass
                                    <= MASS_MAX,
                        ;
                    }
                    fx = fx + f.0;
                    fy = fy + f.1;
                    proof {
                        lemma_fsum_bound(s.take(k as int + 1), *b, *cfg);
                    }
                }
                k += 1;
            }
            proof {
                assert(s.take(s.len() as int) =~= s);
            }
            (fx, fy)
        },
        Kids::Four(ch) => {
            proof {
                assert(wf_quad(ch.q0) && wf_quad(ch.q1) && wf_quad(ch.q2) && wf_quad(ch.q3));
                crate::num::lemma_half_bounds(side as int);
                lemma_sums_concat(members(ch.q0), members(ch.q1));
                lemma_sums_concat(members(ch.q0) + members(ch.q1), members(ch.q2));
                lemma_sums_concat(
                    members(ch.q0) + members(ch.q1) + members(ch.q2),
                    members(ch.q3),
                );
                lemma_sums_bounds(members(ch.q0));
                lemma_sums_bounds(members(ch.q1));
                lemma_sums_bounds(members(ch.q2));
                lemma_sums_bounds(members(ch.q3));
                lemma_tf_bound(ch.q0, side as int / 2, *b, *cfg, tn as int, td as int);
                lemma_tf_bound(ch.q1, side as int / 2, *b, *cfg, tn as int, td as int);
                lemma_tf_bound(ch.q2, side as int / 2, *b, *cfg, tn as int, td as int);
                lemma_tf_bound(ch.q3, side as int / 2, *b, *cfg, tn as int, td as int);
                lemma_force_cap_steps(
                    mass_sum(members(ch.q0)),
                    mass_sum(members(ch.q1)),
                    mass_sum(members(ch.q2)),
                    mass_sum(members(ch.q3)),
                    b.mass as int,
                    cfg.g as int,
                );
            }
            let f0 = force_from(&ch.q0, side / 2, b, cfg, tn, td);
            let f1 = force_from(&ch.q1, side / 2, b, cfg, tn, td);
            let f2 = force_from(&ch.q2, side / 2, b, cfg, tn, td);
            let f3 = force_from(&ch.q3, side / 2, b, cfg, tn, td);
            (f0.0 + f1.0 + f2.0 + f3.0, f0.1 + f1.1 + f2.1 + f3.1)
        },
    }
}

/// Arithmetic glue: partial sums of four bounded contributions stay below
/// the overall cap.
proof fn lemma_force_cap_steps(m0: int, m1: int, m2: int, m3: int, mb: int, g: int)
    requires
        0 <= m0,
        0 <= m1,
        0 <= m2,
        0 <= m3,
        m0 + m1 + m2 + m3 <= TOTAL_MASS_CAP,
        1 <= mb <= MASS_MAX,
        1 <= g <= G_CAP,
    ensures
        g * mb * m0 + g * mb * m1 + g * mb * m2 + g * mb * m3 <= G_CAP * MASS_MAX
            * TOTAL_MASS_CAP,
        0 <= g * mb * m0,
        0 <= g * mb * m1,
        0 <= g * mb * m2,
        0 <= g * mb * m3,
{
    assert(g * mb * m0 + g * mb * m1 + g * mb * m2 + g * mb * m3 == g * mb * (m0 + m1 + m2
        + m3)) by (nonlinear_arith);
    assert(g * mb * (m0 + m1 + m2 + m3) <= G_CAP * MASS_MAX * TOTAL_MASS_CAP) by (nonlinear_arith)
        requires
            0 <= m0 + m1 + m2 + m3 <= TOTAL_MASS_CAP && 1 <= mb <= MASS_MAX && 1 <= g <= G_CAP,
    ;
    assert(0 <= g * mb * m0 && 0 <= g * mb * m1 && 0 <= g * mb * m2 && 0 <= g * mb * m3)
        by (nonlinear_arith)
        requires 0 <= m0 && 0 <= m1 && 0 <= m2 && 0 <= m3 && 1 <= mb && 1 <= g,
    ;
}

impl QuadTree {
    /// One gravitation pass: every body's net force is accumulated from the
    /// current tree, then the body is advanced by one integration step.
    /// Each body's new state depends only on the tree and that body's old
    /// state, so the per-body work is independent.
    pub fn gravitation(&mut self, bodies: &mut Vec<Body>, cfg: &SimConfig)
        requires
            wf_tree(*old(self)),
            valid_bodies(old(bodies)@),
            valid_config(*cfg),
        ensures
            *final(self) == *old(self),
            final(bodies)@.len() == old(bodies)@.len(),
            forall|i: int|
                0 <= i < old(bodies)@.len() ==> final(bodies)@[i] == integrate(
                    old(bodies)@[i],
                    tf_x(
                        old(self).root,
                        old(self).side as int,
                        particle_at(old(bodies)@, i),
                        *cfg,
                        old(self).theta_num as int,
                        old(self).theta_den as int,
                    ),
                    tf_y(
                        old(self).root,
                        old(self).side as int,
                        particle_at(old(bodies)@, i),
                        *cfg,
                        old(self).theta_num as int,
                        old(self).theta_den as int,
                    ),
                    *cfg,
                ),
    {
        let ghost bs0 = bodies@;
        let n = bodies.len();
        let mut i: usize = 0;
        while i < n
            invariant
                0 <= i <= n,
                n == bs0.len(),
                bodies@.len() == bs0.len(),
                valid_bodies(bs0),
                valid_config(*cfg),
                wf_tree(*self),
                *self == *old(self),
                forall|j: int| i <= j < n ==> bodies@[j] == #[trigger] bs0[j],
                forall|j: int|
                    0 <= j < i ==> bodies@[j] == integrate(
                        bs0[j],
                        tf_x(
                            old(self).root,
                            old(self).side as int,
                            particle_at(bs0, j),
                            *cfg,
                            old(self).theta_num as int,
                            old(self).theta_den as int,
                        ),
                        tf_y(
                            old(self).root,
                            old(self).side as int,
                            particle_at(bs0, j),
                            *cfg,
                            old(self).theta_num as int,
                            old(self).theta_den as int,
                        ),
                        *cfg,
                    ),
            decreases n - i,
        {
            let b = bodies[i];
            let p = Particle { id: i, mass: b.mass, pos: b.position };
            proof {
                assert(bodies@[i as int] == bs0[i as int]);
                assert(valid_body(b));
                assert(p == particle_at(bs0, i as int));
                lemma_tf_bound(
                    self.root,
                    self.side as int,
                    p,
                    *cfg,
                    self.theta_num as int,
                    self.theta_den as int,
                );
                lemma_sums_bounds(members(self.root));
                assert(cfg.g * b.mass * mass_sum(members(self.root)) <= cfg.g * b.mass
                    * TOTAL_MASS_CAP) by (nonlinear_arith)
                    requires
                        cfg.g >= 1 && b.mass >= 1 && mass_sum(members(self.root))
                            <= TOTAL_MASS_CAP,
                ;
            }
            let f = force_from(&self.root, self.side, &p, cfg, self.theta_num, self.theta_den);
            let mut nb = b;
            nb.update(f.0, f.1, cfg);
            bodies.set(i, nb);
            i += 1;
        }
    }
}

} // verus!
