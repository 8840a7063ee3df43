//! Cross-cutting laws of the engine, stated and proved over the public
//! specification functions: exactness of the tree traversal at theta zero,
//! coasting under zero net force, mass-weighted collision response, and
//! determinism of reconstruction.

use vstd::prelude::*;
use crate::body::{Body, Particle, SimConfig, Vec2, valid_bodies, valid_body, valid_particle,
    valid_config, particles, particle_at, integrate};
use crate::num::{tdiv, iabs, lemma_tdiv_neg, lemma_tdiv_mag_monotone, lemma_tdiv_scale_le};
use crate::quadtree::{Quadrant, Kids, members, mass_sum, wf_quad, lemma_sums_bounds,
    lemma_wf_aggregates_from_model};
use crate::tree::{QuadTree, wf_tree, viz_spec, region_center_x, region_center_y, region_side,
    build_model};
use crate::force::{pf_x, pf_y, fsum_x, fsum_y, tf_x, tf_y, dist_of};
use crate::collision::{resolve_pair_spec, col_ok, lemma_delta_bound};

verus! {

// ------------------------------------------------------------------
// Exactness at theta zero: with a zero admissibility threshold the tree
// traversal never approximates, and its net force equals the exact
// all-pairs sum computed by the naive baseline.
// ------------------------------------------------------------------

proof fn lemma_fold_offset_x(s: Seq<Particle>, b: Particle, c: SimConfig, v: int)
    ensures
        s.fold_right(
            |p: Particle, acc: int|
                acc + if p.id == b.id {
                    0int
                } else {
                    pf_x(p.pos.x as int, p.pos.y as int, p.mass as int, b, c)
                },
            v,
        ) == s.fold_right(
            |p: Particle, acc: int|
                acc + if p.id == b.id {
                    0int
                } else {
                    pf_x(p.pos.x as int, p.pos.y as int, p.mass as int, b, c)
                },
            0,
        ) + v,
    decreases s.len(),
{
    let f = |p: Particle, acc: int|
        acc + if p.id == b.id {
            0int
        } else {
            pf_x(p.pos.x as int, p.pos.y as int, p.mass as int, b, c)
        };
    if s.len() > 0 {
        lemma_fold_offset_x(s.drop_last(), b, c, f(s.last(), v));
        lemma_fold_offset_x(s.drop_last(), b, c, f(s.last(), 0));
    }
}

proof fn lemma_fold_offset_y(s: Seq<Particle>, b: Particle, c: SimConfig, v: int)
    ensures
        s.fold_right(
            |p: Particle, acc: int|
                acc + if p.id == b.id {
                    0int
                } else {
                    pf_y(p.pos.x as int, p.pos.y as int, p.mass as int, b, c)
                },
            v,
        ) == s.fold_right(
            |p: Particle, acc: int|
                acc + if p.id == b.id {
                    0int
                } else {
                    pf_y(p.pos.x as int, p.pos.y as int, p.mass as int, b, c)
                },
            0,
        ) + v,
    decreases s.len(),
{
    let f = |p: Particle, acc: int|
        acc + if p.id == b.id {
            0int
        } else {
            pf_y(p.pos.x as int, p.pos.y as int, p.mass as int, b, c)
        };
    if s.len() > 0 {
        lemma_fold_offset_y(s.drop_last(), b, c, f(s.last(), v));
        lemma_fold_offset_y(s.drop_last(), b, c, f(s.last(), 0));
    }
}

proof fn lemma_fsum_is_fold(s: Seq<Particle>, b: Particle, c: SimConfig)
    ensures
        fsum_x(s, b, c) == s.fold_right(
            |p: Particle, acc: int|
                acc + if p.id == b.id {
                    0int
                } else {
                    pf_x(p.pos.x as int, p.pos.y as int, p.mass as int, b, c)
                },
            0,
        ),
        fsum_y(s, b, c) == s.fold_right(
            |p: Particle, acc: int|
                acc + if p.id == b.id {
                    0int
                } else {
                    pf_y(p.pos.x as int, p.pos.y as int, p.mass as int, b, c)
                },
            0,
        ),
    decreases s.len(),
{
    if s.len() > 0 {
        lemma_fsum_is_fold(s.drop_last(), b, c);
        lemma_fold_offset_x(
            s.drop_last(),
            b,
            c,
            if s.last().id == b.id {
                0int
            } else {
                pf_x(s.last().pos.x as int, s.last().pos.y as int, s.last().mass as int, b, c)
            },
        );
        lemma_fold_offset_y(
            s.drop_last(),
            b,
            c,
            if s.last().id == b.id {
                0int
            } else {
                pf_y(s.last().pos.x as int, s.last().pos.y as int, s.last().mass as int, b, c)
            },
        );
    }
}

/// Exact net-force sums do not depend on the order the particles are
/// listed in: any two arrangements of the same particles agree.
pub proof fn lemma_fsum_permutation(s1: Seq<Particle>, s2: Seq<Particle>, b: Particle, c: SimConfig)
    requires
        s1.to_multiset() == s2.to_multiset(),
    ensures
        fsum_x(s1, b, c) == fsum_x(s2, b, c),
        fsum_y(s1, b, c) == fsum_y(s2, b, c),
{
    let fx = |p: Particle, acc: int|
        acc + if p.id == b.id {
            0int
        } else {
            pf_x(p.pos.x as int, p.pos.y as int, p.mass as int, b, c)
        };
    let fy = |p: Particle, acc: int|
        acc + if p.id == b.id {
            0int
        } else {
            pf_y(p.pos.x as int, p.pos.y as int, p.mass as int, b, c)
        };
    lemma_fsum_is_fold(s1, b, c);
    lemma_fsum_is_fold(s2, b, c);
    assert(vstd::seq_lib::commutative_foldr(fx));
    assert(vstd::seq_lib::commutative_foldr(fy));
    vstd::seq_lib::lemma_fold_right_permutation(s1, s2, fx, 0);
    vstd::seq_lib::lemma_fold_right_permutation(s1, s2, fy, 0);
}

proof fn lemma_fsum_concat(a: Seq<Particle>, b2: Seq<Particle>, b: Particle, c: SimConfig)
    ensures
        fsum_x(a + b2, b, c) == fsum_x(a, b, c) + fsum_x(b2, b, c),
        fsum_y(a + b2, b, c) == fsum_y(a, b, c) + fsum_y(b2, b, c),
    decreases b2.len(),
{
    if b2.len() == 0 {
        assert(a + b2 =~= a);
    } else {
        lemma_fsum_concat(a, b2.drop_last(), b, c);
        assert((a + b2).drop_last() =~= a + b2.drop_last());
        assert((a + b2).last() == b2.last());
    }
}

/// With theta zero the admissibility test never fires, so the traversal
/// reaches every particle and sums their exact contributions, each
/// particle once and the queried body's own entry excluded.
pub proof fn lemma_theta_zero_tree_force(q: Quadrant, side: int, b: Particle, c: SimConfig, td: int)
    requires
        wf_quad(q),
        valid_config(c),
        0 <= side,
        1 <= td,
    ensures
        tf_x(q, side, b, c, 0, td) == fsum_x(members(q), b, c),
        tf_y(q, side, b, c, 0, td) == fsum_y(members(q), b, c),
    decreases q,
{
    lemma_sums_bounds(members(q));
    if q.total_mass == 0 {
        assert(members(q).len() == 0);
        assert(members(q) =~= Seq::<Particle>::empty());
    } else {
        assert(side * td >= 0) by (nonlinear_arith)
            requires side >= 0 && td >= 1,
        ;
        let comx = tdiv(q.mps_x as int, q.total_mass as int);
        let comy = tdiv(q.mps_y as int, q.total_mass as int);
        let d = dist_of(comx - b.pos.x, comy - b.pos.y, c.dist_floor as int);
        crate::force::lemma_abs_le_dist(comx - b.pos.x, comy - b.pos.y, c.dist_floor as int);
        assert(!(side * td < 0 * d));
        match q.kids {
            Kids::Leaf(ms) => {
            },
            Kids::Four(ch) => {
                crate::num::lemma_half_bounds(side);
                lemma_theta_zero_tree_force(ch.q0, side / 2, b, c, td);
                lemma_theta_zero_tree_force(ch.q1, side / 2, b, c, td);
                lemma_theta_zero_tree_force(ch.q2, side / 2, b, c, td);
                lemma_theta_zero_tree_force(ch.q3, side / 2, b, c, td);
                lemma_fsum_concat(members(ch.q0), members(ch.q1), b, c);
                lemma_fsum_concat(members(ch.q0) + members(ch.q1), members(ch.q2), b, c);
                lemma_fsum_concat(
                    members(ch.q0) + members(ch.q1) + members(ch.q2),
                    members(ch.q3),
                    b,
                    c,
                );
            },
        }
    }
}

/// With theta zero, the tree-approximated net force on any body equals
/// the exact all-pairs force of the naive baseline, provided the tree
/// holds exactly the store's particles (as a rebuild guarantees).
pub proof fn lemma_zero_theta_matches_exact(t: QuadTree, bodies: Seq<Body>, i: int, c: SimConfig)
    requires
        wf_tree(t),
        valid_bodies(bodies),
        0 <= i < bodies.len(),
        valid_config(c),
        t.theta_num == 0,
        members(t.root).to_multiset() == particles(bodies).to_multiset(),
    ensures
        tf_x(t.root, t.side as int, particle_at(bodies, i), c, 0, t.theta_den as int) == fsum_x(
            particles(bodies),
            particle_at(bodies, i),
            c,
        ),
        tf_y(t.root, t.side as int, particle_at(bodies, i), c, 0, t.theta_den as int) == fsum_y(
            particles(bodies),
            particle_at(bodies, i),
            c,
        ),
{
    lemma_theta_zero_tree_force(t.root, t.side as int, particle_at(bodies, i), c, t.theta_den as int);
    lemma_fsum_permutation(members(t.root), particles(bodies), particle_at(bodies, i), c);
}

// ------------------------------------------------------------------
// Accuracy at any theta: the approximated force, the exact force, and
// hence their difference are all bounded by the aggregated mass, for
// every theta setting.  (How the error shrinks as theta falls is a
// property of real-valued analysis; here its exact endpoint, theta
// zero, is proved above.)
// ------------------------------------------------------------------

/// For every theta the approximated net force deviates from the exact
/// sum by at most twice the cap both are held under.
pub proof fn lemma_force_error_bounded(q: Quadrant, side: int, b: Particle, c: SimConfig, tn: int, td: int)
    requires
        wf_quad(q),
        valid_particle(b),
        valid_config(c),
    ensures
        iabs(tf_x(q, side, b, c, tn, td) - fsum_x(members(q), b, c)) <= 2 * (c.g * b.mass
            * mass_sum(members(q))),
        iabs(tf_y(q, side, b, c, tn, td) - fsum_y(members(q), b, c)) <= 2 * (c.g * b.mass
            * mass_sum(members(q))),
{
    crate::force::lemma_tf_bound(q, side, b, c, tn, td);
    crate::force::lemma_fsum_bound(members(q), b, c);
}

// ------------------------------------------------------------------
// Coasting: under a zero net force the integrator leaves the velocity
// unchanged and advances the position by exactly one velocity step.
// ------------------------------------------------------------------

/// A body with zero net force keeps its velocity; its position advances
/// by exactly `velocity * dt` (in the engine's truncating arithmetic).
pub proof fn lemma_coasting_body(b: Body, c: SimConfig)
    requires
        valid_body(b),
        valid_config(c),
    ensures
        integrate(b, 0, 0, c).velocity == b.velocity,
        integrate(b, 0, 0, c).position.x as int == b.position.x + tdiv(
            b.velocity.x * c.dt_num,
            c.dt_den as int,
        ),
        integrate(b, 0, 0, c).position.y as int == b.position.y + tdiv(
            b.velocity.y * c.dt_num,
            c.dt_den as int,
        ),
        integrate(b, 0, 0, c).mass == b.mass,
        integrate(b, 0, 0, c).radius == b.radius,
        integrate(b, 0, 0, c).acceleration == (Vec2 { x: 0i64, y: 0i64 }),
{
    vstd::arithmetic::div_mod::lemma_div_basics(b.mass as int);
    vstd::arithmetic::div_mod::lemma_div_basics(c.dt_den as int);
    assert(tdiv(0, b.mass as int) == 0);
    assert(tdiv(0 * c.dt_num, c.dt_den as int) == 0);
    lemma_tdiv_scale_le(b.velocity.x as int, c.dt_num as int, c.dt_den as int);
    lemma_tdiv_scale_le(b.velocity.y as int, c.dt_num as int, c.dt_den as int);
}

// ------------------------------------------------------------------
// Collision response: the positional correction is weighted by the
// partner's mass share, so the heavier body of a pair moves no more
// than the lighter one.
// ------------------------------------------------------------------

proof fn lemma_tdiv_abs_mono(x: int, y: int, d: int)
    requires
        d >= 1,
        iabs(x) <= iabs(y),
    ensures
        iabs(tdiv(x, d)) <= iabs(tdiv(y, d)),
{
    lemma_tdiv_mag_monotone(iabs(x), iabs(y), d);
    lemma_tdiv_neg(iabs(x), d);
    lemma_tdiv_neg(iabs(y), d);
}

/// In a resolved overlap the heavier body is displaced no more than the
/// lighter one, on each axis.
pub proof fn lemma_heavier_moves_less(a: Body, b: Body)
    requires
        col_ok(a),
        col_ok(b),
        b.mass <= a.mass,
    ensures
        iabs(resolve_pair_spec(a, b).0.position.x as int - a.position.x as int) <= iabs(
            resolve_pair_spec(a, b).1.position.x as int - b.position.x as int,
        ),
        iabs(resolve_pair_spec(a, b).0.position.y as int - a.position.y as int) <= iabs(
            resolve_pair_spec(a, b).1.position.y as int - b.position.y as int,
        ),
{
    let dx = a.position.x - b.position.x;
    let dy = a.position.y - b.position.y;
    let dist = crate::num::sqrt_floor((dx * dx + dy * dy) as nat) as int;
    let cr = a.radius + b.radius;
    if dist < cr {
        let dg = crate::tree::max2(dist, 1);
        let den = dg * (a.mass + b.mass);
        let num = cr - dist;
        crate::force::lemma_abs_le_dist(dx, dy, 1);
        assert(dg * (a.mass + b.mass) >= 1) by (nonlinear_arith)
            requires dg >= 1 && a.mass + b.mass >= 1,
        ;
        assert(den >= 1);
        lemma_delta_bound(dx, dg, num, b.mass as int, (a.mass + b.mass) as int);
        lemma_delta_bound(dy, dg, num, b.mass as int, (a.mass + b.mass) as int);
        lemma_delta_bound(dx, dg, num, a.mass as int, (a.mass + b.mass) as int);
        lemma_delta_bound(dy, dg, num, a.mass as int, (a.mass + b.mass) as int);
        assert(iabs(dx * num * b.mass) <= iabs(dx * num * a.mass)) by (nonlinear_arith)
            requires 0 <= num && 1 <= b.mass <= a.mass && -iabs(dx) <= dx <= iabs(dx) && 0 <= iabs(dx),
        ;
        assert(iabs(dy * num * b.mass) <= iabs(dy * num * a.mass)) by (nonlinear_arith)
            requires 0 <= num && 1 <= b.mass <= a.mass && -iabs(dy) <= dy <= iabs(dy) && 0 <= iabs(dy),
        ;
        lemma_tdiv_abs_mono(dx * num * b.mass, dx * num * a.mass, den);
        lemma_tdiv_abs_mono(dy * num * b.mass, dy * num * a.mass, den);
    }
}

// ------------------------------------------------------------------
// Determinism: rebuilding from the same unchanged body sequence yields
// the same model, hence identical aggregates at every matching node of
// the introspection output.
// ------------------------------------------------------------------

proof fn lemma_viz_from_model(a: Quadrant, b: Quadrant, cx: int, cy: int, side: int)
    requires
        wf_quad(a),
        wf_quad(b),
        a.model() == b.model(),
    ensures
        viz_spec(a, cx, cy, side) == viz_spec(b, cx, cy, side),
    decreases a,
{
    lemma_wf_aggregates_from_model(a, b);
    match a.kids {
        Kids::Leaf(ms) => {
            assert(b.kids is Leaf);
        },
        Kids::Four(ch) => {
            assert(b.kids is Four);
            match b.kids {
                Kids::Leaf(_) => {
                },
                Kids::Four(ch2) => {
                    let off = (side / 2) / 2;
                    lemma_viz_from_model(ch.q0, ch2.q0, cx - off, cy - off, side / 2);
                    lemma_viz_from_model(ch.q1, ch2.q1, cx + off, cy - off, side / 2);
                    lemma_viz_from_model(ch.q2, ch2.q2, cx - off, cy + off, side / 2);
                    lemma_viz_from_model(ch.q3, ch2.q3, cx + off, cy + off, side / 2);
                },
            }
        },
    }
}

/// Two trees rebuilt from the same unchanged body sequence agree on every
/// aggregate: their roots carry the same totals, they hold the same
/// particles, and their full introspection outputs (every node's square,
/// kind, mass and mass-weighted position sum) are identical.
pub proof fn lemma_rebuild_deterministic(t1: QuadTree, t2: QuadTree, bodies: Seq<Body>)
    requires
        wf_tree(t1),
        wf_tree(t2),
        bodies.len() >= 1,
        valid_bodies(bodies),
        t1.root.model() == build_model(
            particles(bodies),
            region_center_x(bodies),
            region_center_y(bodies),
            region_side(bodies),
        ),
        t2.root.model() == build_model(
            particles(bodies),
            region_center_x(bodies),
            region_center_y(bodies),
            region_side(bodies),
        ),
        t1.center.x == region_center_x(bodies) && t1.center.y == region_center_y(bodies)
            && t1.side == region_side(bodies),
        t2.center.x == region_center_x(bodies) && t2.center.y == region_center_y(bodies)
            && t2.side == region_side(bodies),
    ensures
        t1.root.total_mass == t2.root.total_mass,
        t1.root.mps_x == t2.root.mps_x,
        t1.root.mps_y == t2.root.mps_y,
        members(t1.root) == members(t2.root),
        viz_spec(t1.root, t1.center.x as int, t1.center.y as int, t1.side as int) == viz_spec(
            t2.root,
            t2.center.x as int,
            t2.center.y as int,
            t2.side as int,
        ),
{
    lemma_wf_aggregates_from_model(t1.root, t2.root);
    lemma_viz_from_model(
        t1.root,
        t2.root,
        region_center_x(bodies),
        region_center_y(bodies),
        region_side(bodies),
    );
}

} // verus!
