//! The data-parallel all-pairs baseline: each body's force and collision
//! response are computed from an immutable snapshot of the whole store and
//! written only to that body's own slot, so the per-body kernels can be
//! dispatched to independent workers.  The passes here run the same kernels
//! sequentially and carry the contract any dispatch must meet.

use vstd::prelude::*;
use crate::body::{Body, Particle, SimConfig, valid_bodies, valid_body, valid_particle,
    valid_config, particles, particle_at, integrate, MASS_MAX, POS_LIMIT, TOTAL_MASS_CAP, G_CAP,
    COUNT_MAX};
use crate::num::iabs;
use crate::force::{fsum_x, fsum_y, point_force, lemma_fsum_bound};
use crate::collision::{resolve_pair, resolve_pair_spec, lemma_valid_col_ok, col_ok, COL_POS_CAP,
    CR_CAP};
use crate::quadtree::{mass_sum, all_valid, lemma_sums_concat, lemma_sums_bounds};

verus! {

/// The parallel-ready exact pairwise simulator.
pub struct NaiveMultiTh {}

/// One body's collision response against a fixed snapshot: the body is
/// pushed away from every overlapping partner in index order; only the
/// body itself moves.
pub open spec fn mt_one(s: Seq<Body>, n: int, i: int, cur: Body, j: int) -> Body
    decreases n - j,
{
    if j < 0 || j >= n {
        cur
    } else {
        let next = if j == i {
            cur
        } else {
            resolve_pair_spec(cur, s[j]).0
        };
        mt_one(s, n, i, next, j + 1)
    }
}

impl NaiveMultiTh {
    /// The per-body force kernel: the net exact force on body `i`, read
    /// entirely from the snapshot.  Safe to evaluate for different bodies
    /// on independent workers.
    pub fn force_on(bodies: &Vec<Body>, i: usize, cfg: &SimConfig) -> (f: (i128, i128))
        requires
            valid_bodies(bodies@),
            i < bodies@.len(),
            valid_config(*cfg),
        ensures
            f.0 == fsum_x(particles(bodies@), particle_at(bodies@, i as int), *cfg),
            f.1 == fsum_y(particles(bodies@), particle_at(bodies@, i as int), *cfg),
            crate::body::force_in_cap(bodies@[i as int], f.0 as int, f.1 as int, *cfg),
    {
        let ghost s0 = bodies@;
        let ghost ps = particles(s0);
        proof {
            assert(all_valid(ps)) by {
                assert(forall|z: int| 0 <= z < ps.len() ==> valid_body(#[trigger] s0[z]));
            }
            lemma_sums_bounds(ps);
            vstd::arithmetic::mul::lemma_mul_inequality(
                ps.len() as int,
                COUNT_MAX as int,
                MASS_MAX as int,
            );
        }
        let bi = bodies[i];
        let pio = Particle { id: i, mass: bi.mass, pos: bi.position };
        let ghost pi = particle_at(s0, i as int);
        let n = bodies.len();
        let mut fx: i128 = 0;
        let mut fy: i128 = 0;
        let mut j: usize = 0;
        while j < n
            invariant
                0 <= j <= n,
                n == s0.len(),
                bodies@ == s0,
                ps == particles(s0),
                ps.len() == n,
                all_valid(ps),
                mass_sum(ps) <= TOTAL_MASS_CAP,
                valid_bodies(s0),
                valid_config(*cfg),
                0 <= (i as int) && (i as int) < n,
                pio == pi,
                pi == particle_at(s0, i as int),
                fx == fsum_x(ps.take(j as int), pi, *cfg),
                fy == fsum_y(ps.take(j as int), pi, *cfg),
                iabs(fx as int) <= cfg.g * pi.mass * mass_sum(ps.take(j as int)),
                iabs(fy as int) <= cfg.g * pi.mass * mass_sum(ps.take(j as int)),
            decreases n - j,
        {
            let bj = bodies[j];
            let pj = Particle { id: j, mass: bj.mass, pos: bj.position };
            proof {
                assert(pj == ps[j as int]);
                assert(valid_body(s0[j as int]));
                assert(ps.take(j as int + 1).drop_last() =~= ps.take(j as int));
                assert(ps.take(j as int + 1).last() == pj);
                assert(ps =~= ps.take(j as int + 1) + ps.skip(j as int + 1));
                lemma_sums_concat(ps.take(j as int + 1), ps.skip(j as int + 1));
                assert(all_valid(ps.take(j as int + 1))) by {
                    assert(forall|z: int|
                        0 <= z < j + 1 ==> ps.take(j as int + 1)[z] == #[trigger] ps[z]);
                }
                assert(all_valid(ps.skip(j as int + 1))) by {
                    assert(forall|z: int|
                        0 <= z < ps.len() - (j + 1) ==> ps.skip(j as int + 1)[z]
                            == #[trigger] ps[z + j + 1]);
                }
                lemma_sums_bounds(ps.take(j as int + 1));
                lemma_sums_bounds(ps.take(j as int));
                lemma_sums_bounds(ps.skip(j as int + 1));
                lemma_fsum_bound(ps.take(j as int + 1), pi, *cfg);
                assert(cfg.g * pi.mass * mass_sum(ps.take(j as int)) <= G_CAP * MASS_MAX
                    * TOTAL_MASS_CAP) by (nonlinear_arith)
                    requires
                        1 <= cfg.g <= G_CAP && 1 <= pi.mass <= MASS_MAX && 0 <= mass_sum(
                            ps.take(j as int),
                        ) <= TOTAL_MASS_CAP,
                ;
                assert(cfg.g * pi.mass * pj.mass <= G_CAP * MASS_MAX * MASS_MAX)
                    by (nonlinear_arith)
                    requires
                        1 <= cfg.g <= G_CAP && 1 <= pi.mass <= MASS_MAX && 1 <= pj.mass
                            <= MASS_MAX,
                ;
            }
            if j != i {
                let v = point_force(pj.pos.x as i128, pj.pos.y as i128, pj.mass, &pio, cfg);
                fx = fx + v.0;
                fy = fy + v.1;
            }
            j += 1;
        }
        proof {
            assert(ps.take(n as int) =~= ps);
            lemma_fsum_bound(ps, pi, *cfg);
            assert(cfg.g * pi.mass * mass_sum(ps) <= cfg.g * pi.mass * TOTAL_MASS_CAP)
                by (nonlinear_arith)
                requires cfg.g >= 1 && pi.mass >= 1 && mass_sum(ps) <= TOTAL_MASS_CAP,
            ;
        }
        (fx, fy)
    }

    /// Exact gravitation from a snapshot: the same contract as the
    /// sequential exact pass, met by independent per-body work.
    pub fn gravitation(&mut self, bodies: &mut Vec<Body>, cfg: &SimConfig)
        requires
            valid_bodies(old(bodies)@),
            valid_config(*cfg),
        ensures
            final(bodies)@.len() == old(bodies)@.len(),
            forall|i: int|
                0 <= i < old(bodies)@.len() ==> final(bodies)@[i] == integrate(
                    old(bodies)@[i],
                    fsum_x(particles(old(bodies)@), particle_at(old(bodies)@, i), *cfg),
                    fsum_y(particles(old(bodies)@), particle_at(old(bodies)@, i), *cfg),
                    *cfg,
                ),
    {
        let ghost s0 = bodies@;
        let snapshot = copy_bodies(bodies);
        let n = bodies.len();
        let mut i: usize = 0;
        while i < n
            invariant
                0 <= i <= n,
                n == s0.len(),
                bodies@.len() == n,
                snapshot@ == s0,
                valid_bodies(s0),
                valid_config(*cfg),
                forall|k: int|
                    0 <= k < i ==> #[trigger] bodies@[k] == integrate(
                        s0[k],
                        fsum_x(particles(s0), particle_at(s0, k), *cfg),
                        fsum_y(particles(s0), particle_at(s0, k), *cfg),
                        *cfg,
                    ),
            decreases n - i,
        {
            let f = Self::force_on(&snapshot, i, cfg);
            let mut nb = snapshot[i];
            nb.update(f.0, f.1, cfg);
            bodies.set(i, nb);
            i += 1;
        }
    }

    /// The per-body collision kernel: body `i`'s response against the
    /// snapshot, only the body itself displaced.
    pub fn collide_body(bodies: &Vec<Body>, i: usize) -> (b: Body)
        requires
            valid_bodies(bodies@),
            i < bodies@.len(),
        ensures
            b == mt_one(bodies@, bodies@.len() as int, i as int, bodies@[i as int], 0),
    {
        let ghost s0 = bodies@;
        let n = bodies.len();
        proof {
            assert forall|k: int| 0 <= k < s0.len() implies col_ok(#[trigger] s0[k]) by {
                lemma_valid_col_ok(s0[k]);
            }
        }
        let mut cur = bodies[i];
        let mut j: usize = 0;
        while j < n
            invariant
                0 <= j <= n,
                n == s0.len(),
                bodies@ == s0,
                0 <= (i as int) && (i as int) < n,
                n <= COUNT_MAX,
                forall|k: int| 0 <= k < s0.len() ==> col_ok(#[trigger] s0[k]),
                cur.mass == s0[i as int].mass,
                cur.radius == s0[i as int].radius,
                1 <= cur.mass <= MASS_MAX,
                0 <= cur.radius <= 1_000,
                iabs(cur.position.x as int) <= POS_LIMIT + CR_CAP * (j as int),
                iabs(cur.position.y as int) <= POS_LIMIT + CR_CAP * (j as int),
                mt_one(s0, n as int, i as int, cur, j as int) == mt_one(
                    s0,
                    n as int,
                    i as int,
                    s0[i as int],
                    0,
                ),
            decreases n - j,
        {
            proof {
                assert(CR_CAP * (j as int) <= CR_CAP * (COUNT_MAX as int)) by (nonlinear_arith)
                    requires 0 <= (j as int) && (j as int) <= COUNT_MAX as int,
                ;
            }
            if j != i {
                let bj = bodies[j];
                let r = resolve_pair(&cur, &bj);
                cur = r.0;
            }
            j += 1;
        }
        cur
    }

    /// Snapshot-based collisions: each body is displaced against the entry
    /// snapshot only, so the per-body work is independent; partners are not
    /// moved in return (they see the collision from their own pass).
    pub fn collisions(&mut self, bodies: &mut Vec<Body>)
        requires
            valid_bodies(old(bodies)@),
        ensures
            final(bodies)@.len() == old(bodies)@.len(),
            forall|i: int|
                0 <= i < old(bodies)@.len() ==> final(bodies)@[i] == mt_one(
                    old(bodies)@,
                    old(bodies)@.len() as int,
                    i,
                    old(bodies)@[i],
                    0,
                ),
    {
        let ghost s0 = bodies@;
        let snapshot = copy_bodies(bodies);
        let n = bodies.len();
        let mut i: usize = 0;
        while i < n
            invariant
                0 <= i <= n,
                n == s0.len(),
                bodies@.len() == n,
                snapshot@ == s0,
                valid_bodies(s0),
                forall|k: int|
                    0 <= k < i ==> #[trigger] bodies@[k] == mt_one(s0, n as int, k, s0[k], 0),
            decreases n - i,
        {
            let nb = Self::collide_body(&snapshot, i);
            bodies.set(i, nb);
            i += 1;
        }
    }
}

/// An element-wise copy of the body store: the immutable snapshot a
/// parallel pass reads while the live store is written per slot.
pub fn copy_bodies(bodies: &Vec<Body>) -> (snap: Vec<Body>)
    ensures
        snap@ == bodies@,
{
    let mut snap: Vec<Body> = Vec::new();
    let mut k: usize = 0;
    while k < bodies.len()
        invariant
            0 <= k <= bodies@.len(),
            snap@ == bodies@.take(k as int),
        decreases bodies@.len() - k,
    {
        snap.push(bodies[k]);
        proof {
            assert(bodies@.take(k as int + 1) =~= bodies@.take(k as int).push(bodies@[k as int]));
        }
        k += 1;
    }
    proof {
        assert(bodies@.take(bodies@.len() as int) =~= bodies@);
    }
    snap
}

} // verus!
