//! The exact all-pairs baseline: a correctness oracle for the tree-based
//! approximator.  Each unordered pair's force is computed once and applied
//! antisymmetrically; every pair is examined for overlap.

use vstd::prelude::*;
use crate::body::{Body, Particle, SimConfig, valid_bodies, valid_body, valid_particle,
    valid_config, particles, particle_at, integrate, MASS_MAX, POS_LIMIT, TOTAL_MASS_CAP, G_CAP,
    COUNT_MAX};
use crate::num::{tdiv, iabs};
use crate::force::{pf_x, pf_y, fsum_x, fsum_y, point_force, lemma_fsum_bound};
use crate::collision::{resolve_pair, resolve_pair_spec, col_state, lemma_valid_col_ok,
    COL_POS_CAP, CR_CAP};
use crate::quadtree::{mass_sum, all_valid, lemma_sums_concat, lemma_sums_bounds};

verus! {

/// The exact pairwise simulator.
pub struct Naive {}

/// The pair force is antisymmetric: what the particle at `a` exerts on `b`
/// is the exact negation of what the particle at `b` exerts on `a`.
pub proof fn lemma_pf_antisym(a: Particle, b: Particle, c: SimConfig)
    requires
        valid_config(c),
    ensures
        pf_x(a.pos.x as int, a.pos.y as int, a.mass as int, b, c) == -pf_x(
            b.pos.x as int,
            b.pos.y as int,
            b.mass as int,
            a,
            c,
        ),
        pf_y(a.pos.x as int, a.pos.y as int, a.mass as int, b, c) == -pf_y(
            b.pos.x as int,
            b.pos.y as int,
            b.mass as int,
            a,
            c,
        ),
{
    assert((b.pos.x as int - a.pos.x) * (b.pos.x as int - a.pos.x) + (b.pos.y as int - a.pos.y) * (
    b.pos.y as int - a.pos.y) == (a.pos.x as int - b.pos.x) * (a.pos.x as int - b.pos.x) + (
    a.pos.y as int - b.pos.y) * (a.pos.y as int - b.pos.y)) by (nonlinear_arith);
    let d = crate::force::dist_of(
        a.pos.x - b.pos.x,
        a.pos.y - b.pos.y,
        c.dist_floor as int,
    );
    assert(crate::force::dist_of(
        b.pos.x - a.pos.x,
        b.pos.y - a.pos.y,
        c.dist_floor as int,
    ) == d);
    assert((b.pos.x as int - a.pos.x) * (c.g * a.mass * b.mass) == -((a.pos.x as int - b.pos.x) * (
    c.g * b.mass * a.mass))) by (nonlinear_arith);
    assert((b.pos.y as int - a.pos.y) * (c.g * a.mass * b.mass) == -((a.pos.y as int - b.pos.y) * (
    c.g * b.mass * a.mass))) by (nonlinear_arith);
    crate::force::lemma_abs_le_dist(a.pos.x - b.pos.x, a.pos.y - b.pos.y, c.dist_floor as int);
    assert(d * d * d >= 1) by (nonlinear_arith)
        requires d >= 1,
    ;
    crate::num::lemma_tdiv_neg((a.pos.x - b.pos.x) * (c.g * b.mass * a.mass), d * d * d);
    crate::num::lemma_tdiv_neg((a.pos.y - b.pos.y) * (c.g * b.mass * a.mass), d * d * d);
}

/// All-pairs collision fold: pairs `(i, j)` with `i < j`, resolved in
/// lexicographic order, both sides updated in place.
pub open spec fn nv_inner(s: Seq<Body>, n: int, i: int, j: int) -> Seq<Body>
    decreases n - j,
{
    if j < 0 || j >= n {
        s
    } else {
        let r = resolve_pair_spec(s[i], s[j]);
        nv_inner(s.update(i, r.0).update(j, r.1), n, i, j + 1)
    }
}

pub open spec fn nv_outer(s: Seq<Body>, n: int, i: int) -> Seq<Body>
    decreases n - i,
{
    if i < 0 || i >= n {
        s
    } else {
        nv_outer(nv_inner(s, n, i, i + 1), n, i + 1)
    }
}

impl Naive {
    /// Exact gravitation: every pair's force is computed once from the
    /// entry snapshot and applied with opposite signs; each body is then
    /// advanced by one integration step under its accumulated net force.
    pub fn gravitation(&mut self, bodies: &mut Vec<Body>, cfg: &SimConfig)
        requires
            valid_bodies(old(bodies)@),
            valid_config(*cfg),
        ensures
            final(bodies)@.len() == old(bodies)@.len(),
            forall|i: int|
                0 <= i < old(bodies)@.len() ==> final(bodies)@[i] == integrate(
                    old(bodies)@[i],
                    fsum_x(particles(old(bodies)@), particle_at(old(bodies)@, i), *cfg),
                    fsum_y(particles(old(bodies)@), particle_at(old(bodies)@, i), *cfg),
                    *cfg,
                ),
    {
        let ghost s0 = bodies@;
        let ghost ps = particles(s0);
        proof {
            assert(all_valid(ps)) by {
                assert(forall|i: int| 0 <= i < ps.len() ==> valid_body(#[trigger] s0[i]));
            }
            lemma_sums_bounds(ps);
            vstd::arithmetic::mul::lemma_mul_inequality(
                ps.len() as int,
                COUNT_MAX as int,
                MASS_MAX as int,
            );
        }
        let n = bodies.len();
        let mut forces: Vec<(i128, i128)> = Vec::new();
        let mut t: usize = 0;
        while t < n
            invariant
                0 <= t <= n,
                forces@.len() == t,
                forall|k: int| 0 <= k < t ==> forces@[k] == (0i128, 0i128),
            decreases n - t,
        {
            forces.push((0, 0));
            t += 1;
        }
        proof {
            assert(forall|k: int|
                0 <= k < n ==> (#[trigger] forces@[k]).0 as int == fsum_x(
                    ps.take(0),
                    particle_at(s0, k),
                    *cfg,
                ) && forces@[k].1 as int == fsum_y(ps.take(0), particle_at(s0, k), *cfg)) by {
                assert(ps.take(0) =~= Seq::<Particle>::empty());
            }
        }
        let mut i: usize = 0;
        while i < n
            invariant
                0 <= i <= n,
                n == s0.len(),
                bodies@.len() == n,
                forces@.len() == n,
                ps == particles(s0),
                ps.len() == n,
                all_valid(ps),
                mass_sum(ps) <= TOTAL_MASS_CAP,
                valid_bodies(s0),
                valid_config(*cfg),
                forall|k: int| i <= k < n ==> bodies@[k] == #[trigger] s0[k],
                forall|k: int|
                    i <= k < n ==> (#[trigger] forces@[k]).0 as int == fsum_x(
                        ps.take(i as int),
                        particle_at(s0, k),
                        *cfg,
                    ) && forces@[k].1 as int == fsum_y(ps.take(i as int), particle_at(s0, k), *cfg),
                forall|k: int|
                    0 <= k < i ==> #[trigger] bodies@[k] == integrate(
                        s0[k],
                        fsum_x(ps, particle_at(s0, k), *cfg),
                        fsum_y(ps, particle_at(s0, k), *cfg),
                        *cfg,
                    ),
            decreases n - i,
        {
            let bi = bodies[i];
            let ghost pi = particle_at(s0, i as int);
            let pio = Particle { id: i, mass: bi.mass, pos: bi.position };
            proof {
                assert(bodies@[i as int] == s0[i as int]);
                assert(pio == pi);
                assert(ps.take(i as int + 1).drop_last() =~= ps.take(i as int));
                assert(ps.take(i as int + 1).last() == pi);
                assert(forall|k: int|
                    i < k < n ==> fsum_x(ps.take(i as int + 1), #[trigger] particle_at(s0, k),
                        *cfg) == fsum_x(ps.take(i as int), particle_at(s0, k), *cfg) + pf_x(
                        pi.pos.x as int,
                        pi.pos.y as int,
                        pi.mass as int,
                        particle_at(s0, k),
                        *cfg,
                    ));
            }
            let mut j: usize = i + 1;
            while j < n
                invariant
                    i < j <= n,
                    0 <= (i as int) && (i as int) < n,
                    n == s0.len(),
                    bodies@.len() == n,
                    forces@.len() == n,
                    ps == particles(s0),
                    ps.len() == n,
                    all_valid(ps),
                    mass_sum(ps) <= TOTAL_MASS_CAP,
                    valid_bodies(s0),
                    valid_config(*cfg),
                    pi == particle_at(s0, i as int),
                    pio == pi,
                    forall|k: int| i <= k < n ==> bodies@[k] == #[trigger] s0[k],
                    forces@[i as int].0 as int == fsum_x(ps.take(j as int), pi, *cfg),
                    forces@[i as int].1 as int == fsum_y(ps.take(j as int), pi, *cfg),
                    forall|k: int|
                        i < k < j ==> (#[trigger] forces@[k]).0 as int == fsum_x(
                            ps.take(i as int + 1),
                            particle_at(s0, k),
                            *cfg,
                        ) && forces@[k].1 as int == fsum_y(
                            ps.take(i as int + 1),
                            particle_at(s0, k),
                            *cfg,
                        ),
                    forall|k: int|
                        j <= k < n ==> (#[trigger] forces@[k]).0 as int == fsum_x(
                            ps.take(i as int),
                            particle_at(s0, k),
                            *cfg,
                        ) && forces@[k].1 as int == fsum_y(
                            ps.take(i as int),
                            particle_at(s0, k),
                            *cfg,
                        ),
                    forall|k: int|
                        0 <= k < i ==> #[trigger] bodies@[k] == integrate(
                            s0[k],
                            fsum_x(ps, particle_at(s0, k), *cfg),
                            fsum_y(ps, particle_at(s0, k), *cfg),
                            *cfg,
                        ),
                decreases n - j,
            {
                let bj = bodies[j];
                let pj = Particle { id: j, mass: bj.mass, pos: bj.position };
                let ghost pjs = particle_at(s0, j as int);
                proof {
                    assert(bodies@[j as int] == s0[j as int]);
                    assert(pj == pjs);
                    assert(valid_body(s0[j as int]));
                    assert(valid_body(s0[i as int]));
                    assert(ps.take(j as int + 1).drop_last() =~= ps.take(j as int));
                    assert(ps.take(j as int + 1).last() == pjs);
                    assert(ps.take(i as int + 1).drop_last() =~= ps.take(i as int));
                    assert(ps.take(i as int + 1).last() == pi);
                    assert(ps =~= ps.take(j as int + 1) + ps.skip(j as int + 1));
                    lemma_sums_concat(ps.take(j as int + 1), ps.skip(j as int + 1));
                    assert(all_valid(ps.take(j as int + 1))) by {
                        assert(forall|z: int|
                            0 <= z < j + 1 ==> ps.take(j as int + 1)[z] == #[trigger] ps[z]);
                    }
                    assert(all_valid(ps.take(j as int))) by {
                        assert(forall|z: int|
                            0 <= z < j ==> ps.take(j as int)[z] == #[trigger] ps[z]);
                    }
                    assert(all_valid(ps.take(i as int + 1))) by {
                        assert(forall|z: int|
                            0 <= z < i + 1 ==> ps.take(i as int + 1)[z] == #[trigger] ps[z]);
                    }
                    assert(all_valid(ps.skip(j as int + 1))) by {
                        assert(forall|z: int|
                            0 <= z < ps.len() - (j + 1) ==> ps.skip(j as int + 1)[z]
                                == #[trigger] ps[z + j + 1]);
                    }
                    lemma_sums_bounds(ps.take(j as int + 1));
                    lemma_sums_bounds(ps.take(j as int));
                    lemma_sums_bounds(ps.skip(j as int + 1));
                    lemma_fsum_bound(ps.take(j as int), pi, *cfg);
                    lemma_fsum_bound(ps.take(i as int), pjs, *cfg);
                    assert(cfg.g * pi.mass * mass_sum(ps.take(j as int)) <= G_CAP * MASS_MAX
                        * TOTAL_MASS_CAP) by (nonlinear_arith)
                        requires
                            1 <= cfg.g <= G_CAP && 1 <= pi.mass <= MASS_MAX && 0 <= mass_sum(
                                ps.take(j as int),
                            ) <= TOTAL_MASS_CAP,
                    ;
                    assert(all_valid(ps.take(i as int))) by {
                        assert(forall|z: int|
                            0 <= z < i ==> ps.take(i as int)[z] == #[trigger] ps[z]);
                    }
                    assert(ps =~= ps.take(i as int) + ps.skip(i as int));
                    lemma_sums_concat(ps.take(i as int), ps.skip(i as int));
                    assert(all_valid(ps.skip(i as int))) by {
                        assert(forall|z: int|
                            0 <= z < ps.len() - i ==> ps.skip(i as int)[z]
                                == #[trigger] ps[z + i]);
                    }
                    lemma_sums_bounds(ps.skip(i as int));
                    lemma_sums_bounds(ps.take(i as int));
                    assert(mass_sum(ps.take(i as int)) <= mass_sum(ps));
                    assert(cfg.g * pjs.mass * mass_sum(ps.take(i as int)) <= G_CAP * MASS_MAX
                        * TOTAL_MASS_CAP) by (nonlinear_arith)
                        requires
                            1 <= cfg.g <= G_CAP && 1 <= pjs.mass <= MASS_MAX && 0 <= mass_sum(
                                ps.take(i as int),
                            ) <= TOTAL_MASS_CAP,
                    ;
                    assert(cfg.g * pi.mass * pjs.mass <= G_CAP * MASS_MAX * MASS_MAX)
                        by (nonlinear_arith)
                        requires
                            1 <= cfg.g <= G_CAP && 1 <= pi.mass <= MASS_MAX && 1 <= pjs.mass
                                <= MASS_MAX,
                    ;
                    lemma_pf_antisym(pjs, pi, *cfg);
                }
                let v = point_force(pj.pos.x as i128, pj.pos.y as i128, pj.mass, &pio, cfg);
                let fi = forces[i];
                let fj = forces[j];
                forces.set(i, (fi.0 + v.0, fi.1 + v.1));
                forces.set(j, (fj.0 - v.0, fj.1 - v.1));
                j += 1;
            }
            proof {
                assert(ps.take(n as int) =~= ps);
                lemma_fsum_bound(ps, pi, *cfg);
                assert(cfg.g * pi.mass * mass_sum(ps) <= cfg.g * pi.mass * TOTAL_MASS_CAP)
                    by (nonlinear_arith)
                    requires cfg.g >= 1 && pi.mass >= 1 && mass_sum(ps) <= TOTAL_MASS_CAP,
                ;
            }
            let f = forces[i];
            let mut nb = bi;
            nb.update(f.0, f.1, cfg);
            bodies.set(i, nb);
            i += 1;
        }
    }

    /// Exact collisions: every unordered pair is examined in lexicographic
    /// order; overlapping pairs are separated in place.
    pub fn collisions(&mut self, bodies: &mut Vec<Body>)
        requires
            valid_bodies(old(bodies)@),
        ensures
            final(bodies)@ == nv_outer(old(bodies)@, old(bodies)@.len() as int, 0),
    {
        let ghost s0 = bodies@;
        let ghost target = nv_outer(s0, s0.len() as int, 0);
        let n = bodies.len();
        proof {
            assert forall|k: int| 0 <= k < s0.len() implies {
                let b = #[trigger] s0[k];
                1 <= b.mass <= MASS_MAX && 0 <= b.radius <= 1_000 && iabs(b.position.x as int)
                    <= POS_LIMIT && iabs(b.position.y as int) <= POS_LIMIT
            } by {
                lemma_valid_col_ok(s0[k]);
            }
            assert(col_state(s0, POS_LIMIT as int));
        }
        let mut i: usize = 0;
        while i < n
            invariant
                0 <= i <= n,
                n == s0.len(),
                n <= COUNT_MAX,
                bodies@.len() == n,
                col_state(bodies@, POS_LIMIT + CR_CAP * ((i as int) * (n as int))),
                nv_outer(bodies@, n as int, i as int) == target,
            decreases n - i,
        {
            let mut j: usize = i + 1;
            let ghost s_outer = bodies@;
            while j < n
                invariant
                    i < j <= n,
                    0 <= (i as int) && (i as int) < n,
                    n == s0.len(),
                    n <= COUNT_MAX,
                    bodies@.len() == n,
                    col_state(
                        bodies@,
                        POS_LIMIT + CR_CAP * ((i as int) * (n as int) + (j as int) - (i as int)
                            - 1),
                    ),
                    nv_inner(bodies@, n as int, i as int, j as int) == nv_inner(
                        s_outer,
                        n as int,
                        i as int,
                        i as int + 1,
                    ),
                decreases n - j,
            {
                proof {
                    assert((i as int) * (n as int) + (j as int) - (i as int) - 1 <= (
                    COUNT_MAX as int) * (COUNT_MAX as int) + (COUNT_MAX as int))
                        by (nonlinear_arith)
                        requires
                            0 <= (i as int) && (i as int) < n as int && (i as int) < (j as int)
                                && (j as int) <= n as int && n as int <= COUNT_MAX as int,
                    ;
                    crate::collision::lemma_col_state_mono(
                        bodies@,
                        POS_LIMIT + CR_CAP * ((i as int) * (n as int) + (j as int) - (i as int)
                            - 1),
                        COL_POS_CAP as int,
                    );
                }
                let bi = bodies[i];
                let bj = bodies[j];
                let r = resolve_pair(&bi, &bj);
                let ghost before = bodies@;
                bodies.set(i, r.0);
                bodies.set(j, r.1);
                proof {
                    assert(bodies@ == before.update(i as int, r.0).update(j as int, r.1));
                    assert(nv_inner(before, n as int, i as int, j as int) == nv_inner(
                        bodies@,
                        n as int,
                        i as int,
                        j as int + 1,
                    ));
                    let nb = POS_LIMIT + CR_CAP * ((i as int) * (n as int) + (j as int) - (
                    i as int));
                    assert forall|t: int| 0 <= t < bodies@.len() implies {
                        let bb = #[trigger] bodies@[t];
                        1 <= bb.mass <= MASS_MAX && 0 <= bb.radius <= 1_000 && iabs(
                            bb.position.x as int,
                        ) <= nb && iabs(bb.position.y as int) <= nb
                    } by {
                        if t == j as int {
                        } else if t == i as int {
                        } else {
                            assert(bodies@[t] == before[t]);
                        }
                    }
                }
                j += 1;
            }
            proof {
                assert(nv_inner(bodies@, n as int, i as int, n as int) == bodies@);
                assert(bodies@ == nv_inner(s_outer, n as int, i as int, i as int + 1));
                assert(nv_outer(s_outer, n as int, i as int) == nv_outer(
                    bodies@,
                    n as int,
                    i as int + 1,
                ));
                assert(CR_CAP * ((i as int) * (n as int) + (n as int) - (i as int) - 1) <= CR_CAP
                    * ((i as int + 1) * (n as int))) by (nonlinear_arith)
                    requires 0 <= (i as int) && (i as int) < (n as int),
                ;
                crate::collision::lemma_col_state_mono(
                    bodies@,
                    POS_LIMIT + CR_CAP * ((i as int) * (n as int) + (n as int) - (i as int) - 1),
                    POS_LIMIT + CR_CAP * ((i as int + 1) * (n as int)),
                );
            }
            i += 1;
        }
    }
}

} // verus!
