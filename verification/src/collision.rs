//! The collision resolver: a positional-separation step for one
//! overlapping pair, and the tree-driven pass that finds candidate pairs by
//! a range query over the quadrant tree.

use vstd::prelude::*;
use crate::body::{Body, Particle, valid_bodies, valid_body, MASS_MAX, POS_LIMIT, COUNT_MAX};
use crate::num::{tdiv, tdiv_i128, sqrt_floor, isqrt_u128, iabs, lemma_sqrt_floor_bounds,
    lemma_tdiv_abs_le, lemma_abs_mul_le, lemma_half_bounds};
use crate::quadtree::{Quadrant, Kids, members, wf_quad, GEOM_CAP, lemma_child_geom};
use crate::tree::{QuadTree, wf_tree, max2};
use crate::force::lemma_abs_le_dist;

verus! {

/// Largest combined collision radius of two valid bodies.
pub const CR_CAP: i64 = 2_000;

/// Positions may drift during a collision pass; they stay under this cap.
pub const COL_POS_CAP: i64 = 10_000_000_000_000_000;

/// The loosened body state holding during a collision pass: masses and
/// radii as at entry, positions possibly displaced but bounded.
pub open spec fn col_ok(b: Body) -> bool {
    &&& 1 <= b.mass <= MASS_MAX
    &&& 0 <= b.radius <= 1_000
    &&& iabs(b.position.x as int) <= COL_POS_CAP
    &&& iabs(b.position.y as int) <= COL_POS_CAP
}

/// A valid body satisfies the collision-pass state.
pub proof fn lemma_valid_col_ok(b: Body)
    requires
        valid_body(b),
    ensures
        col_ok(b),
{
    lemma_sqrt_floor_bounds(b.mass as nat);
    let r = sqrt_floor(b.mass as nat);
    if r > 1_000 {
        assert(r * r >= 1_001 * 1_001) by (nonlinear_arith)
            requires r >= 1_001,
        ;
    }
}

/// Positional separation of one unordered pair, as seen from `(a, b)`: if
/// the separation is below the combined radius, each body is translated
/// directly away from the other along the offset, weighted by the other's
/// mass share, with the division guarded against zero separation.
pub open spec fn resolve_pair_spec(a: Body, b: Body) -> (Body, Body) {
    let dx = a.position.x - b.position.x;
    let dy = a.position.y - b.position.y;
    let dist = sqrt_floor((dx * dx + dy * dy) as nat) as int;
    let cr = a.radius + b.radius;
    if dist < cr {
        let dg = max2(dist, 1);
        let den = dg * (a.mass + b.mass);
        let ax = a.position.x + tdiv(dx * (cr - dist) * b.mass, den);
        let ay = a.position.y + tdiv(dy * (cr - dist) * b.mass, den);
        let bx = b.position.x - tdiv(dx * (cr - dist) * a.mass, den);
        let by = b.position.y - tdiv(dy * (cr - dist) * a.mass, den);
        (
            Body {
                position: crate::body::Vec2 { x: ax as i64, y: ay as i64 },
                ..a
            },
            Body {
                position: crate::body::Vec2 { x: bx as i64, y: by as i64 },
                ..b
            },
        )
    } else {
        (a, b)
    }
}

/// `|tdiv(dx * num * m, dg * msum)| <= num` for the separation weights.
pub proof fn lemma_delta_bound(dx: int, dg: int, num: int, m: int, msum: int)
    requires
        1 <= dg,
        iabs(dx) <= dg,
        0 <= num,
        1 <= m <= msum,
    ensures
        iabs(tdiv(dx * num * m, dg * msum)) <= num,
{
    assert(-(dg * (num * m)) <= dx * num * m <= dg * (num * m)) by (nonlinear_arith)
        requires iabs(dx) <= dg && 0 <= num && 1 <= m && -iabs(dx) <= dx <= iabs(dx),
    ;
    assert(dg * (num * m) >= 0) by (nonlinear_arith)
        requires dg >= 1 && num >= 0 && m >= 1,
    ;
    assert(dg * msum >= 1) by (nonlinear_arith)
        requires dg >= 1 && msum >= 1,
    ;
    lemma_tdiv_abs_le(dx * num * m, dg * msum, dg * (num * m));
    assert((dg * (num * m)) / (dg * msum) <= num) by {
        assert(dg * (num * m) <= (dg * msum) * num) by (nonlinear_arith)
            requires 1 <= m <= msum && 0 <= num && 1 <= dg,
        ;
        vstd::arithmetic::div_mod::lemma_div_is_ordered(
            dg * (num * m),
            (dg * msum) * num,
            dg * msum,
        );
        assert(((dg * msum) * num) / (dg * msum) == num) by {
            vstd::arithmetic::div_mod::lemma_div_multiples_vanish(num, dg * msum);
        }
    }
}

/// Executable pair separation.
pub fn resolve_pair(a: &Body, b: &Body) -> (r: (Body, Body))
    requires
        col_ok(*a),
        col_ok(*b),
    ensures
        (r.0, r.1) == resolve_pair_spec(*a, *b),
        r.0.mass == a.mass && r.0.velocity == a.velocity && r.0.radius == a.radius
            && r.0.acceleration == a.acceleration,
        r.1.mass == b.mass && r.1.velocity == b.velocity && r.1.radius == b.radius
            && r.1.acceleration == b.acceleration,
        iabs(r.0.position.x as int - a.position.x as int) <= CR_CAP,
        iabs(r.0.position.y as int - a.position.y as int) <= CR_CAP,
        iabs(r.1.position.x as int - b.position.x as int) <= CR_CAP,
        iabs(r.1.position.y as int - b.position.y as int) <= CR_CAP,
{
    let dx: i128 = a.position.x as i128 - b.position.x as i128;
    let dy: i128 = a.position.y as i128 - b.position.y as i128;
    proof {
        lemma_abs_mul_le(dx as int, dx as int, 2 * COL_POS_CAP, 2 * COL_POS_CAP);
        lemma_abs_mul_le(dy as int, dy as int, 2 * COL_POS_CAP, 2 * COL_POS_CAP);
        assert(dx * dx >= 0 && dy * dy >= 0) by (nonlinear_arith);
    }
    let d2: i128 = dx * dx + dy * dy;
    let sq: u128 = isqrt_u128(d2 as u128);
    let cr: i64 = a.radius + b.radius;
    if sq < cr as u128 {
        let dist: i128 = sq as i128;
        proof {
            lemma_abs_le_dist(dx as int, dy as int, 1);
        }
        let dg: i128 = if dist >= 1 {
            dist
        } else {
            1
        };
        let msum: i128 = a.mass as i128 + b.mass as i128;
        let num: i128 = cr as i128 - dist;
        proof {
            assert(iabs(dx as int) <= dg && iabs(dy as int) <= dg);
            lemma_delta_bound(dx as int, dg as int, num as int, b.mass as int, msum as int);
            lemma_delta_bound(dy as int, dg as int, num as int, b.mass as int, msum as int);
            lemma_delta_bound(dx as int, dg as int, num as int, a.mass as int, msum as int);
            lemma_delta_bound(dy as int, dg as int, num as int, a.mass as int, msum as int);
            lemma_abs_mul_le(dx as int, num as int, CR_CAP as int, CR_CAP as int);
            lemma_abs_mul_le(dx * num, b.mass as int, CR_CAP * CR_CAP, MASS_MAX as int);
            lemma_abs_mul_le(dy as int, num as int, CR_CAP as int, CR_CAP as int);
            lemma_abs_mul_le(dy * num, b.mass as int, CR_CAP * CR_CAP, MASS_MAX as int);
            lemma_abs_mul_le(dx * num, a.mass as int, CR_CAP * CR_CAP, MASS_MAX as int);
            lemma_abs_mul_le(dy * num, a.mass as int, CR_CAP * CR_CAP, MASS_MAX as int);
            lemma_abs_mul_le(dg as int, msum as int, CR_CAP as int, 2 * MASS_MAX);
            assert(dg * msum >= 1) by (nonlinear_arith)
                requires dg >= 1 && msum >= 1,
            ;
        }
        let den: i128 = dg * msum;
        let dax: i128 = tdiv_i128(dx * num * b.mass as i128, den);
        let day: i128 = tdiv_i128(dy * num * b.mass as i128, den);
        let dbx: i128 = tdiv_i128(dx * num * a.mass as i128, den);
        let dby: i128 = tdiv_i128(dy * num * a.mass as i128, den);
        let na = Body {
            position: crate::body::Vec2 {
                x: (a.position.x as i128 + dax) as i64,
                y: (a.position.y as i128 + day) as i64,
            },
            ..*a
        };
        let nb = Body {
            position: crate::body::Vec2 {
                x: (b.position.x as i128 - dbx) as i64,
                y: (b.position.y as i128 - dby) as i64,
            },
            ..*b
        };
        (na, nb)
    } else {
        (*a, *b)
    }
}

/// Whether the node's square, and the query body's box expanded by its
/// radius, overlap (strictly, mirroring the range query's pruning test).
pub open spec fn overlap(cx: int, cy: int, side: int, b: Body) -> bool {
    &&& cx - side / 2 < b.position.x + b.radius
    &&& cx + side / 2 > b.position.x - b.radius
    &&& cy - side / 2 < b.position.y + b.radius
    &&& cy + side / 2 > b.position.y - b.radius
}

/// The ids of a particle list, one id dropped.
pub open spec fn ids_excl(s: Seq<Particle>, excl: usize) -> Seq<usize>
    decreases s.len(),
{
    if s.len() == 0 {
        Seq::empty()
    } else {
        let pre = ids_excl(s.drop_last(), excl);
        if s.last().id == excl {
            pre
        } else {
            pre.push(s.last().id)
        }
    }
}

/// The candidate partners of a range query: ids stored at leaves whose
/// enclosing squares survive the pruning test, the query's own id dropped.
pub open spec fn collect_spec(q: Quadrant, cx: int, cy: int, side: int, b: Body, excl: usize) -> Seq<
    usize,
>
    decreases q,
{
    if overlap(cx, cy, side, b) {
        match q.kids {
            Kids::Leaf(ms) => ids_excl(ms@, excl),
            Kids::Four(ch) => {
                let off = (side / 2) / 2;
                collect_spec(ch.q0, cx - off, cy - off, side / 2, b, excl) + collect_spec(
                    ch.q1,
                    cx + off,
                    cy - off,
                    side / 2,
                    b,
                    excl,
                ) + collect_spec(ch.q2, cx - off, cy + off, side / 2, b, excl) + collect_spec(
                    ch.q3,
                    cx + off,
                    cy + off,
                    side / 2,
                    b,
                    excl,
                )
            },
        }
    } else {
        Seq::empty()
    }
}

pub open spec fn ids_below(s: Seq<Particle>, n: int) -> bool {
    forall|k: int| 0 <= k < s.len() ==> (#[trigger] s[k].id) < n
}

pub open spec fn ids_below_u(s: Seq<usize>, n: int) -> bool {
    forall|k: int| 0 <= k < s.len() ==> (#[trigger] s[k]) < n
}

proof fn lemma_ids_excl_props(s: Seq<Particle>, excl: usize, n: int)
    requires
        ids_below(s, n),
    ensures
        ids_below_u(ids_excl(s, excl), n),
        ids_excl(s, excl).len() <= s.len(),
        forall|k: int|
            0 <= k < ids_excl(s, excl).len() ==> (#[trigger] ids_excl(s, excl)[k]) != excl,
    decreases s.len(),
{
    if s.len() > 0 {
        assert(ids_below(s.drop_last(), n)) by {
            assert(forall|k: int|
                0 <= k < s.len() - 1 ==> s.drop_last()[k] == #[trigger] s[k]);
        }
        lemma_ids_excl_props(s.drop_last(), excl, n);
        assert(s.last().id < n);
    }
}

/// A tree holding exactly the store's particles references only valid
/// indices, and holds one particle per body: what a rebuild guarantees is
/// what a collision pass needs.
pub proof fn lemma_tree_matches_store(ms: Seq<Particle>, s: Seq<Body>)
    requires
        ms.to_multiset() == crate::body::particles(s).to_multiset(),
    ensures
        ids_below(ms, s.len() as int),
        ms.len() == s.len(),
{
    broadcast use vstd::seq_lib::group_to_multiset_ensures;

    let ps = crate::body::particles(s);
    assert(ms.len() == ms.to_multiset().len());
    assert(ps.len() == ps.to_multiset().len());
    assert forall|k: int| 0 <= k < ms.len() implies (#[trigger] ms[k].id) < s.len() as int by {
        assert(ms.contains(ms[k]));
        assert(ms.to_multiset().count(ms[k]) > 0);
        assert(ps.contains(ms[k]));
        let j = choose|j: int| 0 <= j < ps.len() && ps[j] == ms[k];
        assert(ps[j].id == j as usize);
    }
}

proof fn lemma_ids_below_concat(a: Seq<Particle>, b: Seq<Particle>, n: int)
    requires
        ids_below(a + b, n),
    ensures
        ids_below(a, n),
        ids_below(b, n),
{
    assert(forall|k: int| 0 <= k < a.len() ==> a[k] == (a + b)[k]);
    assert(forall|k: int| 0 <= k < b.len() ==> b[k] == (a + b)[a.len() + k]);
    assert forall|k: int| 0 <= k < a.len() implies (#[trigger] a[k].id) < n by {
        assert((a + b)[k].id < n);
    }
    assert forall|k: int| 0 <= k < b.len() implies (#[trigger] b[k].id) < n by {
        assert((a + b)[a.len() + k].id < n);
    }
}

/// The candidates are fewer than the particles below the node, all below
/// `n`, and none equal to the excluded id.
pub proof fn lemma_collect_props(q: Quadrant, cx: int, cy: int, side: int, b: Body, excl: usize, n: int)
    requires
        ids_below(members(q), n),
    ensures
        ids_below_u(collect_spec(q, cx, cy, side, b, excl), n),
        collect_spec(q, cx, cy, side, b, excl).len() <= members(q).len(),
        forall|k: int|
            0 <= k < collect_spec(q, cx, cy, side, b, excl).len() ==> (
            #[trigger] collect_spec(q, cx, cy, side, b, excl)[k]) != excl,
    decreases q,
{
    if overlap(cx, cy, side, b) {
        match q.kids {
            Kids::Leaf(ms) => {
                lemma_ids_excl_props(ms@, excl, n);
            },
            Kids::Four(ch) => {
                let m0 = members(ch.q0);
                let m1 = members(ch.q1);
                let m2 = members(ch.q2);
                let m3 = members(ch.q3);
                assert(members(q) == m0 + m1 + m2 + m3);
                lemma_ids_below_concat(m0 + m1 + m2, m3, n);
                lemma_ids_below_concat(m0 + m1, m2, n);
                lemma_ids_below_concat(m0, m1, n);
                let off = (side / 2) / 2;
                lemma_collect_props(ch.q0, cx - off, cy - off, side / 2, b, excl, n);
                lemma_collect_props(ch.q1, cx + off, cy - off, side / 2, b, excl, n);
                lemma_collect_props(ch.q2, cx - off, cy + off, side / 2, b, excl, n);
                lemma_collect_props(ch.q3, cx + off, cy + off, side / 2, b, excl, n);
            },
        }
    }
}

/// Executable range query, appending candidate ids to `out`.
fn collect_into(q: &Quadrant, cx: i64, cy: i64, side: i64, b: &Body, excl: usize, out: &mut Vec<
    usize,
>)
    requires
        0 <= side,
        iabs(cx as int) + side <= GEOM_CAP,
        iabs(cy as int) + side <= GEOM_CAP,
        col_ok(*b),
    ensures
        final(out)@ == old(out)@ + collect_spec(*q, cx as int, cy as int, side as int, *b, excl),
    decreases *q,
{
    proof {
        lemma_half_bounds(side as int);
    }
    let hs: i64 = side / 2;
    let hit: bool = cx - hs < b.position.x + b.radius && cx + hs > b.position.x - b.radius && cy
        - hs < b.position.y + b.radius && cy + hs > b.position.y - b.radius;
    if !hit {
        proof {
            assert(out@ =~= old(out)@ + collect_spec(*q, cx as int, cy as int, side as int, *b, excl));
        }
        return ;
    }
    match &q.kids {
        Kids::Leaf(ms) => {
            let ghost s = ms@;
            let mut k: usize = 0;
            while k < ms.len()
                invariant
                    0 <= k <= s.len(),
                    ms@ == s,
                    out@ == old(out)@ + ids_excl(s.take(k as int), excl),
                decreases s.len() - k,
            {
                let p = ms[k];
                proof {
                    assert(s.take(k as int + 1).drop_last() =~= s.take(k as int));
                    assert(s.take(k as int + 1).last() == p);
                }
                if p.id != excl {
                    out.push(p.id);
                }
                k += 1;
            }
            proof {
                assert(s.take(s.len() as int) =~= s);
            }
        },
        Kids::Four(ch) => {
            proof {
                lemma_child_geom(cx as int, side as int);
                lemma_child_geom(cy as int, side as int);
            }
            let off: i64 = hs / 2;
            collect_into(&ch.q0, cx - off, cy - off, hs, b, excl, out);
            collect_into(&ch.q1, cx + off, cy - off, hs, b, excl, out);
            collect_into(&ch.q2, cx - off, cy + off, hs, b, excl, out);
            collect_into(&ch.q3, cx + off, cy + off, hs, b, excl, out);
            proof {
                let off_i = (side as int / 2) / 2;
                assert(out@ =~= old(out)@ + (collect_spec(
                    ch.q0,
                    cx - off_i,
                    cy - off_i,
                    side as int / 2,
                    *b,
                    excl,
                ) + collect_spec(ch.q1, cx + off_i, cy - off_i, side as int / 2, *b, excl)
                    + collect_spec(ch.q2, cx - off_i, cy + off_i, side as int / 2, *b, excl)
                    + collect_spec(ch.q3, cx + off_i, cy + off_i, side as int / 2, *b, excl)));
            }
        },
    }
}

/// The body state holding for every slot during a collision pass.
pub open spec fn col_state(s: Seq<Body>, bound: int) -> bool {
    forall|k: int|
        0 <= k < s.len() ==> {
            let b = #[trigger] s[k];
            1 <= b.mass <= MASS_MAX && 0 <= b.radius <= 1_000 && iabs(b.position.x as int)
                <= bound && iabs(b.position.y as int) <= bound
        }
}

/// One body's candidate pairs resolved in order, both sides updated in
/// place; the pair is re-read from the evolving store at each step.
pub open spec fn tc_inner(s: Seq<Body>, i: int, lst: Seq<usize>, k: int) -> Seq<Body>
    decreases lst.len() - k,
{
    if k < 0 || k >= lst.len() {
        s
    } else {
        let j = lst[k] as int;
        let r = resolve_pair_spec(s[i], s[j]);
        let s2 = if 0 <= i < s.len() && 0 <= j < s.len() {
            s.update(i, r.0).update(j, r.1)
        } else {
            s
        };
        tc_inner(s2, i, lst, k + 1)
    }
}

/// The whole tree-driven collision pass: each body queries the tree with
/// its current box and resolves its candidates in order.
pub open spec fn tc_outer(s: Seq<Body>, q: Quadrant, cx: int, cy: int, side: int, n: int, i: int) -> Seq<
    Body,
>
    decreases n - i,
{
    if i < 0 || i >= n {
        s
    } else {
        let lst = collect_spec(q, cx, cy, side, s[i], i as usize);
        tc_outer(tc_inner(s, i, lst, 0), q, cx, cy, side, n, i + 1)
    }
}

proof fn lemma_tc_inner_len(s: Seq<Body>, i: int, lst: Seq<usize>, k: int)
    ensures
        tc_inner(s, i, lst, k).len() == s.len(),
    decreases lst.len() - k,
{
    if 0 <= k < lst.len() {
        let j = lst[k] as int;
        let r = resolve_pair_spec(s[i], s[j]);
        if 0 <= i < s.len() && 0 <= j < s.len() {
            lemma_tc_inner_len(s.update(i, r.0).update(j, r.1), i, lst, k + 1);
        } else {
            lemma_tc_inner_len(s, i, lst, k + 1);
        }
    }
}

/// A collision pass never adds or removes bodies.
pub proof fn lemma_tc_outer_len(s: Seq<Body>, q: Quadrant, cx: int, cy: int, side: int, n: int, i: int)
    ensures
        tc_outer(s, q, cx, cy, side, n, i).len() == s.len(),
    decreases n - i,
{
    if 0 <= i < n {
        let lst = collect_spec(q, cx, cy, side, s[i], i as usize);
        lemma_tc_inner_len(s, i, lst, 0);
        lemma_tc_outer_len(tc_inner(s, i, lst, 0), q, cx, cy, side, n, i + 1);
    }
}

pub proof fn lemma_col_state_mono(s: Seq<Body>, b1: int, b2: int)
    requires
        col_state(s, b1),
        b1 <= b2,
    ensures
        col_state(s, b2),
{
}

impl QuadTree {
    /// One collision pass: every body queries the tree for spatially
    /// overlapping leaf partners and resolves each surviving pair in place.
    /// Because the pass is driven by one traversal per body, an unordered
    /// pair may be resolved from both sides; the double application only
    /// strengthens the separation and is accepted.
    pub fn collisions(&mut self, bodies: &mut Vec<Body>)
        requires
            wf_tree(*old(self)),
            valid_bodies(old(bodies)@),
            ids_below(members(old(self).root), old(bodies)@.len() as int),
            members(old(self).root).len() <= COUNT_MAX,
        ensures
            *final(self) == *old(self),
            final(bodies)@ == tc_outer(
                old(bodies)@,
                old(self).root,
                old(self).center.x as int,
                old(self).center.y as int,
                old(self).side as int,
                old(bodies)@.len() as int,
                0,
            ),
    {
        let ghost s0 = bodies@;
        let ghost cx = self.center.x as int;
        let ghost cy = self.center.y as int;
        let ghost sd = self.side as int;
        let ghost target = tc_outer(s0, self.root, cx, cy, sd, s0.len() as int, 0);
        let ghost m_len = members(self.root).len() as int;
        let n = bodies.len();
        proof {
            assert forall|k: int| 0 <= k < s0.len() implies {
                let b = #[trigger] s0[k];
                1 <= b.mass <= MASS_MAX && 0 <= b.radius <= 1_000 && iabs(b.position.x as int)
                    <= POS_LIMIT && iabs(b.position.y as int) <= POS_LIMIT
            } by {
                lemma_valid_col_ok(s0[k]);
            }
            assert(col_state(s0, POS_LIMIT as int));
        }
        let mut i: usize = 0;
        while i < n
            invariant
                0 <= i <= n,
                n == s0.len(),
                n <= COUNT_MAX,
                bodies@.len() == n,
                *self == *old(self),
                wf_tree(*self),
                cx == self.center.x as int,
                cy == self.center.y as int,
                sd == self.side as int,
                ids_below(members(self.root), n as int),
                m_len == members(self.root).len() as int,
                m_len <= COUNT_MAX,
                col_state(bodies@, POS_LIMIT + CR_CAP * ((i as int) * (m_len + 1))),
                tc_outer(bodies@, self.root, cx, cy, sd, n as int, i as int) == target,
            decreases n - i,
        {
            proof {
                assert((i as int) * (m_len + 1) <= (COUNT_MAX as int) * (COUNT_MAX as int + 1))
                    by (nonlinear_arith)
                    requires 0 <= i as int <= COUNT_MAX as int && 0 <= m_len <= COUNT_MAX as int,
                ;
                lemma_col_state_mono(
                    bodies@,
                    POS_LIMIT + CR_CAP * ((i as int) * (m_len + 1)),
                    COL_POS_CAP as int,
                );
            }
            let b = bodies[i];
            let mut lst: Vec<usize> = Vec::new();
            collect_into(&self.root, self.center.x, self.center.y, self.side, &b, i, &mut lst);
            proof {
                lemma_collect_props(self.root, cx, cy, sd, b, i, n as int);
                assert(lst@ == collect_spec(self.root, cx, cy, sd, b, i));
            }
            let ghost s_outer = bodies@;
            let ghost the_lst = lst@;
            let ghost base = (i as int) * (m_len + 1);
            let mut k: usize = 0;
            while k < lst.len()
                invariant
                    0 <= k <= the_lst.len(),
                    lst@ == the_lst,
                    the_lst.len() <= m_len,
                    m_len <= COUNT_MAX,
                    0 <= (i as int) && (i as int) < n,
                    n <= COUNT_MAX,
                    bodies@.len() == n,
                    ids_below_u(the_lst, n as int),
                    base == (i as int) * (m_len + 1),
                    0 <= base <= (COUNT_MAX as int) * (COUNT_MAX as int + 1),
                    col_state(bodies@, POS_LIMIT + CR_CAP * (base + k as int)),
                    tc_inner(bodies@, i as int, the_lst, k as int) == tc_inner(
                        s_outer,
                        i as int,
                        the_lst,
                        0,
                    ),
                decreases the_lst.len() - k,
            {
                proof {
                    lemma_col_state_mono(
                        bodies@,
                        POS_LIMIT + CR_CAP * (base + k as int),
                        COL_POS_CAP as int,
                    );
                }
                let j = lst[k];
                let bi = bodies[i];
                let bj = bodies[j];
                let r = resolve_pair(&bi, &bj);
                let ghost before = bodies@;
                bodies.set(i, r.0);
                bodies.set(j, r.1);
                proof {
                    assert(bodies@ == before.update(i as int, r.0).update(j as int, r.1));
                    assert(tc_inner(before, i as int, the_lst, k as int) == tc_inner(
                        bodies@,
                        i as int,
                        the_lst,
                        k as int + 1,
                    ));
                    let nb = POS_LIMIT + CR_CAP * (base + k as int + 1);
                    assert forall|t: int| 0 <= t < bodies@.len() implies {
                        let bb = #[trigger] bodies@[t];
                        1 <= bb.mass <= MASS_MAX && 0 <= bb.radius <= 1_000 && iabs(
                            bb.position.x as int,
                        ) <= nb && iabs(bb.position.y as int) <= nb
                    } by {
                        if t == j as int {
                        } else if t == i as int {
                        } else {
                            assert(bodies@[t] == before[t]);
                        }
                    }
                }
                k += 1;
            }
            proof {
                assert(tc_inner(bodies@, i as int, the_lst, the_lst.len() as int) == bodies@);
                assert(bodies@ == tc_inner(s_outer, i as int, the_lst, 0));
                assert(the_lst == collect_spec(self.root, cx, cy, sd, s_outer[i as int], i));
                assert(tc_outer(s_outer, self.root, cx, cy, sd, n as int, i as int) == tc_outer(
                    bodies@,
                    self.root,
                    cx,
                    cy,
                    sd,
                    n as int,
                    i as int + 1,
                ));
                assert(CR_CAP * (base + m_len) <= CR_CAP * ((i as int + 1) * (m_len + 1)))
                    by (nonlinear_arith)
                    requires base == (i as int) * (m_len + 1) && 0 <= m_len && 0 <= i as int,
                ;
                lemma_col_state_mono(
                    bodies@,
                    POS_LIMIT + CR_CAP * (base + the_lst.len() as int),
                    POS_LIMIT + CR_CAP * ((i as int + 1) * (m_len + 1)),
                );
            }
            i += 1;
        }
    }
}

} // verus!
