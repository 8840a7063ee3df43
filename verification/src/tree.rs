//! The tree-based simulator: bounding-region computation, wholesale rebuild
//! of the quadrant tree from a body store, and read-only introspection of
//! the subdivision structure.

use vstd::prelude::*;
use crate::body::{Body, Vec2, Particle, valid_bodies, valid_body, valid_particle, particles,
    particle_at, MASS_MAX, POS_LIMIT, TOTAL_MASS_CAP, COUNT_MAX};
use crate::num::{tdiv, tdiv_i128, iabs};
use crate::quadtree::{Quadrant, Kids, TreeModel, insert_model, empty_model, members, mass_sum,
    wsum_x, wsum_y, wf_quad, depth_ok, kids4, all_valid, lemma_sums_bounds, MAX_DEPTH, GEOM_CAP};

verus! {

broadcast use vstd::seq_lib::group_to_multiset_ensures;

/// Largest admissible numerator or denominator of theta.
pub const THETA_CAP: i64 = 1_000_000;

/// Largest side a bounding region of valid bodies can have.
pub const SIDE_CAP: i64 = 5_000_000_000;

/// The Barnes-Hut simulator state: the root quadrant, the admissibility
/// threshold theta as the ratio `theta_num / theta_den`, and the bounding
/// region the tree was last built for.
pub struct QuadTree {
    pub root: Quadrant,
    pub theta_num: i64,
    pub theta_den: i64,
    pub center: Vec2,
    pub side: i64,
}

/// One visited node of the tree, as reported to a renderer: its square,
/// whether it is subdivided, and its aggregates.
#[derive(Clone, Copy, PartialEq, Eq, Structural, Debug)]
pub struct NodeView {
    pub cx: i64,
    pub cy: i64,
    pub side: i64,
    pub internal: bool,
    pub total_mass: i64,
    pub mps_x: i128,
    pub mps_y: i128,
}

pub open spec fn wf_tree(t: QuadTree) -> bool {
    &&& wf_quad(t.root)
    &&& depth_ok(t.root, MAX_DEPTH as nat)
    &&& 0 <= t.side
    &&& iabs(t.center.x as int) + t.side <= GEOM_CAP
    &&& iabs(t.center.y as int) + t.side <= GEOM_CAP
    &&& 0 <= t.theta_num <= THETA_CAP
    &&& 1 <= t.theta_den <= THETA_CAP
    &&& t.root.total_mass <= TOTAL_MASS_CAP
}

/// Least `x` position over a non-empty body sequence.
pub open spec fn min_x(s: Seq<Body>) -> int
    recommends
        s.len() >= 1,
    decreases s.len(),
{
    if s.len() <= 1 {
        s[0].position.x as int
    } else {
        let m = min_x(s.drop_last());
        let v = s.last().position.x as int;
        if v < m {
            v
        } else {
            m
        }
    }
}

pub open spec fn max_x(s: Seq<Body>) -> int
    recommends
        s.len() >= 1,
    decreases s.len(),
{
    if s.len() <= 1 {
        s[0].position.x as int
    } else {
        let m = max_x(s.drop_last());
        let v = s.last().position.x as int;
        if v > m {
            v
        } else {
            m
        }
    }
}

pub open spec fn min_y(s: Seq<Body>) -> int
    recommends
        s.len() >= 1,
    decreases s.len(),
{
    if s.len() <= 1 {
        s[0].position.y as int
    } else {
        let m = min_y(s.drop_last());
        let v = s.last().position.y as int;
        if v < m {
            v
        } else {
            m
        }
    }
}

pub open spec fn max_y(s: Seq<Body>) -> int
    recommends
        s.len() >= 1,
    decreases s.len(),
{
    if s.len() <= 1 {
        s[0].position.y as int
    } else {
        let m = max_y(s.drop_last());
        let v = s.last().position.y as int;
        if v > m {
            v
        } else {
            m
        }
    }
}

pub open spec fn max2(a: int, b: int) -> int {
    if a >= b {
        a
    } else {
        b
    }
}

/// Centre of the bounding square: the midpoint of the extreme positions,
/// rounded toward zero.
pub open spec fn region_center_x(s: Seq<Body>) -> int {
    tdiv(min_x(s) + max_x(s), 2)
}

pub open spec fn region_center_y(s: Seq<Body>) -> int {
    tdiv(min_y(s) + max_y(s), 2)
}

/// Side of the bounding square: twice the largest distance from the centre
/// to an extreme, plus a margin that makes containment strict.
pub open spec fn region_side(s: Seq<Body>) -> int {
    2 * (max2(
        max2(max_x(s) - region_center_x(s), region_center_x(s) - min_x(s)),
        max2(max_y(s) - region_center_y(s), region_center_y(s) - min_y(s)),
    ) + 1)
}

/// The extremes bound every position, and lie within the validity window.
pub proof fn lemma_minmax(s: Seq<Body>)
    requires
        s.len() >= 1,
        valid_bodies(s),
    ensures
        forall|i: int|
            0 <= i < s.len() ==> min_x(s) <= #[trigger] s[i].position.x <= max_x(s) && min_y(s)
                <= s[i].position.y <= max_y(s),
        -POS_LIMIT <= min_x(s) <= max_x(s) <= POS_LIMIT,
        -POS_LIMIT <= min_y(s) <= max_y(s) <= POS_LIMIT,
    decreases s.len(),
{
    if s.len() > 1 {
        assert(valid_bodies(s.drop_last())) by {
            assert(forall|i: int|
                0 <= i < s.len() - 1 ==> s.drop_last()[i] == #[trigger] s[i]);
        }
        lemma_minmax(s.drop_last());
        assert(forall|i: int|
            0 <= i < s.len() - 1 ==> s.drop_last()[i] == #[trigger] s[i]);
        assert(valid_body(s[s.len() - 1]));
    } else {
        assert(valid_body(s[0]));
    }
}

/// Building a model tree by inserting a particle sequence first to last,
/// each insertion starting with full fuel.
pub open spec fn build_model(s: Seq<Particle>, cx: int, cy: int, side: int) -> TreeModel
    decreases s.len(),
{
    if s.len() == 0 {
        empty_model()
    } else {
        insert_model(
            build_model(s.drop_last(), cx, cy, side),
            s.last(),
            cx,
            cy,
            side,
            MAX_DEPTH as nat,
        )
    }
}

impl QuadTree {
    /// A simulator with an empty tree and the given theta ratio.
    pub fn new(theta_num: i64, theta_den: i64) -> (t: QuadTree)
        requires
            0 <= theta_num <= THETA_CAP,
            1 <= theta_den <= THETA_CAP,
        ensures
            wf_tree(t),
            t.theta_num == theta_num,
            t.theta_den == theta_den,
            t.root.model() == empty_model(),
            members(t.root) == Seq::<Particle>::empty(),
    {
        QuadTree {
            root: Quadrant::empty(),
            theta_num,
            theta_den,
            center: Vec2 { x: 0, y: 0 },
            side: 0,
        }
    }

    /// The minimal enclosing square of the current body positions, padded
    /// just enough that containment is strict on every edge.
    pub fn compute_area(bodies: &Vec<Body>) -> (r: (Vec2, i64))
        requires
            bodies@.len() >= 1,
            valid_bodies(bodies@),
        ensures
            r.0.x == region_center_x(bodies@),
            r.0.y == region_center_y(bodies@),
            r.1 == region_side(bodies@),
            2 <= r.1 <= SIDE_CAP,
            iabs(r.0.x as int) + r.1 <= GEOM_CAP,
            iabs(r.0.y as int) + r.1 <= GEOM_CAP,
            forall|i: int|
                0 <= i < bodies@.len() ==> r.0.x - r.1 / 2 < #[trigger] bodies@[i].position.x
                    < r.0.x + r.1 / 2 && r.0.y - r.1 / 2 < bodies@[i].position.y < r.0.y + r.1
                    / 2,
    {
        proof {
            lemma_minmax(bodies@);
        }
        let mut lo_x: i64 = bodies[0].position.x;
        let mut hi_x: i64 = bodies[0].position.x;
        let mut lo_y: i64 = bodies[0].position.y;
        let mut hi_y: i64 = bodies[0].position.y;
        let mut i: usize = 1;
        while i < bodies.len()
            invariant
                1 <= i <= bodies@.len(),
                valid_bodies(bodies@),
                bodies@.len() >= 1,
                lo_x == min_x(bodies@.take(i as int)),
                hi_x == max_x(bodies@.take(i as int)),
                lo_y == min_y(bodies@.take(i as int)),
                hi_y == max_y(bodies@.take(i as int)),
                -POS_LIMIT <= lo_x <= POS_LIMIT,
                -POS_LIMIT <= hi_x <= POS_LIMIT,
                -POS_LIMIT <= lo_y <= POS_LIMIT,
                -POS_LIMIT <= hi_y <= POS_LIMIT,
            decreases bodies@.len() - i,
        {
            let b = bodies[i];
            proof {
                assert(bodies@.take(i as int + 1).drop_last() =~= bodies@.take(i as int));
                assert(bodies@.take(i as int + 1).last() == bodies@[i as int]);
                assert(valid_body(bodies@[i as int]));
            }
            if b.position.x < lo_x {
                lo_x = b.position.x;
            }
            if b.position.x > hi_x {
                hi_x = b.position.x;
            }
            if b.position.y < lo_y {
                lo_y = b.position.y;
            }
            if b.position.y > hi_y {
                hi_y = b.position.y;
            }
            i += 1;
        }
        proof {
            assert(bodies@.take(bodies@.len() as int) =~= bodies@);
        }
        let cx: i64 = tdiv_i128(lo_x as i128 + hi_x as i128, 2) as i64;
        let cy: i64 = tdiv_i128(lo_y as i128 + hi_y as i128, 2) as i64;
        proof {
            crate::num::lemma_tdiv_abs_le(lo_x + hi_x, 2, 2 * POS_LIMIT);
            crate::num::lemma_tdiv_abs_le(lo_y + hi_y, 2, 2 * POS_LIMIT);
        }
        let hx: i64 = if hi_x - cx >= cx - lo_x {
            hi_x - cx
        } else {
            cx - lo_x
        };
        let hy: i64 = if hi_y - cy >= cy - lo_y {
            hi_y - cy
        } else {
            cy - lo_y
        };
        let half: i64 = if hx >= hy {
            hx + 1
        } else {
            hy + 1
        };
        let side: i64 = 2 * half;
        proof {
            vstd::arithmetic::div_mod::lemma_div_multiples_vanish(half as int, 2);
            assert(side as int / 2 == half as int);
        }
        (Vec2 { x: cx, y: cy }, side)
    }

    /// Rebuild the tree wholesale: a fresh bounding region and a fresh root
    /// populated by inserting every body in index order.  Afterwards the
    /// root's aggregates are exactly the sums over all bodies.
    pub fn update(&mut self, bodies: &Vec<Body>)
        requires
            wf_tree(*old(self)),
            bodies@.len() >= 1,
            valid_bodies(bodies@),
        ensures
            wf_tree(*final(self)),
            final(self).theta_num == old(self).theta_num,
            final(self).theta_den == old(self).theta_den,
            final(self).center.x == region_center_x(bodies@),
            final(self).center.y == region_center_y(bodies@),
            final(self).side == region_side(bodies@),
            final(self).root.model() == build_model(
                particles(bodies@),
                region_center_x(bodies@),
                region_center_y(bodies@),
                region_side(bodies@),
            ),
            members(final(self).root).to_multiset() == particles(bodies@).to_multiset(),
            final(self).root.total_mass == mass_sum(particles(bodies@)),
            final(self).root.mps_x == wsum_x(particles(bodies@)),
            final(self).root.mps_y == wsum_y(particles(bodies@)),
    {
        let (center, side) = Self::compute_area(bodies);
        self.center = center;
        self.side = side;
        self.root = Quadrant::empty();
        let ghost ps = particles(bodies@);
        proof {
            assert(members(self.root).to_multiset() =~= ps.take(0).to_multiset());
            assert(ps.take(0) =~= Seq::<Particle>::empty());
            assert(all_valid(ps)) by {
                assert(forall|i: int| 0 <= i < ps.len() ==> valid_body(#[trigger] bodies@[i]));
            }
            lemma_sums_bounds(ps);
            vstd::arithmetic::mul::lemma_mul_inequality(
                ps.len() as int,
                COUNT_MAX as int,
                MASS_MAX as int,
            );
        }
        let mut i: usize = 0;
        while i < bodies.len()
            invariant
                0 <= i <= bodies@.len(),
                valid_bodies(bodies@),
                ps == particles(bodies@),
                ps.len() == bodies@.len(),
                mass_sum(ps) <= TOTAL_MASS_CAP,
                all_valid(ps),
                self.center == center,
                self.side == side,
                self.theta_num == old(self).theta_num,
                self.theta_den == old(self).theta_den,
                0 <= side,
                iabs(center.x as int) + side <= GEOM_CAP,
                iabs(center.y as int) + side <= GEOM_CAP,
                wf_quad(self.root),
                depth_ok(self.root, MAX_DEPTH as nat),
                self.root.model() == build_model(
                    ps.take(i as int),
                    center.x as int,
                    center.y as int,
                    side as int,
                ),
                members(self.root).to_multiset() == ps.take(i as int).to_multiset(),
                self.root.total_mass == mass_sum(ps.take(i as int)),
                self.root.mps_x == wsum_x(ps.take(i as int)),
                self.root.mps_y == wsum_y(ps.take(i as int)),
            decreases bodies@.len() - i,
        {
            let b = bodies[i];
            let p = Particle { id: i, mass: b.mass, pos: b.position };
            proof {
                assert(p == ps[i as int]);
                assert(valid_particle(p));
                assert(ps.take(i as int + 1).drop_last() =~= ps.take(i as int));
                assert(ps.take(i as int + 1).last() == p);
                assert(ps.take(i as int + 1) =~= ps.take(i as int).push(p));
                assert(ps =~= ps.take(i as int + 1) + ps.skip(i as int + 1));
                crate::quadtree::lemma_sums_concat(ps.take(i as int + 1), ps.skip(i as int + 1));
                assert(all_valid(ps.take(i as int + 1))) by {
                    assert(forall|j: int|
                        0 <= j < i + 1 ==> ps.take(i as int + 1)[j] == #[trigger] ps[j]);
                }
                assert(all_valid(ps.skip(i as int + 1))) by {
                    assert(forall|j: int|
                        0 <= j < ps.len() - (i + 1) ==> ps.skip(i as int + 1)[j]
                            == #[trigger] ps[j + i + 1]);
                }
                lemma_sums_bounds(ps.take(i as int + 1));
                lemma_sums_bounds(ps.skip(i as int + 1));
            }
            self.root.insert(p, center.x, center.y, side, MAX_DEPTH);
            i += 1;
        }
        proof {
            assert(ps.take(ps.len() as int) =~= ps);
        }
    }

    /// Read-only introspection for a renderer: every node of the tree with
    /// its square, whether it is subdivided, and its aggregates, in a fixed
    /// depth-first order.
    pub fn visualize(&self) -> (out: Vec<NodeView>)
        requires
            wf_tree(*self),
        ensures
            out@ == viz_spec(
                self.root,
                self.center.x as int,
                self.center.y as int,
                self.side as int,
            ),
    {
        let mut out: Vec<NodeView> = Vec::new();
        viz_into(&self.root, self.center.x, self.center.y, self.side, &mut out);
        proof {
            assert(out@ =~= viz_spec(
                self.root,
                self.center.x as int,
                self.center.y as int,
                self.side as int,
            ));
        }
        out
    }
}

/// The introspection output of a subtree placed at the given square.
pub open spec fn viz_spec(q: Quadrant, cx: int, cy: int, side: int) -> Seq<NodeView>
    decreases q,
{
    let here = NodeView {
        cx: cx as i64,
        cy: cy as i64,
        side: side as i64,
        internal: q.kids is Four,
        total_mass: q.total_mass,
        mps_x: q.mps_x,
        mps_y: q.mps_y,
    };
    match q.kids {
        Kids::Leaf(ms) => seq![here],
        Kids::Four(ch) => {
            let off = (side / 2) / 2;
            seq![here] + viz_spec(ch.q0, cx - off, cy - off, side / 2) + viz_spec(
                ch.q1,
                cx + off,
                cy - off,
                side / 2,
            ) + viz_spec(ch.q2, cx - off, cy + off, side / 2) + viz_spec(
                ch.q3,
                cx + off,
                cy + off,
                side / 2,
            )
        },
    }
}

fn viz_into(q: &Quadrant, cx: i64, cy: i64, side: i64, out: &mut Vec<NodeView>)
    requires
        0 <= side,
        iabs(cx as int) + side <= GEOM_CAP,
        iabs(cy as int) + side <= GEOM_CAP,
    ensures
        final(out)@ == old(out)@ + viz_spec(*q, cx as int, cy as int, side as int),
    decreases *q,
{
    let here = NodeView {
        cx,
        cy,
        side,
        internal: match &q.kids {
            Kids::Leaf(_) => false,
            Kids::Four(_) => true,
        },
        total_mass: q.total_mass,
        mps_x: q.mps_x,
        mps_y: q.mps_y,
    };
    out.push(here);
    match &q.kids {
        Kids::Leaf(_) => {
            proof {
                assert(out@ =~= old(out)@ + viz_spec(*q, cx as int, cy as int, side as int));
            }
        },
        Kids::Four(ch) => {
            proof {
                crate::quadtree::lemma_child_geom(cx as int, side as int);
                crate::quadtree::lemma_child_geom(cy as int, side as int);
            }
            let hs: i64 = side / 2;
            let off: i64 = hs / 2;
            viz_into(&ch.q0, cx - off, cy - off, hs, out);
            viz_into(&ch.q1, cx + off, cy - off, hs, out);
            viz_into(&ch.q2, cx - off, cy + off, hs, out);
            viz_into(&ch.q3, cx + off, cy + off, hs, out);
            proof {
                let off_i = (side as int / 2) / 2;
                assert(out@ =~= old(out)@ + (seq![here] + viz_spec(
                    ch.q0,
                    cx - off_i,
                    cy - off_i,
                    side as int / 2,
                ) + viz_spec(ch.q1, cx + off_i, cy - off_i, side as int / 2) + viz_spec(
                    ch.q2,
                    cx - off_i,
                    cy + off_i,
                    side as int / 2,
                ) + viz_spec(ch.q3, cx + off_i, cy + off_i, side as int / 2)));
            }
        },
    }
}

} // verus!
