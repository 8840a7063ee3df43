//! The Barnes-Hut quadrant tree: a recursive spatial partition whose every
//! node aggregates the total mass and the mass-weighted position sum of the
//! particles below it.
//!
//! Subdivision is depth-limited: past the limit a terminal leaf stores all
//! the particles that reach it, so construction terminates even for
//! coincident bodies (the unbounded recursion of a pure one-body-per-leaf
//! scheme is deliberately avoided).

use vstd::prelude::*;
use crate::body::{Particle, valid_particle, MASS_MAX, POS_LIMIT, TOTAL_MASS_CAP};
use crate::num::iabs;

verus! {

broadcast use
    vstd::seq_lib::group_to_multiset_ensures,
    vstd::seq_lib::lemma_multiset_commutative;

/// Subdivision fuel given to a fresh root: no node sits more than this many
/// levels below the root.
pub const MAX_DEPTH: u64 = 64;

/// Bound on `|center coordinate| + side` of any region handed to the tree;
/// generous enough for every bounding square of valid bodies.
pub const GEOM_CAP: i64 = 16_000_000_000;

/// A tree node: mass aggregates plus either a terminal particle list or
/// four child quadrants.
pub struct Quadrant {
    pub total_mass: i64,
    pub mps_x: i128,
    pub mps_y: i128,
    pub kids: Kids,
}

pub enum Kids {
    Leaf(Vec<Particle>),
    Four(Box<Children>),
}

/// The four child quadrants: `q0` left-top, `q1` right-top, `q2`
/// left-bottom, `q3` right-bottom ("top" being the side of lesser `y`).
pub struct Children {
    pub q0: Quadrant,
    pub q1: Quadrant,
    pub q2: Quadrant,
    pub q3: Quadrant,
}

/// The mathematical model of a quadrant: the same shape with the derived
/// aggregates stripped.
pub enum TreeModel {
    Leaf(Seq<Particle>),
    Four(Box<TreeModel>, Box<TreeModel>, Box<TreeModel>, Box<TreeModel>),
}

impl Quadrant {
    /// The model of this node.
    pub open spec fn model(self) -> TreeModel
        decreases self,
    {
        match self.kids {
            Kids::Leaf(ms) => TreeModel::Leaf(ms@),
            Kids::Four(ch) => TreeModel::Four(
                Box::new(ch.q0.model()),
                Box::new(ch.q1.model()),
                Box::new(ch.q2.model()),
                Box::new(ch.q3.model()),
            ),
        }
    }
}

/// All particles stored below a node, children in quadrant order.
pub open spec fn members(q: Quadrant) -> Seq<Particle>
    decreases q,
{
    match q.kids {
        Kids::Leaf(ms) => ms@,
        Kids::Four(ch) => members(ch.q0) + members(ch.q1) + members(ch.q2) + members(ch.q3),
    }
}

/// All particles stored below a model node.
pub open spec fn model_members(t: TreeModel) -> Seq<Particle>
    decreases t,
{
    match t {
        TreeModel::Leaf(ms) => ms,
        TreeModel::Four(a, b, c, d) => model_members(*a) + model_members(*b) + model_members(*c)
            + model_members(*d),
    }
}

/// Sum of the masses of a particle sequence.
pub open spec fn mass_sum(s: Seq<Particle>) -> int
    decreases s.len(),
{
    if s.len() == 0 {
        0
    } else {
        mass_sum(s.drop_last()) + s.last().mass
    }
}

/// Sum of mass-weighted `x` positions.
pub open spec fn wsum_x(s: Seq<Particle>) -> int
    decreases s.len(),
{
    if s.len() == 0 {
        0
    } else {
        wsum_x(s.drop_last()) + s.last().mass * s.last().pos.x
    }
}

/// Sum of mass-weighted `y` positions.
pub open spec fn wsum_y(s: Seq<Particle>) -> int
    decreases s.len(),
{
    if s.len() == 0 {
        0
    } else {
        wsum_y(s.drop_last()) + s.last().mass * s.last().pos.y
    }
}

pub open spec fn all_valid(s: Seq<Particle>) -> bool {
    forall|i: int| 0 <= i < s.len() ==> valid_particle(#[trigger] s[i])
}

/// Well-formedness: at every node the aggregates are exactly the sums over
/// the subtree's particles, and all particles are valid.
pub open spec fn wf_quad(q: Quadrant) -> bool
    decreases q,
{
    &&& q.total_mass as int == mass_sum(members(q))
    &&& q.mps_x as int == wsum_x(members(q))
    &&& q.mps_y as int == wsum_y(members(q))
    &&& all_valid(members(q))
    &&& match q.kids {
        Kids::Leaf(ms) => true,
        Kids::Four(ch) => wf_quad(ch.q0) && wf_quad(ch.q1) && wf_quad(ch.q2) && wf_quad(ch.q3),
    }
}

/// Every internal node still has subdivision fuel left; leaves may sit at
/// fuel zero.
pub open spec fn depth_ok(q: Quadrant, fuel: nat) -> bool
    decreases q,
{
    match q.kids {
        Kids::Leaf(ms) => true,
        Kids::Four(ch) => fuel > 0 && depth_ok(ch.q0, (fuel - 1) as nat) && depth_ok(
            ch.q1,
            (fuel - 1) as nat,
        ) && depth_ok(ch.q2, (fuel - 1) as nat) && depth_ok(ch.q3, (fuel - 1) as nat),
    }
}

/// Concatenation splits each of the three sums.
pub proof fn lemma_sums_concat(a: Seq<Particle>, b: Seq<Particle>)
    ensures
        mass_sum(a + b) == mass_sum(a) + mass_sum(b),
        wsum_x(a + b) == wsum_x(a) + wsum_x(b),
        wsum_y(a + b) == wsum_y(a) + wsum_y(b),
    decreases b.len(),
{
    if b.len() == 0 {
        assert(a + b =~= a);
    } else {
        lemma_sums_concat(a, b.drop_last());
        assert((a + b).drop_last() =~= a + b.drop_last());
        assert((a + b).last() == b.last());
    }
}

/// Bounds on the sums of a valid particle sequence.
pub proof fn lemma_sums_bounds(s: Seq<Particle>)
    requires
        all_valid(s),
    ensures
        0 <= mass_sum(s) <= s.len() * MASS_MAX,
        s.len() <= mass_sum(s),
        iabs(wsum_x(s)) <= mass_sum(s) * POS_LIMIT,
        iabs(wsum_y(s)) <= mass_sum(s) * POS_LIMIT,
    decreases s.len(),
{
    if s.len() == 0 {
    } else {
        assert(all_valid(s.drop_last())) by {
            assert(forall|i: int| 0 <= i < s.len() - 1 ==> s.drop_last()[i] == #[trigger] s[i]);
        }
        lemma_sums_bounds(s.drop_last());
        let p = s.last();
        assert(valid_particle(p));
        crate::num::lemma_abs_mul_le(p.mass as int, p.pos.x as int, p.mass as int, POS_LIMIT as int);
        crate::num::lemma_abs_mul_le(p.mass as int, p.pos.y as int, p.mass as int, POS_LIMIT as int);
        assert((s.len() - 1) * MASS_MAX + MASS_MAX == s.len() * MASS_MAX) by (nonlinear_arith);
        assert(iabs(wsum_x(s.drop_last()) + p.mass * p.pos.x)
            <= mass_sum(s.drop_last()) * POS_LIMIT + p.mass * POS_LIMIT);
        assert(mass_sum(s.drop_last()) * POS_LIMIT + p.mass * POS_LIMIT
            == (mass_sum(s.drop_last()) + p.mass) * POS_LIMIT) by (nonlinear_arith);
    }
}

/// A node's members and model members agree.
pub proof fn lemma_members_model(q: Quadrant)
    ensures
        model_members(q.model()) == members(q),
    decreases q,
{
    match q.kids {
        Kids::Leaf(ms) => {
        },
        Kids::Four(ch) => {
            lemma_members_model(ch.q0);
            lemma_members_model(ch.q1);
            lemma_members_model(ch.q2);
            lemma_members_model(ch.q3);
        },
    }
}

/// Well-formedness pins the aggregates of a node as a function of its
/// model: two well-formed nodes with equal models have equal aggregates,
/// at the root and (by recursing into equal models) at every matching node.
pub proof fn lemma_wf_aggregates_from_model(a: Quadrant, b: Quadrant)
    requires
        wf_quad(a),
        wf_quad(b),
        a.model() == b.model(),
    ensures
        a.total_mass == b.total_mass,
        a.mps_x == b.mps_x,
        a.mps_y == b.mps_y,
        members(a) == members(b),
    decreases a,
{
    lemma_members_model(a);
    lemma_members_model(b);
}

/// Selecting the child quadrant for a particle: strictly greater
/// coordinates go right respectively bottom.
pub open spec fn child_index(p: Particle, cx: int, cy: int) -> int {
    (if p.pos.x > cx {
        1int
    } else {
        0int
    }) + (if p.pos.y > cy {
        2int
    } else {
        0int
    })
}

/// Centre `x` of the child region: offset by a quarter side.
pub open spec fn child_cx(cx: int, side: int, p: Particle) -> int {
    if p.pos.x > cx {
        cx + (side / 2) / 2
    } else {
        cx - (side / 2) / 2
    }
}

pub open spec fn child_cy(cy: int, side: int, p: Particle) -> int {
    if p.pos.y > cy {
        cy + (side / 2) / 2
    } else {
        cy - (side / 2) / 2
    }
}

pub open spec fn empty_model() -> TreeModel {
    TreeModel::Leaf(Seq::empty())
}

/// Insertion into the model tree, mirroring the executable insertion
/// exactly: aggregates are derived, so only structure and particle order
/// appear here.
pub open spec fn insert_model(t: TreeModel, p: Particle, cx: int, cy: int, side: int, fuel: nat) -> TreeModel
    decreases fuel, 1nat, 0nat,
{
    match t {
        TreeModel::Leaf(ms) => {
            if ms.len() == 0 || fuel == 0 {
                TreeModel::Leaf(ms.push(p))
            } else {
                four_model(insert_each_model(
                    (empty_model(), empty_model(), empty_model(), empty_model()),
                    ms.push(p),
                    cx,
                    cy,
                    side,
                    fuel,
                ))
            }
        },
        TreeModel::Four(a, b, c, d) => {
            if fuel == 0 {
                t
            } else {
                four_model(step_model((*a, *b, *c, *d), p, cx, cy, side, fuel))
            }
        },
    }
}

pub open spec fn four_model(c: (TreeModel, TreeModel, TreeModel, TreeModel)) -> TreeModel {
    TreeModel::Four(Box::new(c.0), Box::new(c.1), Box::new(c.2), Box::new(c.3))
}

/// Route one particle into the child picked by `child_index`, with one
/// fuel unit spent on the descent.
pub open spec fn step_model(
    c: (TreeModel, TreeModel, TreeModel, TreeModel),
    p: Particle,
    cx: int,
    cy: int,
    side: int,
    fuel: nat,
) -> (TreeModel, TreeModel, TreeModel, TreeModel)
    decreases fuel, 0nat, 0nat,
{
    if fuel == 0 {
        c
    } else {
        let idx = child_index(p, cx, cy);
        let ccx = child_cx(cx, side, p);
        let ccy = child_cy(cy, side, p);
        let f1 = (fuel - 1) as nat;
        if idx == 0 {
            (insert_model(c.0, p, ccx, ccy, side / 2, f1), c.1, c.2, c.3)
        } else if idx == 1 {
            (c.0, insert_model(c.1, p, ccx, ccy, side / 2, f1), c.2, c.3)
        } else if idx == 2 {
            (c.0, c.1, insert_model(c.2, p, ccx, ccy, side / 2, f1), c.3)
        } else {
            (c.0, c.1, c.2, insert_model(c.3, p, ccx, ccy, side / 2, f1))
        }
    }
}

/// Route a whole sequence of particles, first to last.
pub open spec fn insert_each_model(
    c: (TreeModel, TreeModel, TreeModel, TreeModel),
    s: Seq<Particle>,
    cx: int,
    cy: int,
    side: int,
    fuel: nat,
) -> (TreeModel, TreeModel, TreeModel, TreeModel)
    decreases fuel, 0nat, s.len(),
{
    if s.len() == 0 {
        c
    } else {
        step_model(insert_each_model(c, s.drop_last(), cx, cy, side, fuel), s.last(), cx, cy, side, fuel)
    }
}

/// The children of a node known to be internal.
pub open spec fn kids4(q: Quadrant) -> Children
    recommends
        q.kids is Four,
{
    match q.kids {
        Kids::Four(ch) => *ch,
        Kids::Leaf(_) => vstd::pervasive::arbitrary(),
    }
}

/// The models of four children as a tuple.
pub open spec fn cmodels(ch: Children) -> (TreeModel, TreeModel, TreeModel, TreeModel) {
    (ch.q0.model(), ch.q1.model(), ch.q2.model(), ch.q3.model())
}

/// Validity of every particle distributes over concatenation.
pub proof fn lemma_all_valid_concat(a: Seq<Particle>, b: Seq<Particle>)
    requires
        all_valid(a),
        all_valid(b),
    ensures
        all_valid(a + b),
{
    assert forall|i: int| 0 <= i < (a + b).len() implies valid_particle(#[trigger] (a + b)[i]) by {
        if i < a.len() {
            assert((a + b)[i] == a[i]);
        } else {
            assert((a + b)[i] == b[i - a.len()]);
        }
    }
}

/// Geometry of a child region stays within the cap.
pub proof fn lemma_child_geom(c: int, side: int)
    requires
        0 <= side,
        iabs(c) + side <= GEOM_CAP,
    ensures
        0 <= side / 2,
        iabs(c + (side / 2) / 2) + side / 2 <= GEOM_CAP,
        iabs(c - (side / 2) / 2) + side / 2 <= GEOM_CAP,
{
    let h = side / 2;
    vstd::arithmetic::div_mod::lemma_fundamental_div_mod(side, 2);
    vstd::arithmetic::div_mod::lemma_mod_bound(side, 2);
    vstd::arithmetic::div_mod::lemma_div_pos_is_pos(side, 2);
    vstd::arithmetic::div_mod::lemma_fundamental_div_mod(h, 2);
    vstd::arithmetic::div_mod::lemma_mod_bound(h, 2);
    vstd::arithmetic::div_mod::lemma_div_pos_is_pos(h, 2);
}

impl Quadrant {
    /// A fresh empty leaf.
    pub fn empty() -> (q: Quadrant)
        ensures
            q.total_mass == 0,
            q.mps_x == 0,
            q.mps_y == 0,
            q.model() == empty_model(),
            members(q) == Seq::<Particle>::empty(),
            wf_quad(q),
            forall|fuel: nat| depth_ok(q, fuel),
    {
        let q = Quadrant { total_mass: 0, mps_x: 0, mps_y: 0, kids: Kids::Leaf(Vec::new()) };
        proof {
            assert(members(q) =~= Seq::<Particle>::empty());
            assert(q.model() == empty_model());
        }
        q
    }

    /// Insert one particle, descending from this node.  Every node on the
    /// path absorbs the particle's mass and mass-weighted position exactly
    /// once; an occupied leaf with fuel left subdivides and re-routes its
    /// residents together with the new particle.
    pub fn insert(&mut self, p: Particle, cx: i64, cy: i64, side: i64, fuel: u64)
        requires
            wf_quad(*old(self)),
            depth_ok(*old(self), fuel as nat),
            valid_particle(p),
            old(self).total_mass + p.mass <= TOTAL_MASS_CAP,
            0 <= side,
            iabs(cx as int) + side <= GEOM_CAP,
            iabs(cy as int) + side <= GEOM_CAP,
        ensures
            final(self).model() == insert_model(
                old(self).model(),
                p,
                cx as int,
                cy as int,
                side as int,
                fuel as nat,
            ),
            wf_quad(*final(self)),
            depth_ok(*final(self), fuel as nat),
            members(*final(self)).to_multiset() == members(*old(self)).to_multiset().insert(p),
            final(self).total_mass == old(self).total_mass + p.mass,
            final(self).mps_x == old(self).mps_x + p.mass * p.pos.x,
            final(self).mps_y == old(self).mps_y + p.mass * p.pos.y,
        decreases fuel,
    {
        let ghost q_in = *self;
        let ghost oms = members(*self);
        proof {
            lemma_sums_bounds(oms);
            vstd::arithmetic::mul::lemma_mul_inequality(
                mass_sum(oms),
                TOTAL_MASS_CAP as int,
                POS_LIMIT as int,
            );
            crate::num::lemma_abs_mul_le(p.mass as int, p.pos.x as int, p.mass as int, POS_LIMIT as int);
            crate::num::lemma_abs_mul_le(p.mass as int, p.pos.y as int, p.mass as int, POS_LIMIT as int);
        }
        self.total_mass = self.total_mass + p.mass;
        self.mps_x = self.mps_x + (p.mass as i128) * (p.pos.x as i128);
        self.mps_y = self.mps_y + (p.mass as i128) * (p.pos.y as i128);

        let subdivide: bool = fuel > 0 && (match &self.kids {
            Kids::Leaf(v) => v.len() > 0,
            Kids::Four(_) => false,
        });
        if subdivide {
            let mut taken = Kids::Four(
                Box::new(
                    Children {
                        q0: Quadrant::empty(),
                        q1: Quadrant::empty(),
                        q2: Quadrant::empty(),
                        q3: Quadrant::empty(),
                    },
                ),
            );
            core::mem::swap(&mut self.kids, &mut taken);
            let mut all: Vec<Particle> = match taken {
                Kids::Leaf(v) => v,
                Kids::Four(_) => Vec::new(),
            };
            all.push(p);
            proof {
                assert(all@ == oms.push(p));
                assert(all@.drop_last() =~= oms);
                assert(mass_sum(all@) == q_in.total_mass + p.mass);
                assert(wsum_x(all@) == q_in.mps_x + p.mass * p.pos.x);
                assert(wsum_y(all@) == q_in.mps_y + p.mass * p.pos.y);
                assert(all_valid(all@)) by {
                    assert(forall|i: int| 0 <= i < oms.len() ==> all@[i] == #[trigger] oms[i]);
                }
            }
            let ghost target = insert_each_model(
                (empty_model(), empty_model(), empty_model(), empty_model()),
                all@,
                cx as int,
                cy as int,
                side as int,
                fuel as nat,
            );
            let mut k: usize = 0;
            while k < all.len()
                invariant
                    0 <= k <= all@.len(),
                    fuel > 0,
                    0 <= side,
                    iabs(cx as int) + side <= GEOM_CAP,
                    iabs(cy as int) + side <= GEOM_CAP,
                    all_valid(all@),
                    mass_sum(all@) <= TOTAL_MASS_CAP,
                    self.kids is Four,
                    self.total_mass == q_in.total_mass + p.mass,
                    self.mps_x == q_in.mps_x + p.mass * p.pos.x,
                    self.mps_y == q_in.mps_y + p.mass * p.pos.y,
                    cmodels(kids4(*self)) == insert_each_model(
                        (empty_model(), empty_model(), empty_model(), empty_model()),
                        all@.take(k as int),
                        cx as int,
                        cy as int,
                        side as int,
                        fuel as nat,
                    ),
                    wf_quad(kids4(*self).q0),
                    wf_quad(kids4(*self).q1),
                    wf_quad(kids4(*self).q2),
                    wf_quad(kids4(*self).q3),
                    depth_ok(kids4(*self).q0, (fuel - 1) as nat),
                    depth_ok(kids4(*self).q1, (fuel - 1) as nat),
                    depth_ok(kids4(*self).q2, (fuel - 1) as nat),
                    depth_ok(kids4(*self).q3, (fuel - 1) as nat),
                    kids4(*self).q0.total_mass + kids4(*self).q1.total_mass + kids4(
                        *self,
                    ).q2.total_mass + kids4(*self).q3.total_mass == mass_sum(all@.take(k as int)),
                    (members(kids4(*self).q0) + members(kids4(*self).q1) + members(kids4(*self).q2)
                        + members(kids4(*self).q3)).to_multiset() == all@.take(
                        k as int,
                    ).to_multiset(),
                decreases all@.len() - k,
            {
                let q = all[k];
                proof {
                    assert(all@.take(k as int + 1) =~= all@.take(k as int).push(q));
                    assert(all@ =~= all@.take(k as int + 1) + all@.skip(k as int + 1));
                    lemma_sums_concat(all@.take(k as int + 1), all@.skip(k as int + 1));
                    assert(all_valid(all@.take(k as int + 1))) by {
                        assert(forall|i: int|
                            0 <= i < k + 1 ==> all@.take(k as int + 1)[i] == #[trigger] all@[i]);
                    }
                    assert(all_valid(all@.skip(k as int + 1))) by {
                        assert(forall|i: int|
                            0 <= i < all@.len() - (k + 1) ==> all@.skip(k as int + 1)[i]
                                == #[trigger] all@[i + k + 1]);
                    }
                    lemma_sums_bounds(all@.take(k as int + 1));
                    lemma_sums_bounds(all@.skip(k as int + 1));
                    lemma_sums_bounds(all@.take(k as int));
                    assert((all@.take(k as int).push(q)).drop_last() =~= all@.take(k as int));
                    assert(mass_sum(all@.take(k as int + 1)) == mass_sum(all@.take(k as int))
                        + q.mass);
                    let chq = kids4(*self);
                    lemma_sums_bounds(members(chq.q0));
                    lemma_sums_bounds(members(chq.q1));
                    lemma_sums_bounds(members(chq.q2));
                    lemma_sums_bounds(members(chq.q3));
                    lemma_child_geom(cx as int, side as int);
                    lemma_child_geom(cy as int, side as int);
                }
                let ns: i64 = side / 2;
                let half: i64 = ns / 2;
                let ccx: i64 = if q.pos.x > cx {
                    cx + half
                } else {
                    cx - half
                };
                let ccy: i64 = if q.pos.y > cy {
                    cy + half
                } else {
                    cy - half
                };
                let ghost pre = kids4(*self);
                match &mut self.kids {
                    Kids::Four(ch) => {
                        if q.pos.x <= cx && q.pos.y <= cy {
                            ch.q0.insert(q, ccx, ccy, ns, fuel - 1);
                        } else if q.pos.x > cx && q.pos.y <= cy {
                            ch.q1.insert(q, ccx, ccy, ns, fuel - 1);
                        } else if q.pos.x <= cx {
                            ch.q2.insert(q, ccx, ccy, ns, fuel - 1);
                        } else {
                            ch.q3.insert(q, ccx, ccy, ns, fuel - 1);
                        }
                    },
                    Kids::Leaf(_) => {
                    },
                }
                proof {
                    let post = kids4(*self);
                    assert(cmodels(post) == step_model(
                        cmodels(pre),
                        q,
                        cx as int,
                        cy as int,
                        side as int,
                        fuel as nat,
                    ));
                    assert(insert_each_model(
                        (empty_model(), empty_model(), empty_model(), empty_model()),
                        all@.take(k as int + 1),
                        cx as int,
                        cy as int,
                        side as int,
                        fuel as nat,
                    ) == step_model(
                        cmodels(pre),
                        q,
                        cx as int,
                        cy as int,
                        side as int,
                        fuel as nat,
                    )) by {
                        assert(all@.take(k as int + 1).drop_last() =~= all@.take(k as int));
                        assert(all@.take(k as int + 1).last() == q);
                    }
                    assert((members(post.q0) + members(post.q1) + members(post.q2) + members(
                        post.q3,
                    )).to_multiset() =~= all@.take(k as int + 1).to_multiset());
                    assert(mass_sum(all@.take(k as int + 1)) == mass_sum(all@.take(k as int))
                        + q.mass);
                }
                k = k + 1;
            }
            proof {
                assert(all@.take(all@.len() as int) =~= all@);
                let ch = kids4(*self);
                let fm = members(ch.q0) + members(ch.q1) + members(ch.q2) + members(ch.q3);
                assert(members(*self) == fm);
                lemma_sums_concat(members(ch.q0), members(ch.q1));
                lemma_sums_concat(members(ch.q0) + members(ch.q1), members(ch.q2));
                lemma_sums_concat(
                    members(ch.q0) + members(ch.q1) + members(ch.q2),
                    members(ch.q3),
                );
                assert(fm.to_multiset() == all@.to_multiset());
                assert(mass_sum(fm) == mass_sum(all@)) by {
                    lemma_mass_sum_permutation(fm, all@);
                }
                assert(wsum_x(fm) == wsum_x(all@) && wsum_y(fm) == wsum_y(all@)) by {
                    lemma_wsum_permutation(fm, all@);
                }
                assert(all_valid(fm)) by {
                    lemma_all_valid_concat(members(ch.q0), members(ch.q1));
                    lemma_all_valid_concat(members(ch.q0) + members(ch.q1), members(ch.q2));
                    lemma_all_valid_concat(
                        members(ch.q0) + members(ch.q1) + members(ch.q2),
                        members(ch.q3),
                    );
                }
                assert(members(*self).to_multiset() == oms.to_multiset().insert(p));
            }
        } else {
            match &mut self.kids {
                Kids::Leaf(v) => {
                    v.push(p);
                    proof {
                        assert(members(*self) == v@);
                        assert(v@.drop_last() =~= oms);
                        assert(all_valid(v@)) by {
                            assert(forall|i: int|
                                0 <= i < oms.len() ==> v@[i] == #[trigger] oms[i]);
                        }
                    }
                },
                Kids::Four(ch) => {
                    proof {
                        assert(fuel > 0);
                        assert(q_in.kids is Four);
                        assert(kids4(q_in) == **ch);
                        assert(wf_quad((**ch).q0) && wf_quad((**ch).q1) && wf_quad((**ch).q2)
                            && wf_quad((**ch).q3));
                        lemma_sums_concat(members(ch.q0), members(ch.q1));
                        lemma_sums_concat(members(ch.q0) + members(ch.q1), members(ch.q2));
                        lemma_sums_concat(
                            members(ch.q0) + members(ch.q1) + members(ch.q2),
                            members(ch.q3),
                        );
                        lemma_sums_bounds(members(ch.q0));
                        lemma_sums_bounds(members(ch.q1));
                        lemma_sums_bounds(members(ch.q2));
                        lemma_sums_bounds(members(ch.q3));
                        lemma_child_geom(cx as int, side as int);
                        lemma_child_geom(cy as int, side as int);
                    }
                    let ns: i64 = side / 2;
                    let half: i64 = ns / 2;
                    let ccx: i64 = if p.pos.x > cx {
                        cx + half
                    } else {
                        cx - half
                    };
                    let ccy: i64 = if p.pos.y > cy {
                        cy + half
                    } else {
                        cy - half
                    };
                    let ghost pre = **ch;
                    if p.pos.x <= cx && p.pos.y <= cy {
                        ch.q0.insert(p, ccx, ccy, ns, fuel - 1);
                    } else if p.pos.x > cx && p.pos.y <= cy {
                        ch.q1.insert(p, ccx, ccy, ns, fuel - 1);
                    } else if p.pos.x <= cx {
                        ch.q2.insert(p, ccx, ccy, ns, fuel - 1);
                    } else {
                        ch.q3.insert(p, ccx, ccy, ns, fuel - 1);
                    }
                    proof {
                        let post = kids4(*self);
                        assert(cmodels(post) == step_model(
                            cmodels(pre),
                            p,
                            cx as int,
                            cy as int,
                            side as int,
                            fuel as nat,
                        ));
                        let fm = members(post.q0) + members(post.q1) + members(post.q2)
                            + members(post.q3);
                        assert(members(*self) == fm);
                        lemma_sums_concat(members(post.q0), members(post.q1));
                        lemma_sums_concat(members(post.q0) + members(post.q1), members(post.q2));
                        lemma_sums_concat(
                            members(post.q0) + members(post.q1) + members(post.q2),
                            members(post.q3),
                        );
                        lemma_all_valid_concat(members(post.q0), members(post.q1));
                        lemma_all_valid_concat(
                            members(post.q0) + members(post.q1),
                            members(post.q2),
                        );
                        lemma_all_valid_concat(
                            members(post.q0) + members(post.q1) + members(post.q2),
                            members(post.q3),
                        );
                        assert(fm.to_multiset() =~= members(q_in).to_multiset().insert(p));
                    }
                },
            }
        }
    }
}

/// Two particle sequences with the same multiset have the same mass sum.
pub proof fn lemma_mass_sum_permutation(a: Seq<Particle>, b: Seq<Particle>)
    requires
        a.to_multiset() == b.to_multiset(),
    ensures
        mass_sum(a) == mass_sum(b),
{
    let f = |p: Particle, acc: int| acc + p.mass;
    lemma_mass_sum_is_fold(a);
    lemma_mass_sum_is_fold(b);
    vstd::seq_lib::lemma_fold_right_permutation(a, b, f, 0);
}

proof fn lemma_mass_sum_is_fold(s: Seq<Particle>)
    ensures
        mass_sum(s) == s.fold_right(|p: Particle, acc: int| acc + p.mass, 0),
    decreases s.len(),
{
    let f = |p: Particle, acc: int| acc + p.mass;
    if s.len() > 0 {
        lemma_mass_sum_is_fold(s.drop_last());
        lemma_fold_right_offset_mass(s.drop_last(), s.last().mass as int);
    }
}

proof fn lemma_fold_right_offset_mass(s: Seq<Particle>, v: int)
    ensures
        s.fold_right(|p: Particle, acc: int| acc + p.mass, v) == s.fold_right(
            |p: Particle, acc: int| acc + p.mass,
            0,
        ) + v,
    decreases s.len(),
{
    if s.len() > 0 {
        lemma_fold_right_offset_mass(s.drop_last(), v + s.last().mass);
        lemma_fold_right_offset_mass(s.drop_last(), s.last().mass as int);
    }
}

/// Two particle sequences with the same multiset have the same weighted
/// position sums.
pub proof fn lemma_wsum_permutation(a: Seq<Particle>, b: Seq<Particle>)
    requires
        a.to_multiset() == b.to_multiset(),
    ensures
        wsum_x(a) == wsum_x(b),
        wsum_y(a) == wsum_y(b),
{
    let fx = |p: Particle, acc: int| acc + p.mass * p.pos.x;
    let fy = |p: Particle, acc: int| acc + p.mass * p.pos.y;
    lemma_wsum_is_fold(a);
    lemma_wsum_is_fold(b);
    vstd::seq_lib::lemma_fold_right_permutation(a, b, fx, 0);
    vstd::seq_lib::lemma_fold_right_permutation(a, b, fy, 0);
}

proof fn lemma_wsum_is_fold(s: Seq<Particle>)
    ensures
        wsum_x(s) == s.fold_right(|p: Particle, acc: int| acc + p.mass * p.pos.x, 0),
        wsum_y(s) == s.fold_right(|p: Particle, acc: int| acc + p.mass * p.pos.y, 0),
    decreases s.len(),
{
    if s.len() > 0 {
        lemma_wsum_is_fold(s.drop_last());
        lemma_fold_right_offset_wx(s.drop_last(), s.last().mass * s.last().pos.x);
        lemma_fold_right_offset_wy(s.drop_last(), s.last().mass * s.last().pos.y);
    }
}

proof fn lemma_fold_right_offset_wx(s: Seq<Particle>, v: int)
    ensures
        s.fold_right(|p: Particle, acc: int| acc + p.mass * p.pos.x, v) == s.fold_right(
            |p: Particle, acc: int| acc + p.mass * p.pos.x,
            0,
        ) + v,
    decreases s.len(),
{
    if s.len() > 0 {
        lemma_fold_right_offset_wx(s.drop_last(), v + s.last().mass * s.last().pos.x);
        lemma_fold_right_offset_wx(s.drop_last(), s.last().mass * s.last().pos.x);
    }
}

proof fn lemma_fold_right_offset_wy(s: Seq<Particle>, v: int)
    ensures
        s.fold_right(|p: Particle, acc: int| acc + p.mass * p.pos.y, v) == s.fold_right(
            |p: Particle, acc: int| acc + p.mass * p.pos.y,
            0,
        ) + v,
    decreases s.len(),
{
    if s.len() > 0 {
        lemma_fold_right_offset_wy(s.drop_last(), v + s.last().mass * s.last().pos.y);
        lemma_fold_right_offset_wy(s.drop_last(), s.last().mass * s.last().pos.y);
    }
}

} // verus!
