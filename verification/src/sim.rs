//! One full simulation frame, composed from the verified passes in the
//! order the engine prescribes: bounding region and tree rebuild, force
//! accumulation with integration, then collision resolution over the same
//! tree.

use vstd::prelude::*;
use crate::body::{Body, SimConfig, valid_bodies, valid_config, particles, particle_at, integrate,
    bodies_all_valid, COUNT_MAX};
use crate::quadtree::{Quadrant, members};
use crate::tree::{QuadTree, wf_tree, region_center_x, region_center_y, region_side, build_model};
use crate::force::{tf_x, tf_y};
use crate::collision::{tc_outer, lemma_tree_matches_store};

verus! {

/// The body store after one gravitation pass against the given tree.
pub open spec fn gravitated(
    root: Quadrant,
    side: int,
    s: Seq<Body>,
    c: SimConfig,
    tn: int,
    td: int,
) -> Seq<Body> {
    Seq::new(
        s.len(),
        |i: int|
            integrate(
                s[i],
                tf_x(root, side, particle_at(s, i), c, tn, td),
                tf_y(root, side, particle_at(s, i), c, tn, td),
                c,
            ),
    )
}

impl QuadTree {
    /// One frame: with zero or one body nothing is done; otherwise the
    /// tree is rebuilt from the store, every body is advanced under its
    /// tree-approximated force, and, provided the advanced store is still
    /// inside the validity window, overlaps are resolved over the same
    /// tree.  Returns whether the full frame ran.
    pub fn step(&mut self, bodies: &mut Vec<Body>, cfg: &SimConfig) -> (stepped: bool)
        requires
            wf_tree(*old(self)),
            valid_bodies(old(bodies)@),
            valid_config(*cfg),
        ensures
            wf_tree(*final(self)),
            final(self).theta_num == old(self).theta_num,
            final(self).theta_den == old(self).theta_den,
            final(bodies)@.len() == old(bodies)@.len(),
            old(bodies)@.len() <= 1 ==> !stepped && final(bodies)@ == old(bodies)@ && *final(self)
                == *old(self),
            old(bodies)@.len() > 1 ==> {
                let s0 = old(bodies)@;
                let mid = gravitated(
                    final(self).root,
                    final(self).side as int,
                    s0,
                    *cfg,
                    old(self).theta_num as int,
                    old(self).theta_den as int,
                );
                &&& final(self).root.model() == build_model(
                    particles(s0),
                    region_center_x(s0),
                    region_center_y(s0),
                    region_side(s0),
                )
                &&& final(self).center.x == region_center_x(s0)
                &&& final(self).center.y == region_center_y(s0)
                &&& final(self).side == region_side(s0)
                &&& (stepped <==> valid_bodies(mid))
                &&& (stepped ==> final(bodies)@ == tc_outer(
                    mid,
                    final(self).root,
                    final(self).center.x as int,
                    final(self).center.y as int,
                    final(self).side as int,
                    s0.len() as int,
                    0,
                ))
                &&& (!stepped ==> final(bodies)@ == mid)
            },
    {
        if bodies.len() <= 1 {
            return false;
        }
        let ghost s0 = bodies@;
        self.update(bodies);
        self.gravitation(bodies, cfg);
        proof {
            assert(bodies@ =~= gravitated(
                self.root,
                self.side as int,
                s0,
                *cfg,
                self.theta_num as int,
                self.theta_den as int,
            ));
        }
        let ok = bodies_all_valid(bodies);
        if !ok {
            return false;
        }
        proof {
            lemma_tree_matches_store(members(self.root), s0);
        }
        let ghost mid = bodies@;
        self.collisions(bodies);
        proof {
            crate::collision::lemma_tc_outer_len(
                mid,
                self.root,
                self.center.x as int,
                self.center.y as int,
                self.side as int,
                mid.len() as int,
                0,
            );
        }
        true
    }
}

} // verus!
