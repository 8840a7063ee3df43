use gravitree::body::{Body, SimConfig, Vec2, bodies_all_valid};
use gravitree::tree::QuadTree;
use gravitree::naive::Naive;
use gravitree::naive_multi_th::NaiveMultiTh;
use gravitree::num::isqrt_u128;
use gravitree::collision::resolve_pair;

fn cfg() -> SimConfig {
    SimConfig { g: 667, dist_floor: 3, dt_num: 1, dt_den: 60 }
}

fn body(mass: i64, px: i64, py: i64, vx: i64, vy: i64) -> Body {
    Body::new(mass, Vec2 { x: px, y: py }, Vec2 { x: vx, y: vy })
}

/// A small deterministic generator so the random-set tests are repeatable.
struct Lcg {
    state: u64,
}

impl Lcg {
    fn new(seed: u64) -> Lcg {
        Lcg { state: seed }
    }

    fn next(&mut self) -> u64 {
        self.state = self
            .state
            .wrapping_mul(6364136223846793005)
            .wrapping_add(1442695040888963407);
        self.state >> 11
    }

    fn in_range(&mut self, lo: i64, hi: i64) -> i64 {
        lo + (self.next() % ((hi - lo) as u64)) as i64
    }
}

fn random_bodies(n: usize, seed: u64) -> Vec<Body> {
    let mut rng = Lcg::new(seed);
    let mut out = Vec::new();
    for _ in 0..n {
        out.push(body(
            rng.in_range(10, 1000),
            rng.in_range(-500_000, 500_000),
            rng.in_range(-500_000, 500_000),
            rng.in_range(-50, 50),
            rng.in_range(-50, 50),
        ));
    }
    out
}

#[test]
fn isqrt_values() {
    assert_eq!(isqrt_u128(0), 0);
    assert_eq!(isqrt_u128(1), 1);
    assert_eq!(isqrt_u128(3), 1);
    assert_eq!(isqrt_u128(4), 2);
    assert_eq!(isqrt_u128(15), 3);
    assert_eq!(isqrt_u128(16), 4);
    assert_eq!(isqrt_u128(1_000_000), 1_000);
    assert_eq!(isqrt_u128(999_999), 999);
    assert_eq!(isqrt_u128((1u128 << 64) - 1), 4_294_967_295);
}

#[test]
fn body_radius_is_sqrt_of_mass() {
    assert_eq!(body(100, 0, 0, 0, 0).radius, 10);
    assert_eq!(body(99, 0, 0, 0, 0).radius, 9);
    assert_eq!(body(1, 0, 0, 0, 0).radius, 1);
    assert_eq!(body(1_000_000, 0, 0, 0, 0).radius, 1_000);
}

#[test]
fn bounding_region_concrete() {
    let bodies = vec![body(10, -4, 2, 0, 0), body(10, 8, 6, 0, 0), body(10, 0, -10, 0, 0)];
    let (center, side) = QuadTree::compute_area(&bodies);
    // centre is the truncated midpoint of the extremes
    assert_eq!(center.x, 2); // (-4 + 8) / 2
    assert_eq!(center.y, -2); // (2 + -10) / 2
    // widest axis: y spans from -10 to 6 around centre -2 => half extent 8, +1 margin
    assert_eq!(side, 18);
    for b in &bodies {
        assert!(center.x - side / 2 < b.position.x && b.position.x < center.x + side / 2);
        assert!(center.y - side / 2 < b.position.y && b.position.y < center.y + side / 2);
    }
}

#[test]
fn bounding_region_contains_random_sets() {
    for seed in [1u64, 7, 42] {
        let bodies = random_bodies(40, seed);
        let (center, side) = QuadTree::compute_area(&bodies);
        for b in &bodies {
            assert!(center.x - side / 2 < b.position.x && b.position.x < center.x + side / 2);
            assert!(center.y - side / 2 < b.position.y && b.position.y < center.y + side / 2);
        }
    }
}

#[test]
fn bounding_region_single_body() {
    let bodies = vec![body(50, 123, -456, 0, 0)];
    let (center, side) = QuadTree::compute_area(&bodies);
    assert_eq!(center.x, 123);
    assert_eq!(center.y, -456);
    assert_eq!(side, 2);
    assert!(center.x - side / 2 < 123 && 123 < center.x + side / 2);
}

#[test]
fn bounding_region_coincident_bodies() {
    let bodies = vec![body(50, 7, 7, 0, 0), body(60, 7, 7, 0, 0), body(70, 7, 7, 0, 0)];
    let (center, side) = QuadTree::compute_area(&bodies);
    assert_eq!(center.x, 7);
    assert_eq!(center.y, 7);
    assert_eq!(side, 2);
}

#[test]
fn root_aggregates_match_sums() {
    let bodies = random_bodies(60, 3);
    let mut tree = QuadTree::new(3, 5);
    tree.update(&bodies);
    let views = tree.visualize();
    let root = views[0];
    let mass: i64 = bodies.iter().map(|b| b.mass).sum();
    let wx: i128 = bodies.iter().map(|b| b.mass as i128 * b.position.x as i128).sum();
    let wy: i128 = bodies.iter().map(|b| b.mass as i128 * b.position.y as i128).sum();
    assert_eq!(root.total_mass, mass);
    assert_eq!(root.mps_x, wx);
    assert_eq!(root.mps_y, wy);
    // centre of mass from the aggregates
    assert_eq!(root.mps_x / root.total_mass as i128, wx / mass as i128);
}

#[test]
fn rebuild_is_deterministic() {
    let bodies = random_bodies(50, 9);
    let mut t1 = QuadTree::new(3, 5);
    let mut t2 = QuadTree::new(3, 5);
    t1.update(&bodies);
    t2.update(&bodies);
    let v1 = t1.visualize();
    let v2 = t2.visualize();
    assert_eq!(v1, v2);
    // and rebuilding the same tree again changes nothing
    t1.update(&bodies);
    assert_eq!(t1.visualize(), v2);
}

#[test]
fn zero_theta_matches_naive_exactly() {
    let start = random_bodies(50, 11);
    let c = cfg();

    let mut tree_bodies = start.clone();
    let mut tree = QuadTree::new(0, 1);
    tree.update(&tree_bodies);
    tree.gravitation(&mut tree_bodies, &c);

    let mut naive_bodies = start.clone();
    let mut naive = Naive {};
    naive.gravitation(&mut naive_bodies, &c);

    assert_eq!(tree_bodies.len(), naive_bodies.len());
    for (a, b) in tree_bodies.iter().zip(naive_bodies.iter()) {
        assert_eq!(a, b);
    }
}

#[test]
fn parallel_kernel_matches_sequential_naive() {
    let start = random_bodies(40, 13);
    let c = cfg();

    let mut a = start.clone();
    let mut naive = Naive {};
    naive.gravitation(&mut a, &c);

    let mut b = start.clone();
    let mut multi = NaiveMultiTh {};
    multi.gravitation(&mut b, &c);

    assert_eq!(a, b);
}

/// Total force deviation from the exact pass, for one theta setting.
fn force_error(start: &[Body], theta_num: i64, theta_den: i64) -> u128 {
    let c = cfg();
    let mut exact = start.to_vec();
    let mut naive = Naive {};
    naive.gravitation(&mut exact, &c);

    let mut approx = start.to_vec();
    let mut tree = QuadTree::new(theta_num, theta_den);
    tree.update(&approx);
    tree.gravitation(&mut approx, &c);

    let mut err: u128 = 0;
    for (a, b) in approx.iter().zip(exact.iter()) {
        err += (a.acceleration.x as i128 - b.acceleration.x as i128).unsigned_abs();
        err += (a.acceleration.y as i128 - b.acceleration.y as i128).unsigned_abs();
    }
    err
}

#[test]
fn force_error_zero_at_zero_theta_and_grows_with_theta() {
    let start = random_bodies(40, 17);
    let e0 = force_error(&start, 0, 1);
    assert_eq!(e0, 0);
    let e_small = force_error(&start, 3, 10);
    let e_mid = force_error(&start, 6, 10);
    let e_big = force_error(&start, 15, 10);
    assert!(e0 <= e_small);
    assert!(e_small <= e_mid);
    assert!(e_mid <= e_big);
}

#[test]
fn overlapping_pair_separates_to_contact() {
    // masses 100 and 100: radii 10 and 10, combined radius 20, placed 12 apart
    let mut bodies = vec![body(100, 0, 0, 0, 0), body(100, 12, 0, 0, 0)];
    let mut naive = Naive {};
    naive.collisions(&mut bodies);
    let dx = bodies[1].position.x - bodies[0].position.x;
    assert_eq!(bodies[0].position, Vec2 { x: -4, y: 0 });
    assert_eq!(bodies[1].position, Vec2 { x: 16, y: 0 });
    assert_eq!(dx, 20); // exactly the combined radius
    // velocities untouched by the baseline response
    assert_eq!(bodies[0].velocity, Vec2 { x: 0, y: 0 });
    assert_eq!(bodies[1].velocity, Vec2 { x: 0, y: 0 });
}

#[test]
fn heavier_body_moves_less() {
    // masses 300 (radius 17) and 100 (radius 10): combined 27, placed 15 apart
    let mut bodies = vec![body(300, 0, 0, 0, 0), body(100, 15, 0, 0, 0)];
    let mut naive = Naive {};
    naive.collisions(&mut bodies);
    // delta = (27 - 15) / (400) along x, weighted by the partner's mass
    assert_eq!(bodies[0].position, Vec2 { x: -3, y: 0 });
    assert_eq!(bodies[1].position, Vec2 { x: 24, y: 0 });
    assert_eq!(bodies[1].position.x - bodies[0].position.x, 27);
    assert!((bodies[0].position.x).abs() < (bodies[1].position.x - 15).abs());
}

#[test]
fn tree_collisions_separate_overlapping_pair() {
    let mut bodies = vec![body(100, 0, 0, 0, 0), body(100, 12, 0, 0, 0), body(100, 500, 500, 0, 0)];
    let mut tree = QuadTree::new(3, 5);
    tree.update(&bodies);
    tree.collisions(&mut bodies);
    let dx = bodies[1].position.x - bodies[0].position.x;
    // the pair is seen from both sides; the second visit finds them exactly
    // in contact and applies no further correction
    assert_eq!(dx, 20);
    assert_eq!(bodies[2].position, Vec2 { x: 500, y: 500 });
}

#[test]
fn snapshot_collisions_move_only_the_queried_body() {
    let mut bodies = vec![body(100, 0, 0, 0, 0), body(100, 12, 0, 0, 0)];
    let mut multi = NaiveMultiTh {};
    multi.collisions(&mut bodies);
    // each body is pushed away using the snapshot, by its own share only
    assert_eq!(bodies[0].position, Vec2 { x: -4, y: 0 });
    assert_eq!(bodies[1].position, Vec2 { x: 16, y: 0 });
}

#[test]
fn coasting_body_advances_by_velocity_times_dt() {
    let c = cfg();
    let mut bodies = vec![body(100, 1000, 2000, 60, -120)];
    let mut tree = QuadTree::new(3, 5);
    tree.update(&bodies);
    tree.gravitation(&mut bodies, &c);
    // a single body feels no force: velocity unchanged, position advances
    // by exactly velocity * dt = velocity / 60
    assert_eq!(bodies[0].velocity, Vec2 { x: 60, y: -120 });
    assert_eq!(bodies[0].position, Vec2 { x: 1001, y: 1998 });
    assert_eq!(bodies[0].acceleration, Vec2 { x: 0, y: 0 });
}

#[test]
fn integrator_formula_exact() {
    let c = SimConfig { g: 667, dist_floor: 3, dt_num: 1, dt_den: 2 };
    let mut b = body(2, 10, 20, 4, -6);
    b.update(120, -60, &c);
    // acceleration = force / mass = (60, -30)
    assert_eq!(b.acceleration, Vec2 { x: 60, y: -30 });
    // velocity += acceleration * 1/2 = (4 + 30, -6 - 15)
    assert_eq!(b.velocity, Vec2 { x: 34, y: -21 });
    // position += velocity * 1/2 = (10 + 17, 20 - 11) with truncation toward zero
    assert_eq!(b.position, Vec2 { x: 27, y: 10 });
}

#[test]
fn resolve_pair_without_overlap_is_identity() {
    let a = body(100, 0, 0, 1, 2);
    let b = body(100, 100, 0, 3, 4);
    let (na, nb) = resolve_pair(&a, &b);
    assert_eq!(na, a);
    assert_eq!(nb, b);
}

#[test]
fn validity_checker_accepts_and_rejects() {
    let bodies = random_bodies(10, 23);
    assert!(bodies_all_valid(&bodies));
    let mut bad = bodies.clone();
    bad[3].radius += 1;
    assert!(!bodies_all_valid(&bad));
}

#[test]
fn empty_and_singleton_naive_passes() {
    let c = cfg();
    let mut empty: Vec<Body> = vec![];
    let mut naive = Naive {};
    naive.gravitation(&mut empty, &c);
    naive.collisions(&mut empty);
    assert!(empty.is_empty());

    let mut single = vec![body(100, 5, 5, 0, 0)];
    naive.collisions(&mut single);
    assert_eq!(single[0].position, Vec2 { x: 5, y: 5 });
}

#[test]
fn visualize_marks_subdivision() {
    let bodies = vec![body(10, -100, -100, 0, 0), body(10, 100, 100, 0, 0)];
    let mut tree = QuadTree::new(3, 5);
    tree.update(&bodies);
    let views = tree.visualize();
    // two separated bodies force at least one subdivision at the root
    assert!(views[0].internal);
    // internal nodes report exactly four children after themselves
    assert!(views.len() >= 5);
    // leaves carry their own aggregates
    let total: i64 = bodies.iter().map(|b| b.mass).sum();
    assert_eq!(views[0].total_mass, total);
}

#[test]
fn full_step_runs_all_passes() {
    let c = cfg();
    let mut bodies = random_bodies(30, 29);
    let mut tree = QuadTree::new(3, 5);
    let stepped = tree.step(&mut bodies, &c);
    assert!(stepped);
    assert_eq!(bodies.len(), 30);

    // a store of one body is left untouched by a step
    let mut one = vec![body(100, 1, 2, 3, 4)];
    assert!(!tree.step(&mut one, &c));
    assert_eq!(one[0].position, Vec2 { x: 1, y: 2 });
    assert_eq!(one[0].velocity, Vec2 { x: 3, y: 4 });
}
