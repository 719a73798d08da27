use boids::boid::{Behavior, Boid, Rect, MAXFORCE, MAXSPEED};
use boids::vec2::{isqrt_ceil, Vec2};

fn v(x: i64, y: i64) -> Vec2 {
    Vec2 { x, y }
}

fn boid_at(x: i64, y: i64, vx: i64, vy: i64) -> Boid {
    let mut b = Boid::new(x, y);
    b.velocity = v(vx, vy);
    b
}

fn norm_sq(a: Vec2) -> i128 {
    (a.x as i128) * (a.x as i128) + (a.y as i128) * (a.y as i128)
}

#[test]
fn ceiling_square_root_values() {
    assert_eq!(isqrt_ceil(0), 0);
    assert_eq!(isqrt_ceil(1), 1);
    assert_eq!(isqrt_ceil(2), 2);
    assert_eq!(isqrt_ceil(4), 2);
    assert_eq!(isqrt_ceil(5), 3);
    assert_eq!(isqrt_ceil(100), 10);
    assert_eq!(isqrt_ceil(10_000_000_000), 100_000);
}

#[test]
fn with_magnitude_scales_exactly() {
    let r = v(3_000, 4_000).with_magnitude(1_000);
    assert_eq!(r, v(600, 800));
    let r = v(-10_000, 0).with_magnitude(20);
    assert_eq!(r, v(-20, 0));
}

#[test]
fn with_magnitude_of_zero_vector_is_zero() {
    // the mandatory guard: a directionless vector takes no magnitude
    assert_eq!(v(0, 0).with_magnitude(2_500), v(0, 0));
    assert_eq!(v(0, 0).with_magnitude(0), v(0, 0));
}

#[test]
fn limit_magnitude_keeps_short_vectors() {
    assert_eq!(v(30, 40).limit_magnitude(60), v(30, 40));
    assert_eq!(v(30, 40).limit_magnitude(50), v(30, 40));
}

#[test]
fn limit_magnitude_caps_long_vectors() {
    let r = v(30_000, 40_000).limit_magnitude(2_500);
    assert_eq!(r, v(1_500, 2_000));
    assert!(norm_sq(r) <= (2_500i128) * 2_500);
}

#[test]
fn update_caps_speed_for_any_acceleration() {
    let mut b = Boid::new(0, 0);
    b.acceleration = v(100_000, 0);
    b.update();
    assert_eq!(b.velocity, v(2_500, 0));
    assert_eq!(b.position, v(2_500, 0));
    assert_eq!(b.acceleration, v(0, 0));

    let mut b = Boid::new(0, 0);
    b.acceleration = v(30_000, 40_000);
    b.update();
    assert_eq!(b.velocity, v(1_500, 2_000));
    assert!(norm_sq(b.velocity) <= (MAXSPEED as i128) * (MAXSPEED as i128));
}

#[test]
fn update_integrates_and_resets_acceleration() {
    let mut b = boid_at(100, 200, 5, -7);
    b.acceleration = v(10, 10);
    b.update();
    assert_eq!(b.velocity, v(15, 3));
    assert_eq!(b.position, v(115, 203));
    assert_eq!(b.acceleration, v(0, 0));
}

#[test]
fn borders_wraps_each_edge_to_the_opposite_one() {
    let win = Rect { bl: v(0, 0), tr: v(100_000, 100_000) };
    let mut b = Boid::new(-1, 40_000);
    b.borders(&win);
    assert_eq!(b.position, v(100_000, 40_000));

    let mut b = Boid::new(100_001, 40_000);
    b.borders(&win);
    assert_eq!(b.position, v(0, 40_000));

    let mut b = Boid::new(40_000, -1);
    b.borders(&win);
    assert_eq!(b.position, v(40_000, 100_000));

    let mut b = Boid::new(40_000, 100_001);
    b.borders(&win);
    assert_eq!(b.position, v(40_000, 0));

    let mut b = Boid::new(40_000, 40_000);
    b.borders(&win);
    assert_eq!(b.position, v(40_000, 40_000));
}

#[test]
fn left_edge_agent_moving_left_reenters_on_the_right() {
    // toroidal consistency: the wrap keeps the vertical offset exactly
    let win = Rect { bl: v(0, 0), tr: v(100_000, 100_000) };
    let mut b = boid_at(0, 40_000, -10, 0);
    b.borders(&win); // exactly on the edge: no wrap yet
    assert_eq!(b.position, v(0, 40_000));
    b.update();
    assert_eq!(b.position, v(-10, 40_000));
    b.borders(&win); // now past the edge: re-enter at the right
    assert_eq!(b.position, v(100_000, 40_000));
    assert_eq!(b.velocity, v(-10, 0));
}

#[test]
fn lone_agent_gets_zero_force_from_every_behavior() {
    let b = boid_at(1_000, 2_000, 300, 400);
    let flock = vec![b];
    assert_eq!(b.align(&flock), v(0, 0));
    assert_eq!(b.separate(&flock, 50_000), v(0, 0));
    assert_eq!(b.cohesion(&flock), v(0, 0));
    assert_eq!(b.accumualte(&flock, Behavior::Align, 1), v(0, 0));
    let empty: Vec<Boid> = Vec::new();
    assert_eq!(b.align(&empty), v(0, 0));
}

#[test]
fn two_stationary_agents_separate_along_x() {
    // agents at (0,0) and (10,0) world units inside a separation radius of 50:
    // each is pushed away from the other along the x axis, at most MAXFORCE.
    let a = Boid::new(0, 0);
    let b = Boid::new(10_000, 0);
    let flock = vec![a, b];
    let fa = a.separate(&flock, 50_000);
    let fb = b.separate(&flock, 50_000);
    assert_eq!(fa, v(-MAXFORCE, 0));
    assert_eq!(fb, v(MAXFORCE, 0));
    assert!(norm_sq(fa) <= (MAXFORCE as i128) * (MAXFORCE as i128));
    assert!(norm_sq(fb) <= (MAXFORCE as i128) * (MAXFORCE as i128));
}

#[test]
fn alignment_steers_toward_neighbor_velocity() {
    let a = Boid::new(0, 0);
    let b = boid_at(1_000, 0, 1_000, 0);
    let f = a.align(&vec![a, b]);
    assert_eq!(f, v(MAXFORCE, 0));
}

#[test]
fn cohesion_steers_toward_neighbor_position() {
    let a = Boid::new(0, 0);
    let b = Boid::new(10_000, 0);
    let f = a.cohesion(&vec![a, b]);
    assert_eq!(f, v(MAXFORCE, 0));
    let g = b.cohesion(&vec![a, b]);
    assert_eq!(g, v(-MAXFORCE, 0));
}
