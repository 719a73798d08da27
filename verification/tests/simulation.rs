use boids::boid::{Boid, Rect};
use boids::sim::{
    build_index, ring_velocity, Model, ALIRADIUS, ALISTRENGTH, COHRADIUS, COHSTRENGTH, SEPRADIUS,
    SEPSTRENGTH,
};
use boids::vec2::Vec2;

fn v(x: i64, y: i64) -> Vec2 {
    Vec2 { x, y }
}

fn world() -> Rect {
    Rect { bl: v(-750_000, -500_000), tr: v(750_000, 500_000) }
}

#[test]
fn model_starts_with_default_parameters() {
    let m = Model::new(vec![Boid::new(0, 0)]);
    assert_eq!(m.config.sep_strength, SEPSTRENGTH);
    assert_eq!(m.config.sep_radius, SEPRADIUS);
    assert_eq!(m.config.ali_strength, ALISTRENGTH);
    assert_eq!(m.config.ali_radius, ALIRADIUS);
    assert_eq!(m.config.coh_strength, COHSTRENGTH);
    assert_eq!(m.config.coh_radius, COHRADIUS);
    assert_eq!(m.boids.len(), 1);
}

#[test]
fn resize_shrinks_by_truncation() {
    let mut m = Model::new(vec![Boid::new(0, 0), Boid::new(1, 0), Boid::new(2, 0)]);
    m.resize(1, &Vec::new());
    assert_eq!(m.boids.len(), 1);
    assert_eq!(m.boids[0].position, v(0, 0));
}

#[test]
fn resize_grows_with_supplied_agents() {
    let mut m = Model::new(vec![Boid::new(0, 0)]);
    let fill = vec![Boid::new(5, 5), Boid::new(6, 6), Boid::new(7, 7)];
    m.resize(3, &fill);
    assert_eq!(m.boids.len(), 3);
    assert_eq!(m.boids[1].position, v(5, 5));
    assert_eq!(m.boids[2].position, v(6, 6));
}

#[test]
fn index_of_single_agent_answers_every_radius() {
    let b = Boid::new(5_000, 5_000);
    let w = Rect { bl: v(0, 0), tr: v(100_000, 100_000) };
    let t = build_index(&vec![b], &w);
    for radius in [0, 1, 1_000] {
        let r = t.query_circle(w.bl, w.tr, b.position, radius);
        assert_eq!(r.len(), 1);
        assert_eq!(r[0].position, v(5_000, 5_000));
    }
}

#[test]
fn lone_agent_stays_put_through_a_tick() {
    let mut m = Model::new(vec![Boid::new(5_000, 5_000)]);
    m.step(&world());
    assert_eq!(m.boids.len(), 1);
    assert_eq!(m.boids[0].position, v(5_000, 5_000));
    assert_eq!(m.boids[0].velocity, v(0, 0));
    assert_eq!(m.boids[0].acceleration, v(0, 0));
}

#[test]
fn two_stationary_agents_repel_through_a_tick() {
    // at (0,0) and (10,0) world units, separation (strength 1.5) pushes the
    // agents apart by 90 sub-units and cohesion (strength 1.0) pulls them
    // together by 60; alignment adds nothing between stationary agents.
    let mut m = Model::new(vec![Boid::new(0, 0), Boid::new(10_000, 0)]);
    m.step(&world());
    assert_eq!(m.boids[0].velocity, v(-30, 0));
    assert_eq!(m.boids[1].velocity, v(30, 0));
    assert_eq!(m.boids[0].position, v(-30, 0));
    assert_eq!(m.boids[1].position, v(10_030, 0));
    assert_eq!(m.boids[0].acceleration, v(0, 0));
    assert_eq!(m.boids[1].acceleration, v(0, 0));
}

#[test]
fn tick_preserves_population_and_highlight() {
    let mut a = Boid::new(0, 0);
    a.highlight = true;
    let b = Boid::new(200_000, 0);
    let c = Boid::new(0, 200_000);
    let mut m = Model::new(vec![a, b, c]);
    m.step(&world());
    assert_eq!(m.boids.len(), 3);
    assert!(m.boids[0].highlight);
    assert!(!m.boids[1].highlight);
    assert!(!m.boids[2].highlight);
}

#[test]
fn tick_wraps_an_agent_past_the_edge() {
    // an agent that left the world re-enters at the opposite edge during the
    // tick (it is not part of the tick's index, which only holds the world)
    let w = Rect { bl: v(0, 0), tr: v(100_000, 100_000) };
    let mut m = Model::new(vec![Boid::new(-10, 500)]);
    m.step(&w);
    assert_eq!(m.boids[0].position, v(100_000, 500));
}

#[test]
fn zero_strengths_leave_stationary_agents_in_place() {
    let mut m = Model::new(vec![Boid::new(0, 0), Boid::new(10_000, 0)]);
    m.config.sep_strength = 0;
    m.config.ali_strength = 0;
    m.config.coh_strength = 0;
    m.step(&world());
    assert_eq!(m.boids[0].position, v(0, 0));
    assert_eq!(m.boids[1].position, v(10_000, 0));
}

#[test]
fn speed_stays_capped_over_many_ticks() {
    let mut m = Model::new(vec![
        Boid::new(0, 0),
        Boid::new(10_000, 0),
        Boid::new(0, 10_000),
        Boid::new(7_000, 7_000),
    ]);
    let w = world();
    for _ in 0..25 {
        m.step(&w);
        for b in &m.boids {
            let n = (b.velocity.x as i128) * (b.velocity.x as i128)
                + (b.velocity.y as i128) * (b.velocity.y as i128);
            assert!(n <= 2_500i128 * 2_500);
            assert_eq!(b.acceleration, v(0, 0));
        }
    }
}

#[test]
fn ring_velocity_alternates_direction_by_parity() {
    // tangent to the starting circle, one world unit per tick at most, and
    // the rotational sense flips between neighboring indices
    assert_eq!(ring_velocity(0, v(200_000, 0)), v(1_000, 0));
    assert_eq!(ring_velocity(1, v(200_000, 0)), v(-1_000, 0));
    assert_eq!(ring_velocity(0, v(0, 200_000)), v(0, -1_000));
    assert_eq!(ring_velocity(1, v(0, 200_000)), v(0, 1_000));
    // already short vectors are kept as they are
    assert_eq!(ring_velocity(0, v(300, 400)), v(300, -400));
}

#[test]
fn empty_population_ticks_without_effect() {
    let mut m = Model::new(Vec::new());
    m.step(&world());
    assert_eq!(m.boids.len(), 0);
}
