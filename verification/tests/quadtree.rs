use boids::boid::Boid;
use boids::qtree::{SpatialIndex, CAPACITY};
use boids::vec2::Vec2;

fn v(x: i64, y: i64) -> Vec2 {
    Vec2 { x, y }
}

fn world_bl() -> Vec2 {
    v(0, 0)
}

fn world_tr() -> Vec2 {
    v(100_000, 100_000)
}

fn build(points: &[(i64, i64)]) -> SpatialIndex {
    let mut t = SpatialIndex::empty();
    for &(x, y) in points {
        t = t.insert(Boid::new(x, y), world_bl(), world_tr());
    }
    t
}

fn dist_sq(a: Vec2, b: Vec2) -> i128 {
    let dx = (a.x - b.x) as i128;
    let dy = (a.y - b.y) as i128;
    dx * dx + dy * dy
}

#[test]
fn empty_tree_query_is_empty() {
    let t = SpatialIndex::empty();
    let r = t.query_circle(world_bl(), world_tr(), v(50_000, 50_000), 100_000);
    assert!(r.is_empty());
}

#[test]
fn single_point_is_found_at_any_radius() {
    let t = build(&[(5_000, 5_000)]);
    for radius in [0, 1, 42, 100_000] {
        let r = t.query_circle(world_bl(), world_tr(), v(5_000, 5_000), radius);
        assert_eq!(r.len(), 1);
        assert_eq!(r[0].position, v(5_000, 5_000));
    }
    let far = t.query_circle(world_bl(), world_tr(), v(90_000, 90_000), 10);
    assert!(far.is_empty());
}

#[test]
fn leaf_holds_up_to_capacity_without_splitting() {
    assert_eq!(CAPACITY, 4);
    let t = build(&[(10_000, 10_000), (11_000, 10_000), (10_000, 11_000), (12_000, 12_000)]);
    assert!(matches!(t, SpatialIndex::Leaf(_)));
}

#[test]
fn fifth_insert_splits_into_bottom_left_child() {
    // five agents clustered in the bottom-left quadrant of [(0,0),(100,100)]
    // world units: the root subdivides and all five land in its bottom-left
    // child (which subdivides further on its own).
    let pts = [
        (10_000, 10_000),
        (11_000, 10_000),
        (10_000, 11_000),
        (12_000, 12_000),
        (13_000, 13_000),
    ];
    let t = build(&pts);
    match t {
        SpatialIndex::Leaf(_) => panic!("root must have subdivided"),
        SpatialIndex::Internal(q) => {
            let in_bl = q.bl.collect_points();
            assert_eq!(in_bl.len(), 5);
            for &(x, y) in &pts {
                assert!(in_bl.iter().any(|b| b.position == v(x, y)));
            }
            assert!(q.br.collect_points().is_empty());
            assert!(q.tl.collect_points().is_empty());
            assert!(q.tr.collect_points().is_empty());
        }
    }
}

#[test]
fn query_boundary_is_inclusive_and_exact() {
    // a point at distance exactly the radius is kept; one sub-unit less
    // excludes it
    let t = build(&[(3_000, 4_000)]);
    let at = t.query_circle(world_bl(), world_tr(), v(0, 0), 5_000);
    assert_eq!(at.len(), 1);
    let under = t.query_circle(world_bl(), world_tr(), v(0, 0), 4_999);
    assert!(under.is_empty());
}

#[test]
fn insert_outside_box_is_dropped() {
    let mut t = build(&[(5_000, 5_000)]);
    t = t.insert(Boid::new(200_000, 50_000), world_bl(), world_tr());
    t = t.insert(Boid::new(50_000, -1), world_bl(), world_tr());
    assert_eq!(t.collect_points().len(), 1);
}

#[test]
fn no_point_lost_and_none_duplicated() {
    let mut pts = Vec::new();
    for i in 0..12 {
        for j in 0..9 {
            pts.push((i * 7_000, j * 5_000));
        }
    }
    let t = build(&pts);
    let stored = t.collect_points();
    assert_eq!(stored.len(), pts.len());
    for &(x, y) in &pts {
        assert_eq!(stored.iter().filter(|b| b.position == v(x, y)).count(), 1);
    }
}

#[test]
fn query_agrees_with_brute_force_scan() {
    let mut pts = Vec::new();
    for i in 0..12 {
        for j in 0..9 {
            pts.push((i * 7_000, j * 5_000));
        }
    }
    let t = build(&pts);
    let cases = [
        (v(33_000, 22_000), 15_000),
        (v(0, 0), 7_000),
        (v(99_000, 1_000), 30_000),
        (v(50_000, 50_000), 0),
        (v(50_000, 50_000), 200_000),
    ];
    for &(center, radius) in &cases {
        let got = t.query_circle(world_bl(), world_tr(), center, radius);
        let r2 = (radius as i128) * (radius as i128);
        // no false positives
        for b in &got {
            assert!(dist_sq(b.position, center) <= r2);
        }
        // no false negatives, and counts match one to one
        let expected: Vec<_> = pts
            .iter()
            .filter(|&&(x, y)| dist_sq(v(x, y), center) <= r2)
            .collect();
        assert_eq!(got.len(), expected.len());
        for &&(x, y) in &expected {
            assert!(got.iter().any(|b| b.position == v(x, y)));
        }
    }
}
