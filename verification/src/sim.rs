//! One simulation tick over the whole population.
//!
//! A tick rebuilds the spatial index from the current positions, computes
//! every agent's three steering forces against that single snapshot (a read
//! pass), and only then applies forces, boundary wrap and integration (a
//! write pass) — forces are never computed against partially updated agents.

use crate::boid::{
    boid_ok, flock_force, wrap_spec, Behavior, Boid, Rect, COUNT_LIMIT, MAXFORCE, MAXSPEED,
};
use crate::qtree::{box_ok, circle_pred, contains_pt, points, wf, SpatialIndex};
use crate::vec2::{in_bound, limit_mag_spec, scale_div, Vec2, COORD_LIMIT, SCALE, SCALE_SQ};
use vstd::prelude::*;

verus! {

/// Default separation strength, in per-mille (1.5).
pub const SEPSTRENGTH: i64 = 1500;

/// Default separation radius, in sub-units (50 world units).
pub const SEPRADIUS: i64 = 50_000;

/// Default alignment strength, in per-mille (1.0).
pub const ALISTRENGTH: i64 = 1000;

/// Default alignment radius, in sub-units (75 world units).
pub const ALIRADIUS: i64 = 75_000;

/// Default cohesion strength, in per-mille (1.0).
pub const COHSTRENGTH: i64 = 1000;

/// Default cohesion radius, in sub-units (100 world units).
pub const COHRADIUS: i64 = 100_000;

/// Componentwise largest scaled steering force one behavior can apply.
pub const FORCE_SCALED_LIMIT: i64 = 60_000;

/// Runtime-adjustable flocking parameters: a strength (per-mille) and a
/// query radius (sub-units) for each of the three behaviors.
#[derive(Clone, Copy, PartialEq, Eq, Structural, Debug)]
pub struct FlockConfig {
    pub sep_strength: i64,
    pub sep_radius: i64,
    pub ali_strength: i64,
    pub ali_radius: i64,
    pub coh_strength: i64,
    pub coh_radius: i64,
}

/// Parameters are within the fixed-point working range; the separation
/// radius is positive since separation pushes with its reciprocal.
pub open spec fn config_ok(c: FlockConfig) -> bool {
    &&& 0 <= c.sep_strength <= SCALE_SQ
    &&& 0 <= c.ali_strength <= SCALE_SQ
    &&& 0 <= c.coh_strength <= SCALE_SQ
    &&& 1 <= c.sep_radius <= COORD_LIMIT
    &&& 0 <= c.ali_radius <= COORD_LIMIT
    &&& 0 <= c.coh_radius <= COORD_LIMIT
}

/// A world rectangle the tick can run in: ordered corners with headroom for
/// one tick of motion past an edge.
pub open spec fn world_ok(w: Rect) -> bool {
    &&& w.bl.x <= w.tr.x
    &&& w.bl.y <= w.tr.y
    &&& in_bound(w.bl@, COORD_LIMIT - MAXSPEED as int)
    &&& in_bound(w.tr@, COORD_LIMIT - MAXSPEED as int)
}

/// The membership predicate of the world rectangle, as a single named value.
pub open spec fn in_world(w: Rect) -> spec_fn(Boid) -> bool {
    |b: Boid| contains_pt(w.bl, w.tr, b.position)
}

/// Componentwise per-mille scaling, the model of `Vec2::scale_milli`.
pub open spec fn scale2(v: (int, int), s: int) -> (int, int) {
    (scale_div(v.0, s, SCALE as int), scale_div(v.1, s, SCALE as int))
}

/// The total steering force a tick applies to agent `b`: each behavior's
/// force over the snapshot's agents within that behavior's radius of `b`,
/// scaled by the behavior's strength, summed.
pub open spec fn step_force(b: Boid, pts: Seq<Boid>, cfg: FlockConfig) -> (int, int) {
    let sep = scale2(
        flock_force(
            b,
            pts.filter(circle_pred(b.position, cfg.sep_radius as int)),
            Behavior::Separate,
            cfg.sep_radius as int,
        ),
        cfg.sep_strength as int,
    );
    let ali = scale2(
        flock_force(
            b,
            pts.filter(circle_pred(b.position, cfg.ali_radius as int)),
            Behavior::Align,
            1,
        ),
        cfg.ali_strength as int,
    );
    let coh = scale2(
        flock_force(
            b,
            pts.filter(circle_pred(b.position, cfg.coh_radius as int)),
            Behavior::Cohesion,
            1,
        ),
        cfg.coh_strength as int,
    );
    (sep.0 + ali.0 + coh.0, sep.1 + ali.1 + coh.1)
}

/// The agent's velocity after the tick: the pre-tick velocity plus the spent
/// acceleration (pre-tick acceleration plus the tick's force), speed-capped.
pub open spec fn vel_after(b: Boid, pts: Seq<Boid>, cfg: FlockConfig) -> (int, int) {
    let f = step_force(b, pts, cfg);
    limit_mag_spec(
        (
            b.velocity.x + b.acceleration.x + f.0,
            b.velocity.y + b.acceleration.y + f.1,
        ),
        MAXSPEED as int,
    )
}

/// The agent's position after the tick: the pre-tick position wrapped at the
/// world's edges, moved by the post-tick velocity.
pub open spec fn pos_after(b: Boid, pts: Seq<Boid>, cfg: FlockConfig, w: Rect) -> (int, int) {
    let wp = wrap_spec(b.position@, w);
    let v = vel_after(b, pts, cfg);
    (wp.0 + v.0, wp.1 + v.1)
}

/// Neighbor discovery through the index is interchangeable with a
/// brute-force scan: over any snapshot holding exactly the population's
/// agents within the world — in whatever order the index stores them — the
/// tick applies the same total force to an agent as it would over the
/// filtered population itself.
pub proof fn lemma_tick_force_matches_scan(
    b: Boid,
    pts: Seq<Boid>,
    boids: Seq<Boid>,
    w: Rect,
    cfg: FlockConfig,
)
    requires
        pts.to_multiset() == boids.filter(in_world(w)).to_multiset(),
    ensures
        step_force(b, pts, cfg) == step_force(b, boids.filter(in_world(w)), cfg),
{
    let scan = boids.filter(in_world(w));
    let psep = circle_pred(b.position, cfg.sep_radius as int);
    let pali = circle_pred(b.position, cfg.ali_radius as int);
    let pcoh = circle_pred(b.position, cfg.coh_radius as int);
    crate::qtree::lemma_filter_multiset_eq(pts, scan, psep);
    crate::qtree::lemma_filter_multiset_eq(pts, scan, pali);
    crate::qtree::lemma_filter_multiset_eq(pts, scan, pcoh);
    crate::boid::lemma_force_depends_on_multiset(
        b,
        pts.filter(psep),
        scan.filter(psep),
        Behavior::Separate,
        cfg.sep_radius as int,
    );
    crate::boid::lemma_force_depends_on_multiset(
        b,
        pts.filter(pali),
        scan.filter(pali),
        Behavior::Align,
        1,
    );
    crate::boid::lemma_force_depends_on_multiset(
        b,
        pts.filter(pcoh),
        scan.filter(pcoh),
        Behavior::Cohesion,
        1,
    );
}

/// The speed cap holds after every tick: whatever the snapshot, the
/// parameters and the agent's pre-tick acceleration, the post-tick velocity
/// has magnitude at most `MAXSPEED`.
pub proof fn lemma_tick_speed_cap(b: Boid, pts: Seq<Boid>, cfg: FlockConfig)
    ensures
        crate::vec2::norm_sq(vel_after(b, pts, cfg)) <= crate::vec2::sq(MAXSPEED as int),
        in_bound(vel_after(b, pts, cfg), MAXSPEED as int),
{
    let f = step_force(b, pts, cfg);
    crate::vec2::lemma_limit_mag_norm(
        (
            b.velocity.x + b.acceleration.x + f.0,
            b.velocity.y + b.acceleration.y + f.1,
        ),
        MAXSPEED as int,
    );
}

/// A scaled force stays small: each behavior contributes at most
/// `FORCE_SCALED_LIMIT` per component.
proof fn lemma_force_scale_bound(v: (int, int), s: int)
    requires
        in_bound(v, MAXFORCE as int),
        0 <= s <= SCALE_SQ as int,
    ensures
        in_bound(scale2(v, s), FORCE_SCALED_LIMIT as int),
{
    crate::vec2::lemma_scale_div_le(v.0, s, SCALE as int, MAXFORCE as int);
    crate::vec2::lemma_scale_div_le(v.1, s, SCALE as int, MAXFORCE as int);
    crate::vec2::lemma_div_le_factor(
        (MAXFORCE as int) * s,
        SCALE as int,
        FORCE_SCALED_LIMIT as int,
    );
}

/// Elements of a filtered sequence of in-range agents are in range.
proof fn lemma_filter_elems_ok(s: Seq<Boid>, p: spec_fn(Boid) -> bool)
    requires
        forall|i: int| 0 <= i < s.len() ==> boid_ok(#[trigger] s[i]),
    ensures
        forall|i: int| 0 <= i < s.filter(p).len() ==> boid_ok(#[trigger] s.filter(p)[i]),
{
    assert forall|i: int| 0 <= i < s.filter(p).len() implies boid_ok(
        #[trigger] s.filter(p)[i],
    ) by {
        assert(s.filter(p).contains(s.filter(p)[i]));
        s.lemma_filter_contains_rev(p, s.filter(p)[i]);
        let j = choose|j: int| 0 <= j < s.len() && s[j] == s.filter(p)[i];
        assert(boid_ok(s[j]));
    }
}

/// The starting velocity of the ring construction: tangent to the circle
/// through `pos`, one rotational direction for even indices and the other
/// for odd, at most one world unit per tick.
pub open spec fn ring_velocity_spec(index: int, pos: Vec2) -> (int, int) {
    let raw: (int, int) = if index % 2 == 0 {
        (pos.x as int, -(pos.y as int))
    } else {
        (-(pos.x as int), pos.y as int)
    };
    limit_mag_spec(raw, SCALE as int)
}

/// The tangential starting velocity for the agent at `index` on the initial
/// ring, alternating rotational direction by index parity — the two-ring
/// counter-rotating start condition. (Placing the ring's positions takes
/// trigonometry and stays with the caller.)
pub fn ring_velocity(index: usize, pos: Vec2) -> (r: Vec2)
    requires
        in_bound(pos@, COORD_LIMIT as int),
    ensures
        r@ == ring_velocity_spec(index as int, pos),
        in_bound(r@, SCALE as int),
{
    let raw = if index % 2 == 0 {
        Vec2 { x: pos.x, y: -pos.y }
    } else {
        Vec2 { x: -pos.x, y: pos.y }
    };
    raw.limit_magnitude(SCALE)
}

/// Build the tick's spatial index: a fresh tree over the world rectangle
/// holding every agent that lies within it (agents outside are dropped, as
/// insertion specifies).
pub fn build_index(boids: &Vec<Boid>, world: &Rect) -> (r: SpatialIndex)
    requires
        box_ok(world.bl, world.tr),
        forall|i: int| 0 <= i < boids@.len() ==> boid_ok(#[trigger] boids@[i]),
    ensures
        wf(r, world.bl, world.tr),
        points(r).to_multiset() == boids@.filter(in_world(*world)).to_multiset(),
{
    broadcast use vstd::seq_lib::group_to_multiset_ensures;

    let ghost p = in_world(*world);
    let mut t = SpatialIndex::empty();
    proof {
        assert(boids@.take(0).filter(p) =~= Seq::<Boid>::empty());
    }
    let mut i: usize = 0;
    while i < boids.len()
        invariant
            0 <= i <= boids@.len(),
            box_ok(world.bl, world.tr),
            forall|j: int| 0 <= j < boids@.len() ==> boid_ok(#[trigger] boids@[j]),
            p == in_world(*world),
            wf(t, world.bl, world.tr),
            points(t).to_multiset() == boids@.take(i as int).filter(p).to_multiset(),
        decreases boids@.len() - i,
    {
        let b = boids[i];
        proof {
            broadcast use vstd::seq_lib::group_to_multiset_ensures;

            crate::qtree::lemma_filter_push(boids@, i as int, p);
            assert(p(b) == contains_pt(world.bl, world.tr, b.position));
            if p(b) {
                assert(boids@.take(i as int + 1).filter(p) == boids@.take(i as int).filter(
                    p,
                ).push(b));
                assert(boids@.take(i as int).filter(p).push(b).to_multiset() == boids@.take(
                    i as int,
                ).filter(p).to_multiset().insert(b));
            }
        }
        t = t.insert(b, world.bl, world.tr);
        i = i + 1;
    }
    proof {
        assert(boids@.take(boids@.len() as int) =~= boids@);
    }
    t
}

/// The whole simulation state: the population, the index built by the last
/// tick (exposed for visualization), and the flocking parameters.
pub struct Model {
    pub boids: Vec<Boid>,
    pub qtree: SpatialIndex,
    pub config: FlockConfig,
}

impl Model {
    /// A model over the given population, with the default parameters and an
    /// empty index (the first tick builds the real one).
    pub fn new(boids: Vec<Boid>) -> (r: Model)
        ensures
            r.boids == boids,
            points(r.qtree) =~= Seq::<Boid>::empty(),
            r.config == (FlockConfig {
                sep_strength: SEPSTRENGTH,
                sep_radius: SEPRADIUS,
                ali_strength: ALISTRENGTH,
                ali_radius: ALIRADIUS,
                coh_strength: COHSTRENGTH,
                coh_radius: COHRADIUS,
            }),
    {
        Model {
            boids,
            qtree: SpatialIndex::empty(),
            config: FlockConfig {
                sep_strength: SEPSTRENGTH,
                sep_radius: SEPRADIUS,
                ali_strength: ALISTRENGTH,
                ali_radius: ALIRADIUS,
                coh_strength: COHSTRENGTH,
                coh_radius: COHRADIUS,
            },
        }
    }

    /// Set the population size: shrinking truncates the collection, growing
    /// appends the given replacement agents in order (the caller chooses
    /// their placement, e.g. at random positions within the world).
    pub fn resize(&mut self, target: usize, fill: &Vec<Boid>)
        requires
            target > old(self).boids@.len() ==> fill@.len() >= target - old(self).boids@.len(),
        ensures
            final(self).boids@ == if target <= old(self).boids@.len() {
                old(self).boids@.take(target as int)
            } else {
                old(self).boids@ + fill@.take(target - old(self).boids@.len())
            },
            final(self).qtree == old(self).qtree,
            final(self).config == old(self).config,
    {
        let ghost orig = self.boids@;
        if target <= self.boids.len() {
            self.boids.truncate(target);
        } else {
            let mut i: usize = 0;
            let need = target - self.boids.len();
            while i < need
                invariant
                    0 <= i <= need,
                    need == target - orig.len(),
                    target > orig.len(),
                    fill@.len() >= need,
                    self.boids@ == orig + fill@.take(i as int),
                    self.qtree == old(self).qtree,
                    self.config == old(self).config,
                decreases need - i,
            {
                self.boids.push(fill[i]);
                proof {
                    assert(fill@.take(i as int + 1) =~= fill@.take(i as int).push(
                        fill@[i as int],
                    ));
                }
                i = i + 1;
            }
        }
    }

    /// Advance the simulation one tick. The index is rebuilt from the
    /// current positions; every force is computed against that snapshot;
    /// then each agent takes its force, wraps at the world's edges and
    /// integrates. Each post-tick agent is pinned exactly: its velocity is
    /// `vel_after` (so the speed cap holds) and its position `pos_after` —
    /// stated both over the index's stored snapshot and, equivalently, over
    /// the population filtered to the world by a brute-force scan, so the
    /// index is contractually an implementation detail.
    pub fn step(&mut self, world: &Rect)
        requires
            world_ok(*world),
            config_ok(old(self).config),
            old(self).boids@.len() <= COUNT_LIMIT as int,
            forall|i: int| 0 <= i < old(self).boids@.len() ==> boid_ok(#[trigger] old(self).boids@[i]),
        ensures
            final(self).config == old(self).config,
            final(self).boids@.len() == old(self).boids@.len(),
            wf(final(self).qtree, world.bl, world.tr),
            points(final(self).qtree).to_multiset() == old(self).boids@.filter(
                in_world(*world),
            ).to_multiset(),
            forall|i: int|
                0 <= i < old(self).boids@.len() ==> {
                    let b = old(self).boids@[i];
                    let nb = #[trigger] final(self).boids@[i];
                    let pts = points(final(self).qtree);
                    &&& nb.highlight == b.highlight
                    &&& nb.acceleration@ == (0int, 0int)
                    &&& nb.velocity@ == vel_after(b, pts, old(self).config)
                    &&& nb.position@ == pos_after(b, pts, old(self).config, *world)
                },
            forall|i: int|
                0 <= i < old(self).boids@.len() ==> {
                    let b = old(self).boids@[i];
                    let nb = #[trigger] final(self).boids@[i];
                    let scan = old(self).boids@.filter(in_world(*world));
                    &&& nb.velocity@ == vel_after(b, scan, old(self).config)
                    &&& nb.position@ == pos_after(b, scan, old(self).config, *world)
                },
            forall|i: int|
                0 <= i < final(self).boids@.len() ==> boid_ok(#[trigger] final(self).boids@[i]),
    {
        broadcast use vstd::seq_lib::group_to_multiset_ensures;

        let ghost orig = self.boids@;
        let cfg = self.config;
        let tree = build_index(&self.boids, world);
        let ghost pts = points(tree);
        proof {
            crate::qtree::lemma_points_in_box(tree, world.bl, world.tr);
            // the snapshot is no larger than the population
            assert(pts.len() == pts.to_multiset().len());
            assert(orig.filter(in_world(*world)).len() == orig.filter(
                in_world(*world),
            ).to_multiset().len());
            orig.lemma_filter_len(in_world(*world));
        }

        // read pass: every force from the one snapshot
        let mut forces: Vec<Vec2> = Vec::new();
        let mut i: usize = 0;
        while i < self.boids.len()
            invariant
                0 <= i <= orig.len(),
                self.boids@ == orig,
                orig.len() <= COUNT_LIMIT as int,
                forall|j: int| 0 <= j < orig.len() ==> boid_ok(#[trigger] orig[j]),
                config_ok(cfg),
                world_ok(*world),
                wf(tree, world.bl, world.tr),
                pts == points(tree),
                pts.len() <= COUNT_LIMIT as int,
                forall|j: int| 0 <= j < pts.len() ==> boid_ok(#[trigger] pts[j]),
                forces@.len() == i,
                forall|j: int|
                    0 <= j < i ==> (#[trigger] forces@[j])@ == step_force(orig[j], pts, cfg)
                        && in_bound(forces@[j]@, 3 * FORCE_SCALED_LIMIT as int),
            decreases orig.len() - i,
        {
            let b = self.boids[i];
            let sep_flock = tree.query_circle(world.bl, world.tr, b.position, cfg.sep_radius);
            let ali_flock = tree.query_circle(world.bl, world.tr, b.position, cfg.ali_radius);
            let coh_flock = tree.query_circle(world.bl, world.tr, b.position, cfg.coh_radius);
            proof {
                lemma_filter_elems_ok(pts, circle_pred(b.position, cfg.sep_radius as int));
                lemma_filter_elems_ok(pts, circle_pred(b.position, cfg.ali_radius as int));
                lemma_filter_elems_ok(pts, circle_pred(b.position, cfg.coh_radius as int));
                pts.lemma_filter_len(circle_pred(b.position, cfg.sep_radius as int));
                pts.lemma_filter_len(circle_pred(b.position, cfg.ali_radius as int));
                pts.lemma_filter_len(circle_pred(b.position, cfg.coh_radius as int));
            }
            let fs = b.separate(&sep_flock, cfg.sep_radius).scale_milli(cfg.sep_strength);
            let fa = b.align(&ali_flock).scale_milli(cfg.ali_strength);
            let fc = b.cohesion(&coh_flock).scale_milli(cfg.coh_strength);
            proof {
                lemma_force_scale_bound(
                    flock_force(
                        b,
                        pts.filter(circle_pred(b.position, cfg.sep_radius as int)),
                        Behavior::Separate,
                        cfg.sep_radius as int,
                    ),
                    cfg.sep_strength as int,
                );
                lemma_force_scale_bound(
                    flock_force(
                        b,
                        pts.filter(circle_pred(b.position, cfg.ali_radius as int)),
                        Behavior::Align,
                        1,
                    ),
                    cfg.ali_strength as int,
                );
                lemma_force_scale_bound(
                    flock_force(
                        b,
                        pts.filter(circle_pred(b.position, cfg.coh_radius as int)),
                        Behavior::Cohesion,
                        1,
                    ),
                    cfg.coh_strength as int,
                );
            }
            let f = fs.add(fa).add(fc);
            forces.push(f);
            i = i + 1;
        }

        // write pass: apply force, wrap, integrate
        let mut out: Vec<Boid> = Vec::new();
        let mut k: usize = 0;
        while k < self.boids.len()
            invariant
                0 <= k <= orig.len(),
                self.boids@ == orig,
                forall|j: int| 0 <= j < orig.len() ==> boid_ok(#[trigger] orig[j]),
                config_ok(cfg),
                world_ok(*world),
                forces@.len() == orig.len(),
                forall|j: int|
                    0 <= j < orig.len() ==> (#[trigger] forces@[j])@ == step_force(
                        orig[j],
                        pts,
                        cfg,
                    ) && in_bound(forces@[j]@, 3 * FORCE_SCALED_LIMIT as int),
                out@.len() == k,
                forall|j: int|
                    0 <= j < k ==> {
                        let b = orig[j];
                        let nb = #[trigger] out@[j];
                        &&& nb.highlight == b.highlight
                        &&& nb.acceleration@ == (0int, 0int)
                        &&& nb.velocity@ == vel_after(b, pts, cfg)
                        &&& nb.position@ == pos_after(b, pts, cfg, *world)
                        &&& boid_ok(nb)
                    },
            decreases orig.len() - k,
        {
            let mut b = self.boids[k];
            let f = forces[k];
            b.acceleration = b.acceleration.add(f);
            b.borders(world);
            b.update();
            out.push(b);
            k = k + 1;
        }
        self.boids = out;
        self.qtree = tree;
        proof {
            assert forall|i: int| 0 <= i < orig.len() implies {
                let b = orig[i];
                let nb = #[trigger] self.boids@[i];
                let scan = orig.filter(in_world(*world));
                &&& nb.velocity@ == vel_after(b, scan, cfg)
                &&& nb.position@ == pos_after(b, scan, cfg, *world)
            } by {
                lemma_tick_force_matches_scan(orig[i], pts, orig, *world, cfg);
            }
        }
    }
}

} // verus!
