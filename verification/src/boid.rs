//! Agents ("boids") and the three flocking rules.
//!
//! Every agent carries a position, a magnitude-bounded velocity, an
//! acceleration that is spent and reset each tick, and a presentation-only
//! highlight flag. The three steering behaviors share one reduction: sum a
//! per-neighbor contribution over every neighbor other than the agent itself,
//! and only when at least one such neighbor exists turn the aggregate into a
//! steering vector capped at `MAXFORCE`.

use crate::vec2::{
    in_bound, limit_mag_spec, norm_sq, scale_div, sq, with_mag_spec, Vec2, COORD_LIMIT, SCALE_SQ,
    VEC_LIMIT,
};
use vstd::prelude::*;

verus! {

/// Magnitude cap on every agent velocity, in sub-units per tick (2.5 world units).
pub const MAXSPEED: i64 = 2500;

/// Magnitude cap on every steering force, in sub-units per tick squared (0.06 world units).
pub const MAXFORCE: i64 = 60;

/// Largest admitted population; keeps every contribution sum within `VEC_LIMIT`.
pub const COUNT_LIMIT: usize = 1_000_000;

/// An axis-aligned rectangle given by its bottom-left and top-right corners.
#[derive(Clone, Copy, PartialEq, Eq, Structural, Debug)]
pub struct Rect {
    pub bl: Vec2,
    pub tr: Vec2,
}

/// An autonomous agent.
#[derive(Clone, Copy, PartialEq, Eq, Structural, Debug)]
pub struct Boid {
    pub position: Vec2,
    pub velocity: Vec2,
    pub acceleration: Vec2,
    pub highlight: bool,
}

/// The agent's state is within the fixed-point working range.
pub open spec fn boid_ok(b: Boid) -> bool {
    &&& in_bound(b.position@, COORD_LIMIT as int)
    &&& in_bound(b.velocity@, COORD_LIMIT as int)
    &&& in_bound(b.acceleration@, COORD_LIMIT as int)
}

/// Which of the three flocking rules a reduction computes.
#[derive(Clone, Copy, PartialEq, Eq, Structural, Debug)]
pub enum Behavior {
    Align,
    Separate,
    Cohesion,
}

/// What one neighbor adds to the reduction: its velocity for alignment, its
/// position for cohesion, and for separation a push from the neighbor toward
/// the agent of magnitude `SCALE_SQ / dist` (the fixed-point reciprocal of the
/// desired separation distance).
pub open spec fn contribution(me: Boid, b: Boid, k: Behavior, dist: int) -> (int, int) {
    match k {
        Behavior::Align => b.velocity@,
        Behavior::Separate => with_mag_spec(
            (me.position.x - b.position.x, me.position.y - b.position.y),
            (SCALE_SQ as int) / dist,
        ),
        Behavior::Cohesion => b.position@,
    }
}

/// Sum of contributions over every element of `bs` other than `me` itself.
pub open spec fn flock_sum(me: Boid, bs: Seq<Boid>, k: Behavior, dist: int) -> (int, int)
    decreases bs.len(),
{
    if bs.len() == 0 {
        (0int, 0int)
    } else {
        let rest = flock_sum(me, bs.drop_last(), k, dist);
        if bs.last() == me {
            rest
        } else {
            let c = contribution(me, bs.last(), k, dist);
            (rest.0 + c.0, rest.1 + c.1)
        }
    }
}

/// How many elements of `bs` are not `me` itself.
pub open spec fn flock_count(me: Boid, bs: Seq<Boid>) -> int
    decreases bs.len(),
{
    if bs.len() == 0 {
        0int
    } else {
        flock_count(me, bs.drop_last()) + if bs.last() == me {
            0int
        } else {
            1int
        }
    }
}

/// Steer toward direction `t`: the desired velocity is `t` scaled to
/// `MAXSPEED`, and the steering force is the change from the current velocity,
/// capped at `MAXFORCE`.
pub open spec fn steer_spec(me: Boid, t: (int, int)) -> (int, int) {
    let des = with_mag_spec(t, MAXSPEED as int);
    limit_mag_spec((des.0 - me.velocity.x, des.1 - me.velocity.y), MAXFORCE as int)
}

/// Seek a target point: steer toward the vector from the agent to the target.
pub open spec fn seek_spec(me: Boid, t: (int, int)) -> (int, int) {
    steer_spec(me, (t.0 - me.position.x, t.1 - me.position.y))
}

/// Componentwise division by a positive count, truncated toward zero.
pub open spec fn div2(v: (int, int), c: int) -> (int, int) {
    (scale_div(v.0, 1, c), scale_div(v.1, 1, c))
}

/// The steering force a behavior produces from a neighbor set: the zero
/// vector when no neighbor other than the agent itself exists, otherwise the
/// behavior's combination of the contribution sum.
pub open spec fn flock_force(me: Boid, bs: Seq<Boid>, k: Behavior, dist: int) -> (int, int) {
    let n = flock_count(me, bs);
    if n == 0 {
        (0int, 0int)
    } else {
        let s = flock_sum(me, bs, k, dist);
        match k {
            Behavior::Align => steer_spec(me, div2(s, n)),
            Behavior::Separate => if s == (0int, 0int) {
                (0int, 0int)
            } else {
                steer_spec(me, s)
            },
            Behavior::Cohesion => seek_spec(me, div2(s, n)),
        }
    }
}

/// Toroidal boundary wrap: each of the four edge tests is made against the
/// pre-wrap position, independently per axis; a coordinate past one edge is
/// set to the opposite edge.
pub open spec fn wrap_spec(p: (int, int), w: Rect) -> (int, int) {
    let nx = if p.0 < w.bl.x {
        w.tr.x as int
    } else if p.0 > w.tr.x {
        w.bl.x as int
    } else {
        p.0
    };
    let ny = if p.1 < w.bl.y {
        w.tr.y as int
    } else if p.1 > w.tr.y {
        w.bl.y as int
    } else {
        p.1
    };
    (nx, ny)
}

/// One neighbor's contribution stays within `COORD_LIMIT` per component.
pub proof fn lemma_contribution_bound(me: Boid, b: Boid, k: Behavior, dist: int)
    requires
        boid_ok(me),
        boid_ok(b),
        k == Behavior::Separate ==> 1 <= dist <= COORD_LIMIT as int,
    ensures
        in_bound(contribution(me, b, k, dist), COORD_LIMIT as int),
{
    match k {
        Behavior::Align => {},
        Behavior::Separate => {
            let m = (SCALE_SQ as int) / dist;
            vstd::arithmetic::div_mod::lemma_div_pos_is_pos(SCALE_SQ as int, dist);
            vstd::arithmetic::div_mod::lemma_div_nonincreasing(SCALE_SQ as int, dist);
            crate::vec2::lemma_with_mag_norm(
                (me.position.x - b.position.x, me.position.y - b.position.y),
                m,
            );
        },
        Behavior::Cohesion => {},
    }
}

/// The contribution sum grows by at most `COORD_LIMIT` per counted neighbor.
pub proof fn lemma_flock_sum_bound(me: Boid, bs: Seq<Boid>, k: Behavior, dist: int)
    requires
        boid_ok(me),
        forall|i: int| 0 <= i < bs.len() ==> boid_ok(#[trigger] bs[i]),
        k == Behavior::Separate ==> 1 <= dist <= COORD_LIMIT as int,
    ensures
        0 <= flock_count(me, bs) <= bs.len(),
        crate::vec2::iabs(flock_sum(me, bs, k, dist).0) <= flock_count(me, bs) * (
        COORD_LIMIT as int),
        crate::vec2::iabs(flock_sum(me, bs, k, dist).1) <= flock_count(me, bs) * (
        COORD_LIMIT as int),
    decreases bs.len(),
{
    if bs.len() > 0 {
        lemma_flock_sum_bound(me, bs.drop_last(), k, dist);
        let n0 = flock_count(me, bs.drop_last());
        let n1 = flock_count(me, bs);
        if bs.last() != me {
            lemma_contribution_bound(me, bs.last(), k, dist);
            assert(n1 * (COORD_LIMIT as int) == n0 * (COORD_LIMIT as int) + COORD_LIMIT as int)
                by (nonlinear_arith)
                requires
                    n1 == n0 + 1,
            ;
        }
    }
}

impl Boid {
    /// A stationary, unhighlighted agent at the given position.
    pub fn new(x: i64, y: i64) -> (r: Boid)
        ensures
            r.position@ == (x as int, y as int),
            r.velocity@ == (0int, 0int),
            r.acceleration@ == (0int, 0int),
            r.highlight == false,
    {
        let position = Vec2 { x, y };
        let velocity = Vec2 { x: 0, y: 0 };
        let acceleration = Vec2 { x: 0, y: 0 };
        let highlight = false;
        Boid { position, velocity, acceleration, highlight }
    }

    /// The agent's position, the coordinate the spatial index stores.
    pub fn pos(&self) -> (r: Vec2)
        ensures
            r == self.position,
    {
        self.position
    }

    /// Steer toward `t` at `MAXSPEED`, force-capped; shared by all behaviors.
    fn steer(&self, t: Vec2) -> (r: Vec2)
        requires
            in_bound(t@, VEC_LIMIT as int),
            in_bound(self.velocity@, COORD_LIMIT as int),
        ensures
            r@ == steer_spec(*self, t@),
            norm_sq(r@) <= sq(MAXFORCE as int),
            in_bound(r@, MAXFORCE as int),
    {
        let des = t.with_magnitude(MAXSPEED);
        let diff = des.sub(self.velocity);
        diff.limit_magnitude(MAXFORCE)
    }

    /// Steer toward a target point (the cohesion combination).
    fn seek(&self, target: Vec2) -> (r: Vec2)
        requires
            in_bound(target@, COORD_LIMIT as int),
            in_bound(self.position@, COORD_LIMIT as int),
            in_bound(self.velocity@, COORD_LIMIT as int),
        ensures
            r@ == seek_spec(*self, target@),
            norm_sq(r@) <= sq(MAXFORCE as int),
            in_bound(r@, MAXFORCE as int),
    {
        let dir = target.sub(self.position);
        self.steer(dir)
    }

    /// The shared reduction: sum `kind`'s contribution over every agent of
    /// `boids` other than `self`, and combine the sum into a steering force;
    /// with no other agent the force is zero. `dist` is the desired
    /// separation distance and is read only by `Behavior::Separate`.
    pub fn accumualte(&self, boids: &Vec<Boid>, kind: Behavior, dist: i64) -> (r: Vec2)
        requires
            boid_ok(*self),
            forall|i: int| 0 <= i < boids@.len() ==> boid_ok(#[trigger] boids@[i]),
            boids@.len() <= COUNT_LIMIT as int,
            kind == Behavior::Separate ==> 1 <= dist <= COORD_LIMIT,
        ensures
            r@ == flock_force(*self, boids@, kind, dist as int),
            norm_sq(r@) <= sq(MAXFORCE as int),
            in_bound(r@, MAXFORCE as int),
    {
        let ghost all = boids@;
        let mut sum = Vec2 { x: 0, y: 0 };
        let mut count: usize = 0;
        let mut i: usize = 0;
        while i < boids.len()
            invariant
                0 <= i <= all.len(),
                all == boids@,
                all.len() <= COUNT_LIMIT as int,
                boid_ok(*self),
                forall|j: int| 0 <= j < all.len() ==> boid_ok(#[trigger] all[j]),
                kind == Behavior::Separate ==> 1 <= dist <= COORD_LIMIT,
                (sum.x as int, sum.y as int) == flock_sum(*self, all.take(i as int), kind,
                dist as int),
                count as int == flock_count(*self, all.take(i as int)),
                count <= i,
                crate::vec2::iabs(sum.x as int) <= count * (COORD_LIMIT as int),
                crate::vec2::iabs(sum.y as int) <= count * (COORD_LIMIT as int),
            decreases all.len() - i,
        {
            let b = boids[i];
            proof {
                assert(all.take(i as int + 1).drop_last() =~= all.take(i as int));
                assert(all.take(i as int + 1).last() == all[i as int]);
            }
            if b != *self {
                let c: Vec2 = match kind {
                    Behavior::Align => b.velocity,
                    Behavior::Separate => {
                        let m_inv = ((SCALE_SQ as u64) / (dist as u64)) as i64;
                        self.position.sub(b.position).with_magnitude(m_inv)
                    },
                    Behavior::Cohesion => b.position,
                };
                proof {
                    lemma_contribution_bound(*self, b, kind, dist as int);
                }
                sum = sum.add(c);
                count = count + 1;
            }
            i = i + 1;
        }
        proof {
            assert(all.take(all.len() as int) =~= all);
        }
        if count > 0 {
            match kind {
                Behavior::Align => {
                    proof {
                        crate::vec2::lemma_scale_div_le(sum.x as int, 1, count as int, crate::vec2::iabs(sum.x as int));
                        crate::vec2::lemma_scale_div_le(sum.y as int, 1, count as int, crate::vec2::iabs(sum.y as int));
                        crate::vec2::lemma_div_le_factor(
                            crate::vec2::iabs(sum.x as int) * 1,
                            count as int,
                            COORD_LIMIT as int,
                        );
                        crate::vec2::lemma_div_le_factor(
                            crate::vec2::iabs(sum.y as int) * 1,
                            count as int,
                            COORD_LIMIT as int,
                        );
                    }
                    let sdiv = sum.div_count(count as i64);
                    self.steer(sdiv)
                },
                Behavior::Separate => {
                    if sum.x == 0 && sum.y == 0 {
                        Vec2 { x: 0, y: 0 }
                    } else {
                        self.steer(sum)
                    }
                },
                Behavior::Cohesion => {
                    proof {
                        crate::vec2::lemma_scale_div_le(sum.x as int, 1, count as int, crate::vec2::iabs(sum.x as int));
                        crate::vec2::lemma_scale_div_le(sum.y as int, 1, count as int, crate::vec2::iabs(sum.y as int));
                        crate::vec2::lemma_div_le_factor(
                            crate::vec2::iabs(sum.x as int) * 1,
                            count as int,
                            COORD_LIMIT as int,
                        );
                        crate::vec2::lemma_div_le_factor(
                            crate::vec2::iabs(sum.y as int) * 1,
                            count as int,
                            COORD_LIMIT as int,
                        );
                    }
                    let sdiv = sum.div_count(count as i64);
                    self.seek(sdiv)
                },
            }
        } else {
            Vec2 { x: 0, y: 0 }
        }
    }

    /// Alignment: steer toward the average velocity of the neighbors.
    pub fn align(&self, boids: &Vec<Boid>) -> (r: Vec2)
        requires
            boid_ok(*self),
            forall|i: int| 0 <= i < boids@.len() ==> boid_ok(#[trigger] boids@[i]),
            boids@.len() <= COUNT_LIMIT as int,
        ensures
            r@ == flock_force(*self, boids@, Behavior::Align, 1),
            norm_sq(r@) <= sq(MAXFORCE as int),
            in_bound(r@, MAXFORCE as int),
    {
        self.accumualte(boids, Behavior::Align, 1)
    }

    /// Separation: steer away from neighbors, each pushing with the
    /// fixed-point reciprocal of the desired distance `dist`.
    pub fn separate(&self, boids: &Vec<Boid>, dist: i64) -> (r: Vec2)
        requires
            boid_ok(*self),
            forall|i: int| 0 <= i < boids@.len() ==> boid_ok(#[trigger] boids@[i]),
            boids@.len() <= COUNT_LIMIT as int,
            1 <= dist <= COORD_LIMIT,
        ensures
            r@ == flock_force(*self, boids@, Behavior::Separate, dist as int),
            norm_sq(r@) <= sq(MAXFORCE as int),
            in_bound(r@, MAXFORCE as int),
    {
        self.accumualte(boids, Behavior::Separate, dist)
    }

    /// Cohesion: steer toward the neighbors' average position.
    pub fn cohesion(&self, boids: &Vec<Boid>) -> (r: Vec2)
        requires
            boid_ok(*self),
            forall|i: int| 0 <= i < boids@.len() ==> boid_ok(#[trigger] boids@[i]),
            boids@.len() <= COUNT_LIMIT as int,
        ensures
            r@ == flock_force(*self, boids@, Behavior::Cohesion, 1),
            norm_sq(r@) <= sq(MAXFORCE as int),
            in_bound(r@, MAXFORCE as int),
    {
        self.accumualte(boids, Behavior::Cohesion, 1)
    }

    /// Advance motion one tick: velocity takes the spent acceleration and is
    /// capped at `MAXSPEED`, the position moves by the new velocity, and the
    /// acceleration resets to zero. The speed cap holds for any admitted
    /// pre-update acceleration.
    pub fn update(&mut self)
        requires
            in_bound(old(self).position@, COORD_LIMIT as int),
            in_bound(old(self).velocity@, COORD_LIMIT as int),
            in_bound(old(self).acceleration@, 2 * COORD_LIMIT as int),
        ensures
            final(self).velocity@ == limit_mag_spec(
                (
                    old(self).velocity.x + old(self).acceleration.x,
                    old(self).velocity.y + old(self).acceleration.y,
                ),
                MAXSPEED as int,
            ),
            final(self).position@ == (
                old(self).position.x + final(self).velocity.x,
                old(self).position.y + final(self).velocity.y,
            ),
            final(self).acceleration@ == (0int, 0int),
            final(self).highlight == old(self).highlight,
            norm_sq(final(self).velocity@) <= sq(MAXSPEED as int),
            in_bound(final(self).velocity@, MAXSPEED as int),
            in_bound(final(self).position@, COORD_LIMIT + MAXSPEED as int),
    {
        let v = self.velocity.add(self.acceleration);
        let v2 = v.limit_magnitude(MAXSPEED);
        self.velocity = v2;
        self.position = self.position.add(v2);
        self.acceleration = Vec2 { x: 0, y: 0 };
    }

    /// Toroidal boundary handling: each of the four edges is tested against
    /// the pre-wrap position, independently per axis, and a crossed edge puts
    /// the agent at the opposite edge.
    pub fn borders(&mut self, win: &Rect)
        requires
            win.bl.x <= win.tr.x,
            win.bl.y <= win.tr.y,
        ensures
            final(self).position@ == wrap_spec(old(self).position@, *win),
            final(self).velocity == old(self).velocity,
            final(self).acceleration == old(self).acceleration,
            final(self).highlight == old(self).highlight,
            win.bl.x <= final(self).position.x <= win.tr.x,
            win.bl.y <= final(self).position.y <= win.tr.y,
    {
        let px = self.position.x;
        let py = self.position.y;
        let nx = if px < win.bl.x {
            win.tr.x
        } else if px > win.tr.x {
            win.bl.x
        } else {
            px
        };
        let ny = if py < win.bl.y {
            win.tr.y
        } else if py > win.tr.y {
            win.bl.y
        } else {
            py
        };
        self.position = Vec2 { x: nx, y: ny };
    }
}

/// With no neighbor besides itself, an agent is not counted in its own
/// reduction.
pub proof fn lemma_flock_count_self(me: Boid, bs: Seq<Boid>)
    requires
        forall|i: int| 0 <= i < bs.len() ==> #[trigger] bs[i] == me,
    ensures
        flock_count(me, bs) == 0,
    decreases bs.len(),
{
    if bs.len() > 0 {
        lemma_flock_count_self(me, bs.drop_last());
    }
}

/// A lone agent receives no steering: over a population holding only the
/// agent itself, each of the three behaviors yields the zero vector.
pub proof fn lemma_single_agent_zero_force(me: Boid, bs: Seq<Boid>, k: Behavior, dist: int)
    requires
        forall|i: int| 0 <= i < bs.len() ==> #[trigger] bs[i] == me,
    ensures
        flock_force(me, bs, k, dist) == (0int, 0int),
{
    lemma_flock_count_self(me, bs);
}

/// The shared reduction as one fold operator over `(sum.x, sum.y, count)`.
pub open spec fn reduce_fn(me: Boid, k: Behavior, dist: int) -> spec_fn(
    Boid,
    (int, int, int),
) -> (int, int, int) {
    |b: Boid, acc: (int, int, int)|
        if b == me {
            acc
        } else {
            let c = contribution(me, b, k, dist);
            (acc.0 + c.0, acc.1 + c.1, acc.2 + 1)
        }
}

proof fn lemma_reduce_commutes(me: Boid, k: Behavior, dist: int)
    ensures
        vstd::seq_lib::commutative_foldr(reduce_fn(me, k, dist)),
{
    let f = reduce_fn(me, k, dist);
    assert forall|x: Boid, y: Boid, v: (int, int, int)| #[trigger] f(x, f(y, v)) == f(
        y,
        f(x, v),
    ) by {}
}

proof fn lemma_sum_is_fold(me: Boid, s: Seq<Boid>, k: Behavior, dist: int)
    ensures
        s.fold_right(reduce_fn(me, k, dist), (0int, 0int, 0int)) == (
            flock_sum(me, s, k, dist).0,
            flock_sum(me, s, k, dist).1,
            flock_count(me, s),
        ),
    decreases s.len(),
{
    let f = reduce_fn(me, k, dist);
    if s.len() > 0 {
        lemma_sum_is_fold(me, s.drop_last(), k, dist);
        lemma_reduce_commutes(me, k, dist);
        s.drop_last().lemma_fold_right_commute_one(s.last(), f, (0int, 0int, 0int));
    }
}

/// The reductions read their neighbor set as an unordered collection: two
/// sequences holding the same agents with the same multiplicities — in any
/// order — produce the same contribution sum, the same count and the same
/// steering force.
pub proof fn lemma_force_depends_on_multiset(
    me: Boid,
    s1: Seq<Boid>,
    s2: Seq<Boid>,
    k: Behavior,
    dist: int,
)
    requires
        s1.to_multiset() == s2.to_multiset(),
    ensures
        flock_sum(me, s1, k, dist) == flock_sum(me, s2, k, dist),
        flock_count(me, s1) == flock_count(me, s2),
        flock_force(me, s1, k, dist) == flock_force(me, s2, k, dist),
{
    let f = reduce_fn(me, k, dist);
    lemma_reduce_commutes(me, k, dist);
    lemma_sum_is_fold(me, s1, k, dist);
    lemma_sum_is_fold(me, s2, k, dist);
    vstd::seq_lib::lemma_fold_right_permutation(s1, s2, f, (0int, 0int, 0int));
}

/// Toroidal consistency of the wrap: a position past one edge re-enters at
/// the opposite edge, a coordinate inside its range is kept, and the two axes
/// never disturb each other.
pub proof fn lemma_wraparound(p: (int, int), w: Rect)
    requires
        w.bl.x <= w.tr.x,
        w.bl.y <= w.tr.y,
    ensures
        p.0 < w.bl.x ==> wrap_spec(p, w).0 == w.tr.x,
        p.0 > w.tr.x ==> wrap_spec(p, w).0 == w.bl.x,
        w.bl.x <= p.0 <= w.tr.x ==> wrap_spec(p, w).0 == p.0,
        p.1 < w.bl.y ==> wrap_spec(p, w).1 == w.tr.y,
        p.1 > w.tr.y ==> wrap_spec(p, w).1 == w.bl.y,
        w.bl.y <= p.1 <= w.tr.y ==> wrap_spec(p, w).1 == p.1,
        forall|q: int| #[trigger] wrap_spec((p.0, q), w).0 == wrap_spec(p, w).0,
        forall|q: int| #[trigger] wrap_spec((q, p.1), w).1 == wrap_spec(p, w).1,
{
}

} // verus!
