//! The spatial index: a quadtree over agent positions.
//!
//! A node covers an axis-aligned box and is either a leaf holding agents or
//! an internal node with four children tiling the box's quadrants. Inserting
//! into a full leaf whose box can still be bisected converts it into an
//! internal node and redistributes its agents; a box too small to bisect
//! keeps growing as a leaf, the accepted degenerate-clustering trade-off.
//! The index is rebuilt from scratch every tick, so there is no deletion.
//!
//! `points` is the node's model: the sequence of agents stored under it.
//! Insertion grows that model by exactly the inserted agent (as a multiset:
//! no loss, no duplication), and a circular range query returns exactly the
//! stored agents within the radius — the same result as a brute-force scan
//! of the model.

use crate::boid::{boid_ok, Boid};
use crate::vec2::{in_bound, sq, Vec2, COORD_LIMIT};
use vstd::prelude::*;
use vstd::seq_lib::lemma_flatten_concat;
use vstd::seq_lib::lemma_multiset_commutative;

verus! {

/// Leaf capacity: inserting beyond it subdivides the leaf (when its box can
/// still be bisected on both axes).
pub const CAPACITY: usize = 4;

/// A quadtree node.
pub enum SpatialIndex {
    /// Agents stored directly.
    Leaf(Vec<Boid>),
    /// Four children covering the box's quadrants.
    Internal(Box<Quadrants>),
}

/// The four children of an internal node, named by the quadrant each covers.
pub struct Quadrants {
    pub bl: SpatialIndex,
    pub br: SpatialIndex,
    pub tl: SpatialIndex,
    pub tr: SpatialIndex,
}

/// A well-formed box: ordered corners within the coordinate range.
pub open spec fn box_ok(bl: Vec2, tr: Vec2) -> bool {
    &&& bl.x <= tr.x
    &&& bl.y <= tr.y
    &&& in_bound(bl@, COORD_LIMIT as int)
    &&& in_bound(tr@, COORD_LIMIT as int)
}

/// The closed box contains the point.
pub open spec fn contains_pt(bl: Vec2, tr: Vec2, p: Vec2) -> bool {
    bl.x <= p.x <= tr.x && bl.y <= p.y <= tr.y
}

/// Both axes can still be bisected into non-degenerate halves.
pub open spec fn splittable(bl: Vec2, tr: Vec2) -> bool {
    tr.x - bl.x >= 2 && tr.y - bl.y >= 2
}

/// The box midpoint, rounding each axis down.
pub open spec fn mid(bl: Vec2, tr: Vec2) -> Vec2 {
    Vec2 {
        x: (bl.x + (tr.x - bl.x) / 2) as i64,
        y: (bl.y + (tr.y - bl.y) / 2) as i64,
    }
}

/// Bottom-left quadrant box.
pub open spec fn blq(bl: Vec2, tr: Vec2) -> (Vec2, Vec2) {
    (bl, mid(bl, tr))
}

/// Bottom-right quadrant box.
pub open spec fn brq(bl: Vec2, tr: Vec2) -> (Vec2, Vec2) {
    (Vec2 { x: mid(bl, tr).x, y: bl.y }, Vec2 { x: tr.x, y: mid(bl, tr).y })
}

/// Top-left quadrant box.
pub open spec fn tlq(bl: Vec2, tr: Vec2) -> (Vec2, Vec2) {
    (Vec2 { x: bl.x, y: mid(bl, tr).y }, Vec2 { x: mid(bl, tr).x, y: tr.y })
}

/// Top-right quadrant box.
pub open spec fn trq(bl: Vec2, tr: Vec2) -> (Vec2, Vec2) {
    (mid(bl, tr), tr)
}

/// Size measure of a box, the termination measure of insertion: quadrant
/// boxes of a splittable box are strictly smaller.
pub open spec fn box_measure(bl: Vec2, tr: Vec2) -> int {
    (tr.x - bl.x) + (tr.y - bl.y)
}

/// Well-formedness of a node over its box: every stored agent is in range
/// and inside the box; a leaf respects the capacity unless its box cannot be
/// bisected; an internal node's children are well-formed over the quadrants.
pub open spec fn wf(n: SpatialIndex, bl: Vec2, tr: Vec2) -> bool
    decreases n,
{
    &&& box_ok(bl, tr)
    &&& match n {
        SpatialIndex::Leaf(pts) => {
            &&& forall|i: int|
                0 <= i < pts@.len() ==> contains_pt(bl, tr, (#[trigger] pts@[i]).position)
                    && boid_ok(pts@[i])
            &&& (pts@.len() <= CAPACITY as int || !splittable(bl, tr))
        },
        SpatialIndex::Internal(q) => {
            &&& splittable(bl, tr)
            &&& wf((*q).bl, blq(bl, tr).0, blq(bl, tr).1)
            &&& wf((*q).br, brq(bl, tr).0, brq(bl, tr).1)
            &&& wf((*q).tl, tlq(bl, tr).0, tlq(bl, tr).1)
            &&& wf((*q).tr, trq(bl, tr).0, trq(bl, tr).1)
        },
    }
}

/// The agents stored under the four children, in quadrant order.
pub open spec fn quad_points(q: Quadrants) -> Seq<Boid> {
    points(q.bl) + points(q.br) + points(q.tl) + points(q.tr)
}

/// The node's model: the agents stored under it, leaves concatenated in
/// quadrant order.
pub open spec fn points(n: SpatialIndex) -> Seq<Boid>
    decreases n,
{
    match n {
        SpatialIndex::Leaf(pts) => pts@,
        SpatialIndex::Internal(q) => points((*q).bl) + points((*q).br) + points((*q).tl)
            + points((*q).tr),
    }
}

/// The contents of each leaf, one sequence per leaf.
pub open spec fn leaf_seqs(n: SpatialIndex) -> Seq<Seq<Boid>>
    decreases n,
{
    match n {
        SpatialIndex::Leaf(pts) => seq![pts@],
        SpatialIndex::Internal(q) => leaf_seqs((*q).bl) + leaf_seqs((*q).br) + leaf_seqs((*q).tl)
            + leaf_seqs((*q).tr),
    }
}

/// The agent lies within `rad` of `c` (by squared distance, exactly).
pub open spec fn in_circle(b: Boid, c: Vec2, rad: int) -> bool {
    sq(b.position.x - c.x) + sq(b.position.y - c.y) <= sq(rad)
}

/// The range-query predicate as a single named value, so every statement
/// about a query filters with the same function.
pub open spec fn circle_pred(c: Vec2, rad: int) -> spec_fn(Boid) -> bool {
    |b: Boid| in_circle(b, c, rad)
}

/// The box misses the circle's bounding square, the query's pruning test.
pub open spec fn box_misses(bl: Vec2, tr: Vec2, c: Vec2, rad: int) -> bool {
    tr.x < c.x - rad || bl.x > c.x + rad || tr.y < c.y - rad || bl.y > c.y + rad
}

/// Pruning is sound: no point inside a box that misses the bounding square
/// is within the radius.
pub proof fn lemma_miss_excludes(bl: Vec2, tr: Vec2, c: Vec2, rad: int, b: Boid)
    requires
        rad >= 0,
        box_misses(bl, tr, c, rad),
        contains_pt(bl, tr, b.position),
    ensures
        !in_circle(b, c, rad),
{
    let dx = b.position.x - c.x;
    let dy = b.position.y - c.y;
    assert(sq(dx) >= 0 && sq(dy) >= 0) by (nonlinear_arith);
    if dx > rad || dx < -rad {
        assert(sq(dx) > sq(rad)) by (nonlinear_arith)
            requires
                rad >= 0,
                dx > rad || dx < -rad,
        ;
    } else {
        assert(sq(dy) > sq(rad)) by (nonlinear_arith)
            requires
                rad >= 0,
                dy > rad || dy < -rad,
        ;
    }
}

/// Every agent stored under a well-formed node is in range and inside the
/// node's box.
pub proof fn lemma_points_in_box(n: SpatialIndex, bl: Vec2, tr: Vec2)
    requires
        wf(n, bl, tr),
    ensures
        forall|i: int|
            0 <= i < points(n).len() ==> contains_pt(bl, tr, (#[trigger] points(n)[i]).position)
                && boid_ok(points(n)[i]),
    decreases n,
{
    match n {
        SpatialIndex::Leaf(pts) => {},
        SpatialIndex::Internal(q) => {
            lemma_points_in_box((*q).bl, blq(bl, tr).0, blq(bl, tr).1);
            lemma_points_in_box((*q).br, brq(bl, tr).0, brq(bl, tr).1);
            lemma_points_in_box((*q).tl, tlq(bl, tr).0, tlq(bl, tr).1);
            lemma_points_in_box((*q).tr, trq(bl, tr).0, trq(bl, tr).1);
            let a = points((*q).bl);
            let b = points((*q).br);
            let cc = points((*q).tl);
            let d = points((*q).tr);
            assert(points(n) == a + b + cc + d);
            assert forall|i: int|
                0 <= i < points(n).len() implies contains_pt(
                bl,
                tr,
                (#[trigger] points(n)[i]).position,
            ) && boid_ok(points(n)[i]) by {
                if i < a.len() {
                    assert(points(n)[i] == a[i]);
                } else if i < a.len() + b.len() {
                    assert(points(n)[i] == b[i - a.len()]);
                } else if i < a.len() + b.len() + cc.len() {
                    assert(points(n)[i] == cc[i - a.len() - b.len()]);
                } else {
                    assert(points(n)[i] == d[i - a.len() - b.len() - cc.len()]);
                }
            }
        },
    }
}

/// A filter over elements that all fail the predicate is empty.
pub proof fn lemma_filter_all_false(s: Seq<Boid>, pred: spec_fn(Boid) -> bool)
    requires
        forall|i: int| 0 <= i < s.len() ==> !pred(#[trigger] s[i]),
    ensures
        s.filter(pred) =~= Seq::<Boid>::empty(),
    decreases s.len(),
{
    reveal(Seq::filter);
    if s.len() > 0 {
        lemma_filter_all_false(s.drop_last(), pred);
    }
}

/// Filtering one more element extends the filtered prefix by that element
/// exactly when it satisfies the predicate.
pub proof fn lemma_filter_push(s: Seq<Boid>, i: int, pred: spec_fn(Boid) -> bool)
    requires
        0 <= i < s.len(),
    ensures
        s.take(i + 1).filter(pred) == if pred(s[i]) {
            s.take(i).filter(pred).push(s[i])
        } else {
            s.take(i).filter(pred)
        },
{
    reveal(Seq::filter);
    assert(s.take(i + 1).drop_last() =~= s.take(i));
    assert(s.take(i + 1).last() == s[i]);
}

impl SpatialIndex {
    /// An empty index: a leaf holding nothing, well-formed over any box.
    pub fn empty() -> (r: SpatialIndex)
        ensures
            points(r) =~= Seq::<Boid>::empty(),
            forall|bl: Vec2, tr: Vec2| box_ok(bl, tr) ==> #[trigger] wf(r, bl, tr),
    {
        SpatialIndex::Leaf(Vec::new())
    }

    /// Insert an agent into the subtree over the box `[bl, tr]`. An agent
    /// outside the box is silently dropped (the tick inserts every agent at
    /// the world rectangle, so this occurs only for agents that left it). A
    /// full leaf over a bisectable box subdivides and redistributes; the
    /// quadrant is chosen by midpoint comparison, ties toward bottom-left.
    /// The stored multiset grows by exactly the inserted agent: nothing is
    /// lost and nothing is duplicated.
    pub fn insert(self, b: Boid, bl: Vec2, tr: Vec2) -> (r: SpatialIndex)
        requires
            wf(self, bl, tr),
            boid_ok(b),
        ensures
            wf(r, bl, tr),
            contains_pt(bl, tr, b.position) ==> points(r).to_multiset() == points(
                self,
            ).to_multiset().insert(b),
            !contains_pt(bl, tr, b.position) ==> r == self,
        decreases box_measure(bl, tr), 1int,
    {
        if !(bl.x <= b.position.x && b.position.x <= tr.x && bl.y <= b.position.y
            && b.position.y <= tr.y) {
            return self;
        }
        match self {
            SpatialIndex::Leaf(mut pts) => {
                if pts.len() < CAPACITY || !(tr.x - bl.x >= 2 && tr.y - bl.y >= 2) {
                    let ghost old_pts = pts@;
                    pts.push(b);
                    proof {
                        broadcast use vstd::seq_lib::group_to_multiset_ensures;

                        assert(pts@ == old_pts.push(b));
                    }
                    SpatialIndex::Leaf(pts)
                } else {
                    let ghost old_pts = pts@;
                    let mut q = Quadrants {
                        bl: SpatialIndex::Leaf(Vec::new()),
                        br: SpatialIndex::Leaf(Vec::new()),
                        tl: SpatialIndex::Leaf(Vec::new()),
                        tr: SpatialIndex::Leaf(Vec::new()),
                    };
                    proof {
                        assert(quad_points(q) =~= Seq::<Boid>::empty());
                        assert(old_pts.take(0) =~= Seq::<Boid>::empty());
                    }
                    let mut i: usize = 0;
                    while i < pts.len()
                        invariant
                            0 <= i <= pts@.len(),
                            pts@ == old_pts,
                            box_ok(bl, tr),
                            splittable(bl, tr),
                            forall|j: int|
                                0 <= j < old_pts.len() ==> contains_pt(
                                    bl,
                                    tr,
                                    (#[trigger] old_pts[j]).position,
                                ) && boid_ok(old_pts[j]),
                            wf(q.bl, blq(bl, tr).0, blq(bl, tr).1),
                            wf(q.br, brq(bl, tr).0, brq(bl, tr).1),
                            wf(q.tl, tlq(bl, tr).0, tlq(bl, tr).1),
                            wf(q.tr, trq(bl, tr).0, trq(bl, tr).1),
                            quad_points(q).to_multiset() == old_pts.take(i as int).to_multiset(),
                        decreases old_pts.len() - i,
                    {
                        let p = pts[i];
                        q = route_insert(q, p, bl, tr);
                        proof {
                            broadcast use vstd::seq_lib::group_to_multiset_ensures;

                            assert(old_pts.take(i as int + 1) =~= old_pts.take(i as int).push(
                                old_pts[i as int],
                            ));
                        }
                        i = i + 1;
                    }
                    proof {
                        assert(old_pts.take(old_pts.len() as int) =~= old_pts);
                    }
                    let q2 = route_insert(q, b, bl, tr);
                    proof {
                        lemma_multiset_commutative(points(q2.bl), points(q2.br));
                        lemma_multiset_commutative(
                            points(q2.bl) + points(q2.br),
                            points(q2.tl),
                        );
                        lemma_multiset_commutative(
                            points(q2.bl) + points(q2.br) + points(q2.tl),
                            points(q2.tr),
                        );
                    }
                    SpatialIndex::Internal(Box::new(q2))
                }
            },
            SpatialIndex::Internal(q) => {
                let qs: Quadrants = *q;
                let q2 = route_insert(qs, b, bl, tr);
                proof {
                    lemma_multiset_commutative(points(q2.bl), points(q2.br));
                    lemma_multiset_commutative(points(q2.bl) + points(q2.br), points(q2.tl));
                    lemma_multiset_commutative(
                        points(q2.bl) + points(q2.br) + points(q2.tl),
                        points(q2.tr),
                    );
                    lemma_multiset_commutative(points(qs.bl), points(qs.br));
                    lemma_multiset_commutative(points(qs.bl) + points(qs.br), points(qs.tl));
                    lemma_multiset_commutative(
                        points(qs.bl) + points(qs.br) + points(qs.tl),
                        points(qs.tr),
                    );
                }
                SpatialIndex::Internal(Box::new(q2))
            },
        }
    }

    /// Collect every stored agent, for the renderer and for tests.
    pub fn collect_points(&self) -> (r: Vec<Boid>)
        ensures
            r@ == points(*self),
        decreases *self,
    {
        match self {
            SpatialIndex::Leaf(pts) => {
                let mut out: Vec<Boid> = Vec::new();
                let mut i: usize = 0;
                while i < pts.len()
                    invariant
                        0 <= i <= pts@.len(),
                        out@ == pts@.take(i as int),
                    decreases pts@.len() - i,
                {
                    out.push(pts[i]);
                    proof {
                        assert(pts@.take(i as int + 1) =~= pts@.take(i as int).push(
                            pts@[i as int],
                        ));
                    }
                    i = i + 1;
                }
                proof {
                    assert(pts@.take(pts@.len() as int) =~= pts@);
                }
                out
            },
            SpatialIndex::Internal(q) => {
                let mut out = q.bl.collect_points();
                let mut o2 = q.br.collect_points();
                out.append(&mut o2);
                let mut o3 = q.tl.collect_points();
                out.append(&mut o3);
                let mut o4 = q.tr.collect_points();
                out.append(&mut o4);
                out
            },
        }
    }

    /// All stored agents within `radius` of `center`: exactly the agents a
    /// brute-force scan of the stored sequence would keep, in stored order.
    /// Subtrees whose box misses the circle's bounding square are pruned.
    pub fn query_circle(&self, bl: Vec2, tr: Vec2, center: Vec2, radius: i64) -> (r: Vec<Boid>)
        requires
            wf(*self, bl, tr),
            in_bound(center@, COORD_LIMIT as int),
            0 <= radius <= COORD_LIMIT,
        ensures
            r@ == points(*self).filter(circle_pred(center, radius as int)),
        decreases *self,
    {
        let ghost pred = circle_pred(center, radius as int);
        if tr.x < center.x - radius || bl.x > center.x + radius || tr.y < center.y - radius
            || bl.y > center.y + radius {
            proof {
                lemma_points_in_box(*self, bl, tr);
                assert forall|i: int| 0 <= i < points(*self).len() implies !pred(
                    #[trigger] points(*self)[i],
                ) by {
                    lemma_miss_excludes(bl, tr, center, radius as int, points(*self)[i]);
                }
                lemma_filter_all_false(points(*self), pred);
            }
            return Vec::new();
        }
        match self {
            SpatialIndex::Leaf(pts) => {
                let mut out: Vec<Boid> = Vec::new();
                let mut i: usize = 0;
                while i < pts.len()
                    invariant
                        0 <= i <= pts@.len(),
                        wf(*self, bl, tr),
                        self is Leaf,
                        pts@ == points(*self),
                        in_bound(center@, COORD_LIMIT as int),
                        0 <= radius <= COORD_LIMIT,
                        pred == circle_pred(center, radius as int),
                        out@ == pts@.take(i as int).filter(pred),
                    decreases pts@.len() - i,
                {
                    let p = pts[i];
                    let dx = p.position.x - center.x;
                    let dy = p.position.y - center.y;
                    let adx: u64 = if dx < 0 {
                        (-dx) as u64
                    } else {
                        dx as u64
                    };
                    let ady: u64 = if dy < 0 {
                        (-dy) as u64
                    } else {
                        dy as u64
                    };
                    proof {
                        assert((adx as int) * (adx as int) == sq(dx as int)
                            && (ady as int) * (ady as int) == sq(dy as int)) by (nonlinear_arith)
                            requires
                                adx as int == dx as int || adx as int == -(dx as int),
                                ady as int == dy as int || ady as int == -(dy as int),
                        ;
                        assert((adx as int) * (adx as int) <= 0x10000000000000000000int
                            && (ady as int) * (ady as int) <= 0x10000000000000000000int)
                            by (nonlinear_arith)
                            requires
                                0 <= adx as int <= 2 * COORD_LIMIT as int,
                                0 <= ady as int <= 2 * COORD_LIMIT as int,
                        ;
                        assert((radius as int) * (radius as int) <= 0x10000000000000000000int)
                            by (nonlinear_arith)
                            requires
                                0 <= radius as int <= COORD_LIMIT as int,
                        ;
                        lemma_filter_push(pts@, i as int, pred);
                    }
                    let d2: u128 = (adx as u128) * (adx as u128) + (ady as u128) * (ady as u128);
                    let r2: u128 = (radius as u128) * (radius as u128);
                    if d2 <= r2 {
                        out.push(p);
                    }
                    i = i + 1;
                }
                proof {
                    assert(pts@.take(pts@.len() as int) =~= pts@);
                }
                out
            },
            SpatialIndex::Internal(q) => {
                let mx = bl.x + (((tr.x - bl.x) as u64) / 2) as i64;
                let my = bl.y + (((tr.y - bl.y) as u64) / 2) as i64;
                let m = Vec2 { x: mx, y: my };
                let mut out = q.bl.query_circle(bl, m, center, radius);
                let mut o2 = q.br.query_circle(
                    Vec2 { x: mx, y: bl.y },
                    Vec2 { x: tr.x, y: my },
                    center,
                    radius,
                );
                let mut o3 = q.tl.query_circle(
                    Vec2 { x: bl.x, y: my },
                    Vec2 { x: mx, y: tr.y },
                    center,
                    radius,
                );
                let mut o4 = q.tr.query_circle(m, tr, center, radius);
                proof {
                    Seq::filter_distributes_over_add(points(q.bl), points(q.br), pred);
                    Seq::filter_distributes_over_add(
                        points(q.bl) + points(q.br),
                        points(q.tl),
                        pred,
                    );
                    Seq::filter_distributes_over_add(
                        points(q.bl) + points(q.br) + points(q.tl),
                        points(q.tr),
                        pred,
                    );
                }
                out.append(&mut o2);
                out.append(&mut o3);
                out.append(&mut o4);
                out
            },
        }
    }
}

/// Insert into the quadrant child chosen by midpoint comparison (ties toward
/// bottom-left), keeping the children well-formed and growing the combined
/// stored multiset by exactly the agent.
fn route_insert(q: Quadrants, b: Boid, bl: Vec2, tr: Vec2) -> (r: Quadrants)
    requires
        box_ok(bl, tr),
        splittable(bl, tr),
        wf(q.bl, blq(bl, tr).0, blq(bl, tr).1),
        wf(q.br, brq(bl, tr).0, brq(bl, tr).1),
        wf(q.tl, tlq(bl, tr).0, tlq(bl, tr).1),
        wf(q.tr, trq(bl, tr).0, trq(bl, tr).1),
        boid_ok(b),
        contains_pt(bl, tr, b.position),
    ensures
        wf(r.bl, blq(bl, tr).0, blq(bl, tr).1),
        wf(r.br, brq(bl, tr).0, brq(bl, tr).1),
        wf(r.tl, tlq(bl, tr).0, tlq(bl, tr).1),
        wf(r.tr, trq(bl, tr).0, trq(bl, tr).1),
        quad_points(r).to_multiset() == quad_points(q).to_multiset().insert(b),
    decreases box_measure(bl, tr), 0int,
{
    proof {
        lemma_multiset_commutative(points(q.bl), points(q.br));
        lemma_multiset_commutative(points(q.bl) + points(q.br), points(q.tl));
        lemma_multiset_commutative(points(q.bl) + points(q.br) + points(q.tl), points(q.tr));
    }
    let mx = bl.x + (((tr.x - bl.x) as u64) / 2) as i64;
    let my = bl.y + (((tr.y - bl.y) as u64) / 2) as i64;
    let m = Vec2 { x: mx, y: my };
    let r = if b.position.x <= mx {
        if b.position.y <= my {
            let nbl = q.bl.insert(b, bl, m);
            Quadrants { bl: nbl, br: q.br, tl: q.tl, tr: q.tr }
        } else {
            let ntl = q.tl.insert(b, Vec2 { x: bl.x, y: my }, Vec2 { x: mx, y: tr.y });
            Quadrants { bl: q.bl, br: q.br, tl: ntl, tr: q.tr }
        }
    } else {
        if b.position.y <= my {
            let nbr = q.br.insert(b, Vec2 { x: mx, y: bl.y }, Vec2 { x: tr.x, y: my });
            Quadrants { bl: q.bl, br: nbr, tl: q.tl, tr: q.tr }
        } else {
            let ntr = q.tr.insert(b, m, tr);
            Quadrants { bl: q.bl, br: q.br, tl: q.tl, tr: ntr }
        }
    };
    proof {
        lemma_multiset_commutative(points(r.bl), points(r.br));
        lemma_multiset_commutative(points(r.bl) + points(r.br), points(r.tl));
        lemma_multiset_commutative(points(r.bl) + points(r.br) + points(r.tl), points(r.tr));
        broadcast use vstd::multiset::group_multiset_axioms;

    }
    r
}

/// Each stored agent lives in exactly one leaf: concatenating the leaves'
/// contents gives back the node's whole stored sequence, so no agent is lost
/// and none is counted twice across leaves.
pub proof fn lemma_leaves_partition(n: SpatialIndex)
    ensures
        leaf_seqs(n).flatten() == points(n),
    decreases n,
{
    broadcast use vstd::seq_lib::group_seq_properties;

    match n {
        SpatialIndex::Leaf(pts) => {
            assert(leaf_seqs(n) == seq![pts@]);
            assert(leaf_seqs(n).flatten() =~= pts@) by {
                vstd::seq_lib::lemma_flatten_concat(Seq::<Seq<Boid>>::empty(), seq![pts@]);
                assert(seq![pts@].drop_first() =~= Seq::<Seq<Boid>>::empty());
                assert(seq![pts@].flatten() == pts@ + Seq::<Seq<Boid>>::empty().flatten());
            }
        },
        SpatialIndex::Internal(q) => {
            lemma_leaves_partition((*q).bl);
            lemma_leaves_partition((*q).br);
            lemma_leaves_partition((*q).tl);
            lemma_leaves_partition((*q).tr);
            lemma_flatten_concat(leaf_seqs((*q).bl), leaf_seqs((*q).br));
            lemma_flatten_concat(
                leaf_seqs((*q).bl) + leaf_seqs((*q).br),
                leaf_seqs((*q).tl),
            );
            lemma_flatten_concat(
                leaf_seqs((*q).bl) + leaf_seqs((*q).br) + leaf_seqs((*q).tl),
                leaf_seqs((*q).tr),
            );
        },
    }
}

/// Inserting into a multiset and then filtering keeps the new element
/// exactly when it satisfies the predicate.
proof fn lemma_multiset_filter_insert(
    m: vstd::multiset::Multiset<Boid>,
    a: Boid,
    p: spec_fn(Boid) -> bool,
)
    ensures
        m.insert(a).filter(p) == if p(a) {
            m.filter(p).insert(a)
        } else {
            m.filter(p)
        },
{
    broadcast use vstd::multiset::group_multiset_axioms;

    if p(a) {
        assert(m.insert(a).filter(p) =~= m.filter(p).insert(a)) by {
            assert forall|v: Boid| m.insert(a).filter(p).count(v) == m.filter(p).insert(
                a,
            ).count(v) by {}
        }
    } else {
        assert(m.insert(a).filter(p) =~= m.filter(p)) by {
            assert forall|v: Boid| m.insert(a).filter(p).count(v) == m.filter(p).count(v) by {}
        }
    }
}

/// Filtering a sequence and taking its multiset is the same as filtering the
/// sequence's multiset.
pub proof fn lemma_filter_to_multiset(s: Seq<Boid>, p: spec_fn(Boid) -> bool)
    ensures
        s.filter(p).to_multiset() == s.to_multiset().filter(p),
    decreases s.len(),
{
    broadcast use vstd::seq_lib::group_to_multiset_ensures;
    broadcast use vstd::multiset::group_multiset_axioms;

    reveal(Seq::filter);
    if s.len() == 0 {
        assert(s.filter(p) =~= Seq::<Boid>::empty());
        assert(s.filter(p).to_multiset() =~= s.to_multiset().filter(p)) by {
            assert forall|v: Boid| s.filter(p).to_multiset().count(v) == s.to_multiset().filter(
                p,
            ).count(v) by {
                assert(!s.contains(v) && !s.filter(p).contains(v));
            }
        }
    } else {
        let d = s.drop_last();
        let a = s.last();
        lemma_filter_to_multiset(d, p);
        lemma_multiset_filter_insert(d.to_multiset(), a, p);
        assert(s =~= d.push(a));
        if p(a) {
            assert(s.filter(p) == d.filter(p).push(a));
        }
    }
}

/// Two orderings of the same agents filter to the same multiset.
pub proof fn lemma_filter_multiset_eq(s1: Seq<Boid>, s2: Seq<Boid>, p: spec_fn(Boid) -> bool)
    requires
        s1.to_multiset() == s2.to_multiset(),
    ensures
        s1.filter(p).to_multiset() == s2.filter(p).to_multiset(),
{
    lemma_filter_to_multiset(s1, p);
    lemma_filter_to_multiset(s2, p);
}

/// A query has no false positives and no false negatives against a
/// brute-force scan: every kept agent is stored and within the radius, and
/// every stored agent within the radius is kept.
pub proof fn lemma_query_matches_scan(pts: Seq<Boid>, c: Vec2, rad: int)
    ensures
        forall|i: int|
            0 <= i < pts.filter(circle_pred(c, rad)).len() ==> in_circle(
                #[trigger] pts.filter(circle_pred(c, rad))[i],
                c,
                rad,
            ) && pts.contains(pts.filter(circle_pred(c, rad))[i]),
        forall|i: int|
            0 <= i < pts.len() && in_circle(#[trigger] pts[i], c, rad) ==> pts.filter(
                circle_pred(c, rad),
            ).contains(pts[i]),
{
    let pred = circle_pred(c, rad);
    broadcast use vstd::seq_lib::group_filter_ensures;

    assert forall|i: int| 0 <= i < pts.filter(pred).len() implies in_circle(
        #[trigger] pts.filter(pred)[i],
        c,
        rad,
    ) && pts.contains(pts.filter(pred)[i]) by {
        assert(pred(pts.filter(pred)[i]));
        assert(pts.filter(pred).contains(pts.filter(pred)[i]));
        pts.lemma_filter_contains_rev(pred, pts.filter(pred)[i]);
    }
    assert forall|i: int|
        0 <= i < pts.len() && in_circle(#[trigger] pts[i], c, rad) implies pts.filter(
        pred,
    ).contains(pts[i]) by {
        assert(pred(pts[i]));
    }
}

} // verus!
