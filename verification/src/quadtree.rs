//! A rebuildable quadtree over a fixed world boundary. Entries are either
//! box-shaped (an `AABB` plus a position) or point-shaped (a position only).
//! An entry offered to the tree is accepted or rejected by the exact
//! overlap test (boxes) or the exact point-in-box test (points) against
//! the root's boundary, the same strict tests the narrow phase uses.
//! Below that gate, each node owns a half-open region
//! `[center - halfsize, center + halfsize)` per axis, and an accepted
//! entry is routed to every child whose region its closed span meets.
//! Under this routing a point lands in exactly one child of a divided
//! node and a box in at least one, so no accepted entry is ever lost.
//!
//! A leaf subdivides when it is past capacity, but only while its half-size
//! is even and at least 2 on both axes: that minimum-cell-size guard bounds
//! the recursion depth on degenerate (co-located) inputs, as required.
//!
//! Queries are deliberately coarse: a query returns every entry of every
//! leaf whose region meets the query span, without re-testing individual
//! entries. Callers treat the result as a candidate superset.

use vstd::prelude::*;
use vstd::multiset::Multiset;
use crate::physics::{AABB, Position, LIMIT};

verus! {

broadcast use vstd::multiset::group_multiset_axioms, vstd::seq_lib::group_seq_properties, vstd::seq_lib::group_to_multiset_ensures;

/// One stored entry: a stable id, an optional box shape, and a position.
#[derive(Clone, Copy, Debug)]
pub struct Entry {
    pub id: u64,
    pub aabb: Option<AABB>,
    pub position: Position,
}

/// Low x edge of an entry's closed span (a point is a zero-size box).
pub open spec fn entry_lo_x(e: Entry) -> int {
    match e.aabb {
        Some(b) => e.position.value.x - b.halfsize.x,
        None => e.position.value.x as int,
    }
}

/// High x edge of an entry's closed span.
pub open spec fn entry_hi_x(e: Entry) -> int {
    match e.aabb {
        Some(b) => e.position.value.x + b.halfsize.x,
        None => e.position.value.x as int,
    }
}

/// Low y edge of an entry's closed span.
pub open spec fn entry_lo_y(e: Entry) -> int {
    match e.aabb {
        Some(b) => e.position.value.y - b.halfsize.y,
        None => e.position.value.y as int,
    }
}

/// High y edge of an entry's closed span.
pub open spec fn entry_hi_y(e: Entry) -> int {
    match e.aabb {
        Some(b) => e.position.value.y + b.halfsize.y,
        None => e.position.value.y as int,
    }
}

/// An entry is usable when its position is bounded and its box, if any, is
/// well formed.
pub open spec fn entry_ok(e: Entry) -> bool {
    &&& e.position.value.spec_in_range(LIMIT as int)
    &&& match e.aabb {
        Some(b) => b.wf(),
        None => true,
    }
}

/// Whether the closed span `[lx, hx] x [ly, hy]` meets the half-open region
/// of the node given by boundary `b` and center `c`.
pub open spec fn accepts_span(b: AABB, c: Position, lx: int, hx: int, ly: int, hy: int) -> bool {
    &&& lx < c.value.x + b.halfsize.x
    &&& hx >= c.value.x - b.halfsize.x
    &&& ly < c.value.y + b.halfsize.y
    &&& hy >= c.value.y - b.halfsize.y
}

/// Whether a node with boundary `b` and center `c` accepts entry `e`.
pub open spec fn accepts_entry(b: AABB, c: Position, e: Entry) -> bool {
    accepts_span(b, c, entry_lo_x(e), entry_hi_x(e), entry_lo_y(e), entry_hi_y(e))
}

/// Whether a node accepts an entry offered to it directly: the exact
/// overlap test of the narrow phase for a box entry, the exact
/// point-in-box test for a point entry, both strict, against the node's
/// boundary box. Routing among the children of a divided node uses the
/// half-open `accepts_span` convention instead, so that a point on a
/// dividing line lands in exactly one child and no accepted entry is
/// ever lost.
pub open spec fn node_accepts(b: AABB, c: Position, e: Entry) -> bool {
    match e.aabb {
        Some(shape) => crate::physics::spec_collides(b, c, shape, e.position),
        None => crate::physics::spec_intersects(b, c, e.position),
    }
}

/// The node region stays within twice the coordinate bound, so the edge
/// arithmetic of the acceptance tests cannot overflow. The root of a world
/// whose center and half-size are bounded by `LIMIT` satisfies this, and
/// it is preserved under subdivision.
pub open spec fn region_bounded(b: AABB, c: Position) -> bool {
    &&& -2 * (LIMIT as int) <= c.value.x - b.halfsize.x
    &&& c.value.x + b.halfsize.x <= 2 * (LIMIT as int)
    &&& -2 * (LIMIT as int) <= c.value.y - b.halfsize.y
    &&& c.value.y + b.halfsize.y <= 2 * (LIMIT as int)
}

/// The ids of a sequence of entries, as a multiset.
pub open spec fn seq_ids(s: Seq<Entry>) -> Multiset<u64>
    decreases s.len(),
{
    if s.len() == 0 {
        Multiset::empty()
    } else {
        seq_ids(s.drop_last()).insert(s.last().id)
    }
}

/// A sequence of entries holds as many ids as entries.
proof fn lemma_seq_ids_len(s: Seq<Entry>)
    ensures
        seq_ids(s).len() == s.len(),
    decreases s.len(),
{
    if s.len() > 0 {
        lemma_seq_ids_len(s.drop_last());
    }
}

/// The id multiset of an entry list is the multiset of its mapped ids.
proof fn lemma_seq_ids_is_mapped(s: Seq<Entry>)
    ensures
        seq_ids(s) == s.map_values(|e: Entry| e.id).to_multiset(),
    decreases s.len(),
{
    if s.len() == 0 {
        assert(s.map_values(|e: Entry| e.id) =~= Seq::<u64>::empty());
        assert(seq_ids(s) =~= s.map_values(|e: Entry| e.id).to_multiset());
    } else {
        lemma_seq_ids_is_mapped(s.drop_last());
        assert(s.map_values(|e: Entry| e.id) =~= s.drop_last().map_values(
            |e: Entry| e.id,
        ).push(s.last().id));
        assert(seq_ids(s) =~= s.map_values(|e: Entry| e.id).to_multiset());
    }
}

/// The ids of the point items accepted by the region given by `b` and
/// `c`, as a multiset: what a freshly built point-mode tree stores.
pub open spec fn accepted_point_ids(items: Seq<(u64, Position)>, b: AABB, c: Position) -> Multiset<
    u64,
>
    decreases items.len(),
{
    if items.len() == 0 {
        Multiset::empty()
    } else {
        let rest = accepted_point_ids(items.drop_last(), b, c);
        let it = items.last();
        if node_accepts(b, c, Entry { id: it.0, aabb: None, position: it.1 }) {
            rest.insert(it.0)
        } else {
            rest
        }
    }
}

/// A point-mode tree never stores more entries than were offered.
pub proof fn lemma_accepted_point_ids_len(items: Seq<(u64, Position)>, b: AABB, c: Position)
    ensures
        accepted_point_ids(items, b, c).len() <= items.len(),
    decreases items.len(),
{
    if items.len() > 0 {
        lemma_accepted_point_ids_len(items.drop_last(), b, c);
    }
}

/// An id counted by a point-mode build was offered by some item.
proof fn lemma_accepted_point_ids_source(items: Seq<(u64, Position)>, b: AABB, c: Position, x: u64)
    requires
        accepted_point_ids(items, b, c).count(x) > 0,
    ensures
        exists|p: int| 0 <= p < items.len() && (#[trigger] items[p]).0 == x,
    decreases items.len(),
{
    if items.len() > 0 {
        if !(accepted_point_ids(items, b, c).count(x) > accepted_point_ids(
            items.drop_last(),
            b,
            c,
        ).count(x)) {
            lemma_accepted_point_ids_source(items.drop_last(), b, c, x);
            let p = choose|p: int|
                0 <= p < items.drop_last().len() && (#[trigger] items.drop_last()[p]).0 == x;
            assert(items[p].0 == x);
        } else {
            assert(items[items.len() - 1].0 == x);
        }
    }
}

/// With pairwise distinct item ids, a point-mode build counts each id
/// at most once.
pub proof fn lemma_accepted_point_ids_at_most_one(
    items: Seq<(u64, Position)>,
    b: AABB,
    c: Position,
)
    requires
        forall|p: int, q: int|
            0 <= p < q < items.len() ==> (#[trigger] items[p]).0 != (#[trigger] items[q]).0,
    ensures
        forall|x: u64| accepted_point_ids(items, b, c).count(x) <= 1,
    decreases items.len(),
{
    if items.len() > 0 {
        lemma_accepted_point_ids_at_most_one(items.drop_last(), b, c);
        assert forall|x: u64| accepted_point_ids(items, b, c).count(x) <= 1 by {
            let it = items.last();
            if accepts_entry(b, c, Entry { id: it.0, aabb: None, position: it.1 }) && it.0 == x {
                if accepted_point_ids(items.drop_last(), b, c).count(x) > 0 {
                    lemma_accepted_point_ids_source(items.drop_last(), b, c, x);
                    let p = choose|p: int|
                        0 <= p < items.drop_last().len() && (#[trigger] items.drop_last()[p]).0
                            == x;
                    assert(items[p].0 == items[items.len() - 1].0);
                    assert(false);
                }
            }
        }
    }
}

/// A quadtree node: a boundary box placed at a center, a capacity
/// threshold, stored entries, and either no children (a leaf) or exactly
/// four children covering the NW/NE/SW/SE quadrants.
#[derive(Debug)]
pub struct Quadtree {
    boundary: AABB,
    center: Position,
    capacity: usize,
    objects: Vec<Entry>,
    divided: bool,
    nw: Option<Box<Quadtree>>,
    ne: Option<Box<Quadtree>>,
    sw: Option<Box<Quadtree>>,
    se: Option<Box<Quadtree>>,
}

impl Quadtree {
    /// The boundary box of this node.
    pub closed spec fn spec_boundary(self) -> AABB {
        self.boundary
    }

    /// The center of this node's region.
    pub closed spec fn spec_center(self) -> Position {
        self.center
    }

    /// The capacity threshold of this node.
    pub closed spec fn spec_capacity(self) -> nat {
        self.capacity as nat
    }

    /// Whether this node has subdivided.
    pub closed spec fn spec_divided(self) -> bool {
        self.divided
    }

    /// How many entries this node holds directly (a divided node holds
    /// none; its leaves hold them).
    pub closed spec fn spec_leaf_len(self) -> nat {
        self.objects@.len()
    }

    /// Whether entry `x` is stored somewhere in this subtree.
    pub closed spec fn contains_entry(self, x: Entry) -> bool
        decreases self,
    {
        ||| self.objects@.contains(x)
        ||| match self.nw {
            Some(c) => c.contains_entry(x),
            None => false,
        }
        ||| match self.ne {
            Some(c) => c.contains_entry(x),
            None => false,
        }
        ||| match self.sw {
            Some(c) => c.contains_entry(x),
            None => false,
        }
        ||| match self.se {
            Some(c) => c.contains_entry(x),
            None => false,
        }
    }

    /// The multiset of ids stored in this subtree, one occurrence per
    /// stored copy.
    pub closed spec fn id_count(self) -> Multiset<u64>
        decreases self,
    {
        seq_ids(self.objects@).add(Self::opt_count(self.nw)).add(Self::opt_count(self.ne)).add(
            Self::opt_count(self.sw),
        ).add(Self::opt_count(self.se))
    }

    /// The id multiset of an optional child.
    pub closed spec fn opt_count(c: Option<Box<Quadtree>>) -> Multiset<u64>
        decreases c,
    {
        match c {
            Some(t) => t.id_count(),
            None => Multiset::empty(),
        }
    }

    /// Whether every entry stored in this subtree is point-shaped.
    pub open spec fn all_points(self) -> bool {
        forall|x: Entry| self.contains_entry(x) ==> x.aabb is None
    }

    /// Whether a node may subdivide: both half-extents even and at least 2,
    /// so the four children tile the parent region exactly and the cell
    /// size strictly shrinks.
    pub open spec fn spec_can_split(b: AABB) -> bool {
        &&& b.halfsize.x >= 2
        &&& b.halfsize.y >= 2
        &&& b.halfsize.x % 2 == 0
        &&& b.halfsize.y % 2 == 0
    }

    /// The boundary every child of a node with boundary `b` gets.
    pub open spec fn child_boundary(b: AABB) -> AABB {
        AABB {
            halfsize: crate::physics::Vec2i {
                x: (b.halfsize.x / 2) as i64,
                y: (b.halfsize.y / 2) as i64,
            },
        }
    }

    /// The center of the child in quadrant (`sx`, `sy`), each `-1` or `1`.
    pub open spec fn child_center(b: AABB, c: Position, sx: int, sy: int) -> Position {
        Position {
            value: crate::physics::Vec2i {
                x: (c.value.x + sx * (b.halfsize.x / 2)) as i64,
                y: (c.value.y + sy * (b.halfsize.y / 2)) as i64,
            },
        }
    }

    /// Whether `c` is a well-formed child of a node with boundary `b` and
    /// center `ctr` in quadrant (`sx`, `sy`).
    pub closed spec fn child_ok(self, c: Quadtree, sx: int, sy: int) -> bool
        decreases c, 1int,
    {
        &&& c.boundary == Self::child_boundary(self.boundary)
        &&& c.center == Self::child_center(self.boundary, self.center, sx, sy)
        &&& c.capacity == self.capacity
        &&& c.wf()
    }

    /// Well-formedness: bounded geometry, every stored entry accepted by
    /// its node, and for divided nodes an empty entry list, four children
    /// tiling the region exactly, and every stored entry present in every
    /// child that accepts it.
    pub closed spec fn wf(self) -> bool
        decreases self, 0int,
    {
        &&& self.boundary.wf()
        &&& region_bounded(self.boundary, self.center)
        &&& forall|i: int|
            0 <= i < self.objects@.len() ==> entry_ok(#[trigger] self.objects@[i])
                && accepts_entry(self.boundary, self.center, self.objects@[i])
        &&& if self.divided {
            &&& self.objects@.len() == 0
            &&& Self::spec_can_split(self.boundary)
            &&& self.nw is Some
            &&& self.ne is Some
            &&& self.sw is Some
            &&& self.se is Some
            &&& self.child_ok(*self.nw.unwrap(), -1, 1)
            &&& self.child_ok(*self.ne.unwrap(), 1, 1)
            &&& self.child_ok(*self.sw.unwrap(), -1, -1)
            &&& self.child_ok(*self.se.unwrap(), 1, -1)
            &&& self.covers()
        } else {
            &&& self.nw is None
            &&& self.ne is None
            &&& self.sw is None
            &&& self.se is None
        }
    }

    /// Every entry stored below a divided node is stored in every child
    /// whose region accepts it.
    pub closed spec fn covers(self) -> bool {
        forall|x: Entry| #[trigger] self.contains_entry(x) ==> self.covers_one(x)
    }

    /// The cover condition for a single entry: each child that accepts it
    /// stores it.
    pub closed spec fn covers_one(self, x: Entry) -> bool {
        &&& match self.nw {
            Some(c) => accepts_entry(c.boundary, c.center, x) ==> c.contains_entry(x),
            None => true,
        }
        &&& match self.ne {
            Some(c) => accepts_entry(c.boundary, c.center, x) ==> c.contains_entry(x),
            None => true,
        }
        &&& match self.sw {
            Some(c) => accepts_entry(c.boundary, c.center, x) ==> c.contains_entry(x),
            None => true,
        }
        &&& match self.se {
            Some(c) => accepts_entry(c.boundary, c.center, x) ==> c.contains_entry(x),
            None => true,
        }
    }

    /// Creates an empty leaf covering `boundary` centered at `center`.
    pub fn new(boundary: AABB, center: crate::physics::Vec2i, capacity: usize) -> (t: Quadtree)
        requires
            boundary.wf(),
            region_bounded(boundary, Position { value: center }),
        ensures
            t.wf(),
            !t.spec_divided(),
            t.spec_boundary() == boundary,
            t.spec_center() == (Position { value: center }),
            t.spec_capacity() == capacity as nat,
            forall|x: Entry| !t.contains_entry(x),
            t.id_count() =~= Multiset::<u64>::empty(),
    {
        Quadtree {
            boundary,
            center: Position::new(center),
            capacity,
            objects: Vec::new(),
            divided: false,
            nw: None,
            ne: None,
            sw: None,
            se: None,
        }
    }

    /// Splits this leaf into four children and hands every stored entry to
    /// each child that accepts it. Point entries land in exactly one
    /// child, so a tree of point entries keeps its id multiset.
    #[verifier::loop_isolation(false)]
    pub fn subdivide(&mut self)
        requires
            old(self).wf(),
            !old(self).spec_divided(),
            Self::spec_can_split(old(self).spec_boundary()),
        ensures
            final(self).wf(),
            final(self).spec_divided(),
            final(self).spec_boundary() == old(self).spec_boundary(),
            final(self).spec_center() == old(self).spec_center(),
            final(self).spec_capacity() == old(self).spec_capacity(),
            forall|x: Entry| final(self).contains_entry(x) <==> old(self).contains_entry(x),
            old(self).all_points() ==> final(self).all_points() && final(self).id_count()
                == old(self).id_count(),
        decreases old(self).spec_boundary().halfsize.x, 1int,
    {
        let ghost pre = *old(self);
        let hx = self.boundary.halfsize.x / 2;
        let hy = self.boundary.halfsize.y / 2;
        let half = AABB::new(crate::physics::Vec2i::new(hx, hy));
        let cx = self.center.value.x;
        let cy = self.center.value.y;
        self.nw = Some(
            Box::new(Self::new(half, crate::physics::Vec2i::new(cx - hx, cy + hy), self.capacity)),
        );
        self.ne = Some(
            Box::new(Self::new(half, crate::physics::Vec2i::new(cx + hx, cy + hy), self.capacity)),
        );
        self.sw = Some(
            Box::new(Self::new(half, crate::physics::Vec2i::new(cx - hx, cy - hy), self.capacity)),
        );
        self.se = Some(
            Box::new(Self::new(half, crate::physics::Vec2i::new(cx + hx, cy - hy), self.capacity)),
        );
        self.divided = true;
        let mut objects: Vec<Entry> = Vec::new();
        core::mem::swap(&mut objects, &mut self.objects);
        proof {
            assert(2 * hx == pre.boundary.halfsize.x);
            assert(2 * hy == pre.boundary.halfsize.y);
            assert forall|x: Entry| !self.contains_entry(x) by {
                assert(!self.nw.unwrap().contains_entry(x));
                assert(!self.ne.unwrap().contains_entry(x));
                assert(!self.sw.unwrap().contains_entry(x));
                assert(!self.se.unwrap().contains_entry(x));
                assert(!self.objects@.contains(x));
            }
            assert forall|x: Entry| #[trigger] self.contains_entry(x) implies self.covers_one(
                x,
            ) by {}
            assert(self.wf());
            assert(self.id_count() =~= Multiset::<u64>::empty());
            assert(pre.id_count() =~= seq_ids(pre.objects@));
        }
        let n = objects.len();
        let mut i: usize = 0;
        while i < n
            invariant
                n == objects@.len(),
                0 <= i <= n,
                self.wf(),
                self.divided,
                self.boundary == pre.boundary,
                self.center == pre.center,
                self.capacity == pre.capacity,
                forall|j: int|
                    0 <= j < n ==> entry_ok(#[trigger] objects@[j]) && accepts_entry(
                        pre.boundary,
                        pre.center,
                        objects@[j],
                    ),
                forall|x: Entry| pre.contains_entry(x) <==> objects@.contains(x),
                forall|x: Entry| self.contains_entry(x) <==> objects@.take(i as int).contains(x),
                pre.all_points() ==> self.all_points() && self.id_count() == seq_ids(
                    objects@.take(i as int),
                ),
            decreases n - i,
        {
            let e = objects[i];
            let ghost kpre = *self;
            proof {
                assert(objects@.take(i as int).push(e) =~= objects@.take(i + 1 as int));
                assert(objects@.take(i + 1 as int).drop_last() =~= objects@.take(i as int));
                if pre.all_points() {
                    assert(pre.contains_entry(e)) by {
                        assert(objects@.contains(e));
                    }
                }
            }
            let r = self.insert_children(e.id, e.aabb, e.position);
            proof {
                assert(r) by {
                    lemma_split_accept(
                        kpre.boundary,
                        kpre.center,
                        entry_lo_x(e),
                        entry_hi_x(e),
                        entry_lo_y(e),
                        entry_hi_y(e),
                    );
                }
                assert forall|x: Entry|
                    self.contains_entry(x) <==> objects@.take(i + 1 as int).contains(x) by {
                    assert(self.contains_entry(x) <==> (kpre.contains_entry(x) || x == e));
                }
            }
            i = i + 1;
        }
        proof {
            assert(objects@.take(n as int) =~= objects@);
        }
    }

    /// Offers an entry to each of the four children of a divided node,
    /// returning whether any accepted it; this is exactly acceptance by
    /// the node itself, since the children tile its region.
    fn insert_children(&mut self, id: u64, aabb: Option<AABB>, position: Position) -> (r: bool)
        requires
            old(self).wf(),
            old(self).spec_divided(),
            entry_ok(Entry { id, aabb, position }),
        ensures
            final(self).wf(),
            final(self).spec_divided(),
            final(self).spec_boundary() == old(self).spec_boundary(),
            final(self).spec_center() == old(self).spec_center(),
            final(self).spec_capacity() == old(self).spec_capacity(),
            r == accepts_entry(
                old(self).spec_boundary(),
                old(self).spec_center(),
                Entry { id, aabb, position },
            ),
            forall|x: Entry|
                final(self).contains_entry(x) <==> (old(self).contains_entry(x) || (r && x
                    == Entry { id, aabb, position })),
            old(self).all_points() && aabb is None ==> {
                &&& final(self).all_points()
                &&& final(self).id_count() == (if r {
                    old(self).id_count().insert(id)
                } else {
                    old(self).id_count()
                })
            },
        decreases old(self).spec_boundary().halfsize.x, 0int,
    {
        let ghost mid = *old(self);
        let ghost e = Entry { id, aabb, position };
        proof {
            if mid.all_points() && aabb is None {
                assert forall|x: Entry| mid.nw.unwrap().contains_entry(x) implies x.aabb
                    is None by {
                    assert(mid.contains_entry(x));
                }
                assert forall|x: Entry| mid.ne.unwrap().contains_entry(x) implies x.aabb
                    is None by {
                    assert(mid.contains_entry(x));
                }
                assert forall|x: Entry| mid.sw.unwrap().contains_entry(x) implies x.aabb
                    is None by {
                    assert(mid.contains_entry(x));
                }
                assert forall|x: Entry| mid.se.unwrap().contains_entry(x) implies x.aabb
                    is None by {
                    assert(mid.contains_entry(x));
                }
            }
        }
        let mut inserted = false;
        let mut nw = self.nw.take().unwrap();
        let r_nw = (&mut *nw).insert_inner(id, aabb, position);
        self.nw = Some(nw);
        if r_nw {
            inserted = true;
        }
        let mut ne = self.ne.take().unwrap();
        let r_ne = (&mut *ne).insert_inner(id, aabb, position);
        self.ne = Some(ne);
        if r_ne {
            inserted = true;
        }
        let mut sw = self.sw.take().unwrap();
        let r_sw = (&mut *sw).insert_inner(id, aabb, position);
        self.sw = Some(sw);
        if r_sw {
            inserted = true;
        }
        let mut se = self.se.take().unwrap();
        let r_se = (&mut *se).insert_inner(id, aabb, position);
        self.se = Some(se);
        if r_se {
            inserted = true;
        }
        proof {
            assert(r_nw == accepts_entry(mid.nw.unwrap().boundary, mid.nw.unwrap().center, e));
            assert(r_ne == accepts_entry(mid.ne.unwrap().boundary, mid.ne.unwrap().center, e));
            assert(r_sw == accepts_entry(mid.sw.unwrap().boundary, mid.sw.unwrap().center, e));
            assert(r_se == accepts_entry(mid.se.unwrap().boundary, mid.se.unwrap().center, e));
            if accepts_entry(mid.boundary, mid.center, e) {
                assert(entry_lo_x(e) <= entry_hi_x(e) && entry_lo_y(e) <= entry_hi_y(e));
                lemma_split_accept(
                    mid.boundary,
                    mid.center,
                    entry_lo_x(e),
                    entry_hi_x(e),
                    entry_lo_y(e),
                    entry_hi_y(e),
                );
                assert(mid.child_ok(*mid.nw.unwrap(), -1, 1));
                assert(mid.nw.unwrap().boundary == Self::child_boundary(mid.boundary));
                assert(mid.nw.unwrap().center == Self::child_center(mid.boundary, mid.center, -1, 1));
                assert(mid.ne.unwrap().boundary == Self::child_boundary(mid.boundary));
                assert(mid.ne.unwrap().center == Self::child_center(mid.boundary, mid.center, 1, 1));
                assert(mid.sw.unwrap().boundary == Self::child_boundary(mid.boundary));
                assert(mid.sw.unwrap().center == Self::child_center(mid.boundary, mid.center, -1, -1));
                assert(mid.se.unwrap().boundary == Self::child_boundary(mid.boundary));
                assert(mid.se.unwrap().center == Self::child_center(mid.boundary, mid.center, 1, -1));
                assert(r_nw || r_ne || r_sw || r_se);
                assert(inserted);
            }
            if inserted && !accepts_entry(mid.boundary, mid.center, e) {
                if r_nw {
                    lemma_child_accept_parent(
                        mid.boundary,
                        mid.center,
                        -1,
                        1,
                        entry_lo_x(e),
                        entry_hi_x(e),
                        entry_lo_y(e),
                        entry_hi_y(e),
                    );
                }
                if r_ne {
                    lemma_child_accept_parent(
                        mid.boundary,
                        mid.center,
                        1,
                        1,
                        entry_lo_x(e),
                        entry_hi_x(e),
                        entry_lo_y(e),
                        entry_hi_y(e),
                    );
                }
                if r_sw {
                    lemma_child_accept_parent(
                        mid.boundary,
                        mid.center,
                        -1,
                        -1,
                        entry_lo_x(e),
                        entry_hi_x(e),
                        entry_lo_y(e),
                        entry_hi_y(e),
                    );
                }
                if r_se {
                    lemma_child_accept_parent(
                        mid.boundary,
                        mid.center,
                        1,
                        -1,
                        entry_lo_x(e),
                        entry_hi_x(e),
                        entry_lo_y(e),
                        entry_hi_y(e),
                    );
                }
                assert(false);
            }
            assert(inserted == accepts_entry(mid.boundary, mid.center, e));
            assert forall|x: Entry|
                self.contains_entry(x) <==> (mid.contains_entry(x) || (inserted && x == e)) by {
                assert(self.nw.unwrap().contains_entry(x) <==> (mid.nw.unwrap().contains_entry(x)
                    || (r_nw && x == e)));
                assert(self.ne.unwrap().contains_entry(x) <==> (mid.ne.unwrap().contains_entry(x)
                    || (r_ne && x == e)));
                assert(self.sw.unwrap().contains_entry(x) <==> (mid.sw.unwrap().contains_entry(x)
                    || (r_sw && x == e)));
                assert(self.se.unwrap().contains_entry(x) <==> (mid.se.unwrap().contains_entry(x)
                    || (r_se && x == e)));
            }
            assert(self.child_ok(*self.nw.unwrap(), -1, 1)) by {
                assert(mid.child_ok(*mid.nw.unwrap(), -1, 1));
            }
            assert(self.child_ok(*self.ne.unwrap(), 1, 1)) by {
                assert(mid.child_ok(*mid.ne.unwrap(), 1, 1));
            }
            assert(self.child_ok(*self.sw.unwrap(), -1, -1)) by {
                assert(mid.child_ok(*mid.sw.unwrap(), -1, -1));
            }
            assert(self.child_ok(*self.se.unwrap(), 1, -1)) by {
                assert(mid.child_ok(*mid.se.unwrap(), 1, -1));
            }
            assert forall|x: Entry| #[trigger] self.contains_entry(x) implies self.covers_one(
                x,
            ) by {
                if x == e && inserted {
                    assert(self.nw.unwrap().contains_entry(x) <==> (
                    mid.nw.unwrap().contains_entry(x) || r_nw));
                    assert(self.ne.unwrap().contains_entry(x) <==> (
                    mid.ne.unwrap().contains_entry(x) || r_ne));
                    assert(self.sw.unwrap().contains_entry(x) <==> (
                    mid.sw.unwrap().contains_entry(x) || r_sw));
                    assert(self.se.unwrap().contains_entry(x) <==> (
                    mid.se.unwrap().contains_entry(x) || r_se));
                } else {
                    assert(mid.contains_entry(x));
                    assert(mid.covers_one(x));
                    assert(self.nw.unwrap().contains_entry(x) <==> (
                    mid.nw.unwrap().contains_entry(x) || (r_nw && x == e)));
                    assert(self.ne.unwrap().contains_entry(x) <==> (
                    mid.ne.unwrap().contains_entry(x) || (r_ne && x == e)));
                    assert(self.sw.unwrap().contains_entry(x) <==> (
                    mid.sw.unwrap().contains_entry(x) || (r_sw && x == e)));
                    assert(self.se.unwrap().contains_entry(x) <==> (
                    mid.se.unwrap().contains_entry(x) || (r_se && x == e)));
                }
            }
            assert(self.wf());
            assert forall|x: Entry|
                self.contains_entry(x) <==> (old(self).contains_entry(x) || (inserted && x
                    == Entry { id, aabb, position })) by {
                assert(self.contains_entry(x) <==> (mid.contains_entry(x) || (inserted && x == e)));
            }
            if mid.all_points() && aabb is None {
                assert(entry_lo_x(e) == entry_hi_x(e) && entry_lo_y(e) == entry_hi_y(e));
                if inserted {
                    assert((if r_nw { 1int } else { 0int }) + (if r_ne { 1int } else { 0int }) + (
                    if r_sw { 1int } else { 0int }) + (if r_se { 1int } else { 0int }) == 1);
                    assert(self.id_count() =~= mid.id_count().insert(id));
                } else {
                    assert(self.id_count() =~= mid.id_count());
                }
                assert forall|x: Entry| self.contains_entry(x) implies x.aabb is None by {
                    assert(mid.contains_entry(x) || (inserted && x == e));
                }
            }
        }
        inserted
    }

    /// The descent of an insert below the public acceptance gate: the
    /// entry is kept here or offered to every child whose region its
    /// span meets, under the half-open routing convention.
    fn insert_inner(&mut self, id: u64, aabb: Option<AABB>, position: Position) -> (r: bool)
        requires
            old(self).wf(),
            entry_ok(Entry { id, aabb, position }),
        ensures
            final(self).wf(),
            final(self).spec_boundary() == old(self).spec_boundary(),
            final(self).spec_center() == old(self).spec_center(),
            final(self).spec_capacity() == old(self).spec_capacity(),
            r == accepts_entry(
                old(self).spec_boundary(),
                old(self).spec_center(),
                Entry { id, aabb, position },
            ),
            r && !old(self).spec_divided() && old(self).spec_leaf_len() < old(self).spec_capacity() ==> !final(self).spec_divided() && final(self).spec_leaf_len()
                == old(self).spec_leaf_len() + 1,
            r && !old(self).spec_divided() && !Self::spec_can_split(old(self).spec_boundary())
                ==> !final(self).spec_divided() && final(self).spec_leaf_len() == old(self).spec_leaf_len() + 1,
            r && !old(self).spec_divided() && old(self).spec_leaf_len() >= old(self).spec_capacity() && Self::spec_can_split(old(self).spec_boundary()) ==> final(self).spec_divided(),
            forall|x: Entry|
                final(self).contains_entry(x) <==> (old(self).contains_entry(x) || (r && x
                    == Entry { id, aabb, position })),
            !r ==> *final(self) == *old(self),
            old(self).all_points() && aabb is None ==> {
                &&& final(self).all_points()
                &&& final(self).id_count() == (if r {
                    old(self).id_count().insert(id)
                } else {
                    old(self).id_count()
                })
            },
        decreases old(self).spec_boundary().halfsize.x, 2int,
    {
        let e = Entry { id, aabb, position };
        if !accepts(&self.boundary, self.center, &e) {
            return false;
        }
        if !self.divided {
            if self.objects.len() < self.capacity || !can_split(&self.boundary) {
                let ghost pre = *self;
                self.objects.push(e);
                proof {
                    assert(self.objects@.drop_last() =~= pre.objects@);
                    assert forall|x: Entry|
                        self.contains_entry(x) <==> (pre.contains_entry(x) || x == e) by {
                        assert(self.objects@ == pre.objects@.push(e));
                    }
                    if pre.all_points() && aabb is None {
                        assert forall|x: Entry| self.contains_entry(x) implies x.aabb is None by {
                            assert(pre.contains_entry(x) || x == e);
                        }
                    }
                }
                return true;
            }
            self.subdivide();
        }
        self.insert_children(id, aabb, position)
    }

    /// Inserts an entry, returning whether this node accepted it under
    /// the exact overlap test (for a box) or the exact point-in-box test
    /// (for a point) against this node's boundary. An accepted entry is
    /// stored in every leaf of this subtree whose region its span meets;
    /// a rejected entry leaves the tree untouched. While this node is an
    /// undivided leaf with spare capacity, or cannot split further, an
    /// accepted entry is simply appended here and the node stays a leaf;
    /// an accepted entry beyond capacity on a splittable leaf triggers
    /// subdivision. On a tree of point entries an accepted insert grows
    /// the id multiset by exactly one occurrence of `id`.
    pub fn insert(&mut self, id: u64, aabb: Option<AABB>, position: Position) -> (r: bool)
        requires
            old(self).wf(),
            entry_ok(Entry { id, aabb, position }),
        ensures
            final(self).wf(),
            final(self).spec_boundary() == old(self).spec_boundary(),
            final(self).spec_center() == old(self).spec_center(),
            final(self).spec_capacity() == old(self).spec_capacity(),
            r == node_accepts(
                old(self).spec_boundary(),
                old(self).spec_center(),
                Entry { id, aabb, position },
            ),
            forall|x: Entry|
                final(self).contains_entry(x) <==> (old(self).contains_entry(x) || (r && x
                    == Entry { id, aabb, position })),
            !r ==> *final(self) == *old(self),
            r && !old(self).spec_divided() && old(self).spec_leaf_len() < old(self).spec_capacity() ==> !final(self).spec_divided() && final(self).spec_leaf_len()
                == old(self).spec_leaf_len() + 1,
            r && !old(self).spec_divided() && !Self::spec_can_split(old(self).spec_boundary())
                ==> !final(self).spec_divided() && final(self).spec_leaf_len() == old(self).spec_leaf_len() + 1,
            r && !old(self).spec_divided() && old(self).spec_leaf_len() >= old(self).spec_capacity() && Self::spec_can_split(old(self).spec_boundary()) ==> final(self).spec_divided(),
            old(self).all_points() && aabb is None ==> {
                &&& final(self).all_points()
                &&& final(self).id_count() == (if r {
                    old(self).id_count().insert(id)
                } else {
                    old(self).id_count()
                })
            },
    {
        let e = Entry { id, aabb, position };
        if !node_accepts_exec(&self.boundary, self.center, &e) {
            return false;
        }
        let accepted = self.insert_inner(id, aabb, position);
        proof {
            assert(accepted);
        }
        true
    }

    /// What a query returns: the ids of every entry of every leaf whose
    /// region meets the query span, children visited NW, NE, SW, SE.
    pub closed spec fn query_seq(self, range: AABB, position: Position) -> Seq<u64>
        decreases self,
    {
        if !accepts_span(
            self.boundary,
            self.center,
            position.value.x - range.halfsize.x,
            position.value.x + range.halfsize.x,
            position.value.y - range.halfsize.y,
            position.value.y + range.halfsize.y,
        ) {
            Seq::empty()
        } else if self.divided {
            Self::opt_query(self.nw, range, position) + Self::opt_query(self.ne, range, position)
                + Self::opt_query(self.sw, range, position) + Self::opt_query(
                self.se,
                range,
                position,
            )
        } else {
            self.objects@.map_values(|t: Entry| t.id)
        }
    }

    /// The query result of an optional child.
    pub closed spec fn opt_query(c: Option<Box<Quadtree>>, range: AABB, position: Position) -> Seq<
        u64,
    >
        decreases c,
    {
        match c {
            Some(t) => t.query_seq(range, position),
            None => Seq::empty(),
        }
    }

    /// The descent of a query below the public acceptance gate, pruning
    /// children under the half-open convention and collecting every
    /// entry of every leaf the query span meets.
    #[verifier::loop_isolation(false)]
    fn query_inner(&self, range: &AABB, position: Position, found: &mut Vec<u64>)
        requires
            self.wf(),
            range.wf(),
            position.value.spec_in_range(LIMIT as int),
        ensures
            final(found)@ == old(found)@ + self.query_seq(*range, position),
        decreases self,
    {
        let qlx = position.value.x - range.halfsize.x;
        let qhx = position.value.x + range.halfsize.x;
        let qly = position.value.y - range.halfsize.y;
        let qhy = position.value.y + range.halfsize.y;
        if !(qlx < self.center.value.x + self.boundary.halfsize.x && qhx >= self.center.value.x
            - self.boundary.halfsize.x && qly < self.center.value.y + self.boundary.halfsize.y
            && qhy >= self.center.value.y - self.boundary.halfsize.y) {
            return ;
        }
        if self.divided {
            let ghost found0 = found@;
            self.nw.as_ref().unwrap().query_inner(range, position, found);
            self.ne.as_ref().unwrap().query_inner(range, position, found);
            self.sw.as_ref().unwrap().query_inner(range, position, found);
            self.se.as_ref().unwrap().query_inner(range, position, found);
            proof {
                assert(found@ =~= found0 + self.query_seq(*range, position));
            }
        } else {
            let n = self.objects.len();
            let mut i: usize = 0;
            while i < n
                invariant
                    0 <= i <= n,
                    found@ == old(found)@ + self.objects@.take(i as int).map_values(
                        |t: Entry| t.id,
                    ),
                decreases n - i,
            {
                found.push(self.objects[i].id);
                proof {
                    assert(self.objects@.take(i + 1 as int).map_values(|t: Entry| t.id)
                        =~= self.objects@.take(i as int).map_values(|t: Entry| t.id).push(
                        self.objects@[i as int].id,
                    ));
                }
                i = i + 1;
            }
            proof {
                assert(self.objects@.take(n as int) =~= self.objects@);
            }
        }
    }

    /// Appends to `found` the ids of every entry sharing a leaf with the
    /// query box `range` placed at `position`, provided the query box
    /// passes the exact overlap test against this node's boundary;
    /// otherwise nothing is appended. The result is a candidate
    /// superset: entries are not re-tested individually, so callers do
    /// their own exact narrow-phase test.
    pub fn query(&self, range: &AABB, position: Position, found: &mut Vec<u64>)
        requires
            self.wf(),
            range.wf(),
            position.value.spec_in_range(LIMIT as int),
        ensures
            final(found)@ == old(found)@ + (if crate::physics::spec_collides(
                self.spec_boundary(),
                self.spec_center(),
                *range,
                position,
            ) {
                self.query_seq(*range, position)
            } else {
                Seq::<u64>::empty()
            }),
    {
        let a = self.center.value;
        let b = position.value;
        let overlap = (a.x - self.boundary.halfsize.x) < (b.x + range.halfsize.x) && (a.x
            + self.boundary.halfsize.x) > (b.x - range.halfsize.x) && (a.y
            + self.boundary.halfsize.y) > (b.y - range.halfsize.y) && (a.y
            - self.boundary.halfsize.y) < (b.y + range.halfsize.y);
        if overlap {
            self.query_inner(range, position, found);
        } else {
            proof {
                assert(found@ =~= old(found)@ + Seq::<u64>::empty());
            }
        }
    }

    /// Every stored entry is accepted by the region of the tree that
    /// stores it.
    pub proof fn lemma_contains_accepted(self, x: Entry)
        requires
            self.wf(),
            self.contains_entry(x),
        ensures
            accepts_entry(self.spec_boundary(), self.spec_center(), x),
        decreases self,
    {
        if self.objects@.contains(x) {
            let i = choose|i: int| 0 <= i < self.objects@.len() && self.objects@[i] == x;
            assert(accepts_entry(self.boundary, self.center, self.objects@[i]));
        } else {
            let lo_x = entry_lo_x(x);
            let hi_x = entry_hi_x(x);
            let lo_y = entry_lo_y(x);
            let hi_y = entry_hi_y(x);
            assert(self.divided);
            let cnw = *self.nw.unwrap();
            let cne = *self.ne.unwrap();
            let csw = *self.sw.unwrap();
            let cse = *self.se.unwrap();
            if cnw.contains_entry(x) {
                cnw.lemma_contains_accepted(x);
                lemma_child_accept_parent(
                    self.boundary,
                    self.center,
                    -1,
                    1,
                    lo_x,
                    hi_x,
                    lo_y,
                    hi_y,
                );
            } else if cne.contains_entry(x) {
                cne.lemma_contains_accepted(x);
                lemma_child_accept_parent(self.boundary, self.center, 1, 1, lo_x, hi_x, lo_y, hi_y);
            } else if csw.contains_entry(x) {
                csw.lemma_contains_accepted(x);
                lemma_child_accept_parent(
                    self.boundary,
                    self.center,
                    -1,
                    -1,
                    lo_x,
                    hi_x,
                    lo_y,
                    hi_y,
                );
            } else {
                cse.lemma_contains_accepted(x);
                lemma_child_accept_parent(
                    self.boundary,
                    self.center,
                    1,
                    -1,
                    lo_x,
                    hi_x,
                    lo_y,
                    hi_y,
                );
            }
        }
    }

    /// The heart of the superset property: if a stored entry and the
    /// query span share a witness point inside this node's region, the
    /// query result holds the entry's id.
    proof fn lemma_query_complete(
        self,
        x: Entry,
        range: AABB,
        position: Position,
        wx: int,
        wy: int,
    )
        requires
            self.wf(),
            self.contains_entry(x),
            entry_lo_x(x) <= wx <= entry_hi_x(x),
            entry_lo_y(x) <= wy <= entry_hi_y(x),
            position.value.x - range.halfsize.x <= wx <= position.value.x + range.halfsize.x,
            position.value.y - range.halfsize.y <= wy <= position.value.y + range.halfsize.y,
            self.spec_center().value.x - self.spec_boundary().halfsize.x <= wx
                < self.spec_center().value.x + self.spec_boundary().halfsize.x,
            self.spec_center().value.y - self.spec_boundary().halfsize.y <= wy
                < self.spec_center().value.y + self.spec_boundary().halfsize.y,
        ensures
            self.query_seq(range, position).contains(x.id),
        decreases self,
    {
        let cx = self.center.value.x;
        let cy = self.center.value.y;
        let hx = self.boundary.halfsize.x;
        let hy = self.boundary.halfsize.y;
        if self.divided {
            assert(2 * (hx / 2) == hx);
            assert(2 * (hy / 2) == hy);
            let qnw = Self::opt_query(self.nw, range, position);
            let qne = Self::opt_query(self.ne, range, position);
            let qsw = Self::opt_query(self.sw, range, position);
            let qse = Self::opt_query(self.se, range, position);
            let r = self.query_seq(range, position);
            assert(r == qnw + qne + qsw + qse);
            if wx < cx && wy >= cy {
                let c = *self.nw.unwrap();
                assert(accepts_entry(c.boundary, c.center, x));
                assert(c.contains_entry(x));
                c.lemma_query_complete(x, range, position, wx, wy);
                let j = choose|j: int| 0 <= j < qnw.len() && qnw[j] == x.id;
                assert(r[j] == x.id);
            } else if wx >= cx && wy >= cy {
                let c = *self.ne.unwrap();
                assert(accepts_entry(c.boundary, c.center, x));
                assert(c.contains_entry(x));
                c.lemma_query_complete(x, range, position, wx, wy);
                let j = choose|j: int| 0 <= j < qne.len() && qne[j] == x.id;
                assert(r[qnw.len() + j] == x.id);
            } else if wx < cx && wy < cy {
                let c = *self.sw.unwrap();
                assert(accepts_entry(c.boundary, c.center, x));
                assert(c.contains_entry(x));
                c.lemma_query_complete(x, range, position, wx, wy);
                let j = choose|j: int| 0 <= j < qsw.len() && qsw[j] == x.id;
                assert(r[qnw.len() + qne.len() + j] == x.id);
            } else {
                let c = *self.se.unwrap();
                assert(accepts_entry(c.boundary, c.center, x));
                assert(c.contains_entry(x));
                c.lemma_query_complete(x, range, position, wx, wy);
                let j = choose|j: int| 0 <= j < qse.len() && qse[j] == x.id;
                assert(r[qnw.len() + qne.len() + qsw.len() + j] == x.id);
            }
        } else {
            let i = choose|i: int| 0 <= i < self.objects@.len() && self.objects@[i] == x;
            assert(self.query_seq(range, position)[i] == x.id);
        }
    }

    /// Whether the closed span lies inside this node's closed region.
    pub open spec fn region_holds_span(self, lx: int, hx: int, ly: int, hy: int) -> bool {
        &&& self.spec_center().value.x - self.spec_boundary().halfsize.x <= lx
        &&& hx <= self.spec_center().value.x + self.spec_boundary().halfsize.x
        &&& self.spec_center().value.y - self.spec_boundary().halfsize.y <= ly
        &&& hy <= self.spec_center().value.y + self.spec_boundary().halfsize.y
    }

    /// The superset property for box entries: a query with box `q_box` at
    /// `q_pos` reports every stored box entry whose exact overlap test
    /// against the query box is true, as long as both boxes lie within
    /// the world region. The coarse leaf-granularity query never
    /// under-reports a true overlap.
    pub proof fn lemma_query_superset(self, x: Entry, q_box: AABB, q_pos: Position)
        requires
            self.wf(),
            self.contains_entry(x),
            entry_ok(x),
            q_box.wf(),
            x.aabb is Some,
            crate::physics::spec_collides(q_box, q_pos, x.aabb.unwrap(), x.position),
            self.region_holds_span(entry_lo_x(x), entry_hi_x(x), entry_lo_y(x), entry_hi_y(x)),
            self.region_holds_span(
                q_pos.value.x - q_box.halfsize.x,
                q_pos.value.x + q_box.halfsize.x,
                q_pos.value.y - q_box.halfsize.y,
                q_pos.value.y + q_box.halfsize.y,
            ),
        ensures
            self.query_seq(q_box, q_pos).contains(x.id),
            crate::physics::spec_collides(self.spec_boundary(), self.spec_center(), q_box, q_pos),
    {
        let qlx = q_pos.value.x - q_box.halfsize.x;
        let qhx = q_pos.value.x + q_box.halfsize.x;
        let qly = q_pos.value.y - q_box.halfsize.y;
        let qhy = q_pos.value.y + q_box.halfsize.y;
        let wx = if qlx >= entry_lo_x(x) {
            qlx
        } else {
            entry_lo_x(x)
        };
        let wy = if qly >= entry_lo_y(x) {
            qly
        } else {
            entry_lo_y(x)
        };
        self.lemma_query_complete(x, q_box, q_pos, wx, wy);
    }

    /// The superset property for point entries: a query reports every
    /// stored point that lies strictly inside the query box, with no
    /// extra condition on the world region.
    pub proof fn lemma_query_superset_point(self, x: Entry, q_box: AABB, q_pos: Position)
        requires
            self.wf(),
            self.contains_entry(x),
            x.aabb is None,
            crate::physics::spec_intersects(q_box, q_pos, x.position),
        ensures
            self.query_seq(q_box, q_pos).contains(x.id),
            crate::physics::spec_collides(self.spec_boundary(), self.spec_center(), q_box, q_pos),
    {
        self.lemma_contains_accepted(x);
        self.lemma_query_complete(
            x,
            q_box,
            q_pos,
            x.position.value.x as int,
            x.position.value.y as int,
        );
    }

    /// A query returns at most as many ids as the tree stores.
    pub proof fn lemma_query_len(self, range: AABB, position: Position)
        ensures
            self.query_seq(range, position).len() <= self.id_count().len(),
        decreases self,
    {
        if self.query_seq(range, position).len() == 0 {
        } else if self.divided {
            match self.nw {
                Some(c) => c.lemma_query_len(range, position),
                None => (),
            }
            match self.ne {
                Some(c) => c.lemma_query_len(range, position),
                None => (),
            }
            match self.sw {
                Some(c) => c.lemma_query_len(range, position),
                None => (),
            }
            match self.se {
                Some(c) => c.lemma_query_len(range, position),
                None => (),
            }
            lemma_seq_ids_len(self.objects@);
        } else {
            lemma_seq_ids_len(self.objects@);
        }
    }

    /// A query returns no id more often than the tree stores it.
    pub proof fn lemma_query_counts(self, range: AABB, position: Position)
        ensures
            forall|x: u64|
                self.query_seq(range, position).to_multiset().count(x) <= self.id_count().count(
                    x,
                ),
        decreases self,
    {
        let q = self.query_seq(range, position);
        if q.len() == 0 {
            assert forall|x: u64| q.to_multiset().count(x) <= self.id_count().count(x) by {
                assert(!q.to_multiset().contains(x));
            }
        } else if self.divided {
            let q1 = Self::opt_query(self.nw, range, position);
            let q2 = Self::opt_query(self.ne, range, position);
            let q3 = Self::opt_query(self.sw, range, position);
            let q4 = Self::opt_query(self.se, range, position);
            match self.nw {
                Some(c) => c.lemma_query_counts(range, position),
                None => (),
            }
            match self.ne {
                Some(c) => c.lemma_query_counts(range, position),
                None => (),
            }
            match self.sw {
                Some(c) => c.lemma_query_counts(range, position),
                None => (),
            }
            match self.se {
                Some(c) => c.lemma_query_counts(range, position),
                None => (),
            }
            vstd::seq_lib::lemma_multiset_commutative(q1, q2);
            vstd::seq_lib::lemma_multiset_commutative(q1 + q2, q3);
            vstd::seq_lib::lemma_multiset_commutative(q1 + q2 + q3, q4);
            assert(q == q1 + q2 + q3 + q4);
            assert forall|x: u64| q.to_multiset().count(x) <= self.id_count().count(x) by {
                assert(q.to_multiset().count(x) == q1.to_multiset().count(x)
                    + q2.to_multiset().count(x) + q3.to_multiset().count(x)
                    + q4.to_multiset().count(x));
                assert(q1.to_multiset().count(x) <= Self::opt_count(self.nw).count(x)) by {
                    match self.nw {
                        Some(ch) => {
                            assert(q1 == ch.query_seq(range, position));
                            assert(Self::opt_count(self.nw) == ch.id_count());
                        },
                        None => {
                            assert(!q1.to_multiset().contains(x));
                        },
                    }
                }
                assert(q2.to_multiset().count(x) <= Self::opt_count(self.ne).count(x)) by {
                    match self.ne {
                        Some(ch) => {
                            assert(q2 == ch.query_seq(range, position));
                            assert(Self::opt_count(self.ne) == ch.id_count());
                        },
                        None => {
                            assert(!q2.to_multiset().contains(x));
                        },
                    }
                }
                assert(q3.to_multiset().count(x) <= Self::opt_count(self.sw).count(x)) by {
                    match self.sw {
                        Some(ch) => {
                            assert(q3 == ch.query_seq(range, position));
                            assert(Self::opt_count(self.sw) == ch.id_count());
                        },
                        None => {
                            assert(!q3.to_multiset().contains(x));
                        },
                    }
                }
                assert(q4.to_multiset().count(x) <= Self::opt_count(self.se).count(x)) by {
                    match self.se {
                        Some(ch) => {
                            assert(q4 == ch.query_seq(range, position));
                            assert(Self::opt_count(self.se) == ch.id_count());
                        },
                        None => {
                            assert(!q4.to_multiset().contains(x));
                        },
                    }
                }
            }
        } else {
            lemma_seq_ids_is_mapped(self.objects@);
            assert(q == self.objects@.map_values(|e: Entry| e.id));
        }
    }

    /// The number of stored entries, counted over every leaf.
    pub fn stored_count(&self) -> (n: u64)
        requires
            self.wf(),
            self.id_count().len() <= u64::MAX,
        ensures
            n == self.id_count().len(),
        decreases self,
    {
        proof {
            lemma_seq_ids_len(self.objects@);
        }
        let mut n: u64 = self.objects.len() as u64;
        if self.divided {
            n = n + self.nw.as_ref().unwrap().stored_count();
            n = n + self.ne.as_ref().unwrap().stored_count();
            n = n + self.sw.as_ref().unwrap().stored_count();
            n = n + self.se.as_ref().unwrap().stored_count();
        }
        n
    }
}

/// How the four child regions of a splittable node relate to a span:
/// at least one child accepts any span the parent accepts, and a
/// point-sized span is accepted by exactly one child, decided by which
/// side of the center it lies on.
proof fn lemma_split_accept(b: AABB, c: Position, lx: int, hx: int, ly: int, hy: int)
    requires
        b.wf(),
        region_bounded(b, c),
        Quadtree::spec_can_split(b),
        lx <= hx,
        ly <= hy,
        accepts_span(b, c, lx, hx, ly, hy),
    ensures
        ({
            ||| accepts_span(
                Quadtree::child_boundary(b),
                Quadtree::child_center(b, c, -1, 1),
                lx,
                hx,
                ly,
                hy,
            )
            ||| accepts_span(
                Quadtree::child_boundary(b),
                Quadtree::child_center(b, c, 1, 1),
                lx,
                hx,
                ly,
                hy,
            )
            ||| accepts_span(
                Quadtree::child_boundary(b),
                Quadtree::child_center(b, c, -1, -1),
                lx,
                hx,
                ly,
                hy,
            )
            ||| accepts_span(
                Quadtree::child_boundary(b),
                Quadtree::child_center(b, c, 1, -1),
                lx,
                hx,
                ly,
                hy,
            )
        }),
        lx == hx && ly == hy ==> {
            &&& accepts_span(
                Quadtree::child_boundary(b),
                Quadtree::child_center(b, c, -1, 1),
                lx,
                hx,
                ly,
                hy,
            ) <==> (lx < c.value.x && ly >= c.value.y)
            &&& accepts_span(
                Quadtree::child_boundary(b),
                Quadtree::child_center(b, c, 1, 1),
                lx,
                hx,
                ly,
                hy,
            ) <==> (lx >= c.value.x && ly >= c.value.y)
            &&& accepts_span(
                Quadtree::child_boundary(b),
                Quadtree::child_center(b, c, -1, -1),
                lx,
                hx,
                ly,
                hy,
            ) <==> (lx < c.value.x && ly < c.value.y)
            &&& accepts_span(
                Quadtree::child_boundary(b),
                Quadtree::child_center(b, c, 1, -1),
                lx,
                hx,
                ly,
                hy,
            ) <==> (lx >= c.value.x && ly < c.value.y)
        },
{
    let h2x = b.halfsize.x / 2;
    let h2y = b.halfsize.y / 2;
    assert(2 * h2x == b.halfsize.x);
    assert(2 * h2y == b.halfsize.y);
}

/// A child region lies inside its parent region, so a span the child
/// accepts is accepted by the parent too.
proof fn lemma_child_accept_parent(b: AABB, c: Position, sx: int, sy: int, lx: int, hx: int, ly: int, hy: int)
    requires
        b.wf(),
        region_bounded(b, c),
        Quadtree::spec_can_split(b),
        sx == -1 || sx == 1,
        sy == -1 || sy == 1,
        accepts_span(Quadtree::child_boundary(b), Quadtree::child_center(b, c, sx, sy), lx, hx, ly, hy),
    ensures
        accepts_span(b, c, lx, hx, ly, hy),
{
    let h2x = b.halfsize.x / 2;
    let h2y = b.halfsize.y / 2;
    assert(2 * h2x == b.halfsize.x);
    assert(2 * h2y == b.halfsize.y);
}

/// Exact test of `node_accepts`: the strict overlap or point-in-box
/// test of an entry against a node's boundary box.
fn node_accepts_exec(b: &AABB, c: Position, e: &Entry) -> (r: bool)
    requires
        b.wf(),
        region_bounded(*b, c),
        entry_ok(*e),
    ensures
        r == node_accepts(*b, c, *e),
{
    let cx = c.value.x;
    let cy = c.value.y;
    match e.aabb {
        Some(shape) => {
            (cx - b.halfsize.x) < (e.position.value.x + shape.halfsize.x) && (cx + b.halfsize.x)
                > (e.position.value.x - shape.halfsize.x) && (cy + b.halfsize.y) > (
            e.position.value.y - shape.halfsize.y) && (cy - b.halfsize.y) < (e.position.value.y
                + shape.halfsize.y)
        },
        None => {
            (cx - b.halfsize.x) < e.position.value.x && (cx + b.halfsize.x) > e.position.value.x
                && (cy + b.halfsize.y) > e.position.value.y && (cy - b.halfsize.y)
                < e.position.value.y
        },
    }
}

/// Exact test of whether the half-open routing region given by `b` and
/// `c` accepts entry `e`.
fn accepts(b: &AABB, c: Position, e: &Entry) -> (r: bool)
    requires
        b.wf(),
        region_bounded(*b, c),
        entry_ok(*e),
    ensures
        r == accepts_entry(*b, c, *e),
{
    let lx: i64;
    let hx: i64;
    let ly: i64;
    let hy: i64;
    match e.aabb {
        Some(eb) => {
            lx = e.position.value.x - eb.halfsize.x;
            hx = e.position.value.x + eb.halfsize.x;
            ly = e.position.value.y - eb.halfsize.y;
            hy = e.position.value.y + eb.halfsize.y;
        }
        None => {
            lx = e.position.value.x;
            hx = e.position.value.x;
            ly = e.position.value.y;
            hy = e.position.value.y;
        }
    }
    lx < c.value.x + b.halfsize.x && hx >= c.value.x - b.halfsize.x && ly < c.value.y + b.halfsize.y
        && hy >= c.value.y - b.halfsize.y
}

/// Builds a quadtree centered at the origin over `aabb` and inserts
/// every item, box-shaped or point-shaped.
pub fn build_quadtree(
    items: &Vec<(u64, Option<AABB>, Position)>,
    aabb: &AABB,
    capacity: usize,
) -> (t: Quadtree)
    requires
        aabb.wf(),
        forall|i: int|
            0 <= i < items@.len() ==> entry_ok(
                Entry {
                    id: (#[trigger] items@[i]).0,
                    aabb: items@[i].1,
                    position: items@[i].2,
                },
            ),
    ensures
        t.wf(),
        t.spec_boundary() == *aabb,
        t.spec_center() == (Position { value: crate::physics::Vec2i { x: 0, y: 0 } }),
        forall|x: Entry|
            t.contains_entry(x) <==> (node_accepts(
                *aabb,
                Position { value: crate::physics::Vec2i { x: 0, y: 0 } },
                x,
            ) && exists|i: int|
                0 <= i < items@.len() && x == (Entry {
                    id: (#[trigger] items@[i]).0,
                    aabb: items@[i].1,
                    position: items@[i].2,
                })),
{
    let mut t = Quadtree::new(*aabb, crate::physics::Vec2i::new(0, 0), capacity);
    let n = items.len();
    let mut i: usize = 0;
    while i < n
        invariant
            0 <= i <= n,
            n == items@.len(),
            t.wf(),
            t.spec_boundary() == *aabb,
            t.spec_center() == (Position { value: crate::physics::Vec2i { x: 0, y: 0 } }),
            forall|j: int|
                0 <= j < n ==> entry_ok(
                    Entry {
                        id: (#[trigger] items@[j]).0,
                        aabb: items@[j].1,
                        position: items@[j].2,
                    },
                ),
            forall|x: Entry|
                t.contains_entry(x) <==> (node_accepts(
                    *aabb,
                    Position { value: crate::physics::Vec2i { x: 0, y: 0 } },
                    x,
                ) && exists|j: int|
                    0 <= j < i && x == (Entry {
                        id: (#[trigger] items@[j]).0,
                        aabb: items@[j].1,
                        position: items@[j].2,
                    })),
        decreases n - i,
    {
        let it = items[i];
        t.insert(it.0, it.1, it.2);
        i = i + 1;
    }
    t
}

/// Builds a point-mode quadtree centered at the origin over `aabb`: one
/// point entry per item. The tree stores exactly one copy of the id of
/// every item whose position the world region accepts, so walking every
/// leaf of the result counts exactly the successful inserts.
pub fn build_point_quadtree(items: &Vec<(u64, Position)>, aabb: &AABB, capacity: usize) -> (t:
    Quadtree)
    requires
        aabb.wf(),
        forall|i: int|
            0 <= i < items@.len() ==> (#[trigger] items@[i]).1.value.spec_in_range(LIMIT as int),
    ensures
        t.wf(),
        t.all_points(),
        t.spec_boundary() == *aabb,
        t.spec_center() == (Position { value: crate::physics::Vec2i { x: 0, y: 0 } }),
        t.id_count() == accepted_point_ids(
            items@,
            *aabb,
            Position { value: crate::physics::Vec2i { x: 0, y: 0 } },
        ),
        forall|x: Entry|
            t.contains_entry(x) <==> (node_accepts(
                *aabb,
                Position { value: crate::physics::Vec2i { x: 0, y: 0 } },
                x,
            ) && exists|i: int|
                0 <= i < items@.len() && x == (Entry {
                    id: (#[trigger] items@[i]).0,
                    aabb: None,
                    position: items@[i].1,
                })),
{
    let ghost c0 = Position { value: crate::physics::Vec2i { x: 0, y: 0 } };
    let mut t = Quadtree::new(*aabb, crate::physics::Vec2i::new(0, 0), capacity);
    let n = items.len();
    let mut i: usize = 0;
    while i < n
        invariant
            0 <= i <= n,
            n == items@.len(),
            t.wf(),
            t.all_points(),
            t.spec_boundary() == *aabb,
            t.spec_center() == c0,
            c0 == (Position { value: crate::physics::Vec2i { x: 0, y: 0 } }),
            forall|j: int|
                0 <= j < n ==> (#[trigger] items@[j]).1.value.spec_in_range(LIMIT as int),
            t.id_count() == accepted_point_ids(items@.take(i as int), *aabb, c0),
            forall|x: Entry|
                t.contains_entry(x) <==> (node_accepts(*aabb, c0, x) && exists|j: int|
                    0 <= j < i && x == (Entry {
                        id: (#[trigger] items@[j]).0,
                        aabb: None,
                        position: items@[j].1,
                    })),
        decreases n - i,
    {
        let it = items[i];
        proof {
            assert(items@.take(i + 1 as int).drop_last() =~= items@.take(i as int));
            assert(items@.take(i + 1 as int).last() == items@[i as int]);
        }
        t.insert(it.0, None, it.1);
        i = i + 1;
    }
    proof {
        assert(items@.take(n as int) =~= items@);
    }
    t
}

/// Exact test of `Quadtree::spec_can_split`.
fn can_split(b: &AABB) -> (r: bool)
    requires
        b.wf(),
    ensures
        r == Quadtree::spec_can_split(*b),
{
    b.halfsize.x >= 2 && b.halfsize.y >= 2 && b.halfsize.x % 2 == 0 && b.halfsize.y % 2 == 0
}

} // verus!
