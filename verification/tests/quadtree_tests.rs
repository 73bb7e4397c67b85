use flocksim::physics::{Position, Vec2i, AABB};
use flocksim::quadtree::{build_point_quadtree, build_quadtree, Quadtree};

fn pos(x: i64, y: i64) -> Position {
    Position::new(Vec2i::new(x, y))
}

#[test]
fn insert_accepts_inside_and_rejects_outside() {
    let world = AABB::new(Vec2i::new(64, 64));
    let mut t = Quadtree::new(world, Vec2i::new(0, 0), 4);
    assert!(t.insert(1, None, pos(10, 10)));
    assert!(t.insert(2, None, pos(-63, 63)));
    // a point past the world edge is rejected
    assert!(!t.insert(3, None, pos(200, 0)));
    assert!(!t.insert(4, None, pos(0, -200)));
    assert_eq!(t.stored_count(), 2);
}

#[test]
fn query_returns_leafmates_as_candidate_superset() {
    let world = AABB::new(Vec2i::new(64, 64));
    let mut t = Quadtree::new(world, Vec2i::new(0, 0), 2);
    let shape = AABB::new(Vec2i::new(2, 2));
    t.insert(1, Some(shape), pos(-30, -30));
    t.insert(2, Some(shape), pos(-29, -30));
    t.insert(3, Some(shape), pos(30, 30));
    let mut found: Vec<u64> = Vec::new();
    t.query(&shape, pos(-30, -30), &mut found);
    assert!(found.contains(&1));
    assert!(found.contains(&2));
}

/// The superset property on boxes: every pair whose exact overlap test is
/// true sees each other in its query result, in both directions.
#[test]
fn query_never_underreports_true_overlaps() {
    let world = AABB::new(Vec2i::new(512, 512));
    let mut t = Quadtree::new(world, Vec2i::new(0, 0), 1);
    // a pseudo-random cloud of boxes, several of which overlap
    let mut items: Vec<(u64, AABB, Position)> = Vec::new();
    let mut seed: i64 = 12345;
    for id in 0..40u64 {
        seed = (seed * 1103515245 + 12345) % 2147483648;
        let x = (seed % 900) - 450;
        seed = (seed * 1103515245 + 12345) % 2147483648;
        let y = (seed % 900) - 450;
        let h = 8 + (seed % 24);
        let shape = AABB::new(Vec2i::new(h, h));
        items.push((id, shape, pos(x, y)));
        t.insert(id, Some(shape), pos(x, y));
    }
    let mut overlapping_pairs = 0;
    for (ia, sa, pa) in &items {
        let mut found: Vec<u64> = Vec::new();
        t.query(sa, *pa, &mut found);
        for (ib, sb, pb) in &items {
            if ia != ib && flocksim::physics::collides(sa, *pa, sb, *pb) {
                overlapping_pairs += 1;
                assert!(
                    found.contains(ib),
                    "query missed a true overlap between {} and {}",
                    ia,
                    ib
                );
            }
        }
    }
    assert!(overlapping_pairs > 0, "the scene should contain overlaps");
}

/// The superset property in point mode: every stored point strictly
/// inside the query box is reported.
#[test]
fn point_query_never_underreports() {
    let world = AABB::new(Vec2i::new(256, 256));
    let mut t = Quadtree::new(world, Vec2i::new(0, 0), 1);
    let pts = [
        (0u64, 3i64, 3i64),
        (1, -4, 2),
        (2, 100, -90),
        (3, 5, 5),
        (4, -100, 100),
        (5, 0, 0),
    ];
    for (id, x, y) in pts {
        assert!(t.insert(id, None, pos(x, y)));
    }
    let view = AABB::new(Vec2i::new(10, 10));
    let mut found: Vec<u64> = Vec::new();
    t.query(&view, pos(0, 0), &mut found);
    for (id, x, y) in pts {
        if flocksim::physics::intersects(&view, pos(0, 0), pos(x, y)) {
            assert!(found.contains(&id));
        }
    }
    assert!(found.contains(&0) && found.contains(&1) && found.contains(&3) && found.contains(&5));
}

/// Conservation: walking every leaf counts exactly the successful
/// point inserts, even across subdivisions and co-located points.
#[test]
fn leaf_walk_counts_successful_point_inserts() {
    let world = AABB::new(Vec2i::new(128, 128));
    let mut t = Quadtree::new(world, Vec2i::new(0, 0), 2);
    let mut accepted: u64 = 0;
    let mut seed: i64 = 777;
    for id in 0..200u64 {
        seed = (seed * 1103515245 + 12345) % 2147483648;
        let x = (seed % 400) - 200;
        seed = (seed * 1103515245 + 12345) % 2147483648;
        let y = (seed % 400) - 200;
        if t.insert(id, None, pos(x, y)) {
            accepted += 1;
        }
    }
    // many co-located points, driving deep subdivision, all kept
    for id in 200..260u64 {
        if t.insert(id, None, pos(7, 7)) {
            accepted += 1;
        }
    }
    assert!(accepted > 0);
    assert_eq!(t.stored_count(), accepted);
}

#[test]
fn build_point_quadtree_conserves_accepted_items() {
    let world = AABB::new(Vec2i::new(64, 64));
    let items: Vec<(u64, Position)> = vec![
        (0, pos(1, 1)),
        (1, pos(-10, 20)),
        (2, pos(500, 0)),  // outside, rejected
        (3, pos(63, -63)),
        (4, pos(1, 1)),    // duplicate position still counts
    ];
    let t = build_point_quadtree(&items, &world, 2);
    assert_eq!(t.stored_count(), 4);
}

#[test]
fn build_quadtree_holds_mixed_entries() {
    let world = AABB::new(Vec2i::new(64, 64));
    let shape = AABB::new(Vec2i::new(4, 4));
    let items: Vec<(u64, Option<AABB>, Position)> = vec![
        (0, Some(shape), pos(0, 0)),
        (1, None, pos(10, 10)),
        (2, Some(shape), pos(-60, 60)),
    ];
    let t = build_quadtree(&items, &world, 4);
    let mut found: Vec<u64> = Vec::new();
    t.query(&AABB::new(Vec2i::new(64, 64)), pos(0, 0), &mut found);
    assert!(found.contains(&0));
    assert!(found.contains(&1));
    assert!(found.contains(&2));
}

#[test]
fn subdivide_redistributes_entries() {
    let world = AABB::new(Vec2i::new(64, 64));
    let mut t = Quadtree::new(world, Vec2i::new(0, 0), 8);
    for id in 0..8u64 {
        let x = (id as i64) * 10 - 40;
        assert!(t.insert(id, None, pos(x, x / 2)));
    }
    t.subdivide();
    // nothing lost: the same entries are reachable afterwards
    assert_eq!(t.stored_count(), 8);
    let mut found: Vec<u64> = Vec::new();
    t.query(&world, pos(0, 0), &mut found);
    assert_eq!(found.len(), 8);
}

/// A point exactly on the world's low edge fails the exact point-in-box
/// test and is rejected outright, leaving the tree untouched.
#[test]
fn low_edge_point_is_rejected() {
    let world = AABB::new(Vec2i::new(64, 64));
    let mut t = Quadtree::new(world, Vec2i::new(0, 0), 4);
    assert!(!t.insert(1, None, pos(-64, 0)));
    assert!(!t.insert(2, None, pos(0, -64)));
    // the high edge is rejected just the same
    assert!(!t.insert(3, None, pos(64, 0)));
    assert_eq!(t.stored_count(), 0);
    // a box merely touching the world's low edge from outside is rejected too
    let shape = AABB::new(Vec2i::new(4, 4));
    assert!(!t.insert(4, Some(shape), pos(-68, 0)));
    assert_eq!(t.stored_count(), 0);
}

/// A query box that only touches the world's edge fails the exact
/// overlap test and returns nothing.
#[test]
fn edge_touching_query_returns_nothing() {
    let world = AABB::new(Vec2i::new(64, 64));
    let mut t = Quadtree::new(world, Vec2i::new(0, 0), 4);
    assert!(t.insert(1, None, pos(-60, 0)));
    let range = AABB::new(Vec2i::new(4, 4));
    let mut found: Vec<u64> = Vec::new();
    t.query(&range, pos(-68, 0), &mut found);
    assert!(found.is_empty());
    let mut found2: Vec<u64> = Vec::new();
    t.query(&range, pos(-59, 0), &mut found2);
    assert!(found2.contains(&1));
}

/// A leaf with spare capacity appends without subdividing: while the
/// root is one leaf, every query shares it, and only the insert past
/// capacity splits the world into quadrants.
#[test]
fn under_capacity_leaf_stays_undivided() {
    let world = AABB::new(Vec2i::new(64, 64));
    let mut t = Quadtree::new(world, Vec2i::new(0, 0), 8);
    for id in 0..8u64 {
        assert!(t.insert(id, None, pos(1, 1)));
    }
    let range = AABB::new(Vec2i::new(2, 2));
    // the root is still a single leaf, so even a far query shares it
    let mut far: Vec<u64> = Vec::new();
    t.query(&range, pos(-60, -60), &mut far);
    assert_eq!(far.len(), 8, "an under-capacity leaf must not subdivide");
    // one more entry exceeds capacity and triggers subdivision
    assert!(t.insert(8, None, pos(1, 1)));
    let mut far2: Vec<u64> = Vec::new();
    t.query(&range, pos(-60, -60), &mut far2);
    assert!(far2.is_empty(), "after subdivision the far quadrant is its own leaf");
    let mut near: Vec<u64> = Vec::new();
    t.query(&range, pos(1, 1), &mut near);
    assert_eq!(near.len(), 9);
}
