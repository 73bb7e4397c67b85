use flocksim::collision::{collisions, correct_collisions};
use flocksim::physics::{
    collides, MovingObject, MovingObjectState, Position, Vec2i, Velocity, AABB,
};

fn pos(x: i64, y: i64) -> Position {
    Position::new(Vec2i::new(x, y))
}

fn body(x: i64, y: i64, mass: i64) -> MovingObject {
    MovingObject {
        mass,
        position: pos(x, y),
        velocity: Velocity::new(Vec2i::new(0, 0)),
        state: MovingObjectState::default(),
        old_position: pos(x, y),
        old_velocity: Velocity::new(Vec2i::new(0, 0)),
        old_state: MovingObjectState::default(),
    }
}

/// Separation monotonicity: after one resolution pass on a colliding
/// pair, the exact overlap test is false.
#[test]
fn resolution_removes_the_overlap() {
    let shape = AABB::new(Vec2i::new(5, 5));
    let mut a = body(0, 0, 10);
    let mut b = body(-6, 1, 30);
    assert!(collides(&shape, a.position, &shape, b.position));
    correct_collisions(&mut a, &shape, &mut b, &shape);
    assert!(!collides(&shape, a.position, &shape, b.position));
}

/// Mass-weighted ratio: for masses 10 and 30 overlapping by 8 units on
/// X only, the displacements are the `m/total` shares of the
/// penetration (2 units for the 10-mass body, 6 for the 30-mass one),
/// in opposite directions, summing to the full penetration removed.
#[test]
fn displacement_follows_the_mass_ratio() {
    let shape = AABB::new(Vec2i::new(5, 5));
    let mut a = body(0, 0, 10);
    let mut b = body(-2, 0, 30);
    // penetration is 8 on x (boxes 10 wide, centers 2 apart), 10 on y
    correct_collisions(&mut a, &shape, &mut b, &shape);
    assert_eq!(a.position.value.x, 2);
    assert_eq!(b.position.value.x, -8);
    assert_eq!(a.position.value.y, 0);
    assert_eq!(b.position.value.y, 0);
    // displacements 2 and 6 sum to the full 8-unit penetration
    assert_eq!((a.position.value.x - 0) - (b.position.value.x - -2), 8);
}

/// Scenario: two 10 by 10 boxes, masses 10 and 10, centered 6 units
/// apart on X (4 units of overlap), aligned on Y. The pair resolves on X
/// only, each box moves 2 units apart, and with the second box on the
/// left the first gets touching-left and the second the mirror flag.
#[test]
fn equal_boxes_share_the_correction() {
    let shape = AABB::new(Vec2i::new(5, 5));
    let mut a = body(0, 0, 10);
    let mut b = body(-6, 0, 10);
    correct_collisions(&mut a, &shape, &mut b, &shape);
    assert_eq!(a.position.value.x, 2);
    assert_eq!(b.position.value.x, -8);
    assert_eq!(a.position.value.y, 0);
    assert_eq!(b.position.value.y, 0);
    assert!(a.state.left);
    assert!(!a.state.right);
    assert!(b.state.right);
    assert!(!b.state.left);
    assert!(!a.state.ground && !a.state.ceiling);
    assert!(!b.state.ground && !b.state.ceiling);
}

#[test]
fn vertical_resolution_sets_ground_and_ceiling() {
    let shape = AABB::new(Vec2i::new(5, 5));
    // A sits above B, overlapping by 2 on y and 8 on x: y resolves first
    let mut a = body(2, 8, 10);
    let mut b = body(0, 0, 0);
    correct_collisions(&mut a, &shape, &mut b, &shape);
    assert!(a.state.ground);
    assert!(b.state.ceiling);
    // the static body did not move at all
    assert_eq!(b.position.value.x, 0);
    assert_eq!(b.position.value.y, 0);
    // A absorbed the whole 2-unit separation
    assert_eq!(a.position.value.y, 10);
    assert_eq!(a.position.value.x, 2);
}

#[test]
fn static_pair_and_disjoint_pair_are_untouched() {
    let shape = AABB::new(Vec2i::new(5, 5));
    let mut a = body(0, 0, 0);
    let mut b = body(-2, 0, 0);
    correct_collisions(&mut a, &shape, &mut b, &shape);
    assert_eq!(a.position.value.x, 0);
    assert_eq!(b.position.value.x, -2);
    let mut c = body(0, 0, 10);
    let mut d = body(100, 0, 10);
    correct_collisions(&mut c, &shape, &mut d, &shape);
    assert_eq!(c.position.value.x, 0);
    assert_eq!(d.position.value.x, 100);
    assert!(!c.state.left && !c.state.right);
}

/// The full pass: the quadtree broad phase feeds the resolver, a
/// massive body is pushed off a static one, and the static body never
/// has its position adjusted.
#[test]
fn collision_pass_resolves_against_static_geometry() {
    let shape = AABB::new(Vec2i::new(8, 8));
    let world = AABB::new(Vec2i::new(256, 256));
    let mut bodies = vec![
        body(0, 14, 5),   // overlaps the floor block below by 2 on y
        body(0, 0, 0),    // static floor block
        body(100, 100, 5) // far away, untouched
    ];
    let aabbs = vec![shape, shape, shape];
    collisions(&aabbs, &mut bodies, &world, 4);
    assert_eq!(bodies[1].position.value.x, 0);
    assert_eq!(bodies[1].position.value.y, 0);
    assert_eq!(bodies[0].position.value.y, 16);
    assert!(bodies[0].state.ground);
    assert!(bodies[1].state.ceiling);
    assert_eq!(bodies[2].position.value.x, 100);
    assert_eq!(bodies[2].position.value.y, 100);
    assert!(!bodies[2].state.ground);
    assert!(
        !collides(
            &aabbs[0],
            bodies[0].position,
            &aabbs[1],
            bodies[1].position
        )
    );
}

#[test]
fn collision_pass_clears_stale_flags_of_massive_bodies() {
    let shape = AABB::new(Vec2i::new(4, 4));
    let world = AABB::new(Vec2i::new(128, 128));
    let mut lone = body(0, 0, 3);
    lone.state.left = true;
    lone.state.ground = true;
    let mut bodies = vec![lone];
    let aabbs = vec![shape];
    collisions(&aabbs, &mut bodies, &world, 4);
    // nothing overlaps this tick, so the flags reflect that
    assert!(!bodies[0].state.left);
    assert!(!bodies[0].state.ground);
}

/// Two disjoint colliding pairs in one scene: the pass resolves both,
/// not just one, in a single tick.
#[test]
fn collision_pass_resolves_two_pairs_at_once() {
    let shape = AABB::new(Vec2i::new(5, 5));
    let world = AABB::new(Vec2i::new(256, 256));
    let mut bodies = vec![
        body(0, 0, 10),
        body(-6, 0, 10),
        body(100, 100, 10),
        body(100, 106, 10),
    ];
    let aabbs = vec![shape, shape, shape, shape];
    collisions(&aabbs, &mut bodies, &world, 2);
    assert!(!collides(&shape, bodies[0].position, &shape, bodies[1].position));
    assert!(!collides(&shape, bodies[2].position, &shape, bodies[3].position));
    assert!(bodies[0].state.left && bodies[1].state.right);
    assert!(bodies[2].state.ceiling && bodies[3].state.ground);
}
