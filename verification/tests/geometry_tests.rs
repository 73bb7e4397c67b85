use flocksim::physics::{
    apply_gravity, collides, intersects, penetration_depth, stop_movement, update_physics, Gravity,
    MovingObject, MovingObjectState, Position, Vec2i, Velocity, AABB,
};

fn pos(x: i64, y: i64) -> Position {
    Position::new(Vec2i::new(x, y))
}

fn body(x: i64, y: i64, vx: i64, vy: i64, mass: i64) -> MovingObject {
    MovingObject {
        mass,
        position: pos(x, y),
        velocity: Velocity::new(Vec2i::new(vx, vy)),
        state: MovingObjectState::default(),
        old_position: pos(0, 0),
        old_velocity: Velocity::new(Vec2i::new(0, 0)),
        old_state: MovingObjectState::default(),
    }
}

#[test]
fn overlapping_boxes_collide() {
    let a = AABB::new(Vec2i::new(5, 5));
    let b = AABB::new(Vec2i::new(5, 5));
    assert!(collides(&a, pos(0, 0), &b, pos(6, 0)));
    assert!(collides(&a, pos(0, 0), &b, pos(0, -9)));
    assert!(collides(&a, pos(0, 0), &b, pos(9, 9)));
}

#[test]
fn separated_or_touching_boxes_do_not_collide() {
    let a = AABB::new(Vec2i::new(5, 5));
    let b = AABB::new(Vec2i::new(5, 5));
    // edges exactly touching fail the strict test
    assert!(!collides(&a, pos(0, 0), &b, pos(10, 0)));
    assert!(!collides(&a, pos(0, 0), &b, pos(0, 10)));
    assert!(!collides(&a, pos(0, 0), &b, pos(25, 0)));
}

#[test]
fn point_in_box_is_strict() {
    let a = AABB::new(Vec2i::new(4, 4));
    assert!(intersects(&a, pos(0, 0), pos(0, 0)));
    assert!(intersects(&a, pos(0, 0), pos(3, -3)));
    assert!(!intersects(&a, pos(0, 0), pos(4, 0)));
    assert!(!intersects(&a, pos(0, 0), pos(0, -4)));
    assert!(!intersects(&a, pos(0, 0), pos(12, 0)));
}

#[test]
fn contains_requires_strict_inclusion() {
    let outer = AABB::new(Vec2i::new(10, 10));
    let inner = AABB::new(Vec2i::new(3, 3));
    assert!(outer.contains(Vec2i::new(0, 0), &inner, Vec2i::new(2, -2)));
    assert!(!outer.contains(Vec2i::new(0, 0), &inner, Vec2i::new(7, 0)));
    assert!(!inner.contains(Vec2i::new(0, 0), &outer, Vec2i::new(0, 0)));
}

#[test]
fn penetration_depth_reports_nearer_edges() {
    let a = AABB::new(Vec2i::new(5, 5));
    let b = AABB::new(Vec2i::new(5, 5));
    // A right of B: positive x penetration
    let p = penetration_depth(&a, pos(2, 0), &b, pos(-6, 0)).unwrap();
    assert_eq!(p.x, 2);
    assert_eq!(p.y, -10);
    // A left of B: negative x penetration
    let p2 = penetration_depth(&a, pos(-6, 1), &b, pos(2, 0)).unwrap();
    assert_eq!(p2.x, -2);
    assert_eq!(p2.y, 9);
    // disjoint pair: no penetration
    assert!(penetration_depth(&a, pos(0, 0), &b, pos(20, 0)).is_none());
}

#[test]
fn update_physics_advances_and_snapshots() {
    let mut bodies = vec![body(100, 200, 40, -10, 1)];
    update_physics(&mut bodies, 500);
    let b = &bodies[0];
    // position moved by velocity * 0.5
    assert_eq!(b.position.value.x, 120);
    assert_eq!(b.position.value.y, 195);
    // shadows hold the pre-tick values
    assert_eq!(b.old_position.value.x, 100);
    assert_eq!(b.old_position.value.y, 200);
    assert_eq!(b.old_velocity.value.x, 40);
    assert_eq!(b.velocity.value.x, 40);
}

#[test]
fn gravity_pulls_airborne_and_holds_grounded() {
    let airborne = body(0, 0, 5, 100, 1);
    let mut grounded = body(0, 0, 5, 100, 1);
    grounded.state.ground = true;
    let mut bodies = vec![airborne, grounded];
    apply_gravity(&mut bodies, &Gravity::new(10));
    assert_eq!(bodies[0].velocity.value.y, 90);
    assert_eq!(bodies[1].velocity.value.y, 0);
    assert_eq!(bodies[0].velocity.value.x, 5);
}

#[test]
fn stop_movement_zeroes_on_fresh_contact() {
    let mut b = body(0, 0, 33, -44, 1);
    b.state.ground = true;
    // previous tick had no contact at all: transition detected
    let mut bodies = vec![b];
    stop_movement(&mut bodies);
    assert_eq!(bodies[0].velocity.value.y, 0);
    assert_eq!(bodies[0].velocity.value.x, 33);

    let mut c = body(0, 0, 33, -44, 1);
    c.state.left = true;
    let mut bodies2 = vec![c];
    stop_movement(&mut bodies2);
    assert_eq!(bodies2[0].velocity.value.x, 0);
    assert_eq!(bodies2[0].velocity.value.y, -44);
}
