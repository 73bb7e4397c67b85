use flocksim::boids::{boid_steering, move_boids, BoidParameters};
use flocksim::physics::{
    update_physics, MovingObject, MovingObjectState, Position, Vec2i, Velocity, AABB,
};

fn pos(x: i64, y: i64) -> Position {
    Position::new(Vec2i::new(x, y))
}

fn boid(x: i64, y: i64, vx: i64, vy: i64) -> MovingObject {
    MovingObject {
        mass: 1,
        position: pos(x, y),
        velocity: Velocity::new(Vec2i::new(vx, vy)),
        state: MovingObjectState::default(),
        old_position: pos(x, y),
        old_velocity: Velocity::new(Vec2i::new(0, 0)),
        old_state: MovingObjectState::default(),
    }
}

/// A parameter set with every rule switched off, to be enabled per test.
fn quiet_params() -> BoidParameters {
    BoidParameters {
        max_velocity: 1_000_000,
        min_velocity: 0,
        view_distance: 50_000_000,
        view_distance_aabb: AABB::new(Vec2i::new(50_000_000, 50_000_000)),
        avoid_factor: 0,
        centering_factor: 0,
        matching_factor: 0,
        multiplier: 1_000,
        random_factor: 0,
        disperse: false,
        disperse_factor: 0,
        avoid_player: false,
        avoid_player_factor: 0,
        avoid_player_distance: 0,
        edge_avoidance_distance: 0,
        edge_avoidance_strength: 0,
    }
}

#[test]
fn default_parameters_are_valid() {
    let p = BoidParameters::default();
    assert!(p.valid());
    assert_eq!(p.max_velocity, 600_000);
    assert_eq!(p.min_velocity, 40_000);
    assert_eq!(p.view_distance, 25_000);
    assert!(!p.disperse);
    assert!(!p.avoid_player);
}

/// Isolated boid: zero neighbors, predator avoidance disabled, far from
/// every edge. The steering before jitter is exactly zero.
#[test]
fn isolated_boid_steers_nowhere() {
    let flock = vec![boid(1000, -2000, 30, 40)];
    let mut p = quiet_params();
    p.edge_avoidance_distance = 10_000;
    p.edge_avoidance_strength = 10_000;
    let cands: Vec<u64> = vec![0]; // only itself
    let s = boid_steering(
        &flock,
        0,
        &cands,
        &p,
        Vec2i::new(1_000_000, 1_000_000),
        None,
    );
    assert_eq!(s.x, 0);
    assert_eq!(s.y, 0);
}

/// Speed clamp, scaling up: a tiny nonzero steering is raised to at
/// least min_velocity without passing max_velocity.
#[test]
fn weak_steering_is_raised_to_the_floor() {
    // one neighbor straight to the right produces a small leftward push
    let flock = vec![boid(0, 0, 0, 0), boid(40, 0, 0, 0)];
    let mut p = quiet_params();
    p.avoid_factor = 2_000; // separation of 2000/40 = 50 units leftward
    p.min_velocity = 600;
    p.max_velocity = 100_000;
    let cands: Vec<u64> = vec![0, 1];
    let s = boid_steering(
        &flock,
        0,
        &cands,
        &p,
        Vec2i::new(1_000_000, 1_000_000),
        None,
    );
    let sq = s.x * s.x + s.y * s.y;
    assert!(sq >= 600 * 600, "steering {}²+{}² under the floor", s.x, s.y);
    assert!(sq <= 100_000i64 * 100_000, "steering above the ceiling");
    assert!(s.x < 0, "push should point away from the neighbor");
    assert_eq!(s.y, 0);
}

/// Speed clamp, scaling down: a strong steering is cut to max_velocity.
#[test]
fn strong_steering_is_cut_to_the_ceiling() {
    let flock = vec![boid(0, 0, 0, 0), boid(3, 4, 0, 0)];
    let mut p = quiet_params();
    p.avoid_factor = 1_000_000_000; // enormous separation impulse
    p.min_velocity = 10;
    p.max_velocity = 500;
    let cands: Vec<u64> = vec![1];
    let s = boid_steering(
        &flock,
        0,
        &cands,
        &p,
        Vec2i::new(1_000_000, 1_000_000),
        None,
    );
    let sq = s.x * s.x + s.y * s.y;
    assert!(sq <= 500 * 500, "clamped steering {},{} too long", s.x, s.y);
    assert!(sq >= 400 * 400, "clamp should land close to the ceiling");
    assert!(s.x < 0 && s.y < 0);
}

#[test]
fn edge_avoidance_pushes_inward() {
    let flock = vec![boid(-995_000, 998_000, 0, 0)];
    let mut p = quiet_params();
    p.edge_avoidance_distance = 10_000;
    p.edge_avoidance_strength = 7_000;
    let cands: Vec<u64> = Vec::new();
    let s = boid_steering(&flock, 0, &cands, &p, Vec2i::new(1_000_000, 1_000_000), None);
    assert_eq!(s.x, 7_000);
    assert_eq!(s.y, -7_000);
}

#[test]
fn threat_avoidance_pushes_away_when_enabled() {
    let flock = vec![boid(0, 0, 0, 0)];
    let mut p = quiet_params();
    p.avoid_player = true;
    p.avoid_player_factor = 1_000_000;
    p.avoid_player_distance = 100;
    let cands: Vec<u64> = Vec::new();
    // threat just to the right and within range: push to the left
    let s = boid_steering(&flock, 0, &cands, &p, Vec2i::new(1_000_000, 1_000_000), Some(pos(10, 0)));
    assert!(s.x < 0);
    assert_eq!(s.y, 0);
    // same threat with avoidance disabled: nothing
    p.avoid_player = false;
    let s2 = boid_steering(&flock, 0, &cands, &p, Vec2i::new(1_000_000, 1_000_000), Some(pos(10, 0)));
    assert_eq!(s2.x, 0);
    assert_eq!(s2.y, 0);
}

#[test]
fn alignment_steers_toward_neighbor_velocity() {
    let flock = vec![boid(0, 0, 0, 0), boid(10_000, 0, 900, -300)];
    let mut p = quiet_params();
    p.matching_factor = 1_000; // match the perceived velocity outright
    let cands: Vec<u64> = vec![1];
    let s = boid_steering(&flock, 0, &cands, &p, Vec2i::new(1_000_000, 1_000_000), None);
    assert_eq!(s.x, 900);
    assert_eq!(s.y, -300);
}

#[test]
fn dispersal_inverts_cohesion() {
    let flock = vec![boid(0, 0, 0, 0), boid(10_000, 0, 0, 0)];
    let mut toward = quiet_params();
    toward.centering_factor = 100;
    let cands: Vec<u64> = vec![1];
    let s = boid_steering(&flock, 0, &cands, &toward, Vec2i::new(1_000_000, 1_000_000), None);
    assert!(s.x > 0, "cohesion steers toward the neighbor");
    let mut away = toward;
    away.disperse = true;
    away.disperse_factor = 10_000;
    let s2 = boid_steering(&flock, 0, &cands, &away, Vec2i::new(1_000_000, 1_000_000), None);
    assert!(s2.x < 0, "dispersal steers away from the neighbor");
}

/// Flock convergence: three boids that see each other, cohesion only,
/// no jitter. The positional variance about the centroid strictly
/// decreases on every one of 50 ticks.
#[test]
fn cohesive_flock_contracts_for_fifty_ticks() {
    let mut flock = vec![
        boid(-9_000_000, 0, 0, 0),
        boid(9_000_000, 0, 0, 0),
        boid(0, 9_000_000, 0, 0),
    ];
    let mut p = quiet_params();
    p.centering_factor = 2;
    let world = AABB::new(Vec2i::new(128_000_000, 128_000_000));
    let win = Vec2i::new(900_000_000, 900_000_000);
    let variance = |flock: &Vec<MovingObject>| -> i128 {
        let cx: i128 = flock.iter().map(|b| b.position.value.x as i128).sum::<i128>() / 3;
        let cy: i128 = flock.iter().map(|b| b.position.value.y as i128).sum::<i128>() / 3;
        flock
            .iter()
            .map(|b| {
                let dx = b.position.value.x as i128 - cx;
                let dy = b.position.value.y as i128 - cy;
                dx * dx + dy * dy
            })
            .sum()
    };
    let mut last = variance(&flock);
    for _tick in 0..50 {
        move_boids(&mut flock, &p, &world, win, None, 4);
        update_physics(&mut flock, 100);
        let now = variance(&flock);
        assert!(now < last, "variance rose: {} -> {}", last, now);
        last = now;
    }
}

/// With no neighbors and no other rule active, jitter alone moves the
/// velocity, and only within the bound the contract promises.
#[test]
fn jitter_stays_within_its_bound() {
    let mut p = quiet_params();
    p.random_factor = 1_000;
    p.max_velocity = 10_000;
    let world = AABB::new(Vec2i::new(128_000_000, 128_000_000));
    let win = Vec2i::new(900_000_000, 900_000_000);
    for _round in 0..20 {
        let mut flock = vec![boid(0, 0, 0, 0)];
        move_boids(&mut flock, &p, &world, win, None, 4);
        let v = flock[0].velocity.value;
        // jitter is at most half of max_velocity * random_factor per axis
        assert!(v.x >= -5_000 && v.x <= 5_000, "jitter x {} out of range", v.x);
        assert!(v.y >= -5_000 && v.y <= 5_000, "jitter y {} out of range", v.y);
        // position and state stay untouched by the flocking pass
        assert_eq!(flock[0].position.value.x, 0);
        assert_eq!(flock[0].position.value.y, 0);
        assert!(!flock[0].state.ground);
    }
}

/// The flocking pass reads a consistent pre-tick snapshot: alignment on
/// antisymmetric velocities gives an antisymmetric result, which fails
/// if the first boid's velocity update leaks into the second's
/// aggregation.
#[test]
fn flock_update_uses_the_pre_tick_snapshot() {
    let mut flock = vec![boid(-10_000, 0, 100, 0), boid(10_000, 0, -100, 0)];
    let mut p = quiet_params();
    p.matching_factor = 1_000;
    let world = AABB::new(Vec2i::new(128_000_000, 128_000_000));
    let win = Vec2i::new(900_000_000, 900_000_000);
    move_boids(&mut flock, &p, &world, win, None, 4);
    // each boid turns toward the other's pre-tick velocity
    assert_eq!(flock[0].velocity.value.x, -200);
    assert_eq!(flock[1].velocity.value.x, 200);
    assert_eq!(flock[0].velocity.value.y, 0);
    assert_eq!(flock[1].velocity.value.y, 0);
}
