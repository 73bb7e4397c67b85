//! Geometric primitives and bodies: 2D integer vectors, axis-aligned
//! bounding boxes given by a half-size extent (the world placement of a box
//! is always `position ± halfsize`), overlap and containment tests, and the
//! record kept per moving body.

use vstd::prelude::*;

verus! {

/// Coordinates, half-sizes and velocities stay within this bound so that
/// every sum, difference and squared distance the library computes fits
/// comfortably in an `i64`.
pub const LIMIT: i64 = 1_000_000_000;

/// A 2D vector of integer coordinates.
#[derive(Clone, Copy, Debug, PartialEq, Eq, Structural)]
pub struct Vec2i {
    pub x: i64,
    pub y: i64,
}

impl Vec2i {
    pub open spec fn spec_in_range(self, lim: int) -> bool {
        -lim <= self.x <= lim && -lim <= self.y <= lim
    }

    pub fn new(x: i64, y: i64) -> (v: Vec2i)
        ensures
            v.x == x,
            v.y == y,
    {
        Vec2i { x, y }
    }

    /// Whether both coordinates lie in `[-lim, lim]`.
    pub fn in_range(self, lim: i64) -> (r: bool)
        requires
            lim >= 0,
        ensures
            r == self.spec_in_range(lim as int),
    {
        -lim <= self.x && self.x <= lim && -lim <= self.y && self.y <= lim
    }
}

/// A body's world position.
#[derive(Clone, Copy, Debug, PartialEq, Eq, Structural)]
pub struct Position {
    pub value: Vec2i,
}

impl Position {
    pub fn new(value: Vec2i) -> (p: Position)
        ensures
            p.value == value,
    {
        Position { value }
    }
}

/// A body's velocity, in units per second.
#[derive(Clone, Copy, Debug, PartialEq, Eq, Structural)]
pub struct Velocity {
    pub value: Vec2i,
}

impl Velocity {
    pub fn new(value: Vec2i) -> (v: Velocity)
        ensures
            v.value == value,
    {
        Velocity { value }
    }
}

/// An axis-aligned bounding box, stored as its half-size extent; the box
/// covers `position ± halfsize` for an externally tracked position.
#[derive(Clone, Copy, Debug, PartialEq, Eq, Structural)]
pub struct AABB {
    pub halfsize: Vec2i,
}

impl AABB {
    /// A box is well formed when its half-size is non-negative and bounded.
    pub open spec fn wf(self) -> bool {
        0 <= self.halfsize.x <= LIMIT && 0 <= self.halfsize.y <= LIMIT
    }

    pub fn new(halfsize: Vec2i) -> (b: AABB)
        ensures
            b.halfsize == halfsize,
    {
        AABB { halfsize }
    }

    /// Whether this box, placed at `self_pos`, strictly contains `other`
    /// placed at `other_pos`.
    pub fn contains(&self, self_pos: Vec2i, other: &AABB, other_pos: Vec2i) -> (r: bool)
        requires
            self.wf(),
            other.wf(),
            self_pos.spec_in_range(LIMIT as int),
            other_pos.spec_in_range(LIMIT as int),
        ensures
            r == spec_contains(*self, self_pos, *other, other_pos),
    {
        self_pos.x - self.halfsize.x < other_pos.x - other.halfsize.x
            && self_pos.x + self.halfsize.x > other_pos.x + other.halfsize.x
            && self_pos.y - self.halfsize.y < other_pos.y - other.halfsize.y
            && self_pos.y + self.halfsize.y > other_pos.y + other.halfsize.y
    }
}

/// Strict containment of `other` at `other_pos` in `this` at `this_pos`.
pub open spec fn spec_contains(this: AABB, this_pos: Vec2i, other: AABB, other_pos: Vec2i) -> bool {
    this_pos.x - this.halfsize.x < other_pos.x - other.halfsize.x
        && this_pos.x + this.halfsize.x > other_pos.x + other.halfsize.x
        && this_pos.y - this.halfsize.y < other_pos.y - other.halfsize.y
        && this_pos.y + this.halfsize.y > other_pos.y + other.halfsize.y
}

/// The exact (strict) overlap test between box `a` at `a_pos` and box `b`
/// at `b_pos`: on both axes each box's low edge lies strictly below the
/// other's high edge.
pub open spec fn spec_collides(a: AABB, a_pos: Position, b: AABB, b_pos: Position) -> bool {
    a_pos.value.x - a.halfsize.x < b_pos.value.x + b.halfsize.x
        && a_pos.value.x + a.halfsize.x > b_pos.value.x - b.halfsize.x
        && a_pos.value.y + a.halfsize.y > b_pos.value.y - b.halfsize.y
        && a_pos.value.y - a.halfsize.y < b_pos.value.y + b.halfsize.y
}

/// Exact overlap test between two placed boxes.
pub fn collides(a_aabb: &AABB, a_pos: Position, b_aabb: &AABB, b_pos: Position) -> (r: bool)
    requires
        a_aabb.wf(),
        b_aabb.wf(),
        a_pos.value.spec_in_range(LIMIT as int),
        b_pos.value.spec_in_range(LIMIT as int),
    ensures
        r == spec_collides(*a_aabb, a_pos, *b_aabb, b_pos),
{
    let a = a_pos.value;
    let b = b_pos.value;
    (a.x - a_aabb.halfsize.x) < (b.x + b_aabb.halfsize.x)
        && (a.x + a_aabb.halfsize.x) > (b.x - b_aabb.halfsize.x)
        && (a.y + a_aabb.halfsize.y) > (b.y - b_aabb.halfsize.y)
        && (a.y - a_aabb.halfsize.y) < (b.y + b_aabb.halfsize.y)
}

/// The strict point-in-box test: `b_pos` lies strictly inside box `a` at
/// `a_pos`.
pub open spec fn spec_intersects(a: AABB, a_pos: Position, b_pos: Position) -> bool {
    a_pos.value.x - a.halfsize.x < b_pos.value.x
        && a_pos.value.x + a.halfsize.x > b_pos.value.x
        && a_pos.value.y + a.halfsize.y > b_pos.value.y
        && a_pos.value.y - a.halfsize.y < b_pos.value.y
}

/// Exact point-in-box test.
pub fn intersects(a_aabb: &AABB, a_pos: Position, b_pos: Position) -> (r: bool)
    requires
        a_aabb.wf(),
        a_pos.value.spec_in_range(LIMIT as int),
        b_pos.value.spec_in_range(LIMIT as int),
    ensures
        r == spec_intersects(*a_aabb, a_pos, b_pos),
{
    let a = a_pos.value;
    let b = b_pos.value;
    (a.x - a_aabb.halfsize.x) < b.x
        && (a.x + a_aabb.halfsize.x) > b.x
        && (a.y + a_aabb.halfsize.y) > b.y
        && (a.y - a_aabb.halfsize.y) < b.y
}

/// Truncating (round-toward-zero) division, the semantics of `/` on
/// Rust's signed integers; spec-mode `/` on `int` is Euclidean instead.
pub open spec fn div_tz(a: int, b: int) -> int
    recommends
        b != 0,
{
    if a >= 0 {
        a / b
    } else {
        -((-a) / b)
    }
}

/// Positions may drift well past the world while still being computed
/// on safely; beyond this bound a body is ignored by collision handling.
pub const POS_LIMIT: i64 = 1_000_000_000_000_000;

/// Masses are bounded so that a penetration-times-mass product fits.
pub const MASS_LIMIT: i64 = 1_000_000;

/// A product of bounded factors is bounded: `|v| <= vb` and
/// `0 <= f <= fb` give `|v * f| <= vb * fb`.
pub proof fn lemma_mul_bound(v: int, f: int, vb: int, fb: int) by (nonlinear_arith)
    requires
        -vb <= v <= vb,
        0 <= f <= fb,
    ensures
        -(vb * fb) <= v * f <= vb * fb,
{
}

/// A square of a bounded value is bounded by the squared bound.
pub proof fn lemma_sq_bound(v: int, vb: int) by (nonlinear_arith)
    requires
        -vb <= v <= vb,
        0 <= vb,
    ensures
        0 <= v * v <= vb * vb,
{
}

/// The absolute value of an integer.
pub open spec fn abs_i(v: int) -> int {
    if v < 0 {
        -v
    } else {
        v
    }
}

/// Per-tick downward gravity, in velocity units per tick.
#[derive(Clone, Copy, Debug, PartialEq, Eq, Structural)]
pub struct Gravity {
    pub force: i64,
}

impl Gravity {
    pub fn new(force: i64) -> (g: Gravity)
        ensures
            g.force == force,
    {
        Gravity { force }
    }
}

/// This-tick contact flags of a body: which sides touched something
/// during the last collision pass.
#[derive(Clone, Copy, Debug, Default, PartialEq, Eq, Structural)]
pub struct MovingObjectState {
    pub right: bool,
    pub left: bool,
    pub ground: bool,
    pub ceiling: bool,
}

/// A moving body: mass (0 means static and immovable), current position,
/// velocity and contact state, and a shadow copy of the previous tick's
/// values for transition detection.
#[derive(Clone, Copy, Debug, PartialEq, Eq, Structural)]
#[verifier::ext_equal]
pub struct MovingObject {
    pub mass: i64,
    pub position: Position,
    pub velocity: Velocity,
    pub state: MovingObjectState,
    pub old_position: Position,
    pub old_velocity: Velocity,
    pub old_state: MovingObjectState,
}

/// The signed x penetration of box `a` at `a_pos` into box `b` at
/// `b_pos`: the nearer pair of edges is chosen from the sign of the
/// position delta, so the value pushes `a` away from `b`.
pub open spec fn pen_x(a: AABB, a_pos: Position, b: AABB, b_pos: Position) -> int {
    if a_pos.value.x > b_pos.value.x {
        (b_pos.value.x + b.halfsize.x) - (a_pos.value.x - a.halfsize.x)
    } else {
        (b_pos.value.x - b.halfsize.x) - (a_pos.value.x + a.halfsize.x)
    }
}

/// The signed y penetration, as `pen_x`.
pub open spec fn pen_y(a: AABB, a_pos: Position, b: AABB, b_pos: Position) -> int {
    if a_pos.value.y > b_pos.value.y {
        (b_pos.value.y + b.halfsize.y) - (a_pos.value.y - a.halfsize.y)
    } else {
        (b_pos.value.y - b.halfsize.y) - (a_pos.value.y + a.halfsize.y)
    }
}

/// Exact narrow-phase test: `Some` with the signed per-axis penetration
/// exactly when the two placed boxes overlap, `None` otherwise.
pub fn penetration_depth(a_aabb: &AABB, a_pos: Position, b_aabb: &AABB, b_pos: Position) -> (r:
    Option<Vec2i>)
    requires
        a_aabb.wf(),
        b_aabb.wf(),
        a_pos.value.spec_in_range(POS_LIMIT as int),
        b_pos.value.spec_in_range(POS_LIMIT as int),
    ensures
        match r {
            Some(v) => spec_collides(*a_aabb, a_pos, *b_aabb, b_pos) && v.x == pen_x(
                *a_aabb,
                a_pos,
                *b_aabb,
                b_pos,
            ) && v.y == pen_y(*a_aabb, a_pos, *b_aabb, b_pos),
            None => !spec_collides(*a_aabb, a_pos, *b_aabb, b_pos),
        },
{
    let a = a_pos.value;
    let b = b_pos.value;
    let overlap = (a.x - a_aabb.halfsize.x) < (b.x + b_aabb.halfsize.x) && (a.x
        + a_aabb.halfsize.x) > (b.x - b_aabb.halfsize.x) && (a.y + a_aabb.halfsize.y) > (b.y
        - b_aabb.halfsize.y) && (a.y - a_aabb.halfsize.y) < (b.y + b_aabb.halfsize.y);
    if overlap {
        let x = if a.x > b.x {
            (b.x + b_aabb.halfsize.x) - (a.x - a_aabb.halfsize.x)
        } else {
            (b.x - b_aabb.halfsize.x) - (a.x + a_aabb.halfsize.x)
        };
        let y = if a.y > b.y {
            (b.y + b_aabb.halfsize.y) - (a.y - a_aabb.halfsize.y)
        } else {
            (b.y - b_aabb.halfsize.y) - (a.y + a_aabb.halfsize.y)
        };
        Some(Vec2i::new(x, y))
    } else {
        None
    }
}

/// Advances every body one tick: snapshots position, velocity and state
/// into the shadow fields, then moves the position by `velocity * dt`,
/// with `dt_ms` in thousandths of a time unit.
#[verifier::loop_isolation(false)]
pub fn update_physics(bodies: &mut Vec<MovingObject>, dt_ms: i64)
    requires
        0 <= dt_ms <= 1_000_000,
        forall|i: int|
            0 <= i < old(bodies)@.len() ==> (#[trigger] old(
                bodies,
            )@[i]).position.value.spec_in_range(LIMIT as int) && old(
                bodies,
            )@[i].velocity.value.spec_in_range(LIMIT as int),
    ensures
        final(bodies)@.len() == old(bodies)@.len(),
        forall|i: int|
            0 <= i < old(bodies)@.len() ==> {
                let pre = old(bodies)@[i];
                let post = (#[trigger] final(bodies)@[i]);
                &&& post.mass == pre.mass
                &&& post.velocity == pre.velocity
                &&& post.state == pre.state
                &&& post.old_position == pre.position
                &&& post.old_velocity == pre.velocity
                &&& post.old_state == pre.state
                &&& post.position.value.x == pre.position.value.x + div_tz(
                    pre.velocity.value.x * dt_ms,
                    1000,
                )
                &&& post.position.value.y == pre.position.value.y + div_tz(
                    pre.velocity.value.y * dt_ms,
                    1000,
                )
            },
{
    let n = bodies.len();
    let mut i: usize = 0;
    while i < n
        invariant
            0 <= i <= n,
            bodies@.len() == n,
            forall|j: int| i <= j < n ==> bodies@[j] == old(bodies)@[j],
            forall|j: int|
                0 <= j < i ==> {
                    let pre = old(bodies)@[j];
                    let post = (#[trigger] bodies@[j]);
                    &&& post.mass == pre.mass
                    &&& post.velocity == pre.velocity
                    &&& post.state == pre.state
                    &&& post.old_position == pre.position
                    &&& post.old_velocity == pre.velocity
                    &&& post.old_state == pre.state
                    &&& post.position.value.x == pre.position.value.x + div_tz(
                        pre.velocity.value.x * dt_ms,
                        1000,
                    )
                    &&& post.position.value.y == pre.position.value.y + div_tz(
                        pre.velocity.value.y * dt_ms,
                        1000,
                    )
                },
        decreases n - i,
    {
        let mut b = bodies[i];
        proof {
            assert(old(bodies)@[i as int].velocity.value.spec_in_range(LIMIT as int));
            lemma_mul_bound(b.velocity.value.x as int, dt_ms as int, LIMIT as int, 1_000_000);
            lemma_mul_bound(b.velocity.value.y as int, dt_ms as int, LIMIT as int, 1_000_000);
        }
        b.old_position = b.position;
        b.old_velocity = b.velocity;
        b.old_state = b.state;
        b.position.value.x = b.position.value.x + (b.velocity.value.x * dt_ms) / 1000;
        b.position.value.y = b.position.value.y + (b.velocity.value.y * dt_ms) / 1000;
        bodies.set(i, b);
        i = i + 1;
    }
}

/// Applies gravity to every body: a grounded body's vertical velocity is
/// forced to zero, any other body loses `gravity.force` per tick.
#[verifier::loop_isolation(false)]
pub fn apply_gravity(bodies: &mut Vec<MovingObject>, gravity: &Gravity)
    requires
        0 <= gravity.force <= LIMIT,
        forall|i: int|
            0 <= i < old(bodies)@.len() ==> (#[trigger] old(
                bodies,
            )@[i]).velocity.value.spec_in_range(POS_LIMIT as int),
    ensures
        final(bodies)@.len() == old(bodies)@.len(),
        forall|i: int|
            0 <= i < old(bodies)@.len() ==> {
                let pre = old(bodies)@[i];
                let post = (#[trigger] final(bodies)@[i]);
                &&& post.velocity.value.y == (if pre.state.ground {
                    0
                } else {
                    pre.velocity.value.y - gravity.force
                })
                &&& post.velocity.value.x == pre.velocity.value.x
                &&& post.mass == pre.mass
                &&& post.position == pre.position
                &&& post.state == pre.state
                &&& post.old_position == pre.old_position
                &&& post.old_velocity == pre.old_velocity
                &&& post.old_state == pre.old_state
            },
{
    let n = bodies.len();
    let mut i: usize = 0;
    while i < n
        invariant
            0 <= i <= n,
            bodies@.len() == n,
            forall|j: int| i <= j < n ==> bodies@[j] == old(bodies)@[j],
            forall|j: int|
                0 <= j < i ==> {
                    let pre = old(bodies)@[j];
                    let post = (#[trigger] bodies@[j]);
                    &&& post.velocity.value.y == (if pre.state.ground {
                        0
                    } else {
                        pre.velocity.value.y - gravity.force
                    })
                    &&& post.velocity.value.x == pre.velocity.value.x
                    &&& post.mass == pre.mass
                    &&& post.position == pre.position
                    &&& post.state == pre.state
                    &&& post.old_position == pre.old_position
                    &&& post.old_velocity == pre.old_velocity
                    &&& post.old_state == pre.old_state
                },
        decreases n - i,
    {
        let mut b = bodies[i];
        if b.state.ground {
            b.velocity.value.y = 0;
        } else {
            b.velocity.value.y = b.velocity.value.y - gravity.force;
        }
        bodies.set(i, b);
        i = i + 1;
    }
}

/// Zeroes a velocity component on the tick a body first gains contact on
/// that axis, read from the contact flags against their previous-tick
/// shadow.
#[verifier::loop_isolation(false)]
pub fn stop_movement(bodies: &mut Vec<MovingObject>)
    ensures
        final(bodies)@.len() == old(bodies)@.len(),
        forall|i: int|
            0 <= i < old(bodies)@.len() ==> {
                let pre = old(bodies)@[i];
                let post = (#[trigger] final(bodies)@[i]);
                &&& post.velocity.value.y == (if (pre.state.ceiling || pre.state.ground) && (
                    !pre.old_state.ceiling || !pre.old_state.ground) {
                    0
                } else {
                    pre.velocity.value.y
                })
                &&& post.velocity.value.x == (if (pre.state.left || pre.state.right) && (
                    !pre.old_state.left || !pre.old_state.right) {
                    0
                } else {
                    pre.velocity.value.x
                })
                &&& post.mass == pre.mass
                &&& post.position == pre.position
                &&& post.state == pre.state
                &&& post.old_position == pre.old_position
                &&& post.old_velocity == pre.old_velocity
                &&& post.old_state == pre.old_state
            },
{
    let n = bodies.len();
    let mut i: usize = 0;
    while i < n
        invariant
            0 <= i <= n,
            bodies@.len() == n,
            forall|j: int| i <= j < n ==> bodies@[j] == old(bodies)@[j],
            forall|j: int|
                0 <= j < i ==> {
                    let pre = old(bodies)@[j];
                    let post = (#[trigger] bodies@[j]);
                    &&& post.velocity.value.y == (if (pre.state.ceiling || pre.state.ground) && (
                    !pre.old_state.ceiling || !pre.old_state.ground) {
                        0
                    } else {
                        pre.velocity.value.y
                    })
                    &&& post.velocity.value.x == (if (pre.state.left || pre.state.right) && (
                    !pre.old_state.left || !pre.old_state.right) {
                        0
                    } else {
                        pre.velocity.value.x
                    })
                    &&& post.mass == pre.mass
                    &&& post.position == pre.position
                    &&& post.state == pre.state
                    &&& post.old_position == pre.old_position
                    &&& post.old_velocity == pre.old_velocity
                    &&& post.old_state == pre.old_state
                },
        decreases n - i,
    {
        let mut b = bodies[i];
        if (b.state.ceiling || b.state.ground) && (!b.old_state.ceiling || !b.old_state.ground) {
            b.velocity.value.y = 0;
        }
        if (b.state.left || b.state.right) && (!b.old_state.left || !b.old_state.right) {
            b.velocity.value.x = 0;
        }
        bodies.set(i, b);
        i = i + 1;
    }
}

} // verus!
