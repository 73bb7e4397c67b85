//! The flocking engine. Each tick every boid gathers candidate neighbors
//! from a freshly built point-mode quadtree and folds them once into a
//! steering vector: separation (closer neighbors repel harder), cohesion
//! toward the perceived center (or away from it in dispersal mode),
//! velocity alignment, a constant push away from nearby world edges, an
//! optional push away from a threat, a speed clamp, and per-axis random
//! jitter added after the clamp. The final velocity update is additive.
//!
//! All configuration factors are integers in thousandths (a factor of
//! `50` means `0.05`), except the two avoidance factors, which are
//! divided by a squared distance and therefore carry a factor-of-one
//! scale of one million.

use vstd::prelude::*;
use crate::physics::{
    AABB, MovingObject, Position, Vec2i, Velocity, abs_i, div_tz, spec_intersects, LIMIT,
};

verus! {

/// The most boids one flock may hold, so that every accumulated sum fits.
pub const BOID_LIMIT: usize = 1_000_000;

/// Plain factors (thousandths) stay below this bound.
pub const FACTOR_LIMIT: i64 = 1_000_000;

/// Distance-squared-scaled avoidance factors stay below this bound.
pub const AVOID_LIMIT: i64 = 10_000_000_000;

/// The flocking configuration, read each tick and mutated only between
/// ticks by its owner.
#[derive(Clone, Copy, Debug, PartialEq, Eq, Structural)]
pub struct BoidParameters {
    /// Ceiling on the intentional steering speed.
    pub max_velocity: i64,
    /// Floor on a nonzero intentional steering speed.
    pub min_velocity: i64,
    /// How far a boid sees.
    pub view_distance: i64,
    /// The query box used to gather neighbors: `view_distance` half-size.
    pub view_distance_aabb: AABB,
    /// Separation strength, scaled like distance squared times velocity.
    pub avoid_factor: i64,
    /// Cohesion strength, in thousandths.
    pub centering_factor: i64,
    /// Alignment strength, in thousandths.
    pub matching_factor: i64,
    /// Scale applied to the steering before it is added to the velocity,
    /// in thousandths.
    pub multiplier: i64,
    /// Jitter strength relative to `max_velocity`, in thousandths.
    pub random_factor: i64,
    /// Whether boids spread apart instead of clustering.
    pub disperse: bool,
    /// Extra factor on the inverted cohesion term, in thousandths.
    pub disperse_factor: i64,
    /// Whether boids steer away from the threat position.
    pub avoid_player: bool,
    /// Threat avoidance strength, scaled like `avoid_factor`.
    pub avoid_player_factor: i64,
    /// How close the threat must be to matter.
    pub avoid_player_distance: i64,
    /// How close to a world edge the edge push starts.
    pub edge_avoidance_distance: i64,
    /// Size of the constant inward edge push.
    pub edge_avoidance_strength: i64,
}

impl BoidParameters {
    /// A valid configuration: everything bounded, the speed floor not
    /// above the ceiling, and far enough under it that integer rounding
    /// in the speed clamp's up-scaling cannot overshoot the ceiling. An
    /// invalid configuration stops world setup.
    pub open spec fn wf(self) -> bool {
        &&& 0 <= self.min_velocity <= self.max_velocity <= LIMIT
        &&& (self.min_velocity == 0 || 2 * (self.min_velocity + 1) * (self.min_velocity + 1)
            <= self.max_velocity * self.max_velocity)
        &&& 0 <= self.view_distance <= LIMIT
        &&& self.view_distance_aabb.wf()
        &&& 0 <= self.avoid_factor <= AVOID_LIMIT
        &&& 0 <= self.centering_factor <= FACTOR_LIMIT
        &&& 0 <= self.matching_factor <= FACTOR_LIMIT
        &&& 0 <= self.multiplier <= FACTOR_LIMIT
        &&& 0 <= self.random_factor <= FACTOR_LIMIT
        &&& 0 <= self.disperse_factor <= FACTOR_LIMIT
        &&& 0 <= self.avoid_player_factor <= AVOID_LIMIT
        &&& 0 <= self.avoid_player_distance <= LIMIT
        &&& 0 <= self.edge_avoidance_distance <= LIMIT
        &&& 0 <= self.edge_avoidance_strength <= LIMIT
    }

    /// Exact validity check, for use at world setup.
    pub fn valid(&self) -> (r: bool)
        ensures
            r == self.wf(),
    {
        proof {
            if 0 <= self.min_velocity && self.min_velocity <= self.max_velocity
                && self.max_velocity <= LIMIT {
                crate::physics::lemma_mul_bound(
                    2 * (self.min_velocity + 1),
                    self.min_velocity + 1,
                    2 * (LIMIT as int + 1),
                    LIMIT as int + 1,
                );
                crate::physics::lemma_sq_bound(self.max_velocity as int, LIMIT as int);
            }
        }
        0 <= self.min_velocity && self.min_velocity <= self.max_velocity && self.max_velocity
            <= LIMIT && (self.min_velocity == 0 || 2 * (self.min_velocity + 1) * (
        self.min_velocity + 1) <= self.max_velocity * self.max_velocity) && 0 <= self.view_distance && self.view_distance <= LIMIT
            && 0 <= self.view_distance_aabb.halfsize.x && self.view_distance_aabb.halfsize.x
            <= LIMIT && 0 <= self.view_distance_aabb.halfsize.y
            && self.view_distance_aabb.halfsize.y <= LIMIT && 0 <= self.avoid_factor
            && self.avoid_factor <= AVOID_LIMIT && 0 <= self.centering_factor
            && self.centering_factor <= FACTOR_LIMIT && 0 <= self.matching_factor
            && self.matching_factor <= FACTOR_LIMIT && 0 <= self.multiplier && self.multiplier
            <= FACTOR_LIMIT && 0 <= self.random_factor && self.random_factor <= FACTOR_LIMIT
            && 0 <= self.disperse_factor && self.disperse_factor <= FACTOR_LIMIT
            && 0 <= self.avoid_player_factor && self.avoid_player_factor <= AVOID_LIMIT
            && 0 <= self.avoid_player_distance && self.avoid_player_distance <= LIMIT
            && 0 <= self.edge_avoidance_distance && self.edge_avoidance_distance <= LIMIT
            && 0 <= self.edge_avoidance_strength && self.edge_avoidance_strength <= LIMIT
    }
}

impl core::default::Default for BoidParameters {
    /// The spawn-time calibration set, in thousandth units: a speed range
    /// of 40 to 600 units, a view distance of 25 units, and gentle
    /// cohesion, alignment and separation.
    fn default() -> (p: Self)
        ensures
            p.wf(),
            p.max_velocity == 600_000,
            p.min_velocity == 40_000,
            p.view_distance == 25_000,
            p.view_distance_aabb.halfsize == (Vec2i { x: 25_000, y: 25_000 }),
            p.avoid_factor == 3_000_000,
            p.centering_factor == 5,
            p.matching_factor == 100,
            p.multiplier == 2_000,
            p.random_factor == 100,
            !p.disperse,
            p.disperse_factor == 20_000,
            !p.avoid_player,
            p.avoid_player_factor == 2_000_000_000,
            p.avoid_player_distance == 32_000,
            p.edge_avoidance_distance == 10_000,
            p.edge_avoidance_strength == 10_000,
    {
        BoidParameters {
            max_velocity: 600_000,
            min_velocity: 40_000,
            view_distance: 25_000,
            view_distance_aabb: AABB { halfsize: Vec2i { x: 25_000, y: 25_000 } },
            avoid_factor: 3_000_000,
            centering_factor: 5,
            matching_factor: 100,
            multiplier: 2_000,
            random_factor: 100,
            disperse: false,
            disperse_factor: 20_000,
            avoid_player: false,
            avoid_player_factor: 2_000_000_000,
            avoid_player_distance: 32_000,
            edge_avoidance_distance: 10_000,
            edge_avoidance_strength: 10_000,
        }
    }
}

/// What one pass over a candidate list accumulates: the sums of the
/// valid neighbors' positions and velocities, their count, and the
/// summed separation impulse.
pub struct BoidAgg {
    pub pos_x: int,
    pub pos_y: int,
    pub vel_x: int,
    pub vel_y: int,
    pub cnt: int,
    pub sep_x: int,
    pub sep_y: int,
}

/// Whether a candidate id names a live boid other than `me`.
pub open spec fn valid_other(b0: Seq<MovingObject>, me: int, id: u64) -> bool {
    id != me as u64 && (id as int) < b0.len()
}

/// The x separation impulse `a` receives from neighbor `b`: the unit
/// direction away from `b` times `avoid_factor` over the distance, which
/// is the position delta times `avoid_factor` over the squared distance.
/// Coincident boids contribute nothing.
pub open spec fn sep_term_x(a: MovingObject, b: MovingObject, af: int) -> int {
    let dx = a.position.value.x - b.position.value.x;
    let dy = a.position.value.y - b.position.value.y;
    let ds = dx * dx + dy * dy;
    if ds > 0 {
        div_tz(dx * af, ds)
    } else {
        0
    }
}

/// The y separation impulse, as `sep_term_x`.
pub open spec fn sep_term_y(a: MovingObject, b: MovingObject, af: int) -> int {
    let dx = a.position.value.x - b.position.value.x;
    let dy = a.position.value.y - b.position.value.y;
    let ds = dx * dx + dy * dy;
    if ds > 0 {
        div_tz(dy * af, ds)
    } else {
        0
    }
}

/// The single-pass neighbor aggregation over a candidate list: stale ids
/// and the boid itself are skipped during aggregation.
pub open spec fn spec_agg(b0: Seq<MovingObject>, me: int, af: int, cs: Seq<u64>) -> BoidAgg
    decreases cs.len(),
{
    if cs.len() == 0 {
        BoidAgg { pos_x: 0, pos_y: 0, vel_x: 0, vel_y: 0, cnt: 0, sep_x: 0, sep_y: 0 }
    } else {
        let r = spec_agg(b0, me, af, cs.drop_last());
        let id = cs.last();
        if valid_other(b0, me, id) {
            let b = b0[id as int];
            BoidAgg {
                pos_x: r.pos_x + b.position.value.x,
                pos_y: r.pos_y + b.position.value.y,
                vel_x: r.vel_x + b.velocity.value.x,
                vel_y: r.vel_y + b.velocity.value.y,
                cnt: r.cnt + 1,
                sep_x: r.sep_x + sep_term_x(b0[me], b, af),
                sep_y: r.sep_y + sep_term_y(b0[me], b, af),
            }
        } else {
            r
        }
    }
}

/// The inward push on one axis when the coordinate is within the edge
/// avoidance distance of either world edge.
pub open spec fn edge_term(coord: int, half: int, dist: int, strength: int) -> int {
    if coord < -half + dist {
        strength
    } else if coord > half - dist {
        -strength
    } else {
        0
    }
}

/// The x push away from the threat position, active only when enabled
/// and the threat is strictly within the avoidance distance.
pub open spec fn threat_term_x(a: MovingObject, p: BoidParameters, threat: Option<Position>) -> int {
    match threat {
        Some(t) => {
            let dx = a.position.value.x - t.value.x;
            let dy = a.position.value.y - t.value.y;
            let ds = dx * dx + dy * dy;
            if p.avoid_player && ds > 0 && ds < p.avoid_player_distance * p.avoid_player_distance {
                div_tz(dx * p.avoid_player_factor, ds)
            } else {
                0
            }
        },
        None => 0,
    }
}

/// The y push away from the threat position.
pub open spec fn threat_term_y(a: MovingObject, p: BoidParameters, threat: Option<Position>) -> int {
    match threat {
        Some(t) => {
            let dx = a.position.value.x - t.value.x;
            let dy = a.position.value.y - t.value.y;
            let ds = dx * dx + dy * dy;
            if p.avoid_player && ds > 0 && ds < p.avoid_player_distance * p.avoid_player_distance {
                div_tz(dy * p.avoid_player_factor, ds)
            } else {
                0
            }
        },
        None => 0,
    }
}

/// The cohesion term on one axis: toward the perceived center of the
/// neighbors, or away from it and scaled up in dispersal mode.
pub open spec fn cohesion_term(a_coord: int, sum_coord: int, cnt: int, p: BoidParameters) -> int {
    if cnt > 0 {
        let pc = div_tz(sum_coord - a_coord, cnt);
        if p.disperse {
            div_tz((a_coord - pc) * p.centering_factor * p.disperse_factor, 1_000_000)
        } else {
            div_tz((pc - a_coord) * p.centering_factor, 1000)
        }
    } else {
        0
    }
}

/// The alignment term on one axis: toward the perceived velocity of the
/// neighbors.
pub open spec fn alignment_term(a_vel: int, sum_vel: int, cnt: int, p: BoidParameters) -> int {
    if cnt > 0 {
        let pv = div_tz(sum_vel - a_vel, cnt);
        div_tz((pv - a_vel) * p.matching_factor, 1000)
    } else {
        0
    }
}

/// The raw steering vector of boid `me` over candidate list `cs`, before
/// the speed clamp and before jitter.
pub open spec fn spec_steering_raw(
    b0: Seq<MovingObject>,
    me: int,
    cs: Seq<u64>,
    p: BoidParameters,
    win: Vec2i,
    threat: Option<Position>,
) -> (int, int) {
    let a = b0[me];
    let g = spec_agg(b0, me, p.avoid_factor as int, cs);
    (
        g.sep_x + edge_term(
            a.position.value.x as int,
            win.x as int,
            p.edge_avoidance_distance as int,
            p.edge_avoidance_strength as int,
        ) + threat_term_x(a, p, threat) + cohesion_term(a.position.value.x as int, g.pos_x, g.cnt, p)
            + alignment_term(a.velocity.value.x as int, g.vel_x, g.cnt, p),
        g.sep_y + edge_term(
            a.position.value.y as int,
            win.y as int,
            p.edge_avoidance_distance as int,
            p.edge_avoidance_strength as int,
        ) + threat_term_y(a, p, threat) + cohesion_term(a.position.value.y as int, g.pos_y, g.cnt, p)
            + alignment_term(a.velocity.value.y as int, g.vel_y, g.cnt, p),
    )
}

/// The integer square root, by definition the largest `r` with
/// `r * r <= n`.
pub open spec fn isqrt_s(n: nat) -> nat
    decreases n,
{
    if n == 0 {
        0
    } else {
        let r = isqrt_s((n - 1) as nat);
        if (r + 1) * (r + 1) <= n {
            r + 1
        } else {
            r
        }
    }
}

/// The integer square root brackets its argument between two squares.
pub proof fn lemma_isqrt_bounds(n: nat)
    ensures
        isqrt_s(n) * isqrt_s(n) <= n,
        n < (isqrt_s(n) + 1) * (isqrt_s(n) + 1),
    decreases n,
{
    if n == 0 {
        assert(isqrt_s(n) == 0);
        assert(isqrt_s(n) * isqrt_s(n) <= n) by (nonlinear_arith)
            requires
                isqrt_s(n) == 0,
                n == 0,
        ;
        assert(n < (isqrt_s(n) + 1) * (isqrt_s(n) + 1)) by (nonlinear_arith)
            requires
                isqrt_s(n) == 0,
                n == 0,
        ;
    } else {
        lemma_isqrt_bounds((n - 1) as nat);
        let r = isqrt_s((n - 1) as nat);
        if (r + 1) * (r + 1) <= n {
            assert(isqrt_s(n) == r + 1);
            assert(n < (r + 2) * (r + 2)) by (nonlinear_arith)
                requires
                    n <= (r + 1) * (r + 1),
                    r >= 0,
            ;
            assert(isqrt_s(n) * isqrt_s(n) <= n);
            assert(n < (isqrt_s(n) + 1) * (isqrt_s(n) + 1));
        } else {
            assert(isqrt_s(n) == r);
            assert(isqrt_s(n) * isqrt_s(n) <= n);
            assert(n < (isqrt_s(n) + 1) * (isqrt_s(n) + 1));
        }
    }
}

/// Division that rounds away from zero.
pub open spec fn div_away(a: int, b: int) -> int
    recommends
        b > 0,
{
    if div_tz(a, b) * b == a {
        div_tz(a, b)
    } else if a > 0 {
        div_tz(a, b) + 1
    } else {
        div_tz(a, b) - 1
    }
}

/// The speed clamp: steering longer than `max_v` is scaled down to at
/// most `max_v`, a nonzero steering shorter than `min_v` is scaled up to
/// at least `min_v`, and the zero vector is left alone. Scaling down
/// divides by the integer square root plus one and truncates, scaling up
/// divides by the integer square root and rounds away from zero, so both
/// clamp bounds hold exactly in integer arithmetic.
pub open spec fn spec_clamp(sx: int, sy: int, min_v: int, max_v: int) -> (int, int) {
    let sq = sx * sx + sy * sy;
    if sq > max_v * max_v {
        let d = isqrt_s(sq as nat) + 1;
        (div_tz(sx * max_v, d as int), div_tz(sy * max_v, d as int))
    } else if 0 < sq && sq < min_v * min_v {
        let d = isqrt_s(sq as nat);
        (div_away(sx * min_v, d as int), div_away(sy * min_v, d as int))
    } else {
        (sx, sy)
    }
}

/// The clamped steering of boid `me`: what the flocking rules produce
/// before jitter.
pub open spec fn spec_boid_steering(
    b0: Seq<MovingObject>,
    me: int,
    cs: Seq<u64>,
    p: BoidParameters,
    win: Vec2i,
    threat: Option<Position>,
) -> (int, int) {
    let (sx, sy) = spec_steering_raw(b0, me, cs, p, win, threat);
    spec_clamp(sx, sy, p.min_velocity as int, p.max_velocity as int)
}

/// Steering accumulators stay within this bound.
pub const STEER_BOUND: i128 = 20_000_000_000_000_000;

/// A square strictly below another square of a non-negative base keeps
/// the base strictly larger in absolute value.
proof fn lemma_abs_lt_of_sq(a: int, s: int, b: int) by (nonlinear_arith)
    requires
        a * a <= s,
        s < b * b,
        b >= 0,
    ensures
        -b < a < b,
{
}

/// Truncating division by a positive divisor is bounded by any bound on
/// the quotient of the magnitudes.
proof fn lemma_div_bound(u: int, v: int, c: int) by (nonlinear_arith)
    requires
        v > 0,
        c >= 0,
        -(v * c) <= u <= v * c,
    ensures
        -c <= div_tz(u, v) <= c,
{
}

/// The integer square root, computed by binary search.
fn isqrt(n: u128) -> (r: u64)
    requires
        n < 1_000_000_000_000_000_000_000_000_000_000_000_000,
    ensures
        r as nat == isqrt_s(n as nat),
        (r as int) * (r as int) <= n as int,
        (n as int) < ((r as int) + 1) * ((r as int) + 1),
{
    let mut lo: u64 = 0;
    let mut hi: u64 = 1_000_000_000_000_000_000;
    proof {
        assert((1_000_000_000_000_000_000int + 1) * (1_000_000_000_000_000_000int + 1)
            > 1_000_000_000_000_000_000_000_000_000_000_000_000int) by (nonlinear_arith);
    }
    while lo < hi
        invariant
            lo <= hi <= 1_000_000_000_000_000_000,
            (lo as int) * (lo as int) <= n as int,
            (n as int) < ((hi as int) + 1) * ((hi as int) + 1),
        decreases hi - lo,
    {
        let mid: u64 = lo + (hi - lo + 1) / 2;
        proof {
            crate::physics::lemma_mul_bound(
                mid as int,
                mid as int,
                1_000_000_000_000_000_000int,
                1_000_000_000_000_000_000int,
            );
        }
        let midsq: u128 = (mid as u128) * (mid as u128);
        if midsq <= n {
            lo = mid;
        } else {
            hi = mid - 1;
        }
    }
    proof {
        lemma_isqrt_bounds(n as nat);
        let v = isqrt_s(n as nat);
        assert(lo as int == v as int) by (nonlinear_arith)
            requires
                (lo as int) * (lo as int) <= n as int,
                (n as int) < ((lo as int) + 1) * ((lo as int) + 1),
                (v as int) * (v as int) <= n as int,
                (n as int) < ((v as int) + 1) * ((v as int) + 1),
                lo as int >= 0,
                v as int >= 0,
        ;
    }
    lo
}

/// Multiplying a truncated quotient back by the divisor stays within
/// the dividend.
proof fn lemma_div_times_divisor(a: int, b: int) by (nonlinear_arith)
    requires
        b > 0,
    ensures
        -abs_i(a) <= div_tz(a, b) * b <= abs_i(a),
{
}

/// Exact away-from-zero division by a positive divisor.
fn div_away_i128(a: i128, b: i128) -> (r: i128)
    requires
        b > 0,
        -170_000_000_000_000_000_000_000_000_000_000_000_000 + b
            < a < 170_000_000_000_000_000_000_000_000_000_000_000_000 - b,
    ensures
        r as int == div_away(a as int, b as int),
{
    proof {
        lemma_div_times_divisor(a as int, b as int);
    }
    let q = a / b;
    if q * b == a {
        q
    } else if a > 0 {
        q + 1
    } else {
        q - 1
    }
}

/// The speed clamp on a bounded steering vector.
fn clamp_speed(sx: i128, sy: i128, min_v: i64, max_v: i64) -> (r: (i64, i64))
    requires
        0 <= min_v <= max_v <= LIMIT,
        -STEER_BOUND <= sx <= STEER_BOUND,
        -STEER_BOUND <= sy <= STEER_BOUND,
    ensures
        (r.0 as int, r.1 as int) == spec_clamp(sx as int, sy as int, min_v as int, max_v as int),
        -(max_v + 1) <= r.0 <= max_v + 1,
        -(max_v + 1) <= r.1 <= max_v + 1,
{
    proof {
        crate::physics::lemma_sq_bound(sx as int, STEER_BOUND as int);
        crate::physics::lemma_sq_bound(sy as int, STEER_BOUND as int);
        crate::physics::lemma_sq_bound(max_v as int, LIMIT as int);
        crate::physics::lemma_sq_bound(min_v as int, LIMIT as int);
    }
    let sq: i128 = sx * sx + sy * sy;
    let maxsq: i128 = (max_v as i128) * (max_v as i128);
    let minsq: i128 = (min_v as i128) * (min_v as i128);
    if sq > maxsq {
        let d: u64 = isqrt(sq as u128);
        let dv: i128 = (d as i128) + 1;
        proof {
            lemma_abs_lt_of_sq(sx as int, sq as int, dv as int);
            lemma_abs_lt_of_sq(sy as int, sq as int, dv as int);
            crate::physics::lemma_mul_bound(sx as int, max_v as int, dv as int, max_v as int);
            crate::physics::lemma_mul_bound(sy as int, max_v as int, dv as int, max_v as int);
            crate::physics::lemma_mul_bound(sx as int, max_v as int, STEER_BOUND as int, LIMIT as int);
            crate::physics::lemma_mul_bound(sy as int, max_v as int, STEER_BOUND as int, LIMIT as int);
            lemma_div_bound((sx as int) * (max_v as int), dv as int, max_v as int);
            lemma_div_bound((sy as int) * (max_v as int), dv as int, max_v as int);
        }
        let rx: i128 = (sx * (max_v as i128)) / dv;
        let ry: i128 = (sy * (max_v as i128)) / dv;
        (rx as i64, ry as i64)
    } else if 0 < sq && sq < minsq {
        let d: u64 = isqrt(sq as u128);
        proof {
            if d == 0 {
                assert((0int + 1) * (0int + 1) == 1) by (nonlinear_arith);
                assert(false);
            }
            lemma_abs_lt_of_sq(sx as int, sq as int, (d as int) + 1);
            lemma_abs_lt_of_sq(sy as int, sq as int, (d as int) + 1);
            crate::physics::lemma_mul_bound(sx as int, min_v as int, d as int, min_v as int);
            crate::physics::lemma_mul_bound(sy as int, min_v as int, d as int, min_v as int);
            crate::physics::lemma_mul_bound(sx as int, min_v as int, STEER_BOUND as int, LIMIT as int);
            crate::physics::lemma_mul_bound(sy as int, min_v as int, STEER_BOUND as int, LIMIT as int);
            lemma_div_bound((sx as int) * (min_v as int), d as int, min_v as int);
            lemma_div_bound((sy as int) * (min_v as int), d as int, min_v as int);
        }
        let dd: i128 = d as i128;
        let rx: i128 = div_away_i128(sx * (min_v as i128), dd);
        let ry: i128 = div_away_i128(sy * (min_v as i128), dd);
        (rx as i64, ry as i64)
    } else {
        proof {
            if !(sx == 0 && sy == 0) {
                assert((sq as int) < ((max_v as int) + 1) * ((max_v as int) + 1))
                    by (nonlinear_arith)
                    requires
                        sq <= (max_v as int) * (max_v as int),
                        max_v >= 0,
                ;
                lemma_abs_lt_of_sq(sx as int, sq as int, (max_v as int) + 1);
                lemma_abs_lt_of_sq(sy as int, sq as int, (max_v as int) + 1);
            }
        }
        (sx as i64, sy as i64)
    }
}

/// Zero divided by anything positive is zero, and a delta whose square
/// is part of the squared distance gives a separation share within the
/// avoidance factor.
proof fn lemma_sep_bound(dx: int, dy: int, af: int)
    requires
        dx * dx + dy * dy > 0,
        af >= 0,
    ensures
        -af <= div_tz(dx * af, dx * dx + dy * dy) <= af,
{
    let ds = dx * dx + dy * dy;
    assert(dy * dy >= 0) by (nonlinear_arith);
    assert(dx * dx >= 0) by (nonlinear_arith);
    if dx == 0 {
        assert(dx * af == 0) by (nonlinear_arith)
            requires
                dx == 0,
        ;
        assert(div_tz(0, ds) == 0);
    } else {
        assert(-(ds * af) <= dx * af <= ds * af) by (nonlinear_arith)
            requires
                dx != 0,
                ds >= dx * dx,
                af >= 0,
        ;
        lemma_div_bound(dx * af, ds, af);
    }
}

/// The single aggregation pass of one boid over its candidate list,
/// returning the position sum, velocity sum, neighbor count and summed
/// separation impulse.
#[verifier::loop_isolation(false)]
#[verifier::rlimit(60)]
#[verifier::spinoff_prover]
fn aggregate_neighbors(
    boids: &Vec<MovingObject>,
    me: usize,
    candidates: &Vec<u64>,
    params: &BoidParameters,
) -> (g: (i128, i128, i128, i128, i128, i128, i128))
    requires
        boids@.len() <= BOID_LIMIT,
        me < boids@.len(),
        candidates@.len() <= boids@.len(),
        params.wf(),
        forall|i: int|
            0 <= i < boids@.len() ==> (#[trigger] boids@[i]).position.value.spec_in_range(
                LIMIT as int,
            ) && boids@[i].velocity.value.spec_in_range(LIMIT as int),
    ensures
        ({
            let sg = spec_agg(boids@, me as int, params.avoid_factor as int, candidates@);
            &&& sg.pos_x == g.0 as int
            &&& sg.pos_y == g.1 as int
            &&& sg.vel_x == g.2 as int
            &&& sg.vel_y == g.3 as int
            &&& sg.cnt == g.4 as int
            &&& sg.sep_x == g.5 as int
            &&& sg.sep_y == g.6 as int
        }),
        0 <= g.4 <= candidates@.len(),
        -(g.4 * LIMIT) <= g.0 <= g.4 * LIMIT,
        -(g.4 * LIMIT) <= g.1 <= g.4 * LIMIT,
        -(g.4 * LIMIT) <= g.2 <= g.4 * LIMIT,
        -(g.4 * LIMIT) <= g.3 <= g.4 * LIMIT,
        -(g.4 * AVOID_LIMIT) <= g.5 <= g.4 * AVOID_LIMIT,
        -(g.4 * AVOID_LIMIT) <= g.6 <= g.4 * AVOID_LIMIT,
{
    let a = boids[me];
    let af: i128 = params.avoid_factor as i128;
    let mut pos_x: i128 = 0;
    let mut pos_y: i128 = 0;
    let mut vel_x: i128 = 0;
    let mut vel_y: i128 = 0;
    let mut cnt: i128 = 0;
    let mut sep_x: i128 = 0;
    let mut sep_y: i128 = 0;
    let ncand = candidates.len();
    let mut k: usize = 0;
    while k < ncand
        invariant
            0 <= k <= ncand,
            0 <= cnt <= k,
            -(cnt * LIMIT) <= pos_x <= cnt * LIMIT,
            -(cnt * LIMIT) <= pos_y <= cnt * LIMIT,
            -(cnt * LIMIT) <= vel_x <= cnt * LIMIT,
            -(cnt * LIMIT) <= vel_y <= cnt * LIMIT,
            -(cnt * AVOID_LIMIT) <= sep_x <= cnt * AVOID_LIMIT,
            -(cnt * AVOID_LIMIT) <= sep_y <= cnt * AVOID_LIMIT,
            ({
                let g = spec_agg(
                    boids@,
                    me as int,
                    params.avoid_factor as int,
                    candidates@.take(k as int),
                );
                &&& g.pos_x == pos_x as int
                &&& g.pos_y == pos_y as int
                &&& g.vel_x == vel_x as int
                &&& g.vel_y == vel_y as int
                &&& g.cnt == cnt as int
                &&& g.sep_x == sep_x as int
                &&& g.sep_y == sep_y as int
            }),
        decreases ncand - k,
    {
        let id = candidates[k];
        proof {
            assert(candidates@.take(k + 1 as int).drop_last() =~= candidates@.take(k as int));
        }
        if id != (me as u64) && id < (boids.len() as u64) {
            let b = boids[id as usize];
            pos_x = pos_x + (b.position.value.x as i128);
            pos_y = pos_y + (b.position.value.y as i128);
            vel_x = vel_x + (b.velocity.value.x as i128);
            vel_y = vel_y + (b.velocity.value.y as i128);
            cnt = cnt + 1;
            let dx: i64 = a.position.value.x - b.position.value.x;
            let dy: i64 = a.position.value.y - b.position.value.y;
            proof {
                crate::physics::lemma_sq_bound(dx as int, 2 * LIMIT as int);
                crate::physics::lemma_sq_bound(dy as int, 2 * LIMIT as int);
            }
            let ds: i128 = (dx as i128) * (dx as i128) + (dy as i128) * (dy as i128);
            if ds > 0 {
                proof {
                    crate::physics::lemma_mul_bound(
                        dx as int,
                        params.avoid_factor as int,
                        2 * LIMIT as int,
                        AVOID_LIMIT as int,
                    );
                    crate::physics::lemma_mul_bound(
                        dy as int,
                        params.avoid_factor as int,
                        2 * LIMIT as int,
                        AVOID_LIMIT as int,
                    );
                    lemma_sep_bound(dx as int, dy as int, params.avoid_factor as int);
                    lemma_sep_bound(dy as int, dx as int, params.avoid_factor as int);
                }
                let tx: i128 = ((dx as i128) * af) / ds;
                let ty: i128 = ((dy as i128) * af) / ds;
                sep_x = sep_x + tx;
                sep_y = sep_y + ty;
            }
        }
        k = k + 1;
    }
    proof {
        assert(candidates@.take(ncand as int) =~= candidates@);
    }
    (pos_x, pos_y, vel_x, vel_y, cnt, sep_x, sep_y)
}

/// Computes one boid's clamped steering vector from a snapshot of the
/// flock and a candidate neighbor list, exactly as the specification
/// says: one aggregation pass, then edge, threat, cohesion and alignment
/// terms, then the speed clamp. Jitter is not included.
#[verifier::rlimit(100)]
#[verifier::spinoff_prover]
pub fn boid_steering(
    boids: &Vec<MovingObject>,
    me: usize,
    candidates: &Vec<u64>,
    params: &BoidParameters,
    window_halfsize: Vec2i,
    threat: Option<Position>,
) -> (s: Vec2i)
    requires
        boids@.len() <= BOID_LIMIT,
        me < boids@.len(),
        candidates@.len() <= boids@.len(),
        params.wf(),
        window_halfsize.spec_in_range(LIMIT as int),
        threat matches Some(t) ==> t.value.spec_in_range(LIMIT as int),
        forall|i: int|
            0 <= i < boids@.len() ==> (#[trigger] boids@[i]).position.value.spec_in_range(
                LIMIT as int,
            ) && boids@[i].velocity.value.spec_in_range(LIMIT as int),
    ensures
        (s.x as int, s.y as int) == spec_boid_steering(
            boids@,
            me as int,
            candidates@,
            *params,
            window_halfsize,
            threat,
        ),
        -(params.max_velocity + 1) <= s.x <= params.max_velocity + 1,
        -(params.max_velocity + 1) <= s.y <= params.max_velocity + 1,
{
    let a = boids[me];
    let g = aggregate_neighbors(boids, me, candidates, params);
    let pos_x: i128 = g.0;
    let pos_y: i128 = g.1;
    let vel_x: i128 = g.2;
    let vel_y: i128 = g.3;
    let cnt: i128 = g.4;
    let sep_x: i128 = g.5;
    let sep_y: i128 = g.6;
    let ax = a.position.value.x;
    let ay = a.position.value.y;
    let avx = a.velocity.value.x;
    let avy = a.velocity.value.y;
    let ex: i64 = if ax < -window_halfsize.x + params.edge_avoidance_distance {
        params.edge_avoidance_strength
    } else if ax > window_halfsize.x - params.edge_avoidance_distance {
        -params.edge_avoidance_strength
    } else {
        0
    };
    let ey: i64 = if ay < -window_halfsize.y + params.edge_avoidance_distance {
        params.edge_avoidance_strength
    } else if ay > window_halfsize.y - params.edge_avoidance_distance {
        -params.edge_avoidance_strength
    } else {
        0
    };
    let mut tx_t: i128 = 0;
    let mut ty_t: i128 = 0;
    if params.avoid_player {
        match threat {
            Some(t) => {
                let dx: i64 = ax - t.value.x;
                let dy: i64 = ay - t.value.y;
                proof {
                    crate::physics::lemma_sq_bound(dx as int, 2 * LIMIT as int);
                    crate::physics::lemma_sq_bound(dy as int, 2 * LIMIT as int);
                    crate::physics::lemma_sq_bound(
                        params.avoid_player_distance as int,
                        LIMIT as int,
                    );
                }
                let ds: i128 = (dx as i128) * (dx as i128) + (dy as i128) * (dy as i128);
                let dlim: i128 = (params.avoid_player_distance as i128) * (
                params.avoid_player_distance as i128);
                if ds > 0 && ds < dlim {
                    proof {
                        crate::physics::lemma_mul_bound(
                            dx as int,
                            params.avoid_player_factor as int,
                            2 * LIMIT as int,
                            AVOID_LIMIT as int,
                        );
                        crate::physics::lemma_mul_bound(
                            dy as int,
                            params.avoid_player_factor as int,
                            2 * LIMIT as int,
                            AVOID_LIMIT as int,
                        );
                        lemma_sep_bound(dx as int, dy as int, params.avoid_player_factor as int);
                        lemma_sep_bound(dy as int, dx as int, params.avoid_player_factor as int);
                    }
                    tx_t = ((dx as i128) * (params.avoid_player_factor as i128)) / ds;
                    ty_t = ((dy as i128) * (params.avoid_player_factor as i128)) / ds;
                }
            },
            None => {},
        }
    }
    let mut ccx: i128 = 0;
    let mut ccy: i128 = 0;
    let mut alx: i128 = 0;
    let mut aly: i128 = 0;
    if cnt > 0 {
        proof {
            lemma_div_bound(pos_x as int - ax as int, cnt as int, 2 * LIMIT as int);
            lemma_div_bound(pos_y as int - ay as int, cnt as int, 2 * LIMIT as int);
            lemma_div_bound(vel_x as int - avx as int, cnt as int, 2 * LIMIT as int);
            lemma_div_bound(vel_y as int - avy as int, cnt as int, 2 * LIMIT as int);
        }
        let pcx: i128 = (pos_x - (ax as i128)) / cnt;
        let pcy: i128 = (pos_y - (ay as i128)) / cnt;
        let pvx: i128 = (vel_x - (avx as i128)) / cnt;
        let pvy: i128 = (vel_y - (avy as i128)) / cnt;
        proof {
            crate::physics::lemma_mul_bound(
                (ax as int) - (pcx as int),
                params.centering_factor as int,
                3 * LIMIT as int,
                FACTOR_LIMIT as int,
            );
            crate::physics::lemma_mul_bound(
                (ay as int) - (pcy as int),
                params.centering_factor as int,
                3 * LIMIT as int,
                FACTOR_LIMIT as int,
            );
            crate::physics::lemma_mul_bound(
                ((ax as int) - (pcx as int)) * (params.centering_factor as int),
                params.disperse_factor as int,
                3 * LIMIT as int * FACTOR_LIMIT as int,
                FACTOR_LIMIT as int,
            );
            crate::physics::lemma_mul_bound(
                ((ay as int) - (pcy as int)) * (params.centering_factor as int),
                params.disperse_factor as int,
                3 * LIMIT as int * FACTOR_LIMIT as int,
                FACTOR_LIMIT as int,
            );
            crate::physics::lemma_mul_bound(
                (pcx as int) - (ax as int),
                params.centering_factor as int,
                3 * LIMIT as int,
                FACTOR_LIMIT as int,
            );
            crate::physics::lemma_mul_bound(
                (pcy as int) - (ay as int),
                params.centering_factor as int,
                3 * LIMIT as int,
                FACTOR_LIMIT as int,
            );
            crate::physics::lemma_mul_bound(
                (pvx as int) - (avx as int),
                params.matching_factor as int,
                3 * LIMIT as int,
                FACTOR_LIMIT as int,
            );
            crate::physics::lemma_mul_bound(
                (pvy as int) - (avy as int),
                params.matching_factor as int,
                3 * LIMIT as int,
                FACTOR_LIMIT as int,
            );
        }
        if params.disperse {
            ccx = (((ax as i128) - pcx) * (params.centering_factor as i128) * (
            params.disperse_factor as i128)) / 1_000_000;
            ccy = (((ay as i128) - pcy) * (params.centering_factor as i128) * (
            params.disperse_factor as i128)) / 1_000_000;
        } else {
            ccx = ((pcx - (ax as i128)) * (params.centering_factor as i128)) / 1000;
            ccy = ((pcy - (ay as i128)) * (params.centering_factor as i128)) / 1000;
        }
        alx = ((pvx - (avx as i128)) * (params.matching_factor as i128)) / 1000;
        aly = ((pvy - (avy as i128)) * (params.matching_factor as i128)) / 1000;
    }
    let sx: i128 = sep_x + (ex as i128) + tx_t + ccx + alx;
    let sy: i128 = sep_y + (ey as i128) + ty_t + ccy + aly;
    let r = clamp_speed(sx, sy, params.min_velocity, params.max_velocity);
    Vec2i::new(r.0, r.1)
}

/// The per-axis jitter produced from a raw draw `r` in `[-500, 500]`,
/// which stands for a uniform value in `[-0.5, 0.5]` scaled by a
/// thousand: noise of up to half of `max_velocity * random_factor`.
pub open spec fn jitter_term(r: int, p: BoidParameters) -> int {
    div_tz(r * p.max_velocity * p.random_factor, 1_000_000)
}

/// The additive per-tick velocity update: the clamped steering plus the
/// jitter, scaled by the multiplier, added onto the old velocity.
pub open spec fn spec_vel_update(v: int, s: int, j: int, p: BoidParameters) -> int {
    v + div_tz((s + j) * p.multiplier, 1000)
}

/// A usable candidate list for one boid: no longer than the flock,
/// free of repeated ids, and holding every other boid strictly inside
/// this boid's view box, among the boids the world region accepted.
pub open spec fn good_candidates(
    pre: Seq<MovingObject>,
    i: int,
    cs: Seq<u64>,
    p: BoidParameters,
    world: AABB,
) -> bool {
    &&& cs.len() <= pre.len()
    &&& cs.no_duplicates()
    &&& (forall|j: int|
        0 <= j < pre.len() && j != i && spec_intersects(
            p.view_distance_aabb,
            pre[i].position,
            pre[j].position,
        ) && spec_intersects(
            world,
            Position { value: Vec2i { x: 0, y: 0 } },
            pre[j].position,
        ) ==> cs.contains(j as u64))
}

/// What phase one of the flocking pass records for one boid: a usable
/// candidate list and the exactly computed, bounded steering for it.
pub open spec fn steering_recorded(
    pre: Seq<MovingObject>,
    gcs: Seq<Seq<u64>>,
    steer: Seq<Vec2i>,
    k: int,
    p: BoidParameters,
    world: AABB,
    win: Vec2i,
    threat: Option<Position>,
) -> bool {
    &&& good_candidates(pre, k, gcs[k], p, world)
    &&& (steer[k].x as int, steer[k].y as int) == spec_boid_steering(
        pre,
        k,
        gcs[k],
        p,
        win,
        threat,
    )
    &&& -(p.max_velocity + 1) <= steer[k].x <= p.max_velocity + 1
    &&& -(p.max_velocity + 1) <= steer[k].y <= p.max_velocity + 1
}

/// How one boid's post-tick record relates to the pre-tick flock for a
/// given candidate list and pair of jitter draws: the list is no longer
/// than the flock and holds every other boid strictly inside this
/// boid's view box (among boids the world region accepted), the draws
/// are in `[-500, 500]`, and the new velocity is exactly the additive
/// update from the clamped steering over that list plus the jitter.
pub open spec fn spec_flock_update(
    pre: Seq<MovingObject>,
    post: MovingObject,
    i: int,
    cs: Seq<u64>,
    jx: int,
    jy: int,
    p: BoidParameters,
    world: AABB,
    win: Vec2i,
    threat: Option<Position>,
) -> bool {
    &&& good_candidates(pre, i, cs, p, world)
    &&& -500 <= jx <= 500
    &&& -500 <= jy <= 500
    &&& post.velocity.value.x == spec_vel_update(
        pre[i].velocity.value.x as int,
        spec_boid_steering(pre, i, cs, p, win, threat).0,
        jitter_term(jx, p),
        p,
    )
    &&& post.velocity.value.y == spec_vel_update(
        pre[i].velocity.value.y as int,
        spec_boid_steering(pre, i, cs, p, win, threat).1,
        jitter_term(jy, p),
        p,
    )
}

/// Relies on rand's `Rng::gen_range` over an inclusive integer range:
/// it panics only on an empty range and returns a value within the
/// given bounds.
#[verifier::external_body]
fn random_in_range(lo: i64, hi: i64) -> (r: i64)
    requires
        lo <= hi,
    ensures
        lo <= r <= hi,
{
    rand::Rng::gen_range(&mut rand::thread_rng(), lo..=hi)
}

/// A candidate list drawn from a point-mode tree built over items with
/// pairwise distinct ids repeats no id.
proof fn lemma_candidates_no_dup(
    tree: crate::quadtree::Quadtree,
    items: Seq<(u64, Position)>,
    cands: Seq<u64>,
    world: AABB,
    view: AABB,
    qpos: Position,
)
    requires
        tree.id_count() == crate::quadtree::accepted_point_ids(
            items,
            world,
            Position { value: Vec2i { x: 0, y: 0 } },
        ),
        forall|p: int, q: int|
            0 <= p < q < items.len() ==> (#[trigger] items[p]).0 != (#[trigger] items[q]).0,
        cands == tree.query_seq(view, qpos) || cands == Seq::<u64>::empty(),
    ensures
        cands.no_duplicates(),
{
    if cands == tree.query_seq(view, qpos) {
        crate::quadtree::lemma_accepted_point_ids_at_most_one(
            items,
            world,
            Position { value: Vec2i { x: 0, y: 0 } },
        );
        tree.lemma_query_counts(view, qpos);
        assert forall|x: u64| cands.to_multiset().contains(x) implies cands.to_multiset().count(
            x,
        ) == 1 by {
            assert(cands.to_multiset().count(x) <= tree.id_count().count(x));
            assert(tree.id_count().count(x) <= 1);
        }
        cands.lemma_multiset_has_no_duplicates_conv();
    } else {
        assert(cands.len() == 0);
    }
}

/// One flocking tick. A point-mode quadtree is rebuilt over all boids,
/// each boid gathers its leaf-granularity candidate superset and its
/// clamped steering is computed against the unchanged pre-tick snapshot,
/// and only then is every velocity updated, so no boid's update is
/// visible to another's aggregation. For every boid there is a candidate
/// list that holds at least every other boid strictly inside its view
/// box (among boids the world region accepted), and random per-axis
/// draws in `[-500, 500]`, such that the new velocity is exactly the
/// additive update for that list and those draws. Positions, masses,
/// contact state and the previous-tick shadows are untouched.
#[verifier::loop_isolation(false)]
#[verifier::rlimit(100)]
#[verifier::spinoff_prover]
pub fn move_boids(
    boids: &mut Vec<MovingObject>,
    params: &BoidParameters,
    map_aabb: &AABB,
    window_halfsize: Vec2i,
    threat: Option<Position>,
    capacity: usize,
) -> (wit: Ghost<(Seq<Seq<u64>>, Seq<int>, Seq<int>)>)
    requires
        old(boids)@.len() <= BOID_LIMIT,
        params.wf(),
        map_aabb.wf(),
        window_halfsize.spec_in_range(LIMIT as int),
        threat matches Some(t) ==> t.value.spec_in_range(LIMIT as int),
        forall|i: int|
            0 <= i < old(boids)@.len() ==> (#[trigger] old(
                boids,
            )@[i]).position.value.spec_in_range(LIMIT as int) && old(
                boids,
            )@[i].velocity.value.spec_in_range(LIMIT as int),
    ensures
        final(boids)@.len() == old(boids)@.len(),
        forall|i: int|
            0 <= i < old(boids)@.len() ==> {
                let pre = old(boids)@[i];
                let post = (#[trigger] final(boids)@[i]);
                &&& post.mass == pre.mass
                &&& post.position == pre.position
                &&& post.state == pre.state
                &&& post.old_position == pre.old_position
                &&& post.old_velocity == pre.old_velocity
                &&& post.old_state == pre.old_state
            },
        wit@.0.len() == old(boids)@.len(),
        wit@.1.len() == old(boids)@.len(),
        wit@.2.len() == old(boids)@.len(),
        forall|i: int| #![trigger final(boids)@[i]]
            0 <= i < old(boids)@.len() ==> spec_flock_update(
                old(boids)@,
                final(boids)@[i],
                i,
                wit@.0[i],
                wit@.1[i],
                wit@.2[i],
                *params,
                *map_aabb,
                window_halfsize,
                threat,
            ),
{
    let ghost pre = old(boids)@;
    let ghost origin = Position { value: Vec2i { x: 0, y: 0 } };
    let n = boids.len();
    let mut items: Vec<(u64, Position)> = Vec::new();
    let mut i0: usize = 0;
    while i0 < n
        invariant
            0 <= i0 <= n,
            items@.len() == i0,
            boids@ == pre,
            forall|j: int|
                0 <= j < i0 ==> (#[trigger] items@[j]) == (j as u64, pre[j].position),
        decreases n - i0,
    {
        items.push(((i0 as u64), boids[i0].position));
        i0 = i0 + 1;
    }
    let tree = crate::quadtree::build_point_quadtree(&items, map_aabb, capacity);
    proof {
        crate::quadtree::lemma_accepted_point_ids_len(items@, *map_aabb, origin);
    }
    let mut steer: Vec<Vec2i> = Vec::new();
    let ghost mut gcs: Seq<Seq<u64>> = Seq::empty();
    let mut i1: usize = 0;
    while i1 < n
        invariant
            0 <= i1 <= n,
            boids@ == pre,
            steer@.len() == i1,
            gcs.len() == i1,
            forall|k: int|
                0 <= k < i1 ==> #[trigger] steering_recorded(
                    pre,
                    gcs,
                    steer@,
                    k,
                    *params,
                    *map_aabb,
                    window_halfsize,
                    threat,
                ),
        decreases n - i1,
    {
        let mut cands: Vec<u64> = Vec::new();
        tree.query(&params.view_distance_aabb, boids[i1].position, &mut cands);
        proof {
            tree.lemma_query_len(params.view_distance_aabb, pre[i1 as int].position);
            assert(cands@.len() <= n) by {
                if !crate::physics::spec_collides(
                    tree.spec_boundary(),
                    tree.spec_center(),
                    params.view_distance_aabb,
                    pre[i1 as int].position,
                ) {
                    assert(cands@ =~= Seq::<u64>::empty());
                }
            }
            assert(cands@.no_duplicates()) by {
                assert forall|p: int, q: int| 0 <= p < q < items@.len() implies (
                #[trigger] items@[p]).0 != (#[trigger] items@[q]).0 by {
                    assert(items@[p].0 == p as u64 && items@[q].0 == q as u64);
                }
                if !crate::physics::spec_collides(
                    tree.spec_boundary(),
                    tree.spec_center(),
                    params.view_distance_aabb,
                    pre[i1 as int].position,
                ) {
                    assert(cands@ =~= Seq::<u64>::empty());
                }
                lemma_candidates_no_dup(
                    tree,
                    items@,
                    cands@,
                    *map_aabb,
                    params.view_distance_aabb,
                    pre[i1 as int].position,
                );
            }
            assert forall|j: int|
                0 <= j < n && j != i1 as int && spec_intersects(
                    params.view_distance_aabb,
                    pre[i1 as int].position,
                    pre[j].position,
                ) && spec_intersects(
                    *map_aabb,
                    origin,
                    pre[j].position,
                ) implies cands@.contains(j as u64) by {
                let e = crate::quadtree::Entry {
                    id: j as u64,
                    aabb: None,
                    position: pre[j].position,
                };
                assert(tree.contains_entry(e)) by {
                    assert(items@[j] == (j as u64, pre[j].position));
                }
                tree.lemma_query_superset_point(
                    e,
                    params.view_distance_aabb,
                    pre[i1 as int].position,
                );
            }
            assert(good_candidates(pre, i1 as int, cands@, *params, *map_aabb));
        }
        let s = boid_steering(boids, i1, &cands, params, window_halfsize, threat);
        let ghost steer_pre = steer@;
        steer.push(s);
        proof {
            let ghost gcs_pre = gcs;
            gcs = gcs.push(cands@);
            assert forall|k: int| 0 <= k < i1 + 1 implies #[trigger] steering_recorded(
                pre,
                gcs,
                steer@,
                k,
                *params,
                *map_aabb,
                window_halfsize,
                threat,
            ) by {
                if k < i1 {
                    assert(steering_recorded(
                        pre,
                        gcs_pre,
                        steer_pre,
                        k,
                        *params,
                        *map_aabb,
                        window_halfsize,
                        threat,
                    ));
                    assert(gcs[k] == gcs_pre[k]);
                    assert(steer@[k] == steer_pre[k]);
                } else {
                    assert(gcs[k] == cands@);
                    assert(steer@[k] == s);
                    assert(good_candidates(pre, k, gcs[k], *params, *map_aabb));
                }
            }
        }
        i1 = i1 + 1;
    }
    let jwit = apply_flock_velocities(
        boids,
        &steer,
        Ghost(gcs),
        params,
        map_aabb,
        window_halfsize,
        threat,
    );
    Ghost((gcs, jwit@.0, jwit@.1))
}

/// Applies the computed steering to every boid: draws the two jitter
/// values and adds the scaled steering-plus-jitter onto the velocity,
/// touching nothing else.
#[verifier::loop_isolation(false)]
#[verifier::rlimit(100)]
#[verifier::spinoff_prover]
fn apply_flock_velocities(
    boids: &mut Vec<MovingObject>,
    steer: &Vec<Vec2i>,
    Ghost(gcs): Ghost<Seq<Seq<u64>>>,
    params: &BoidParameters,
    map_aabb: &AABB,
    window_halfsize: Vec2i,
    threat: Option<Position>,
) -> (wit: Ghost<(Seq<int>, Seq<int>)>)
    requires
        params.wf(),
        steer@.len() == old(boids)@.len(),
        gcs.len() == old(boids)@.len(),
        forall|i: int|
            0 <= i < old(boids)@.len() ==> (#[trigger] old(
                boids,
            )@[i]).velocity.value.spec_in_range(LIMIT as int),
        forall|k: int|
            0 <= k < old(boids)@.len() ==> #[trigger] steering_recorded(
                old(boids)@,
                gcs,
                steer@,
                k,
                *params,
                *map_aabb,
                window_halfsize,
                threat,
            ),
    ensures
        final(boids)@.len() == old(boids)@.len(),
        forall|i: int|
            0 <= i < old(boids)@.len() ==> {
                let pre = old(boids)@[i];
                let post = (#[trigger] final(boids)@[i]);
                &&& post.mass == pre.mass
                &&& post.position == pre.position
                &&& post.state == pre.state
                &&& post.old_position == pre.old_position
                &&& post.old_velocity == pre.old_velocity
                &&& post.old_state == pre.old_state
            },
        wit@.0.len() == old(boids)@.len(),
        wit@.1.len() == old(boids)@.len(),
        forall|i: int| #![trigger final(boids)@[i]]
            0 <= i < old(boids)@.len() ==> spec_flock_update(
                old(boids)@,
                final(boids)@[i],
                i,
                gcs[i],
                wit@.0[i],
                wit@.1[i],
                *params,
                *map_aabb,
                window_halfsize,
                threat,
            ),
{
    let ghost pre = old(boids)@;
    let n = boids.len();
    let ghost mut gjx: Seq<int> = Seq::empty();
    let ghost mut gjy: Seq<int> = Seq::empty();
    let mut i2: usize = 0;
    while i2 < n
        invariant
            0 <= i2 <= n,
            n == pre.len(),
            boids@.len() == n,
            steer@.len() == n,
            gcs.len() == n,
            gjx.len() == i2,
            gjy.len() == i2,
            forall|k: int| i2 <= k < n ==> boids@[k] == pre[k],
            forall|k: int| #![trigger boids@[k]]
                0 <= k < i2 ==> {
                    &&& boids@[k].mass == pre[k].mass
                    &&& boids@[k].position == pre[k].position
                    &&& boids@[k].state == pre[k].state
                    &&& boids@[k].old_position == pre[k].old_position
                    &&& boids@[k].old_velocity == pre[k].old_velocity
                    &&& boids@[k].old_state == pre[k].old_state
                },
            forall|k: int| #![trigger boids@[k]]
                0 <= k < i2 ==> spec_flock_update(
                    pre,
                    boids@[k],
                    k,
                    gcs[k],
                    gjx[k],
                    gjy[k],
                    *params,
                    *map_aabb,
                    window_halfsize,
                    threat,
                ),
        decreases n - i2,
    {
        let rx = random_in_range(-500, 500);
        let ry = random_in_range(-500, 500);
        proof {
            crate::physics::lemma_mul_bound(rx as int, params.max_velocity as int, 500, LIMIT as int);
            crate::physics::lemma_mul_bound(ry as int, params.max_velocity as int, 500, LIMIT as int);
            crate::physics::lemma_mul_bound(
                (rx as int) * (params.max_velocity as int),
                params.random_factor as int,
                500 * LIMIT as int,
                FACTOR_LIMIT as int,
            );
            crate::physics::lemma_mul_bound(
                (ry as int) * (params.max_velocity as int),
                params.random_factor as int,
                500 * LIMIT as int,
                FACTOR_LIMIT as int,
            );
        }
        proof {
            lemma_div_bound(
                (rx as int) * (params.max_velocity as int) * (params.random_factor as int),
                1_000_000,
                500_000_000_000,
            );
            lemma_div_bound(
                (ry as int) * (params.max_velocity as int) * (params.random_factor as int),
                1_000_000,
                500_000_000_000,
            );
        }
        let jx: i64 = rx * params.max_velocity * params.random_factor / 1_000_000;
        let jy: i64 = ry * params.max_velocity * params.random_factor / 1_000_000;
        let s = steer[i2];
        proof {
            assert(steering_recorded(
                pre,
                gcs,
                steer@,
                i2 as int,
                *params,
                *map_aabb,
                window_halfsize,
                threat,
            ));
            assert(-(params.max_velocity + 1) <= steer@[i2 as int].x <= params.max_velocity + 1);
            assert(-(params.max_velocity + 1) <= steer@[i2 as int].y <= params.max_velocity + 1);
            crate::physics::lemma_mul_bound(
                (s.x as int) + (jx as int),
                params.multiplier as int,
                LIMIT as int + 1 + 500_000_000_000,
                FACTOR_LIMIT as int,
            );
            crate::physics::lemma_mul_bound(
                (s.y as int) + (jy as int),
                params.multiplier as int,
                LIMIT as int + 1 + 500_000_000_000,
                FACTOR_LIMIT as int,
            );
        }
        let nvx: i64 = boids[i2].velocity.value.x + ((s.x + jx) * params.multiplier) / 1000;
        let nvy: i64 = boids[i2].velocity.value.y + ((s.y + jy) * params.multiplier) / 1000;
        let mut b = boids[i2];
        b.velocity = Velocity::new(Vec2i::new(nvx, nvy));
        let ghost bsnap = boids@;
        boids.set(i2, b);
        proof {
            gjx = gjx.push(rx as int);
            gjy = gjy.push(ry as int);
            assert(spec_flock_update(
                pre,
                boids@[i2 as int],
                i2 as int,
                gcs[i2 as int],
                rx as int,
                ry as int,
                *params,
                *map_aabb,
                window_halfsize,
                threat,
            ));
            assert forall|k: int| #![trigger boids@[k]] 0 <= k < i2 implies spec_flock_update(
                pre,
                boids@[k],
                k,
                gcs[k],
                gjx[k],
                gjy[k],
                *params,
                *map_aabb,
                window_halfsize,
                threat,
            ) by {
                assert(boids@[k] == bsnap[k]);
                assert(gjx[k] == gjx.drop_last()[k]);
                assert(gjy[k] == gjy.drop_last()[k]);
            }
        }
        i2 = i2 + 1;
    }
    Ghost((gjx, gjy))
}

/// Squaring keeps order on non-negative values.
proof fn lemma_sq_le(a: int, b: int) by (nonlinear_arith)
    requires
        0 <= a <= b,
    ensures
        a * a <= b * b,
{
}

/// A product of non-negative factors is non-negative.
proof fn lemma_nonneg_mul(a: int, b: int) by (nonlinear_arith)
    requires
        a >= 0,
        b >= 0,
    ensures
        a * b >= 0,
{
}

/// A vector scaled down towards a bound stays within it: if each scaled
/// component times the divisor is within the original component times
/// the target, and the original squared length is below the divisor
/// squared, the scaled squared length is within the target squared.
proof fn lemma_scale_keeps_le(qx: int, qy: int, sx: int, sy: int, m: int, dv: int)
    requires
        dv >= 1,
        m >= 0,
        abs_i(qx) * dv <= abs_i(sx) * m,
        abs_i(qy) * dv <= abs_i(sy) * m,
        sx * sx + sy * sy < dv * dv,
    ensures
        qx * qx + qy * qy <= m * m,
{
    lemma_nonneg_mul(abs_i(qx), dv);
    lemma_nonneg_mul(abs_i(qy), dv);
    lemma_sq_le(abs_i(qx) * dv, abs_i(sx) * m);
    lemma_sq_le(abs_i(qy) * dv, abs_i(sy) * m);
    assert((abs_i(qx) * dv) * (abs_i(qx) * dv) == (qx * qx) * (dv * dv)) by (nonlinear_arith);
    assert((abs_i(qy) * dv) * (abs_i(qy) * dv) == (qy * qy) * (dv * dv)) by (nonlinear_arith);
    assert((abs_i(sx) * m) * (abs_i(sx) * m) == (sx * sx) * (m * m)) by (nonlinear_arith);
    assert((abs_i(sy) * m) * (abs_i(sy) * m) == (sy * sy) * (m * m)) by (nonlinear_arith);
    assert((qx * qx + qy * qy) * (dv * dv) <= (sx * sx + sy * sy) * (m * m)) by (nonlinear_arith)
        requires
            (qx * qx) * (dv * dv) <= (sx * sx) * (m * m),
            (qy * qy) * (dv * dv) <= (sy * sy) * (m * m),
    ;
    assert(qx * qx >= 0) by (nonlinear_arith);
    assert(qy * qy >= 0) by (nonlinear_arith);
    assert(qx * qx + qy * qy <= m * m) by (nonlinear_arith)
        requires
            (qx * qx + qy * qy) * (dv * dv) <= (sx * sx + sy * sy) * (m * m),
            sx * sx + sy * sy < dv * dv,
            dv >= 1,
            m >= 0,
            qx * qx + qy * qy >= 0,
    ;
}

/// A vector scaled up away from zero reaches the target: if each scaled
/// component times the divisor covers the original component times the
/// target, and the original squared length is at least the divisor
/// squared, the scaled squared length reaches the target squared.
proof fn lemma_scale_keeps_ge(qx: int, qy: int, sx: int, sy: int, m: int, dv: int)
    requires
        dv >= 1,
        m >= 0,
        abs_i(qx) * dv >= abs_i(sx) * m,
        abs_i(qy) * dv >= abs_i(sy) * m,
        sx * sx + sy * sy >= dv * dv,
    ensures
        qx * qx + qy * qy >= m * m,
{
    lemma_nonneg_mul(abs_i(sx), m);
    lemma_nonneg_mul(abs_i(sy), m);
    lemma_sq_le(abs_i(sx) * m, abs_i(qx) * dv);
    lemma_sq_le(abs_i(sy) * m, abs_i(qy) * dv);
    assert((abs_i(qx) * dv) * (abs_i(qx) * dv) == (qx * qx) * (dv * dv)) by (nonlinear_arith);
    assert((abs_i(qy) * dv) * (abs_i(qy) * dv) == (qy * qy) * (dv * dv)) by (nonlinear_arith);
    assert((abs_i(sx) * m) * (abs_i(sx) * m) == (sx * sx) * (m * m)) by (nonlinear_arith);
    assert((abs_i(sy) * m) * (abs_i(sy) * m) == (sy * sy) * (m * m)) by (nonlinear_arith);
    assert((qx * qx + qy * qy) * (dv * dv) >= (sx * sx + sy * sy) * (m * m)) by (nonlinear_arith)
        requires
            (qx * qx) * (dv * dv) >= (sx * sx) * (m * m),
            (qy * qy) * (dv * dv) >= (sy * sy) * (m * m),
    ;
    assert(qx * qx + qy * qy >= m * m) by (nonlinear_arith)
        requires
            (qx * qx + qy * qy) * (dv * dv) >= (sx * sx + sy * sy) * (m * m),
            sx * sx + sy * sy >= dv * dv,
            dv >= 1,
            m >= 0,
    ;
}

/// Rounding away from zero does not shrink the magnitude of the exact
/// quotient times the divisor.
proof fn lemma_div_away_covers(a: int, b: int) by (nonlinear_arith)
    requires
        b > 0,
    ensures
        abs_i(div_away(a, b)) * b >= abs_i(a),
{
}

/// The speed clamp law: the intentional steering magnitude before
/// jitter is zero exactly for a zero input; it never exceeds `max_v`;
/// and when the input was not scaled down from above the ceiling, it is
/// at least `min_v`. The requirement keeps the speed floor far enough
/// under the ceiling that integer rounding in the up-scaling cannot
/// overshoot it.
pub proof fn lemma_speed_clamp(sx: int, sy: int, min_v: int, max_v: int)
    requires
        0 <= min_v <= max_v,
        min_v == 0 || 2 * (min_v + 1) * (min_v + 1) <= max_v * max_v,
    ensures
        ({
            let (rx, ry) = spec_clamp(sx, sy, min_v, max_v);
            &&& (sx == 0 && sy == 0) ==> (rx == 0 && ry == 0)
            &&& rx * rx + ry * ry <= max_v * max_v
            &&& (!(sx == 0 && sy == 0) && sx * sx + sy * sy <= max_v * max_v) ==> min_v * min_v
                <= rx * rx + ry * ry
        }),
{
    crate::physics::lemma_sq_bound(sx, abs_i(sx));
    crate::physics::lemma_sq_bound(sy, abs_i(sy));
    crate::physics::lemma_sq_bound(min_v, max_v);
    let sq = sx * sx + sy * sy;
    lemma_isqrt_bounds(sq as nat);
    let d = isqrt_s(sq as nat) as int;
    assert(sx * sx >= 0 && sy * sy >= 0) by (nonlinear_arith);
    assert(sx == 0 && sy == 0 ==> sq == 0) by (nonlinear_arith)
        requires
            sq == sx * sx + sy * sy,
    ;
    assert(sx != 0 || sy != 0 ==> sq > 0) by (nonlinear_arith)
        requires
            sq == sx * sx + sy * sy,
    ;
    if sq > max_v * max_v {
        let dv = d + 1;
        let qx = div_tz(sx * max_v, dv);
        let qy = div_tz(sy * max_v, dv);
        lemma_div_times_divisor(sx * max_v, dv);
        lemma_div_times_divisor(sy * max_v, dv);
        assert(abs_i(qx) * dv == abs_i(qx * dv)) by (nonlinear_arith)
            requires
                dv >= 1,
        ;
        assert(abs_i(qy) * dv == abs_i(qy * dv)) by (nonlinear_arith)
            requires
                dv >= 1,
        ;
        assert(abs_i(sx * max_v) == abs_i(sx) * max_v) by (nonlinear_arith)
            requires
                max_v >= 0,
        ;
        assert(abs_i(sy * max_v) == abs_i(sy) * max_v) by (nonlinear_arith)
            requires
                max_v >= 0,
        ;
        lemma_scale_keeps_le(qx, qy, sx, sy, max_v, dv);
    } else if 0 < sq && sq < min_v * min_v {
        assert(d >= 1) by {
            if d == 0 {
                assert((0int + 1) * (0int + 1) == 1) by (nonlinear_arith);
            }
        }
        let qx = div_away(sx * min_v, d);
        let qy = div_away(sy * min_v, d);
        lemma_div_away_covers(sx * min_v, d);
        lemma_div_away_covers(sy * min_v, d);
        assert(abs_i(sx * min_v) == abs_i(sx) * min_v) by (nonlinear_arith)
            requires
                min_v >= 0,
        ;
        assert(abs_i(sy * min_v) == abs_i(sy) * min_v) by (nonlinear_arith)
            requires
                min_v >= 0,
        ;
        assert(sq >= d * d);
        lemma_scale_keeps_ge(qx, qy, sx, sy, min_v, d);
        lemma_abs_lt_of_sq(sx, sq, d + 1);
        lemma_abs_lt_of_sq(sy, sq, d + 1);
        lemma_div_times_divisor(sx * min_v, d);
        lemma_div_times_divisor(sy * min_v, d);
        assert(abs_i(div_tz(sx * min_v, d)) * d == abs_i(div_tz(sx * min_v, d) * d))
            by (nonlinear_arith)
            requires
                d >= 1,
        ;
        assert(abs_i(div_tz(sy * min_v, d)) * d == abs_i(div_tz(sy * min_v, d) * d))
            by (nonlinear_arith)
            requires
                d >= 1,
        ;
        assert(abs_i(qx) <= min_v + 1) by (nonlinear_arith)
            requires
                d >= 1,
                min_v >= 0,
                -(d + 1) < sx < d + 1,
                abs_i(div_tz(sx * min_v, d)) * d == abs_i(div_tz(sx * min_v, d) * d),
                abs_i(div_tz(sx * min_v, d) * d) <= abs_i(sx * min_v),
                abs_i(sx * min_v) == abs_i(sx) * min_v,
                qx == div_away(sx * min_v, d),
        ;
        assert(abs_i(qy) <= min_v + 1) by (nonlinear_arith)
            requires
                d >= 1,
                min_v >= 0,
                -(d + 1) < sy < d + 1,
                abs_i(div_tz(sy * min_v, d)) * d == abs_i(div_tz(sy * min_v, d) * d),
                abs_i(div_tz(sy * min_v, d) * d) <= abs_i(sy * min_v),
                abs_i(sy * min_v) == abs_i(sy) * min_v,
                qy == div_away(sy * min_v, d),
        ;
        assert(qx * qx + qy * qy <= 2 * (min_v + 1) * (min_v + 1)) by (nonlinear_arith)
            requires
                abs_i(qx) <= min_v + 1,
                abs_i(qy) <= min_v + 1,
                min_v >= 0,
        ;
    } else {
    }
}

/// The speed clamp law over a valid configuration: `wf` carries the
/// margin, so the law holds of every configuration that passes setup
/// validation.
pub proof fn lemma_speed_clamp_valid(p: BoidParameters, sx: int, sy: int)
    requires
        p.wf(),
    ensures
        ({
            let (rx, ry) = spec_clamp(sx, sy, p.min_velocity as int, p.max_velocity as int);
            &&& (sx == 0 && sy == 0) ==> (rx == 0 && ry == 0)
            &&& rx * rx + ry * ry <= p.max_velocity * p.max_velocity
            &&& (!(sx == 0 && sy == 0) && sx * sx + sy * sy <= p.max_velocity * p.max_velocity)
                ==> p.min_velocity * p.min_velocity <= rx * rx + ry * ry
        }),
{
    lemma_speed_clamp(sx, sy, p.min_velocity as int, p.max_velocity as int);
}

/// The candidate list of an isolated boid contributes nothing: when no
/// candidate names a live neighbor, every aggregate is zero.
proof fn lemma_agg_isolated(b0: Seq<MovingObject>, me: int, af: int, cs: Seq<u64>)
    requires
        forall|k: int| 0 <= k < cs.len() ==> !valid_other(b0, me, #[trigger] cs[k]),
    ensures
        ({
            let g = spec_agg(b0, me, af, cs);
            g.pos_x == 0 && g.pos_y == 0 && g.vel_x == 0 && g.vel_y == 0 && g.cnt == 0 && g.sep_x
                == 0 && g.sep_y == 0
        }),
    decreases cs.len(),
{
    if cs.len() > 0 {
        lemma_agg_isolated(b0, me, af, cs.drop_last());
        assert(!valid_other(b0, me, cs[cs.len() - 1]));
    }
}

/// The isolated-boid law: with no live neighbor among the candidates,
/// predator avoidance off, and a position at least the edge-avoidance
/// distance inside every world edge, the steering before jitter is
/// exactly zero.
pub proof fn lemma_isolated_boid(
    b0: Seq<MovingObject>,
    me: int,
    cs: Seq<u64>,
    p: BoidParameters,
    win: Vec2i,
    threat: Option<Position>,
)
    requires
        0 <= me < b0.len(),
        forall|k: int| 0 <= k < cs.len() ==> !valid_other(b0, me, #[trigger] cs[k]),
        !p.avoid_player,
        -win.x + p.edge_avoidance_distance <= b0[me].position.value.x <= win.x
            - p.edge_avoidance_distance,
        -win.y + p.edge_avoidance_distance <= b0[me].position.value.y <= win.y
            - p.edge_avoidance_distance,
    ensures
        spec_boid_steering(b0, me, cs, p, win, threat) == (0int, 0int),
{
    lemma_agg_isolated(b0, me, p.avoid_factor as int, cs);
    assert(spec_steering_raw(b0, me, cs, p, win, threat) == (0int, 0int));
    assert(spec_clamp(0, 0, p.min_velocity as int, p.max_velocity as int) == (0int, 0int)) by {
        assert(0int * 0int == 0) by (nonlinear_arith);
    }
}

} // verus!
