//! The collision resolver: a broad phase over the quadtree produces
//! candidate pairs, an exact narrow phase computes per-axis penetration,
//! and interpenetrating pairs are separated by a mass-weighted position
//! correction on the axis of smaller absolute penetration, with contact
//! flags recorded on both bodies.

use vstd::prelude::*;
use crate::physics::{
    AABB, MovingObject, MovingObjectState, Position, Vec2i, abs_i, div_tz, pen_x, pen_y,
    penetration_depth, spec_collides, LIMIT, MASS_LIMIT, POS_LIMIT,
};

verus! {

/// Whether a colliding pair is separated on the x axis: the axis of
/// smaller absolute penetration is resolved first.
pub open spec fn resolves_on_x(a_aabb: AABB, a_pos: Position, b_aabb: AABB, b_pos: Position) -> bool {
    abs_i(pen_x(a_aabb, a_pos, b_aabb, b_pos)) < abs_i(pen_y(a_aabb, a_pos, b_aabb, b_pos))
}

/// The signed displacement of body `a` when a penetration of `p` is
/// resolved between masses `ma` and `mb`: its mass-weighted share of the
/// penetration, rounded toward zero.
pub open spec fn disp_a(p: int, ma: int, mb: int) -> int {
    div_tz(p * ma, ma + mb)
}

/// The signed displacement of body `b`: the rest of the penetration, so
/// the two displacements together remove it exactly.
pub open spec fn disp_b(p: int, ma: int, mb: int) -> int {
    disp_a(p, ma, mb) - p
}

/// How a resolved pair relates to its pre-resolution state: positions
/// moved by the mass-weighted shares along the chosen axis only, and the
/// contact flag facing the other body set on each, by the sign of the
/// penetration. Note the share convention: each body's displacement
/// carries its own mass fraction of the penetration, so of two bodies
/// the heavier one is displaced further and a massless body not at all.
pub open spec fn spec_resolved(
    a0: MovingObject,
    b0: MovingObject,
    a1: MovingObject,
    b1: MovingObject,
    a_aabb: AABB,
    b_aabb: AABB,
) -> bool {
    let px = pen_x(a_aabb, a0.position, b_aabb, b0.position);
    let py = pen_y(a_aabb, a0.position, b_aabb, b0.position);
    if resolves_on_x(a_aabb, a0.position, b_aabb, b0.position) {
        &&& a1.position.value.x == a0.position.value.x + disp_a(px, a0.mass as int, b0.mass as int)
        &&& a1.position.value.y == a0.position.value.y
        &&& b1.position.value.x == b0.position.value.x + disp_b(px, a0.mass as int, b0.mass as int)
        &&& b1.position.value.y == b0.position.value.y
        &&& if px >= 0 {
            a1.state == (MovingObjectState { left: true, ..a0.state }) && b1.state
                == (MovingObjectState { right: true, ..b0.state })
        } else {
            a1.state == (MovingObjectState { right: true, ..a0.state }) && b1.state
                == (MovingObjectState { left: true, ..b0.state })
        }
    } else {
        &&& a1.position.value.y == a0.position.value.y + disp_a(py, a0.mass as int, b0.mass as int)
        &&& a1.position.value.x == a0.position.value.x
        &&& b1.position.value.y == b0.position.value.y + disp_b(py, a0.mass as int, b0.mass as int)
        &&& b1.position.value.x == b0.position.value.x
        &&& if py >= 0 {
            a1.state == (MovingObjectState { ground: true, ..a0.state }) && b1.state
                == (MovingObjectState { ceiling: true, ..b0.state })
        } else {
            a1.state == (MovingObjectState { ceiling: true, ..a0.state }) && b1.state
                == (MovingObjectState { ground: true, ..b0.state })
        }
    }
}

/// The mass-weighted share of a bounded penetration stays within it.
proof fn lemma_ratio_bound(p: int, m: int, t: int) by (nonlinear_arith)
    requires
        0 <= m <= t,
        t > 0,
    ensures
        abs_i(div_tz(p * m, t)) <= abs_i(p),
{
}

/// A body with its contact flags cleared, as the broad phase leaves
/// every massive body before resolution.
pub open spec fn with_clear_flags(m: MovingObject) -> MovingObject {
    MovingObject {
        state: MovingObjectState { right: false, left: false, ground: false, ceiling: false },
        ..m
    }
}

/// Where body `a` of a colliding pair stands after the pair resolves.
pub open spec fn resolved_pos_a(a0: MovingObject, b0: MovingObject, a_aabb: AABB, b_aabb: AABB) -> Position {
    let px = pen_x(a_aabb, a0.position, b_aabb, b0.position);
    let py = pen_y(a_aabb, a0.position, b_aabb, b0.position);
    if resolves_on_x(a_aabb, a0.position, b_aabb, b0.position) {
        Position {
            value: Vec2i {
                x: (a0.position.value.x + disp_a(px, a0.mass as int, b0.mass as int)) as i64,
                y: a0.position.value.y,
            },
        }
    } else {
        Position {
            value: Vec2i {
                x: a0.position.value.x,
                y: (a0.position.value.y + disp_a(py, a0.mass as int, b0.mass as int)) as i64,
            },
        }
    }
}

/// Where body `b` of a colliding pair stands after the pair resolves.
pub open spec fn resolved_pos_b(a0: MovingObject, b0: MovingObject, a_aabb: AABB, b_aabb: AABB) -> Position {
    let px = pen_x(a_aabb, a0.position, b_aabb, b0.position);
    let py = pen_y(a_aabb, a0.position, b_aabb, b0.position);
    if resolves_on_x(a_aabb, a0.position, b_aabb, b0.position) {
        Position {
            value: Vec2i {
                x: (b0.position.value.x + disp_b(px, a0.mass as int, b0.mass as int)) as i64,
                y: b0.position.value.y,
            },
        }
    } else {
        Position {
            value: Vec2i {
                x: b0.position.value.x,
                y: (b0.position.value.y + disp_b(py, a0.mass as int, b0.mass as int)) as i64,
            },
        }
    }
}

/// The contact flags body `a` gains from its pair's resolution: the
/// flag facing the other body on the resolved axis, by the sign rule.
pub open spec fn resolved_state_a(
    a0: MovingObject,
    b0: MovingObject,
    a_aabb: AABB,
    b_aabb: AABB,
) -> MovingObjectState {
    let px = pen_x(a_aabb, a0.position, b_aabb, b0.position);
    let py = pen_y(a_aabb, a0.position, b_aabb, b0.position);
    if resolves_on_x(a_aabb, a0.position, b_aabb, b0.position) {
        if px >= 0 {
            MovingObjectState { left: true, ..a0.state }
        } else {
            MovingObjectState { right: true, ..a0.state }
        }
    } else {
        if py >= 0 {
            MovingObjectState { ground: true, ..a0.state }
        } else {
            MovingObjectState { ceiling: true, ..a0.state }
        }
    }
}

/// The contact flags body `b` gains from its pair's resolution.
pub open spec fn resolved_state_b(
    a0: MovingObject,
    b0: MovingObject,
    a_aabb: AABB,
    b_aabb: AABB,
) -> MovingObjectState {
    let px = pen_x(a_aabb, a0.position, b_aabb, b0.position);
    let py = pen_y(a_aabb, a0.position, b_aabb, b0.position);
    if resolves_on_x(a_aabb, a0.position, b_aabb, b0.position) {
        if px >= 0 {
            MovingObjectState { right: true, ..b0.state }
        } else {
            MovingObjectState { left: true, ..b0.state }
        }
    } else {
        if py >= 0 {
            MovingObjectState { ceiling: true, ..b0.state }
        } else {
            MovingObjectState { ground: true, ..b0.state }
        }
    }
}

/// Body `a` of a colliding pair after its resolution: moved to its
/// mass-weighted position, contact flag set, everything else kept.
pub open spec fn resolved_body_a(
    a0: MovingObject,
    b0: MovingObject,
    a_aabb: AABB,
    b_aabb: AABB,
) -> MovingObject {
    MovingObject {
        position: resolved_pos_a(a0, b0, a_aabb, b_aabb),
        state: resolved_state_a(a0, b0, a_aabb, b_aabb),
        ..a0
    }
}

/// Body `b` of a colliding pair after its resolution.
pub open spec fn resolved_body_b(
    a0: MovingObject,
    b0: MovingObject,
    a_aabb: AABB,
    b_aabb: AABB,
) -> MovingObject {
    MovingObject {
        position: resolved_pos_b(a0, b0, a_aabb, b_aabb),
        state: resolved_state_b(a0, b0, a_aabb, b_aabb),
        ..b0
    }
}

/// Whether one broad-phase round acts: both indices name distinct live
/// bodies, not both static, both within the computable position range,
/// and the exact overlap test holds.
#[verifier::opaque]
pub open spec fn round_acts(bodies: Seq<MovingObject>, aabbs: Seq<AABB>, a: int, b: int) -> bool {
    &&& 0 <= a < bodies.len()
    &&& 0 <= b < bodies.len()
    &&& a != b
    &&& !(bodies[a].mass == 0 && bodies[b].mass == 0)
    &&& bodies[a].position.value.spec_in_range(POS_LIMIT as int)
    &&& bodies[b].position.value.spec_in_range(POS_LIMIT as int)
    &&& spec_collides(aabbs[a], bodies[a].position, aabbs[b], bodies[b].position)
}

/// What one round of the pair walk does to the bodies: nothing unless
/// it acts, else the pair is replaced by its resolution.
#[verifier::opaque]
pub open spec fn round_result(
    bodies: Seq<MovingObject>,
    aabbs: Seq<AABB>,
    a: int,
    b: int,
) -> Seq<MovingObject> {
    if round_acts(bodies, aabbs, a, b) {
        bodies.update(a, resolved_body_a(bodies[a], bodies[b], aabbs[a], aabbs[b])).update(
            b,
            resolved_body_b(bodies[a], bodies[b], aabbs[a], aabbs[b]),
        )
    } else {
        bodies
    }
}

/// The fold of a round log over the bodies, oldest round first.
#[verifier::opaque]
pub open spec fn rounds_result(
    bodies: Seq<MovingObject>,
    aabbs: Seq<AABB>,
    log: Seq<(int, int)>,
) -> Seq<MovingObject>
    decreases log.len(),
{
    if log.len() == 0 {
        bodies
    } else {
        round_result(
            rounds_result(bodies, aabbs, log.drop_last()),
            aabbs,
            log.last().0,
            log.last().1,
        )
    }
}

/// Every massive body with its contact flags cleared: the state the
/// broad phase leaves before any round runs.
pub open spec fn cleared_bodies(bodies: Seq<MovingObject>) -> Seq<MovingObject> {
    Seq::new(
        bodies.len(),
        |i: int|
            if bodies[i].mass != 0 {
                with_clear_flags(bodies[i])
            } else {
                bodies[i]
            },
    )
}

/// A body changed by a walk of rounds was party to a round that acted,
/// that is, to a pair that passed the exact overlap test at its moment.
/// With the walk starting from the cleared-flags state, a massive body
/// whose contact flags end set therefore owes them to an overlap of
/// this tick, never to history.
pub proof fn lemma_rounds_touch(
    bodies0: Seq<MovingObject>,
    aabbs: Seq<AABB>,
    log: Seq<(int, int)>,
    x: int,
)
    requires
        0 <= x < bodies0.len(),
    ensures
        rounds_result(bodies0, aabbs, log).len() == bodies0.len(),
        rounds_result(bodies0, aabbs, log)[x] == bodies0[x] || exists|r: int|
            0 <= r < log.len() && ((#[trigger] log[r]).0 == x || log[r].1 == x) && round_acts(
                rounds_result(bodies0, aabbs, log.take(r)),
                aabbs,
                log[r].0,
                log[r].1,
            ),
    decreases log.len(),
{
    reveal(rounds_result);
    reveal(round_result);
    reveal(round_acts);
    if log.len() == 0 {
        assert(rounds_result(bodies0, aabbs, log) == bodies0);
    } else {
        lemma_rounds_touch(bodies0, aabbs, log.drop_last(), x);
        let head = log.drop_last();
        let mid = rounds_result(bodies0, aabbs, head);
        let a = log.last().0;
        let b = log.last().1;
        let fin = rounds_result(bodies0, aabbs, log);
        assert(fin == round_result(mid, aabbs, a, b));
        assert(fin.len() == mid.len());
        assert(log.take(log.len() - 1) =~= head);
        if round_acts(mid, aabbs, a, b) && (a == x || b == x) {
            assert((#[trigger] log[log.len() - 1]).0 == a && log[log.len() - 1].1 == b);
        } else {
            assert(rounds_result(bodies0, aabbs, log)[x] == mid[x]);
            if mid[x] != bodies0[x] {
                let r0 = choose|r: int|
                    0 <= r < head.len() && ((#[trigger] head[r]).0 == x || head[r].1 == x)
                        && round_acts(
                        rounds_result(bodies0, aabbs, head.take(r)),
                        aabbs,
                        head[r].0,
                        head[r].1,
                    );
                assert(head.take(r0) =~= log.take(r0));
                assert((#[trigger] log[r0]).0 == head[r0].0 && log[r0].1 == head[r0].1);
            }
        }
    }
}

/// A placed box lies wholly inside the world box centered on the origin.
pub open spec fn span_in_world(world: AABB, shape: AABB, pos: Position) -> bool {
    &&& -world.halfsize.x <= pos.value.x - shape.halfsize.x
    &&& pos.value.x + shape.halfsize.x <= world.halfsize.x
    &&& -world.halfsize.y <= pos.value.y - shape.halfsize.y
    &&& pos.value.y + shape.halfsize.y <= world.halfsize.y
}

/// Which of an ordered colliding pair plays the `a` role in its
/// resolution: the lower-indexed body, unless it is static, since the
/// pass hands candidate pairs to the resolver from the first massive
/// body's list.
pub open spec fn pair_a_role(bodies: Seq<MovingObject>, i: int, j: int) -> int {
    if bodies[i].mass > 0 {
        i
    } else {
        j
    }
}

/// Whether bodies `i < j` form the scene's one isolated colliding pair:
/// they overlap under the exact test and at least one has mass; both
/// boxes lie inside the world; no other pair with mass overlaps; and no
/// third body overlaps either of the two, at their current positions or
/// at the positions their resolution produces.
#[verifier::opaque]
pub open spec fn isolated_pair(
    bodies: Seq<MovingObject>,
    aabbs: Seq<AABB>,
    world: AABB,
    i: int,
    j: int,
) -> bool {
    let a = pair_a_role(bodies, i, j);
    let b = i + j - a;
    let ra = resolved_pos_a(bodies[a], bodies[b], aabbs[a], aabbs[b]);
    let rb = resolved_pos_b(bodies[a], bodies[b], aabbs[a], aabbs[b]);
    &&& 0 <= i < j < bodies.len()
    &&& bodies[i].mass + bodies[j].mass > 0
    &&& spec_collides(aabbs[i], bodies[i].position, aabbs[j], bodies[j].position)
    &&& span_in_world(world, aabbs[i], bodies[i].position)
    &&& span_in_world(world, aabbs[j], bodies[j].position)
    &&& (forall|k: int, l: int|
        0 <= k < bodies.len() && 0 <= l < bodies.len() && k != l && !(k == i && l == j) && !(k
            == j && l == i) && bodies[k].mass + bodies[l].mass > 0 ==> !spec_collides(
            aabbs[k],
            bodies[k].position,
            aabbs[l],
            bodies[l].position,
        ))
    &&& (forall|k: int|
        0 <= k < bodies.len() && k != i && k != j ==> !spec_collides(
            aabbs[k],
            bodies[k].position,
            aabbs[a],
            ra,
        ) && !spec_collides(aabbs[k], bodies[k].position, aabbs[b], rb))
}

/// What holds of the pair once the pass has resolved it: the resolution
/// relation from the broad-phase state, no remaining overlap, and all
/// other fields untouched.
spec fn pair_done(
    mid: Seq<MovingObject>,
    cur: Seq<MovingObject>,
    aabbs: Seq<AABB>,
    a: int,
    b: int,
) -> bool {
    &&& spec_resolved(mid[a], mid[b], cur[a], cur[b], aabbs[a], aabbs[b])
    &&& !spec_collides(aabbs[a], cur[a].position, aabbs[b], cur[b].position)
    &&& cur[a].mass == mid[a].mass
    &&& cur[a].velocity == mid[a].velocity
    &&& cur[a].old_position == mid[a].old_position
    &&& cur[a].old_velocity == mid[a].old_velocity
    &&& cur[a].old_state == mid[a].old_state
    &&& cur[b].mass == mid[b].mass
    &&& cur[b].velocity == mid[b].velocity
    &&& cur[b].old_position == mid[b].old_position
    &&& cur[b].old_velocity == mid[b].old_velocity
    &&& cur[b].old_state == mid[b].old_state
}

/// The exact overlap test does not depend on the order of the pair.
proof fn lemma_collides_symm(a_aabb: AABB, pa: Position, b_aabb: AABB, pb: Position)
    ensures
        spec_collides(a_aabb, pa, b_aabb, pb) == spec_collides(b_aabb, pb, a_aabb, pa),
{
}

/// A resolved pair's new positions are the `resolved_pos` values: the
/// bounds make the constructions exact.
proof fn lemma_resolved_pos(
    a0: MovingObject,
    b0: MovingObject,
    a_aabb: AABB,
    b_aabb: AABB,
    a1: MovingObject,
    b1: MovingObject,
)
    requires
        spec_resolved(a0, b0, a1, b1, a_aabb, b_aabb),
        a_aabb.wf(),
        b_aabb.wf(),
        a0.position.value.spec_in_range(POS_LIMIT as int),
        b0.position.value.spec_in_range(POS_LIMIT as int),
        0 <= a0.mass <= MASS_LIMIT,
        0 <= b0.mass <= MASS_LIMIT,
        a0.mass + b0.mass > 0,
        spec_collides(a_aabb, a0.position, b_aabb, b0.position),
    ensures
        a1.position == resolved_pos_a(a0, b0, a_aabb, b_aabb),
        b1.position == resolved_pos_b(a0, b0, a_aabb, b_aabb),
{
    let px = pen_x(a_aabb, a0.position, b_aabb, b0.position);
    let py = pen_y(a_aabb, a0.position, b_aabb, b0.position);
    assert(abs_i(px) <= a_aabb.halfsize.x + b_aabb.halfsize.x);
    assert(abs_i(py) <= a_aabb.halfsize.y + b_aabb.halfsize.y);
    lemma_ratio_bound(px, a0.mass as int, a0.mass + b0.mass);
    lemma_ratio_bound(py, a0.mass as int, a0.mass + b0.mass);
}

/// Any overlapping in-world pair is reachable from the massive member's
/// query: the partner is stored, the query gate passes, and the query
/// result names the partner.
proof fn lemma_pair_candidate(
    tree: crate::quadtree::Quadtree,
    pre: Seq<MovingObject>,
    aabbs: Seq<AABB>,
    world: AABB,
    m: int,
    p: int,
)
    requires
        tree.wf(),
        tree.spec_boundary() == world,
        tree.spec_center() == (Position { value: Vec2i { x: 0, y: 0 } }),
        aabbs.len() == pre.len(),
        forall|i: int| 0 <= i < aabbs.len() ==> (#[trigger] aabbs[i]).wf(),
        forall|i: int|
            0 <= i < pre.len() ==> (#[trigger] pre[i]).position.value.spec_in_range(LIMIT as int),
        0 <= m < pre.len(),
        0 <= p < pre.len(),
        m != p,
        spec_collides(aabbs[m], pre[m].position, aabbs[p], pre[p].position),
        span_in_world(world, aabbs[m], pre[m].position),
        span_in_world(world, aabbs[p], pre[p].position),
        tree.contains_entry(
            crate::quadtree::Entry { id: p as u64, aabb: Some(aabbs[p]), position: pre[p].position },
        ),
    ensures
        spec_collides(tree.spec_boundary(), tree.spec_center(), aabbs[m], pre[m].position),
        tree.query_seq(aabbs[m], pre[m].position).contains(p as u64),
{
    let e = crate::quadtree::Entry {
        id: p as u64,
        aabb: Some(aabbs[p]),
        position: pre[p].position,
    };
    tree.lemma_query_superset(e, aabbs[m], pre[m].position);
}

/// Once the pass has resolved the isolated pair and left every other
/// body in its broad-phase state, the promised pair outcome follows.
proof fn lemma_iso_conclude(
    pre: Seq<MovingObject>,
    mid: Seq<MovingObject>,
    fin: Seq<MovingObject>,
    aabbs: Seq<AABB>,
    world: AABB,
    gi: int,
    gj: int,
)
    requires
        0 <= gi < gj < pre.len(),
        isolated_pair(pre, aabbs, world, gi, gj),
        mid.len() == pre.len(),
        fin.len() == pre.len(),
        forall|j: int|
            0 <= j < pre.len() ==> {
                let md = (#[trigger] mid[j]);
                &&& md.mass == pre[j].mass
                &&& md.velocity == pre[j].velocity
                &&& md.position == pre[j].position
                &&& md.old_position == pre[j].old_position
                &&& md.old_velocity == pre[j].old_velocity
                &&& md.old_state == pre[j].old_state
                &&& (pre[j].mass == 0 ==> md.state == pre[j].state)
                &&& (pre[j].mass != 0 ==> md.state == (MovingObjectState {
                    right: false,
                    left: false,
                    ground: false,
                    ceiling: false,
                }))
            },
        forall|i: int| 0 <= i < pre.len() ==> 0 <= (#[trigger] pre[i]).mass,
        pair_done(mid, fin, aabbs, pair_a_role(pre, gi, gj), gi + gj - pair_a_role(pre, gi, gj)),
        forall|x: int| 0 <= x < pre.len() && x != gi && x != gj ==> (#[trigger] fin[x]) == mid[x],
    ensures
        ({
            let a = pair_a_role(pre, gi, gj);
            let b = gi + gj - a;
            &&& spec_resolved(
                with_clear_flags(pre[a]),
                (if pre[b].mass > 0 {
                    with_clear_flags(pre[b])
                } else {
                    pre[b]
                }),
                fin[a],
                fin[b],
                aabbs[a],
                aabbs[b],
            )
            &&& !spec_collides(aabbs[gi], fin[gi].position, aabbs[gj], fin[gj].position)
            &&& (forall|k: int|
                0 <= k < pre.len() && k != gi && k != gj ==> {
                    let post = (#[trigger] fin[k]);
                    &&& post.position == pre[k].position
                    &&& (pre[k].mass != 0 ==> post.state == (MovingObjectState {
                        right: false,
                        left: false,
                        ground: false,
                        ceiling: false,
                    }))
                    &&& (pre[k].mass == 0 ==> post.state == pre[k].state)
                })
        }),
{
    reveal(isolated_pair);
    let a = pair_a_role(pre, gi, gj);
    let b = gi + gj - a;
    assert(mid[a] =~= with_clear_flags(pre[a]));
    assert(mid[b] =~= (if pre[b].mass > 0 {
        with_clear_flags(pre[b])
    } else {
        pre[b]
    }));
    lemma_collides_symm(aabbs[a], fin[a].position, aabbs[b], fin[b].position);
}

/// A resolved pair's records are exactly the constructive
/// `resolved_body` values, given the resolver's frame conditions.
proof fn lemma_resolved_bodies(
    a0: MovingObject,
    b0: MovingObject,
    a_aabb: AABB,
    b_aabb: AABB,
    a1: MovingObject,
    b1: MovingObject,
)
    requires
        spec_resolved(a0, b0, a1, b1, a_aabb, b_aabb),
        a_aabb.wf(),
        b_aabb.wf(),
        a0.position.value.spec_in_range(POS_LIMIT as int),
        b0.position.value.spec_in_range(POS_LIMIT as int),
        0 <= a0.mass <= MASS_LIMIT,
        0 <= b0.mass <= MASS_LIMIT,
        a0.mass + b0.mass > 0,
        spec_collides(a_aabb, a0.position, b_aabb, b0.position),
        a1.mass == a0.mass,
        a1.velocity == a0.velocity,
        a1.old_position == a0.old_position,
        a1.old_velocity == a0.old_velocity,
        a1.old_state == a0.old_state,
        b1.mass == b0.mass,
        b1.velocity == b0.velocity,
        b1.old_position == b0.old_position,
        b1.old_velocity == b0.old_velocity,
        b1.old_state == b0.old_state,
    ensures
        a1 == resolved_body_a(a0, b0, a_aabb, b_aabb),
        b1 == resolved_body_b(a0, b0, a_aabb, b_aabb),
{
    lemma_resolved_pos(a0, b0, a_aabb, b_aabb, a1, b1);
    assert(a1 =~= resolved_body_a(a0, b0, a_aabb, b_aabb));
    assert(b1 =~= resolved_body_b(a0, b0, a_aabb, b_aabb));
}

/// The mass-weighted split law: the two shares of a resolved
/// penetration together remove it in full, and a zero-mass body is
/// never displaced.
pub proof fn lemma_mass_weighted_split(p: int, ma: int, mb: int)
    requires
        0 <= ma,
        0 <= mb,
        ma + mb > 0,
    ensures
        disp_a(p, ma, mb) - disp_b(p, ma, mb) == p,
        ma == 0 ==> disp_a(p, ma, mb) == 0,
        mb == 0 ==> disp_b(p, ma, mb) == 0,
{
    if ma == 0 {
        assert(p * 0 == 0) by (nonlinear_arith);
        assert(div_tz(0, ma + mb) == 0);
    }
    if mb == 0 {
        lemma_div_exact(p, ma);
    }
}

/// Resolves one candidate pair. If the exact overlap test fails or both
/// masses are zero, neither body is touched. Otherwise the axis of
/// smaller absolute penetration is resolved: each body moves by its
/// mass-weighted share of the penetration (so a zero-mass body never
/// moves, and together they remove the penetration in full), contact
/// flags are set by the sign convention, and the overlap is gone: the
/// exact overlap test on the resolved pair is false.
#[verifier::rlimit(100)]
#[verifier::spinoff_prover]
pub fn correct_collisions(
    a_moving_object: &mut MovingObject,
    a_aabb: &AABB,
    b_moving_object: &mut MovingObject,
    b_aabb: &AABB,
)
    requires
        a_aabb.wf(),
        b_aabb.wf(),
        old(a_moving_object).position.value.spec_in_range(POS_LIMIT as int),
        old(b_moving_object).position.value.spec_in_range(POS_LIMIT as int),
        0 <= old(a_moving_object).mass <= MASS_LIMIT,
        0 <= old(b_moving_object).mass <= MASS_LIMIT,
    ensures
        final(a_moving_object).mass == old(a_moving_object).mass,
        final(a_moving_object).velocity == old(a_moving_object).velocity,
        final(a_moving_object).old_position == old(a_moving_object).old_position,
        final(a_moving_object).old_velocity == old(a_moving_object).old_velocity,
        final(a_moving_object).old_state == old(a_moving_object).old_state,
        final(b_moving_object).mass == old(b_moving_object).mass,
        final(b_moving_object).velocity == old(b_moving_object).velocity,
        final(b_moving_object).old_position == old(b_moving_object).old_position,
        final(b_moving_object).old_velocity == old(b_moving_object).old_velocity,
        final(b_moving_object).old_state == old(b_moving_object).old_state,
        !(spec_collides(*a_aabb, old(a_moving_object).position, *b_aabb, old(b_moving_object).position)
            && old(a_moving_object).mass + old(b_moving_object).mass > 0) ==> {
            &&& *final(a_moving_object) == *old(a_moving_object)
            &&& *final(b_moving_object) == *old(b_moving_object)
        },
        (spec_collides(*a_aabb, old(a_moving_object).position, *b_aabb, old(b_moving_object).position)
            && old(a_moving_object).mass + old(b_moving_object).mass > 0) ==> {
            &&& spec_resolved(
                *old(a_moving_object),
                *old(b_moving_object),
                *final(a_moving_object),
                *final(b_moving_object),
                *a_aabb,
                *b_aabb,
            )
            &&& !spec_collides(
                *a_aabb,
                final(a_moving_object).position,
                *b_aabb,
                final(b_moving_object).position,
            )
        },
{
    let a_pos = a_moving_object.position;
    let b_pos = b_moving_object.position;
    let total_mass = a_moving_object.mass + b_moving_object.mass;
    if total_mass == 0 {
        return ;
    }
    if let Some(p) = penetration_depth(a_aabb, a_pos, b_aabb, b_pos) {
        proof {
            assert(abs_i(p.x as int) <= a_aabb.halfsize.x + b_aabb.halfsize.x);
            assert(abs_i(p.y as int) <= a_aabb.halfsize.y + b_aabb.halfsize.y);
            lemma_ratio_bound(p.x as int, a_moving_object.mass as int, total_mass as int);
            lemma_ratio_bound(p.y as int, a_moving_object.mass as int, total_mass as int);
            crate::physics::lemma_mul_bound(
                p.x as int,
                a_moving_object.mass as int,
                2 * LIMIT as int,
                MASS_LIMIT as int,
            );
            crate::physics::lemma_mul_bound(
                p.y as int,
                a_moving_object.mass as int,
                2 * LIMIT as int,
                MASS_LIMIT as int,
            );
        }
        let pax = if p.x < 0 {
            -p.x
        } else {
            p.x
        };
        let pay = if p.y < 0 {
            -p.y
        } else {
            p.y
        };
        if pax < pay {
            let da = (p.x * a_moving_object.mass) / total_mass;
            let db = da - p.x;
            a_moving_object.position.value.x = a_moving_object.position.value.x + da;
            b_moving_object.position.value.x = b_moving_object.position.value.x + db;
            if p.x >= 0 {
                a_moving_object.state.left = true;
                b_moving_object.state.right = true;
            } else {
                a_moving_object.state.right = true;
                b_moving_object.state.left = true;
            }
        } else {
            let da = (p.y * a_moving_object.mass) / total_mass;
            let db = da - p.y;
            a_moving_object.position.value.y = a_moving_object.position.value.y + da;
            b_moving_object.position.value.y = b_moving_object.position.value.y + db;
            if p.y >= 0 {
                a_moving_object.state.ground = true;
                b_moving_object.state.ceiling = true;
            } else {
                a_moving_object.state.ceiling = true;
                b_moving_object.state.ground = true;
            }
        }
    }
}

/// A divisor divides its own multiples exactly.
proof fn lemma_div_exact(p: int, t: int) by (nonlinear_arith)
    requires
        t > 0,
    ensures
        div_tz(p * t, t) == p,
{
}

/// Sorts candidate ids ascending, keeping exactly the same ids.
#[verifier::loop_isolation(false)]
fn sort_ids(v: &Vec<u64>) -> (out: Vec<u64>)
    ensures
        out@.len() == v@.len(),
        forall|i: int, j: int| 0 <= i <= j < out@.len() ==> out@[i] <= out@[j],
        forall|x: u64| out@.contains(x) <==> v@.contains(x),
{
    broadcast use vstd::seq_lib::group_seq_properties;

    let mut out: Vec<u64> = Vec::new();
    let n = v.len();
    let mut i: usize = 0;
    while i < n
        invariant
            0 <= i <= n,
            out@.len() == i,
            forall|p: int, q: int| 0 <= p <= q < out@.len() ==> out@[p] <= out@[q],
            forall|x: u64| out@.contains(x) <==> v@.take(i as int).contains(x),
        decreases n - i,
    {
        let x = v[i];
        let mut j: usize = 0;
        while j < out.len() && out[j] <= x
            invariant
                0 <= j <= out@.len(),
                forall|k: int| 0 <= k < j ==> out@[k] <= x,
            decreases out@.len() - j,
        {
            j = j + 1;
        }
        let ghost pre = out@;
        out.insert(j, x);
        proof {
            pre.insert_ensures(j as int, x);
            assert(v@.take(i as int).push(x) =~= v@.take(i + 1 as int));
            assert forall|p: int, q: int| 0 <= p <= q < out@.len() implies out@[p] <= out@[q] by {
                if j < pre.len() {
                    assert(pre[j as int] > x);
                }
            }
            assert forall|y: u64| out@.contains(y) implies v@.take(i + 1 as int).contains(y) by {
                let k = choose|k: int| 0 <= k < out@.len() && out@[k] == y;
                if k < j {
                    assert(pre[k] == y);
                    assert(pre.contains(y));
                } else if k == j {
                    assert(y == x);
                    assert(v@.take(i + 1 as int).last() == x);
                } else {
                    assert(pre[k - 1] == y);
                    assert(pre.contains(y));
                }
            }
            assert forall|y: u64| v@.take(i + 1 as int).contains(y) implies out@.contains(y) by {
                if v@.take(i as int).contains(y) {
                    assert(pre.contains(y));
                    let k = choose|k: int| 0 <= k < pre.len() && pre[k] == y;
                    assert(0 <= k < pre.len() && pre[k] == y);
                    assert(out@ == pre.insert(j as int, x));
                    if k < j {
                        assert(pre.insert(j as int, x)[k] == pre[k]);
                        assert(out@[k] == y);
                    } else {
                        assert(pre.insert(j as int, x)[k + 1] == pre[k]);
                        assert(out@[k + 1] == y);
                    }
                } else {
                    assert(y == x);
                    assert(out@[j as int] == x);
                }
            }
        }
        i = i + 1;
    }
    proof {
        assert(v@.take(n as int) =~= v@);
    }
    out
}

/// Removes adjacent duplicates from an ascending id list, leaving each
/// id exactly once.
#[verifier::loop_isolation(false)]
fn dedup_ids(v: &Vec<u64>) -> (out: Vec<u64>)
    requires
        forall|i: int, j: int| 0 <= i <= j < v@.len() ==> v@[i] <= v@[j],
    ensures
        forall|x: u64| out@.contains(x) <==> v@.contains(x),
        forall|i: int, j: int| 0 <= i < j < out@.len() ==> out@[i] != out@[j],
{
    broadcast use vstd::seq_lib::group_seq_properties;

    let mut out: Vec<u64> = Vec::new();
    let n = v.len();
    let mut i: usize = 0;
    while i < n
        invariant
            0 <= i <= n,
            forall|p: int, q: int| 0 <= p < q < out@.len() ==> out@[p] < out@[q],
            forall|x: u64| out@.contains(x) <==> v@.take(i as int).contains(x),
            i > 0 && out@.len() > 0 ==> out@.last() <= v@[i - 1],
            i > 0 ==> out@.len() > 0,
        decreases n - i,
    {
        let x = v[i];
        proof {
            assert(v@.take(i as int).push(x) =~= v@.take(i + 1 as int));
        }
        if out.len() == 0 || out[out.len() - 1] != x {
            let ghost pre = out@;
            out.push(x);
            proof {
                assert forall|p: int, q: int| 0 <= p < q < out@.len() implies out@[p] < out@[q] by {
                    if q == out@.len() - 1 && pre.len() > 0 {
                        assert(pre[p] <= pre.last());
                        assert(pre.last() < x || pre.last() > x);
                        if pre.last() > x {
                            assert(pre.contains(pre.last()));
                            let k = choose|k: int|
                                0 <= k < i && v@.take(i as int)[k] == pre.last();
                            assert(v@[k] <= v@[i as int]);
                            assert(false);
                        }
                    }
                }
            }
        } else {
            proof {
                assert(out@.contains(x)) by {
                    assert(out@.last() == x);
                }
            }
        }
        i = i + 1;
    }
    proof {
        assert(v@.take(n as int) =~= v@);
    }
    out
}

/// One tick's collision pass. The quadtree is rebuilt over every body's
/// box, each body with nonzero mass has its contact flags cleared and a
/// deduplicated candidate list gathered from the index, and every
/// candidate pair that still overlaps under the exact test is resolved.
/// Masses, velocities and the previous-tick shadows are never touched,
/// and a body of mass zero never has its position adjusted.
///
/// The returned ghost witness is the log of broad-phase rounds in walk
/// order: the final state is exactly the fold of resolve-or-skip over
/// that log from the cleared-flags state, every logged round is led by a
/// massive body, and every overlapping massive pair whose boxes lie in
/// the world is named by some round. So no true overlap misses the
/// narrow phase, and, by `lemma_rounds_touch`, contact flags reflect
/// only this tick's actual overlaps, never history.
#[verifier::rlimit(100)]
#[verifier::spinoff_prover]
#[verifier::loop_isolation(false)]
pub fn collisions(
    aabbs: &Vec<AABB>,
    bodies: &mut Vec<MovingObject>,
    map_aabb: &AABB,
    capacity: usize,
) -> (wit: Ghost<Seq<(int, int)>>)
    requires
        aabbs@.len() == old(bodies)@.len(),
        map_aabb.wf(),
        forall|i: int| 0 <= i < aabbs@.len() ==> (#[trigger] aabbs@[i]).wf(),
        forall|i: int|
            0 <= i < old(bodies)@.len() ==> (#[trigger] old(
                bodies,
            )@[i]).position.value.spec_in_range(LIMIT as int) && 0 <= old(bodies)@[i].mass
                <= MASS_LIMIT,
    ensures
        final(bodies)@.len() == old(bodies)@.len(),
        forall|i: int|
            0 <= i < old(bodies)@.len() ==> {
                let pre = old(bodies)@[i];
                let post = (#[trigger] final(bodies)@[i]);
                &&& post.mass == pre.mass
                &&& post.velocity == pre.velocity
                &&& post.old_position == pre.old_position
                &&& post.old_velocity == pre.old_velocity
                &&& post.old_state == pre.old_state
                &&& (pre.mass == 0 ==> post.position == pre.position)
            },
        (forall|i: int, j: int|
            0 <= i < old(bodies)@.len() && 0 <= j < old(bodies)@.len() && i != j && old(
                bodies,
            )@[i].mass + old(bodies)@[j].mass > 0 ==> !spec_collides(
                aabbs@[i],
                old(bodies)@[i].position,
                aabbs@[j],
                old(bodies)@[j].position,
            )) ==> forall|i: int|
            0 <= i < old(bodies)@.len() ==> {
                let pre = old(bodies)@[i];
                let post = (#[trigger] final(bodies)@[i]);
                &&& post.position == pre.position
                &&& (pre.mass != 0 ==> post.state == (MovingObjectState {
                    right: false,
                    left: false,
                    ground: false,
                    ceiling: false,
                }))
                &&& (pre.mass == 0 ==> post.state == pre.state)
            },
        final(bodies)@ == rounds_result(cleared_bodies(old(bodies)@), aabbs@, wit@),
        forall|r: int|
            0 <= r < wit@.len() ==> {
                let rd = (#[trigger] wit@[r]);
                &&& 0 <= rd.0 < old(bodies)@.len()
                &&& old(bodies)@[rd.0].mass != 0
                &&& 0 <= rd.1
            },
        forall|i: int, j: int|
            0 <= i < old(bodies)@.len() && 0 <= j < old(bodies)@.len() && i != j && old(
                bodies,
            )@[i].mass + old(bodies)@[j].mass > 0 && #[trigger] spec_collides(
                aabbs@[i],
                old(bodies)@[i].position,
                aabbs@[j],
                old(bodies)@[j].position,
            ) && span_in_world(*map_aabb, aabbs@[i], old(bodies)@[i].position) && span_in_world(
                *map_aabb,
                aabbs@[j],
                old(bodies)@[j].position,
            ) ==> exists|r: int|
                0 <= r < wit@.len() && ((#[trigger] wit@[r]) == (i, j) || wit@[r] == (j, i)),
        forall|i: int, j: int|
            0 <= i < j < old(bodies)@.len() && #[trigger] isolated_pair(
                old(bodies)@,
                aabbs@,
                *map_aabb,
                i,
                j,
            ) ==> {
                let a = pair_a_role(old(bodies)@, i, j);
                let b = i + j - a;
                &&& spec_resolved(
                    with_clear_flags(old(bodies)@[a]),
                    (if old(bodies)@[b].mass > 0 {
                        with_clear_flags(old(bodies)@[b])
                    } else {
                        old(bodies)@[b]
                    }),
                    final(bodies)@[a],
                    final(bodies)@[b],
                    aabbs@[a],
                    aabbs@[b],
                )
                &&& !spec_collides(
                    aabbs@[i],
                    final(bodies)@[i].position,
                    aabbs@[j],
                    final(bodies)@[j].position,
                )
                &&& (forall|k: int|
                    0 <= k < old(bodies)@.len() && k != i && k != j ==> {
                        let post = (#[trigger] final(bodies)@[k]);
                        &&& post.position == old(bodies)@[k].position
                        &&& (old(bodies)@[k].mass != 0 ==> post.state == (MovingObjectState {
                            right: false,
                            left: false,
                            ground: false,
                            ceiling: false,
                        }))
                        &&& (old(bodies)@[k].mass == 0 ==> post.state == old(bodies)@[k].state)
                    })
            },
{
    let ghost pre_bodies = old(bodies)@;
    let ghost hyp = forall|i: int, j: int|
        0 <= i < pre_bodies.len() && 0 <= j < pre_bodies.len() && i != j && pre_bodies[i].mass
            + pre_bodies[j].mass > 0 ==> !spec_collides(
            aabbs@[i],
            pre_bodies[i].position,
            aabbs@[j],
            pre_bodies[j].position,
        );
    let n = bodies.len();
    let mut items: Vec<(u64, Option<AABB>, Position)> = Vec::new();
    let mut i: usize = 0;
    while i < n
        invariant
            0 <= i <= n,
            items@.len() == i,
            bodies@ == pre_bodies,
            forall|j: int|
                0 <= j < i ==> {
                    let it = (#[trigger] items@[j]);
                    &&& it.0 == j as u64
                    &&& it.1 == Some(aabbs@[j])
                    &&& it.2 == bodies@[j].position
                    &&& crate::quadtree::entry_ok(
                        crate::quadtree::Entry { id: it.0, aabb: it.1, position: it.2 },
                    )
                },
        decreases n - i,
    {
        items.push(((i as u64), Some(aabbs[i]), bodies[i].position));
        i = i + 1;
    }
    let quadtree = crate::quadtree::build_quadtree(&items, map_aabb, capacity);
    let mut checks: Vec<(usize, Vec<u64>)> = Vec::new();
    let mut i2: usize = 0;
    while i2 < n
        invariant
            0 <= i2 <= n,
            bodies@.len() == n,
            quadtree.wf(),
            forall|j: int| 0 <= j < checks@.len() ==> (#[trigger] checks@[j]).0 < n,
            forall|c1: int, c2: int|
                0 <= c1 < c2 < checks@.len() ==> (#[trigger] checks@[c1]).0 < (
                #[trigger] checks@[c2]).0,
            forall|cc: int|
                0 <= cc < checks@.len() ==> {
                    let ch = (#[trigger] checks@[cc]);
                    &&& ch.0 < i2
                    &&& pre_bodies[ch.0 as int].mass != 0
                    &&& (forall|x: u64|
                        ch.1@.contains(x) <==> (spec_collides(
                            quadtree.spec_boundary(),
                            quadtree.spec_center(),
                            aabbs@[ch.0 as int],
                            pre_bodies[ch.0 as int].position,
                        ) && quadtree.query_seq(
                            aabbs@[ch.0 as int],
                            pre_bodies[ch.0 as int].position,
                        ).contains(x)))
                    &&& (forall|p: int, q: int| 0 <= p < q < ch.1@.len() ==> ch.1@[p] != ch.1@[q])
                },
            forall|idx: int|
                0 <= idx < i2 && pre_bodies[idx].mass != 0 ==> exists|cc: int|
                    0 <= cc < checks@.len() && (#[trigger] checks@[cc]).0 == idx,
            forall|j: int|
                0 <= j < n ==> {
                    let pre = pre_bodies[j];
                    let post = (#[trigger] bodies@[j]);
                    &&& post.mass == pre.mass
                    &&& post.velocity == pre.velocity
                    &&& post.position == pre.position
                    &&& post.old_position == pre.old_position
                    &&& post.old_velocity == pre.old_velocity
                    &&& post.old_state == pre.old_state
                    &&& (pre.mass == 0 ==> post.state == pre.state)
                    &&& (pre.mass != 0 && j < i2 ==> post.state == (MovingObjectState {
                        right: false,
                        left: false,
                        ground: false,
                        ceiling: false,
                    }))
                    &&& (pre.mass != 0 && j >= i2 ==> post.state == pre.state)
                },
        decreases n - i2,
    {
        let mut b = bodies[i2];
        if b.mass != 0 {
            b.state.left = false;
            b.state.right = false;
            b.state.ground = false;
            b.state.ceiling = false;
            bodies.set(i2, b);
            let mut to_check_collision: Vec<u64> = Vec::new();
            quadtree.query(&aabbs[i2], b.position, &mut to_check_collision);
            let sorted = sort_ids(&to_check_collision);
            let deduped = dedup_ids(&sorted);
            let ghost checks_pre = checks@;
            checks.push((i2, deduped));
            proof {
                assert forall|cc: int| 0 <= cc < checks@.len() implies {
                    let ch = (#[trigger] checks@[cc]);
                    &&& ch.0 < i2 + 1
                    &&& pre_bodies[ch.0 as int].mass != 0
                    &&& (forall|x: u64|
                        ch.1@.contains(x) <==> (spec_collides(
                            quadtree.spec_boundary(),
                            quadtree.spec_center(),
                            aabbs@[ch.0 as int],
                            pre_bodies[ch.0 as int].position,
                        ) && quadtree.query_seq(
                            aabbs@[ch.0 as int],
                            pre_bodies[ch.0 as int].position,
                        ).contains(x)))
                    &&& (forall|p: int, q: int| 0 <= p < q < ch.1@.len() ==> ch.1@[p] != ch.1@[q])
                } by {
                    if cc < checks_pre.len() {
                        assert(checks@[cc] == checks_pre[cc]);
                    } else {
                        assert(checks@[cc] == (i2, deduped));
                        assert forall|x: u64| deduped@.contains(x) implies (spec_collides(
                            quadtree.spec_boundary(),
                            quadtree.spec_center(),
                            aabbs@[i2 as int],
                            pre_bodies[i2 as int].position,
                        ) && quadtree.query_seq(
                            aabbs@[i2 as int],
                            pre_bodies[i2 as int].position,
                        ).contains(x)) by {
                            assert(to_check_collision@.contains(x));
                        }
                    }
                }
                assert forall|idx: int|
                    0 <= idx < i2 + 1 && pre_bodies[idx].mass != 0 implies exists|cc: int|
                        0 <= cc < checks@.len() && (#[trigger] checks@[cc]).0 == idx by {
                    if idx == i2 {
                        assert(checks@[checks_pre.len() as int].0 == idx);
                    } else {
                        let cc0 = choose|cc: int|
                            0 <= cc < checks_pre.len() && (#[trigger] checks_pre[cc]).0 == idx;
                        assert(checks@[cc0].0 == idx);
                    }
                }
            }
        }
        i2 = i2 + 1;
    }
    let ghost mid_bodies = bodies@;
    let ghost iso = exists|i: int, j: int|
        0 <= i < j < pre_bodies.len() && isolated_pair(pre_bodies, aabbs@, *map_aabb, i, j);
    let ghost (gi, gj): (int, int) = if iso {
        choose|i: int, j: int|
            0 <= i < j < pre_bodies.len() && isolated_pair(pre_bodies, aabbs@, *map_aabb, i, j)
    } else {
        (0int, 0int)
    };
    let ghost ga = pair_a_role(pre_bodies, gi, gj);
    let ghost gb = gi + gj - ga;
    let ghost c_a: int = if iso {
        choose|cc: int| 0 <= cc < checks@.len() && (#[trigger] checks@[cc]).0 == ga
    } else {
        0int
    };
    proof {
        if iso {
            assert(pre_bodies[ga].mass > 0 && 0 <= ga < n && 0 <= gb < n && ga != gb) by {
                reveal(isolated_pair);
                assert(isolated_pair(pre_bodies, aabbs@, *map_aabb, gi, gj));
            }
            assert(0 <= c_a < checks@.len() && checks@[c_a].0 == ga) by {
                assert(exists|cc: int|
                    0 <= cc < checks@.len() && (#[trigger] checks@[cc]).0 == ga);
            }
            assert(checks@[c_a].1@.contains(gb as u64)) by {
                reveal(isolated_pair);
                let e = crate::quadtree::Entry {
                    id: gb as u64,
                    aabb: Some(aabbs@[gb]),
                    position: pre_bodies[gb].position,
                };
                assert(quadtree.contains_entry(e)) by {
                    assert(items@[gb] == ((gb as u64), Some(aabbs@[gb]), pre_bodies[
                    gb].position));
                    assert(crate::quadtree::node_accepts(
                        quadtree.spec_boundary(),
                        quadtree.spec_center(),
                        e,
                    ));
                }
                lemma_collides_symm(
                    aabbs@[gi],
                    pre_bodies[gi].position,
                    aabbs@[gj],
                    pre_bodies[gj].position,
                );
                lemma_pair_candidate(quadtree, pre_bodies, aabbs@, *map_aabb, ga, gb);
            }
        }
    }
    proof {
        assert(bodies@ =~= cleared_bodies(pre_bodies)) by {
            assert forall|x: int|
                0 <= x < n implies bodies@[x] == cleared_bodies(pre_bodies)[x] by {
                if pre_bodies[x].mass != 0 {
                    assert(bodies@[x] =~= with_clear_flags(pre_bodies[x]));
                } else {
                    assert(bodies@[x] =~= pre_bodies[x]);
                }
            }
        }
    }
    let w = resolve_pairs(
        aabbs,
        bodies,
        &checks,
        Ghost(pre_bodies),
        Ghost(*map_aabb),
        Ghost(iso),
        Ghost(gi),
        Ghost(gj),
        Ghost(c_a),
    );
    proof {
        assert forall|i: int, j: int|
            0 <= i < n && 0 <= j < n && i != j && pre_bodies[i].mass + pre_bodies[j].mass > 0
                && #[trigger] spec_collides(
                aabbs@[i],
                pre_bodies[i].position,
                aabbs@[j],
                pre_bodies[j].position,
            ) && span_in_world(*map_aabb, aabbs@[i], pre_bodies[i].position) && span_in_world(
                *map_aabb,
                aabbs@[j],
                pre_bodies[j].position,
            ) implies exists|r: int|
            0 <= r < w@.len() && ((#[trigger] w@[r]) == (i, j) || w@[r] == (j, i)) by {
            let m = if pre_bodies[i].mass != 0 {
                i
            } else {
                j
            };
            let p = i + j - m;
            assert(pre_bodies[m].mass != 0 && 0 <= m < n && 0 <= p < n && m != p);
            assert(exists|cc: int| 0 <= cc < checks@.len() && (#[trigger] checks@[cc]).0 == m);
            let cm = choose|cc: int| 0 <= cc < checks@.len() && (#[trigger] checks@[cc]).0 == m;
            let e = crate::quadtree::Entry {
                id: p as u64,
                aabb: Some(aabbs@[p]),
                position: pre_bodies[p].position,
            };
            assert(quadtree.contains_entry(e)) by {
                assert(items@[p] == ((p as u64), Some(aabbs@[p]), pre_bodies[p].position));
                assert(crate::quadtree::node_accepts(
                    quadtree.spec_boundary(),
                    quadtree.spec_center(),
                    e,
                ));
            }
            lemma_collides_symm(
                aabbs@[i],
                pre_bodies[i].position,
                aabbs@[j],
                pre_bodies[j].position,
            );
            lemma_pair_candidate(quadtree, pre_bodies, aabbs@, *map_aabb, m, p);
            assert(checks@[cm].1@.contains(p as u64));
            let k0 = choose|k0: int|
                0 <= k0 < checks@[cm].1@.len() && checks@[cm].1@[k0] == p as u64;
            lemma_walked_mono(checks@, cm, checks@.len() as int);
            let r0 = walked(checks@, cm) + k0;
            assert(w@[r0] == ((checks@[cm].0 as int, checks@[cm].1@[k0] as int)));
            assert(w@[r0] == (m, p));
            assert(0 <= r0 < w@.len());
        }
    }
    w
}

/// From the loop outcome of the pair walk, the isolated-pair promise
/// follows for every pair that satisfies the hypothesis: there is at
/// most one such pair, and it is the tracked one.
proof fn lemma_iso_bridge(
    pre: Seq<MovingObject>,
    mid: Seq<MovingObject>,
    fin: Seq<MovingObject>,
    aabbs: Seq<AABB>,
    world: AABB,
    iso: bool,
    gi: int,
    gj: int,
)
    requires
        aabbs.len() == pre.len(),
        mid.len() == pre.len(),
        fin.len() == pre.len(),
        forall|i: int|
            0 <= i < pre.len() ==> (#[trigger] pre[i]).position.value.spec_in_range(LIMIT as int)
                && 0 <= pre[i].mass <= MASS_LIMIT,
        forall|j: int|
            0 <= j < pre.len() ==> {
                let md = (#[trigger] mid[j]);
                &&& md.mass == pre[j].mass
                &&& md.velocity == pre[j].velocity
                &&& md.position == pre[j].position
                &&& md.old_position == pre[j].old_position
                &&& md.old_velocity == pre[j].old_velocity
                &&& md.old_state == pre[j].old_state
                &&& (pre[j].mass == 0 ==> md.state == pre[j].state)
                &&& (pre[j].mass != 0 ==> md.state == (MovingObjectState {
                    right: false,
                    left: false,
                    ground: false,
                    ceiling: false,
                }))
            },
        iso == exists|i: int, j: int|
            0 <= i < j < pre.len() && isolated_pair(pre, aabbs, world, i, j),
        iso ==> 0 <= gi < gj < pre.len() && isolated_pair(pre, aabbs, world, gi, gj),
        iso ==> pair_done(
            mid,
            fin,
            aabbs,
            pair_a_role(pre, gi, gj),
            gi + gj - pair_a_role(pre, gi, gj),
        ),
        iso ==> forall|x: int|
            0 <= x < pre.len() && x != gi && x != gj ==> (#[trigger] fin[x]) == mid[x],
    ensures
        forall|i: int, j: int|
            0 <= i < j < pre.len() && #[trigger] isolated_pair(pre, aabbs, world, i, j) ==> {
                let a = pair_a_role(pre, i, j);
                let b = i + j - a;
                &&& spec_resolved(
                    with_clear_flags(pre[a]),
                    (if pre[b].mass > 0 {
                        with_clear_flags(pre[b])
                    } else {
                        pre[b]
                    }),
                    fin[a],
                    fin[b],
                    aabbs[a],
                    aabbs[b],
                )
                &&& !spec_collides(aabbs[i], fin[i].position, aabbs[j], fin[j].position)
                &&& (forall|k: int|
                    0 <= k < pre.len() && k != i && k != j ==> {
                        let post = (#[trigger] fin[k]);
                        &&& post.position == pre[k].position
                        &&& (pre[k].mass != 0 ==> post.state == (MovingObjectState {
                            right: false,
                            left: false,
                            ground: false,
                            ceiling: false,
                        }))
                        &&& (pre[k].mass == 0 ==> post.state == pre[k].state)
                    })
            },
{
    assert forall|i: int, j: int|
        0 <= i < j < pre.len() && #[trigger] isolated_pair(pre, aabbs, world, i, j) implies {
        let a = pair_a_role(pre, i, j);
        let b = i + j - a;
        &&& spec_resolved(
            with_clear_flags(pre[a]),
            (if pre[b].mass > 0 {
                with_clear_flags(pre[b])
            } else {
                pre[b]
            }),
            fin[a],
            fin[b],
            aabbs[a],
            aabbs[b],
        )
        &&& !spec_collides(aabbs[i], fin[i].position, aabbs[j], fin[j].position)
        &&& (forall|k: int|
            0 <= k < pre.len() && k != i && k != j ==> {
                let post = (#[trigger] fin[k]);
                &&& post.position == pre[k].position
                &&& (pre[k].mass != 0 ==> post.state == (MovingObjectState {
                    right: false,
                    left: false,
                    ground: false,
                    ceiling: false,
                }))
                &&& (pre[k].mass == 0 ==> post.state == pre[k].state)
            })
    } by {
        assert(iso);
        reveal(isolated_pair);
        assert(i == gi && j == gj) by {
            if !(i == gi && j == gj) {
                assert(!spec_collides(aabbs[i], pre[i].position, aabbs[j], pre[j].position));
                assert(false);
            }
        }
        lemma_iso_conclude(pre, mid, fin, aabbs, world, gi, gj);
    }
}

/// How many candidate rounds the first `c` checks contribute.
spec fn walked(checks: Seq<(usize, Vec<u64>)>, c: int) -> int
    decreases c,
{
    if c <= 0 {
        0
    } else {
        walked(checks, c - 1) + checks[c - 1].1@.len()
    }
}

/// The walked count grows with the check index.
proof fn lemma_walked_mono(checks: Seq<(usize, Vec<u64>)>, c0: int, c: int)
    requires
        0 <= c0 < c <= checks.len(),
    ensures
        walked(checks, c0) + checks[c0].1@.len() <= walked(checks, c),
        walked(checks, c0) >= 0,
    decreases c,
{
    if c0 + 1 < c {
        lemma_walked_mono(checks, c0, c - 1);
    }
    if c0 > 0 {
        lemma_walked_mono(checks, c0 - 1, c0);
    }
}

/// The narrow-phase half of the pass: walks the candidate lists and
/// resolves every still-overlapping pair. Carries the proof that on an
/// isolated pair scene exactly the pair's own round acts.
#[verifier::rlimit(100)]
#[verifier::spinoff_prover]
#[verifier::loop_isolation(false)]
fn resolve_pairs(
    aabbs: &Vec<AABB>,
    bodies: &mut Vec<MovingObject>,
    checks: &Vec<(usize, Vec<u64>)>,
    Ghost(pre_bodies): Ghost<Seq<MovingObject>>,
    Ghost(world): Ghost<AABB>,
    Ghost(iso): Ghost<bool>,
    Ghost(gi): Ghost<int>,
    Ghost(gj): Ghost<int>,
    Ghost(c_a): Ghost<int>,
) -> (wit: Ghost<Seq<(int, int)>>)
    requires
        aabbs@.len() == old(bodies)@.len(),
        pre_bodies.len() == old(bodies)@.len(),
        forall|i: int| 0 <= i < aabbs@.len() ==> (#[trigger] aabbs@[i]).wf(),
        forall|i: int|
            0 <= i < pre_bodies.len() ==> (#[trigger] pre_bodies[i]).position.value.spec_in_range(
                LIMIT as int,
            ) && 0 <= pre_bodies[i].mass <= MASS_LIMIT,
        forall|j: int|
            0 <= j < pre_bodies.len() ==> {
                let pre = pre_bodies[j];
                let md = (#[trigger] old(bodies)@[j]);
                &&& md.mass == pre.mass
                &&& md.velocity == pre.velocity
                &&& md.position == pre.position
                &&& md.old_position == pre.old_position
                &&& md.old_velocity == pre.old_velocity
                &&& md.old_state == pre.old_state
                &&& (pre.mass == 0 ==> md.state == pre.state)
                &&& (pre.mass != 0 ==> md.state == (MovingObjectState {
                    right: false,
                    left: false,
                    ground: false,
                    ceiling: false,
                }))
            },
        forall|j: int| 0 <= j < checks@.len() ==> (#[trigger] checks@[j]).0 < old(bodies)@.len(),
        forall|c1: int, c2: int|
            0 <= c1 < c2 < checks@.len() ==> (#[trigger] checks@[c1]).0 < (
            #[trigger] checks@[c2]).0,
        forall|cc: int|
            0 <= cc < checks@.len() ==> {
                let ch = (#[trigger] checks@[cc]);
                &&& pre_bodies[ch.0 as int].mass != 0
                &&& (forall|p: int, q: int| 0 <= p < q < ch.1@.len() ==> ch.1@[p] != ch.1@[q])
            },
        iso == exists|i: int, j: int|
            0 <= i < j < pre_bodies.len() && isolated_pair(pre_bodies, aabbs@, world, i, j),
        iso ==> {
            &&& 0 <= gi < gj < pre_bodies.len()
            &&& isolated_pair(pre_bodies, aabbs@, world, gi, gj)
            &&& pre_bodies[pair_a_role(pre_bodies, gi, gj)].mass > 0
            &&& 0 <= c_a < checks@.len()
            &&& checks@[c_a].0 == pair_a_role(pre_bodies, gi, gj)
            &&& checks@[c_a].1@.contains((gi + gj - pair_a_role(pre_bodies, gi, gj)) as u64)
        },
    ensures
        final(bodies)@.len() == old(bodies)@.len(),
        forall|j: int|
            0 <= j < old(bodies)@.len() ==> {
                let pre = pre_bodies[j];
                let post = (#[trigger] final(bodies)@[j]);
                &&& post.mass == pre.mass
                &&& post.velocity == pre.velocity
                &&& post.old_position == pre.old_position
                &&& post.old_velocity == pre.old_velocity
                &&& post.old_state == pre.old_state
                &&& (pre.mass == 0 ==> post.position == pre.position)
            },
        (forall|i: int, j: int|
            0 <= i < pre_bodies.len() && 0 <= j < pre_bodies.len() && i != j && pre_bodies[i].mass
                + pre_bodies[j].mass > 0 ==> !spec_collides(
                aabbs@[i],
                pre_bodies[i].position,
                aabbs@[j],
                pre_bodies[j].position,
            )) ==> final(bodies)@ == old(bodies)@,
        final(bodies)@ == rounds_result(old(bodies)@, aabbs@, wit@),
        forall|r: int|
            0 <= r < wit@.len() ==> {
                let rd = (#[trigger] wit@[r]);
                &&& 0 <= rd.0 < pre_bodies.len()
                &&& pre_bodies[rd.0].mass != 0
                &&& 0 <= rd.1
            },
        wit@.len() == walked(checks@, checks@.len() as int),
        forall|c0: int, k0: int| #![trigger checks@[c0].1@[k0]]
            0 <= c0 < checks@.len() && 0 <= k0 < checks@[c0].1@.len() ==> wit@[walked(
                checks@,
                c0,
            ) + k0] == ((checks@[c0].0 as int, checks@[c0].1@[k0] as int)),
        forall|i: int, j: int|
            0 <= i < j < pre_bodies.len() && #[trigger] isolated_pair(
                pre_bodies,
                aabbs@,
                world,
                i,
                j,
            ) ==> {
                let a = pair_a_role(pre_bodies, i, j);
                let b = i + j - a;
                &&& spec_resolved(
                    with_clear_flags(pre_bodies[a]),
                    (if pre_bodies[b].mass > 0 {
                        with_clear_flags(pre_bodies[b])
                    } else {
                        pre_bodies[b]
                    }),
                    final(bodies)@[a],
                    final(bodies)@[b],
                    aabbs@[a],
                    aabbs@[b],
                )
                &&& !spec_collides(
                    aabbs@[i],
                    final(bodies)@[i].position,
                    aabbs@[j],
                    final(bodies)@[j].position,
                )
                &&& (forall|k: int|
                    0 <= k < pre_bodies.len() && k != i && k != j ==> {
                        let post = (#[trigger] final(bodies)@[k]);
                        &&& post.position == pre_bodies[k].position
                        &&& (pre_bodies[k].mass != 0 ==> post.state == (MovingObjectState {
                            right: false,
                            left: false,
                            ground: false,
                            ceiling: false,
                        }))
                        &&& (pre_bodies[k].mass == 0 ==> post.state == pre_bodies[k].state)
                    })
            },
{
    let ghost mid_bodies = old(bodies)@;
    let ghost mut glog: Seq<(int, int)> = Seq::empty();
    let ghost hyp = forall|i: int, j: int|
        0 <= i < pre_bodies.len() && 0 <= j < pre_bodies.len() && i != j && pre_bodies[i].mass
            + pre_bodies[j].mass > 0 ==> !spec_collides(
            aabbs@[i],
            pre_bodies[i].position,
            aabbs@[j],
            pre_bodies[j].position,
        );
    let ghost ga = pair_a_role(pre_bodies, gi, gj);
    let ghost gb = gi + gj - ga;
    let n = bodies.len();
    proof {
        assert(bodies@ == rounds_result(mid_bodies, aabbs@, glog)) by {
            reveal(rounds_result);
        }
    }
    let m = checks.len();
    let mut c: usize = 0;
    while c < m
        invariant
            0 <= c <= m,
            bodies@.len() == n,
            hyp ==> bodies@ == mid_bodies,
            bodies@ == rounds_result(mid_bodies, aabbs@, glog),
            forall|r: int|
                0 <= r < glog.len() ==> {
                    let rd = (#[trigger] glog[r]);
                    &&& 0 <= rd.0 < n
                    &&& pre_bodies[rd.0].mass != 0
                    &&& 0 <= rd.1
                },
            glog.len() == walked(checks@, c as int),
            forall|c0: int, k0: int| #![trigger checks@[c0].1@[k0]]
                0 <= c0 < c && 0 <= k0 < checks@[c0].1@.len() ==> glog[walked(checks@, c0)
                    + k0] == ((checks@[c0].0 as int, checks@[c0].1@[k0] as int)),
            iso ==> {
                &&& (forall|x: int|
                    0 <= x < n && x != ga && x != gb ==> (#[trigger] bodies@[x])
                        == mid_bodies[x])
                &&& (c <= c_a ==> bodies@[ga] == mid_bodies[ga] && bodies@[gb]
                    == mid_bodies[gb])
                &&& (c > c_a ==> pair_done(mid_bodies, bodies@, aabbs@, ga, gb))
            },
            forall|j: int|
                0 <= j < n ==> {
                    let pre = pre_bodies[j];
                    let post = (#[trigger] bodies@[j]);
                    &&& post.mass == pre.mass
                    &&& post.velocity == pre.velocity
                    &&& post.old_position == pre.old_position
                    &&& post.old_velocity == pre.old_velocity
                    &&& post.old_state == pre.old_state
                    &&& (pre.mass == 0 ==> post.position == pre.position)
                },
            forall|j: int| 0 <= j < m ==> (#[trigger] checks@[j]).0 < n,
        decreases m - c,
    {
        let a_i = checks[c].0;
        let others = checks[c].1.len();
        let mut k: usize = 0;
        while k < others
            invariant
                0 <= k <= others,
                others == checks@[c as int].1@.len(),
                0 <= c < m,
                bodies@.len() == n,
                hyp ==> bodies@ == mid_bodies,
                bodies@ == rounds_result(mid_bodies, aabbs@, glog),
                forall|r: int|
                    0 <= r < glog.len() ==> {
                        let rd = (#[trigger] glog[r]);
                        &&& 0 <= rd.0 < n
                        &&& pre_bodies[rd.0].mass != 0
                        &&& 0 <= rd.1
                    },
                glog.len() == walked(checks@, c as int) + k,
                forall|c0: int, k0: int| #![trigger checks@[c0].1@[k0]]
                    (0 <= c0 < c && 0 <= k0 < checks@[c0].1@.len()) || (c0 == c && 0 <= k0 < k)
                        ==> glog[walked(checks@, c0) + k0] == ((checks@[c0].0 as int, checks@[
                        c0].1@[k0] as int)),
                iso ==> {
                    &&& (forall|x: int|
                        0 <= x < n && x != ga && x != gb ==> (#[trigger] bodies@[x])
                            == mid_bodies[x])
                    &&& (c < c_a ==> bodies@[ga] == mid_bodies[ga] && bodies@[gb]
                        == mid_bodies[gb])
                    &&& (c > c_a ==> pair_done(mid_bodies, bodies@, aabbs@, ga, gb))
                    &&& (c == c_a ==> {
                        &&& (pair_done(mid_bodies, bodies@, aabbs@, ga, gb) || (bodies@[ga]
                            == mid_bodies[ga] && bodies@[gb] == mid_bodies[gb]))
                        &&& (pair_done(mid_bodies, bodies@, aabbs@, ga, gb) <==> exists|k0: int|
                            0 <= k0 < k && checks@[c as int].1@[k0] == gb as u64)
                    })
                },
                a_i == checks@[c as int].0,
                a_i < n,
                forall|j: int|
                    0 <= j < n ==> {
                        let pre = pre_bodies[j];
                        let post = (#[trigger] bodies@[j]);
                        &&& post.mass == pre.mass
                        &&& post.velocity == pre.velocity
                        &&& post.old_position == pre.old_position
                        &&& post.old_velocity == pre.old_velocity
                        &&& post.old_state == pre.old_state
                        &&& (pre.mass == 0 ==> post.position == pre.position)
                    },
            decreases others - k,
        {
            let id = checks[c].1[k];
            let ghost round_pre = bodies@;
            let ghost glog_pre = glog;
            proof {
                glog = glog.push((a_i as int, id as int));
                assert(glog.drop_last() =~= glog_pre);
                assert(rounds_result(mid_bodies, aabbs@, glog) == round_result(
                    rounds_result(mid_bodies, aabbs@, glog_pre),
                    aabbs@,
                    a_i as int,
                    id as int,
                )) by {
                    reveal(rounds_result);
                }
            }
            let ghost was_done = iso && (c > c_a || (c == c_a && exists|k0: int|
                0 <= k0 < k && checks@[c as int].1@[k0] == gb as u64));
            if id < n as u64 {
                let b_i = id as usize;
                if b_i != a_i {
                    let mut a_body = bodies[a_i];
                    let mut b_body = bodies[b_i];
                    if !(a_body.mass == 0 && b_body.mass == 0)
                        && a_body.position.value.in_range(POS_LIMIT)
                        && b_body.position.value.in_range(POS_LIMIT) {
                        let ghost a0 = a_body;
                        let ghost b0 = b_body;
                        proof {
                            if iso {
                                reveal(isolated_pair);
                                let ai = a_i as int;
                                let bi = b_i as int;
                                if ai == ga && bi == gb && !was_done {
                                    // the pair's own resolution round
                                    assert(c as int == c_a);
                                    assert(a0 == mid_bodies[ga] && b0 == mid_bodies[gb]);
                                    lemma_collides_symm(
                                        aabbs@[gi],
                                        pre_bodies[gi].position,
                                        aabbs@[gj],
                                        pre_bodies[gj].position,
                                    );
                                    assert(spec_collides(
                                        aabbs@[ai],
                                        a0.position,
                                        aabbs@[bi],
                                        b0.position,
                                    ));
                                } else if !was_done {
                                    // broad-phase state everywhere
                                    assert(a0.position == pre_bodies[ai].position);
                                    assert(b0.position == pre_bodies[bi].position);
                                    if (ai == gi && bi == gj) || (ai == gj && bi == gi) {
                                        // only the role order (ga, gb) reaches this
                                        // round before the resolution
                                        assert(ai == gb && bi == ga);
                                        assert(pre_bodies[ai].mass != 0);
                                        assert(ga < gb);
                                        assert(c_a < m && checks@[c_a].0 == ga);
                                        if c as int == c_a {
                                            assert(false);
                                        } else if (c as int) < c_a {
                                            assert(checks@[c as int].0 < checks@[c_a].0);
                                            assert(false);
                                        } else {
                                            assert(false);
                                        }
                                    } else {
                                        assert(!spec_collides(
                                            aabbs@[ai],
                                            a0.position,
                                            aabbs@[bi],
                                            b0.position,
                                        ));
                                    }
                                } else {
                                    // the pair is resolved: everything is settled
                                    assert(pair_done(mid_bodies, bodies@, aabbs@, ga, gb));
                                    lemma_resolved_pos(
                                        mid_bodies[ga],
                                        mid_bodies[gb],
                                        aabbs@[ga],
                                        aabbs@[gb],
                                        bodies@[ga],
                                        bodies@[gb],
                                    );
                                    assert(resolved_pos_a(
                                        mid_bodies[ga],
                                        mid_bodies[gb],
                                        aabbs@[ga],
                                        aabbs@[gb],
                                    ) == resolved_pos_a(
                                        pre_bodies[ga],
                                        pre_bodies[gb],
                                        aabbs@[ga],
                                        aabbs@[gb],
                                    ));
                                    assert(resolved_pos_b(
                                        mid_bodies[ga],
                                        mid_bodies[gb],
                                        aabbs@[ga],
                                        aabbs@[gb],
                                    ) == resolved_pos_b(
                                        pre_bodies[ga],
                                        pre_bodies[gb],
                                        aabbs@[ga],
                                        aabbs@[gb],
                                    ));
                                    if (ai == ga && bi == gb) || (ai == gb && bi == ga) {
                                        lemma_collides_symm(
                                            aabbs@[ga],
                                            bodies@[ga].position,
                                            aabbs@[gb],
                                            bodies@[gb].position,
                                        );
                                        assert(!spec_collides(
                                            aabbs@[ai],
                                            a0.position,
                                            aabbs@[bi],
                                            b0.position,
                                        ));
                                    } else if ai == ga || ai == gb || bi == ga || bi == gb {
                                        if bi == ga || bi == gb {
                                            assert(a0.position == pre_bodies[ai].position);
                                            lemma_collides_symm(
                                                aabbs@[ai],
                                                a0.position,
                                                aabbs@[bi],
                                                b0.position,
                                            );
                                            assert(!spec_collides(
                                                aabbs@[ai],
                                                a0.position,
                                                aabbs@[bi],
                                                b0.position,
                                            ));
                                        } else {
                                            assert(b0.position == pre_bodies[bi].position);
                                            lemma_collides_symm(
                                                aabbs@[ai],
                                                a0.position,
                                                aabbs@[bi],
                                                b0.position,
                                            );
                                            assert(!spec_collides(
                                                aabbs@[ai],
                                                a0.position,
                                                aabbs@[bi],
                                                b0.position,
                                            ));
                                        }
                                    } else {
                                        assert(a0.position == pre_bodies[ai].position);
                                        assert(b0.position == pre_bodies[bi].position);
                                        assert(!spec_collides(
                                            aabbs@[ai],
                                            a0.position,
                                            aabbs@[bi],
                                            b0.position,
                                        ));
                                    }
                                }
                            }
                        }
                        correct_collisions(&mut a_body, &aabbs[a_i], &mut b_body, &aabbs[b_i]);
                        proof {
                            if pre_bodies[a_i as int].mass == 0 {
                                assert(a_body.position == a0.position) by {
                                    if spec_collides(
                                        aabbs@[a_i as int],
                                        a0.position,
                                        aabbs@[b_i as int],
                                        b0.position,
                                    ) && a0.mass + b0.mass > 0 {
                                        assert(disp_a(
                                            pen_x(
                                                aabbs@[a_i as int],
                                                a0.position,
                                                aabbs@[b_i as int],
                                                b0.position,
                                            ),
                                            0,
                                            b0.mass as int,
                                        ) == 0);
                                        assert(disp_a(
                                            pen_y(
                                                aabbs@[a_i as int],
                                                a0.position,
                                                aabbs@[b_i as int],
                                                b0.position,
                                            ),
                                            0,
                                            b0.mass as int,
                                        ) == 0);
                                    }
                                }
                            }
                            if pre_bodies[b_i as int].mass == 0 {
                                assert(b_body.position == b0.position) by {
                                    if spec_collides(
                                        aabbs@[a_i as int],
                                        a0.position,
                                        aabbs@[b_i as int],
                                        b0.position,
                                    ) && a0.mass + b0.mass > 0 {
                                        lemma_div_exact(
                                            pen_x(
                                                aabbs@[a_i as int],
                                                a0.position,
                                                aabbs@[b_i as int],
                                                b0.position,
                                            ),
                                            a0.mass as int,
                                        );
                                        lemma_div_exact(
                                            pen_y(
                                                aabbs@[a_i as int],
                                                a0.position,
                                                aabbs@[b_i as int],
                                                b0.position,
                                            ),
                                            a0.mass as int,
                                        );
                                    }
                                }
                            }
                        }
                        proof {
                            if hyp {
                                assert(a0 == mid_bodies[a_i as int] && b0 == mid_bodies[
                                b_i as int]);
                                assert(a0.position == pre_bodies[a_i as int].position
                                    && b0.position == pre_bodies[b_i as int].position);
                                assert(!spec_collides(
                                    aabbs@[a_i as int],
                                    a0.position,
                                    aabbs@[b_i as int],
                                    b0.position,
                                ));
                                assert(a_body == a0 && b_body == b0);
                            }
                        }
                        bodies.set(a_i, a_body);
                        bodies.set(b_i, b_body);
                        proof {
                            reveal(round_acts);
                            reveal(round_result);
                            let acted = spec_collides(
                                aabbs@[a_i as int],
                                a0.position,
                                aabbs@[b_i as int],
                                b0.position,
                            ) && a0.mass + b0.mass > 0;
                            assert(round_acts(round_pre, aabbs@, a_i as int, id as int)
                                == acted);
                            if acted {
                                lemma_resolved_bodies(
                                    a0,
                                    b0,
                                    aabbs@[a_i as int],
                                    aabbs@[b_i as int],
                                    a_body,
                                    b_body,
                                );
                                assert(bodies@ =~= round_result(
                                    round_pre,
                                    aabbs@,
                                    a_i as int,
                                    id as int,
                                ));
                            } else {
                                assert(a_body == a0 && b_body == b0);
                                assert(bodies@ =~= round_pre);
                            }
                            assert(bodies@ == rounds_result(mid_bodies, aabbs@, glog));
                            if hyp {
                                assert(bodies@ =~= mid_bodies);
                            }
                            if iso {
                                if a_i as int == ga && b_i as int == gb && !was_done {
                                    // this was the pair's resolution
                                    assert(spec_resolved(
                                        mid_bodies[ga],
                                        mid_bodies[gb],
                                        a_body,
                                        b_body,
                                        aabbs@[ga],
                                        aabbs@[gb],
                                    ));
                                    assert(pair_done(mid_bodies, bodies@, aabbs@, ga, gb));
                                } else {
                                    // every other round leaves everything in place
                                    assert(a_body == a0 && b_body == b0);
                                    assert(bodies@ =~= round_pre);
                                }
                            }
                        }
                    } else {
                        proof {
                            reveal(round_acts);
                            reveal(round_result);
                            assert(!round_acts(round_pre, aabbs@, a_i as int, id as int));
                            assert(bodies@ == rounds_result(mid_bodies, aabbs@, glog));
                            if iso && c as int == c_a && id == gb as u64 {
                                reveal(isolated_pair);
                                // the pair round is never skipped: if the
                                // pair were still unresolved here, both
                                // bodies would be bounded and one massive,
                                // so the guard would have been taken
                                if !was_done {
                                    assert(a_body == mid_bodies[ga] && b_body
                                        == mid_bodies[gb]);
                                    assert(a_body.position == pre_bodies[ga].position);
                                    assert(b_body.position == pre_bodies[gb].position);
                                    assert(a_body.position.value.spec_in_range(
                                        POS_LIMIT as int,
                                    ));
                                    assert(b_body.position.value.spec_in_range(
                                        POS_LIMIT as int,
                                    ));
                                    assert(a_body.mass != 0);
                                    assert(false);
                                }
                            }
                        }
                    }
                }
            }
            proof {
                assert(bodies@ == rounds_result(mid_bodies, aabbs@, glog)) by {
                    reveal(round_acts);
                    reveal(round_result);
                    if bodies@ != round_pre {
                    } else {
                        assert(!round_acts(round_pre, aabbs@, a_i as int, id as int) ==> bodies@
                            == round_result(round_pre, aabbs@, a_i as int, id as int));
                    }
                }
                assert forall|c0: int, k0: int| #![trigger checks@[c0].1@[k0]]
                    (0 <= c0 < c && 0 <= k0 < checks@[c0].1@.len()) || (c0 == c && 0 <= k0 < k
                        + 1) implies glog[walked(checks@, c0) + k0] == ((checks@[c0].0 as int,
                    checks@[c0].1@[k0] as int)) by {
                    if c0 == c && k0 == k {
                        assert(glog[glog_pre.len() as int] == (a_i as int, id as int));
                    } else {
                        if c0 < c {
                            lemma_walked_mono(checks@, c0, c as int);
                        }
                        assert(glog[walked(checks@, c0) + k0] == glog_pre[walked(checks@, c0)
                            + k0]);
                    }
                }
            }
            k = k + 1;
            proof {
                if iso && c == c_a {
                    if checks@[c as int].1@[k - 1] == gb as u64 {
                        assert(exists|k0: int|
                            0 <= k0 < k && checks@[c as int].1@[k0] == gb as u64);
                        if was_done {
                            let k1 = choose|k0: int|
                                0 <= k0 < k - 1 && checks@[c as int].1@[k0] == gb as u64;
                            assert(checks@[c as int].1@[k1] == checks@[c as int].1@[k - 1]);
                            assert(false);
                        }
                    } else {
                        assert((exists|k0: int|
                            0 <= k0 < k && checks@[c as int].1@[k0] == gb as u64) <==> (exists|
                            k0: int,
                        |
                            0 <= k0 < k - 1 && checks@[c as int].1@[k0] == gb as u64)) by {
                            if exists|k0: int|
                                0 <= k0 < k && checks@[c as int].1@[k0] == gb as u64 {
                                let k1 = choose|k0: int|
                                    0 <= k0 < k && checks@[c as int].1@[k0] == gb as u64;
                                assert(k1 < k - 1);
                            }
                        }
                    }
                }
            }
        }
        proof {
            if iso && c == c_a {
                assert(exists|k0: int|
                    0 <= k0 < checks@[c as int].1@.len() && checks@[c as int].1@[k0]
                        == gb as u64) by {
                    assert(checks@[c_a].1@.contains(gb as u64));
                }
                assert(pair_done(mid_bodies, bodies@, aabbs@, ga, gb));
            }
        }
        c = c + 1;
    }
    proof {
        if iso {
            assert(pair_done(mid_bodies, bodies@, aabbs@, ga, gb));
            assert forall|x: int|
                0 <= x < pre_bodies.len() && x != gi && x != gj implies (#[trigger] bodies@[x])
                    == mid_bodies[x] by {
                assert(x != ga && x != gb);
            }
        }
        lemma_iso_bridge(pre_bodies, mid_bodies, bodies@, aabbs@, world, iso, gi, gj);
    }
    Ghost(glog)
}

} // verus!
