//! Who makes a permissive turn wait at the points where it crosses other paths.

use vstd::prelude::*;

use crate::boxes::{CLAIM_REACH, PointTiming, other_of};
use crate::laws::terms::{
    all_who_are_inside_are_crossers, all_who_roll_towards_are_approachers, is_inside, is_rearmost,
    nobody_is_behind_the_nearest_to_the_entrance, rolls_towards, shows,
    the_rearmost_is_nearest_the_entrance,
};
use crate::neighbors::MOVING_SPEED;
use crate::network::{MovementId, NodeId, SignalState};
use crate::quantity::{Quantity, place};
use crate::search::lemma_indices;
use crate::world::NetWorld;
use crate::yielding::{Arrival, PointPressure};

verus! {

/// At its point `k` the node's movement `m` crosses the movement `other`.
pub open spec fn crosses_there(w: &NetWorld, m: MovementId, node: NodeId, k: int, other: MovementId) -> bool {
    let c = w.network.conflicts@[w.network.nodes@[node.0 as int].conflicts@[k] as int];
    (c.a == m && c.b == other) || (c.a != m && c.b == m && c.a == other)
}

/// Row `j` comes on the link that feeds the movement.
pub open spec fn comes_on_its_link(w: &NetWorld, j: int, other: MovementId) -> bool {
    let from = w.network.movements@[other.0 as int].from_lane;
    w.network.lanes@[w.rows()[j].lane.0 as int].link == w.network.lanes@[from.0 as int].link
}

/// The measurement with number `b` at the point is of row `j`.
pub open spec fn measured_at(w: &NetWorld, node: NodeId, p: PointPressure, j: int, b: int) -> bool {
    0 <= b < p.coming@.len() && b < w.approachers(node).len() && w.approachers(node)[b] == j as usize
}

/// The timing with number `a` at the point is of row `j`.
pub open spec fn timed_at(w: &NetWorld, node: NodeId, p: PointPressure, j: int, a: int) -> bool {
    0 <= a < p.inside@.len() && a < w.crossers(node).len() && w.crossers(node)[a] == j as usize
}

/// Under a green light the front vehicle of the crossing stream, standing, makes
/// the turn wait when it would launch to the point inside the needed window.
pub proof fn a_queue_launching_on_green_is_waited_for(
    w: &NetWorld,
    i: int,
    m: MovementId,
    node: NodeId,
    points: Seq<PointPressure>,
    k: int,
    other: MovementId,
    j: int,
    needed: Quantity,
)
    requires
        w.pressure_fits(node, points),
        0 <= k < points.len(),
        crosses_there(w, m, node, k, other),
        shows(w, other, SignalState::Green),
        rolls_towards(w, j, node),
        comes_on_its_link(w, j, other),
        is_rearmost(w, j),
        !place(MOVING_SPEED).is_at_most(w.rows()[j].speed),
        points[k].needed == Some(needed),
        forall|b: int|
            #[trigger] measured_at(w, node, points[k], j, b) ==> points[k].coming@[b].launch.is_below(
                needed,
            ),
    ensures
        w.under_pressure(i, m, node, points),
{
    assert(w.rows().len() == w.fleet.rows.len());
    all_who_roll_towards_are_approachers(w, node, j);
    the_rearmost_is_nearest_the_entrance(w, j);
    let list = w.approachers(node);
    let b = choose|b: int| 0 <= b < list.len() && list[b] == j as usize;
    assert(measured_at(w, node, points[k], j, b));
    assert(w.approacher_presses(list[b] as int, other, points[k].coming@[b], needed));
    reveal(NetWorld::presses_at);
    assert(w.presses_at(i, m, node, k, points[k]));
}

/// Moving traffic of the crossing stream under a green light makes the turn wait
/// when it arrives at the point inside the needed window.
pub proof fn moving_traffic_on_green_is_waited_for(
    w: &NetWorld,
    i: int,
    m: MovementId,
    node: NodeId,
    points: Seq<PointPressure>,
    k: int,
    other: MovementId,
    j: int,
    needed: Quantity,
)
    requires
        w.pressure_fits(node, points),
        0 <= k < points.len(),
        crosses_there(w, m, node, k, other),
        shows(w, other, SignalState::Green),
        rolls_towards(w, j, node),
        comes_on_its_link(w, j, other) || w.will_reach(&w.rows()[j], other),
        place(MOVING_SPEED).is_at_most(w.rows()[j].speed),
        points[k].needed == Some(needed),
        forall|b: int|
            #[trigger] measured_at(w, node, points[k], j, b) ==> points[k].coming@[b].arrive.is_below(
                needed,
            ),
    ensures
        w.under_pressure(i, m, node, points),
{
    assert(w.rows().len() == w.fleet.rows.len());
    all_who_roll_towards_are_approachers(w, node, j);
    let list = w.approachers(node);
    let b = choose|b: int| 0 <= b < list.len() && list[b] == j as usize;
    assert(measured_at(w, node, points[k], j, b));
    assert(w.approacher_presses(list[b] as int, other, points[k].coming@[b], needed));
    reveal(NetWorld::presses_at);
    assert(w.presses_at(i, m, node, k, points[k]));
}

/// On yellow too, where the mover can no longer stop at its line.
pub proof fn moving_traffic_that_cannot_stop_is_waited_for(
    w: &NetWorld,
    i: int,
    m: MovementId,
    node: NodeId,
    points: Seq<PointPressure>,
    k: int,
    other: MovementId,
    j: int,
    needed: Quantity,
)
    requires
        w.pressure_fits(node, points),
        0 <= k < points.len(),
        crosses_there(w, m, node, k, other),
        shows(w, other, SignalState::Yellow),
        rolls_towards(w, j, node),
        comes_on_its_link(w, j, other) || w.will_reach(&w.rows()[j], other),
        place(MOVING_SPEED).is_at_most(w.rows()[j].speed),
        points[k].needed == Some(needed),
        forall|b: int|
            #[trigger] measured_at(w, node, points[k], j, b) ==> points[k].coming@[b].arrive.is_below(
                needed,
            ) && points[k].coming@[b].line_dist.is_at_most(points[k].coming@[b].stop_dist),
    ensures
        w.under_pressure(i, m, node, points),
{
    assert(w.rows().len() == w.fleet.rows.len());
    all_who_roll_towards_are_approachers(w, node, j);
    let list = w.approachers(node);
    let b = choose|b: int| 0 <= b < list.len() && list[b] == j as usize;
    assert(measured_at(w, node, points[k], j, b));
    assert(w.approacher_presses(list[b] as int, other, points[k].coming@[b], needed));
    reveal(NetWorld::presses_at);
    assert(w.presses_at(i, m, node, k, points[k]));
}

/// Another vehicle on the crossing path makes the turn wait while its tail has
/// not cleared the point, it moves or is near the point, and it is still there
/// when the turn would reach the point.
pub proof fn a_vehicle_on_the_crossing_path_is_waited_for(
    w: &NetWorld,
    i: int,
    m: MovementId,
    node: NodeId,
    points: Seq<PointPressure>,
    k: int,
    other: MovementId,
    j: int,
)
    requires
        w.pressure_fits(node, points),
        0 <= k < points.len(),
        crosses_there(w, m, node, k, other),
        !shows(w, other, SignalState::Red),
        is_inside(w, j, node),
        j != i,
        (w.rows()[j].crossing->0).movement == other,
        points[k].needed is Some,
        forall|a: int|
            #[trigger] timed_at(w, node, points[k], j, a) ==> {
                let t = points[k].inside@[a];
                &&& t.arc.is_below(t.tail_clear)
                &&& place(MOVING_SPEED).is_at_most(w.rows()[j].speed) || t.short_by.is_at_most(
                    place(CLAIM_REACH),
                )
                &&& t.t_reach.is_below(t.t_free)
            },
    ensures
        w.under_pressure(i, m, node, points),
{
    assert(w.rows().len() == w.fleet.rows.len());
    all_who_are_inside_are_crossers(w, node, j);
    let list = w.crossers(node);
    let a = choose|a: int| 0 <= a < list.len() && list[a] == j as usize;
    assert(timed_at(w, node, points[k], j, a));
    assert(w.crosser_presses(i, list[a] as int, other, points[k].inside@[a]));
    reveal(NetWorld::presses_at);
    assert(w.presses_at(i, m, node, k, points[k]));
}

/// So does a moving vehicle elsewhere inside whose way on leads over the crossing
/// path.
pub proof fn a_moving_vehicle_that_will_cross_is_waited_for(
    w: &NetWorld,
    i: int,
    m: MovementId,
    node: NodeId,
    points: Seq<PointPressure>,
    k: int,
    other: MovementId,
    j: int,
)
    requires
        w.pressure_fits(node, points),
        0 <= k < points.len(),
        crosses_there(w, m, node, k, other),
        !shows(w, other, SignalState::Red),
        is_inside(w, j, node),
        j != i,
        (w.rows()[j].crossing->0).movement != other,
        w.inner_path(
            &w.rows()[j],
            w.network.movements@[(w.rows()[j].crossing->0).movement.0 as int].to_lane,
        ).contains(other),
        place(MOVING_SPEED).is_at_most(w.rows()[j].speed),
        points[k].needed is Some,
    ensures
        w.under_pressure(i, m, node, points),
{
    assert(w.rows().len() == w.fleet.rows.len());
    all_who_are_inside_are_crossers(w, node, j);
    let list = w.crossers(node);
    let a = choose|a: int| 0 <= a < list.len() && list[a] == j as usize;
    assert(w.crosser_presses(i, list[a] as int, other, points[k].inside@[a]));
    reveal(NetWorld::presses_at);
    assert(w.presses_at(i, m, node, k, points[k]));
}

/// A vehicle presses at a point only before its tail has cleared it, never while
/// it stands well short of it, and only if it is there when the turn arrives; off
/// the crossing path it presses only while it moves.
pub proof fn a_vehicle_inside_presses_only_where_it_is_in_the_way(
    w: &NetWorld,
    i: int,
    j: int,
    other: MovementId,
    t: PointTiming,
)
    requires
        0 <= j < w.rows().len(),
        w.rows()[j].crossing is Some,
        w.crosser_presses(i, j, other, t),
    ensures
        j != i,
        (w.rows()[j].crossing->0).movement == other ==> !t.tail_clear.is_at_most(t.arc)
            && t.t_reach.is_below(t.t_free) && !(w.rows()[j].speed.is_below(place(MOVING_SPEED))
            && place(CLAIM_REACH).is_below(t.short_by)),
        (w.rows()[j].crossing->0).movement != other ==> place(MOVING_SPEED).is_at_most(
            w.rows()[j].speed,
        ) && w.inner_path(
            &w.rows()[j],
            w.network.movements@[(w.rows()[j].crossing->0).movement.0 as int].to_lane,
        ).contains(other),
{
}

/// An approaching vehicle presses only if it is of the crossing stream and, moving,
/// arrives inside the window and is not stopping for its light, or, standing under
/// a green light with nobody behind it on its lane, launches inside the window.
pub proof fn an_approacher_presses_only_if_it_comes_first(
    w: &NetWorld,
    j: int,
    other: MovementId,
    t: Arrival,
    needed: Quantity,
)
    requires
        0 <= j < w.rows().len(),
        w.approacher_presses(j, other, t, needed),
    ensures
        comes_on_its_link(w, j, other) || w.will_reach(&w.rows()[j], other),
        place(MOVING_SPEED).is_at_most(w.rows()[j].speed) ==> t.arrive.is_below(needed),
        place(MOVING_SPEED).is_at_most(w.rows()[j].speed) && t.stop_dist.is_below(t.line_dist)
            ==> shows(w, other, SignalState::Green),
        !place(MOVING_SPEED).is_at_most(w.rows()[j].speed) ==> t.launch.is_below(needed) && shows(
            w,
            other,
            SignalState::Green,
        ),
        !place(MOVING_SPEED).is_at_most(w.rows()[j].speed) ==> forall|x: int|
            0 <= x < w.rows().len() && (#[trigger] w.rows()[x]).lane == w.rows()[j].lane
                ==> w.rows()[j].position.key <= w.rows()[x].position.key,
{
    assert(w.rows().len() == w.fleet.rows.len());
    nobody_is_behind_the_nearest_to_the_entrance(w, w.rows()[j].lane);
}

/// Nobody is waited for where nobody comes in time: no other vehicle is inside,
/// and all who approach reach the points after the needed windows.
pub proof fn late_traffic_is_not_waited_for(
    w: &NetWorld,
    i: int,
    m: MovementId,
    node: NodeId,
    points: Seq<PointPressure>,
)
    requires
        w.pressure_fits(node, points),
        forall|j: int| j != i ==> !#[trigger] is_inside(w, j, node),
        forall|k: int, j: int, b: int|
            0 <= k < points.len() && points[k].needed is Some && #[trigger] measured_at(
                w,
                node,
                points[k],
                j,
                b,
            ) ==> points[k].needed->0.is_at_most(points[k].coming@[b].arrive)
                && points[k].needed->0.is_at_most(points[k].coming@[b].launch),
    ensures
        !w.under_pressure(i, m, node, points),
{
    reveal(NetWorld::presses_at);
    if w.under_pressure(i, m, node, points) {
        let k = choose|k: int|
            0 <= k < w.network.node_at(node).conflicts@.len() && w.presses_at(
                i,
                m,
                node,
                k,
                #[trigger] points[k],
            );
        let other = other_of(w.point(node, k), m);
        lemma_nobody_inside(w, i, m, node, k, points[k]);
        let b = choose|b: int|
            0 <= b < w.approachers(node).len() && w.approacher_presses(
                w.approachers(node)[b] as int,
                other,
                #[trigger] points[k].coming@[b],
                points[k].needed->0,
            );
        assert(measured_at(w, node, points[k], w.approachers(node)[b] as int, b));
    }
}

/// Who has nobody else inside its intersection is pressed by no crosser.
proof fn lemma_nobody_inside(w: &NetWorld, i: int, m: MovementId, node: NodeId, k: int, p: PointPressure)
    requires
        forall|j: int| j != i ==> !#[trigger] is_inside(w, j, node),
    ensures
        forall|a: int|
            0 <= a < w.crossers(node).len() ==> !w.crosser_presses(
                i,
                w.crossers(node)[a] as int,
                other_of(w.point(node, k), m),
                #[trigger] p.inside@[a],
            ),
{
    assert(w.rows().len() == w.fleet.rows.len());
    let list = w.crossers(node);
    lemma_indices(
        w.rows().len() as int,
        w.crosses_at(w.network.node_at(node).intersection),
    );
    assert forall|a: int| 0 <= a < list.len() implies !w.crosser_presses(
        i,
        list[a] as int,
        other_of(w.point(node, k), m),
        #[trigger] p.inside@[a],
    ) by {
        assert(list[a] < w.rows().len());
        assert(list.contains(list[a] as int as usize));
        all_who_are_inside_are_crossers(w, node, list[a] as int);
        assert(is_inside(w, list[a] as int, node));
    }
}

/// A stream that has red is not waited for.
pub proof fn a_stream_on_red_is_not_waited_for(
    w: &NetWorld,
    i: int,
    m: MovementId,
    node: NodeId,
    points: Seq<PointPressure>,
)
    requires
        w.pressure_fits(node, points),
        forall|k: int, other: MovementId|
            0 <= k < points.len() && #[trigger] crosses_there(w, m, node, k, other) ==> shows(
                w,
                other,
                SignalState::Red,
            ),
    ensures
        !w.under_pressure(i, m, node, points),
{
    reveal(NetWorld::presses_at);
    if w.under_pressure(i, m, node, points) {
        let k = choose|k: int|
            0 <= k < w.network.node_at(node).conflicts@.len() && w.presses_at(
                i,
                m,
                node,
                k,
                #[trigger] points[k],
            );
        assert(crosses_there(w, m, node, k, other_of(w.point(node, k), m)));
    }
}

/// Once the turn is past every point that it shares, it waits for nobody; so does
/// one that shares none.
pub proof fn past_the_points_nobody_is_waited_for(
    w: &NetWorld,
    i: int,
    m: MovementId,
    node: NodeId,
    points: Seq<PointPressure>,
)
    requires
        w.pressure_fits(node, points),
        forall|k: int, other: MovementId|
            0 <= k < points.len() && #[trigger] crosses_there(w, m, node, k, other)
                ==> points[k].needed is None,
    ensures
        !w.under_pressure(i, m, node, points),
{
    reveal(NetWorld::presses_at);
    if w.under_pressure(i, m, node, points) {
        let k = choose|k: int|
            0 <= k < w.network.node_at(node).conflicts@.len() && w.presses_at(
                i,
                m,
                node,
                k,
                #[trigger] points[k],
            );
        assert(crosses_there(w, m, node, k, other_of(w.point(node, k), m)));
    }
}

/// A stream that is stopping for yellow is not waited for: where no crossing
/// stream has green, nobody else is inside, and every mover can stop at its line.
pub proof fn a_stream_stopping_for_yellow_is_not_waited_for(
    w: &NetWorld,
    i: int,
    m: MovementId,
    node: NodeId,
    points: Seq<PointPressure>,
)
    requires
        w.pressure_fits(node, points),
        forall|j: int| j != i ==> !#[trigger] is_inside(w, j, node),
        forall|k: int, other: MovementId|
            0 <= k < points.len() && #[trigger] crosses_there(w, m, node, k, other) ==> !shows(
                w,
                other,
                SignalState::Green,
            ),
        forall|k: int, j: int, b: int|
            0 <= k < points.len() && #[trigger] measured_at(w, node, points[k], j, b)
                ==> points[k].coming@[b].stop_dist.is_below(points[k].coming@[b].line_dist),
    ensures
        !w.under_pressure(i, m, node, points),
{
    reveal(NetWorld::presses_at);
    if w.under_pressure(i, m, node, points) {
        let k = choose|k: int|
            0 <= k < w.network.node_at(node).conflicts@.len() && w.presses_at(
                i,
                m,
                node,
                k,
                #[trigger] points[k],
            );
        let other = other_of(w.point(node, k), m);
        assert(crosses_there(w, m, node, k, other));
        lemma_nobody_inside(w, i, m, node, k, points[k]);
        let b = choose|b: int|
            0 <= b < w.approachers(node).len() && w.approacher_presses(
                w.approachers(node)[b] as int,
                other,
                #[trigger] points[k].coming@[b],
                points[k].needed->0,
            );
        assert(measured_at(w, node, points[k], w.approachers(node)[b] as int, b));
    }
}

} // verus!
