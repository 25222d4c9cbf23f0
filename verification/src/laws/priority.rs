//! Who yields to whom where no light decides, and whose turn it is at a stop.

use vstd::prelude::*;

use crate::boxes::Room;
use crate::fleet::NetVehicle;
use crate::laws::terms::{
    all_who_roll_towards_are_approachers, is_rearmost,
    nobody_is_behind_the_nearest_to_the_entrance, rolls_towards,
    the_rearmost_is_nearest_the_entrance,
};
use crate::neighbors::MOVING_SPEED;
use crate::network::{Conflict, LaneId, MovementId, Network, NodeId, TurnType};
use crate::quantity::place;
use crate::search::lemma_indices;
use crate::world::NetWorld;
use crate::yielding::{OPPOSING_ANGLE, PARALLEL_ANGLE, Rival, priority_of};

verus! {

/// The vehicle means to make this turn; one without a movement ahead goes straight.
pub open spec fn means_to_go(w: &NetWorld, v: &NetVehicle, t: TurnType) -> bool {
    match w.intended(v) {
        Some(m) => w.network.movements@[m.0 as int].turn == t,
        None => t == TurnType::Through,
    }
}

/// The entry with number `b` is row `j`'s.
pub open spec fn is_entry_of(w: &NetWorld, node: NodeId, j: int, b: int) -> bool {
    0 <= b < w.approachers(node).len() && w.approachers(node)[b] == j as usize
}

/// Another vehicle that moves towards the intersection on another link than the
/// lane's, inside the accepted gap by every entry of its.
pub open spec fn arrives_in_time(
    w: &NetWorld,
    i: int,
    lane: LaneId,
    node: NodeId,
    rivals: Seq<Rival>,
    j: int,
) -> bool {
    &&& rolls_towards(w, j, node)
    &&& j != i
    &&& w.network.lanes@[w.rows()[j].lane.0 as int].link != w.network.lanes@[lane.0 as int].link
    &&& place(MOVING_SPEED).is_at_most(w.rows()[j].speed)
    &&& forall|b: int|
        #[trigger] is_entry_of(w, node, j, b) ==> rivals[b].arrival.is_below(rivals[b].critical)
}

/// Where two approaches cross, a vehicle yields to one on a road of higher
/// priority that arrives inside the gap.
pub proof fn the_lesser_road_yields_at_a_crossing(
    w: &NetWorld,
    i: int,
    lane: LaneId,
    node: NodeId,
    rivals: Seq<Rival>,
    j: int,
)
    requires
        rivals.len() == w.approachers(node).len(),
        arrives_in_time(w, i, lane, node, rivals, j),
        forall|b: int|
            #[trigger] is_entry_of(w, node, j, b) ==> !rivals[b].angle.is_below(
                place(PARALLEL_ANGLE),
            ) && !place(OPPOSING_ANGLE).is_below(rivals[b].angle),
        ({
            let mine = w.network.lanes@[lane.0 as int].link;
            let theirs = w.network.lanes@[w.rows()[j].lane.0 as int].link;
            priority_of(w.network.links@[mine.0 as int], mine) < priority_of(
                w.network.links@[theirs.0 as int],
                theirs,
            )
        }),
    ensures
        w.must_yield(i, lane, node, rivals),
{
    assert(w.rows().len() == w.fleet.rows.len());
    all_who_roll_towards_are_approachers(w, node, j);
    let list = w.approachers(node);
    let b = choose|b: int| 0 <= b < list.len() && list[b] == j as usize;
    assert(is_entry_of(w, node, j, b));
    assert(w.has_priority_over(i, lane, list[b] as int, rivals[b]));
}

/// A left turn yields to oncoming traffic that does not turn left, whatever the
/// roads.
pub proof fn a_left_turn_yields_to_oncoming_traffic(
    w: &NetWorld,
    i: int,
    lane: LaneId,
    node: NodeId,
    rivals: Seq<Rival>,
    j: int,
)
    requires
        rivals.len() == w.approachers(node).len(),
        arrives_in_time(w, i, lane, node, rivals, j),
        forall|b: int|
            #[trigger] is_entry_of(w, node, j, b) ==> !rivals[b].angle.is_below(
                place(PARALLEL_ANGLE),
            ) && place(OPPOSING_ANGLE).is_below(rivals[b].angle),
        means_to_go(w, &w.rows()[i], TurnType::Left),
        !means_to_go(w, &w.rows()[j], TurnType::Left),
    ensures
        w.must_yield(i, lane, node, rivals),
{
    assert(w.rows().len() == w.fleet.rows.len());
    all_who_roll_towards_are_approachers(w, node, j);
    let list = w.approachers(node);
    let b = choose|b: int| 0 <= b < list.len() && list[b] == j as usize;
    assert(is_entry_of(w, node, j, b));
    assert(w.has_priority_over(i, lane, list[b] as int, rivals[b]));
}

/// Whoever turns yields to traffic that goes straight across its path, at any
/// angle and whatever the roads.
pub proof fn a_turn_yields_to_the_straight_path_it_crosses(
    w: &NetWorld,
    i: int,
    lane: LaneId,
    node: NodeId,
    rivals: Seq<Rival>,
    j: int,
    mine: MovementId,
    theirs: MovementId,
    c: int,
)
    requires
        rivals.len() == w.approachers(node).len(),
        arrives_in_time(w, i, lane, node, rivals, j),
        w.intended(&w.rows()[i]) == Some(mine),
        w.intended(&w.rows()[j]) == Some(theirs),
        w.network.movements@[mine.0 as int].turn != TurnType::Through,
        w.network.movements@[theirs.0 as int].turn == TurnType::Through,
        0 <= c < w.network.conflicts@.len(),
        joins(w.network.conflicts@[c], mine, theirs),
    ensures
        w.must_yield(i, lane, node, rivals),
{
    assert(w.rows().len() == w.fleet.rows.len());
    all_who_roll_towards_are_approachers(w, node, j);
    let list = w.approachers(node);
    let b = choose|b: int| 0 <= b < list.len() && list[b] == j as usize;
    assert(is_entry_of(w, node, j, b));
    assert(Network::pairs(w.network.conflicts@[c], mine, theirs));
    assert(w.network.paths_cross(mine, theirs));
    assert(w.has_priority_over(i, lane, list[b] as int, rivals[b]));
}

/// The conflict is between these two movements, in either order.
pub open spec fn joins(c: Conflict, a: MovementId, b: MovementId) -> bool {
    (c.a == a && c.b == b) || (c.a == b && c.b == a)
}

/// Nobody has priority over a vehicle but another one on another link that moves
/// and arrives inside the gap.
pub proof fn only_timely_traffic_has_priority(w: &NetWorld, i: int, lane: LaneId, j: int, r: Rival)
    requires
        w.has_priority_over(i, lane, j, r),
    ensures
        j != i,
        w.network.lanes@[w.rows()[j].lane.0 as int].link != w.network.lanes@[lane.0 as int].link,
        !w.rows()[j].speed.is_below(place(MOVING_SPEED)),
        !r.critical.is_at_most(r.arrival),
{
}

/// A vehicle that goes straight yields only at a crossing of approaches, and only
/// to a road of higher priority.
pub proof fn straight_traffic_yields_only_to_the_greater_road(
    w: &NetWorld,
    i: int,
    lane: LaneId,
    j: int,
    r: Rival,
)
    requires
        w.has_priority_over(i, lane, j, r),
        means_to_go(w, &w.rows()[i], TurnType::Through),
    ensures
        !r.angle.is_below(place(PARALLEL_ANGLE)),
        !place(OPPOSING_ANGLE).is_below(r.angle),
        ({
            let mine = w.network.lanes@[lane.0 as int].link;
            let theirs = w.network.lanes@[w.rows()[j].lane.0 as int].link;
            priority_of(w.network.links@[mine.0 as int], mine) < priority_of(
                w.network.links@[theirs.0 as int],
                theirs,
            )
        }),
{
}

/// Two that both turn: side by side neither yields; head on only a left turn, and
/// never to a left turn; at a crossing only to the greater road.
pub proof fn turning_traffic_yields_by_angle(w: &NetWorld, i: int, lane: LaneId, j: int, r: Rival)
    requires
        w.has_priority_over(i, lane, j, r),
        !means_to_go(w, &w.rows()[j], TurnType::Through),
    ensures
        !r.angle.is_below(place(PARALLEL_ANGLE)),
        place(OPPOSING_ANGLE).is_below(r.angle) ==> means_to_go(w, &w.rows()[i], TurnType::Left)
            && !means_to_go(w, &w.rows()[j], TurnType::Left),
        !place(OPPOSING_ANGLE).is_below(r.angle) ==> ({
            let mine = w.network.lanes@[lane.0 as int].link;
            let theirs = w.network.lanes@[w.rows()[j].lane.0 as int].link;
            priority_of(w.network.links@[mine.0 as int], mine) < priority_of(
                w.network.links@[theirs.0 as int],
                theirs,
            )
        }),
{
}

/// Without anybody who moves towards the intersection on another link inside the
/// gap, a vehicle has nobody to yield to.
pub proof fn an_empty_gap_is_taken(w: &NetWorld, i: int, lane: LaneId, node: NodeId, rivals: Seq<Rival>)
    requires
        rivals.len() == w.approachers(node).len(),
        forall|j: int, b: int|
            #[trigger] is_entry_of(w, node, j, b) ==> j == i || w.rows()[j].speed.is_below(
                place(MOVING_SPEED),
            ) || rivals[b].critical.is_at_most(rivals[b].arrival)
                || w.network.lanes@[w.rows()[j].lane.0 as int].link
                == w.network.lanes@[lane.0 as int].link,
    ensures
        !w.must_yield(i, lane, node, rivals),
{
    if w.must_yield(i, lane, node, rivals) {
        let b = choose|b: int|
            0 <= b < w.approachers(node).len() && w.has_priority_over(
                i,
                lane,
                w.approachers(node)[b] as int,
                #[trigger] rivals[b],
            );
        assert(is_entry_of(w, node, w.approachers(node)[b] as int, b));
    }
}

/// Row `j` is at the head of the turns at a stop: standing, its stop served at the
/// same intersection, nobody behind it on its lane, and standing longer than row
/// `i`, or as long with the lower id.
pub open spec fn is_due_before(w: &NetWorld, i: int, node: NodeId, j: int) -> bool {
    let o = w.rows()[j];
    let me = w.rows()[i];
    &&& rolls_towards(w, j, node)
    &&& j != i
    &&& o.speed.is_at_most(place(MOVING_SPEED))
    &&& o.stopped_at is Some
    &&& w.network.nodes@[(o.stopped_at->0).0 as int].intersection
        == w.network.nodes@[node.0 as int].intersection
    &&& is_rearmost(w, j)
    &&& o.wait_ticks > me.wait_ticks || (o.wait_ticks == me.wait_ticks && o.id < me.id)
}

/// A vehicle waits its turn for one that is due before it, whose path crosses its
/// own, and whose landing has nobody on it.
pub proof fn who_is_due_before_goes_first(
    w: &NetWorld,
    i: int,
    m: MovementId,
    node: NodeId,
    rooms: Seq<Room>,
    j: int,
    theirs: MovementId,
    c: int,
)
    requires
        rooms.len() == w.approachers(node).len(),
        is_due_before(w, i, node, j),
        w.intended(&w.rows()[j]) == Some(theirs),
        0 <= c < w.network.conflicts@.len(),
        joins(w.network.conflicts@[c], m, theirs),
        forall|x: int|
            0 <= x < w.rows().len() ==> (#[trigger] w.rows()[x]).lane
                != w.network.movements@[theirs.0 as int].to_lane,
    ensures
        w.waits_turn(i, m, node, rooms),
{
    assert(w.rows().len() == w.fleet.rows.len());
    all_who_roll_towards_are_approachers(w, node, j);
    the_rearmost_is_nearest_the_entrance(w, j);
    nobody_is_behind_the_nearest_to_the_entrance(w, w.network.landing(theirs));
    let list = w.approachers(node);
    let b = choose|b: int| 0 <= b < list.len() && list[b] == j as usize;
    assert(Network::pairs(w.network.conflicts@[c], m, theirs));
    assert(w.network.paths_cross(m, theirs));
    assert(w.goes_before(i, m, node, list[b] as int, rooms[b]));
}

/// Also for one with a vehicle on its landing, where the room that is left there
/// suffices both by the rear at hand and after
/// it has cleared.
pub proof fn who_is_due_before_and_has_room_goes_first(
    w: &NetWorld,
    i: int,
    m: MovementId,
    node: NodeId,
    rooms: Seq<Room>,
    j: int,
    theirs: MovementId,
    c: int,
)
    requires
        rooms.len() == w.approachers(node).len(),
        is_due_before(w, i, node, j),
        w.intended(&w.rows()[j]) == Some(theirs),
        0 <= c < w.network.conflicts@.len(),
        joins(w.network.conflicts@[c], m, theirs),
        forall|b: int|
            #[trigger] is_entry_of(w, node, j, b) ==> !rooms[b].rear.is_below(rooms[b].commit_room)
                && !rooms[b].clear_after.is_below(rooms[b].margin),
    ensures
        w.waits_turn(i, m, node, rooms),
{
    assert(w.rows().len() == w.fleet.rows.len());
    all_who_roll_towards_are_approachers(w, node, j);
    the_rearmost_is_nearest_the_entrance(w, j);
    let list = w.approachers(node);
    let b = choose|b: int| 0 <= b < list.len() && list[b] == j as usize;
    assert(is_entry_of(w, node, j, b));
    assert(Network::pairs(w.network.conflicts@[c], m, theirs));
    assert(w.network.paths_cross(m, theirs));
    assert(w.goes_before(i, m, node, list[b] as int, rooms[b]));
}

/// A turn is waited for only of another vehicle that stands, has served its stop
/// at the intersection, has nobody behind it on its lane, has stood no less, and
/// whose path crosses.
pub proof fn only_who_stood_longer_goes_first(w: &NetWorld, i: int, m: MovementId, node: NodeId, j: int, room: Room)
    requires
        0 <= j < w.rows().len(),
        w.goes_before(i, m, node, j, room),
    ensures
        j != i,
        !place(MOVING_SPEED).is_below(w.rows()[j].speed),
        w.rows()[j].stopped_at is Some,
        w.network.nodes@[(w.rows()[j].stopped_at->0).0 as int].intersection
            == w.network.nodes@[node.0 as int].intersection,
        w.rows()[j].wait_ticks >= w.rows()[i].wait_ticks,
        w.rows()[j].wait_ticks == w.rows()[i].wait_ticks ==> w.rows()[j].id < w.rows()[i].id,
        forall|x: int|
            0 <= x < w.rows().len() && (#[trigger] w.rows()[x]).lane == w.rows()[j].lane
                ==> w.rows()[j].position.key <= w.rows()[x].position.key,
        w.intended(&w.rows()[j]) is Some,
        exists|c: int|
            0 <= c < w.network.conflicts@.len() && joins(
                #[trigger] w.network.conflicts@[c],
                m,
                w.intended(&w.rows()[j])->0,
            ),
{
    assert(w.rows().len() == w.fleet.rows.len());
    nobody_is_behind_the_nearest_to_the_entrance(w, w.rows()[j].lane);
    let theirs = w.intended(&w.rows()[j])->0;
    assert(w.network.paths_cross(m, theirs));
    let c = choose|c: int|
        0 <= c < w.network.conflicts@.len() && Network::pairs(
            #[trigger] w.network.conflicts@[c],
            m,
            theirs,
        );
    assert(joins(w.network.conflicts@[c], m, theirs));
}

/// Where nobody else that stands has its stop served at the intersection, no turn
/// is waited for.
pub proof fn the_only_one_stopped_goes(w: &NetWorld, i: int, m: MovementId, node: NodeId, rooms: Seq<Room>)
    requires
        rooms.len() == w.approachers(node).len(),
        forall|j: int|
            0 <= j < w.rows().len() && j != i ==> (#[trigger] w.rows()[j]).stopped_at is None,
    ensures
        !w.waits_turn(i, m, node, rooms),
{
    assert(w.rows().len() == w.fleet.rows.len());
    lemma_indices(
        w.rows().len() as int,
        w.approaches(w.network.node_at(node).intersection),
    );
}

} // verus!
