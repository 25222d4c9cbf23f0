//! What becomes of a vehicle at the end of its lane and at the far edge of a node.

use vstd::prelude::*;

use crate::boundary::{
    BLEND_LIMIT, BoundaryView, CHANGE_DONE, COMMITTED_SPEED_SQ, LandingView, MotionView,
    ReceivingView, STOP_WINDOW, nearness,
};
use crate::boxes::DEPARTING_SPEED;
use crate::fleet::{Fate, NetVehicle};
use crate::groups::GroupMap;
use crate::laws::boxes::paths_meet;
use crate::laws::gates::follows_a_departing_tail;
use crate::laws::priority::joins;
use crate::laws::terms::{end_node, runs_inside, shows};
use crate::network::{LaneId, MovementId, Network, NodeControl, SignalState, TurnType};
use crate::occupancy::{ShardMaps, Tail};
use crate::paths::nth_lane;
use crate::quantity::{Quantity, ZERO, place};
use crate::rooms::RAIL_CLOSURE_SECS;
use crate::search::{least_index, lemma_least};
use crate::world::NetWorld;

verus! {

/// The lane can take the whole vehicle beyond the box. Behind a tail: with the
/// margin to a departing one that may be followed, with room to commit otherwise.
/// On an empty lane: where nothing is promised, or the unit fits what is spare.
pub open spec fn has_room(w: &NetWorld, m: MovementId, occ: &ShardMaps, r: ReceivingView) -> bool {
    let to = w.network.movements@[m.0 as int].to_lane.0;
    if occ.front@.contains_key(to) {
        if place(DEPARTING_SPEED).is_at_most(occ.front@[to].speed) && follows_a_departing_tail(w, m) {
            r.margin.is_at_most(r.path_room)
        } else {
            r.commit_room.is_at_most(r.net_room)
        }
    } else {
        !occ.inbound@.contains_key(to) || occ.inbound@[to].is_at_most(place(ZERO))
            || r.unit.is_at_most(r.spare)
    }
}

/// A lane inside a junction holds one more; others are not counted.
pub open spec fn holds_one_more(w: &NetWorld, m: MovementId, occ: &ShardMaps, slots: u32) -> bool {
    let to = w.network.movements@[m.0 as int].to_lane;
    !runs_inside(&w.network, to) || (if occ.interior_occ@.contains_key(to.0) {
        occ.interior_occ@[to.0] < slots
    } else {
        0 < slots
    })
}

/// A vehicle that committed earlier this tick has a path that meets one of these.
pub open spec fn is_crossed_this_tick(w: &NetWorld, path: Seq<MovementId>, entered: &GroupMap<MovementId>) -> bool {
    exists|k: int, x: int|
        #![trigger path[k], entered_at(w, path[k], entered)[x]]
        0 <= k < path.len() && 0 <= x < entered_at(w, path[k], entered).len() && paths_meet(
            &w.network,
            path[k],
            entered_at(w, path[k], entered)[x],
        )
}

/// The movements committed to this tick at the movement's intersection.
pub open spec fn entered_at(w: &NetWorld, m: MovementId, entered: &GroupMap<MovementId>) -> Seq<MovementId> {
    let node = w.network.movements@[m.0 as int].node;
    entered.group(w.network.nodes@[node.0 as int].intersection)
}

proof fn lemma_crossed(w: &NetWorld, path: Seq<MovementId>, entered: &GroupMap<MovementId>)
    ensures
        w.meets_entered(path, entered) <==> is_crossed_this_tick(w, path, entered),
{
    let net = &w.network;
    if w.meets_entered(path, entered) {
        let k = choose|k: int|
            0 <= k < path.len() && w.entered_meets(#[trigger] path[k], entered);
        let list = entered_at(w, path[k], entered);
        let x = choose|x: int| 0 <= x < list.len() && net.paths_cross(path[k], #[trigger] list[x]);
        let c = choose|c: int|
            0 <= c < net.conflicts@.len() && Network::pairs(
                #[trigger] net.conflicts@[c],
                path[k],
                list[x],
            );
        assert(joins(net.conflicts@[c], path[k], list[x]));
        assert(paths_meet(net, path[k], list[x]));
        assert(entered_at(w, path[k], entered)[x] == list[x]);
    }
    if is_crossed_this_tick(w, path, entered) {
        let (k, x) = choose|k: int, x: int|
            #![trigger path[k], entered_at(w, path[k], entered)[x]]
            0 <= k < path.len() && 0 <= x < entered_at(w, path[k], entered).len() && paths_meet(
                net,
                path[k],
                entered_at(w, path[k], entered)[x],
            );
        let list = entered.group(w.movement_key(path[k]));
        assert(list == entered_at(w, path[k], entered));
        let c = choose|c: int| #![trigger net.conflicts@[c]]
            0 <= c < net.conflicts@.len() && joins(
                net.conflicts@[c],
                path[k],
                list[x],
            );
        assert(Network::pairs(net.conflicts@[c], path[k], list[x]));
        assert(net.paths_cross(path[k], list[x]));
        assert(w.entered_meets(path[k], entered));
    }
}

/// Light, meter and railway let the vehicle go on the movement: the light is not
/// red, or the vehicle is inside a junction, turns right after its stop, or misses
/// the light.
pub open spec fn is_let_go(w: &NetWorld, v: &NetVehicle, m: MovementId, misses_red: bool) -> bool {
    let end = end_node(&w.network, v.lane);
    let mv = w.network.movements@[m.0 as int];
    &&& !shows(w, m, SignalState::Red) || runs_inside(&w.network, v.lane) || (mv.turn
        == TurnType::Right && !mv.interchange && v.stopped_at == Some(end)) || misses_red
    &&& !w.meter_holds(w.network.lanes@[v.lane.0 as int].link)
    &&& !(w.network.nodes@[end.0 as int].rail_crossing && w.rail_since.is_below(
        place(RAIL_CLOSURE_SECS),
    ))
}

/// A vehicle is admitted to a node exactly when a free seam is open before it, or it
/// is let go with nothing in its way or too fast to stop, and has both room and a
/// slot beyond.
pub proof fn who_is_admitted(
    w: &NetWorld,
    v: &NetVehicle,
    m: MovementId,
    block: bool,
    occ: &ShardMaps,
    entered: &GroupMap<MovementId>,
    g: BoundaryView,
)
    ensures
        w.admits(v, m, block, occ, entered, g) <==> {
            let clear = !block && !is_crossed_this_tick(w, w.committed_path(v, m), entered);
            ||| w.is_free_seam(m) && clear
            ||| (is_let_go(w, v, m, g.misses_red) && clear || place(COMMITTED_SPEED_SQ).is_below(
                g.speed_sq,
            )) && has_room(w, m, occ, g.receiving) && holds_one_more(w, m, occ, g.slots)
        },
{
    lemma_crossed(w, w.committed_path(v, m), entered);
}

/// A vehicle at the end of its lane that is not admitted stands at the line at its
/// held speed; nothing else changes, and it stays on the road.
pub proof fn who_is_not_admitted_is_held_at_the_line(
    w: &NetWorld,
    before: &NetVehicle,
    after: &NetVehicle,
    block: bool,
    carried: Option<MovementId>,
    occ0: &ShardMaps,
    occ1: &ShardMaps,
    entered0: &GroupMap<MovementId>,
    entered1: &GroupMap<MovementId>,
    g: BoundaryView,
    r: Fate,
    m: MovementId,
)
    requires
        w.resolves_as(before, after, block, carried, occ0, occ1, entered0, entered1, g, r),
        carried == Some(m) || (carried is None && w.intended(before) == Some(m)),
        !w.admits(before, m, block, occ0, entered0, g),
    ensures
        r == Fate::Alive,
        after.position == w.network.lanes@[before.lane.0 as int].length,
        after.speed == g.held_speed,
        after.lane == before.lane,
        after.crossing == before.crossing,
        after.id == before.id,
        after.stopped_at == before.stopped_at,
        after.lane_change == before.lane_change,
        after.route_idx == before.route_idx,
        occ1.front@ == occ0.front@,
        occ1.inbound@ == occ0.inbound@,
        occ1.interior_occ@ == occ0.interior_occ@,
        entered1 == entered0,
{
}

/// One that is admitted is on its movement, or beyond it: where its path is longer
/// than it has come it is inside on that movement, with no sideways move; its place
/// on the lane it leaves is free, its slot and space beyond are taken.
pub proof fn who_is_admitted_is_inside(
    w: &NetWorld,
    before: &NetVehicle,
    after: &NetVehicle,
    block: bool,
    carried: Option<MovementId>,
    occ0: &ShardMaps,
    occ1: &ShardMaps,
    entered0: &GroupMap<MovementId>,
    entered1: &GroupMap<MovementId>,
    g: BoundaryView,
    r: Fate,
    m: MovementId,
)
    requires
        w.resolves_as(before, after, block, carried, occ0, occ1, entered0, entered1, g, r),
        carried == Some(m) || (carried is None && w.intended(before) == Some(m)),
        w.admits(before, m, block, occ0, entered0, g),
        NetWorld::countable(occ0),
    ensures
        r != Fate::Exited,
        r != Fate::Leaked,
        g.landing.arc.is_below(g.landing.path_len) ==> {
            &&& r == Fate::Alive
            &&& after.crossing matches Some(c) && c.movement == m && c.lat_shift == (
            if before.lane_change is Some {
                g.lat_shift
            } else {
                place(ZERO)
            })
            &&& after.lane_change is None
            &&& after.lane == before.lane
            &&& after.position == before.position
            &&& after.speed == before.speed
            &&& occ1.front@ == occ0.front@
            &&& w.is_free_seam(m) ==> occ1.inbound@ == occ0.inbound@
            &&& !w.is_free_seam(m) ==> occ1.inbound@ == occ0.inbound@.insert(
                w.network.movements@[m.0 as int].to_lane.0,
                g.promised_with,
            )
        },
        ({
            let to = w.network.movements@[m.0 as int].to_lane;
            let from = before.lane;
            &&& runs_inside(&w.network, to) && to != from ==> occ1.taken(to) == occ0.taken(to) + 1
            &&& runs_inside(&w.network, from) && to != from ==> occ1.taken(from) == (if occ0.taken(
                from,
            ) > 0 {
                occ0.taken(from) - 1
            } else {
                0
            })
            &&& forall|l: LaneId|
                l != to && l != from ==> #[trigger] occ1.taken(l) == occ0.taken(l)
        }),
{
}

/// A vehicle without a movement leaves the network: it leaks where its route goes on
/// and some link starts at its node, and has arrived otherwise.
pub proof fn who_has_no_movement_leaves(
    w: &NetWorld,
    before: &NetVehicle,
    after: &NetVehicle,
    block: bool,
    occ0: &ShardMaps,
    occ1: &ShardMaps,
    entered0: &GroupMap<MovementId>,
    entered1: &GroupMap<MovementId>,
    g: BoundaryView,
    r: Fate,
)
    requires
        w.resolves_as(before, after, block, None, occ0, occ1, entered0, entered1, g, r),
        w.intended(before) is None,
    ensures
        *after == *before,
        occ1.front@ == occ0.front@,
        occ1.inbound@ == occ0.inbound@,
        occ1.interior_occ@ == occ0.interior_occ@,
        entered1 == entered0,
        r == Fate::Exited || r == Fate::Leaked,
        r == Fate::Leaked <==> (exists|l: int|
            0 <= l < w.network.links@.len() && (#[trigger] w.network.links@[l]).from == end_node(
                &w.network,
                before.lane,
            )) && (if before.dest is Some && w.router is Some {
            w.router->0.hop(before.dest->0, w.network.lanes@[before.lane.0 as int].link) is Some
        } else {
            before.route_idx + 1 < before.route@.len()
        }),
{
}

proof fn lemma_at_key(w: &NetWorld, path: Seq<MovementId>, key: u32, m: MovementId)
    ensures
        w.at_key(path, key).contains(m) <==> path.contains(m) && w.movement_key(m) == key,
    decreases path.len(),
{
    if path.len() > 0 {
        lemma_at_key(w, path.drop_last(), key, m);
        let before = w.at_key(path.drop_last(), key);
        let now = w.at_key(path, key);
        assert(path.contains(m) <==> path.drop_last().contains(m) || path.last() == m) by {
            if path.contains(m) {
                let k = choose|k: int| 0 <= k < path.len() && path[k] == m;
                if k < path.len() - 1 {
                    assert(path.drop_last()[k] == m);
                }
            }
            if path.drop_last().contains(m) {
                let k = choose|k: int| 0 <= k < path.drop_last().len() && path.drop_last()[k] == m;
                assert(path[k] == m);
            }
            if path.last() == m {
                assert(path[path.len() - 1] == m);
            }
        }
        if w.movement_key(path.last()) == key {
            assert(now == before.push(path.last()));
            assert(now.contains(m) <==> before.contains(m) || path.last() == m) by {
                if before.contains(m) {
                    let k = choose|k: int| 0 <= k < before.len() && before[k] == m;
                    assert(now[k] == m);
                }
                if path.last() == m {
                    assert(now[before.len() as int] == m);
                }
                if now.contains(m) {
                    let k = choose|k: int| 0 <= k < now.len() && now[k] == m;
                    if k < before.len() {
                        assert(before[k] == m);
                    }
                }
            }
        }
    }
}

/// An admitted vehicle registers every movement of its way through the junction at
/// that movement's intersection, for others of the same tick to see; on a free seam
/// or a merge or diverge it registers nothing. Nothing registered before is lost.
pub proof fn who_enters_registers_its_way(
    w: &NetWorld,
    before: &NetVehicle,
    after: &NetVehicle,
    block: bool,
    carried: Option<MovementId>,
    occ0: &ShardMaps,
    occ1: &ShardMaps,
    entered0: &GroupMap<MovementId>,
    entered1: &GroupMap<MovementId>,
    g: BoundaryView,
    r: Fate,
    m: MovementId,
    x: MovementId,
    key: u32,
)
    requires
        w.resolves_as(before, after, block, carried, occ0, occ1, entered0, entered1, g, r),
        carried == Some(m) || (carried is None && w.intended(before) == Some(m)),
        w.admits(before, m, block, occ0, entered0, g),
    ensures
        entered1.group(key).contains(x) <==> entered0.group(key).contains(x) || (!w.is_free_seam(m)
            && !w.network.movements@[m.0 as int].interchange && w.committed_path(before, m).contains(
            x,
        ) && w.network.nodes@[w.network.movements@[x.0 as int].node.0 as int].intersection == key),
{
    let own = w.at_key(w.registers(before, m), key);
    let (old_list, new_list) = (entered0.group(key), entered1.group(key));
    assert(new_list == old_list + own);
    lemma_at_key(w, w.registers(before, m), key, x);
    assert(new_list.contains(x) <==> old_list.contains(x) || own.contains(x)) by {
        if old_list.contains(x) {
            let k = choose|k: int| 0 <= k < old_list.len() && old_list[k] == x;
            assert(new_list[k] == x);
        }
        if own.contains(x) {
            let k = choose|k: int| 0 <= k < own.len() && own[k] == x;
            assert(new_list[old_list.len() + k] == x);
        }
        if new_list.contains(x) {
            let k = choose|k: int| 0 <= k < new_list.len() && new_list[k] == x;
            if k < old_list.len() {
                assert(old_list[k] == x);
            } else {
                assert(own[k - old_list.len()] == x);
            }
        }
    }
    if w.is_free_seam(m) || w.network.movements@[m.0 as int].interchange {
        assert(w.registers(before, m).len() == 0);
    }
}

/// The landing is in the way of a vehicle at the far edge: it would end inside the
/// tail, or, off the free seams, the tail leaves less than the gap.
pub open spec fn cannot_land(w: &NetWorld, v: &NetVehicle, tail: Option<Tail>, g: LandingView) -> bool {
    tail is Some && (g.behind_tail.is_below(g.land_pos) || (!w.is_free_seam(
        (v.crossing->0).movement,
    ) && !v.driver.min_gap.is_at_most(tail->0.rear)))
}

/// A vehicle short of the end of its path stays inside as it is.
pub proof fn a_vehicle_on_its_path_stays_inside(
    w: &NetWorld,
    before: &NetVehicle,
    after: &NetVehicle,
    speed: Quantity,
    position: Quantity,
    occ0: &ShardMaps,
    occ1: &ShardMaps,
    g: LandingView,
    r: Fate,
)
    requires
        w.crosses_as(before, after, speed, position, occ0, occ1, g, r),
        g.arc.is_below(g.path_len),
    ensures
        *after == (NetVehicle { speed, position, ..*before }),
        r == Fate::Alive,
        occ1.front@ == occ0.front@,
        occ1.inbound@ == occ0.inbound@,
        occ1.interior_occ@ == occ0.interior_occ@,
{
}

/// One at the end of its path that cannot land is held at the far edge.
pub proof fn who_cannot_land_is_held_at_the_edge(
    w: &NetWorld,
    before: &NetVehicle,
    after: &NetVehicle,
    speed: Quantity,
    position: Quantity,
    occ0: &ShardMaps,
    occ1: &ShardMaps,
    g: LandingView,
    r: Fate,
)
    requires
        w.crosses_as(before, after, speed, position, occ0, occ1, g, r),
        !g.arc.is_below(g.path_len),
        cannot_land(
            w,
            before,
            occ0.tail(w.network.movements@[(before.crossing->0).movement.0 as int].to_lane),
            g,
        ),
    ensures
        *after == (NetVehicle { speed: g.held_speed, position: g.edge_pos, ..*before }),
        r == Fate::Alive,
        occ1.front@ == occ0.front@,
        occ1.inbound@ == occ0.inbound@,
        occ1.interior_occ@ == occ0.interior_occ@,
{
}

/// One that can land rolls on the landing lane from where it lands: no faster than
/// it can follow the tail, its stop no longer served, one link farther on its route
/// where the route says so; the lane's tail is then the rearmost of the two, and its
/// promise is redeemed.
pub proof fn who_can_land_lands(
    w: &NetWorld,
    before: &NetVehicle,
    after: &NetVehicle,
    speed: Quantity,
    position: Quantity,
    occ0: &ShardMaps,
    occ1: &ShardMaps,
    g: LandingView,
    r: Fate,
)
    requires
        w.crosses_as(before, after, speed, position, occ0, occ1, g, r),
        !g.arc.is_below(g.path_len),
        !cannot_land(
            w,
            before,
            occ0.tail(w.network.movements@[(before.crossing->0).movement.0 as int].to_lane),
            g,
        ),
        !speed.is_nan(),
        !g.safe_speed.is_nan(),
    ensures
        ({
            let m = (before.crossing->0).movement;
            let to = w.network.movements@[m.0 as int].to_lane;
            let link = w.network.lanes@[to.0 as int].link;
            let tail = occ0.tail(to);
            &&& r == Fate::Entered(link)
            &&& after.lane == to
            &&& after.crossing is None
            &&& after.position == g.land_pos
            &&& after.stopped_at is None
            &&& after.id == before.id
            &&& after.dest == before.dest
            &&& after.route == before.route
            &&& after.driver == before.driver
            &&& after.wait_ticks == before.wait_ticks
            &&& after.wreck == before.wreck
            &&& after.slept == before.slept
            &&& tail is None ==> after.speed == speed
            &&& tail is Some ==> after.speed.is_at_most(speed) && after.speed.is_at_most(g.safe_speed)
                && (after.speed == speed || after.speed == g.safe_speed)
            &&& after.route_idx == (if before.route_idx + 1 < before.route@.len()
                && before.route@[before.route_idx + 1] == link {
                before.route_idx + 1
            } else {
                before.route_idx as int
            })
            &&& after.lane_change is Some <==> w.network.movements@[m.0 as int].continuation
                && g.blend_from is Some && g.blend.is_below(place(BLEND_LIMIT))
            &&& after.lane_change matches Some(c) ==> Some(c.from) == g.blend_from && c.progress
                == g.blend
            &&& tail is None || g.rear.is_below(tail->0.rear) ==> occ1.tail(to) == Some(
                Tail { rear: g.rear, speed: after.speed },
            )
            &&& tail is Some && !g.rear.is_below(tail->0.rear) ==> occ1.tail(to) == tail
            &&& forall|l: LaneId| l != to ==> #[trigger] occ1.tail(l) == occ0.tail(l)
            &&& !w.is_free_seam(m) && occ0.inbound@.contains_key(to.0) ==> occ1.promised(to)
                == g.promised_after
            &&& w.is_free_seam(m) || !occ0.inbound@.contains_key(to.0) ==> occ1.inbound@
                == occ0.inbound@
            &&& forall|l: LaneId| l != to ==> #[trigger] occ1.promised(l) == occ0.promised(l)
            &&& occ1.interior_occ@ == occ0.interior_occ@
        }),
{
    assert(before.route@.len() == before.route.len());
}

/// Within its lane a vehicle is where it was measured to be. It has served its stop
/// once it is slow enough close to a line where a stop is due; its sideways move is
/// over once it is done.
pub proof fn motion_within_a_lane(w: &NetWorld, v: &NetVehicle, m: Option<MovementId>, g: MotionView)
    ensures
        ({
            let after = w.after_motion(v, m, g);
            let end = end_node(&w.network, v.lane);
            let link = w.network.links@[w.network.lanes@[v.lane.0 as int].link.0 as int];
            let due = (w.network.nodes@[end.0 as int].control == NodeControl::Stop && link.stop_line)
                || (m is Some && shows(w, m->0, SignalState::Red)
                && w.network.movements@[(m->0).0 as int].turn == TurnType::Right
                && !w.network.movements@[(m->0).0 as int].interchange);
            &&& after.position == g.position
            &&& after.speed == g.speed
            &&& after.lane == v.lane
            &&& after.crossing == v.crossing
            &&& due && g.speed.is_below(g.roll_speed) && g.to_line.is_below(place(STOP_WINDOW))
                ==> after.stopped_at == Some(end)
            &&& !due || !g.speed.is_below(g.roll_speed) || !g.to_line.is_below(place(STOP_WINDOW))
                ==> after.stopped_at == v.stopped_at
            &&& after.lane_change is Some <==> v.lane_change is Some && !place(
                CHANGE_DONE,
            ).is_at_most(g.progress)
            &&& after.lane_change matches Some(c) ==> c.from == (v.lane_change->0).from && c.progress
                == g.progress
            &&& after.wait_ticks == v.wait_ticks
            &&& after.wreck == v.wreck
            &&& after.slept == v.slept
            &&& after.id == v.id
        }),
{
}

/// The lane that a landing blends from is another lane of the link, the nearest one;
/// only a continuation onto several lanes has one.
pub proof fn a_landing_blends_from_the_nearest_other_lane(w: &NetWorld, m: MovementId, d2: Seq<Quantity>, k: int)
    requires
        w.network.wf(),
        w.network.has_movement(m),
    ensures
        ({
            let link = w.network.lanes@[w.network.movements@[m.0 as int].to_lane.0 as int].link;
            let l = w.network.links@[link.0 as int];
            let to = w.network.movements@[m.0 as int].to_lane;
            &&& !w.network.movements@[m.0 as int].continuation || l.lane_count <= 1
                ==> w.blend_neighbour(m, d2) is None
            &&& w.network.movements@[m.0 as int].continuation && l.lane_count > 1 && 0 <= k
                < l.lane_count && l.lane_start.0 + k != to.0 ==> {
                &&& w.blend_neighbour(m, d2) matches Some(b) && b != to && l.lane_start.0 <= b.0
                    < l.lane_start.0 + l.lane_count
                &&& d2[(w.blend_neighbour(m, d2)->0).0 - l.lane_start.0].key <= d2[k].key
            }
        }),
{
    let net = &w.network;
    assert(net.movement_ok(m.0 as int));
    let to = net.movements@[m.0 as int].to_lane;
    assert(net.lane_ok(to.0 as int));
    let link = net.lanes@[to.0 as int].link;
    let l = net.links@[link.0 as int];
    assert(net.link_ok(link.0 as int));
    let n = l.lane_count as int;
    let cost = nearness(w, m, d2);
    lemma_least(n, cost);
    if 0 <= k < n && l.lane_start.0 + k != to.0 {
        assert(nth_lane(net, link, k) != to);
        assert(cost(k) == Some(d2[k].key as int));
        if least_index(n, cost) is Some {
            let b = least_index(n, cost)->0;
            assert(cost(b) is Some);
            assert(cost(b) == Some(d2[b].key as int));
        }
    }
}

} // verus!
