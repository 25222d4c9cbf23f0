//! Which movement a vehicle takes next, and what it holds on the lanes.

use vstd::prelude::*;

use crate::fleet::NetVehicle;
use crate::laws::terms::{leads_to, runs_inside, the_first_movement_onto_a_link_is_found};
use crate::network::{LaneId, LinkId, MovementId};
use crate::occupancy::{MAX_FINITE, ShardMaps};
use crate::paths::{movement_onto, moves_on, nth_lane};
use crate::quantity::{Quantity, place};
use crate::search::{
    count_where, first_index, least_index, lemma_count_agree, lemma_count_zero, lemma_first_index,
    lemma_first_index_is, lemma_least,
};
use crate::world::NetWorld;

verus! {

/// The link that the vehicle's path says comes next: the router's where it has a
/// destination and there is a router, else the next of its route.
pub open spec fn next_link(w: &NetWorld, v: &NetVehicle) -> Option<LinkId> {
    if v.dest is Some && w.router is Some {
        w.router->0.hop(v.dest->0, w.network.lanes@[v.lane.0 as int].link)
    } else if v.route_idx + 1 < v.route@.len() {
        Some(v.route@[v.route_idx + 1])
    } else {
        None
    }
}

/// A vehicle takes a movement onto the next link of its path, the first one there
/// is, wherever its lane has one.
pub proof fn the_path_is_followed_where_the_lane_serves_it(w: &NetWorld, v: &NetVehicle, next: LinkId)
    requires
        w.network.wf(),
        w.network.has_lane(v.lane),
        next_link(w, v) == Some(next),
        leads_to(&w.network, v.lane, next),
    ensures
        w.intended(v) matches Some(m) && {
            let l = w.network.lanes@[v.lane.0 as int];
            &&& l.movement_start.0 <= m.0 < l.movement_start.0 + l.movement_count
            &&& w.network.lanes@[w.network.movements@[m.0 as int].to_lane.0 as int].link == next
            &&& forall|x: int|
                #![trigger w.network.movements@[x]]
                l.movement_start.0 <= x < m.0
                    ==> w.network.lanes@[w.network.movements@[x].to_lane.0 as int].link != next
        },
{
    the_first_movement_onto_a_link_is_found(&w.network, v.lane, next);
}

/// A vehicle whose path ends here takes no movement: with a destination and a router
/// where the router has no hop, otherwise at the last link of its route.
pub proof fn a_path_that_ends_leaves_no_movement(w: &NetWorld, v: &NetVehicle)
    ensures
        v.dest is Some && w.router is Some && w.router->0.hop(
            v.dest->0,
            w.network.lanes@[v.lane.0 as int].link,
        ) is None ==> w.intended(v) is None,
        (v.dest is None || w.router is None) && v.route@.len() > 0 && v.route_idx + 1
            >= v.route@.len() ==> w.intended(v) is None,
{
}

/// In a lane that does not serve its path, or without a path, a vehicle takes the
/// stopgap of its lane.
pub proof fn off_its_path_a_vehicle_takes_the_stopgap(w: &NetWorld, v: &NetVehicle)
    requires
        w.network.wf(),
        w.network.has_lane(v.lane),
    ensures
        next_link(w, v) matches Some(next) && !leads_to(&w.network, v.lane, next) ==> w.intended(v)
            == w.stopgap(v, v.lane),
        (v.dest is None || w.router is None) && v.route@.len() == 0 ==> w.intended(v) == w.stopgap(
            v,
            v.lane,
        ),
{
    if next_link(w, v) is Some {
        the_first_movement_onto_a_link_is_found(&w.network, v.lane, next_link(w, v)->0);
    }
}

/// The stopgap is the lane's movement from whose landing the least remains to the
/// destination, where any leads there: whatever remains after another, no less
/// remains than after this one.
pub proof fn the_stopgap_lands_nearest_the_destination(
    w: &NetWorld,
    v: &NetVehicle,
    lane: LaneId,
    x: int,
    d: u128,
)
    requires
        w.network.wf(),
        w.network.has_lane(lane),
        v.dest is Some,
        w.router is Some,
        ({
            let l = w.network.lanes@[lane.0 as int];
            l.movement_start.0 <= x < l.movement_start.0 + l.movement_count
        }),
        w.router->0.remaining(
            v.dest->0,
            w.network.lanes@[w.network.movements@[x].to_lane.0 as int].link,
        ) == Some(d),
    ensures
        w.stopgap(v, lane) matches Some(m) && {
            let l = w.network.lanes@[lane.0 as int];
            let left = w.router->0.remaining(
                v.dest->0,
                w.network.lanes@[w.network.movements@[m.0 as int].to_lane.0 as int].link,
            );
            &&& l.movement_start.0 <= m.0 < l.movement_start.0 + l.movement_count
            &&& left is Some
            &&& left->0 <= d
            &&& x < m.0 ==> left->0 < d
        },
{
    let net = &w.network;
    let l = net.lanes@[lane.0 as int];
    let n = l.movement_count as int;
    assert(net.lane_ok(lane.0 as int));
    let cost = w.landing_distance(v, lane);
    lemma_least(n, cost);
    let k = x - l.movement_start.0;
    assert(net.nth_movement(lane, k) == MovementId(x as u32));
    assert(cost(k) == Some(d as int));
    let b = least_index(n, cost)->0;
    assert(cost(b) is Some);
    assert(net.nth_movement(lane, b).0 == l.movement_start.0 + b);
}

/// Where no movement of the lane leads to the destination, or there is no field, the
/// stopgap is the lane's first movement; a lane without movements borrows the first
/// movement of the first lane of its link that has any.
pub proof fn the_stopgap_is_the_first_movement_at_hand(w: &NetWorld, v: &NetVehicle, lane: LaneId)
    requires
        w.network.wf(),
        w.network.has_lane(lane),
        v.dest is Some && w.router is Some ==> forall|x: int|
            #![trigger w.network.movements@[x]]
            w.network.lanes@[lane.0 as int].movement_start.0 <= x
                < w.network.lanes@[lane.0 as int].movement_start.0
                + w.network.lanes@[lane.0 as int].movement_count ==> w.router->0.remaining(
                v.dest->0,
                w.network.lanes@[w.network.movements@[x].to_lane.0 as int].link,
            ) is None,
    ensures
        w.network.lanes@[lane.0 as int].movement_count > 0 ==> w.stopgap(v, lane) == Some(
            w.network.lanes@[lane.0 as int].movement_start,
        ),
        w.network.lanes@[lane.0 as int].movement_count == 0 ==> ({
            let link = w.network.links@[w.network.lanes@[lane.0 as int].link.0 as int];
            match w.stopgap(v, lane) {
                Some(m) => exists|k: int|
                    #![trigger w.network.lanes@[link.lane_start.0 + k]]
                    0 <= k < link.lane_count && w.network.lanes@[link.lane_start.0 + k].movement_count
                        > 0 && m == w.network.lanes@[link.lane_start.0 + k].movement_start && forall|b: int|
                        #![trigger w.network.lanes@[link.lane_start.0 + b]]
                        0 <= b < k ==> w.network.lanes@[link.lane_start.0 + b].movement_count == 0,
                None => forall|b: int|
                    #![trigger w.network.lanes@[link.lane_start.0 + b]]
                    0 <= b < link.lane_count ==> w.network.lanes@[link.lane_start.0
                        + b].movement_count == 0,
            }
        }),
{
    let net = &w.network;
    let l = net.lanes@[lane.0 as int];
    let n = l.movement_count as int;
    assert(net.lane_ok(lane.0 as int));
    let cost = w.landing_distance(v, lane);
    lemma_least(n, cost);
    if least_index(n, cost) is Some {
        let b = least_index(n, cost)->0;
        assert(cost(b) is Some);
        assert(net.nth_movement(lane, b) == MovementId((l.movement_start.0 + b) as u32));
        assert(net.movements@[l.movement_start.0 + b] == net.movement_at(net.nth_movement(lane, b)));
    }
    let link = l.link;
    assert(net.link_ok(link.0 as int));
    let count = net.links@[link.0 as int].lane_count as int;
    let p = moves_on(net, link);
    lemma_first_index(0, count, p);
    let start = net.links@[link.0 as int].lane_start.0;
    assert forall|b: int|
        #![trigger net.lanes@[start + b]]
        0 <= b < count implies (p(b) <==> net.lanes@[start + b].movement_count > 0) by {
        assert(nth_lane(net, link, b) == LaneId((start + b) as u32));
    }
    if n == 0 && first_index(0, count, p) is Some {
        let k = first_index(0, count, p)->0;
        assert(p(k));
        assert(net.lanes@[start + k].movement_count > 0);
        assert(nth_lane(net, link, k) == LaneId((start + k) as u32));
    }
}

/// Farther on, a vehicle follows the router's hop from each link where the lane has a
/// movement onto it; else the stopgap.
pub proof fn farther_on_the_path_is_followed_too(w: &NetWorld, v: &NetVehicle, lane: LaneId, next: LinkId)
    requires
        w.network.wf(),
        w.network.has_lane(lane),
    ensures
        v.dest is Some && w.router is Some && w.router->0.hop(
            v.dest->0,
            w.network.lanes@[lane.0 as int].link,
        ) == Some(next) ==> w.onward(v, lane) == (if leads_to(&w.network, lane, next) {
            movement_onto(&w.network, lane, next)
        } else {
            w.stopgap(v, lane)
        }),
        v.dest is Some && w.router is Some && w.router->0.hop(
            v.dest->0,
            w.network.lanes@[lane.0 as int].link,
        ) is None ==> w.onward(v, lane) == w.stopgap(v, lane),
{
    the_first_movement_onto_a_link_is_found(&w.network, lane, next);
}

/// Without a field it follows the link after each on its route in the same manner.
pub proof fn farther_on_the_route_is_followed_too(w: &NetWorld, v: &NetVehicle, lane: LaneId, k: int)
    requires
        w.network.wf(),
        w.network.has_lane(lane),
        v.dest is None || w.router is None,
        0 <= k < v.route@.len() - 1,
        v.route@[k] == w.network.lanes@[lane.0 as int].link,
        forall|x: int| 0 <= x < k ==> #[trigger] v.route@[x] != v.route@[k],
    ensures
        w.onward(v, lane) == (if leads_to(&w.network, lane, v.route@[k + 1]) {
            movement_onto(&w.network, lane, v.route@[k + 1])
        } else {
            w.stopgap(v, lane)
        }),
{
    the_first_movement_onto_a_link_is_found(&w.network, lane, v.route@[k + 1]);
    let link = w.network.lanes@[lane.0 as int].link;
    let p = NetWorld::route_has(v, link);
    assert(p(k));
    assert forall|x: int| 0 <= x < k implies !#[trigger] p(x) by {
        assert(v.route@[x] != v.route@[k]);
    }
    lemma_first_index_is(0, v.route@.len() as int, p, k);
}

/// The field alone looks farther on along its hops: the movement onto the router's
/// next link, where the lane has one, and nothing else.
pub proof fn the_field_looks_along_its_hops(w: &NetWorld, v: &NetVehicle, lane: LaneId)
    requires
        w.network.wf(),
        w.network.has_lane(lane),
    ensures
        v.dest is None || w.router is None ==> w.intended_from(v, lane) is None,
        w.intended_from(v, lane) matches Some(m) ==> w.router->0.hop(
            v.dest->0,
            w.network.lanes@[lane.0 as int].link,
        ) == Some(w.network.lanes@[w.network.movements@[m.0 as int].to_lane.0 as int].link),
        v.dest is Some && w.router is Some && (w.router->0.hop(
            v.dest->0,
            w.network.lanes@[lane.0 as int].link,
        ) matches Some(next) && leads_to(&w.network, lane, next)) ==> w.intended_from(v, lane) is Some,
{
    match w.router->0.hop(v.dest->0, w.network.lanes@[lane.0 as int].link) {
        Some(next) => {
            the_first_movement_onto_a_link_is_found(&w.network, lane, next);
        },
        None => {},
    }
}

/// The tail of a lane is the least rear of all who still hang over the lane, with
/// the speed of that vehicle; a lane that nobody hangs over has none.
pub proof fn a_tail_is_the_rearmost_that_hangs_over(w: &NetWorld, occ: &ShardMaps, rears: Seq<Quantity>, lane: LaneId)
    requires
        w.seeded(occ, rears),
    ensures
        match occ.tail(lane) {
            Some(t) => (exists|i: int|
                #![trigger w.rows()[i]]
                0 <= i < w.rows().len() && hangs_over(w, rears, lane, i) && t.rear == rears[i]
                    && t.speed == w.rows()[i].speed) && forall|i: int|
                #![trigger w.rows()[i]]
                0 <= i < w.rows().len() && hangs_over(w, rears, lane, i) ==> t.rear.rank()
                    <= rears[i].rank(),
            None => forall|i: int|
                #![trigger w.rows()[i]]
                0 <= i < w.rows().len() ==> !hangs_over(w, rears, lane, i),
        },
{
    let n = w.rows().len() as int;
    let cost = w.rear_on(lane.0, rears);
    assert(occ.tail(LaneId(lane.0)) == w.tail_among(n, lane.0, rears));
    lemma_least(n, cost);
    assert forall|i: int|
        #![trigger w.rows()[i]]
        0 <= i < n implies (hangs_over(w, rears, lane, i) <==> cost(i) is Some) && (cost(i) is Some
        ==> cost(i)->0 == rears[i].rank()) by {}
    if least_index(n, cost) is Some {
        let b = least_index(n, cost)->0;
        assert(cost(b) is Some);
        assert(hangs_over(w, rears, lane, b));
        assert(w.rows()[b].lane == lane);
    }
}

/// Row `i` is on the lane and its rear is still short of the lane's end.
pub open spec fn hangs_over(w: &NetWorld, rears: Seq<Quantity>, lane: LaneId, i: int) -> bool {
    w.rows()[i].lane == lane && rears[i].is_below(w.network.lanes@[lane.0 as int].length)
        && rears[i].is_below(place(MAX_FINITE))
}

/// Of a row: it rolls on the lane, or is inside a node and lands on it.
pub open spec fn is_on_or_bound_for(w: &NetWorld, lane: LaneId) -> spec_fn(int) -> bool {
    |i: int|
        match w.rows()[i].crossing {
            Some(c) => w.network.movements@[c.movement.0 as int].to_lane == lane,
            None => w.rows()[i].lane == lane,
        }
}

/// The slots taken on a lane inside a junction are those of all who roll on it or
/// are bound for it; on other lanes none are counted.
pub proof fn slots_count_those_on_and_those_bound_for(w: &NetWorld, occ: &ShardMaps, rears: Seq<Quantity>, lane: LaneId)
    requires
        w.seeded(occ, rears),
    ensures
        runs_inside(&w.network, lane) ==> occ.taken(lane) == count_where(
            w.rows().len() as int,
            is_on_or_bound_for(w, lane),
        ),
        !runs_inside(&w.network, lane) ==> occ.taken(lane) == 0,
{
    let n = w.rows().len() as int;
    assert(occ.taken(LaneId(lane.0)) == count_where(n, w.takes_slot(lane.0)));
    if runs_inside(&w.network, lane) {
        assert forall|i: int| 0 <= i < n implies #[trigger] w.takes_slot(lane.0)(i)
            == is_on_or_bound_for(w, lane)(i) by {
            if w.slot_lane(&w.rows()[i]).0 == lane.0 {
                assert(w.slot_lane(&w.rows()[i]) == lane);
            }
        }
        lemma_count_agree(n, w.takes_slot(lane.0), is_on_or_bound_for(w, lane));
    } else {
        assert forall|i: int| 0 <= i < n implies !#[trigger] w.takes_slot(lane.0)(i) by {
            if w.slot_lane(&w.rows()[i]).0 == lane.0 {
                assert(w.slot_lane(&w.rows()[i]) == lane);
            }
        }
        lemma_count_zero(n, w.takes_slot(lane.0));
    }
}

/// Everybody inside a node holds a promise where it will land, but those on free
/// seams; nobody else does.
pub proof fn a_promise_is_held_in_flight(w: &NetWorld, v: &NetVehicle)
    ensures
        v.crossing is None ==> !w.holds_promise(v),
        v.crossing matches Some(c) ==> (w.holds_promise(v) <==> !w.is_free_seam(c.movement)),
{
}

} // verus!
