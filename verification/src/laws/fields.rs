//! What the routing fields say, and what the tables and lists of the world hold.

use vstd::prelude::*;

use crate::backend::AccelBackend;
use crate::control::PoseUpdate;
use crate::fleet::NetVehicle;
use crate::groups::GroupMap;
use crate::intent::{CarState, Sight};
use crate::laws::boxes::paths_meet;
use crate::laws::inside::all_on_a_movement_are_listed;
use crate::laws::lane_choice::{
    a_lane_lists_its_rolling_vehicles_in_order, rolls_there, the_nearest_ahead_is_found,
};
use crate::laws::merging::{
    a_merge_has_two_feeders, feeders_are_the_lanes_with_a_movement_onto, feeds,
};
use crate::laws::priority::joins;
use crate::laws::roads::{makes_a_hop, the_router_answers_for_its_destinations};
use crate::laws::terms::{
    a_lane_lists_its_vehicles_in_order, all_who_are_inside_are_crossers,
    all_who_roll_towards_are_approachers, is_inside, meets_a_path, rolls_towards,
};
use crate::neighbors::Neighbors;
use crate::network::{LaneId, LinkId, MovementId, Network, NodeId};
use crate::router::{FieldRouter, UNREACHED, free_flow_costs};
use crate::search::{count_where, first_index, lemma_count_agree, lemma_first_index};
use crate::solver::{
    Field, is_distance, is_least_route, is_route, joined, keyed, leads, lemma_route_prepend,
    lemma_route_tail, reaches, relaxed, route_cost,
};
use crate::topology::{crosses_something, feeders_of, feeds_merge, is_merge};
use crate::world::NetWorld;

verus! {

/// The destination is reached at no cost, and nobody hops on from it.
pub proof fn a_field_ends_at_its_destination(f: &Field, net: &Network, costs: Seq<u64>, to: LinkId)
    requires
        f.solves(net, costs, to),
    ensures
        f.dist@[to.0 as int] == Some(0u128),
        f.next@[to.0 as int] is None,
{
}

/// Every movement onto a link that reaches the destination makes the link it comes
/// from reach it, for no more than entering that link and going on costs.
pub proof fn no_movement_is_a_shorter_way(
    f: &Field,
    net: &Network,
    costs: Seq<u64>,
    to: LinkId,
    a: LinkId,
    b: LinkId,
    m: int,
)
    requires
        f.solves(net, costs, to),
        net.has_link(a),
        net.has_link(b),
        makes_a_hop(net, a, b, m),
        f.dist@[b.0 as int] is Some,
    ensures
        f.dist@[a.0 as int] matches Some(d) && d <= f.dist@[b.0 as int]->0 + costs[b.0 as int],
{
    assert(leads(net, m, a, b));
    assert(joined(net, a, b));
}

/// A link other than the destination that reaches it has a hop, over a movement, and
/// what remains from it is what entering the next link costs and what remains from
/// there; one that does not reach it has none.
pub proof fn a_hop_is_worth_what_remains(f: &Field, net: &Network, costs: Seq<u64>, to: LinkId, a: LinkId)
    requires
        f.solves(net, costs, to),
        net.has_link(a),
        a != to,
    ensures
        f.dist@[a.0 as int] is None <==> f.next@[a.0 as int] is None,
        f.next@[a.0 as int] matches Some(b) ==> (exists|m: int| #[trigger] makes_a_hop(net, a, b, m))
            && f.dist@[b.0 as int] is Some && f.dist@[a.0 as int]->0 == f.dist@[b.0 as int]->0
            + costs[b.0 as int],
{
    let v = a.0 as int;
    assert(LinkId(v as u32) == a);
    if f.next@[v] is Some {
        let b = f.next@[v]->0;
        assert(joined(net, LinkId(v as u32), b));
        let m = choose|m: int| 0 <= m < net.movements@.len() && #[trigger] leads(net, m, a, b);
        assert(makes_a_hop(net, a, b, m));
    }
}

/// What remains from a link is the cost of some route to the destination, and no
/// route costs less; a link has a distance exactly when it has a route.
pub proof fn what_remains_is_the_cost_of_the_cheapest_route(
    f: &Field,
    net: &Network,
    costs: Seq<u64>,
    to: LinkId,
    a: LinkId,
    s: Seq<LinkId>,
)
    requires
        f.solves(net, costs, to),
        net.has_link(a),
        is_a_way(net, s, a, to),
    ensures
        f.dist@[a.0 as int] matches Some(d) && d <= way_cost(costs, s),
        exists|t: Seq<LinkId>| #[trigger]
            is_a_way(net, t, a, to) && way_cost(costs, t) == f.dist@[a.0 as int]->0,
{
    lemma_way(net, s, a, to);
    assert(reaches(net, a, to));
    assert(f.dist@[a.0 as int] is Some);
    let d = f.dist@[a.0 as int]->0 as int;
    assert(is_distance(net, costs, a, to, d));
    let t = choose|t: Seq<LinkId>| #[trigger]
        is_least_route(net, costs, t, a, to) && route_cost(costs, t) == d;
    assert(is_route(net, s, a, to));
    lemma_way(net, t, a, to);
    lemma_way_cost(costs, s);
    lemma_way_cost(costs, t);
}

/// The links are those of a way: each has a movement onto the next.
pub open spec fn is_a_way(net: &Network, s: Seq<LinkId>, from: LinkId, to: LinkId) -> bool {
    &&& s.len() > 0
    &&& s[0] == from
    &&& s.last() == to
    &&& forall|k: int| 0 <= k < s.len() ==> net.has_link(#[trigger] s[k])
    &&& forall|k: int| 0 <= k < s.len() - 1 ==> #[trigger] goes_over_a_movement(net, s, k)
}

/// Some movement goes from link `k` of the way to the next.
pub open spec fn goes_over_a_movement(net: &Network, s: Seq<LinkId>, k: int) -> bool {
    exists|m: int| #[trigger] makes_a_hop(net, s[k], s[k + 1], m)
}

/// The costs of entering all links of the way but the first.
pub open spec fn way_cost(costs: Seq<u64>, s: Seq<LinkId>) -> int
    decreases s.len(),
{
    if s.len() <= 1 {
        0
    } else {
        way_cost(costs, s.drop_last()) + costs[s.last().0 as int]
    }
}

proof fn lemma_way(net: &Network, s: Seq<LinkId>, a: LinkId, to: LinkId)
    ensures
        is_a_way(net, s, a, to) <==> is_route(net, s, a, to),
{
    if is_a_way(net, s, a, to) {
        assert forall|k: int| #![trigger s[k]] 0 <= k < s.len() - 1 implies joined(net, s[k], s[k + 1]) by {
            assert(goes_over_a_movement(net, s, k));
            let m = choose|m: int| #[trigger] makes_a_hop(net, s[k], s[k + 1], m);
            assert(leads(net, m, s[k], s[k + 1]));
        }
    }
    if is_route(net, s, a, to) {
        assert forall|k: int| 0 <= k < s.len() - 1 implies #[trigger] goes_over_a_movement(net, s, k) by {
            assert(net.has_link(s[k]));
            assert(joined(net, s[k], s[k + 1]));
            let m = choose|m: int|
                0 <= m < net.movements@.len() && #[trigger] leads(net, m, s[k], s[k + 1]);
            assert(makes_a_hop(net, s[k], s[k + 1], m));
        }
    }
}

proof fn lemma_way_cost(costs: Seq<u64>, s: Seq<LinkId>)
    ensures
        way_cost(costs, s) == route_cost(costs, s),
    decreases s.len(),
{
    if s.len() > 1 {
        lemma_last_leg(costs, s);
        lemma_way_cost(costs, s.drop_last());
    }
}

proof fn lemma_last_leg(costs: Seq<u64>, s: Seq<LinkId>)
    requires
        s.len() > 1,
    ensures
        route_cost(costs, s) == route_cost(costs, s.drop_last()) + costs[s.last().0 as int],
    decreases s.len(),
{
    let rest = s.subrange(1, s.len() as int);
    if s.len() > 2 {
        lemma_last_leg(costs, rest);
        assert(rest.drop_last() =~= s.drop_last().subrange(1, s.len() - 1));
        assert(rest.last() == s.last());
        assert(s.drop_last()[1] == s[1]);
    } else {
        assert(route_cost(costs, rest) == 0);
        assert(route_cost(costs, s.drop_last()) == 0);
        assert(s.last() == s[1]);
    }
}

/// No way weighs less than the key says.
proof fn lemma_no_lighter_way(
    net: &Network,
    costs: Seq<u64>,
    to: LinkId,
    key: Seq<Option<u128>>,
    next: Seq<Option<LinkId>>,
    s: Seq<LinkId>,
    v: LinkId,
)
    requires
        keyed(net, costs, to, key, next),
        is_route(net, s, v, to),
    ensures
        key[v.0 as int] is Some,
        key[v.0 as int]->0 <= route_cost(costs, s) * 0x1_0000_0000 + s.len() - 1,
    decreases s.len(),
{
    assert(net.has_link(s[0]));
    if s.len() > 1 {
        let rest = s.subrange(1, s.len() as int);
        lemma_route_tail(net, s, v, to);
        lemma_no_lighter_way(net, costs, to, key, next, rest, s[1]);
        assert(net.has_link(s[1]));
        assert(relaxed(costs, to, key, next, v, s[1]));
    }
}

/// Following the hops weighs what the key says.
proof fn lemma_hops_weigh_the_key(
    net: &Network,
    costs: Seq<u64>,
    to: LinkId,
    key: Seq<Option<u128>>,
    next: Seq<Option<LinkId>>,
    v: LinkId,
) -> (s: Seq<LinkId>)
    requires
        keyed(net, costs, to, key, next),
        net.has_link(v),
        key[v.0 as int] is Some,
    ensures
        is_route(net, s, v, to),
        key[v.0 as int]->0 == route_cost(costs, s) * 0x1_0000_0000 + s.len() - 1,
        v != to ==> s.len() > 1 && next[v.0 as int] == Some(s[1]),
    decreases key[v.0 as int]->0,
{
    if v == to {
        let s = seq![v];
        assert(route_cost(costs, s) == 0);
        s
    } else {
        let x = v.0 as int;
        assert(LinkId(x as u32) == v);
        assert(next[x] is Some);
        let w = next[x]->0;
        assert(joined(net, LinkId(x as u32), w));
        let rest = lemma_hops_weigh_the_key(net, costs, to, key, next, w);
        lemma_route_prepend(net, costs, v, w, to, rest);
        let s = seq![v] + rest;
        assert(s[1] == rest[0]);
        s
    }
}

/// Of the cheapest ways the hop leads along one over the fewest links, and of those
/// to the first link: against any way of the same cost there is one by the hop that
/// is no longer, and where none is shorter no other link it could hop to comes first.
pub proof fn of_equally_cheap_ways_the_shortest_is_taken(
    f: &Field,
    net: &Network,
    costs: Seq<u64>,
    to: LinkId,
    v: LinkId,
    s: Seq<LinkId>,
)
    requires
        f.solves(net, costs, to),
        net.has_link(v),
        v != to,
        is_a_way(net, s, v, to),
        s.len() <= 0x1_0000_0000,
        f.dist@[v.0 as int] matches Some(d) && d == way_cost(costs, s),
    ensures
        f.next@[v.0 as int] matches Some(w) && exists|t: Seq<LinkId>| #[trigger]
            is_a_way(net, t, v, to) && t.len() > 1 && t[1] == w && way_cost(costs, t) == way_cost(
                costs,
                s,
            ) && t.len() <= s.len() && (t.len() == s.len() ==> w.0 <= s[1].0),
{
    let next = f.next@;
    let key = choose|key: Seq<Option<u128>>| #[trigger] keyed(net, costs, to, key, next);
    lemma_way(net, s, v, to);
    lemma_way_cost(costs, s);
    lemma_no_lighter_way(net, costs, to, key, next, s, v);
    let t = lemma_hops_weigh_the_key(net, costs, to, key, next, v);
    lemma_way(net, t, v, to);
    lemma_way_cost(costs, t);
    let d = f.dist@[v.0 as int]->0 as int;
    assert(is_distance(net, costs, v, to, d));
    let best = choose|b: Seq<LinkId>| #[trigger]
        is_least_route(net, costs, b, v, to) && route_cost(costs, b) == d;
    assert(is_route(net, t, v, to));
    assert(d <= route_cost(costs, t));
    assert(route_cost(costs, t) == d);
    assert(t.len() <= s.len());
    assert(s.len() > 1);
    if t.len() == s.len() {
        let rest = s.subrange(1, s.len() as int);
        lemma_route_tail(net, s, v, to);
        lemma_no_lighter_way(net, costs, to, key, next, rest, s[1]);
        assert(net.has_link(s[1]));
        assert(relaxed(costs, to, key, next, v, s[1]));
    }
    assert(is_a_way(net, t, v, to));
}

/// A router fed from outside says of every link the distance it was given, and
/// nothing of links that were given none.
pub proof fn a_fed_router_says_what_it_was_given(
    r: &FieldRouter,
    net: &Network,
    cost: Seq<u64>,
    given: Seq<Vec<u64>>,
    s: int,
    dest: LinkId,
    link: LinkId,
)
    requires
        r.fed(net, cost, given),
        0 <= s < given.len() == r.slots().len(),
        r.slots()[s] == dest,
        forall|x: int| 0 <= x < s ==> #[trigger] r.slots()[x] != dest,
        net.has_link(link),
    ensures
        given[s]@[link.0 as int] == UNREACHED ==> r.remaining(dest, link) is None,
        given[s]@[link.0 as int] != UNREACHED ==> (r.remaining(dest, link) matches Some(d) && d
            == given[s]@[link.0 as int]),
{
    the_router_answers_for_its_destinations(r, dest, link, s);
    let v = link.0 as int;
    assert(r.field(s).dist@[v] == r.field(s).dist@[v]);
}

/// Free-flow costs are the links' own travel times.
pub proof fn free_flow_costs_are_travel_times(net: &Network, link: LinkId)
    requires
        net.has_link(link),
    ensures
        free_flow_costs(net).len() == net.links@.len(),
        free_flow_costs(net)[link.0 as int] == net.links@[link.0 as int].travel_time_ms,
{
}

/// The tables of a sound world say of its network what they are for.
pub proof fn the_tables_say_what_the_network_does(w: &NetWorld, lane: LaneId, m: MovementId)
    requires
        w.wf(),
        w.network.has_lane(lane),
        w.network.has_movement(m),
    ensures
        forall|f: LaneId|
            #![trigger feeds(&w.network, f, lane)]
            w.topology.feeders@[lane.0 as int]@.contains(f.0) <==> feeds(&w.network, f, lane),
        w.topology.movement_conflicted@[m.0 as int] <==> meets_a_path(&w.network, m),
        w.topology.merge_feeder_lane@[lane.0 as int] ==> exists|to: LaneId, other: LaneId|
            #![trigger feeds(&w.network, lane, to), feeds(&w.network, other, to)]
            other != lane && feeds(&w.network, lane, to) && feeds(&w.network, other, to),
{
    let net = &w.network;
    assert(LaneId(lane.0 as int as u32) == lane);
    assert(MovementId(m.0 as int as u32) == m);
    assert(w.topology.feeders@[lane.0 as int]@ == feeders_of(net, lane));
    assert forall|f: LaneId|
        #![trigger feeds(net, f, lane)]
        w.topology.feeders@[lane.0 as int]@.contains(f.0) <==> feeds(net, f, lane) by {
        feeders_are_the_lanes_with_a_movement_onto(net, lane, f);
    }
    assert(w.topology.movement_conflicted@[m.0 as int] == crosses_something(net, m));
    assert(w.topology.merge_feeder_lane@[lane.0 as int] == feeds_merge(net, lane));
    if feeds_merge(net, lane) {
        let to = choose|l: LaneId| #![trigger is_merge(net, l)]
            net.has_lane(l) && is_merge(net, l) && feeders_of(net, l).contains(lane.0);
        feeders_are_the_lanes_with_a_movement_onto(net, to, lane);
        a_merge_has_two_feeders(net, to);
        let (a, b) = choose|a: LaneId, b: LaneId|
            #![trigger feeds(net, a, to), feeds(net, b, to)]
            a != b && feeds(net, a, to) && feeds(net, b, to);
        assert(feeds(net, lane, to));
        if a != lane {
            assert(feeds(net, a, to));
        } else {
            assert(feeds(net, b, to));
        }
    }
}

/// The neighbours' groups hold exactly who is on each lane, who rolls towards each
/// intersection, and who is inside it.
pub proof fn the_groups_hold_who_is_there(w: &NetWorld, nb: &Neighbors, lane: u32, node: NodeId, j: int)
    requires
        nb.groups_of(w),
        0 <= j < w.rows().len(),
    ensures
        ({
            let key = w.network.nodes@[node.0 as int].intersection;
            &&& nb.by_lane.group(lane).contains(j as usize) <==> w.rows()[j].lane.0 == lane
            &&& nb.approaching.group(key).contains(j as usize) <==> rolls_towards(w, j, node)
            &&& nb.crossing_at.group(key).contains(j as usize) <==> is_inside(w, j, node)
        }),
{
    let key = w.network.nodes@[node.0 as int].intersection;
    a_lane_lists_its_vehicles_in_order(w, lane);
    all_who_roll_towards_are_approachers(w, node, j);
    all_who_are_inside_are_crossers(w, node, j);
    assert(nb.by_lane.group(lane) == w.lane_order(lane));
    assert(nb.approaching.group(key) == w.approachers(node));
    assert(nb.crossing_at.group(key) == w.crossers(node));
}

/// The groups by movement and by rolling lane hold exactly who is there.
pub proof fn the_lists_hold_who_is_there(w: &NetWorld, on: &GroupMap<usize>, by_lane: &GroupMap<usize>, m: MovementId, lane: LaneId, j: int)
    requires
        w.crossing_groups(on),
        w.rolling_groups(by_lane),
        0 <= j < w.rows().len(),
    ensures
        on.group(m.0).contains(j as usize) <==> w.rows()[j].crossing is Some && (
        w.rows()[j].crossing->0).movement == m,
        by_lane.group(lane.0).contains(j as usize) <==> w.rows()[j].lane == lane
            && w.rows()[j].crossing is None,
{
    all_on_a_movement_are_listed(w, m, j);
    a_lane_lists_its_rolling_vehicles_in_order(w, lane.0);
    assert(on.group(m.0) == w.on_movement(m));
    assert(by_lane.group(lane.0) == w.rolling_order(lane.0));
}

/// Whom a vehicle follows on its own lane is the nearest rolling ahead of it there.
pub proof fn the_own_leader_is_the_nearest_ahead(w: &NetWorld, i: int)
    requires
        0 <= i < w.rows().len(),
    ensures
        ({
            let at = w.rows()[i].position;
            let lane = w.rows()[i].lane;
            match w.own_leader(i) {
                Some(a) => rolls_there(w, lane, i as usize, a as int)
                    && !w.rows()[a as int].position.is_at_most(at) && forall|x: int| #[trigger]
                    rolls_there(w, lane, i as usize, x) && !w.rows()[x].position.is_at_most(at)
                        ==> w.rows()[a as int].position.key <= w.rows()[x].position.key,
                None => forall|x: int| #[trigger]
                    rolls_there(w, lane, i as usize, x) ==> w.rows()[x].position.is_at_most(at),
            }
        }),
{
    the_nearest_ahead_is_found(w, w.rows()[i].lane, w.rows()[i].position, i as usize);
}

/// A vehicle asked for by its id is the first row that has it.
pub proof fn a_vehicle_is_found_by_its_id(w: &NetWorld, id: u32, i: int)
    requires
        0 <= i < w.rows().len(),
        w.rows()[i].id == id,
        forall|x: int| 0 <= x < i ==> (#[trigger] w.rows()[x]).id != id,
    ensures
        first_index(0, w.rows().len() as int, w.is_called(id)) == Some(i),
{
    let n = w.rows().len() as int;
    let p = w.is_called(id);
    lemma_first_index(0, n, p);
    assert(p(i));
    if first_index(0, n, p) is Some {
        let k = first_index(0, n, p)->0;
        assert(p(k));
        if k < i {
            assert(w.rows()[k].id != id);
        }
    }
}

/// Everybody is in one state, so that the three states together count all rows.
pub proof fn the_census_counts_everybody(w: &NetWorld, nb: &Neighbors, sights: Seq<Sight>, n: int)
    requires
        0 <= n,
    ensures
        count_where(n, w.is_in_state(nb, sights, CarState::Free)) + count_where(
            n,
            w.is_in_state(nb, sights, CarState::Frozen),
        ) + count_where(n, w.is_in_state(nb, sights, CarState::Deciding)) == n,
        count_where(n, w.is_in_state(nb, sights, CarState::Frozen)) == count_where(
            n,
            |i: int| w.state_of(i, nb, sights[i]) == CarState::Frozen,
        ),
        count_where(n, w.is_in_state(nb, sights, CarState::Free)) == count_where(
            n,
            |i: int| w.state_of(i, nb, sights[i]) == CarState::Free,
        ),
    decreases n,
{
    lemma_count_agree(
        n,
        w.is_in_state(nb, sights, CarState::Frozen),
        |i: int| w.state_of(i, nb, sights[i]) == CarState::Frozen,
    );
    lemma_count_agree(
        n,
        w.is_in_state(nb, sights, CarState::Free),
        |i: int| w.state_of(i, nb, sights[i]) == CarState::Free,
    );
    if n > 0 {
        the_census_counts_everybody(w, nb, sights, n - 1);
    }
}

/// The counts by link are of who rolls on it, and of links that run the queue model.
pub proof fn the_counts_are_of_what_they_say(w: &NetWorld, link: LinkId)
    ensures
        count_where(w.rows().len() as int, w.rolls_on_link(link)) == count_where(
            w.rows().len() as int,
            |i: int|
                w.rows()[i].crossing is None && w.network.lanes@[w.rows()[i].lane.0 as int].link == link,
        ),
        count_where(w.network.links@.len() as int, w.is_queued()) == count_where(
            w.network.links@.len() as int,
            |l: int| w.queue_links@[l],
        ),
{
    lemma_count_agree(
        w.rows().len() as int,
        w.rolls_on_link(link),
        |i: int|
            w.rows()[i].crossing is None && w.network.lanes@[w.rows()[i].lane.0 as int].link == link,
    );
    lemma_count_agree(w.network.links@.len() as int, w.is_queued(), |l: int| w.queue_links@[l]);
}

/// A backend is in use where it is asked for and available; else everything runs
/// serially.
pub proof fn a_backend_that_is_missing_is_not_used(w: &NetWorld)
    ensures
        w.accel_backend == AccelBackend::Threads && w.threads_ready ==> w.backend_in_use()
            == AccelBackend::Threads,
        w.accel_backend == AccelBackend::Gpu && w.gpu_accel ==> w.backend_in_use()
            == AccelBackend::Gpu,
        w.accel_backend == AccelBackend::Threads && !w.threads_ready ==> w.backend_in_use()
            == AccelBackend::Serial,
        w.accel_backend == AccelBackend::Gpu && !w.gpu_accel ==> w.backend_in_use()
            == AccelBackend::Serial,
        w.accel_backend == AccelBackend::Serial ==> w.backend_in_use() == AccelBackend::Serial,
{
}

/// Poses follow the tracker: a row with an update has its pose and steer and is
/// otherwise as it was, a row without one is as it was, and every divergence is
/// counted.
pub proof fn poses_follow_the_tracker(w: &NetWorld, after: &NetWorld, updates: Seq<Option<PoseUpdate>>, i: int)
    requires
        w.poses_written(after, updates),
        0 <= i < w.rows().len(),
    ensures
        updates[i] is None ==> after.rows()[i] == w.rows()[i],
        updates[i] matches Some(u) ==> after.rows()[i] == (NetVehicle {
            kin: u.kin,
            steer: u.steer,
            ..w.rows()[i]
        }),
        after.divergences == w.divergences + count_where(
            updates.len() as int,
            |k: int| updates[k] matches Some(u) && u.diverged,
        ),
{
    lemma_count_agree(
        updates.len() as int,
        NetWorld::has_diverged(updates),
        |k: int| updates[k] matches Some(u) && u.diverged,
    );
}

/// Two paths clash exactly when two of their movements belong to one intersection and
/// meet there.
pub proof fn paths_clash_inside_one_intersection(w: &NetWorld, a: Seq<MovementId>, b: Seq<MovementId>, x: int, y: int)
    requires
        0 <= x < a.len(),
        0 <= y < b.len(),
        ({
            let (m, n) = (w.network.movements@[a[x].0 as int], w.network.movements@[b[y].0 as int]);
            w.network.nodes@[m.node.0 as int].intersection
                == w.network.nodes@[n.node.0 as int].intersection
        }),
        paths_meet(&w.network, a[x], b[y]),
    ensures
        w.paths_clash(a, b),
{
    let net = &w.network;
    let c = choose|c: int| #![trigger net.conflicts@[c]]
        0 <= c < net.conflicts@.len() && joins(net.conflicts@[c], a[x], b[y]);
    assert(Network::pairs(net.conflicts@[c], a[x], b[y]));
    assert(w.clash(a[x], b[y]));
}

} // verus!
