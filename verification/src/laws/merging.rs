//! Whom a vehicle follows into a merge.

use vstd::prelude::*;

use crate::fleet::NetVehicle;
use crate::laws::terms::a_lane_lists_its_vehicles_in_order;
use crate::leading::MERGE_APPROACH;
use crate::neighbors::MOVING_SPEED;
use crate::network::{LaneId, Link, MovementId, Network, RoadKind};
use crate::quantity::{Quantity, ZERO, place};
use crate::search::{least_index, lemma_least};
use crate::topology::{feeders_of, feeding, is_merge};
use crate::world::NetWorld;
use crate::yielding::priority_of;

verus! {

/// Some movement goes from the one lane to the other.
pub open spec fn feeds(net: &Network, from: LaneId, to: LaneId) -> bool {
    exists|x: int| #![trigger net.movements@[x]]
        0 <= x < net.movements@.len() && net.movements@[x].from_lane == from
            && net.movements@[x].to_lane == to
}

/// The link of a lane.
pub open spec fn road(net: &Network, lane: LaneId) -> Link {
    net.links@[net.lanes@[lane.0 as int].link.0 as int]
}

/// The rank of a lane's road, whatever its id.
pub open spec fn road_rank(net: &Network, lane: LaneId) -> u64 {
    priority_of(road(net, lane), net.lanes@[lane.0 as int].link) >> 24u64
}

/// One road is a freeway and the other a ramp.
pub open spec fn is_ramp_meeting(net: &Network, a: LaneId, b: LaneId) -> bool {
    (road(net, a).kind == RoadKind::Freeway && road(net, b).kind == RoadKind::Ramp) || (road(
        net,
        a,
    ).kind == RoadKind::Ramp && road(net, b).kind == RoadKind::Freeway)
}

proof fn lemma_feeding(net: &Network, lane: LaneId, n: int, f: u32)
    requires
        0 <= n <= net.movements@.len(),
    ensures
        feeding(net, lane, n).contains(f) <==> exists|x: int|
            #![trigger net.movements@[x]]
            0 <= x < n && net.movements@[x].from_lane.0 == f && net.movements@[x].to_lane == lane,
        feeding(net, lane, n).no_duplicates(),
    decreases n,
{
    if n > 0 {
        let before = feeding(net, lane, n - 1);
        let now = feeding(net, lane, n);
        let m = net.movements@[n - 1];
        lemma_feeding(net, lane, n - 1, f);
        lemma_feeding(net, lane, n - 1, m.from_lane.0);
        if m.to_lane == lane && !before.contains(m.from_lane.0) {
            assert(now == before.push(m.from_lane.0));
            assert(now[now.len() - 1] == m.from_lane.0);
            assert(now.contains(f) <==> before.contains(f) || f == m.from_lane.0) by {
                if before.contains(f) {
                    let k = choose|k: int| 0 <= k < before.len() && before[k] == f;
                    assert(now[k] == f);
                }
            }
        }
        if exists|x: int|
            #![trigger net.movements@[x]]
            0 <= x < n && net.movements@[x].from_lane.0 == f && net.movements@[x].to_lane == lane {
            let x = choose|x: int|
                #![trigger net.movements@[x]]
                0 <= x < n && net.movements@[x].from_lane.0 == f && net.movements@[x].to_lane == lane;
            if x == n - 1 {
                assert(now.contains(f));
            } else {
                assert(before.contains(f));
                assert(now.contains(f));
            }
        }
        if now.contains(f) {
            if before.contains(f) {
                let x = choose|x: int|
                    #![trigger net.movements@[x]]
                    0 <= x < n - 1 && net.movements@[x].from_lane.0 == f && net.movements@[x].to_lane
                        == lane;
                assert(0 <= x < n);
            } else {
                assert(net.movements@[n - 1].from_lane.0 == f);
            }
        }
    }
}

/// The feeders of a lane are the lanes from which some movement lands on it, each
/// once.
pub proof fn feeders_are_the_lanes_with_a_movement_onto(net: &Network, lane: LaneId, f: LaneId)
    ensures
        feeders_of(net, lane).contains(f.0) <==> feeds(net, f, lane),
        feeders_of(net, lane).no_duplicates(),
{
    lemma_feeding(net, lane, net.movements@.len() as int, f.0);
    if feeders_of(net, lane).contains(f.0) {
        let x = choose|x: int|
            #![trigger net.movements@[x]]
            0 <= x < net.movements@.len() && net.movements@[x].from_lane.0 == f.0
                && net.movements@[x].to_lane == lane;
        assert(net.movements@[x].from_lane == f);
    }
}

/// A lane is a merge exactly when two different lanes feed it.
pub proof fn a_merge_has_two_feeders(net: &Network, lane: LaneId)
    ensures
        is_merge(net, lane) <==> exists|a: LaneId, b: LaneId|
            #![trigger feeds(net, a, lane), feeds(net, b, lane)]
            a != b && feeds(net, a, lane) && feeds(net, b, lane),
{
    let s = feeders_of(net, lane);
    if is_merge(net, lane) {
        let (a, b) = (LaneId(s[0]), LaneId(s[1]));
        feeders_are_the_lanes_with_a_movement_onto(net, lane, a);
        feeders_are_the_lanes_with_a_movement_onto(net, lane, b);
        assert(s.contains(s[0]) && s.contains(s[1]));
        assert(feeds(net, a, lane) && feeds(net, b, lane) && a != b);
    }
    if exists|a: LaneId, b: LaneId|
        #![trigger feeds(net, a, lane), feeds(net, b, lane)]
        a != b && feeds(net, a, lane) && feeds(net, b, lane) {
        let (a, b) = choose|a: LaneId, b: LaneId|
            #![trigger feeds(net, a, lane), feeds(net, b, lane)]
            a != b && feeds(net, a, lane) && feeds(net, b, lane);
        feeders_are_the_lanes_with_a_movement_onto(net, lane, a);
        feeders_are_the_lanes_with_a_movement_onto(net, lane, b);
        let x = choose|x: int| 0 <= x < s.len() && s[x] == a.0;
        let y = choose|y: int| 0 <= y < s.len() && s[y] == b.0;
        assert(x != y);
    }
}

/// The rivals at a merge are all vehicles on its other feeding lanes.
proof fn lemma_rivals(w: &NetWorld, own: LaneId, feeders: Seq<u32>, n: int, j: int)
    requires
        0 <= n <= feeders.len(),
        0 <= j < w.rows().len(),
    ensures
        w.merge_rivals(own, feeders, n).contains(j as usize) <==> w.rows()[j].lane != own && exists|k: int|
            0 <= k < n && #[trigger] feeders[k] == w.rows()[j].lane.0,
        forall|a: int|
            0 <= a < w.merge_rivals(own, feeders, n).len() ==> (#[trigger] w.merge_rivals(
                own,
                feeders,
                n,
            )[a]) < w.rows().len(),
    decreases n,
{
    assert(w.rows().len() == w.fleet.rows.len());
    if n > 0 {
        lemma_rivals(w, own, feeders, n - 1, j);
        let before = w.merge_rivals(own, feeders, n - 1);
        let now = w.merge_rivals(own, feeders, n);
        let l = feeders[n - 1];
        a_lane_lists_its_vehicles_in_order(w, l);
        let list = if l == own.0 {
            Seq::<usize>::empty()
        } else {
            w.lane_order(l)
        };
        assert(now == before + list);
        let x = j as usize;
        assert(now.contains(x) <==> before.contains(x) || list.contains(x)) by {
            if before.contains(x) {
                let a = choose|a: int| 0 <= a < before.len() && before[a] == x;
                assert(now[a] == x);
            }
            if list.contains(x) {
                let a = choose|a: int| 0 <= a < list.len() && list[a] == x;
                assert(now[before.len() + a] == x);
            }
            if now.contains(x) {
                let a = choose|a: int| 0 <= a < now.len() && now[a] == x;
                if a < before.len() {
                    assert(before[a] == x);
                } else {
                    assert(list[a - before.len()] == x);
                }
            }
        }
        assert forall|a: int| 0 <= a < now.len() implies (#[trigger] now[a]) < w.rows().len() by {
            if a >= before.len() {
                assert(now[a] == list[a - before.len()]);
            } else {
                assert(now[a] == before[a]);
            }
        }
        if now.contains(x) {
            if before.contains(x) {
                let k = choose|k: int| 0 <= k < n - 1 && #[trigger] feeders[k] == w.rows()[j].lane.0;
                assert(0 <= k < n);
            } else {
                assert(feeders[n - 1] == w.rows()[j].lane.0);
            }
        }
    }
}

/// What the vehicle that comes on lane `own` sees of row `j`, on another lane that
/// feeds the same merge, near enough to the merge: moving, and ahead by a gap.
pub open spec fn comes_to_the_same_merge(
    w: &NetWorld,
    own: LaneId,
    m: MovementId,
    my_dist: Quantity,
    gaps: Seq<Quantity>,
    j: int,
) -> bool {
    let to = w.network.movements@[m.0 as int].to_lane;
    &&& 0 <= j < w.rows().len()
    &&& w.rows()[j].lane != own
    &&& w.rows()[j].lane != w.network.movements@[m.0 as int].from_lane
    &&& feeds(&w.network, w.rows()[j].lane, to)
    &&& !place(MERGE_APPROACH).is_below(my_dist)
    &&& !w.rows()[j].speed.is_below(place(MOVING_SPEED))
    &&& place(ZERO).is_below(gaps[j])
}

proof fn lemma_yielded_to(
    w: &NetWorld,
    v: &NetVehicle,
    m: MovementId,
    my_dist: Quantity,
    to_end: Seq<Quantity>,
    gaps: Seq<Quantity>,
    j: int,
)
    requires
        w.network.has_movement(m),
        comes_to_the_same_merge(w, v.lane, m, my_dist, gaps, j),
        w.merges_ahead(v.lane, my_dist, j, to_end, gaps),
    ensures
        w.merge_leader(v, Some(m), my_dist, to_end, gaps) matches Some(l) && place(ZERO).is_below(
            gaps[l as int],
        ) && gaps[l as int].is_at_most(gaps[j]),
{
    let net = &w.network;
    let to = net.movements@[m.0 as int].to_lane;
    let own = net.movements@[m.0 as int].from_lane;
    assert(w.rows().len() == w.fleet.rows.len());
    assert(net.movements@[m.0 as int].to_lane == to);
    assert(feeds(net, own, to));
    a_merge_has_two_feeders(net, to);
    let feeders = feeders_of(net, to);
    feeders_are_the_lanes_with_a_movement_onto(net, to, w.rows()[j].lane);
    let k0 = choose|k: int| 0 <= k < feeders.len() && feeders[k] == w.rows()[j].lane.0;
    assert(feeders[k0] == w.rows()[j].lane.0);
    lemma_rivals(w, v.lane, feeders, feeders.len() as int, j);
    let rivals = w.merge_rivals(v.lane, feeders, feeders.len() as int);
    let a = choose|a: int| 0 <= a < rivals.len() && rivals[a] == j as usize;
    let cost = w.merge_gap(v.lane, my_dist, rivals, to_end, gaps);
    lemma_least(rivals.len() as int, cost);
    assert(cost(a) == Some(gaps[j].rank()));
}

/// At a merge of roads of different rank, other than a ramp onto a freeway, a
/// vehicle on the lesser road follows moving traffic of the greater one: its merge
/// leader exists and is no farther ahead than that vehicle.
pub proof fn the_lesser_road_follows_into_a_merge(
    w: &NetWorld,
    v: &NetVehicle,
    m: MovementId,
    my_dist: Quantity,
    to_end: Seq<Quantity>,
    gaps: Seq<Quantity>,
    j: int,
)
    requires
        w.network.has_movement(m),
        comes_to_the_same_merge(w, v.lane, m, my_dist, gaps, j),
        !is_ramp_meeting(&w.network, v.lane, w.rows()[j].lane),
        road_rank(&w.network, v.lane) < road_rank(&w.network, w.rows()[j].lane),
    ensures
        w.merge_leader(v, Some(m), my_dist, to_end, gaps) matches Some(l) && place(ZERO).is_below(
            gaps[l as int],
        ) && gaps[l as int].is_at_most(gaps[j]),
{
    lemma_yielded_to(w, v, m, my_dist, to_end, gaps, j);
}

/// At such a merge a vehicle on the greater road never follows one on the lesser.
pub proof fn the_greater_road_never_follows_into_a_merge(
    w: &NetWorld,
    v: &NetVehicle,
    m: Option<MovementId>,
    my_dist: Quantity,
    to_end: Seq<Quantity>,
    gaps: Seq<Quantity>,
    j: usize,
)
    requires
        !is_ramp_meeting(&w.network, v.lane, w.rows()[j as int].lane),
        road_rank(&w.network, v.lane) > road_rank(&w.network, w.rows()[j as int].lane),
    ensures
        w.merge_leader(v, m, my_dist, to_end, gaps) != Some(j),
{
    lemma_leader(w, v, m, my_dist, to_end, gaps);
}

/// Whatever the ranks, a vehicle on a ramp follows moving freeway traffic into the
/// merge.
pub proof fn a_ramp_follows_the_freeway(
    w: &NetWorld,
    v: &NetVehicle,
    m: MovementId,
    my_dist: Quantity,
    to_end: Seq<Quantity>,
    gaps: Seq<Quantity>,
    j: int,
)
    requires
        w.network.has_movement(m),
        comes_to_the_same_merge(w, v.lane, m, my_dist, gaps, j),
        road(&w.network, v.lane).kind == RoadKind::Ramp,
        road(&w.network, w.rows()[j].lane).kind == RoadKind::Freeway,
    ensures
        w.merge_leader(v, Some(m), my_dist, to_end, gaps) matches Some(l) && place(ZERO).is_below(
            gaps[l as int],
        ) && gaps[l as int].is_at_most(gaps[j]),
{
    lemma_yielded_to(w, v, m, my_dist, to_end, gaps, j);
}

/// Freeway traffic never follows a ramp into a merge.
pub proof fn a_freeway_never_follows_a_ramp(
    w: &NetWorld,
    v: &NetVehicle,
    m: Option<MovementId>,
    my_dist: Quantity,
    to_end: Seq<Quantity>,
    gaps: Seq<Quantity>,
    j: usize,
)
    requires
        road(&w.network, v.lane).kind == RoadKind::Freeway,
        road(&w.network, w.rows()[j as int].lane).kind == RoadKind::Ramp,
    ensures
        w.merge_leader(v, m, my_dist, to_end, gaps) != Some(j),
{
    lemma_leader(w, v, m, my_dist, to_end, gaps);
}

/// Of equal roads the one nearer to the merge is followed, and never the farther.
pub proof fn of_equal_roads_the_nearer_is_followed(
    w: &NetWorld,
    v: &NetVehicle,
    m: MovementId,
    my_dist: Quantity,
    to_end: Seq<Quantity>,
    gaps: Seq<Quantity>,
    j: int,
)
    requires
        w.network.has_movement(m),
        !is_ramp_meeting(&w.network, v.lane, w.rows()[j].lane),
        road_rank(&w.network, v.lane) == road_rank(&w.network, w.rows()[j].lane),
        0 <= j < w.rows().len(),
    ensures
        comes_to_the_same_merge(w, v.lane, m, my_dist, gaps, j) && to_end[j].is_below(my_dist) ==> (
        w.merge_leader(v, Some(m), my_dist, to_end, gaps) matches Some(l) && place(ZERO).is_below(
            gaps[l as int],
        ) && gaps[l as int].is_at_most(gaps[j])),
        !to_end[j].is_below(my_dist) ==> w.merge_leader(v, Some(m), my_dist, to_end, gaps) != Some(
            j as usize,
        ),
{
    assert(w.rows().len() == w.fleet.rows.len());
    lemma_leader(w, v, Some(m), my_dist, to_end, gaps);
    if comes_to_the_same_merge(w, v.lane, m, my_dist, gaps, j) && to_end[j].is_below(my_dist) {
        lemma_yielded_to(w, v, m, my_dist, to_end, gaps, j);
    }
}

/// A merge leader moves, is ahead by a positive gap, and comes on another lane than
/// the follower's; nobody has one far from the merge or without a movement.
pub proof fn a_merge_leader_moves_ahead_on_another_lane(
    w: &NetWorld,
    v: &NetVehicle,
    m: Option<MovementId>,
    my_dist: Quantity,
    to_end: Seq<Quantity>,
    gaps: Seq<Quantity>,
)
    ensures
        w.merge_leader(v, m, my_dist, to_end, gaps) matches Some(l) ==> {
            &&& m is Some
            &&& l < w.rows().len()
            &&& w.rows()[l as int].lane != v.lane
            &&& feeds(&w.network, w.rows()[l as int].lane, w.network.movements@[(m->0).0 as int].to_lane)
            &&& !w.rows()[l as int].speed.is_below(place(MOVING_SPEED))
            &&& place(ZERO).is_below(gaps[l as int])
            &&& !place(MERGE_APPROACH).is_below(my_dist)
        },
{
    lemma_leader(w, v, m, my_dist, to_end, gaps);
    let r = w.merge_leader(v, m, my_dist, to_end, gaps);
    if r is Some {
        let l = r->0 as int;
        let to = w.network.landing(m->0);
        let feeders = feeders_of(&w.network, to);
        lemma_rivals(w, v.lane, feeders, feeders.len() as int, l);
        let k = choose|k: int| 0 <= k < feeders.len() && #[trigger] feeders[k] == w.rows()[l].lane.0;
        assert(feeders.contains(feeders[k]));
        feeders_are_the_lanes_with_a_movement_onto(&w.network, to, w.rows()[l].lane);
    }
}

proof fn lemma_leader(
    w: &NetWorld,
    v: &NetVehicle,
    m: Option<MovementId>,
    my_dist: Quantity,
    to_end: Seq<Quantity>,
    gaps: Seq<Quantity>,
)
    ensures
        w.merge_leader(v, m, my_dist, to_end, gaps) matches Some(l) ==> {
            let feeders = feeders_of(&w.network, w.network.landing(m->0));
            &&& m is Some
            &&& l < w.rows().len()
            &&& w.merges_ahead(v.lane, my_dist, l as int, to_end, gaps)
            &&& w.merge_rivals(v.lane, feeders, feeders.len() as int).contains(l)
            &&& !place(MERGE_APPROACH).is_below(my_dist)
        },
{
    let r = w.merge_leader(v, m, my_dist, to_end, gaps);
    if r is Some {
        let feeders = feeders_of(&w.network, w.network.landing(m->0));
        let rivals = w.merge_rivals(v.lane, feeders, feeders.len() as int);
        let cost = w.merge_gap(v.lane, my_dist, rivals, to_end, gaps);
        lemma_least(rivals.len() as int, cost);
        let k = least_index(rivals.len() as int, cost)->0;
        assert(cost(k) is Some);
        assert(rivals.contains(rivals[k]));
        if w.rows().len() > 0 {
            lemma_rivals(w, v.lane, feeders, feeders.len() as int, 0);
        } else {
            lemma_no_rivals(w, v.lane, feeders, feeders.len() as int);
        }
    }
}

proof fn lemma_no_rivals(w: &NetWorld, own: LaneId, feeders: Seq<u32>, n: int)
    requires
        0 <= n <= feeders.len(),
        w.rows().len() == 0,
    ensures
        w.merge_rivals(own, feeders, n).len() == 0,
    decreases n,
{
    if n > 0 {
        lemma_no_rivals(w, own, feeders, n - 1);
        a_lane_lists_its_vehicles_in_order(w, feeders[n - 1]);
        let s = w.lane_order(feeders[n - 1]);
        if s.len() > 0 {
            assert(s[0] < 0);
        }
    }
}

} // verus!
