//! On which lane a vehicle comes onto the network, and as what.

use vstd::prelude::*;

use crate::fleet::{DriverConfig, NetVehicle};
use crate::laws::terms::{leads_to, the_first_movement_onto_a_link_is_found};
use crate::network::{LaneId, LinkId, MovementId};
use crate::paths::nth_lane;
use crate::quantity::{Quantity, ZERO, place};
use crate::search::{first_index, least_index, lemma_first_index, lemma_least};
use crate::spawning::{EntryView, lemma_every_lane_is_tried, rotated};
use crate::world::NetWorld;

verus! {

/// The lane at place `p` of the link.
pub open spec fn lane_there(w: &NetWorld, link: LinkId, p: int) -> LaneId {
    LaneId((w.network.links@[link.0 as int].lane_start.0 + p) as u32)
}

/// The lane at place `p` of the link can be entered: it is open to the vehicle, and
/// every rear on it is beyond the gap.
pub open spec fn can_be_entered(w: &NetWorld, link: LinkId, gap: Quantity, view: &EntryView, p: int) -> bool {
    &&& 0 <= p < w.network.links@[link.0 as int].lane_count
    &&& view.hov_ok || !w.network.lanes@[lane_there(w, link, p).0 as int].hov
    &&& forall|x: int|
        0 <= x < w.rows().len() && (#[trigger] w.rows()[x]).lane == lane_there(w, link, p)
            ==> gap.is_below(view.rears@[x])
}

/// A movement off the lane leads to a landing from which so much remains to the
/// destination.
pub open spec fn leads_on(w: &NetWorld, dest: LinkId, lane: LaneId, x: int, d: u128) -> bool {
    let l = w.network.lanes@[lane.0 as int];
    &&& l.movement_start.0 <= x < l.movement_start.0 + l.movement_count
    &&& w.router->0.remaining(dest, w.network.lanes@[w.network.movements@[x].to_lane.0 as int].link)
        == Some(d)
}

/// How many lanes to the right of the vehicle's first choice, going round.
pub open spec fn steps_round(id: u32, p: int, n: u32) -> int {
    let first = id as int % n as int;
    if p >= first {
        p - first
    } else {
        p - first + n
    }
}

/// The lane tried after `k` others is `k` steps round from the first choice.
proof fn lemma_steps(id: u32, k: int, n: u32)
    requires
        0 <= k < n,
    ensures
        0 <= rotated(id, k, n) < n,
        steps_round(id, rotated(id, k, n), n) == k,
{
    let (m, first) = (n as int, id as int % n as int);
    if first + k < m {
        vstd::arithmetic::div_mod::lemma_small_mod((first + k) as nat, n as nat);
    } else {
        vstd::arithmetic::div_mod::lemma_fundamental_div_mod_converse(first + k, m, 1, first + k - m);
    }
}

proof fn lemma_may_enter(w: &NetWorld, link: LinkId, gap: Quantity, id: u32, view: &EntryView, k: int)
    requires
        0 <= k < w.network.links@[link.0 as int].lane_count,
    ensures
        w.may_enter(link, gap, id, view)(k) <==> can_be_entered(
            w,
            link,
            gap,
            view,
            rotated(id, k, w.network.links@[link.0 as int].lane_count),
        ),
{
    lemma_steps(id, k, w.network.links@[link.0 as int].lane_count);
}

/// A vehicle gets a lane exactly when some lane of the link can be entered, and the
/// one it gets can be.
pub proof fn a_vehicle_enters_on_a_lane_that_can_be_entered(
    w: &NetWorld,
    link: LinkId,
    gap: Quantity,
    id: u32,
    dest: Option<LinkId>,
    view: &EntryView,
)
    ensures
        match w.entry_place(link, gap, id, dest, view) {
            Some(p) => can_be_entered(w, link, gap, view, p),
            None => forall|p: int| !#[trigger] can_be_entered(w, link, gap, view, p),
        },
{
    let n = w.network.links@[link.0 as int].lane_count;
    let may = w.may_enter(link, gap, id, view);
    if dest is Some && w.router is Some {
        let cost = w.entry_cost(link, gap, id, dest->0, view);
        lemma_least(n as int, cost);
        match least_index(n as int, cost) {
            Some(k) => {
                assert(cost(k) is Some);
                lemma_may_enter(w, link, gap, id, view, k);
            },
            None => {
                assert forall|p: int| !#[trigger] can_be_entered(w, link, gap, view, p) by {
                    if can_be_entered(w, link, gap, view, p) {
                        let k = lemma_every_lane_is_tried(id, p, n);
                        lemma_may_enter(w, link, gap, id, view, k);
                        assert(cost(k) is None);
                    }
                }
            },
        }
    } else {
        lemma_first_index(0, n as int, may);
        match first_index(0, n as int, may) {
            Some(k) => {
                lemma_may_enter(w, link, gap, id, view, k);
            },
            None => {
                assert forall|p: int| !#[trigger] can_be_entered(w, link, gap, view, p) by {
                    if can_be_entered(w, link, gap, view, p) {
                        let k = lemma_every_lane_is_tried(id, p, n);
                        lemma_may_enter(w, link, gap, id, view, k);
                        assert(!may(k));
                    }
                }
            },
        }
    }
}

/// A movement of a lane, by its distance from the lane's first.
proof fn lemma_leads_on(w: &NetWorld, dest: LinkId, lane: LaneId, k: int)
    requires
        w.network.wf(),
        w.network.has_lane(lane),
        0 <= k < w.network.lanes@[lane.0 as int].movement_count,
    ensures
        forall|d: u128|
            #[trigger] leads_on(w, dest, lane, w.network.lanes@[lane.0 as int].movement_start.0 + k, d)
                <==> w.distance_after(dest, lane)(k) == Some(d as int),
{
    assert(w.network.lane_ok(lane.0 as int));
    let x = w.network.lanes@[lane.0 as int].movement_start.0 + k;
    assert(w.network.nth_movement(lane, k) == MovementId(x as u32));
    assert forall|d: u128|
        #[trigger] leads_on(w, dest, lane, x, d) <==> w.distance_after(dest, lane)(k) == Some(d as int) by {
        let r = w.router->0.remaining(
            dest,
            w.network.lanes@[w.network.movements@[x].to_lane.0 as int].link,
        );
        assert(w.network.landing_link(w.network.nth_movement(lane, k))
            == w.network.lanes@[w.network.movements@[x].to_lane.0 as int].link);
        if r is Some {
            assert(w.distance_after(dest, lane)(k) == Some(r->0 as int));
        }
    }
}

/// The score of a lane is at most what remains after any of its movements, and is
/// what remains after one of them, if any leads on.
proof fn lemma_score(w: &NetWorld, dest: LinkId, lane: LaneId)
    requires
        w.network.wf(),
        w.network.has_lane(lane),
    ensures
        w.lane_score(dest, lane) <= u128::MAX,
        forall|x: int, d: u128|
            #[trigger] leads_on(w, dest, lane, x, d) ==> w.lane_score(dest, lane) <= d,
        w.lane_score(dest, lane) < u128::MAX ==> exists|x: int, d: u128|
            #[trigger] leads_on(w, dest, lane, x, d) && d == w.lane_score(dest, lane),
{
    let l = w.network.lanes@[lane.0 as int];
    let n = l.movement_count as int;
    let cost = w.distance_after(dest, lane);
    lemma_least(n, cost);
    assert forall|x: int, d: u128| #[trigger] leads_on(w, dest, lane, x, d) implies w.lane_score(
        dest,
        lane,
    ) <= d by {
        let k = x - l.movement_start.0;
        lemma_leads_on(w, dest, lane, k);
        assert(leads_on(w, dest, lane, l.movement_start.0 + k, d));
        assert(cost(k) is Some);
    }
    match least_index(n, cost) {
        Some(k) => {
            lemma_leads_on(w, dest, lane, k);
            assert(cost(k) is Some);
            let r = w.router->0.remaining(
                dest,
                w.network.landing_link(w.network.nth_movement(lane, k)),
            );
            let d = r->0;
            assert(cost(k) == Some(d as int));
            assert(leads_on(w, dest, lane, l.movement_start.0 + k, d));
        },
        None => {},
    }
}

/// The lane that is entered scores no more than any that can be entered, and less
/// than those tried before it.
proof fn lemma_least_score(
    w: &NetWorld,
    link: LinkId,
    gap: Quantity,
    id: u32,
    dest: LinkId,
    view: &EntryView,
    p: int,
)
    requires
        w.network.wf(),
        w.network.has_link(link),
        w.router is Some,
        can_be_entered(w, link, gap, view, p),
    ensures
        w.entry_place(link, gap, id, Some(dest), view) matches Some(q) && 0 <= q
            < w.network.links@[link.0 as int].lane_count && w.network.has_lane(
            lane_there(w, link, q),
        ) && w.network.has_lane(lane_there(w, link, p)) && w.lane_score(dest, lane_there(w, link, q))
            <= w.lane_score(dest, lane_there(w, link, p)) && (steps_round(
            id,
            p,
            w.network.links@[link.0 as int].lane_count,
        ) < steps_round(id, q, w.network.links@[link.0 as int].lane_count) ==> w.lane_score(
            dest,
            lane_there(w, link, q),
        ) < w.lane_score(dest, lane_there(w, link, p))),
{
    let net = &w.network;
    let n = net.links@[link.0 as int].lane_count;
    assert(net.link_ok(link.0 as int));
    let cost = w.entry_cost(link, gap, id, dest, view);
    lemma_least(n as int, cost);
    let k = lemma_every_lane_is_tried(id, p, n);
    lemma_steps(id, k, n);
    lemma_may_enter(w, link, gap, id, view, k);
    assert(nth_lane(net, link, p) == lane_there(w, link, p));
    assert(cost(k) == Some(w.lane_score(dest, lane_there(w, link, p))));
    let b = least_index(n as int, cost)->0;
    let q = rotated(id, b, n);
    lemma_steps(id, b, n);
    assert(nth_lane(net, link, q) == lane_there(w, link, q));
    assert(cost(b) == Some(w.lane_score(dest, lane_there(w, link, q))));
}

/// With a router, a vehicle bound for a destination enters on a lane that leads
/// nearest to it: whatever remains after a movement of a lane that can be entered,
/// no more remains after some movement of the lane it gets.
pub proof fn a_vehicle_enters_on_the_lane_that_leads_nearest(
    w: &NetWorld,
    link: LinkId,
    gap: Quantity,
    id: u32,
    dest: LinkId,
    view: &EntryView,
    p: int,
    x: int,
    d: u128,
)
    requires
        w.network.wf(),
        w.network.has_link(link),
        w.router is Some,
        can_be_entered(w, link, gap, view, p),
        leads_on(w, dest, lane_there(w, link, p), x, d),
        d < u128::MAX,
    ensures
        w.entry_place(link, gap, id, Some(dest), view) matches Some(q) && exists|y: int, e: u128|
            #[trigger] leads_on(w, dest, lane_there(w, link, q), y, e) && e <= d,
{
    lemma_least_score(w, link, gap, id, dest, view, p);
    let q = w.entry_place(link, gap, id, Some(dest), view)->0;
    lemma_score(w, dest, lane_there(w, link, p));
    lemma_score(w, dest, lane_there(w, link, q));
    assert(w.lane_score(dest, lane_there(w, link, p)) <= d);
    let (y, e) = choose|y: int, e: u128|
        #[trigger] leads_on(w, dest, lane_there(w, link, q), y, e) && e == w.lane_score(
            dest,
            lane_there(w, link, q),
        );
    assert(leads_on(w, dest, lane_there(w, link, q), y, e) && e <= d);
}

/// Of lanes that lead equally near it gets the first, going round from the one that
/// its id gives: any other that can be entered and comes sooner leads less near.
pub proof fn of_equal_lanes_the_first_round_is_entered(
    w: &NetWorld,
    link: LinkId,
    gap: Quantity,
    id: u32,
    dest: LinkId,
    view: &EntryView,
    p: int,
)
    requires
        w.network.wf(),
        w.network.has_link(link),
        w.router is Some,
        can_be_entered(w, link, gap, view, p),
        w.entry_place(link, gap, id, Some(dest), view) matches Some(q) && steps_round(
            id,
            p,
            w.network.links@[link.0 as int].lane_count,
        ) < steps_round(id, q, w.network.links@[link.0 as int].lane_count),
    ensures
        ({
            let q = w.entry_place(link, gap, id, Some(dest), view)->0;
            exists|y: int, e: u128|
                #[trigger] leads_on(w, dest, lane_there(w, link, q), y, e) && forall|x: int, d: u128|
                    #[trigger] leads_on(w, dest, lane_there(w, link, p), x, d) ==> e < d
        }),
{
    lemma_least_score(w, link, gap, id, dest, view, p);
    let q = w.entry_place(link, gap, id, Some(dest), view)->0;
    lemma_score(w, dest, lane_there(w, link, p));
    lemma_score(w, dest, lane_there(w, link, q));
    let (y, e) = choose|y: int, e: u128|
        #[trigger] leads_on(w, dest, lane_there(w, link, q), y, e) && e == w.lane_score(
            dest,
            lane_there(w, link, q),
        );
    assert(leads_on(w, dest, lane_there(w, link, q), y, e));
}

/// Without a destination, or without a router, a vehicle enters on the first lane
/// that can be entered, going round from the one that its id gives.
pub proof fn without_a_field_the_first_lane_round_is_entered(
    w: &NetWorld,
    link: LinkId,
    gap: Quantity,
    id: u32,
    dest: Option<LinkId>,
    view: &EntryView,
    p: int,
)
    requires
        dest is None || w.router is None,
        can_be_entered(w, link, gap, view, p),
    ensures
        w.entry_place(link, gap, id, dest, view) matches Some(q) && steps_round(
            id,
            q,
            w.network.links@[link.0 as int].lane_count,
        ) <= steps_round(id, p, w.network.links@[link.0 as int].lane_count),
{
    let n = w.network.links@[link.0 as int].lane_count;
    let may = w.may_enter(link, gap, id, view);
    lemma_first_index(0, n as int, may);
    let k = lemma_every_lane_is_tried(id, p, n);
    lemma_may_enter(w, link, gap, id, view, k);
    lemma_steps(id, k, n);
    assert(may(k));
    let b = first_index(0, n as int, may)->0;
    lemma_steps(id, b, n);
}

/// A vehicle with an explicit route enters on a lane that leads to the second link
/// of the route, where such a lane can be entered: the first of them going round.
pub proof fn a_routed_vehicle_enters_on_a_lane_of_its_route(
    w: &NetWorld,
    route: Seq<LinkId>,
    gap: Quantity,
    id: u32,
    view: &EntryView,
    p: int,
)
    requires
        w.network.wf(),
        route.len() > 1,
        w.network.has_link(route[0]),
        can_be_entered(w, route[0], gap, view, p),
        leads_to(&w.network, lane_there(w, route[0], p), route[1]),
    ensures
        w.route_entry_place(route, gap, id, view) matches Some(q) && can_be_entered(
            w,
            route[0],
            gap,
            view,
            q,
        ) && leads_to(&w.network, lane_there(w, route[0], q), route[1]) && steps_round(
            id,
            q,
            w.network.links@[route[0].0 as int].lane_count,
        ) <= steps_round(id, p, w.network.links@[route[0].0 as int].lane_count),
{
    let net = &w.network;
    let link = route[0];
    let n = net.links@[link.0 as int].lane_count;
    assert(net.link_ok(link.0 as int));
    let may = w.may_enter_for(link, route[1], gap, id, view);
    lemma_first_index(0, n as int, may);
    let k = lemma_every_lane_is_tried(id, p, n);
    lemma_steps(id, k, n);
    lemma_may_enter(w, link, gap, id, view, k);
    assert(nth_lane(net, link, p) == lane_there(w, link, p));
    the_first_movement_onto_a_link_is_found(net, lane_there(w, link, p), route[1]);
    assert(may(k));
    let b = first_index(0, n as int, may)->0;
    assert(may(b));
    let q = rotated(id, b, n);
    lemma_steps(id, b, n);
    lemma_may_enter(w, link, gap, id, view, b);
    assert(nth_lane(net, link, q) == lane_there(w, link, q));
    the_first_movement_onto_a_link_is_found(net, lane_there(w, link, q), route[1]);
}

/// Where no lane that can be entered leads to the second link, or there is none, a
/// routed vehicle enters as one without a destination.
pub proof fn a_routed_vehicle_takes_any_lane_at_last(
    w: &NetWorld,
    route: Seq<LinkId>,
    gap: Quantity,
    id: u32,
    view: &EntryView,
)
    requires
        w.network.wf(),
        route.len() > 0,
        w.network.has_link(route[0]),
        route.len() > 1 ==> forall|p: int| #[trigger]
            can_be_entered(w, route[0], gap, view, p) ==> !leads_to(
                &w.network,
                lane_there(w, route[0], p),
                route[1],
            ),
    ensures
        w.route_entry_place(route, gap, id, view) == w.entry_place(route[0], gap, id, None, view),
{
    let net = &w.network;
    let link = route[0];
    let n = net.links@[link.0 as int].lane_count;
    assert(net.link_ok(link.0 as int));
    if route.len() > 1 {
        let may = w.may_enter_for(link, route[1], gap, id, view);
        lemma_first_index(0, n as int, may);
        if first_index(0, n as int, may) is Some {
            let b = first_index(0, n as int, may)->0;
            let q = rotated(id, b, n);
            lemma_steps(id, b, n);
            lemma_may_enter(w, link, gap, id, view, b);
            assert(can_be_entered(w, link, gap, view, q));
            assert(nth_lane(net, link, q) == lane_there(w, link, q));
            the_first_movement_onto_a_link_is_found(net, lane_there(w, link, q), route[1]);
        }
    }
}

/// A vehicle enters at the speed asked for where nobody rolls on its lane; behind a
/// tail at that speed or the safe one, whichever is less.
pub proof fn nobody_enters_too_fast_behind_a_tail(
    w: &NetWorld,
    lane: LaneId,
    speed: Quantity,
    safe: Quantity,
    rears: Seq<Quantity>,
    x: int,
)
    requires
        !speed.is_nan(),
        !safe.is_nan(),
    ensures
        (0 <= x < w.rows().len() && w.rows()[x].lane == lane && w.rows()[x].crossing is None) ==> {
            let at = w.entry_speed(lane, speed, safe, rears);
            at.is_at_most(speed) && at.is_at_most(safe) && (at == speed || at == safe)
        },
        (forall|y: int|
            0 <= y < w.rows().len() && (#[trigger] w.rows()[y]).lane == lane ==> w.rows()[y].crossing
                is Some) ==> w.entry_speed(lane, speed, safe, rears) == speed,
{
    let n = w.rows().len() as int;
    let cost = w.rolling_rear(lane, rears);
    lemma_least(n, cost);
    if 0 <= x < n && w.rows()[x].lane == lane && w.rows()[x].crossing is None {
        assert(cost(x) is Some);
    }
    if least_index(n, cost) is Some {
        let k = least_index(n, cost)->0;
        assert(cost(k) is Some);
        assert(w.rows()[k].lane == lane);
    }
}

/// The tail of a lane is the vehicle rolling on it with the least rear, the first
/// such in row order.
pub proof fn the_tail_has_the_least_rear(w: &NetWorld, lane: LaneId, rears: Seq<Quantity>)
    ensures
        match w.rolling_tail(lane, rears) {
            Some(k) => 0 <= k < w.rows().len() && w.rows()[k].lane == lane && w.rows()[k].crossing
                is None && forall|x: int|
                #![trigger w.rows()[x]]
                0 <= x < w.rows().len() && w.rows()[x].lane == lane && w.rows()[x].crossing is None
                    ==> rears[k].rank() <= rears[x].rank() && (x < k ==> rears[k].rank()
                    < rears[x].rank()),
            None => forall|x: int|
                0 <= x < w.rows().len() && (#[trigger] w.rows()[x]).lane == lane
                    ==> w.rows()[x].crossing is Some,
        },
{
    let n = w.rows().len() as int;
    let cost = w.rolling_rear(lane, rears);
    lemma_least(n, cost);
    let r = least_index(n, cost);
    if r is Some {
        assert(cost(r->0) is Some);
        assert forall|x: int|
            #![trigger w.rows()[x]]
            0 <= x < n && w.rows()[x].lane == lane && w.rows()[x].crossing is None implies rears[r->0].rank()
            <= rears[x].rank() && (x < r->0 ==> rears[r->0].rank() < rears[x].rank()) by {
            assert(cost(x) is Some);
        }
    } else {
        assert forall|x: int| 0 <= x < n && (#[trigger] w.rows()[x]).lane == lane implies w.rows()[x].crossing
            is Some by {
            assert(cost(x) is None);
        }
    }
}

/// One more vehicle: it comes last, everybody else stays as they were, and only its
/// own link counts one more entry.
pub proof fn an_entry_adds_one_vehicle(w: &NetWorld, before: &NetWorld, v: NetVehicle)
    requires
        w.grown(before, v),
        before.link_entries@.len() == before.network.links@.len(),
        before.network.wf(),
        before.network.has_lane(v.lane),
        before.link_entries@[before.network.lanes@[v.lane.0 as int].link.0 as int] < u32::MAX,
    ensures
        w.rows().len() == before.rows().len() + 1,
        w.rows().last() == v,
        forall|i: int| 0 <= i < before.rows().len() ==> #[trigger] w.rows()[i] == before.rows()[i],
        w.link_entries@.len() == before.link_entries@.len(),
        forall|l: int|
            0 <= l < before.link_entries@.len() ==> #[trigger] w.link_entries@[l]
                == before.link_entries@[l] + (if l == before.network.lanes@[v.lane.0 as int].link.0 {
                1int
            } else {
                0int
            }),
        w.network == before.network,
        w.signals == before.signals,
        w.router == before.router,
        w.tick == before.tick,
{
    assert(before.network.lane_ok(v.lane.0 as int));
}

/// Who enters bound for a destination stands at the start of a lane of the link,
/// with its own id and driver and nothing behind it: unstopped, unhurt, awake.
pub proof fn an_entrant_starts_afresh(
    w: &NetWorld,
    id: u32,
    link: LinkId,
    dest: LinkId,
    speed: Quantity,
    driver: DriverConfig,
    gap: Quantity,
    view: &EntryView,
    route: Vec<LinkId>,
)
    ensures
        ({
            let v = w.entrant(id, link, dest, speed, driver, gap, view, route);
            let p = w.entry_place(link, gap, id, Some(dest), view)->0;
            &&& v.id == id
            &&& v.lane == lane_there(w, link, p)
            &&& v.position == place(ZERO)
            &&& v.speed == speed || v.speed == view.safe@[p]
            &&& v.driver == driver
            &&& v.kin == view.poses@[p]
            &&& v.steer == place(ZERO)
            &&& v.dest == Some(dest)
            &&& v.route == route
            &&& v.route_idx == 0
            &&& v.crossing is None
            &&& v.stopped_at is None
            &&& v.wait_ticks == 0
            &&& v.lane_change is None
            &&& v.wreck is None
            &&& !v.slept
        }),
{
}

} // verus!
