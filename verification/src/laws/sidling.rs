//! Who looks for another lane, who signals, and what a move sideways changes.

use vstd::prelude::*;

use crate::fleet::{NetVehicle, Sample};
use crate::lanes::{
    LaneView, SLEEPER_LC_PERIOD, SLEEP_SPEED_EPS, SlotGap, best_depth, chain_depth, cost_to_serve,
    cost_to_turn, depth_is_the_longest_chain, follows,
};
use crate::laws::following::corridor;
use crate::laws::terms::{leads_to, the_first_movement_onto_a_link_is_found};
use crate::network::{LaneId, LinkId, MovementId, Network};
use crate::paths::nth_lane;
use crate::quantity::{Quantity, ZERO, place};
use crate::search::{least_index, lemma_least};
use crate::sideways::{LanePass, moves_upto};
use crate::world::NetWorld;

verus! {

/// Wrecks, whoever is inside a node, and the vehicles of a link that runs the queue
/// model do not look sideways; a standing sleeper looks only once in a while, by its
/// id; everybody else does.
pub proof fn who_looks_sideways(w: &NetWorld, i: int)
    ensures
        ({
            let v = w.rows()[i];
            let queued = w.congestion_cfg.enabled
                && w.queue_links@[w.network.lanes@[v.lane.0 as int].link.0 as int];
            let dozes = v.slept && v.speed.is_below(place(SLEEP_SPEED_EPS));
            &&& v.wreck is Some || v.crossing is Some || queued ==> !w.looks_sideways(i)
            &&& v.wreck is None && v.crossing is None && !queued && !dozes ==> w.looks_sideways(i)
            &&& v.wreck is None && v.crossing is None && !queued && dozes ==> (w.looks_sideways(i)
                <==> w.tick.wrapping_add(v.id as u64) % SLEEPER_LC_PERIOD == 0)
        }),
{
}

/// A slot is clear exactly when everybody else of the target's corridor is left more
/// room than it needs.
pub proof fn a_slot_is_clear_of_the_whole_corridor(w: &NetWorld, target: LaneId, i: int, gaps: Seq<SlotGap>)
    ensures
        w.slot_is_clear(target, i, gaps) <==> forall|j: int|
            #![trigger gaps[j]]
            0 <= j < w.rows().len() && j != i && corridor(w, j)
                == w.topology.corridors.of_lane@[target.0 as int] ==> gaps[j].needed.is_below(
                gaps[j].room,
            ),
{
}

/// A vehicle moves over where its new place lies on the target lane and the slot is
/// clear: it is then on that lane at that place, at the start of its sideways move
/// from the lane it was on and of a new history; its speed and all else stays.
pub proof fn a_clear_slot_is_taken(
    w: &NetWorld,
    after: &NetWorld,
    i: int,
    target: LaneId,
    new_pos: Quantity,
    gaps: Seq<SlotGap>,
)
    requires
        w.slides_to(after, i, target, new_pos, gaps),
        0 <= i < w.rows().len(),
        place(ZERO).is_at_most(new_pos),
        new_pos.is_at_most(w.network.lanes@[target.0 as int].length),
        forall|j: int|
            #![trigger gaps[j]]
            0 <= j < w.rows().len() && j != i && corridor(w, j)
                == w.topology.corridors.of_lane@[target.0 as int] ==> gaps[j].needed.is_below(
                gaps[j].room,
            ),
    ensures
        after.rows().len() == w.rows().len(),
        after.rows()[i].lane == target,
        after.rows()[i].position == new_pos,
        after.rows()[i].speed == w.rows()[i].speed,
        after.rows()[i].id == w.rows()[i].id,
        after.rows()[i].stopped_at == w.rows()[i].stopped_at,
        after.rows()[i].wait_ticks == w.rows()[i].wait_ticks,
        after.rows()[i].lane_change matches Some(c) && c.from == w.rows()[i].lane && c.progress == place(
            ZERO,
        ),
        after.fleet.samples(i).len() == 1,
        after.fleet.samples(i)[0] == (Sample { position: new_pos, speed: w.rows()[i].speed }),
        forall|j: int|
            0 <= j < w.rows().len() && j != i ==> #[trigger] after.rows()[j] == w.rows()[j],
{
}

/// Otherwise nothing changes.
pub proof fn a_taken_slot_is_left_alone(
    w: &NetWorld,
    after: &NetWorld,
    i: int,
    target: LaneId,
    new_pos: Quantity,
    gaps: Seq<SlotGap>,
    j: int,
)
    requires
        w.slides_to(after, i, target, new_pos, gaps),
        new_pos.is_below(place(ZERO)) || w.network.lanes@[target.0 as int].length.is_below(new_pos) || (0
            <= j < w.rows().len() && j != i && corridor(w, j)
            == w.topology.corridors.of_lane@[target.0 as int] && gaps[j].room.is_at_most(
            gaps[j].needed,
        )),
    ensures
        *after == *w,
{
    assert(gaps[j].needed == gaps[j].needed && gaps[j].room == gaps[j].room);
}

/// The lane at place `k` of the vehicle's link.
pub open spec fn lane_beside(net: &Network, v: &NetVehicle, k: int) -> LaneId {
    LaneId((net.links@[net.lanes@[v.lane.0 as int].link.0 as int].lane_start.0 + k) as u32)
}

/// How far two places are apart.
pub open spec fn apart(a: int, b: int) -> int {
    if a < b {
        b - a
    } else {
        a - b
    }
}

/// A vehicle signals to no side inside a node, without a path, or in a lane that
/// leads to the next link on its path.
pub proof fn who_needs_no_other_lane_does_not_signal(w: &NetWorld, v: &NetVehicle)
    requires
        w.network.wf(),
        w.network.has_lane(v.lane),
    ensures
        v.crossing is Some ==> w.signals_side(v) == 0,
        w.next_on_path(v) is None ==> w.signals_side(v) == 0,
        w.next_on_path(v) matches Some(next) && leads_to(&w.network, v.lane, next) ==> w.signals_side(
            v,
        ) == 0,
{
    if w.next_on_path(v) is Some {
        the_first_movement_onto_a_link_is_found(&w.network, v.lane, w.next_on_path(v)->0);
    }
}

/// Otherwise it signals towards the nearest lane of its link that leads there: to the
/// left where that one is to the left, to the right where it is to the right.
pub proof fn a_vehicle_signals_towards_the_nearest_serving_lane(
    w: &NetWorld,
    v: &NetVehicle,
    next: LinkId,
    k: int,
)
    requires
        w.network.wf(),
        w.network.has_lane(v.lane),
        v.crossing is None,
        w.next_on_path(v) == Some(next),
        !leads_to(&w.network, v.lane, next),
        0 <= k < w.network.links@[w.network.lanes@[v.lane.0 as int].link.0 as int].lane_count,
        leads_to(&w.network, lane_beside(&w.network, v, k), next),
        // nearer than any other that leads there
        forall|x: int|
            0 <= x < w.network.links@[w.network.lanes@[v.lane.0 as int].link.0 as int].lane_count && x
                != k && #[trigger] leads_to(&w.network, lane_beside(&w.network, v, x), next) ==> apart(
                k,
                w.network.lanes@[v.lane.0 as int].index_in_link as int,
            ) < apart(x, w.network.lanes@[v.lane.0 as int].index_in_link as int),
    ensures
        w.signals_side(v) == (if k < w.network.lanes@[v.lane.0 as int].index_in_link {
            -1int
        } else if k > w.network.lanes@[v.lane.0 as int].index_in_link {
            1int
        } else {
            0int
        }),
{
    let net = &w.network;
    assert(net.lane_ok(v.lane.0 as int));
    let link = net.lanes@[v.lane.0 as int].link;
    let cur = net.lanes@[v.lane.0 as int].index_in_link as int;
    assert(net.link_ok(link.0 as int));
    let n = net.links@[link.0 as int].lane_count as int;
    let cost = cost_to_turn(net, link, next, cur);
    the_first_movement_onto_a_link_is_found(net, v.lane, next);
    lemma_least(n, cost);
    assert(nth_lane(net, link, k) == lane_beside(net, v, k));
    the_first_movement_onto_a_link_is_found(net, lane_beside(net, v, k), next);
    assert(cost(k) == Some(apart(k, cur)));
    let b = least_index(n, cost)->0;
    assert(cost(b) is Some);
    assert(nth_lane(net, link, b) == lane_beside(net, v, b));
    the_first_movement_onto_a_link_is_found(net, lane_beside(net, v, b), next);
    if b != k {
        assert(leads_to(net, lane_beside(net, v, b), next));
        assert(cost(b) == Some(apart(b, cur)));
    }
}

proof fn lemma_depth_counts(net: &Network, link: LinkId, hops: Seq<LinkId>, n: int, k: int)
    requires
        0 <= k < n,
    ensures
        chain_depth(net, nth_lane(net, link, k), hops) <= best_depth(net, link, hops, n),
    decreases n,
{
    if k < n - 1 {
        lemma_depth_counts(net, link, hops, n - 1, k);
    }
}

proof fn lemma_depth_found(net: &Network, link: LinkId, hops: Seq<LinkId>, n: int)
    requires
        0 <= n,
    ensures
        best_depth(net, link, hops, n) > 0 ==> exists|k: int|
            0 <= k < n && #[trigger] chain_depth(net, nth_lane(net, link, k), hops) == best_depth(
                net,
                link,
                hops,
                n,
            ),
    decreases n,
{
    if n > 0 {
        lemma_depth_found(net, link, hops, n - 1);
        let rest = best_depth(net, link, hops, n - 1);
        let d = chain_depth(net, nth_lane(net, link, n - 1), hops);
        if d <= rest && rest > 0 {
            let k = choose|k: int|
                0 <= k < n - 1 && #[trigger] chain_depth(net, nth_lane(net, link, k), hops) == rest;
            assert(chain_depth(net, nth_lane(net, link, k), hops) == best_depth(net, link, hops, n));
        }
    }
}

/// A vehicle knows how many lanes over it has to be exactly when it has a path and
/// some lane of its link leads to the next link on it.
pub proof fn a_serving_lane_is_sought_where_there_is_one(w: &NetWorld, v: &NetVehicle, next: LinkId, k: int)
    requires
        w.network.wf(),
        w.network.has_lane(v.lane),
        w.next_on_path(v) == Some(next),
        0 <= k < w.network.links@[w.network.lanes@[v.lane.0 as int].link.0 as int].lane_count,
        leads_to(&w.network, lane_beside(&w.network, v, k), next),
    ensures
        w.lanes_over(v) is Some,
{
    let net = &w.network;
    assert(net.lane_ok(v.lane.0 as int));
    let link = net.lanes@[v.lane.0 as int].link;
    assert(net.link_ok(link.0 as int));
    let n = net.links@[link.0 as int].lane_count as int;
    let hops = w.hops_from(v, next);
    let lane = lane_beside(net, v, k);
    assert(nth_lane(net, link, k) == lane);
    let l = net.lanes@[lane.0 as int];
    let x = choose|x: int|
        #![trigger net.movements@[x]]
        l.movement_start.0 <= x < l.movement_start.0 + l.movement_count
            && net.lanes@[net.movements@[x].to_lane.0 as int].link == next;
    assert(net.lane_ok(lane.0 as int));
    let s = seq![MovementId(x as u32)];
    assert(s.drop_first().len() == 0);
    assert(hops[0] == next);
    assert(net.landing_link(s[0]) == next);
    assert(follows(net, net.landing(s[0]), s.drop_first(), hops.drop_first()));
    assert(follows(net, lane, s, hops));
    depth_is_the_longest_chain(net, lane, hops, s);
    lemma_depth_counts(net, link, hops, n, k);
    let best = best_depth(net, link, hops, n);
    assert(best >= 1);
    lemma_depth_found(net, link, hops, n);
    let cur = net.lanes@[v.lane.0 as int].index_in_link as int;
    let cost = cost_to_serve(net, link, hops, best, cur);
    lemma_least(n, cost);
    let b = choose|b: int|
        0 <= b < n && #[trigger] chain_depth(net, nth_lane(net, link, b), hops) == best;
    assert(cost(b) is Some);
}

/// Everybody who wants another lane is in the pass's list, in row order, and nobody
/// else.
pub proof fn all_who_want_a_lane_are_moved(wanted: Seq<Option<LaneId>>, n: int)
    requires
        0 <= n <= wanted.len() <= usize::MAX,
    ensures
        forall|i: int, l: LaneId|
            #![trigger moves_upto(wanted, n).contains((i as usize, l))]
            0 <= i < n ==> (moves_upto(wanted, n).contains((i as usize, l)) <==> wanted[i] == Some(l)),
        forall|k: int|
            0 <= k < moves_upto(wanted, n).len() ==> (#[trigger] moves_upto(wanted, n)[k]).0 < n,
        forall|a: int, b: int|
            #![trigger moves_upto(wanted, n)[a], moves_upto(wanted, n)[b]]
            0 <= a < b < moves_upto(wanted, n).len() ==> moves_upto(wanted, n)[a].0 < moves_upto(
                wanted,
                n,
            )[b].0,
    decreases n,
{
    if n > 0 {
        all_who_want_a_lane_are_moved(wanted, n - 1);
        let before = moves_upto(wanted, n - 1);
        let now = moves_upto(wanted, n);
        if wanted[n - 1] is Some {
            assert(now == before.push(((n - 1) as usize, wanted[n - 1]->0)));
        }
        assert forall|i: int, l: LaneId|
            #![trigger now.contains((i as usize, l))]
            0 <= i < n implies (now.contains((i as usize, l)) <==> wanted[i] == Some(l)) by {
            let e = (i as usize, l);
            if before.contains(e) {
                let k = choose|k: int| 0 <= k < before.len() && before[k] == e;
                assert(now[k] == e);
            }
            if now.contains(e) {
                let k = choose|k: int| 0 <= k < now.len() && now[k] == e;
                if k < before.len() {
                    assert(before[k] == e);
                    assert(before[k].0 < n - 1);
                    assert(before.contains(e));
                }
            }
            if i == n - 1 && wanted[i] == Some(l) {
                assert(now[before.len() as int] == e);
            }
            if i < n - 1 {
                assert(before.contains(e) <==> wanted[i] == Some(l));
            }
        }
        assert forall|k: int| 0 <= k < now.len() implies (#[trigger] now[k]).0 < n by {
            if k < before.len() {
                assert(now[k] == before[k]);
            }
        }
        assert forall|a: int, b: int| #![trigger now[a], now[b]] 0 <= a < b < now.len() implies now[a].0
            < now[b].0 by {
            assert(now[a] == before[a]);
            if b < before.len() {
                assert(now[b] == before[b]);
            } else {
                assert(before[a].0 < n - 1);
            }
        }
    }
}

/// Nobody wants a lane who does not look sideways; whoever does wants the target of
/// an option that it has and would take.
pub proof fn a_lane_is_wanted_that_is_offered(w: &NetWorld, views: Seq<LaneView>, hov_ok: Seq<bool>, p: LanePass, i: int)
    requires
        w.lanes_wanted(views, hov_ok, p),
        0 <= i < w.rows().len(),
    ensures
        !w.looks_sideways(i) ==> p.wanted[i] is None,
        p.wanted[i] matches Some(l) ==> (p.scores[i].0.take && (w.option_on(
            i,
            &views[i],
            hov_ok[i],
            -1,
        ) matches Some(o) && o.target == l)) || (p.scores[i].1.take && (w.option_on(
            i,
            &views[i],
            hov_ok[i],
            1,
        ) matches Some(o) && o.target == l)),
        w.looks_sideways(i) && p.scores[i].0.take && w.option_on(i, &views[i], hov_ok[i], -1) is Some
            ==> p.wanted[i] is Some,
        w.looks_sideways(i) && p.scores[i].1.take && w.option_on(i, &views[i], hov_ok[i], 1) is Some
            ==> p.wanted[i] is Some,
{
    assert(p.wanted[i] == p.wanted[i]);
}

} // verus!
