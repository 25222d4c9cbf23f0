//! Meters, buses and trains.

use vstd::prelude::*;

use crate::fleet::NetVehicle;
use crate::infrastructure::{
    BUS_LENGTH, BusHold, BusView, HOUR_16, HOUR_19, HOUR_5, HOUR_6, HOUR_9, METER_PERIOD_SECS,
    METER_START_VPH, MeterSums, STOP_REACH, feeds_node, freeway_merge, freeway_movement,
    joins_freeway, lane_joins_freeway, meter_after, meter_for, meters_upto, trains_per_hour,
};
use crate::laws::terms::the_last_index_is_the_last;
use crate::neighbors::MOVING_SPEED;
use crate::network::{LaneId, LinkId, MovementId, Network, RoadKind};
use crate::paths::nth_lane;
use crate::quantity::{Quantity, ZERO, place};
use crate::rooms::RAIL_CLOSURE_SECS;
use crate::search::{
    count_where, first_index, indices_where, last_index, least_index, lemma_count_agree,
    lemma_count_bounds, lemma_first_index, lemma_indices, lemma_least,
};
use crate::topology::{RAIL_ADJACENT, RailPreempt, clearing, greens, is_preempt, preempt_before, stop_on};
use crate::world::{BusDwell, NetWorld, RampMeter};

verus! {

/// Ten trains an hour from six to nine and from sixteen to nineteen, one before
/// five, four at every other hour.
pub proof fn the_timetable(hour: Quantity)
    requires
        !hour.is_nan(),
    ensures
        hour.is_below(place(HOUR_5)) ==> trains_per_hour(hour) == 1,
        place(HOUR_5).is_at_most(hour) && hour.is_below(place(HOUR_6)) ==> trains_per_hour(hour) == 4,
        place(HOUR_6).is_at_most(hour) && hour.is_below(place(HOUR_9)) ==> trains_per_hour(hour)
            == 10,
        place(HOUR_9).is_at_most(hour) && hour.is_below(place(HOUR_16)) ==> trains_per_hour(hour)
            == 4,
        place(HOUR_16).is_at_most(hour) && hour.is_below(place(HOUR_19)) ==> trains_per_hour(hour)
            == 10,
        place(HOUR_19).is_at_most(hour) ==> trains_per_hour(hour) == 4,
{
}

/// Some movement off a lane of the link lands on a freeway.
pub open spec fn merges_onto_a_freeway(net: &Network, link: LinkId, x: int) -> bool {
    let m = net.movements@[x];
    &&& 0 <= x < net.movements@.len()
    &&& exists|k: int|
        #![trigger net.lanes@[net.links@[link.0 as int].lane_start.0 + k]]
        0 <= k < net.links@[link.0 as int].lane_count && {
            let l = net.lanes@[net.links@[link.0 as int].lane_start.0 + k];
            l.movement_start.0 <= x < l.movement_start.0 + l.movement_count
        }
    &&& net.links@[net.lanes@[m.to_lane.0 as int].link.0 as int].kind == RoadKind::Freeway
}

proof fn lemma_freeway_movement(net: &Network, lane: LaneId)
    requires
        net.wf(),
        net.has_lane(lane),
    ensures
        match freeway_movement(net, lane) {
            Some(m) => {
                let l = net.lanes@[lane.0 as int];
                &&& l.movement_start.0 <= m.0 < l.movement_start.0 + l.movement_count
                &&& net.links@[net.lanes@[net.movements@[m.0 as int].to_lane.0 as int].link.0 as int].kind
                    == RoadKind::Freeway
            },
            None => forall|x: int|
                #![trigger net.movements@[x]]
                net.lanes@[lane.0 as int].movement_start.0 <= x
                    < net.lanes@[lane.0 as int].movement_start.0
                    + net.lanes@[lane.0 as int].movement_count
                    ==> net.links@[net.lanes@[net.movements@[x].to_lane.0 as int].link.0 as int].kind
                    != RoadKind::Freeway,
        },
{
    let l = net.lanes@[lane.0 as int];
    assert(net.lane_ok(lane.0 as int));
    let p = joins_freeway(net, lane);
    lemma_first_index(0, l.movement_count as int, p);
    if first_index(0, l.movement_count as int, p) is Some {
        let k = first_index(0, l.movement_count as int, p)->0;
        assert(p(k));
        assert(net.nth_movement(lane, k).0 == l.movement_start.0 + k);
    } else {
        assert forall|x: int|
            #![trigger net.movements@[x]]
            l.movement_start.0 <= x < l.movement_start.0 + l.movement_count
                implies net.links@[net.lanes@[net.movements@[x].to_lane.0 as int].link.0 as int].kind
            != RoadKind::Freeway by {
            assert(!p(x - l.movement_start.0));
            assert(net.nth_movement(lane, x - l.movement_start.0) == MovementId(x as u32));
        }
    }
}

/// A link has a meter exactly when it is a ramp with a movement onto a freeway. The
/// meter starts at its first rate with all clocks at zero, and watches a freeway link
/// other than the ramp that ends where the ramp merges, or, where there is none, the
/// link merged onto.
pub proof fn ramps_onto_a_freeway_are_metered(net: &Network, link: LinkId)
    requires
        net.wf(),
        net.has_link(link),
        net.links@.len() <= u32::MAX,
    ensures
        match meter_for(net, link) {
            Some(m) => {
                &&& net.links@[link.0 as int].kind == RoadKind::Ramp
                &&& m.ramp == link
                &&& m.rate_vph == place(METER_START_VPH)
                &&& m.cycle_t == place(ZERO)
                &&& m.since_update == place(ZERO)
                &&& exists|x: int| #[trigger]
                    merges_onto_a_freeway(net, link, x) && ((m.mainline != link
                        && net.links@[m.mainline.0 as int].kind == RoadKind::Freeway
                        && net.links@[m.mainline.0 as int].to == net.movements@[x].node) || (m.mainline
                        == net.lanes@[net.movements@[x].to_lane.0 as int].link && forall|f: int|
                        #![trigger net.links@[f]]
                        0 <= f < net.links@.len() && f != link.0 && net.links@[f].to
                            == net.movements@[x].node ==> net.links@[f].kind != RoadKind::Freeway))
            },
            None => net.links@[link.0 as int].kind != RoadKind::Ramp || forall|x: int|
                !#[trigger] merges_onto_a_freeway(net, link, x),
        },
{
    let l = net.links@[link.0 as int];
    assert(net.link_ok(link.0 as int));
    let p = lane_joins_freeway(net, link);
    lemma_first_index(0, l.lane_count as int, p);
    let r = first_index(0, l.lane_count as int, p);
    if r is Some {
        let k = r->0;
        assert(p(k));
        let lane = nth_lane(net, link, k);
        assert(lane.0 == l.lane_start.0 + k);
        lemma_freeway_movement(net, lane);
        let m = freeway_merge(net, link)->0;
        assert(m == freeway_movement(net, lane)->0);
        assert(net.lane_ok(lane.0 as int));
        assert(net.lanes@[l.lane_start.0 + k] == net.lanes@[lane.0 as int]);
        assert(merges_onto_a_freeway(net, link, m.0 as int));
        let q = feeds_node(net, link, net.movement_at(m).node);
        lemma_first_index(0, net.links@.len() as int, q);
        let f = first_index(0, net.links@.len() as int, q);
        if f is Some {
            assert(q(f->0));
        } else {
            assert forall|f: int|
                #![trigger net.links@[f]]
                0 <= f < net.links@.len() && f != link.0 && net.links@[f].to
                    == net.movements@[m.0 as int].node implies net.links@[f].kind
                != RoadKind::Freeway by {
                assert(!q(f));
            }
        }
    } else {
        assert forall|x: int| !#[trigger] merges_onto_a_freeway(net, link, x) by {
            if merges_onto_a_freeway(net, link, x) {
                let k = choose|k: int|
                    #![trigger net.lanes@[l.lane_start.0 + k]]
                    0 <= k < l.lane_count && {
                        let z = net.lanes@[l.lane_start.0 + k];
                        z.movement_start.0 <= x < z.movement_start.0 + z.movement_count
                    };
                assert(!p(k));
                let lane = nth_lane(net, link, k);
                assert(lane.0 == l.lane_start.0 + k);
                lemma_freeway_movement(net, lane);
            }
        }
    }
}

/// The meters found are those of all links that have one, and no others.
pub proof fn every_metered_ramp_is_found(net: &Network, n: int, m: RampMeter)
    requires
        0 <= n <= u32::MAX,
    ensures
        meters_upto(net, n).contains(m) <==> exists|l: u32|
            l < n && #[trigger] meter_for(net, LinkId(l)) == Some(m),
    decreases n,
{
    if n > 0 {
        every_metered_ramp_is_found(net, n - 1, m);
        let before = meters_upto(net, n - 1);
        let now = meters_upto(net, n);
        let last = meter_for(net, LinkId((n - 1) as u32));
        if last is Some {
            assert(now == before.push(last->0));
            if before.contains(m) {
                let k = choose|k: int| 0 <= k < before.len() && before[k] == m;
                assert(now[k] == m);
            }
            if last == Some(m) {
                assert(now[before.len() as int] == m);
            }
            if now.contains(m) {
                let k = choose|k: int| 0 <= k < now.len() && now[k] == m;
                if k < before.len() {
                    assert(before[k] == m);
                }
            }
        }
        if exists|l: u32| l < n && #[trigger] meter_for(net, LinkId(l)) == Some(m) {
            let l = choose|l: u32| l < n && #[trigger] meter_for(net, LinkId(l)) == Some(m);
            if l == n - 1 {
                assert(last == Some(m));
            }
        }
    }
}

/// A meter keeps its ramp and its mainline. Once a period is over it takes the new
/// rate and starts the next; before that it keeps its rate and counts on. Its cycle
/// starts anew once it is as long as the headway at the rate it then has.
pub proof fn a_meter_adapts_once_a_period(m: RampMeter, s: MeterSums)
    ensures
        meter_after(m, s).ramp == m.ramp,
        meter_after(m, s).mainline == m.mainline,
        place(METER_PERIOD_SECS).is_at_most(s.since) ==> meter_after(m, s).rate_vph == s.rate
            && meter_after(m, s).since_update == place(ZERO) && (s.headway_adapted.is_at_most(s.cycle)
            ==> meter_after(m, s).cycle_t == place(ZERO)) && (!s.headway_adapted.is_at_most(s.cycle)
            ==> meter_after(m, s).cycle_t == s.cycle),
        !place(METER_PERIOD_SECS).is_at_most(s.since) ==> meter_after(m, s).rate_vph == m.rate_vph
            && meter_after(m, s).since_update == s.since && (s.headway_kept.is_at_most(s.cycle)
            ==> meter_after(m, s).cycle_t == place(ZERO)) && (!s.headway_kept.is_at_most(s.cycle)
            ==> meter_after(m, s).cycle_t == s.cycle),
{
}

/// The stops of a link are all of the network's stops that lie on it.
proof fn lemma_stops(w: &NetWorld, link: LinkId, s: int)
    requires
        w.wf(),
        w.network.has_link(link),
        0 <= s < w.network.bus_stops@.len(),
    ensures
        w.topology.stops_by_link@[link.0 as int]@.contains(s as usize)
            <==> w.network.bus_stops@[s].link == link,
        forall|k: int|
            0 <= k < w.topology.stops_by_link@[link.0 as int]@.len() ==> {
                let at = #[trigger] w.topology.stops_by_link@[link.0 as int]@[k];
                at < w.network.bus_stops@.len() && w.network.bus_stops@[at as int].link == link
            },
{
    let n = w.network.bus_stops@.len() as int;
    assert(n == w.network.bus_stops.len());
    let p = stop_on(&w.network, LinkId(link.0 as int as u32));
    assert(w.topology.stops_by_link@[link.0 as int]@ == indices_where(n, p));
    lemma_indices(n, p);
    assert(p(s) <==> w.network.bus_stops@[s].link == link);
    let list = indices_where(n, p);
    if list.contains(s as usize) {
        let k = choose|k: int| 0 <= k < list.len() && list[k] == s as usize;
        assert(p(list[k] as int));
    }
    assert forall|k: int| 0 <= k < list.len() implies {
        let at = #[trigger] list[k];
        at < n && w.network.bus_stops@[at as int].link == link
    } by {
        assert(p(list[k] as int));
    }
}

/// Stop `s` lies ahead on the bus's link and it has yet to serve it: its last stop was
/// not there, or the stop is beyond what that covers.
pub open spec fn is_due(w: &NetWorld, v: &NetVehicle, g: BusView, s: int) -> bool {
    let link = w.network.lanes@[v.lane.0 as int].link;
    let stop = w.network.bus_stops@[s];
    &&& 0 <= s < w.network.bus_stops@.len()
    &&& stop.link == link
    &&& g.passed.is_below(stop.arc)
    &&& !(w.bus_dwell@.contains_key(v.id) && w.bus_dwell@[v.id].link == link && stop.arc.is_at_most(
        g.served,
    ))
}

/// A vehicle that is no bus, or is inside a node, is held at no stop. A bus whose
/// service is not over stands where it is.
pub proof fn only_a_bus_is_held_at_stops(w: &NetWorld, v: &NetVehicle, g: BusView)
    ensures
        v.driver.vehicle_length.is_below(place(BUS_LENGTH)) || v.crossing is Some ==> w.bus_hold(v, g)
            == BusHold::Nowhere,
        !v.driver.vehicle_length.is_below(place(BUS_LENGTH)) && v.crossing is None
            && w.bus_dwell@.contains_key(v.id) && w.tick < w.bus_dwell@[v.id].until ==> w.bus_hold(v, g)
            == BusHold::Here,
        w.bus_hold(v, g) == BusHold::Here ==> w.bus_dwell@.contains_key(v.id) && w.tick
            < w.bus_dwell@[v.id].until,
{
}

/// A bus that is not serving a stop is held at the nearest one that is due, and at
/// none where none is due.
pub proof fn a_bus_is_held_at_the_nearest_stop_that_is_due(w: &NetWorld, v: &NetVehicle, g: BusView)
    requires
        w.wf(),
        v.placed(&w.network),
        !v.driver.vehicle_length.is_below(place(BUS_LENGTH)),
        v.crossing is None,
        !(w.bus_dwell@.contains_key(v.id) && w.tick < w.bus_dwell@[v.id].until),
    ensures
        match w.bus_hold(v, g) {
            BusHold::At(s) => is_due(w, v, g, s as int) && forall|x: int| #[trigger]
                is_due(w, v, g, x) ==> w.network.bus_stops@[s as int].arc.rank()
                    <= w.network.bus_stops@[x].arc.rank(),
            BusHold::Nowhere => forall|x: int| !#[trigger] is_due(w, v, g, x),
            BusHold::Here => false,
        },
{
    let link = w.network.lanes@[v.lane.0 as int].link;
    assert(w.network.lane_ok(v.lane.0 as int));
    assert(w.network.bus_stops@.len() == w.network.bus_stops.len());
    let stops = w.topology.stops_by_link@[link.0 as int]@;
    let cost = w.stop_ahead(v, g);
    lemma_least(stops.len() as int, cost);
    assert forall|x: int| #[trigger] is_due(w, v, g, x) implies exists|k: int|
        0 <= k < stops.len() && stops[k] == x as usize && #[trigger] cost(k) is Some && cost(k)->0
            == w.network.bus_stops@[x].arc.rank() by {
        lemma_stops(w, link, x);
        let k = choose|k: int| 0 <= k < stops.len() && stops[k] == x as usize;
        assert(cost(k) is Some);
    }
    if least_index(stops.len() as int, cost) is Some {
        let k = least_index(stops.len() as int, cost)->0;
        assert(cost(k) is Some);
        if w.network.bus_stops@.len() > 0 {
            lemma_stops(w, link, 0);
        } else {
            let p = stop_on(&w.network, LinkId(link.0 as int as u32));
            assert(stops == indices_where(0, p));
        }
        assert(is_due(w, v, g, stops[k] as int));
    }
}

/// A bus starts its service at a stop of its link only while it stands, is not
/// serving another, and the stop is within reach and not served already.
pub proof fn a_bus_serves_a_stop_that_it_reaches(
    w: &NetWorld,
    d: Map<u32, BusDwell>,
    v: &NetVehicle,
    served: Quantity,
    dists: Seq<Quantity>,
)
    requires
        w.wf(),
        v.placed(&w.network),
    ensures
        w.arrives_at(d, v, served, dists) matches Some(s) ==> {
            let link = w.network.lanes@[v.lane.0 as int].link;
            &&& !v.driver.vehicle_length.is_below(place(BUS_LENGTH))
            &&& v.crossing is None
            &&& !(d.contains_key(v.id) && w.tick < d[v.id].until)
            &&& !place(MOVING_SPEED).is_below(v.speed)
            &&& s < w.network.bus_stops@.len()
            &&& w.network.bus_stops@[s as int].link == link
            &&& !(d.contains_key(v.id) && d[v.id].link == link && w.network.bus_stops@[s as int].arc.is_at_most(
                served,
            ))
        },
{
    let link = w.network.lanes@[v.lane.0 as int].link;
    assert(w.network.lane_ok(v.lane.0 as int));
    let stops = w.topology.stops_by_link@[link.0 as int]@;
    let p = w.is_reached_stop(d, v, served, dists);
    lemma_first_index(0, stops.len() as int, p);
    if w.arrives_at(d, v, served, dists) is Some {
        let k = first_index(0, stops.len() as int, p)->0;
        assert(p(k));
        if w.network.bus_stops@.len() > 0 {
            lemma_stops(w, link, 0);
        } else {
            let q = stop_on(&w.network, LinkId(link.0 as int as u32));
            assert(stops == indices_where(0, q));
        }
    }
}

/// And it does start at one, wherever such a stop is.
pub proof fn a_bus_that_reaches_a_stop_serves_it(
    w: &NetWorld,
    d: Map<u32, BusDwell>,
    v: &NetVehicle,
    served: Quantity,
    dists: Seq<Quantity>,
    k: int,
)
    requires
        w.wf(),
        v.placed(&w.network),
        !v.driver.vehicle_length.is_below(place(BUS_LENGTH)),
        v.crossing is None,
        !(d.contains_key(v.id) && w.tick < d[v.id].until),
        v.speed.is_at_most(place(MOVING_SPEED)),
        ({
            let link = w.network.lanes@[v.lane.0 as int].link;
            let stops = w.topology.stops_by_link@[link.0 as int]@;
            &&& 0 <= k < stops.len()
            &&& dists[k].is_below(place(STOP_REACH))
            &&& !(d.contains_key(v.id) && d[v.id].link == link
                && w.network.bus_stops@[stops[k] as int].arc.is_at_most(served))
        }),
    ensures
        w.arrives_at(d, v, served, dists) is Some,
{
    let link = w.network.lanes@[v.lane.0 as int].link;
    let stops = w.topology.stops_by_link@[link.0 as int]@;
    let p = w.is_reached_stop(d, v, served, dists);
    lemma_first_index(0, stops.len() as int, p);
    assert(p(k));
}

/// A bus that starts its service stands for the given ticks, at the stop it reached;
/// the service of everybody else is as it was.
pub proof fn a_service_lasts_its_ticks(
    w: &NetWorld,
    served: Seq<Quantity>,
    dists: Seq<Vec<Quantity>>,
    ticks: u64,
    n: int,
)
    requires
        n > 0,
        w.tick + ticks <= u64::MAX,
    ensures
        ({
            let before = w.services_upto(served, dists, ticks, n - 1);
            let now = w.services_upto(served, dists, ticks, n);
            let v = w.rows()[n - 1];
            &&& forall|id: u32| #![trigger now.contains_key(id)]
                id != v.id ==> (now.contains_key(id) <==> before.contains_key(id)) && (
                now.contains_key(id) ==> now[id] == before[id])
            &&& match w.arrives_at(before, &v, served[n - 1], dists[n - 1]@) {
                Some(s) => now.contains_key(v.id) && now[v.id].until == w.tick + ticks
                    && now[v.id].link == w.network.bus_stops@[s as int].link && now[v.id].arc
                    == w.network.bus_stops@[s as int].arc,
                None => now == before,
            }
        }),
        w.services_upto(served, dists, ticks, 0) == w.bus_dwell@,
{
}

/// Of a service state only what belongs to vehicles on the network is kept.
pub proof fn only_the_living_keep_their_service(w: &NetWorld, d: Map<u32, BusDwell>, id: u32)
    ensures
        w.living(d).contains_key(id) <==> d.contains_key(id) && exists|i: int|
            0 <= i < w.rows().len() && (#[trigger] w.rows()[i]).id == id,
        w.living(d).contains_key(id) ==> w.living(d)[id] == d[id],
{
}

/// A detector calls exactly when some vehicle on the lane is within its reach.
pub proof fn a_detector_sees_its_lane(w: &NetWorld, lane: LaneId, to_end: Seq<Quantity>, reach: Quantity)
    ensures
        (exists|i: int|
            0 <= i < w.rows().len() && (#[trigger] w.rows()[i]).lane == lane && to_end[i].is_below(
                reach,
            )) <==> w.calls(lane, to_end, reach),
{
}

/// A program's phase is forced exactly while a train closes a crossing that one of its
/// preemptions names; and the phase forced is that of such a preemption.
pub proof fn a_train_forces_the_phase_that_clears_its_crossing(w: &NetWorld, program: u32)
    ensures
        match w.forced_phase(program) {
            Some(phase) => exists|k: int|
                0 <= k < w.topology.rail_preempts@.len() && {
                    let p = #[trigger] w.topology.rail_preempts@[k];
                    p.program == program && p.phase == phase && is_closed(w, p)
                },
            None => forall|k: int|
                0 <= k < w.topology.rail_preempts@.len() && (
                #[trigger] w.topology.rail_preempts@[k]).program == program ==> !is_closed(
                    w,
                    w.topology.rail_preempts@[k],
                ),
        },
{
    let n = w.topology.rail_preempts@.len() as int;
    let p = w.preempts(program);
    the_last_index_is_the_last(n, p);
    if last_index(n, p) is Some {
        let k = last_index(n, p)->0;
        assert(p(k));
        assert(is_closed(w, w.topology.rail_preempts@[k]));
    } else {
        assert forall|k: int|
            0 <= k < n && (#[trigger] w.topology.rail_preempts@[k]).program == program implies !is_closed(
            w,
            w.topology.rail_preempts@[k],
        ) by {
            assert(!p(k));
        }
    }
}

/// Of several phases that passing trains call for, the program's last is forced.
pub proof fn of_several_forced_phases_the_last_wins(w: &NetWorld, program: u32, k: int)
    requires
        w.wf(),
        0 <= k < w.topology.rail_preempts@.len(),
        w.topology.rail_preempts@[k].program == program,
        is_closed(w, w.topology.rail_preempts@[k]),
    ensures
        w.forced_phase(program) matches Some(phase) && w.topology.rail_preempts@[k].phase <= phase,
{
    let list = w.topology.rail_preempts@;
    let n = list.len() as int;
    let p = w.preempts(program);
    the_last_index_is_the_last(n, p);
    assert(p(k));
    let z = last_index(n, p)->0;
    assert(p(z));
    if k < z {
        assert(preempt_before(list[k], list[z]));
    }
}

/// Every link that starts at a railway crossing and is short has its preemptions: one
/// for each movement off its first lane whose light some phase shows green.
pub proof fn every_short_link_off_a_crossing_is_cleared(w: &NetWorld, l: int, k: int, group: u32, phase: int)
    requires
        w.wf(),
        0 <= l < w.network.links@.len(),
        ({
            let net = &w.network;
            let link = net.links@[l];
            let lane = net.lanes@[link.lane_start.0 as int];
            let g = net.groups@[group as int];
            let phases = net.programs@[g.program as int].phases@;
            &&& 0 <= k < lane.movement_count
            &&& net.nodes@[link.from.0 as int].rail_crossing
            &&& !place(RAIL_ADJACENT).is_below(lane.length)
            &&& net.movements@[lane.movement_start.0 + k].signal_group == Some(group)
            &&& 0 <= phase < phases.len()
            &&& shows_green(phases, g.bit, phase)
            &&& forall|x: int| 0 <= x < phase ==> !#[trigger] shows_green(phases, g.bit, x)
        }),
    ensures
        w.topology.rail_preempts@.contains(
            RailPreempt {
                program: w.network.groups@[group as int].program,
                phase: phase as usize,
                crossing: w.network.links@[l].from,
            },
        ),
{
    let net = &w.network;
    assert(net.link_ok(l));
    let link = net.links@[l];
    assert(net.lane_ok(link.lane_start.0 as int));
    let lane = net.lanes@[link.lane_start.0 as int];
    assert(net.nth_movement(link.lane_start, k) == MovementId((lane.movement_start.0 + k) as u32));
    let g = net.groups@[group as int];
    let phases = net.programs@[g.program as int].phases@;
    let q = greens(phases, g.bit);
    lemma_first_index(0, phases.len() as int, q);
    assert(q(phase));
    assert forall|x: int| 0 <= x < phase implies !#[trigger] q(x) by {
        assert(!shows_green(phases, g.bit, x));
    }
    let p = RailPreempt { program: g.program, phase: phase as usize, crossing: link.from };
    assert(clearing(net, l, k) == Some(p));
    assert(is_preempt(net, p));
}

/// The phase has the group's bit.
pub open spec fn shows_green(phases: Seq<u64>, bit: u32, k: int) -> bool {
    phases[k] & (1u64 << (bit as u64)) != 0
}

/// A train closes the crossing of the preemption.
pub open spec fn is_closed(w: &NetWorld, p: RailPreempt) -> bool {
    w.network.nodes@[p.crossing.0 as int].rail_crossing && w.rail_since.is_below(
        place(RAIL_CLOSURE_SECS),
    )
}

/// A preemption is of a link that starts at a railway crossing and is short, by a
/// movement off its first lane that has a light: the program of that light, and the
/// first of its phases that shows the light green.
pub proof fn a_preemption_clears_a_short_link_off_a_crossing(net: &Network, p: RailPreempt)
    requires
        net.wf(),
        is_preempt(net, p),
    ensures
        exists|l: int, k: int|
            #![trigger clearing(net, l, k)]
            0 <= l < net.links@.len() && {
                let link = net.links@[l];
                let lane = net.lanes@[link.lane_start.0 as int];
                let group = net.movements@[lane.movement_start.0 + k].signal_group;
                &&& 0 <= k < lane.movement_count
                &&& p.crossing == link.from
                &&& net.nodes@[link.from.0 as int].rail_crossing
                &&& !place(RAIL_ADJACENT).is_below(lane.length)
                &&& group is Some
                &&& p.program == net.groups@[group->0 as int].program
                &&& p.phase < net.programs@[p.program as int].phases@.len()
                &&& shows_green(
                    net.programs@[p.program as int].phases@,
                    net.groups@[group->0 as int].bit,
                    p.phase as int,
                )
                &&& forall|x: int|
                    0 <= x < p.phase ==> !#[trigger] shows_green(
                        net.programs@[p.program as int].phases@,
                        net.groups@[group->0 as int].bit,
                        x,
                    )
            },
{
    let (l, k) = choose|l: int, k: int|
        0 <= l < net.links@.len() && 0 <= k < net.lane_at(net.links@[l].lane_start).movement_count
            && #[trigger] clearing(net, l, k) == Some(p);
    assert(net.link_ok(l));
    let link = net.links@[l];
    assert(net.lane_ok(link.lane_start.0 as int));
    let lane = net.lanes@[link.lane_start.0 as int];
    assert(net.nth_movement(link.lane_start, k) == MovementId((lane.movement_start.0 + k) as u32));
    let group = net.movements@[lane.movement_start.0 + k].signal_group;
    let g = net.groups@[group->0 as int];
    let phases = net.programs@[g.program as int].phases@;
    lemma_first_index(0, phases.len() as int, greens(phases, g.bit));
    assert forall|x: int| 0 <= x < p.phase implies !#[trigger] shows_green(phases, g.bit, x) by {
        assert(!greens(phases, g.bit)(x));
    }
    assert(phases.len() == net.programs@[g.program as int].phases.len());
}

/// The tally of a link counts everybody on a lane of it.
pub proof fn the_tally_counts_each_link(w: &NetWorld, link: LinkId)
    requires
        w.network.has_link(link),
        w.rows().len() <= u32::MAX,
    ensures
        w.link_tally()[link.0 as int] == count_where(
            w.rows().len() as int,
            |i: int| w.network.lanes@[w.rows()[i].lane.0 as int].link == link,
        ),
{
    let n = w.rows().len() as int;
    let p = |i: int| w.network.lanes@[w.rows()[i].lane.0 as int].link == link;
    assert(LinkId(link.0 as int as u32) == link);
    lemma_count_agree(n, w.on_link(link), p);
    lemma_count_bounds(n, p);
}

} // verus!
