//! What a step does besides moving the vehicles, and in which order.

use vstd::prelude::*;

use crate::fleet::{Fate, NetVehicle};
use crate::infrastructure::{BUS_SWEEP, METER_PERIOD_SECS};
use crate::intent::Sleep;
use crate::neighbors::Neighbors;
use crate::network::MovementId;
use crate::quantity::{Quantity, ZERO, place};
use crate::search::{count_where, lemma_count_agree};
use crate::sideways::lemma_pass_keeps;
use crate::stride::{StepView, Stride};
use crate::tick::{Tick, TickView};
use crate::world::NetWorld;

verus! {

/// What a step leaves alone: the network, its tables and switches.
pub proof fn a_step_keeps_the_network(before: &NetWorld, after: &NetWorld, view: &StepView, r: Stride)
    requires
        before.step_goes(after, view, r),
    ensures
        after.network == before.network,
        after.topology == before.topology,
        after.cfg == before.cfg,
        after.metering_on == before.metering_on,
        after.day_secs == before.day_secs,
        after.rail_since == before.rail_since,
        after.pm_plan == before.pm_plan,
        after.offsets == before.offsets,
        after.link_straight == before.link_straight,
        after.turn_caps == before.turn_caps,
        after.external_reroute == before.external_reroute,
        after.parallel_routing == before.parallel_routing,
        after.cache_sort == before.cache_sort,
        after.accel_backend == before.accel_backend,
        after.gpu_accel == before.gpu_accel,
        after.threads_ready == before.threads_ready,
        after.par_threshold == before.par_threshold,
        after.congestion_cfg == before.congestion_cfg,
        after.sharding == before.sharding,
{
    reveal(NetWorld::front_goes);
    reveal(NetWorld::back_goes);
    lemma_pass_keeps(&r.front.begun, &r.changed, view.lanes@, view.hov_ok@, r.front.pass);
}

/// After a step the signals show what their controllers gave, the links run the queue
/// model as measured where it is switched on and as before where it is not, and the
/// clock is one tick on.
pub proof fn a_step_shows_what_the_controllers_gave(before: &NetWorld, after: &NetWorld, view: &StepView, r: Stride)
    requires
        before.step_goes(after, view, r),
    ensures
        after.signals == view.signals,
        r.changed.signals == view.signals,
        before.congestion_cfg.enabled ==> after.queue_links == view.queue_links,
        !before.congestion_cfg.enabled ==> after.queue_links == before.queue_links,
        after.tick == before.tick + 1,
        after.time == r.back.view.time,
{
    reveal(NetWorld::front_goes);
    reveal(NetWorld::back_goes);
    lemma_pass_keeps(&r.front.begun, &r.changed, view.lanes@, view.hov_ok@, r.front.pass);
}

/// A step moves the meters' clocks on where metering is on, and only there: a meter
/// whose period is over takes its new rate, and one whose period is not keeps it.
pub proof fn a_step_runs_the_meters(before: &NetWorld, after: &NetWorld, view: &StepView, r: Stride, k: int)
    requires
        before.step_goes(after, view, r),
        0 <= k < before.meters@.len(),
    ensures
        after.meters@.len() == before.meters@.len(),
        after.meters@[k].ramp == before.meters@[k].ramp,
        after.meters@[k].mainline == before.meters@[k].mainline,
        !before.metering_on ==> after.meters@[k] == before.meters@[k],
        before.metering_on && place(METER_PERIOD_SECS).is_at_most(view.meters@[k].since)
            ==> after.meters@[k].rate_vph == view.meters@[k].rate && after.meters@[k].since_update
            == place(ZERO),
        before.metering_on && !place(METER_PERIOD_SECS).is_at_most(view.meters@[k].since)
            ==> after.meters@[k].rate_vph == before.meters@[k].rate_vph
            && after.meters@[k].since_update == view.meters@[k].since,
{
    reveal(NetWorld::front_goes);
    reveal(NetWorld::back_goes);
    lemma_pass_keeps(&r.front.begun, &r.changed, view.lanes@, view.hov_ok@, r.front.pass);
    assert(r.front.routed.meters == before.meters);
    assert(after.meters == r.front.begun.meters);
    assert(r.front.begun.meters@[k] == after.meters@[k]);
}

/// Without bus stops no service begins or ends. With them, the service of a vehicle
/// that is on the network is kept or begun anew, and between two sweeps nothing is
/// forgotten.
pub proof fn a_step_looks_at_the_buses(before: &NetWorld, after: &NetWorld, view: &StepView, r: Stride)
    requires
        before.step_goes(after, view, r),
    ensures
        before.network.bus_stops@.len() == 0 ==> after.bus_dwell@ == before.bus_dwell@,
        before.network.bus_stops@.len() > 0 && before.tick % BUS_SWEEP != 0 ==> after.bus_dwell@
            == r.front.routed.services_upto(
            view.served@,
            view.stop_dists@,
            view.dwell_ticks,
            before.rows().len() as int,
        ),
        before.network.bus_stops@.len() > 0 && before.tick % BUS_SWEEP == 0 ==> forall|id: u32|
            #[trigger] after.bus_dwell@.contains_key(id) ==> exists|i: int|
                0 <= i < before.rows().len() && (#[trigger] before.rows()[i]).id == id,
{
    reveal(NetWorld::front_goes);
    reveal(NetWorld::back_goes);
    lemma_pass_keeps(&r.front.begun, &r.changed, view.lanes@, view.hov_ok@, r.front.pass);
    assert(after.bus_dwell == r.front.begun.bus_dwell);
    assert(r.front.routed.fleet == before.fleet);
    let w = r.front.routed;
    assert forall|id: u32| w.has_vehicle(id) implies exists|i: int|
        0 <= i < before.rows().len() && (#[trigger] before.rows()[i]).id == id by {
        let i = choose|i: int| 0 <= i < w.rows().len() && (#[trigger] w.rows()[i]).id == id;
        assert(before.rows()[i].id == id);
    }
}

/// A vehicle is shut out of its node exactly when it is awake to a movement, outside
/// every node, and the way is shut to it by what was measured there.
pub proof fn whoever_is_shut_out_stands_at_a_box(before: &NetWorld, after: &NetWorld, view: &StepView, r: Stride, i: int)
    requires
        before.step_goes(after, view, r),
        0 <= i < r.changed.rows().len(),
    ensures
        ({
            let d = r.look.decisions;
            &&& d.decided[i] == r.changed.decision(i, &r.look.nb, d.sights[i])
            &&& d.blocked[i] <==> d.decided[i].0 is Some && r.changed.rows()[i].crossing is None
                && r.changed.gate_shut(i, d.decided[i].0->0, &d.gates[i])
            &&& d.decided[i].1 != Sleep::Awake ==> !d.blocked[i]
        }),
{
    reveal(NetWorld::looks);
    let d = r.look.decisions;
    assert(d.decided[i] == r.changed.decision(i, &r.look.nb, d.sights[i]));
    assert(d.blocked[i] == (r.changed.stands_at_box(i, d.decided[i].0) && r.changed.entry_shut(
        i,
        d.decided[i].0,
        &d.gates[i],
    )));
}

/// What is seen in a step is seen after the lane changes, and by it all decide; who
/// sleeps is counted.
pub proof fn a_step_counts_its_sleepers(before: &NetWorld, after: &NetWorld, view: &StepView, r: Stride)
    requires
        before.step_goes(after, view, r),
    ensures
        r.look.nb.sees(&r.changed, r.look.cpos@),
        after.asleep_last == count_where(
            r.changed.rows().len() as int,
            |i: int| r.look.decisions.decided[i].1 != Sleep::Awake,
        ),
        forall|i: int|
            0 <= i < r.changed.rows().len() ==> ((#[trigger] r.back.noted.rows()[i]).slept
                <==> r.look.decisions.decided[i].1 != Sleep::Awake),
{
    reveal(NetWorld::looks);
    reveal(NetWorld::back_goes);
    let decided = r.look.decisions.decided;
    lemma_count_agree(
        decided.len() as int,
        NetWorld::is_asleep(decided),
        |i: int| r.look.decisions.decided[i].1 != Sleep::Awake,
    );
}

/// Routes are left alone without a router, where somebody else works them out, and
/// their recompute begins only once the last one has come to its end, the congestion
/// has another fingerprint, and the interval is over.
pub proof fn routes_are_recomputed_when_congestion_moves(
    before: &NetWorld,
    after: &NetWorld,
    bands: Seq<u64>,
    interval: u64,
    costs: Seq<u64>,
    width: int,
)
    requires
        after.refreshed(before, bands, interval, costs, width),
    ensures
        before.router is None || before.external_reroute ==> *after == *before,
        before.router is Some && !before.external_reroute && (before.router->0.cycle() is Some
            || before.fingerprint(bands) == before.route_fingerprint || (interval != 0 && before.tick
            < before.route_cycle_tick + interval)) ==> after.route_fingerprint
            == before.route_fingerprint && after.route_cycle_tick == before.route_cycle_tick
            && after.router is Some && after.router->0.slots() == before.router->0.slots(),
        before.router is Some && !before.external_reroute && before.router->0.cycle() is None
            && before.fingerprint(bands) != before.route_fingerprint && (interval == 0 || before.tick
            >= before.route_cycle_tick + interval) ==> after.route_fingerprint == before.fingerprint(
            bands,
        ) && after.route_cycle_tick == before.tick && after.router is Some
            && after.router->0.slots() == before.router->0.slots(),
        after.fleet == before.fleet,
        after.tick == before.tick,
        after.network == before.network,
{
    let fp = before.fingerprint(bands);
    assert(0 <= fp < 0x1_0000_0000_0000_0000);
}

/// In its tick a wreck stays where it is and stands; whoever is short of the end of
/// its lane moves within it and stays on the road.
pub proof fn who_has_no_turn_stays_on_its_lane(
    w: &NetWorld,
    nb: &Neighbors,
    carried: Seq<Option<MovementId>>,
    blocked: Seq<bool>,
    view: &TickView,
    t: Tick,
    i: int,
)
    requires
        w.tick_begins(carried, blocked, view, t),
        w.tick_goes(nb, t),
        0 <= i < w.rows().len(),
    ensures
        w.rows()[i].wreck is Some ==> t.fates@[i] == Fate::Alive && t.taken.rows@[i] == (NetVehicle {
            speed: place(ZERO),
            ..w.rows()[i]
        }),
        w.rows()[i].wreck is None && w.rows()[i].crossing is None
            && !w.network.lanes@[w.rows()[i].lane.0 as int].length.is_at_most(
            view.motion@[i].position,
        ) ==> {
            &&& t.fates@[i] == Fate::Alive
            &&& t.taken.rows@[i].lane == w.rows()[i].lane
            &&& t.taken.rows@[i].position == view.motion@[i].position
            &&& t.taken.rows@[i].speed == view.motion@[i].speed
            &&& t.taken.rows@[i].crossing is None
            &&& t.taken.rows@[i].id == w.rows()[i].id
        },
{
    assert(t.moved[i] == t.road.advanced(&w.rows()[i], carried[i], view.motion@[i]));
    assert(t.who.deferred@[i] == t.road.is_deferred(&w.rows()[i], view.motion@[i]));
    assert(t.turns.views[i] == t.turns.views[i]);
    assert(t.road.turn_taken(
        &t.moved[i],
        &t.taken.rows@[i],
        t.who.deferred@[i],
        t.who.blocked@[i],
        t.who.carried@[i],
        t.turns.views[i],
        &t.turns.occ[i],
        &t.turns.occ[i + 1],
        &t.turns.entered[i],
        &t.turns.entered[i + 1],
        t.fates@[i],
    ));
}

/// In its tick whoever is inside a node, and no wreck, moves there as measured; who is
/// at the end of its lane is resolved with what it decided and whether it was shut
/// out, as the turns before it have left the road.
pub proof fn who_has_a_turn_takes_it(
    w: &NetWorld,
    nb: &Neighbors,
    carried: Seq<Option<MovementId>>,
    blocked: Seq<bool>,
    view: &TickView,
    t: Tick,
    i: int,
)
    requires
        w.tick_begins(carried, blocked, view, t),
        w.tick_goes(nb, t),
        0 <= i < w.rows().len(),
        w.rows()[i].wreck is None,
    ensures
        w.rows()[i].crossing is Some ==> t.road.crosses_as(
            &w.rows()[i],
            &t.taken.rows@[i],
            t.turns.views[i].speed,
            t.turns.views[i].position,
            &t.turns.occ[i],
            &t.turns.occ[i + 1],
            t.turns.views[i].boundary.landing,
            t.fates@[i],
        ),
        w.rows()[i].crossing is None && w.network.lanes@[w.rows()[i].lane.0 as int].length.is_at_most(
            view.motion@[i].position,
        ) ==> t.road.resolves_as(
            &t.moved[i],
            &t.taken.rows@[i],
            blocked[i],
            carried[i],
            &t.turns.occ[i],
            &t.turns.occ[i + 1],
            &t.turns.entered[i],
            &t.turns.entered[i + 1],
            t.turns.views[i].boundary,
            t.fates@[i],
        ),
{
    assert(t.moved[i] == t.road.advanced(&w.rows()[i], carried[i], view.motion@[i]));
    assert(t.who.deferred@[i] == t.road.is_deferred(&w.rows()[i], view.motion@[i]));
    assert(t.road.turn_taken(
        &t.moved[i],
        &t.taken.rows@[i],
        t.who.deferred@[i],
        t.who.blocked@[i],
        t.who.carried@[i],
        t.turns.views[i],
        &t.turns.occ[i],
        &t.turns.occ[i + 1],
        &t.turns.entered[i],
        &t.turns.entered[i + 1],
        t.fates@[i],
    ));
}

/// What is promised on a lane at the start of a tick is the total measured with the
/// last vehicle in flight to it; on a lane that nobody is in flight to nothing is.
pub proof fn promises_are_of_those_in_flight(w: &NetWorld, totals: Seq<Quantity>, n: int, lane: u32)
    requires
        0 <= n <= w.rows().len(),
    ensures
        w.promised_by(totals, n).contains_key(lane) <==> exists|i: int| #[trigger]
            is_in_flight_to(w, i, lane) && 0 <= i < n,
        forall|i: int|
            #[trigger] is_in_flight_to(w, i, lane) && 0 <= i < n && (forall|x: int|
                i < x < n ==> !#[trigger] is_in_flight_to(w, x, lane)) ==> w.promised_by(
                totals,
                n,
            )[lane] == totals[i],
    decreases n,
{
    if n > 0 {
        promises_are_of_those_in_flight(w, totals, n - 1, lane);
        let before = w.promised_by(totals, n - 1);
        let now = w.promised_by(totals, n);
        if is_in_flight_to(w, n - 1, lane) {
            assert(now == before.insert(lane, totals[n - 1]));
        } else {
            assert(now.contains_key(lane) <==> before.contains_key(lane));
            assert(before.contains_key(lane) ==> now[lane] == before[lane]);
            if exists|i: int| #[trigger] is_in_flight_to(w, i, lane) && 0 <= i < n {
                let i = choose|i: int| #[trigger] is_in_flight_to(w, i, lane) && 0 <= i < n;
                assert(i < n - 1);
            }
        }
        assert forall|i: int|
            #[trigger] is_in_flight_to(w, i, lane) && 0 <= i < n && (forall|x: int|
                i < x < n ==> !#[trigger] is_in_flight_to(w, x, lane)) implies now[lane] == totals[i] by {
            if i < n - 1 {
                assert(!is_in_flight_to(w, n - 1, lane));
                assert(forall|x: int| i < x < n - 1 ==> !#[trigger] is_in_flight_to(w, x, lane));
            }
        }
    }
}

/// Row `i` is inside a node, off the free seams, and lands on the lane.
pub open spec fn is_in_flight_to(w: &NetWorld, i: int, lane: u32) -> bool {
    let m = (w.rows()[i].crossing->0).movement;
    &&& w.rows()[i].crossing is Some
    &&& !w.is_free_seam(m)
    &&& w.network.movements@[m.0 as int].to_lane.0 == lane
}

} // verus!
