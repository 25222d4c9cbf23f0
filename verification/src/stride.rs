//! One step of the world, phase by phase. What the phases have in floating point is
//! measured outside: what stands before the step comes as a view of it, and what
//! arises on the way is asked for when it is needed.

use vstd::prelude::*;
use crate::backend::map_collect;
use crate::context::AccelInput;
use crate::control::PoseUpdate;
use crate::crashes::Pair;
use crate::fleet::{Fate, NetVehicle};
use crate::groups::GroupMap;
use crate::infrastructure::{meter_after, MeterSums, BUS_SWEEP};
use crate::intent::{AccelSource, BoxView, Sight, Sleep};
use crate::lanes::{LaneOptions, LaneScore, LaneView, SlideView};
use crate::neighbors::Neighbors;
use crate::network::{LaneId, MovementId, SignalState};
use crate::occupancy::ShardMaps;
use crate::quantity::Quantity;
use crate::resolution::TurnView;
use crate::search::count_where;
use crate::sideways::{scores_weighed, slides_measured, LanePass};
use crate::step::TickEnd;
use crate::tick::{crash_measured, turns_measured, CrashView, Tick, TickView};
use crate::world::{BusDwell, NetWorld};

verus! {

/// What is measured of the world as it stands before a step.
pub struct StepView {
    /// Per link: the band of its density, and what entering it costs.
    pub bands: Vec<u64>,
    pub costs: Vec<u64>,
    /// How many ticks lie between two recomputes of the routes.
    pub interval: u64,
    /// The colours that the controllers show.
    pub signals: Vec<SignalState>,
    pub meters: Vec<MeterSums>,
    /// Per vehicle: how far along its link the stops of a bus count as served, and
    /// how far it is from each stop of its link.
    pub served: Vec<Quantity>,
    pub stop_dists: Vec<Vec<Quantity>>,
    pub dwell_ticks: u64,
    /// Which links run the queue model, where it is switched on.
    pub queue_links: Vec<bool>,
    /// Per vehicle: what its lane decision needs, and whether it is a carpool.
    pub lanes: Vec<LaneView>,
    pub hov_ok: Vec<bool>,
}

impl NetWorld {
    /// The view fits the world.
    pub open spec fn step_view_fits(&self, view: &StepView) -> bool {
        let (n, links) = (self.rows().len(), self.network.links@.len());
        &&& view.bands@.len() == links
        &&& forall|l: int| 0 <= l < view.bands@.len() ==> #[trigger] view.bands@[l] < u64::MAX
        &&& view.costs@.len() == links
        &&& view.signals@.len() == self.network.groups@.len()
        &&& view.meters@.len() == self.meters@.len()
        &&& view.served@.len() == n
        &&& view.stop_dists@.len() == n
        &&& forall|i: int|
            0 <= i < view.stop_dists@.len() ==> self.stop_dists_fit(
                &self.rows()[i],
                (#[trigger] view.stop_dists@[i])@,
            )
        &&& self.tick + view.dwell_ticks <= u64::MAX
        &&& view.queue_links@.len() == links
        &&& view.lanes@.len() == n
        &&& view.hov_ok@.len() == n
        &&& forall|i: int|
            0 <= i < view.lanes@.len() ==> (#[trigger] view.lanes@[i]).windows@.len()
                >= self.network.link_at(self.network.link_of(self.rows()[i].lane)).lane_count
    }

    /// The service state of the buses after they have been looked at.
    pub open spec fn buses_looked_at(&self, view: &StepView) -> Map<u32, BusDwell> {
        let all = self.services_upto(
            view.served@,
            view.stop_dists@,
            view.dwell_ticks,
            self.rows().len() as int,
        );
        if self.network.bus_stops@.len() == 0 {
            self.bus_dwell@
        } else if self.tick % BUS_SWEEP != 0 {
            all
        } else {
            self.living(all)
        }
    }

    /// What the first phases make of the world, from `self` whose routes have been
    /// refreshed: the signals show their colours, meters and buses keep their time,
    /// and the links that run the queue model are known.
    pub open spec fn infrastructure_advanced(&self, after: &NetWorld, view: &StepView) -> bool {
        &&& *after == (NetWorld {
            signals: view.signals,
            meters: after.meters,
            bus_dwell: after.bus_dwell,
            queue_links: if self.congestion_cfg.enabled {
                view.queue_links
            } else {
                self.queue_links
            },
            ..*self
        })
        &&& after.meters@.len() == self.meters@.len()
        &&& forall|k: int|
            0 <= k < self.meters@.len() ==> #[trigger] after.meters@[k] == (if self.metering_on {
                meter_after(self.meters@[k], view.meters@[k])
            } else {
                self.meters@[k]
            })
        &&& after.bus_dwell@ == self.buses_looked_at(view)
    }

    /// Let the signals show their colours and the meters and buses keep their time,
    /// and note which links run the queue model.
    fn advance_infrastructure(&mut self, view: StepView) -> (lanes: (Vec<LaneView>, Vec<bool>))
        requires
            old(self).wf(),
            old(self).step_view_fits(&view),
        ensures
            final(self).wf(),
            lanes.0 == view.lanes,
            lanes.1 == view.hov_ok,
            old(self).infrastructure_advanced(final(self), &view),
    {
        let ghost start = view;
        self.set_signal_states(view.signals);
        self.advance_meters(&view.meters);
        if self.network.bus_stops.len() > 0 {
            assert forall|i: int| 0 <= i < view.stop_dists@.len() implies self.stop_dists_fit(
                &self.rows()[i],
                (#[trigger] view.stop_dists@[i])@,
            ) by {
                assert(old(self).stop_dists_fit(&old(self).rows()[i], view.stop_dists@[i]@));
            }
            let ghost before = *self;
            self.advance_bus_stops(&view.served, &view.stop_dists, view.dwell_ticks);
            proof {
                lemma_buses(old(self), &before, &start, self.rows().len() as int);
                lemma_living(
                    old(self),
                    &before,
                    before.services_upto(
                        view.served@,
                        view.stop_dists@,
                        view.dwell_ticks,
                        self.rows().len() as int,
                    ),
                );
            }
        }
        if self.congestion_cfg.enabled {
            self.set_queue_links(view.queue_links);
        }
        (view.lanes, view.hov_ok)
    }

    /// The first phases of a step: routes, signals, meters, buses, and which links run
    /// the queue model.
    pub fn begin_step(&mut self, view: StepView) -> (lanes: (Vec<LaneView>, Vec<bool>))
        requires
            old(self).wf(),
            old(self).rows().len() <= u32::MAX,
            old(self).step_view_fits(&view),
        ensures
            final(self).wf(),
            lanes.0 == view.lanes,
            lanes.1 == view.hov_ok,
            exists|routed: NetWorld, width: int|
                width >= 1 && (!old(self).parallel_routing ==> width == 1)
                    && #[trigger] routed.refreshed(
                    old(self),
                    view.bands@,
                    view.interval,
                    view.costs@,
                    width,
                ) && routed.infrastructure_advanced(final(self), &view),
    {
        let ghost start = view;
        self.refresh_routes(&view.bands, view.interval, &view.costs);
        let ghost routed = *self;
        proof {
            let width = choose|width: int|
                width >= 1 && (!old(self).parallel_routing ==> width == 1)
                    && #[trigger] self.refreshed(
                    old(self),
                    view.bands@,
                    view.interval,
                    view.costs@,
                    width,
                );
            lemma_refreshed_keeps(old(self), self, view.bands@, view.interval, view.costs@, width);
            assert(self.step_view_fits(&view)) by {
                assert forall|i: int| 0 <= i < view.stop_dists@.len() implies self.stop_dists_fit(
                    &self.rows()[i],
                    (#[trigger] view.stop_dists@[i])@,
                ) by {
                    assert(old(self).stop_dists_fit(&old(self).rows()[i], view.stop_dists@[i]@));
                }
            }
        }
        self.advance_infrastructure(view)
    }
}

/// Refreshing the routes touches nothing but them.
proof fn lemma_refreshed_keeps(
    before: &NetWorld,
    after: &NetWorld,
    bands: Seq<u64>,
    interval: u64,
    costs: Seq<u64>,
    width: int,
)
    requires
        after.refreshed(before, bands, interval, costs, width),
    ensures
        *after == (NetWorld {
            router: after.router,
            route_fingerprint: after.route_fingerprint,
            route_cycle_tick: after.route_cycle_tick,
            ..*before
        }),
{
}

/// Who is on the network does not depend on signals and meters.
proof fn lemma_living(a: &NetWorld, b: &NetWorld, d: Map<u32, BusDwell>)
    requires
        a.fleet == b.fleet,
    ensures
        a.living(d) == b.living(d),
{
    assert forall|id: u32| #[trigger] a.has_vehicle(id) == b.has_vehicle(id) by {}
    assert(a.living(d) =~= b.living(d));
}

/// What buses find does not depend on signals and meters.
proof fn lemma_buses(a: &NetWorld, b: &NetWorld, view: &StepView, n: int)
    requires
        a.fleet == b.fleet,
        a.network == b.network,
        a.topology == b.topology,
        a.tick == b.tick,
        a.bus_dwell@ == b.bus_dwell@,
    ensures
        a.services_upto(view.served@, view.stop_dists@, view.dwell_ticks, n) == b.services_upto(
            view.served@,
            view.stop_dists@,
            view.dwell_ticks,
            n,
        ),
    decreases n,
{
    if n > 0 {
        lemma_buses(a, b, view, n - 1);
        let d = a.services_upto(view.served@, view.stop_dists@, view.dwell_ticks, n - 1);
        let v = &a.rows()[n - 1];
        assert(a.is_reached_stop(d, v, view.served@[n - 1], view.stop_dists@[n - 1]@)
            =~= b.is_reached_stop(d, v, view.served@[n - 1], view.stop_dists@[n - 1]@));
    }
}

/// The weighing function can be asked of any row.
pub open spec fn weighs_all<
    W: Fn(&NetWorld, usize, Option<usize>, &LaneOptions) -> (LaneScore, LaneScore),
>(weigh: &W) -> bool {
    forall|w: &NetWorld, i: usize, l: Option<usize>, o: &LaneOptions|
        w.wf() && i < w.rows().len() ==> #[trigger] call_requires(*weigh, (w, i, l, o))
}

/// The slide of any row can be measured, and covers every row.
pub open spec fn slides_fit<M: Fn(&NetWorld, usize, LaneId) -> SlideView>(slide: &M) -> bool {
    &&& forall|w: &NetWorld, i: usize, l: LaneId|
        w.wf() && i < w.rows().len() ==> #[trigger] call_requires(*slide, (w, i, l))
    &&& forall|w: &NetWorld, i: usize, l: LaneId, g: SlideView| #[trigger]
        call_ensures(*slide, (w, i, l), g) ==> g.gaps@.len() == w.rows().len()
}

/// Every row's place along its corridor can be measured.
pub open spec fn places_fit<P: Fn(&NetWorld) -> Vec<Quantity>>(places: &P) -> bool {
    &&& forall|w: &NetWorld| w.wf() ==> #[trigger] call_requires(*places, (w,))
    &&& forall|w: &NetWorld, c: Vec<Quantity>| #[trigger]
        call_ensures(*places, (w,), c) ==> c@.len() == w.rows().len()
}

/// What every row sees can be measured.
pub open spec fn sights_fit<S: Fn(&NetWorld, &Neighbors) -> Vec<Sight>>(sight: &S) -> bool {
    &&& forall|w: &NetWorld, nb: &Neighbors|
        w.gated(nb) && w.led(nb) ==> #[trigger] call_requires(*sight, (w, nb))
    &&& forall|w: &NetWorld, nb: &Neighbors, s: Vec<Sight>| #[trigger]
        call_ensures(*sight, (w, nb), s) ==> s@.len() == w.rows().len()
}

/// The box ahead of any row can be measured.
pub open spec fn gates_fit<B: Fn(&NetWorld, &Neighbors, usize, MovementId) -> BoxView>(
    gate: &B,
) -> bool {
    &&& forall|w: &NetWorld, nb: &Neighbors, i: usize, m: MovementId|
        w.gated(nb) && i < w.rows().len() && w.network.has_movement(m)
            ==> #[trigger] call_requires(*gate, (w, nb, i, m))
    &&& forall|w: &NetWorld, nb: &Neighbors, i: usize, m: MovementId, g: BoxView| #[trigger]
        call_ensures(*gate, (w, nb, i, m), g) && w.gated(nb) && i < w.rows().len()
            && w.network.has_movement(m) ==> w.box_view_fits(
            &w.rows()[i as int],
            m,
            w.network.end_of(w.rows()[i as int].lane),
            &g,
        )
}

/// What binds any row can be gathered.
pub open spec fn gathers_all<
    G: Fn(&NetWorld, &Neighbors, &GroupMap<usize>, usize, AccelSource, Option<MovementId>) -> AccelInput,
>(gather: &G) -> bool {
    forall|
        w: &NetWorld,
        nb: &Neighbors,
        on: &GroupMap<usize>,
        i: usize,
        s: AccelSource,
        m: Option<MovementId>,
    |
        w.gated(nb) && w.led(nb) && w.crossing_groups(on) && i < w.rows().len() && (m matches Some(
            x,
        ) ==> w.network.has_movement(x)) ==> #[trigger] call_requires(*gather, (w, nb, on, i, s, m))
}

/// The accelerations of all rows can be worked out.
pub open spec fn evaluates_all<E: Fn(&NetWorld, &Vec<AccelInput>) -> Vec<Quantity>>(
    evaluate: &E,
) -> bool {
    &&& forall|w: &NetWorld, inputs: &Vec<AccelInput>|
        w.wf() && inputs@.len() == w.rows().len() ==> #[trigger] call_requires(
            *evaluate,
            (w, inputs),
        )
    &&& forall|w: &NetWorld, inputs: &Vec<AccelInput>, a: Vec<Quantity>| #[trigger]
        call_ensures(*evaluate, (w, inputs), a) ==> a@.len() == inputs@.len()
}

/// The motion of all rows can be measured.
pub open spec fn motions_fit<T: Fn(&NetWorld, &Vec<Quantity>) -> TickView>(motion: &T) -> bool {
    &&& forall|w: &NetWorld, a: &Vec<Quantity>|
        w.wf() && a@.len() == w.rows().len() ==> #[trigger] call_requires(*motion, (w, a))
    &&& forall|w: &NetWorld, a: &Vec<Quantity>, t: TickView| #[trigger]
        call_ensures(*motion, (w, a), t) ==> t.rears@.len() == w.rows().len() && t.promises@.len()
            == w.rows().len() && t.motion@.len() == w.rows().len()
}

/// The turn of any row can be measured.
pub open spec fn turns_fit<
    U: Fn(&NetWorld, usize, &NetVehicle, Option<MovementId>, Quantity, &ShardMaps) -> TurnView,
>(turn: &U) -> bool {
    &&& forall|
        w: &NetWorld,
        i: usize,
        v: &NetVehicle,
        m: Option<MovementId>,
        a: Quantity,
        o: &ShardMaps,
    |
        w.wf() ==> #[trigger] call_requires(*turn, (w, i, v, m, a, o))
    &&& forall|
        w: &NetWorld,
        i: usize,
        v: &NetVehicle,
        m: Option<MovementId>,
        a: Quantity,
        o: &ShardMaps,
        g: TurnView,
    | #[trigger]
        call_ensures(*turn, (w, i, v, m, a, o), g) ==> (g.boundary.landing.blend_from matches Some(
            l,
        ) ==> w.network.has_lane(l))
}

/// Those that may have collided can be measured.
pub open spec fn crashes_fit<
    C: Fn(&NetWorld, &Neighbors, &Vec<NetVehicle>, &Vec<Fate>, &Vec<Pair>) -> CrashView,
>(collide: &C) -> bool {
    &&& forall|
        w: &NetWorld,
        nb: &Neighbors,
        rows: &Vec<NetVehicle>,
        fates: &Vec<Fate>,
        pairs: &Vec<Pair>,
    |
        w.wf() && nb.leader_of@.len() == rows@.len() ==> #[trigger] call_requires(
            *collide,
            (w, nb, rows, fates, pairs),
        )
    &&& forall|
        w: &NetWorld,
        nb: &Neighbors,
        rows: &Vec<NetVehicle>,
        fates: &Vec<Fate>,
        pairs: &Vec<Pair>,
        c: CrashView,
    | #[trigger]
        call_ensures(*collide, (w, nb, rows, fates, pairs), c) ==> c.gaps@.len() == rows@.len()
            && c.closings@.len() == rows@.len() && c.sites@.len() == rows@.len() && c.impacts@.len()
            == pairs@.len()
}

/// The poses of all rows can be tracked.
pub open spec fn poses_fit<K: Fn(&NetWorld) -> Vec<Option<PoseUpdate>>>(track: &K) -> bool {
    &&& forall|w: &NetWorld| w.wf() ==> #[trigger] call_requires(*track, (w,))
    &&& forall|w: &NetWorld, u: Vec<Option<PoseUpdate>>| #[trigger]
        call_ensures(*track, (w,), u) ==> u@.len() == w.rows().len()
}

/// What everyone decides in a step: what was seen and decided, the boxes as they were
/// measured, who is shut out, and what binds everyone.
pub struct Decisions {
    pub sights: Seq<Sight>,
    pub decided: Seq<(Option<MovementId>, Sleep)>,
    pub gates: Seq<BoxView>,
    pub blocked: Seq<bool>,
    pub inputs: Seq<AccelInput>,
}

impl NetWorld {
    /// The row is at the line of a box that it may find shut.
    pub open spec fn stands_at_box(&self, i: int, m: Option<MovementId>) -> bool {
        m is Some && self.rows()[i].crossing is None
    }

    /// Everyone has decided by what they saw, and the gates are shut by what was
    /// measured of them.
    pub open spec fn all_decided(&self, nb: &Neighbors, d: Decisions) -> bool {
        let n = self.rows().len();
        &&& d.sights.len() == n
        &&& d.decided.len() == n
        &&& d.gates.len() == n
        &&& d.blocked.len() == n
        &&& d.inputs.len() == n
        &&& forall|i: int|
            0 <= i < n ==> #[trigger] d.decided[i] == self.decision(i, nb, d.sights[i])
        &&& forall|i: int|
            0 <= i < n ==> #[trigger] d.blocked[i] == (self.stands_at_box(i, d.decided[i].0)
                && self.entry_shut(i, d.decided[i].0, &d.gates[i]))
    }
}

/// What was measured of the box ahead.
pub open spec fn gate_is<B: Fn(&NetWorld, &Neighbors, usize, MovementId) -> BoxView>(
    gate: &B,
    w: &NetWorld,
    nb: &Neighbors,
    i: usize,
    m: MovementId,
    g: BoxView,
) -> bool {
    call_ensures(*gate, (w, nb, i, m), g)
}

/// The row is shut out by some measure of its box.
spec fn shut_by<B: Fn(&NetWorld, &Neighbors, usize, MovementId) -> BoxView>(
    gate: &B,
    w: &NetWorld,
    nb: &Neighbors,
    i: usize,
    m: MovementId,
    shut: bool,
) -> bool {
    exists|g: BoxView| #[trigger]
        gate_is(gate, w, nb, i, m, g) && shut == w.entry_shut(i as int, Some(m), &g)
}

/// What binds the row was gathered so.
pub open spec fn input_is<
    G: Fn(&NetWorld, &Neighbors, &GroupMap<usize>, usize, AccelSource, Option<MovementId>) -> AccelInput,
>(
    gather: &G,
    w: &NetWorld,
    nb: &Neighbors,
    on: &GroupMap<usize>,
    i: usize,
    s: AccelSource,
    m: Option<MovementId>,
    a: AccelInput,
) -> bool {
    call_ensures(*gather, (w, nb, on, i, s, m), a)
}

/// What was decided is by what the measuring functions gave.
pub open spec fn decisions_measured<
    S: Fn(&NetWorld, &Neighbors) -> Vec<Sight>,
    B: Fn(&NetWorld, &Neighbors, usize, MovementId) -> BoxView,
    G: Fn(&NetWorld, &Neighbors, &GroupMap<usize>, usize, AccelSource, Option<MovementId>) -> AccelInput,
>(sight: &S, gate: &B, gather: &G, w: &NetWorld, nb: &Neighbors, d: Decisions) -> bool {
    &&& exists|s: Vec<Sight>| #[trigger] call_ensures(*sight, (w, nb), s) && s@ == d.sights
    &&& forall|i: int|
        0 <= i < w.rows().len() && w.stands_at_box(i, d.decided[i].0) ==> gate_is(
            gate,
            w,
            nb,
            i as usize,
            d.decided[i].0->0,
            #[trigger] d.gates[i],
        )
    &&& exists|on: GroupMap<usize>| #[trigger]
        w.crossing_groups(&on) && forall|i: int|
            0 <= i < w.rows().len() ==> input_is(
                gather,
                w,
                nb,
                &on,
                i as usize,
                w.source_of(i, nb, d.decided[i].1),
                d.decided[i].0,
                #[trigger] d.inputs[i],
            )
}

impl NetWorld {
    /// Who finds the box ahead shut, on the active backend.
    fn gate_all<B: Fn(&NetWorld, &Neighbors, usize, MovementId) -> BoxView + Sync + Send>(
        &self,
        nb: &Neighbors,
        decided: &Vec<(Option<MovementId>, Sleep)>,
        gate: &B,
    ) -> (r: Vec<bool>)
        requires
            self.gated(nb),
            decided@.len() == self.rows().len(),
            forall|i: int|
                0 <= i < decided@.len() ==> ((#[trigger] decided@[i]).0 matches Some(m)
                    ==> self.network.has_movement(m)),
            gates_fit(gate),
        ensures
            r@.len() == self.rows().len(),
            forall|i: int|
                0 <= i < r@.len() && self.stands_at_box(i, decided@[i].0) ==> shut_by(
                    gate,
                    self,
                    nb,
                    i as usize,
                    decided@[i].0->0,
                    #[trigger] r@[i],
                ),
            forall|i: int|
                0 <= i < r@.len() && !self.stands_at_box(i, decided@[i].0) ==> !#[trigger] r@[i],
    {
        let one = |i: usize| -> (shut: bool)
            requires
                self.gated(nb),
                gates_fit(gate),
                i < self.rows().len(),
                decided@.len() == self.rows().len(),
                decided@[i as int].0 matches Some(m) ==> self.network.has_movement(m),
            ensures
                self.stands_at_box(i as int, decided@[i as int].0) ==> shut_by(
                    gate,
                    self,
                    nb,
                    i,
                    decided@[i as int].0->0,
                    shut,
                ),
                !self.stands_at_box(i as int, decided@[i as int].0) ==> !shut,
            {
                match decided[i].0 {
                    Some(m) => {
                        if self.fleet.rows[i].crossing.is_some() {
                            false
                        } else {
                            let g = (*gate)(self, nb, i, m);
                            let shut = self.box_entry_blocked(i, Some(m), nb, &g);
                            assert(gate_is(gate, self, nb, i, m, g));
                            shut
                        }
                    },
                    None => false,
                }
            };
        let r = map_collect(self.active_backend(), self.par_threshold, self.fleet.rows.len(), one);
        assert forall|i: int| 0 <= i < r@.len() implies call_ensures(
            one,
            (i as usize,),
            #[trigger] r@[i],
        ) by {}
        r
    }

    /// What binds everyone, on the active backend.
    fn gather_all<
        G: Fn(&NetWorld, &Neighbors, &GroupMap<usize>, usize, AccelSource, Option<MovementId>) -> AccelInput
            + Sync + Send,
    >(
        &self,
        nb: &Neighbors,
        decided: &Vec<(Option<MovementId>, Sleep)>,
        gather: &G,
    ) -> (r: Vec<AccelInput>)
        requires
            self.gated(nb),
            self.led(nb),
            decided@.len() == self.rows().len(),
            forall|i: int|
                0 <= i < decided@.len() ==> ((#[trigger] decided@[i]).0 matches Some(m)
                    ==> self.network.has_movement(m)),
            gathers_all(gather),
        ensures
            r@.len() == self.rows().len(),
            exists|on: GroupMap<usize>| #[trigger]
                self.crossing_groups(&on) && forall|i: int|
                    0 <= i < self.rows().len() ==> input_is(
                        gather,
                        self,
                        nb,
                        &on,
                        i as usize,
                        self.source_of(i, nb, decided@[i].1),
                        decided@[i].0,
                        #[trigger] r@[i],
                    ),
    {
        let on = self.crossing_by_movement();
        let on_ref = &on;
        let one = |i: usize| -> (a: AccelInput)
            requires
                self.gated(nb),
                self.led(nb),
                self.crossing_groups(on_ref),
                gathers_all(gather),
                i < self.rows().len(),
                decided@.len() == self.rows().len(),
                decided@[i as int].0 matches Some(m) ==> self.network.has_movement(m),
            ensures
                input_is(
                    gather,
                    self,
                    nb,
                    on_ref,
                    i,
                    self.source_of(i as int, nb, decided@[i as int].1),
                    decided@[i as int].0,
                    a,
                ),
            {
                let (m, sleep) = decided[i];
                let source = self.gather_input(i, nb, sleep);
                (*gather)(self, nb, on_ref, i, source, m)
            };
        let r = map_collect(self.active_backend(), self.par_threshold, self.fleet.rows.len(), one);
        assert forall|i: int| 0 <= i < r@.len() implies input_is(
            gather,
            self,
            nb,
            &on,
            i as usize,
            self.source_of(i, nb, decided@[i].1),
            decided@[i].0,
            #[trigger] r@[i],
        ) by {
            assert(call_ensures(one, (i as usize,), r@[i]));
        }
        r
    }

    /// What everyone decides in a step, who finds the box ahead shut, and what binds
    /// everyone.
    pub fn decide_step<
        S: Fn(&NetWorld, &Neighbors) -> Vec<Sight>,
        B: Fn(&NetWorld, &Neighbors, usize, MovementId) -> BoxView + Sync + Send,
        G: Fn(&NetWorld, &Neighbors, &GroupMap<usize>, usize, AccelSource, Option<MovementId>) -> AccelInput
            + Sync + Send,
    >(&self, nb: &Neighbors, sight: &S, gate: &B, gather: &G) -> (r: (
        Vec<(Option<MovementId>, Sleep)>,
        Vec<bool>,
        Vec<AccelInput>,
    ))
        requires
            self.gated(nb),
            self.led(nb),
            sights_fit(sight),
            gates_fit(gate),
            gathers_all(gather),
        ensures
            r.0@.len() == self.rows().len(),
            r.1@.len() == self.rows().len(),
            r.2@.len() == self.rows().len(),
            forall|i: int|
                0 <= i < r.0@.len() ==> ((#[trigger] r.0@[i]).0 matches Some(m)
                    ==> self.network.has_movement(m)),
            exists|d: Decisions| #[trigger]
                self.all_decided(nb, d) && d.decided == r.0@ && d.blocked == r.1@ && d.inputs
                    == r.2@ && decisions_measured(sight, gate, gather, self, nb, d),
    {
        let sights = (*sight)(self, nb);
        let decided = self.decide_all(nb, &sights);
        let blocked = self.gate_all(nb, &decided, gate);
        let inputs = self.gather_all(nb, &decided, gather);
        proof {
            let n = self.rows().len();
            let gates = Seq::new(
                n,
                |i: int|
                    choose|g: BoxView| #[trigger]
                        gate_is(gate, self, nb, i as usize, decided@[i].0->0, g) && blocked@[i]
                            == self.entry_shut(i, Some(decided@[i].0->0), &g),
            );
            let d = Decisions {
                sights: sights@,
                decided: decided@,
                gates,
                blocked: blocked@,
                inputs: inputs@,
            };
            assert forall|i: int| 0 <= i < n && self.stands_at_box(i, decided@[i].0) implies gate_is(
                gate,
                self,
                nb,
                i as usize,
                decided@[i].0->0,
                #[trigger] d.gates[i],
            ) && blocked@[i] == self.entry_shut(i, decided@[i].0, &d.gates[i]) by {
                assert(shut_by(gate, self, nb, i as usize, decided@[i].0->0, blocked@[i]));
            }
            assert(self.all_decided(nb, d)) by {
                assert forall|i: int| 0 <= i < n implies #[trigger] d.blocked[i] == (
                self.stands_at_box(i, d.decided[i].0) && self.entry_shut(
                    i,
                    d.decided[i].0,
                    &d.gates[i],
                )) by {
                    assert(d.gates[i] == d.gates[i]);
                    assert(blocked@[i] == blocked@[i]);
                }
            }
            assert(call_ensures(*sight, (self, nb), sights) && sights@ == d.sights);
            assert(decisions_measured(sight, gate, gather, self, nb, d));
        }
        (decided, blocked, inputs)
    }
}

/// What each decided to take into the tick.
pub open spec fn carried_by(decided: Seq<(Option<MovementId>, Sleep)>) -> Seq<Option<MovementId>> {
    decided.map_values(|d: (Option<MovementId>, Sleep)| d.0)
}

spec fn can_turn<
    U: Fn(&NetWorld, usize, &NetVehicle, Option<MovementId>, Quantity, &ShardMaps) -> TurnView,
>(
    turn: &U,
    w: &NetWorld,
    i: usize,
    v: &NetVehicle,
    m: Option<MovementId>,
    a: Quantity,
    o: &ShardMaps,
) -> bool {
    call_requires(*turn, (w, i, v, m, a, o))
}

/// The turn was measured so.
pub open spec fn turn_is<
    U: Fn(&NetWorld, usize, &NetVehicle, Option<MovementId>, Quantity, &ShardMaps) -> TurnView,
>(
    turn: &U,
    w: &NetWorld,
    i: usize,
    v: &NetVehicle,
    m: Option<MovementId>,
    a: Quantity,
    o: &ShardMaps,
    g: TurnView,
) -> bool {
    call_ensures(*turn, (w, i, v, m, a, o), g)
}

spec fn can_collide<
    C: Fn(&NetWorld, &Neighbors, &Vec<NetVehicle>, &Vec<Fate>, &Vec<Pair>) -> CrashView,
>(
    collide: &C,
    w: &NetWorld,
    nb: &Neighbors,
    rows: &Vec<NetVehicle>,
    fates: &Vec<Fate>,
    pairs: &Vec<Pair>,
) -> bool {
    call_requires(*collide, (w, nb, rows, fates, pairs))
}

/// The collisions were measured so.
pub open spec fn collisions_are<
    C: Fn(&NetWorld, &Neighbors, &Vec<NetVehicle>, &Vec<Fate>, &Vec<Pair>) -> CrashView,
>(
    collide: &C,
    w: &NetWorld,
    nb: &Neighbors,
    rows: &Vec<NetVehicle>,
    fates: &Vec<Fate>,
    pairs: &Vec<Pair>,
    c: CrashView,
) -> bool {
    call_ensures(*collide, (w, nb, rows, fates, pairs), c)
}

/// A tick went by what the measuring functions gave.
pub open spec fn tick_measured<
    U: Fn(&NetWorld, usize, &NetVehicle, Option<MovementId>, Quantity, &ShardMaps) -> TurnView,
    C: Fn(&NetWorld, &Neighbors, &Vec<NetVehicle>, &Vec<Fate>, &Vec<Pair>) -> CrashView,
>(
    turn: &U,
    collide: &C,
    nb: &Neighbors,
    decided: Seq<(Option<MovementId>, Sleep)>,
    accels: Seq<Quantity>,
    t: Tick,
) -> bool {
    &&& forall|i: int|
        0 <= i < t.moved.len() ==> turn_is(
            turn,
            &t.road,
            i as usize,
            &t.moved[i],
            decided[i].0,
            accels[i],
            &t.turns.occ[i],
            #[trigger] t.turns.views[i],
        )
    &&& collisions_are(collide, &t.road, nb, &t.taken.rows, &t.fates, &t.pairs, t.crash)
}

impl NetWorld {
    /// The world after a tick that went like this.
    pub open spec fn ticked(
        &self,
        after: &NetWorld,
        nb: &Neighbors,
        carried: Seq<Option<MovementId>>,
        blocked: Seq<bool>,
        view: &TickView,
        t: Tick,
    ) -> bool {
        self.tick_begins(carried, blocked, view, t) && self.tick_goes(nb, t) && self.tick_ends(
            after,
            view,
            t,
        )
    }

    /// Move everyone on, by the accelerations that they have.
    fn move_step<
        U: Fn(&NetWorld, usize, &NetVehicle, Option<MovementId>, Quantity, &ShardMaps) -> TurnView,
        C: Fn(&NetWorld, &Neighbors, &Vec<NetVehicle>, &Vec<Fate>, &Vec<Pair>) -> CrashView,
    >(
        &mut self,
        nb: &Neighbors,
        decided: &Vec<(Option<MovementId>, Sleep)>,
        blocked: Vec<bool>,
        accels: &Vec<Quantity>,
        view: &TickView,
        turn: &U,
        collide: &C,
    )
        requires
            old(self).wf(),
            old(self).led(nb),
            old(self).can_tick(),
            decided@.len() == old(self).rows().len(),
            blocked@.len() == old(self).rows().len(),
            accels@.len() == old(self).rows().len(),
            view.rears@.len() == old(self).rows().len(),
            view.promises@.len() == old(self).rows().len(),
            view.motion@.len() == old(self).rows().len(),
            forall|i: int|
                0 <= i < decided@.len() ==> ((#[trigger] decided@[i]).0 matches Some(m) ==> old(
                    self,
                ).network.has_movement(m)),
            turns_fit(turn),
            crashes_fit(collide),
        ensures
            final(self).wf(),
            exists|t: Tick| #[trigger]
                old(self).ticked(
                    final(self),
                    nb,
                    carried_by(decided@),
                    blocked@,
                    view,
                    t,
                ) && tick_measured(turn, collide, nb, decided@, accels@, t),
    {
        let n = decided.len();
        let mut carried: Vec<Option<MovementId>> = Vec::new();
        let mut i: usize = 0;
        while i < n
            invariant
                n == decided@.len(),
                i <= n,
                carried@.len() == i,
                forall|k: int| 0 <= k < i ==> #[trigger] carried@[k] == decided@[k].0,
            decreases n - i,
        {
            carried.push(decided[i].0);
            i += 1;
        }
        assert(carried@ =~= carried_by(decided@));
        assert forall|k: int| 0 <= k < n implies ((#[trigger] carried@[k]) matches Some(m)
            ==> self.network.has_movement(m)) by {
            assert(carried@[k] == decided@[k].0);
        }
        let measure = |w: &NetWorld, i: usize, v: &NetVehicle, o: &ShardMaps| -> (g: TurnView)
            requires
                i < decided@.len(),
                i < accels@.len(),
                can_turn(turn, w, i, v, decided@[i as int].0, accels@[i as int], o),
            ensures
                turn_is(turn, w, i, v, decided@[i as int].0, accels@[i as int], o, g),
            { (*turn)(w, i, v, decided[i].0, accels[i], o) };
        let meet = |
            w: &NetWorld,
            rows: &Vec<NetVehicle>,
            fates: &Vec<Fate>,
            pairs: &Vec<Pair>,
        | -> (c: CrashView)
            requires
                can_collide(collide, w, nb, rows, fates, pairs),
            ensures
                collisions_are(collide, w, nb, rows, fates, pairs, c),
            { (*collide)(w, nb, rows, fates, pairs) };
        proof {
            assert forall|w: &NetWorld, k: usize, v: &NetVehicle, o: &ShardMaps|
                w.wf() && k < old(self).rows().len() implies #[trigger] call_requires(
                measure,
                (w, k, v, o),
            ) by {
                assert(can_turn(turn, w, k, v, decided@[k as int].0, accels@[k as int], o));
            }
            assert forall|w: &NetWorld, k: usize, v: &NetVehicle, o: &ShardMaps, g: TurnView| #[trigger]
                call_ensures(measure, (w, k, v, o), g) implies (
            g.boundary.landing.blend_from matches Some(l) ==> w.network.has_lane(l)) by {
                assert(turn_is(turn, w, k, v, decided@[k as int].0, accels@[k as int], o, g));
            }
            assert forall|
                w: &NetWorld,
                rows: &Vec<NetVehicle>,
                fates: &Vec<Fate>,
                pairs: &Vec<Pair>,
            |
                w.wf() && rows@.len() == old(self).rows().len() implies #[trigger] call_requires(
                meet,
                (w, rows, fates, pairs),
            ) by {
                assert(can_collide(collide, w, nb, rows, fates, pairs));
            }
            assert forall|
                w: &NetWorld,
                rows: &Vec<NetVehicle>,
                fates: &Vec<Fate>,
                pairs: &Vec<Pair>,
                c: CrashView,
            | #[trigger]
                call_ensures(meet, (w, rows, fates, pairs), c) implies c.gaps@.len() == rows@.len()
                && c.closings@.len() == rows@.len() && c.sites@.len() == rows@.len()
                && c.impacts@.len() == pairs@.len() by {
                assert(collisions_are(collide, w, nb, rows, fates, pairs, c));
            }
        }
        self.move_all(nb, carried, blocked, view, measure, meet);
        proof {
            let t = choose|t: Tick|
                old(self).tick_begins(carried@, blocked@, view, t) && old(self).tick_goes(nb, t)
                    && #[trigger] old(self).tick_ends(self, view, t) && turns_measured(&measure, t)
                    && crash_measured(&meet, t);
            assert forall|k: int| 0 <= k < t.moved.len() implies turn_is(
                turn,
                &t.road,
                k as usize,
                &t.moved[k],
                decided@[k].0,
                accels@[k],
                &t.turns.occ[k],
                #[trigger] t.turns.views[k],
            ) by {
                assert(call_ensures(
                    measure,
                    (&t.road, k as usize, &t.moved[k], &t.turns.occ[k]),
                    t.turns.views[k],
                ));
            }
            assert(old(self).ticked(self, nb, carried@, blocked@, view, t));
            assert(tick_measured(turn, collide, nb, decided@, accels@, t));
        }
    }
}

/// The first half of a step as it went: how many fields are solved at once, the world
/// with its routes refreshed, the world before lanes are changed, and how they were.
pub struct Front {
    pub width: int,
    pub routed: NetWorld,
    pub begun: NetWorld,
    pub pass: LanePass,
}

/// What is seen and decided in a step, with the accelerations that follow.
pub struct Look {
    pub cpos: Vec<Quantity>,
    pub nb: Neighbors,
    pub decisions: Decisions,
    pub inputs: Vec<AccelInput>,
    pub accels: Vec<Quantity>,
}

/// The second half of a step as it went: the world with its sleepers noted, the
/// motion that was measured, the tick, the world after it, and the poses.
pub struct Back {
    pub noted: NetWorld,
    pub view: TickView,
    pub tick: Tick,
    pub moved: NetWorld,
    pub poses: Vec<Option<PoseUpdate>>,
}

/// A step as it went: its first half, the world after that, what was seen and decided
/// then, and its second half.
pub struct Stride {
    pub front: Front,
    pub changed: NetWorld,
    pub look: Look,
    pub back: Back,
}

impl NetWorld {
    /// What noting the sleepers makes of the world.
    pub open spec fn sleepers_noted(
        &self,
        after: &NetWorld,
        decided: Seq<(Option<MovementId>, Sleep)>,
    ) -> bool {
        &&& *after == (NetWorld { fleet: after.fleet, asleep_last: after.asleep_last, ..*self })
        &&& after.asleep_last == count_where(decided.len() as int, Self::is_asleep(decided))
        &&& after.rows().len() == self.rows().len()
        &&& forall|i: int|
            0 <= i < after.rows().len() ==> #[trigger] after.rows()[i] == (NetVehicle {
                slept: decided[i].1 != Sleep::Awake,
                ..self.rows()[i]
            })
        &&& forall|i: int|
            0 <= i < after.rows().len() ==> #[trigger] after.fleet.samples(i)
                == self.fleet.samples(i)
    }

    /// What writing the tracked poses makes of the world.
    pub open spec fn poses_written(&self, after: &NetWorld, updates: Seq<Option<PoseUpdate>>) -> bool {
        &&& *after == (NetWorld { fleet: after.fleet, divergences: after.divergences, ..*self })
        &&& after.divergences == self.divergences + count_where(
            updates.len() as int,
            Self::has_diverged(updates),
        )
        &&& after.rows().len() == self.rows().len()
        &&& updates.len() == self.rows().len()
        &&& forall|i: int|
            0 <= i < after.rows().len() ==> #[trigger] after.rows()[i] == Self::posed(
                self.rows()[i],
                updates[i],
            )
        &&& forall|i: int|
            0 <= i < after.rows().len() ==> #[trigger] after.fleet.samples(i)
                == self.fleet.samples(i)
    }

    /// The world after the first half of a step: the routes are refreshed, signals,
    /// meters and buses keep their time, and lanes are changed.
    #[verifier::opaque]
    pub open spec fn front_goes(&self, after: &NetWorld, view: &StepView, f: Front) -> bool {
        &&& f.width >= 1
        &&& !self.parallel_routing ==> f.width == 1
        &&& f.routed.refreshed(self, view.bands@, view.interval, view.costs@, f.width)
        &&& f.routed.infrastructure_advanced(&f.begun, view)
        &&& f.begun.pass_made(after, view.lanes@, view.hov_ok@, f.pass)
    }

    /// Everyone sees their neighbours, decides, and finds their box open or shut.
    #[verifier::opaque]
    pub open spec fn looks(&self, k: Look) -> bool {
        &&& k.nb.sees(self, k.cpos@)
        &&& self.all_decided(&k.nb, k.decisions)
        &&& k.inputs@ == k.decisions.inputs
        &&& k.accels@.len() == self.rows().len()
    }

    /// The world after the second half of a step: the sleepers are noted, all move on,
    /// and their poses follow.
    #[verifier::opaque]
    pub open spec fn back_goes(
        &self,
        after: &NetWorld,
        nb: &Neighbors,
        decided: Seq<(Option<MovementId>, Sleep)>,
        blocked: Seq<bool>,
        b: Back,
    ) -> bool {
        &&& self.sleepers_noted(&b.noted, decided)
        &&& b.noted.ticked(&b.moved, nb, carried_by(decided), blocked, &b.view, b.tick)
        &&& b.moved.poses_written(after, b.poses@)
    }

    /// The world after a step that went like this.
    pub open spec fn step_goes(&self, after: &NetWorld, view: &StepView, r: Stride) -> bool {
        &&& self.front_goes(&r.changed, view, r.front)
        &&& r.changed.looks(r.look)
        &&& r.changed.back_goes(
            after,
            &r.look.nb,
            r.look.decisions.decided,
            r.look.decisions.blocked,
            r.back,
        )
    }
}

/// The first half went by what the measuring functions gave.
#[verifier::opaque]
pub open spec fn front_measured<
    W: Fn(&NetWorld, usize, Option<usize>, &LaneOptions) -> (LaneScore, LaneScore),
    M: Fn(&NetWorld, usize, LaneId) -> SlideView,
>(weigh: &W, slide: &M, view: &StepView, f: Front) -> bool {
    scores_weighed(weigh, &f.begun, view.lanes@, view.hov_ok@, f.pass) && slides_measured(
        slide,
        f.pass,
    )
}

/// What was seen and decided is by what the measuring functions gave.
#[verifier::opaque]
pub open spec fn look_measured<
    P: Fn(&NetWorld) -> Vec<Quantity>,
    S: Fn(&NetWorld, &Neighbors) -> Vec<Sight>,
    B: Fn(&NetWorld, &Neighbors, usize, MovementId) -> BoxView,
    G: Fn(&NetWorld, &Neighbors, &GroupMap<usize>, usize, AccelSource, Option<MovementId>) -> AccelInput,
    E: Fn(&NetWorld, &Vec<AccelInput>) -> Vec<Quantity>,
>(places: &P, sight: &S, gate: &B, gather: &G, evaluate: &E, w: &NetWorld, k: Look) -> bool {
    &&& call_ensures(*places, (w,), k.cpos)
    &&& decisions_measured(sight, gate, gather, w, &k.nb, k.decisions)
    &&& call_ensures(*evaluate, (w, &k.inputs), k.accels)
}

/// The second half went by what the measuring functions gave.
#[verifier::opaque]
pub open spec fn back_measured<
    T: Fn(&NetWorld, &Vec<Quantity>) -> TickView,
    U: Fn(&NetWorld, usize, &NetVehicle, Option<MovementId>, Quantity, &ShardMaps) -> TurnView,
    C: Fn(&NetWorld, &Neighbors, &Vec<NetVehicle>, &Vec<Fate>, &Vec<Pair>) -> CrashView,
    K: Fn(&NetWorld) -> Vec<Option<PoseUpdate>>,
>(
    motion: &T,
    turn: &U,
    collide: &C,
    track: &K,
    nb: &Neighbors,
    decided: Seq<(Option<MovementId>, Sleep)>,
    accels: &Vec<Quantity>,
    b: Back,
) -> bool {
    &&& call_ensures(*motion, (&b.noted, accels), b.view)
    &&& tick_measured(turn, collide, nb, decided, accels@, b.tick)
    &&& call_ensures(*track, (&b.moved,), b.poses)
}

/// What the first half of a step leaves as it was.
spec fn front_keeps(before: &NetWorld, after: &NetWorld) -> bool {
    &&& after.network == before.network
    &&& after.rows().len() == before.rows().len()
    &&& after.crashed == before.crashed
    &&& after.exited == before.exited
    &&& after.leaked == before.leaked
    &&& after.tick == before.tick
    &&& after.divergences == before.divergences
    &&& after.link_entries == before.link_entries
    &&& forall|i: int|
        0 <= i < after.rows().len() ==> (#[trigger] after.rows()[i]).wait_ticks
            == before.rows()[i].wait_ticks
}

impl NetWorld {
    fn step_front<
        W: Fn(&NetWorld, usize, Option<usize>, &LaneOptions) -> (LaneScore, LaneScore) + Sync
            + Send,
        M: Fn(&NetWorld, usize, LaneId) -> SlideView,
    >(&mut self, view: StepView, weigh: W, slide: M)
        requires
            old(self).wf(),
            old(self).rows().len() <= u32::MAX,
            old(self).step_view_fits(&view),
            weighs_all(&weigh),
            slides_fit(&slide),
        ensures
            final(self).wf(),
            front_keeps(old(self), final(self)),
            exists|f: Front| #[trigger]
                old(self).front_goes(final(self), &view, f) && front_measured(
                    &weigh,
                    &slide,
                    &view,
                    f,
                ),
    {
        let ghost start = view;
        let (lanes, hov_ok) = self.begin_step(view);
        let ghost begun = *self;
        let ghost (routed, width) = choose|routed: NetWorld, width: int|
            width >= 1 && (!old(self).parallel_routing ==> width == 1)
                && #[trigger] routed.refreshed(
                old(self),
                start.bands@,
                start.interval,
                start.costs@,
                width,
            ) && routed.infrastructure_advanced(self, &start);
        proof {
            lemma_refreshed_keeps(
                old(self),
                &routed,
                start.bands@,
                start.interval,
                start.costs@,
                width,
            );
            assert(begun.fleet == old(self).fleet && begun.network == old(self).network);
            assert forall|i: int| 0 <= i < lanes@.len() implies (#[trigger] lanes@[i]).windows@.len()
                >= self.network.link_at(self.network.link_of(self.rows()[i].lane)).lane_count by {
                assert(start.lanes@[i].windows@.len() >= old(self).network.link_at(
                    old(self).network.link_of(old(self).rows()[i].lane),
                ).lane_count);
            }
        }
        self.lane_changes(&lanes, &hov_ok, weigh, slide);
        proof {
            let p = choose|p: LanePass| #[trigger]
                begun.pass_made(self, lanes@, hov_ok@, p) && scores_weighed(
                    &weigh,
                    &begun,
                    lanes@,
                    hov_ok@,
                    p,
                ) && slides_measured(&slide, p);
            let f = Front { width, routed, begun, pass: p };
            reveal(NetWorld::front_goes);
            reveal(front_measured);
            assert(front_measured(&weigh, &slide, &start, f));
            assert(old(self).front_goes(self, &start, f));
            assert forall|i: int| 0 <= i < self.rows().len() implies (
            #[trigger] self.rows()[i]).wait_ticks == old(self).rows()[i].wait_ticks by {
                assert(crate::sideways::sidled_or_stayed(&begun, i, &self.rows()[i]));
            }
        }
    }

    fn step_look<
        P: Fn(&NetWorld) -> Vec<Quantity>,
        S: Fn(&NetWorld, &Neighbors) -> Vec<Sight>,
        B: Fn(&NetWorld, &Neighbors, usize, MovementId) -> BoxView + Sync + Send,
        G: Fn(&NetWorld, &Neighbors, &GroupMap<usize>, usize, AccelSource, Option<MovementId>) -> AccelInput
            + Sync + Send,
        E: Fn(&NetWorld, &Vec<AccelInput>) -> Vec<Quantity>,
    >(&self, places: &P, sight: &S, gate: &B, gather: &G, evaluate: &E) -> (r: (
        Neighbors,
        Vec<(Option<MovementId>, Sleep)>,
        Vec<bool>,
        Vec<Quantity>,
    ))
        requires
            self.wf(),
            places_fit(places),
            sights_fit(sight),
            gates_fit(gate),
            gathers_all(gather),
            evaluates_all(evaluate),
        ensures
            self.led(&r.0),
            r.1@.len() == self.rows().len(),
            r.2@.len() == self.rows().len(),
            r.3@.len() == self.rows().len(),
            forall|i: int|
                0 <= i < r.1@.len() ==> ((#[trigger] r.1@[i]).0 matches Some(m)
                    ==> self.network.has_movement(m)),
            exists|k: Look| #[trigger]
                self.looks(k) && k.nb == r.0 && k.decisions.decided == r.1@ && k.decisions.blocked
                    == r.2@ && k.accels == r.3 && look_measured(
                    places,
                    sight,
                    gate,
                    gather,
                    evaluate,
                    self,
                    k,
                ),
    {
        let cpos = (*places)(self);
        let nb = self.neighbors(&cpos);
        proof {
            crate::intent::neighbors_serve_every_rule(self, &nb, cpos@);
        }
        let (decided, blocked, inputs) = self.decide_step(&nb, sight, gate, gather);
        let accels = (*evaluate)(self, &inputs);
        proof {
            let d = choose|d: Decisions| #[trigger]
                self.all_decided(&nb, d) && d.decided == decided@ && d.blocked == blocked@
                    && d.inputs == inputs@ && decisions_measured(sight, gate, gather, self, &nb, d);
            let k = Look { cpos, nb, decisions: d, inputs, accels };
            reveal(NetWorld::looks);
            reveal(look_measured);
            assert(look_measured(places, sight, gate, gather, evaluate, self, k));
            assert(self.looks(k));
        }
        (nb, decided, blocked, accels)
    }

    fn step_back<
        T: Fn(&NetWorld, &Vec<Quantity>) -> TickView,
        U: Fn(&NetWorld, usize, &NetVehicle, Option<MovementId>, Quantity, &ShardMaps) -> TurnView,
        C: Fn(&NetWorld, &Neighbors, &Vec<NetVehicle>, &Vec<Fate>, &Vec<Pair>) -> CrashView,
        K: Fn(&NetWorld) -> Vec<Option<PoseUpdate>>,
    >(
        &mut self,
        nb: &Neighbors,
        decided: &Vec<(Option<MovementId>, Sleep)>,
        blocked: Vec<bool>,
        accels: &Vec<Quantity>,
        motion: &T,
        turn: &U,
        collide: &C,
        track: &K,
    )
        requires
            old(self).wf(),
            old(self).led(nb),
            old(self).can_tick(),
            old(self).divergences + old(self).rows().len() <= u64::MAX,
            decided@.len() == old(self).rows().len(),
            blocked@.len() == old(self).rows().len(),
            accels@.len() == old(self).rows().len(),
            forall|i: int|
                0 <= i < decided@.len() ==> ((#[trigger] decided@[i]).0 matches Some(m) ==> old(
                    self,
                ).network.has_movement(m)),
            motions_fit(motion),
            turns_fit(turn),
            crashes_fit(collide),
            poses_fit(track),
        ensures
            final(self).wf(),
            exists|b: Back| #[trigger]
                old(self).back_goes(final(self), nb, decided@, blocked@, b) && back_measured(
                    motion,
                    turn,
                    collide,
                    track,
                    nb,
                    decided@,
                    accels,
                    b,
                ),
    {
        self.note_sleepers(decided);
        let ghost noted = *self;
        proof {
            assert(old(self).sleepers_noted(self, decided@)) by {
                assert forall|i: int| 0 <= i < self.rows().len() implies #[trigger] self.fleet.samples(
                    i,
                ) == old(self).fleet.samples(i) by {
                    assert(self.rows()[i] == (NetVehicle {
                        slept: decided@[i].1 != Sleep::Awake,
                        ..old(self).rows()[i]
                    }));
                }
            }
            lemma_can_tick(old(self), self);
        }
        let moving = (*motion)(self, accels);
        self.move_step(nb, decided, blocked, accels, &moving, turn, collide);
        let ghost moved = *self;
        let ghost t = choose|t: Tick| #[trigger]
            noted.ticked(&moved, nb, carried_by(decided@), blocked@, &moving, t) && tick_measured(
                turn,
                collide,
                nb,
                decided@,
                accels@,
                t,
            );
        proof {
            lemma_no_more(&noted, &moved, nb, carried_by(decided@), blocked@, &moving, t);
        }
        let poses = (*track)(self);
        self.write_poses(&poses);
        proof {
            assert(moved.poses_written(self, poses@)) by {
                assert forall|i: int| 0 <= i < self.rows().len() implies #[trigger] self.fleet.samples(
                    i,
                ) == moved.fleet.samples(i) by {
                    assert(self.rows()[i] == Self::posed(moved.rows()[i], poses@[i]));
                }
            }
            let b = Back { noted, view: moving, tick: t, moved, poses };
            reveal(NetWorld::back_goes);
            reveal(back_measured);
            assert(back_measured(motion, turn, collide, track, nb, decided@, accels, b));
            assert(old(self).back_goes(self, nb, decided@, blocked@, b));
        }
    }

    /// One step of the world. What stands before it comes as a view; what arises on
    /// the way is measured when it is needed: how lane options weigh and where a slide
    /// leads, the places along the corridors, what everyone sees, the boxes ahead, what
    /// binds each and the accelerations that follow, everyone's motion and their turns,
    /// the collisions, and the poses.
    pub fn step<
        W: Fn(&NetWorld, usize, Option<usize>, &LaneOptions) -> (LaneScore, LaneScore) + Sync
            + Send,
        M: Fn(&NetWorld, usize, LaneId) -> SlideView,
        P: Fn(&NetWorld) -> Vec<Quantity>,
        S: Fn(&NetWorld, &Neighbors) -> Vec<Sight>,
        B: Fn(&NetWorld, &Neighbors, usize, MovementId) -> BoxView + Sync + Send,
        G: Fn(&NetWorld, &Neighbors, &GroupMap<usize>, usize, AccelSource, Option<MovementId>) -> AccelInput
            + Sync + Send,
        E: Fn(&NetWorld, &Vec<AccelInput>) -> Vec<Quantity>,
        T: Fn(&NetWorld, &Vec<Quantity>) -> TickView,
        U: Fn(&NetWorld, usize, &NetVehicle, Option<MovementId>, Quantity, &ShardMaps) -> TurnView,
        C: Fn(&NetWorld, &Neighbors, &Vec<NetVehicle>, &Vec<Fate>, &Vec<Pair>) -> CrashView,
        K: Fn(&NetWorld) -> Vec<Option<PoseUpdate>>,
    >(
        &mut self,
        view: StepView,
        weigh: W,
        slide: M,
        places: P,
        sight: S,
        gate: B,
        gather: G,
        evaluate: E,
        motion: T,
        turn: U,
        collide: C,
        track: K,
    )
        requires
            old(self).wf(),
            old(self).step_view_fits(&view),
            old(self).can_tick(),
            old(self).divergences + old(self).rows().len() <= u64::MAX,
            weighs_all(&weigh),
            slides_fit(&slide),
            places_fit(&places),
            sights_fit(&sight),
            gates_fit(&gate),
            gathers_all(&gather),
            evaluates_all(&evaluate),
            motions_fit(&motion),
            turns_fit(&turn),
            crashes_fit(&collide),
            poses_fit(&track),
        ensures
            final(self).wf(),
            exists|r: Stride| #[trigger]
                old(self).step_goes(final(self), &view, r) && front_measured(
                    &weigh,
                    &slide,
                    &view,
                    r.front,
                ) && look_measured(
                    &places,
                    &sight,
                    &gate,
                    &gather,
                    &evaluate,
                    &r.changed,
                    r.look,
                ) && back_measured(
                    &motion,
                    &turn,
                    &collide,
                    &track,
                    &r.look.nb,
                    r.look.decisions.decided,
                    &r.look.accels,
                    r.back,
                ),
    {
        let ghost start = view;
        self.step_front(view, weigh, slide);
        let ghost front = choose|f: Front| #[trigger]
            old(self).front_goes(self, &start, f) && front_measured(&weigh, &slide, &start, f);
        let ghost changed = *self;
        proof {
            lemma_can_still_tick(old(self), self);
        }
        let (nb, decided, blocked, accels) = self.step_look(
            &places,
            &sight,
            &gate,
            &gather,
            &evaluate,
        );
        let ghost look = choose|k: Look| #[trigger]
            changed.looks(k) && k.nb == nb && k.decisions.decided == decided@ && k.decisions.blocked
                == blocked@ && k.accels == accels && look_measured(
                &places,
                &sight,
                &gate,
                &gather,
                &evaluate,
                &changed,
                k,
            );
        self.step_back(&nb, &decided, blocked, &accels, &motion, &turn, &collide, &track);
        proof {
            let back = choose|b: Back| #[trigger]
                changed.back_goes(self, &nb, decided@, blocked@, b) && back_measured(
                    &motion,
                    &turn,
                    &collide,
                    &track,
                    &nb,
                    decided@,
                    &accels,
                    b,
                );
            let r = Stride { front, changed, look, back };
            assert(old(self).step_goes(self, &start, r));
        }
    }
}

proof fn lemma_can_still_tick(start: &NetWorld, changed: &NetWorld)
    requires
        start.can_tick(),
        front_keeps(start, changed),
    ensures
        changed.can_tick(),
{
    assert forall|i: int| 0 <= i < changed.rows().len() implies (
    #[trigger] changed.rows()[i]).wait_ticks < u32::MAX by {
        assert(changed.rows()[i].wait_ticks == start.rows()[i].wait_ticks);
    }
}

proof fn lemma_can_tick(changed: &NetWorld, noted: &NetWorld)
    requires
        changed.can_tick(),
        noted.rows().len() == changed.rows().len(),
        noted.crashed == changed.crashed,
        noted.exited == changed.exited,
        noted.leaked == changed.leaked,
        noted.tick == changed.tick,
        noted.link_entries == changed.link_entries,
        forall|i: int|
            0 <= i < noted.rows().len() ==> (#[trigger] noted.rows()[i]).wait_ticks
                == changed.rows()[i].wait_ticks,
    ensures
        noted.can_tick(),
{
    assert forall|i: int| 0 <= i < noted.rows().len() implies (#[trigger] noted.rows()[i]).wait_ticks
        < u32::MAX by {
        assert(changed.rows()[i].wait_ticks < u32::MAX);
    }
}

/// A tick brings nobody in, and keeps the pose tracker's count.
proof fn lemma_no_more(
    before: &NetWorld,
    after: &NetWorld,
    nb: &Neighbors,
    carried: Seq<Option<MovementId>>,
    blocked: Seq<bool>,
    view: &TickView,
    t: Tick,
)
    requires
        before.ticked(after, nb, carried, blocked, view, t),
    ensures
        after.rows().len() <= before.rows().len(),
        after.divergences == before.divergences,
{
    let end = TickEnd {
        rows: t.taken.rows@,
        fates: t.fates@,
        hits: t.hits,
        wreck_ticks: view.wreck_ticks,
    };
    crate::step::vehicles_are_conserved(end, before.rows().len() as int);
    crate::search::lemma_count_bounds(before.rows().len() as int, end.has_exited());
    crate::search::lemma_count_bounds(before.rows().len() as int, end.has_leaked());
    crate::search::lemma_count_bounds(before.rows().len() as int, end.is_cleared());
}

proof fn lemma_same_vehicle(before: &NetWorld, nb: &Neighbors, carried: Seq<Option<MovementId>>, blocked: Seq<bool>, view: &TickView, t: Tick, i: int)
    requires
        before.tick_begins(carried, blocked, view, t),
        before.tick_goes(nb, t),
        0 <= i < before.rows().len(),
    ensures
        t.taken.rows@[i].id == before.rows()[i].id,
        t.taken.rows@[i].wreck == before.rows()[i].wreck,
{
    let v = t.moved[i];
    assert(v == t.road.advanced(&before.rows()[i], carried[i], view.motion@[i]));
    assert(t.road.turn_taken(
        &v,
        &t.taken.rows@[i],
        t.who.deferred@[i],
        t.who.blocked@[i],
        t.who.carried@[i],
        t.turns.views[i],
        &t.turns.occ[i],
        &t.turns.occ[i + 1],
        &t.turns.entered[i],
        &t.turns.entered[i + 1],
        t.fates@[i],
    ));
}

proof fn lemma_counts_agree(n: int, p: spec_fn(int) -> bool, q: spec_fn(int) -> bool)
    requires
        forall|i: int| 0 <= i < n ==> #[trigger] p(i) == q(i),
    ensures
        count_where(n, p) == count_where(n, q),
    decreases n,
{
    if n > 0 {
        lemma_counts_agree(n - 1, p, q);
        assert(p(n - 1) == q(n - 1));
    }
}

/// A step loses nobody. Where no wrecks are kept and none stand, whoever was on the
/// road before it is there after it, has left the network, has leaked or has crashed,
/// as the counters say. And the clock moves on by one tick, to the time that was
/// measured.
pub proof fn a_step_loses_nobody(before: &NetWorld, after: &NetWorld, view: &StepView, r: Stride)
    requires
        before.step_goes(after, view, r),
        r.back.view.wreck_ticks == 0,
        forall|i: int| 0 <= i < before.rows().len() ==> (#[trigger] before.rows()[i]).wreck is None,
    ensures
        before.rows().len() == after.rows().len() + (after.exited - before.exited) + (after.leaked
            - before.leaked) + (after.crashed - before.crashed),
        after.tick == before.tick + 1,
        after.time == r.back.view.time,
{
    reveal(NetWorld::front_goes);
    reveal(NetWorld::looks);
    reveal(NetWorld::back_goes);
    let (f, b) = (r.front, r.back);
    let n = before.rows().len() as int;
    lemma_refreshed_keeps(before, &f.routed, view.bands@, view.interval, view.costs@, f.width);
    assert(f.begun.fleet == before.fleet);
    crate::sideways::lemma_pass_keeps(&f.begun, &r.changed, view.lanes@, view.hov_ok@, f.pass);
    let carried = carried_by(r.look.decisions.decided);
    let blocked = r.look.decisions.blocked;
    let end = TickEnd {
        rows: b.tick.taken.rows@,
        fates: b.tick.fates@,
        hits: b.tick.hits,
        wreck_ticks: b.view.wreck_ticks,
    };
    crate::step::vehicles_are_conserved(end, n);
    assert forall|i: int| 0 <= i < n implies #[trigger] end.is_cleared()(i) == end.was_hit()(i) by {
        lemma_same_vehicle(&b.noted, &r.look.nb, carried, blocked, &b.view, b.tick, i);
        assert(b.noted.rows()[i].wreck == r.changed.rows()[i].wreck);
        assert(r.changed.rows()[i].wreck == f.begun.rows()[i].wreck);
        assert(before.rows()[i].wreck is None);
    }
    lemma_counts_agree(n, end.is_cleared(), end.was_hit());
}

/// The places `f` pick the ids of `after`, in order, out of those of `before`.
pub open spec fn picked_in_order(f: Seq<int>, after: Seq<NetVehicle>, before: Seq<NetVehicle>) -> bool {
    &&& f.len() == after.len()
    &&& forall|k: int|
        0 <= k < f.len() ==> 0 <= #[trigger] f[k] < before.len() && after[k].id == before[f[k]].id
    &&& forall|j: int, k: int| 0 <= j < k < f.len() ==> #[trigger] f[j] < #[trigger] f[k]
}

proof fn lemma_survivors_in_order(end: TickEnd, n: int) -> (f: Seq<int>)
    requires
        0 <= n <= end.rows.len(),
    ensures
        picked_in_order(f, end.survivors(n), end.rows),
        forall|k: int| 0 <= k < f.len() ==> #[trigger] f[k] < n,
    decreases n,
{
    if n == 0 {
        Seq::empty()
    } else {
        let f = lemma_survivors_in_order(end, n - 1);
        if end.is_kept()(n - 1) {
            f.push(n - 1)
        } else {
            f
        }
    }
}

/// A step makes no vehicle and keeps their order: those that are left are some of
/// those before, one after the other.
pub proof fn a_step_keeps_the_order(before: &NetWorld, after: &NetWorld, view: &StepView, r: Stride)
    requires
        before.step_goes(after, view, r),
    ensures
        exists|f: Seq<int>| #[trigger] picked_in_order(f, after.rows(), before.rows()),
{
    reveal(NetWorld::front_goes);
    reveal(NetWorld::looks);
    reveal(NetWorld::back_goes);
    let (front, b) = (r.front, r.back);
    let n = before.rows().len() as int;
    lemma_refreshed_keeps(
        before,
        &front.routed,
        view.bands@,
        view.interval,
        view.costs@,
        front.width,
    );
    crate::sideways::lemma_pass_keeps(
        &front.begun,
        &r.changed,
        view.lanes@,
        view.hov_ok@,
        front.pass,
    );
    let end = TickEnd {
        rows: b.tick.taken.rows@,
        fates: b.tick.fates@,
        hits: b.tick.hits,
        wreck_ticks: b.view.wreck_ticks,
    };
    let f = lemma_survivors_in_order(end, n);
    assert forall|k: int| 0 <= k < f.len() implies 0 <= #[trigger] f[k] < n && after.rows()[k].id
        == before.rows()[f[k]].id by {
        let i = f[k];
        lemma_same_vehicle(
            &b.noted,
            &r.look.nb,
            carried_by(r.look.decisions.decided),
            r.look.decisions.blocked,
            &b.view,
            b.tick,
            i,
        );
        assert(b.noted.rows()[i].id == r.changed.rows()[i].id);
        assert(r.changed.rows()[i].id == front.begun.rows()[i].id);
        assert(after.rows()[k].id == b.moved.rows()[k].id);
    }
    assert(picked_in_order(f, after.rows(), before.rows()));
}

} // verus!
