//! Setting a world up, its switches, its counters, and when its routes are
//! worked out anew.

use vstd::prelude::*;
use vstd::relations::sorted_by;
use std::collections::HashMap;
use crate::backend::{pool_width, AccelBackend, DEFAULT_PAR_THRESHOLD};
use crate::fleet::{is_permutation, Fleet, NetVehicle};
use crate::infrastructure::fingerprint_sum;
use crate::network::{LinkId, Network, SignalState};
use crate::quantity::{place, Quantity, ZERO};
use crate::router::FieldRouter;
use crate::search::{count_where, first_index, lemma_first_index_is, lemma_first_index_none};
use crate::sorting::{by_key, is_rising, lemma_rising_is_distinct, lemma_sorted_members, lemma_stable_sort_of_rising, sort_members, within};
use crate::topology::Topology;
use crate::world::{CongestionConfig, CrashRecord, NetWorld, SimConfig};

verus! {

/// How many links a field may settle in one tick while routes are worked out anew.
pub const ROUTE_SETTLE_BUDGET: usize = 8000;

/// At this speed or below a vehicle counts as parked for the pose tracker.
/// Place of 0.05 m/s.
pub const PARKED_SPEED: i64 = 0x3FA9_9999_9999_999A;

/// What the pose tracker found for a vehicle.
#[derive(Clone, Copy, Debug)]
pub struct PoseUpdate {
    pub kin: [Quantity; 3],
    pub steer: Quantity,
    /// The divergence guard fired.
    pub diverged: bool,
}

/// What is measured of a network before traffic starts.
pub struct Survey {
    /// Per link: no curve on it limits the speed.
    pub link_straight: Vec<bool>,
    /// Per movement: the speed that its path's curvature allows.
    pub turn_caps: Vec<Quantity>,
    /// The colours that the signal groups start with.
    pub signals: Vec<SignalState>,
    /// The offset that every signal program starts with.
    pub offsets: Vec<Quantity>,
}

impl Survey {
    /// The tables fit the network.
    pub open spec fn fits(&self, net: &Network) -> bool {
        &&& self.link_straight@.len() == net.links@.len()
        &&& self.turn_caps@.len() == net.movements@.len()
        &&& self.signals@.len() == net.groups@.len()
        &&& self.offsets@.len() == net.programs@.len()
    }
}

impl CongestionConfig {
    /// Full detail everywhere.
    pub fn disabled() -> (r: CongestionConfig)
        ensures
            !r.enabled,
            r.engage_occ == place(ZERO),
            r.release_occ == place(ZERO),
            r.dwell_ticks == 0,
    {
        CongestionConfig {
            enabled: false,
            engage_occ: Quantity::at(ZERO),
            release_occ: Quantity::at(ZERO),
            dwell_ticks: 0,
        }
    }
}

impl NetWorld {
    /// A world without traffic, at the start of its time, with every switch at
    /// its default.
    pub open spec fn fresh(&self) -> bool {
        &&& self.rows().len() == 0
        &&& self.time == place(ZERO)
        &&& self.tick == 0
        &&& self.exited == 0
        &&& self.leaked == 0
        &&& self.crashed == 0
        &&& self.crash_log@.len() == 0
        &&& self.meters@.len() == 0
        &&& !self.metering_on
        &&& self.day_secs == place(ZERO)
        &&& self.rail_since == place(ZERO)
        &&& !self.pm_plan
        &&& self.bus_dwell@ == Map::<u32, crate::world::BusDwell>::empty()
        &&& forall|l: int|
            0 <= l < self.link_entries@.len() ==> #[trigger] self.link_entries@[l] == 0
        &&& self.router is None
        &&& !self.external_reroute
        &&& self.route_fingerprint == 0
        &&& self.route_cycle_tick == 0
        &&& self.parallel_routing
        &&& self.cache_sort
        &&& self.accel_backend == AccelBackend::Serial
        &&& !self.gpu_accel
        &&& self.threads_ready
        &&& self.par_threshold == DEFAULT_PAR_THRESHOLD
        &&& forall|l: int| 0 <= l < self.queue_links@.len() ==> !#[trigger] self.queue_links@[l]
        &&& !self.congestion_cfg.enabled
        &&& self.asleep_last == 0
        &&& self.sharding is None
        &&& self.divergences == 0
    }

    /// A world on the network, before any traffic.
    pub fn new(network: Network, cfg: SimConfig, survey: Survey) -> (r: NetWorld)
        requires
            network.wf(),
            survey.fits(&network),
        ensures
            r.wf(),
            r.fresh(),
            r.network == network,
            r.cfg == cfg,
            r.link_straight == survey.link_straight,
            r.turn_caps == survey.turn_caps,
            r.signals == survey.signals,
            r.offsets == survey.offsets,
    {
        let topology = Topology::build(&network);
        let links = network.links.len();
        let bus_dwell: HashMap<u32, crate::world::BusDwell> = HashMap::new();
        NetWorld {
            network,
            topology,
            cfg,
            fleet: Fleet::new(),
            time: Quantity::at(ZERO),
            tick: 0,
            exited: 0,
            leaked: 0,
            crashed: 0,
            crashed_by: [0, 0],
            crash_log: Vec::new(),
            meters: Vec::new(),
            metering_on: false,
            day_secs: Quantity::at(ZERO),
            rail_since: Quantity::at(ZERO),
            pm_plan: false,
            offsets: survey.offsets,
            bus_dwell,
            link_straight: survey.link_straight,
            turn_caps: survey.turn_caps,
            signals: survey.signals,
            link_entries: vec![0u32; links],
            router: None,
            external_reroute: false,
            route_fingerprint: 0,
            route_cycle_tick: 0,
            parallel_routing: true,
            cache_sort: true,
            accel_backend: AccelBackend::Serial,
            gpu_accel: false,
            threads_ready: true,
            par_threshold: DEFAULT_PAR_THRESHOLD,
            queue_links: vec![false; links],
            congestion_cfg: CongestionConfig::disabled(),
            asleep_last: 0,
            sharding: None,
            divergences: 0,
        }
    }

    /// Say whether the worker pool can be used. Until it can, `Threads` runs as
    /// `Serial`.
    pub fn set_threads_ready(&mut self, ready: bool)
        ensures
            *final(self) == (NetWorld { threads_ready: ready, ..*old(self) }),
    {
        self.threads_ready = ready;
    }

    /// From how many vehicles on `Threads` spreads the work.
    pub fn set_par_threshold(&mut self, n: usize)
        ensures
            *final(self) == (NetWorld { par_threshold: n, ..*old(self) }),
    {
        self.par_threshold = n;
    }

    pub fn par_threshold(&self) -> (r: usize)
        ensures
            r == self.par_threshold,
    {
        self.par_threshold
    }

    /// Ask for a backend.
    pub fn set_accel_backend(&mut self, backend: AccelBackend)
        ensures
            *final(self) == (NetWorld { accel_backend: backend, ..*old(self) }),
    {
        self.accel_backend = backend;
    }

    /// Install the GPU solver, given whether an adapter was acquired. One that is
    /// installed stays. Gives back whether there is one now.
    pub fn enable_gpu_accel(&mut self, acquired: bool) -> (r: bool)
        ensures
            *final(self) == (NetWorld { gpu_accel: old(self).gpu_accel || acquired, ..*old(self) }),
            r == final(self).gpu_accel,
    {
        if !self.gpu_accel {
            self.gpu_accel = acquired;
        }
        self.gpu_accel
    }

    /// Install a router for the destinations, under the links' present costs.
    pub fn install_router(&mut self, dests: &Vec<LinkId>, costs: &Vec<u64>)
        requires
            old(self).wf(),
            costs@.len() == old(self).network.links@.len(),
            forall|k: int|
                0 <= k < dests@.len() ==> old(self).network.has_link(#[trigger] dests@[k]),
        ensures
            final(self).wf(),
            *final(self) == (NetWorld { router: final(self).router, ..*old(self) }),
            final(self).router matches Some(r) && r.slots() == dests@ && r.cycle() is None,
            final(self).routes_by(costs@),
    {
        self.router = Some(FieldRouter::new(&self.network, dests, costs));
    }

    /// Every field of the router is the solution under these link costs.
    pub open spec fn routes_by(&self, costs: Seq<u64>) -> bool {
        self.router matches Some(r) ==> forall|s: int|
            0 <= s < r.slots().len() ==> (#[trigger] r.field(s)).solves(
                &self.network,
                costs,
                r.slots()[s],
            )
    }

    /// Whether the router has a field for the destination.
    pub fn router_knows(&self, dest: LinkId) -> (r: bool)
        ensures
            r == (self.router is Some && self.router->0.slots().contains(dest)),
    {
        match &self.router {
            Some(r) => r.knows(dest),
            None => false,
        }
    }

    /// The router's destinations, in slot order.
    pub fn router_dest_links(&self) -> (r: Vec<LinkId>)
        ensures
            r@ == (match self.router {
                Some(x) => x.slots(),
                None => Seq::empty(),
            }),
    {
        let mut out: Vec<LinkId> = Vec::new();
        if let Some(r) = &self.router {
            let dests = r.dests_in_slot_order();
            let mut k: usize = 0;
            while k < dests.len()
                invariant
                    dests@ == r.slots(),
                    k <= dests@.len(),
                    out@ == dests@.take(k as int),
                decreases dests@.len() - k,
            {
                out.push(dests[k]);
                k += 1;
                assert(out@ =~= dests@.take(k as int));
            }
            assert(out@ =~= r.slots());
        }
        out
    }

    /// Hand the working out of routes to an outside driver, or take it back.
    pub fn set_external_reroute(&mut self, external: bool)
        ensures
            *final(self) == (NetWorld { external_reroute: external, ..*old(self) }),
    {
        self.external_reroute = external;
    }

    /// Take the routes from distances that an outside driver worked out.
    pub fn feed_router_distances(&mut self, cost: &Vec<u64>, dist_per_slot: &Vec<Vec<u64>>)
        requires
            old(self).wf(),
            cost@.len() == old(self).network.links@.len(),
            old(self).router matches Some(r) ==> dist_per_slot@.len() == r.slots().len(),
            forall|s: int|
                0 <= s < dist_per_slot@.len() ==> (#[trigger] dist_per_slot@[s])@.len() == old(
                    self,
                ).network.links@.len(),
        ensures
            final(self).wf(),
            *final(self) == (NetWorld { router: final(self).router, ..*old(self) }),
            old(self).router is None <==> final(self).router is None,
            old(self).router matches Some(r) ==> final(self).router->0.slots() == r.slots() && final(
                self
            ).router->0.cycle() is None && final(self).router->0.fed(&old(self).network, cost@, dist_per_slot@),
    {
        if let Some(r) = &mut self.router {
            r.recompute_from_distances(&self.network, cost, dist_per_slot);
        }
    }

    /// The fingerprint of the links' congestion, by the band that each is in.
    pub open spec fn fingerprint(&self, bands: Seq<u64>) -> int {
        fingerprint_sum(self.link_tally(), bands, self.network.links@.len() as int)
            % 0x1_0000_0000_0000_0000
    }

    /// Routes begin to be worked out anew: congestion has moved, nobody else does it,
    /// the last time has come to its end, and long enough has passed since it began.
    pub open spec fn reroutes(&self, fp: int, interval: u64) -> bool {
        &&& self.router matches Some(r) && r.cycle() is None
        &&& !self.external_reroute
        &&& fp != self.route_fingerprint
        &&& self.tick >= self.route_cycle_tick + interval || interval == 0
    }

    /// The world after its routes were refreshed: a recompute begins where one is due,
    /// and whichever is in flight goes on by [`ROUTE_SETTLE_BUDGET`] links a field.
    pub open spec fn refreshed(
        &self,
        before: &NetWorld,
        bands: Seq<u64>,
        interval: u64,
        costs: Seq<u64>,
        width: int,
    ) -> bool {
        let fp = before.fingerprint(bands);
        if before.router is None || before.external_reroute {
            *self == *before
        } else if before.reroutes(fp, interval) {
            &&& *self == (NetWorld {
                router: self.router,
                route_fingerprint: fp as u64,
                route_cycle_tick: before.tick,
                ..*before
            })
            &&& self.router is Some
            &&& exists|begun: FieldRouter| #[trigger]
                begun.begun(&before.router->0, costs, width) && self.router->0.advanced(
                    &begun,
                    &before.network,
                    ROUTE_SETTLE_BUDGET as int,
                )
        } else {
            &&& *self == (NetWorld { router: self.router, ..*before })
            &&& self.router is Some
            &&& self.router->0.advanced(
                &before.router->0,
                &before.network,
                ROUTE_SETTLE_BUDGET as int,
            )
        }
    }

    /// How many fields are solved at once on a pool of this many threads.
    pub fn field_width(&self, threads: usize) -> (r: usize)
        ensures
            r == (if self.parallel_routing && threads > 1 {
                threads
            } else {
                1
            }),
    {
        if self.parallel_routing && threads > 1 {
            threads
        } else {
            1
        }
    }

    /// How many fields are solved at once: one for each thread of the pool, or one
    /// where that is switched off. It is [`NetWorld::field_width`] for the pool's
    /// number of threads, which is the machine's.
    pub fn route_field_width(&self) -> (r: usize)
        ensures
            r >= 1,
            !self.parallel_routing ==> r == 1,
    {
        self.field_width(pool_width())
    }

    /// Let the routes be worked out anew where they are due, under the links' present
    /// costs, `width` fields at once. The work is spread over the ticks: while a
    /// recompute is in flight none begins, and the old routes serve until the new ones
    /// are complete.
    pub fn refresh_routes_with(
        &mut self,
        bands: &Vec<u64>,
        interval: u64,
        costs: &Vec<u64>,
        width: usize,
    )
        requires
            old(self).wf(),
            old(self).rows().len() <= u32::MAX,
            bands@.len() == old(self).network.links@.len(),
            forall|l: int| 0 <= l < bands@.len() ==> #[trigger] bands@[l] < u64::MAX,
            costs@.len() == old(self).network.links@.len(),
        ensures
            final(self).wf(),
            final(self).refreshed(old(self), bands@, interval, costs@, width as int),
    {
        if self.router.is_none() || self.external_reroute {
            return;
        }
        let fp = self.congestion_fingerprint(bands);
        let since = if self.tick > self.route_cycle_tick {
            self.tick - self.route_cycle_tick
        } else {
            0
        };
        let pending = match &self.router {
            Some(r) => r.recompute_pending(),
            None => false,
        };
        if fp != self.route_fingerprint && !pending && since >= interval {
            self.route_fingerprint = fp;
            self.route_cycle_tick = self.tick;
            if let Some(r) = &mut self.router {
                r.begin_recompute(&self.network, costs, width);
            }
        }
        if let Some(r) = &mut self.router {
            r.advance_recompute(&self.network, ROUTE_SETTLE_BUDGET);
        }
    }

    /// [`NetWorld::refresh_routes_with`] as many fields at once as the pool allows.
    pub fn refresh_routes(&mut self, bands: &Vec<u64>, interval: u64, costs: &Vec<u64>)
        requires
            old(self).wf(),
            old(self).rows().len() <= u32::MAX,
            bands@.len() == old(self).network.links@.len(),
            forall|l: int| 0 <= l < bands@.len() ==> #[trigger] bands@[l] < u64::MAX,
            costs@.len() == old(self).network.links@.len(),
        ensures
            final(self).wf(),
            exists|width: int|
                width >= 1 && (!old(self).parallel_routing ==> width == 1) && #[trigger] final(
                    self
                ).refreshed(old(self), bands@, interval, costs@, width),
    {
        let width = self.route_field_width();
        self.refresh_routes_with(bands, interval, costs, width);
        assert(self.refreshed(old(self), bands@, interval, costs@, width as int));
    }

    /// Configure the queue model. Switching it off returns every link to full
    /// detail at once.
    pub fn set_congestion(&mut self, cfg: CongestionConfig)
        requires
            old(self).wf(),
        ensures
            final(self).wf(),
            *final(self) == (NetWorld {
                congestion_cfg: cfg,
                queue_links: final(self).queue_links,
                ..*old(self)
            }),
            cfg.enabled ==> final(self).queue_links@ == old(self).queue_links@,
            !cfg.enabled ==> forall|l: int|
                0 <= l < final(self).queue_links@.len() ==> !#[trigger] final(self).queue_links@[l],
    {
        if !cfg.enabled {
            self.queue_links = vec![false; self.network.links.len()];
        }
        self.congestion_cfg = cfg;
    }

    pub fn congestion_config(&self) -> (r: CongestionConfig)
        ensures
            r == self.congestion_cfg,
    {
        self.congestion_cfg
    }

    /// Say which links run the queue model from now on.
    pub fn set_queue_links(&mut self, modes: Vec<bool>)
        requires
            old(self).wf(),
            modes@.len() == old(self).network.links@.len(),
        ensures
            final(self).wf(),
            *final(self) == (NetWorld { queue_links: modes, ..*old(self) }),
    {
        self.queue_links = modes;
    }

    /// Of a link: it runs the queue model.
    pub open spec fn is_queued(&self) -> spec_fn(int) -> bool {
        |l: int| self.queue_links@[l]
    }

    /// How many links run the queue model.
    pub fn congestion_active_links(&self) -> (r: u32)
        requires
            self.wf(),
        ensures
            r == count_where(self.network.links@.len() as int, self.is_queued()),
    {
        let mut count: u32 = 0;
        let mut l: usize = 0;
        while l < self.queue_links.len()
            invariant
                self.wf(),
                l <= self.queue_links@.len(),
                count == count_where(l as int, self.is_queued()),
                count <= l,
            decreases self.queue_links@.len() - l,
        {
            if self.queue_links[l] {
                count += 1;
            }
            l += 1;
        }
        count
    }

    /// How many vehicles slept in the last step.
    pub fn asleep_count(&self) -> (r: usize)
        ensures
            r == self.asleep_last,
    {
        self.asleep_last
    }

    pub fn set_sleep_scheduler(&mut self, on: bool)
        ensures
            *final(self) == (NetWorld {
                cfg: SimConfig { sleep_scheduler: on, ..old(self).cfg },
                ..*old(self)
            }),
    {
        self.cfg.sleep_scheduler = on;
    }

    /// Take every vehicle off the road. The network and the counters stay.
    pub fn clear_vehicles(&mut self)
        requires
            old(self).wf(),
        ensures
            final(self).wf(),
            final(self).rows().len() == 0,
            *final(self) == (NetWorld { fleet: final(self).fleet, ..*old(self) }),
    {
        self.fleet.clear();
    }

    /// How many vehicles have entered each link.
    pub fn link_entry_counts(&self) -> (r: &[u32])
        ensures
            r@ == self.link_entries@,
    {
        self.link_entries.as_slice()
    }

    pub fn time(&self) -> (r: Quantity)
        ensures
            r == self.time,
    {
        self.time
    }

    /// Vehicles that have left the network.
    pub fn exited(&self) -> (r: u32)
        ensures
            r == self.exited,
    {
        self.exited
    }

    /// Vehicles that have crashed; some may still stand on the road.
    pub fn crashed(&self) -> (r: u32)
        ensures
            r == self.crashed,
    {
        self.crashed
    }

    /// The crashes by kind: rear-end, then junction. They add up to all.
    pub fn crash_counts(&self) -> (r: [u32; 2])
        ensures
            r == self.crashed_by,
            self.wf() ==> r@[0] + r@[1] == self.crashed,
    {
        self.crashed_by
    }

    /// The recent crashes, oldest first.
    pub fn crash_log(&self) -> (r: &[CrashRecord])
        ensures
            r@ == self.crash_log@,
    {
        self.crash_log.as_slice()
    }

    /// Forget the recorded crashes. The counters stay.
    pub fn clear_crash_sites(&mut self)
        requires
            old(self).wf(),
        ensures
            final(self).wf(),
            *final(self) == (NetWorld { crash_log: final(self).crash_log, ..*old(self) }),
            final(self).crash_log@.len() == 0,
    {
        self.crash_log.clear();
    }

    /// How long a wreck stays on the road. What is not above zero counts as zero.
    /// Wrecks that stand already keep their time.
    pub fn set_wreck_clear_secs(&mut self, secs: Quantity)
        ensures
            *final(self) == (NetWorld {
                cfg: SimConfig {
                    wreck_clear_secs: if place(ZERO).is_below(secs) {
                        secs
                    } else {
                        place(ZERO)
                    },
                    ..old(self).cfg
                },
                ..*old(self)
            }),
    {
        self.cfg.wreck_clear_secs = if Quantity::at(ZERO).below(secs) {
            secs
        } else {
            Quantity::at(ZERO)
        };
    }

    pub fn wreck_clear_secs(&self) -> (r: Quantity)
        ensures
            r == self.cfg.wreck_clear_secs,
    {
        self.cfg.wreck_clear_secs
    }

    /// Vehicles that were lost at a node though they had somewhere to go.
    pub fn leaked(&self) -> (r: u32)
        ensures
            r == self.leaked,
    {
        self.leaked
    }

    pub fn vehicles(&self) -> (r: &[NetVehicle])
        ensures
            r@ == self.rows(),
    {
        self.fleet.rows.as_slice()
    }

    /// Of a row: its vehicle has this id.
    pub open spec fn is_called(&self, id: u32) -> spec_fn(int) -> bool {
        |i: int| self.rows()[i].id == id
    }

    /// The first vehicle with this id.
    pub fn vehicle(&self, id: u32) -> (r: Option<&NetVehicle>)
        ensures
            match (r, first_index(0, self.rows().len() as int, self.is_called(id))) {
                (Some(v), Some(i)) => *v == self.rows()[i],
                (None, None) => true,
                _ => false,
            },
    {
        let ghost p = self.is_called(id);
        let mut i: usize = 0;
        while i < self.fleet.rows.len()
            invariant
                i <= self.rows().len(),
                p == self.is_called(id),
                forall|j: int| 0 <= j < i ==> !#[trigger] p(j),
            decreases self.rows().len() - i,
        {
            if self.fleet.rows[i].id == id {
                proof {
                    lemma_first_index_is(0, self.rows().len() as int, p, i as int);
                }
                return Some(&self.fleet.rows[i]);
            }
            i += 1;
        }
        proof {
            lemma_first_index_none(0, self.rows().len() as int, p);
        }
        None
    }

    /// The colour of every signal group.
    pub fn signal_states(&self) -> (r: Vec<SignalState>)
        ensures
            r@ == self.signals@,
    {
        let mut out: Vec<SignalState> = Vec::new();
        let mut g: usize = 0;
        while g < self.signals.len()
            invariant
                g <= self.signals@.len(),
                out@ == self.signals@.take(g as int),
            decreases self.signals@.len() - g,
        {
            out.push(self.signals[g]);
            g += 1;
            assert(out@ =~= self.signals@.take(g as int));
        }
        assert(out@ =~= self.signals@);
        out
    }

    /// Take the colours that the signal controllers show from now on.
    pub fn set_signal_states(&mut self, signals: Vec<SignalState>)
        requires
            old(self).wf(),
            signals@.len() == old(self).network.groups@.len(),
        ensures
            final(self).wf(),
            *final(self) == (NetWorld { signals, ..*old(self) }),
    {
        self.signals = signals;
    }

    /// Whether several routing fields are solved at once.
    pub fn set_parallel_routing(&mut self, on: bool)
        ensures
            *final(self) == (NetWorld { parallel_routing: on, ..*old(self) }),
    {
        self.parallel_routing = on;
    }

    pub fn parallel_routing(&self) -> (r: bool)
        ensures
            r == self.parallel_routing,
    {
        self.parallel_routing
    }

    /// Whether groups are sorted by flat keys rather than by the rows themselves.
    pub fn set_cache_sort(&mut self, on: bool)
        ensures
            *final(self) == (NetWorld { cache_sort: on, ..*old(self) }),
    {
        self.cache_sort = on;
    }

    pub fn cache_sort(&self) -> (r: bool)
        ensures
            r == self.cache_sort,
    {
        self.cache_sort
    }

    /// How often the pose tracker's divergence guard has fired.
    pub fn kinematic_divergences(&self) -> (r: u64)
        ensures
            r == self.divergences,
    {
        self.divergences
    }

    /// Whether the pose tracker moves a row's vehicle: a parked one keeps its pose.
    pub fn follows_wheels(&self, i: usize) -> (r: bool)
        requires
            i < self.rows().len(),
        ensures
            r == !self.rows()[i as int].speed.is_at_most(place(PARKED_SPEED)),
    {
        !self.fleet.rows[i].speed.at_most(Quantity::at(PARKED_SPEED))
    }

    /// Of an update: the divergence guard fired.
    pub open spec fn has_diverged(updates: Seq<Option<PoseUpdate>>) -> spec_fn(int) -> bool {
        |i: int| updates[i] is Some && (updates[i]->0).diverged
    }

    /// A row with the pose that the tracker found for it.
    pub open spec fn posed(v: NetVehicle, u: Option<PoseUpdate>) -> NetVehicle {
        match u {
            Some(t) => NetVehicle { kin: t.kin, steer: t.steer, ..v },
            None => v,
        }
    }

    /// Write the tracked poses back, and count how often the divergence guard
    /// fired. Rows without an update stay as they are.
    pub fn write_poses(&mut self, updates: &Vec<Option<PoseUpdate>>)
        requires
            old(self).wf(),
            updates@.len() == old(self).rows().len(),
            old(self).divergences + updates@.len() <= u64::MAX,
        ensures
            final(self).wf(),
            *final(self) == (NetWorld {
                fleet: final(self).fleet,
                divergences: final(self).divergences,
                ..*old(self)
            }),
            final(self).divergences == old(self).divergences + count_where(
                updates@.len() as int,
                Self::has_diverged(updates@),
            ),
            final(self).rows().len() == old(self).rows().len(),
            forall|i: int|
                0 <= i < final(self).rows().len() ==> #[trigger] final(self).rows()[i]
                    == Self::posed(old(self).rows()[i], updates@[i]) && final(self).fleet.samples(i)
                    == old(self).fleet.samples(i),
    {
        let n = self.fleet.rows.len();
        let mut fired: u64 = 0;
        let mut i: usize = 0;
        while i < n
            invariant
                old(self).wf(),
                n == old(self).rows().len(),
                updates@.len() == n,
                i <= n,
                *self == (NetWorld { fleet: self.fleet, ..*old(self) }),
                self.fleet.hist@ == old(self).fleet.hist@,
                self.fleet.hist_len@ == old(self).fleet.hist_len@,
                self.fleet.rows@.len() == n,
                fired == count_where(i as int, Self::has_diverged(updates@)),
                fired <= i,
                old(self).divergences + n <= u64::MAX,
                forall|k: int|
                    0 <= k < i ==> #[trigger] self.fleet.rows@[k] == Self::posed(
                        old(self).rows()[k],
                        updates@[k],
                    ),
                forall|k: int|
                    i <= k < n ==> #[trigger] self.fleet.rows@[k] == old(self).rows()[k],
            decreases n - i,
        {
            if let Some(t) = updates[i] {
                self.fleet.rows[i].kin = t.kin;
                self.fleet.rows[i].steer = t.steer;
                if t.diverged {
                    fired += 1;
                }
            }
            i += 1;
        }
        self.divergences = self.divergences + fired;
        assert forall|k: int| 0 <= k < n implies (#[trigger] self.fleet.rows@[k]).placed(
            &self.network,
        ) by {
            assert(old(self).rows()[k].placed(&self.network));
        }
        assert forall|k: int| 0 <= k < n implies 1 <= #[trigger] self.fleet.hist_len@[k]
            <= crate::fleet::HISTORY_LEN by {
            assert(1 <= old(self).fleet.hist_len@[k] <= crate::fleet::HISTORY_LEN);
        }
    }
}

/// Where a vehicle lies in memory order: its lane, and its place on it.
pub open spec fn locality(v: NetVehicle) -> (int, int) {
    (v.lane.0 as int, v.position.rank())
}

/// Earlier in memory order; of equal places, the earlier row.
pub open spec fn nearer(w: &NetWorld, a: int, b: int) -> bool {
    let (la, pa) = locality(w.rows()[a]);
    let (lb, pb) = locality(w.rows()[b]);
    la < lb || (la == lb && (pa < pb || (pa == pb && a < b)))
}

/// The fleet after putting its rows, and their histories with them, in an order.
pub open spec fn reordered(before: &Fleet, after: &Fleet, order: Seq<usize>) -> bool {
    &&& is_permutation(order, before.rows@.len())
    &&& after.rows@.len() == before.rows@.len()
    &&& forall|k: int|
        0 <= k < order.len() ==> #[trigger] after.rows@[k] == before.rows@[order[k] as int]
            && after.hist@[k] == before.hist@[order[k] as int] && after.hist_len@[k]
            == before.hist_len@[order[k] as int]
}

/// The order is the memory order of the world's rows.
pub open spec fn is_memory_order(w: &NetWorld, order: Seq<usize>) -> bool {
    forall|a: int, b: int|
        #![trigger order[a], order[b]]
        0 <= a < b < order.len() ==> nearer(w, order[a] as int, order[b] as int)
}

/// One number for a place in memory order.
spec fn packed(l: (int, int)) -> int {
    l.0 * 0x1_0000_0000_0000_0000 + (l.1 + 0x8000_0000_0000_0000)
}

impl NetWorld {
    fn locality_key(&self, i: usize) -> (r: i128)
        requires
            i < self.rows().len(),
        ensures
            r == packed(locality(self.rows()[i as int])),
    {
        let v = &self.fleet.rows[i];
        let at = v.position.line_place();
        v.lane.0 as i128 * 0x1_0000_0000_0000_0000 + (at as i128 + 0x8000_0000_0000_0000)
    }

    /// Put the rows, and their histories with them, in memory order: by lane and
    /// position. Nothing else changes.
    pub fn locality_reorder(&mut self)
        requires
            old(self).wf(),
            forall|i: int|
                0 <= i < old(self).rows().len() ==> !(#[trigger] old(self).rows()[i]).position.is_nan(),
        ensures
            final(self).wf(),
            *final(self) == (NetWorld { fleet: final(self).fleet, ..*old(self) }),
            exists|order: Seq<usize>| #[trigger]
                reordered(&old(self).fleet, &final(self).fleet, order) && is_memory_order(
                    old(self),
                    order,
                ),
    {
        let n = self.fleet.rows.len();
        let mut members: Vec<usize> = Vec::new();
        let mut keys: Vec<i128> = Vec::new();
        let mut i: usize = 0;
        while i < n
            invariant
                *self == *old(self),
                self.wf(),
                n == self.rows().len(),
                i <= n,
                members@.len() == i,
                keys@.len() == i,
                forall|k: int| 0 <= k < i ==> #[trigger] members@[k] == k,
                forall|k: int|
                    0 <= k < i ==> #[trigger] keys@[k] == packed(locality(self.rows()[k])),
            decreases n - i,
        {
            members.push(i);
            keys.push(self.locality_key(i));
            i += 1;
        }
        let order = sort_members(&members, &keys);
        proof {
            assert(is_rising(members@));
            lemma_rising_is_distinct(members@);
            lemma_stable_sort_of_rising(members@, order@, keys@);
            lemma_sorted_members(members@, keys@);
            lemma_memory_order(self, keys@, order@);
        }
        self.fleet.reorder(&order);
        proof {
            assert(reordered(&old(self).fleet, &self.fleet, order@));
            assert forall|k: int| 0 <= k < self.fleet.rows@.len() implies (
            #[trigger] self.fleet.rows@[k]).placed(&self.network) by {
                assert(old(self).rows()[order@[k] as int].placed(&self.network));
            }
        }
    }
}

proof fn lemma_memory_order(w: &NetWorld, keys: Seq<i128>, order: Seq<usize>)
    requires
        w.wf(),
        keys.len() == w.rows().len(),
        within(order, keys.len()),
        order.no_duplicates(),
        sorted_by(order, by_key(keys)),
        forall|k: int|
            0 <= k < keys.len() ==> #[trigger] keys[k] == packed(locality(w.rows()[k])),
    ensures
        is_memory_order(w, order),
{
    assert forall|a: int, b: int|
        #![trigger order[a], order[b]]
        0 <= a < b < order.len() implies nearer(w, order[a] as int, order[b] as int) by {
        let (x, y) = (order[a] as int, order[b] as int);
        assert(by_key(keys)(order[a], order[b]));
        assert(keys[x] == packed(locality(w.rows()[x])));
        assert(keys[y] == packed(locality(w.rows()[y])));
    }
}

/// Row `k` afterwards is row `i` before, with its history.
pub open spec fn moved(before: &Fleet, after: &Fleet, i: int, k: int) -> bool {
    after.rows@[k] == before.rows@[i] && after.samples(k) == before.samples(i)
}

/// Row `i` is somewhere afterwards, with its history.
pub open spec fn survives(before: &Fleet, after: &Fleet, i: int) -> bool {
    exists|k: int| 0 <= k < after.rows@.len() && #[trigger] moved(before, after, i, k)
}

/// Putting the rows in another order loses and repeats none of them, and every
/// row keeps its own history.
pub proof fn a_reorder_keeps_every_row(before: &Fleet, after: &Fleet, order: Seq<usize>)
    requires
        reordered(before, after, order),
    ensures
        after.rows@.to_multiset() == before.rows@.to_multiset(),
        forall|i: int| 0 <= i < before.rows@.len() ==> #[trigger] survives(before, after, i),
{
    let n = before.rows@.len() as int;
    assert(before.rows@.len() == before.rows.len());
    assert forall|i: int| 0 <= i < n implies #[trigger] survives(before, after, i) by {
        lemma_every_index_occurs(order, n, i);
        let k = choose|k: int| 0 <= k < order.len() && order[k] == i;
        assert(after.rows@[k] == before.rows@[order[k] as int]);
        assert(moved(before, after, i, k));
    }
    lemma_same_multiset(before.rows@, after.rows@, order);
}

/// A permutation of the indices below `n` has every one of them.
proof fn lemma_every_index_occurs(order: Seq<usize>, n: int, i: int)
    requires
        is_permutation(order, n as nat),
        0 <= i < n <= usize::MAX,
    ensures
        exists|k: int| 0 <= k < order.len() && order[k] == i,
{
    let ints = Seq::new(order.len(), |k: int| order[k] as int);
    assert(ints.no_duplicates()) by {
        assert forall|a: int, b: int| 0 <= a < ints.len() && 0 <= b < ints.len() && a != b implies ints[a]
            != ints[b] by {
            assert(order[a] != order[b]);
        }
    }
    ints.unique_seq_to_set();
    vstd::set_lib::lemma_int_range(0, n);
    assert(ints.to_set().subset_of(vstd::set_lib::set_int_range(0, n))) by {
        assert forall|x: int| ints.to_set().contains(x) implies vstd::set_lib::set_int_range(
            0,
            n,
        ).contains(x) by {
            let k = choose|k: int| 0 <= k < ints.len() && ints[k] == x;
            assert(order[k] < n);
        }
    }
    vstd::set_lib::lemma_subset_equality(ints.to_set(), vstd::set_lib::set_int_range(0, n));
    assert(ints.to_set().contains(i));
    let k = choose|k: int| 0 <= k < ints.len() && ints[k] == i;
    assert(order[k] == i);
}

/// Rows in another order are the same rows.
proof fn lemma_same_multiset(a: Seq<NetVehicle>, b: Seq<NetVehicle>, order: Seq<usize>)
    requires
        is_permutation(order, a.len()),
        a.len() <= usize::MAX,
        b.len() == a.len(),
        forall|k: int| 0 <= k < order.len() ==> #[trigger] b[k] == a[order[k] as int],
    ensures
        b.to_multiset() == a.to_multiset(),
    decreases a.len(),
{
    broadcast use vstd::seq_lib::group_to_multiset_ensures;

    let n = a.len() as int;
    if n == 0 {
        assert(a =~= b);
    } else {
        // take the last of `a` out of both
        lemma_every_index_occurs(order, n, n - 1);
        let k = choose|k: int| 0 <= k < order.len() && order[k] == n - 1;
        let a1 = a.drop_last();
        let b1 = b.remove(k);
        let o1 = order.remove(k);
        assert forall|j: int| 0 <= j < o1.len() implies #[trigger] o1[j] < n - 1 && b1[j]
            == a1[o1[j] as int] by {
            let old_j = if j < k {
                j
            } else {
                j + 1
            };
            assert(o1[j] == order[old_j]);
            assert(order[old_j] != order[k]);
            assert(order[old_j] < n);
            assert(b1[j] == b[old_j]);
            assert(b[old_j] == a[order[old_j] as int]);
        }
        assert(o1.no_duplicates()) by {
            assert forall|x: int, y: int| 0 <= x < o1.len() && 0 <= y < o1.len() && x != y implies o1[x]
                != o1[y] by {
                let ox = if x < k {
                    x
                } else {
                    x + 1
                };
                let oy = if y < k {
                    y
                } else {
                    y + 1
                };
                assert(order[ox] != order[oy]);
            }
        }
        lemma_same_multiset(a1, b1, o1);
        assert(a =~= a1.push(a[n - 1]));
        assert(b[k] == a[n - 1]);
        assert(b =~= b1.insert(k, b[k]));
        assert(b.to_multiset() =~= b1.to_multiset().insert(b[k]));
        assert(a.to_multiset() =~= a1.to_multiset().insert(a[n - 1]));
    }
}

} // verus!
