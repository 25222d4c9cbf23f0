//! What stands beside the road: ramp meters, bus stops, railway crossings,
//! stop-line detectors and signal plans; and the counts of vehicles by link that
//! steer them.

use vstd::prelude::*;
use std::collections::HashMap;
use crate::fleet::NetVehicle;
use crate::network::{LaneId, LinkId, MovementId, Network, NodeId, RoadKind};
use crate::neighbors::MOVING_SPEED;
use crate::paths::nth_lane;
use crate::quantity::{place, Quantity, ZERO};
use crate::search::{count_where, first_index, indices_where, last_index, least_index, lemma_count_bounds, lemma_first_index_agree, lemma_first_index_is, lemma_first_index_none, lemma_indices, lemma_least, lemma_least_step};
use crate::topology::stop_on;
use crate::world::{BusDwell, NetWorld, RampMeter};

verus! {

broadcast use vstd::std_specs::hash::group_hash_axioms;

/// Noon: from here on the evening plan runs. Place of 43200 s.
pub const NOON: i64 = 0x40E5_1800_0000_0000;

/// The rate a meter starts with. Place of 900 vehicles per hour.
pub const METER_START_VPH: i64 = 0x408C_2000_0000_0000;

/// How often a meter's rate adapts. Place of 30 s.
pub const METER_PERIOD_SECS: i64 = 0x403E_0000_0000_0000;

/// A vehicle this long or longer is a bus. Place of 11 m.
pub const BUS_LENGTH: i64 = 0x4026_0000_0000_0000;

/// A bus this close to a stop has arrived. Place of 3.5 m.
pub const STOP_REACH: i64 = 0x400C_0000_0000_0000;

/// Ticks between two sweeps of the service state of buses that have left.
pub const BUS_SWEEP: u64 = 1024;

/// Places of the hours at which the train timetable changes.
pub const HOUR_5: i64 = 0x4014_0000_0000_0000;

pub const HOUR_6: i64 = 0x4018_0000_0000_0000;

pub const HOUR_9: i64 = 0x4022_0000_0000_0000;

pub const HOUR_16: i64 = 0x4030_0000_0000_0000;

pub const HOUR_19: i64 = 0x4033_0000_0000_0000;

/// Multipliers of the congestion fingerprint.
pub const LINK_MIX: u64 = 0x9e37_79b9_7f4a_7c15;

pub const BAND_MIX: u64 = 0x100_0000_01b3;

/// What is measured of a meter after a step of the clock.
#[derive(Clone, Copy, Debug, PartialEq, Eq, Structural)]
pub struct MeterSums {
    /// Time since the last adaptation.
    pub since: Quantity,
    /// Time into the cycle.
    pub cycle: Quantity,
    /// The rate it would adapt to.
    pub rate: Quantity,
    /// The length of a cycle at the rate it has, and at the one it would adapt to.
    pub headway_kept: Quantity,
    pub headway_adapted: Quantity,
}

/// What is measured of a bus on a link.
#[derive(Clone, Copy, Debug, PartialEq, Eq, Structural)]
pub struct BusView {
    /// Just behind its place on the link: stops at or before it are passed.
    pub passed: Quantity,
    /// Just beyond the stop it served last: stops up to it are served.
    pub served: Quantity,
}

/// Where a bus has to hold.
#[derive(Clone, Copy, Debug, PartialEq, Eq, Structural)]
pub enum BusHold {
    Nowhere,
    /// Here, serving a stop.
    Here,
    /// At the stop with this index.
    At(usize),
}

/// How many trains an hour close the crossings: ten at the commuter peaks, one
/// at night, four otherwise.
pub open spec fn trains_per_hour(hour: Quantity) -> int {
    if (place(HOUR_6).is_at_most(hour) && hour.is_below(place(HOUR_9))) || (place(HOUR_16).is_at_most(
        hour,
    ) && hour.is_below(place(HOUR_19))) {
        10
    } else if hour.is_below(place(HOUR_5)) {
        1
    } else {
        4
    }
}

/// How many trains an hour close the crossings at an hour of the day.
pub fn closures_per_hour(hour: Quantity) -> (r: u32)
    ensures
        r == trains_per_hour(hour),
{
    if (Quantity::at(HOUR_6).at_most(hour) && hour.below(Quantity::at(HOUR_9))) || (Quantity::at(
        HOUR_16,
    ).at_most(hour) && hour.below(Quantity::at(HOUR_19))) {
        10
    } else if hour.below(Quantity::at(HOUR_5)) {
        1
    } else {
        4
    }
}

/// Of the movements of a lane: it lands on a freeway.
pub open spec fn joins_freeway(net: &Network, lane: LaneId) -> spec_fn(int) -> bool {
    |k: int| net.link_at(net.landing_link(net.nth_movement(lane, k))).kind == RoadKind::Freeway
}

/// The lane's first movement onto a freeway.
pub open spec fn freeway_movement(net: &Network, lane: LaneId) -> Option<MovementId> {
    match first_index(0, net.lane_at(lane).movement_count as int, joins_freeway(net, lane)) {
        Some(k) => Some(net.nth_movement(lane, k)),
        None => None,
    }
}

/// Of the lanes of a link: some movement of it lands on a freeway.
pub open spec fn lane_joins_freeway(net: &Network, link: LinkId) -> spec_fn(int) -> bool {
    |k: int| freeway_movement(net, nth_lane(net, link, k)) is Some
}

/// The movement by which a link merges onto a freeway.
pub open spec fn freeway_merge(net: &Network, link: LinkId) -> Option<MovementId> {
    match first_index(0, net.link_at(link).lane_count as int, lane_joins_freeway(net, link)) {
        Some(k) => freeway_movement(net, nth_lane(net, link, k)),
        None => None,
    }
}

/// Of a link: another one, of the freeway, that ends at the node.
pub open spec fn feeds_node(net: &Network, ramp: LinkId, node: NodeId) -> spec_fn(int) -> bool {
    |f: int|
        f != ramp.0 && net.links@[f].kind == RoadKind::Freeway && net.links@[f].to == node
}

/// The meter of a ramp: its mainline is the freeway link that feeds the merge,
/// or the one beyond where none does.
pub open spec fn meter_for(net: &Network, link: LinkId) -> Option<RampMeter> {
    if net.link_at(link).kind != RoadKind::Ramp || freeway_merge(net, link) is None {
        None
    } else {
        let m = freeway_merge(net, link)->0;
        let feeder = first_index(
            0,
            net.links@.len() as int,
            feeds_node(net, link, net.movement_at(m).node),
        );
        Some(
            RampMeter {
                ramp: link,
                mainline: match feeder {
                    Some(f) => LinkId(f as u32),
                    None => net.landing_link(m),
                },
                rate_vph: place(METER_START_VPH),
                cycle_t: place(ZERO),
                since_update: place(ZERO),
            },
        )
    }
}

/// The meters of the first `n` links, in order.
pub open spec fn meters_upto(net: &Network, n: int) -> Seq<RampMeter>
    decreases n,
{
    if n <= 0 {
        Seq::empty()
    } else {
        match meter_for(net, LinkId((n - 1) as u32)) {
            Some(m) => meters_upto(net, n - 1).push(m),
            None => meters_upto(net, n - 1),
        }
    }
}

/// A meter after a step of the clock: the rate adapts once a period, and the
/// cycle starts anew once its length has passed.
pub open spec fn meter_after(m: RampMeter, s: MeterSums) -> RampMeter {
    let due = place(METER_PERIOD_SECS).is_at_most(s.since);
    let headway = if due {
        s.headway_adapted
    } else {
        s.headway_kept
    };
    RampMeter {
        rate_vph: if due {
            s.rate
        } else {
            m.rate_vph
        },
        since_update: if due {
            place(ZERO)
        } else {
            s.since
        },
        cycle_t: if headway.is_at_most(s.cycle) {
            place(ZERO)
        } else {
            s.cycle
        },
        ..m
    }
}

/// What a busy link adds to the fingerprint.
pub open spec fn fingerprint_term(link: u32, band: u64) -> u64 {
    (link as u64).wrapping_mul(LINK_MIX) ^ ((band + 1) as u64).wrapping_mul(BAND_MIX)
}

/// The terms of the first `n` links that have vehicles and a band above zero.
pub open spec fn fingerprint_sum(counts: Seq<u32>, bands: Seq<u64>, n: int) -> int
    decreases n,
{
    if n <= 0 {
        0
    } else {
        fingerprint_sum(counts, bands, n - 1) + if counts[n - 1] > 0 && bands[n - 1] > 0 {
            fingerprint_term((n - 1) as u32, bands[n - 1]) as int
        } else {
            0
        }
    }
}

/// Without vehicles, and while no link reaches the first band, there is nothing
/// to tell apart: the sum is zero.
pub proof fn light_traffic_leaves_no_fingerprint(counts: Seq<u32>, bands: Seq<u64>, n: int)
    requires
        forall|l: int| 0 <= l < n ==> counts[l] == 0 || #[trigger] bands[l] == 0,
    ensures
        fingerprint_sum(counts, bands, n) == 0,
    decreases n,
{
    if n > 0 {
        assert(counts[n - 1] == 0 || bands[n - 1] == 0);
        light_traffic_leaves_no_fingerprint(counts, bands, n - 1);
    }
}

/// A change of density that leaves every busy link in its band leaves the
/// fingerprint as it is.
pub proof fn the_fingerprint_depends_on_the_bands_alone(
    a: Seq<u32>,
    b: Seq<u32>,
    bands: Seq<u64>,
    n: int,
)
    requires
        forall|l: int| 0 <= l < n ==> (a[l] > 0 <==> #[trigger] b[l] > 0),
    ensures
        fingerprint_sum(a, bands, n) == fingerprint_sum(b, bands, n),
    decreases n,
{
    if n > 0 {
        assert(a[n - 1] > 0 <==> b[n - 1] > 0);
        the_fingerprint_depends_on_the_bands_alone(a, b, bands, n - 1);
    }
}

impl NetWorld {
    /// Of a row: its vehicle is on the link.
    pub open spec fn on_link(&self, link: LinkId) -> spec_fn(int) -> bool {
        |i: int| self.network.link_of(self.rows()[i].lane) == link
    }

    /// How many vehicles each link has.
    pub open spec fn link_tally(&self) -> Seq<u32> {
        Seq::new(
            self.network.links@.len(),
            |l: int| count_where(self.rows().len() as int, self.on_link(LinkId(l as u32))) as u32,
        )
    }

    /// Of a row: its vehicle rolls on the link, outside any node.
    pub open spec fn rolls_on_link(&self, link: LinkId) -> spec_fn(int) -> bool {
        |i: int|
            self.rows()[i].crossing is None && self.network.link_of(self.rows()[i].lane) == link
    }

    /// A long vehicle outside any node.
    pub open spec fn is_rolling_bus(v: &NetVehicle) -> bool {
        !v.driver.vehicle_length.is_below(place(BUS_LENGTH)) && v.crossing is None
    }

    /// By this service state the stop was served: it lies on the link of the bus's
    /// last stop, not beyond it.
    pub open spec fn is_served_stop(
        d: Map<u32, BusDwell>,
        id: u32,
        link: LinkId,
        arc: Quantity,
        served: Quantity,
    ) -> bool {
        d.contains_key(id) && d[id].link == link && arc.is_at_most(served)
    }

    /// By this service state the bus still stands at its stop.
    pub open spec fn dwells(&self, d: Map<u32, BusDwell>, id: u32) -> bool {
        d.contains_key(id) && self.tick < d[id].until
    }

    /// The stop lies ahead of the bus and is not served yet.
    pub open spec fn awaits(&self, v: &NetVehicle, g: BusView, arc: Quantity) -> bool {
        g.passed.is_below(arc) && !Self::is_served_stop(
            self.bus_dwell@,
            v.id,
            self.network.link_of(v.lane),
            arc,
            g.served,
        )
    }

    /// Of the stops of the bus's link: how far along one that it has yet to serve is.
    pub open spec fn stop_ahead(&self, v: &NetVehicle, g: BusView) -> spec_fn(int) -> Option<int> {
        |k: int|
            {
                let link = self.network.link_of(v.lane);
                let arc = self.network.bus_stops@[self.topology.stops_by_link@[link.0 as int]@[k] as int].arc;
                if self.awaits(v, g, arc) {
                    Some(arc.rank())
                } else {
                    None
                }
            }
    }

    /// Where the bus has to hold: here while it serves a stop, else at its next
    /// unserved one on the link.
    pub open spec fn bus_hold(&self, v: &NetVehicle, g: BusView) -> BusHold {
        let stops = self.topology.stops_by_link@[self.network.link_of(v.lane).0 as int]@;
        if !Self::is_rolling_bus(v) {
            BusHold::Nowhere
        } else if self.dwells(self.bus_dwell@, v.id) {
            BusHold::Here
        } else {
            match least_index(stops.len() as int, self.stop_ahead(v, g)) {
                Some(k) => BusHold::At(stops[k]),
                None => BusHold::Nowhere,
            }
        }
    }

    /// Of the stops of the bus's link: within reach and not served yet.
    pub open spec fn is_reached_stop(
        &self,
        d: Map<u32, BusDwell>,
        v: &NetVehicle,
        served: Quantity,
        dists: Seq<Quantity>,
    ) -> spec_fn(int) -> bool {
        |k: int|
            {
                let link = self.network.link_of(v.lane);
                let arc = self.network.bus_stops@[self.topology.stops_by_link@[link.0 as int]@[k] as int].arc;
                dists[k].is_below(place(STOP_REACH)) && !Self::is_served_stop(
                    d,
                    v.id,
                    link,
                    arc,
                    served,
                )
            }
    }

    /// The stop at which a standing bus starts its service.
    pub open spec fn arrives_at(
        &self,
        d: Map<u32, BusDwell>,
        v: &NetVehicle,
        served: Quantity,
        dists: Seq<Quantity>,
    ) -> Option<usize> {
        let stops = self.topology.stops_by_link@[self.network.link_of(v.lane).0 as int]@;
        if !Self::is_rolling_bus(v) || self.dwells(d, v.id) || place(MOVING_SPEED).is_below(v.speed) {
            None
        } else {
            match first_index(
                0,
                stops.len() as int,
                self.is_reached_stop(d, v, served, dists),
            ) {
                Some(k) => Some(stops[k]),
                None => None,
            }
        }
    }

    /// The service state once the first `n` vehicles have been looked at, each
    /// that arrives at a stop beginning its service.
    pub open spec fn services_upto(
        &self,
        served: Seq<Quantity>,
        dists: Seq<Vec<Quantity>>,
        ticks: u64,
        n: int,
    ) -> Map<u32, BusDwell>
        decreases n,
    {
        if n <= 0 {
            self.bus_dwell@
        } else {
            let d = self.services_upto(served, dists, ticks, n - 1);
            let v = &self.rows()[n - 1];
            match self.arrives_at(d, v, served[n - 1], dists[n - 1]@) {
                Some(s) => d.insert(
                    v.id,
                    BusDwell {
                        until: (self.tick + ticks) as u64,
                        link: self.network.bus_stops@[s as int].link,
                        arc: self.network.bus_stops@[s as int].arc,
                    },
                ),
                None => d,
            }
        }
    }

    /// The table has an entry for every stop of a vehicle's link.
    pub open spec fn stop_dists_fit(&self, v: &NetVehicle, dists: Seq<Quantity>) -> bool {
        dists.len() == self.topology.stops_by_link@[self.network.link_of(v.lane).0 as int]@.len()
    }

    /// The part of a service state that belongs to vehicles on the network.
    pub open spec fn living(&self, d: Map<u32, BusDwell>) -> Map<u32, BusDwell> {
        Map::new(|id: u32| d.contains_key(id) && self.has_vehicle(id), |id: u32| d[id])
    }

    /// A vehicle with this id is on the network.
    pub open spec fn has_vehicle(&self, id: u32) -> bool {
        exists|i: int| 0 <= i < self.rows().len() && (#[trigger] self.rows()[i]).id == id
    }

    /// Some vehicle of the lane is within reach of its detector.
    pub open spec fn calls(&self, lane: LaneId, to_end: Seq<Quantity>, reach: Quantity) -> bool {
        exists|i: int|
            0 <= i < self.rows().len() && (#[trigger] self.rows()[i]).lane == lane
                && to_end[i].is_below(reach)
    }

    /// Of the preemptions: it is this program's, and its crossing is closed.
    pub open spec fn preempts(&self, program: u32) -> spec_fn(int) -> bool {
        |k: int|
            self.topology.rail_preempts@[k].program == program && self.train_passes(
                self.topology.rail_preempts@[k].crossing,
            )
    }

    /// The phase that a passing train forces on a program.
    pub open spec fn forced_phase(&self, program: u32) -> Option<usize> {
        match last_index(
            self.topology.rail_preempts@.len() as int,
            self.preempts(program),
        ) {
            Some(k) => Some(self.topology.rail_preempts@[k].phase),
            None => None,
        }
    }
}

impl NetWorld {
    /// How many vehicles each link has, those inside a node counting for the
    /// link they come from.
    pub fn link_counts(&self) -> (r: Vec<u32>)
        requires
            self.wf(),
            self.rows().len() <= u32::MAX,
        ensures
            r@.len() == self.network.links@.len(),
            forall|l: int|
                0 <= l < r@.len() ==> #[trigger] r@[l] == count_where(
                    self.rows().len() as int,
                    self.on_link(LinkId(l as u32)),
                ),
    {
        let mut out: Vec<u32> = vec![0u32; self.network.links.len()];
        let mut i: usize = 0;
        while i < self.fleet.rows.len()
            invariant
                self.wf(),
                self.rows().len() <= u32::MAX,
                i <= self.rows().len(),
                out@.len() == self.network.links@.len(),
                forall|l: int|
                    0 <= l < out@.len() ==> #[trigger] out@[l] == count_where(
                        i as int,
                        self.on_link(LinkId(l as u32)),
                    ),
            decreases self.rows().len() - i,
        {
            assert(self.rows()[i as int].placed(&self.network));
            let lane = self.fleet.rows[i].lane;
            assert(self.network.lane_ok(lane.0 as int));
            let link = self.network.lane(lane).link.0 as usize;
            let ghost before = out@;
            proof {
                lemma_count_bounds(i as int, self.on_link(LinkId(link as u32)));
            }
            out[link] = out[link] + 1;
            assert forall|l: int| 0 <= l < out@.len() implies #[trigger] out@[l] == count_where(
                i + 1,
                self.on_link(LinkId(l as u32)),
            ) by {
                assert(before[l] == count_where(i as int, self.on_link(LinkId(l as u32))));
            }
            i += 1;
        }
        out
    }

    /// How many vehicles roll on each link, outside any node.
    pub fn rolling_counts(&self) -> (r: Vec<u32>)
        requires
            self.wf(),
            self.rows().len() <= u32::MAX,
        ensures
            r@.len() == self.network.links@.len(),
            forall|l: int|
                0 <= l < r@.len() ==> #[trigger] r@[l] == count_where(
                    self.rows().len() as int,
                    self.rolls_on_link(LinkId(l as u32)),
                ),
    {
        let mut out: Vec<u32> = vec![0u32; self.network.links.len()];
        let mut i: usize = 0;
        while i < self.fleet.rows.len()
            invariant
                self.wf(),
                self.rows().len() <= u32::MAX,
                i <= self.rows().len(),
                out@.len() == self.network.links@.len(),
                forall|l: int|
                    0 <= l < out@.len() ==> #[trigger] out@[l] == count_where(
                        i as int,
                        self.rolls_on_link(LinkId(l as u32)),
                    ),
            decreases self.rows().len() - i,
        {
            assert(self.rows()[i as int].placed(&self.network));
            let lane = self.fleet.rows[i].lane;
            assert(self.network.lane_ok(lane.0 as int));
            let link = self.network.lane(lane).link.0 as usize;
            let ghost before = out@;
            if self.fleet.rows[i].crossing.is_none() {
                proof {
                    lemma_count_bounds(i as int, self.rolls_on_link(LinkId(link as u32)));
                }
                out[link] = out[link] + 1;
            }
            assert forall|l: int| 0 <= l < out@.len() implies #[trigger] out@[l] == count_where(
                i + 1,
                self.rolls_on_link(LinkId(l as u32)),
            ) by {
                assert(before[l] == count_where(i as int, self.rolls_on_link(LinkId(l as u32))));
            }
            i += 1;
        }
        out
    }

    /// The rows whose vehicles are on a link.
    pub fn link_vehicles(&self, link: LinkId) -> (r: Vec<usize>)
        requires
            self.wf(),
        ensures
            r@ == indices_where(self.rows().len() as int, self.on_link(link)),
    {
        let mut out: Vec<usize> = Vec::new();
        let mut i: usize = 0;
        while i < self.fleet.rows.len()
            invariant
                self.wf(),
                i <= self.rows().len(),
                out@ == indices_where(i as int, self.on_link(link)),
            decreases self.rows().len() - i,
        {
            assert(self.rows()[i as int].placed(&self.network));
            if self.network.lane(self.fleet.rows[i].lane).link == link {
                out.push(i);
            }
            i += 1;
        }
        out
    }

    /// A fingerprint of the links that carry enough traffic to shift routing
    /// costs: a sum, so that no order matters, over the links with vehicles whose
    /// measured density band is above zero.
    pub fn congestion_fingerprint(&self, bands: &Vec<u64>) -> (r: u64)
        requires
            self.wf(),
            self.rows().len() <= u32::MAX,
            bands@.len() == self.network.links@.len(),
            forall|l: int| 0 <= l < bands@.len() ==> #[trigger] bands@[l] < u64::MAX,
        ensures
            r == fingerprint_sum(self.link_tally(), bands@, self.network.links@.len() as int)
                % 0x1_0000_0000_0000_0000,
    {
        let counts = self.link_counts();
        assert(counts@ =~= self.link_tally());
        let mut h: u64 = 0;
        let mut l: usize = 0;
        while l < counts.len()
            invariant
                self.wf(),
                counts@.len() == self.network.links@.len(),
                bands@.len() == counts@.len(),
                forall|k: int| 0 <= k < bands@.len() ==> #[trigger] bands@[k] < u64::MAX,
                l <= counts@.len(),
                h == fingerprint_sum(counts@, bands@, l as int) % 0x1_0000_0000_0000_0000,
            decreases counts@.len() - l,
        {
            if counts[l] > 0 && bands[l] > 0 {
                let band: u64 = bands[l] + 1;
                let term: u64 = (l as u64).wrapping_mul(LINK_MIX) ^ band.wrapping_mul(BAND_MIX);
                assert(term == fingerprint_term(l as u32, bands@[l as int]));
                let ghost s = fingerprint_sum(counts@, bands@, l as int);
                proof {
                    vstd::arithmetic::div_mod::lemma_add_mod_noop(
                        s,
                        term as int,
                        0x1_0000_0000_0000_0000,
                    );
                    vstd::arithmetic::div_mod::lemma_small_mod(
                        term as nat,
                        0x1_0000_0000_0000_0000,
                    );
                }
                h = h.wrapping_add(term);
            }
            l += 1;
        }
        h
    }
}

impl NetWorld {
    /// Take the simulated time of day: seconds since midnight, and seconds since
    /// the last train was due. From noon on the coordinated signals run their
    /// evening offsets, before it their morning ones.
    pub fn set_day_secs(&mut self, day_secs: Quantity, rail_since: Quantity)
        requires
            old(self).wf(),
        ensures
            final(self).wf(),
            ({
                let pm = place(NOON).is_at_most(day_secs);
                let switched = pm != old(self).pm_plan && old(self).network.am_offsets@.len() > 0;
                &&& *final(self) == (NetWorld {
                    day_secs,
                    rail_since,
                    pm_plan: if switched {
                        pm
                    } else {
                        old(self).pm_plan
                    },
                    offsets: final(self).offsets,
                    ..*old(self)
                })
                &&& final(self).offsets@.len() == old(self).offsets@.len()
                &&& forall|p: int|
                    0 <= p < old(self).offsets@.len() ==> #[trigger] final(self).offsets@[p] == (
                    if switched && old(self).network.programs@[p].coordinated {
                        if pm {
                            old(self).network.pm_offsets@[p]
                        } else {
                            old(self).network.am_offsets@[p]
                        }
                    } else {
                        old(self).offsets@[p]
                    })
            }),
    {
        self.day_secs = day_secs;
        self.rail_since = rail_since;
        let pm = Quantity::at(NOON).at_most(day_secs);
        if pm != self.pm_plan && self.network.am_offsets.len() > 0 {
            self.pm_plan = pm;
            let ghost start = self.offsets@;
            let mut p: usize = 0;
            while p < self.offsets.len()
                invariant
                    old(self).wf(),
                    start == old(self).offsets@,
                    self.offsets@.len() == start.len(),
                    self.network == old(self).network,
                    self.network.am_offsets@.len() > 0,
                    *self == (NetWorld {
                        day_secs,
                        rail_since,
                        pm_plan: pm,
                        offsets: self.offsets,
                        ..*old(self)
                    }),
                    p <= start.len(),
                    forall|k: int|
                        0 <= k < p ==> #[trigger] self.offsets@[k] == (
                        if self.network.programs@[k].coordinated {
                            if pm {
                                self.network.pm_offsets@[k]
                            } else {
                                self.network.am_offsets@[k]
                            }
                        } else {
                            start[k]
                        }),
                    forall|k: int| p <= k < start.len() ==> #[trigger] self.offsets@[k] == start[k],
                decreases start.len() - p,
            {
                if self.network.programs[p].coordinated {
                    let at = if pm {
                        self.network.pm_offsets[p]
                    } else {
                        self.network.am_offsets[p]
                    };
                    self.offsets[p] = at;
                }
                p += 1;
            }
        }
    }

    fn find_freeway_movement(&self, lane: LaneId) -> (r: Option<MovementId>)
        requires
            self.network.wf(),
            self.network.has_lane(lane),
        ensures
            r == freeway_movement(&self.network, lane),
            r matches Some(m) ==> self.network.has_movement(m),
    {
        let net = &self.network;
        assert(net.lane_ok(lane.0 as int));
        let l = net.lane(lane);
        let mut k: u32 = 0;
        while k < l.movement_count
            invariant
                *net == self.network,
                net.wf(),
                net.has_lane(lane),
                net.lane_ok(lane.0 as int),
                *l == net.lane_at(lane),
                k <= l.movement_count,
                forall|j: int| 0 <= j < k ==> !#[trigger] joins_freeway(net, lane)(j),
            decreases l.movement_count - k,
        {
            let m = MovementId(l.movement_start.0 + k);
            assert(m == net.nth_movement(lane, k as int));
            assert(net.movement_ok(m.0 as int));
            let to = net.movement(m).to_lane;
            assert(net.lane_ok(to.0 as int));
            if net.link(net.lane(to).link).kind == RoadKind::Freeway {
                proof {
                    lemma_first_index_is(
                        0,
                        l.movement_count as int,
                        joins_freeway(net, lane),
                        k as int,
                    );
                }
                return Some(m);
            }
            k += 1;
        }
        proof {
            lemma_first_index_none(0, l.movement_count as int, joins_freeway(net, lane));
        }
        None
    }

    fn find_freeway_merge(&self, link: LinkId) -> (r: Option<MovementId>)
        requires
            self.network.wf(),
            self.network.has_link(link),
        ensures
            r == freeway_merge(&self.network, link),
            r matches Some(m) ==> self.network.has_movement(m),
    {
        let net = &self.network;
        assert(net.link_ok(link.0 as int));
        let l = net.link(link);
        let mut k: u32 = 0;
        while k < l.lane_count
            invariant
                *net == self.network,
                net.wf(),
                net.has_link(link),
                net.link_ok(link.0 as int),
                *l == net.link_at(link),
                k <= l.lane_count,
                forall|j: int| 0 <= j < k ==> !#[trigger] lane_joins_freeway(net, link)(j),
            decreases l.lane_count - k,
        {
            let lane = LaneId(l.lane_start.0 + k);
            assert(lane == nth_lane(net, link, k as int));
            let found = self.find_freeway_movement(lane);
            if found.is_some() {
                proof {
                    lemma_first_index_is(
                        0,
                        l.lane_count as int,
                        lane_joins_freeway(net, link),
                        k as int,
                    );
                }
                return found;
            }
            k += 1;
        }
        proof {
            lemma_first_index_none(0, l.lane_count as int, lane_joins_freeway(net, link));
        }
        None
    }

    fn make_meter(&self, link: LinkId) -> (r: Option<RampMeter>)
        requires
            self.network.wf(),
            self.network.has_link(link),
        ensures
            r == meter_for(&self.network, link),
            r matches Some(m) ==> self.network.has_link(m.ramp) && self.network.has_link(m.mainline),
    {
        let net = &self.network;
        if net.link(link).kind != RoadKind::Ramp {
            return None;
        }
        let m = match self.find_freeway_merge(link) {
            Some(m) => m,
            None => {
                return None;
            },
        };
        assert(net.movement_ok(m.0 as int));
        let node = net.movement(m).node;
        let to = net.movement(m).to_lane;
        assert(net.lane_ok(to.0 as int));
        let ghost p = feeds_node(net, link, node);
        let mut mainline = net.lane(to).link;
        let mut f: usize = 0;
        let mut open: bool = true;
        while open && f < net.links.len()
            invariant
                *net == self.network,
                net.wf(),
                p == feeds_node(net, link, node),
                f <= net.links@.len(),
                net.has_link(mainline),
                open ==> mainline == net.landing_link(m) && forall|j: int| 0 <= j < f ==> !#[trigger] p(j),
                !open ==> first_index(0, net.links@.len() as int, p) == Some(mainline.0 as int),
            decreases net.links@.len() - f + (if open {
                1int
            } else {
                0int
            }),
        {
            if f != link.0 as usize && net.links[f].kind == RoadKind::Freeway && net.links[f].to
                == node {
                open = false;
                mainline = LinkId(f as u32);
                proof {
                    lemma_first_index_is(0, net.links@.len() as int, p, f as int);
                }
            } else {
                f += 1;
            }
        }
        proof {
            if open {
                lemma_first_index_none(0, net.links@.len() as int, p);
            }
        }
        Some(
            RampMeter {
                ramp: link,
                mainline,
                rate_vph: Quantity::at(METER_START_VPH),
                cycle_t: Quantity::at(ZERO),
                since_update: Quantity::at(ZERO),
            },
        )
    }

    /// The meters that the network's ramps call for.
    pub fn build_ramp_meters(&self) -> (r: Vec<RampMeter>)
        requires
            self.network.wf(),
        ensures
            r@ == meters_upto(&self.network, self.network.links@.len() as int),
            forall|k: int|
                0 <= k < r@.len() ==> self.network.has_link((#[trigger] r@[k]).ramp)
                    && self.network.has_link(r@[k].mainline),
    {
        let mut out: Vec<RampMeter> = Vec::new();
        let mut l: usize = 0;
        while l < self.network.links.len()
            invariant
                self.network.wf(),
                l <= self.network.links@.len(),
                out@ == meters_upto(&self.network, l as int),
                forall|k: int|
                    0 <= k < out@.len() ==> self.network.has_link((#[trigger] out@[k]).ramp)
                        && self.network.has_link(out@[k].mainline),
            decreases self.network.links@.len() - l,
        {
            if let Some(m) = self.make_meter(LinkId(l as u32)) {
                out.push(m);
            }
            l += 1;
        }
        out
    }

    /// Turn ramp metering on or off. The meters are found when it is first
    /// turned on.
    pub fn set_ramp_metering(&mut self, on: bool)
        requires
            old(self).wf(),
        ensures
            final(self).wf(),
            *final(self) == (NetWorld {
                metering_on: on,
                meters: final(self).meters,
                ..*old(self)
            }),
            final(self).meters@ == (if on && old(self).meters@.len() == 0 {
                meters_upto(&old(self).network, old(self).network.links@.len() as int)
            } else {
                old(self).meters@
            }),
    {
        if on && self.meters.len() == 0 {
            self.meters = self.build_ramp_meters();
        }
        self.metering_on = on;
    }

    /// Whether ramp metering is on.
    pub fn ramp_metering(&self) -> (r: bool)
        ensures
            r == self.metering_on,
    {
        self.metering_on
    }

    /// How many metered ramps have been found.
    pub fn ramp_meter_count(&self) -> (r: usize)
        ensures
            r == self.meters@.len(),
    {
        self.meters.len()
    }

    /// Advance the meters by a step of the clock, given what is measured of each.
    pub fn advance_meters(&mut self, sums: &Vec<MeterSums>)
        requires
            old(self).wf(),
            sums@.len() == old(self).meters@.len(),
        ensures
            final(self).wf(),
            *final(self) == (NetWorld { meters: final(self).meters, ..*old(self) }),
            final(self).meters@.len() == old(self).meters@.len(),
            forall|k: int|
                0 <= k < old(self).meters@.len() ==> #[trigger] final(self).meters@[k] == (
                if old(self).metering_on {
                    meter_after(old(self).meters@[k], sums@[k])
                } else {
                    old(self).meters@[k]
                }),
    {
        if !self.metering_on {
            return;
        }
        let n = self.meters.len();
        let mut k: usize = 0;
        while k < n
            invariant
                old(self).wf(),
                n == old(self).meters@.len(),
                sums@.len() == n,
                self.meters@.len() == n,
                *self == (NetWorld { meters: self.meters, ..*old(self) }),
                k <= n,
                forall|j: int|
                    0 <= j < k ==> #[trigger] self.meters@[j] == meter_after(
                        old(self).meters@[j],
                        sums@[j],
                    ),
                forall|j: int| k <= j < n ==> #[trigger] self.meters@[j] == old(self).meters@[j],
            decreases n - k,
        {
            let m = self.meters[k];
            let s = sums[k];
            let due = Quantity::at(METER_PERIOD_SECS).at_most(s.since);
            let headway = if due {
                s.headway_adapted
            } else {
                s.headway_kept
            };
            self.meters[k] = RampMeter {
                ramp: m.ramp,
                mainline: m.mainline,
                rate_vph: if due {
                    s.rate
                } else {
                    m.rate_vph
                },
                since_update: if due {
                    Quantity::at(ZERO)
                } else {
                    s.since
                },
                cycle_t: if headway.at_most(s.cycle) {
                    Quantity::at(ZERO)
                } else {
                    s.cycle
                },
            };
            k += 1;
        }
        assert forall|j: int| 0 <= j < self.meters@.len() implies self.network.has_link(
            (#[trigger] self.meters@[j]).ramp,
        ) && self.network.has_link(self.meters@[j].mainline) by {
            assert(self.network.has_link(old(self).meters@[j].ramp));
        }
    }

    fn is_bus(v: &NetVehicle) -> (r: bool)
        ensures
            r == Self::is_rolling_bus(v),
    {
        !v.driver.vehicle_length.below(Quantity::at(BUS_LENGTH)) && v.crossing.is_none()
    }

    fn is_dwelling(&self, id: u32) -> (r: bool)
        ensures
            r == self.dwells(self.bus_dwell@, id),
    {
        match self.bus_dwell.get(&id) {
            Some(d) => self.tick < d.until,
            None => false,
        }
    }

    fn stop_served(&self, id: u32, link: LinkId, arc: Quantity, served: Quantity) -> (r: bool)
        ensures
            r == Self::is_served_stop(self.bus_dwell@, id, link, arc, served),
    {
        match self.bus_dwell.get(&id) {
            Some(d) => d.link == link && arc.at_most(served),
            None => false,
        }
    }

    /// Where a bus has to hold for its stops. The view holds what is measured of
    /// its place and of the stop it served last.
    pub fn bus_stop_line(&self, v: &NetVehicle, g: &BusView) -> (r: BusHold)
        requires
            self.wf(),
            v.placed(&self.network),
        ensures
            r == self.bus_hold(v, *g),
    {
        if !Self::is_bus(v) {
            return BusHold::Nowhere;
        }
        if self.is_dwelling(v.id) {
            return BusHold::Here;
        }
        assert(self.network.lane_ok(v.lane.0 as int));
        let link = self.network.lane(v.lane).link;
        let stops = &self.topology.stops_by_link[link.0 as usize];
        proof {
            self.lemma_stops(link);
        }
        let ghost ahead = self.stop_ahead(v, *g);
        let mut best: Option<usize> = None;
        let mut k: usize = 0;
        proof {
            lemma_least(0, ahead);
        }
        while k < stops.len()
            invariant
                self.wf(),
                link == self.network.link_of(v.lane),
                stops@ == self.topology.stops_by_link@[link.0 as int]@,
                forall|j: int|
                    0 <= j < stops@.len() ==> #[trigger] stops@[j] < self.network.bus_stops@.len(),
                k <= stops@.len(),
                ahead == self.stop_ahead(v, *g),
                least_index(k as int, ahead) == (match best {
                    Some(b) => Some(b as int),
                    None => None,
                }),
                best matches Some(b) ==> b < k && ahead(b as int) is Some,
            decreases stops@.len() - k,
        {
            let arc = self.network.bus_stops[stops[k]].arc;
            proof {
                lemma_least_step(k as int, ahead);
            }
            if g.passed.below(arc) && !self.stop_served(v.id, link, arc, g.served) {
                let nearer = match best {
                    Some(b) => arc.below(self.network.bus_stops[stops[b]].arc),
                    None => true,
                };
                if nearer {
                    best = Some(k);
                }
            }
            k += 1;
        }
        match best {
            Some(b) => BusHold::At(stops[b]),
            None => BusHold::Nowhere,
        }
    }

    proof fn lemma_stops(&self, link: LinkId)
        requires
            self.wf(),
            self.network.has_link(link),
        ensures
            forall|k: int|
                0 <= k < self.topology.stops_by_link@[link.0 as int]@.len() ==> #[trigger] self.topology.stops_by_link@[link.0 as int]@[k]
                    < self.network.bus_stops@.len(),
    {
        let p = stop_on(&self.network, LinkId(link.0 as u32));
        assert(self.network.bus_stops@.len() == self.network.bus_stops.len());
        lemma_indices(self.network.bus_stops@.len() as int, p);
        assert(self.topology.stops_by_link@[link.0 as int]@ == indices_where(
            self.network.bus_stops@.len() as int,
            p,
        ));
    }

    /// The stop at which a standing bus has arrived, by the measured distances to
    /// the stops of its link.
    pub fn bus_arrival(&self, v: &NetVehicle, served: Quantity, dists: &Vec<Quantity>) -> (r: Option<
        usize,
    >)
        requires
            self.wf(),
            v.placed(&self.network),
            self.stop_dists_fit(v, dists@),
        ensures
            r == self.arrives_at(self.bus_dwell@, v, served, dists@),
            r matches Some(s) ==> s < self.network.bus_stops@.len(),
    {
        if !Self::is_bus(v) || self.is_dwelling(v.id) || Quantity::at(MOVING_SPEED).below(v.speed) {
            return None;
        }
        assert(self.network.lane_ok(v.lane.0 as int));
        let link = self.network.lane(v.lane).link;
        let stops = &self.topology.stops_by_link[link.0 as usize];
        proof {
            self.lemma_stops(link);
        }
        let ghost p = self.is_reached_stop(self.bus_dwell@, v, served, dists@);
        let mut k: usize = 0;
        while k < stops.len()
            invariant
                self.wf(),
                link == self.network.link_of(v.lane),
                Self::is_rolling_bus(v) && !self.dwells(self.bus_dwell@, v.id),
                !place(MOVING_SPEED).is_below(v.speed),
                stops@ == self.topology.stops_by_link@[link.0 as int]@,
                dists@.len() == stops@.len(),
                p == self.is_reached_stop(self.bus_dwell@, v, served, dists@),
                forall|j: int|
                    0 <= j < stops@.len() ==> #[trigger] stops@[j] < self.network.bus_stops@.len(),
                k <= stops@.len(),
                forall|j: int| 0 <= j < k ==> !#[trigger] p(j),
            decreases stops@.len() - k,
        {
            let arc = self.network.bus_stops[stops[k]].arc;
            if dists[k].below(Quantity::at(STOP_REACH)) && !self.stop_served(
                v.id,
                link,
                arc,
                served,
            ) {
                proof {
                    lemma_first_index_is(0, stops@.len() as int, p, k as int);
                }
                return Some(stops[k]);
            }
            k += 1;
        }
        proof {
            lemma_first_index_none(0, stops@.len() as int, p);
        }
        None
    }

    /// Start a bus's service at a stop, for a number of ticks.
    pub fn start_dwell(&mut self, id: u32, stop: usize, ticks: u64)
        requires
            old(self).wf(),
            stop < old(self).network.bus_stops@.len(),
            old(self).tick + ticks <= u64::MAX,
        ensures
            final(self).wf(),
            *final(self) == (NetWorld { bus_dwell: final(self).bus_dwell, ..*old(self) }),
            final(self).bus_dwell@ == old(self).bus_dwell@.insert(
                id,
                BusDwell {
                    until: (old(self).tick + ticks) as u64,
                    link: old(self).network.bus_stops@[stop as int].link,
                    arc: old(self).network.bus_stops@[stop as int].arc,
                },
            ),
    {
        let s = self.network.bus_stops[stop];
        self.bus_dwell.insert(
            id,
            BusDwell { until: self.tick + ticks, link: s.link, arc: s.arc },
        );
    }

    /// Every standing bus that has arrived at a stop begins its service, for a
    /// number of ticks; and every so often the service state of those that have
    /// left is forgotten. Per vehicle the table holds the measured distances to
    /// the stops of its link, and how far the stops of the one served last reach.
    pub fn advance_bus_stops(
        &mut self,
        served: &Vec<Quantity>,
        dists: &Vec<Vec<Quantity>>,
        ticks: u64,
    )
        requires
            old(self).wf(),
            served@.len() == old(self).rows().len(),
            dists@.len() == old(self).rows().len(),
            forall|i: int|
                0 <= i < dists@.len() ==> old(self).stop_dists_fit(
                    &old(self).rows()[i],
                    (#[trigger] dists@[i])@,
                ),
            old(self).tick + ticks <= u64::MAX,
        ensures
            final(self).wf(),
            *final(self) == (NetWorld { bus_dwell: final(self).bus_dwell, ..*old(self) }),
            ({
                let all = old(self).services_upto(
                    served@,
                    dists@,
                    ticks,
                    old(self).rows().len() as int,
                );
                &&& old(self).tick % BUS_SWEEP != 0 ==> final(self).bus_dwell@ == all
                &&& old(self).tick % BUS_SWEEP == 0 ==> final(self).bus_dwell@ == old(self).living(
                    all,
                )
            }),
    {
        let n = self.fleet.rows.len();
        let mut i: usize = 0;
        while i < n
            invariant
                old(self).wf(),
                self.wf(),
                *self == (NetWorld { bus_dwell: self.bus_dwell, ..*old(self) }),
                n == self.rows().len(),
                served@.len() == n,
                dists@.len() == n,
                forall|k: int|
                    0 <= k < n ==> old(self).stop_dists_fit(
                        &old(self).rows()[k],
                        (#[trigger] dists@[k])@,
                    ),
                old(self).tick + ticks <= u64::MAX,
                i <= n,
                self.bus_dwell@ == old(self).services_upto(served@, dists@, ticks, i as int),
            decreases n - i,
        {
            assert(self.rows()[i as int].placed(&self.network));
            assert(old(self).stop_dists_fit(&old(self).rows()[i as int], dists@[i as int]@));
            let v = &self.fleet.rows[i];
            let id = v.id;
            let arrived = self.bus_arrival(v, served[i], &dists[i]);
            assert(arrived == old(self).arrives_at(
                self.bus_dwell@,
                &old(self).rows()[i as int],
                served@[i as int],
                dists@[i as int]@,
            )) by {
                let (s, d) = (served@[i as int], dists@[i as int]@);
                let row = &self.rows()[i as int];
                lemma_first_index_agree(
                    0,
                    self.topology.stops_by_link@[self.network.link_of(row.lane).0 as int]@.len() as int,
                    self.is_reached_stop(self.bus_dwell@, row, s, d),
                    old(self).is_reached_stop(self.bus_dwell@, row, s, d),
                );
            }
            if let Some(s) = arrived {
                self.start_dwell(id, s, ticks);
            }
            i += 1;
        }
        let ghost all = self.bus_dwell@;
        let ghost here = *self;
        self.sweep_bus_dwell();
        assert(here.living(all) =~= old(self).living(all));
    }

    /// Every so often, forget the service state of buses that have left.
    pub fn sweep_bus_dwell(&mut self)
        requires
            old(self).wf(),
        ensures
            final(self).wf(),
            *final(self) == (NetWorld { bus_dwell: final(self).bus_dwell, ..*old(self) }),
            old(self).tick % BUS_SWEEP != 0 ==> final(self).bus_dwell@ == old(self).bus_dwell@,
            old(self).tick % BUS_SWEEP == 0 ==> final(self).bus_dwell@ == old(self).living(
                old(self).bus_dwell@,
            ),
    {
        if self.tick % BUS_SWEEP != 0 {
            return;
        }
        let mut kept: HashMap<u32, BusDwell> = HashMap::new();
        let mut i: usize = 0;
        while i < self.fleet.rows.len()
            invariant
                *self == *old(self),
                i <= self.rows().len(),
                forall|id: u32|
                    (#[trigger] kept@.contains_key(id) <==> self.bus_dwell@.contains_key(id)
                        && exists|k: int|
                        0 <= k < i && (#[trigger] self.rows()[k]).id == id) && (kept@.contains_key(
                        id,
                    ) ==> kept@[id] == self.bus_dwell@[id]),
            decreases self.rows().len() - i,
        {
            let id = self.fleet.rows[i].id;
            let ghost before = kept@;
            if let Some(d) = self.bus_dwell.get(&id) {
                kept.insert(id, *d);
            }
            assert forall|x: u32|
                (#[trigger] kept@.contains_key(x) <==> self.bus_dwell@.contains_key(x) && exists|k: int|
                    0 <= k < i + 1 && (#[trigger] self.rows()[k]).id == x) && (kept@.contains_key(
                    x,
                ) ==> kept@[x] == self.bus_dwell@[x]) by {
                assert(before.contains_key(x) <==> self.bus_dwell@.contains_key(x) && exists|k: int|
                    0 <= k < i && (#[trigger] self.rows()[k]).id == x);
                if before.contains_key(x) {
                    let k = choose|k: int| 0 <= k < i && (#[trigger] self.rows()[k]).id == x;
                    assert(self.rows()[k].id == x);
                }
                if x == id {
                    assert(self.rows()[i as int].id == x);
                } else if self.bus_dwell@.contains_key(x) && exists|k: int|
                    0 <= k < i + 1 && (#[trigger] self.rows()[k]).id == x {
                    let k = choose|k: int| 0 <= k < i + 1 && (#[trigger] self.rows()[k]).id == x;
                    assert(k < i);
                    assert(self.rows()[k].id == x);
                }
            }
            i += 1;
        }
        self.bus_dwell = kept;
        assert(kept@ =~= old(self).living(old(self).bus_dwell@));
        assert forall|id: u32| #[trigger] self.bus_dwell@.contains_key(id) implies self.network.has_link(
        self.bus_dwell@[id].link) by {
            assert(kept@.contains_key(id));
            assert(old(self).bus_dwell@.contains_key(id));
        }
    }

    /// Which lanes' detectors call: those with a vehicle within reach of the line.
    pub fn lane_demand(&self, to_end: &Vec<Quantity>, reach: Quantity) -> (r: Vec<bool>)
        requires
            self.wf(),
            to_end@.len() == self.rows().len(),
        ensures
            r@.len() == self.network.lanes@.len(),
            forall|l: int|
                0 <= l < r@.len() ==> #[trigger] r@[l] == self.calls(
                    LaneId(l as u32),
                    to_end@,
                    reach,
                ),
    {
        let n = self.network.lanes.len();
        let mut out: Vec<bool> = vec![false; n];
        let mut i: usize = 0;
        while i < self.fleet.rows.len()
            invariant
                self.wf(),
                n == self.network.lanes@.len(),
                out@.len() == n,
                to_end@.len() == self.rows().len(),
                i <= self.rows().len(),
                forall|l: int|
                    0 <= l < n ==> (#[trigger] out@[l] <==> exists|k: int|
                        0 <= k < i && (#[trigger] self.rows()[k]).lane == LaneId(l as u32)
                            && to_end@[k].is_below(reach)),
            decreases self.rows().len() - i,
        {
            assert(self.rows()[i as int].placed(&self.network));
            let lane = self.fleet.rows[i].lane;
            let ghost before = out@;
            if to_end[i].below(reach) {
                out[lane.0 as usize] = true;
            }
            assert forall|l: int| 0 <= l < n implies (#[trigger] out@[l] <==> exists|k: int|
                0 <= k < i + 1 && (#[trigger] self.rows()[k]).lane == LaneId(l as u32)
                    && to_end@[k].is_below(reach)) by {
                assert(before[l] <==> exists|k: int|
                    0 <= k < i && (#[trigger] self.rows()[k]).lane == LaneId(l as u32)
                        && to_end@[k].is_below(reach));
                if before[l] {
                    let k = choose|k: int|
                        0 <= k < i && (#[trigger] self.rows()[k]).lane == LaneId(l as u32)
                            && to_end@[k].is_below(reach);
                    assert(self.rows()[k].lane == LaneId(l as u32));
                }
                if l == lane.0 && to_end@[i as int].is_below(reach) {
                    assert(self.rows()[i as int].lane == LaneId(l as u32));
                } else if exists|k: int|
                    0 <= k < i + 1 && (#[trigger] self.rows()[k]).lane == LaneId(l as u32)
                        && to_end@[k].is_below(reach) {
                    let k = choose|k: int|
                        0 <= k < i + 1 && (#[trigger] self.rows()[k]).lane == LaneId(l as u32)
                            && to_end@[k].is_below(reach);
                    assert(k < i);
                    assert(self.rows()[k].lane == LaneId(l as u32));
                }
            }
            i += 1;
        }
        out
    }

    /// The phase that a passing train forces on each signal program.
    pub fn forced_phases(&self) -> (r: Vec<Option<usize>>)
        requires
            self.wf(),
        ensures
            r@.len() == self.network.programs@.len(),
            forall|p: int|
                0 <= p < r@.len() ==> #[trigger] r@[p] == self.forced_phase(p as u32),
    {
        let n = self.network.programs.len();
        let mut out: Vec<Option<usize>> = vec![None; n];
        let preempts = &self.topology.rail_preempts;
        let mut k: usize = 0;
        while k < preempts.len()
            invariant
                self.wf(),
                n == self.network.programs@.len(),
                out@.len() == n,
                preempts@ == self.topology.rail_preempts@,
                k <= preempts@.len(),
                forall|p: int|
                    0 <= p < n ==> #[trigger] out@[p] == (match last_index(
                        k as int,
                        self.preempts(p as u32),
                    ) {
                        Some(x) => Some(preempts@[x].phase),
                        None => None,
                    }),
            decreases preempts@.len() - k,
        {
            let p = preempts[k];
            proof {
                assert(preempts@.contains(preempts@[k as int]));
                assert(crate::topology::is_preempt(&self.network, p));
                crate::topology::lemma_preempt_named(&self.network, p);
            }
            let ghost before = out@;
            if self.rail_closed(p.crossing) {
                out[p.program as usize] = Some(p.phase);
            }
            assert forall|x: int| 0 <= x < n implies #[trigger] out@[x] == (match last_index(
                k + 1,
                self.preempts(x as u32),
            ) {
                Some(y) => Some(preempts@[y].phase),
                None => None,
            }) by {
                assert(before[x] == (match last_index(k as int, self.preempts(x as u32)) {
                    Some(y) => Some(preempts@[y].phase),
                    None => None,
                }));
            }
            k += 1;
        }
        out
    }
}

/// A bus that has just served a stop is not held at it again, nor at any stop
/// of the link that the served reach covers.
pub proof fn a_served_stop_does_not_hold_again(w: &NetWorld, v: &NetVehicle, g: BusView)
    requires
        w.wf(),
        v.placed(&w.network),
        w.bus_dwell@.contains_key(v.id),
        w.bus_dwell@[v.id].link == w.network.link_of(v.lane),
        w.bus_hold(v, g) is At,
    ensures
        !w.network.bus_stops@[w.bus_hold(v, g)->At_0 as int].arc.is_at_most(g.served),
{
    let stops = w.topology.stops_by_link@[w.network.link_of(v.lane).0 as int]@;
    lemma_least(stops.len() as int, w.stop_ahead(v, g));
}

/// The stop that holds a bus is the first on its way that it has yet to serve:
/// no such stop of the link comes before it.
pub proof fn the_next_stop_holds(w: &NetWorld, v: &NetVehicle, g: BusView, s: int)
    requires
        w.wf(),
        v.placed(&w.network),
        w.bus_hold(v, g) is At,
        0 <= s < w.network.bus_stops@.len(),
        w.network.bus_stops@[s].link == w.network.link_of(v.lane),
        w.awaits(v, g, w.network.bus_stops@[s].arc),
    ensures
        w.network.bus_stops@[w.bus_hold(v, g)->At_0 as int].arc.is_at_most(
            w.network.bus_stops@[s].arc,
        ),
{
    let link = w.network.link_of(v.lane);
    assert(w.network.lane_ok(v.lane.0 as int));
    let stops = w.topology.stops_by_link@[link.0 as int]@;
    let ahead = w.stop_ahead(v, g);
    lemma_least(stops.len() as int, ahead);
    let n = w.network.bus_stops@.len() as int;
    assert(n == w.network.bus_stops.len());
    let p = stop_on(&w.network, LinkId(link.0 as u32));
    lemma_indices(n, p);
    assert(w.topology.stops_by_link@[link.0 as int]@ == indices_where(n, p));
    assert(p(s));
    assert(stops.contains(s as usize));
    let k = choose|k: int| 0 <= k < stops.len() && stops[k] == s as usize;
    assert(ahead(k) is Some);
}

} // verus!
