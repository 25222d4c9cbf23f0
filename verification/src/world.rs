//! The world: a road network, the vehicles on it, and the state of everything
//! that governs them.

use vstd::prelude::*;
use std::collections::HashMap;
use crate::backend::AccelBackend;
use crate::fleet::{Fleet, NetVehicle};
use crate::network::{LinkId, Network, SignalState};
use crate::quantity::Quantity;
use crate::router::FieldRouter;
use crate::shards::Sharding;
use crate::topology::Topology;

verus! {

/// Tunables that the rules read.
#[derive(Clone, Copy, Debug)]
pub struct SimConfig {
    pub dt: Quantity,
    pub seed: u64,
    /// Let vehicles sleep whose motion is settled by their leader or the open road.
    pub sleep_scheduler: bool,
    /// How long a wreck stays on the road; zero removes it at once.
    pub wreck_clear_secs: Quantity,
    /// Chance that a driver misses a red light altogether.
    pub red_run_prob: Quantity,
}

/// When a link switches to the cheap queue model and back.
#[derive(Clone, Copy, Debug)]
pub struct CongestionConfig {
    pub enabled: bool,
    pub engage_occ: Quantity,
    pub release_occ: Quantity,
    pub dwell_ticks: u32,
}

/// How many crash records are kept.
pub const MAX_CRASH_SITES: usize = 8192;

/// How a vehicle crashed.
#[derive(Clone, Copy, Debug, PartialEq, Eq, Structural)]
pub enum CrashKind {
    /// A follower's front overran its leader's rear.
    RearEnd,
    /// Two bodies on crossing paths met inside a node.
    Junction,
}

/// One crashed vehicle: where, how, and how fast the pair was closing. The
/// numbers are single-precision bit patterns.
#[derive(Clone, Copy, Debug, PartialEq, Eq, Structural)]
pub struct CrashRecord {
    pub x: u32,
    pub y: u32,
    pub kind: CrashKind,
    pub closing_speed: u32,
}

/// A metered on-ramp: the ramp, the mainline whose occupancy sets its rate, and
/// the state of its cycle.
#[derive(Clone, Copy, Debug, PartialEq, Eq, Structural)]
pub struct RampMeter {
    pub ramp: LinkId,
    pub mainline: LinkId,
    pub rate_vph: Quantity,
    pub cycle_t: Quantity,
    pub since_update: Quantity,
}

/// A bus's service state: until when it stands, and the stop it served last.
#[derive(Clone, Copy, Debug, PartialEq, Eq, Structural)]
pub struct BusDwell {
    pub until: u64,
    pub link: LinkId,
    pub arc: Quantity,
}

pub struct NetWorld {
    pub network: Network,
    pub topology: Topology,
    pub cfg: SimConfig,
    pub fleet: Fleet,
    pub time: Quantity,
    pub tick: u64,
    pub exited: u32,
    pub leaked: u32,
    pub crashed: u32,
    /// The crashes of each kind: rear-end, then junction.
    pub crashed_by: [u32; 2],
    /// One record per crashed vehicle, oldest first.
    pub crash_log: Vec<CrashRecord>,
    pub meters: Vec<RampMeter>,
    pub metering_on: bool,
    /// Seconds since midnight, simulated.
    pub day_secs: Quantity,
    /// Seconds since the last train was due at the railway crossings.
    pub rail_since: Quantity,
    /// The evening plan of the signals is loaded.
    pub pm_plan: bool,
    /// Per signal program: its offset in the corridor's green wave.
    pub offsets: Vec<Quantity>,
    pub bus_dwell: HashMap<u32, BusDwell>,
    /// Per link: no curve on it limits the speed.
    pub link_straight: Vec<bool>,
    /// Per movement: the speed that its path's curvature allows.
    pub turn_caps: Vec<Quantity>,
    /// Colour of every signal group.
    pub signals: Vec<SignalState>,
    /// Vehicles that have entered each link so far.
    pub link_entries: Vec<u32>,
    pub router: Option<FieldRouter>,
    /// An outside driver recomputes the routing fields.
    pub external_reroute: bool,
    pub route_fingerprint: u64,
    pub route_cycle_tick: u64,
    pub parallel_routing: bool,
    pub cache_sort: bool,
    pub accel_backend: AccelBackend,
    /// A GPU solver is installed.
    pub gpu_accel: bool,
    pub threads_ready: bool,
    pub par_threshold: usize,
    /// Per link: it runs the cheap queue model.
    pub queue_links: Vec<bool>,
    pub congestion_cfg: CongestionConfig,
    pub asleep_last: usize,
    pub sharding: Option<Sharding>,
    /// How often the pose tracker's divergence guard has fired.
    pub divergences: u64,
}

impl NetWorld {
    /// The tables fit the network and every vehicle is on it.
    pub open spec fn wf(&self) -> bool {
        &&& self.network.wf()
        &&& self.topology.wf(&self.network)
        &&& self.fleet.wf()
        &&& self.fleet.on(&self.network)
        &&& self.tables_ok()
    }

    pub open spec fn tables_ok(&self) -> bool {
        &&& self.link_straight@.len() == self.network.links@.len()
        &&& self.turn_caps@.len() == self.network.movements@.len()
        &&& self.signals@.len() == self.network.groups@.len()
        &&& self.offsets@.len() == self.network.programs@.len()
        &&& self.link_entries@.len() == self.network.links@.len()
        &&& self.queue_links@.len() == self.network.links@.len()
        &&& self.router matches Some(r) ==> r.wf(&self.network)
        &&& self.sharding matches Some(s) ==> s.wf(&self.network)
        &&& forall|k: int|
            0 <= k < self.meters@.len() ==> self.network.has_link((#[trigger] self.meters@[k]).ramp)
                && self.network.has_link(self.meters@[k].mainline)
        &&& self.crashed == self.crashed_by@[0] + self.crashed_by@[1]
        &&& self.crash_log@.len() <= MAX_CRASH_SITES
        &&& forall|id: u32| #[trigger]
            self.bus_dwell@.contains_key(id) ==> self.network.has_link(self.bus_dwell@[id].link)
    }

    /// The vehicles, in row order.
    pub open spec fn rows(&self) -> Seq<NetVehicle> {
        self.fleet.rows@
    }
}

impl NetWorld {
    /// The backend in use: the one asked for, or `Serial` where that is not available.
    pub open spec fn backend_in_use(&self) -> AccelBackend {
        match self.accel_backend {
            AccelBackend::Threads => if self.threads_ready {
                AccelBackend::Threads
            } else {
                AccelBackend::Serial
            },
            AccelBackend::Gpu => if self.gpu_accel {
                AccelBackend::Gpu
            } else {
                AccelBackend::Serial
            },
            AccelBackend::Serial => AccelBackend::Serial,
        }
    }

    /// The backend in use.
    pub fn active_backend(&self) -> (r: AccelBackend)
        ensures
            r == self.backend_in_use(),
    {
        match self.accel_backend {
            AccelBackend::Threads => if self.threads_ready {
                AccelBackend::Threads
            } else {
                AccelBackend::Serial
            },
            AccelBackend::Gpu => if self.gpu_accel {
                AccelBackend::Gpu
            } else {
                AccelBackend::Serial
            },
            AccelBackend::Serial => AccelBackend::Serial,
        }
    }
}

} // verus!
