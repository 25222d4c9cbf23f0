//! The vehicle fleet: the row of each vehicle, its bounded history of positions
//! and speeds, and the storage that keeps the two aligned.

use vstd::prelude::*;
use crate::network::{LaneId, LinkId, MovementId, Network, NodeId};
use crate::quantity::Quantity;

verus! {

/// How a driver drives.
#[derive(Clone, Copy, Debug, PartialEq, Eq, Structural)]
pub struct DriverConfig {
    pub desired_speed: Quantity,
    pub accel_exponent: Quantity,
    pub min_gap: Quantity,
    pub time_headway: Quantity,
    pub max_accel: Quantity,
    pub comfort_decel: Quantity,
    pub vehicle_length: Quantity,
    pub reaction_time: Quantity,
    pub accel_noise: Quantity,
    pub politeness: Quantity,
    pub critical_gap: Quantity,
}

/// A vehicle inside a node, on a movement's path.
#[derive(Clone, Copy, Debug, PartialEq, Eq, Structural)]
pub struct Crossing {
    pub movement: MovementId,
    /// How far off its lane line the vehicle sat when it reached the boundary.
    pub lat_shift: Quantity,
}

/// A lane change that has not finished sideways.
#[derive(Clone, Copy, Debug, PartialEq, Eq, Structural)]
pub struct LaneChange {
    pub from: LaneId,
    pub progress: Quantity,
}

/// What became of a vehicle in one tick.
#[derive(Clone, Copy, Debug, PartialEq, Eq, Structural)]
pub enum Fate {
    Alive,
    /// Crossed onto a new link.
    Entered(LinkId),
    /// Left the network: arrived, finished its route, or ran off a dead end.
    Exited,
    /// Removed at an interior node though it had somewhere to go.
    Leaked,
}

#[derive(Clone, Debug, PartialEq)]
pub struct NetVehicle {
    pub id: u32,
    pub lane: LaneId,
    /// Front bumper along the lane; counts on past the lane's end while crossing.
    pub position: Quantity,
    pub speed: Quantity,
    /// Pose at the rear axle: `x`, `y` and heading.
    pub kin: [Quantity; 3],
    /// Steered path curvature.
    pub steer: Quantity,
    pub driver: DriverConfig,
    /// The links of an explicit route, and the place reached in it.
    pub route: Vec<LinkId>,
    pub route_idx: usize,
    /// Destination for routing by field.
    pub dest: Option<LinkId>,
    /// The stop-controlled node at which this vehicle has already halted.
    pub stopped_at: Option<NodeId>,
    /// Ticks in a row spent standing.
    pub wait_ticks: u32,
    pub crossing: Option<Crossing>,
    pub lane_change: Option<LaneChange>,
    /// The scheduler let it sleep in the last step.
    pub slept: bool,
    /// Ticks until this wreck is cleared; absent for a vehicle that has not crashed.
    pub wreck: Option<u16>,
}

impl NetVehicle {
    /// Everything the row names exists in the network.
    pub open spec fn placed(&self, net: &Network) -> bool {
        &&& net.has_lane(self.lane)
        &&& self.crossing matches Some(c) ==> net.has_movement(c.movement)
        &&& self.lane_change matches Some(c) ==> net.has_lane(c.from)
        &&& self.stopped_at matches Some(n) ==> net.has_node(n)
        &&& self.dest matches Some(d) ==> net.has_link(d)
        &&& forall|k: int| 0 <= k < self.route@.len() ==> net.has_link(#[trigger] self.route@[k])
    }

    /// Whether the vehicle is inside a node, on a movement's path.
    pub fn is_crossing(&self) -> (r: bool)
        ensures
            r == self.crossing is Some,
    {
        self.crossing.is_some()
    }

    /// Whether this vehicle is a crashed wreck awaiting clearance.
    pub fn is_wrecked(&self) -> (r: bool)
        ensures
            r == self.wreck is Some,
    {
        self.wreck.is_some()
    }

    /// Ticks in a row spent standing.
    pub fn wait_ticks(&self) -> (r: u32)
        ensures
            r == self.wait_ticks,
    {
        self.wait_ticks
    }

    /// The rear-axle point of the pose.
    pub fn rear_axle(&self) -> (r: [Quantity; 2])
        ensures
            r@ == seq![self.kin@[0], self.kin@[1]],
    {
        [self.kin[0], self.kin[1]]
    }
}

/// How many samples a history keeps: enough for the longest reaction delay.
pub const HISTORY_LEN: usize = 8;

/// One remembered position and speed.
#[derive(Clone, Copy, Debug, PartialEq, Eq, Structural)]
pub struct Sample {
    pub position: Quantity,
    pub speed: Quantity,
}

pub type History = [Sample; HISTORY_LEN];

/// The samples in use, oldest first.
pub open spec fn recent(hist: History, len: u8) -> Seq<Sample> {
    hist@.subrange(0, len as int)
}

/// What a full or filling history holds after one more sample.
pub open spec fn recorded(samples: Seq<Sample>, s: Sample) -> Seq<Sample> {
    if samples.len() < HISTORY_LEN {
        samples.push(s)
    } else {
        samples.subrange(1, samples.len() as int).push(s)
    }
}

/// Append a sample, dropping the oldest once full.
pub fn record_history(hist: &mut History, len: &mut u8, s: Sample)
    requires
        *old(len) <= HISTORY_LEN,
    ensures
        1 <= *final(len) <= HISTORY_LEN,
        recent(*final(hist), *final(len)) == recorded(recent(*old(hist), *old(len)), s),
{
    let n = *len as usize;
    if n < HISTORY_LEN {
        hist[n] = s;
        *len = *len + 1;
    } else {
        let ghost start = hist@;
        let mut k: usize = 0;
        while k + 1 < HISTORY_LEN
            invariant
                k < HISTORY_LEN,
                hist@.len() == HISTORY_LEN,
                start.len() == HISTORY_LEN,
                forall|j: int| 0 <= j < k ==> #[trigger] hist@[j] == start[j + 1],
                forall|j: int| k <= j < HISTORY_LEN ==> #[trigger] hist@[j] == start[j],
            decreases HISTORY_LEN - k,
        {
            hist[k] = hist[k + 1];
            k += 1;
        }
        hist[HISTORY_LEN - 1] = s;
    }
    assert(recent(*hist, *len) =~= recorded(recent(*old(hist), *old(len)), s));
}

/// The rows, and beside each its history.
#[derive(Debug)]
pub struct Fleet {
    pub rows: Vec<NetVehicle>,
    pub hist: Vec<History>,
    pub hist_len: Vec<u8>,
}

impl Fleet {
    /// The columns are aligned and every row has a sample.
    pub open spec fn wf(&self) -> bool {
        &&& self.hist@.len() == self.rows@.len()
        &&& self.hist_len@.len() == self.rows@.len()
        &&& forall|i: int|
            0 <= i < self.rows@.len() ==> 1 <= #[trigger] self.hist_len@[i] <= HISTORY_LEN
    }

    /// Every row is placed in the network.
    pub open spec fn on(&self, net: &Network) -> bool {
        forall|i: int| 0 <= i < self.rows@.len() ==> (#[trigger] self.rows@[i]).placed(net)
    }

    /// The samples of row `i`, oldest first.
    pub open spec fn samples(&self, i: int) -> Seq<Sample> {
        recent(self.hist@[i], self.hist_len@[i])
    }

    pub fn new() -> (f: Fleet)
        ensures
            f.wf(),
            f.rows@.len() == 0,
    {
        Fleet { rows: Vec::new(), hist: Vec::new(), hist_len: Vec::new() }
    }

    /// Add a vehicle, whose history is its present state.
    pub fn push(&mut self, v: NetVehicle)
        requires
            old(self).wf(),
        ensures
            final(self).wf(),
            final(self).rows@ == old(self).rows@.push(v),
            final(self).samples(old(self).rows@.len() as int) == seq![
                Sample { position: v.position, speed: v.speed },
            ],
            forall|i: int|
                0 <= i < old(self).rows@.len() ==> #[trigger] final(self).samples(i)
                    == old(self).samples(i),
    {
        let s = Sample { position: v.position, speed: v.speed };
        let h: History = [s; 8];
        self.hist.push(h);
        self.hist_len.push(1);
        self.rows.push(v);
        assert(self.samples(old(self).rows@.len() as int) =~= seq![s]);
    }

    /// Remove every vehicle.
    pub fn clear(&mut self)
        ensures
            final(self).wf(),
            final(self).rows@.len() == 0,
    {
        self.rows.clear();
        self.hist.clear();
        self.hist_len.clear();
    }

    /// Row `i` as it was `ticks` steps ago, or the oldest that is kept.
    pub fn delayed(&self, i: usize, ticks: usize) -> (s: Sample)
        requires
            self.wf(),
            i < self.rows@.len(),
        ensures
            s == self.samples(i as int)[if ticks < self.samples(i as int).len() {
                self.samples(i as int).len() - 1 - ticks
            } else {
                0
            }],
    {
        let n = self.hist_len[i] as usize;
        let back = if ticks < n - 1 {
            ticks
        } else {
            n - 1
        };
        self.hist[i][n - 1 - back]
    }

    /// Whether row `i` has more than `ticks` samples, so that a delayed look is
    /// not clamped.
    pub fn settled(&self, i: usize, ticks: usize) -> (r: bool)
        requires
            self.wf(),
            i < self.rows@.len(),
        ensures
            r == (self.samples(i as int).len() > ticks),
    {
        self.hist_len[i] as usize > ticks
    }

    /// Keep only one sample of row `i`: the one given.
    pub fn reset_history(&mut self, i: usize, s: Sample)
        requires
            old(self).wf(),
            i < old(self).rows@.len(),
        ensures
            final(self).wf(),
            final(self).rows@ == old(self).rows@,
            final(self).samples(i as int) == seq![s],
            forall|j: int|
                0 <= j < old(self).rows@.len() && j != i ==> #[trigger] final(self).samples(j)
                    == old(self).samples(j),
    {
        let mut h: History = self.hist[i];
        h[0] = s;
        self.hist[i] = h;
        self.hist_len[i] = 1;
        assert(self.samples(i as int) =~= seq![s]);
    }
}

/// Every index below `n`, each once.
pub open spec fn is_permutation(order: Seq<usize>, n: nat) -> bool {
    &&& order.len() == n
    &&& order.no_duplicates()
    &&& forall|k: int| 0 <= k < order.len() ==> #[trigger] order[k] < n
}

/// The items in a new order.
pub fn permute<T>(items: Vec<T>, order: &Vec<usize>) -> (out: Vec<T>)
    requires
        is_permutation(order@, items@.len()),
    ensures
        out@.len() == items@.len(),
        forall|k: int|
            0 <= k < out@.len() ==> #[trigger] out@[k] == items@[order@[k] as int],
{
    let n = items.len();
    let ghost all = items@;
    let mut rest = items;
    // back to front: the last item comes first
    let mut slots: Vec<Option<T>> = Vec::new();
    let mut k: usize = 0;
    while k < n
        invariant
            k <= n,
            n == all.len(),
            rest@ == all.subrange(0, n - k),
            slots@.len() == k,
            forall|j: int| 0 <= j < k ==> #[trigger] slots@[j] == Some(all[n - 1 - j]),
        decreases n - k,
    {
        let last = rest.pop();
        slots.push(last);
        k += 1;
        assert(rest@ =~= all.subrange(0, n - k));
    }
    let mut out: Vec<T> = Vec::new();
    let mut m: usize = 0;
    while m < n
        invariant
            m <= n,
            n == all.len(),
            slots@.len() == n,
            is_permutation(order@, all.len()),
            out@.len() == m,
            forall|j: int| 0 <= j < m ==> #[trigger] out@[j] == all[order@[j] as int],
            forall|j: int|
                m <= j < n ==> slots@[n - 1 - #[trigger] order@[j]] == Some(all[order@[j] as int]),
        decreases n - m,
    {
        let i = n - 1 - order[m];
        assert(slots@[n - 1 - order@[m as int]] == Some(all[order@[m as int] as int]));
        let item = slots[i].take();
        assert forall|j: int| m + 1 <= j < n implies slots@[n - 1 - #[trigger] order@[j]] == Some(
            all[order@[j] as int],
        ) by {
            assert(order@[j] != order@[m as int]);
        }
        out.push(item.unwrap());
        m += 1;
    }
    out
}

/// The items, last first.
pub fn reversed<T>(items: Vec<T>) -> (out: Vec<T>)
    ensures
        out@.len() == items@.len(),
        forall|k: int| 0 <= k < out@.len() ==> #[trigger] out@[k] == items@[out@.len() - 1 - k],
{
    let n = items.len();
    let ghost all = items@;
    let mut rest = items;
    let mut out: Vec<T> = Vec::new();
    while rest.len() > 0
        invariant
            n == all.len(),
            rest@.len() + out@.len() == n,
            rest@ == all.subrange(0, rest@.len() as int),
            forall|k: int| 0 <= k < out@.len() ==> #[trigger] out@[k] == all[n - 1 - k],
        decreases rest@.len(),
    {
        let last = rest.pop().unwrap();
        assert(rest@ =~= all.subrange(0, rest@.len() as int));
        out.push(last);
    }
    out
}

impl Fleet {
    /// Put the rows, and their histories with them, in a new order.
    pub fn reorder(&mut self, order: &Vec<usize>)
        requires
            old(self).wf(),
            is_permutation(order@, old(self).rows@.len()),
        ensures
            final(self).wf(),
            final(self).rows@.len() == old(self).rows@.len(),
            forall|k: int|
                0 <= k < final(self).rows@.len() ==> #[trigger] final(self).rows@[k]
                    == old(self).rows@[order@[k] as int],
            forall|k: int|
                0 <= k < final(self).rows@.len() ==> #[trigger] final(self).hist@[k]
                    == old(self).hist@[order@[k] as int],
            forall|k: int|
                0 <= k < final(self).rows@.len() ==> #[trigger] final(self).hist_len@[k]
                    == old(self).hist_len@[order@[k] as int],
    {
        let mut rows: Vec<NetVehicle> = Vec::new();
        let mut hist: Vec<History> = Vec::new();
        let mut hist_len: Vec<u8> = Vec::new();
        std::mem::swap(&mut rows, &mut self.rows);
        std::mem::swap(&mut hist, &mut self.hist);
        std::mem::swap(&mut hist_len, &mut self.hist_len);
        self.rows = permute(rows, order);
        self.hist = permute(hist, order);
        self.hist_len = permute(hist_len, order);
    }
}

} // verus!
