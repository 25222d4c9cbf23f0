//! Room beyond the box: whether the lane that a movement lands on can take the
//! vehicle, and whether a junction of several nodes can be left once entered.

use vstd::prelude::*;
use crate::boxes::{ExitMeasure, Room, DEPARTING_SPEED, EXIT_DEPTH};
use crate::fleet::NetVehicle;
use crate::neighbors::{keys_of, positions, Neighbors};
use crate::network::{LaneId, LinkId, MovementId, NodeId};
use crate::quantity::{place, Quantity};
use crate::search::{count_where, first_index, indices_where, lemma_count_bounds, lemma_first_index_is, lemma_first_index_none, lemma_indices};
use crate::sorting::lemma_sorted_members;
use crate::world::{NetWorld, RampMeter};

verus! {

/// How long a train closes a railway crossing. Place of 45 s.
pub const RAIL_CLOSURE_SECS: i64 = 0x4046_8000_0000_0000;

/// How long a ramp meter shows green. Place of 2.5 s.
pub const METER_GREEN_SECS: i64 = 0x4004_0000_0000_0000;

/// An occupant leaves too little room: a leaving one is followed at a margin
/// where that is allowed, any other must leave the room to commit.
pub open spec fn too_tight(speed: Quantity, exempt: bool, room: Room) -> bool {
    if place(DEPARTING_SPEED).is_at_most(speed) && exempt {
        room.clear_after.is_below(room.margin)
    } else {
        room.rear.is_below(room.commit_room)
    }
}

fn is_too_tight(speed: Quantity, exempt: bool, room: &Room) -> (r: bool)
    ensures
        r == too_tight(speed, exempt, *room),
{
    if Quantity::at(DEPARTING_SPEED).at_most(speed) && exempt {
        room.clear_after.below(room.margin)
    } else {
        room.rear.below(room.commit_room)
    }
}

impl NetWorld {
    /// The vehicle nearest a lane's entrance.
    pub open spec fn nearest_entrance(&self, lane: LaneId) -> Option<usize> {
        if self.lane_order(lane.0).len() > 0 {
            Some(self.lane_order(lane.0)[0])
        } else {
            None
        }
    }

    /// The landing of an at-grade movement is too tight for a vehicle with this room.
    pub open spec fn landing_tight(&self, m: MovementId, room: Room) -> bool {
        !self.network.movement_at(m).interchange && match self.nearest_entrance(
            self.network.landing(m),
        ) {
            Some(f) => too_tight(self.rows()[f as int].speed, self.exempts_departing(m), room),
            None => false,
        }
    }

    /// Of a place in a lane's order: the vehicle there is not inside a node.
    pub open spec fn has_landed(&self, lane: LaneId) -> spec_fn(int) -> bool {
        |k: int| self.rows()[self.lane_order(lane.0)[k] as int].crossing is None
    }

    /// The crossers at the node where a lane begins.
    pub open spec fn inside_before(&self, lane: LaneId) -> Seq<usize> {
        indices_where(
            self.rows().len() as int,
            self.crosses_at(
                self.network.node_at(self.network.link_at(self.network.link_of(lane)).from).intersection,
            ),
        )
    }

    /// Of a place among those crossers: the vehicle will land on the lane.
    pub open spec fn will_land(&self, lane: LaneId) -> spec_fn(int) -> bool {
        |k: int|
            self.network.landing(
                (self.rows()[self.inside_before(lane)[k] as int].crossing->0).movement,
            ) == lane
    }

    /// The vehicles on a lane and those in flight to it.
    pub open spec fn lane_load(&self, lane: LaneId) -> int {
        count_where(self.lane_order(lane.0).len() as int, self.has_landed(lane)) + count_where(
            self.inside_before(lane).len() as int,
            self.will_land(lane),
        )
    }

    /// The movement leaves junction `j`.
    pub open spec fn exits(&self, m: MovementId, j: u32) -> bool {
        self.network.node_at(
            self.network.link_at(self.network.landing_link(m)).to,
        ).junction != Some(j)
    }

    /// The movements of a path through a junction, up to the one that leaves it
    /// or to where the field ends, at most `depth`.
    pub open spec fn exit_path(&self, v: &NetVehicle, m: MovementId, j: u32, depth: nat) -> Seq<
        MovementId,
    >
        decreases depth,
    {
        if depth == 0 {
            Seq::empty()
        } else if self.exits(m, j) {
            seq![m]
        } else {
            seq![m] + match self.intended_from(v, self.network.landing(m)) {
                Some(next) => self.exit_path(v, next, j, (depth - 1) as nat),
                None => Seq::empty(),
            }
        }
    }

    /// A path through junction `j` is blocked at one of its hops: the lane past
    /// the exit is too tight, an inner lane is full, or the lane after it is.
    pub open spec fn exit_shut(
        &self,
        v: &NetVehicle,
        first: MovementId,
        m: MovementId,
        j: u32,
        depth: nat,
        at: Seq<ExitMeasure>,
    ) -> bool
        decreases depth,
    {
        let to = self.network.landing(m);
        if depth == 0 {
            false
        } else if self.exits(m, j) {
            match self.nearest_entrance(to) {
                Some(f) => too_tight(
                    self.rows()[f as int].speed,
                    self.exempts_departing(m) || self.exempts_departing(first),
                    at[0].room,
                ),
                None => false,
            }
        } else if self.lane_load(to) >= at[0].slots {
            true
        } else {
            match self.intended_from(v, to) {
                Some(next) => {
                    (self.nearest_entrance(self.network.landing(next)) is Some
                        && at[0].onward_rear.is_below(at[0].unit)) || self.exit_shut(
                        v,
                        first,
                        next,
                        j,
                        (depth - 1) as nat,
                        at.drop_first(),
                    )
                },
                None => false,
            }
        }
    }

    /// Entering on `m` would leave the vehicle stranded inside the junction.
    pub open spec fn strands(
        &self,
        v: &NetVehicle,
        m: MovementId,
        node: NodeId,
        at: Seq<ExitMeasure>,
    ) -> bool {
        match self.network.node_at(node).junction {
            Some(j) => self.exit_shut(v, m, m, j, EXIT_DEPTH as nat, at),
            None => false,
        }
    }

    /// The movements of the path that [`NetWorld::strands`] looks at.
    pub open spec fn exit_hops(&self, v: &NetVehicle, m: MovementId, node: NodeId) -> Seq<
        MovementId,
    > {
        match self.network.node_at(node).junction {
            Some(j) => self.exit_path(v, m, j, EXIT_DEPTH as nat),
            None => Seq::empty(),
        }
    }

    /// A train closes the railway crossing at the node.
    pub open spec fn train_passes(&self, node: NodeId) -> bool {
        self.network.node_at(node).rail_crossing && self.rail_since.is_below(
            place(RAIL_CLOSURE_SECS),
        )
    }

    /// Of a meter: it stands on the link.
    pub open spec fn meters_link(&self, link: LinkId) -> spec_fn(int) -> bool {
        |k: int| self.meters@[k].ramp == link
    }

    /// The meter of a link.
    pub open spec fn meter_of(&self, link: LinkId) -> Option<RampMeter> {
        match first_index(0, self.meters@.len() as int, self.meters_link(link)) {
            Some(k) => Some(self.meters@[k]),
            None => None,
        }
    }

    /// The link's meter holds the line.
    pub open spec fn meter_holds(&self, link: LinkId) -> bool {
        self.metering_on && match self.meter_of(link) {
            Some(m) => place(METER_GREEN_SECS).is_at_most(m.cycle_t),
            None => false,
        }
    }

    pub proof fn lemma_lane_order(&self, l: u32)
        ensures
            forall|k: int|
                #![trigger self.lane_order(l)[k]]
                0 <= k < self.lane_order(l).len() ==> self.lane_order(l)[k] < self.rows().len()
                    && self.rows()[self.lane_order(l)[k] as int].lane.0 == l,
    {
        assert(self.rows().len() == self.fleet.rows.len());
        let n = self.rows().len() as int;
        let p = self.on_lane(l);
        lemma_indices(n, p);
        let raw = indices_where(n, p);
        assert(raw.no_duplicates()) by {
            assert forall|a: int, b: int|
                0 <= a < raw.len() && 0 <= b < raw.len() && a != b implies raw[a] != raw[b] by {
                if a < b {
                    assert(raw[a] < raw[b]);
                } else {
                    assert(raw[b] < raw[a]);
                }
            }
        }
        lemma_sorted_members(raw, keys_of(positions(self.rows())));
        let s = self.lane_order(l);
        assert forall|k: int| #![trigger s[k]] 0 <= k < s.len() implies s[k] < n
            && self.rows()[s[k] as int].lane.0 == l by {
            assert(s.contains(s[k]));
            assert(raw.contains(s[k]));
            let x = choose|x: int| 0 <= x < raw.len() && raw[x] == s[k];
            assert(p(raw[x] as int));
        }
    }

    /// The row nearest a lane's entrance, from the neighbours.
    pub fn entrance_occupant(&self, lane: LaneId, nb: &Neighbors) -> (r: Option<usize>)
        requires
            self.gated(nb),
        ensures
            r == self.nearest_entrance(lane),
            r matches Some(f) ==> f < self.rows().len() && self.rows()[f as int].lane == lane,
    {
        proof {
            self.lemma_lane_order(lane.0);
        }
        let r = nb.lane_front(lane);
        assert(nb.by_lane.group(lane.0) == self.lane_order(lane.0));
        r
    }

    /// Whether the lane that an at-grade movement lands on is too tight at its
    /// entrance for a vehicle with the measured room.
    pub fn movement_downstream_blocked(&self, m: MovementId, nb: &Neighbors, room: &Room) -> (r: bool)
        requires
            self.gated(nb),
            self.network.has_movement(m),
        ensures
            r == self.landing_tight(m, *room),
    {
        if self.network.movement(m).interchange {
            return false;
        }
        match self.entrance_occupant(self.network.movement(m).to_lane, nb) {
            Some(f) => is_too_tight(self.fleet.rows[f].speed, self.departing_exemption(m), room),
            None => false,
        }
    }

    /// Whether an inner lane of a junction has no slot left, counting both the
    /// vehicles on it and those in flight to it.
    pub fn internal_lane_full(&self, lane: LaneId, nb: &Neighbors, slots: usize) -> (r: bool)
        requires
            self.gated(nb),
            self.network.has_lane(lane),
        ensures
            r == (self.lane_load(lane) >= slots),
    {
        assert(self.network.lane_ok(lane.0 as int));
        let link = self.network.link(self.network.lane(lane).link);
        assert(self.network.link_ok(self.network.link_of(lane).0 as int));
        let mut landed: usize = 0;
        proof {
            self.lemma_lane_order(lane.0);
            assert(nb.by_lane.group(lane.0) == self.lane_order(lane.0));
        }
        if let Some(list) = nb.by_lane.get(&lane.0) {
            let mut k: usize = 0;
            while k < list.len()
                invariant
                    self.gated(nb),
                    list@ == self.lane_order(lane.0),
                    k <= list@.len(),
                    forall|x: int|
                        #![trigger self.lane_order(lane.0)[x]]
                        0 <= x < self.lane_order(lane.0).len() ==> self.lane_order(lane.0)[x]
                            < self.rows().len(),
                    landed == count_where(k as int, self.has_landed(lane)),
                    landed <= k,
                decreases list@.len() - k,
            {
                let j = list[k];
                assert(self.lane_order(lane.0)[k as int] == j);
                if self.fleet.rows[j].crossing.is_none() {
                    landed += 1;
                }
                k += 1;
            }
        }
        let key = self.network.node(link.from).intersection;
        let ghost inside = self.inside_before(lane);
        proof {
            assert(self.rows().len() == self.fleet.rows.len());
            lemma_indices(self.rows().len() as int, self.crosses_at(key));
            assert(nb.crossing_at.group(key) == inside);
        }
        let mut inbound: usize = 0;
        if let Some(list) = nb.crossing_at.get(&key) {
            let mut k: usize = 0;
            while k < list.len()
                invariant
                    self.gated(nb),
                    list@ == inside,
                    inside == self.inside_before(lane),
                    inside == indices_where(self.rows().len() as int, self.crosses_at(key)),
                    k <= list@.len(),
                    forall|x: int|
                        0 <= x < inside.len() ==> 0 <= #[trigger] inside[x] < self.rows().len()
                            && self.crosses_at(key)(inside[x] as int),
                    inbound == count_where(k as int, self.will_land(lane)),
                    inbound <= k,
                decreases list@.len() - k,
            {
                let j = list[k];
                assert(inside[k as int] == j);
                assert(self.crosses_at(key)(j as int));
                assert(self.rows()[j as int].placed(&self.network));
                let c = self.fleet.rows[j].crossing.unwrap();
                if self.network.movement(c.movement).to_lane == lane {
                    inbound += 1;
                }
                k += 1;
            }
        }
        proof {
            lemma_count_bounds(self.lane_order(lane.0).len() as int, self.has_landed(lane));
            lemma_count_bounds(inside.len() as int, self.will_land(lane));
        }
        landed >= slots || inbound >= slots - landed
    }

    /// The movements of the path through a junction whose far side decides
    /// whether a vehicle may enter on `m`.
    pub fn junction_exit_path(&self, v: &NetVehicle, m: MovementId, node: NodeId) -> (r: Vec<
        MovementId,
    >)
        requires
            self.wf(),
            self.network.has_movement(m),
            self.network.has_node(node),
        ensures
            r@ == self.exit_hops(v, m, node),
    {
        let mut out: Vec<MovementId> = Vec::new();
        if let Some(j) = self.network.node(node).junction {
            let mut at = m;
            let mut left: usize = EXIT_DEPTH;
            let mut open: bool = true;
            assert(out@ + self.exit_path(v, at, j, left as nat) =~= self.exit_path(
                v,
                m,
                j,
                EXIT_DEPTH as nat,
            ));
            while open && left > 0
                invariant
                    self.wf(),
                    self.network.has_movement(at),
                    open ==> self.exit_path(v, m, j, EXIT_DEPTH as nat) == out@ + self.exit_path(
                        v,
                        at,
                        j,
                        left as nat,
                    ),
                    !open ==> self.exit_path(v, m, j, EXIT_DEPTH as nat) == out@,
                decreases left,
            {
                let ghost before = out@;
                out.push(at);
                if self.movement_exits(at, j) {
                    open = false;
                    assert(before + self.exit_path(v, at, j, left as nat) =~= out@);
                } else {
                    assert(self.network.movement_ok(at.0 as int));
                    let to = self.network.movement(at).to_lane;
                    match self.intended_movement_from(v, to) {
                        Some(next) => {
                            assert(before + self.exit_path(v, at, j, left as nat) =~= out@
                                + self.exit_path(v, next, j, (left - 1) as nat));
                            at = next;
                        },
                        None => {
                            open = false;
                            assert(before + self.exit_path(v, at, j, left as nat) =~= out@);
                        },
                    }
                }
                left -= 1;
            }
            if open {
                assert(out@ + self.exit_path(v, at, j, 0) =~= out@);
            }
        }
        out
    }

    fn movement_exits(&self, m: MovementId, j: u32) -> (r: bool)
        requires
            self.network.wf(),
            self.network.has_movement(m),
        ensures
            r == self.exits(m, j),
    {
        assert(self.network.movement_ok(m.0 as int));
        let to = self.network.movement(m).to_lane;
        assert(self.network.lane_ok(to.0 as int));
        let link = self.network.link(self.network.lane(to).link);
        assert(self.network.link_ok(self.network.link_of(to).0 as int));
        match self.network.node(link.to).junction {
            Some(k) => k != j,
            None => true,
        }
    }

    /// Whether entering on `m` would strand the vehicle inside a junction of
    /// several nodes. `at` holds what is measured at each hop of
    /// [`NetWorld::junction_exit_path`].
    pub fn junction_exit_blocked(
        &self,
        v: &NetVehicle,
        m: MovementId,
        node: NodeId,
        nb: &Neighbors,
        at: &Vec<ExitMeasure>,
    ) -> (r: bool)
        requires
            self.gated(nb),
            self.network.has_movement(m),
            self.network.has_node(node),
            at@.len() == self.exit_hops(v, m, node).len(),
        ensures
            r == self.strands(v, m, node, at@),
    {
        let j = match self.network.node(node).junction {
            Some(j) => j,
            None => {
                return false;
            },
        };
        assert(at@.subrange(0, at@.len() as int) =~= at@);
        self.exit_blocked_from(v, m, m, j, nb, at, 0)
    }

    fn exit_blocked_from(
        &self,
        v: &NetVehicle,
        first: MovementId,
        m: MovementId,
        j: u32,
        nb: &Neighbors,
        at: &Vec<ExitMeasure>,
        k: usize,
    ) -> (r: bool)
        requires
            self.gated(nb),
            self.network.has_movement(first),
            self.network.has_movement(m),
            k <= EXIT_DEPTH,
            k <= at@.len(),
            at@.len() - k == self.exit_path(v, m, j, (EXIT_DEPTH - k) as nat).len(),
        ensures
            r == self.exit_shut(
                v,
                first,
                m,
                j,
                (EXIT_DEPTH - k) as nat,
                at@.subrange(k as int, at@.len() as int),
            ),
        decreases EXIT_DEPTH - k,
    {
        if k == EXIT_DEPTH {
            return false;
        }
        let ghost rest = at@.subrange(k as int, at@.len() as int);
        assert(rest[0] == at@[k as int]);
        assert(self.network.movement_ok(m.0 as int));
        let to = self.network.movement(m).to_lane;
        if self.movement_exits(m, j) {
            return match self.entrance_occupant(to, nb) {
                Some(f) => is_too_tight(
                    self.fleet.rows[f].speed,
                    self.departing_exemption(m) || self.departing_exemption(first),
                    &at[k].room,
                ),
                None => false,
            };
        }
        if self.internal_lane_full(to, nb, at[k].slots) {
            return true;
        }
        match self.intended_movement_from(v, to) {
            Some(next) => {
                assert(self.network.movement_ok(next.0 as int));
                let onward = self.network.movement(next).to_lane;
                if self.entrance_occupant(onward, nb).is_some() && at[k].onward_rear.below(
                    at[k].unit,
                ) {
                    return true;
                }
                assert(rest.drop_first() =~= at@.subrange(k + 1, at@.len() as int));
                self.exit_blocked_from(v, first, next, j, nb, at, k + 1)
            },
            None => false,
        }
    }

    /// Whether a railway crossing at the node is closed to the road.
    pub fn rail_closed(&self, node: NodeId) -> (r: bool)
        requires
            self.network.has_node(node),
        ensures
            r == self.train_passes(node),
    {
        self.network.node(node).rail_crossing && self.rail_since.below(
            Quantity::at(RAIL_CLOSURE_SECS),
        )
    }

    fn find_meter(&self, link: LinkId) -> (r: Option<usize>)
        ensures
            match r {
                Some(k) => k < self.meters@.len() && self.meter_of(link) == Some(
                    self.meters@[k as int],
                ),
                None => self.meter_of(link) is None,
            },
    {
        let mut k: usize = 0;
        while k < self.meters.len()
            invariant
                k <= self.meters@.len(),
                forall|j: int| 0 <= j < k ==> !#[trigger] self.meters_link(link)(j),
            decreases self.meters@.len() - k,
        {
            if self.meters[k].ramp == link {
                proof {
                    lemma_first_index_is(
                        0,
                        self.meters@.len() as int,
                        self.meters_link(link),
                        k as int,
                    );
                }
                return Some(k);
            }
            k += 1;
        }
        proof {
            lemma_first_index_none(0, self.meters@.len() as int, self.meters_link(link));
        }
        None
    }

    /// Whether the link's ramp meter holds the line.
    pub fn meter_red(&self, link: LinkId) -> (r: bool)
        ensures
            r == self.meter_holds(link),
    {
        if !self.metering_on {
            return false;
        }
        match self.find_meter(link) {
            Some(k) => Quantity::at(METER_GREEN_SECS).at_most(self.meters[k].cycle_t),
            None => false,
        }
    }

    /// The commanded rate of the link's meter, in vehicles per hour.
    pub fn meter_rate(&self, link: LinkId) -> (r: Option<Quantity>)
        ensures
            r == (match self.meter_of(link) {
                Some(m) => Some(m.rate_vph),
                None => None,
            }),
    {
        match self.find_meter(link) {
            Some(k) => Some(self.meters[k].rate_vph),
            None => None,
        }
    }
}

} // verus!
