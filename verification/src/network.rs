//! The road graph: nodes joined by directed links, links carrying lanes, lanes
//! joined across nodes by movements, and the points at which two movements'
//! paths meet. Everything is addressed by index.

use vstd::prelude::*;
use crate::quantity::Quantity;

verus! {

#[derive(Clone, Copy, Debug, PartialEq, Eq, Structural)]
pub struct NodeId(pub u32);

#[derive(Clone, Copy, Debug, PartialEq, Eq, Structural)]
pub struct LinkId(pub u32);

#[derive(Clone, Copy, Debug, PartialEq, Eq, Structural)]
pub struct LaneId(pub u32);

#[derive(Clone, Copy, Debug, PartialEq, Eq, Structural)]
pub struct MovementId(pub u32);

#[derive(Clone, Copy, Debug, PartialEq, Eq, Structural)]
pub enum TurnType {
    Left,
    Through,
    Right,
}

/// Road class. Surface streets carry their functional class number.
#[derive(Clone, Copy, Debug, PartialEq, Eq, Structural)]
pub enum RoadKind {
    Freeway,
    Ramp,
    Surface(u8),
}

#[derive(Clone, Copy, Debug, PartialEq, Eq, Structural)]
pub enum NodeControl {
    Uncontrolled,
    Yield,
    Stop,
    /// Run by the signal program with this index.
    Signalized(u32),
}

#[derive(Clone, Copy, Debug, PartialEq, Eq, Structural)]
pub enum SignalState {
    Red,
    Yellow,
    Green,
}

#[derive(Debug)]
pub struct Node {
    pub control: NodeControl,
    /// A railway crosses the road here.
    pub rail_crossing: bool,
    /// The multi-node junction this node belongs to.
    pub junction: Option<u32>,
    /// Shared by every node of one intersection.
    pub intersection: u32,
    /// Every approach faces a stop line.
    pub all_way_stop: bool,
    /// Conflict points inside this node.
    pub conflicts: Vec<u32>,
}

#[derive(Clone, Copy, Debug)]
pub struct Link {
    pub from: NodeId,
    pub to: NodeId,
    pub lane_start: LaneId,
    pub lane_count: u32,
    pub kind: RoadKind,
    /// Right-of-way rank of the road class at grade.
    pub rank: u64,
    /// Speed limit in thousandths of a metre per second.
    pub speed_milli: u64,
    /// Free-flow travel time in milliseconds.
    pub travel_time_ms: u64,
    /// This approach faces a stop line at a stop-controlled node.
    pub stop_line: bool,
}

#[derive(Clone, Copy, Debug)]
pub struct Lane {
    pub link: LinkId,
    /// Counted from the left.
    pub index_in_link: u32,
    pub movement_start: MovementId,
    pub movement_count: u32,
    pub length: Quantity,
    pub speed_limit: Quantity,
    /// Reserved for carpools and toll payers.
    pub hov: bool,
}

#[derive(Debug)]
pub struct Movement {
    pub from_lane: LaneId,
    pub to_lane: LaneId,
    pub node: NodeId,
    pub turn: TurnType,
    /// Joins two grade-separated roads.
    pub interchange: bool,
    /// Continues the road it comes from.
    pub continuation: bool,
    /// Cosine of the angle between arrival and departure.
    pub straightness: Quantity,
    pub signal_group: Option<u32>,
    /// The conflict points on this movement's path.
    pub points: Vec<u32>,
}

/// A point shared by the paths of two movements, at arc `sa` of `a` and `sb` of `b`.
#[derive(Clone, Copy, Debug)]
pub struct Conflict {
    pub a: MovementId,
    pub b: MovementId,
    pub sa: Quantity,
    pub sb: Quantity,
}

#[derive(Debug)]
pub struct Junction {
    pub nodes: Vec<NodeId>,
}

#[derive(Clone, Copy, Debug)]
pub struct SignalGroup {
    pub program: u32,
    pub bit: u32,
}

#[derive(Debug)]
pub struct Program {
    /// Per phase, the mask of groups that it shows green to.
    pub phases: Vec<u64>,
    pub coordinated: bool,
}

/// A bus stop on a link, at an arc from the link's start.
#[derive(Clone, Copy, Debug)]
pub struct BusStop {
    pub link: LinkId,
    pub arc: Quantity,
}

#[derive(Debug)]
pub struct Network {
    pub nodes: Vec<Node>,
    pub links: Vec<Link>,
    pub lanes: Vec<Lane>,
    pub movements: Vec<Movement>,
    pub conflicts: Vec<Conflict>,
    pub junctions: Vec<Junction>,
    pub groups: Vec<SignalGroup>,
    pub programs: Vec<Program>,
    pub bus_stops: Vec<BusStop>,
    /// Per program, the offset of its morning and evening plan; empty when there is one plan.
    pub am_offsets: Vec<Quantity>,
    pub pm_offsets: Vec<Quantity>,
}

impl Network {
    pub open spec fn has_node(&self, n: NodeId) -> bool {
        n.0 < self.nodes@.len()
    }

    pub open spec fn has_link(&self, l: LinkId) -> bool {
        l.0 < self.links@.len()
    }

    pub open spec fn has_lane(&self, l: LaneId) -> bool {
        l.0 < self.lanes@.len()
    }

    pub open spec fn has_movement(&self, m: MovementId) -> bool {
        m.0 < self.movements@.len()
    }

    pub open spec fn node_at(&self, n: NodeId) -> Node {
        self.nodes@[n.0 as int]
    }

    pub open spec fn link_at(&self, l: LinkId) -> Link {
        self.links@[l.0 as int]
    }

    pub open spec fn lane_at(&self, l: LaneId) -> Lane {
        self.lanes@[l.0 as int]
    }

    pub open spec fn movement_at(&self, m: MovementId) -> Movement {
        self.movements@[m.0 as int]
    }

    /// The lane a movement ends on.
    pub open spec fn landing(&self, m: MovementId) -> LaneId {
        self.movement_at(m).to_lane
    }

    /// The link a movement ends on.
    pub open spec fn landing_link(&self, m: MovementId) -> LinkId {
        self.lane_at(self.landing(m)).link
    }

    /// The link a lane belongs to.
    pub open spec fn link_of(&self, l: LaneId) -> LinkId {
        self.lane_at(l).link
    }

    /// The node at the end of a lane.
    pub open spec fn end_of(&self, l: LaneId) -> NodeId {
        self.link_at(self.link_of(l)).to
    }

    /// The `k`-th movement of a lane.
    pub open spec fn nth_movement(&self, l: LaneId, k: int) -> MovementId {
        MovementId((self.lane_at(l).movement_start.0 + k) as u32)
    }

    /// Movement `m` leaves lane `l`.
    pub open spec fn leaves(&self, m: MovementId, l: LaneId) -> bool {
        self.lane_at(l).movement_start.0 <= m.0 < self.lane_at(l).movement_start.0
            + self.lane_at(l).movement_count
    }

    /// Some conflict point is shared by the two movements' paths.
    pub open spec fn paths_cross(&self, a: MovementId, b: MovementId) -> bool {
        exists|c: int|
            0 <= c < self.conflicts@.len() && Self::pairs(#[trigger] self.conflicts@[c], a, b)
    }

    /// The conflict point is one of these two movements.
    pub open spec fn pairs(c: Conflict, a: MovementId, b: MovementId) -> bool {
        (c.a == a && c.b == b) || (c.b == a && c.a == b)
    }

    pub open spec fn node_ok(&self, i: int) -> bool {
        let n = self.nodes@[i];
        &&& n.junction matches Some(j) ==> j < self.junctions@.len()
            && self.junctions@[j as int].nodes@.contains(NodeId(i as u32))
        &&& forall|k: int| 0 <= k < n.conflicts@.len() ==> #[trigger] n.conflicts@[k] < self.conflicts@.len()
    }

    pub open spec fn link_ok(&self, i: int) -> bool {
        let l = self.links@[i];
        &&& self.has_node(l.from)
        &&& self.has_node(l.to)
        &&& l.lane_count >= 1
        &&& l.lane_start.0 + l.lane_count <= self.lanes@.len()
        &&& forall|k: int|
            l.lane_start.0 <= k < l.lane_start.0 + l.lane_count
                ==> (#[trigger] self.lanes@[k]).link.0 == i
    }

    pub open spec fn lane_ok(&self, i: int) -> bool {
        let l = self.lanes@[i];
        &&& self.has_link(l.link)
        &&& l.index_in_link < self.link_at(l.link).lane_count
        &&& self.link_at(l.link).lane_start.0 + l.index_in_link == i
        &&& l.movement_start.0 + l.movement_count <= self.movements@.len()
        &&& forall|m: int|
            l.movement_start.0 <= m < l.movement_start.0 + l.movement_count
                ==> (#[trigger] self.movements@[m]).from_lane.0 == i
    }

    pub open spec fn movement_ok(&self, i: int) -> bool {
        let m = self.movements@[i];
        &&& self.has_lane(m.from_lane)
        &&& self.has_lane(m.to_lane)
        &&& self.has_node(m.node)
        &&& self.leaves(MovementId(i as u32), m.from_lane)
        &&& m.node == self.end_of(m.from_lane)
        &&& m.node == self.link_at(self.link_of(m.to_lane)).from
        &&& m.signal_group matches Some(g) ==> g < self.groups@.len()
        &&& forall|k: int| 0 <= k < m.points@.len() ==> #[trigger] m.points@[k] < self.conflicts@.len()
    }

    pub open spec fn conflict_ok(&self, i: int) -> bool {
        let c = self.conflicts@[i];
        &&& self.has_movement(c.a)
        &&& self.has_movement(c.b)
        &&& self.movement_at(c.a).points@.contains(i as u32)
        &&& self.movement_at(c.b).points@.contains(i as u32)
    }

    pub open spec fn junction_ok(&self, i: int) -> bool {
        forall|k: int|
            0 <= k < self.junctions@[i].nodes@.len() ==> self.has_node(
                #[trigger] self.junctions@[i].nodes@[k],
            ) && self.node_at(self.junctions@[i].nodes@[k]).junction == Some(i as u32)
    }

    pub open spec fn sizes_ok(&self) -> bool {
        &&& self.nodes@.len() < u32::MAX
        &&& self.links@.len() < u32::MAX
        &&& self.lanes@.len() < u32::MAX
        &&& self.movements@.len() < u32::MAX
        &&& self.conflicts@.len() < u32::MAX
        &&& self.junctions@.len() + self.nodes@.len() < u32::MAX
        &&& self.groups@.len() < u32::MAX
        &&& self.programs@.len() < u32::MAX
        &&& self.bus_stops@.len() < u32::MAX
        &&& self.am_offsets@.len() == 0 || (self.am_offsets@.len() == self.programs@.len()
            && self.pm_offsets@.len() == self.programs@.len())
    }

    /// Every index names an element, every lane knows its place in its link, and
    /// every conflict point is known to both of its movements.
    pub open spec fn wf(&self) -> bool {
        &&& self.sizes_ok()
        &&& forall|i: int| #![trigger self.nodes@[i]] 0 <= i < self.nodes@.len() ==> self.node_ok(i)
        &&& forall|i: int| #![trigger self.links@[i]] 0 <= i < self.links@.len() ==> self.link_ok(i)
        &&& forall|i: int| #![trigger self.lanes@[i]] 0 <= i < self.lanes@.len() ==> self.lane_ok(i)
        &&& forall|i: int|
            #![trigger self.movements@[i]]
            0 <= i < self.movements@.len() ==> self.movement_ok(i)
        &&& forall|i: int|
            #![trigger self.conflicts@[i]]
            0 <= i < self.conflicts@.len() ==> self.conflict_ok(i)
        &&& forall|i: int|
            #![trigger self.junctions@[i]]
            0 <= i < self.junctions@.len() ==> self.junction_ok(i)
        &&& forall|i: int|
            0 <= i < self.groups@.len() ==> (#[trigger] self.groups@[i]).bit < 64
                && self.groups@[i].program < self.programs@.len()
        &&& forall|i: int|
            0 <= i < self.bus_stops@.len() ==> self.has_link((#[trigger] self.bus_stops@[i]).link)
    }

    pub fn node(&self, n: NodeId) -> (r: &Node)
        requires
            self.has_node(n),
        ensures
            *r == self.node_at(n),
    {
        &self.nodes[n.0 as usize]
    }

    pub fn link(&self, l: LinkId) -> (r: &Link)
        requires
            self.has_link(l),
        ensures
            *r == self.link_at(l),
    {
        &self.links[l.0 as usize]
    }

    pub fn lane(&self, l: LaneId) -> (r: &Lane)
        requires
            self.has_lane(l),
        ensures
            *r == self.lane_at(l),
    {
        &self.lanes[l.0 as usize]
    }

    pub fn movement(&self, m: MovementId) -> (r: &Movement)
        requires
            self.has_movement(m),
        ensures
            *r == self.movement_at(m),
    {
        &self.movements[m.0 as usize]
    }

    /// Whether two movements' paths meet anywhere.
    pub fn movements_conflict(&self, a: MovementId, b: MovementId) -> (r: bool)
        requires
            self.wf(),
            self.has_movement(a),
        ensures
            r == self.paths_cross(a, b),
    {
        let points = &self.movement(a).points;
        let mut k: usize = 0;
        while k < points.len()
            invariant
                self.wf(),
                self.has_movement(a),
                *points == self.movement_at(a).points,
                k <= points@.len(),
                forall|j: int|
                    0 <= j < k ==> !Self::pairs(
                        self.conflicts@[#[trigger] points@[j] as int],
                        a,
                        b,
                    ),
            decreases points@.len() - k,
        {
            assert(self.movement_ok(a.0 as int));
            let c = self.conflicts[points[k] as usize];
            if (c.a == a && c.b == b) || (c.b == a && c.a == b) {
                assert(Self::pairs(self.conflicts@[points@[k as int] as int], a, b));
                return true;
            }
            k += 1;
        }
        assert forall|c: int| 0 <= c < self.conflicts@.len() implies !Self::pairs(
            #[trigger] self.conflicts@[c],
            a,
            b,
        ) by {
            assert(self.conflict_ok(c));
            if Self::pairs(self.conflicts@[c], a, b) {
                assert(points@.contains(c as u32));
                let j = choose|j: int| 0 <= j < points@.len() && points@[j] == c as u32;
                assert(!Self::pairs(self.conflicts@[points@[j] as int], a, b));
            }
        }
        false
    }
}

} // verus!
