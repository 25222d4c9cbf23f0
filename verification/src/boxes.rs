//! The box: what a movement is shown and where it may wait, and whether the
//! traffic already inside an intersection leaves it open to one more vehicle.

use vstd::prelude::*;
use crate::corridor::successor;
use crate::fleet::NetVehicle;
use crate::groups::GroupMap;
use crate::neighbors::{Neighbors, MOVING_SPEED};
use crate::network::{Conflict, LaneId, LinkId, MovementId, Network, NodeControl, NodeId, SignalState, TurnType};
use crate::paths::is_internal;
use crate::quantity::{place, Quantity, INFINITY};
use crate::search::{indices_where, lemma_indices};
use crate::topology::crosses_something;
use crate::world::NetWorld;

verus! {

/// A tail this fast is leaving: one to follow, not a blockage. Place of 3 m/s.
pub const DEPARTING_SPEED: i64 = 0x4008_0000_0000_0000;

/// A stander this far short of a point does not claim it. Place of 1.5 m.
pub const CLAIM_REACH: i64 = 0x3FF8_0000_0000_0000;

/// A hold shallower than this leaves no room to stand in. Place of 1 m.
pub const SHALLOWEST_HOLD: i64 = 0x3FF0_0000_0000_0000;

/// How many hops a junction is followed to its far side.
pub const EXIT_DEPTH: usize = 8;

/// What is measured of one crosser at one conflict point.
#[derive(Clone, Copy, Debug, PartialEq, Eq, Structural)]
pub struct PointTiming {
    /// Where the crosser's front is on its path.
    pub arc: Quantity,
    /// Where its front is once its tail has cleared the point.
    pub tail_clear: Quantity,
    /// How far its front is short of the point.
    pub short_by: Quantity,
    /// When the entrant would reach the point.
    pub t_reach: Quantity,
    /// When the crosser will have cleared it, with a margin.
    pub t_free: Quantity,
}

/// What is measured of the room behind a movement's landing.
#[derive(Clone, Copy, Debug, PartialEq, Eq, Structural)]
pub struct Room {
    /// The path through the box up to the occupant's rear.
    pub clear_after: Quantity,
    /// The following distance that a leaving occupant asks for.
    pub margin: Quantity,
    /// The occupant's rear on the landing lane.
    pub rear: Quantity,
    /// The room that a standing occupant must leave.
    pub commit_room: Quantity,
}

/// What is measured at one hop of a path through a junction.
#[derive(Clone, Copy, Debug, PartialEq, Eq, Structural)]
pub struct ExitMeasure {
    pub room: Room,
    /// How many vehicles the landing lane holds.
    pub slots: usize,
    /// The rear of the occupant of the lane after it.
    pub onward_rear: Quantity,
    /// The vehicle's length and gap.
    pub unit: Quantity,
}

/// The conflict point lies on the movement's path.
pub open spec fn touches(c: Conflict, m: MovementId) -> bool {
    c.a == m || c.b == m
}

/// The arc of the point on the movement's path.
pub open spec fn own_arc(c: Conflict, m: MovementId) -> Quantity {
    if c.a == m {
        c.sa
    } else {
        c.sb
    }
}

/// The other movement of the point.
pub open spec fn other_of(c: Conflict, m: MovementId) -> MovementId {
    if c.a == m {
        c.b
    } else {
        c.a
    }
}

/// Some movement of the list has a path that meets `m`'s.
pub open spec fn meets_any(net: &Network, m: MovementId, list: Seq<MovementId>) -> bool {
    exists|k: int| 0 <= k < list.len() && net.paths_cross(m, #[trigger] list[k])
}

/// The vehicle creeps or stands.
pub open spec fn is_standing(v: &NetVehicle) -> bool {
    v.speed.is_below(place(MOVING_SPEED))
}

/// The crosser still owns the point when the entrant gets there.
pub open spec fn owns_point(o: &NetVehicle, t: PointTiming) -> bool {
    &&& !t.tail_clear.is_at_most(t.arc)
    &&& !(is_standing(o) && place(CLAIM_REACH).is_below(t.short_by))
    &&& t.t_reach.is_below(t.t_free)
}

impl NetWorld {
    /// The colour a movement is shown; green where no signal stands.
    pub open spec fn colour(&self, m: MovementId) -> SignalState {
        match self.network.movement_at(m).signal_group {
            Some(g) => self.signals@[g as int],
            None => SignalState::Green,
        }
    }

    /// Behind this movement a leaving tail is followed into the box.
    pub open spec fn exempts_departing(&self, m: MovementId) -> bool {
        let mv = self.network.movement_at(m);
        self.network.node_at(mv.node).control is Signalized || mv.continuation || mv.interchange
    }

    /// A merge or diverge that meets no other path.
    pub open spec fn flows_free(&self, m: MovementId) -> bool {
        self.network.movement_at(m).interchange && !crosses_something(&self.network, m)
    }

    /// The lane that the movement leaves continues, by it, into the lane that it
    /// lands on: the two lie in one corridor, one after the other.
    pub open spec fn stays_in_corridor(&self, m: MovementId) -> bool {
        let mv = self.network.movement_at(m);
        successor(&self.network, mv.from_lane) == Some(mv.to_lane)
    }

    /// A boundary crossed without a gate: along a corridor, or the main
    /// approach of a continuation.
    pub open spec fn is_free_seam(&self, m: MovementId) -> bool {
        self.stays_in_corridor(m) || crate::topology::is_seam_primary(&self.network, m)
    }

    /// A right turn at grade on red.
    pub open spec fn turns_on_red(&self, m: MovementId) -> bool {
        let mv = self.network.movement_at(m);
        mv.turn == TurnType::Right && !mv.interchange && self.colour(m) == SignalState::Red
    }

    /// Of the conflict points of a node: on the movement's path, and the other
    /// movement is not held by a red.
    pub open spec fn is_live(&self, node: NodeId, m: MovementId, k: int) -> bool {
        let c = self.network.conflicts@[self.network.node_at(node).conflicts@[k] as int];
        touches(c, m) && self.colour(other_of(c, m)) != SignalState::Red
    }

    /// Some conflict point of the movement's node is live.
    pub open spec fn has_live_conflict(&self, m: MovementId) -> bool {
        let node = self.network.movement_at(m).node;
        exists|k: int|
            0 <= k < self.network.node_at(node).conflicts@.len() && #[trigger] self.is_live(
                node,
                m,
                k,
            )
    }

    /// A movement that may go but must give way: a right turn on red, or a green
    /// left across a live conflict.
    pub open spec fn gives_way(&self, m: MovementId) -> bool {
        let mv = self.network.movement_at(m);
        !mv.interchange && match mv.turn {
            TurnType::Right => self.colour(m) == SignalState::Red,
            TurnType::Left => mv.signal_group is Some && self.colour(m) == SignalState::Green
                && self.has_live_conflict(m),
            TurnType::Through => false,
        }
    }

    /// The least arc of the live points among the first `n` of the node.
    pub open spec fn live_arc_upto(&self, node: NodeId, m: MovementId, n: int) -> Quantity
        decreases n,
    {
        if n <= 0 {
            place(INFINITY)
        } else {
            let before = self.live_arc_upto(node, m, n - 1);
            if self.is_live(node, m, n - 1) {
                before.lesser(
                    own_arc(
                        self.network.conflicts@[self.network.node_at(node).conflicts@[n
                            - 1] as int],
                        m,
                    ),
                )
            } else {
                before
            }
        }
    }

    /// The arc of the movement's first live conflict point.
    pub open spec fn first_live_arc(&self, m: MovementId, node: NodeId) -> Option<Quantity> {
        let arc = self.live_arc_upto(
            node,
            m,
            self.network.node_at(node).conflicts@.len() as int,
        );
        if arc.is_finite() {
            Some(arc)
        } else {
            None
        }
    }

    /// Some vehicle other than row `i` is on the movement inside the box.
    pub open spec fn someone_waits(&self, i: int, m: MovementId, key: u32) -> bool {
        exists|j: int|
            0 <= j < self.rows().len() && j != i && #[trigger] self.crosses_at(key)(j) && (
            self.rows()[j].crossing->0).movement == m
    }

    /// Where a green left may stand inside the box, `hold` being the measured
    /// arc short of its first live conflict point.
    pub open spec fn waiter_hold(
        &self,
        i: int,
        m: MovementId,
        node: NodeId,
        hold: Quantity,
    ) -> Option<Quantity> {
        if self.network.movement_at(m).turn == TurnType::Left && self.gives_way(m)
            && self.first_live_arc(m, node) is Some && !hold.is_below(place(SHALLOWEST_HOLD))
            && !self.someone_waits(i, m, self.network.node_at(node).intersection) {
            Some(hold)
        } else {
            None
        }
    }

    /// The path of some crosser at the intersection meets the movement's.
    pub open spec fn box_taken(&self, m: MovementId, node: NodeId) -> bool {
        let key = self.network.node_at(node).intersection;
        meets_any(&self.network, m, self.reserved(self.rows().len() as int, key, false))
    }

    /// A moving crosser will still traverse a movement whose path meets `m`'s.
    pub open spec fn will_sweep(&self, o: &NetVehicle, m: MovementId) -> bool {
        let inner = self.inner_path(o, self.network.landing((o.crossing->0).movement));
        Self::is_moving(o) && meets_any(&self.network, m, inner)
    }

    /// The `k`-th conflict point of a node.
    pub open spec fn point(&self, node: NodeId, k: int) -> Conflict {
        self.network.conflicts@[self.network.node_at(node).conflicts@[k] as int]
    }

    /// Some conflict point of the node belongs to the two movements.
    pub open spec fn is_timed(&self, node: NodeId, a: MovementId, b: MovementId) -> bool {
        exists|k: int|
            0 <= k < self.network.node_at(node).conflicts@.len() && Network::pairs(
                #[trigger] self.point(node, k),
                a,
                b,
            )
    }

    /// The crosser owns a shared point short of the entrant's hold.
    pub open spec fn owns_shared(
        &self,
        node: NodeId,
        m: MovementId,
        o: &NetVehicle,
        hold: Option<Quantity>,
        times: Seq<PointTiming>,
    ) -> bool {
        exists|k: int|
            0 <= k < self.network.node_at(node).conflicts@.len() && self.contests(
                node,
                m,
                o,
                hold,
                #[trigger] times[k],
                k,
            )
    }

    /// The crosser owns the `k`-th point of the node against the entrant.
    pub open spec fn contests(
        &self,
        node: NodeId,
        m: MovementId,
        o: &NetVehicle,
        hold: Option<Quantity>,
        t: PointTiming,
        k: int,
    ) -> bool {
        let c = self.point(node, k);
        &&& Network::pairs(c, m, (o.crossing->0).movement)
        &&& !(hold is Some && hold->0.is_at_most(own_arc(c, m)))
        &&& owns_point(o, t)
    }

    /// One crosser keeps the box closed to the entrant.
    pub open spec fn keeps_closed(
        &self,
        node: NodeId,
        m: MovementId,
        o: &NetVehicle,
        hold: Option<Quantity>,
        times: Seq<PointTiming>,
    ) -> bool {
        self.will_sweep(o, m) || (self.network.paths_cross(m, (o.crossing->0).movement) && (
        !self.is_timed(node, m, (o.crossing->0).movement) || self.owns_shared(
            node,
            m,
            o,
            hold,
            times,
        )))
    }

    /// Some crosser keeps the box closed; `times` has a row per crosser and in it
    /// an entry per conflict point of the node.
    pub open spec fn box_closed(
        &self,
        m: MovementId,
        node: NodeId,
        hold: Option<Quantity>,
        times: Seq<Vec<PointTiming>>,
    ) -> bool {
        let inside = indices_where(
            self.rows().len() as int,
            self.crosses_at(self.network.node_at(node).intersection),
        );
        exists|a: int|
            0 <= a < inside.len() && self.keeps_closed(
                node,
                m,
                &self.rows()[inside[a] as int],
                hold,
                (#[trigger] times[a])@,
            )
    }

    /// A table of timings fits the crossers and conflict points at the node.
    pub open spec fn times_fit(&self, node: NodeId, times: Seq<Vec<PointTiming>>) -> bool {
        &&& times.len() == indices_where(
            self.rows().len() as int,
            self.crosses_at(self.network.node_at(node).intersection),
        ).len()
        &&& forall|a: int|
            0 <= a < times.len() ==> (#[trigger] times[a])@.len() == self.network.node_at(
                node,
            ).conflicts@.len()
    }

    /// Some movement off the link has its box taken.
    pub open spec fn link_taken(&self, link: LinkId) -> bool {
        exists|m: MovementId|
            self.network.has_movement(m) && self.network.link_of(self.network.movement_at(m).from_lane)
                == link && #[trigger] self.box_taken(m, self.network.movement_at(m).node)
    }

    /// The movement lands inside a junction, on a link off which some box is taken.
    pub open spec fn lands_on_taken(&self, m: MovementId) -> bool {
        let lane = self.network.landing(m);
        is_internal(&self.network, lane) && self.link_taken(self.network.link_of(lane))
    }

    /// Somewhere on the path inside the junction the vehicle could take a movement
    /// whose box is taken.
    pub open spec fn inner_taken(&self, v: &NetVehicle, m: MovementId) -> bool {
        exists|k: int|
            0 <= k < self.committed_path(v, m).len() && self.lands_on_taken(
                #[trigger] self.committed_path(v, m)[k],
            )
    }

    /// The box is closed somewhere on the path that entering commits to.
    pub open spec fn path_closed(
        &self,
        v: &NetVehicle,
        m: MovementId,
        node: NodeId,
        hold: Option<Quantity>,
        times: Seq<Vec<PointTiming>>,
    ) -> bool {
        self.box_closed(m, node, hold, times) || self.inner_taken(v, m)
    }

    /// What the gates need: a sound world and its neighbours.
    pub open spec fn gated(&self, nb: &Neighbors) -> bool {
        self.wf() && nb.groups_of(self)
    }

    proof fn lemma_crossers(&self, nb: &Neighbors, key: u32)
        requires
            self.gated(nb),
        ensures
            forall|a: int|
                #![trigger nb.crossing_at.group(key)[a]]
                0 <= a < nb.crossing_at.group(key).len() ==> nb.crossing_at.group(key)[a]
                    < self.rows().len() && self.crosses_at(key)(
                    nb.crossing_at.group(key)[a] as int,
                ) && self.rows()[nb.crossing_at.group(key)[a] as int].placed(&self.network),
            forall|j: int|
                0 <= j < self.rows().len() && #[trigger] self.crosses_at(key)(j)
                    ==> nb.crossing_at.group(key).contains(j as usize),
    {
        assert(self.rows().len() == self.fleet.rows.len());
        lemma_indices(self.rows().len() as int, self.crosses_at(key));
        assert forall|a: int| #![trigger nb.crossing_at.group(key)[a]]
            0 <= a < nb.crossing_at.group(key).len() implies nb.crossing_at.group(key)[a]
            < self.rows().len() && self.crosses_at(key)(nb.crossing_at.group(key)[a] as int)
            && self.rows()[nb.crossing_at.group(key)[a] as int].placed(&self.network) by {
            let j = indices_where(self.rows().len() as int, self.crosses_at(key))[a];
            assert(self.rows()[j as int].placed(&self.network));
        }
    }
}

impl NetWorld {
    /// The colour a movement is shown; green where no signal stands.
    pub fn movement_state(&self, m: MovementId) -> (r: SignalState)
        requires
            self.wf(),
            self.network.has_movement(m),
        ensures
            r == self.colour(m),
    {
        assert(self.network.movement_ok(m.0 as int));
        match self.network.movement(m).signal_group {
            Some(g) => self.signals[g as usize],
            None => SignalState::Green,
        }
    }

    /// Whether a leaving tail behind this movement is followed into the box:
    /// at signals, continuations and interchanges.
    pub fn departing_exemption(&self, m: MovementId) -> (r: bool)
        requires
            self.wf(),
            self.network.has_movement(m),
        ensures
            r == self.exempts_departing(m),
    {
        assert(self.network.movement_ok(m.0 as int));
        let mv = self.network.movement(m);
        let signalized = match self.network.node(mv.node).control {
            NodeControl::Signalized(_) => true,
            _ => false,
        };
        signalized || mv.continuation || mv.interchange
    }

    /// Whether a movement rides the free-flow exemptions: an interchange
    /// movement that meets no other path.
    pub fn free_flow_interchange(&self, m: MovementId) -> (r: bool)
        requires
            self.wf(),
            self.network.has_movement(m),
        ensures
            r == self.flows_free(m),
    {
        self.network.movement(m).interchange && !self.topology.movement_conflicted[m.0 as usize]
    }

    /// Whether a movement is the continuation of a corridor.
    pub fn is_intra_corridor(&self, m: MovementId) -> (r: bool)
        requires
            self.wf(),
            self.network.has_movement(m),
        ensures
            r == self.stays_in_corridor(m),
    {
        assert(self.network.movement_ok(m.0 as int));
        let mv = self.network.movement(m);
        assert(self.topology.corridors.next@[mv.from_lane.0 as int] == successor(
            &self.network,
            mv.from_lane,
        ));
        match self.topology.corridors.next[mv.from_lane.0 as usize] {
            Some(next) => next.0 == mv.to_lane.0,
            None => false,
        }
    }

    /// Whether a boundary is crossed without an admission gate.
    pub fn free_flow_seam(&self, m: MovementId) -> (r: bool)
        requires
            self.wf(),
            self.network.has_movement(m),
        ensures
            r == self.is_free_seam(m),
    {
        self.is_intra_corridor(m) || self.topology.seam_primary[m.0 as usize]
    }

    /// Whether a movement is a right turn on red.
    pub fn is_rtor(&self, m: MovementId) -> (r: bool)
        requires
            self.wf(),
            self.network.has_movement(m),
        ensures
            r == self.turns_on_red(m),
    {
        self.network.movement(m).turn == TurnType::Right && !self.network.movement(m).interchange
            && self.movement_state(m) == SignalState::Red
    }

    fn live_point(&self, node: NodeId, m: MovementId, k: usize) -> (r: bool)
        requires
            self.wf(),
            self.network.has_node(node),
            k < self.network.node_at(node).conflicts@.len(),
        ensures
            r == self.is_live(node, m, k as int),
    {
        assert(self.network.node_ok(node.0 as int));
        let ci = self.network.node(node).conflicts[k] as usize;
        assert(self.network.conflict_ok(ci as int));
        let c = self.network.conflicts[ci];
        if c.a == m {
            self.movement_state(c.b) != SignalState::Red
        } else if c.b == m {
            self.movement_state(c.a) != SignalState::Red
        } else {
            false
        }
    }

    /// Whether a left has a live conflict in its node.
    pub fn left_is_permissive(&self, m: MovementId) -> (r: bool)
        requires
            self.wf(),
            self.network.has_movement(m),
        ensures
            r == self.has_live_conflict(m),
    {
        assert(self.network.movement_ok(m.0 as int));
        let node = self.network.movement(m).node;
        let n = self.network.node(node).conflicts.len();
        let mut k: usize = 0;
        while k < n
            invariant
                self.wf(),
                self.network.has_node(node),
                node == self.network.movement_at(m).node,
                n == self.network.node_at(node).conflicts@.len(),
                k <= n,
                forall|j: int| 0 <= j < k ==> !#[trigger] self.is_live(node, m, j),
            decreases n - k,
        {
            if self.live_point(node, m, k) {
                assert(self.is_live(node, m, k as int));
                return true;
            }
            k += 1;
        }
        false
    }

    /// Whether a movement may go but must give way.
    pub fn is_permissive(&self, m: MovementId) -> (r: bool)
        requires
            self.wf(),
            self.network.has_movement(m),
        ensures
            r == self.gives_way(m),
    {
        let mv = self.network.movement(m);
        if mv.interchange {
            return false;
        }
        match mv.turn {
            TurnType::Right => self.movement_state(m) == SignalState::Red,
            TurnType::Left => mv.signal_group.is_some() && self.movement_state(m)
                == SignalState::Green && self.left_is_permissive(m),
            TurnType::Through => false,
        }
    }

    /// The arc of a movement's first conflict point against a movement that is
    /// not held by a red.
    pub fn first_live_conflict_arc(&self, m: MovementId, node: NodeId) -> (r: Option<Quantity>)
        requires
            self.wf(),
            self.network.has_node(node),
        ensures
            r == self.first_live_arc(m, node),
    {
        let n = self.network.node(node).conflicts.len();
        let mut first = Quantity::at(INFINITY);
        let mut k: usize = 0;
        while k < n
            invariant
                self.wf(),
                self.network.has_node(node),
                n == self.network.node_at(node).conflicts@.len(),
                k <= n,
                first == self.live_arc_upto(node, m, k as int),
            decreases n - k,
        {
            if self.live_point(node, m, k) {
                assert(self.network.node_ok(node.0 as int));
                let c = self.network.conflicts[self.network.node(node).conflicts[k] as usize];
                let arc = if c.a == m {
                    c.sa
                } else {
                    c.sb
                };
                first = first.least(arc);
            }
            k += 1;
        }
        if first.finite() {
            Some(first)
        } else {
            None
        }
    }

    /// Where a green left may stand inside the box and wait, if it may: `hold`
    /// is the measured arc short of its first live conflict point.
    pub fn permissive_waiter_hold(
        &self,
        i: usize,
        m: MovementId,
        node: NodeId,
        nb: &Neighbors,
        hold: Quantity,
    ) -> (r: Option<Quantity>)
        requires
            self.gated(nb),
            self.network.has_movement(m),
            self.network.has_node(node),
        ensures
            r == self.waiter_hold(i as int, m, node, hold),
    {
        if self.network.movement(m).turn != TurnType::Left || !self.is_permissive(m) {
            return None;
        }
        if self.first_live_conflict_arc(m, node).is_none() {
            return None;
        }
        if hold.below(Quantity::at(SHALLOWEST_HOLD)) {
            return None;
        }
        let key = self.network.node(node).intersection;
        proof {
            self.lemma_crossers(nb, key);
        }
        assert(self.rows().len() == self.fleet.rows.len());
        if let Some(inside) = nb.crossing_at.get(&key) {
            let mut a: usize = 0;
            while a < inside.len()
                invariant
                    self.gated(nb),
                    inside@ == nb.crossing_at.group(key),
                    a <= inside@.len(),
                    key == self.network.node_at(node).intersection,
                    forall|x: int|
                        #![trigger nb.crossing_at.group(key)[x]]
                        0 <= x < nb.crossing_at.group(key).len() ==> nb.crossing_at.group(key)[x]
                            < self.rows().len() && self.crosses_at(key)(
                            nb.crossing_at.group(key)[x] as int,
                        ),
                    forall|x: int|
                        0 <= x < a ==> #[trigger] inside@[x] == i || (
                        self.rows()[inside@[x] as int].crossing->0).movement != m,
                decreases inside@.len() - a,
            {
                let j = inside[a];
                assert(nb.crossing_at.group(key)[a as int] == j);
                assert(self.crosses_at(key)(j as int));
                if j != i {
                    if let Some(c) = self.fleet.rows[j].crossing {
                        if c.movement == m {
                            assert(self.someone_waits(i as int, m, key));
                            return None;
                        }
                    }
                }
                a += 1;
            }
            assert forall|j: int|
                0 <= j < self.rows().len() && j != i && #[trigger] self.crosses_at(key)(j) implies (
            self.rows()[j].crossing->0).movement != m by {
                assert(inside@.contains(j as usize));
                let x = choose|x: int| 0 <= x < inside@.len() && inside@[x] == j as usize;
                assert(inside@[x] == i || (self.rows()[inside@[x] as int].crossing->0).movement != m);
            }
        }
        Some(hold)
    }

    /// Whether the path of some crosser at the intersection meets the movement's:
    /// one must not enter an occupied box.
    pub fn box_conflict(&self, m: MovementId, node: NodeId, nb: &Neighbors) -> (r: bool)
        requires
            self.gated(nb),
            self.network.has_movement(m),
            self.network.has_node(node),
        ensures
            r == self.box_taken(m, node),
    {
        let key = self.network.node(node).intersection;
        self.conflicts_with_any(m, &nb.crossing_mvs, key)
    }

    pub(crate) fn conflicts_with_any(
        &self,
        m: MovementId,
        mvs: &GroupMap<MovementId>,
        key: u32,
    ) -> (r: bool)
        requires
            self.network.wf(),
            self.network.has_movement(m),
            mvs.wf(),
        ensures
            r == meets_any(&self.network, m, mvs.group(key)),
    {
        match mvs.get(&key) {
            Some(list) => {
                let mut k: usize = 0;
                while k < list.len()
                    invariant
                        self.network.wf(),
                        self.network.has_movement(m),
                        list@ == mvs.group(key),
                        k <= list@.len(),
                        forall|j: int|
                            0 <= j < k ==> !self.network.paths_cross(m, #[trigger] list@[j]),
                    decreases list@.len() - k,
                {
                    if self.network.movements_conflict(m, list[k]) {
                        assert(self.network.paths_cross(m, list@[k as int]));
                        return true;
                    }
                    k += 1;
                }
                false
            },
            None => false,
        }
    }

    fn sweeps(&self, o: &NetVehicle, m: MovementId) -> (r: bool)
        requires
            self.wf(),
            o.placed(&self.network),
            o.crossing is Some,
            self.network.has_movement(m),
        ensures
            r == self.will_sweep(o, m),
    {
        if !Quantity::at(MOVING_SPEED).at_most(o.speed) {
            return false;
        }
        let cm = o.crossing.unwrap().movement;
        let path = self.path_movements(o, cm);
        let ghost inner = self.inner_path(o, self.network.landing(cm));
        assert(path@ == seq![cm] + inner);
        let mut k: usize = 1;
        while k < path.len()
            invariant
                self.wf(),
                self.network.has_movement(m),
                path@ == seq![cm] + inner,
                inner == self.inner_path(o, self.network.landing(cm)),
                Self::is_moving(o),
                cm == (o.crossing->0).movement,
                1 <= k <= path@.len(),
                forall|j: int|
                    0 <= j < k - 1 ==> !self.network.paths_cross(m, #[trigger] inner[j]),
            decreases path@.len() - k,
        {
            assert(path@[k as int] == inner[k - 1]);
            if self.network.movements_conflict(m, path[k]) {
                assert(self.network.paths_cross(m, inner[k - 1]));
                return true;
            }
            k += 1;
        }
        assert(inner.len() == path@.len() - 1);
        false
    }

    fn crosser_keeps_closed(
        &self,
        node: NodeId,
        m: MovementId,
        o: &NetVehicle,
        hold: Option<Quantity>,
        times: &Vec<PointTiming>,
    ) -> (r: bool)
        requires
            self.wf(),
            o.placed(&self.network),
            o.crossing is Some,
            self.network.has_movement(m),
            self.network.has_node(node),
            times@.len() == self.network.node_at(node).conflicts@.len(),
        ensures
            r == self.keeps_closed(node, m, o, hold, times@),
    {
        if self.sweeps(o, m) {
            return true;
        }
        let cm = o.crossing.unwrap().movement;
        if !self.network.movements_conflict(m, cm) {
            return false;
        }
        let standing = o.speed.below(Quantity::at(MOVING_SPEED));
        let n = self.network.node(node).conflicts.len();
        let mut timed: bool = false;
        let mut k: usize = 0;
        while k < n
            invariant
                self.wf(),
                self.network.has_node(node),
                n == self.network.node_at(node).conflicts@.len(),
                times@.len() == n,
                o.crossing is Some,
                cm == (o.crossing->0).movement,
                standing == is_standing(o),
                self.network.paths_cross(m, cm),
                k <= n,
                timed <==> exists|j: int|
                    0 <= j < k && Network::pairs(#[trigger] self.point(node, j), m, cm),
                forall|j: int|
                    0 <= j < k ==> !self.contests(node, m, o, hold, #[trigger] times@[j], j),
            decreases n - k,
        {
            assert(self.network.node_ok(node.0 as int));
            let c = self.network.conflicts[self.network.node(node).conflicts[k] as usize];
            assert(c == self.point(node, k as int));
            if (c.a == m && c.b == cm) || (c.b == m && c.a == cm) {
                timed = true;
                assert(Network::pairs(self.point(node, k as int), m, cm));
                let arc = if c.a == m {
                    c.sa
                } else {
                    c.sb
                };
                let beyond = match hold {
                    Some(h) => h.at_most(arc),
                    None => false,
                };
                let t = times[k];
                if !beyond && !t.tail_clear.at_most(t.arc) && !(standing && Quantity::at(
                    CLAIM_REACH,
                ).below(t.short_by)) && t.t_reach.below(t.t_free) {
                    assert(self.contests(node, m, o, hold, times@[k as int], k as int));
                    assert(self.owns_shared(node, m, o, hold, times@));
                    return true;
                }
            }
            k += 1;
        }
        !timed
    }

    /// Whether a crosser still owns a point of the movement's path when the
    /// entrant would get there. `times` has a row per crosser at the
    /// intersection and in it an entry per conflict point of the node; points at
    /// or beyond the entrant's hold are not contested.
    pub fn box_conflict_graded(
        &self,
        m: MovementId,
        node: NodeId,
        nb: &Neighbors,
        hold: Option<Quantity>,
        times: &Vec<Vec<PointTiming>>,
    ) -> (r: bool)
        requires
            self.gated(nb),
            self.network.has_movement(m),
            self.network.has_node(node),
            self.times_fit(node, times@),
        ensures
            r == self.box_closed(m, node, hold, times@),
    {
        let key = self.network.node(node).intersection;
        proof {
            self.lemma_crossers(nb, key);
        }
        let ghost inside0 = indices_where(self.rows().len() as int, self.crosses_at(key));
        match nb.crossing_at.get(&key) {
            Some(inside) => {
                let mut a: usize = 0;
                while a < inside.len()
                    invariant
                        self.gated(nb),
                        self.network.has_movement(m),
                        self.network.has_node(node),
                        self.times_fit(node, times@),
                        key == self.network.node_at(node).intersection,
                        inside0 == indices_where(self.rows().len() as int, self.crosses_at(key)),
                        inside@ == inside0,
                        inside@ == nb.crossing_at.group(key),
                        a <= inside@.len(),
                        forall|x: int|
                            #![trigger nb.crossing_at.group(key)[x]]
                            0 <= x < nb.crossing_at.group(key).len() ==> nb.crossing_at.group(
                                key,
                            )[x] < self.rows().len() && self.crosses_at(key)(
                                nb.crossing_at.group(key)[x] as int,
                            ) && self.rows()[nb.crossing_at.group(key)[x] as int].placed(
                                &self.network,
                            ),
                        forall|x: int|
                            0 <= x < a ==> !self.keeps_closed(
                                node,
                                m,
                                &self.rows()[inside0[x] as int],
                                hold,
                                (#[trigger] times@[x])@,
                            ),
                    decreases inside@.len() - a,
                {
                    let j = inside[a];
                    assert(nb.crossing_at.group(key)[a as int] == j);
                    if self.crosser_keeps_closed(node, m, &self.fleet.rows[j], hold, &times[a]) {
                        assert(self.keeps_closed(
                            node,
                            m,
                            &self.rows()[inside0[a as int] as int],
                            hold,
                            times@[a as int]@,
                        ));
                        return true;
                    }
                    a += 1;
                }
                false
            },
            None => false,
        }
    }

    fn link_has_taken(&self, link: LinkId, nb: &Neighbors) -> (r: bool)
        requires
            self.gated(nb),
            self.network.has_link(link),
        ensures
            r == self.link_taken(link),
    {
        let net = &self.network;
        assert(net.link_ok(link.0 as int));
        let l = net.link(link);
        let mut x: u32 = 0;
        while x < l.lane_count
            invariant
                self.gated(nb),
                *net == self.network,
                net.has_link(link),
                net.link_ok(link.0 as int),
                *l == net.link_at(link),
                x <= l.lane_count,
                forall|m: MovementId|
                    net.has_movement(m) && l.lane_start.0 <= net.movement_at(m).from_lane.0
                        < l.lane_start.0 + x ==> !#[trigger] self.box_taken(
                        m,
                        net.movement_at(m).node,
                    ),
            decreases l.lane_count - x,
        {
            let id = LaneId(l.lane_start.0 + x);
            let lane = net.lane(id);
            assert(net.lane_ok(id.0 as int));
            let mut k: u32 = 0;
            while k < lane.movement_count
                invariant
                    self.gated(nb),
                    *net == self.network,
                    net.has_link(link),
                    net.link_ok(link.0 as int),
                    *l == net.link_at(link),
                    x < l.lane_count,
                    id.0 == l.lane_start.0 + x,
                    net.has_lane(id),
                    net.lane_ok(id.0 as int),
                    *lane == net.lane_at(id),
                    k <= lane.movement_count,
                    forall|m: MovementId|
                        net.has_movement(m) && l.lane_start.0 <= net.movement_at(m).from_lane.0
                            < l.lane_start.0 + x ==> !#[trigger] self.box_taken(
                            m,
                            net.movement_at(m).node,
                        ),
                    forall|m: MovementId|
                        lane.movement_start.0 <= m.0 < lane.movement_start.0 + k
                            ==> !#[trigger] self.box_taken(m, net.movement_at(m).node),
                decreases lane.movement_count - k,
            {
                let m = MovementId(lane.movement_start.0 + k);
                assert(net.movement_ok(m.0 as int));
                if self.box_conflict(m, net.movement(m).node, nb) {
                    assert(net.movements@[m.0 as int].from_lane.0 == id.0);
                    assert(net.lanes@[id.0 as int].link.0 == link.0);
                    assert(self.box_taken(m, net.movement_at(m).node));
                    return true;
                }
                k += 1;
            }
            assert forall|m: MovementId|
                net.has_movement(m) && l.lane_start.0 <= net.movement_at(m).from_lane.0
                    < l.lane_start.0 + x + 1 implies !#[trigger] self.box_taken(
                m,
                net.movement_at(m).node,
            ) by {
                if net.movement_at(m).from_lane.0 == id.0 {
                    assert(net.movement_ok(m.0 as int));
                    assert(net.leaves(MovementId(m.0), id));
                }
            }
            x += 1;
        }
        assert forall|m: MovementId|
            net.has_movement(m) && net.link_of(net.movement_at(m).from_lane) == link implies !#[trigger] self.box_taken(
        m, net.movement_at(m).node) by {
            assert(net.movement_ok(m.0 as int));
            let f = net.movement_at(m).from_lane;
            assert(net.lane_ok(f.0 as int));
        }
        false
    }

    fn lands_where_taken(&self, m: MovementId, nb: &Neighbors) -> (r: bool)
        requires
            self.gated(nb),
            self.network.has_movement(m),
        ensures
            r == self.lands_on_taken(m),
    {
        assert(self.network.movement_ok(m.0 as int));
        let lane = self.network.movement(m).to_lane;
        assert(self.network.lane_ok(lane.0 as int));
        self.network.junction_internal_lane(lane) && self.link_has_taken(
            self.network.lane(lane).link,
            nb,
        )
    }

    /// Whether the box is closed somewhere on the whole path that entering on
    /// `m` commits the vehicle to.
    pub fn box_conflict_on_path_holding(
        &self,
        v: &NetVehicle,
        m: MovementId,
        node: NodeId,
        nb: &Neighbors,
        hold: Option<Quantity>,
        times: &Vec<Vec<PointTiming>>,
    ) -> (r: bool)
        requires
            self.gated(nb),
            v.placed(&self.network),
            self.network.has_movement(m),
            self.network.has_node(node),
            self.times_fit(node, times@),
        ensures
            r == self.path_closed(v, m, node, hold, times@),
    {
        if self.box_conflict_graded(m, node, nb, hold, times) {
            return true;
        }
        let path = self.path_movements(v, m);
        let mut k: usize = 0;
        while k < path.len()
            invariant
                self.gated(nb),
                path@ == self.committed_path(v, m),
                forall|j: int|
                    0 <= j < path@.len() ==> self.network.has_movement(#[trigger] path@[j]),
                !self.box_closed(m, node, hold, times@),
                k <= path@.len(),
                forall|j: int| 0 <= j < k ==> !self.lands_on_taken(#[trigger] path@[j]),
            decreases path@.len() - k,
        {
            if self.lands_where_taken(path[k], nb) {
                assert(self.lands_on_taken(self.committed_path(v, m)[k as int]));
                return true;
            }
            k += 1;
        }
        false
    }
}

} // verus!
