//! At the end of a lane: whether a vehicle enters the node, holds at the line or
//! leaves the network, and whether one inside the node lands or holds at its far
//! edge.

use vstd::prelude::*;
use crate::boxes::{meets_any, DEPARTING_SPEED};
use crate::fleet::{Crossing, Fate, LaneChange, NetVehicle};
use crate::groups::GroupMap;
use crate::network::{LaneId, LinkId, MovementId, NodeId, SignalState};
use crate::occupancy::{ShardMaps, Tail};
use crate::paths::{is_internal, nth_lane};
use crate::search::{least_index, lemma_least, lemma_least_step};
use crate::quantity::{place, Quantity, ZERO};
use crate::solver::{joined, leads};
use crate::world::NetWorld;

verus! {

broadcast use vstd::std_specs::hash::group_hash_axioms;

/// Above this squared speed even full braking carries a vehicle well into the
/// box. Place of 36 m²/s².
pub const COMMITTED_SPEED_SQ: i64 = 0x4042_0000_0000_0000;

/// A stop line is served within this distance of it. Place of 5 m.
pub const STOP_WINDOW: i64 = 0x4014_0000_0000_0000;

/// A sideways move is over at this progress. Place of 1.
pub const CHANGE_DONE: i64 = 0x3FF0_0000_0000_0000;

/// A landing this close to its lane's line needs no sideways blend. Place of 0.97.
pub const BLEND_LIMIT: i64 = 0x3FEF_0A3D_70A3_D70A;

/// What is measured of the lane that a movement lands on.
#[derive(Clone, Copy, Debug, PartialEq, Eq, Structural)]
pub struct ReceivingView {
    /// The path through the box to the tail, less what is promised.
    pub path_room: Quantity,
    /// The following distance that a leaving tail asks for.
    pub margin: Quantity,
    /// The entrance up to the tail, less what is promised.
    pub net_room: Quantity,
    /// The room that a standing tail must leave.
    pub commit_room: Quantity,
    /// The whole lane less what is promised.
    pub spare: Quantity,
    /// The vehicle's length and gap.
    pub unit: Quantity,
}

/// What is measured of a vehicle at the far edge of a node.
#[derive(Clone, Copy, Debug, PartialEq, Eq, Structural)]
pub struct LandingView {
    /// The vehicle's arc inside the node.
    pub arc: Quantity,
    /// The length of the movement's path.
    pub path_len: Quantity,
    /// Where it would land.
    pub land_pos: Quantity,
    /// The farthest it may land behind the tail.
    pub behind_tail: Quantity,
    /// The far edge of the node, as a position.
    pub edge_pos: Quantity,
    /// Its speed after braking to hold.
    pub held_speed: Quantity,
    /// The speed at which it can follow the tail.
    pub safe_speed: Quantity,
    /// Its rear once landed.
    pub rear: Quantity,
    /// What is promised on the lane once its own promise is redeemed.
    pub promised_after: Quantity,
    /// The neighbouring lane that its arrival is nearest to, and how far it is over.
    pub blend_from: Option<LaneId>,
    pub blend: Quantity,
}

/// What is measured of a vehicle at the end of its lane.
#[derive(Clone, Copy, Debug, PartialEq, Eq, Structural)]
pub struct BoundaryView {
    pub speed_sq: Quantity,
    /// The driver misses this red light.
    pub misses_red: bool,
    pub receiving: ReceivingView,
    /// How many vehicles of its size the landing lane holds.
    pub slots: u32,
    /// How far off its lane line it sits.
    pub lat_shift: Quantity,
    /// What is promised on the landing lane with this vehicle.
    pub promised_with: Quantity,
    /// Its speed after braking to hold.
    pub held_speed: Quantity,
    pub landing: LandingView,
}

/// What is measured of a vehicle after it has moved within its lane.
#[derive(Clone, Copy, Debug, PartialEq, Eq, Structural)]
pub struct MotionView {
    pub position: Quantity,
    pub speed: Quantity,
    /// Progress of a sideways move.
    pub progress: Quantity,
    /// Distance left to the line.
    pub to_line: Quantity,
    /// Below this speed the driver's stop counts as served.
    pub roll_speed: Quantity,
}

/// The lane can take the whole vehicle past the box: behind a leaving tail at a
/// margin where that is allowed, behind any other with room to commit, and on an
/// empty lane unless what is promised fills it.
pub open spec fn can_receive(tail: Option<Tail>, promised: Quantity, exempt: bool, r: ReceivingView) -> bool {
    match tail {
        Some(t) => if place(DEPARTING_SPEED).is_at_most(t.speed) && exempt {
            r.margin.is_at_most(r.path_room)
        } else {
            r.commit_room.is_at_most(r.net_room)
        },
        None => promised.is_at_most(place(ZERO)) || r.unit.is_at_most(r.spare),
    }
}

/// The entrance is clear enough to land on.
pub open spec fn entrance_free(tail: Option<Tail>, min_gap: Quantity) -> bool {
    match tail {
        Some(t) => min_gap.is_at_most(t.rear),
        None => true,
    }
}

impl NetWorld {
    /// Some movement that an earlier vehicle committed to this tick meets the path.
    pub open spec fn meets_entered(&self, path: Seq<MovementId>, entered: &GroupMap<MovementId>) -> bool {
        exists|k: int|
            0 <= k < path.len() && self.entered_meets(#[trigger] path[k], entered)
    }

    /// A movement committed to at the movement's intersection meets its path.
    pub open spec fn entered_meets(&self, m: MovementId, entered: &GroupMap<MovementId>) -> bool {
        meets_any(&self.network, m, entered.group(self.movement_key(m)))
    }

    /// The intersection of a movement.
    pub open spec fn movement_key(&self, m: MovementId) -> u32 {
        self.network.node_at(self.network.movement_at(m).node).intersection
    }

    /// Signal, meter and railway let the vehicle go.
    pub open spec fn is_served(&self, v: &NetVehicle, m: MovementId, misses_red: bool) -> bool {
        let node = self.network.end_of(v.lane);
        &&& self.colour(m) != SignalState::Red || is_internal(&self.network, v.lane) || (
        self.turns_on_red(m) && v.stopped_at == Some(node)) || misses_red
        &&& !self.meter_holds(self.network.link_of(v.lane))
        &&& !self.train_passes(node)
    }

    /// A lane inside a junction has a slot left; other lanes are not counted.
    pub open spec fn has_slot(&self, m: MovementId, occ: &ShardMaps, slots: u32) -> bool {
        let to = self.network.landing(m);
        !is_internal(&self.network, to) || occ.taken(to) < slots
    }

    /// The gated way in: served and clear, or too fast to stop; and in any case
    /// with room to land and a slot inside.
    pub open spec fn gate_admits(
        &self,
        v: &NetVehicle,
        m: MovementId,
        block: bool,
        occ: &ShardMaps,
        entered: &GroupMap<MovementId>,
        g: BoundaryView,
    ) -> bool {
        let clear = !block && !self.meets_entered(self.committed_path(v, m), entered);
        let to = self.network.landing(m);
        ((self.is_served(v, m, g.misses_red) && clear) || place(COMMITTED_SPEED_SQ).is_below(
            g.speed_sq,
        )) && can_receive(
            occ.tail(to),
            occ.promised(to),
            self.exempts_departing(m),
            g.receiving,
        ) && self.has_slot(m, occ, g.slots)
    }

    /// The vehicle enters the node on `m`: freely on a seam that nothing blocks,
    /// else by being admitted.
    pub open spec fn admits(
        &self,
        v: &NetVehicle,
        m: MovementId,
        block: bool,
        occ: &ShardMaps,
        entered: &GroupMap<MovementId>,
        g: BoundaryView,
    ) -> bool {
        (self.is_free_seam(m) && !block && !self.meets_entered(self.committed_path(v, m), entered))
            || self.gate_admits(v, m, block, occ, entered, g)
    }

    /// The slots after a vehicle has left `from` in flight to where `m` lands.
    pub open spec fn slots_after(&self, occ: &ShardMaps, from: LaneId, m: MovementId) -> Map<u32, u32> {
        let to = self.network.landing(m);
        let left = if is_internal(&self.network, from) && occ.interior_occ@.contains_key(from.0) {
            let n = occ.interior_occ@[from.0];
            occ.interior_occ@.insert(from.0, if n > 0 {
                (n - 1) as u32
            } else {
                0
            })
        } else {
            occ.interior_occ@
        };
        if is_internal(&self.network, to) {
            left.insert(to.0, if left.contains_key(to.0) {
                (left[to.0] + 1) as u32
            } else {
                1
            })
        } else {
            left
        }
    }

    /// The sideways blend that a vehicle lands with.
    pub open spec fn landing_blend(&self, m: MovementId, g: LandingView) -> Option<LaneChange> {
        if self.network.movement_at(m).continuation && g.blend_from is Some && g.blend.is_below(
            place(BLEND_LIMIT),
        ) {
            Some(LaneChange { from: g.blend_from->0, progress: g.blend })
        } else {
            None
        }
    }

    /// The landing is blocked: it would end inside the tail, or at a gated
    /// boundary the entrance is not clear.
    pub open spec fn landing_blocked(&self, v: &NetVehicle, tail: Option<Tail>, g: LandingView) -> bool {
        let m = (v.crossing->0).movement;
        (tail is Some && g.behind_tail.is_below(g.land_pos)) || (!self.is_free_seam(m)
            && !entrance_free(tail, v.driver.min_gap))
    }

    /// The vehicle is still on its path inside the node.
    pub open spec fn still_inside(g: LandingView) -> bool {
        g.arc.is_below(g.path_len)
    }

    /// The vehicle lands this tick.
    pub open spec fn lands(&self, v: &NetVehicle, tail: Option<Tail>, g: LandingView) -> bool {
        !Self::still_inside(g) && !self.landing_blocked(v, tail, g)
    }

    /// The speed that a vehicle lands with: no faster than it can follow the tail.
    pub open spec fn landing_speed(v: &NetVehicle, tail: Option<Tail>, g: LandingView) -> Quantity {
        if tail is Some {
            v.speed.lesser(g.safe_speed)
        } else {
            v.speed
        }
    }

    /// The place in an explicit route after entering a link.
    pub open spec fn route_place(v: &NetVehicle, link: LinkId) -> usize {
        if v.route_idx + 1 < v.route@.len() && v.route@[v.route_idx + 1] == link {
            (v.route_idx + 1) as usize
        } else {
            v.route_idx
        }
    }

    /// The vehicle after trying to land behind a tail.
    pub open spec fn after_landing(&self, v: &NetVehicle, tail: Option<Tail>, g: LandingView) -> NetVehicle {
        let m = (v.crossing->0).movement;
        let to = self.network.landing(m);
        if Self::still_inside(g) {
            *v
        } else if self.landing_blocked(v, tail, g) {
            NetVehicle { position: g.edge_pos, speed: g.held_speed, ..*v }
        } else {
            NetVehicle {
                crossing: None,
                lane: to,
                position: g.land_pos,
                stopped_at: None,
                lane_change: self.landing_blend(m, g),
                speed: Self::landing_speed(v, tail, g),
                route_idx: Self::route_place(v, self.network.link_of(to)),
                ..*v
            }
        }
    }

    /// The tail of a lane.
    pub open spec fn tail_in(front: Map<u32, Tail>, lane: LaneId) -> Option<Tail> {
        if front.contains_key(lane.0) {
            Some(front[lane.0])
        } else {
            None
        }
    }

    /// The tails after a vehicle has tried to land.
    pub open spec fn tails_after(&self, v: &NetVehicle, front: Map<u32, Tail>, g: LandingView) -> Map<
        u32,
        Tail,
    > {
        let to = self.network.landing((v.crossing->0).movement);
        let tail = Self::tail_in(front, to);
        if self.lands(v, tail, g) && match tail {
            Some(t) => g.rear.is_below(t.rear),
            None => true,
        } {
            front.insert(to.0, Tail { rear: g.rear, speed: Self::landing_speed(v, tail, g) })
        } else {
            front
        }
    }

    /// The promises after a vehicle has tried to land behind a tail: its own is
    /// redeemed.
    pub open spec fn promises_after(
        &self,
        v: &NetVehicle,
        tail: Option<Tail>,
        inbound: Map<u32, Quantity>,
        g: LandingView,
    ) -> Map<u32, Quantity> {
        let m = (v.crossing->0).movement;
        let to = self.network.landing(m);
        if self.lands(v, tail, g) && !self.is_free_seam(m) && inbound.contains_key(to.0) {
            inbound.insert(to.0, g.promised_after)
        } else {
            inbound
        }
    }

    /// What becomes of a vehicle that tries to land.
    pub open spec fn landing_fate(&self, v: &NetVehicle, tail: Option<Tail>, g: LandingView) -> Fate {
        if self.lands(v, tail, g) {
            Fate::Entered(self.network.landing_link((v.crossing->0).movement))
        } else {
            Fate::Alive
        }
    }

    /// The vehicle just inside the node.
    pub open spec fn entered_vehicle(v: &NetVehicle, m: MovementId, g: BoundaryView) -> NetVehicle {
        NetVehicle {
            crossing: Some(
                Crossing {
                    movement: m,
                    lat_shift: if v.lane_change is Some {
                        g.lat_shift
                    } else {
                        place(ZERO)
                    },
                },
            ),
            lane_change: None,
            ..*v
        }
    }

    /// The promises once a vehicle has entered on `m`.
    pub open spec fn promises_with(&self, occ: &ShardMaps, m: MovementId, g: BoundaryView) -> Map<
        u32,
        Quantity,
    > {
        if self.is_free_seam(m) {
            occ.inbound@
        } else {
            occ.inbound@.insert(self.network.landing(m).0, g.promised_with)
        }
    }

    /// The movements that entering on `m` registers: the whole committed path of
    /// a gated entry at grade.
    pub open spec fn registers(&self, v: &NetVehicle, m: MovementId) -> Seq<MovementId> {
        if self.is_free_seam(m) || self.network.movement_at(m).interchange {
            Seq::empty()
        } else {
            self.committed_path(v, m)
        }
    }

    /// The movements of a path at one intersection, in order.
    pub open spec fn at_key(&self, path: Seq<MovementId>, key: u32) -> Seq<MovementId>
        decreases path.len(),
    {
        if path.len() == 0 {
            Seq::empty()
        } else {
            let before = self.at_key(path.drop_last(), key);
            if self.movement_key(path.last()) == key {
                before.push(path.last())
            } else {
                before
            }
        }
    }

    /// The vehicle still has an onward hop that it has not taken.
    pub open spec fn has_more_route(&self, v: &NetVehicle, from: LinkId) -> bool {
        if self.field_routed(v) {
            self.field_hop(v, from) is Some
        } else {
            v.route_idx + 1 < v.route@.len()
        }
    }

    /// Some link starts at the node.
    pub open spec fn leads_on(&self, node: NodeId) -> bool {
        exists|l: int| 0 <= l < self.network.links@.len() && (#[trigger] self.network.links@[l]).from == node
    }

    /// The movement that a vehicle at the end of its lane takes: the one it
    /// carries, or the one it resolves there.
    pub open spec fn resolved(&self, v: &NetVehicle, carried: Option<MovementId>) -> Option<MovementId> {
        crate::paths::or_else(carried, self.intended(v))
    }

    /// What becomes of a vehicle without a movement at the end of its lane.
    pub open spec fn fate_without_movement(&self, v: &NetVehicle) -> Fate {
        if self.has_more_route(v, self.network.link_of(v.lane)) && self.leads_on(
            self.network.end_of(v.lane),
        ) {
            Fate::Leaked
        } else {
            Fate::Exited
        }
    }

    /// The slot counts leave room for one more.
    pub open spec fn countable(occ: &ShardMaps) -> bool {
        forall|l: u32| #[trigger] occ.interior_occ@.contains_key(l) ==> occ.interior_occ@[l] < u32::MAX
    }
}

/// A vehicle only ever leaks where no lane of its link has a movement: a wrong
/// lane or a lost route is no reason to disappear.
pub proof fn a_vehicle_leaks_only_off_a_link_without_movements(w: &NetWorld, v: &NetVehicle, lane: LaneId)
    requires
        w.guides(),
        v.placed(&w.network),
        w.resolved(v, None) is None,
        w.fate_without_movement(v) == Fate::Leaked,
        w.network.has_lane(lane),
        w.network.link_of(lane) == w.network.link_of(v.lane),
    ensures
        w.network.lane_at(lane).movement_count == 0,
{
    crate::paths::only_arrival_or_a_dead_end_leaves_no_movement(w, v);
}

/// A vehicle is never lost at a node: one routed by field does not leak, nor one
/// on an explicit route whose next link is joined to its own.
pub proof fn routed_vehicles_never_leak(w: &NetWorld, v: &NetVehicle, carried: Option<MovementId>)
    requires
        w.guides(),
        v.placed(&w.network),
        w.field_routed(v) || (v.route_idx + 1 < v.route@.len() ==> joined(
            &w.network,
            w.network.link_of(v.lane),
            v.route@[v.route_idx + 1],
        )),
    ensures
        w.resolved(v, carried) is None ==> w.fate_without_movement(v) == Fate::Exited,
{
    let net = &w.network;
    let link = net.link_of(v.lane);
    assert(net.lane_ok(v.lane.0 as int));
    if w.resolved(v, carried) is None && w.fate_without_movement(v) == Fate::Leaked {
        let next = if w.field_routed(v) {
            lemma_hop_is_joined(w, v, link);
            w.field_hop(v, link)->0
        } else {
            v.route@[v.route_idx + 1]
        };
        assert(joined(net, link, next));
        let m = choose|m: int| 0 <= m < net.movements@.len() && #[trigger] leads(net, m, link, next);
        assert(net.movement_ok(m));
        let from = net.movements@[m].from_lane;
        assert(net.link_of(from) == link);
        a_vehicle_leaks_only_off_a_link_without_movements(w, v, from);
        assert(net.leaves(MovementId(m as u32), from));
    }
}

proof fn lemma_hop_is_joined(w: &NetWorld, v: &NetVehicle, link: LinkId)
    requires
        w.guides(),
        w.field_hop(v, link) is Some,
        w.network.has_link(link),
    ensures
        joined(&w.network, link, w.field_hop(v, link)->0),
{
    let r = w.router->0;
    let p = r.serves(v.dest->0);
    crate::search::lemma_first_index(0, r.slots().len() as int, p);
    let s = r.slot_of(v.dest->0)->0;
    assert(r.field(s).next@[link.0 as int] is Some);
    assert(LinkId(link.0 as int as u32) == link);
}

/// Admission never gives an inner lane more vehicles than it holds.
pub proof fn admission_never_overfills_a_junction(
    w: &NetWorld,
    v: &NetVehicle,
    m: MovementId,
    block: bool,
    occ: &ShardMaps,
    entered: &GroupMap<MovementId>,
    g: BoundaryView,
)
    requires
        w.gate_admits(v, m, block, occ, entered, g),
        is_internal(&w.network, w.network.landing(m)),
    ensures
        w.slots_after(occ, v.lane, m)[w.network.landing(m).0] <= g.slots,
{
}

/// Off the free-flow seams no vehicle enters a node without room to land for its
/// whole length beyond what is promised to others.
pub proof fn no_one_enters_a_box_without_room_beyond(
    w: &NetWorld,
    v: &NetVehicle,
    m: MovementId,
    block: bool,
    occ: &ShardMaps,
    entered: &GroupMap<MovementId>,
    g: BoundaryView,
)
    requires
        !w.is_free_seam(m),
        w.admits(v, m, block, occ, entered, g),
    ensures
        can_receive(
            occ.tail(w.network.landing(m)),
            occ.promised(w.network.landing(m)),
            w.exempts_departing(m),
            g.receiving,
        ),
{
}

/// A seam that nothing blocks is crossed whatever the signals and the traffic beyond.
pub proof fn free_seams_are_never_gated(
    w: &NetWorld,
    v: &NetVehicle,
    m: MovementId,
    occ: &ShardMaps,
    entered: &GroupMap<MovementId>,
    g: BoundaryView,
)
    requires
        w.is_free_seam(m),
        !w.meets_entered(w.committed_path(v, m), entered),
    ensures
        w.admits(v, m, false, occ, entered, g),
{
}

/// While a train passes, a vehicle enters only when it is too fast to stop or on
/// a free-flow seam.
pub proof fn a_closed_railway_is_only_crossed_by_the_committed(
    w: &NetWorld,
    v: &NetVehicle,
    m: MovementId,
    block: bool,
    occ: &ShardMaps,
    entered: &GroupMap<MovementId>,
    g: BoundaryView,
)
    requires
        w.train_passes(w.network.end_of(v.lane)),
        w.admits(v, m, block, occ, entered, g),
    ensures
        w.is_free_seam(m) || place(COMMITTED_SPEED_SQ).is_below(g.speed_sq),
{
}

/// A red light is only passed from inside a junction, by a right turn that has
/// stopped, by a driver who misses it, by one too fast to stop, or on a
/// free-flow seam.
pub proof fn a_red_light_is_only_passed_for_a_reason(
    w: &NetWorld,
    v: &NetVehicle,
    m: MovementId,
    block: bool,
    occ: &ShardMaps,
    entered: &GroupMap<MovementId>,
    g: BoundaryView,
)
    requires
        w.colour(m) == SignalState::Red,
        w.admits(v, m, block, occ, entered, g),
    ensures
        w.is_free_seam(m) || is_internal(&w.network, v.lane) || (w.turns_on_red(m) && v.stopped_at
            == Some(w.network.end_of(v.lane))) || g.misses_red || place(COMMITTED_SPEED_SQ).is_below(
            g.speed_sq,
        ),
{
}

/// A vehicle that can stop does not enter a node that is shut to it, nor one
/// whose paths an earlier vehicle of the same tick has taken.
pub proof fn a_shut_gate_stops_whoever_can_stop(
    w: &NetWorld,
    v: &NetVehicle,
    m: MovementId,
    block: bool,
    occ: &ShardMaps,
    entered: &GroupMap<MovementId>,
    g: BoundaryView,
)
    requires
        block || w.meets_entered(w.committed_path(v, m), entered),
        !place(COMMITTED_SPEED_SQ).is_below(g.speed_sq),
    ensures
        !w.admits(v, m, block, occ, entered, g),
{
}

impl NetWorld {
    /// Whether a movement committed to earlier this tick meets the movement's path.
    pub fn entered_conflicting(&self, m: MovementId, entered: &GroupMap<MovementId>) -> (r: bool)
        requires
            self.wf(),
            entered.wf(),
            self.network.has_movement(m),
        ensures
            r == self.entered_meets(m, entered),
    {
        assert(self.network.movement_ok(m.0 as int));
        let key = self.network.node(self.network.movement(m).node).intersection;
        self.conflicts_with_any(m, entered, key)
    }

    fn path_entered(&self, path: &Vec<MovementId>, entered: &GroupMap<MovementId>) -> (r: bool)
        requires
            self.wf(),
            entered.wf(),
            forall|k: int| 0 <= k < path@.len() ==> self.network.has_movement(#[trigger] path@[k]),
        ensures
            r == self.meets_entered(path@, entered),
    {
        let mut k: usize = 0;
        while k < path.len()
            invariant
                self.wf(),
                entered.wf(),
                forall|x: int|
                    0 <= x < path@.len() ==> self.network.has_movement(#[trigger] path@[x]),
                k <= path@.len(),
                forall|x: int| 0 <= x < k ==> !self.entered_meets(#[trigger] path@[x], entered),
            decreases path@.len() - k,
        {
            if self.entered_conflicting(path[k], entered) {
                assert(self.entered_meets(path@[k as int], entered));
                return true;
            }
            k += 1;
        }
        false
    }

    /// Whether the lane that a movement lands on can take the whole vehicle.
    pub fn receiving_room(&self, m: MovementId, occ: &ShardMaps, g: &ReceivingView) -> (r: bool)
        requires
            self.wf(),
            self.network.has_movement(m),
        ensures
            r == can_receive(
                occ.tail(self.network.landing(m)),
                occ.promised(self.network.landing(m)),
                self.exempts_departing(m),
                *g,
            ),
    {
        let to = self.network.movement(m).to_lane;
        match occ.tail_of(to) {
            Some(t) => if Quantity::at(DEPARTING_SPEED).at_most(t.speed) && self.departing_exemption(
                m,
            ) {
                g.margin.at_most(g.path_room)
            } else {
                g.commit_room.at_most(g.net_room)
            },
            None => occ.reserved_on(to).at_most(Quantity::at(ZERO)) || g.unit.at_most(g.spare),
        }
    }

    /// Whether the entrance of a movement's landing lane is clear by `min_gap`.
    pub fn receiving_lane_clear(&self, m: MovementId, occ: &ShardMaps, min_gap: Quantity) -> (r: bool)
        requires
            self.network.has_movement(m),
        ensures
            r == entrance_free(occ.tail(self.network.landing(m)), min_gap),
    {
        match occ.tail_of(self.network.movement(m).to_lane) {
            Some(t) => min_gap.at_most(t.rear),
            None => true,
        }
    }

    /// Whether a movement that lands inside a junction finds a slot there.
    pub fn interior_has_room(&self, m: MovementId, occ: &ShardMaps, slots: u32) -> (r: bool)
        requires
            self.network.wf(),
            self.network.has_movement(m),
        ensures
            r == self.has_slot(m, occ, slots),
    {
        assert(self.network.movement_ok(m.0 as int));
        let to = self.network.movement(m).to_lane;
        !self.network.junction_internal_lane(to) || occ.slots_taken(to) < slots
    }

    fn served(&self, v: &NetVehicle, m: MovementId, misses_red: bool) -> (r: bool)
        requires
            self.wf(),
            v.placed(&self.network),
            self.network.has_movement(m),
        ensures
            r == self.is_served(v, m, misses_red),
    {
        let node = self.downstream_node(v.lane);
        assert(self.network.lane_ok(v.lane.0 as int));
        let stopped_here = match v.stopped_at {
            Some(n) => n == node,
            None => false,
        };
        (self.movement_state(m) != SignalState::Red || self.network.junction_internal_lane(v.lane)
            || (self.is_rtor(m) && stopped_here) || misses_red) && !self.meter_red(
            self.network.lane(v.lane).link,
        ) && !self.rail_closed(node)
    }

    fn is_admitted(
        &self,
        v: &NetVehicle,
        m: MovementId,
        path: &Vec<MovementId>,
        block: bool,
        occ: &ShardMaps,
        entered: &GroupMap<MovementId>,
        g: &BoundaryView,
    ) -> (r: bool)
        requires
            self.wf(),
            v.placed(&self.network),
            self.network.has_movement(m),
            path@ == self.committed_path(v, m),
            forall|k: int| 0 <= k < path@.len() ==> self.network.has_movement(#[trigger] path@[k]),
            entered.wf(),
        ensures
            r == self.admits(v, m, block, occ, entered, *g),
    {
        let clear = !block && !self.path_entered(path, entered);
        if self.free_flow_seam(m) && clear {
            return true;
        }
        ((self.served(v, m, g.misses_red) && clear) || Quantity::at(COMMITTED_SPEED_SQ).below(
            g.speed_sq,
        )) && self.receiving_room(m, occ, &g.receiving) && self.interior_has_room(m, occ, g.slots)
    }

    /// Land a crossing vehicle that has cleared the node and finds the entrance
    /// free; leave it inside, or hold it at the far edge, otherwise.
    pub fn land_or_hold(&self, v: &mut NetVehicle, occ: &mut ShardMaps, g: &LandingView) -> (r: Fate)
        requires
            self.wf(),
            old(v).placed(&self.network),
            old(v).crossing is Some,
            g.blend_from matches Some(l) ==> self.network.has_lane(l),
        ensures
            ({
                let tail = old(occ).tail(self.network.landing((old(v).crossing->0).movement));
                &&& *final(v) == self.after_landing(old(v), tail, *g)
                &&& final(occ).front@ == self.tails_after(old(v), old(occ).front@, *g)
                &&& final(occ).inbound@ == self.promises_after(old(v), tail, old(occ).inbound@, *g)
                &&& r == self.landing_fate(old(v), tail, *g)
            }),
            final(v).placed(&self.network),
            r is Entered ==> self.network.has_link(r->Entered_0),
            final(occ).interior_occ@ == old(occ).interior_occ@,
    {
        let m = v.crossing.unwrap().movement;
        assert(self.network.movement_ok(m.0 as int));
        if g.arc.below(g.path_len) {
            return Fate::Alive;
        }
        let to = self.network.movement(m).to_lane;
        assert(self.network.lane_ok(to.0 as int));
        let seam = self.free_flow_seam(m);
        let tail = occ.tail_of(to);
        let overrun = tail.is_some() && g.behind_tail.below(g.land_pos);
        if overrun || (!seam && !self.receiving_lane_clear(m, occ, v.driver.min_gap)) {
            v.position = g.edge_pos;
            v.speed = g.held_speed;
            return Fate::Alive;
        }
        if !seam && occ.inbound.contains_key(&to.0) {
            occ.inbound.insert(to.0, g.promised_after);
        }
        v.crossing = None;
        v.lane = to;
        v.position = g.land_pos;
        v.stopped_at = None;
        v.lane_change = if self.network.movement(m).continuation && g.blend.below(
            Quantity::at(BLEND_LIMIT),
        ) {
            match g.blend_from {
                Some(from) => Some(LaneChange { from, progress: g.blend }),
                None => None,
            }
        } else {
            None
        };
        if tail.is_some() {
            v.speed = v.speed.least(g.safe_speed);
        }
        let nearer = match tail {
            Some(t) => g.rear.below(t.rear),
            None => true,
        };
        if nearer {
            occ.front.insert(to.0, Tail { rear: g.rear, speed: v.speed });
        }
        let link = self.network.lane(to).link;
        if v.route.len() > 0 && v.route_idx < v.route.len() - 1 && v.route[v.route_idx + 1] == link {
            v.route_idx = v.route_idx + 1;
        }
        Fate::Entered(link)
    }

    /// What becomes of a vehicle inside a node that advances to a speed and a
    /// position: it lands or is held there.
    pub open spec fn crosses_as(
        &self,
        before: &NetVehicle,
        after: &NetVehicle,
        speed: Quantity,
        position: Quantity,
        occ0: &ShardMaps,
        occ1: &ShardMaps,
        g: LandingView,
        r: Fate,
    ) -> bool {
        let moved = NetVehicle { speed, position, ..*before };
        let tail = occ0.tail(self.network.landing((before.crossing->0).movement));
        &&& *after == self.after_landing(&moved, tail, g)
        &&& occ1.front@ == self.tails_after(&moved, occ0.front@, g)
        &&& occ1.inbound@ == self.promises_after(&moved, tail, occ0.inbound@, g)
        &&& occ1.interior_occ@ == occ0.interior_occ@
        &&& r == self.landing_fate(&moved, tail, g)
    }

    /// What becomes of a vehicle at the end of its lane: it leaves the network,
    /// enters the node, or is held at the line.
    pub open spec fn resolves_as(
        &self,
        before: &NetVehicle,
        after: &NetVehicle,
        block: bool,
        carried: Option<MovementId>,
        occ0: &ShardMaps,
        occ1: &ShardMaps,
        entered0: &GroupMap<MovementId>,
        entered1: &GroupMap<MovementId>,
        g: BoundaryView,
        r: Fate,
    ) -> bool {
        match self.resolved(before, carried) {
            None => {
                &&& *after == *before
                &&& occ1.front@ == occ0.front@
                &&& occ1.inbound@ == occ0.inbound@
                &&& occ1.interior_occ@ == occ0.interior_occ@
                &&& *entered1 == *entered0
                &&& r == self.fate_without_movement(before)
            },
            Some(m) => if self.admits(before, m, block, occ0, entered0, g) {
                let inside = Self::entered_vehicle(before, m, g);
                let tail = occ0.tail(self.network.landing(m));
                let promised = self.promises_with(occ0, m, g);
                &&& *after == self.after_landing(&inside, tail, g.landing)
                &&& occ1.front@ == self.tails_after(&inside, occ0.front@, g.landing)
                &&& occ1.inbound@ == self.promises_after(&inside, tail, promised, g.landing)
                &&& occ1.interior_occ@ == self.slots_after(occ0, before.lane, m)
                &&& forall|key: u32| #[trigger]
                    entered1.group(key) == entered0.group(key) + self.at_key(
                        self.registers(before, m),
                        key,
                    )
                &&& r == self.landing_fate(&inside, tail, g.landing)
            } else {
                &&& *after == (NetVehicle {
                    position: self.network.lane_at(before.lane).length,
                    speed: g.held_speed,
                    ..*before
                })
                &&& occ1.front@ == occ0.front@
                &&& occ1.inbound@ == occ0.inbound@
                &&& occ1.interior_occ@ == occ0.interior_occ@
                &&& *entered1 == *entered0
                &&& r == Fate::Alive
            },
        }
    }

    /// Advance a vehicle inside a node to its measured speed and position, and
    /// land it or hold it there.
    pub fn advance_crossing(
        &self,
        v: &mut NetVehicle,
        speed: Quantity,
        position: Quantity,
        occ: &mut ShardMaps,
        g: &LandingView,
    ) -> (r: Fate)
        requires
            self.wf(),
            old(v).placed(&self.network),
            old(v).crossing is Some,
            g.blend_from matches Some(l) ==> self.network.has_lane(l),
        ensures
            self.crosses_as(old(v), final(v), speed, position, old(occ), final(occ), *g, r),
            final(v).placed(&self.network),
            r is Entered ==> self.network.has_link(r->Entered_0),
    {
        v.speed = speed;
        v.position = position;
        self.land_or_hold(v, occ, g)
    }

    fn register_path(&self, path: &Vec<MovementId>, entered: &mut GroupMap<MovementId>)
        requires
            self.wf(),
            old(entered).wf(),
            forall|k: int| 0 <= k < path@.len() ==> self.network.has_movement(#[trigger] path@[k]),
        ensures
            final(entered).wf(),
            forall|key: u32| #[trigger]
                final(entered).group(key) == old(entered).group(key) + self.at_key(path@, key),
    {
        let mut k: usize = 0;
        assert forall|key: u32| #[trigger] entered.group(key) == old(entered).group(key)
            + self.at_key(path@.subrange(0, 0), key) by {
            let none = self.at_key(path@.subrange(0, 0), key);
            assert(old(entered).group(key) + none =~= old(entered).group(key));
        }
        while k < path.len()
            invariant
                self.wf(),
                entered.wf(),
                forall|x: int|
                    0 <= x < path@.len() ==> self.network.has_movement(#[trigger] path@[x]),
                k <= path@.len(),
                forall|key: u32| #[trigger]
                    entered.group(key) == old(entered).group(key) + self.at_key(
                        path@.subrange(0, k as int),
                        key,
                    ),
            decreases path@.len() - k,
        {
            let m = path[k];
            assert(self.network.movement_ok(m.0 as int));
            let at = self.network.node(self.network.movement(m).node).intersection;
            let ghost before = *entered;
            entered.push(at, m);
            assert forall|key: u32| #[trigger] entered.group(key) == old(entered).group(key)
                + self.at_key(path@.subrange(0, k + 1), key) by {
                let now = path@.subrange(0, k + 1);
                assert(now.drop_last() =~= path@.subrange(0, k as int));
                assert(now.last() == m);
                assert(before.group(key) == old(entered).group(key) + self.at_key(
                    path@.subrange(0, k as int),
                    key,
                ));
                assert(entered.group(key) =~= old(entered).group(key) + self.at_key(now, key));
            }
            k += 1;
        }
        assert(path@.subrange(0, k as int) =~= path@);
    }

    fn move_slot(&self, occ: &mut ShardMaps, from: LaneId, m: MovementId)
        requires
            self.network.wf(),
            self.network.has_lane(from),
            self.network.has_movement(m),
            Self::countable(old(occ)),
        ensures
            final(occ).interior_occ@ == self.slots_after(old(occ), from, m),
            final(occ).front@ == old(occ).front@,
            final(occ).inbound@ == old(occ).inbound@,
    {
        assert(self.network.movement_ok(m.0 as int));
        if self.network.junction_internal_lane(from) && occ.interior_occ.contains_key(&from.0) {
            let n = occ.slots_taken(from);
            occ.interior_occ.insert(from.0, if n > 0 {
                n - 1
            } else {
                0
            });
        }
        let to = self.network.movement(m).to_lane;
        if self.network.junction_internal_lane(to) {
            let n = occ.slots_taken(to);
            occ.interior_occ.insert(to.0, n + 1);
        }
    }

    fn any_link_from(&self, node: NodeId) -> (r: bool)
        ensures
            r == self.leads_on(node),
    {
        let mut l: usize = 0;
        while l < self.network.links.len()
            invariant
                l <= self.network.links@.len(),
                forall|x: int| 0 <= x < l ==> (#[trigger] self.network.links@[x]).from != node,
            decreases self.network.links@.len() - l,
        {
            if self.network.links[l].from == node {
                assert(self.network.links@[l as int].from == node);
                return true;
            }
            l += 1;
        }
        false
    }

    /// Whether the vehicle still has an onward hop that it has not taken.
    pub fn still_has_a_route(&self, v: &NetVehicle, from: LinkId) -> (r: bool)
        requires
            self.guides(),
            self.network.has_link(from),
        ensures
            r == self.has_more_route(v, from),
    {
        match (v.dest, &self.router) {
            (Some(d), Some(r)) => r.next_hop(d, from, &self.network).is_some(),
            _ => v.route.len() > 0 && v.route_idx < v.route.len() - 1,
        }
    }

    /// Resolve a vehicle that has reached the end of its lane: let it enter the
    /// node and land if it can, hold it at the line, or take it off the network.
    pub fn resolve_boundary(
        &self,
        v: &mut NetVehicle,
        block: bool,
        carried: Option<MovementId>,
        occ: &mut ShardMaps,
        entered: &mut GroupMap<MovementId>,
        g: &BoundaryView,
    ) -> (r: Fate)
        requires
            self.wf(),
            old(v).placed(&self.network),
            carried matches Some(m) ==> self.network.has_movement(m),
            old(entered).wf(),
            Self::countable(old(occ)),
            g.landing.blend_from matches Some(l) ==> self.network.has_lane(l),
        ensures
            final(v).placed(&self.network),
            final(entered).wf(),
            r is Entered ==> self.network.has_link(r->Entered_0),
            self.resolves_as(
                old(v),
                final(v),
                block,
                carried,
                old(occ),
                final(occ),
                old(entered),
                final(entered),
                *g,
                r,
            ),
    {
        assert(self.network.lane_ok(v.lane.0 as int));
        let resolved = if carried.is_some() {
            carried
        } else {
            self.intended_movement(v)
        };
        let m = match resolved {
            Some(m) => m,
            None => {
                let link = self.network.lane(v.lane).link;
                let node = self.downstream_node(v.lane);
                return if self.still_has_a_route(v, link) && self.any_link_from(node) {
                    Fate::Leaked
                } else {
                    Fate::Exited
                };
            },
        };
        let path = self.path_movements(v, m);
        if !self.is_admitted(v, m, &path, block, occ, entered, g) {
            v.position = self.network.lane(v.lane).length;
            v.speed = g.held_speed;
            return Fate::Alive;
        }
        self.move_slot(occ, v.lane, m);
        let seam = self.free_flow_seam(m);
        let interchange = self.network.movement(m).interchange;
        if !seam && !interchange {
            self.register_path(&path, entered);
        } else {
            assert forall|key: u32| #[trigger] entered.group(key) == old(entered).group(key)
                + self.at_key(Seq::<MovementId>::empty(), key) by {
                assert(old(entered).group(key) + self.at_key(Seq::<MovementId>::empty(), key)
                    =~= old(entered).group(key));
            }
        }
        if !seam {
            let to = self.network.movement(m).to_lane;
            occ.inbound.insert(to.0, g.promised_with);
        }
        let lat_shift = if v.lane_change.is_some() {
            g.lat_shift
        } else {
            Quantity::at(ZERO)
        };
        v.crossing = Some(Crossing { movement: m, lat_shift });
        v.lane_change = None;
        assert(*v == Self::entered_vehicle(old(v), m, *g));
        self.land_or_hold(v, occ, &g.landing)
    }

    /// The line is served by a stop there: a stop line, or a right turn on red.
    pub open spec fn must_stop_here(&self, lane: LaneId, m: Option<MovementId>) -> bool {
        self.faces_stop_line(lane) || (m is Some && self.turns_on_red(m->0))
    }

    /// A vehicle at its measured state within its lane.
    pub open spec fn after_motion(&self, v: &NetVehicle, m: Option<MovementId>, g: MotionView) -> NetVehicle {
        NetVehicle {
            position: g.position,
            speed: g.speed,
            lane_change: match v.lane_change {
                Some(c) => if place(CHANGE_DONE).is_at_most(g.progress) {
                    None
                } else {
                    Some(LaneChange { from: c.from, progress: g.progress })
                },
                None => None,
            },
            stopped_at: if self.must_stop_here(v.lane, m) && g.speed.is_below(
                g.roll_speed,
            ) && g.to_line.is_below(place(STOP_WINDOW)) {
                Some(self.network.end_of(v.lane))
            } else {
                v.stopped_at
            },
            ..*v
        }
    }

    /// Move a vehicle within its lane to its measured state, finish a sideways
    /// move, and note a served stop. Says whether it has reached the lane's end.
    pub fn integrate_in_lane(&self, v: &mut NetVehicle, m: Option<MovementId>, g: &MotionView) -> (r: bool)
        requires
            self.wf(),
            old(v).placed(&self.network),
            m matches Some(x) ==> self.network.has_movement(x),
        ensures
            *final(v) == self.after_motion(old(v), m, *g),
            final(v).placed(&self.network),
            r == self.network.lane_at(old(v).lane).length.is_at_most(g.position),
    {
        let node = self.downstream_node(v.lane);
        v.position = g.position;
        v.speed = g.speed;
        v.lane_change = match v.lane_change {
            Some(c) => if Quantity::at(CHANGE_DONE).at_most(g.progress) {
                None
            } else {
                Some(LaneChange { from: c.from, progress: g.progress })
            },
            None => None,
        };
        let turning = match m {
            Some(x) => self.is_rtor(x),
            None => false,
        };
        if (self.approach_must_stop(v.lane) || turning) && g.speed.below(g.roll_speed)
            && g.to_line.below(Quantity::at(STOP_WINDOW)) {
            v.stopped_at = Some(node);
        }
        self.network.lane(v.lane).length.at_most(g.position)
    }
}

/// Of the lanes of a link: the place of its measured squared distance, but for
/// the lane that is landed on.
pub open spec fn nearness(w: &NetWorld, m: MovementId, d2: Seq<Quantity>) -> spec_fn(int) -> Option<int> {
    |k: int|
        if nth_lane(&w.network, w.network.landing_link(m), k) == w.network.landing(m) {
            None
        } else {
            Some(d2[k].key as int)
        }
}

impl NetWorld {
    /// The neighbour of the landing lane that the arrival is nearest to, on a
    /// continuation onto a link of several lanes.
    pub open spec fn blend_neighbour(&self, m: MovementId, d2: Seq<Quantity>) -> Option<LaneId> {
        let link = self.network.landing_link(m);
        let n = self.network.link_at(link).lane_count as int;
        if !self.network.movement_at(m).continuation || n <= 1 {
            None
        } else {
            match least_index(n, nearness(self, m, d2)) {
                Some(k) => Some(nth_lane(&self.network, link, k)),
                None => None,
            }
        }
    }

    /// The neighbour of the landing lane that the arrival is nearest to, by the
    /// measured squared distances to the starts of the link's lanes.
    pub fn seam_landing_neighbour(&self, m: MovementId, d2: &Vec<Quantity>) -> (r: Option<LaneId>)
        requires
            self.network.wf(),
            self.network.has_movement(m),
            d2@.len() == self.network.link_at(self.network.landing_link(m)).lane_count,
        ensures
            r == self.blend_neighbour(m, d2@),
            r matches Some(l) ==> self.network.has_lane(l),
    {
        let net = &self.network;
        assert(net.movement_ok(m.0 as int));
        let mv = net.movement(m);
        assert(net.lane_ok(mv.to_lane.0 as int));
        let link_id = net.lane(mv.to_lane).link;
        assert(net.link_ok(link_id.0 as int));
        let link = net.link(link_id);
        if !mv.continuation || link.lane_count <= 1 {
            return None;
        }
        let ghost cost = nearness(self, m, d2@);
        let mut best: Option<u32> = None;
        let mut k: u32 = 0;
        proof {
            lemma_least(0, cost);
        }
        while k < link.lane_count
            invariant
                *net == self.network,
                net.wf(),
                net.has_link(link_id),
                net.link_ok(link_id.0 as int),
                *link == net.link_at(link_id),
                link_id == net.landing_link(m),
                *mv == net.movement_at(m),
                d2@.len() == link.lane_count,
                cost == nearness(self, m, d2@),
                k <= link.lane_count,
                match least_index(k as int, cost) {
                    Some(i) => best is Some && best->0 == i && 0 <= i < k && cost(i) == Some(
                        d2@[i].key as int,
                    ),
                    None => best is None,
                },
            decreases link.lane_count - k,
        {
            let lane = LaneId(link.lane_start.0 + k);
            assert(lane == nth_lane(net, link_id, k as int));
            proof {
                lemma_least_step(k as int, cost);
            }
            if lane != mv.to_lane {
                let nearer = match best {
                    Some(b) => d2[k as usize].key < d2[b as usize].key,
                    None => true,
                };
                if nearer {
                    best = Some(k);
                }
            }
            k += 1;
        }
        match best {
            Some(b) => Some(LaneId(link.lane_start.0 + b)),
            None => None,
        }
    }
}

} // verus!
