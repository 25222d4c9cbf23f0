//! Right of way: who gives way to whom at junctions without a protecting
//! signal.

use vstd::prelude::*;
use crate::boxes::{other_of, owns_point, PointTiming, Room, CLAIM_REACH};
use crate::fleet::NetVehicle;
use crate::neighbors::{Neighbors, MOVING_SPEED};
use crate::network::{LaneId, Link, LinkId, MovementId, NodeId, SignalState, TurnType};
use crate::quantity::{place, Quantity};
use crate::search::{indices_where, lemma_indices};
use crate::world::NetWorld;

verus! {

/// Below this angle two approaches run parallel. Place of 0.6 rad.
pub const PARALLEL_ANGLE: i64 = 0x3FE3_3333_3333_3333;

/// Above this angle two approaches oppose each other. Place of 2.5 rad.
pub const OPPOSING_ANGLE: i64 = 0x4004_0000_0000_0000;

/// A vehicle this long or longer is heavy. Place of 8 m.
pub const HEAVY_LENGTH: i64 = 0x4020_0000_0000_0000;

/// The gap accepted by the book off the priority road. Place of 4.1 s.
pub const GAP_MAJOR: i64 = 0x4010_6666_6666_6666;

/// The same for a heavy vehicle. Place of 5.1 s.
pub const GAP_MAJOR_HEAVY: i64 = 0x4014_6666_6666_6666;

/// The gap accepted by the book turning right off a side road. Place of 6.2 s.
pub const GAP_MINOR_RIGHT: i64 = 0x4018_CCCC_CCCC_CCCD;

/// The same for a heavy vehicle. Place of 7.2 s.
pub const GAP_MINOR_RIGHT_HEAVY: i64 = 0x401C_CCCC_CCCC_CCCD;

/// The gap accepted by the book going straight from a side road. Place of 6.5 s.
pub const GAP_MINOR_THROUGH: i64 = 0x401A_0000_0000_0000;

/// The same for a heavy vehicle. Place of 7.5 s.
pub const GAP_MINOR_THROUGH_HEAVY: i64 = 0x401E_0000_0000_0000;

/// The gap accepted by the book turning left off a side road. Place of 7.1 s.
pub const GAP_MINOR_LEFT: i64 = 0x401C_6666_6666_6666;

/// The same for a heavy vehicle. Place of 8.1 s.
pub const GAP_MINOR_LEFT_HEAVY: i64 = 0x4020_3333_3333_3333;

/// One of two places.
pub open spec fn either(heavy: bool, light_gap: i64, heavy_gap: i64) -> Quantity {
    if heavy {
        place(heavy_gap)
    } else {
        place(light_gap)
    }
}

/// The gap that a driver accepts by the book, before temper and impatience.
pub open spec fn book_gap(turn: TurnType, minor: bool, length: Quantity) -> Quantity {
    let heavy = place(HEAVY_LENGTH).is_at_most(length);
    if !minor {
        either(heavy, GAP_MAJOR, GAP_MAJOR_HEAVY)
    } else {
        match turn {
            TurnType::Right => either(heavy, GAP_MINOR_RIGHT, GAP_MINOR_RIGHT_HEAVY),
            TurnType::Through => either(heavy, GAP_MINOR_THROUGH, GAP_MINOR_THROUGH_HEAVY),
            TurnType::Left => either(heavy, GAP_MINOR_LEFT, GAP_MINOR_LEFT_HEAVY),
        }
    }
}

/// The gap that a driver accepts by the book.
pub fn base_critical_gap(turn: TurnType, minor: bool, length: Quantity) -> (r: Quantity)
    ensures
        r == book_gap(turn, minor, length),
{
    let (light_gap, heavy_gap) = if !minor {
        (GAP_MAJOR, GAP_MAJOR_HEAVY)
    } else {
        match turn {
            TurnType::Right => (GAP_MINOR_RIGHT, GAP_MINOR_RIGHT_HEAVY),
            TurnType::Through => (GAP_MINOR_THROUGH, GAP_MINOR_THROUGH_HEAVY),
            TurnType::Left => (GAP_MINOR_LEFT, GAP_MINOR_LEFT_HEAVY),
        }
    };
    if Quantity::at(HEAVY_LENGTH).at_most(length) {
        Quantity::at(heavy_gap)
    } else {
        Quantity::at(light_gap)
    }
}

/// What is measured of a vehicle that may have to be given way to.
#[derive(Clone, Copy, Debug, PartialEq, Eq, Structural)]
pub struct Rival {
    /// When it reaches its line.
    pub arrival: Quantity,
    /// The gap that is accepted in front of it.
    pub critical: Quantity,
    /// The angle between the two approaches.
    pub angle: Quantity,
}

/// What is measured of a vehicle that approaches a conflict point.
#[derive(Clone, Copy, Debug, PartialEq, Eq, Structural)]
pub struct Arrival {
    /// What it needs to stop comfortably.
    pub stop_dist: Quantity,
    /// How far it is from its line.
    pub line_dist: Quantity,
    /// When it reaches the point at its speed.
    pub arrive: Quantity,
    /// When it reaches the point starting from rest.
    pub launch: Quantity,
}

/// Everything measured at one conflict point of a movement that gives way.
#[derive(Debug)]
pub struct PointPressure {
    /// The window the driver needs at the point; absent once past it.
    pub needed: Option<Quantity>,
    /// Per crosser at the intersection.
    pub inside: Vec<PointTiming>,
    /// Per vehicle approaching the intersection.
    pub coming: Vec<Arrival>,
}

/// A link's place in the right-of-way order, higher first: class, speed, lanes,
/// and last the id.
pub open spec fn priority_of(l: Link, id: LinkId) -> u64 {
    (l.rank << 56u64) | (l.speed_milli << 40u64) | ((l.lane_count as u64) << 24u64) | (id.0 as u64
        & 0xFF_FFFFu64)
}

/// One who turns `mine` gives way to one who turns `theirs`, from approaches at
/// an angle and of given priority: parallel streams do not meet, of opposing
/// ones only a left gives way, and of crossing ones the lower priority does.
pub open spec fn yields(
    mine: TurnType,
    theirs: TurnType,
    angle: Quantity,
    my_key: u64,
    their_key: u64,
) -> bool {
    if angle.is_below(place(PARALLEL_ANGLE)) {
        false
    } else if place(OPPOSING_ANGLE).is_below(angle) {
        mine == TurnType::Left && theirs != TurnType::Left
    } else {
        their_key > my_key
    }
}

/// Whether one who turns `mine` gives way to one who turns `theirs`.
pub fn should_yield_to(
    mine: TurnType,
    theirs: TurnType,
    angle: Quantity,
    my_key: u64,
    their_key: u64,
) -> (r: bool)
    ensures
        r == yields(mine, theirs, angle, my_key, their_key),
{
    if angle.below(Quantity::at(PARALLEL_ANGLE)) {
        false
    } else if Quantity::at(OPPOSING_ANGLE).below(angle) {
        mine == TurnType::Left && theirs != TurnType::Left
    } else {
        their_key > my_key
    }
}

/// Two approaches never give way to each other.
pub proof fn giving_way_is_never_mutual(
    a: TurnType,
    b: TurnType,
    angle: Quantity,
    a_key: u64,
    b_key: u64,
)
    ensures
        !(yields(a, b, angle, a_key, b_key) && yields(b, a, angle, b_key, a_key)),
{
}

/// Different links have different priorities, so that neither of two crossing
/// approaches is left undecided. Ids count up to their low 24 bits.
pub proof fn priorities_of_different_links_differ(a: Link, x: LinkId, b: Link, y: LinkId)
    requires
        x.0 as u64 & 0xFF_FFFFu64 != y.0 as u64 & 0xFF_FFFFu64,
    ensures
        priority_of(a, x) != priority_of(b, y),
{
    let (ra, sa, la, ia) = (a.rank, a.speed_milli, a.lane_count as u64, x.0 as u64);
    let (rb, sb, lb, ib) = (b.rank, b.speed_milli, b.lane_count as u64, y.0 as u64);
    assert(((ra << 56u64) | (sa << 40u64) | (la << 24u64) | (ia & 0xFF_FFFFu64)) & 0xFF_FFFFu64
        == ia & 0xFF_FFFFu64) by (bit_vector);
    assert(((rb << 56u64) | (sb << 40u64) | (lb << 24u64) | (ib & 0xFF_FFFFu64)) & 0xFF_FFFFu64
        == ib & 0xFF_FFFFu64) by (bit_vector);
}

/// The road rank, the priority without its low 24 bits, does not depend on the id.
pub proof fn road_rank_ignores_the_id(l: Link, x: LinkId, y: LinkId)
    ensures
        priority_of(l, x) >> 24u64 == priority_of(l, y) >> 24u64,
{
    let (r, s, n, a, b) = (l.rank, l.speed_milli, l.lane_count as u64, x.0 as u64, y.0 as u64);
    assert(((r << 56u64) | (s << 40u64) | (n << 24u64) | (a & 0xFF_FFFFu64)) >> 24u64 == ((r
        << 56u64) | (s << 40u64) | (n << 24u64) | (b & 0xFF_FFFFu64)) >> 24u64) by (bit_vector);
}

/// For classes below 2^8, speeds below 2^16 and lane counts below 2^16 the
/// priority orders by class, then speed, then lanes, then id.
pub proof fn priority_orders_by_class_speed_lanes_id(a: Link, x: LinkId, b: Link, y: LinkId)
    requires
        a.rank < 256,
        b.rank < 256,
        a.speed_milli < 65536,
        b.speed_milli < 65536,
        a.lane_count < 65536,
        b.lane_count < 65536,
        x.0 < 0x100_0000,
        y.0 < 0x100_0000,
    ensures
        priority_of(a, x) > priority_of(b, y) <==> (a.rank > b.rank || (a.rank == b.rank && (
        a.speed_milli > b.speed_milli || (a.speed_milli == b.speed_milli && (a.lane_count
            > b.lane_count || (a.lane_count == b.lane_count && x.0 > y.0)))))),
{
    let (ra, sa, la, ia) = (a.rank, a.speed_milli, a.lane_count as u64, x.0 as u64);
    let (rb, sb, lb, ib) = (b.rank, b.speed_milli, b.lane_count as u64, y.0 as u64);
    assert(((ra << 56u64) | (sa << 40u64) | (la << 24u64) | (ia & 0xFF_FFFFu64)) > ((rb << 56u64)
        | (sb << 40u64) | (lb << 24u64) | (ib & 0xFF_FFFFu64)) <==> (ra > rb || (ra == rb && (sa > sb
        || (sa == sb && (la > lb || (la == lb && ia > ib))))))) by (bit_vector)
        requires
            ra < 256,
            rb < 256,
            sa < 65536,
            sb < 65536,
            la < 65536,
            lb < 65536,
            ia < 0x100_0000,
            ib < 0x100_0000,
    ;
}

/// One vehicle has stood longer than another; ids break ties.
pub open spec fn stood_longer(a: &NetVehicle, b: &NetVehicle) -> bool {
    a.wait_ticks > b.wait_ticks || (a.wait_ticks == b.wait_ticks && a.id < b.id)
}

/// Of two vehicles with different ids exactly one has stood longer.
pub proof fn standing_order_is_strict(a: &NetVehicle, b: &NetVehicle)
    requires
        a.id != b.id,
    ensures
        stood_longer(a, b) != stood_longer(b, a),
{
}

/// The moving vehicle comes first at the point, or the front one of a queue
/// launches first.
pub open spec fn comes_first(
    w: &NetWorld,
    j: usize,
    other: MovementId,
    t: Arrival,
    needed: Quantity,
) -> bool {
    let o = w.rows()[j as int];
    if NetWorld::is_moving(&o) {
        !(w.colour(other) != SignalState::Green && t.stop_dist.is_below(t.line_dist))
            && t.arrive.is_below(needed)
    } else {
        w.colour(other) == SignalState::Green && w.nearest_entrance(o.lane) == Some(j)
            && t.launch.is_below(needed)
    }
}

impl NetWorld {
    /// The priority of a link.
    pub open spec fn link_priority(&self, l: LinkId) -> u64 {
        priority_of(self.network.link_at(l), l)
    }

    /// The turn that a vehicle means to make; straight on when it has none.
    pub open spec fn turn_meant(&self, v: &NetVehicle) -> TurnType {
        match self.intended(v) {
            Some(m) => self.network.movement_at(m).turn,
            None => TurnType::Through,
        }
    }

    /// A turn whose path meets that of a vehicle going straight.
    pub open spec fn turns_across(&self, me: &NetVehicle, o: &NetVehicle) -> bool {
        self.turn_meant(me) != TurnType::Through && self.turn_meant(o) == TurnType::Through
            && self.intended(me) is Some && self.intended(o) is Some && self.network.paths_cross(
            self.intended(me)->0,
            self.intended(o)->0,
        )
    }

    /// Row `j` approaches from another link, arrives inside the accepted gap,
    /// and has the right of way.
    pub open spec fn has_priority_over(&self, i: int, lane: LaneId, j: int, r: Rival) -> bool {
        let me = &self.rows()[i];
        let o = &self.rows()[j];
        let mine = self.network.link_of(lane);
        let theirs = self.network.link_of(o.lane);
        &&& j != i
        &&& theirs != mine
        &&& !o.speed.is_below(place(MOVING_SPEED))
        &&& !r.critical.is_at_most(r.arrival)
        &&& self.turns_across(me, o) || yields(
            self.turn_meant(me),
            self.turn_meant(o),
            r.angle,
            self.link_priority(mine),
            self.link_priority(theirs),
        )
    }

    /// The rows that approach the node's intersection.
    pub open spec fn approachers(&self, node: NodeId) -> Seq<usize> {
        indices_where(
            self.rows().len() as int,
            self.approaches(self.network.node_at(node).intersection),
        )
    }

    /// The rows inside the node's intersection.
    pub open spec fn crossers(&self, node: NodeId) -> Seq<usize> {
        indices_where(
            self.rows().len() as int,
            self.crosses_at(self.network.node_at(node).intersection),
        )
    }

    /// Some approaching vehicle has priority; `rivals` has an entry per approacher.
    pub open spec fn must_yield(&self, i: int, lane: LaneId, node: NodeId, rivals: Seq<Rival>) -> bool {
        exists|b: int|
            0 <= b < self.approachers(node).len() && self.has_priority_over(
                i,
                lane,
                self.approachers(node)[b] as int,
                #[trigger] rivals[b],
            )
    }

    /// A crosser is on, or will still come to, the other movement of the point
    /// and owns the point.
    pub open spec fn crosser_presses(&self, i: int, j: int, other: MovementId, t: PointTiming) -> bool {
        let o = &self.rows()[j];
        let cm = (o.crossing->0).movement;
        j != i && if cm != other {
            Self::is_moving(o) && self.inner_path(o, self.network.landing(cm)).contains(other)
        } else {
            owns_point(o, t)
        }
    }

    /// An approacher comes from the other movement's link, or its path comes to
    /// that movement, and it is first at the point.
    pub open spec fn approacher_presses(
        &self,
        j: int,
        other: MovementId,
        t: Arrival,
        needed: Quantity,
    ) -> bool {
        let o = &self.rows()[j];
        (self.network.link_of(o.lane) == self.network.link_of(
            self.network.movement_at(other).from_lane,
        ) || self.will_reach(o, other)) && comes_first(self, j as usize, other, t, needed)
    }

    /// The `k`-th point of the node, live and still ahead, demands waiting.
    #[verifier::opaque]
    pub open spec fn presses_at(
        &self,
        i: int,
        m: MovementId,
        node: NodeId,
        k: int,
        p: PointPressure,
    ) -> bool {
        let other = other_of(self.point(node, k), m);
        &&& self.is_live(node, m, k)
        &&& p.needed is Some
        &&& (exists|a: int|
            0 <= a < self.crossers(node).len() && self.crosser_presses(
                i,
                self.crossers(node)[a] as int,
                other,
                #[trigger] p.inside@[a],
            )) || (exists|b: int|
            0 <= b < self.approachers(node).len() && self.approacher_presses(
                self.approachers(node)[b] as int,
                other,
                #[trigger] p.coming@[b],
                p.needed->0,
            ))
    }

    /// Some conflict point of the movement demands waiting.
    pub open spec fn under_pressure(
        &self,
        i: int,
        m: MovementId,
        node: NodeId,
        points: Seq<PointPressure>,
    ) -> bool {
        exists|k: int|
            0 <= k < self.network.node_at(node).conflicts@.len() && self.presses_at(
                i,
                m,
                node,
                k,
                #[trigger] points[k],
            )
    }

    /// The tables have an entry per conflict point, crosser and approacher.
    pub open spec fn pressure_fits(&self, node: NodeId, points: Seq<PointPressure>) -> bool {
        &&& points.len() == self.network.node_at(node).conflicts@.len()
        &&& forall|k: int|
            0 <= k < points.len() ==> (#[trigger] points[k]).inside@.len() == self.crossers(
                node,
            ).len() && points[k].coming@.len() == self.approachers(node).len()
    }

    /// Row `j` has stopped at the same intersection, faces it, has stood longer,
    /// is in the way and can itself move on.
    pub open spec fn goes_before(&self, i: int, m: MovementId, node: NodeId, j: int, room: Room) -> bool {
        let me = &self.rows()[i];
        let o = &self.rows()[j];
        &&& j != i
        &&& !place(MOVING_SPEED).is_below(o.speed)
        &&& o.stopped_at is Some
        &&& self.network.node_at(o.stopped_at->0).intersection == self.network.node_at(
            node,
        ).intersection
        &&& self.nearest_entrance(o.lane) == Some(j as usize)
        &&& stood_longer(o, me)
        &&& self.intended(o) is Some
        &&& self.network.paths_cross(m, self.intended(o)->0)
        &&& !self.landing_tight(self.intended(o)->0, room)
    }

    /// Someone who stopped earlier goes first; `rooms` has an entry per approacher.
    pub open spec fn waits_turn(&self, i: int, m: MovementId, node: NodeId, rooms: Seq<Room>) -> bool {
        exists|b: int|
            0 <= b < self.approachers(node).len() && self.goes_before(
                i,
                m,
                node,
                self.approachers(node)[b] as int,
                #[trigger] rooms[b],
            )
    }

    proof fn lemma_approachers(&self, nb: &Neighbors, node: NodeId)
        requires
            self.gated(nb),
            self.network.has_node(node),
        ensures
            nb.approaching.group(self.network.node_at(node).intersection) == self.approachers(node),
            nb.crossing_at.group(self.network.node_at(node).intersection) == self.crossers(node),
            forall|b: int|
                0 <= b < self.approachers(node).len() ==> 0 <= #[trigger] self.approachers(node)[b]
                    < self.rows().len() && self.rows()[self.approachers(node)[b] as int].placed(
                    &self.network,
                ),
            forall|b: int|
                0 <= b < self.crossers(node).len() ==> 0 <= #[trigger] self.crossers(node)[b]
                    < self.rows().len() && self.rows()[self.crossers(node)[b] as int].placed(
                    &self.network,
                ) && self.rows()[self.crossers(node)[b] as int].crossing is Some,
    {
        assert(self.rows().len() == self.fleet.rows.len());
        let key = self.network.node_at(node).intersection;
        lemma_indices(self.rows().len() as int, self.approaches(key));
        lemma_indices(self.rows().len() as int, self.crosses_at(key));
        assert forall|b: int| 0 <= b < self.approachers(node).len() implies 0
            <= #[trigger] self.approachers(node)[b] < self.rows().len()
            && self.rows()[self.approachers(node)[b] as int].placed(&self.network) by {
            let j = indices_where(self.rows().len() as int, self.approaches(key))[b];
            assert(self.rows()[j as int].placed(&self.network));
        }
        assert forall|b: int| 0 <= b < self.crossers(node).len() implies 0
            <= #[trigger] self.crossers(node)[b] < self.rows().len()
            && self.rows()[self.crossers(node)[b] as int].placed(&self.network)
            && self.rows()[self.crossers(node)[b] as int].crossing is Some by {
            let j = indices_where(self.rows().len() as int, self.crosses_at(key))[b];
            assert(self.rows()[j as int].placed(&self.network));
            assert(self.crosses_at(key)(j as int));
        }
    }
}

impl NetWorld {
    /// A link's place in the right-of-way order.
    pub fn priority_key(&self, link: LinkId) -> (r: u64)
        requires
            self.network.has_link(link),
        ensures
            r == self.link_priority(link),
    {
        let l = self.network.link(link);
        (l.rank << 56u64) | (l.speed_milli << 40u64) | ((l.lane_count as u64) << 24u64) | (
        link.0 as u64 & 0xFF_FFFFu64)
    }

    fn turn_of(&self, m: Option<MovementId>) -> (r: TurnType)
        requires
            m matches Some(x) ==> self.network.has_movement(x),
        ensures
            r == (match m {
                Some(x) => self.network.movement_at(x).turn,
                None => TurnType::Through,
            }),
    {
        match m {
            Some(x) => self.network.movement(x).turn,
            None => TurnType::Through,
        }
    }

    fn rival_has_priority(&self, i: usize, lane: LaneId, j: usize, rival: &Rival) -> (r: bool)
        requires
            self.wf(),
            i < self.rows().len(),
            j < self.rows().len(),
            self.network.has_lane(lane),
        ensures
            r == self.has_priority_over(i as int, lane, j as int, *rival),
    {
        let me = &self.fleet.rows[i];
        let o = &self.fleet.rows[j];
        assert(self.rows()[i as int].placed(&self.network));
        assert(self.rows()[j as int].placed(&self.network));
        assert(self.network.lane_ok(lane.0 as int));
        assert(self.network.lane_ok(o.lane.0 as int));
        let mine = self.network.lane(lane).link;
        let theirs = self.network.lane(o.lane).link;
        if j == i || theirs == mine || o.speed.below(Quantity::at(MOVING_SPEED))
            || rival.critical.at_most(rival.arrival) {
            return false;
        }
        let my_mid = self.intended_movement(me);
        let o_mid = self.intended_movement(o);
        let my_turn = self.turn_of(my_mid);
        let o_turn = self.turn_of(o_mid);
        if my_turn != TurnType::Through && o_turn == TurnType::Through {
            if let (Some(a), Some(b)) = (my_mid, o_mid) {
                if self.network.movements_conflict(a, b) {
                    return true;
                }
            }
        }
        should_yield_to(
            my_turn,
            o_turn,
            rival.angle,
            self.priority_key(mine),
            self.priority_key(theirs),
        )
    }

    /// Whether a vehicle with the right of way approaches the node from another
    /// link inside the accepted gap. `rivals` has an entry per approacher.
    pub fn conflicting_priority_traffic(
        &self,
        i: usize,
        lane: LaneId,
        node: NodeId,
        nb: &Neighbors,
        rivals: &Vec<Rival>,
    ) -> (r: bool)
        requires
            self.gated(nb),
            i < self.rows().len(),
            self.network.has_lane(lane),
            self.network.has_node(node),
            rivals@.len() == self.approachers(node).len(),
        ensures
            r == self.must_yield(i as int, lane, node, rivals@),
    {
        let key = self.network.node(node).intersection;
        let ghost all = self.approachers(node);
        proof {
            self.lemma_approachers(nb, node);
        }
        match nb.approaching.get(&key) {
            Some(list) => {
                let mut b: usize = 0;
                while b < list.len()
                    invariant
                        self.gated(nb),
                        i < self.rows().len(),
                        self.network.has_lane(lane),
                        list@ == all,
                        all == self.approachers(node),
                        rivals@.len() == all.len(),
                        forall|x: int|
                            0 <= x < all.len() ==> 0 <= #[trigger] all[x] < self.rows().len(),
                        b <= all.len(),
                        forall|x: int|
                            0 <= x < b ==> !self.has_priority_over(
                                i as int,
                                lane,
                                all[x] as int,
                                #[trigger] rivals@[x],
                            ),
                    decreases all.len() - b,
                {
                    let j = list[b];
                    assert(all[b as int] == j);
                    if self.rival_has_priority(i, lane, j, &rivals[b]) {
                        assert(self.has_priority_over(
                            i as int,
                            lane,
                            all[b as int] as int,
                            rivals@[b as int],
                        ));
                        return true;
                    }
                    b += 1;
                }
                false
            },
            None => false,
        }
    }

    fn crosser_pressing(&self, i: usize, j: usize, other: MovementId, t: &PointTiming) -> (r: bool)
        requires
            self.wf(),
            j < self.rows().len(),
            self.rows()[j as int].crossing is Some,
        ensures
            r == self.crosser_presses(i as int, j as int, other, *t),
    {
        if j == i {
            return false;
        }
        let o = &self.fleet.rows[j];
        assert(self.rows()[j as int].placed(&self.network));
        let cm = o.crossing.unwrap().movement;
        let moving = Quantity::at(MOVING_SPEED).at_most(o.speed);
        if cm != other {
            if !moving {
                return false;
            }
            let path = self.path_movements(o, cm);
            let ghost inner = self.inner_path(o, self.network.landing(cm));
            assert(path@ == seq![cm] + inner);
            let mut k: usize = 1;
            while k < path.len()
                invariant
                    path@ == seq![cm] + inner,
                    1 <= k <= path@.len(),
                    forall|x: int| 0 <= x < k - 1 ==> inner[x] != other,
                    inner == self.inner_path(o, self.network.landing(cm)),
                    cm == (o.crossing->0).movement,
                    cm != other,
                    j != i,
                    *o == self.rows()[j as int],
                    Self::is_moving(o),
                decreases path@.len() - k,
            {
                assert(path@[k as int] == inner[k - 1]);
                if path[k] == other {
                    assert(inner.contains(other));
                    return true;
                }
                k += 1;
            }
            assert(inner.len() == path@.len() - 1);
            false
        } else {
            let standing = o.speed.below(Quantity::at(MOVING_SPEED));
            !t.tail_clear.at_most(t.arc) && !(standing && Quantity::at(CLAIM_REACH).below(
                t.short_by,
            )) && t.t_reach.below(t.t_free)
        }
    }

    fn approacher_pressing(
        &self,
        j: usize,
        other: MovementId,
        nb: &Neighbors,
        t: &Arrival,
        needed: Quantity,
    ) -> (r: bool)
        requires
            self.gated(nb),
            j < self.rows().len(),
            self.network.has_movement(other),
        ensures
            r == self.approacher_presses(j as int, other, *t, needed),
    {
        let o = &self.fleet.rows[j];
        assert(self.rows()[j as int].placed(&self.network));
        assert(self.network.movement_ok(other.0 as int));
        let from = self.network.lane(self.network.movement(other).from_lane).link;
        if self.network.lane(o.lane).link != from && !self.approach_reaches(o, other) {
            return false;
        }
        let colour = self.movement_state(other);
        if Quantity::at(MOVING_SPEED).at_most(o.speed) {
            !(colour != SignalState::Green && t.stop_dist.below(t.line_dist)) && t.arrive.below(
                needed,
            )
        } else {
            let at_front = match self.entrance_occupant(o.lane, nb) {
                Some(f) => f == j,
                None => false,
            };
            colour == SignalState::Green && at_front && t.launch.below(needed)
        }
    }

    fn point_pressing(
        &self,
        i: usize,
        m: MovementId,
        node: NodeId,
        k: usize,
        nb: &Neighbors,
        p: &PointPressure,
    ) -> (r: bool)
        requires
            self.gated(nb),
            self.network.has_node(node),
            k < self.network.node_at(node).conflicts@.len(),
            p.inside@.len() == self.crossers(node).len(),
            p.coming@.len() == self.approachers(node).len(),
        ensures
            r == self.presses_at(i as int, m, node, k as int, *p),
    {
        reveal(NetWorld::presses_at);
        assert(self.network.node_ok(node.0 as int));
        let ci = self.network.node(node).conflicts[k] as usize;
        assert(self.network.conflict_ok(ci as int));
        let c = self.network.conflicts[ci];
        let other = if c.a == m {
            c.b
        } else if c.b == m {
            c.a
        } else {
            return false;
        };
        if self.movement_state(other) == SignalState::Red {
            return false;
        }
        let needed = match p.needed {
            Some(q) => q,
            None => {
                return false;
            },
        };
        let key = self.network.node(node).intersection;
        let ghost inside = self.crossers(node);
        let ghost coming = self.approachers(node);
        proof {
            self.lemma_approachers(nb, node);
        }
        if let Some(list) = nb.crossing_at.get(&key) {
            let mut a: usize = 0;
            while a < list.len()
                invariant
                    self.gated(nb),
                    list@ == inside,
                    inside == self.crossers(node),
                    p.inside@.len() == inside.len(),
                    self.is_live(node, m, k as int),
                    other == other_of(self.point(node, k as int), m),
                    p.needed is Some,
                    forall|x: int|
                        0 <= x < inside.len() ==> 0 <= #[trigger] inside[x] < self.rows().len()
                            && self.rows()[inside[x] as int].crossing is Some,
                    a <= inside.len(),
                    forall|x: int|
                        0 <= x < a ==> !self.crosser_presses(
                            i as int,
                            inside[x] as int,
                            other,
                            #[trigger] p.inside@[x],
                        ),
                decreases inside.len() - a,
            {
                let j = list[a];
                assert(inside[a as int] == j);
                if self.crosser_pressing(i, j, other, &p.inside[a]) {
                    reveal(NetWorld::presses_at);
                    assert(self.crosser_presses(
                        i as int,
                        self.crossers(node)[a as int] as int,
                        other,
                        p.inside@[a as int],
                    ));
                    return true;
                }
                a += 1;
            }
        }
        if let Some(list) = nb.approaching.get(&key) {
            let mut b: usize = 0;
            while b < list.len()
                invariant
                    self.gated(nb),
                    list@ == coming,
                    coming == self.approachers(node),
                    p.coming@.len() == coming.len(),
                    self.network.has_movement(other),
                    self.is_live(node, m, k as int),
                    other == other_of(self.point(node, k as int), m),
                    p.needed == Some(needed),
                    forall|x: int|
                        0 <= x < coming.len() ==> 0 <= #[trigger] coming[x] < self.rows().len(),
                    b <= coming.len(),
                    forall|x: int|
                        0 <= x < b ==> !self.approacher_presses(
                            coming[x] as int,
                            other,
                            #[trigger] p.coming@[x],
                            needed,
                        ),
                decreases coming.len() - b,
            {
                let j = list[b];
                assert(coming[b as int] == j);
                if self.approacher_pressing(j, other, nb, &p.coming[b], needed) {
                    reveal(NetWorld::presses_at);
                    assert(self.approacher_presses(
                        self.approachers(node)[b as int] as int,
                        other,
                        p.coming@[b as int],
                        needed,
                    ));
                    return true;
                }
                b += 1;
            }
        }
        false
    }

    /// Whether some conflict point of the movement still demands waiting: a
    /// crosser owns it, or approaching traffic comes inside the window.
    pub fn permissive_pressure(
        &self,
        i: usize,
        m: MovementId,
        node: NodeId,
        nb: &Neighbors,
        points: &Vec<PointPressure>,
    ) -> (r: bool)
        requires
            self.gated(nb),
            self.network.has_node(node),
            self.pressure_fits(node, points@),
        ensures
            r == self.under_pressure(i as int, m, node, points@),
    {
        let n = self.network.node(node).conflicts.len();
        let mut k: usize = 0;
        while k < n
            invariant
                self.gated(nb),
                self.network.has_node(node),
                self.pressure_fits(node, points@),
                n == self.network.node_at(node).conflicts@.len(),
                k <= n,
                forall|x: int|
                    0 <= x < k ==> !self.presses_at(i as int, m, node, x, #[trigger] points@[x]),
            decreases n - k,
        {
            if self.point_pressing(i, m, node, k, nb, &points[k]) {
                assert(self.presses_at(i as int, m, node, k as int, points@[k as int]));
                return true;
            }
            k += 1;
        }
        false
    }

    fn earlier_one_goes(&self, i: usize, m: MovementId, node: NodeId, j: usize, nb: &Neighbors, room: &Room) -> (r: bool)
        requires
            self.gated(nb),
            i < self.rows().len(),
            j < self.rows().len(),
            self.network.has_movement(m),
            self.network.has_node(node),
        ensures
            r == self.goes_before(i as int, m, node, j as int, *room),
    {
        if j == i {
            return false;
        }
        let me = &self.fleet.rows[i];
        let o = &self.fleet.rows[j];
        assert(self.rows()[j as int].placed(&self.network));
        if Quantity::at(MOVING_SPEED).below(o.speed) {
            return false;
        }
        let armed_here = match o.stopped_at {
            Some(n) => self.network.node(n).intersection == self.network.node(node).intersection,
            None => false,
        };
        let at_front = match self.entrance_occupant(o.lane, nb) {
            Some(f) => f == j,
            None => false,
        };
        if !armed_here || !at_front {
            return false;
        }
        if !(o.wait_ticks > me.wait_ticks || (o.wait_ticks == me.wait_ticks && o.id < me.id)) {
            return false;
        }
        match self.intended_movement(o) {
            Some(om) => self.network.movements_conflict(m, om) && !self.movement_downstream_blocked(
                om,
                nb,
                room,
            ),
            None => false,
        }
    }

    /// Whether someone who stopped earlier at the same intersection goes first.
    /// `rooms` holds, per approacher, the room behind its own movement.
    pub fn earlier_stopped_conflict(
        &self,
        i: usize,
        m: MovementId,
        node: NodeId,
        nb: &Neighbors,
        rooms: &Vec<Room>,
    ) -> (r: bool)
        requires
            self.gated(nb),
            i < self.rows().len(),
            self.network.has_movement(m),
            self.network.has_node(node),
            rooms@.len() == self.approachers(node).len(),
        ensures
            r == self.waits_turn(i as int, m, node, rooms@),
    {
        let key = self.network.node(node).intersection;
        let ghost all = self.approachers(node);
        proof {
            self.lemma_approachers(nb, node);
        }
        match nb.approaching.get(&key) {
            Some(list) => {
                let mut b: usize = 0;
                while b < list.len()
                    invariant
                        self.gated(nb),
                        i < self.rows().len(),
                        self.network.has_movement(m),
                        self.network.has_node(node),
                        list@ == all,
                        all == self.approachers(node),
                        rooms@.len() == all.len(),
                        forall|x: int|
                            0 <= x < all.len() ==> 0 <= #[trigger] all[x] < self.rows().len(),
                        b <= all.len(),
                        forall|x: int|
                            0 <= x < b ==> !self.goes_before(
                                i as int,
                                m,
                                node,
                                all[x] as int,
                                #[trigger] rooms@[x],
                            ),
                    decreases all.len() - b,
                {
                    let j = list[b];
                    assert(all[b as int] == j);
                    if self.earlier_one_goes(i, m, node, j, nb, &rooms[b]) {
                        assert(self.goes_before(
                            i as int,
                            m,
                            node,
                            all[b as int] as int,
                            rooms@[b as int],
                        ));
                        return true;
                    }
                    b += 1;
                }
                false
            },
            None => false,
        }
    }
}

/// Of two vehicles that have stopped at one intersection, never do both go
/// before the other, whatever the room behind them.
pub proof fn turn_taking_is_never_mutual(
    w: &NetWorld,
    i: int,
    j: int,
    mi: MovementId,
    mj: MovementId,
    node: NodeId,
    ri: Room,
    rj: Room,
)
    requires
        0 <= i < w.rows().len(),
        0 <= j < w.rows().len(),
    ensures
        !(w.goes_before(i, mi, node, j, ri) && w.goes_before(j, mj, node, i, rj)),
{
}

/// Turn-taking never blocks everyone: whoever has stood longest among those who
/// approach waits for nobody's turn.
pub proof fn the_first_to_stop_waits_for_nobody(
    w: &NetWorld,
    i: int,
    m: MovementId,
    node: NodeId,
    rooms: Seq<Room>,
)
    requires
        0 <= i < w.rows().len(),
        forall|b: int|
            0 <= b < w.approachers(node).len() && (#[trigger] w.approachers(node)[b]) != i
                ==> stood_longer(&w.rows()[i], &w.rows()[w.approachers(node)[b] as int]),
    ensures
        !w.waits_turn(i, m, node, rooms),
{
    assert forall|b: int| 0 <= b < w.approachers(node).len() implies !w.goes_before(
        i,
        m,
        node,
        w.approachers(node)[b] as int,
        #[trigger] rooms[b],
    ) by {
        let j = w.approachers(node)[b];
        assert(j != i ==> stood_longer(&w.rows()[i], &w.rows()[j as int]));
    }
}

/// Two approaching vehicles never both have to give way to the other, but where
/// one turns across the path of one going straight whose road ranks lower.
pub proof fn right_of_way_is_never_mutual(w: &NetWorld, i: int, j: int, ri: Rival, rj: Rival)
    requires
        0 <= i < w.rows().len(),
        0 <= j < w.rows().len(),
        ri.angle == rj.angle,
        ({
            let (a, b) = (&w.rows()[i], &w.rows()[j]);
            let (ka, kb) = (
                w.link_priority(w.network.link_of(a.lane)),
                w.link_priority(w.network.link_of(b.lane)),
            );
            &&& !(w.turns_across(a, b) && yields(w.turn_meant(b), w.turn_meant(a), ri.angle, kb, ka))
            &&& !(w.turns_across(b, a) && yields(w.turn_meant(a), w.turn_meant(b), ri.angle, ka, kb))
        }),
    ensures
        !(w.has_priority_over(i, w.rows()[i].lane, j, ri) && w.has_priority_over(
            j,
            w.rows()[j].lane,
            i,
            rj,
        )),
{
}

} // verus!
