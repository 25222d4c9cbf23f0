//! What a vehicle decides in a tick: whether it has anything to decide at all,
//! whether it may enter the box, and which constraints act on it.

use vstd::prelude::*;
use crate::boxes::{ExitMeasure, PointTiming, Room};
use crate::fleet::NetVehicle;
use crate::leading::SIGNAL_LOOKAHEAD;
use crate::lanes::SLEEP_SPEED_EPS;
use crate::neighbors::Neighbors;
use crate::network::{LaneId, MovementId, NodeControl, NodeId, SignalState, TurnType};
use crate::paths::is_internal;
use crate::quantity::{place, Quantity, ZERO};
use crate::search::count_where;
use crate::world::NetWorld;
use crate::yielding::{PointPressure, Rival};

verus! {

/// Below this speed a vehicle counts as stopped. Place of 0.3 m/s.
pub const MOVE_EPS: i64 = 0x3FD3_3333_3333_3333;

/// A leader beyond this gap does not matter. Place of 120 m.
pub const LEADER_PERCEPTION: i64 = 0x405E_0000_0000_0000;

/// Within this distance a stopped vehicle is queued. Place of 12 m.
pub const STOP_QUEUE_GAP: i64 = 0x4028_0000_0000_0000;

/// Beyond this distance nothing at the node can bind yet. Place of 180 m.
pub const DECISION_HORIZON: i64 = 0x4066_8000_0000_0000;

/// Below this speed a driver reacts to a fresh green. Place of 2 m/s.
pub const LAUNCH_SPEED: i64 = 0x4000_0000_0000_0000;

/// Above this speed a driver may be committed on yellow. Place of 3 m/s.
pub const COMMIT_SPEED: i64 = 0x4008_0000_0000_0000;

/// A vehicle's decision state.
#[derive(Clone, Copy, Debug, PartialEq, Eq, Structural)]
pub enum CarState {
    /// Cruising, with no leader or node near.
    Free,
    /// Stopped behind a stopped leader or at a line.
    Frozen,
    /// Anything else.
    Deciding,
}

/// What the scheduler lets a vehicle do.
#[derive(Clone, Copy, Debug, PartialEq, Eq, Structural)]
pub enum Sleep {
    /// Decide in full.
    Awake,
    /// Hold behind this stopped leader.
    Queued(usize),
    /// Cruise on the open road.
    Free,
}

/// Where a vehicle's acceleration comes from.
#[derive(Clone, Copy, Debug, PartialEq, Eq, Structural)]
pub enum AccelSource {
    /// A wreck stays put.
    Wreck,
    /// Inside a node.
    Crossing,
    /// Following a queue's leader only.
    Queue(usize),
    /// The open road.
    Free,
    /// The full set of constraints.
    Full,
}

/// What is measured of a vehicle and its leader.
#[derive(Clone, Copy, Debug, PartialEq, Eq, Structural)]
pub struct Sight {
    /// Distance to the end of the lane.
    pub to_end: Quantity,
    /// Gap to the leader along the corridor; meaningless without one.
    pub leader_gap: Quantity,
    /// How far the vehicle must see to brake, at least [`DECISION_HORIZON`].
    pub clear_horizon: Quantity,
}

/// What is measured for the decision to enter a box.
#[derive(Debug)]
pub struct BoxView {
    /// The arc short of the first live conflict point.
    pub hold: Quantity,
    pub times: Vec<Vec<PointTiming>>,
    pub pressure: Vec<PointPressure>,
    pub exit: Vec<ExitMeasure>,
    pub rivals: Vec<Rival>,
}

/// How a driver takes a signal.
#[derive(Clone, Copy, Debug, PartialEq, Eq, Structural)]
pub struct SignalView {
    /// How long the movement has been green.
    pub green_elapsed: Quantity,
    /// The driver misses this red light.
    pub misses_red: bool,
    /// How far the driver gets in three seconds.
    pub yellow_reach: Quantity,
    /// The driver is one to run this yellow.
    pub runs_yellow: bool,
    /// What it takes to stop comfortably.
    pub stop_dist: Quantity,
}

/// What is measured for the full set of constraints.
#[derive(Debug)]
pub struct GatherView {
    pub to_line: Quantity,
    /// Reaction delay in ticks.
    pub delay: usize,
    pub signal: SignalView,
    pub entry: BoxView,
    /// The rivals inside a wider window.
    pub wide_rivals: Vec<Rival>,
    /// The room behind the vehicle's own movement.
    pub room: Room,
    /// Per approacher, the room behind its movement.
    pub fifo_rooms: Vec<Room>,
}

/// Whom a vehicle follows, and how.
#[derive(Clone, Copy, Debug, PartialEq, Eq, Structural)]
pub enum LeaderSource {
    /// As observed a reaction time ago.
    Delayed(usize),
    /// As it is.
    Current(usize),
    /// As it is, with the braking capped, across a seam.
    Capped(usize),
    /// Whoever is beyond the boundary.
    Beyond,
}

/// Which constraints act on a vehicle.
#[derive(Clone, Copy, Debug, PartialEq, Eq, Structural)]
pub struct Constraints {
    pub leader: LeaderSource,
    /// Only the leader, the curve and bus stops matter.
    pub open_road: bool,
    /// Stop at the line.
    pub line: bool,
    /// Approach slowly enough to stop still.
    pub cover_brake: bool,
    pub stop_sign: bool,
    /// Give way at the line.
    pub give_way: bool,
}

impl NetWorld {
    /// The leader of a row.
    pub open spec fn led_by(nb: &Neighbors, i: int) -> Option<usize> {
        nb.leader_of@[i]
    }

    /// The decision state of a vehicle.
    pub open spec fn state_of(&self, i: int, nb: &Neighbors, s: Sight) -> CarState {
        let v = self.rows()[i];
        let led = Self::led_by(nb, i);
        let queue = place(STOP_QUEUE_GAP);
        let behind_stopped = led is Some && s.leader_gap.is_below(queue)
            && self.rows()[led->0 as int].speed.is_below(place(MOVE_EPS));
        if v.crossing is Some {
            CarState::Deciding
        } else if v.speed.is_below(place(MOVE_EPS)) && (behind_stopped || s.to_end.is_below(queue)) {
            CarState::Frozen
        } else if !(led is Some && s.leader_gap.is_below(place(LEADER_PERCEPTION))) && place(
            SIGNAL_LOOKAHEAD,
        ).is_at_most(s.to_end) {
            CarState::Free
        } else {
            CarState::Deciding
        }
    }

    /// Of a row: its vehicle is in the state.
    pub open spec fn is_in_state(&self, nb: &Neighbors, sights: Seq<Sight>, c: CarState) -> spec_fn(
        int,
    ) -> bool {
        |i: int| self.state_of(i, nb, sights[i]) == c
    }

    /// The leader of a row, where it is on the same lane.
    pub open spec fn led_on_lane(&self, nb: &Neighbors, i: int) -> Option<usize> {
        match Self::led_by(nb, i) {
            Some(l) => if self.rows()[l as int].lane == self.rows()[i].lane {
                Some(l)
            } else {
                None
            },
            None => None,
        }
    }

    /// The stopped same-lane leader close ahead that pins a stopped vehicle.
    pub open spec fn pinned_by(&self, i: int, nb: &Neighbors, s: Sight) -> Option<usize> {
        let v = self.rows()[i];
        let led = self.led_on_lane(nb, i);
        let eps = place(SLEEP_SPEED_EPS);
        if v.crossing is None && !eps.is_at_most(v.speed) && led is Some && place(ZERO).is_at_most(
            s.leader_gap,
        ) && s.leader_gap.is_below(place(STOP_QUEUE_GAP))
            && self.rows()[led->0 as int].speed.is_below(eps) {
            led
        } else {
            None
        }
    }

    /// The vehicle cruises with nothing to decide: far from its node, on a
    /// straight link that feeds no merge, no leader near, going straight on to a
    /// road no slower.
    pub open spec fn cruises(
        &self,
        i: int,
        nb: &Neighbors,
        m: Option<MovementId>,
        s: Sight,
    ) -> bool {
        let v = self.rows()[i];
        let lane = self.network.lane_at(v.lane);
        &&& !s.to_end.is_at_most(s.clear_horizon)
        &&& self.link_straight@[lane.link.0 as int]
        &&& !crate::topology::feeds_merge(&self.network, v.lane)
        &&& !(Self::led_by(nb, i) is Some && s.leader_gap.is_at_most(place(LEADER_PERCEPTION)))
        &&& m matches Some(x) ==> self.network.movement_at(x).turn == TurnType::Through
            && lane.speed_limit.is_at_most(self.network.lane_at(self.network.landing(x)).speed_limit)
    }

    /// The movement a vehicle carries into the tick, and whether it sleeps.
    pub open spec fn decision(&self, i: int, nb: &Neighbors, s: Sight) -> (Option<MovementId>, Sleep) {
        let v = &self.rows()[i];
        if v.wreck is Some {
            (None, Sleep::Awake)
        } else if v.crossing is Some {
            (Some((v.crossing->0).movement), Sleep::Awake)
        } else if self.cfg.sleep_scheduler && self.pinned_by(i, nb, s) is Some {
            (None, Sleep::Queued(self.pinned_by(i, nb, s)->0))
        } else if self.cfg.sleep_scheduler && self.cruises(i, nb, self.intended(v), s) {
            (None, Sleep::Free)
        } else {
            (self.intended(v), Sleep::Awake)
        }
    }

    /// The same-lane leader of a vehicle in a link that runs the queue model.
    pub open spec fn queue_leader(&self, i: int, nb: &Neighbors) -> Option<usize> {
        if self.congestion_cfg.enabled && self.queue_links@[self.network.link_of(
            self.rows()[i].lane,
        ).0 as int] {
            self.led_on_lane(nb, i)
        } else {
            None
        }
    }

    /// Where a vehicle's acceleration comes from.
    pub open spec fn source_of(&self, i: int, nb: &Neighbors, sleep: Sleep) -> AccelSource {
        let v = self.rows()[i];
        if v.wreck is Some {
            AccelSource::Wreck
        } else if v.crossing is Some {
            AccelSource::Crossing
        } else {
            match sleep {
                Sleep::Queued(l) => AccelSource::Queue(l),
                Sleep::Free => AccelSource::Free,
                Sleep::Awake => match self.queue_leader(i, nb) {
                    Some(l) => AccelSource::Queue(l),
                    None => AccelSource::Full,
                },
            }
        }
    }

    /// The node leaves the right of way to the drivers, with no turn-taking.
    pub open spec fn priority_decides(&self, node: NodeId) -> bool {
        let n = self.network.node_at(node);
        n.control == NodeControl::Uncontrolled || n.control == NodeControl::Yield || (n.control
            == NodeControl::Stop && !n.all_way_stop)
    }

    /// The node has no signal.
    pub open spec fn is_unsignalized(&self, node: NodeId) -> bool {
        let c = self.network.node_at(node).control;
        c == NodeControl::Uncontrolled || c == NodeControl::Yield || c == NodeControl::Stop
    }

    /// A measured view of a box fits the vehicle, its movement and the node.
    pub open spec fn box_view_fits(&self, v: &NetVehicle, m: MovementId, node: NodeId, g: &BoxView) -> bool {
        &&& self.times_fit(node, g.times@)
        &&& self.pressure_fits(node, g.pressure@)
        &&& g.exit@.len() == self.exit_hops(v, m, node).len()
        &&& g.rivals@.len() == self.approachers(node).len()
    }

    /// The box is shut to a vehicle that would enter on `m`.
    pub open spec fn gate_shut(&self, i: int, m: MovementId, g: &BoxView) -> bool {
        let v = &self.rows()[i];
        let node = self.network.end_of(v.lane);
        let waiter = self.waiter_hold(i, m, node, g.hold);
        !self.flows_free(m) && (self.path_closed(v, m, node, waiter, g.times@) || (waiter is None
            && self.gives_way(m) && self.under_pressure(i, m, node, g.pressure@)) || self.strands(
            v,
            m,
            node,
            g.exit@,
        ) || self.train_passes(node) || (self.priority_decides(node) && self.must_yield(
            i,
            v.lane,
            node,
            g.rivals@,
        )))
    }

    /// A row's vehicle may not enter the box; without a movement nothing holds it.
    pub open spec fn entry_shut(&self, i: int, m: Option<MovementId>, g: &BoxView) -> bool {
        m matches Some(x) && self.gate_shut(i, x, g)
    }

    /// A driver misses red lights: the rate is positive and the draw falls below
    /// the driver's own chance.
    pub open spec fn misses_light(&self, draw: Quantity, chance: Quantity) -> bool {
        !self.cfg.red_run_prob.is_at_most(place(ZERO)) && draw.is_below(chance)
    }

    /// The signal stops the vehicle at the line.
    pub open spec fn signal_stops(&self, v: &NetVehicle, m: MovementId, to_line: Quantity, s: SignalView) -> bool {
        match self.colour(m) {
            SignalState::Green => v.speed.is_below(place(LAUNCH_SPEED)) && s.green_elapsed.is_below(
                v.driver.reaction_time,
            ),
            SignalState::Red => !self.turns_on_red(m) && !s.misses_red,
            SignalState::Yellow => !(place(COMMIT_SPEED).is_below(v.speed) && to_line.is_below(
                s.yellow_reach,
            ) && s.runs_yellow) && s.stop_dist.is_at_most(to_line),
        }
    }

    /// The vehicle follows its leader, found along the corridor, in this way.
    pub open spec fn leader_source(&self, i: int, nb: &Neighbors, delay: usize) -> LeaderSource {
        match Self::led_by(nb, i) {
            None => LeaderSource::Beyond,
            Some(l) => {
                let v = self.rows()[i];
                let o = self.rows()[l as int];
                if o.lane == v.lane && v.crossing is None && o.crossing is None
                    && self.fleet.samples(i).len() > delay && self.fleet.samples(l as int).len()
                    > delay {
                    LeaderSource::Delayed(l)
                } else if o.lane != v.lane {
                    LeaderSource::Capped(l)
                } else {
                    LeaderSource::Current(l)
                }
            },
        }
    }

    /// A movement at grade and gated, whose box is taken.
    #[verifier::opaque]
    pub open spec fn gate_taken(&self, m: MovementId, node: NodeId) -> bool {
        !self.network.movement_at(m).interchange && !self.is_free_seam(m) && self.box_taken(m, node)
    }

    /// A gated movement off the lane has its box taken.
    pub open spec fn lane_box_taken(&self, lane: LaneId, node: NodeId) -> bool {
        exists|m: MovementId| self.network.leaves(m, lane) && #[trigger] self.gate_taken(m, node)
    }

    /// The approach faces a stop line at the node.
    pub open spec fn faces_stop_line(&self, lane: LaneId) -> bool {
        self.network.node_at(self.network.end_of(lane)).control == NodeControl::Stop
            && self.network.link_at(self.network.link_of(lane)).stop_line
    }

    /// The vehicle has served its stop at an all-way stop.
    pub open spec fn is_armed(&self, v: &NetVehicle, node: NodeId) -> bool {
        let n = self.network.node_at(node);
        n.control == NodeControl::Stop && n.all_way_stop && v.stopped_at == Some(node)
    }

    /// A measured view of everything fits the vehicle and its movement.
    pub open spec fn gather_view_fits(&self, i: int, m: Option<MovementId>, g: &GatherView) -> bool {
        let v = &self.rows()[i];
        let node = self.network.end_of(v.lane);
        &&& m matches Some(x) ==> self.box_view_fits(v, x, node, &g.entry)
        &&& g.entry.rivals@.len() == self.approachers(node).len()
        &&& g.wide_rivals@.len() == self.approachers(node).len()
        &&& g.fifo_rooms@.len() == self.approachers(node).len()
    }

    /// Something holds the vehicle at the line: the signal, the room beyond the
    /// box, the far side of the junction, a meter or a train.
    pub open spec fn held_at_line(&self, i: int, m: Option<MovementId>, g: &GatherView) -> bool {
        let v = &self.rows()[i];
        let node = self.network.end_of(v.lane);
        ||| (m matches Some(x) && !is_internal(&self.network, v.lane) && self.signal_stops(
            v,
            x,
            g.to_line,
            g.signal,
        ))
        ||| (m matches Some(x) && self.landing_tight(x, g.room))
        ||| (m matches Some(x) && self.strands(v, x, node, g.entry.exit@))
        ||| self.meter_holds(self.network.link_of(v.lane))
        ||| self.train_passes(node)
    }

    /// The vehicle covers its brake: its lane's box is busy, or one with
    /// priority is near.
    pub open spec fn covers_brake(&self, i: int, m: Option<MovementId>, g: &GatherView) -> bool {
        let v = &self.rows()[i];
        let node = self.network.end_of(v.lane);
        !is_internal(&self.network, v.lane) && (self.lane_box_taken(v.lane, node) || (!(m is Some
            && self.flows_free(m->0)) && self.is_unsignalized(node) && self.must_yield(
            i,
            v.lane,
            node,
            g.wide_rivals@,
        )))
    }

    /// The vehicle still owes a stop: a stop line or a right turn on red.
    pub open spec fn owes_stop(&self, i: int, m: Option<MovementId>) -> bool {
        let v = &self.rows()[i];
        !is_internal(&self.network, v.lane) && (self.faces_stop_line(v.lane) || (m is Some
            && self.turns_on_red(m->0))) && v.stopped_at != Some(self.network.end_of(v.lane))
    }

    /// The vehicle gives way at the line: to an occupied box in any case, and
    /// outside a junction's inside to priority, to its conflict points, and to
    /// those who stopped earlier.
    pub open spec fn gives_way_at_line(&self, i: int, m: Option<MovementId>, g: &GatherView) -> bool {
        let v = &self.rows()[i];
        let node = self.network.end_of(v.lane);
        let free = m is Some && self.flows_free(m->0);
        let waiter = if m is Some {
            self.waiter_hold(i, m->0, node, g.entry.hold)
        } else {
            None
        };
        ||| (m is Some && !free && self.path_closed(v, m->0, node, waiter, g.entry.times@))
        ||| (!is_internal(&self.network, v.lane) && ((!free && !self.is_armed(v, node)
            && self.is_unsignalized(node) && self.must_yield(i, v.lane, node, g.entry.rivals@)) || (
        waiter is None && m is Some && self.gives_way(m->0) && self.under_pressure(
            i,
            m->0,
            node,
            g.entry.pressure@,
        )) || (self.network.node_at(node).control == NodeControl::Stop && v.stopped_at == Some(node)
            && m is Some && self.waits_turn(i, m->0, node, g.fifo_rooms@))))
    }

    /// The road beyond the movement is slower.
    pub open spec fn slower_beyond(&self, v: &NetVehicle, m: Option<MovementId>) -> bool {
        m matches Some(x) && self.network.lane_at(self.network.landing(x)).speed_limit.is_below(
            self.network.lane_at(v.lane).speed_limit,
        )
    }

    /// The constraints that act on a vehicle.
    pub open spec fn constraints_on(
        &self,
        i: int,
        nb: &Neighbors,
        m: Option<MovementId>,
        g: &GatherView,
    ) -> Constraints {
        let v = &self.rows()[i];
        let leader = self.leader_source(i, nb, g.delay);
        if place(DECISION_HORIZON).is_below(g.to_line) && !self.slower_beyond(v, m) {
            Constraints {
                leader,
                open_road: true,
                line: false,
                cover_brake: false,
                stop_sign: false,
                give_way: false,
            }
        } else {
            Constraints {
                leader,
                open_road: false,
                line: self.held_at_line(i, m, g),
                cover_brake: self.covers_brake(i, m, g),
                stop_sign: self.owes_stop(i, m),
                give_way: self.gives_way_at_line(i, m, g),
            }
        }
    }

    /// The neighbours belong to the world: a leader for every row.
    pub open spec fn led(&self, nb: &Neighbors) -> bool {
        &&& nb.leader_of@.len() == self.rows().len()
        &&& forall|i: int|
            0 <= i < self.rows().len() && (#[trigger] nb.leader_of@[i]) is Some
                ==> nb.leader_of@[i]->0 < self.rows().len()
    }
}

/// Neighbours as the world sees them serve every rule that reads them.
pub proof fn neighbors_serve_every_rule(w: &NetWorld, nb: &Neighbors, cpos: Seq<Quantity>)
    requires
        w.wf(),
        nb.sees(w, cpos),
    ensures
        w.led(nb),
        w.gated(nb),
{
}

/// A sleeping vehicle carries no movement into the tick.
pub proof fn sleepers_carry_no_movement(w: &NetWorld, i: int, nb: &Neighbors, s: Sight)
    ensures
        w.decision(i, nb, s).1 != Sleep::Awake ==> w.decision(i, nb, s).0 is None,
{
}

/// With the scheduler off nobody sleeps.
pub proof fn nobody_sleeps_without_the_scheduler(w: &NetWorld, i: int, nb: &Neighbors, s: Sight)
    requires
        !w.cfg.sleep_scheduler,
    ensures
        w.decision(i, nb, s).1 == Sleep::Awake,
{
}

/// A vehicle that may cruise asleep has nothing to decide awake either: only its
/// leader and the road's curvature act on it.
pub proof fn a_cruiser_has_nothing_to_decide(
    w: &NetWorld,
    i: int,
    nb: &Neighbors,
    m: Option<MovementId>,
    s: Sight,
    g: &GatherView,
)
    requires
        w.cruises(i, nb, m, s),
        place(DECISION_HORIZON).is_at_most(s.clear_horizon),
        !s.to_end.is_nan(),
        g.to_line == s.to_end,
    ensures
        w.constraints_on(i, nb, m, g) == (Constraints {
            leader: w.leader_source(i, nb, g.delay),
            open_road: true,
            line: false,
            cover_brake: false,
            stop_sign: false,
            give_way: false,
        }),
{
}

/// A rate of zero means that nobody misses a red light.
pub proof fn zero_rate_means_no_missed_lights(w: &NetWorld, draw: Quantity, chance: Quantity)
    requires
        w.cfg.red_run_prob == place(ZERO),
    ensures
        !w.misses_light(draw, chance),
{
}

/// A free-flowing merge or diverge is never held at a box.
pub proof fn free_flow_is_never_gated(w: &NetWorld, i: int, m: MovementId, g: &BoxView)
    requires
        w.flows_free(m),
    ensures
        !w.gate_shut(i, m, g),
{
}

/// While a train passes, a box is shut to every movement that is not free-flowing.
pub proof fn a_train_shuts_the_gate(w: &NetWorld, i: int, m: MovementId, g: &BoxView)
    requires
        !w.flows_free(m),
        w.train_passes(w.network.end_of(w.rows()[i].lane)),
    ensures
        w.gate_shut(i, m, g),
{
}

impl NetWorld {
    /// The decision state of a vehicle.
    pub fn classify(&self, i: usize, nb: &Neighbors, s: &Sight) -> (r: CarState)
        requires
            self.led(nb),
            i < self.rows().len(),
        ensures
            r == self.state_of(i as int, nb, *s),
    {
        let v = &self.fleet.rows[i];
        if v.crossing.is_some() {
            return CarState::Deciding;
        }
        let queue = Quantity::at(STOP_QUEUE_GAP);
        let eps = Quantity::at(MOVE_EPS);
        let (behind_stopped, led_close) = match nb.leader_of[i] {
            Some(l) => (
                s.leader_gap.below(queue) && self.fleet.rows[l].speed.below(eps),
                s.leader_gap.below(Quantity::at(LEADER_PERCEPTION)),
            ),
            None => (false, false),
        };
        if v.speed.below(eps) && (behind_stopped || s.to_end.below(queue)) {
            return CarState::Frozen;
        }
        if !led_close && Quantity::at(SIGNAL_LOOKAHEAD).at_most(s.to_end) {
            return CarState::Free;
        }
        CarState::Deciding
    }

    /// How many vehicles are free, frozen and deciding.
    pub fn state_census(&self, nb: &Neighbors, sights: &Vec<Sight>) -> (r: [usize; 3])
        requires
            self.led(nb),
            sights@.len() == self.rows().len(),
        ensures
            r@[0] == count_where(
                self.rows().len() as int,
                self.is_in_state(nb, sights@, CarState::Free),
            ),
            r@[1] == count_where(
                self.rows().len() as int,
                self.is_in_state(nb, sights@, CarState::Frozen),
            ),
            r@[2] == count_where(
                self.rows().len() as int,
                self.is_in_state(nb, sights@, CarState::Deciding),
            ),
    {
        let n = self.fleet.rows.len();
        let (mut free, mut frozen, mut deciding): (usize, usize, usize) = (0, 0, 0);
        let mut i: usize = 0;
        while i < n
            invariant
                self.led(nb),
                n == self.rows().len(),
                sights@.len() == n,
                i <= n,
                free == count_where(i as int, self.is_in_state(nb, sights@, CarState::Free)),
                frozen == count_where(i as int, self.is_in_state(nb, sights@, CarState::Frozen)),
                deciding == count_where(i as int, self.is_in_state(nb, sights@, CarState::Deciding)),
                free + frozen + deciding == i,
            decreases n - i,
        {
            match self.classify(i, nb, &sights[i]) {
                CarState::Free => {
                    free += 1;
                },
                CarState::Frozen => {
                    frozen += 1;
                },
                CarState::Deciding => {
                    deciding += 1;
                },
            }
            i += 1;
        }
        [free, frozen, deciding]
    }

    fn leader_on_lane(&self, i: usize, nb: &Neighbors) -> (r: Option<usize>)
        requires
            self.led(nb),
            i < self.rows().len(),
        ensures
            r == self.led_on_lane(nb, i as int),
            r matches Some(l) ==> l < self.rows().len(),
    {
        match nb.leader_of[i] {
            Some(l) => if self.fleet.rows[l].lane == self.fleet.rows[i].lane {
                Some(l)
            } else {
                None
            },
            None => None,
        }
    }

    /// The stopped same-lane leader close ahead behind which a stopped vehicle may
    /// sleep.
    pub fn sleep_leader(&self, i: usize, nb: &Neighbors, s: &Sight) -> (r: Option<usize>)
        requires
            self.led(nb),
            i < self.rows().len(),
        ensures
            r == self.pinned_by(i as int, nb, *s),
    {
        let v = &self.fleet.rows[i];
        let eps = Quantity::at(SLEEP_SPEED_EPS);
        if v.crossing.is_some() || eps.at_most(v.speed) {
            return None;
        }
        match self.leader_on_lane(i, nb) {
            Some(l) => if Quantity::at(ZERO).at_most(s.leader_gap) && s.leader_gap.below(
                Quantity::at(STOP_QUEUE_GAP),
            ) && self.fleet.rows[l].speed.below(eps) {
                Some(l)
            } else {
                None
            },
            None => None,
        }
    }

    /// Whether a vehicle cruises the open road with nothing to decide.
    pub fn is_free_sleeper(&self, i: usize, nb: &Neighbors, m: Option<MovementId>, s: &Sight) -> (r: bool)
        requires
            self.wf(),
            self.led(nb),
            i < self.rows().len(),
            m matches Some(x) ==> self.network.has_movement(x),
        ensures
            r == self.cruises(i as int, nb, m, *s),
    {
        let v = &self.fleet.rows[i];
        assert(self.rows()[i as int].placed(&self.network));
        assert(self.network.lane_ok(v.lane.0 as int));
        let lane = self.network.lane(v.lane);
        assert(self.topology.merge_feeder_lane@[v.lane.0 as int] == crate::topology::feeds_merge(
            &self.network,
            LaneId(v.lane.0),
        ));
        if s.to_end.at_most(s.clear_horizon) || !self.link_straight[lane.link.0 as usize]
            || self.topology.merge_feeder_lane[v.lane.0 as usize] {
            return false;
        }
        if nb.leader_of[i].is_some() && s.leader_gap.at_most(Quantity::at(LEADER_PERCEPTION)) {
            return false;
        }
        match m {
            Some(x) => {
                assert(self.network.movement_ok(x.0 as int));
                let mv = self.network.movement(x);
                mv.turn == TurnType::Through && lane.speed_limit.at_most(
                    self.network.lane(mv.to_lane).speed_limit,
                )
            },
            None => true,
        }
    }

    /// The movement a vehicle carries into the tick, and whether it sleeps: a crosser
    /// and one that is awake carry theirs, and a sleeper drops it.
    pub fn decide_intent(&self, i: usize, nb: &Neighbors, s: &Sight) -> (r: (
        Option<MovementId>,
        Sleep,
    ))
        requires
            self.wf(),
            self.led(nb),
            i < self.rows().len(),
        ensures
            r == self.decision(i as int, nb, *s),
            r.0 matches Some(m) ==> self.network.has_movement(m),
    {
        let v = &self.fleet.rows[i];
        assert(self.rows()[i as int].placed(&self.network));
        if v.wreck.is_some() {
            return (None, Sleep::Awake);
        }
        if let Some(c) = v.crossing {
            return (Some(c.movement), Sleep::Awake);
        }
        if self.cfg.sleep_scheduler {
            if let Some(l) = self.sleep_leader(i, nb, s) {
                return (None, Sleep::Queued(l));
            }
        }
        let m = self.intended_movement(v);
        if self.cfg.sleep_scheduler && self.is_free_sleeper(i, nb, m, s) {
            return (None, Sleep::Free);
        }
        (m, Sleep::Awake)
    }

    /// The same-lane leader of a vehicle in a link that runs the queue model.
    pub fn queue_follower(&self, i: usize, nb: &Neighbors) -> (r: Option<usize>)
        requires
            self.wf(),
            self.led(nb),
            i < self.rows().len(),
        ensures
            r == self.queue_leader(i as int, nb),
    {
        assert(self.rows()[i as int].placed(&self.network));
        let lane = self.fleet.rows[i].lane;
        assert(self.network.lane_ok(lane.0 as int));
        if self.congestion_cfg.enabled && self.queue_links[self.network.lane(lane).link.0 as usize] {
            self.leader_on_lane(i, nb)
        } else {
            None
        }
    }

    /// Where a vehicle's acceleration comes from.
    pub fn gather_input(&self, i: usize, nb: &Neighbors, sleep: Sleep) -> (r: AccelSource)
        requires
            self.wf(),
            self.led(nb),
            i < self.rows().len(),
        ensures
            r == self.source_of(i as int, nb, sleep),
    {
        let v = &self.fleet.rows[i];
        if v.wreck.is_some() {
            AccelSource::Wreck
        } else if v.crossing.is_some() {
            AccelSource::Crossing
        } else {
            match sleep {
                Sleep::Queued(l) => AccelSource::Queue(l),
                Sleep::Free => AccelSource::Free,
                Sleep::Awake => match self.queue_follower(i, nb) {
                    Some(l) => AccelSource::Queue(l),
                    None => AccelSource::Full,
                },
            }
        }
    }

    fn priority_rules(&self, node: NodeId) -> (r: bool)
        requires
            self.network.has_node(node),
        ensures
            r == self.priority_decides(node),
    {
        let n = self.network.node(node);
        n.control == NodeControl::Uncontrolled || n.control == NodeControl::Yield || (n.control
            == NodeControl::Stop && !n.all_way_stop)
    }

    fn unsignalized(&self, node: NodeId) -> (r: bool)
        requires
            self.network.has_node(node),
        ensures
            r == self.is_unsignalized(node),
    {
        let c = self.network.node(node).control;
        c == NodeControl::Uncontrolled || c == NodeControl::Yield || c == NodeControl::Stop
    }

    /// Whether the box is shut to a vehicle.
    pub fn box_entry_blocked(&self, i: usize, m: Option<MovementId>, nb: &Neighbors, g: &BoxView) -> (r: bool)
        requires
            self.gated(nb),
            i < self.rows().len(),
            m matches Some(x) ==> self.network.has_movement(x) && self.box_view_fits(
                &self.rows()[i as int],
                x,
                self.network.end_of(self.rows()[i as int].lane),
                g,
            ),
        ensures
            r == self.entry_shut(i as int, m, g),
    {
        let x = match m {
            Some(x) => x,
            None => {
                return false;
            },
        };
        if self.free_flow_interchange(x) {
            return false;
        }
        let v = &self.fleet.rows[i];
        assert(self.rows()[i as int].placed(&self.network));
        let node = self.downstream_node(v.lane);
        let waiter = self.permissive_waiter_hold(i, x, node, nb, g.hold);
        self.box_conflict_on_path_holding(v, x, node, nb, waiter, &g.times) || (waiter.is_none()
            && self.is_permissive(x) && self.permissive_pressure(i, x, node, nb, &g.pressure))
            || self.junction_exit_blocked(v, x, node, nb, &g.exit) || self.rail_closed(node) || (
        self.priority_rules(node) && self.conflicting_priority_traffic(
            i,
            v.lane,
            node,
            nb,
            &g.rivals,
        ))
    }

    /// Whether a driver misses red lights, from a draw and the driver's own chance.
    pub fn runs_red(&self, draw: Quantity, chance: Quantity) -> (r: bool)
        ensures
            r == self.misses_light(draw, chance),
    {
        !self.cfg.red_run_prob.at_most(Quantity::at(ZERO)) && draw.below(chance)
    }

    fn stopped_by_signal(&self, v: &NetVehicle, m: MovementId, to_line: Quantity, s: &SignalView) -> (r: bool)
        requires
            self.wf(),
            self.network.has_movement(m),
        ensures
            r == self.signal_stops(v, m, to_line, *s),
    {
        match self.movement_state(m) {
            SignalState::Green => v.speed.below(Quantity::at(LAUNCH_SPEED)) && s.green_elapsed.below(
                v.driver.reaction_time,
            ),
            SignalState::Red => !self.is_rtor(m) && !s.misses_red,
            SignalState::Yellow => !(Quantity::at(COMMIT_SPEED).below(v.speed) && to_line.below(
                s.yellow_reach,
            ) && s.runs_yellow) && s.stop_dist.at_most(to_line),
        }
    }

    fn follow(&self, i: usize, nb: &Neighbors, delay: usize) -> (r: LeaderSource)
        requires
            self.wf(),
            self.led(nb),
            i < self.rows().len(),
        ensures
            r == self.leader_source(i as int, nb, delay),
    {
        match nb.leader_of[i] {
            None => LeaderSource::Beyond,
            Some(l) => {
                let v = &self.fleet.rows[i];
                let o = &self.fleet.rows[l];
                if o.lane == v.lane && v.crossing.is_none() && o.crossing.is_none()
                    && self.fleet.settled(i, delay) && self.fleet.settled(l, delay) {
                    LeaderSource::Delayed(l)
                } else if o.lane != v.lane {
                    LeaderSource::Capped(l)
                } else {
                    LeaderSource::Current(l)
                }
            },
        }
    }

    fn gate_is_taken(&self, m: MovementId, node: NodeId, nb: &Neighbors) -> (r: bool)
        requires
            self.gated(nb),
            self.network.has_movement(m),
            self.network.has_node(node),
        ensures
            r == self.gate_taken(m, node),
    {
        reveal(NetWorld::gate_taken);
        !self.network.movement(m).interchange && !self.free_flow_seam(m) && self.box_conflict(
            m,
            node,
            nb,
        )
    }

    fn lane_box_busy(&self, lane: LaneId, node: NodeId, nb: &Neighbors) -> (r: bool)
        requires
            self.gated(nb),
            self.network.has_lane(lane),
            self.network.has_node(node),
        ensures
            r == self.lane_box_taken(lane, node),
    {
        assert(self.network.lane_ok(lane.0 as int));
        let start = self.network.lane(lane).movement_start.0;
        let count = self.network.lane(lane).movement_count;
        let mut k: u32 = 0;
        while k < count
            invariant
                self.gated(nb),
                self.network.has_node(node),
                start == self.network.lane_at(lane).movement_start.0,
                count == self.network.lane_at(lane).movement_count,
                start + count <= self.network.movements@.len() <= u32::MAX,
                k <= count,
                forall|m: MovementId|
                    start <= m.0 < start + k ==> !#[trigger] self.gate_taken(m, node),
            decreases count - k,
        {
            let m = MovementId(start + k);
            if self.gate_is_taken(m, node, nb) {
                assert(self.network.leaves(m, lane));
                return true;
            }
            k += 1;
        }
        false
    }

    fn is_held_at_line(&self, i: usize, m: Option<MovementId>, nb: &Neighbors, g: &GatherView) -> (r: bool)
        requires
            self.gated(nb),
            i < self.rows().len(),
            m matches Some(x) ==> self.network.has_movement(x),
            self.gather_view_fits(i as int, m, g),
        ensures
            r == self.held_at_line(i as int, m, g),
    {
        let v = &self.fleet.rows[i];
        assert(self.rows()[i as int].placed(&self.network));
        let node = self.downstream_node(v.lane);
        assert(self.network.lane_ok(v.lane.0 as int));
        if let Some(x) = m {
            if !self.network.junction_internal_lane(v.lane) && self.stopped_by_signal(
                v,
                x,
                g.to_line,
                &g.signal,
            ) {
                return true;
            }
            if self.movement_downstream_blocked(x, nb, &g.room) {
                return true;
            }
            if self.junction_exit_blocked(v, x, node, nb, &g.entry.exit) {
                return true;
            }
        }
        self.meter_red(self.network.lane(v.lane).link) || self.rail_closed(node)
    }

    fn is_covering(&self, i: usize, m: Option<MovementId>, nb: &Neighbors, g: &GatherView) -> (r: bool)
        requires
            self.gated(nb),
            i < self.rows().len(),
            m matches Some(x) ==> self.network.has_movement(x),
            self.gather_view_fits(i as int, m, g),
        ensures
            r == self.covers_brake(i as int, m, g),
    {
        let v = &self.fleet.rows[i];
        assert(self.rows()[i as int].placed(&self.network));
        let node = self.downstream_node(v.lane);
        if self.network.junction_internal_lane(v.lane) {
            return false;
        }
        if self.lane_box_busy(v.lane, node, nb) {
            return true;
        }
        let free = match m {
            Some(x) => self.free_flow_interchange(x),
            None => false,
        };
        !free && self.unsignalized(node) && self.conflicting_priority_traffic(
            i,
            v.lane,
            node,
            nb,
            &g.wide_rivals,
        )
    }

    fn is_owing_stop(&self, i: usize, m: Option<MovementId>) -> (r: bool)
        requires
            self.wf(),
            i < self.rows().len(),
            m matches Some(x) ==> self.network.has_movement(x),
        ensures
            r == self.owes_stop(i as int, m),
    {
        let v = &self.fleet.rows[i];
        assert(self.rows()[i as int].placed(&self.network));
        let node = self.downstream_node(v.lane);
        if self.network.junction_internal_lane(v.lane) {
            return false;
        }
        let turning = match m {
            Some(x) => self.is_rtor(x),
            None => false,
        };
        let stopped_here = match v.stopped_at {
            Some(n) => n == node,
            None => false,
        };
        (self.approach_must_stop(v.lane) || turning) && !stopped_here
    }

    /// Whether the approach of a lane faces a stop line at its end.
    pub fn approach_must_stop(&self, lane: LaneId) -> (r: bool)
        requires
            self.network.wf(),
            self.network.has_lane(lane),
        ensures
            r == self.faces_stop_line(lane),
    {
        let node = self.downstream_node(lane);
        assert(self.network.lane_ok(lane.0 as int));
        self.network.node(node).control == NodeControl::Stop && self.network.link(
            self.network.lane(lane).link,
        ).stop_line
    }

    fn is_giving_way(&self, i: usize, m: Option<MovementId>, nb: &Neighbors, g: &GatherView) -> (r: bool)
        requires
            self.gated(nb),
            i < self.rows().len(),
            m matches Some(x) ==> self.network.has_movement(x),
            self.gather_view_fits(i as int, m, g),
        ensures
            r == self.gives_way_at_line(i as int, m, g),
    {
        let v = &self.fleet.rows[i];
        assert(self.rows()[i as int].placed(&self.network));
        let node = self.downstream_node(v.lane);
        let n = self.network.node(node);
        let stopped_here = match v.stopped_at {
            Some(x) => x == node,
            None => false,
        };
        let free = match m {
            Some(x) => self.free_flow_interchange(x),
            None => false,
        };
        let waiter = match m {
            Some(x) => self.permissive_waiter_hold(i, x, node, nb, g.entry.hold),
            None => None,
        };
        if let Some(x) = m {
            if !free && self.box_conflict_on_path_holding(v, x, node, nb, waiter, &g.entry.times) {
                return true;
            }
        }
        if self.network.junction_internal_lane(v.lane) {
            return false;
        }
        let armed = n.control == NodeControl::Stop && n.all_way_stop && stopped_here;
        if !free && !armed && self.unsignalized(node) && self.conflicting_priority_traffic(
            i,
            v.lane,
            node,
            nb,
            &g.entry.rivals,
        ) {
            return true;
        }
        match m {
            Some(x) => {
                if waiter.is_none() && self.is_permissive(x) && self.permissive_pressure(
                    i,
                    x,
                    node,
                    nb,
                    &g.entry.pressure,
                ) {
                    return true;
                }
                n.control == NodeControl::Stop && stopped_here && self.earlier_stopped_conflict(
                    i,
                    x,
                    node,
                    nb,
                    &g.fifo_rooms,
                )
            },
            None => false,
        }
    }

    /// The constraints that act on a vehicle in its lane.
    pub fn gather_context(&self, i: usize, nb: &Neighbors, m: Option<MovementId>, g: &GatherView) -> (r: Constraints)
        requires
            self.gated(nb),
            self.led(nb),
            i < self.rows().len(),
            m matches Some(x) ==> self.network.has_movement(x),
            self.gather_view_fits(i as int, m, g),
        ensures
            r == self.constraints_on(i as int, nb, m, g),
    {
        let v = &self.fleet.rows[i];
        assert(self.rows()[i as int].placed(&self.network));
        let leader = self.follow(i, nb, g.delay);
        let slower = match m {
            Some(x) => {
                assert(self.network.movement_ok(x.0 as int));
                self.network.lane(self.network.movement(x).to_lane).speed_limit.below(
                    self.network.lane(v.lane).speed_limit,
                )
            },
            None => false,
        };
        if Quantity::at(DECISION_HORIZON).below(g.to_line) && !slower {
            return Constraints {
                leader,
                open_road: true,
                line: false,
                cover_brake: false,
                stop_sign: false,
                give_way: false,
            };
        }
        Constraints {
            leader,
            open_road: false,
            line: self.is_held_at_line(i, m, nb, g),
            cover_brake: self.is_covering(i, m, nb, g),
            stop_sign: self.is_owing_stop(i, m),
            give_way: self.is_giving_way(i, m, nb, g),
        }
    }
}

/// The first vehicle of a lane decides in full: it neither sleeps in a queue nor
/// runs the queue model, even where its corridor has someone further on.
pub proof fn the_first_of_a_lane_decides_in_full(w: &NetWorld, i: int, nb: &Neighbors, s: Sight)
    requires
        nb.leader_of@[i] matches Some(l) ==> w.rows()[l as int].lane != w.rows()[i].lane,
    ensures
        !(w.decision(i, nb, s).1 is Queued),
        w.queue_leader(i, nb) is None,
{
}

} // verus!
