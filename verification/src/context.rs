//! The flat record that a rolling vehicle's constraints are gathered in. Every
//! field is a plain number, so that a slice of records can be handed to any
//! solver; a constraint that is absent is an infinite distance.

use vstd::prelude::*;
use crate::fleet::DriverConfig;
use crate::intent::Constraints;
use crate::network::MovementId;
use crate::quantity::{place, Quantity, INFINITY, ZERO};
use crate::search::{count_where, indices_where, lemma_count_bounds, lemma_count_monotone};
use crate::world::NetWorld;

verus! {

/// A turn is prepared for at least this far ahead. Place of 12 m.
pub const TURN_LOOKAHEAD: i64 = 0x4028_0000_0000_0000;

/// A driver who covers the brake goes this fast. Place of 5 m/s.
pub const COVER_SPEED: i64 = 0x4014_0000_0000_0000;

/// Something ahead: how far, and how fast it goes.
#[derive(Clone, Copy, Debug, PartialEq, Eq, Structural)]
pub struct Obstacle {
    pub gap: Quantity,
    pub speed: Quantity,
}

/// A speed to reach within a distance.
#[derive(Clone, Copy, Debug, PartialEq, Eq, Structural)]
pub struct SpeedTarget {
    pub speed: Quantity,
    pub distance: Quantity,
}

#[derive(Clone, Copy, Debug, PartialEq, Eq, Structural)]
pub struct VehicleContext {
    pub driver: DriverConfig,
    pub speed: Quantity,
    pub stop_line: Quantity,
    pub speed_target_speed: Quantity,
    pub speed_target_dist: Quantity,
    pub stop_sign: Quantity,
    pub yield_line: Quantity,
    pub curve_speed: Quantity,
    pub curve_dist: Quantity,
    pub leader_gap: Quantity,
    pub leader_speed: Quantity,
    pub merge_gap: Quantity,
    pub merge_speed: Quantity,
    pub agent_id: u32,
}

/// The constraints as their solver takes them.
#[derive(Clone, Copy, Debug, PartialEq, Eq, Structural)]
pub struct LongContext {
    pub driver: DriverConfig,
    pub speed: Quantity,
    pub leader: Option<Obstacle>,
    pub stop_line: Option<Quantity>,
    pub speed_target: Option<SpeedTarget>,
    pub stop_sign: Option<Quantity>,
    pub yield_line: Option<Quantity>,
    pub merge: Option<Obstacle>,
    pub curve: Option<SpeedTarget>,
}

/// A distance, where there is one.
pub open spec fn present(q: Quantity) -> Option<Quantity> {
    if q.is_finite() {
        Some(q)
    } else {
        None
    }
}

/// What a record holds for an obstacle, where there is one.
pub open spec fn obstacle(gap: Quantity, speed: Quantity) -> Option<Obstacle> {
    if gap.is_finite() {
        Some(Obstacle { gap, speed })
    } else {
        None
    }
}

/// What a record holds for a speed target, where there is one.
pub open spec fn target(speed: Quantity, distance: Quantity) -> Option<SpeedTarget> {
    if distance.is_finite() {
        Some(SpeedTarget { speed, distance })
    } else {
        None
    }
}

fn finite_only(q: Quantity) -> (r: Option<Quantity>)
    ensures
        r == present(q),
{
    if q.finite() {
        Some(q)
    } else {
        None
    }
}

fn obstacle_at(gap: Quantity, speed: Quantity) -> (r: Option<Obstacle>)
    ensures
        r == obstacle(gap, speed),
{
    if gap.finite() {
        Some(Obstacle { gap, speed })
    } else {
        None
    }
}

fn target_at(speed: Quantity, distance: Quantity) -> (r: Option<SpeedTarget>)
    ensures
        r == target(speed, distance),
{
    if distance.finite() {
        Some(SpeedTarget { speed, distance })
    } else {
        None
    }
}

impl VehicleContext {
    /// The constraints that a record holds.
    pub open spec fn constraints(&self) -> LongContext {
        LongContext {
            driver: self.driver,
            speed: self.speed,
            leader: obstacle(self.leader_gap, self.leader_speed),
            stop_line: present(self.stop_line),
            speed_target: target(self.speed_target_speed, self.speed_target_dist),
            stop_sign: present(self.stop_sign),
            yield_line: present(self.yield_line),
            merge: obstacle(self.merge_gap, self.merge_speed),
            curve: target(self.curve_speed, self.curve_dist),
        }
    }

    /// A record without any constraint.
    pub open spec fn blank(driver: DriverConfig, speed: Quantity, agent_id: u32) -> VehicleContext {
        VehicleContext {
            driver,
            speed,
            stop_line: place(INFINITY),
            speed_target_speed: place(INFINITY),
            speed_target_dist: place(INFINITY),
            stop_sign: place(INFINITY),
            yield_line: place(INFINITY),
            curve_speed: place(INFINITY),
            curve_dist: place(INFINITY),
            leader_gap: place(INFINITY),
            leader_speed: place(ZERO),
            merge_gap: place(INFINITY),
            merge_speed: place(ZERO),
            agent_id,
        }
    }

    pub open spec fn with_leader(self, o: Option<Obstacle>) -> VehicleContext {
        match o {
            Some(x) => VehicleContext { leader_gap: x.gap, leader_speed: x.speed, ..self },
            None => self,
        }
    }

    pub open spec fn with_merge(self, o: Option<Obstacle>) -> VehicleContext {
        match o {
            Some(x) => VehicleContext { merge_gap: x.gap, merge_speed: x.speed, ..self },
            None => self,
        }
    }

    pub open spec fn with_curve(self, t: Option<SpeedTarget>) -> VehicleContext {
        match t {
            Some(x) => VehicleContext { curve_speed: x.speed, curve_dist: x.distance, ..self },
            None => self,
        }
    }

    pub open spec fn with_speed_target(self, t: Option<SpeedTarget>) -> VehicleContext {
        match t {
            Some(x) => VehicleContext { speed_target_speed: x.speed, speed_target_dist: x.distance, ..self },
            None => self,
        }
    }

    pub open spec fn with_stop_line(self, d: Option<Quantity>) -> VehicleContext {
        match d {
            Some(x) => VehicleContext { stop_line: x, ..self },
            None => self,
        }
    }

    pub open spec fn with_stop_sign(self, d: Option<Quantity>) -> VehicleContext {
        match d {
            Some(x) => VehicleContext { stop_sign: x, ..self },
            None => self,
        }
    }

    pub open spec fn with_yield_line(self, d: Option<Quantity>) -> VehicleContext {
        match d {
            Some(x) => VehicleContext { yield_line: x, ..self },
            None => self,
        }
    }

    /// A record without any constraint.
    pub fn new(driver: DriverConfig, speed: Quantity, agent_id: u32) -> (r: VehicleContext)
        ensures
            r == Self::blank(driver, speed, agent_id),
    {
        let open = Quantity::at(INFINITY);
        VehicleContext {
            driver,
            speed,
            stop_line: open,
            speed_target_speed: open,
            speed_target_dist: open,
            stop_sign: open,
            yield_line: open,
            curve_speed: open,
            curve_dist: open,
            leader_gap: open,
            leader_speed: Quantity::at(ZERO),
            merge_gap: open,
            merge_speed: Quantity::at(ZERO),
            agent_id,
        }
    }

    /// Follow a leader; without one, nothing changes.
    pub fn set_leader(&mut self, o: Option<Obstacle>)
        ensures
            *final(self) == old(self).with_leader(o),
    {
        if let Some(x) = o {
            self.leader_gap = x.gap;
            self.leader_speed = x.speed;
        }
    }

    /// Mind a merging vehicle.
    pub fn set_merge(&mut self, o: Option<Obstacle>)
        ensures
            *final(self) == old(self).with_merge(o),
    {
        if let Some(x) = o {
            self.merge_gap = x.gap;
            self.merge_speed = x.speed;
        }
    }

    /// Slow down for a curve.
    pub fn set_curve(&mut self, t: Option<SpeedTarget>)
        ensures
            *final(self) == old(self).with_curve(t),
    {
        if let Some(x) = t {
            self.curve_speed = x.speed;
            self.curve_dist = x.distance;
        }
    }

    /// Slow down for a slower road.
    pub fn set_speed_target(&mut self, t: Option<SpeedTarget>)
        ensures
            *final(self) == old(self).with_speed_target(t),
    {
        if let Some(x) = t {
            self.speed_target_speed = x.speed;
            self.speed_target_dist = x.distance;
        }
    }

    /// Stop at a line.
    pub fn set_stop_line(&mut self, d: Option<Quantity>)
        ensures
            *final(self) == old(self).with_stop_line(d),
    {
        if let Some(x) = d {
            self.stop_line = x;
        }
    }

    /// Obey a stop sign.
    pub fn set_stop_sign(&mut self, d: Option<Quantity>)
        ensures
            *final(self) == old(self).with_stop_sign(d),
    {
        if let Some(x) = d {
            self.stop_sign = x;
        }
    }

    /// Give way at a line.
    pub fn set_yield_line(&mut self, d: Option<Quantity>)
        ensures
            *final(self) == old(self).with_yield_line(d),
    {
        if let Some(x) = d {
            self.yield_line = x;
        }
    }

    /// The constraints as their solver takes them.
    pub fn long_context(&self) -> (r: LongContext)
        ensures
            r == self.constraints(),
    {
        LongContext {
            driver: self.driver,
            speed: self.speed,
            leader: obstacle_at(self.leader_gap, self.leader_speed),
            stop_line: finite_only(self.stop_line),
            speed_target: target_at(self.speed_target_speed, self.speed_target_dist),
            stop_sign: finite_only(self.stop_sign),
            yield_line: finite_only(self.yield_line),
            merge: obstacle_at(self.merge_gap, self.merge_speed),
            curve: target_at(self.curve_speed, self.curve_dist),
        }
    }
}

/// What a vehicle brings to the evaluation of accelerations: its constraints, or
/// the acceleration that it has inside a node already.
#[derive(Clone, Copy, Debug, PartialEq, Eq, Structural)]
pub enum AccelInput {
    Rolling(VehicleContext),
    Crossing(Quantity),
}

/// Of an input: it is left to the solver.
pub open spec fn is_rolling(inputs: Seq<AccelInput>) -> spec_fn(int) -> bool {
    |i: int| inputs[i] is Rolling
}

/// The inputs that are left to the solver, in order.
pub fn rolling_inputs(inputs: &Vec<AccelInput>) -> (r: Vec<usize>)
    ensures
        r@ == indices_where(inputs@.len() as int, is_rolling(inputs@)),
{
    let mut out: Vec<usize> = Vec::new();
    let mut i: usize = 0;
    while i < inputs.len()
        invariant
            i <= inputs@.len(),
            out@ == indices_where(i as int, is_rolling(inputs@)),
        decreases inputs@.len() - i,
    {
        if let AccelInput::Rolling(_) = inputs[i] {
            out.push(i);
        }
        i += 1;
    }
    out
}

/// The acceleration of one input: what it has already, or the solver's answer to
/// it, which stands where it does among the inputs that were left to the solver.
pub open spec fn accel_of(inputs: Seq<AccelInput>, answers: Seq<Quantity>, i: int) -> Quantity {
    match inputs[i] {
        AccelInput::Crossing(a) => a,
        AccelInput::Rolling(_) => answers[count_where(i, is_rolling(inputs))],
    }
}

/// Put the solver's answers back in the places of the inputs.
pub fn scatter_accels(inputs: &Vec<AccelInput>, answers: &Vec<Quantity>) -> (r: Vec<Quantity>)
    requires
        answers@.len() == count_where(inputs@.len() as int, is_rolling(inputs@)),
    ensures
        r@.len() == inputs@.len(),
        forall|i: int|
            0 <= i < r@.len() ==> #[trigger] r@[i] == accel_of(inputs@, answers@, i),
{
    let mut out: Vec<Quantity> = Vec::new();
    let mut next: usize = 0;
    let mut i: usize = 0;
    while i < inputs.len()
        invariant
            answers@.len() == count_where(inputs@.len() as int, is_rolling(inputs@)),
            i <= inputs@.len(),
            next == count_where(i as int, is_rolling(inputs@)),
            out@.len() == i,
            forall|k: int| 0 <= k < i ==> #[trigger] out@[k] == accel_of(inputs@, answers@, k),
        decreases inputs@.len() - i,
    {
        proof {
            lemma_count_monotone(i + 1, inputs@.len() as int, is_rolling(inputs@));
            lemma_count_bounds(i as int, is_rolling(inputs@));
        }
        match inputs[i] {
            AccelInput::Crossing(a) => {
                out.push(a);
            },
            AccelInput::Rolling(_) => {
                out.push(answers[next]);
                next += 1;
            },
        }
        i += 1;
    }
    out
}

/// The solver's answer to the `k`-th rolling input ends up in that input's place.
pub proof fn answers_return_to_their_inputs(inputs: Seq<AccelInput>, answers: Seq<Quantity>, k: int)
    requires
        inputs.len() <= usize::MAX,
        0 <= k < count_where(inputs.len() as int, is_rolling(inputs)),
    ensures
        ({
            let i = indices_where(inputs.len() as int, is_rolling(inputs))[k] as int;
            0 <= i < inputs.len() && accel_of(inputs, answers, i) == answers[k]
        }),
{
    lemma_rank(inputs.len() as int, is_rolling(inputs), k);
}

/// The `k`-th index with a property has `k` of them before it.
proof fn lemma_rank(n: int, p: spec_fn(int) -> bool, k: int)
    requires
        0 <= n <= usize::MAX,
        0 <= k < count_where(n, p),
    ensures
        indices_where(n, p).len() == count_where(n, p),
        0 <= indices_where(n, p)[k] < n,
        p(indices_where(n, p)[k] as int),
        count_where(indices_where(n, p)[k] as int, p) == k,
    decreases n,
{
    crate::search::lemma_indices(n, p);
    if n > 0 {
        crate::search::lemma_indices(n - 1, p);
        if k < count_where(n - 1, p) {
            lemma_rank(n - 1, p, k);
        }
    }
}

/// A blank record holds no constraint, and a record hands back what was set: of
/// each constraint the last one with a finite distance.
pub proof fn a_record_keeps_its_constraints(
    c: VehicleContext,
    driver: DriverConfig,
    gap: Quantity,
    speed: Quantity,
    id: u32,
)
    requires
        gap.is_finite(),
    ensures
        VehicleContext::blank(driver, speed, id).constraints() == (LongContext {
            driver,
            speed,
            leader: None,
            stop_line: None,
            speed_target: None,
            stop_sign: None,
            yield_line: None,
            merge: None,
            curve: None,
        }),
        c.with_leader(Some(Obstacle { gap, speed })).constraints() == (LongContext {
            leader: Some(Obstacle { gap, speed }),
            ..c.constraints()
        }),
        c.with_merge(Some(Obstacle { gap, speed })).constraints() == (LongContext {
            merge: Some(Obstacle { gap, speed }),
            ..c.constraints()
        }),
        c.with_curve(Some(SpeedTarget { speed, distance: gap })).constraints() == (LongContext {
            curve: Some(SpeedTarget { speed, distance: gap }),
            ..c.constraints()
        }),
        c.with_speed_target(Some(SpeedTarget { speed, distance: gap })).constraints() == (
        LongContext { speed_target: Some(SpeedTarget { speed, distance: gap }), ..c.constraints() }),
        c.with_stop_line(Some(gap)).constraints() == (LongContext {
            stop_line: Some(gap),
            ..c.constraints()
        }),
        c.with_stop_sign(Some(gap)).constraints() == (LongContext {
            stop_sign: Some(gap),
            ..c.constraints()
        }),
        c.with_yield_line(Some(gap)).constraints() == (LongContext {
            yield_line: Some(gap),
            ..c.constraints()
        }),
{
}

/// The driver, going no faster than a limit.
pub open spec fn capped(driver: DriverConfig, limit: Quantity) -> DriverConfig {
    DriverConfig { desired_speed: driver.desired_speed.lesser(limit), ..driver }
}

/// The slower of two targets; the first of equally slow ones.
pub open spec fn slower(a: Option<SpeedTarget>, b: Option<SpeedTarget>) -> Option<SpeedTarget> {
    match (a, b) {
        (Some(x), Some(y)) => if x.speed.is_at_most(y.speed) {
            a
        } else {
            b
        },
        (Some(_), None) => a,
        (None, _) => b,
    }
}

/// What is measured of a rolling vehicle to fill its record.
#[derive(Clone, Copy, Debug, PartialEq, Eq, Structural)]
pub struct ContextView {
    pub to_line: Quantity,
    /// The leader as the driver sees it.
    pub leader: Option<Obstacle>,
    /// What the road's own curvature ahead asks for.
    pub bend: Option<SpeedTarget>,
    /// Distance to a red light further ahead.
    pub red: Option<Quantity>,
    /// Distance to the stop that a bus holds at.
    pub bus: Option<Quantity>,
    /// The vehicle that merges ahead.
    pub merge: Option<Obstacle>,
}

impl NetWorld {
    /// The driver of a row, capped to its lane's limit.
    pub open spec fn driver_here(&self, i: int) -> DriverConfig {
        capped(
            self.rows()[i].driver,
            self.network.lane_at(self.rows()[i].lane).speed_limit,
        )
    }

    /// The record of a vehicle on the open road.
    pub open spec fn free_record(&self, i: int) -> VehicleContext {
        VehicleContext::blank(self.driver_here(i), self.rows()[i].speed, self.rows()[i].id)
    }

    /// The record of a vehicle that only follows its leader.
    pub open spec fn queue_record(&self, i: int, leader: int, gap: Quantity) -> VehicleContext {
        self.free_record(i).with_leader(Some(Obstacle { gap, speed: self.rows()[leader].speed }))
    }

    /// What the movement's own curvature asks for.
    pub open spec fn turn_target(&self, m: Option<MovementId>, to_line: Quantity) -> Option<SpeedTarget> {
        match m {
            Some(x) => if self.turn_caps@[x.0 as int].is_finite() {
                Some(
                    SpeedTarget {
                        speed: self.turn_caps@[x.0 as int],
                        distance: if to_line.is_below(place(TURN_LOOKAHEAD)) {
                            place(TURN_LOOKAHEAD)
                        } else {
                            to_line
                        },
                    },
                )
            } else {
                None
            },
            None => None,
        }
    }

    /// How slow the road beyond the movement, or the movement itself, makes the
    /// driver go.
    pub open spec fn beyond_speed(&self, i: int, m: MovementId) -> Quantity {
        self.rows()[i].driver.desired_speed.lesser(
            self.network.lane_at(self.network.landing(m)).speed_limit,
        ).lesser(self.turn_caps@[m.0 as int])
    }

    /// The target that a slower road beyond the movement sets.
    pub open spec fn beyond_target(&self, i: int, m: Option<MovementId>, to_line: Quantity) -> Option<
        SpeedTarget,
    > {
        match m {
            Some(x) => if self.beyond_speed(i, x).is_below(self.driver_here(i).desired_speed) {
                Some(SpeedTarget { speed: self.beyond_speed(i, x), distance: to_line })
            } else {
                None
            },
            None => None,
        }
    }

    /// The target of a driver who covers the brake: slow enough to stop still.
    pub open spec fn covered(t: Option<SpeedTarget>, to_line: Quantity) -> Option<SpeedTarget> {
        match t {
            Some(x) => if x.speed.is_below(place(COVER_SPEED)) {
                t
            } else {
                Some(SpeedTarget { speed: place(COVER_SPEED), distance: to_line })
            },
            None => Some(SpeedTarget { speed: place(COVER_SPEED), distance: to_line }),
        }
    }

    /// The nearer of where the road and where a bus stop make a vehicle stop.
    pub open spec fn first_stop(line: Option<Quantity>, bus: Option<Quantity>) -> Option<Quantity> {
        match (line, bus) {
            (Some(s), Some(d)) => Some(s.lesser(d)),
            (None, Some(d)) => Some(d),
            (_, None) => line,
        }
    }

    /// The record of a vehicle under its constraints.
    pub open spec fn full_record(
        &self,
        i: int,
        m: Option<MovementId>,
        c: Constraints,
        g: ContextView,
    ) -> VehicleContext {
        let here = Some(g.to_line);
        let base = self.free_record(i).with_leader(g.leader).with_curve(
            slower(g.bend, self.turn_target(m, g.to_line)),
        );
        let beyond = self.beyond_target(i, m, g.to_line);
        if c.open_road {
            base.with_stop_line(g.bus)
        } else {
            base.with_stop_line(
                Self::first_stop(
                    if c.line {
                        here
                    } else {
                        g.red
                    },
                    g.bus,
                ),
            ).with_speed_target(
                if c.cover_brake {
                    Self::covered(beyond, g.to_line)
                } else {
                    beyond
                },
            ).with_stop_sign(
                if c.stop_sign {
                    here
                } else {
                    None
                },
            ).with_yield_line(
                if c.give_way {
                    here
                } else {
                    None
                },
            ).with_merge(g.merge)
        }
    }

    /// The record of a vehicle on the open road.
    pub fn free_context(&self, i: usize) -> (r: VehicleContext)
        requires
            self.wf(),
            i < self.rows().len(),
        ensures
            r == self.free_record(i as int),
    {
        let v = &self.fleet.rows[i];
        assert(self.rows()[i as int].placed(&self.network));
        let limit = self.network.lane(v.lane).speed_limit;
        let driver = DriverConfig {
            desired_speed: v.driver.desired_speed.least(limit),
            accel_exponent: v.driver.accel_exponent,
            min_gap: v.driver.min_gap,
            time_headway: v.driver.time_headway,
            max_accel: v.driver.max_accel,
            comfort_decel: v.driver.comfort_decel,
            vehicle_length: v.driver.vehicle_length,
            reaction_time: v.driver.reaction_time,
            accel_noise: v.driver.accel_noise,
            politeness: v.driver.politeness,
            critical_gap: v.driver.critical_gap,
        };
        VehicleContext::new(driver, v.speed, v.id)
    }

    /// The record of a vehicle that only follows its leader, at a measured gap.
    pub fn queue_context(&self, i: usize, leader: usize, gap: Quantity) -> (r: VehicleContext)
        requires
            self.wf(),
            i < self.rows().len(),
            leader < self.rows().len(),
        ensures
            r == self.queue_record(i as int, leader as int, gap),
    {
        let mut cx = self.free_context(i);
        cx.set_leader(Some(Obstacle { gap, speed: self.fleet.rows[leader].speed }));
        cx
    }

    fn slower_of(a: Option<SpeedTarget>, b: Option<SpeedTarget>) -> (r: Option<SpeedTarget>)
        ensures
            r == slower(a, b),
    {
        match (a, b) {
            (Some(x), Some(y)) => if x.speed.at_most(y.speed) {
                a
            } else {
                b
            },
            (Some(_), None) => a,
            (None, _) => b,
        }
    }

    fn target_of_turn(&self, m: Option<MovementId>, to_line: Quantity) -> (r: Option<SpeedTarget>)
        requires
            self.wf(),
            m matches Some(x) ==> self.network.has_movement(x),
        ensures
            r == self.turn_target(m, to_line),
    {
        let near = Quantity::at(TURN_LOOKAHEAD);
        match m {
            Some(x) => {
                let speed = self.turn_speed_cap(x);
                if speed.finite() {
                    Some(
                        SpeedTarget {
                            speed,
                            distance: if to_line.below(near) {
                                near
                            } else {
                                to_line
                            },
                        },
                    )
                } else {
                    None
                }
            },
            None => None,
        }
    }

    /// The speed that the movement's curvature allows.
    pub fn turn_speed_cap(&self, m: MovementId) -> (r: Quantity)
        requires
            self.wf(),
            self.network.has_movement(m),
        ensures
            r == self.turn_caps@[m.0 as int],
    {
        self.turn_caps[m.0 as usize]
    }

    fn target_beyond(&self, i: usize, m: Option<MovementId>, to_line: Quantity) -> (r: Option<SpeedTarget>)
        requires
            self.wf(),
            i < self.rows().len(),
            m matches Some(x) ==> self.network.has_movement(x),
        ensures
            r == self.beyond_target(i as int, m, to_line),
    {
        let v = &self.fleet.rows[i];
        assert(self.rows()[i as int].placed(&self.network));
        let x = match m {
            Some(x) => x,
            None => {
                return None;
            },
        };
        assert(self.network.movement_ok(x.0 as int));
        let own = v.driver.desired_speed;
        let limit = self.network.lane(self.network.movement(x).to_lane).speed_limit;
        let speed = own.least(limit).least(self.turn_speed_cap(x));
        if speed.below(own.least(self.network.lane(v.lane).speed_limit)) {
            Some(SpeedTarget { speed, distance: to_line })
        } else {
            None
        }
    }

    /// The record of a vehicle under its constraints.
    pub fn full_context(
        &self,
        i: usize,
        m: Option<MovementId>,
        c: &Constraints,
        g: &ContextView,
    ) -> (r: VehicleContext)
        requires
            self.wf(),
            i < self.rows().len(),
            m matches Some(x) ==> self.network.has_movement(x),
        ensures
            r == self.full_record(i as int, m, *c, *g),
    {
        let mut cx = self.free_context(i);
        cx.set_leader(g.leader);
        cx.set_curve(Self::slower_of(g.bend, self.target_of_turn(m, g.to_line)));
        if c.open_road {
            cx.set_stop_line(g.bus);
            return cx;
        }
        let here = Some(g.to_line);
        let line = if c.line {
            here
        } else {
            g.red
        };
        cx.set_stop_line(
            match (line, g.bus) {
                (Some(s), Some(d)) => Some(s.least(d)),
                (None, Some(d)) => Some(d),
                (_, None) => line,
            },
        );
        let beyond = self.target_beyond(i, m, g.to_line);
        let cover = Quantity::at(COVER_SPEED);
        let slow = match beyond {
            Some(x) => x.speed.below(cover),
            None => false,
        };
        cx.set_speed_target(
            if c.cover_brake && !slow {
                Some(SpeedTarget { speed: cover, distance: g.to_line })
            } else {
                beyond
            },
        );
        cx.set_stop_sign(
            if c.stop_sign {
                here
            } else {
                None
            },
        );
        cx.set_yield_line(
            if c.give_way {
                here
            } else {
                None
            },
        );
        cx.set_merge(g.merge);
        cx
    }
}

} // verus!
