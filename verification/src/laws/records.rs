//! What a driver's record asks of it.

use vstd::prelude::*;

use crate::context::{
    AccelInput, COVER_SPEED, ContextView, Obstacle, TURN_LOOKAHEAD, accel_of, is_rolling,
};
use crate::intent::Constraints;
use crate::network::MovementId;
use crate::quantity::{Quantity, place};
use crate::search::count_where;
use crate::world::NetWorld;

verus! {

/// Every record is of its own vehicle: its speed, its id, its driver going no faster
/// than the lane's limit and otherwise as it is.
pub proof fn a_record_is_of_its_vehicle(w: &NetWorld, i: int, m: Option<MovementId>, c: Constraints, g: ContextView)
    requires
        !w.rows()[i].driver.desired_speed.is_nan(),
        !w.network.lanes@[w.rows()[i].lane.0 as int].speed_limit.is_nan(),
    ensures
        ({
            let v = w.rows()[i];
            let limit = w.network.lanes@[v.lane.0 as int].speed_limit;
            let r = w.full_record(i, m, c, g);
            &&& r.speed == v.speed
            &&& r.agent_id == v.id
            &&& r.driver.desired_speed.is_at_most(limit)
            &&& r.driver.desired_speed.is_at_most(v.driver.desired_speed)
            &&& r.driver.desired_speed == limit || r.driver.desired_speed == v.driver.desired_speed
            &&& r.driver.min_gap == v.driver.min_gap
            &&& r.driver.time_headway == v.driver.time_headway
            &&& r.driver.max_accel == v.driver.max_accel
            &&& r.driver.comfort_decel == v.driver.comfort_decel
            &&& r.driver.vehicle_length == v.driver.vehicle_length
            &&& r.driver.reaction_time == v.driver.reaction_time
            &&& r.driver.accel_exponent == v.driver.accel_exponent
            &&& r.driver.accel_noise == v.driver.accel_noise
            &&& r.driver.politeness == v.driver.politeness
            &&& r.driver.critical_gap == v.driver.critical_gap
        }),
{
}

/// A vehicle on the open road minds nothing; one that only follows minds its leader at
/// its own speed, and nothing else.
pub proof fn a_follower_minds_its_leader(w: &NetWorld, i: int, leader: int, gap: Quantity)
    requires
        gap.is_finite(),
    ensures
        ({
            let free = w.free_record(i).constraints();
            let queue = w.queue_record(i, leader, gap).constraints();
            &&& free.leader is None
            &&& free.stop_line is None
            &&& free.stop_sign is None
            &&& free.yield_line is None
            &&& free.speed_target is None
            &&& free.merge is None
            &&& free.curve is None
            &&& queue.leader == Some(Obstacle { gap, speed: w.rows()[leader].speed })
            &&& queue.stop_line is None
            &&& queue.stop_sign is None
            &&& queue.yield_line is None
            &&& queue.speed_target is None
            &&& queue.merge is None
            &&& queue.curve is None
        }),
{
}

/// What is held at its line stops there, whatever red is beyond, unless a bus stop
/// comes sooner; what is not held stops at the red beyond or the bus stop, whichever
/// is nearer. On the open road only the bus stop counts.
pub proof fn a_record_stops_where_it_must(w: &NetWorld, i: int, m: Option<MovementId>, c: Constraints, g: ContextView)
    requires
        g.to_line.is_finite(),
        g.red matches Some(d) ==> d.is_finite(),
        g.bus matches Some(d) ==> d.is_finite(),
    ensures
        ({
            let stop = w.full_record(i, m, c, g).constraints().stop_line;
            &&& c.open_road ==> stop == g.bus
            &&& !c.open_road && c.line ==> stop is Some && stop->0.is_at_most(g.to_line) && (g.bus
                is None ==> stop == Some(g.to_line))
            &&& !c.open_road && g.bus is Some ==> stop is Some && stop->0.is_at_most(g.bus->0)
            &&& !c.open_road && !c.line && g.red is Some ==> stop is Some && stop->0.is_at_most(
                g.red->0,
            )
            &&& !c.open_road && !c.line && g.red is None && g.bus is None ==> stop is None
            &&& stop is Some ==> stop == g.bus || (!c.open_road && (if c.line {
                stop == Some(g.to_line)
            } else {
                stop == g.red
            }))
        }),
{
}

/// A stop sign and a duty to give way are minded at the line exactly when they bind.
pub proof fn a_record_minds_signs_at_the_line(w: &NetWorld, i: int, m: Option<MovementId>, c: Constraints, g: ContextView)
    requires
        g.to_line.is_finite(),
    ensures
        ({
            let r = w.full_record(i, m, c, g).constraints();
            &&& !c.open_road && c.stop_sign ==> r.stop_sign == Some(g.to_line)
            &&& c.open_road || !c.stop_sign ==> r.stop_sign is None
            &&& !c.open_road && c.give_way ==> r.yield_line == Some(g.to_line)
            &&& c.open_road || !c.give_way ==> r.yield_line is None
        }),
{
}

/// The leader seen is minded always; who merges ahead only near the line.
pub proof fn a_record_minds_who_is_ahead(w: &NetWorld, i: int, m: Option<MovementId>, c: Constraints, g: ContextView)
    requires
        g.leader matches Some(o) ==> o.gap.is_finite(),
        g.merge matches Some(o) ==> o.gap.is_finite(),
    ensures
        w.full_record(i, m, c, g).constraints().leader == g.leader,
        !c.open_road ==> w.full_record(i, m, c, g).constraints().merge == g.merge,
        c.open_road ==> w.full_record(i, m, c, g).constraints().merge is None,
{
}

/// Of the bend ahead and the turn's own curve the slower is minded: no slower one is
/// left out, and the turn's own is to be reached at the line or, close to it, a
/// little beyond.
pub proof fn a_record_minds_the_slower_curve(w: &NetWorld, i: int, m: Option<MovementId>, c: Constraints, g: ContextView)
    requires
        g.bend matches Some(t) ==> t.distance.is_finite() && !t.speed.is_nan(),
        g.to_line.is_finite(),
    ensures
        ({
            let curve = w.full_record(i, m, c, g).constraints().curve;
            let turns = m is Some && w.turn_caps@[(m->0).0 as int].is_finite();
            &&& g.bend is Some ==> curve is Some && curve->0.speed.is_at_most(g.bend->0.speed)
            &&& turns ==> curve is Some && curve->0.speed.is_at_most(w.turn_caps@[(m->0).0 as int])
            &&& g.bend is None && !turns ==> curve is None
            &&& curve is Some ==> curve == g.bend || (turns && curve->0.speed
                == w.turn_caps@[(m->0).0 as int] && !curve->0.distance.is_below(g.to_line)
                && !curve->0.distance.is_below(place(TURN_LOOKAHEAD)))
        }),
{
    assert(place(TURN_LOOKAHEAD).is_finite());
}

/// A driver who covers the brake is asked for a speed no higher than the covering one;
/// one before a slower road or turn for no more than that allows; on the open road
/// for nothing.
pub proof fn a_record_slows_down_in_time(w: &NetWorld, i: int, m: Option<MovementId>, c: Constraints, g: ContextView)
    requires
        g.to_line.is_finite(),
        m matches Some(x) ==> !w.turn_caps@[x.0 as int].is_nan()
            && !w.network.lanes@[w.network.movements@[x.0 as int].to_lane.0 as int].speed_limit.is_nan(),
        !w.rows()[i].driver.desired_speed.is_nan(),
        !w.network.lanes@[w.rows()[i].lane.0 as int].speed_limit.is_nan(),
    ensures
        ({
            let t = w.full_record(i, m, c, g).constraints().speed_target;
            let v = w.rows()[i];
            let here = w.network.lanes@[v.lane.0 as int].speed_limit;
            &&& c.open_road ==> t is None
            &&& !c.open_road && c.cover_brake ==> t is Some && t->0.speed.is_at_most(
                place(COVER_SPEED),
            )
            &&& m is Some ==> {
                let beyond =
                    w.network.lanes@[w.network.movements@[(m->0).0 as int].to_lane.0 as int].speed_limit;
                let cap = w.turn_caps@[(m->0).0 as int];
                &&& !c.open_road && beyond.is_below(here) && beyond.is_below(v.driver.desired_speed)
                    ==> t is Some && t->0.speed.is_at_most(beyond)
                &&& !c.open_road && cap.is_below(here) && cap.is_below(v.driver.desired_speed) ==> t
                    is Some && t->0.speed.is_at_most(cap)
                &&& !c.cover_brake && !beyond.is_below(here) && !cap.is_below(here) ==> t is None
            }
            &&& m is None && !c.cover_brake ==> t is None
            &&& t is Some ==> t->0.distance == g.to_line
        }),
{
}

/// The answers come back to their own inputs: who is inside a node keeps what it has,
/// and the others get the solver's answers in their order.
pub proof fn whoever_is_inside_keeps_its_rate(inputs: Seq<AccelInput>, answers: Seq<Quantity>, i: int)
    ensures
        inputs[i] matches AccelInput::Crossing(a) ==> accel_of(inputs, answers, i) == a,
        inputs[i] is Rolling ==> accel_of(inputs, answers, i) == answers[count_where(
            i,
            |k: int| inputs[k] is Rolling,
        )],
{
    assert(is_rolling(inputs) =~= (|k: int| inputs[k] is Rolling));
}

} // verus!
