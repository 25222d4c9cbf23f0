//! What holds a vehicle at its line, and what makes it give way there.

use vstd::prelude::*;

use crate::boxes::DEPARTING_SPEED;
use crate::intent::{COMMIT_SPEED, DECISION_HORIZON, GatherView, LAUNCH_SPEED};
use crate::laws::boxes::crosses_free;
use crate::laws::gates::a_meter_holds_its_ramp;
use crate::laws::priority::{
    is_due_before, is_entry_of, joins, who_is_due_before_and_has_room_goes_first,
    who_is_due_before_goes_first,
};
use crate::laws::terms::{
    end_node, is_rearmost, nobody_is_behind_the_nearest_to_the_entrance, runs_inside, shows,
    the_rearmost_is_nearest_the_entrance,
};
use crate::neighbors::Neighbors;
use crate::network::{MovementId, NodeControl, SignalState, TurnType};
use crate::quantity::{Quantity, ZERO, place};
use crate::rooms::{METER_GREEN_SECS, RAIL_CLOSURE_SECS};
use crate::world::NetWorld;

verus! {

/// The line is within the decision horizon, or the road beyond is slower.
pub open spec fn decides_about_the_line(w: &NetWorld, i: int, m: Option<MovementId>, g: &GatherView) -> bool {
    let lanes = w.network.lanes@;
    !place(DECISION_HORIZON).is_below(g.to_line) || (m is Some
        && lanes[w.network.movements@[(m->0).0 as int].to_lane.0 as int].speed_limit.is_below(
        lanes[w.rows()[i].lane.0 as int].speed_limit,
    ))
}

/// Far from its line, with no slower road beyond, a vehicle is on the open road:
/// nothing at the line binds it. Near it, it is not.
pub proof fn far_from_the_line_nothing_binds(w: &NetWorld, i: int, nb: &Neighbors, m: Option<MovementId>, g: &GatherView)
    ensures
        w.constraints_on(i, nb, m, g).open_road == !decides_about_the_line(w, i, m, g),
        !decides_about_the_line(w, i, m, g) ==> {
            let c = w.constraints_on(i, nb, m, g);
            !c.line && !c.cover_brake && !c.stop_sign && !c.give_way
        },
{
}

/// A vehicle that has served its stop gives way to one that is due before it, on a
/// path that crosses its own, with nobody on the landing.
pub proof fn the_longer_stopped_is_given_way_to(
    w: &NetWorld,
    i: int,
    nb: &Neighbors,
    m: MovementId,
    g: &GatherView,
    j: int,
    theirs: MovementId,
    c: int,
)
    requires
        w.gather_view_fits(i, Some(m), g),
        decides_about_the_line(w, i, Some(m), g),
        !runs_inside(&w.network, w.rows()[i].lane),
        w.network.nodes@[end_node(&w.network, w.rows()[i].lane).0 as int].control
            == NodeControl::Stop,
        w.rows()[i].stopped_at == Some(end_node(&w.network, w.rows()[i].lane)),
        is_due_before(w, i, end_node(&w.network, w.rows()[i].lane), j),
        w.intended(&w.rows()[j]) == Some(theirs),
        0 <= c < w.network.conflicts@.len(),
        joins(w.network.conflicts@[c], m, theirs),
        forall|x: int|
            0 <= x < w.rows().len() ==> (#[trigger] w.rows()[x]).lane
                != w.network.movements@[theirs.0 as int].to_lane,
    ensures
        w.constraints_on(i, nb, Some(m), g).give_way,
{
    let node = end_node(&w.network, w.rows()[i].lane);
    assert(node == w.network.end_of(w.rows()[i].lane));
    who_is_due_before_goes_first(w, i, m, node, g.fifo_rooms@, j, theirs, c);
}

/// Also where somebody is on the landing, but leaves enough room.
pub proof fn the_longer_stopped_with_room_is_given_way_to(
    w: &NetWorld,
    i: int,
    nb: &Neighbors,
    m: MovementId,
    g: &GatherView,
    j: int,
    theirs: MovementId,
    c: int,
)
    requires
        w.gather_view_fits(i, Some(m), g),
        decides_about_the_line(w, i, Some(m), g),
        !runs_inside(&w.network, w.rows()[i].lane),
        w.network.nodes@[end_node(&w.network, w.rows()[i].lane).0 as int].control
            == NodeControl::Stop,
        w.rows()[i].stopped_at == Some(end_node(&w.network, w.rows()[i].lane)),
        is_due_before(w, i, end_node(&w.network, w.rows()[i].lane), j),
        w.intended(&w.rows()[j]) == Some(theirs),
        0 <= c < w.network.conflicts@.len(),
        joins(w.network.conflicts@[c], m, theirs),
        forall|b: int|
            #[trigger] is_entry_of(w, end_node(&w.network, w.rows()[i].lane), j, b)
                ==> !g.fifo_rooms@[b].rear.is_below(g.fifo_rooms@[b].commit_room)
                && !g.fifo_rooms@[b].clear_after.is_below(g.fifo_rooms@[b].margin),
    ensures
        w.constraints_on(i, nb, Some(m), g).give_way,
{
    let node = end_node(&w.network, w.rows()[i].lane);
    assert(node == w.network.end_of(w.rows()[i].lane));
    who_is_due_before_and_has_room_goes_first(w, i, m, node, g.fifo_rooms@, j, theirs, c);
}

/// Where no light decides, a vehicle gives way to whoever has priority, unless its
/// path is free or its stop at an all-way stop is served.
pub proof fn priority_is_given_way_to(w: &NetWorld, i: int, nb: &Neighbors, m: Option<MovementId>, g: &GatherView)
    requires
        decides_about_the_line(w, i, m, g),
        !runs_inside(&w.network, w.rows()[i].lane),
        m matches Some(x) ==> !crosses_free(&w.network, x),
        ({
            let end = end_node(&w.network, w.rows()[i].lane);
            let node = w.network.nodes@[end.0 as int];
            &&& node.control == NodeControl::Uncontrolled || node.control == NodeControl::Yield
                || node.control == NodeControl::Stop
            &&& !(node.control == NodeControl::Stop && node.all_way_stop && w.rows()[i].stopped_at
                == Some(end))
            &&& w.must_yield(i, w.rows()[i].lane, end, g.entry.rivals@)
        }),
    ensures
        w.constraints_on(i, nb, m, g).give_way,
{
}

/// A closed box is given way to, unless the path is free of others.
pub proof fn a_closed_box_is_given_way_to(w: &NetWorld, i: int, nb: &Neighbors, m: MovementId, g: &GatherView)
    requires
        decides_about_the_line(w, i, Some(m), g),
        !crosses_free(&w.network, m),
        w.box_closed(
            m,
            end_node(&w.network, w.rows()[i].lane),
            w.waiter_hold(i, m, end_node(&w.network, w.rows()[i].lane), g.entry.hold),
            g.entry.times@,
        ) || w.inner_taken(&w.rows()[i], m),
    ensures
        w.constraints_on(i, nb, Some(m), g).give_way,
{
}

/// A turn that must give way does so at the line while it is under pressure, unless
/// it may wait inside the box.
pub proof fn a_pressed_turn_gives_way(w: &NetWorld, i: int, nb: &Neighbors, m: MovementId, g: &GatherView)
    requires
        decides_about_the_line(w, i, Some(m), g),
        !runs_inside(&w.network, w.rows()[i].lane),
        w.gives_way(m),
        w.waiter_hold(i, m, end_node(&w.network, w.rows()[i].lane), g.entry.hold) is None,
        w.under_pressure(i, m, end_node(&w.network, w.rows()[i].lane), g.entry.pressure@),
    ensures
        w.constraints_on(i, nb, Some(m), g).give_way,
{
}

/// A vehicle gives way only to a closed box, to priority where no light decides,
/// to pressure on its turn, or to one whose turn comes first at a stop.
pub proof fn giving_way_has_a_reason(w: &NetWorld, i: int, nb: &Neighbors, m: Option<MovementId>, g: &GatherView)
    requires
        w.constraints_on(i, nb, m, g).give_way,
    ensures
        decides_about_the_line(w, i, m, g),
        ({
            let v = w.rows()[i];
            let end = end_node(&w.network, v.lane);
            let node = w.network.nodes@[end.0 as int];
            ||| (m is Some && !crosses_free(&w.network, m->0) && (w.box_closed(
                m->0,
                end,
                w.waiter_hold(i, m->0, end, g.entry.hold),
                g.entry.times@,
            ) || w.inner_taken(&v, m->0)))
            ||| (!runs_inside(&w.network, v.lane) && (node.control == NodeControl::Uncontrolled
                || node.control == NodeControl::Yield || (node.control == NodeControl::Stop && !(
            node.all_way_stop && v.stopped_at == Some(end)))) && (m is None || !crosses_free(
                &w.network,
                m->0,
            )) && w.must_yield(i, v.lane, end, g.entry.rivals@))
            ||| (!runs_inside(&w.network, v.lane) && m is Some && w.gives_way(m->0) && w.waiter_hold(
                i,
                m->0,
                end,
                g.entry.hold,
            ) is None && w.under_pressure(i, m->0, end, g.entry.pressure@))
            ||| (!runs_inside(&w.network, v.lane) && m is Some && node.control == NodeControl::Stop
                && v.stopped_at == Some(end) && w.waits_turn(i, m->0, end, g.fifo_rooms@))
        }),
{
}

/// A red light holds whoever does not miss it and may not turn right on it.
pub proof fn a_red_light_holds(w: &NetWorld, i: int, nb: &Neighbors, m: MovementId, g: &GatherView)
    requires
        decides_about_the_line(w, i, Some(m), g),
        !runs_inside(&w.network, w.rows()[i].lane),
        shows(w, m, SignalState::Red),
        !g.signal.misses_red,
        w.network.movements@[m.0 as int].turn != TurnType::Right
            || w.network.movements@[m.0 as int].interchange,
    ensures
        w.constraints_on(i, nb, Some(m), g).line,
{
}

/// Where the rate is positive a driver misses a light exactly when its draw falls
/// below its chance; otherwise nobody does.
pub proof fn a_light_is_missed_by_chance(w: &NetWorld, draw: Quantity, chance: Quantity)
    ensures
        w.cfg.red_run_prob.is_at_most(place(ZERO)) ==> !w.misses_light(draw, chance),
        place(ZERO).is_below(w.cfg.red_run_prob) ==> (w.misses_light(draw, chance)
            <==> draw.is_below(chance)),
{
}

/// A yellow light holds whoever can stop for it, unless it is fast, near, and one
/// to run it.
pub proof fn a_yellow_light_holds(w: &NetWorld, i: int, nb: &Neighbors, m: MovementId, g: &GatherView)
    requires
        decides_about_the_line(w, i, Some(m), g),
        !runs_inside(&w.network, w.rows()[i].lane),
        shows(w, m, SignalState::Yellow),
        g.signal.stop_dist.is_at_most(g.to_line),
        !place(COMMIT_SPEED).is_below(w.rows()[i].speed) || !g.to_line.is_below(
            g.signal.yellow_reach,
        ) || !g.signal.runs_yellow,
    ensures
        w.constraints_on(i, nb, Some(m), g).line,
{
}

/// A green light holds a slow vehicle for its reaction time.
pub proof fn a_fresh_green_holds_for_the_reaction(w: &NetWorld, i: int, nb: &Neighbors, m: MovementId, g: &GatherView)
    requires
        decides_about_the_line(w, i, Some(m), g),
        !runs_inside(&w.network, w.rows()[i].lane),
        shows(w, m, SignalState::Green),
        w.rows()[i].speed.is_below(place(LAUNCH_SPEED)),
        g.signal.green_elapsed.is_below(w.rows()[i].driver.reaction_time),
    ensures
        w.constraints_on(i, nb, Some(m), g).line,
{
}

/// A vehicle that leaves too little room on the landing holds whoever comes next:
/// one that does not depart, or does so where departing does not count.
pub proof fn a_tight_landing_holds(w: &NetWorld, i: int, nb: &Neighbors, m: MovementId, g: &GatherView, f: int)
    requires
        decides_about_the_line(w, i, Some(m), g),
        !w.network.movements@[m.0 as int].interchange,
        0 <= f < w.rows().len(),
        w.rows()[f].lane == w.network.movements@[m.0 as int].to_lane,
        is_rearmost(w, f),
        g.room.rear.is_below(g.room.commit_room),
        w.rows()[f].speed.is_below(place(DEPARTING_SPEED)) || !({
            let mv = w.network.movements@[m.0 as int];
            w.network.nodes@[mv.node.0 as int].control is Signalized || mv.continuation
        }),
    ensures
        w.constraints_on(i, nb, Some(m), g).line,
{
    assert(w.rows().len() == w.fleet.rows.len());
    the_rearmost_is_nearest_the_entrance(w, f);
}

/// Behind a departing vehicle only the room after it has cleared counts, where the
/// light or the road lets it be followed into the box.
pub proof fn a_departing_tail_holds_by_the_room_after_it(
    w: &NetWorld,
    i: int,
    nb: &Neighbors,
    m: MovementId,
    g: &GatherView,
    f: int,
)
    requires
        decides_about_the_line(w, i, Some(m), g),
        !w.network.movements@[m.0 as int].interchange,
        0 <= f < w.rows().len(),
        w.rows()[f].lane == w.network.movements@[m.0 as int].to_lane,
        is_rearmost(w, f),
        g.room.clear_after.is_below(g.room.margin),
        place(DEPARTING_SPEED).is_at_most(w.rows()[f].speed),
        ({
            let mv = w.network.movements@[m.0 as int];
            w.network.nodes@[mv.node.0 as int].control is Signalized || mv.continuation
        }),
    ensures
        w.constraints_on(i, nb, Some(m), g).line,
{
    assert(w.rows().len() == w.fleet.rows.len());
    the_rearmost_is_nearest_the_entrance(w, f);
}

/// A vehicle near its line, on a green that it has reacted to, with an empty
/// landing, no junction around, no meter and no train, is not held.
pub proof fn a_clear_line_holds_nobody(w: &NetWorld, i: int, nb: &Neighbors, m: MovementId, g: &GatherView)
    requires
        shows(w, m, SignalState::Green),
        !w.rows()[i].speed.is_below(place(LAUNCH_SPEED)) || w.rows()[i].driver.reaction_time.is_at_most(
            g.signal.green_elapsed,
        ),
        forall|x: int|
            0 <= x < w.rows().len() ==> (#[trigger] w.rows()[x]).lane
                != w.network.movements@[m.0 as int].to_lane,
        w.network.nodes@[end_node(&w.network, w.rows()[i].lane).0 as int].junction is None,
        !w.network.nodes@[end_node(&w.network, w.rows()[i].lane).0 as int].rail_crossing,
        !w.metering_on,
    ensures
        !w.constraints_on(i, nb, Some(m), g).line,
{
    nobody_is_behind_the_nearest_to_the_entrance(w, w.network.landing(m));
}

/// A train holds everybody at a railway crossing, with or without a movement.
pub proof fn a_train_holds(w: &NetWorld, i: int, nb: &Neighbors, m: Option<MovementId>, g: &GatherView)
    requires
        decides_about_the_line(w, i, m, g),
        w.network.nodes@[end_node(&w.network, w.rows()[i].lane).0 as int].rail_crossing,
        w.rail_since.is_below(place(RAIL_CLOSURE_SECS)),
    ensures
        w.constraints_on(i, nb, m, g).line,
{
}

/// A meter past its green holds its ramp.
pub proof fn a_metered_ramp_holds(w: &NetWorld, i: int, nb: &Neighbors, m: Option<MovementId>, g: &GatherView, k: int)
    requires
        decides_about_the_line(w, i, m, g),
        0 <= k < w.meters@.len(),
        w.meters@[k].ramp == w.network.lanes@[w.rows()[i].lane.0 as int].link,
        forall|x: int|
            0 <= x < w.meters@.len() && x != k ==> (#[trigger] w.meters@[x]).ramp
                != w.meters@[k].ramp,
        w.metering_on,
        place(METER_GREEN_SECS).is_at_most(w.meters@[k].cycle_t),
    ensures
        w.constraints_on(i, nb, m, g).line,
{
    a_meter_holds_its_ramp(w, w.network.link_of(w.rows()[i].lane), k);
}

/// Whoever would be stranded inside the junction is held.
pub proof fn a_blocked_far_side_holds(w: &NetWorld, i: int, nb: &Neighbors, m: MovementId, g: &GatherView)
    requires
        decides_about_the_line(w, i, Some(m), g),
        w.strands(&w.rows()[i], m, end_node(&w.network, w.rows()[i].lane), g.entry.exit@),
    ensures
        w.constraints_on(i, nb, Some(m), g).line,
{
}

/// A vehicle is held only by its light, by the room beyond, by a meter or by a
/// train.
pub proof fn a_hold_at_the_line_has_a_reason(w: &NetWorld, i: int, nb: &Neighbors, m: Option<MovementId>, g: &GatherView)
    requires
        w.constraints_on(i, nb, m, g).line,
    ensures
        decides_about_the_line(w, i, m, g),
        ({
            let v = w.rows()[i];
            let end = end_node(&w.network, v.lane);
            ||| m is Some && !runs_inside(&w.network, v.lane) && shows(w, m->0, SignalState::Red)
                && !g.signal.misses_red
            ||| m is Some && !runs_inside(&w.network, v.lane) && shows(w, m->0, SignalState::Yellow)
                && g.signal.stop_dist.is_at_most(g.to_line)
            ||| m is Some && !runs_inside(&w.network, v.lane) && shows(w, m->0, SignalState::Green)
                && v.speed.is_below(place(LAUNCH_SPEED)) && g.signal.green_elapsed.is_below(
                v.driver.reaction_time,
            )
            ||| m is Some && !w.network.movements@[(m->0).0 as int].interchange && (exists|x: int|
                0 <= x < w.rows().len() && (#[trigger] w.rows()[x]).lane
                    == w.network.movements@[(m->0).0 as int].to_lane)
            ||| m is Some && w.strands(&v, m->0, end, g.entry.exit@)
            ||| w.metering_on && w.meter_holds(w.network.lanes@[v.lane.0 as int].link)
            ||| w.network.nodes@[end.0 as int].rail_crossing && w.rail_since.is_below(
                place(RAIL_CLOSURE_SECS),
            )
        }),
{
    if m is Some {
        let to = w.network.landing(m->0);
        nobody_is_behind_the_nearest_to_the_entrance(w, to);
        if w.landing_tight(m->0, g.room) {
            let f = w.nearest_entrance(to)->0 as int;
            assert(w.rows()[f].lane == w.network.movements@[(m->0).0 as int].to_lane);
        }
    }
}

/// An approach that faces a stop line owes a stop until it has served it there.
pub proof fn a_stop_line_is_owed_until_served(w: &NetWorld, i: int, nb: &Neighbors, m: Option<MovementId>, g: &GatherView)
    requires
        decides_about_the_line(w, i, m, g),
        !runs_inside(&w.network, w.rows()[i].lane),
        w.network.nodes@[end_node(&w.network, w.rows()[i].lane).0 as int].control
            == NodeControl::Stop,
        w.network.links@[w.network.lanes@[w.rows()[i].lane.0 as int].link.0 as int].stop_line,
    ensures
        w.constraints_on(i, nb, m, g).stop_sign <==> w.rows()[i].stopped_at != Some(
            end_node(&w.network, w.rows()[i].lane),
        ),
{
}

/// A right turn at grade on red owes a stop until it has served it there.
pub proof fn a_right_on_red_owes_a_stop_until_served(w: &NetWorld, i: int, nb: &Neighbors, m: MovementId, g: &GatherView)
    requires
        decides_about_the_line(w, i, Some(m), g),
        !runs_inside(&w.network, w.rows()[i].lane),
        shows(w, m, SignalState::Red),
        w.network.movements@[m.0 as int].turn == TurnType::Right,
        !w.network.movements@[m.0 as int].interchange,
    ensures
        w.constraints_on(i, nb, Some(m), g).stop_sign <==> w.rows()[i].stopped_at != Some(
            end_node(&w.network, w.rows()[i].lane),
        ),
{
}

/// A stop is owed only before it is served, outside junctions, at a stop line or
/// for a right turn on red.
pub proof fn a_stop_is_owed_for_a_reason(w: &NetWorld, i: int, nb: &Neighbors, m: Option<MovementId>, g: &GatherView)
    requires
        w.constraints_on(i, nb, m, g).stop_sign,
    ensures
        !runs_inside(&w.network, w.rows()[i].lane),
        w.rows()[i].stopped_at != Some(end_node(&w.network, w.rows()[i].lane)),
        (w.network.nodes@[end_node(&w.network, w.rows()[i].lane).0 as int].control
            == NodeControl::Stop
            && w.network.links@[w.network.lanes@[w.rows()[i].lane.0 as int].link.0 as int].stop_line)
            || (m is Some && shows(w, m->0, SignalState::Red)
            && w.network.movements@[(m->0).0 as int].turn == TurnType::Right),
{
}

/// The brake is covered where no light decides and somebody inside the wider gap
/// has priority, unless the path is free.
pub proof fn the_brake_is_covered_for_priority(w: &NetWorld, i: int, nb: &Neighbors, m: Option<MovementId>, g: &GatherView)
    requires
        decides_about_the_line(w, i, m, g),
        !runs_inside(&w.network, w.rows()[i].lane),
        m matches Some(x) ==> !crosses_free(&w.network, x),
        ({
            let end = end_node(&w.network, w.rows()[i].lane);
            let node = w.network.nodes@[end.0 as int];
            &&& node.control == NodeControl::Uncontrolled || node.control == NodeControl::Yield
                || node.control == NodeControl::Stop
            &&& w.must_yield(i, w.rows()[i].lane, end, g.wide_rivals@)
        }),
    ensures
        w.constraints_on(i, nb, m, g).cover_brake,
{
}

/// The brake is covered where a movement off the lane, at grade and gated, has its
/// box taken.
pub proof fn the_brake_is_covered_for_a_taken_box(
    w: &NetWorld,
    i: int,
    nb: &Neighbors,
    m: Option<MovementId>,
    g: &GatherView,
    x: MovementId,
)
    requires
        decides_about_the_line(w, i, m, g),
        !runs_inside(&w.network, w.rows()[i].lane),
        w.network.leaves(x, w.rows()[i].lane),
        !w.network.movements@[x.0 as int].interchange,
        !w.is_free_seam(x),
        w.box_taken(x, end_node(&w.network, w.rows()[i].lane)),
    ensures
        w.constraints_on(i, nb, m, g).cover_brake,
{
    reveal(NetWorld::gate_taken);
    assert(w.gate_taken(x, w.network.end_of(w.rows()[i].lane)));
}

/// The brake is covered for nothing else, and never inside a junction.
pub proof fn the_brake_is_covered_for_a_reason(w: &NetWorld, i: int, nb: &Neighbors, m: Option<MovementId>, g: &GatherView)
    requires
        w.constraints_on(i, nb, m, g).cover_brake,
    ensures
        !runs_inside(&w.network, w.rows()[i].lane),
        ({
            let end = end_node(&w.network, w.rows()[i].lane);
            let control = w.network.nodes@[end.0 as int].control;
            (w.must_yield(i, w.rows()[i].lane, end, g.wide_rivals@) && (control
                == NodeControl::Uncontrolled || control == NodeControl::Yield || control
                == NodeControl::Stop) && (m is None || !crosses_free(&w.network, m->0))) || exists|x: MovementId|
                #![trigger w.box_taken(x, end)]
                w.network.leaves(x, w.rows()[i].lane) && !w.network.movements@[x.0 as int].interchange
                    && !w.is_free_seam(x) && w.box_taken(x, end)
        }),
{
    reveal(NetWorld::gate_taken);
    let end = end_node(&w.network, w.rows()[i].lane);
    if w.lane_box_taken(w.rows()[i].lane, end) {
        let x = choose|x: MovementId|
            w.network.leaves(x, w.rows()[i].lane) && #[trigger] w.gate_taken(x, end);
        assert(w.box_taken(x, end));
    }
}

} // verus!
