//! How a vehicle drives inside a node: behind whom, and what makes it hold.

use vstd::prelude::*;
use crate::groups::GroupMap;
use crate::leading::PointAhead;
use crate::neighbors::Neighbors;
use crate::network::{MovementId, TurnType};
use crate::quantity::Quantity;
use crate::world::NetWorld;
use crate::yielding::PointPressure;

verus! {

/// What is measured of a crossing vehicle: the acceleration that each thing it
/// minds would leave it, and where it is.
#[derive(Debug)]
pub struct CrossView {
    /// Behind its leader, or free of one.
    pub follow: Quantity,
    /// Holding at the end of the path inside the node.
    pub hop_hold: Quantity,
    /// How far it has come inside the node.
    pub arc: Quantity,
    /// Up to here it can still stop at the waiting place.
    pub brink: Quantity,
    /// The conflict points that it would wait for there.
    pub pressure: Vec<PointPressure>,
    /// Holding at the waiting place.
    pub wait_hold: Quantity,
    /// The conflict points of the node.
    pub ahead: Vec<PointAhead>,
    /// Holding short of each of them.
    pub point_holds: Vec<Quantity>,
}

impl NetWorld {
    /// Whom a vehicle follows while it crosses: along a corridor its leader there,
    /// else the one ahead on its path or at the entrance that it comes to.
    pub open spec fn followed_inside(
        &self,
        i: int,
        nb: &Neighbors,
        arcs: Seq<Quantity>,
        gaps: Seq<Quantity>,
        front_gap: Quantity,
    ) -> Option<usize> {
        if self.stays_in_corridor((self.rows()[i].crossing->0).movement) {
            nb.leader_of@[i]
        } else {
            self.path_leader(i, arcs, gaps, front_gap)
        }
    }

    /// Whom a vehicle follows while it crosses. The measured columns are those
    /// that [`NetWorld::crossing_leader`] takes.
    pub fn leader_inside(
        &self,
        i: usize,
        nb: &Neighbors,
        on: &GroupMap<usize>,
        arcs: &Vec<Quantity>,
        gaps: &Vec<Quantity>,
        front_gap: Quantity,
    ) -> (r: Option<usize>)
        requires
            self.gated(nb),
            self.led(nb),
            self.crossing_groups(on),
            i < self.rows().len(),
            self.rows()[i as int].crossing is Some,
            arcs@.len() == self.rows().len(),
            gaps@.len() == self.rows().len(),
        ensures
            r == self.followed_inside(i as int, nb, arcs@, gaps@, front_gap),
            r matches Some(j) ==> j < self.rows().len(),
    {
        assert(self.rows()[i as int].placed(&self.network));
        if self.is_intra_corridor(self.fleet.rows[i].crossing.unwrap().movement) {
            nb.leader_of[i]
        } else {
            self.crossing_leader(i, nb, on, arcs, gaps, front_gap)
        }
    }

    /// A left turner under a signal waits inside the box, before its first live
    /// conflict point.
    pub open spec fn waits_inside(&self, i: int, g: &CrossView) -> bool {
        let m = (self.rows()[i].crossing->0).movement;
        let node = self.network.movement_at(m).node;
        &&& self.network.movement_at(m).turn == TurnType::Left
        &&& self.network.movement_at(m).signal_group is Some
        &&& self.first_live_arc(m, node) is Some
        &&& g.arc.is_below(g.brink)
        &&& self.under_pressure(i, m, node, g.pressure@)
    }

    /// The least of an acceleration and those of the first `n` points at which
    /// the vehicle holds short.
    pub open spec fn held_short(&self, i: int, g: &CrossView, start: Quantity, n: int) -> Quantity
        decreases n,
    {
        if n <= 0 {
            start
        } else {
            let before = self.held_short(i, g, start, n - 1);
            if self.holds_short(i, n - 1, g.ahead@[n - 1]) {
                before.lesser(g.point_holds@[n - 1])
            } else {
                before
            }
        }
    }

    /// The acceleration of a crossing vehicle: the least of all that it minds.
    pub open spec fn crossing_rate(&self, i: int, g: &CrossView) -> Quantity {
        let led = g.follow;
        let hop = if self.next_hop_taken(&self.rows()[i]) {
            led.lesser(g.hop_hold)
        } else {
            led
        };
        let waited = if self.waits_inside(i, g) {
            hop.lesser(g.wait_hold)
        } else {
            hop
        };
        self.held_short(i, g, waited, g.ahead@.len() as int)
    }

    /// A measured view fits the vehicle and its node.
    pub open spec fn cross_view_fits(&self, i: int, g: &CrossView) -> bool {
        let m = (self.rows()[i].crossing->0).movement;
        &&& self.ahead_fits(i, g.ahead@)
        &&& g.point_holds@.len() == g.ahead@.len()
        &&& self.pressure_fits(self.network.movement_at(m).node, g.pressure@)
    }

    fn is_waiting_inside(&self, i: usize, nb: &Neighbors, m: MovementId, g: &CrossView) -> (r: bool)
        requires
            self.gated(nb),
            i < self.rows().len(),
            self.rows()[i as int].crossing is Some,
            m == (self.rows()[i as int].crossing->0).movement,
            self.cross_view_fits(i as int, g),
        ensures
            r == self.waits_inside(i as int, g),
    {
        assert(self.rows()[i as int].placed(&self.network));
        assert(self.network.movement_ok(m.0 as int));
        let mv = self.network.movement(m);
        mv.turn == TurnType::Left && mv.signal_group.is_some() && self.first_live_conflict_arc(
            m,
            mv.node,
        ).is_some() && g.arc.below(g.brink) && self.permissive_pressure(
            i,
            m,
            mv.node,
            nb,
            &g.pressure,
        )
    }

    /// The acceleration of a crossing vehicle.
    pub fn crossing_accel(&self, i: usize, nb: &Neighbors, on: &GroupMap<usize>, g: &CrossView) -> (r:
        Quantity)
        requires
            self.gated(nb),
            self.crossing_groups(on),
            i < self.rows().len(),
            self.rows()[i as int].crossing is Some,
            self.cross_view_fits(i as int, g),
        ensures
            r == self.crossing_rate(i as int, g),
    {
        let v = &self.fleet.rows[i];
        assert(self.rows()[i as int].placed(&self.network));
        let mut accel = g.follow;
        if self.next_hop_conflict(v, nb) {
            accel = accel.least(g.hop_hold);
        }
        if self.is_waiting_inside(i, nb, v.crossing.unwrap().movement, g) {
            accel = accel.least(g.wait_hold);
        }
        let ghost start = accel;
        let holds = self.points_to_hold(i, on, &g.ahead);
        let mut k: usize = 0;
        while k < holds.len()
            invariant
                holds@.len() == g.ahead@.len(),
                g.point_holds@.len() == g.ahead@.len(),
                forall|j: int|
                    0 <= j < holds@.len() ==> #[trigger] holds@[j] == self.holds_short(
                        i as int,
                        j,
                        g.ahead@[j],
                    ),
                k <= holds@.len(),
                accel == self.held_short(i as int, g, start, k as int),
            decreases holds@.len() - k,
        {
            if holds[k] {
                accel = accel.least(g.point_holds[k]);
            }
            k += 1;
        }
        accel
    }
}

/// Minding more never speeds a crossing vehicle up: its acceleration is at most
/// the one behind its leader, where all are numbers.
pub proof fn minding_more_never_speeds_up(w: &NetWorld, i: int, g: &CrossView)
    requires
        !g.follow.is_nan(),
    ensures
        w.crossing_rate(i, g).is_at_most(g.follow),
{
    let hop = if w.next_hop_taken(&w.rows()[i]) {
        g.follow.lesser(g.hop_hold)
    } else {
        g.follow
    };
    let waited = if w.waits_inside(i, g) {
        hop.lesser(g.wait_hold)
    } else {
        hop
    };
    assert(waited.is_at_most(g.follow));
    lemma_held_short(w, i, g, waited, g.ahead@.len() as int);
}

proof fn lemma_held_short(w: &NetWorld, i: int, g: &CrossView, start: Quantity, n: int)
    requires
        !start.is_nan(),
    ensures
        w.held_short(i, g, start, n).is_at_most(start),
    decreases n,
{
    if n > 0 {
        lemma_held_short(w, i, g, start, n - 1);
    }
}

/// A vehicle that holds short of a point brakes at least as its hold there asks.
pub proof fn a_hold_is_obeyed(w: &NetWorld, i: int, g: &CrossView, k: int)
    requires
        !g.follow.is_nan(),
        0 <= k < g.ahead@.len(),
        w.holds_short(i, k, g.ahead@[k]),
        !g.point_holds@[k].is_nan(),
    ensures
        w.crossing_rate(i, g).is_at_most(g.point_holds@[k]),
{
    minding_more_never_speeds_up(w, i, g);
    let hop = if w.next_hop_taken(&w.rows()[i]) {
        g.follow.lesser(g.hop_hold)
    } else {
        g.follow
    };
    let waited = if w.waits_inside(i, g) {
        hop.lesser(g.wait_hold)
    } else {
        hop
    };
    lemma_hold_binds(w, i, g, waited, k, g.ahead@.len() as int);
}

proof fn lemma_hold_binds(w: &NetWorld, i: int, g: &CrossView, start: Quantity, k: int, n: int)
    requires
        !start.is_nan(),
        0 <= k < n,
        w.holds_short(i, k, g.ahead@[k]),
        !g.point_holds@[k].is_nan(),
    ensures
        w.held_short(i, g, start, n).is_at_most(g.point_holds@[k]),
    decreases n,
{
    lemma_held_short(w, i, g, start, n - 1);
    if k < n - 1 {
        lemma_hold_binds(w, i, g, start, k, n - 1);
    }
}

} // verus!
