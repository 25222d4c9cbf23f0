//! The moving half of a tick, from the decisions to the fleet that comes out of
//! it: everyone moves within their lane, those with a turn to take take it in row
//! order, collisions are found, and the fleet is put together again.

use vstd::prelude::*;
use crate::boundary::MotionView;
use crate::crashes::{Hit, Pair};
use crate::fleet::{Fate, Fleet, NetVehicle};
use crate::groups::GroupMap;
use crate::neighbors::Neighbors;
use crate::network::{LaneId, MovementId};
use crate::occupancy::ShardMaps;
use crate::quantity::Quantity;
use crate::resolution::{Entrants, TurnView, Turns};
use crate::search::{count_where, lemma_count_bounds};
use crate::step::{Site, TickEnd};
use crate::world::NetWorld;

verus! {

/// What is measured of every vehicle before anyone moves, and of the clock.
#[derive(Debug)]
pub struct TickView {
    /// Where its rear is on its lane.
    pub rears: Vec<Quantity>,
    /// What is promised on the lane where it will land, counting the vehicles up
    /// to it.
    pub promises: Vec<Quantity>,
    pub motion: Vec<MotionView>,
    /// How many ticks a wreck stays on the road.
    pub wreck_ticks: u16,
    /// The time at the end of the tick.
    pub time: Quantity,
}

/// What is measured of vehicles that may have collided.
pub struct CrashView {
    /// Per vehicle: the gap to the leader it had.
    pub gaps: Vec<Quantity>,
    /// Per vehicle: how fast it closes on that leader, as a single-precision bit
    /// pattern.
    pub closings: Vec<u32>,
    /// Per pair inside a node: how fast it closes, where the bodies met.
    pub impacts: Vec<Option<u32>>,
    /// Per vehicle: where it is.
    pub sites: Vec<Site>,
}

/// A tick as it went: the world without its vehicles, the occupancy at the
/// start, the vehicles after moving within their lanes, their turns, and how
/// they came out of them.
pub struct Tick {
    pub road: NetWorld,
    pub occ: ShardMaps,
    pub moved: Seq<NetVehicle>,
    pub who: Entrants,
    pub turns: Turns,
    pub taken: Fleet,
    pub fates: Vec<Fate>,
    pub pairs: Vec<Pair>,
    pub crash: CrashView,
    pub hits: Seq<Option<Hit>>,
}

/// What was measured for each turn is what the measuring function gives for it.
pub open spec fn turns_measured<F: Fn(&NetWorld, usize, &NetVehicle, &ShardMaps) -> TurnView>(
    measure: &F,
    t: Tick,
) -> bool {
    forall|i: int|
        0 <= i < t.moved.len() ==> call_ensures(
            *measure,
            (&t.road, i as usize, &t.moved[i], &t.turns.occ[i]),
            #[trigger] t.turns.views[i],
        )
}

/// What was measured of those that may have collided is what the measuring
/// function gives for them.
pub open spec fn crash_measured<
    G: Fn(&NetWorld, &Vec<NetVehicle>, &Vec<Fate>, &Vec<Pair>) -> CrashView,
>(collide: &G, t: Tick) -> bool {
    call_ensures(*collide, (&t.road, &t.taken.rows, &t.fates, &t.pairs), t.crash)
}

impl NetWorld {
    /// The promises of the first `n` rows.
    pub open spec fn promised_by(&self, totals: Seq<Quantity>, n: int) -> Map<u32, Quantity>
        decreases n,
    {
        if n <= 0 {
            Map::empty()
        } else {
            let before = self.promised_by(totals, n - 1);
            let v = &self.rows()[n - 1];
            if self.holds_promise(v) {
                before.insert(
                    self.network.landing((v.crossing->0).movement).0,
                    totals[n - 1],
                )
            } else {
                before
            }
        }
    }

    /// What is measured and decided fits the rows.
    pub open spec fn tick_view_fits(
        &self,
        carried: Seq<Option<MovementId>>,
        blocked: Seq<bool>,
        view: &TickView,
    ) -> bool {
        let n = self.rows().len();
        &&& carried.len() == n
        &&& blocked.len() == n
        &&& view.rears@.len() == n
        &&& view.promises@.len() == n
        &&& view.motion@.len() == n
        &&& forall|i: int|
            0 <= i < n ==> ((#[trigger] carried[i]) matches Some(m) ==> self.network.has_movement(m))
    }

    /// The counters can take a tick of this fleet.
    pub open spec fn can_tick(&self) -> bool {
        &&& 2 * self.rows().len() < u32::MAX
        &&& self.can_count(self.rows().len())
        &&& forall|i: int|
            0 <= i < self.rows().len() ==> (#[trigger] self.rows()[i]).wait_ticks < u32::MAX
    }

    /// How the tick began: the vehicles are off the road, the occupancy is what
    /// they held of it, and each has moved within its lane.
    pub open spec fn tick_begins(
        &self,
        carried: Seq<Option<MovementId>>,
        blocked: Seq<bool>,
        view: &TickView,
        t: Tick,
    ) -> bool {
        let n = self.rows().len() as int;
        &&& t.road == (NetWorld { fleet: t.road.fleet, ..*self })
        &&& t.road.rows().len() == 0
        &&& self.seeded(&t.occ, view.rears@)
        &&& t.occ.inbound@ == self.promised_by(view.promises@, n)
        &&& t.moved.len() == n
        &&& t.who.carried@ == carried
        &&& t.who.blocked@ == blocked
        &&& t.who.deferred@.len() == n
        &&& forall|i: int|
            0 <= i < n ==> #[trigger] t.moved[i] == t.road.advanced(
                &self.rows()[i],
                carried[i],
                view.motion@[i],
            )
        &&& forall|i: int|
            0 <= i < n ==> #[trigger] t.who.deferred@[i] == t.road.is_deferred(
                &self.rows()[i],
                view.motion@[i],
            )
    }

    /// How the tick went on: the turns were taken in order, and the collisions
    /// are those of the vehicles as they then were.
    pub open spec fn tick_goes(&self, nb: &Neighbors, t: Tick) -> bool {
        let n = self.rows().len() as int;
        &&& t.road.turns_taken(t.moved, t.taken.rows@, &t.who, t.turns, t.fates@, n)
        &&& t.turns.occ[0] == t.occ
        &&& forall|key: u32| (#[trigger] t.turns.entered[0].group(key)).len() == 0
        &&& t.taken.rows@.len() == n
        &&& t.taken.hist == self.fleet.hist
        &&& t.taken.hist_len == self.fleet.hist_len
        &&& t.fates@.len() == n
        &&& t.road.all_pairs(t.taken.rows@, t.fates@, t.pairs@)
        &&& t.hits.len() == n
        &&& forall|x: int|
            0 <= x < n ==> #[trigger] t.hits[x] == t.road.hit_of(
                t.taken.rows@,
                t.fates@,
                nb,
                t.crash.gaps@,
                t.crash.closings@,
                t.pairs@,
                t.crash.impacts@,
                x,
            )
    }

    /// The world after a tick that went like this.
    pub open spec fn tick_ends(&self, after: &NetWorld, view: &TickView, t: Tick) -> bool {
        t.road.ends_as(
            after,
            &t.taken,
            t.fates@,
            t.hits,
            t.crash.sites@,
            view.wreck_ticks,
            view.time,
        )
    }

    fn enter_promises(&self, totals: &Vec<Quantity>, occ: &mut ShardMaps)
        requires
            self.wf(),
            totals@.len() == self.rows().len(),
            old(occ).inbound@ == Map::<u32, Quantity>::empty(),
        ensures
            final(occ).front@ == old(occ).front@,
            final(occ).interior_occ@ == old(occ).interior_occ@,
            final(occ).inbound@ == self.promised_by(totals@, self.rows().len() as int),
    {
        let mut i: usize = 0;
        while i < self.fleet.rows.len()
            invariant
                self.wf(),
                totals@.len() == self.rows().len(),
                i <= self.rows().len(),
                occ.front@ == old(occ).front@,
                occ.interior_occ@ == old(occ).interior_occ@,
                occ.inbound@ == self.promised_by(totals@, i as int),
            decreases self.rows().len() - i,
        {
            assert(self.rows()[i as int].placed(&self.network));
            self.promise(&self.fleet.rows[i], totals[i], occ);
            i += 1;
        }
    }

    /// Move everyone through a tick. What is measured of a vehicle when its turn
    /// comes, and of those that may have collided, is asked for when it is needed.
    pub fn move_all<
        F: Fn(&NetWorld, usize, &NetVehicle, &ShardMaps) -> TurnView,
        G: Fn(&NetWorld, &Vec<NetVehicle>, &Vec<Fate>, &Vec<Pair>) -> CrashView,
    >(
        &mut self,
        nb: &Neighbors,
        carried: Vec<Option<MovementId>>,
        blocked: Vec<bool>,
        view: &TickView,
        measure: F,
        collide: G,
    )
        requires
            old(self).wf(),
            old(self).led(nb),
            old(self).tick_view_fits(carried@, blocked@, view),
            old(self).can_tick(),
            forall|w: &NetWorld, i: usize, v: &NetVehicle, o: &ShardMaps|
                w.wf() && i < old(self).rows().len() ==> #[trigger] call_requires(
                    measure,
                    (w, i, v, o),
                ),
            forall|w: &NetWorld, i: usize, v: &NetVehicle, o: &ShardMaps, g: TurnView| #[trigger]
                call_ensures(measure, (w, i, v, o), g) ==> (g.boundary.landing.blend_from matches Some(
                    l,
                ) ==> w.network.has_lane(l)),
            forall|w: &NetWorld, rows: &Vec<NetVehicle>, fates: &Vec<Fate>, pairs: &Vec<Pair>|
                w.wf() && rows@.len() == old(self).rows().len() ==> #[trigger] call_requires(
                    collide,
                    (w, rows, fates, pairs),
                ),
            forall|
                w: &NetWorld,
                rows: &Vec<NetVehicle>,
                fates: &Vec<Fate>,
                pairs: &Vec<Pair>,
                c: CrashView,
            | #[trigger]
                call_ensures(collide, (w, rows, fates, pairs), c) ==> c.gaps@.len() == rows@.len()
                    && c.closings@.len() == rows@.len() && c.sites@.len() == rows@.len()
                    && c.impacts@.len() == pairs@.len(),
        ensures
            final(self).wf(),
            exists|t: Tick|
                old(self).tick_begins(carried@, blocked@, view, t) && old(self).tick_goes(nb, t)
                    && #[trigger] old(self).tick_ends(final(self), view, t) && turns_measured(
                    &measure,
                    t,
                ) && crash_measured(&collide, t),
    {
        let n = self.fleet.rows.len();
        let mut occ = self.seed_occupancy(&view.rears);
        let ghost seed = occ;
        self.enter_promises(&view.promises, &mut occ);
        let ghost occ0 = occ;
        proof {
            assert forall|l: u32| #[trigger] occ.tail(LaneId(l)) == self.tail_among(n as int, l, view.rears@) by {
                assert(occ.tail(LaneId(l)) == seed.tail(LaneId(l)));
            }
            assert forall|l: u32| #[trigger] occ.taken(LaneId(l)) == count_where(
                n as int,
                self.takes_slot(l),
            ) by {
                assert(occ.taken(LaneId(l)) == seed.taken(LaneId(l)));
            }
            assert(self.seeded(&occ, view.rears@));
            assert forall|l: u32| #[trigger] occ.interior_occ@.contains_key(l) implies occ.interior_occ@[l]
                + n < u32::MAX by {
                assert(occ.taken(LaneId(l)) == count_where(
                    n as int,
                    self.takes_slot(l),
                ));
                lemma_count_bounds(n as int, self.takes_slot(l));
            }
        }
        let mut taken = self.take_fleet();
        let ghost road = *self;
        let mut rows: Vec<NetVehicle> = Vec::new();
        std::mem::swap(&mut rows, &mut taken.rows);
        assert forall|i: int| 0 <= i < rows@.len() implies (#[trigger] rows@[i]).placed(
            &self.network,
        ) by {
            assert(old(self).rows()[i].placed(&old(self).network));
        }
        let (rows, deferred) = self.advance_all(rows, &carried, &view.motion);
        let ghost moved = rows@;
        let who = Entrants { deferred, blocked, carried };
        let mut entered: GroupMap<MovementId> = GroupMap::new();
        let ghost entered0 = entered;
        let (rows, fates) = self.resolve_all(rows, &who, &mut occ, &mut entered, measure);
        let ghost turns = choose|t: Turns| #[trigger]
            self.turns_taken(moved, rows@, &who, t, fates@, n as int) && t.occ[0] == occ0
                && t.entered[0] == entered0 && forall|i: int|
                0 <= i < n ==> call_ensures(
                    measure,
                    (&road, i as usize, &moved[i], &t.occ[i]),
                    #[trigger] t.views[i],
                );
        taken.rows = rows;
        let pairs = self.junction_pairs(&taken.rows, &fates);
        let crash = collide(self, &taken.rows, &fates, &pairs);
        let hits = self.detect_crashes(
            &taken.rows,
            &fates,
            nb,
            &crash.gaps,
            &crash.closings,
            &pairs,
            &crash.impacts,
        );
        proof {
            assert forall|i: int| 0 <= i < taken.rows@.len() implies (
            #[trigger] taken.rows@[i]).wait_ticks < u32::MAX by {
                assert(moved[i] == road.advanced(
                    &old(self).rows()[i],
                    who.carried@[i],
                    view.motion@[i],
                ));
                assert(old(self).rows()[i].wait_ticks < u32::MAX);
            }
        }
        let ghost t = Tick {
            road,
            occ: occ0,
            moved,
            who,
            turns,
            taken,
            fates,
            pairs,
            crash,
            hits: hits@,
        };
        proof {
            assert(old(self).tick_begins(who.carried@, who.blocked@, view, t));
            assert(old(self).tick_goes(nb, t));
        }
        self.assemble(taken, &fates, &hits, &crash.sites, view.wreck_ticks, view.time);
        assert(old(self).tick_ends(self, view, t));
    }
}

/// A tick loses nobody: whoever was on the road before it is there after it, or
/// has left the network, leaked, or been cleared as a wreck; and the first three
/// are what the counters say.
pub proof fn a_tick_loses_nobody(
    before: &NetWorld,
    after: &NetWorld,
    nb: &Neighbors,
    view: &TickView,
    t: Tick,
)
    requires
        before.tick_goes(nb, t),
        before.tick_ends(after, view, t),
        t.road == (NetWorld { fleet: t.road.fleet, ..*before }),
    ensures
        before.rows().len() == after.rows().len() + (after.exited - before.exited) + (after.leaked
            - before.leaked) + count_where(
            before.rows().len() as int,
            (TickEnd {
                rows: t.taken.rows@,
                fates: t.fates@,
                hits: t.hits,
                wreck_ticks: view.wreck_ticks,
            }).is_cleared(),
        ),
{
    let end = TickEnd {
        rows: t.taken.rows@,
        fates: t.fates@,
        hits: t.hits,
        wreck_ticks: view.wreck_ticks,
    };
    crate::step::vehicles_are_conserved(end, before.rows().len() as int);
}

} // verus!
