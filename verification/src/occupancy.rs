//! Who holds what space while the boundaries of one tick are resolved: the tail
//! of every lane, the slots taken inside junctions, and the entrance space
//! promised to vehicles in flight.

use vstd::prelude::*;
use std::collections::HashMap;
use crate::fleet::NetVehicle;
use crate::network::LaneId;
use crate::paths::is_internal;
use crate::quantity::{place, Quantity, ZERO};
use crate::search::{count_where, least_index, lemma_count_bounds, lemma_least, lemma_least_step};
use crate::world::NetWorld;

verus! {

broadcast use vstd::std_specs::hash::group_hash_axioms;

/// The largest finite number.
pub const MAX_FINITE: i64 = 0x7FEF_FFFF_FFFF_FFFF;

/// The rearmost point of a lane's occupants, and the speed of that occupant.
#[derive(Clone, Copy, Debug, PartialEq, Eq, Structural)]
pub struct Tail {
    pub rear: Quantity,
    pub speed: Quantity,
}

/// The occupancy that the shard of a lane's entrance owns.
pub struct ShardMaps {
    /// Per lane: its tail.
    pub front: HashMap<u32, Tail>,
    /// Per inner lane: the vehicles on it and in flight to it.
    pub interior_occ: HashMap<u32, u32>,
    /// Per lane: the space promised to vehicles in flight.
    pub inbound: HashMap<u32, Quantity>,
}

impl ShardMaps {
    pub fn new() -> (r: ShardMaps)
        ensures
            r.front@ == Map::<u32, Tail>::empty(),
            r.interior_occ@ == Map::<u32, u32>::empty(),
            r.inbound@ == Map::<u32, Quantity>::empty(),
    {
        ShardMaps { front: HashMap::new(), interior_occ: HashMap::new(), inbound: HashMap::new() }
    }

    /// Forget everything.
    pub fn clear(&mut self)
        ensures
            final(self).front@ == Map::<u32, Tail>::empty(),
            final(self).interior_occ@ == Map::<u32, u32>::empty(),
            final(self).inbound@ == Map::<u32, Quantity>::empty(),
    {
        self.front.clear();
        self.interior_occ.clear();
        self.inbound.clear();
    }

    /// The space promised on a lane.
    pub open spec fn promised(&self, lane: LaneId) -> Quantity {
        if self.inbound@.contains_key(lane.0) {
            self.inbound@[lane.0]
        } else {
            place(ZERO)
        }
    }

    /// The slots taken on an inner lane.
    pub open spec fn taken(&self, lane: LaneId) -> u32 {
        if self.interior_occ@.contains_key(lane.0) {
            self.interior_occ@[lane.0]
        } else {
            0
        }
    }

    /// The tail of a lane.
    pub open spec fn tail(&self, lane: LaneId) -> Option<Tail> {
        if self.front@.contains_key(lane.0) {
            Some(self.front@[lane.0])
        } else {
            None
        }
    }

    /// The space promised on a lane.
    pub fn reserved_on(&self, lane: LaneId) -> (r: Quantity)
        ensures
            r == self.promised(lane),
    {
        match self.inbound.get(&lane.0) {
            Some(q) => *q,
            None => Quantity::at(ZERO),
        }
    }

    /// The slots taken on an inner lane.
    pub fn slots_taken(&self, lane: LaneId) -> (r: u32)
        ensures
            r == self.taken(lane),
    {
        match self.interior_occ.get(&lane.0) {
            Some(n) => *n,
            None => 0,
        }
    }

    /// The tail of a lane.
    pub fn tail_of(&self, lane: LaneId) -> (r: Option<Tail>)
        ensures
            r == self.tail(lane),
    {
        match self.front.get(&lane.0) {
            Some(t) => Some(*t),
            None => None,
        }
    }
}

impl NetWorld {
    /// Of a row: its rear, where it still hangs over the lane.
    pub open spec fn rear_on(&self, lane: u32, rears: Seq<Quantity>) -> spec_fn(int) -> Option<int> {
        |i: int|
            if self.rows()[i].lane.0 == lane && rears[i].is_below(
                self.network.lanes@[lane as int].length,
            ) && rears[i].is_below(place(MAX_FINITE)) {
                Some(rears[i].rank())
            } else {
                None
            }
    }

    /// The tail of a lane among the first `n` rows: the rearmost of those that
    /// still hang over it.
    pub open spec fn tail_among(&self, n: int, lane: u32, rears: Seq<Quantity>) -> Option<Tail> {
        match least_index(n, self.rear_on(lane, rears)) {
            Some(i) => Some(Tail { rear: rears[i], speed: self.rows()[i].speed }),
            None => None,
        }
    }

    /// The lane whose inside slots a vehicle counts against: where it is, or
    /// where it will land.
    pub open spec fn slot_lane(&self, v: &NetVehicle) -> LaneId {
        match v.crossing {
            Some(c) => self.network.landing(c.movement),
            None => v.lane,
        }
    }

    /// Of a row: its vehicle takes a slot on the inner lane.
    pub open spec fn takes_slot(&self, lane: u32) -> spec_fn(int) -> bool {
        |i: int|
            self.slot_lane(&self.rows()[i]).0 == lane && is_internal(
                &self.network,
                self.slot_lane(&self.rows()[i]),
            )
    }

    /// The maps say what the committed rows hold; promises are counted apart.
    pub open spec fn seeded(&self, occ: &ShardMaps, rears: Seq<Quantity>) -> bool {
        let n = self.rows().len() as int;
        &&& forall|l: u32| #[trigger] occ.tail(LaneId(l)) == self.tail_among(n, l, rears)
        &&& forall|l: u32| #[trigger] occ.taken(LaneId(l)) == count_where(n, self.takes_slot(l))
    }

    /// Read the occupancy off the committed rows, given every vehicle's measured
    /// rear. The space promised to vehicles in flight is added with
    /// [`NetWorld::promise`].
    pub fn seed_occupancy(&self, rears: &Vec<Quantity>) -> (occ: ShardMaps)
        requires
            self.wf(),
            rears@.len() == self.rows().len(),
            self.rows().len() < u32::MAX,
        ensures
            self.seeded(&occ, rears@),
            occ.inbound@ == Map::<u32, Quantity>::empty(),
    {
        let n = self.fleet.rows.len();
        let mut occ = ShardMaps::new();
        let mut i: usize = 0;
        proof {
            assert forall|l: u32| #[trigger] occ.tail(LaneId(l)) == self.tail_among(0, l, rears@) by {
                lemma_least(0, self.rear_on(l, rears@));
            }
        }
        while i < n
            invariant
                self.wf(),
                n == self.rows().len(),
                n < u32::MAX,
                rears@.len() == n,
                i <= n,
                occ.inbound@ == Map::<u32, Quantity>::empty(),
                forall|l: u32| #[trigger]
                    occ.tail(LaneId(l)) == self.tail_among(i as int, l, rears@),
                forall|l: u32| #[trigger]
                    occ.taken(LaneId(l)) == count_where(i as int, self.takes_slot(l)),
            decreases n - i,
        {
            let v = &self.fleet.rows[i];
            assert(self.rows()[i as int].placed(&self.network));
            let rear = rears[i];
            let ghost before = occ;
            let lane = v.lane;
            let now = occ.tail_of(lane);
            assert(LaneId(lane.0) == lane);
            assert(before.tail(LaneId(lane.0)) == self.tail_among(i as int, lane.0, rears@));
            proof {
                assert forall|l: u32| #[trigger] self.tail_among(i + 1, l, rears@) == (if l == lane.0 && rear.is_below(
                    self.network.lanes@[l as int].length,
                ) && rear.is_below(place(MAX_FINITE)) && (match self.tail_among(
                    i as int,
                    l,
                    rears@,
                ) {
                    Some(t) => rear.rank() < t.rear.rank(),
                    None => true,
                }) {
                    Some(Tail { rear, speed: v.speed })
                } else {
                    self.tail_among(i as int, l, rears@)
                }) by {
                    let c = self.rear_on(l, rears@);
                    lemma_least_step(i as int, c);
                    lemma_least(i as int, c);
                }
            }
            if rear.below(self.network.lane(lane).length) && rear.below(Quantity::at(MAX_FINITE)) {
                let nearer = match now {
                    Some(t) => rear.below(t.rear),
                    None => true,
                };
                proof {
                    lemma_least(i as int, self.rear_on(lane.0, rears@));
                }
                if nearer {
                    occ.front.insert(lane.0, Tail { rear, speed: v.speed });
                }
            }
            assert forall|l: u32| #[trigger] occ.tail(LaneId(l)) == self.tail_among(i + 1, l, rears@) by {
                assert(before.tail(LaneId(l)) == self.tail_among(i as int, l, rears@));
            }
            let slot = match v.crossing {
                Some(c) => {
                    assert(self.network.movement_ok(c.movement.0 as int));
                    self.network.movement(c.movement).to_lane
                },
                None => v.lane,
            };
            assert(slot == self.slot_lane(v));
            assert(LaneId(slot.0) == slot);
            let ghost counted = occ;
            if self.network.junction_internal_lane(slot) {
                let k = occ.slots_taken(slot);
                proof {
                    assert(before.taken(LaneId(slot.0)) == count_where(
                        i as int,
                        self.takes_slot(slot.0),
                    ));
                    lemma_count_bounds(i as int, self.takes_slot(slot.0));
                }
                occ.interior_occ.insert(slot.0, k + 1);
            }
            assert forall|l: u32| #[trigger] occ.taken(LaneId(l)) == count_where(
                i + 1,
                self.takes_slot(l),
            ) by {
                assert(before.taken(LaneId(l)) == count_where(i as int, self.takes_slot(l)));
                assert(counted.taken(LaneId(l)) == before.taken(LaneId(l)));
            }
            assert forall|l: u32| #[trigger] occ.tail(LaneId(l)) == self.tail_among(i + 1, l, rears@) by {
                assert(counted.tail(LaneId(l)) == occ.tail(LaneId(l)));
            }
            i += 1;
        }
        occ
    }

    /// Whether a vehicle in flight holds a promise of space where it will land:
    /// every crosser but those on free-flow seams.
    pub open spec fn holds_promise(&self, v: &NetVehicle) -> bool {
        v.crossing matches Some(c) && !self.is_free_seam(c.movement)
    }

    /// Enter the promise of one vehicle in flight: the measured total on the
    /// lane where it will land. Says whether it holds one.
    pub fn promise(&self, v: &NetVehicle, total: Quantity, occ: &mut ShardMaps) -> (r: bool)
        requires
            self.wf(),
            v.placed(&self.network),
        ensures
            r == self.holds_promise(v),
            final(occ).front@ == old(occ).front@,
            final(occ).interior_occ@ == old(occ).interior_occ@,
            final(occ).inbound@ == (if r {
                old(occ).inbound@.insert(self.network.landing((v.crossing->0).movement).0, total)
            } else {
                old(occ).inbound@
            }),
    {
        match v.crossing {
            Some(c) => {
                if self.free_flow_seam(c.movement) {
                    return false;
                }
                let to = self.network.movement(c.movement).to_lane;
                occ.inbound.insert(to.0, total);
                true
            },
            None => false,
        }
    }
}

} // verus!
