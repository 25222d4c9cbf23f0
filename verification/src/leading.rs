//! Whom a vehicle follows beyond its own lane: across segment boundaries, into
//! a merge, and inside a node; and what it looks out for on the way.

use vstd::prelude::*;
use crate::boxes::{is_standing, meets_any, other_of, touches, CLAIM_REACH};
use crate::fleet::NetVehicle;
use crate::groups::GroupMap;
use crate::neighbors::{Neighbors, MOVING_SPEED};
use crate::network::{LaneId, MovementId, RoadKind, SignalState};
use crate::paths::is_internal;
use crate::quantity::{place, Quantity, INFINITY, ZERO};
use crate::search::{first_index, indices_where, least_index, lemma_first_index_is, lemma_first_index_none, lemma_indices, lemma_least, lemma_least_step};
use crate::topology::{feeders_of, is_merge, straight_on};
use crate::world::NetWorld;

verus! {

/// How close to a merge the streams begin to interleave. Place of 45 m.
pub const MERGE_APPROACH: i64 = 0x4046_8000_0000_0000;

/// How far ahead a red light is minded. Place of 90 m.
pub const SIGNAL_LOOKAHEAD: i64 = 0x4056_8000_0000_0000;

/// How many boundaries a leader is looked for across.
pub const WALK_DEPTH: usize = 33;

/// What is measured of one crosser on the other path of a conflict point.
#[derive(Clone, Copy, Debug, PartialEq, Eq, Structural)]
pub struct OtherAt {
    /// How far its front is short of the point.
    pub dist: Quantity,
    /// Its distance once its whole body is past.
    pub cleared: Quantity,
}

/// What is measured at one conflict point of a crossing vehicle's path.
#[derive(Debug)]
pub struct PointAhead {
    /// How far the vehicle is short of the point.
    pub dist: Quantity,
    /// Per vehicle on the other movement.
    pub others: Vec<OtherAt>,
}

/// A leader beyond a boundary: the hop at which it was found, and its row.
#[derive(Clone, Copy, Debug, PartialEq, Eq, Structural)]
pub struct FarLeader {
    pub hop: usize,
    pub row: usize,
}

/// At a merge, one who comes on a road of kind `mine` yields to one on `theirs`:
/// a ramp to the mainline and never the reverse; else the lower rank; of equal
/// roads the one farther from the merge.
pub open spec fn yields_at_merge(
    mine: RoadKind,
    theirs: RoadKind,
    my_rank: u64,
    their_rank: u64,
    my_dist: Quantity,
    their_dist: Quantity,
) -> bool {
    if mine == RoadKind::Freeway && theirs == RoadKind::Ramp {
        false
    } else if mine == RoadKind::Ramp && theirs == RoadKind::Freeway {
        true
    } else if my_rank != their_rank {
        their_rank > my_rank
    } else {
        their_dist.is_below(my_dist)
    }
}

/// Two vehicles never yield to each other at a merge.
pub proof fn merging_is_never_mutual(
    a: RoadKind,
    b: RoadKind,
    a_rank: u64,
    b_rank: u64,
    a_dist: Quantity,
    b_dist: Quantity,
)
    ensures
        !(yields_at_merge(a, b, a_rank, b_rank, a_dist, b_dist) && yields_at_merge(
            b,
            a,
            b_rank,
            a_rank,
            b_dist,
            a_dist,
        )),
{
}

/// The other vehicle is first at a conflict point: nearer, or as near with the
/// lower id.
pub open spec fn first_at_point(
    their_dist: Quantity,
    their_id: u32,
    my_dist: Quantity,
    my_id: u32,
) -> bool {
    their_dist.is_below(my_dist) || (their_dist.is_same(my_dist) && their_id < my_id)
}

/// Of two vehicles at measured distances from a point, never is each first.
pub proof fn being_first_is_never_mutual(a: Quantity, a_id: u32, b: Quantity, b_id: u32)
    ensures
        !(first_at_point(a, a_id, b, b_id) && first_at_point(b, b_id, a, a_id)),
{
}

/// Of two vehicles with different ids at measured distances, one is first.
pub proof fn someone_is_first(a: Quantity, a_id: u32, b: Quantity, b_id: u32)
    requires
        !a.is_nan(),
        !b.is_nan(),
        a_id != b_id,
    ensures
        first_at_point(a, a_id, b, b_id) || first_at_point(b, b_id, a, a_id),
{
}

/// The vehicle on the other path claims the point ahead of the crossing one.
pub open spec fn claims_before(o: &NetVehicle, me: &NetVehicle, my_dist: Quantity, t: OtherAt) -> bool {
    &&& !t.dist.is_below(t.cleared)
    &&& !(is_standing(o) && place(CLAIM_REACH).is_below(t.dist))
    &&& first_at_point(t.dist, o.id, my_dist, me.id)
}

impl NetWorld {
    /// The lane's vehicles of the first `n` feeders other than `own`.
    pub open spec fn merge_rivals(&self, own: LaneId, feeders: Seq<u32>, n: int) -> Seq<usize>
        decreases n,
    {
        if n <= 0 {
            Seq::empty()
        } else {
            self.merge_rivals(own, feeders, n - 1) + if feeders[n - 1] == own.0 {
                Seq::empty()
            } else {
                self.lane_order(feeders[n - 1])
            }
        }
    }

    /// Row `j`, moving and ahead by a positive gap, is yielded to at the merge.
    pub open spec fn merges_ahead(
        &self,
        own: LaneId,
        my_dist: Quantity,
        j: int,
        to_end: Seq<Quantity>,
        gaps: Seq<Quantity>,
    ) -> bool {
        let net = &self.network;
        let mine = net.link_of(own);
        let theirs = net.link_of(self.rows()[j].lane);
        &&& !self.rows()[j].speed.is_below(place(MOVING_SPEED))
        &&& yields_at_merge(
            net.link_at(mine).kind,
            net.link_at(theirs).kind,
            self.link_priority(mine) >> 24u64,
            self.link_priority(theirs) >> 24u64,
            my_dist,
            to_end[j],
        )
        &&& place(ZERO).is_below(gaps[j])
    }

    /// Of a place among the rivals: its gap, where it is yielded to.
    pub open spec fn merge_gap(
        &self,
        own: LaneId,
        my_dist: Quantity,
        rivals: Seq<usize>,
        to_end: Seq<Quantity>,
        gaps: Seq<Quantity>,
    ) -> spec_fn(int) -> Option<int> {
        |k: int|
            if self.merges_ahead(own, my_dist, rivals[k] as int, to_end, gaps) {
                Some(gaps[rivals[k] as int].rank())
            } else {
                None
            }
    }

    /// The row that a vehicle follows into a merge: the nearest ahead of those
    /// it yields to on the other feeding lanes.
    pub open spec fn merge_leader(
        &self,
        v: &NetVehicle,
        m: Option<MovementId>,
        my_dist: Quantity,
        to_end: Seq<Quantity>,
        gaps: Seq<Quantity>,
    ) -> Option<usize> {
        if m is None || !is_merge(&self.network, self.network.landing(m->0)) || place(
            MERGE_APPROACH,
        ).is_below(my_dist) {
            None
        } else {
            let feeders = feeders_of(&self.network, self.network.landing(m->0));
            let rivals = self.merge_rivals(v.lane, feeders, feeders.len() as int);
            match least_index(
                rivals.len() as int,
                self.merge_gap(v.lane, my_dist, rivals, to_end, gaps),
            ) {
                Some(k) => Some(rivals[k]),
                None => None,
            }
        }
    }

    /// The movements straight on from a first one.
    pub open spec fn walk_on(&self, m: MovementId, depth: nat) -> Seq<MovementId>
        decreases depth,
    {
        if depth == 0 {
            Seq::empty()
        } else {
            seq![m] + match straight_on(&self.network, self.network.landing(m)) {
                Some(n) => self.walk_on(n, (depth - 1) as nat),
                None => Seq::empty(),
            }
        }
    }

    /// Of a hop: beyond the horizon, or its landing is occupied.
    pub open spec fn walk_ends(
        &self,
        walk: Seq<MovementId>,
        dists: Seq<Quantity>,
        horizon: Quantity,
    ) -> spec_fn(int) -> bool {
        |k: int|
            horizon.is_below(dists[k]) || self.nearest_entrance(self.network.landing(walk[k]))
                is Some
    }

    /// The first vehicle straight on beyond the boundary, within the horizon.
    pub open spec fn far_leader(
        &self,
        walk: Seq<MovementId>,
        dists: Seq<Quantity>,
        horizon: Quantity,
    ) -> Option<FarLeader> {
        match first_index(0, walk.len() as int, self.walk_ends(walk, dists, horizon)) {
            Some(k) => if horizon.is_below(dists[k]) {
                None
            } else {
                Some(
                    FarLeader {
                        hop: k as usize,
                        row: self.nearest_entrance(self.network.landing(walk[k]))->0,
                    },
                )
            },
            None => None,
        }
    }

    /// Of a row: its vehicle is on the movement.
    pub open spec fn is_on(&self, m: u32) -> spec_fn(int) -> bool {
        |i: int| self.rows()[i].crossing is Some && (self.rows()[i].crossing->0).movement.0 == m
    }

    /// The rows on a movement.
    pub open spec fn on_movement(&self, m: MovementId) -> Seq<usize> {
        indices_where(self.rows().len() as int, self.is_on(m.0))
    }

    /// These are the world's crossers by movement.
    pub open spec fn crossing_groups(&self, g: &GroupMap<usize>) -> bool {
        g.wf() && forall|m: u32| #[trigger]
            g.group(m) == indices_where(self.rows().len() as int, self.is_on(m))
    }

    /// Of a place among the rows on the movement: its gap, where it is ahead of row `i`.
    pub open spec fn ahead_on_path(
        &self,
        i: int,
        list: Seq<usize>,
        arcs: Seq<Quantity>,
        gaps: Seq<Quantity>,
    ) -> spec_fn(int) -> Option<int> {
        |k: int|
            if list[k] != i && arcs[i].is_below(arcs[list[k] as int]) && gaps[list[k] as int].is_below(
                place(INFINITY),
            ) {
                Some(gaps[list[k] as int].rank())
            } else {
                None
            }
    }

    /// Whom a crossing vehicle follows: the nearest ahead on its own path, or
    /// the vehicle at the entrance of its landing lane when that is nearer.
    pub open spec fn path_leader(
        &self,
        i: int,
        arcs: Seq<Quantity>,
        gaps: Seq<Quantity>,
        front_gap: Quantity,
    ) -> Option<usize> {
        let m = (self.rows()[i].crossing->0).movement;
        let list = self.on_movement(m);
        let best = least_index(list.len() as int, self.ahead_on_path(i, list, arcs, gaps));
        let limit = match best {
            Some(k) => gaps[list[k] as int],
            None => place(INFINITY),
        };
        match self.nearest_entrance(self.network.landing(m)) {
            Some(f) if front_gap.is_below(limit) => Some(f),
            _ => match best {
                Some(k) => Some(list[k]),
                None => None,
            },
        }
    }

    /// A moving crosser has reserved a movement that meets the vehicle's next
    /// hop inside the junction.
    pub open spec fn next_hop_taken(&self, v: &NetVehicle) -> bool {
        let to = self.network.landing((v.crossing->0).movement);
        is_internal(&self.network, to) && match self.onward(v, to) {
            Some(next) => meets_any(
                &self.network,
                next,
                self.reserved(
                    self.rows().len() as int,
                    self.network.node_at(self.network.movement_at(next).node).intersection,
                    true,
                ),
            ),
            None => false,
        }
    }

    /// The crossing vehicle holds short of the `k`-th point of its node.
    pub open spec fn holds_short(&self, i: int, k: int, p: PointAhead) -> bool {
        let me = &self.rows()[i];
        let m = (me.crossing->0).movement;
        let c = self.point(self.network.movement_at(m).node, k);
        let list = self.on_movement(other_of(c, m));
        &&& touches(c, m)
        &&& !p.dist.is_at_most(place(ZERO))
        &&& exists|a: int|
            0 <= a < list.len() && claims_before(
                &self.rows()[list[a] as int],
                me,
                p.dist,
                #[trigger] p.others@[a],
            )
    }

    /// The table has an entry per conflict point of the vehicle's node and, for
    /// points on its path, one per vehicle on the other movement.
    pub open spec fn ahead_fits(&self, i: int, points: Seq<PointAhead>) -> bool {
        let m = (self.rows()[i].crossing->0).movement;
        let node = self.network.movement_at(m).node;
        &&& points.len() == self.network.node_at(node).conflicts@.len()
        &&& forall|k: int|
            0 <= k < points.len() && touches(self.point(node, k), m)
                ==> (#[trigger] points[k]).others@.len() == self.on_movement(
                other_of(self.point(node, k), m),
            ).len()
    }

    /// How far away the next red light is along the field's path, looking two
    /// links beyond the immediate movement.
    pub open spec fn red_beyond(
        &self,
        v: &NetVehicle,
        m: Option<MovementId>,
        first: Quantity,
        second: Quantity,
    ) -> Option<Quantity> {
        let far = place(SIGNAL_LOOKAHEAD);
        if m is None || self.colour(m->0) == SignalState::Red || far.is_below(first) {
            None
        } else {
            match self.intended_from(v, self.network.landing(m->0)) {
                Some(a) => if self.colour(a) == SignalState::Red {
                    Some(first)
                } else if far.is_below(second) {
                    None
                } else {
                    match self.intended_from(v, self.network.landing(a)) {
                        Some(b) => if self.colour(b) == SignalState::Red {
                            Some(second)
                        } else {
                            None
                        },
                        None => None,
                    }
                },
                None => None,
            }
        }
    }
}

impl NetWorld {
    fn gather_rivals(&self, own: LaneId, feeders: &Vec<u32>, nb: &Neighbors) -> (r: Vec<usize>)
        requires
            self.gated(nb),
        ensures
            r@ == self.merge_rivals(own, feeders@, feeders@.len() as int),
            forall|k: int| 0 <= k < r@.len() ==> #[trigger] r@[k] < self.rows().len(),
    {
        let mut out: Vec<usize> = Vec::new();
        let mut f: usize = 0;
        while f < feeders.len()
            invariant
                self.gated(nb),
                f <= feeders@.len(),
                out@ == self.merge_rivals(own, feeders@, f as int),
                forall|k: int| 0 <= k < out@.len() ==> #[trigger] out@[k] < self.rows().len(),
            decreases feeders@.len() - f,
        {
            let from = feeders[f];
            if from != own.0 {
                proof {
                    self.lemma_lane_order(from);
                    assert(nb.by_lane.group(from) == self.lane_order(from));
                }
                let ghost before = out@;
                if let Some(list) = nb.by_lane.get(&from) {
                    let mut k: usize = 0;
                    while k < list.len()
                        invariant
                            list@ == self.lane_order(from),
                            k <= list@.len(),
                            out@ == before + list@.subrange(0, k as int),
                            forall|x: int|
                                #![trigger self.lane_order(from)[x]]
                                0 <= x < self.lane_order(from).len() ==> self.lane_order(from)[x]
                                    < self.rows().len(),
                            forall|x: int|
                                0 <= x < out@.len() ==> #[trigger] out@[x] < self.rows().len(),
                        decreases list@.len() - k,
                    {
                        assert(self.lane_order(from)[k as int] == list@[k as int]);
                        out.push(list[k]);
                        k += 1;
                        assert(out@ =~= before + list@.subrange(0, k as int));
                    }
                    assert(list@.subrange(0, k as int) =~= list@);
                } else {
                    assert(before + self.lane_order(from) =~= before);
                }
            } else {
                assert(out@ + Seq::<usize>::empty() =~= out@);
            }
            f += 1;
        }
        out
    }

    fn is_merging_ahead(
        &self,
        own: LaneId,
        my_dist: Quantity,
        j: usize,
        to_end: &Vec<Quantity>,
        gaps: &Vec<Quantity>,
    ) -> (r: bool)
        requires
            self.wf(),
            self.network.has_lane(own),
            j < self.rows().len(),
            to_end@.len() == self.rows().len(),
            gaps@.len() == self.rows().len(),
        ensures
            r == self.merges_ahead(own, my_dist, j as int, to_end@, gaps@),
    {
        let net = &self.network;
        let o = &self.fleet.rows[j];
        assert(self.rows()[j as int].placed(net));
        assert(net.lane_ok(own.0 as int));
        assert(net.lane_ok(o.lane.0 as int));
        if o.speed.below(Quantity::at(MOVING_SPEED)) {
            return false;
        }
        let mine = net.lane(own).link;
        let theirs = net.lane(o.lane).link;
        let my_kind = net.link(mine).kind;
        let their_kind = net.link(theirs).kind;
        let my_rank = self.priority_key(mine) >> 24u64;
        let their_rank = self.priority_key(theirs) >> 24u64;
        let yields = if my_kind == RoadKind::Freeway && their_kind == RoadKind::Ramp {
            false
        } else if my_kind == RoadKind::Ramp && their_kind == RoadKind::Freeway {
            true
        } else if my_rank != their_rank {
            their_rank > my_rank
        } else {
            to_end[j].below(my_dist)
        };
        yields && Quantity::at(ZERO).below(gaps[j])
    }

    /// Whom a vehicle follows into a merge, if it yields to anyone there. The
    /// measured columns hold every row's distance to its lane's end and its gap.
    pub fn merge_conflict(
        &self,
        v: &NetVehicle,
        m: Option<MovementId>,
        nb: &Neighbors,
        my_dist: Quantity,
        to_end: &Vec<Quantity>,
        gaps: &Vec<Quantity>,
    ) -> (r: Option<usize>)
        requires
            self.gated(nb),
            v.placed(&self.network),
            m matches Some(x) ==> self.network.has_movement(x),
            to_end@.len() == self.rows().len(),
            gaps@.len() == self.rows().len(),
        ensures
            r == self.merge_leader(v, m, my_dist, to_end@, gaps@),
            r matches Some(j) ==> j < self.rows().len(),
    {
        let mid = match m {
            Some(x) => x,
            None => {
                return None;
            },
        };
        assert(self.network.movement_ok(mid.0 as int));
        let to = self.network.movement(mid).to_lane;
        let feeders = &self.topology.feeders[to.0 as usize];
        assert(feeders@ == feeders_of(&self.network, LaneId(to.0)));
        if feeders.len() <= 1 || Quantity::at(MERGE_APPROACH).below(my_dist) {
            return None;
        }
        let rivals = self.gather_rivals(v.lane, feeders, nb);
        let ghost cost = self.merge_gap(v.lane, my_dist, rivals@, to_end@, gaps@);
        let mut best: Option<usize> = None;
        let mut k: usize = 0;
        proof {
            lemma_least(0, cost);
        }
        while k < rivals.len()
            invariant
                self.gated(nb),
                v.placed(&self.network),
                to_end@.len() == self.rows().len(),
                gaps@.len() == self.rows().len(),
                cost == self.merge_gap(v.lane, my_dist, rivals@, to_end@, gaps@),
                forall|x: int| 0 <= x < rivals@.len() ==> #[trigger] rivals@[x] < self.rows().len(),
                k <= rivals@.len(),
                match least_index(k as int, cost) {
                    Some(i) => best is Some && 0 <= i < k && best->0 == rivals@[i] && cost(i)
                        == Some(gaps@[rivals@[i] as int].rank()) && place(ZERO).is_below(
                        gaps@[rivals@[i] as int],
                    ),
                    None => best is None,
                },
            decreases rivals@.len() - k,
        {
            let j = rivals[k];
            proof {
                lemma_least_step(k as int, cost);
            }
            if self.is_merging_ahead(v.lane, my_dist, j, to_end, gaps) {
                let nearer = match best {
                    Some(b) => gaps[j].below(gaps[b]),
                    None => true,
                };
                if nearer {
                    best = Some(j);
                }
            }
            k += 1;
        }
        best
    }

    /// The movements straight on from a vehicle's own, for finding a leader
    /// beyond the boundary.
    pub fn boundary_walk(&self, m: MovementId) -> (r: Vec<MovementId>)
        requires
            self.wf(),
            self.network.has_movement(m),
        ensures
            r@ == self.walk_on(m, WALK_DEPTH as nat),
            forall|k: int| 0 <= k < r@.len() ==> self.network.has_movement(#[trigger] r@[k]),
    {
        let mut out: Vec<MovementId> = Vec::new();
        let mut at = m;
        let mut left: usize = WALK_DEPTH;
        let mut open: bool = true;
        assert(out@ + self.walk_on(at, left as nat) =~= self.walk_on(m, WALK_DEPTH as nat));
        while open && left > 0
            invariant
                self.wf(),
                self.network.has_movement(at),
                open ==> self.walk_on(m, WALK_DEPTH as nat) == out@ + self.walk_on(
                    at,
                    left as nat,
                ),
                !open ==> self.walk_on(m, WALK_DEPTH as nat) == out@,
                forall|k: int| 0 <= k < out@.len() ==> self.network.has_movement(#[trigger] out@[k]),
            decreases left,
        {
            let ghost before = out@;
            assert(self.network.movement_ok(at.0 as int));
            let to = self.network.movement(at).to_lane;
            out.push(at);
            assert(self.topology.through_next@[to.0 as int] == straight_on(
                &self.network,
                LaneId(to.0),
            ));
            match self.topology.through_next[to.0 as usize] {
                Some(next) => {
                    proof {
                        crate::topology::lemma_straight_on(&self.network, to);
                    }
                    assert(before + self.walk_on(at, left as nat) =~= out@ + self.walk_on(
                        next,
                        (left - 1) as nat,
                    ));
                    at = next;
                },
                None => {
                    open = false;
                    assert(before + self.walk_on(at, left as nat) =~= out@);
                },
            }
            left -= 1;
        }
        if open {
            assert(out@ + self.walk_on(at, 0) =~= out@);
        }
        out
    }

    /// The nearest vehicle beyond the boundary, at the measured distances of the
    /// walk's hops, within the horizon.
    pub fn cross_boundary_leader(
        &self,
        walk: &Vec<MovementId>,
        nb: &Neighbors,
        dists: &Vec<Quantity>,
        horizon: Quantity,
    ) -> (r: Option<FarLeader>)
        requires
            self.gated(nb),
            dists@.len() == walk@.len(),
            forall|k: int| 0 <= k < walk@.len() ==> self.network.has_movement(#[trigger] walk@[k]),
        ensures
            r == self.far_leader(walk@, dists@, horizon),
            r matches Some(f) ==> f.row < self.rows().len() && f.hop < walk@.len(),
    {
        let ghost p = self.walk_ends(walk@, dists@, horizon);
        let mut k: usize = 0;
        while k < walk.len()
            invariant
                self.gated(nb),
                dists@.len() == walk@.len(),
                forall|x: int|
                    0 <= x < walk@.len() ==> self.network.has_movement(#[trigger] walk@[x]),
                p == self.walk_ends(walk@, dists@, horizon),
                k <= walk@.len(),
                forall|x: int| 0 <= x < k ==> !#[trigger] p(x),
            decreases walk@.len() - k,
        {
            if horizon.below(dists[k]) {
                proof {
                    lemma_first_index_is(0, walk@.len() as int, p, k as int);
                }
                return None;
            }
            let to = self.network.movement(walk[k]).to_lane;
            if let Some(f) = self.entrance_occupant(to, nb) {
                proof {
                    lemma_first_index_is(0, walk@.len() as int, p, k as int);
                }
                return Some(FarLeader { hop: k, row: f });
            }
            assert(!p(k as int));
            k += 1;
        }
        proof {
            lemma_first_index_none(0, walk@.len() as int, p);
        }
        None
    }

    /// The vehicles on every movement.
    pub fn crossing_by_movement(&self) -> (r: GroupMap<usize>)
        requires
            self.wf(),
        ensures
            self.crossing_groups(&r),
    {
        let n = self.fleet.rows.len();
        let mut g: GroupMap<usize> = GroupMap::new();
        let mut i: usize = 0;
        while i < n
            invariant
                n == self.rows().len(),
                i <= n,
                g.wf(),
                forall|m: u32| #[trigger] g.group(m) == indices_where(i as int, self.is_on(m)),
            decreases n - i,
        {
            if let Some(c) = self.fleet.rows[i].crossing {
                g.push(c.movement.0, i);
            }
            i += 1;
        }
        g
    }

    /// Whom a crossing vehicle follows. The measured columns hold every row's
    /// arc inside its node and its gap from this vehicle; `front_gap` is the gap
    /// to the vehicle at the entrance of the landing lane.
    pub fn crossing_leader(
        &self,
        i: usize,
        nb: &Neighbors,
        on: &GroupMap<usize>,
        arcs: &Vec<Quantity>,
        gaps: &Vec<Quantity>,
        front_gap: Quantity,
    ) -> (r: Option<usize>)
        requires
            self.gated(nb),
            self.crossing_groups(on),
            i < self.rows().len(),
            self.rows()[i as int].crossing is Some,
            arcs@.len() == self.rows().len(),
            gaps@.len() == self.rows().len(),
        ensures
            r == self.path_leader(i as int, arcs@, gaps@, front_gap),
            r matches Some(j) ==> j < self.rows().len(),
    {
        let m = self.fleet.rows[i].crossing.unwrap().movement;
        assert(self.rows()[i as int].placed(&self.network));
        let ghost list0 = self.on_movement(m);
        let ghost cost = self.ahead_on_path(i as int, list0, arcs@, gaps@);
        let mut best: Option<usize> = None;
        proof {
            assert(self.rows().len() == self.fleet.rows.len());
            lemma_indices(self.rows().len() as int, self.is_on(m.0));
            lemma_least(0, cost);
            assert(on.group(m.0) == list0);
        }
        if let Some(list) = on.get(&m.0) {
            let mut k: usize = 0;
            while k < list.len()
                invariant
                    list@ == list0,
                    list0 == indices_where(self.rows().len() as int, self.is_on(m.0)),
                    cost == self.ahead_on_path(i as int, list0, arcs@, gaps@),
                    arcs@.len() == self.rows().len(),
                    gaps@.len() == self.rows().len(),
                    i < self.rows().len(),
                    forall|x: int|
                        0 <= x < list0.len() ==> 0 <= #[trigger] list0[x] < self.rows().len(),
                    k <= list@.len(),
                    match least_index(k as int, cost) {
                        Some(x) => best is Some && 0 <= x < k && best->0 == list0[x] && cost(x)
                            == Some(gaps@[list0[x] as int].rank()) && gaps@[list0[x] as int].is_below(
                            place(INFINITY),
                        ),
                        None => best is None,
                    },
                decreases list@.len() - k,
            {
                let j = list[k];
                assert(list0[k as int] == j);
                proof {
                    lemma_least_step(k as int, cost);
                }
                if j != i && arcs[i].below(arcs[j]) && gaps[j].below(Quantity::at(INFINITY)) {
                    let nearer = match best {
                        Some(b) => gaps[j].below(gaps[b]),
                        None => true,
                    };
                    if nearer {
                        best = Some(j);
                    }
                }
                k += 1;
            }
        }
        proof {
            lemma_least(list0.len() as int, cost);
        }
        let limit = match best {
            Some(b) => gaps[b],
            None => Quantity::at(INFINITY),
        };
        match self.entrance_occupant(self.network.movement(m).to_lane, nb) {
            Some(f) => if front_gap.below(limit) {
                Some(f)
            } else {
                best
            },
            None => best,
        }
    }

    /// Whether a moving crosser has reserved a movement that meets the vehicle's
    /// next hop inside the junction.
    pub fn next_hop_conflict(&self, v: &NetVehicle, nb: &Neighbors) -> (r: bool)
        requires
            self.gated(nb),
            v.placed(&self.network),
            v.crossing is Some,
        ensures
            r == self.next_hop_taken(v),
    {
        let m = v.crossing.unwrap().movement;
        assert(self.network.movement_ok(m.0 as int));
        let to = self.network.movement(m).to_lane;
        if !self.network.junction_internal_lane(to) {
            return false;
        }
        match self.movement_from_lane_for(v, to) {
            Some(next) => {
                assert(self.network.movement_ok(next.0 as int));
                let key = self.network.node(self.network.movement(next).node).intersection;
                assert(nb.moving_crossing_mvs.group(key) == self.reserved(
                    self.rows().len() as int,
                    key,
                    true,
                ));
                self.conflicts_with_any(next, &nb.moving_crossing_mvs, key)
            },
            None => false,
        }
    }

    fn holds_at(&self, i: usize, k: usize, on: &GroupMap<usize>, p: &PointAhead) -> (r: bool)
        requires
            self.wf(),
            self.crossing_groups(on),
            i < self.rows().len(),
            self.rows()[i as int].crossing is Some,
            ({
                let m = (self.rows()[i as int].crossing->0).movement;
                let node = self.network.movement_at(m).node;
                &&& k < self.network.node_at(node).conflicts@.len()
                &&& touches(self.point(node, k as int), m) ==> p.others@.len() == self.on_movement(
                    other_of(self.point(node, k as int), m),
                ).len()
            }),
        ensures
            r == self.holds_short(i as int, k as int, *p),
    {
        let me = &self.fleet.rows[i];
        assert(self.rows()[i as int].placed(&self.network));
        let m = me.crossing.unwrap().movement;
        assert(self.network.movement_ok(m.0 as int));
        let node = self.network.movement(m).node;
        assert(self.network.node_ok(node.0 as int));
        let c = self.network.conflicts[self.network.node(node).conflicts[k] as usize];
        let other = if c.a == m {
            c.b
        } else if c.b == m {
            c.a
        } else {
            return false;
        };
        if p.dist.at_most(Quantity::at(ZERO)) {
            return false;
        }
        let ghost list0 = self.on_movement(other);
        proof {
            assert(self.rows().len() == self.fleet.rows.len());
            lemma_indices(self.rows().len() as int, self.is_on(other.0));
            assert(on.group(other.0) == list0);
        }
        match on.get(&other.0) {
            Some(list) => {
                let mut a: usize = 0;
                while a < list.len()
                    invariant
                        list@ == list0,
                        list0 == self.on_movement(other),
                        p.others@.len() == list0.len(),
                        *me == self.rows()[i as int],
                        m == (me.crossing->0).movement,
                        c == self.point(self.network.movement_at(m).node, k as int),
                        touches(c, m),
                        other == other_of(c, m),
                        !p.dist.is_at_most(place(ZERO)),
                        forall|x: int|
                            0 <= x < list0.len() ==> 0 <= #[trigger] list0[x] < self.rows().len(),
                        a <= list0.len(),
                        forall|x: int|
                            0 <= x < a ==> !claims_before(
                                &self.rows()[list0[x] as int],
                                me,
                                p.dist,
                                #[trigger] p.others@[x],
                            ),
                    decreases list0.len() - a,
                {
                    let j = list[a];
                    assert(list0[a as int] == j);
                    let o = &self.fleet.rows[j];
                    let t = p.others[a];
                    let standing = o.speed.below(Quantity::at(MOVING_SPEED));
                    if !t.dist.below(t.cleared) && !(standing && Quantity::at(CLAIM_REACH).below(
                        t.dist,
                    )) && (t.dist.below(p.dist) || (t.dist.same(p.dist) && o.id < me.id)) {
                        assert(claims_before(
                            &self.rows()[list0[a as int] as int],
                            me,
                            p.dist,
                            p.others@[a as int],
                        ));
                        return true;
                    }
                    a += 1;
                }
                false
            },
            None => false,
        }
    }

    /// At which conflict points of its node a crossing vehicle holds short,
    /// because a vehicle on the other path is first there.
    pub fn points_to_hold(&self, i: usize, on: &GroupMap<usize>, points: &Vec<PointAhead>) -> (r: Vec<
        bool,
    >)
        requires
            self.wf(),
            self.crossing_groups(on),
            i < self.rows().len(),
            self.rows()[i as int].crossing is Some,
            self.ahead_fits(i as int, points@),
        ensures
            r@.len() == points@.len(),
            forall|k: int|
                0 <= k < r@.len() ==> #[trigger] r@[k] == self.holds_short(i as int, k, points@[k]),
    {
        let mut out: Vec<bool> = Vec::new();
        let mut k: usize = 0;
        while k < points.len()
            invariant
                self.wf(),
                self.crossing_groups(on),
                i < self.rows().len(),
                self.rows()[i as int].crossing is Some,
                self.ahead_fits(i as int, points@),
                k <= points@.len(),
                out@.len() == k,
                forall|x: int|
                    0 <= x < k ==> #[trigger] out@[x] == self.holds_short(
                        i as int,
                        x,
                        points@[x],
                    ),
            decreases points@.len() - k,
        {
            out.push(self.holds_at(i, k, on, &points[k]));
            k += 1;
        }
        out
    }

    /// How far away the next red light is along the vehicle's path beyond the
    /// immediate movement; the measured distances are those to the ends of the
    /// next two links.
    pub fn red_ahead(
        &self,
        v: &NetVehicle,
        m: Option<MovementId>,
        first: Quantity,
        second: Quantity,
    ) -> (r: Option<Quantity>)
        requires
            self.wf(),
            m matches Some(x) ==> self.network.has_movement(x),
        ensures
            r == self.red_beyond(v, m, first, second),
    {
        let mid = match m {
            Some(x) => x,
            None => {
                return None;
            },
        };
        let far = Quantity::at(SIGNAL_LOOKAHEAD);
        if self.movement_state(mid) == SignalState::Red || far.below(first) {
            return None;
        }
        assert(self.network.movement_ok(mid.0 as int));
        match self.intended_movement_from(v, self.network.movement(mid).to_lane) {
            Some(a) => {
                if self.movement_state(a) == SignalState::Red {
                    return Some(first);
                }
                if far.below(second) {
                    return None;
                }
                assert(self.network.movement_ok(a.0 as int));
                match self.intended_movement_from(v, self.network.movement(a).to_lane) {
                    Some(b) => if self.movement_state(b) == SignalState::Red {
                        Some(second)
                    } else {
                        None
                    },
                    None => None,
                }
            },
            None => None,
        }
    }
}

} // verus!
