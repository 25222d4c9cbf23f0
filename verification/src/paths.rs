//! Which movement a vehicle takes next: its routed hop where its lane serves
//! it, and otherwise the one that leads on best, so that a vehicle in the wrong
//! lane never disappears.

use vstd::prelude::*;
use crate::fleet::NetVehicle;
use crate::network::{LaneId, LinkId, MovementId, Network};
use crate::search::{first_index, least_index, lemma_first_index, lemma_first_index_is, lemma_first_index_none, lemma_least, lemma_least_step};
use crate::world::NetWorld;

verus! {

/// How many junctions ahead lane preference follows the route.
pub const LANE_ROUTE_DEPTH: usize = 3;

/// The first present one.
pub open spec fn or_else(a: Option<MovementId>, b: Option<MovementId>) -> Option<MovementId> {
    if a is Some {
        a
    } else {
        b
    }
}

/// Of the movements of a lane: it lands on this link.
pub open spec fn lands_on(net: &Network, lane: LaneId, link: LinkId) -> spec_fn(int) -> bool {
    |k: int| net.landing_link(net.nth_movement(lane, k)) == link
}

/// The lane's first movement onto a link.
pub open spec fn movement_onto(net: &Network, lane: LaneId, link: LinkId) -> Option<MovementId> {
    match first_index(0, net.lane_at(lane).movement_count as int, lands_on(net, lane, link)) {
        Some(k) => Some(net.nth_movement(lane, k)),
        None => None,
    }
}

/// The lane's first movement.
pub open spec fn first_movement(net: &Network, lane: LaneId) -> Option<MovementId> {
    if net.lane_at(lane).movement_count > 0 {
        Some(net.lane_at(lane).movement_start)
    } else {
        None
    }
}

/// The `k`-th lane of a link.
pub open spec fn nth_lane(net: &Network, link: LinkId, k: int) -> LaneId {
    LaneId((net.link_at(link).lane_start.0 + k) as u32)
}

/// Of the lanes of a link: it has a movement.
pub open spec fn moves_on(net: &Network, link: LinkId) -> spec_fn(int) -> bool {
    |k: int| net.lane_at(nth_lane(net, link, k)).movement_count > 0
}

/// The first movement of the first lane of a link that has any.
pub open spec fn borrowed_movement(net: &Network, link: LinkId) -> Option<MovementId> {
    match first_index(0, net.link_at(link).lane_count as int, moves_on(net, link)) {
        Some(k) => Some(net.lane_at(nth_lane(net, link, k)).movement_start),
        None => None,
    }
}

/// Both ends of the lane's link lie in one junction cluster.
pub open spec fn is_internal(net: &Network, lane: LaneId) -> bool {
    let l = net.link_at(net.link_of(lane));
    net.node_at(l.from).junction is Some && net.node_at(l.from).junction == net.node_at(l.to).junction
}

impl NetWorld {
    /// Routed by field: it has a destination and there is a router.
    pub open spec fn field_routed(&self, v: &NetVehicle) -> bool {
        v.dest is Some && self.router is Some
    }

    /// The field's next link from `link` for the vehicle.
    pub open spec fn field_hop(&self, v: &NetVehicle, link: LinkId) -> Option<LinkId> {
        if self.field_routed(v) {
            self.router->0.hop(v.dest->0, link)
        } else {
            None
        }
    }

    /// Of the movements of a lane: how far its landing is from the destination.
    pub open spec fn landing_distance(&self, v: &NetVehicle, lane: LaneId) -> spec_fn(int) -> Option<
        int,
    > {
        |k: int|
            if self.field_routed(v) {
                match self.router->0.remaining(
                    v.dest->0,
                    self.network.landing_link(self.network.nth_movement(lane, k)),
                ) {
                    Some(d) => Some(d as int),
                    None => None,
                }
            } else {
                None
            }
    }

    /// Of the lane's movements, the one that lands nearest the destination.
    pub open spec fn nearest_landing(&self, v: &NetVehicle, lane: LaneId) -> Option<MovementId> {
        match least_index(
            self.network.lane_at(lane).movement_count as int,
            self.landing_distance(v, lane),
        ) {
            Some(k) => Some(self.network.nth_movement(lane, k)),
            None => None,
        }
    }

    /// What a vehicle takes from a lane that does not serve its route: the
    /// nearest landing, else the lane's first movement, else a sibling lane's.
    pub open spec fn stopgap(&self, v: &NetVehicle, lane: LaneId) -> Option<MovementId> {
        or_else(
            self.nearest_landing(v, lane),
            or_else(
                first_movement(&self.network, lane),
                borrowed_movement(&self.network, self.network.link_of(lane)),
            ),
        )
    }

    /// The vehicle is where its path ends: it leaves the network.
    pub open spec fn arrived(&self, v: &NetVehicle) -> bool {
        if self.field_routed(v) {
            self.field_hop(v, self.network.link_of(v.lane)) is None
        } else {
            v.route@.len() > 0 && v.route_idx + 1 >= v.route@.len()
        }
    }

    /// The movement that the vehicle takes at the end of its lane.
    pub open spec fn intended(&self, v: &NetVehicle) -> Option<MovementId> {
        let net = &self.network;
        if self.arrived(v) {
            None
        } else if self.field_routed(v) {
            or_else(
                movement_onto(net, v.lane, self.field_hop(v, net.link_of(v.lane))->0),
                self.stopgap(v, v.lane),
            )
        } else if v.route@.len() > 0 {
            or_else(
                movement_onto(net, v.lane, v.route@[v.route_idx + 1]),
                self.stopgap(v, v.lane),
            )
        } else {
            self.stopgap(v, v.lane)
        }
    }

    /// The field's movement from a lane further on.
    pub open spec fn intended_from(&self, v: &NetVehicle, lane: LaneId) -> Option<MovementId> {
        let net = &self.network;
        match self.field_hop(v, net.link_of(lane)) {
            Some(next) => if net.lane_at(lane).movement_count > 0 {
                movement_onto(net, lane, next)
            } else {
                None
            },
            None => None,
        }
    }

    /// Of the links of an explicit route: it is this one.
    pub open spec fn route_has(v: &NetVehicle, link: LinkId) -> spec_fn(int) -> bool {
        |k: int| v.route@[k] == link
    }

    /// The link after `link` on the vehicle's explicit route.
    pub open spec fn route_after(v: &NetVehicle, link: LinkId) -> Option<LinkId> {
        match first_index(0, v.route@.len() as int, Self::route_has(v, link)) {
            Some(k) => if k + 1 < v.route@.len() {
                Some(v.route@[k + 1])
            } else {
                None
            },
            None => None,
        }
    }

    /// The movement that the vehicle will take from a lane further on.
    pub open spec fn onward(&self, v: &NetVehicle, lane: LaneId) -> Option<MovementId> {
        let net = &self.network;
        let routed = if self.field_routed(v) {
            self.intended_from(v, lane)
        } else {
            match Self::route_after(v, net.link_of(lane)) {
                Some(next) => movement_onto(net, lane, next),
                None => None,
            }
        };
        or_else(routed, self.stopgap(v, lane))
    }

    /// The movements taken, and those that follow from a lane while the path stays
    /// inside a junction and comes to none for the second time, at most `n` of them.
    pub open spec fn followed(
        &self,
        v: &NetVehicle,
        lane: LaneId,
        taken: Seq<MovementId>,
        n: nat,
    ) -> Seq<MovementId>
        decreases n,
    {
        if n == 0 || !is_internal(&self.network, lane) {
            taken
        } else {
            match self.onward(v, lane) {
                Some(m) => if taken.contains(m) {
                    taken
                } else {
                    self.followed(v, self.network.landing(m), taken.push(m), (n - 1) as nat)
                },
                None => taken,
            }
        }
    }

    /// Every movement that follows from a lane while the path stays inside a junction.
    pub open spec fn inner_path(&self, v: &NetVehicle, lane: LaneId) -> Seq<MovementId> {
        self.followed(v, lane, Seq::empty(), self.network.movements@.len())
    }

    /// The whole path that entering on `mid` commits the vehicle to.
    pub open spec fn committed_path(&self, v: &NetVehicle, mid: MovementId) -> Seq<MovementId> {
        seq![mid] + self.inner_path(v, self.network.landing(mid))
    }

    /// The vehicle's committed path comes to `goal`.
    pub open spec fn will_reach(&self, v: &NetVehicle, goal: MovementId) -> bool {
        self.intended(v) matches Some(first) && self.committed_path(v, first).contains(goal)
    }
}

impl Network {
    /// The movement from a lane onto a link, if one exists.
    pub fn movement_to(&self, lane: LaneId, link: LinkId) -> (r: Option<MovementId>)
        requires
            self.wf(),
            self.has_lane(lane),
        ensures
            r == movement_onto(self, lane, link),
            r matches Some(m) ==> self.has_movement(m),
    {
        assert(self.lane_ok(lane.0 as int));
        let l = self.lane(lane);
        let mut k: u32 = 0;
        while k < l.movement_count
            invariant
                self.wf(),
                self.has_lane(lane),
                *l == self.lane_at(lane),
                self.lane_ok(lane.0 as int),
                k <= l.movement_count,
                forall|j: int| 0 <= j < k ==> !#[trigger] lands_on(self, lane, link)(j),
            decreases l.movement_count - k,
        {
            let m = MovementId(l.movement_start.0 + k);
            assert(m == self.nth_movement(lane, k as int));
            assert(self.movement_ok(m.0 as int));
            if self.lane(self.movement(m).to_lane).link == link {
                proof {
                    lemma_first_index_is(
                        0,
                        l.movement_count as int,
                        lands_on(self, lane, link),
                        k as int,
                    );
                }
                return Some(m);
            }
            k += 1;
        }
        proof {
            lemma_first_index_none(0, l.movement_count as int, lands_on(self, lane, link));
        }
        None
    }

    /// The first movement from any lane of a link.
    pub fn any_movement_on(&self, link: LinkId) -> (r: Option<MovementId>)
        requires
            self.wf(),
            self.has_link(link),
        ensures
            r == borrowed_movement(self, link),
            r matches Some(m) ==> self.has_movement(m),
    {
        assert(self.link_ok(link.0 as int));
        let l = self.link(link);
        let mut k: u32 = 0;
        while k < l.lane_count
            invariant
                self.wf(),
                self.has_link(link),
                *l == self.link_at(link),
                self.link_ok(link.0 as int),
                k <= l.lane_count,
                forall|j: int| 0 <= j < k ==> !#[trigger] moves_on(self, link)(j),
            decreases l.lane_count - k,
        {
            let id = LaneId(l.lane_start.0 + k);
            assert(id == nth_lane(self, link, k as int));
            let lane = self.lane(id);
            assert(self.lane_ok(id.0 as int));
            if lane.movement_count > 0 {
                proof {
                    lemma_first_index_is(0, l.lane_count as int, moves_on(self, link), k as int);
                }
                return Some(lane.movement_start);
            }
            k += 1;
        }
        proof {
            lemma_first_index_none(0, l.lane_count as int, moves_on(self, link));
        }
        None
    }

    /// Whether a lane lies inside a junction cluster.
    pub fn junction_internal_lane(&self, lane: LaneId) -> (r: bool)
        requires
            self.wf(),
            self.has_lane(lane),
        ensures
            r == is_internal(self, lane),
    {
        assert(self.lane_ok(lane.0 as int));
        let l = self.link(self.lane(lane).link);
        assert(self.link_ok(self.link_of(lane).0 as int));
        match (self.node(l.from).junction, self.node(l.to).junction) {
            (Some(a), Some(b)) => a == b,
            _ => false,
        }
    }
}

impl NetWorld {
    /// What the path functions need of the world: a sound network and router.
    pub open spec fn guides(&self) -> bool {
        self.network.wf() && (self.router matches Some(r) ==> r.wf(&self.network))
    }

    fn hop_of(&self, v: &NetVehicle, link: LinkId) -> (r: Option<LinkId>)
        requires
            self.guides(),
            self.network.has_link(link),
        ensures
            r == self.field_hop(v, link),
            r matches Some(l) ==> self.network.has_link(l),
    {
        match (v.dest, &self.router) {
            (Some(d), Some(r)) => r.next_hop(d, link, &self.network),
            _ => None,
        }
    }

    /// Of the movements of a lane, the one that lands nearest the destination.
    pub fn forward_movement(&self, v: &NetVehicle, lane: LaneId) -> (r: Option<MovementId>)
        requires
            self.guides(),
            self.network.has_lane(lane),
        ensures
            r == self.nearest_landing(v, lane),
            r matches Some(m) ==> self.network.has_movement(m),
    {
        let net = &self.network;
        assert(net.lane_ok(lane.0 as int));
        let l = net.lane(lane);
        let ghost cost = self.landing_distance(v, lane);
        let mut best: Option<(u128, MovementId)> = None;
        let mut k: u32 = 0;
        proof {
            lemma_least(0, cost);
        }
        while k < l.movement_count
            invariant
                self.guides(),
                *net == self.network,
                net.has_lane(lane),
                net.lane_ok(lane.0 as int),
                *l == net.lane_at(lane),
                cost == self.landing_distance(v, lane),
                k <= l.movement_count,
                match least_index(k as int, cost) {
                    Some(i) => 0 <= i < k && best is Some && (best->0).1 == net.nth_movement(
                        lane,
                        i,
                    ) && cost(i) == Some((best->0).0 as int),
                    None => best is None,
                },
            decreases l.movement_count - k,
        {
            let m = MovementId(l.movement_start.0 + k);
            assert(m == net.nth_movement(lane, k as int));
            assert(net.movement_ok(m.0 as int));
            let to = net.movement(m).to_lane;
            assert(net.lane_ok(to.0 as int));
            let link = net.lane(to).link;
            let d: Option<u128> = match (v.dest, &self.router) {
                (Some(dest), Some(r)) => r.distance(dest, link, net),
                _ => None,
            };
            proof {
                lemma_least_step(k as int, cost);
                assert(cost(k as int) == match d {
                    Some(x) => Some(x as int),
                    None => None,
                });
            }
            if let Some(x) = d {
                let closer = match best {
                    Some((y, _)) => x < y,
                    None => true,
                };
                if closer {
                    best = Some((x, m));
                }
            }
            k += 1;
        }
        match best {
            Some((_, m)) => Some(m),
            None => None,
        }
    }

    fn stopgap_movement(&self, v: &NetVehicle, lane: LaneId) -> (r: Option<MovementId>)
        requires
            self.guides(),
            self.network.has_lane(lane),
        ensures
            r == self.stopgap(v, lane),
            r matches Some(m) ==> self.network.has_movement(m),
    {
        let net = &self.network;
        assert(net.lane_ok(lane.0 as int));
        let near = self.forward_movement(v, lane);
        if near.is_some() {
            return near;
        }
        let l = net.lane(lane);
        if l.movement_count > 0 {
            return Some(l.movement_start);
        }
        net.any_movement_on(l.link)
    }

    /// The movement that the vehicle takes at the end of its lane; nothing when
    /// it has arrived, or when no lane of its link leads on.
    pub fn intended_movement(&self, v: &NetVehicle) -> (r: Option<MovementId>)
        requires
            self.guides(),
            v.placed(&self.network),
        ensures
            r == self.intended(v),
            r matches Some(m) ==> self.network.has_movement(m),
    {
        let net = &self.network;
        assert(net.lane_ok(v.lane.0 as int));
        let link = net.lane(v.lane).link;
        let preferred = if v.dest.is_some() && self.router.is_some() {
            match self.hop_of(v, link) {
                None => {
                    return None;
                },
                Some(next) => net.movement_to(v.lane, next),
            }
        } else if v.route.len() > 0 {
            if v.route_idx >= v.route.len() - 1 {
                return None;
            }
            net.movement_to(v.lane, v.route[v.route_idx + 1])
        } else {
            None
        };
        if preferred.is_some() {
            preferred
        } else {
            self.stopgap_movement(v, v.lane)
        }
    }

    /// The field's movement from a lane further on.
    pub fn intended_movement_from(&self, v: &NetVehicle, lane: LaneId) -> (r: Option<MovementId>)
        requires
            self.guides(),
            self.network.has_lane(lane),
        ensures
            r == self.intended_from(v, lane),
            r matches Some(m) ==> self.network.has_movement(m),
    {
        assert(self.network.lane_ok(lane.0 as int));
        if self.network.lane(lane).movement_count == 0 {
            return None;
        }
        match self.hop_of(v, self.network.lane(lane).link) {
            Some(next) => self.network.movement_to(lane, next),
            None => None,
        }
    }

    fn after_on_route(v: &NetVehicle, link: LinkId) -> (r: Option<LinkId>)
        ensures
            r == Self::route_after(v, link),
            r matches Some(l) ==> v.route@.contains(l),
    {
        let mut k: usize = 0;
        while k < v.route.len()
            invariant
                k <= v.route@.len(),
                forall|j: int| 0 <= j < k ==> !#[trigger] Self::route_has(v, link)(j),
            decreases v.route@.len() - k,
        {
            if v.route[k] == link {
                proof {
                    lemma_first_index_is(
                        0,
                        v.route@.len() as int,
                        Self::route_has(v, link),
                        k as int,
                    );
                }
                return if k + 1 < v.route.len() {
                    Some(v.route[k + 1])
                } else {
                    None
                };
            }
            k += 1;
        }
        proof {
            lemma_first_index_none(0, v.route@.len() as int, Self::route_has(v, link));
        }
        None
    }

    /// The movement that the vehicle will take from a lane further on, with the
    /// same stopgaps as at the line.
    pub fn movement_from_lane_for(&self, v: &NetVehicle, lane: LaneId) -> (r: Option<MovementId>)
        requires
            self.guides(),
            v.placed(&self.network),
            self.network.has_lane(lane),
        ensures
            r == self.onward(v, lane),
            r matches Some(m) ==> self.network.has_movement(m),
    {
        let net = &self.network;
        assert(net.lane_ok(lane.0 as int));
        let routed = if v.dest.is_some() && self.router.is_some() {
            self.intended_movement_from(v, lane)
        } else {
            match Self::after_on_route(v, net.lane(lane).link) {
                Some(next) => net.movement_to(lane, next),
                None => None,
            }
        };
        if routed.is_some() {
            routed
        } else {
            self.stopgap_movement(v, lane)
        }
    }

    fn follow_inside(&self, v: &NetVehicle, lane: LaneId) -> (r: Vec<MovementId>)
        requires
            self.guides(),
            v.placed(&self.network),
            self.network.has_lane(lane),
        ensures
            r@ == self.inner_path(v, lane),
            forall|k: int| 0 <= k < r@.len() ==> self.network.has_movement(#[trigger] r@[k]),
    {
        let mut out: Vec<MovementId> = Vec::new();
        let mut at = lane;
        let mut left: usize = self.network.movements.len();
        while left > 0 && self.network.junction_internal_lane(at)
            invariant
                self.guides(),
                v.placed(&self.network),
                self.network.has_lane(at),
                self.inner_path(v, lane) == self.followed(v, at, out@, left as nat),
                forall|k: int| 0 <= k < out@.len() ==> self.network.has_movement(#[trigger] out@[k]),
            decreases left,
        {
            match self.movement_from_lane_for(v, at) {
                Some(m) if !is_among(&out, m) => {
                    assert(self.network.movement_ok(m.0 as int));
                    out.push(m);
                    at = self.network.movement(m).to_lane;
                },
                _ => {
                    return out;
                },
            }
            left -= 1;
        }
        out
    }

    /// The whole path that entering on `mid` commits the vehicle to: the
    /// movement and every following one inside the junction.
    pub fn path_movements(&self, v: &NetVehicle, mid: MovementId) -> (r: Vec<MovementId>)
        requires
            self.guides(),
            v.placed(&self.network),
            self.network.has_movement(mid),
        ensures
            r@ == self.committed_path(v, mid),
            forall|k: int| 0 <= k < r@.len() ==> self.network.has_movement(#[trigger] r@[k]),
    {
        assert(self.network.movement_ok(mid.0 as int));
        let inner = self.follow_inside(v, self.network.movement(mid).to_lane);
        let mut out: Vec<MovementId> = vec![mid];
        let mut k: usize = 0;
        while k < inner.len()
            invariant
                k <= inner@.len(),
                out@ == seq![mid] + inner@.subrange(0, k as int),
            decreases inner@.len() - k,
        {
            out.push(inner[k]);
            k += 1;
            assert(out@ =~= seq![mid] + inner@.subrange(0, k as int));
        }
        assert(inner@.subrange(0, k as int) =~= inner@);
        assert forall|j: int| 0 <= j < out@.len() implies self.network.has_movement(
            #[trigger] out@[j],
        ) by {
            if j > 0 {
                assert(out@[j] == inner@[j - 1]);
            }
        }
        out
    }

    /// Whether the vehicle's committed path comes to `goal`.
    pub fn approach_reaches(&self, v: &NetVehicle, goal: MovementId) -> (r: bool)
        requires
            self.guides(),
            v.placed(&self.network),
        ensures
            r == self.will_reach(v, goal),
    {
        match self.intended_movement(v) {
            None => false,
            Some(first) => {
                let path = self.path_movements(v, first);
                let mut k: usize = 0;
                while k < path.len()
                    invariant
                        k <= path@.len(),
                        self.intended(v) == Some(first),
                        path@ == self.committed_path(v, first),
                        forall|j: int| 0 <= j < k ==> path@[j] != goal,
                    decreases path@.len() - k,
                {
                    if path[k] == goal {
                        assert(path@[k as int] == goal);
                        return true;
                    }
                    k += 1;
                }
                false
            },
        }
    }
}

/// A vehicle is left without a movement only where its path ends or where no
/// lane of its link leads anywhere: a wrong lane alone never strands it.
pub proof fn only_arrival_or_a_dead_end_leaves_no_movement(w: &NetWorld, v: &NetVehicle)
    requires
        w.guides(),
        v.placed(&w.network),
    ensures
        w.intended(v) is None <==> w.arrived(v) || forall|l: LaneId|
            w.network.has_lane(l) && w.network.link_of(l) == w.network.link_of(v.lane)
                ==> (#[trigger] w.network.lane_at(l)).movement_count == 0,
{
    let net = &w.network;
    assert(net.lane_ok(v.lane.0 as int));
    let link = net.link_of(v.lane);
    assert(net.link_ok(link.0 as int));
    let n = net.link_at(link).lane_count as int;
    lemma_first_index(0, n, moves_on(net, link));
    let count = net.lane_at(v.lane).movement_count as int;
    lemma_least(count, w.landing_distance(v, v.lane));
    if borrowed_movement(net, link) is Some {
        let k = first_index(0, n, moves_on(net, link))->0;
        let l = nth_lane(net, link, k);
        assert(net.lane_at(l).movement_count > 0);
        assert(net.link_of(l) == link);
    } else {
        assert forall|l: LaneId| net.has_lane(l) && net.link_of(l) == link implies (
        #[trigger] net.lane_at(l)).movement_count == 0 by {
            assert(net.lane_ok(l.0 as int));
            let k = net.lane_at(l).index_in_link as int;
            assert(nth_lane(net, link, k) == l);
            assert(!moves_on(net, link)(k));
        }
    }
    if count == 0 {
        assert(w.nearest_landing(v, v.lane) is None);
    } else {
        assert(first_movement(net, v.lane) is Some);
    }
    lemma_first_index(0, count, lands_on(net, v.lane, w.field_hop(v, link)->0));
    if v.route@.len() > 0 {
        lemma_first_index(0, count, lands_on(net, v.lane, v.route@[v.route_idx + 1]));
    }
}

fn is_among(list: &Vec<MovementId>, m: MovementId) -> (r: bool)
    ensures
        r == list@.contains(m),
{
    let mut k: usize = 0;
    while k < list.len()
        invariant
            k <= list@.len(),
            forall|j: int| 0 <= j < k ==> #[trigger] list@[j] != m,
        decreases list@.len() - k,
    {
        if list[k] == m {
            assert(list@[k as int] == m);
            return true;
        }
        k += 1;
    }
    false
}

/// The movement ends the path: it lands outside the junction, or nothing leads on,
/// or what follows was taken before.
pub open spec fn ends_path(w: &NetWorld, v: &NetVehicle, taken: Seq<MovementId>, lane: LaneId) -> bool {
    !is_internal(&w.network, lane) || match w.onward(v, lane) {
        Some(m) => taken.contains(m),
        None => true,
    }
}

proof fn lemma_all_taken(net: &Network, taken: Seq<MovementId>, m: MovementId)
    requires
        taken.no_duplicates(),
        forall|k: int| 0 <= k < taken.len() ==> net.has_movement(#[trigger] taken[k]),
        taken.len() >= net.movements@.len(),
        net.has_movement(m),
    ensures
        taken.contains(m),
{
    let ids = taken.map_values(|x: MovementId| x.0 as int);
    assert forall|i: int, j: int| 0 <= i < ids.len() && 0 <= j < ids.len() && i != j implies ids[i]
        != ids[j] by {
        assert(taken[i] != taken[j]);
    }
    ids.unique_seq_to_set();
    let all = vstd::set_lib::set_int_range(0, net.movements@.len() as int);
    vstd::set_lib::lemma_int_range(0, net.movements@.len() as int);
    assert forall|x: int| ids.to_set().contains(x) implies all.contains(x) by {
        let k = choose|k: int| 0 <= k < ids.len() && ids[k] == x;
        assert(net.has_movement(taken[k]));
    }
    vstd::set_lib::lemma_len_subset(ids.to_set(), all);
    vstd::set_lib::lemma_subset_equality(ids.to_set(), all);
    assert(all.contains(m.0 as int));
    let k = choose|k: int| 0 <= k < ids.len() && ids[k] == m.0 as int;
    assert(taken[k] == m);
}

/// What leads on from a lane is a movement of the network.
proof fn lemma_onward(w: &NetWorld, v: &NetVehicle, lane: LaneId)
    requires
        w.guides(),
        w.network.has_lane(lane),
    ensures
        w.onward(v, lane) matches Some(m) ==> w.network.has_movement(m),
{
    let net = &w.network;
    assert(net.lane_ok(lane.0 as int));
    let n = net.lane_at(lane).movement_count as int;
    lemma_least(n, w.landing_distance(v, lane));
    let link = net.link_of(lane);
    if w.field_hop(v, link) is Some {
        lemma_first_index(0, n, lands_on(net, lane, w.field_hop(v, link)->0));
    }
    if NetWorld::route_after(v, link) is Some {
        lemma_first_index(0, n, lands_on(net, lane, NetWorld::route_after(v, link)->0));
    }
    assert(net.link_ok(link.0 as int));
    lemma_first_index(0, net.link_at(link).lane_count as int, moves_on(net, link));
    match first_index(0, net.link_at(link).lane_count as int, moves_on(net, link)) {
        Some(k) => {
            assert(net.lane_ok(nth_lane(net, link, k).0 as int));
        },
        None => {},
    }
}

proof fn lemma_followed(w: &NetWorld, v: &NetVehicle, lane: LaneId, taken: Seq<MovementId>, n: nat)
    requires
        w.guides(),
        v.placed(&w.network),
        w.network.has_lane(lane),
        taken.no_duplicates(),
        forall|k: int| 0 <= k < taken.len() ==> w.network.has_movement(#[trigger] taken[k]),
        taken.len() + n == w.network.movements@.len(),
    ensures
        ({
            let p = w.followed(v, lane, taken, n);
            &&& taken.len() <= p.len()
            &&& p.no_duplicates()
            &&& p.take(taken.len() as int) == taken
            &&& ends_path(w, v, p, if p.len() == taken.len() {
                lane
            } else {
                w.network.landing(p.last())
            })
        }),
    decreases n,
{
    let p = w.followed(v, lane, taken, n);
    if is_internal(&w.network, lane) && w.onward(v, lane) is Some {
        let m = w.onward(v, lane)->0;
        lemma_onward(w, v, lane);
        if n == 0 {
            lemma_all_taken(&w.network, taken, m);
        } else if !taken.contains(m) {
            assert(w.network.movement_ok(m.0 as int));
            let more = taken.push(m);
            lemma_followed(w, v, w.network.landing(m), more, (n - 1) as nat);
            assert(p.take(more.len() as int).take(taken.len() as int) =~= p.take(taken.len() as int));
            assert(more.take(taken.len() as int) =~= taken);
            if p.len() == more.len() {
                assert(p.take(more.len() as int) =~= p);
                assert(p.last() == m);
            }
        }
    }
    assert(taken.take(taken.len() as int) =~= taken);
}

/// The path that a vehicle commits to is whole: it goes on until it lands outside
/// the junction, until nothing leads on, or until it comes to a movement for the
/// second time; and inside the junction it takes none twice.
pub proof fn a_committed_path_is_whole(w: &NetWorld, v: &NetVehicle, m: MovementId)
    requires
        w.guides(),
        v.placed(&w.network),
        w.network.has_movement(m),
    ensures
        w.inner_path(v, w.network.landing(m)).no_duplicates(),
        ends_path(
            w,
            v,
            w.inner_path(v, w.network.landing(m)),
            w.network.landing(w.committed_path(v, m).last()),
        ),
{
    assert(w.network.movement_ok(m.0 as int));
    let lane = w.network.landing(m);
    let inner = w.inner_path(v, lane);
    lemma_followed(w, v, lane, Seq::empty(), w.network.movements@.len());
    if inner.len() > 0 {
        assert(w.committed_path(v, m).last() == inner.last());
    }
}

} // verus!
