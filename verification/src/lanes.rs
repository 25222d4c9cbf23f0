//! Lane choice: which lane serves the path ahead and how deep, where a vehicle
//! may move to, what makes the move mandatory, and how a move is applied.

use vstd::prelude::*;
use crate::fleet::{LaneChange, NetVehicle, Sample};
use crate::groups::GroupMap;
use crate::network::{LaneId, LinkId, MovementId, Network};
use crate::neighbors::{keys_of, positions};
use crate::paths::{movement_onto, nth_lane, LANE_ROUTE_DEPTH};
use crate::quantity::{place, Quantity, ZERO};
use crate::search::{first_index, last_index, indices_where, least_index, lemma_first_index_is, lemma_first_index_none, lemma_indices, lemma_least, lemma_least_step};
use crate::sorting::{by_key, is_rising, within};
use crate::world::NetWorld;

verus! {

/// Below this speed a vehicle counts as parked. Place of 0.02 m/s.
pub const SLEEP_SPEED_EPS: i64 = 0x3F94_7AE1_47AE_147B;

/// Ticks between two looks of a sleeping vehicle for a better lane.
pub const SLEEPER_LC_PERIOD: u64 = 5;

/// How deep the first `n` movements of a lane can follow the hops by landings alone.
pub open spec fn depth_upto(net: &Network, lane: LaneId, hops: Seq<LinkId>, n: nat) -> nat
    decreases hops.len(), n,
{
    if hops.len() == 0 || n == 0 {
        0
    } else {
        let rest = depth_upto(net, lane, hops, (n - 1) as nat);
        let m = net.nth_movement(lane, n - 1);
        if net.landing_link(m) == hops[0] {
            let to = net.landing(m);
            let deep = 1 + depth_upto(
                net,
                to,
                hops.drop_first(),
                net.lane_at(to).movement_count as nat,
            );
            if deep > rest {
                deep
            } else {
                rest
            }
        } else {
            rest
        }
    }
}

/// How many of the hops a vehicle in the lane can follow without changing lanes.
pub open spec fn chain_depth(net: &Network, lane: LaneId, hops: Seq<LinkId>) -> nat {
    depth_upto(net, lane, hops, net.lane_at(lane).movement_count as nat)
}

/// The movements lead from the lane along the hops, each from the lane that the
/// one before lands on.
pub open spec fn follows(net: &Network, lane: LaneId, s: Seq<MovementId>, hops: Seq<LinkId>) -> bool
    decreases s.len(),
{
    s.len() == 0 || (s.len() <= hops.len() && net.leaves(s[0], lane) && net.landing_link(s[0]) == hops[0]
        && follows(net, net.landing(s[0]), s.drop_first(), hops.drop_first()))
}

/// The greatest depth among the first `n` lanes of a link.
pub open spec fn best_depth(net: &Network, link: LinkId, hops: Seq<LinkId>, n: int) -> nat
    decreases n,
{
    if n <= 0 {
        0
    } else {
        let rest = best_depth(net, link, hops, n - 1);
        let d = chain_depth(net, nth_lane(net, link, n - 1), hops);
        if d > rest {
            d
        } else {
            rest
        }
    }
}

pub open spec fn distance_between(a: int, b: int) -> int {
    if a < b {
        b - a
    } else {
        a - b
    }
}

/// Of the lanes of a link: how far from the current one, where its depth is `best`.
pub open spec fn cost_to_serve(
    net: &Network,
    link: LinkId,
    hops: Seq<LinkId>,
    best: nat,
    cur: int,
) -> spec_fn(int) -> Option<int> {
    |k: int|
        if chain_depth(net, nth_lane(net, link, k), hops) == best {
            Some(distance_between(k, cur))
        } else {
            None
        }
}

/// Of the lanes of a link: how far from the current one, where it leads to `next`.
pub open spec fn cost_to_turn(net: &Network, link: LinkId, next: LinkId, cur: int) -> spec_fn(
    int,
) -> Option<int> {
    |k: int|
        if movement_onto(net, nth_lane(net, link, k), next) is Some {
            Some(distance_between(k, cur))
        } else {
            None
        }
}

/// Where a vehicle could move sideways, and whom it would meet there.
#[derive(Clone, Copy, Debug, PartialEq, Eq, Structural)]
pub struct LaneOption {
    pub target: LaneId,
    /// The path demands the move.
    pub mandatory: bool,
    /// The vehicle that would be ahead.
    pub ahead: Option<usize>,
    /// The vehicle that would be behind.
    pub behind: Option<usize>,
    /// Whom that one follows now.
    pub behind_leader: Option<usize>,
}

/// The options to the left and right.
#[derive(Clone, Copy, Debug, PartialEq, Eq, Structural)]
pub struct LaneOptions {
    pub left: Option<LaneOption>,
    pub right: Option<LaneOption>,
}

/// What a driver makes of an option: whether to take it, and the gain.
#[derive(Clone, Copy, Debug, PartialEq, Eq, Structural)]
pub struct LaneScore {
    pub take: bool,
    pub gain: Quantity,
}

/// What a lane decision needs measured: the distance to the node, the distance
/// at which positioning starts at all, and the distance at which it starts for a
/// given number of lanes to cross.
#[derive(Debug)]
pub struct LaneView {
    pub to_node: Quantity,
    pub far_window: Quantity,
    pub windows: Vec<Quantity>,
}

/// The room that a slot leaves to one other vehicle, and what that takes.
#[derive(Clone, Copy, Debug, PartialEq, Eq, Structural)]
pub struct SlotGap {
    pub room: Quantity,
    pub needed: Quantity,
}

impl NetWorld {
    /// The next link on the vehicle's path: where the field leads, and for a
    /// vehicle that no field guides, what its route says.
    pub open spec fn next_on_path(&self, v: &NetVehicle) -> Option<LinkId> {
        if self.field_routed(v) {
            self.field_hop(v, self.network.link_of(v.lane))
        } else if v.route_idx + 1 < v.route@.len() {
            Some(v.route@[v.route_idx + 1])
        } else {
            None
        }
    }

    /// Up to `n` links that the field leads to after `link`.
    pub open spec fn field_chain(&self, v: &NetVehicle, link: LinkId, n: nat) -> Seq<LinkId>
        decreases n,
    {
        if n == 0 {
            Seq::empty()
        } else {
            match self.field_hop(v, link) {
                Some(l) => seq![l] + self.field_chain(v, l, (n - 1) as nat),
                None => Seq::empty(),
            }
        }
    }

    /// The next links on the path, at most [`LANE_ROUTE_DEPTH`], starting with `next`.
    pub open spec fn hops_from(&self, v: &NetVehicle, next: LinkId) -> Seq<LinkId> {
        seq![next] + if !self.field_routed(v) {
            let lo = if v.route_idx + 2 < v.route@.len() {
                v.route_idx + 2
            } else {
                v.route@.len() as int
            };
            let hi = if v.route_idx + 1 + LANE_ROUTE_DEPTH < v.route@.len() {
                v.route_idx + 1 + LANE_ROUTE_DEPTH
            } else {
                v.route@.len() as int
            };
            v.route@.subrange(lo, hi)
        } else {
            self.field_chain(v, next, (LANE_ROUTE_DEPTH - 1) as nat)
        }
    }

    /// Whether the lane leads to the next link on the path; nothing without one.
    pub open spec fn serves(&self, v: &NetVehicle, lane: LaneId) -> Option<bool> {
        match self.next_on_path(v) {
            Some(next) => Some(movement_onto(&self.network, lane, next) is Some),
            None => None,
        }
    }

    /// How many lanes over, right positive, the nearest lane lies that follows
    /// the path deepest; nothing when no lane of the link leads to the next one.
    pub open spec fn lanes_over(&self, v: &NetVehicle) -> Option<int> {
        match self.next_on_path(v) {
            Some(next) => {
                let net = &self.network;
                let link = net.link_of(v.lane);
                let cur = net.lane_at(v.lane).index_in_link as int;
                let n = net.link_at(link).lane_count as int;
                let hops = self.hops_from(v, next);
                let best = best_depth(net, link, hops, n);
                if best == 0 {
                    None
                } else {
                    match least_index(n, cost_to_serve(net, link, hops, best, cur)) {
                        Some(k) => Some(k - cur),
                        None => None,
                    }
                }
            },
            None => None,
        }
    }

    /// The side a vehicle signals to: towards the nearest lane that leads to its
    /// next link, when its own does not.
    pub open spec fn signals_side(&self, v: &NetVehicle) -> int {
        if v.crossing is Some || self.serves(v, v.lane) != Some(false) {
            0
        } else {
            let net = &self.network;
            let link = net.link_of(v.lane);
            let cur = net.lane_at(v.lane).index_in_link as int;
            match least_index(
                net.link_at(link).lane_count as int,
                cost_to_turn(net, link, self.next_on_path(v)->0, cur),
            ) {
                Some(k) => if k < cur {
                    -1int
                } else if k > cur {
                    1
                } else {
                    0
                },
                None => 0,
            }
        }
    }

    /// The current lane does not serve the path but the target does.
    pub open spec fn must_change(&self, v: &NetVehicle, target: LaneId) -> bool {
        self.serves(v, v.lane) == Some(false) && self.serves(v, target) == Some(true)
    }
}

proof fn lemma_depth_bound(net: &Network, lane: LaneId, hops: Seq<LinkId>, n: nat)
    ensures
        depth_upto(net, lane, hops, n) <= hops.len(),
    decreases hops.len(), n,
{
    if hops.len() > 0 && n > 0 {
        lemma_depth_bound(net, lane, hops, (n - 1) as nat);
        let to = net.landing(net.nth_movement(lane, n - 1));
        lemma_depth_bound(net, to, hops.drop_first(), net.lane_at(to).movement_count as nat);
    }
}

/// A longest chain of landings exists.
proof fn lemma_depth_witness(net: &Network, lane: LaneId, hops: Seq<LinkId>, n: nat) -> (s: Seq<
    MovementId,
>)
    requires
        net.wf(),
        net.has_lane(lane),
        n <= net.lane_at(lane).movement_count,
    ensures
        follows(net, lane, s, hops),
        s.len() == depth_upto(net, lane, hops, n),
    decreases hops.len(), n,
{
    if hops.len() == 0 || n == 0 {
        Seq::empty()
    } else {
        assert(net.lane_ok(lane.0 as int));
        let rest = lemma_depth_witness(net, lane, hops, (n - 1) as nat);
        let m = net.nth_movement(lane, n - 1);
        assert(net.movement_ok(m.0 as int));
        let to = net.landing(m);
        if net.landing_link(m) == hops[0] && 1 + chain_depth(net, to, hops.drop_first())
            > depth_upto(net, lane, hops, (n - 1) as nat) {
            let tail = lemma_depth_witness(
                net,
                to,
                hops.drop_first(),
                net.lane_at(to).movement_count as nat,
            );
            let s = seq![m] + tail;
            assert(s.drop_first() =~= tail);
            lemma_depth_bound(
                net,
                to,
                hops.drop_first(),
                net.lane_at(to).movement_count as nat,
            );
            s
        } else {
            rest
        }
    }
}

/// No chain of landings is longer.
proof fn lemma_depth_max(net: &Network, lane: LaneId, hops: Seq<LinkId>, n: nat, s: Seq<MovementId>)
    requires
        net.wf(),
        net.has_lane(lane),
        n <= net.lane_at(lane).movement_count,
        follows(net, lane, s, hops),
        s.len() > 0 ==> s[0].0 < net.lane_at(lane).movement_start.0 + n,
    ensures
        s.len() <= depth_upto(net, lane, hops, n),
    decreases hops.len(), n,
{
    if s.len() > 0 {
        assert(net.lane_ok(lane.0 as int));
        let m = net.nth_movement(lane, n - 1);
        assert(net.movement_ok(m.0 as int));
        if s[0] == m {
            let to = net.landing(m);
            let tail = s.drop_first();
            assert(net.lane_ok(to.0 as int));
            assert(follows(net, to, tail, hops.drop_first()));
            assert(tail.len() > 0 ==> net.leaves(tail[0], to)) by {
                reveal_with_fuel(follows, 2);
            }
            lemma_depth_max(
                net,
                to,
                hops.drop_first(),
                net.lane_at(to).movement_count as nat,
                tail,
            );
        } else {
            lemma_depth_max(net, lane, hops, (n - 1) as nat, s);
        }
    }
}

/// A lane's depth is the length of the longest chain of movements that follows
/// the hops from it by landings alone.
pub proof fn depth_is_the_longest_chain(
    net: &Network,
    lane: LaneId,
    hops: Seq<LinkId>,
    s: Seq<MovementId>,
)
    requires
        net.wf(),
        net.has_lane(lane),
    ensures
        follows(net, lane, s, hops) ==> s.len() <= chain_depth(net, lane, hops),
        exists|t: Seq<MovementId>|
            t.len() == chain_depth(net, lane, hops) && #[trigger] follows(net, lane, t, hops),
{
    let n = net.lane_at(lane).movement_count as nat;
    if follows(net, lane, s, hops) {
        lemma_depth_max(net, lane, hops, n, s);
    }
    let t = lemma_depth_witness(net, lane, hops, n);
    assert(follows(net, lane, t, hops));
}

proof fn lemma_best_depth(net: &Network, link: LinkId, hops: Seq<LinkId>, n: int)
    requires
        0 <= n,
    ensures
        forall|k: int|
            0 <= k < n ==> #[trigger] chain_depth(net, nth_lane(net, link, k), hops) <= best_depth(
                net,
                link,
                hops,
                n,
            ),
        best_depth(net, link, hops, n) > 0 ==> exists|k: int|
            0 <= k < n && #[trigger] chain_depth(net, nth_lane(net, link, k), hops) == best_depth(
                net,
                link,
                hops,
                n,
            ),
    decreases n,
{
    if n > 0 {
        lemma_best_depth(net, link, hops, n - 1);
        let d = chain_depth(net, nth_lane(net, link, n - 1), hops);
        let rest = best_depth(net, link, hops, n - 1);
        if d > rest {
            assert(chain_depth(net, nth_lane(net, link, n - 1), hops) == best_depth(
                net,
                link,
                hops,
                n,
            ));
        } else if rest > 0 {
            let k = choose|k: int|
                0 <= k < n - 1 && #[trigger] chain_depth(net, nth_lane(net, link, k), hops) == rest;
            assert(chain_depth(net, nth_lane(net, link, k), hops) == best_depth(
                net,
                link,
                hops,
                n,
            ));
        }
    }
}

/// A vehicle that is told to move over is told so towards the nearest lane that
/// follows its path as deep as any lane of its link can.
pub proof fn the_nearest_deepest_lane_is_chosen(w: &NetWorld, v: &NetVehicle, k: int)
    requires
        w.guides(),
        v.placed(&w.network),
        w.next_on_path(v) is Some,
        w.lanes_over(v) is Some,
        0 <= k < w.network.link_at(w.network.link_of(v.lane)).lane_count,
    ensures
        ({
            let net = &w.network;
            let link = net.link_of(v.lane);
            let cur = net.lane_at(v.lane).index_in_link as int;
            let hops = w.hops_from(v, w.next_on_path(v)->0);
            let chosen = cur + w.lanes_over(v)->0;
            &&& 0 <= chosen < net.link_at(link).lane_count
            &&& chain_depth(net, nth_lane(net, link, k), hops) <= chain_depth(
                net,
                nth_lane(net, link, chosen),
                hops,
            )
            &&& chain_depth(net, nth_lane(net, link, k), hops) == chain_depth(
                net,
                nth_lane(net, link, chosen),
                hops,
            ) ==> distance_between(chosen, cur) <= distance_between(k, cur)
        }),
{
    let net = &w.network;
    let link = net.link_of(v.lane);
    let cur = net.lane_at(v.lane).index_in_link as int;
    let hops = w.hops_from(v, w.next_on_path(v)->0);
    let n = net.link_at(link).lane_count as int;
    let best = best_depth(net, link, hops, n);
    let cost = cost_to_serve(net, link, hops, best, cur);
    lemma_best_depth(net, link, hops, n);
    lemma_least(n, cost);
    let chosen = least_index(n, cost)->0;
    assert(cost(chosen) is Some);
    assert(chain_depth(net, nth_lane(net, link, k), hops) <= best);
    if chain_depth(net, nth_lane(net, link, k), hops) == best {
        assert(cost(k) is Some);
    }
}

impl NetWorld {
    /// The next link on the vehicle's path: the field's next hop, or else from its
    /// explicit route.
    pub fn next_link_on_path(&self, v: &NetVehicle) -> (r: Option<LinkId>)
        requires
            self.guides(),
            v.placed(&self.network),
        ensures
            r == self.next_on_path(v),
            r matches Some(l) ==> self.network.has_link(l),
    {
        assert(self.network.lane_ok(v.lane.0 as int));
        match (v.dest, &self.router) {
            (Some(d), Some(r)) => r.next_hop(d, self.network.lane(v.lane).link, &self.network),
            _ => if v.route.len() > 0 && v.route_idx < v.route.len() - 1 {
                Some(v.route[v.route_idx + 1])
            } else {
                None
            },
        }
    }

    /// The next links on the vehicle's path, starting with `next`.
    pub fn path_hops(&self, v: &NetVehicle, next: LinkId) -> (r: Vec<LinkId>)
        requires
            self.guides(),
            v.placed(&self.network),
            self.network.has_link(next),
        ensures
            r@ == self.hops_from(v, next),
            1 <= r@.len() <= LANE_ROUTE_DEPTH,
    {
        let mut hops: Vec<LinkId> = vec![next];
        if v.dest.is_none() || self.router.is_none() {
            let n = v.route.len();
            let lo: usize = if n > 2 && v.route_idx < n - 2 {
                v.route_idx + 2
            } else {
                n
            };
            let mut k: usize = lo;
            while k < n && hops.len() < LANE_ROUTE_DEPTH
                invariant
                    n == v.route@.len(),
                    lo <= k <= n,
                    hops@ == seq![next] + v.route@.subrange(lo as int, k as int),
                    hops@.len() <= LANE_ROUTE_DEPTH,
                decreases n - k,
            {
                hops.push(v.route[k]);
                k += 1;
                assert(hops@ =~= seq![next] + v.route@.subrange(lo as int, k as int));
            }
            assert(hops@ =~= self.hops_from(v, next));
            return hops;
        }
        let mut at = next;
        let mut open: bool = true;
        while open && hops.len() < LANE_ROUTE_DEPTH
            invariant
                self.guides(),
                self.field_routed(v),
                self.network.has_link(at),
                1 <= hops@.len() <= LANE_ROUTE_DEPTH,
                open ==> self.hops_from(v, next) == hops@ + self.field_chain(
                    v,
                    at,
                    (LANE_ROUTE_DEPTH - hops@.len()) as nat,
                ),
                !open ==> self.hops_from(v, next) == hops@,
            decreases LANE_ROUTE_DEPTH - hops@.len() + (if open {
                1int
            } else {
                0int
            }),
        {
            let hop = match (v.dest, &self.router) {
                (Some(d), Some(r)) => r.next_hop(d, at, &self.network),
                _ => None,
            };
            assert(hop == self.field_hop(v, at));
            match hop {
                Some(l) => {
                    assert(hops@ + self.field_chain(
                        v,
                        at,
                        (LANE_ROUTE_DEPTH - hops@.len()) as nat,
                    ) =~= hops@.push(l) + self.field_chain(
                        v,
                        l,
                        (LANE_ROUTE_DEPTH - hops@.len() - 1) as nat,
                    ));
                    hops.push(l);
                    at = l;
                },
                None => {
                    open = false;
                    assert(hops@ + self.field_chain(
                        v,
                        at,
                        (LANE_ROUTE_DEPTH - hops@.len()) as nat,
                    ) =~= hops@);
                },
            }
        }
        if open {
            assert(hops@ + self.field_chain(v, at, 0) =~= hops@);
        }
        hops
    }

    fn depth_from(&self, lane: LaneId, hops: &Vec<LinkId>, from: usize) -> (r: usize)
        requires
            self.network.wf(),
            self.network.has_lane(lane),
            from <= hops@.len(),
        ensures
            r == chain_depth(
                &self.network,
                lane,
                hops@.subrange(from as int, hops@.len() as int),
            ),
            r <= hops@.len() - from,
        decreases hops@.len() - from,
    {
        let net = &self.network;
        let ghost rest = hops@.subrange(from as int, hops@.len() as int);
        if from == hops.len() {
            return 0;
        }
        let hop = hops[from];
        assert(hops.len() <= usize::MAX);
        assert(net.lane_ok(lane.0 as int));
        let l = net.lane(lane);
        let mut best: usize = 0;
        let mut k: u32 = 0;
        while k < l.movement_count
            invariant
                *net == self.network,
                net.wf(),
                net.has_lane(lane),
                net.lane_ok(lane.0 as int),
                *l == net.lane_at(lane),
                from < hops@.len() <= usize::MAX,
                hop == hops@[from as int],
                rest == hops@.subrange(from as int, hops@.len() as int),
                k <= l.movement_count,
                best == depth_upto(net, lane, rest, k as nat),
                best <= hops@.len() - from,
            decreases l.movement_count - k,
        {
            let m = MovementId(l.movement_start.0 + k);
            assert(m == net.nth_movement(lane, k as int));
            assert(net.movement_ok(m.0 as int));
            let to = net.movement(m).to_lane;
            if net.lane(to).link == hop {
                assert(rest.drop_first() =~= hops@.subrange(from + 1, hops@.len() as int));
                let deep = 1 + self.depth_from(to, hops, from + 1);
                if deep > best {
                    best = deep;
                }
            }
            assert(rest[0] == hop);
            k += 1;
        }
        best
    }

    /// How many of the hops a vehicle in the lane can follow without changing lanes.
    pub fn lane_chain_depth(&self, lane: LaneId, hops: &Vec<LinkId>) -> (r: usize)
        requires
            self.network.wf(),
            self.network.has_lane(lane),
        ensures
            r == chain_depth(&self.network, lane, hops@),
            r <= hops@.len(),
    {
        assert(hops@.subrange(0, hops@.len() as int) =~= hops@);
        self.depth_from(lane, hops, 0)
    }

    /// Whether the lane leads to the next link on the path; nothing without one.
    pub fn lane_serves_route(&self, v: &NetVehicle, lane: LaneId) -> (r: Option<bool>)
        requires
            self.guides(),
            v.placed(&self.network),
            self.network.has_lane(lane),
        ensures
            r == self.serves(v, lane),
    {
        match self.next_link_on_path(v) {
            Some(next) => Some(self.network.movement_to(lane, next).is_some()),
            None => None,
        }
    }

    /// Whether the current lane cannot serve the path but `target` can.
    pub fn mandatory_change(&self, v: &NetVehicle, target: LaneId) -> (r: bool)
        requires
            self.guides(),
            v.placed(&self.network),
            self.network.has_lane(target),
        ensures
            r == self.must_change(v, target),
    {
        match (self.lane_serves_route(v, v.lane), self.lane_serves_route(v, target)) {
            (Some(a), Some(b)) => !a && b,
            _ => false,
        }
    }

    /// How many lanes over, right positive, the nearest lane lies that follows
    /// the path deepest.
    pub fn lanes_to_serving(&self, v: &NetVehicle) -> (r: Option<i64>)
        requires
            self.guides(),
            v.placed(&self.network),
        ensures
            match r {
                Some(d) => self.lanes_over(v) == Some(d as int),
                None => self.lanes_over(v) is None,
            },
            r matches Some(d) ==> -(u32::MAX as int) < d < u32::MAX,
    {
        let net = &self.network;
        let next = match self.next_link_on_path(v) {
            Some(next) => next,
            None => {
                return None;
            },
        };
        assert(net.lane_ok(v.lane.0 as int));
        let link_id = net.lane(v.lane).link;
        assert(net.link_ok(link_id.0 as int));
        let link = net.link(link_id);
        let cur = net.lane(v.lane).index_in_link;
        let hops = self.path_hops(v, next);
        let mut depths: Vec<usize> = Vec::new();
        let mut best: usize = 0;
        let mut k: u32 = 0;
        while k < link.lane_count
            invariant
                *net == self.network,
                net.wf(),
                net.has_link(link_id),
                net.link_ok(link_id.0 as int),
                *link == net.link_at(link_id),
                k <= link.lane_count,
                depths@.len() == k,
                forall|j: int|
                    0 <= j < k ==> #[trigger] depths@[j] == chain_depth(
                        net,
                        nth_lane(net, link_id, j),
                        hops@,
                    ),
                best == best_depth(net, link_id, hops@, k as int),
            decreases link.lane_count - k,
        {
            let lane = LaneId(link.lane_start.0 + k);
            assert(lane == nth_lane(net, link_id, k as int));
            let d = self.lane_chain_depth(lane, &hops);
            depths.push(d);
            if d > best {
                best = d;
            }
            k += 1;
        }
        if best == 0 {
            return None;
        }
        let ghost cost = cost_to_serve(net, link_id, hops@, best as nat, cur as int);
        let mut near: Option<u32> = None;
        let mut j: u32 = 0;
        proof {
            lemma_least(0, cost);
        }
        while j < link.lane_count
            invariant
                *net == self.network,
                *link == net.link_at(link_id),
                cost == cost_to_serve(net, link_id, hops@, best as nat, cur as int),
                depths@.len() == link.lane_count,
                forall|x: int|
                    0 <= x < link.lane_count ==> #[trigger] depths@[x] == chain_depth(
                        net,
                        nth_lane(net, link_id, x),
                        hops@,
                    ),
                j <= link.lane_count,
                match least_index(j as int, cost) {
                    Some(i) => near is Some && near->0 == i && i < j && cost(i) == Some(
                        distance_between(i, cur as int),
                    ),
                    None => near is None,
                },
            decreases link.lane_count - j,
        {
            proof {
                lemma_least_step(j as int, cost);
                assert(depths@[j as int] == chain_depth(net, nth_lane(net, link_id, j as int), hops@));
            }
            if depths[j as usize] == best {
                let here: u32 = if j < cur {
                    cur - j
                } else {
                    j - cur
                };
                let nearer = match near {
                    Some(i) => {
                        let there: u32 = if i < cur {
                            cur - i
                        } else {
                            i - cur
                        };
                        here < there
                    },
                    None => true,
                };
                if nearer {
                    near = Some(j);
                }
            }
            j += 1;
        }
        match near {
            Some(i) => Some(i as i64 - cur as i64),
            None => None,
        }
    }

    /// Which way a vehicle signals a lane change: -1 left, 1 right, 0 not at all.
    pub fn vehicle_blinker(&self, v: &NetVehicle) -> (r: i8)
        requires
            self.guides(),
            v.placed(&self.network),
        ensures
            r == self.signals_side(v),
    {
        let net = &self.network;
        if v.crossing.is_some() {
            return 0;
        }
        match self.lane_serves_route(v, v.lane) {
            Some(served) => {
                if served {
                    return 0;
                }
            },
            None => {
                return 0;
            },
        }
        let next = match self.next_link_on_path(v) {
            Some(next) => next,
            None => {
                return 0;
            },
        };
        assert(net.lane_ok(v.lane.0 as int));
        let link_id = net.lane(v.lane).link;
        assert(net.link_ok(link_id.0 as int));
        let link = net.link(link_id);
        let cur = net.lane(v.lane).index_in_link;
        let ghost cost = cost_to_turn(net, link_id, next, cur as int);
        let mut near: Option<u32> = None;
        let mut j: u32 = 0;
        proof {
            lemma_least(0, cost);
        }
        while j < link.lane_count
            invariant
                *net == self.network,
                net.wf(),
                net.has_link(link_id),
                net.link_ok(link_id.0 as int),
                *link == net.link_at(link_id),
                cost == cost_to_turn(net, link_id, next, cur as int),
                j <= link.lane_count,
                match least_index(j as int, cost) {
                    Some(i) => near is Some && near->0 == i && i < j && cost(i) == Some(
                        distance_between(i, cur as int),
                    ),
                    None => near is None,
                },
            decreases link.lane_count - j,
        {
            proof {
                lemma_least_step(j as int, cost);
            }
            let lane = LaneId(link.lane_start.0 + j);
            assert(lane == nth_lane(net, link_id, j as int));
            if net.movement_to(lane, next).is_some() {
                let here: u32 = if j < cur {
                    cur - j
                } else {
                    j - cur
                };
                let nearer = match near {
                    Some(i) => {
                        let there: u32 = if i < cur {
                            cur - i
                        } else {
                            i - cur
                        };
                        here < there
                    },
                    None => true,
                };
                if nearer {
                    near = Some(j);
                }
            }
            j += 1;
        }
        match near {
            Some(i) => if i < cur {
                -1
            } else if i > cur {
                1
            } else {
                0
            },
            None => 0,
        }
    }
}

impl NetWorld {
    /// Of a row: its vehicle rolls on the lane, outside any node.
    pub open spec fn rolls_on(&self, lane: u32) -> spec_fn(int) -> bool {
        |i: int| self.rows()[i].crossing is None && self.rows()[i].lane.0 == lane
    }

    /// The rolling vehicles of a lane, rear to front.
    pub open spec fn rolling_order(&self, lane: u32) -> Seq<usize> {
        indices_where(self.rows().len() as int, self.rolls_on(lane)).sort_by(
            by_key(keys_of(positions(self.rows()))),
        )
    }

    /// These are the world's rolling vehicles by lane.
    pub open spec fn rolling_groups(&self, by_lane: &GroupMap<usize>) -> bool {
        by_lane.wf() && forall|l: u32| #[trigger] by_lane.group(l) == self.rolling_order(l)
    }

    /// Of a place in a list of rows: ahead of the position, and not the excluded one.
    pub open spec fn is_ahead(&self, list: Seq<usize>, pos: Quantity, exclude: usize) -> spec_fn(
        int,
    ) -> bool {
        |k: int| !self.rows()[list[k] as int].position.is_at_most(pos) && list[k] != exclude
    }

    /// Of a place in a list of rows: behind the position, and not the excluded one.
    pub open spec fn is_behind(&self, list: Seq<usize>, pos: Quantity, exclude: usize) -> spec_fn(
        int,
    ) -> bool {
        |k: int| self.rows()[list[k] as int].position.is_below(pos) && list[k] != exclude
    }

    /// The first of the list ahead of the position.
    pub open spec fn first_ahead(&self, list: Seq<usize>, pos: Quantity, exclude: usize) -> Option<
        usize,
    > {
        match first_index(0, list.len() as int, self.is_ahead(list, pos, exclude)) {
            Some(k) => Some(list[k]),
            None => None,
        }
    }

    /// The last of the list behind the position.
    pub open spec fn last_behind(&self, list: Seq<usize>, pos: Quantity, exclude: usize) -> Option<
        usize,
    > {
        match last_index(list.len() as int, self.is_behind(list, pos, exclude)) {
            Some(k) => Some(list[k]),
            None => None,
        }
    }

    /// The lanes that the vehicle has to cross now, if any lane preference binds yet.
    pub open spec fn lane_need(&self, v: &NetVehicle, view: &LaneView) -> Option<int> {
        if !view.to_node.is_below(view.far_window) {
            None
        } else {
            match self.lanes_over(v) {
                Some(d) => if view.to_node.is_below(view.windows@[distance_between(d, 0)]) {
                    Some(d)
                } else {
                    None
                },
                None => None,
            }
        }
    }

    /// Moving there is what the path demands.
    pub open spec fn demanded(&self, v: &NetVehicle, view: &LaneView, side: int, target: LaneId) -> bool {
        match self.lane_need(v, view) {
            Some(d) => (side > 0 && d > 0) || (side < 0 && d < 0),
            None => self.must_change(v, target),
        }
    }

    /// The move would leave a lane that follows the path deeper, near the node.
    pub open spec fn drifts_off(&self, v: &NetVehicle, view: &LaneView, target: LaneId) -> bool {
        view.to_node.is_below(view.far_window) && match self.next_on_path(v) {
            Some(next) => chain_depth(&self.network, target, self.hops_from(v, next))
                < chain_depth(&self.network, v.lane, self.hops_from(v, next)),
            None => false,
        }
    }

    /// The option on one side (-1 left, 1 right): inside the link, allowed to
    /// this vehicle, and not a voluntary drift off its path.
    pub open spec fn option_on(
        &self,
        i: int,
        view: &LaneView,
        hov_ok: bool,
        side: int,
    ) -> Option<LaneOption> {
        let net = &self.network;
        let v = &self.rows()[i];
        let link = net.link_of(v.lane);
        let k = net.lane_at(v.lane).index_in_link + side;
        let target = nth_lane(net, link, k);
        let mandatory = self.demanded(v, view, side, target);
        let list = self.rolling_order(target.0);
        if k < 0 || k >= net.link_at(link).lane_count || (net.lane_at(target).hov && !hov_ok) || (
        !mandatory && self.drifts_off(v, view, target)) {
            None
        } else {
            let behind = self.last_behind(list, v.position, i as usize);
            Some(
                LaneOption {
                    target,
                    mandatory,
                    ahead: self.first_ahead(list, v.position, i as usize),
                    behind,
                    behind_leader: match behind {
                        Some(f) => self.first_ahead(
                            list,
                            self.rows()[f as int].position,
                            i as usize,
                        ),
                        None => None,
                    },
                },
            )
        }
    }

    /// The vehicle looks for a better lane this tick: it is no wreck, not inside
    /// a node, not parked between two looks, and not in a link that queues.
    pub open spec fn looks_sideways(&self, i: int) -> bool {
        let v = self.rows()[i];
        &&& v.wreck is None
        &&& v.crossing is None
        &&& !(v.slept && v.speed.is_below(place(SLEEP_SPEED_EPS)) && self.tick.wrapping_add(
            v.id as u64,
        ) % SLEEPER_LC_PERIOD != 0)
        &&& !(self.congestion_cfg.enabled && self.queue_links@[self.network.link_of(v.lane).0 as int])
    }

    /// Every other vehicle of the target's corridor has the room it takes.
    pub open spec fn slot_is_clear(&self, target: LaneId, exclude: int, gaps: Seq<SlotGap>) -> bool {
        forall|j: int|
            0 <= j < self.rows().len() && j != exclude && self.corridor_of_row(j)
                == self.topology.corridors.of_lane@[target.0 as int] ==> gaps[j].needed.is_below(
                (#[trigger] gaps[j]).room,
            )
    }
}

/// The option that a driver takes: of those worth taking, the greater gain, the
/// left one when it is not exceeded.
pub open spec fn best_option(
    options: LaneOptions,
    left: LaneScore,
    right: LaneScore,
) -> Option<LaneId> {
    let l = options.left is Some && left.take;
    let r = options.right is Some && right.take;
    if l && !(r && left.gain.is_below(right.gain)) {
        Some((options.left->0).target)
    } else if r {
        Some((options.right->0).target)
    } else {
        None
    }
}

impl NetWorld {
    /// The rolling vehicles of every lane, rear to front.
    pub fn lane_groups(&self) -> (r: GroupMap<usize>)
        requires
            self.wf(),
        ensures
            self.rolling_groups(&r),
    {
        let n = self.fleet.rows.len();
        let mut by_lane: GroupMap<usize> = GroupMap::new();
        let mut i: usize = 0;
        while i < n
            invariant
                self.wf(),
                n == self.rows().len(),
                i <= n,
                by_lane.wf(),
                forall|l: u32| #[trigger]
                    by_lane.group(l) == indices_where(i as int, self.rolls_on(l)),
            decreases n - i,
        {
            let v = &self.fleet.rows[i];
            if v.crossing.is_none() {
                by_lane.push(v.lane.0, i);
            }
            i += 1;
        }
        proof {
            assert forall|k: u32| within(#[trigger] by_lane.group(k), n as nat) && is_rising(
                by_lane.group(k),
            ) by {
                lemma_indices(n as int, self.rolls_on(k));
            }
        }
        self.sort_lane_groups(&mut by_lane);
        by_lane
    }

    proof fn lemma_rolling_within(&self, l: u32)
        ensures
            within(self.rolling_order(l), self.rows().len()),
    {
        let n = self.rows().len() as int;
        assert(self.rows().len() == self.fleet.rows.len());
        lemma_indices(n, self.rolls_on(l));
        let raw = indices_where(n, self.rolls_on(l));
        assert(raw.no_duplicates()) by {
            assert forall|a: int, b: int|
                0 <= a < raw.len() && 0 <= b < raw.len() && a != b implies raw[a] != raw[b] by {
                if a < b {
                    assert(raw[a] < raw[b]);
                } else {
                    assert(raw[b] < raw[a]);
                }
            }
        }
        crate::sorting::lemma_sorted_members(raw, keys_of(positions(self.rows())));
        let s = self.rolling_order(l);
        assert forall|k: int| 0 <= k < s.len() implies #[trigger] s[k] < n by {
            assert(s.contains(s[k]));
            assert(raw.contains(s[k]));
            let x = choose|x: int| 0 <= x < raw.len() && raw[x] == s[k];
            assert(0 <= raw[x] < n);
        }
    }

    /// The vehicle of a lane just ahead of a position.
    pub fn nearest_ahead(
        &self,
        lane: LaneId,
        pos: Quantity,
        by_lane: &GroupMap<usize>,
        exclude: usize,
    ) -> (r: Option<usize>)
        requires
            self.rolling_groups(by_lane),
        ensures
            r == self.first_ahead(self.rolling_order(lane.0), pos, exclude),
            r matches Some(j) ==> j < self.rows().len(),
    {
        let ghost list = self.rolling_order(lane.0);
        proof {
            self.lemma_rolling_within(lane.0);
        }
        match by_lane.get(&lane.0) {
            Some(members) => {
                let mut k: usize = 0;
                while k < members.len()
                    invariant
                        members@ == list,
                        list == self.rolling_order(lane.0),
                        within(list, self.rows().len()),
                        k <= list.len(),
                        forall|j: int|
                            0 <= j < k ==> !#[trigger] self.is_ahead(list, pos, exclude)(j),
                    decreases list.len() - k,
                {
                    let j = members[k];
                    if !self.fleet.rows[j].position.at_most(pos) && j != exclude {
                        proof {
                            lemma_first_index_is(
                                0,
                                list.len() as int,
                                self.is_ahead(list, pos, exclude),
                                k as int,
                            );
                        }
                        return Some(j);
                    }
                    k += 1;
                }
                proof {
                    lemma_first_index_none(
                        0,
                        list.len() as int,
                        self.is_ahead(list, pos, exclude),
                    );
                }
                None
            },
            None => None,
        }
    }

    /// The vehicle of a lane just behind a position.
    pub fn nearest_behind(
        &self,
        lane: LaneId,
        pos: Quantity,
        by_lane: &GroupMap<usize>,
        exclude: usize,
    ) -> (r: Option<usize>)
        requires
            self.rolling_groups(by_lane),
        ensures
            r == self.last_behind(self.rolling_order(lane.0), pos, exclude),
            r matches Some(j) ==> j < self.rows().len(),
    {
        let ghost list = self.rolling_order(lane.0);
        proof {
            self.lemma_rolling_within(lane.0);
        }
        match by_lane.get(&lane.0) {
            Some(members) => {
                let mut k: usize = members.len();
                while k > 0
                    invariant
                        members@ == list,
                        list == self.rolling_order(lane.0),
                        within(list, self.rows().len()),
                        k <= list.len(),
                        last_index(list.len() as int, self.is_behind(list, pos, exclude))
                            == last_index(k as int, self.is_behind(list, pos, exclude)),
                    decreases k,
                {
                    let j = members[k - 1];
                    if self.fleet.rows[j].position.below(pos) && j != exclude {
                        return Some(j);
                    }
                    k -= 1;
                }
                None
            },
            None => None,
        }
    }

    /// Whether the vehicle looks for a better lane this tick.
    pub fn considers_lane_change(&self, i: usize) -> (r: bool)
        requires
            self.wf(),
            i < self.rows().len(),
        ensures
            r == self.looks_sideways(i as int),
    {
        let v = &self.fleet.rows[i];
        assert(self.rows()[i as int].placed(&self.network));
        assert(self.network.lane_ok(v.lane.0 as int));
        if v.wreck.is_some() || v.crossing.is_some() {
            return false;
        }
        if v.slept && v.speed.below(Quantity::at(SLEEP_SPEED_EPS)) && self.tick.wrapping_add(
            v.id as u64,
        ) % SLEEPER_LC_PERIOD != 0 {
            return false;
        }
        !(self.congestion_cfg.enabled && self.queue_links[self.network.lane(v.lane).link.0 as usize])
    }

    fn lane_need_of(&self, v: &NetVehicle, view: &LaneView) -> (r: Option<i64>)
        requires
            self.guides(),
            v.placed(&self.network),
            view.windows@.len() >= self.network.link_at(
                self.network.link_of(v.lane),
            ).lane_count,
        ensures
            match r {
                Some(d) => self.lane_need(v, view) == Some(d as int),
                None => self.lane_need(v, view) is None,
            },
    {
        if !view.to_node.below(view.far_window) {
            return None;
        }
        match self.lanes_to_serving(v) {
            Some(d) => {
                proof {
                    the_nearest_deepest_lane_is_chosen(
                        self,
                        v,
                        self.network.lane_at(v.lane).index_in_link as int,
                    );
                    assert(self.network.lane_ok(v.lane.0 as int));
                }
                let far: usize = if d < 0 {
                    (-d) as usize
                } else {
                    d as usize
                };
                if view.to_node.below(view.windows[far]) {
                    Some(d)
                } else {
                    None
                }
            },
            None => None,
        }
    }

    fn lane_option(
        &self,
        i: usize,
        by_lane: &GroupMap<usize>,
        view: &LaneView,
        hov_ok: bool,
        need: Option<i64>,
        right: bool,
    ) -> (r: Option<LaneOption>)
        requires
            self.wf(),
            self.rolling_groups(by_lane),
            i < self.rows().len(),
            match need {
                Some(d) => self.lane_need(&self.rows()[i as int], view) == Some(d as int),
                None => self.lane_need(&self.rows()[i as int], view) is None,
            },
        ensures
            r == self.option_on(
                i as int,
                view,
                hov_ok,
                if right {
                    1
                } else {
                    -1
                },
            ),
    {
        let net = &self.network;
        let v = &self.fleet.rows[i];
        assert(self.rows()[i as int].placed(net));
        assert(net.lane_ok(v.lane.0 as int));
        let lane = net.lane(v.lane);
        let link_id = lane.link;
        let link = net.link(link_id);
        assert(net.link_ok(link_id.0 as int));
        if (right && lane.index_in_link + 1 >= link.lane_count) || (!right && lane.index_in_link
            == 0) {
            return None;
        }
        let k: u32 = if right {
            lane.index_in_link + 1
        } else {
            lane.index_in_link - 1
        };
        let target = LaneId(link.lane_start.0 + k);
        assert(target == nth_lane(net, link_id, k as int));
        if net.lane(target).hov && !hov_ok {
            return None;
        }
        let mandatory = match need {
            Some(d) => if right {
                d > 0
            } else {
                d < 0
            },
            None => self.mandatory_change(v, target),
        };
        if !mandatory && view.to_node.below(view.far_window) {
            if let Some(next) = self.next_link_on_path(v) {
                let hops = self.path_hops(v, next);
                if self.lane_chain_depth(target, &hops) < self.lane_chain_depth(v.lane, &hops) {
                    return None;
                }
            }
        }
        let ahead = self.nearest_ahead(target, v.position, by_lane, i);
        let behind = self.nearest_behind(target, v.position, by_lane, i);
        let behind_leader = match behind {
            Some(f) => self.nearest_ahead(target, self.fleet.rows[f].position, by_lane, i),
            None => None,
        };
        Some(LaneOption { target, mandatory, ahead, behind, behind_leader })
    }

    /// Where the vehicle could move sideways, and whom it would meet there.
    pub fn lane_options(
        &self,
        i: usize,
        by_lane: &GroupMap<usize>,
        view: &LaneView,
        hov_ok: bool,
    ) -> (r: LaneOptions)
        requires
            self.wf(),
            self.rolling_groups(by_lane),
            i < self.rows().len(),
            view.windows@.len() >= self.network.link_at(
                self.network.link_of(self.rows()[i as int].lane),
            ).lane_count,
        ensures
            r.left == self.option_on(i as int, view, hov_ok, -1),
            r.right == self.option_on(i as int, view, hov_ok, 1),
    {
        assert(self.rows()[i as int].placed(&self.network));
        let need = self.lane_need_of(&self.fleet.rows[i], view);
        LaneOptions {
            left: self.lane_option(i, by_lane, view, hov_ok, need, false),
            right: self.lane_option(i, by_lane, view, hov_ok, need, true),
        }
    }

    /// The lane that a driver moves to, having weighed both options.
    pub fn best_lane_change(options: &LaneOptions, left: &LaneScore, right: &LaneScore) -> (r: Option<
        LaneId,
    >)
        ensures
            r == best_option(*options, *left, *right),
    {
        match (options.left, options.right) {
            (Some(l), Some(r)) => {
                if left.take && !(right.take && left.gain.below(right.gain)) {
                    Some(l.target)
                } else if right.take {
                    Some(r.target)
                } else {
                    None
                }
            },
            (Some(l), None) => if left.take {
                Some(l.target)
            } else {
                None
            },
            (None, Some(r)) => if right.take {
                Some(r.target)
            } else {
                None
            },
            (None, None) => None,
        }
    }

    /// Whether a slot in the target lane is clear of every other vehicle of its
    /// corridor.
    pub fn lane_slot_clear(&self, target: LaneId, gaps: &Vec<SlotGap>, exclude: usize) -> (r: bool)
        requires
            self.wf(),
            self.network.has_lane(target),
            gaps@.len() == self.rows().len(),
        ensures
            r == self.slot_is_clear(target, exclude as int, gaps@),
    {
        let corridor = self.topology.corridors.of_lane[target.0 as usize];
        let mut j: usize = 0;
        while j < self.fleet.rows.len()
            invariant
                self.wf(),
                gaps@.len() == self.rows().len(),
                j <= self.rows().len(),
                corridor == self.topology.corridors.of_lane@[target.0 as int],
                forall|x: int|
                    0 <= x < j && x != exclude && self.corridor_of_row(x) == corridor
                        ==> gaps@[x].needed.is_below((#[trigger] gaps@[x]).room),
            decreases self.rows().len() - j,
        {
            assert(self.rows()[j as int].placed(&self.network));
            if j != exclude && self.topology.corridors.of_lane[self.fleet.rows[j].lane.0 as usize]
                == corridor && !gaps[j].needed.below(gaps[j].room) {
                assert(!gaps@[j as int].needed.is_below(gaps@[j as int].room));
                return false;
            }
            j += 1;
        }
        true
    }

    /// The measured position lies on the target lane and the slot there is clear.
    pub open spec fn may_slide(&self, i: int, target: LaneId, new_pos: Quantity, gaps: Seq<SlotGap>) -> bool {
        !new_pos.is_below(place(ZERO)) && !self.network.lane_at(target).length.is_below(new_pos)
            && self.slot_is_clear(target, i, gaps)
    }

    /// What a lane change makes of the world: the vehicle is on the target lane,
    /// at the start of its sideways move and of a new history, and nothing else
    /// has changed; or nothing has, where it may not slide.
    pub open spec fn slides_to(
        &self,
        after: &NetWorld,
        i: int,
        target: LaneId,
        new_pos: Quantity,
        gaps: Seq<SlotGap>,
    ) -> bool {
        if !self.may_slide(i, target, new_pos, gaps) {
            *after == *self
        } else {
            &&& *after == (NetWorld { fleet: after.fleet, ..*self })
            &&& after.rows().len() == self.rows().len()
            &&& after.rows()[i] == (NetVehicle {
                lane: target,
                position: new_pos,
                lane_change: Some(
                    LaneChange { from: self.rows()[i].lane, progress: place(ZERO) },
                ),
                ..self.rows()[i]
            })
            &&& after.fleet.samples(i) == seq![
                Sample { position: new_pos, speed: self.rows()[i].speed },
            ]
            &&& forall|j: int|
                0 <= j < self.rows().len() && j != i ==> #[trigger] after.rows()[j]
                    == self.rows()[j] && after.fleet.samples(j) == self.fleet.samples(j)
        }
    }

    /// Move a vehicle to another lane, at the measured position there,
    /// when that lies on the lane and the slot is clear. The vehicle starts its
    /// sideways move and its history begins anew. Says whether it moved.
    pub fn apply_lane_change(
        &mut self,
        i: usize,
        target: LaneId,
        new_pos: Quantity,
        gaps: &Vec<SlotGap>,
    ) -> (r: bool)
        requires
            old(self).wf(),
            i < old(self).rows().len(),
            old(self).network.has_lane(target),
            gaps@.len() == old(self).rows().len(),
        ensures
            final(self).wf(),
            r == old(self).may_slide(i as int, target, new_pos, gaps@),
            old(self).slides_to(final(self), i as int, target, new_pos, gaps@),
    {
        if new_pos.below(Quantity::at(ZERO)) || self.network.lane(target).length.below(new_pos) {
            return false;
        }
        if !self.lane_slot_clear(target, gaps, i) {
            return false;
        }
        assert(self.rows()[i as int].placed(&self.network));
        let from = self.fleet.rows[i].lane;
        let speed = self.fleet.rows[i].speed;
        self.fleet.rows[i].lane = target;
        self.fleet.rows[i].position = new_pos;
        self.fleet.rows[i].lane_change = Some(LaneChange { from, progress: Quantity::at(ZERO) });
        let ghost moved = self.fleet;
        assert(moved.wf());
        assert forall|j: int| 0 <= j < moved.rows@.len() implies #[trigger] moved.samples(j) == old(
            self,
        ).fleet.samples(j) by {}
        self.fleet.reset_history(i, Sample { position: new_pos, speed });
        assert forall|j: int| 0 <= j < self.rows().len() implies (
        #[trigger] self.fleet.rows@[j]).placed(&self.network) by {
            assert(old(self).rows()[j].placed(&self.network));
        }
        true
    }
}

/// The lane changes of a tick, one after the other: the world before each and
/// after the last, and what was measured for each.
pub struct Slides {
    pub worlds: Seq<NetWorld>,
    pub at: Seq<SlideView>,
}

/// What is measured of a vehicle that is about to change lanes.
pub struct SlideView {
    /// Where it would be on the target lane.
    pub new_pos: Quantity,
    /// Per vehicle, the room that the slot leaves it.
    pub gaps: Vec<SlotGap>,
}

impl NetWorld {
    /// The first `n` of the moves have been made in order.
    pub open spec fn slides_made(moves: Seq<(usize, LaneId)>, s: Slides, n: int) -> bool {
        &&& s.worlds.len() == n + 1
        &&& s.at.len() == n
        &&& forall|k: int|
            0 <= k < n ==> s.worlds[k].slides_to(
                &s.worlds[k + 1],
                moves[k].0 as int,
                moves[k].1,
                (#[trigger] s.at[k]).new_pos,
                s.at[k].gaps@,
            )
    }

    /// Make the lane changes that were decided on, one after the other. What is
    /// measured of each is asked for when it comes to it, of the world as it then
    /// is, so that no two vehicles are cleared into the same gap.
    pub fn apply_lane_changes<F: Fn(&NetWorld, usize, LaneId) -> SlideView>(
        &mut self,
        moves: &Vec<(usize, LaneId)>,
        measure: F,
    )
        requires
            old(self).wf(),
            forall|k: int|
                0 <= k < moves@.len() ==> (#[trigger] moves@[k]).0 < old(self).rows().len()
                    && old(self).network.has_lane(moves@[k].1),
            forall|w: &NetWorld, i: usize, l: LaneId|
                w.wf() && w.rows().len() == old(self).rows().len() && i < w.rows().len()
                    ==> #[trigger] call_requires(measure, (w, i, l)),
            forall|w: &NetWorld, i: usize, l: LaneId, g: SlideView| #[trigger]
                call_ensures(measure, (w, i, l), g) ==> g.gaps@.len() == w.rows().len(),
        ensures
            final(self).wf(),
            *final(self) == (NetWorld { fleet: final(self).fleet, ..*old(self) }),
            final(self).rows().len() == old(self).rows().len(),
            exists|s: Slides| #[trigger]
                Self::slides_made(moves@, s, moves@.len() as int) && s.worlds[0] == *old(self)
                    && s.worlds[moves@.len() as int] == *final(self) && forall|k: int|
                    0 <= k < moves@.len() ==> call_ensures(
                        measure,
                        (&s.worlds[k], moves@[k].0, moves@[k].1),
                        #[trigger] s.at[k],
                    ),
    {
        let ghost mut s = Slides { worlds: seq![*self], at: Seq::empty() };
        let n = moves.len();
        let mut k: usize = 0;
        while k < n
            invariant
                n == moves@.len(),
                k <= n,
                self.wf(),
                *self == (NetWorld { fleet: self.fleet, ..*old(self) }),
                self.rows().len() == old(self).rows().len(),
                forall|j: int|
                    0 <= j < n ==> (#[trigger] moves@[j]).0 < old(self).rows().len() && old(
                        self,
                    ).network.has_lane(moves@[j].1),
                forall|w: &NetWorld, i: usize, l: LaneId|
                    w.wf() && w.rows().len() == old(self).rows().len() && i < w.rows().len()
                        ==> #[trigger] call_requires(measure, (w, i, l)),
                forall|w: &NetWorld, i: usize, l: LaneId, g: SlideView| #[trigger]
                    call_ensures(measure, (w, i, l), g) ==> g.gaps@.len() == w.rows().len(),
                Self::slides_made(moves@, s, k as int),
                s.worlds[0] == *old(self),
                s.worlds[k as int] == *self,
                forall|j: int|
                    0 <= j < k ==> call_ensures(
                        measure,
                        (&s.worlds[j], moves@[j].0, moves@[j].1),
                        #[trigger] s.at[j],
                    ),
            decreases n - k,
        {
            let (i, target) = moves[k];
            assert(moves@[k as int].0 < old(self).rows().len());
            let g = measure(self, i, target);
            let ghost s0 = s;
            self.apply_lane_change(i, target, g.new_pos, &g.gaps);
            proof {
                s = Slides { worlds: s.worlds.push(*self), at: s.at.push(g) };
                assert forall|j: int| 0 <= j < k + 1 implies s.worlds[j].slides_to(
                    &s.worlds[j + 1],
                    moves@[j].0 as int,
                    moves@[j].1,
                    (#[trigger] s.at[j]).new_pos,
                    s.at[j].gaps@,
                ) by {
                    if j < k {
                        assert(s.at[j] == s0.at[j]);
                    }
                }
                assert forall|j: int| 0 <= j < k + 1 implies call_ensures(
                    measure,
                    (&s.worlds[j], moves@[j].0, moves@[j].1),
                    #[trigger] s.at[j],
                ) by {
                    if j < k {
                        assert(s.at[j] == s0.at[j]);
                    }
                }
            }
            k += 1;
        }
    }
}

/// A lane reserved for carpools is only ever offered to a vehicle that may use it.
pub proof fn reserved_lanes_are_only_offered_to_the_eligible(
    w: &NetWorld,
    i: int,
    view: &LaneView,
    hov_ok: bool,
    side: int,
)
    requires
        w.wf(),
        0 <= i < w.rows().len(),
        side == -1 || side == 1,
        w.option_on(i, view, hov_ok, side) is Some,
    ensures
        w.network.lane_at((w.option_on(i, view, hov_ok, side)->0).target).hov ==> hov_ok,
        w.network.link_of((w.option_on(i, view, hov_ok, side)->0).target) == w.network.link_of(
            w.rows()[i].lane,
        ),
{
    let net = &w.network;
    assert(w.rows()[i].placed(net));
    assert(net.lane_ok(w.rows()[i].lane.0 as int));
    assert(net.link_ok(net.link_of(w.rows()[i].lane).0 as int));
    let target = (w.option_on(i, view, hov_ok, side)->0).target;
    assert(net.lanes@[target.0 as int].link == net.link_of(w.rows()[i].lane));
}

/// A destination supersedes a route: where a field guides a vehicle, its path does
/// not depend on the route it has.
pub proof fn a_destination_supersedes_the_route(
    w: &NetWorld,
    v: &NetVehicle,
    u: &NetVehicle,
    lane: LaneId,
    next: LinkId,
)
    requires
        w.field_routed(v),
        *u == (NetVehicle { route: u.route, route_idx: u.route_idx, ..*v }),
    ensures
        w.intended(u) == w.intended(v),
        w.onward(u, lane) == w.onward(v, lane),
        w.next_on_path(u) == w.next_on_path(v),
        w.hops_from(u, next) == w.hops_from(v, next),
{
    assert(w.landing_distance(u, v.lane) =~= w.landing_distance(v, v.lane));
    assert(w.landing_distance(u, lane) =~= w.landing_distance(v, lane));
    lemma_chain_without_route(w, v, u, next, (LANE_ROUTE_DEPTH - 1) as nat);
}

proof fn lemma_chain_without_route(w: &NetWorld, v: &NetVehicle, u: &NetVehicle, link: LinkId, n: nat)
    requires
        u.dest == v.dest,
    ensures
        w.field_chain(u, link, n) == w.field_chain(v, link, n),
    decreases n,
{
    if n > 0 && w.field_hop(v, link) is Some {
        lemma_chain_without_route(w, v, u, w.field_hop(v, link)->0, (n - 1) as nat);
    }
}

} // verus!
