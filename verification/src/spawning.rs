//! Vehicles coming onto the network: which lane they enter on, how fast, and
//! when they are refused.

use vstd::prelude::*;
use crate::fleet::{DriverConfig, NetVehicle, Sample};
use crate::network::{LaneId, LinkId, MovementId};
use crate::paths::{movement_onto, nth_lane};
use crate::quantity::{place, Quantity, ZERO};
use crate::search::{first_index, least_index, lemma_first_index, lemma_first_index_is, lemma_first_index_none, lemma_least, lemma_least_step};
use crate::world::NetWorld;

verus! {

/// A pose: `x`, `y` and heading.
pub type Pose = [Quantity; 3];

/// What is measured of a link's entrance.
#[derive(Debug)]
pub struct EntryView {
    /// Per vehicle: where its rear is on its lane.
    pub rears: Vec<Quantity>,
    /// The entering vehicle may use reserved lanes.
    pub hov_ok: bool,
    /// Per lane of the link: the speed at which it can settle behind the tail.
    pub safe: Vec<Quantity>,
    /// Per lane of the link: its pose at the lane's start.
    pub poses: Vec<Pose>,
}

/// A vehicle that has just come onto the network.
pub open spec fn fresh_vehicle(
    id: u32,
    lane: LaneId,
    position: Quantity,
    speed: Quantity,
    driver: DriverConfig,
    pose: Pose,
    route: Vec<LinkId>,
    dest: Option<LinkId>,
) -> NetVehicle {
    NetVehicle {
        id,
        lane,
        position,
        speed,
        kin: pose,
        steer: place(ZERO),
        driver,
        route,
        route_idx: 0,
        dest,
        stopped_at: None,
        wait_ticks: 0,
        crossing: None,
        lane_change: None,
        slept: false,
        wreck: None,
    }
}

fn make_vehicle(
    id: u32,
    lane: LaneId,
    position: Quantity,
    speed: Quantity,
    driver: DriverConfig,
    pose: Pose,
    route: Vec<LinkId>,
    dest: Option<LinkId>,
) -> (v: NetVehicle)
    ensures
        v == fresh_vehicle(id, lane, position, speed, driver, pose, route, dest),
{
    NetVehicle {
        id,
        lane,
        position,
        speed,
        kin: pose,
        steer: Quantity::at(ZERO),
        driver,
        route,
        route_idx: 0,
        dest,
        stopped_at: None,
        wait_ticks: 0,
        crossing: None,
        lane_change: None,
        slept: false,
        wreck: None,
    }
}

/// The place of the `k`-th lane to try: the lanes in turn, begun at one that
/// depends on the id.
pub open spec fn rotated(id: u32, k: int, n: u32) -> int {
    (id as int % n as int + k) % (n as int)
}

fn turned(id: u32, k: u32, n: u32) -> (r: u32)
    requires
        k < n,
    ensures
        r == rotated(id, k as int, n),
        r < n,
{
    (((id % n) as u64 + k as u64) % n as u64) as u32
}

impl NetWorld {
    /// No vehicle's rear is within the gap of the lane's start.
    pub open spec fn is_entrance_clear(&self, lane: LaneId, gap: Quantity, rears: Seq<Quantity>) -> bool {
        forall|i: int|
            0 <= i < self.rows().len() && (#[trigger] self.rows()[i]).lane == lane ==> gap.is_below(
                rears[i],
            )
    }

    /// Of the lanes to try: the vehicle may use it and its entrance is clear.
    pub open spec fn may_enter(
        &self,
        link: LinkId,
        gap: Quantity,
        id: u32,
        view: &EntryView,
    ) -> spec_fn(int) -> bool {
        |k: int|
            {
                let lane = nth_lane(
                    &self.network,
                    link,
                    rotated(id, k, self.network.link_at(link).lane_count),
                );
                (!self.network.lane_at(lane).hov || view.hov_ok) && self.is_entrance_clear(
                    lane,
                    gap,
                    view.rears@,
                )
            }
    }

    /// Of the movements of a lane: how far its landing is from the destination.
    pub open spec fn distance_after(&self, dest: LinkId, lane: LaneId) -> spec_fn(int) -> Option<int> {
        |k: int|
            match self.router->0.remaining(
                dest,
                self.network.landing_link(self.network.nth_movement(lane, k)),
            ) {
                Some(d) => Some(d as int),
                None => None,
            }
    }

    /// The least distance to the destination after any movement of the lane; the
    /// largest number when none reaches it.
    pub open spec fn lane_score(&self, dest: LinkId, lane: LaneId) -> int {
        match least_index(
            self.network.lane_at(lane).movement_count as int,
            self.distance_after(dest, lane),
        ) {
            Some(k) => self.distance_after(dest, lane)(k)->0,
            None => u128::MAX as int,
        }
    }

    /// Of the lanes to try: its score, where the vehicle may enter.
    pub open spec fn entry_cost(
        &self,
        link: LinkId,
        gap: Quantity,
        id: u32,
        dest: LinkId,
        view: &EntryView,
    ) -> spec_fn(int) -> Option<int> {
        |k: int|
            if self.may_enter(link, gap, id, view)(k) {
                Some(
                    self.lane_score(
                        dest,
                        nth_lane(
                            &self.network,
                            link,
                            rotated(id, k, self.network.link_at(link).lane_count),
                        ),
                    ),
                )
            } else {
                None
            }
    }

    /// The lane (as a place in its link) that a vehicle enters on: with a
    /// destination and a router the one that leads nearest to it, else the first
    /// it may enter.
    pub open spec fn entry_place(
        &self,
        link: LinkId,
        gap: Quantity,
        id: u32,
        dest: Option<LinkId>,
        view: &EntryView,
    ) -> Option<int> {
        let n = self.network.link_at(link).lane_count;
        let tried = if dest is Some && self.router is Some {
            least_index(n as int, self.entry_cost(link, gap, id, dest->0, view))
        } else {
            first_index(0, n as int, self.may_enter(link, gap, id, view))
        };
        match tried {
            Some(k) => Some(rotated(id, k, n)),
            None => None,
        }
    }

    /// Of the lanes to try: the vehicle may enter and the lane leads to `next`.
    pub open spec fn may_enter_for(
        &self,
        link: LinkId,
        next: LinkId,
        gap: Quantity,
        id: u32,
        view: &EntryView,
    ) -> spec_fn(int) -> bool {
        |k: int|
            self.may_enter(link, gap, id, view)(k) && movement_onto(
                &self.network,
                nth_lane(
                    &self.network,
                    link,
                    rotated(id, k, self.network.link_at(link).lane_count),
                ),
                next,
            ) is Some
    }

    /// The lane that a vehicle with an explicit route enters on: one that leads
    /// to its second link where there is one, else any it may enter.
    pub open spec fn route_entry_place(
        &self,
        route: Seq<LinkId>,
        gap: Quantity,
        id: u32,
        view: &EntryView,
    ) -> Option<int> {
        let link = route[0];
        let n = self.network.link_at(link).lane_count;
        let served = if route.len() > 1 {
            first_index(0, n as int, self.may_enter_for(link, route[1], gap, id, view))
        } else {
            None
        };
        match served {
            Some(k) => Some(rotated(id, k, n)),
            None => self.entry_place(link, gap, id, None, view),
        }
    }

    /// Of a row: its rear, where it rolls on the lane.
    pub open spec fn rolling_rear(&self, lane: LaneId, rears: Seq<Quantity>) -> spec_fn(int) -> Option<
        int,
    > {
        |i: int|
            if self.rows()[i].lane == lane && self.rows()[i].crossing is None {
                Some(rears[i].rank())
            } else {
                None
            }
    }

    /// The rearmost vehicle that rolls on a lane.
    pub open spec fn rolling_tail(&self, lane: LaneId, rears: Seq<Quantity>) -> Option<int> {
        least_index(self.rows().len() as int, self.rolling_rear(lane, rears))
    }

    /// The speed that a vehicle enters with: as asked for, but no faster than it
    /// can settle behind the tail of its lane.
    pub open spec fn entry_speed(&self, lane: LaneId, speed: Quantity, safe: Quantity, rears: Seq<Quantity>) -> Quantity {
        if self.rolling_tail(lane, rears) is Some {
            speed.lesser(safe)
        } else {
            speed
        }
    }

    /// A view of the entrance fits the world and the link.
    pub open spec fn entry_view_fits(&self, link: LinkId, view: &EntryView) -> bool {
        &&& view.rears@.len() == self.rows().len()
        &&& view.safe@.len() == self.network.link_at(link).lane_count
        &&& view.poses@.len() == self.network.link_at(link).lane_count
    }

    /// The world with one more vehicle, counted as an entry of its link.
    pub open spec fn grown(&self, before: &NetWorld, v: NetVehicle) -> bool {
        let link = before.network.link_of(v.lane).0 as int;
        &&& *self == (NetWorld {
            fleet: self.fleet,
            link_entries: self.link_entries,
            ..*before
        })
        &&& self.rows() == before.rows().push(v)
        &&& self.fleet.samples(before.rows().len() as int) == seq![
            Sample { position: v.position, speed: v.speed },
        ]
        &&& forall|i: int|
            0 <= i < before.rows().len() ==> #[trigger] self.fleet.samples(i)
                == before.fleet.samples(i)
        &&& self.link_entries@ == before.link_entries@.update(
            link,
            (before.link_entries@[link] + 1) as u32,
        )
    }
}

/// The first lane to try is the one that the id alone gives.
proof fn lemma_first_tried(id: u32, n: u32)
    requires
        n > 0,
    ensures
        rotated(id, 0, n) == (id % n) as int,
        0 <= rotated(id, 0, n) < n,
{
    vstd::arithmetic::div_mod::lemma_small_mod((id % n) as nat, n as nat);
}

/// Where nothing stands in the way and no lane is reserved, vehicles with
/// successive ids enter on successive lanes.
pub proof fn inflow_spreads_over_the_lanes(
    w: &NetWorld,
    link: LinkId,
    gap: Quantity,
    id: u32,
    view: &EntryView,
)
    requires
        w.network.wf(),
        w.network.has_link(link),
        forall|k: int| #![trigger nth_lane(&w.network, link, k)]
            0 <= k < w.network.link_at(link).lane_count ==> !w.network.lane_at(
                nth_lane(&w.network, link, k),
            ).hov && w.is_entrance_clear(nth_lane(&w.network, link, k), gap, view.rears@),
    ensures
        w.entry_place(link, gap, id, None, view) == Some(
            (id % w.network.link_at(link).lane_count) as int,
        ),
{
    let n = w.network.link_at(link).lane_count;
    assert(w.network.link_ok(link.0 as int));
    let k = rotated(id, 0, n);
    lemma_first_tried(id, n);
    assert(nth_lane(&w.network, link, k) == nth_lane(&w.network, link, k));
    assert(w.may_enter(link, gap, id, view)(0));
    lemma_first_index_is(0, n as int, w.may_enter(link, gap, id, view), 0);
}

/// Every lane of a link is tried.
pub proof fn lemma_every_lane_is_tried(id: u32, j: int, n: u32) -> (k: int)
    requires
        0 <= j < n,
    ensures
        0 <= k < n,
        rotated(id, k, n) == j,
{
    let (m, first) = (n as int, id as int % n as int);
    assert(0 <= first < m);
    if j >= first {
        vstd::arithmetic::div_mod::lemma_small_mod(j as nat, n as nat);
        j - first
    } else {
        vstd::arithmetic::div_mod::lemma_fundamental_div_mod_converse(j + m, m, 1, j);
        j - first + m
    }
}

/// A vehicle is refused only when every lane of the link is taken at its entrance
/// or reserved for others, whatever its id.
pub proof fn only_a_full_link_refuses(
    w: &NetWorld,
    link: LinkId,
    gap: Quantity,
    id: u32,
    dest: Option<LinkId>,
    view: &EntryView,
    j: int,
)
    requires
        w.network.wf(),
        w.network.has_link(link),
        w.entry_place(link, gap, id, dest, view) is None,
        0 <= j < w.network.link_at(link).lane_count,
    ensures
        ({
            let lane = nth_lane(&w.network, link, j);
            !w.is_entrance_clear(lane, gap, view.rears@) || (w.network.lane_at(lane).hov
                && !view.hov_ok)
        }),
{
    let n = w.network.link_at(link).lane_count;
    let k = lemma_every_lane_is_tried(id, j, n);
    if dest is Some && w.router is Some {
        let cost = w.entry_cost(link, gap, id, dest->0, view);
        lemma_least(n as int, cost);
        assert(cost(k) is None);
    } else {
        lemma_first_index(0, n as int, w.may_enter(link, gap, id, view));
        assert(!w.may_enter(link, gap, id, view)(k));
    }
}

/// A vehicle that may not use reserved lanes never enters on one.
pub proof fn reserved_lanes_are_not_entered_by_others(
    w: &NetWorld,
    link: LinkId,
    gap: Quantity,
    id: u32,
    dest: Option<LinkId>,
    view: &EntryView,
)
    requires
        w.network.wf(),
        w.network.has_link(link),
        !view.hov_ok,
        w.entry_place(link, gap, id, dest, view) is Some,
    ensures
        !w.network.lane_at(
            nth_lane(&w.network, link, w.entry_place(link, gap, id, dest, view)->0),
        ).hov,
{
    let n = w.network.link_at(link).lane_count as int;
    if dest is Some && w.router is Some {
        let cost = w.entry_cost(link, gap, id, dest->0, view);
        lemma_least(n, cost);
        let k = least_index(n, cost)->0;
        assert(cost(k) is Some);
        assert(w.may_enter(link, gap, id, view)(k));
    } else {
        lemma_first_index(0, n, w.may_enter(link, gap, id, view));
    }
}

impl NetWorld {
    /// Whether a vehicle can be placed at the start of a lane: no rear there is
    /// within the gap.
    pub fn entrance_clear(&self, lane: LaneId, gap: Quantity, rears: &Vec<Quantity>) -> (r: bool)
        requires
            rears@.len() == self.rows().len(),
        ensures
            r == self.is_entrance_clear(lane, gap, rears@),
    {
        let mut i: usize = 0;
        while i < self.fleet.rows.len()
            invariant
                rears@.len() == self.rows().len(),
                i <= self.rows().len(),
                forall|k: int|
                    0 <= k < i && (#[trigger] self.rows()[k]).lane == lane ==> gap.is_below(
                        rears@[k],
                    ),
            decreases self.rows().len() - i,
        {
            if self.fleet.rows[i].lane == lane && !gap.below(rears[i]) {
                assert(self.rows()[i as int].lane == lane);
                return false;
            }
            i += 1;
        }
        true
    }

    fn tried_lane(&self, link: LinkId, id: u32, k: u32) -> (r: LaneId)
        requires
            self.network.wf(),
            self.network.has_link(link),
            k < self.network.link_at(link).lane_count,
        ensures
            r == nth_lane(
                &self.network,
                link,
                rotated(id, k as int, self.network.link_at(link).lane_count),
            ),
            self.network.has_lane(r),
    {
        assert(self.network.link_ok(link.0 as int));
        let l = self.network.link(link);
        LaneId(l.lane_start.0 + turned(id, k, l.lane_count))
    }

    fn can_enter(&self, link: LinkId, gap: Quantity, id: u32, k: u32, view: &EntryView) -> (r: bool)
        requires
            self.network.wf(),
            self.network.has_link(link),
            k < self.network.link_at(link).lane_count,
            view.rears@.len() == self.rows().len(),
        ensures
            r == self.may_enter(link, gap, id, view)(k as int),
    {
        let lane = self.tried_lane(link, id, k);
        (!self.network.lane(lane).hov || view.hov_ok) && self.entrance_clear(lane, gap, &view.rears)
    }

    fn score_lane(&self, dest: LinkId, lane: LaneId) -> (r: u128)
        requires
            self.guides(),
            self.router is Some,
            self.network.has_lane(lane),
        ensures
            r == self.lane_score(dest, lane),
    {
        let net = &self.network;
        assert(net.lane_ok(lane.0 as int));
        let l = net.lane(lane);
        let ghost cost = self.distance_after(dest, lane);
        let mut best: Option<u128> = None;
        let mut k: u32 = 0;
        proof {
            lemma_least(0, cost);
        }
        while k < l.movement_count
            invariant
                self.guides(),
                self.router is Some,
                *net == self.network,
                net.has_lane(lane),
                net.lane_ok(lane.0 as int),
                *l == net.lane_at(lane),
                cost == self.distance_after(dest, lane),
                k <= l.movement_count,
                match least_index(k as int, cost) {
                    Some(i) => best is Some && cost(i) == Some(best->0 as int),
                    None => best is None,
                },
            decreases l.movement_count - k,
        {
            let m = MovementId(l.movement_start.0 + k);
            assert(m == net.nth_movement(lane, k as int));
            assert(net.movement_ok(m.0 as int));
            let to = net.movement(m).to_lane;
            assert(net.lane_ok(to.0 as int));
            let d = match &self.router {
                Some(r) => r.distance(dest, net.lane(to).link, net),
                None => None,
            };
            proof {
                lemma_least_step(k as int, cost);
                assert(cost(k as int) == match d {
                    Some(x) => Some(x as int),
                    None => None,
                });
            }
            if let Some(x) = d {
                let closer = match best {
                    Some(y) => x < y,
                    None => true,
                };
                if closer {
                    best = Some(x);
                }
            }
            k += 1;
        }
        match best {
            Some(d) => d,
            None => u128::MAX,
        }
    }

    /// The place in its link of the lane that a vehicle enters on.
    pub fn entry_lane_toward(
        &self,
        link: LinkId,
        gap: Quantity,
        id: u32,
        dest: Option<LinkId>,
        view: &EntryView,
    ) -> (r: Option<u32>)
        requires
            self.guides(),
            self.network.has_link(link),
            view.rears@.len() == self.rows().len(),
        ensures
            match r {
                Some(k) => self.entry_place(link, gap, id, dest, view) == Some(k as int) && k
                    < self.network.link_at(link).lane_count,
                None => self.entry_place(link, gap, id, dest, view) is None,
            },
    {
        assert(self.network.link_ok(link.0 as int));
        let n = self.network.link(link).lane_count;
        let to = match dest {
            Some(d) if self.router.is_some() => d,
            _ => {
                return self.first_entry(link, gap, id, view);
            },
        };
        let ghost cost = self.entry_cost(link, gap, id, to, view);
        let mut best: Option<(u128, u32)> = None;
        let mut k: u32 = 0;
        proof {
            lemma_least(0, cost);
        }
        while k < n
            invariant
                self.guides(),
                self.router is Some,
                self.network.has_link(link),
                n == self.network.link_at(link).lane_count,
                view.rears@.len() == self.rows().len(),
                cost == self.entry_cost(link, gap, id, to, view),
                k <= n,
                match least_index(k as int, cost) {
                    Some(i) => best is Some && (best->0).1 == i && 0 <= i < k && cost(i) == Some(
                        (best->0).0 as int,
                    ),
                    None => best is None,
                },
            decreases n - k,
        {
            proof {
                lemma_least_step(k as int, cost);
            }
            if self.can_enter(link, gap, id, k, view) {
                let s = self.score_lane(to, self.tried_lane(link, id, k));
                let better = match best {
                    Some((b, _)) => s < b,
                    None => true,
                };
                if better {
                    best = Some((s, k));
                }
            }
            k += 1;
        }
        match best {
            Some((_, i)) => Some(turned(id, i, n)),
            None => None,
        }
    }

    fn first_entry(&self, link: LinkId, gap: Quantity, id: u32, view: &EntryView) -> (r: Option<u32>)
        requires
            self.network.wf(),
            self.network.has_link(link),
            view.rears@.len() == self.rows().len(),
        ensures
            match r {
                Some(k) => self.entry_place(link, gap, id, None, view) == Some(k as int) && k
                    < self.network.link_at(link).lane_count,
                None => self.entry_place(link, gap, id, None, view) is None,
            },
            forall|d: Option<LinkId>|
                !(d is Some && self.router is Some) ==> #[trigger] self.entry_place(
                    link,
                    gap,
                    id,
                    d,
                    view,
                ) == self.entry_place(link, gap, id, None, view),
    {
        assert(self.network.link_ok(link.0 as int));
        let n = self.network.link(link).lane_count;
        let ghost p = self.may_enter(link, gap, id, view);
        let mut k: u32 = 0;
        while k < n
            invariant
                self.network.wf(),
                self.network.has_link(link),
                n == self.network.link_at(link).lane_count,
                n >= 1,
                view.rears@.len() == self.rows().len(),
                p == self.may_enter(link, gap, id, view),
                k <= n,
                forall|j: int| 0 <= j < k ==> !#[trigger] p(j),
            decreases n - k,
        {
            if self.can_enter(link, gap, id, k, view) {
                proof {
                    lemma_first_index_is(0, n as int, p, k as int);
                }
                return Some(turned(id, k, n));
            }
            k += 1;
        }
        proof {
            lemma_first_index_none(0, n as int, p);
        }
        None
    }

    fn route_entry(&self, route: &Vec<LinkId>, gap: Quantity, id: u32, view: &EntryView) -> (r: Option<u32>)
        requires
            self.guides(),
            route@.len() > 0,
            forall|k: int| 0 <= k < route@.len() ==> self.network.has_link(#[trigger] route@[k]),
            view.rears@.len() == self.rows().len(),
        ensures
            match r {
                Some(k) => self.route_entry_place(route@, gap, id, view) == Some(k as int) && k
                    < self.network.link_at(route@[0]).lane_count,
                None => self.route_entry_place(route@, gap, id, view) is None,
            },
    {
        let link = route[0];
        assert(self.network.link_ok(link.0 as int));
        let n = self.network.link(link).lane_count;
        if route.len() > 1 {
            let next = route[1];
            let ghost p = self.may_enter_for(link, next, gap, id, view);
            let mut k: u32 = 0;
            while k < n
                invariant
                    self.guides(),
                    route@.len() > 1,
                    link == route@[0],
                    next == route@[1],
                    self.network.has_link(link),
                    n == self.network.link_at(link).lane_count,
                    n >= 1,
                    view.rears@.len() == self.rows().len(),
                    p == self.may_enter_for(link, next, gap, id, view),
                    k <= n,
                    forall|j: int| 0 <= j < k ==> !#[trigger] p(j),
                decreases n - k,
            {
                let lane = self.tried_lane(link, id, k);
                if self.can_enter(link, gap, id, k, view) && self.network.movement_to(
                    lane,
                    next,
                ).is_some() {
                    proof {
                        lemma_first_index_is(0, n as int, p, k as int);
                    }
                    return Some(turned(id, k, n));
                }
                k += 1;
            }
            proof {
                lemma_first_index_none(0, n as int, p);
            }
        }
        self.entry_lane_toward(link, gap, id, None, view)
    }

    /// The rearmost vehicle that rolls on a lane.
    pub fn entry_tail(&self, lane: LaneId, rears: &Vec<Quantity>) -> (r: Option<usize>)
        requires
            rears@.len() == self.rows().len(),
        ensures
            match r {
                Some(i) => self.rolling_tail(lane, rears@) == Some(i as int) && i < self.rows().len(),
                None => self.rolling_tail(lane, rears@) is None,
            },
    {
        let n = self.fleet.rows.len();
        let ghost cost = self.rolling_rear(lane, rears@);
        let mut best: Option<usize> = None;
        let mut i: usize = 0;
        proof {
            lemma_least(0, cost);
        }
        while i < n
            invariant
                n == self.rows().len(),
                rears@.len() == n,
                cost == self.rolling_rear(lane, rears@),
                i <= n,
                match least_index(i as int, cost) {
                    Some(k) => best is Some && best->0 == k && 0 <= k < i && cost(k) == Some(
                        rears@[k].rank(),
                    ),
                    None => best is None,
                },
            decreases n - i,
        {
            proof {
                lemma_least_step(i as int, cost);
            }
            let v = &self.fleet.rows[i];
            if v.lane == lane && v.crossing.is_none() {
                let nearer = match best {
                    Some(b) => rears[i].before(rears[b]),
                    None => true,
                };
                if nearer {
                    best = Some(i);
                }
            }
            i += 1;
        }
        best
    }

    fn add_vehicle(&mut self, v: NetVehicle)
        requires
            old(self).wf(),
            v.placed(&old(self).network),
            old(self).link_entries@[old(self).network.link_of(v.lane).0 as int] < u32::MAX,
        ensures
            final(self).wf(),
            final(self).grown(old(self), v),
    {
        assert(self.network.lane_ok(v.lane.0 as int));
        let link = self.network.lane(v.lane).link.0 as usize;
        self.link_entries[link] = self.link_entries[link] + 1;
        let ghost before = self.fleet;
        self.fleet.push(v);
        assert forall|i: int| 0 <= i < self.fleet.rows@.len() implies (
        #[trigger] self.fleet.rows@[i]).placed(&self.network) by {
            if i < before.rows@.len() {
                assert(self.fleet.rows@[i] == before.rows@[i]);
                assert(before.rows@[i].placed(&self.network));
            }
        }
    }

    /// Put a vehicle anywhere on a lane.
    pub fn spawn(
        &mut self,
        id: u32,
        lane: LaneId,
        position: Quantity,
        speed: Quantity,
        driver: DriverConfig,
        pose: Pose,
    )
        requires
            old(self).wf(),
            old(self).network.has_lane(lane),
            old(self).link_entries@[old(self).network.link_of(lane).0 as int] < u32::MAX,
        ensures
            final(self).wf(),
            exists|route: Vec<LinkId>|
                route@.len() == 0 && #[trigger] final(self).grown(
                    old(self),
                    fresh_vehicle(id, lane, position, speed, driver, pose, route, None),
                ),
    {
        let route: Vec<LinkId> = Vec::new();
        let v = make_vehicle(id, lane, position, speed, driver, pose, route, None);
        self.add_vehicle(v);
        assert(self.grown(
            old(self),
            fresh_vehicle(id, lane, position, speed, driver, pose, route, None),
        ));
    }

    /// Put a vehicle bound for `dest` anywhere on a lane.
    pub fn spawn_to_in_lane(
        &mut self,
        id: u32,
        lane: LaneId,
        position: Quantity,
        dest: LinkId,
        speed: Quantity,
        driver: DriverConfig,
        pose: Pose,
    )
        requires
            old(self).wf(),
            old(self).network.has_lane(lane),
            old(self).network.has_link(dest),
            old(self).link_entries@[old(self).network.link_of(lane).0 as int] < u32::MAX,
        ensures
            final(self).wf(),
            exists|route: Vec<LinkId>|
                route@.len() == 0 && #[trigger] final(self).grown(
                    old(self),
                    fresh_vehicle(id, lane, position, speed, driver, pose, route, Some(dest)),
                ),
    {
        let route: Vec<LinkId> = Vec::new();
        let v = make_vehicle(id, lane, position, speed, driver, pose, route, Some(dest));
        self.add_vehicle(v);
        assert(self.grown(
            old(self),
            fresh_vehicle(id, lane, position, speed, driver, pose, route, Some(dest)),
        ));
    }

    /// Put a vehicle with an explicit route on a given lane of its first link.
    /// Refused when the route is empty or starts elsewhere.
    pub fn spawn_routed_in_lane(
        &mut self,
        id: u32,
        route: Vec<LinkId>,
        lane: LaneId,
        position: Quantity,
        speed: Quantity,
        driver: DriverConfig,
        pose: Pose,
    ) -> (r: bool)
        requires
            old(self).wf(),
            old(self).network.has_lane(lane),
            forall|k: int| 0 <= k < route@.len() ==> old(self).network.has_link(#[trigger] route@[k]),
            old(self).link_entries@[old(self).network.link_of(lane).0 as int] < u32::MAX,
        ensures
            final(self).wf(),
            r == (route@.len() > 0 && old(self).network.link_of(lane) == route@[0]),
            !r ==> *final(self) == *old(self),
            r ==> final(self).grown(
                old(self),
                fresh_vehicle(id, lane, position, speed, driver, pose, route, None),
            ),
    {
        if route.len() == 0 || self.network.lane(lane).link != route[0] {
            return false;
        }
        let v = make_vehicle(id, lane, position, speed, driver, pose, route, None);
        self.add_vehicle(v);
        true
    }

    /// Put a vehicle with an explicit route at the start of its first link, on a
    /// lane that leads to its second where one is clear. Refused when the route
    /// is empty or no entrance is clear.
    pub fn spawn_routed(
        &mut self,
        id: u32,
        route: Vec<LinkId>,
        speed: Quantity,
        driver: DriverConfig,
        view: &EntryView,
    ) -> (r: bool)
        requires
            old(self).wf(),
            forall|k: int| 0 <= k < route@.len() ==> old(self).network.has_link(#[trigger] route@[k]),
            route@.len() > 0 ==> old(self).entry_view_fits(route@[0], view)
                && old(self).link_entries@[route@[0].0 as int] < u32::MAX,
        ensures
            final(self).wf(),
            r == (route@.len() > 0 && old(self).route_entry_place(
                route@,
                driver.min_gap,
                id,
                view,
            ) is Some),
            !r ==> *final(self) == *old(self),
            r ==> ({
                let k = old(self).route_entry_place(route@, driver.min_gap, id, view)->0;
                let lane = nth_lane(&old(self).network, route@[0], k);
                final(self).grown(
                    old(self),
                    fresh_vehicle(
                        id,
                        lane,
                        place(ZERO),
                        old(self).entry_speed(lane, speed, view.safe@[k], view.rears@),
                        driver,
                        view.poses@[k],
                        route,
                        None,
                    ),
                )
            }),
    {
        if route.len() == 0 {
            return false;
        }
        let link = route[0];
        assert(self.network.link_ok(link.0 as int));
        match self.route_entry(&route, driver.min_gap, id, view) {
            Some(k) => {
                let (lane, at) = self.entering(link, k, speed, view);
                let pose = view.poses[k as usize];
                let v = make_vehicle(id, lane, Quantity::at(ZERO), at, driver, pose, route, None);
                self.add_vehicle(v);
                true
            },
            None => false,
        }
    }

    fn entering(&self, link: LinkId, k: u32, speed: Quantity, view: &EntryView) -> (r: (
        LaneId,
        Quantity,
    ))
        requires
            self.network.wf(),
            self.network.has_link(link),
            k < self.network.link_at(link).lane_count,
            self.entry_view_fits(link, view),
        ensures
            r.0 == nth_lane(&self.network, link, k as int),
            self.network.has_lane(r.0),
            self.network.link_of(r.0) == link,
            r.1 == self.entry_speed(r.0, speed, view.safe@[k as int], view.rears@),
    {
        assert(self.network.link_ok(link.0 as int));
        let lane = LaneId(self.network.link(link).lane_start.0 + k);
        assert(self.network.lanes@[lane.0 as int].link.0 == link.0);
        let at = if self.entry_tail(lane, &view.rears).is_some() {
            speed.least(view.safe[k as usize])
        } else {
            speed
        };
        (lane, at)
    }

    /// Put a vehicle bound for `dest` at the start of a link, on the clear lane
    /// that leads nearest to it. `admit_gap` is the measured following distance
    /// that its speed needs. Refused when no entrance is clear.
    pub fn spawn_to(
        &mut self,
        id: u32,
        link: LinkId,
        dest: LinkId,
        speed: Quantity,
        driver: DriverConfig,
        admit_gap: Quantity,
        view: &EntryView,
    ) -> (r: bool)
        requires
            old(self).wf(),
            old(self).network.has_link(link),
            old(self).network.has_link(dest),
            old(self).entry_view_fits(link, view),
            old(self).link_entries@[link.0 as int] < u32::MAX,
        ensures
            final(self).wf(),
            r == old(self).entry_place(link, admit_gap, id, Some(dest), view) is Some,
            !r ==> *final(self) == *old(self),
            r ==> exists|route: Vec<LinkId>|
                route@.len() == 0 && #[trigger] final(self).grown(
                    old(self),
                    old(self).entrant(id, link, dest, speed, driver, admit_gap, view, route),
                ),
    {
        match self.entry_lane_toward(link, admit_gap, id, Some(dest), view) {
            Some(k) => {
                let (lane, at) = self.entering(link, k, speed, view);
                let pose = view.poses[k as usize];
                let route: Vec<LinkId> = Vec::new();
                let v = make_vehicle(
                    id,
                    lane,
                    Quantity::at(ZERO),
                    at,
                    driver,
                    pose,
                    route,
                    Some(dest),
                );
                assert(v == self.entrant(id, link, dest, speed, driver, admit_gap, view, route));
                self.add_vehicle(v);
                true
            },
            None => false,
        }
    }

    /// The vehicle that enters a link bound for `dest`.
    pub open spec fn entrant(
        &self,
        id: u32,
        link: LinkId,
        dest: LinkId,
        speed: Quantity,
        driver: DriverConfig,
        admit_gap: Quantity,
        view: &EntryView,
        route: Vec<LinkId>,
    ) -> NetVehicle {
        let k = self.entry_place(link, admit_gap, id, Some(dest), view)->0;
        let lane = nth_lane(&self.network, link, k);
        fresh_vehicle(
            id,
            lane,
            place(ZERO),
            self.entry_speed(lane, speed, view.safe@[k], view.rears@),
            driver,
            view.poses@[k],
            route,
            Some(dest),
        )
    }
}

} // verus!
