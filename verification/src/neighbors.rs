//! Who is next to whom: the leader of every vehicle along its corridor, the
//! vehicles of every lane in order, those approaching each intersection, those
//! inside it, and the movements that the latter reserve.

use vstd::prelude::*;
use crate::fleet::NetVehicle;
use crate::groups::GroupMap;
use crate::network::{LaneId, MovementId};
use crate::quantity::{place, Quantity};
use crate::search::{indices_where, lemma_indices};
use crate::sorting::{by_key, is_rising, is_stable_sort, lemma_rising_is_distinct, lemma_sorted_members, lemma_stable_sort_of_rising, sort_members, within};
use crate::world::NetWorld;

verus! {

/// A crosser this fast or faster is moving. Place of 0.5 m/s.
pub const MOVING_SPEED: i64 = 0x3FE0_0000_0000_0000;

/// The sort keys of measured numbers: their places.
pub open spec fn keys_of(q: Seq<Quantity>) -> Seq<i128> {
    q.map_values(|x: Quantity| x.key as i128)
}

/// The vehicles' positions, in row order.
pub open spec fn positions(rows: Seq<NetVehicle>) -> Seq<Quantity> {
    rows.map_values(|v: NetVehicle| v.position)
}

/// `j` follows `i` directly in the list.
pub open spec fn next_in(list: Seq<usize>, i: usize, j: usize) -> bool {
    exists|k: int| 0 <= k < list.len() - 1 && #[trigger] list[k] == i && list[k + 1] == j
}

impl NetWorld {
    /// Of a row: its vehicle is in the corridor.
    pub open spec fn in_corridor(&self, c: u32) -> spec_fn(int) -> bool {
        |i: int| self.topology.corridors.of_lane@[self.rows()[i].lane.0 as int] == c
    }

    /// Of a row: its vehicle is on the lane, or crossing from it.
    pub open spec fn on_lane(&self, lane: u32) -> spec_fn(int) -> bool {
        |i: int| self.rows()[i].lane.0 == lane
    }

    /// The intersection that a vehicle's crossing belongs to.
    pub open spec fn crossing_key(&self, v: &NetVehicle) -> u32 {
        self.network.node_at(self.network.movement_at(v.crossing->0.movement).node).intersection
    }

    /// The intersection at the end of a lane.
    pub open spec fn approach_key(&self, lane: LaneId) -> u32 {
        self.network.node_at(self.network.end_of(lane)).intersection
    }

    /// Of a row: its vehicle approaches the intersection.
    pub open spec fn approaches(&self, key: u32) -> spec_fn(int) -> bool {
        |i: int| self.rows()[i].crossing is None && self.approach_key(self.rows()[i].lane) == key
    }

    /// Of a row: its vehicle is inside the intersection.
    pub open spec fn crosses_at(&self, key: u32) -> spec_fn(int) -> bool {
        |i: int| self.rows()[i].crossing is Some && self.crossing_key(&self.rows()[i]) == key
    }

    /// The movements that a crosser occupies or will still traverse.
    pub open spec fn reserved_by(&self, v: &NetVehicle) -> Seq<MovementId> {
        self.committed_path(v, v.crossing->0.movement)
    }

    /// The vehicle moves at walking pace or faster.
    pub open spec fn is_moving(v: &NetVehicle) -> bool {
        place(MOVING_SPEED).is_at_most(v.speed)
    }

    /// The movements reserved at an intersection by the first `n` rows.
    pub open spec fn reserved(&self, n: int, key: u32, moving_only: bool) -> Seq<MovementId>
        decreases n,
    {
        if n <= 0 {
            Seq::empty()
        } else {
            let before = self.reserved(n - 1, key, moving_only);
            let v = self.rows()[n - 1];
            if self.crosses_at(key)(n - 1) && (moving_only ==> Self::is_moving(&v)) {
                before + self.reserved_by(&v)
            } else {
                before
            }
        }
    }

    /// The vehicles of a corridor, rear to front, by measured corridor positions.
    pub open spec fn corridor_order(&self, c: u32, cpos: Seq<Quantity>) -> Seq<usize> {
        indices_where(self.rows().len() as int, self.in_corridor(c)).sort_by(
            by_key(keys_of(cpos)),
        )
    }

    /// The vehicles of a lane, rear to front.
    pub open spec fn lane_order(&self, lane: u32) -> Seq<usize> {
        indices_where(self.rows().len() as int, self.on_lane(lane)).sort_by(
            by_key(keys_of(positions(self.rows()))),
        )
    }

    /// The corridor of a row's vehicle.
    pub open spec fn corridor_of_row(&self, i: int) -> u32 {
        self.topology.corridors.of_lane@[self.rows()[i].lane.0 as int]
    }
}

pub struct Neighbors {
    /// Per row: the next vehicle ahead in the same corridor.
    pub leader_of: Vec<Option<usize>>,
    pub by_lane: GroupMap<usize>,
    pub approaching: GroupMap<usize>,
    pub crossing_at: GroupMap<usize>,
    pub crossing_mvs: GroupMap<MovementId>,
    pub moving_crossing_mvs: GroupMap<MovementId>,
}

impl Neighbors {
    pub open spec fn maps_wf(&self) -> bool {
        &&& self.by_lane.wf()
        &&& self.approaching.wf()
        &&& self.crossing_at.wf()
        &&& self.crossing_mvs.wf()
        &&& self.moving_crossing_mvs.wf()
    }

    /// The groups are those of the world.
    pub open spec fn groups_of(&self, w: &NetWorld) -> bool {
        let n = w.rows().len() as int;
        &&& self.maps_wf()
        &&& forall|l: u32| #[trigger] self.by_lane.group(l) == w.lane_order(l)
        &&& forall|k: u32| #[trigger]
            self.approaching.group(k) == indices_where(n, w.approaches(k))
        &&& forall|k: u32| #[trigger]
            self.crossing_at.group(k) == indices_where(n, w.crosses_at(k))
        &&& forall|k: u32| #[trigger] self.crossing_mvs.group(k) == w.reserved(n, k, false)
        &&& forall|k: u32| #[trigger] self.moving_crossing_mvs.group(k) == w.reserved(n, k, true)
    }

    /// The leaders are those of the corridor orders under measured positions.
    pub open spec fn leaders_of(&self, w: &NetWorld, cpos: Seq<Quantity>) -> bool {
        &&& self.leader_of@.len() == w.rows().len()
        &&& forall|i: int|
            0 <= i < w.rows().len() ==> match #[trigger] self.leader_of@[i] {
                Some(j) => j < w.rows().len() && next_in(
                    w.corridor_order(w.corridor_of_row(i), cpos),
                    i as usize,
                    j,
                ),
                None => w.corridor_order(w.corridor_of_row(i), cpos).last() == i as usize,
            }
    }

    /// These are the neighbours in the world, under measured corridor positions.
    pub open spec fn sees(&self, w: &NetWorld, cpos: Seq<Quantity>) -> bool {
        self.groups_of(w) && self.leaders_of(w, cpos)
    }

    /// The rearmost vehicle of a lane: the one nearest its entrance.
    pub open spec fn front(&self, lane: LaneId) -> Option<usize> {
        if self.by_lane.group(lane.0).len() > 0 {
            Some(self.by_lane.group(lane.0)[0])
        } else {
            None
        }
    }

    /// The vehicle nearest a lane's entrance.
    pub fn lane_front(&self, lane: LaneId) -> (r: Option<usize>)
        requires
            self.maps_wf(),
        ensures
            r == self.front(lane),
    {
        match self.by_lane.get(&lane.0) {
            Some(v) => Some(v[0]),
            None => None,
        }
    }
}

impl NetWorld {
    fn flat_keys(q: &Vec<Quantity>) -> (r: Vec<i128>)
        ensures
            r@ == keys_of(q@),
    {
        let mut out: Vec<i128> = Vec::new();
        let mut i: usize = 0;
        while i < q.len()
            invariant
                i <= q@.len(),
                out@ == keys_of(q@.subrange(0, i as int)),
            decreases q@.len() - i,
        {
            out.push(q[i].key as i128);
            i += 1;
            assert(out@ =~= keys_of(q@.subrange(0, i as int)));
        }
        assert(q@.subrange(0, i as int) =~= q@);
        out
    }

    fn row_keys(&self) -> (r: Vec<i128>)
        ensures
            r@ == keys_of(positions(self.rows())),
    {
        let mut out: Vec<i128> = Vec::new();
        let mut i: usize = 0;
        while i < self.fleet.rows.len()
            invariant
                i <= self.fleet.rows@.len(),
                out@.len() == i,
                forall|k: int|
                    0 <= k < i ==> #[trigger] out@[k] == self.fleet.rows@[k].position.key as i128,
            decreases self.fleet.rows@.len() - i,
        {
            out.push(self.fleet.rows[i].position.key as i128);
            i += 1;
        }
        assert(out@ =~= keys_of(positions(self.rows())));
        out
    }

    /// Flat sort keys of the positions when the cache-friendly sort is on;
    /// nothing when it is off.
    pub fn position_keys(&self) -> (r: Vec<i128>)
        ensures
            r@ == (if self.cache_sort {
                keys_of(positions(self.rows()))
            } else {
                Seq::empty()
            }),
    {
        if self.cache_sort {
            self.row_keys()
        } else {
            Vec::new()
        }
    }

    /// Put the members of a lane in order, by the flat keys or, without them, by
    /// the rows themselves. The order is the same either way.
    pub fn sort_lane_members(&self, members: &Vec<usize>, keys: &Vec<i128>) -> (r: Vec<usize>)
        requires
            within(members@, self.rows().len()),
            keys@.len() == 0 || keys@ == keys_of(positions(self.rows())),
        ensures
            is_stable_sort(members@, r@, keys_of(positions(self.rows()))),
            within(r@, self.rows().len()),
    {
        if keys.len() == 0 {
            let own = self.row_keys();
            sort_members(members, &own)
        } else {
            sort_members(members, keys)
        }
    }

    /// Flat sort keys of measured corridor positions when the cache-friendly
    /// sort is on; nothing when it is off.
    pub fn corridor_keys(&self, cpos: &Vec<Quantity>) -> (r: Vec<i128>)
        ensures
            r@ == (if self.cache_sort {
                keys_of(cpos@)
            } else {
                Seq::empty()
            }),
    {
        if self.cache_sort {
            Self::flat_keys(cpos)
        } else {
            Vec::new()
        }
    }

    /// Put the members of a corridor in order; the same order with and without
    /// flat keys.
    pub fn sort_corridor_members(
        &self,
        members: &Vec<usize>,
        cpos: &Vec<Quantity>,
        keys: &Vec<i128>,
    ) -> (r: Vec<usize>)
        requires
            within(members@, cpos@.len()),
            keys@.len() == 0 || keys@ == keys_of(cpos@),
        ensures
            is_stable_sort(members@, r@, keys_of(cpos@)),
            within(r@, cpos@.len()),
    {
        if keys.len() == 0 {
            let own = Self::flat_keys(cpos);
            sort_members(members, &own)
        } else {
            sort_members(members, keys)
        }
    }
}

fn push_all(map: &mut GroupMap<MovementId>, key: u32, items: &Vec<MovementId>)
    requires
        old(map).wf(),
    ensures
        final(map).wf(),
        final(map).group(key) == old(map).group(key) + items@,
        forall|k: u32| k != key ==> #[trigger] final(map).group(k) == old(map).group(k),
{
    let mut i: usize = 0;
    assert(map.group(key) =~= old(map).group(key) + items@.subrange(0, 0));
    while i < items.len()
        invariant
            map.wf(),
            i <= items@.len(),
            map.group(key) == old(map).group(key) + items@.subrange(0, i as int),
            forall|k: u32| k != key ==> #[trigger] map.group(k) == old(map).group(k),
        decreases items@.len() - i,
    {
        map.push(key, items[i]);
        i += 1;
        assert(map.group(key) =~= old(map).group(key) + items@.subrange(0, i as int));
    }
    assert(items@.subrange(0, i as int) =~= items@);
}

/// What the groups hold after the first `n` rows.
spec fn gathered(
    w: &NetWorld,
    n: int,
    by_corridor: &GroupMap<usize>,
    nb_lane: &GroupMap<usize>,
    approaching: &GroupMap<usize>,
    crossing_at: &GroupMap<usize>,
    mvs: &GroupMap<MovementId>,
    moving: &GroupMap<MovementId>,
) -> bool {
    &&& by_corridor.wf()
    &&& nb_lane.wf()
    &&& approaching.wf()
    &&& crossing_at.wf()
    &&& mvs.wf()
    &&& moving.wf()
    &&& forall|k: u32| #[trigger] by_corridor.group(k) == indices_where(n, w.in_corridor(k))
    &&& forall|k: u32| #[trigger] nb_lane.group(k) == indices_where(n, w.on_lane(k))
    &&& forall|k: u32| #[trigger] approaching.group(k) == indices_where(n, w.approaches(k))
    &&& forall|k: u32| #[trigger] crossing_at.group(k) == indices_where(n, w.crosses_at(k))
    &&& forall|k: u32| #[trigger] mvs.group(k) == w.reserved(n, k, false)
    &&& forall|k: u32| #[trigger] moving.group(k) == w.reserved(n, k, true)
}

impl NetWorld {
    pub(crate) fn sort_lane_groups(&self, map: &mut GroupMap<usize>)
        requires
            old(map).wf(),
            forall|k: u32| within(#[trigger] old(map).group(k), self.rows().len()),
            forall|k: u32| is_rising(#[trigger] old(map).group(k)),
        ensures
            final(map).wf(),
            forall|k: u32| #[trigger]
                final(map).group(k) == old(map).group(k).sort_by(
                    by_key(keys_of(positions(self.rows()))),
                ),
    {
        let keys = self.position_keys();
        let ghost sorted = by_key(keys_of(positions(self.rows())));
        let ghost all = keys_of(positions(self.rows()));
        let ghost start = *map;
        proof {
            map.lemma_keys();
        }
        let mut g: usize = 0;
        while g < map.len()
            invariant
                map.wf(),
                start.wf(),
                map.keys() == start.keys(),
                start.keys().no_duplicates(),
                forall|k: u32| #[trigger] start.keys().contains(k) <==> start.group(k).len() > 0,
                g <= map.keys().len(),
                all == keys_of(positions(self.rows())),
                sorted == by_key(all),
                keys@.len() == 0 || keys@ == all,
                forall|k: u32| within(#[trigger] start.group(k), self.rows().len()),
                forall|k: u32| is_rising(#[trigger] start.group(k)),
                forall|x: int|
                    0 <= x < g ==> map.group(#[trigger] start.keys()[x]) == start.group(
                        start.keys()[x],
                    ).sort_by(sorted),
                forall|k: u32|
                    !start.keys().subrange(0, g as int).contains(k) ==> #[trigger] map.group(k)
                        == start.group(k),
            decreases map.keys().len() - g,
        {
            let ghost before = *map;
            proof {
                let key = start.keys()[g as int];
                let done = start.keys().subrange(0, g as int);
                if done.contains(key) {
                    let x = choose|x: int| 0 <= x < done.len() && done[x] == key;
                    assert(start.keys()[x] == key);
                }
                assert(map.group(key) == start.group(key));
                lemma_rising_is_distinct(start.group(key));
                lemma_sorted_members(start.group(key), all);
                assert(start.keys().contains(key));
            }
            let (key, members) = map.group_mut_at(g);
            let out = self.sort_lane_members(members, &keys);
            proof {
                lemma_stable_sort_of_rising(start.group(key), out@, all);
            }
            *members = out;
            assert forall|x: int| 0 <= x < g + 1 implies map.group(#[trigger] start.keys()[x])
                == start.group(start.keys()[x]).sort_by(sorted) by {
                if x < g {
                    assert(start.keys()[x] != key);
                    assert(map.group(start.keys()[x]) == before.group(start.keys()[x]));
                }
            }
            assert forall|k: u32| !start.keys().subrange(0, g + 1).contains(k) implies #[trigger] map.group(
            k) == start.group(k) by {
                let now = start.keys().subrange(0, g + 1);
                let then = start.keys().subrange(0, g as int);
                assert(now[g as int] == key);
                assert(k != key);
                if then.contains(k) {
                    let x = choose|x: int| 0 <= x < then.len() && then[x] == k;
                    assert(now[x] == k);
                }
                assert(map.group(k) == before.group(k));
            }
            g += 1;
        }
        assert forall|k: u32| #[trigger] map.group(k) == start.group(k).sort_by(sorted) by {
            assert(start.keys().subrange(0, g as int) =~= start.keys());
            lemma_rising_is_distinct(start.group(k));
            lemma_sorted_members(start.group(k), all);
            if start.keys().contains(k) {
                let x = choose|x: int| 0 <= x < start.keys().len() && start.keys()[x] == k;
                assert(map.group(start.keys()[x]) == start.group(start.keys()[x]).sort_by(sorted));
            } else {
                assert(start.group(k).len() == 0);
                assert(map.group(k) =~= start.group(k).sort_by(sorted));
            }
        }
    }

    /// The leaders: each corridor in order, every vehicle behind the next.
    fn corridor_leaders(&self, map: &GroupMap<usize>, cpos: &Vec<Quantity>) -> (out: Vec<
        Option<usize>,
    >)
        requires
            self.wf(),
            map.wf(),
            cpos@.len() == self.rows().len(),
            forall|k: u32| #[trigger]
                map.group(k) == indices_where(self.rows().len() as int, self.in_corridor(k)),
        ensures
            out@.len() == self.rows().len(),
            forall|i: int|
                0 <= i < self.rows().len() ==> match #[trigger] out@[i] {
                    Some(j) => j < self.rows().len() && next_in(
                        self.corridor_order(self.corridor_of_row(i), cpos@),
                        i as usize,
                        j,
                    ),
                    None => self.corridor_order(self.corridor_of_row(i), cpos@).last() == i as usize,
                },
    {
        let n = self.fleet.rows.len();
        let keys = self.corridor_keys(cpos);
        let mut out: Vec<Option<usize>> = vec![None; n];
        proof {
            map.lemma_keys();
        }
        let mut g: usize = 0;
        while g < map.len()
            invariant
                self.wf(),
                map.wf(),
                n == self.rows().len(),
                cpos@.len() == n,
                keys@.len() == 0 || keys@ == keys_of(cpos@),
                g <= map.keys().len(),
                map.keys().no_duplicates(),
                forall|k: u32| #[trigger]
                    map.group(k) == indices_where(self.rows().len() as int, self.in_corridor(k)),
                out@.len() == n,
                forall|i: int|
                    0 <= i < n ==> match #[trigger] out@[i] {
                        Some(j) => j < n && next_in(
                            self.corridor_order(self.corridor_of_row(i), cpos@),
                            i as usize,
                            j,
                        ),
                        None => map.keys().subrange(0, g as int).contains(self.corridor_of_row(i))
                            ==> self.corridor_order(self.corridor_of_row(i), cpos@).last()
                            == i as usize,
                    },
            decreases map.keys().len() - g,
        {
            let members = map.group_at(g);
            let ghost c = map.keys()[g as int];
            let ghost p = self.in_corridor(c);
            proof {
                lemma_indices(n as int, p);
                let raw = indices_where(n as int, p);
                assert(members@ == raw);
                assert(within(raw, n as nat));
                assert(is_rising(raw));
                lemma_rising_is_distinct(raw);
                lemma_sorted_members(raw, keys_of(cpos@));
            }
            let order = self.sort_corridor_members(members, cpos, &keys);
            proof {
                lemma_stable_sort_of_rising(members@, order@, keys_of(cpos@));
            }
            assert(order@ == self.corridor_order(c, cpos@));
            let ghost start = out@;
            proof {
                assert forall|k: int| 0 <= k < order@.len() implies self.corridor_of_row(
                    #[trigger] order@[k] as int,
                ) == c by {
                    assert(order@.contains(order@[k]));
                    assert(members@.contains(order@[k]));
                    let x = choose|x: int| 0 <= x < members@.len() && members@[x] == order@[k];
                    assert(p(indices_where(n as int, p)[x] as int));
                }
            }
            let last = order.len() - 1;
            let mut k: usize = 0;
            while k < last
                invariant
                    n == self.rows().len(),
                    out@.len() == n,
                    start.len() == n,
                    last == order@.len() - 1,
                    k <= last,
                    order@ == self.corridor_order(c, cpos@),
                    order@.no_duplicates(),
                    within(order@, n as nat),
                    forall|x: int|
                        0 <= x < order@.len() ==> self.corridor_of_row(
                            #[trigger] order@[x] as int,
                        ) == c,
                    forall|i: int|
                        0 <= i < n ==> #[trigger] out@[i] == start[i] || (out@[i] is Some && out@[i]->0
                            < n && self.corridor_of_row(i) == c && next_in(
                            order@,
                            i as usize,
                            out@[i]->0,
                        )),
                    forall|x: int|
                        0 <= x < k ==> out@[#[trigger] order@[x] as int] is Some,
                decreases order@.len() - k,
            {
                let ghost before = out@;
                out[order[k]] = Some(order[k + 1]);
                assert(next_in(order@, order@[k as int], order@[k + 1]));
                assert forall|x: int| 0 <= x < k + 1 implies out@[#[trigger] order@[x] as int] is Some by {
                    if x < k {
                        assert(before[order@[x] as int] is Some);
                    }
                }
                k += 1;
            }
            assert forall|i: int| 0 <= i < n implies match #[trigger] out@[i] {
                Some(j) => j < n && next_in(
                    self.corridor_order(self.corridor_of_row(i), cpos@),
                    i as usize,
                    j,
                ),
                None => map.keys().subrange(0, g + 1).contains(self.corridor_of_row(i))
                    ==> self.corridor_order(self.corridor_of_row(i), cpos@).last() == i as usize,
            } by {
                assert(start[i] == start[i]);
                if out@[i] is None {
                    let now = map.keys().subrange(0, g + 1);
                    let then = map.keys().subrange(0, g as int);
                    if self.corridor_of_row(i) == c {
                        // in this corridor, and nothing was written: the last one
                        assert(p(i));
                        assert(members@.contains(i as usize));
                        assert(order@.contains(i as usize));
                        let x = choose|x: int| 0 <= x < order@.len() && order@[x] == i as usize;
                        if x < k {
                            assert(out@[order@[x] as int] is Some);
                        }
                        assert(x == order@.len() - 1);
                    } else if now.contains(self.corridor_of_row(i)) {
                        let x = choose|x: int|
                            0 <= x < now.len() && now[x] == self.corridor_of_row(i);
                        assert(then[x] == self.corridor_of_row(i));
                        assert(start[i] is None);
                    }
                }
            }
            g += 1;
        }
        assert forall|i: int| 0 <= i < n implies match #[trigger] out@[i] {
            Some(j) => j < n && next_in(
                self.corridor_order(self.corridor_of_row(i), cpos@),
                i as usize,
                j,
            ),
            None => self.corridor_order(self.corridor_of_row(i), cpos@).last() == i as usize,
        } by {
            if out@[i] is None {
                let c = self.corridor_of_row(i);
                lemma_indices(n as int, self.in_corridor(c));
                assert(self.in_corridor(c)(i));
                assert(map.group(c).contains(i as usize));
                assert(map.keys().contains(c));
                assert(map.keys().subrange(0, g as int) =~= map.keys());
            }
        }
        out
    }

    /// Who is next to whom, given every vehicle's measured corridor position.
    pub fn neighbors(&self, cpos: &Vec<Quantity>) -> (r: Neighbors)
        requires
            self.wf(),
            cpos@.len() == self.rows().len(),
        ensures
            r.sees(self, cpos@),
    {
        let n = self.fleet.rows.len();
        let mut by_corridor: GroupMap<usize> = GroupMap::new();
        let mut by_lane: GroupMap<usize> = GroupMap::new();
        let mut approaching: GroupMap<usize> = GroupMap::new();
        let mut crossing_at: GroupMap<usize> = GroupMap::new();
        let mut crossing_mvs: GroupMap<MovementId> = GroupMap::new();
        let mut moving_crossing_mvs: GroupMap<MovementId> = GroupMap::new();
        let mut i: usize = 0;
        while i < n
            invariant
                self.wf(),
                n == self.rows().len(),
                i <= n,
                gathered(
                    self,
                    i as int,
                    &by_corridor,
                    &by_lane,
                    &approaching,
                    &crossing_at,
                    &crossing_mvs,
                    &moving_crossing_mvs,
                ),
            decreases n - i,
        {
            let v = &self.fleet.rows[i];
            assert(self.rows()[i as int].placed(&self.network));
            by_corridor.push(self.topology.corridors.of_lane[v.lane.0 as usize], i);
            by_lane.push(v.lane.0, i);
            match v.crossing {
                Some(c) => {
                    assert(self.network.movement_ok(c.movement.0 as int));
                    let node = self.network.movement(c.movement).node;
                    let key = self.network.node(node).intersection;
                    crossing_at.push(key, i);
                    let path = self.path_movements(v, c.movement);
                    if Quantity::at(MOVING_SPEED).at_most(v.speed) {
                        push_all(&mut moving_crossing_mvs, key, &path);
                    }
                    push_all(&mut crossing_mvs, key, &path);
                },
                None => {
                    let key = self.network.node(self.downstream_node(v.lane)).intersection;
                    approaching.push(key, i);
                },
            }
            i += 1;
        }
        let leader_of = self.corridor_leaders(&by_corridor, cpos);
        proof {
            assert forall|k: u32| within(#[trigger] by_lane.group(k), n as nat) && is_rising(
                by_lane.group(k),
            ) by {
                lemma_indices(n as int, self.on_lane(k));
            }
        }
        self.sort_lane_groups(&mut by_lane);
        Neighbors {
            leader_of,
            by_lane,
            approaching,
            crossing_at,
            crossing_mvs,
            moving_crossing_mvs,
        }
    }

    /// The node at the end of a lane.
    pub fn downstream_node(&self, lane: LaneId) -> (r: crate::network::NodeId)
        requires
            self.network.wf(),
            self.network.has_lane(lane),
        ensures
            r == self.network.end_of(lane),
            self.network.has_node(r),
    {
        assert(self.network.lane_ok(lane.0 as int));
        assert(self.network.link_ok(self.network.link_of(lane).0 as int));
        self.network.link(self.network.lane(lane).link).to
    }
}

} // verus!
