//! Collisions: which vehicles have run into one another, how that is recorded,
//! and what the fleet is once every vehicle's fate is known.

use vstd::prelude::*;
use crate::corridor::is_corridor;
use crate::fleet::{Fate, NetVehicle};
use crate::groups::GroupMap;
use crate::neighbors::Neighbors;
use crate::quantity::{place, Quantity, ZERO};
use crate::search::{indices_where, last_index, lemma_indices};
use crate::world::{CrashKind, CrashRecord, NetWorld, MAX_CRASH_SITES};

verus! {

/// How a vehicle was hit, and how fast the pair was closing (a single-precision
/// bit pattern).
#[derive(Clone, Copy, Debug, PartialEq, Eq, Structural)]
pub struct Hit {
    pub kind: CrashKind,
    pub closing: u32,
}

/// Two rows whose bodies may meet inside a node.
#[derive(Clone, Copy, Debug, PartialEq, Eq, Structural)]
pub struct Pair {
    pub a: usize,
    pub b: usize,
}

/// A vehicle that is still on the road.
pub open spec fn on_road(f: Fate) -> bool {
    f == Fate::Alive || f is Entered
}

/// The pair comes before another, by first row and then by second.
pub open spec fn pair_before(p: Pair, q: Pair) -> bool {
    p.a < q.a || (p.a == q.a && p.b < q.b)
}

/// The kept end of a crash log.
pub open spec fn newest(log: Seq<CrashRecord>) -> Seq<CrashRecord> {
    if log.len() <= MAX_CRASH_SITES {
        log
    } else {
        log.subrange(log.len() - MAX_CRASH_SITES, log.len() as int)
    }
}

impl NetWorld {
    /// The vehicle has just landed where its corridor begins.
    pub open spec fn begins_corridor(&self, v: NetVehicle, fate: Fate) -> bool {
        let c = self.topology.corridors.of_lane@[v.lane.0 as int] as int;
        fate is Entered && self.topology.corridors.chains@[c]@[0] == v.lane
    }

    /// The places of two vehicles that were in one corridor compare: they are in one
    /// corridor, and not just one of them has come to its beginning.
    pub open spec fn comparable(&self, rows: Seq<NetVehicle>, fates: Seq<Fate>, a: int, b: int) -> bool {
        let of = self.topology.corridors.of_lane@;
        of[rows[a].lane.0 as int] == of[rows[b].lane.0 as int] && self.begins_corridor(
            rows[a],
            fates[a],
        ) == self.begins_corridor(rows[b], fates[b])
    }

    /// Row `f` has run into the leader it had before the step: its front has passed
    /// the leader's rear.
    pub open spec fn rear_ended(
        &self,
        rows: Seq<NetVehicle>,
        fates: Seq<Fate>,
        nb: &Neighbors,
        gaps: Seq<Quantity>,
        f: int,
    ) -> bool {
        let l = nb.leader_of@[f]->0 as int;
        &&& nb.leader_of@[f] is Some
        &&& on_road(fates[f])
        &&& on_road(fates[l])
        &&& rows[f].wreck is None
        &&& self.comparable(rows, fates, f, l)
        &&& !(rows[f].crossing is Some && rows[l].crossing is Some && (rows[f].crossing->0).movement
            != (rows[l].crossing->0).movement)
        &&& gaps[f].is_below(place(ZERO))
    }

    /// Of a follower: it ran into its leader, and row `x` is one of the two that
    /// crash by it; a wreck that is hit does not crash again.
    pub open spec fn rear_end_of(
        &self,
        rows: Seq<NetVehicle>,
        fates: Seq<Fate>,
        nb: &Neighbors,
        gaps: Seq<Quantity>,
        x: int,
    ) -> spec_fn(int) -> bool {
        |f: int|
            self.rear_ended(rows, fates, nb, gaps, f) && (f == x || (nb.leader_of@[f] == Some(
                x as usize,
            ) && rows[x].wreck is None))
    }

    /// The intersection that a vehicle crosses.
    pub open spec fn crossed_key(&self, v: &NetVehicle) -> u32 {
        self.network.node_at(self.network.movement_at((v.crossing->0).movement).node).intersection
    }

    /// Of a row: on the road and crossing the intersection.
    pub open spec fn is_inside(&self, rows: Seq<NetVehicle>, fates: Seq<Fate>, key: u32) -> spec_fn(
        int,
    ) -> bool {
        |i: int| rows[i].crossing is Some && on_road(fates[i]) && self.crossed_key(&rows[i]) == key
    }

    /// Two rows, in order, on the road inside one intersection, on paths that
    /// meet, not both wrecks: their bodies may collide.
    pub open spec fn may_collide(&self, rows: Seq<NetVehicle>, fates: Seq<Fate>, p: Pair) -> bool {
        let (i, j) = (p.a as int, p.b as int);
        &&& i < j < rows.len()
        &&& rows[i].crossing is Some
        &&& rows[j].crossing is Some
        &&& on_road(fates[i])
        &&& on_road(fates[j])
        &&& self.crossed_key(&rows[i]) == self.crossed_key(&rows[j])
        &&& !(rows[i].wreck is Some && rows[j].wreck is Some)
        &&& self.network.paths_cross(
            (rows[i].crossing->0).movement,
            (rows[j].crossing->0).movement,
        )
    }

    /// Exactly the pairs that may collide, in order.
    pub open spec fn all_pairs(&self, rows: Seq<NetVehicle>, fates: Seq<Fate>, pairs: Seq<Pair>) -> bool {
        &&& forall|p: Pair| #[trigger] pairs.contains(p) <==> self.may_collide(rows, fates, p)
        &&& forall|k: int, l: int|
            0 <= k < l < pairs.len() ==> pair_before(#[trigger] pairs[k], #[trigger] pairs[l])
    }

    /// Of a pair: the bodies met, and row `x` is one of the two that crash by it.
    pub open spec fn impact_of(
        rows: Seq<NetVehicle>,
        pairs: Seq<Pair>,
        impacts: Seq<Option<u32>>,
        x: int,
    ) -> spec_fn(int) -> bool {
        |k: int| impacts[k] is Some && (pairs[k].a == x || pairs[k].b == x) && rows[x].wreck is None
    }

    /// How row `x` was hit in this tick: by the last of its impacts inside a
    /// node, else by the last of its rear-end collisions.
    pub open spec fn hit_of(
        &self,
        rows: Seq<NetVehicle>,
        fates: Seq<Fate>,
        nb: &Neighbors,
        gaps: Seq<Quantity>,
        closings: Seq<u32>,
        pairs: Seq<Pair>,
        impacts: Seq<Option<u32>>,
        x: int,
    ) -> Option<Hit> {
        match last_index(pairs.len() as int, Self::impact_of(rows, pairs, impacts, x)) {
            Some(k) => Some(Hit { kind: CrashKind::Junction, closing: impacts[k]->0 }),
            None => match last_index(
                rows.len() as int,
                self.rear_end_of(rows, fates, nb, gaps, x),
            ) {
                Some(f) => Some(Hit { kind: CrashKind::RearEnd, closing: closings[f] }),
                None => None,
            },
        }
    }

    /// Every row is placed in the network.
    pub open spec fn all_placed(&self, rows: Seq<NetVehicle>) -> bool {
        forall|i: int| 0 <= i < rows.len() ==> (#[trigger] rows[i]).placed(&self.network)
    }
}

/// A wreck never crashes again.
pub proof fn wrecks_are_not_hit_again(
    w: &NetWorld,
    rows: Seq<NetVehicle>,
    fates: Seq<Fate>,
    nb: &Neighbors,
    gaps: Seq<Quantity>,
    closings: Seq<u32>,
    pairs: Seq<Pair>,
    impacts: Seq<Option<u32>>,
    x: int,
)
    requires
        0 <= x < rows.len(),
        rows[x].wreck is Some,
    ensures
        w.hit_of(rows, fates, nb, gaps, closings, pairs, impacts, x) is None,
{
    lemma_last_none(pairs.len() as int, NetWorld::impact_of(rows, pairs, impacts, x));
    lemma_last_none(rows.len() as int, w.rear_end_of(rows, fates, nb, gaps, x));
}

/// There is no tolerance band: as soon as a follower's front has passed its
/// leader's rear, both are hit, but for one that is a wreck already.
pub proof fn an_overrun_hits_both(
    w: &NetWorld,
    rows: Seq<NetVehicle>,
    fates: Seq<Fate>,
    nb: &Neighbors,
    gaps: Seq<Quantity>,
    closings: Seq<u32>,
    pairs: Seq<Pair>,
    impacts: Seq<Option<u32>>,
    f: int,
)
    requires
        0 <= f < rows.len(),
        nb.leader_of@[f] matches Some(l) && l < rows.len(),
        on_road(fates[f]),
        on_road(fates[nb.leader_of@[f]->0 as int]),
        rows[f].wreck is None,
        rows[nb.leader_of@[f]->0 as int].wreck is None,
        w.comparable(rows, fates, f, nb.leader_of@[f]->0 as int),
        rows[f].crossing is Some && rows[nb.leader_of@[f]->0 as int].crossing is Some ==> (
        rows[f].crossing->0).movement == (rows[nb.leader_of@[f]->0 as int].crossing->0).movement,
        gaps[f].is_below(place(ZERO)),
    ensures
        w.hit_of(rows, fates, nb, gaps, closings, pairs, impacts, f) is Some,
        w.hit_of(rows, fates, nb, gaps, closings, pairs, impacts, nb.leader_of@[f]->0 as int) is Some,
{
    let l = nb.leader_of@[f]->0 as int;
    let (pf, pl) = (
        w.rear_end_of(rows, fates, nb, gaps, f),
        w.rear_end_of(rows, fates, nb, gaps, l),
    );
    assert(pf(f) && pl(f));
    lemma_last_some(rows.len() as int, pf, f);
    lemma_last_some(rows.len() as int, pl, f);
}

proof fn lemma_last_some(n: int, p: spec_fn(int) -> bool, k: int)
    requires
        0 <= k < n,
        p(k),
    ensures
        last_index(n, p) is Some,
    decreases n,
{
    if !p(n - 1) {
        lemma_last_some(n - 1, p, k);
    }
}

proof fn lemma_last_none(n: int, p: spec_fn(int) -> bool)
    requires
        forall|k: int| 0 <= k < n ==> !#[trigger] p(k),
    ensures
        last_index(n, p) is None,
    decreases n,
{
    if n > 0 {
        assert(!p(n - 1));
        lemma_last_none(n - 1, p);
    }
}

impl NetWorld {
    fn is_rear_ended(
        &self,
        rows: &Vec<NetVehicle>,
        fates: &Vec<Fate>,
        nb: &Neighbors,
        gaps: &Vec<Quantity>,
        f: usize,
    ) -> (r: bool)
        requires
            self.wf(),
            self.all_placed(rows@),
            fates@.len() == rows@.len(),
            gaps@.len() == rows@.len(),
            nb.leader_of@.len() == rows@.len(),
            nb.leader_of@[f as int] matches Some(l) ==> l < rows@.len(),
            f < rows@.len(),
        ensures
            r == self.rear_ended(rows@, fates@, nb, gaps@, f as int),
    {
        let l = match nb.leader_of[f] {
            Some(l) => l,
            None => {
                return false;
            },
        };
        assert(rows@[f as int].placed(&self.network));
        assert(rows@[l as int].placed(&self.network));
        let (vf, vl) = (&rows[f], &rows[l]);
        if !is_on_road(fates[f]) || !is_on_road(fates[l]) || vf.wreck.is_some() {
            return false;
        }
        if self.topology.corridors.of_lane[vf.lane.0 as usize]
            != self.topology.corridors.of_lane[vl.lane.0 as usize] {
            return false;
        }
        if self.is_at_beginning(vf, fates[f]) != self.is_at_beginning(vl, fates[l]) {
            return false;
        }
        if let (Some(a), Some(b)) = (vf.crossing, vl.crossing) {
            if a.movement != b.movement {
                return false;
            }
        }
        gaps[f].below(Quantity::at(ZERO))
    }

    fn is_at_beginning(&self, v: &NetVehicle, fate: Fate) -> (r: bool)
        requires
            self.wf(),
            v.placed(&self.network),
        ensures
            r == self.begins_corridor(*v, fate),
    {
        let corridors = &self.topology.corridors;
        let c = corridors.of_lane[v.lane.0 as usize] as usize;
        assert(is_corridor(&self.network, corridors.chains@[c as int]@));
        let landed = match fate {
            Fate::Entered(_) => true,
            _ => false,
        };
        landed && corridors.chains[c][0] == v.lane
    }

    /// The pairs of vehicles whose bodies may have met inside a node, in order.
    pub fn junction_pairs(&self, rows: &Vec<NetVehicle>, fates: &Vec<Fate>) -> (pairs: Vec<Pair>)
        requires
            self.wf(),
            self.all_placed(rows@),
            fates@.len() == rows@.len(),
        ensures
            self.all_pairs(rows@, fates@, pairs@),
    {
        let n = rows.len();
        let mut inside: GroupMap<usize> = GroupMap::new();
        let mut i: usize = 0;
        while i < n
            invariant
                self.wf(),
                self.all_placed(rows@),
                n == rows@.len(),
                fates@.len() == n,
                i <= n,
                inside.wf(),
                forall|k: u32| #[trigger]
                    inside.group(k) == indices_where(i as int, self.is_inside(rows@, fates@, k)),
            decreases n - i,
        {
            let v = &rows[i];
            assert(rows@[i as int].placed(&self.network));
            if let Some(c) = v.crossing {
                if is_on_road(fates[i]) {
                    assert(self.network.movement_ok(c.movement.0 as int));
                    let key = self.network.node(self.network.movement(c.movement).node).intersection;
                    inside.push(key, i);
                }
            }
            i += 1;
        }
        let mut pairs: Vec<Pair> = Vec::new();
        let mut a: usize = 0;
        while a < n
            invariant
                self.wf(),
                self.all_placed(rows@),
                n == rows@.len(),
                fates@.len() == n,
                inside.wf(),
                forall|k: u32| #[trigger]
                    inside.group(k) == indices_where(n as int, self.is_inside(rows@, fates@, k)),
                a <= n,
                forall|p: Pair| #[trigger]
                    pairs@.contains(p) <==> p.a < a && self.may_collide(rows@, fates@, p),
                forall|k: int, l: int|
                    0 <= k < l < pairs@.len() ==> pair_before(
                        #[trigger] pairs@[k],
                        #[trigger] pairs@[l],
                    ),
            decreases n - a,
        {
            let v = &rows[a];
            assert(rows@[a as int].placed(&self.network));
            let ghost start = pairs@;
            let mut here: bool = false;
            if let Some(c) = v.crossing {
                if is_on_road(fates[a]) {
                    here = true;
                }
            }
            if here {
                let m = v.crossing.unwrap().movement;
                assert(self.network.movement_ok(m.0 as int));
                let key = self.network.node(self.network.movement(m).node).intersection;
                let ghost list0 = indices_where(n as int, self.is_inside(rows@, fates@, key));
                proof {
                    lemma_indices(n as int, self.is_inside(rows@, fates@, key));
                    assert(inside.group(key) == list0);
                    assert(self.is_inside(rows@, fates@, key)(a as int));
                    assert(list0.contains(a as usize));
                }
                if let Some(list) = inside.get(&key) {
                    self.pairs_with(rows, fates, a, list, key, &mut pairs);
                }
            }
            assert forall|p: Pair| #[trigger] pairs@.contains(p) <==> p.a < a + 1
                && self.may_collide(rows@, fates@, p) by {
                if !here {
                    assert(p.a == a ==> !self.may_collide(rows@, fates@, p));
                    assert(pairs@ == start);
                    assert(start.contains(p) <==> p.a < a && self.may_collide(rows@, fates@, p));
                } else {
                    assert(start.contains(p) <==> p.a < a && self.may_collide(rows@, fates@, p));
                }
            }
            a += 1;
        }
        pairs
    }

    fn pairs_with(
        &self,
        rows: &Vec<NetVehicle>,
        fates: &Vec<Fate>,
        a: usize,
        list: &Vec<usize>,
        key: u32,
        pairs: &mut Vec<Pair>,
    )
        requires
            self.wf(),
            self.all_placed(rows@),
            fates@.len() == rows@.len(),
            a < rows@.len(),
            self.is_inside(rows@, fates@, key)(a as int),
            list@ == indices_where(rows@.len() as int, self.is_inside(rows@, fates@, key)),
            forall|p: Pair| #[trigger] old(pairs)@.contains(p) ==> p.a < a,
            forall|k: int, l: int|
                0 <= k < l < old(pairs)@.len() ==> pair_before(
                    #[trigger] old(pairs)@[k],
                    #[trigger] old(pairs)@[l],
                ),
        ensures
            forall|p: Pair| #[trigger]
                final(pairs)@.contains(p) <==> old(pairs)@.contains(p) || (p.a == a
                    && self.may_collide(rows@, fates@, p)),
            forall|k: int, l: int|
                0 <= k < l < final(pairs)@.len() ==> pair_before(
                    #[trigger] final(pairs)@[k],
                    #[trigger] final(pairs)@[l],
                ),
    {
        let ghost start = pairs@;
        let ghost inside = self.is_inside(rows@, fates@, key);
        assert(rows.len() == rows@.len());
        proof {
            lemma_indices(rows@.len() as int, inside);
        }
        let mut k: usize = 0;
        while k < list.len()
            invariant
                self.wf(),
                self.all_placed(rows@),
                fates@.len() == rows@.len(),
                rows@.len() <= usize::MAX,
                a < rows@.len(),
                inside == self.is_inside(rows@, fates@, key),
                inside(a as int),
                list@ == indices_where(rows@.len() as int, inside),
                k <= list@.len(),
                forall|x: int|
                    0 <= x < list@.len() ==> 0 <= #[trigger] list@[x] < rows@.len() && inside(
                        list@[x] as int,
                    ),
                forall|x: int, y: int|
                    0 <= x < y < list@.len() ==> #[trigger] list@[x] < #[trigger] list@[y],
                forall|p: Pair| #[trigger] start.contains(p) ==> p.a < a,
                forall|p: Pair| #[trigger]
                    pairs@.contains(p) <==> start.contains(p) || (p.a == a && self.may_collide(
                        rows@,
                        fates@,
                        p,
                    ) && list@.subrange(0, k as int).contains(p.b)),
                forall|x: int, y: int|
                    0 <= x < y < pairs@.len() ==> pair_before(
                        #[trigger] pairs@[x],
                        #[trigger] pairs@[y],
                    ),
            decreases list@.len() - k,
        {
            let b = list[k];
            let ghost before = pairs@;
            let ghost then = list@.subrange(0, k as int);
            let ghost now = list@.subrange(0, k + 1);
            assert(now =~= then.push(b));
            assert(rows@[a as int].placed(&self.network));
            assert(rows@[b as int].placed(&self.network));
            assert(inside(b as int));
            let mut meet: bool = false;
            if b > a && !(rows[a].wreck.is_some() && rows[b].wreck.is_some()) {
                let ma = rows[a].crossing.unwrap().movement;
                let mb = rows[b].crossing.unwrap().movement;
                meet = self.network.movements_conflict(ma, mb);
            }
            let ghost q = Pair { a, b };
            assert(meet == self.may_collide(rows@, fates@, q));
            if meet {
                proof {
                    // nothing before it comes after it
                    assert forall|x: int| 0 <= x < pairs@.len() implies pair_before(
                        #[trigger] pairs@[x],
                        q,
                    ) by {
                        assert(pairs@.contains(pairs@[x]));
                        if !start.contains(pairs@[x]) {
                            let y = choose|y: int| 0 <= y < then.len() && then[y] == pairs@[x].b;
                            assert(list@[y] < list@[k as int]);
                        }
                    }
                }
                pairs.push(Pair { a, b });
            }
            assert forall|p: Pair| #[trigger] pairs@.contains(p) <==> start.contains(p) || (p.a == a
                && self.may_collide(rows@, fates@, p) && now.contains(p.b)) by {
                if before.contains(p) {
                    let x = choose|x: int| 0 <= x < before.len() && before[x] == p;
                    assert(pairs@[x] == p);
                    if then.contains(p.b) {
                        let y = choose|y: int| 0 <= y < then.len() && then[y] == p.b;
                        assert(now[y] == p.b);
                    }
                }
                if p == q && meet {
                    assert(pairs@[pairs@.len() - 1] == p);
                    assert(now[k as int] == b);
                }
                if pairs@.contains(p) && !before.contains(p) {
                    let x = choose|x: int| 0 <= x < pairs@.len() && pairs@[x] == p;
                    if x < before.len() {
                        assert(before[x] == p);
                    }
                    assert(p == q);
                }
                if p.a == a && self.may_collide(rows@, fates@, p) && now.contains(p.b) {
                    let y = choose|y: int| 0 <= y < now.len() && now[y] == p.b;
                    if y < k {
                        assert(then[y] == p.b);
                        assert(before.contains(p));
                    } else {
                        assert(p == q);
                    }
                }
            }
            k += 1;
        }
        assert forall|p: Pair| #[trigger] pairs@.contains(p) <==> start.contains(p) || (p.a == a
            && self.may_collide(rows@, fates@, p)) by {
            assert(list@.subrange(0, k as int) =~= list@);
            if p.a == a && self.may_collide(rows@, fates@, p) {
                assert(inside(p.b as int));
                assert(list@.contains(p.b as int as usize));
            }
        }
    }

    /// How every vehicle was hit in this tick. The measured columns hold every
    /// row's gap to the leader it had and their closing speed; `impacts` holds,
    /// per pair of [`NetWorld::junction_pairs`], the closing speed of bodies that
    /// met.
    pub fn detect_crashes(
        &self,
        rows: &Vec<NetVehicle>,
        fates: &Vec<Fate>,
        nb: &Neighbors,
        gaps: &Vec<Quantity>,
        closings: &Vec<u32>,
        pairs: &Vec<Pair>,
        impacts: &Vec<Option<u32>>,
    ) -> (hits: Vec<Option<Hit>>)
        requires
            self.wf(),
            self.all_placed(rows@),
            fates@.len() == rows@.len(),
            gaps@.len() == rows@.len(),
            closings@.len() == rows@.len(),
            nb.leader_of@.len() == rows@.len(),
            forall|f: int|
                0 <= f < rows@.len() && (#[trigger] nb.leader_of@[f]) is Some
                    ==> nb.leader_of@[f]->0 < rows@.len(),
            self.all_pairs(rows@, fates@, pairs@),
            impacts@.len() == pairs@.len(),
        ensures
            hits@.len() == rows@.len(),
            forall|x: int|
                0 <= x < hits@.len() ==> #[trigger] hits@[x] == self.hit_of(
                    rows@,
                    fates@,
                    nb,
                    gaps@,
                    closings@,
                    pairs@,
                    impacts@,
                    x,
                ),
    {
        let n = rows.len();
        let mut hits: Vec<Option<Hit>> = vec![None; n];
        let mut f: usize = 0;
        while f < n
            invariant
                self.wf(),
                self.all_placed(rows@),
                n == rows@.len(),
                fates@.len() == n,
                gaps@.len() == n,
                closings@.len() == n,
                nb.leader_of@.len() == n,
                forall|k: int|
                    0 <= k < n && (#[trigger] nb.leader_of@[k]) is Some ==> nb.leader_of@[k]->0 < n,
                hits@.len() == n,
                f <= n,
                forall|x: int|
                    0 <= x < n ==> #[trigger] hits@[x] == (match last_index(
                        f as int,
                        self.rear_end_of(rows@, fates@, nb, gaps@, x),
                    ) {
                        Some(k) => Some(Hit { kind: CrashKind::RearEnd, closing: closings@[k] }),
                        None => None,
                    }),
            decreases n - f,
        {
            let ghost before = hits@;
            if self.is_rear_ended(rows, fates, nb, gaps, f) {
                let hit = Some(Hit { kind: CrashKind::RearEnd, closing: closings[f] });
                hits[f] = hit;
                let l = nb.leader_of[f].unwrap();
                if rows[l].wreck.is_none() {
                    hits[l] = hit;
                }
            }
            assert forall|x: int| 0 <= x < n implies #[trigger] hits@[x] == (match last_index(
                f + 1,
                self.rear_end_of(rows@, fates@, nb, gaps@, x),
            ) {
                Some(k) => Some(Hit { kind: CrashKind::RearEnd, closing: closings@[k] }),
                None => None,
            }) by {
                assert(before[x] == (match last_index(
                    f as int,
                    self.rear_end_of(rows@, fates@, nb, gaps@, x),
                ) {
                    Some(k) => Some(Hit { kind: CrashKind::RearEnd, closing: closings@[k] }),
                    None => None,
                }));
            }
            f += 1;
        }
        let ghost rear = hits@;
        let mut k: usize = 0;
        while k < pairs.len()
            invariant
                n == rows@.len(),
                hits@.len() == n,
                rear.len() == n,
                self.all_pairs(rows@, fates@, pairs@),
                impacts@.len() == pairs@.len(),
                k <= pairs@.len(),
                forall|x: int|
                    0 <= x < n ==> #[trigger] hits@[x] == (match last_index(
                        k as int,
                        Self::impact_of(rows@, pairs@, impacts@, x),
                    ) {
                        Some(y) => Some(
                            Hit { kind: CrashKind::Junction, closing: impacts@[y]->0 },
                        ),
                        None => rear[x],
                    }),
            decreases pairs@.len() - k,
        {
            let ghost before = hits@;
            let p = pairs[k];
            assert(pairs@.contains(pairs@[k as int]));
            assert(self.may_collide(rows@, fates@, p));
            if let Some(closing) = impacts[k] {
                let hit = Some(Hit { kind: CrashKind::Junction, closing });
                if rows[p.a].wreck.is_none() {
                    hits[p.a] = hit;
                }
                if rows[p.b].wreck.is_none() {
                    hits[p.b] = hit;
                }
            }
            assert forall|x: int| 0 <= x < n implies #[trigger] hits@[x] == (match last_index(
                k + 1,
                Self::impact_of(rows@, pairs@, impacts@, x),
            ) {
                Some(y) => Some(Hit { kind: CrashKind::Junction, closing: impacts@[y]->0 }),
                None => rear[x],
            }) by {
                assert(before[x] == (match last_index(
                    k as int,
                    Self::impact_of(rows@, pairs@, impacts@, x),
                ) {
                    Some(y) => Some(Hit { kind: CrashKind::Junction, closing: impacts@[y]->0 }),
                    None => rear[x],
                }));
            }
            k += 1;
        }
        hits
    }
}

fn is_on_road(f: Fate) -> (r: bool)
    ensures
        r == on_road(f),
{
    match f {
        Fate::Alive => true,
        Fate::Entered(_) => true,
        _ => false,
    }
}

} // verus!
