//! The search behind routing: a [`Field`] holds, for one destination, every link's
//! remaining cost and the next link to take. A [`Search`] finds it, settling links
//! in the order of their remaining cost, as many at a time as it is told.

use vstd::prelude::*;
use crate::network::{LinkId, Network};
use crate::queue::{Entry, Queue};
use crate::search::{count_where, lemma_count_bounds, lemma_count_zero};

verus! {

/// Movement `m` leads from link `a` to link `b`.
pub open spec fn leads(net: &Network, m: int, a: LinkId, b: LinkId) -> bool {
    net.link_of(net.movements@[m].from_lane) == a && net.link_of(net.movements@[m].to_lane) == b
}

/// Some movement leads from link `a` to link `b`.
pub open spec fn joined(net: &Network, a: LinkId, b: LinkId) -> bool {
    exists|m: int| 0 <= m < net.movements@.len() && #[trigger] leads(net, m, a, b)
}

/// Some movement leads from the `l`-th link to `next`.
pub open spec fn is_hop(net: &Network, l: int, next: LinkId) -> bool {
    net.has_link(next) && joined(net, LinkId(l as u32), next)
}

/// A chain of joined links.
pub open spec fn is_route(net: &Network, s: Seq<LinkId>, from: LinkId, to: LinkId) -> bool {
    &&& s.len() > 0
    &&& s[0] == from
    &&& s[s.len() - 1] == to
    &&& forall|k: int| 0 <= k < s.len() ==> net.has_link(#[trigger] s[k])
    &&& forall|k: int| #![trigger s[k]] 0 <= k < s.len() - 1 ==> joined(net, s[k], s[k + 1])
}

/// What it costs to enter every link of the route after the first.
pub open spec fn route_cost(costs: Seq<u64>, s: Seq<LinkId>) -> int
    decreases s.len(),
{
    if s.len() <= 1 {
        0
    } else {
        costs[s[1].0 as int] + route_cost(costs, s.subrange(1, s.len() as int))
    }
}

/// No route between the same links costs less.
pub open spec fn is_least_route(
    net: &Network,
    costs: Seq<u64>,
    s: Seq<LinkId>,
    from: LinkId,
    to: LinkId,
) -> bool {
    &&& is_route(net, s, from, to)
    &&& forall|t: Seq<LinkId>| #[trigger]
        is_route(net, t, from, to) ==> route_cost(costs, s) <= route_cost(costs, t)
}

/// `d` is the cost of the cheapest route.
pub open spec fn is_distance(
    net: &Network,
    costs: Seq<u64>,
    from: LinkId,
    to: LinkId,
    d: int,
) -> bool {
    exists|s: Seq<LinkId>| #[trigger]
        is_least_route(net, costs, s, from, to) && route_cost(costs, s) == d
}

/// Some route exists.
pub open spec fn reaches(net: &Network, from: LinkId, to: LinkId) -> bool {
    exists|s: Seq<LinkId>| #[trigger] is_route(net, s, from, to)
}

/// For one destination: every link's remaining cost, and the link to take next.
#[derive(Debug)]
pub struct Field {
    pub dist: Vec<Option<u128>>,
    pub next: Vec<Option<LinkId>>,
}

impl Field {
    /// The tables are consistent: nothing is cheaper than any hop says, and
    /// every hop is as cheap as its link says.
    pub open spec fn settled(&self, net: &Network, costs: Seq<u64>, to: LinkId) -> bool {
        &&& self.dist@.len() == net.links@.len()
        &&& self.next@.len() == net.links@.len()
        &&& self.dist@[to.0 as int] == Some(0u128)
        &&& self.next@[to.0 as int] is None
        &&& forall|v: int|
            #![trigger self.next@[v]]
            0 <= v < net.links@.len() && v != to.0 ==> match self.dist@[v] {
                Some(d) => self.next@[v] matches Some(w) && net.has_link(w) && joined(
                    net,
                    LinkId(v as u32),
                    w,
                ) && self.dist@[w.0 as int] is Some && d == self.dist@[w.0 as int]->0
                    + costs[w.0 as int],
                None => self.next@[v] is None,
            }
        &&& forall|v: LinkId, w: LinkId| #[trigger]
            joined(net, v, w) && net.has_link(v) && net.has_link(w) && self.dist@[w.0 as int] is Some
                ==> self.dist@[v.0 as int] is Some && self.dist@[v.0 as int]->0
                <= self.dist@[w.0 as int]->0 + costs[w.0 as int]
    }

    /// The field of a destination under given link costs. Of equally cheap ways it
    /// takes the one over the fewest links, and of those the hop to the first link.
    pub open spec fn solves(&self, net: &Network, costs: Seq<u64>, to: LinkId) -> bool {
        &&& self.settled(net, costs, to)
        &&& forall|v: LinkId|
            net.has_link(v) ==> match #[trigger] self.dist@[v.0 as int] {
                Some(d) => is_distance(net, costs, v, to, d as int),
                None => !reaches(net, v, to),
            }
        &&& exists|key: Seq<Option<u128>>| #[trigger] keyed(net, costs, to, key, self.next@)
    }
}

/// What entering a link weighs: its cost, and then one hop.
pub open spec fn weight(cost: u64) -> int {
    cost * 0x1_0000_0000 + 1
}

/// The keys that the hops go by: a link's key is the weight of its way, no hop is
/// lighter, and of equally light hops the one to the first link is taken.
pub open spec fn keyed(
    net: &Network,
    costs: Seq<u64>,
    to: LinkId,
    key: Seq<Option<u128>>,
    next: Seq<Option<LinkId>>,
) -> bool {
    &&& key.len() == net.links@.len()
    &&& next.len() == net.links@.len()
    &&& key[to.0 as int] == Some(0u128)
    &&& next[to.0 as int] is None
    &&& forall|v: int|
        #![trigger next[v]]
        0 <= v < key.len() && v != to.0 ==> match key[v] {
            Some(k) => next[v] matches Some(w) && net.has_link(w) && joined(net, LinkId(v as u32), w)
                && key[w.0 as int] is Some && k == key[w.0 as int]->0 + weight(costs[w.0 as int]),
            None => next[v] is None,
        }
    &&& forall|v: LinkId, w: LinkId| #[trigger]
        joined(net, v, w) && net.has_link(v) && net.has_link(w) && key[w.0 as int] is Some
            ==> relaxed(costs, to, key, next, v, w)
}

/// The hop from `v` to `w` has been taken into account.
pub open spec fn relaxed(
    costs: Seq<u64>,
    to: LinkId,
    key: Seq<Option<u128>>,
    next: Seq<Option<LinkId>>,
    v: LinkId,
    w: LinkId,
) -> bool {
    let alt = key[w.0 as int]->0 + weight(costs[w.0 as int]);
    &&& key[v.0 as int] is Some
    &&& key[v.0 as int]->0 <= alt
    &&& key[v.0 as int]->0 == alt ==> next[v.0 as int] is Some && (next[v.0 as int]->0).0 <= w.0
}

proof fn lemma_no_heavier(
    net: &Network,
    costs: Seq<u64>,
    to: LinkId,
    key: Seq<Option<u128>>,
    next: Seq<Option<LinkId>>,
    other: Seq<Option<u128>>,
    its_next: Seq<Option<LinkId>>,
    v: LinkId,
)
    requires
        net.has_link(to),
        keyed(net, costs, to, key, next),
        keyed(net, costs, to, other, its_next),
        net.has_link(v),
        other[v.0 as int] is Some,
    ensures
        key[v.0 as int] is Some,
        key[v.0 as int]->0 <= other[v.0 as int]->0,
    decreases other[v.0 as int]->0,
{
    if v != to {
        assert(its_next[v.0 as int] is Some);
        let w = its_next[v.0 as int]->0;
        assert(joined(net, LinkId(v.0 as int as u32), w));
        assert(LinkId(v.0 as int as u32) == v);
        lemma_no_heavier(net, costs, to, key, next, other, its_next, w);
        assert(relaxed(costs, to, key, next, v, w));
    }
}

/// A destination has one field: whatever solves it under the same costs has the same
/// remaining costs and the same hops.
pub proof fn solutions_are_unique(net: &Network, costs: Seq<u64>, to: LinkId, f: &Field, g: &Field)
    requires
        net.wf(),
        net.has_link(to),
        f.solves(net, costs, to),
        g.solves(net, costs, to),
    ensures
        f.dist@ == g.dist@,
        f.next@ == g.next@,
{
    let k = choose|k: Seq<Option<u128>>| #[trigger] keyed(net, costs, to, k, f.next@);
    let l = choose|l: Seq<Option<u128>>| #[trigger] keyed(net, costs, to, l, g.next@);
    assert forall|v: int| 0 <= v < net.links@.len() implies k[v] == l[v] && f.dist@[v] == g.dist@[v] by {
        let x = LinkId(v as u32);
        assert(x.0 == v && net.has_link(x));
        if k[v] is Some {
            lemma_no_heavier(net, costs, to, l, g.next@, k, f.next@, x);
        }
        if l[v] is Some {
            lemma_no_heavier(net, costs, to, k, f.next@, l, g.next@, x);
        }
        if f.dist@[x.0 as int] is Some && g.dist@[x.0 as int] is Some {
            let (d, e) = (f.dist@[x.0 as int]->0 as int, g.dist@[x.0 as int]->0 as int);
            let s = choose|s: Seq<LinkId>| #[trigger]
                is_least_route(net, costs, s, x, to) && route_cost(costs, s) == d;
            let t = choose|t: Seq<LinkId>| #[trigger]
                is_least_route(net, costs, t, x, to) && route_cost(costs, t) == e;
            assert(is_route(net, s, x, to) && is_route(net, t, x, to));
        } else if f.dist@[x.0 as int] is Some {
            let s = choose|s: Seq<LinkId>| #[trigger] is_least_route(net, costs, s, x, to);
            assert(is_route(net, s, x, to));
        } else if g.dist@[x.0 as int] is Some {
            let s = choose|s: Seq<LinkId>| #[trigger] is_least_route(net, costs, s, x, to);
            assert(is_route(net, s, x, to));
        }
    }
    assert forall|v: int| 0 <= v < net.links@.len() implies f.next@[v] == g.next@[v] by {
        let x = LinkId(v as u32);
        assert(x.0 == v && net.has_link(x));
        if v != to.0 && k[v] is Some {
            let (a, b) = (f.next@[v]->0, g.next@[v]->0);
            assert(f.next@[v] is Some && g.next@[v] is Some);
            assert(joined(net, x, a) && joined(net, x, b));
            assert(relaxed(costs, to, k, f.next@, x, b));
            assert(relaxed(costs, to, l, g.next@, x, a));
        }
    }
    assert forall|v: int| 0 <= v < net.links@.len() implies f.dist@[v] == g.dist@[v] by {
        assert(k[v] == l[v]);
    }
    assert(f.dist@ =~= g.dist@);
    assert(f.next@ =~= g.next@);
}

pub proof fn lemma_route_tail(net: &Network, s: Seq<LinkId>, from: LinkId, to: LinkId)
    requires
        is_route(net, s, from, to),
        s.len() > 1,
    ensures
        is_route(net, s.subrange(1, s.len() as int), s[1], to),
        joined(net, s[0], s[1]),
{
    let t = s.subrange(1, s.len() as int);
    assert forall|k: int| 0 <= k < t.len() implies net.has_link(#[trigger] t[k]) by {
        assert(t[k] == s[k + 1]);
    }
    assert forall|k: int| #![trigger t[k]] 0 <= k < t.len() - 1 implies joined(net, t[k], t[k + 1]) by {
        assert(t[k] == s[k + 1]);
        assert(t[k + 1] == s[k + 2]);
        assert(joined(net, s[k + 1], s[k + 1 + 1]));
    }
    assert(joined(net, s[0], s[1int]));
}

/// A settled field never claims more than any route costs.
pub proof fn lemma_lower_bound(
    net: &Network,
    costs: Seq<u64>,
    f: &Field,
    s: Seq<LinkId>,
    from: LinkId,
    to: LinkId,
)
    requires
        f.settled(net, costs, to),
        is_route(net, s, from, to),
    ensures
        f.dist@[from.0 as int] is Some,
        f.dist@[from.0 as int]->0 <= route_cost(costs, s),
    decreases s.len(),
{
    assert(net.has_link(s[0]));
    if s.len() > 1 {
        lemma_route_tail(net, s, from, to);
        lemma_lower_bound(net, costs, f, s.subrange(1, s.len() as int), s[1], to);
        assert(net.has_link(s[1]));
    }
}

/// Hops never lead back: each goes to a link that was settled earlier.
pub open spec fn hops_descend(next: Seq<Option<LinkId>>, rank: Seq<usize>) -> bool {
    forall|v: int|
        #![trigger next[v]]
        0 <= v < next.len() && next[v] is Some ==> rank[(next[v]->0).0 as int] < rank[v]
}

pub proof fn lemma_route_prepend(
    net: &Network,
    costs: Seq<u64>,
    v: LinkId,
    w: LinkId,
    to: LinkId,
    s: Seq<LinkId>,
)
    requires
        net.has_link(v),
        joined(net, v, w),
        is_route(net, s, w, to),
    ensures
        is_route(net, seq![v] + s, v, to),
        route_cost(costs, seq![v] + s) == costs[w.0 as int] + route_cost(costs, s),
{
    let t = seq![v] + s;
    assert(t.subrange(1, t.len() as int) =~= s);
    assert forall|k: int| 0 <= k < t.len() implies net.has_link(#[trigger] t[k]) by {
        if k > 0 {
            assert(t[k] == s[k - 1]);
        }
    }
    assert forall|k: int| #![trigger t[k]] 0 <= k < t.len() - 1 implies joined(net, t[k], t[k + 1]) by {
        assert(t[k + 1] == s[k]);
        if k > 0 {
            assert(t[k] == s[k - 1]);
            assert(joined(net, s[k - 1], s[k - 1 + 1]));
        }
    }
}

/// Following the hops gives a route that costs what the field says.
proof fn lemma_witness(
    net: &Network,
    costs: Seq<u64>,
    f: &Field,
    rank: Seq<usize>,
    v: LinkId,
    to: LinkId,
) -> (s: Seq<LinkId>)
    requires
        f.settled(net, costs, to),
        net.has_link(to),
        rank.len() == net.links@.len(),
        hops_descend(f.next@, rank),
        net.has_link(v),
        f.dist@[v.0 as int] is Some,
    ensures
        is_route(net, s, v, to),
        route_cost(costs, s) == f.dist@[v.0 as int]->0,
    decreases rank[v.0 as int],
{
    if v == to {
        let s = seq![v];
        assert forall|k: int| 0 <= k < s.len() implies net.has_link(#[trigger] s[k]) by {}
        s
    } else {
        assert(f.next@[v.0 as int] is Some);
        let w = f.next@[v.0 as int]->0;
        let rest = lemma_witness(net, costs, f, rank, w, to);
        lemma_route_prepend(net, costs, v, w, to, rest);
        seq![v] + rest
    }
}

/// For every link, the links that some movement leads from.
pub fn feeder_links(net: &Network) -> (preds: Vec<Vec<LinkId>>)
    requires
        net.wf(),
    ensures
        feeders_listed(net, preds@),
{
    let n = net.links.len();
    let mut preds: Vec<Vec<LinkId>> = Vec::new();
    let mut i: usize = 0;
    while i < n
        invariant
            i <= n,
            preds@.len() == i,
            forall|k: int| 0 <= k < i ==> (#[trigger] preds@[k])@ == Seq::<LinkId>::empty(),
        decreases n - i,
    {
        preds.push(Vec::new());
        i += 1;
    }
    let mut m: usize = 0;
    while m < net.movements.len()
        invariant
            net.wf(),
            n == net.links@.len(),
            m <= net.movements@.len(),
            preds@.len() == n,
            forall|a: LinkId, b: LinkId|
                net.has_link(b) ==> (#[trigger] preds@[b.0 as int]@.contains(a) <==> exists|k: int|
                    0 <= k < m && #[trigger] leads(net, k, a, b)),
            forall|b: int, k: int|
                #![trigger preds@[b]@[k]]
                0 <= b < preds@.len() && 0 <= k < preds@[b]@.len() ==> net.has_link(preds@[b]@[k]),
        decreases net.movements@.len() - m,
    {
        assert(net.movement_ok(m as int));
        let a = net.lane(net.movements[m].from_lane).link;
        let b = net.lane(net.movements[m].to_lane).link;
        assert(net.lane_ok(net.movements@[m as int].from_lane.0 as int));
        assert(net.lane_ok(net.movements@[m as int].to_lane.0 as int));
        let ghost before = preds@;
        preds[b.0 as usize].push(a);
        assert forall|x: LinkId, y: LinkId| net.has_link(y) implies (
        #[trigger] preds@[y.0 as int]@.contains(x) <==> exists|k: int|
            0 <= k < m + 1 && #[trigger] leads(net, k, x, y)) by {
            if before[y.0 as int]@.contains(x) {
                let k = choose|k: int| 0 <= k < m && #[trigger] leads(net, k, x, y);
                assert(0 <= k < m + 1 && leads(net, k, x, y));
                let j = choose|j: int|
                    0 <= j < before[y.0 as int]@.len() && before[y.0 as int]@[j] == x;
                assert(preds@[y.0 as int]@[j] == x);
            }
            if leads(net, m as int, x, y) {
                assert(preds@[y.0 as int]@[before[y.0 as int]@.len() as int] == x);
            } else if preds@[y.0 as int]@.contains(x) {
                let j = choose|j: int|
                    0 <= j < preds@[y.0 as int]@.len() && preds@[y.0 as int]@[j] == x;
                assert(before[y.0 as int]@[j] == x);
                assert(before[y.0 as int]@.contains(x));
            }
        }
        assert forall|y: int, k: int|
            #![trigger preds@[y]@[k]]
            0 <= y < preds@.len() && 0 <= k < preds@[y]@.len() implies net.has_link(preds@[y]@[k]) by {
            if k < before[y]@.len() {
                assert(before[y]@[k] == preds@[y]@[k]);
            }
        }
        m += 1;
    }
    preds
}

/// Every link's feeders are listed, and nothing else.
pub open spec fn feeders_listed(net: &Network, preds: Seq<Vec<LinkId>>) -> bool {
    &&& preds.len() == net.links@.len()
    &&& forall|a: LinkId, b: LinkId|
        net.has_link(b) ==> (#[trigger] preds[b.0 as int]@.contains(a) <==> joined(net, a, b))
    &&& forall|b: int, k: int|
        #![trigger preds[b]@[k]]
        0 <= b < preds.len() && 0 <= k < preds[b]@.len() ==> net.has_link(preds[b]@[k])
}

/// How many links reach the destination.
pub open spec fn reach_count(net: &Network, to: LinkId) -> int {
    count_where(net.links@.len() as int, |v: int| reaches(net, LinkId(v as u32), to))
}

/// The heaviest that entering a link can weigh.
spec fn heaviest() -> int {
    weight(u64::MAX)
}

/// What the tables of a search keep between settling two links.
spec fn searching(
    net: &Network,
    costs: Seq<u64>,
    to: LinkId,
    key: Seq<Option<u128>>,
    next: Seq<Option<LinkId>>,
    rank: Seq<usize>,
    done: Seq<bool>,
    count: int,
) -> bool {
    &&& key.len() == net.links@.len()
    &&& next.len() == key.len()
    &&& rank.len() == key.len()
    &&& done.len() == key.len()
    &&& key[to.0 as int] == Some(0u128)
    &&& next[to.0 as int] is None
    &&& forall|v: int|
        #![trigger next[v]]
        0 <= v < key.len() && v != to.0 ==> hop_fits(net, costs, key, next, rank, done, count, v)
    &&& forall|v: int|
        0 <= v < key.len() && #[trigger] done[v] ==> key[v] is Some && rank[v] < count
    &&& forall|u: int, v: int|
        #![trigger done[u], done[v]]
        0 <= u < key.len() && 0 <= v < key.len() && done[u] && !done[v] && key[v] is Some
            ==> key[u]->0 <= key[v]->0
    &&& forall|v: int|
        0 <= v < key.len() && #[trigger] key[v] is Some ==> key[v]->0 <= count * heaviest()
}

/// The hop from a link leads to one settled earlier, and weighs what the keys say.
spec fn hop_fits(
    net: &Network,
    costs: Seq<u64>,
    key: Seq<Option<u128>>,
    next: Seq<Option<LinkId>>,
    rank: Seq<usize>,
    done: Seq<bool>,
    count: int,
    v: int,
) -> bool {
    match key[v] {
        Some(d) => next[v] matches Some(w) && net.has_link(w) && joined(net, LinkId(v as u32), w)
            && done[w.0 as int] && key[w.0 as int] is Some && d == key[w.0 as int]->0 + weight(
            costs[w.0 as int],
        ) && rank[w.0 as int] < (if done[v] {
            rank[v] as int
        } else {
            count
        }),
        None => next[v] is None,
    }
}

/// The hops into settled links have been taken into account.
spec fn all_relaxed(
    net: &Network,
    costs: Seq<u64>,
    to: LinkId,
    key: Seq<Option<u128>>,
    next: Seq<Option<LinkId>>,
    done: Seq<bool>,
) -> bool {
    forall|v: LinkId, w: LinkId| #[trigger]
        joined(net, v, w) && net.has_link(v) && net.has_link(w) && done[w.0 as int] ==> relaxed(
            costs,
            to,
            key,
            next,
            v,
            w,
        )
}

/// The queue has every link that is still to settle.
spec fn queued(key: Seq<Option<u128>>, done: Seq<bool>, open: &Queue) -> bool {
    &&& open.wf()
    &&& forall|v: int|
        0 <= v < key.len() && !done[v] && (#[trigger] key[v]) is Some ==> open.holds(
            Entry { cost: key[v]->0, link: v as usize },
        )
    &&& forall|e: Entry| #[trigger]
        open.holds(e) ==> e.link < key.len() && key[e.link as int] is Some
            && key[e.link as int]->0 <= e.cost
}

/// Nothing is left to settle.
spec fn at_end(key: Seq<Option<u128>>, done: Seq<bool>) -> bool {
    forall|v: int| #![trigger key[v]] 0 <= v < key.len() && !done[v] ==> key[v] is None
}

/// A search for one destination, as far as it has come.
#[derive(Debug)]
pub struct Search {
    to: LinkId,
    key: Vec<Option<u128>>,
    next: Vec<Option<LinkId>>,
    rank: Vec<usize>,
    done: Vec<bool>,
    count: usize,
    open: Queue,
    ended: bool,
}

impl Search {
    /// The destination.
    pub closed spec fn goal(&self) -> LinkId {
        self.to
    }

    /// How many links are settled.
    pub closed spec fn settled(&self) -> int {
        self.count as int
    }

    /// Every link that reaches the destination is settled.
    pub closed spec fn has_ended(&self) -> bool {
        self.ended
    }

    /// The search is sound, under these link costs.
    pub closed spec fn wf(&self, net: &Network, costs: Seq<u64>) -> bool {
        &&& net.has_link(self.to)
        &&& costs.len() == net.links@.len()
        &&& searching(
            net,
            costs,
            self.to,
            self.key@,
            self.next@,
            self.rank@,
            self.done@,
            self.count as int,
        )
        &&& all_relaxed(net, costs, self.to, self.key@, self.next@, self.done@)
        &&& self.count <= net.links@.len()
        &&& self.count == count_where(net.links@.len() as int, |v: int| self.done@[v])
        &&& queued(self.key@, self.done@, &self.open)
        &&& self.ended ==> at_end(self.key@, self.done@)
    }

    /// A search that has settled nothing yet.
    pub fn begin(net: &Network, to: LinkId) -> (r: Search)
        requires
            net.wf(),
            net.has_link(to),
        ensures
            forall|costs: Seq<u64>|
                costs.len() == net.links@.len() ==> #[trigger] r.wf(net, costs),
            r.goal() == to,
            r.settled() == 0,
            !r.has_ended(),
    {
        let n = net.links.len();
        let mut key: Vec<Option<u128>> = vec![None; n];
        let next: Vec<Option<LinkId>> = vec![None; n];
        let rank: Vec<usize> = vec![0; n];
        let done: Vec<bool> = vec![false; n];
        key[to.0 as usize] = Some(0u128);
        let mut open = Queue::new();
        open.push(Entry { cost: 0, link: to.0 as usize });
        proof {
            lemma_count_zero(n as int, |v: int| done@[v]);
        }
        Search { to, key, next, rank, done, count: 0, open, ended: false }
    }

    /// The cheapest link that is still to settle.
    fn cheapest_open(&mut self) -> (r: Option<usize>)
        requires
            queued(old(self).key@, old(self).done@, &old(self).open),
            old(self).done@.len() == old(self).key@.len(),
        ensures
            *final(self) == (Search { open: final(self).open, ..*old(self) }),
            queued(final(self).key@, final(self).done@, &final(self).open),
            match r {
                Some(u) => u < old(self).key@.len() && !old(self).done@[u as int]
                    && old(self).key@[u as int] is Some && forall|v: int|
                    #![trigger old(self).key@[v]]
                    0 <= v < old(self).key@.len() && !old(self).done@[v] && old(self).key@[v] is Some
                        ==> old(self).key@[u as int]->0 <= old(self).key@[v]->0,
                None => at_end(old(self).key@, old(self).done@),
            },
    {
        loop
            invariant
                *self == (Search { open: self.open, ..*old(self) }),
                queued(self.key@, self.done@, &self.open),
                self.done@.len() == self.key@.len(),
            decreases self.open.items().len(),
        {
            match self.open.first() {
                None => {
                    assert forall|v: int|
                        #![trigger self.key@[v]]
                        0 <= v < self.key@.len() && !self.done@[v] implies self.key@[v] is None by {
                        if self.key@[v] is Some {
                            assert(self.open.holds(
                                Entry { cost: self.key@[v]->0, link: v as usize },
                            ));
                        }
                    }
                    return None;
                },
                Some(e) => {
                    assert(self.open.holds(e));
                    if !self.done[e.link] {
                        proof {
                            let u = e.link as int;
                            let own = Entry { cost: self.key@[u]->0, link: u as usize };
                            assert(self.open.holds(own));
                            assert forall|v: int|
                                #![trigger self.key@[v]]
                                0 <= v < self.key@.len() && !self.done@[v] && self.key@[v] is Some implies self.key@[u]->0
                                <= self.key@[v]->0 by {
                                assert(self.open.holds(
                                    Entry { cost: self.key@[v]->0, link: v as usize },
                                ));
                            }
                        }
                        return Some(e.link);
                    }
                    let ghost before = self.open;
                    self.open.drop_first();
                    assert forall|v: int|
                        0 <= v < self.key@.len() && !self.done@[v] && (
                        #[trigger] self.key@[v]) is Some implies self.open.holds(
                        Entry { cost: self.key@[v]->0, link: v as usize },
                    ) by {
                        let own = Entry { cost: self.key@[v]->0, link: v as usize };
                        assert(self.key@.len() == self.key.len());
                        assert(before.holds(own));
                        assert(own != e);
                    }
                    assert forall|x: Entry| #[trigger] self.open.holds(x) implies x.link
                        < self.key@.len() && self.key@[x.link as int] is Some
                        && self.key@[x.link as int]->0 <= x.cost by {
                        assert(before.holds(x));
                    }
                },
            }
        }
    }

    /// Settle the next link; says whether there was one.
    fn settle(&mut self, net: &Network, feeders: &Vec<Vec<LinkId>>, costs: &Vec<u64>) -> (r: bool)
        requires
            net.wf(),
            feeders_listed(net, feeders@),
            old(self).wf(net, costs@),
        ensures
            final(self).wf(net, costs@),
            final(self).goal() == old(self).goal(),
            r ==> final(self).settled() == old(self).settled() + 1 && !final(self).has_ended(),
            !r ==> final(self).settled() == old(self).settled() && final(self).has_ended(),
    {
        let n = net.links.len();
        let u = match self.cheapest_open() {
            Some(u) => u,
            None => {
                self.ended = true;
                return false;
            },
        };
        let ghost key0 = self.key@;
        let ghost done0 = self.done@;
        let ghost rank0 = self.rank@;
        let ghost next0 = self.next@;
        proof {
            lemma_count_gain(n as int, self.done@, u as int);
        }
        self.ended = false;
        self.done[u] = true;
        self.rank[u] = self.count;
        self.count = self.count + 1;
        let du = self.key[u].unwrap();
        let ghost link_u = LinkId(u as u32);
        let ghost c = self.count as int;
        proof {
            assert(c <= 0xFFFF_FFFF);
            assert(weight(costs@[u as int]) <= heaviest());
            assert(du + weight(costs@[u as int]) <= c * heaviest()) by (nonlinear_arith)
                requires
                    du <= (c - 1) * heaviest(),
                    weight(costs@[u as int]) <= heaviest(),
            ;
            assert(c * heaviest() <= u128::MAX) by (nonlinear_arith)
                requires
                    0 <= c <= 0xFFFF_FFFF,
                    heaviest() == 0xFFFF_FFFF_FFFF_FFFF * 0x1_0000_0000 + 1,
            ;
        }
        let alt: u128 = du + (costs[u] as u128 * 0x1_0000_0000 + 1);
        let from = &feeders[u];
        proof {
            lemma_settled_one(net, costs@, self.to, key0, next0, rank0, done0, c - 1, u as int);
            assert(searching(
                net,
                costs@,
                self.to,
                self.key@,
                self.next@,
                self.rank@,
                self.done@,
                c,
            ));
        }
        let mut k: usize = 0;
        while k < from.len()
            invariant
                net.wf(),
                net.has_link(self.to),
                self.to == old(self).to,
                n == net.links@.len(),
                costs@.len() == n,
                u < n,
                self.count <= n,
                self.count == c,
                c == old(self).count + 1,
                !self.ended,
                self.done@ == done0.update(u as int, true),
                done0.len() == n,
                link_u == LinkId(u as u32),
                from@ == feeders@[u as int]@,
                feeders_listed(net, feeders@),
                k <= from@.len(),
                self.key@[u as int] == Some(du),
                alt == du + weight(costs@[u as int]),
                alt <= c * heaviest(),
                searching(
                    net,
                    costs@,
                    self.to,
                    self.key@,
                    self.next@,
                    self.rank@,
                    self.done@,
                    c,
                ),
                queued(self.key@, self.done@, &self.open),
                forall|v: int| 0 <= v < n && #[trigger] self.done@[v] ==> self.key@[v]->0 <= du,
                forall|v: int|
                    0 <= v < n && !(#[trigger] self.done@[v]) && self.key@[v] is Some ==> du
                        <= self.key@[v]->0,
                self.rank@[u as int] < c,
                forall|v: LinkId, w: LinkId| #[trigger]
                    joined(net, v, w) && net.has_link(v) && net.has_link(w) && done0[w.0 as int]
                        ==> relaxed(costs@, self.to, self.key@, self.next@, v, w),
                forall|j: int|
                    0 <= j < k ==> relaxed(
                        costs@,
                        self.to,
                        self.key@,
                        self.next@,
                        #[trigger] from@[j],
                        link_u,
                    ),
            decreases from@.len() - k,
        {
            let v = from[k];
            assert(feeders@[u as int]@[k as int] == v);
            assert(net.has_link(v));
            assert(feeders@[link_u.0 as int]@.contains(v));
            assert(joined(net, v, link_u));
            let ghost (key1, next1) = (self.key@, self.next@);
            let x = v.0 as usize;
            let better = match self.key[x] {
                Some(d) => alt < d,
                None => true,
            };
            let same = match (self.key[x], self.next[x]) {
                (Some(d), Some(w)) => alt == d && u < w.0 as usize,
                _ => false,
            };
            if better {
                self.key[x] = Some(alt);
                self.open.push(Entry { cost: alt, link: x });
            }
            if better || same {
                self.next[x] = Some(LinkId(u as u32));
            }
            proof {
                assert(!better && !same ==> self.key@ =~= key1 && self.next@ =~= next1);
                if better || same {
                    assert(v.0 != self.to.0);
                    assert(!self.done@[v.0 as int]);
                    lemma_relaxed_one(
                        net,
                        costs@,
                        self.to,
                        key1,
                        next1,
                        self.rank@,
                        self.done@,
                        c,
                        u as int,
                        v,
                        alt,
                    );
                    assert(self.key@ =~= key1.update(v.0 as int, Some(alt)));
                    assert(self.next@ =~= next1.update(v.0 as int, Some(link_u)));
                    assert forall|a: LinkId, w: LinkId| #[trigger]
                        joined(net, a, w) && net.has_link(a) && net.has_link(w) && done0[w.0 as int] implies relaxed(
                        costs@,
                        self.to,
                        self.key@,
                        self.next@,
                        a,
                        w,
                    ) by {
                        assert(relaxed(costs@, self.to, key1, next1, a, w));
                        assert(self.done@[w.0 as int]);
                        assert(w.0 != v.0);
                    }
                    assert forall|j: int| 0 <= j < k implies relaxed(
                        costs@,
                        self.to,
                        self.key@,
                        self.next@,
                        #[trigger] from@[j],
                        link_u,
                    ) by {
                        assert(relaxed(costs@, self.to, key1, next1, from@[j], link_u));
                    }
                } else {
                    assert(self.next@[v.0 as int] is Some || v.0 == self.to.0 || self.key@[v.0 as int]->0
                        < alt);
                }
                assert(relaxed(costs@, self.to, self.key@, self.next@, v, link_u));
            }
            k += 1;
        }
        proof {
            assert forall|v: LinkId, w: LinkId| #[trigger]
                joined(net, v, w) && net.has_link(v) && net.has_link(w) && self.done@[w.0 as int] implies relaxed(
            costs@, self.to, self.key@, self.next@, v, w) by {
                if w == link_u {
                    assert(feeders@[w.0 as int]@.contains(v));
                    let j = choose|j: int| 0 <= j < from@.len() && from@[j] == v;
                    assert(relaxed(costs@, self.to, self.key@, self.next@, from@[j], link_u));
                } else {
                    assert(done0[w.0 as int]);
                }
            }
        }
        true
    }

    /// Settle at most `budget` more links.
    pub fn advance(
        &mut self,
        net: &Network,
        feeders: &Vec<Vec<LinkId>>,
        costs: &Vec<u64>,
        budget: usize,
    )
        requires
            net.wf(),
            feeders_listed(net, feeders@),
            old(self).wf(net, costs@),
        ensures
            final(self).wf(net, costs@),
            final(self).goal() == old(self).goal(),
            final(self).settled() == (if old(self).settled() + budget < reach_count(
                net,
                old(self).goal(),
            ) {
                old(self).settled() + budget
            } else {
                reach_count(net, old(self).goal())
            }),
            final(self).has_ended() <==> final(self).settled() == reach_count(
                net,
                old(self).goal(),
            ),
    {
        let mut left: usize = budget;
        while left > 0 && !self.ended
            invariant
                net.wf(),
                feeders_listed(net, feeders@),
                self.wf(net, costs@),
                self.goal() == old(self).goal(),
                left <= budget,
                !self.ended ==> self.settled() == old(self).settled() + budget - left,
                self.ended ==> self.settled() <= old(self).settled() + budget - left,
            decreases left, (if self.ended {
                0int
            } else {
                1int
            }),
        {
            let more = self.settle(net, feeders, costs);
            if more {
                left -= 1;
            }
        }
        if !self.ended {
            if self.cheapest_open().is_none() {
                self.ended = true;
            } else {
                proof {
                    self.lemma_more_to_settle(net, costs@);
                }
            }
        }
        proof {
            self.lemma_count(net, costs@);
        }
    }

    /// Whether every link that reaches the destination is settled.
    pub fn is_ended(&self) -> (r: bool)
        ensures
            r == self.has_ended(),
    {
        self.ended
    }
}

proof fn lemma_settled_one(
    net: &Network,
    costs: Seq<u64>,
    to: LinkId,
    key: Seq<Option<u128>>,
    next: Seq<Option<LinkId>>,
    rank: Seq<usize>,
    done: Seq<bool>,
    count: int,
    u: int,
)
    requires
        searching(net, costs, to, key, next, rank, done, count),
        0 <= count < usize::MAX,
        0 <= u < key.len(),
        !done[u],
        key[u] is Some,
        forall|v: int|
            #![trigger key[v]]
            0 <= v < key.len() && !done[v] && key[v] is Some ==> key[u]->0 <= key[v]->0,
    ensures
        searching(
            net,
            costs,
            to,
            key,
            next,
            rank.update(u, count as usize),
            done.update(u, true),
            count + 1,
        ),
        forall|v: int| 0 <= v < key.len() && done[v] ==> (#[trigger] key[v])->0 <= key[u]->0,
{
    let (rank2, done2) = (rank.update(u, count as usize), done.update(u, true));
    assert forall|v: int|
        #![trigger next[v]]
        0 <= v < key.len() && v != to.0 implies hop_fits(
        net,
        costs,
        key,
        next,
        rank2,
        done2,
        count + 1,
        v,
    ) by {
        assert(hop_fits(net, costs, key, next, rank, done, count, v));
    }
    assert forall|v: int| 0 <= v < key.len() && #[trigger] key[v] is Some implies key[v]->0 <= (count
        + 1) * heaviest() by {
        assert(key[v]->0 <= count * heaviest());
        assert(count * heaviest() <= (count + 1) * heaviest()) by (nonlinear_arith)
            requires
                heaviest() >= 0,
        ;
    }
    assert forall|v: int| 0 <= v < key.len() && done[v] implies (#[trigger] key[v])->0 <= key[u]->0 by {
        assert(done[v] && !done[u]);
    }
    assert forall|a: int, b: int|
        #![trigger done2[a], done2[b]]
        0 <= a < key.len() && 0 <= b < key.len() && done2[a] && !done2[b] && key[b] is Some implies key[a]->0
        <= key[b]->0 by {
        if a != u {
            assert(done[a] && !done[b]);
        } else {
            assert(key[u]->0 <= key[b]->0);
        }
    }
}

proof fn lemma_relaxed_one(
    net: &Network,
    costs: Seq<u64>,
    to: LinkId,
    key: Seq<Option<u128>>,
    next: Seq<Option<LinkId>>,
    rank: Seq<usize>,
    done: Seq<bool>,
    count: int,
    u: int,
    v: LinkId,
    alt: u128,
)
    requires
        net.wf(),
        net.has_link(to),
        searching(net, costs, to, key, next, rank, done, count),
        0 <= u < key.len(),
        done[u],
        rank[u] < count,
        key[u] is Some,
        alt == key[u]->0 + weight(costs[u]),
        alt <= count * heaviest(),
        net.has_link(v),
        v.0 != to.0,
        !done[v.0 as int],
        joined(net, v, LinkId(u as u32)),
        key[v.0 as int] is Some ==> alt <= key[v.0 as int]->0,
        forall|x: int| 0 <= x < key.len() && #[trigger] done[x] ==> key[x]->0 <= key[u]->0,
    ensures
        searching(
            net,
            costs,
            to,
            key.update(v.0 as int, Some(alt)),
            next.update(v.0 as int, Some(LinkId(u as u32))),
            rank,
            done,
            count,
        ),
{
    let key2 = key.update(v.0 as int, Some(alt));
    let next2 = next.update(v.0 as int, Some(LinkId(u as u32)));
    assert forall|x: int|
        #![trigger next2[x]]
        0 <= x < key.len() && x != to.0 implies hop_fits(
        net,
        costs,
        key2,
        next2,
        rank,
        done,
        count,
        x,
    ) by {
        if x != v.0 {
            assert(next2[x] == next[x]);
            assert(hop_fits(net, costs, key, next, rank, done, count, x));
        } else {
            assert(LinkId(x as u32) == v);
        }
    }
    assert forall|a: int, b: int|
        #![trigger done[a], done[b]]
        0 <= a < key.len() && 0 <= b < key.len() && done[a] && !done[b] && key2[b] is Some implies key2[a]->0
        <= key2[b]->0 by {
        assert(key2[a] == key[a]);
        assert(key[a]->0 <= key[u]->0);
    }
    assert forall|x: int| 0 <= x < key.len() && #[trigger] done[x] implies key2[x] is Some && rank[x]
        < count by {
        assert(x != v.0);
    }
    assert forall|x: int| 0 <= x < key.len() && #[trigger] key2[x] is Some implies key2[x]->0
        <= count * heaviest() by {
        if x != v.0 {
            assert(key[x] is Some);
        }
    }
    assert(key2[to.0 as int] == key[to.0 as int]);
    assert(next2[to.0 as int] == next[to.0 as int]);
}

/// A link with a key reaches the destination.
proof fn lemma_reached(
    net: &Network,
    costs: Seq<u64>,
    to: LinkId,
    key: Seq<Option<u128>>,
    next: Seq<Option<LinkId>>,
    rank: Seq<usize>,
    done: Seq<bool>,
    count: int,
    v: LinkId,
)
    requires
        net.has_link(to),
        searching(net, costs, to, key, next, rank, done, count),
        net.has_link(v),
        key[v.0 as int] is Some,
    ensures
        reaches(net, v, to),
    decreases key[v.0 as int]->0,
{
    if v == to {
        let s = seq![v];
        assert forall|k: int| 0 <= k < s.len() implies net.has_link(#[trigger] s[k]) by {}
        assert(is_route(net, s, v, to));
    } else {
        assert(next[v.0 as int] == next[v.0 as int]);
        assert(hop_fits(net, costs, key, next, rank, done, count, v.0 as int));
        let w = next[v.0 as int]->0;
        assert(LinkId(v.0 as int as u32) == v);
        lemma_reached(net, costs, to, key, next, rank, done, count, w);
        let s = choose|s: Seq<LinkId>| #[trigger] is_route(net, s, w, to);
        lemma_route_prepend(net, costs, v, w, to, s);
        assert(is_route(net, seq![v] + s, v, to));
    }
}

/// At the end a link that reaches the destination has a key.
proof fn lemma_all_reached(
    net: &Network,
    costs: Seq<u64>,
    to: LinkId,
    key: Seq<Option<u128>>,
    next: Seq<Option<LinkId>>,
    done: Seq<bool>,
    s: Seq<LinkId>,
    v: LinkId,
)
    requires
        key.len() == net.links@.len(),
        done.len() == key.len(),
        key[to.0 as int] is Some,
        all_relaxed(net, costs, to, key, next, done),
        at_end(key, done),
        is_route(net, s, v, to),
    ensures
        key[v.0 as int] is Some,
        done[v.0 as int],
    decreases s.len(),
{
    assert(net.has_link(s[0]));
    if s.len() > 1 {
        lemma_route_tail(net, s, v, to);
        assert(net.has_link(s[1]));
        lemma_all_reached(net, costs, to, key, next, done, s.subrange(1, s.len() as int), s[1]);
        assert(relaxed(costs, to, key, next, v, s[1]));
    }
}

proof fn lemma_count_less(n: int, p: spec_fn(int) -> bool, q: spec_fn(int) -> bool, u: int)
    requires
        forall|v: int| 0 <= v < n && #[trigger] p(v) ==> q(v),
    ensures
        count_where(n, p) <= count_where(n, q),
        0 <= u < n && !p(u) && q(u) ==> count_where(n, p) < count_where(n, q),
    decreases n,
{
    if n > 0 {
        lemma_count_less(n - 1, p, q, u);
    }
}

impl Search {
    proof fn lemma_more_to_settle(&self, net: &Network, costs: Seq<u64>)
        requires
            net.wf(),
            self.wf(net, costs),
            !at_end(self.key@, self.done@),
        ensures
            self.settled() < reach_count(net, self.goal()),
    {
        let u = choose|u: int|
            #![trigger self.key@[u]]
            0 <= u < self.key@.len() && !self.done@[u] && self.key@[u] is Some;
        let p = |v: int| self.done@[v];
        let q = |v: int| reaches(net, LinkId(v as u32), self.to);
        assert forall|v: int| 0 <= v < net.links@.len() && self.key@[v] is Some implies #[trigger] q(
            v,
        ) by {
            lemma_reached(
                net,
                costs,
                self.to,
                self.key@,
                self.next@,
                self.rank@,
                self.done@,
                self.count as int,
                LinkId(v as u32),
            );
        }
        assert(q(u));
        lemma_count_less(net.links@.len() as int, p, q, u);
    }

    proof fn lemma_count(&self, net: &Network, costs: Seq<u64>)
        requires
            net.wf(),
            self.wf(net, costs),
        ensures
            self.has_ended() ==> self.settled() == reach_count(net, self.goal()),
    {
        if self.ended {
            let p = |v: int| self.done@[v];
            let q = |v: int| reaches(net, LinkId(v as u32), self.to);
            assert forall|v: int| 0 <= v < net.links@.len() implies #[trigger] p(v) == q(v) by {
                let x = LinkId(v as u32);
                assert(x.0 == v);
                if self.done@[v] {
                    lemma_reached(
                        net,
                        costs,
                        self.to,
                        self.key@,
                        self.next@,
                        self.rank@,
                        self.done@,
                        self.count as int,
                        x,
                    );
                } else if reaches(net, x, self.to) {
                    let s = choose|s: Seq<LinkId>| #[trigger] is_route(net, s, x, self.to);
                    lemma_all_reached(
                        net,
                        costs,
                        self.to,
                        self.key@,
                        self.next@,
                        self.done@,
                        s,
                        x,
                    );
                }
            }
            assert forall|v: int| 0 <= v < net.links@.len() && #[trigger] q(v) implies p(v) by {
                assert(p(v) == q(v));
            }
            lemma_count_less(net.links@.len() as int, p, q, 0);
            lemma_count_less(net.links@.len() as int, q, p, 0);
        }
    }

    /// A key is its cost, and as many hops as there can be links.
    proof fn lemma_hops(&self, net: &Network, costs: Seq<u64>, v: int)
        requires
            net.wf(),
            self.wf(net, costs),
            0 <= v < net.links@.len(),
            self.done@[v],
        ensures
            self.key@[v] is Some,
            self.key@[v]->0 % 0x1_0000_0000 <= self.rank@[v],
            self.rank@[v] < 0xFFFF_FFFF,
        decreases self.rank@[v],
    {
        assert(self.rank@[v] < self.count);
        if v != self.to.0 {
            assert(self.next@[v] == self.next@[v]);
            assert(hop_fits(
                net,
                costs,
                self.key@,
                self.next@,
                self.rank@,
                self.done@,
                self.count as int,
                v,
            ));
            let w = (self.next@[v]->0).0 as int;
            self.lemma_hops(net, costs, w);
            let (k, d, c) = (self.key@[v]->0 as int, self.key@[w]->0 as int, costs[w] as int);
            assert(k == d + c * 0x1_0000_0000 + 1);
        }
    }

    /// The field that an ended search has found, and the order in which its links
    /// were settled.
    pub fn into_field(self, net: &Network, costs: &Vec<u64>) -> (r: (Field, Vec<usize>))
        requires
            net.wf(),
            self.wf(net, costs@),
            self.has_ended(),
        ensures
            r.0.solves(net, costs@, self.goal()),
            r.1@.len() == net.links@.len(),
            hops_descend(r.0.next@, r.1@),
    {
        let n = net.links.len();
        let mut dist: Vec<Option<u128>> = Vec::new();
        let mut v: usize = 0;
        while v < n
            invariant
                n == net.links@.len(),
                self.key@.len() == n,
                v <= n,
                dist@.len() == v,
                forall|x: int|
                    0 <= x < v ==> #[trigger] dist@[x] == (match self.key@[x] {
                        Some(k) => Some((k / 0x1_0000_0000) as u128),
                        None => None,
                    }),
            decreases n - v,
        {
            dist.push(
                match self.key[v] {
                    Some(k) => Some(k / 0x1_0000_0000),
                    None => None,
                },
            );
            v += 1;
        }
        let ghost me = self;
        let ghost to = self.to;
        let (next, rank) = (self.next, self.rank);
        let f = Field { dist, next };
        proof {
            let (key, done) = (me.key@, me.done@);
            assert forall|x: int| 0 <= x < n && key[x] is Some implies #[trigger] done[x] && key[x]->0
                % 0x1_0000_0000 < 0xFFFF_FFFF by {
                assert(done[x]);
                me.lemma_hops(net, costs@, x);
            }
            assert forall|x: int|
                #![trigger next@[x]]
                0 <= x < n && x != to.0 implies match f.dist@[x] {
                Some(d) => next@[x] matches Some(w) && net.has_link(w) && joined(
                    net,
                    LinkId(x as u32),
                    w,
                ) && f.dist@[w.0 as int] is Some && d == f.dist@[w.0 as int]->0
                    + costs@[w.0 as int],
                None => next@[x] is None,
            } by {
                assert(hop_fits(
                    net,
                    costs@,
                    key,
                    next@,
                    rank@,
                    done,
                    me.count as int,
                    x,
                ));
                assert(f.dist@[x] is Some <==> key[x] is Some);
                if key[x] is Some {
                    let w = (next@[x]->0).0 as int;
                    assert(done[w]);
                    assert(done[x]);
                    assert(f.dist@[w] is Some);
                    let (k, d, c) = (key[x]->0 as int, key[w]->0 as int, costs@[w] as int);
                    assert(k == d + c * 0x1_0000_0000 + 1);
                    assert(k / 0x1_0000_0000 == d / 0x1_0000_0000 + c);
                }
            }
            assert forall|x: LinkId, w: LinkId| #[trigger]
                joined(net, x, w) && net.has_link(x) && net.has_link(w) && f.dist@[w.0 as int] is Some implies f.dist@[x.0 as int] is Some
                && f.dist@[x.0 as int]->0 <= f.dist@[w.0 as int]->0 + costs@[w.0 as int] by {
                assert(key[w.0 as int] is Some);
                assert(done[w.0 as int]);
                assert(relaxed(costs@, to, key, next@, x, w));
                assert(f.dist@[x.0 as int] is Some <==> key[x.0 as int] is Some);
                let (k, d, c) = (
                    key[x.0 as int]->0 as int,
                    key[w.0 as int]->0 as int,
                    costs@[w.0 as int] as int,
                );
                assert(k <= d + c * 0x1_0000_0000 + 1);
                assert(k / 0x1_0000_0000 <= d / 0x1_0000_0000 + c);
            }
            assert(f.settled(net, costs@, to));
            assert forall|x: int| #![trigger f.next@[x]] 0 <= x < n && f.next@[x] is Some implies rank@[(
            f.next@[x]->0).0 as int] < rank@[x] by {
                assert(x != to.0);
                assert(hop_fits(net, costs@, key, next@, rank@, done, me.count as int, x));
                assert(key[x] is Some);
                assert(done[x]);
            }
            assert forall|x: LinkId| net.has_link(x) implies match #[trigger] f.dist@[x.0 as int] {
                Some(d) => is_distance(net, costs@, x, to, d as int),
                None => !reaches(net, x, to),
            } by {
                if f.dist@[x.0 as int] is Some {
                    let s = lemma_witness(net, costs@, &f, rank@, x, to);
                    assert forall|t: Seq<LinkId>| #[trigger] is_route(net, t, x, to) implies route_cost(
                        costs@,
                        s,
                    ) <= route_cost(costs@, t) by {
                        lemma_lower_bound(net, costs@, &f, t, x, to);
                    }
                    assert(is_least_route(net, costs@, s, x, to));
                } else if reaches(net, x, to) {
                    let t = choose|t: Seq<LinkId>| #[trigger] is_route(net, t, x, to);
                    lemma_lower_bound(net, costs@, &f, t, x, to);
                }
            }
            assert forall|x: int|
                #![trigger f.next@[x]]
                0 <= x < key.len() && x != to.0 implies match key[x] {
                Some(k) => f.next@[x] matches Some(w) && net.has_link(w) && joined(
                    net,
                    LinkId(x as u32),
                    w,
                ) && key[w.0 as int] is Some && k == key[w.0 as int]->0 + weight(
                    costs@[w.0 as int],
                ),
                None => f.next@[x] is None,
            } by {
                assert(hop_fits(net, costs@, key, next@, rank@, done, me.count as int, x));
            }
            assert forall|x: LinkId, w: LinkId| #[trigger]
                joined(net, x, w) && net.has_link(x) && net.has_link(w) && key[w.0 as int] is Some implies relaxed(
            costs@, to, key, f.next@, x, w) by {
                assert(done[w.0 as int]);
            }
            assert(keyed(net, costs@, to, key, f.next@));
        }
        (f, rank)
    }
}

/// Solve one destination, with the order in which its links were settled.
pub fn solve(net: &Network, feeders: &Vec<Vec<LinkId>>, costs: &Vec<u64>, to: LinkId) -> (r: (
    Field,
    Vec<usize>,
))
    requires
        net.wf(),
        net.has_link(to),
        costs@.len() == net.links@.len(),
        feeders_listed(net, feeders@),
    ensures
        r.0.solves(net, costs@, to),
        r.1@.len() == net.links@.len(),
        hops_descend(r.0.next@, r.1@),
{
    let mut s = Search::begin(net, to);
    proof {
        lemma_count_bounds(
            net.links@.len() as int,
            |v: int| reaches(net, LinkId(v as u32), to),
        );
    }
    s.advance(net, feeders, costs, net.links.len());
    s.into_field(net, costs)
}

proof fn lemma_count_gain(n: int, done: Seq<bool>, u: int)
    requires
        done.len() == n,
        0 <= u < n,
        !done[u],
    ensures
        count_where(n, |v: int| done.update(u, true)[v])
            == count_where(n, |v: int| done[v]) + 1,
        count_where(n, |v: int| done[v]) < n,
{
    lemma_count_gain_upto(n, n, done, u);
    lemma_count_bounds(n, |v: int| done.update(u, true)[v]);
}

proof fn lemma_count_gain_upto(m: int, n: int, done: Seq<bool>, u: int)
    requires
        done.len() == n,
        0 <= m <= n,
        0 <= u < n,
        !done[u],
    ensures
        count_where(m, |v: int| done.update(u, true)[v])
            == count_where(m, |v: int| done[v]) + if u < m {
            1int
        } else {
            0int
        },
    decreases m,
{
    if m > 0 {
        lemma_count_gain_upto(m - 1, n, done, u);
    }
}

} // verus!
