//! Corridors: maximal chains of lanes that flow into one another without a
//! junction. A lane continues into the next when it has a single movement, that
//! movement joins two grade-separated roads, and nothing else feeds the lane it
//! lands on. The chain breaks at merges, diverges, lane drops and at grade. Lanes
//! that continue into one another all the way round form a chain too, begun at
//! the first of them.

use vstd::prelude::*;
use crate::network::{LaneId, MovementId, Network};
use crate::search::{count_where, lemma_count_bounds, lemma_count_positive};

verus! {

/// The lane has not been given a chain yet.
const UNSET: u32 = 0xFFFF_FFFF;

/// How many movements land on a lane.
pub open spec fn fan_in(net: &Network, lane: LaneId) -> int {
    count_where(net.movements@.len() as int, |i: int| net.movements@[i].to_lane == lane)
}

/// The lane that `a` continues into.
pub open spec fn successor(net: &Network, a: LaneId) -> Option<LaneId> {
    let l = net.lane_at(a);
    let b = net.landing(l.movement_start);
    if l.movement_count == 1 && fan_in(net, b) == 1 && net.movement_at(l.movement_start).interchange {
        Some(b)
    } else {
        None
    }
}

/// No lane continues into this one.
pub open spec fn is_head(net: &Network, lane: LaneId) -> bool {
    forall|a: LaneId| net.has_lane(a) ==> #[trigger] successor(net, a) != Some(lane)
}

/// Consecutive lanes, each continuing into the next.
pub open spec fn is_chain(net: &Network, s: Seq<LaneId>) -> bool {
    &&& s.len() > 0
    &&& forall|k: int| 0 <= k < s.len() ==> net.has_lane(#[trigger] s[k])
    &&& forall|k: int| 0 <= k < s.len() - 1 ==> #[trigger] successor(net, s[k]) == Some(s[k + 1])
}

/// A chain that starts at a head and goes on until nothing follows.
pub open spec fn is_open(net: &Network, s: Seq<LaneId>) -> bool {
    &&& is_chain(net, s)
    &&& is_head(net, s[0])
    &&& successor(net, s[s.len() - 1]) is None
}

/// A chain that comes round to where it starts, at the first of its lanes.
pub open spec fn is_ring(net: &Network, s: Seq<LaneId>) -> bool {
    &&& is_chain(net, s)
    &&& successor(net, s[s.len() - 1]) == Some(s[0])
    &&& s.no_duplicates()
    &&& forall|k: int| 0 <= k < s.len() ==> s[0].0 <= (#[trigger] s[k]).0
}

/// A whole chain: from a head to where nothing follows, or all the way round.
pub open spec fn is_corridor(net: &Network, s: Seq<LaneId>) -> bool {
    is_open(net, s) || is_ring(net, s)
}

/// The order of corridors, by their first lanes: those with a head before rings,
/// and then by lane.
pub open spec fn comes_first(net: &Network, a: LaneId, b: LaneId) -> bool {
    if is_head(net, a) == is_head(net, b) {
        a.0 < b.0
    } else {
        is_head(net, a)
    }
}

/// Every corridor of a network, and the corridor of every lane.
#[derive(Debug)]
pub struct Corridors {
    /// Per lane: the lane that it continues into.
    pub next: Vec<Option<LaneId>>,
    pub chains: Vec<Vec<LaneId>>,
    pub of_lane: Vec<u32>,
}

impl Corridors {
    /// Chain `c` covers the lane.
    pub open spec fn covers(&self, c: int, lane: LaneId) -> bool {
        self.chains@[c]@.contains(lane)
    }

    pub open spec fn wf(&self, net: &Network) -> bool {
        &&& self.next@.len() == net.lanes@.len()
        &&& forall|l: int|
            0 <= l < net.lanes@.len() ==> #[trigger] self.next@[l] == successor(
                net,
                LaneId(l as u32),
            )
        &&& self.of_lane@.len() == net.lanes@.len()
        &&& forall|c: int| 0 <= c < self.chains@.len() ==> is_corridor(net, (#[trigger] self.chains@[c])@)
        &&& in_order(net, self.chains@)
        // the lane table agrees with the chains, and every lane is in one
        &&& agrees(self.of_lane@, self.chains@)
        &&& forall|l: int|
            0 <= l < self.of_lane@.len() ==> #[trigger] self.of_lane@[l] < self.chains@.len()
                && self.covers(self.of_lane@[l] as int, LaneId(l as u32))
    }
}

/// The chains stand in the order of corridors.
pub open spec fn in_order(net: &Network, chains: Seq<Vec<LaneId>>) -> bool {
    forall|c: int, d: int|
        0 <= c < d < chains.len() ==> comes_first(
            net,
            (#[trigger] chains[c])@[0],
            (#[trigger] chains[d])@[0],
        )
}

/// The lanes of every chain have its number.
pub open spec fn agrees(of_lane: Seq<u32>, chains: Seq<Vec<LaneId>>) -> bool {
    forall|c: int, k: int|
        #![trigger chains[c]@[k]]
        0 <= c < chains.len() && 0 <= k < chains[c]@.len() ==> of_lane[chains[c]@[k].0 as int] == c
}

/// Distinct lanes continue into distinct lanes.
pub proof fn successor_is_injective(net: &Network, a: LaneId, b: LaneId)
    requires
        net.wf(),
        net.has_lane(a),
        net.has_lane(b),
        successor(net, a) is Some,
        successor(net, a) == successor(net, b),
    ensures
        a == b,
{
    assert(net.lane_ok(a.0 as int));
    assert(net.lane_ok(b.0 as int));
    let ma = net.lane_at(a).movement_start;
    let mb = net.lane_at(b).movement_start;
    let lane = successor(net, a)->0;
    let p = |i: int| net.movements@[i].to_lane == lane;
    if ma.0 != mb.0 {
        assert(net.movements@[ma.0 as int].to_lane == lane);
        assert(net.movements@[mb.0 as int].to_lane == lane);
        if ma.0 < mb.0 {
            lemma_two_counted(net.movements@.len() as int, p, ma.0 as int, mb.0 as int);
        } else {
            lemma_two_counted(net.movements@.len() as int, p, mb.0 as int, ma.0 as int);
        }
        assert(false);
    }
    assert(net.movements@[ma.0 as int].from_lane.0 == a.0);
    assert(net.movements@[mb.0 as int].from_lane.0 == b.0);
}

/// A movement along which a lane continues is the only one that leaves its lane
/// and the only one that lands where it does, and it joins grade-separated roads.
pub proof fn a_continuation_is_the_only_way(net: &Network, m: MovementId)
    requires
        net.wf(),
        net.has_movement(m),
        successor(net, net.movement_at(m).from_lane) == Some(net.movement_at(m).to_lane),
    ensures
        net.movement_at(m).interchange,
        forall|k: MovementId| #[trigger]
            net.has_movement(k) && (net.movement_at(k).from_lane == net.movement_at(m).from_lane
                || net.movement_at(k).to_lane == net.movement_at(m).to_lane) ==> k == m,
{
    let (from, to) = (net.movement_at(m).from_lane, net.movement_at(m).to_lane);
    assert(net.movement_ok(m.0 as int));
    assert(net.lane_ok(from.0 as int));
    let p = |i: int| net.movements@[i].to_lane == to;
    let start = net.lane_at(from).movement_start;
    assert forall|k: MovementId| #[trigger]
        net.has_movement(k) && (net.movement_at(k).from_lane == from || net.movement_at(k).to_lane
            == to) implies k == m by {
        assert(net.movement_ok(k.0 as int));
        if k != m && net.movement_at(k).to_lane == to {
            if k.0 < m.0 {
                lemma_two_counted(net.movements@.len() as int, p, k.0 as int, m.0 as int);
            } else {
                lemma_two_counted(net.movements@.len() as int, p, m.0 as int, k.0 as int);
            }
        }
    }
    assert(net.has_movement(start));
}

proof fn lemma_two_counted(n: int, p: spec_fn(int) -> bool, i: int, j: int)
    requires
        0 <= i < j < n,
        p(i),
        p(j),
    ensures
        count_where(n, p) >= 2,
    decreases n,
{
    if j == n - 1 {
        lemma_count_positive(n - 1, p, i);
    } else {
        lemma_two_counted(n - 1, p, i, j);
    }
}

/// Going back `k` steps from two equal chain elements keeps them equal.
proof fn lemma_back(net: &Network, s: Seq<LaneId>, t: Seq<LaneId>, i: int, j: int, k: int)
    requires
        net.wf(),
        is_chain(net, s),
        is_chain(net, t),
        0 <= k <= i < s.len(),
        k <= j < t.len(),
        s[i] == t[j],
    ensures
        s[i - k] == t[j - k],
    decreases k,
{
    if k > 0 {
        lemma_back(net, s, t, i, j, k - 1);
        assert(successor(net, s[i - k]) == Some(s[i - k + 1]));
        assert(successor(net, t[j - k]) == Some(t[j - k + 1]));
        successor_is_injective(net, s[i - k], t[j - k]);
    }
}

/// A chain that starts at a head meets another only where both start at the same head.
pub proof fn chains_from_heads_meet_at_equal_places(
    net: &Network,
    s: Seq<LaneId>,
    t: Seq<LaneId>,
    i: int,
    j: int,
)
    requires
        net.wf(),
        is_chain(net, s),
        is_chain(net, t),
        is_head(net, s[0]),
        is_head(net, t[0]),
        0 <= i < s.len(),
        0 <= j < t.len(),
        s[i] == t[j],
    ensures
        i == j,
        s[0] == t[0],
{
    if i < j {
        lemma_back(net, s, t, i, j, i);
        assert(successor(net, t[j - i - 1]) == Some(t[j - i - 1 + 1]));
        assert(net.has_lane(t[j - i - 1]));
    } else if j < i {
        lemma_back(net, s, t, i, j, j);
        assert(successor(net, s[i - j - 1]) == Some(s[i - j - 1 + 1]));
        assert(net.has_lane(s[i - j - 1]));
    } else {
        lemma_back(net, s, t, i, j, i);
    }
}

/// A chain from a head never visits a lane twice, so it is no longer than the network.
proof fn lemma_chain_length(net: &Network, s: Seq<LaneId>)
    requires
        net.wf(),
        is_chain(net, s),
        is_head(net, s[0]),
    ensures
        s.len() <= net.lanes@.len(),
{
    assert forall|i: int, j: int| 0 <= i < s.len() && 0 <= j < s.len() && i != j implies s[i]
        != s[j] by {
        if s[i] == s[j] {
            chains_from_heads_meet_at_equal_places(net, s, s, i, j);
        }
    }
    lemma_distinct_lanes(net, s);
}

fn fan_in_counts(net: &Network) -> (counts: Vec<u32>)
    requires
        net.wf(),
    ensures
        counts@.len() == net.lanes@.len(),
        forall|l: int|
            0 <= l < counts@.len() ==> #[trigger] counts@[l] == fan_in(net, LaneId(l as u32)),
{
    let mut counts: Vec<u32> = vec![0u32; net.lanes.len()];
    let mut i: usize = 0;
    while i < net.movements.len()
        invariant
            net.wf(),
            i <= net.movements@.len(),
            counts@.len() == net.lanes@.len(),
            forall|l: int|
                0 <= l < counts@.len() ==> #[trigger] counts@[l] == count_where(
                    i as int,
                    |k: int| net.movements@[k].to_lane == LaneId(l as u32),
                ),
        decreases net.movements@.len() - i,
    {
        assert(net.movement_ok(i as int));
        let to = net.movements[i].to_lane.0 as usize;
        let ghost before = counts@;
        proof {
            lemma_count_bounds(i as int, |k: int| net.movements@[k].to_lane == LaneId(to as u32));
        }
        counts[to] = counts[to] + 1;
        assert forall|l: int| 0 <= l < counts@.len() implies #[trigger] counts@[l] == count_where(
            i + 1,
            |k: int| net.movements@[k].to_lane == LaneId(l as u32),
        ) by {
            assert(before[l] == count_where(
                i as int,
                |k: int| net.movements@[k].to_lane == LaneId(l as u32),
            ));
        }
        i += 1;
    }
    counts
}

/// The lane that each lane continues into.
pub fn successors(net: &Network) -> (next: Vec<Option<LaneId>>)
    requires
        net.wf(),
    ensures
        next@.len() == net.lanes@.len(),
        forall|l: int|
            0 <= l < next@.len() ==> #[trigger] next@[l] == successor(net, LaneId(l as u32)),
{
    let counts = fan_in_counts(net);
    let mut next: Vec<Option<LaneId>> = Vec::new();
    let mut l: usize = 0;
    while l < net.lanes.len()
        invariant
            net.wf(),
            l <= net.lanes@.len(),
            counts@.len() == net.lanes@.len(),
            forall|k: int|
                0 <= k < counts@.len() ==> #[trigger] counts@[k] == fan_in(net, LaneId(k as u32)),
            next@.len() == l,
            forall|k: int| 0 <= k < l ==> #[trigger] next@[k] == successor(net, LaneId(k as u32)),
        decreases net.lanes@.len() - l,
    {
        assert(net.lane_ok(l as int));
        let lane = net.lanes[l];
        let mut succ: Option<LaneId> = None;
        if lane.movement_count == 1 {
            let m = net.movement(lane.movement_start);
            assert(net.movement_ok(lane.movement_start.0 as int));
            if m.interchange && counts[m.to_lane.0 as usize] == 1 {
                succ = Some(m.to_lane);
            }
        }
        next.push(succ);
        l += 1;
    }
    next
}

impl Corridors {
    /// Fold the lanes of a network into corridors.
    pub fn build(net: &Network) -> (r: Corridors)
        requires
            net.wf(),
        ensures
            r.wf(net),
    {
        let next = successors(net);
        let n = net.lanes.len();
        let pred = predecessors(net, &next);
        let mut chains: Vec<Vec<LaneId>> = Vec::new();
        let mut of_lane: Vec<u32> = vec![UNSET; n];
        let mut head: usize = 0;
        while head < n
            invariant
                net.wf(),
                n == net.lanes@.len(),
                head <= n,
                next@.len() == n,
                pred@.len() == n,
                of_lane@.len() == n,
                chains@.len() <= head,
                forall|l: int|
                    0 <= l < n ==> #[trigger] next@[l] == successor(net, LaneId(l as u32)),
                forall|l: int|
                    0 <= l < n ==> ((#[trigger] pred@[l]) is Some <==> !is_head(
                        net,
                        LaneId(l as u32),
                    )),
                forall|c: int|
                    0 <= c < chains@.len() ==> is_open(net, (#[trigger] chains@[c])@)
                        && chains@[c]@[0].0 < head,
                forall|c: int, d: int|
                    0 <= c < d < chains@.len() ==> (#[trigger] chains@[c])@[0].0 < (
                    #[trigger] chains@[d])@[0].0,
                forall|l: LaneId|
                    l.0 < head && #[trigger] is_head(net, l) ==> exists|c: int|
                        0 <= c < chains@.len() && (#[trigger] chains@[c])@[0] == l,
                forall|c: int, k: int|
                    #![trigger chains@[c]@[k]]
                    0 <= c < chains@.len() && 0 <= k < chains@[c]@.len()
                        ==> of_lane@[chains@[c]@[k].0 as int] == c,
                forall|l: int|
                    0 <= l < n && #[trigger] of_lane@[l] != UNSET ==> of_lane@[l]
                        < chains@.len() && chains@[of_lane@[l] as int]@.contains(
                        LaneId(l as u32),
                    ),
            decreases n - head,
        {
            if pred[head].is_none() {
                let cid = chains.len() as u32;
                let ghost first = LaneId(head as u32);
                let ghost earlier = of_lane@;
                let mut chain: Vec<LaneId> = Vec::new();
                let mut l = LaneId(head as u32);
                let mut more: bool = true;
                while more
                    invariant
                        net.wf(),
                        n == net.lanes@.len(),
                        head < n,
                        first == LaneId(head as u32),
                        is_head(net, first),
                        cid == chains@.len(),
                        chains@.len() <= head,
                        next@.len() == n,
                        of_lane@.len() == n,
                        earlier.len() == n,
                        forall|l: int|
                            0 <= l < n ==> #[trigger] next@[l] == successor(net, LaneId(l as u32)),
                        forall|c: int|
                            0 <= c < chains@.len() ==> is_open(net, (#[trigger] chains@[c])@)
                                && chains@[c]@[0].0 < head,
                        chain@.len() == 0 ==> more && l == first,
                        chain@.len() > 0 ==> is_chain(net, chain@) && chain@[0] == first
                            && successor(net, chain@[chain@.len() - 1]) == (if more {
                            Some(l)
                        } else {
                            None
                        }),
                        forall|k: int|
                            0 <= k < chain@.len() ==> of_lane@[(#[trigger] chain@[k]).0 as int]
                                == cid,
                        forall|l: int|
                            0 <= l < n && #[trigger] of_lane@[l] != earlier[l] ==> chain@.contains(
                                LaneId(l as u32),
                            ),
                        forall|c: int, k: int|
                            #![trigger chains@[c]@[k]]
                            0 <= c < chains@.len() && 0 <= k < chains@[c]@.len()
                                ==> of_lane@[chains@[c]@[k].0 as int] == c,
                        chain@.len() <= n,
                    decreases n + 1 - chain@.len(),
                {
                    proof {
                        if chain@.len() > 0 {
                            let last = chain@[chain@.len() - 1];
                            assert(net.has_lane(last));
                            assert(net.lane_ok(last.0 as int));
                            assert(net.movement_ok(net.lane_at(last).movement_start.0 as int));
                        }
                    }
                    assert(net.has_lane(l));
                    let ghost shorter = chain@;
                    let ghost longer = chain@.push(l);
                    proof {
                        assert(is_chain(net, longer)) by {
                            assert forall|k: int| 0 <= k < longer.len() - 1 implies
                                #[trigger] successor(net, longer[k]) == Some(longer[k + 1]) by {
                                if k < chain@.len() - 1 {
                                    assert(successor(net, chain@[k]) == Some(chain@[k + 1]));
                                }
                            }
                        }
                        assert(longer[0] == first);
                        lemma_chain_length(net, longer);
                        // no earlier chain holds this lane
                        assert forall|c: int, k: int|
                            #![trigger chains@[c]@[k]]
                            0 <= c < chains@.len() && 0 <= k < chains@[c]@.len() implies chains@[c]@[k]
                            != l by {
                            if chains@[c]@[k] == l {
                                chains_from_heads_meet_at_equal_places(
                                    net,
                                    chains@[c]@,
                                    longer,
                                    k,
                                    longer.len() - 1,
                                );
                            }
                        }
                    }
                    let ghost was = of_lane@;
                    of_lane[l.0 as usize] = cid;
                    chain.push(l);
                    assert forall|k: int| 0 <= k < chain@.len() implies of_lane@[(
                    #[trigger] chain@[k]).0 as int] == cid by {}
                    assert forall|x: int| 0 <= x < n && #[trigger] of_lane@[x] != earlier[x] implies
                        chain@.contains(LaneId(x as u32)) by {
                        if x == l.0 {
                            assert(chain@[chain@.len() - 1] == LaneId(x as u32));
                        } else {
                            assert(was[x] != earlier[x]);
                            assert(shorter.contains(LaneId(x as u32)));
                            let k = choose|k: int|
                                0 <= k < shorter.len() && shorter[k] == LaneId(x as u32);
                            assert(chain@[k] == LaneId(x as u32));
                        }
                    }
                    assert(next@[l.0 as int] == successor(net, LaneId(l.0)));
                    match next[l.0 as usize] {
                        Some(b) => {
                            l = b;
                        },
                        None => {
                            more = false;
                        },
                    }
                }
                assert(chain@.len() > 0);
                let ghost old_chains = chains@;
                let ghost new_chain = chain@;
                chains.push(chain);
                assert(is_open(net, new_chain));
                assert forall|c: int, k: int|
                    #![trigger chains@[c]@[k]]
                    0 <= c < chains@.len() && 0 <= k < chains@[c]@.len() implies of_lane@[chains@[c]@[k].0 as int]
                    == c by {
                    if c == old_chains.len() {
                        assert(of_lane@[new_chain[k].0 as int] == cid);
                    } else {
                        assert(old_chains[c]@[k] == chains@[c]@[k]);
                    }
                }
                assert forall|l: int| 0 <= l < n && #[trigger] of_lane@[l] != UNSET implies
                    of_lane@[l] < chains@.len() && chains@[of_lane@[l] as int]@.contains(
                    LaneId(l as u32),
                ) by {
                    if of_lane@[l] != earlier[l] {
                        assert(new_chain.contains(LaneId(l as u32)));
                        let k = choose|k: int|
                            0 <= k < new_chain.len() && new_chain[k] == LaneId(l as u32);
                        assert(of_lane@[new_chain[k].0 as int] == cid);
                        assert(chains@[cid as int]@ == new_chain);
                    } else {
                        assert(old_chains[of_lane@[l] as int]@.contains(LaneId(l as u32)));
                        assert(chains@[of_lane@[l] as int] == old_chains[of_lane@[l] as int]);
                    }
                }
                assert forall|l: LaneId|
                    l.0 < head + 1 && #[trigger] is_head(net, l) implies exists|c: int|
                    0 <= c < chains@.len() && (#[trigger] chains@[c])@[0] == l by {
                    if l.0 == head {
                        assert(chains@[cid as int]@[0] == l);
                    } else {
                        let c = choose|c: int|
                            0 <= c < old_chains.len() && (#[trigger] old_chains[c])@[0] == l;
                        assert(chains@[c]@[0] == l);
                    }
                }
            } else {
                assert(!is_head(net, LaneId(head as u32)));
            }
            head += 1;
        }
        proof {
            assert forall|l: LaneId|
                l.0 < n && of_lane@[l.0 as int] == UNSET implies !#[trigger] is_head(net, l) by {
                if is_head(net, l) {
                    let c = choose|c: int|
                        0 <= c < chains@.len() && (#[trigger] chains@[c])@[0] == l;
                    assert(of_lane@[chains@[c]@[0].0 as int] == c);
                    assert(chains@.len() <= n);
                }
            }
        }
        Self::add_rings(net, &pred, &mut chains, &mut of_lane);
        Corridors { next, chains, of_lane }
    }

    /// Fold the lanes that are left, each round its ring.
    fn add_rings(
        net: &Network,
        pred: &Vec<Option<LaneId>>,
        chains: &mut Vec<Vec<LaneId>>,
        of_lane: &mut Vec<u32>,
    )
        requires
            net.wf(),
            is_pred(net, pred@),
            old(of_lane)@.len() == net.lanes@.len(),
            old(chains)@.len() <= net.lanes@.len(),
            forall|c: int|
                0 <= c < old(chains)@.len() ==> is_open(net, (#[trigger] old(chains)@[c])@),
            in_order(net, old(chains)@),
            agrees(old(of_lane)@, old(chains)@),
            placed_or_unset(old(of_lane)@, old(chains)@),
            forall|l: LaneId|
                l.0 < net.lanes@.len() && old(of_lane)@[l.0 as int] == UNSET ==> !#[trigger] is_head(
                    net,
                    l,
                ),
        ensures
            final(of_lane)@.len() == net.lanes@.len(),
            forall|c: int|
                0 <= c < final(chains)@.len() ==> is_corridor(net, (#[trigger] final(chains)@[c])@),
            in_order(net, final(chains)@),
            agrees(final(of_lane)@, final(chains)@),
            forall|l: int|
                0 <= l < final(of_lane)@.len() ==> #[trigger] final(of_lane)@[l] < final(
                    chains
                )@.len() && final(chains)@[final(of_lane)@[l] as int]@.contains(LaneId(l as u32)),
    {
        let n = net.lanes.len();
        let mut start: usize = 0;
        while start < n
            invariant
                net.wf(),
                n == net.lanes@.len(),
                is_pred(net, pred@),
                start <= n,
                of_lane@.len() == n,
                chains@.len() <= n,
                forall|c: int|
                    0 <= c < chains@.len() ==> is_corridor(net, (#[trigger] chains@[c])@),
                forall|c: int|
                    0 <= c < chains@.len() ==> is_head(net, (#[trigger] chains@[c])@[0])
                        || chains@[c]@[0].0 < start,
                in_order(net, chains@),
                agrees(of_lane@, chains@),
                placed_or_unset(of_lane@, chains@),
                forall|l: LaneId|
                    l.0 < n && of_lane@[l.0 as int] == UNSET ==> !#[trigger] is_head(net, l),
                forall|l: int| 0 <= l < start ==> #[trigger] of_lane@[l] != UNSET,
            decreases n - start,
        {
            if of_lane[start] == UNSET {
                proof {
                    lemma_left_are_closed(net, pred@, chains@, of_lane@);
                }
                let ring = ring_from(net, pred, LaneId(start as u32), of_lane);
                let c = chains.len() as u32;
                let ghost marks = of_lane@;
                let ghost old_chains = chains@;
                let ghost lanes = ring@;
                mark(of_lane, &ring, c);
                chains.push(ring);
                proof {
                    let first = LaneId(start as u32);
                    assert(!is_head(net, first));
                    assert forall|x: int, k: int|
                        #![trigger chains@[x]@[k]]
                        0 <= x < chains@.len() && 0 <= k < chains@[x]@.len() implies of_lane@[chains@[x]@[k].0 as int]
                        == x by {
                        let l = chains@[x]@[k];
                        if x < old_chains.len() {
                            assert(old_chains[x]@[k] == l);
                            assert(marks[old_chains[x]@[k].0 as int] == x);
                            assert(is_corridor(net, old_chains[x]@));
                            assert(net.has_lane(old_chains[x]@[k]));
                            if lanes.contains(l) {
                                let y = choose|y: int| 0 <= y < lanes.len() && lanes[y] == l;
                                assert(marks[lanes[y].0 as int] == UNSET);
                            }
                            assert(LaneId(l.0 as int as u32) == l);
                            assert(of_lane@[l.0 as int] == marks[l.0 as int]);
                        } else {
                            assert(lanes[k] == l);
                            assert(lanes.contains(l));
                            assert(net.has_lane(lanes[k]));
                            assert(LaneId(l.0 as int as u32) == l);
                            assert(of_lane@[l.0 as int] == c);
                        }
                    }
                    assert forall|l: int| 0 <= l < n && #[trigger] of_lane@[l] != UNSET implies of_lane@[l]
                        < chains@.len() && chains@[of_lane@[l] as int]@.contains(LaneId(l as u32)) by {
                        if lanes.contains(LaneId(l as u32)) {
                            assert(of_lane@[l] == c);
                        } else {
                            assert(of_lane@[l] == marks[l]);
                            assert(chains@[marks[l] as int] == old_chains[marks[l] as int]);
                        }
                    }
                    assert forall|x: int, y: int| 0 <= x < y < chains@.len() implies comes_first(
                        net,
                        (#[trigger] chains@[x])@[0],
                        (#[trigger] chains@[y])@[0],
                    ) by {
                        if y < old_chains.len() {
                            assert(chains@[x] == old_chains[x] && chains@[y] == old_chains[y]);
                        } else {
                            assert(chains@[x] == old_chains[x]);
                        }
                    }
                    assert forall|l: LaneId|
                        l.0 < n && of_lane@[l.0 as int] == UNSET implies !#[trigger] is_head(
                        net,
                        l,
                    ) by {
                        assert(LaneId(l.0 as int as u32) == l);
                        assert(marks[l.0 as int] == UNSET);
                    }
                    assert forall|l: int| 0 <= l < start + 1 implies #[trigger] of_lane@[l]
                        != UNSET by {
                        if l == start {
                            assert(lanes[0] == first);
                            assert(lanes.contains(LaneId(l as u32)));
                        } else {
                            assert(marks[l] != UNSET);
                        }
                    }
                    lemma_chain_count(net, chains@);
                }
            }
            start += 1;
        }
    }
}

/// Per lane: the lane that continues into it.
spec fn is_pred(net: &Network, pred: Seq<Option<LaneId>>) -> bool {
    &&& pred.len() == net.lanes@.len()
    &&& forall|l: int|
        0 <= l < pred.len() ==> match #[trigger] pred[l] {
            Some(p) => net.has_lane(p) && successor(net, p) == Some(LaneId(l as u32)),
            None => is_head(net, LaneId(l as u32)),
        }
}

/// Every lane with a number is in the chain of that number.
spec fn placed_or_unset(of_lane: Seq<u32>, chains: Seq<Vec<LaneId>>) -> bool {
    forall|l: int|
        0 <= l < of_lane.len() && #[trigger] of_lane[l] != UNSET ==> of_lane[l] < chains.len()
            && chains[of_lane[l] as int]@.contains(LaneId(l as u32))
}

/// Of the lanes that are left, each is continued into by one that is left.
spec fn left_are_closed(net: &Network, pred: Seq<Option<LaneId>>, of_lane: Seq<u32>) -> bool {
    forall|l: int|
        0 <= l < pred.len() && of_lane[l] == UNSET ==> (#[trigger] pred[l]) is Some && net.has_lane(
            pred[l]->0,
        ) && of_lane[(pred[l]->0).0 as int] == UNSET
}

/// Where a lane of a corridor continues, it does so in the corridor.
proof fn lemma_next_in_chain(net: &Network, s: Seq<LaneId>, a: LaneId) -> (k: int)
    requires
        is_corridor(net, s),
        s.contains(a),
        successor(net, a) is Some,
    ensures
        0 <= k < s.len(),
        successor(net, a) == Some(s[k]),
{
    let k = choose|k: int| 0 <= k < s.len() && s[k] == a;
    if k < s.len() - 1 {
        assert(successor(net, s[k]) == Some(s[k + 1]));
        k + 1
    } else {
        0
    }
}

proof fn lemma_left_are_closed(
    net: &Network,
    pred: Seq<Option<LaneId>>,
    chains: Seq<Vec<LaneId>>,
    of_lane: Seq<u32>,
)
    requires
        net.wf(),
        is_pred(net, pred),
        of_lane.len() == net.lanes@.len(),
        chains.len() <= net.lanes@.len(),
        forall|c: int| 0 <= c < chains.len() ==> is_corridor(net, (#[trigger] chains[c])@),
        agrees(of_lane, chains),
        placed_or_unset(of_lane, chains),
        forall|l: LaneId|
            l.0 < of_lane.len() && of_lane[l.0 as int] == UNSET ==> !#[trigger] is_head(net, l),
    ensures
        left_are_closed(net, pred, of_lane),
{
    assert forall|l: int| 0 <= l < pred.len() && of_lane[l] == UNSET implies (
    #[trigger] pred[l]) is Some && net.has_lane(pred[l]->0) && of_lane[(pred[l]->0).0 as int]
        == UNSET by {
        let lane = LaneId(l as u32);
        assert(lane.0 == l);
        assert(!is_head(net, lane));
        let p = pred[l]->0;
        if of_lane[p.0 as int] != UNSET {
            let c = of_lane[p.0 as int] as int;
            assert(LaneId(p.0 as int as u32) == p);
            assert(is_corridor(net, chains[c]@));
            let k = lemma_next_in_chain(net, chains[c]@, p);
            assert(of_lane[chains[c]@[k].0 as int] == c);
        }
    }
}

/// There are no more chains than lanes.
proof fn lemma_chain_count(net: &Network, chains: Seq<Vec<LaneId>>)
    requires
        forall|c: int| 0 <= c < chains.len() ==> is_corridor(net, (#[trigger] chains[c])@),
        in_order(net, chains),
    ensures
        chains.len() <= net.lanes@.len(),
{
    let firsts = chains.map_values(|s: Vec<LaneId>| s@[0]);
    assert forall|i: int, j: int|
        0 <= i < firsts.len() && 0 <= j < firsts.len() && i != j implies firsts[i] != firsts[j] by {
        if i < j {
            assert(comes_first(net, chains[i]@[0], chains[j]@[0]));
        } else {
            assert(comes_first(net, chains[j]@[0], chains[i]@[0]));
        }
    }
    assert forall|k: int| 0 <= k < firsts.len() implies net.has_lane(#[trigger] firsts[k]) by {
        assert(is_corridor(net, chains[k]@));
        assert(net.has_lane(chains[k]@[0]));
    }
    lemma_distinct_lanes(net, firsts);
}

/// Give the lanes of a chain its number.
fn mark(of_lane: &mut Vec<u32>, chain: &Vec<LaneId>, c: u32)
    requires
        forall|k: int| 0 <= k < chain@.len() ==> (#[trigger] chain@[k]).0 < old(of_lane)@.len(),
        old(of_lane)@.len() < u32::MAX,
    ensures
        final(of_lane)@.len() == old(of_lane)@.len(),
        forall|l: int|
            0 <= l < old(of_lane)@.len() ==> #[trigger] final(of_lane)@[l] == (
            if chain@.contains(LaneId(l as u32)) {
                c
            } else {
                old(of_lane)@[l]
            }),
{
    let ghost start = of_lane@;
    let mut k: usize = 0;
    while k < chain.len()
        invariant
            forall|x: int| 0 <= x < chain@.len() ==> (#[trigger] chain@[x]).0 < start.len(),
            start.len() < u32::MAX,
            of_lane@.len() == start.len(),
            k <= chain@.len(),
            forall|l: int|
                0 <= l < start.len() ==> #[trigger] of_lane@[l] == (if chain@.take(
                    k as int,
                ).contains(LaneId(l as u32)) {
                    c
                } else {
                    start[l]
                }),
        decreases chain@.len() - k,
    {
        let lane = chain[k];
        let ghost before = of_lane@;
        of_lane[lane.0 as usize] = c;
        assert forall|l: int| 0 <= l < start.len() implies #[trigger] of_lane@[l] == (
        if chain@.take(k + 1).contains(LaneId(l as u32)) {
            c
        } else {
            start[l]
        }) by {
            let (now, then) = (chain@.take(k + 1), chain@.take(k as int));
            assert(now =~= then.push(lane));
            assert(before[l] == (if then.contains(LaneId(l as u32)) {
                c
            } else {
                start[l]
            }));
            if l == lane.0 {
                assert(now[k as int] == LaneId(l as u32));
            } else if now.contains(LaneId(l as u32)) {
                let x = choose|x: int| 0 <= x < now.len() && now[x] == LaneId(l as u32);
                assert(x < k);
                assert(then[x] == LaneId(l as u32));
            } else if then.contains(LaneId(l as u32)) {
                let x = choose|x: int| 0 <= x < then.len() && then[x] == LaneId(l as u32);
                assert(now[x] == LaneId(l as u32));
            }
        }
        k += 1;
    }
    assert(chain@.take(k as int) =~= chain@);
}

/// The lanes round from a lane that is left, the first of those.
fn ring_from(net: &Network, pred: &Vec<Option<LaneId>>, start: LaneId, of_lane: &Vec<u32>) -> (ring:
    Vec<LaneId>)
    requires
        net.wf(),
        is_pred(net, pred@),
        of_lane@.len() == net.lanes@.len(),
        net.has_lane(start),
        of_lane@[start.0 as int] == UNSET,
        left_are_closed(net, pred@, of_lane@),
        forall|l: int| 0 <= l < start.0 ==> #[trigger] of_lane@[l] != UNSET,
    ensures
        is_ring(net, ring@),
        ring@[0] == start,
        forall|k: int|
            0 <= k < ring@.len() ==> net.has_lane(#[trigger] ring@[k])
                && of_lane@[ring@[k].0 as int] == UNSET,
{
    // the lanes from the start backwards
    let mut back: Vec<LaneId> = Vec::new();
    back.push(start);
    let mut last = start;
    let mut open: bool = true;
    while open
        invariant
            net.wf(),
            is_pred(net, pred@),
            of_lane@.len() == net.lanes@.len(),
            left_are_closed(net, pred@, of_lane@),
            back@.len() > 0,
            back@[0] == start,
            last == back@[back@.len() - 1],
            back@.no_duplicates(),
            back@.len() <= net.lanes@.len(),
            forall|k: int|
                0 <= k < back@.len() ==> net.has_lane(#[trigger] back@[k])
                    && of_lane@[back@[k].0 as int] == UNSET,
            forall|k: int|
                0 < k < back@.len() ==> #[trigger] successor(net, back@[k]) == Some(back@[k - 1]),
            !open ==> successor(net, start) == Some(last),
        decreases net.lanes@.len() - back@.len() + (if open {
            1int
        } else {
            0int
        }),
    {
        assert(pred@[last.0 as int] is Some);
        assert(LaneId(last.0 as int as u32) == last);
        let p = pred[last.0 as usize].unwrap();
        if p == start {
            open = false;
        } else {
            let ghost before = back@;
            proof {
                // what is met again can only be the start
                if before.contains(p) {
                    let j = choose|j: int| 0 <= j < before.len() && before[j] == p;
                    assert(successor(net, before[j]) == Some(before[j - 1]));
                    assert(before[j - 1] == before[before.len() - 1]);
                }
                lemma_distinct_lanes(net, before.push(p));
            }
            back.push(p);
            last = p;
        }
    }
    // and forwards again
    let n = back.len();
    let mut ring: Vec<LaneId> = Vec::new();
    ring.push(start);
    let mut k: usize = n - 1;
    while k > 0
        invariant
            k < n,
            n == back@.len(),
            ring@.len() == n - k,
            ring@[0] == back@[0],
            forall|x: int| 0 < x < ring@.len() ==> #[trigger] ring@[x] == back@[n - x],
        decreases k,
    {
        ring.push(back[k]);
        k -= 1;
    }
    proof {
        assert forall|x: int| 0 <= x < ring@.len() implies net.has_lane(#[trigger] ring@[x])
            && of_lane@[ring@[x].0 as int] == UNSET && start.0 <= ring@[x].0 by {
            let y = if x == 0 {
                0
            } else {
                n - x
            };
            assert(ring@[x] == back@[y]);
            assert(of_lane@[back@[y].0 as int] == UNSET);
        }
        assert forall|x: int| 0 <= x < ring@.len() - 1 implies #[trigger] successor(net, ring@[x])
            == Some(ring@[x + 1]) by {
            if x > 0 {
                assert(successor(net, back@[n - x]) == Some(back@[n - x - 1]));
            }
        }
        assert forall|a: int, b: int|
            0 <= a < ring@.len() && 0 <= b < ring@.len() && a != b implies ring@[a] != ring@[b] by {
            let (x, y) = (
                if a == 0 {
                    0
                } else {
                    n - a
                },
                if b == 0 {
                    0
                } else {
                    n - b
                },
            );
            assert(back@[x] != back@[y]);
        }
        if ring@.len() > 1 {
            assert(ring@[ring@.len() - 1] == back@[1]);
            assert(successor(net, back@[1]) == Some(back@[0]));
        }
    }
    ring
}

/// Distinct lanes are no more than there are.
proof fn lemma_distinct_lanes(net: &Network, s: Seq<LaneId>)
    requires
        s.no_duplicates(),
        forall|k: int| 0 <= k < s.len() ==> net.has_lane(#[trigger] s[k]),
    ensures
        s.len() <= net.lanes@.len(),
{
    let ids = s.map_values(|l: LaneId| l.0 as int);
    assert forall|i: int, j: int| 0 <= i < ids.len() && 0 <= j < ids.len() && i != j implies ids[i]
        != ids[j] by {
        assert(s[i] != s[j]);
    }
    ids.unique_seq_to_set();
    let all = vstd::set_lib::set_int_range(0, net.lanes@.len() as int);
    vstd::set_lib::lemma_int_range(0, net.lanes@.len() as int);
    assert(ids.to_set().subset_of(all)) by {
        assert forall|x: int| ids.to_set().contains(x) implies all.contains(x) by {
            let k = choose|k: int| 0 <= k < ids.len() && ids[k] == x;
            assert(net.has_lane(s[k]));
        }
    }
    vstd::set_lib::lemma_len_subset(ids.to_set(), all);
}

/// None of the first `n` lanes continues into the lane.
spec fn none_before(next: Seq<Option<LaneId>>, n: int, lane: LaneId) -> bool {
    forall|p: int| 0 <= p < n ==> #[trigger] next[p] != Some(lane)
}

/// Per lane, the lane that continues into it.
fn predecessors(net: &Network, next: &Vec<Option<LaneId>>) -> (pred: Vec<Option<LaneId>>)
    requires
        net.wf(),
        next@.len() == net.lanes@.len(),
        forall|l: int|
            0 <= l < next@.len() ==> #[trigger] next@[l] == successor(net, LaneId(l as u32)),
    ensures
        is_pred(net, pred@),
{
    let n = net.lanes.len();
    let mut pred: Vec<Option<LaneId>> = vec![None; n];
    let mut a: usize = 0;
    while a < n
        invariant
            net.wf(),
            n == net.lanes@.len(),
            a <= n,
            next@.len() == n,
            pred@.len() == n,
            forall|l: int| 0 <= l < n ==> #[trigger] next@[l] == successor(net, LaneId(l as u32)),
            forall|l: int|
                0 <= l < n ==> match #[trigger] pred@[l] {
                    Some(p) => p.0 < a && next@[p.0 as int] == Some(LaneId(l as u32)),
                    None => none_before(next@, a as int, LaneId(l as u32)),
                },
        decreases n - a,
    {
        if let Some(b) = next[a] {
            proof {
                assert(next@[a as int] == successor(net, LaneId(a as u32)));
                assert(net.lane_ok(a as int));
                assert(net.movement_ok(net.lane_at(LaneId(a as u32)).movement_start.0 as int));
            }
            pred[b.0 as usize] = Some(LaneId(a as u32));
        }
        a += 1;
    }
    assert forall|l: int| 0 <= l < n implies match #[trigger] pred@[l] {
        Some(p) => net.has_lane(p) && successor(net, p) == Some(LaneId(l as u32)),
        None => is_head(net, LaneId(l as u32)),
    } by {
        match pred@[l] {
            Some(p) => {
                assert(next@[p.0 as int] == successor(net, LaneId(p.0)));
            },
            None => {
                assert forall|p: LaneId| net.has_lane(p) implies #[trigger] successor(net, p) != Some(
                    LaneId(l as u32),
                ) by {
                    assert(next@[p.0 as int] == successor(net, LaneId(p.0)));
                }
            },
        }
    }
    pred
}

/// Two corridors share no lane.
pub proof fn corridors_are_disjoint(net: &Network, r: &Corridors, c: int, d: int, lane: LaneId)
    requires
        net.wf(),
        r.wf(net),
        0 <= c < r.chains@.len(),
        0 <= d < r.chains@.len(),
        r.covers(c, lane),
        r.covers(d, lane),
    ensures
        c == d,
{
    let k = choose|k: int| 0 <= k < r.chains@[c]@.len() && r.chains@[c]@[k] == lane;
    let m = choose|m: int| 0 <= m < r.chains@[d]@.len() && r.chains@[d]@[m] == lane;
    assert(r.of_lane@[r.chains@[c]@[k].0 as int] == c);
    assert(r.of_lane@[r.chains@[d]@[m].0 as int] == d);
}

/// A lane and the lane it continues into lie in the same corridor.
pub proof fn continuation_stays_in_its_corridor(net: &Network, r: &Corridors, a: LaneId)
    requires
        net.wf(),
        r.wf(net),
        net.has_lane(a),
        successor(net, a) is Some,
    ensures
        r.of_lane@[a.0 as int] == r.of_lane@[(successor(net, a)->0).0 as int],
{
    let c = r.of_lane@[a.0 as int] as int;
    assert(r.covers(c, LaneId(a.0)));
    assert(is_corridor(net, r.chains@[c]@));
    let k = lemma_next_in_chain(net, r.chains@[c]@, a);
    assert(r.of_lane@[r.chains@[c]@[k].0 as int] == c);
}

/// A corridor is entered at its beginning: a movement either continues it, or lands
/// on the first of its lanes.
pub proof fn a_corridor_is_entered_at_its_beginning(net: &Network, r: &Corridors, m: MovementId)
    requires
        net.wf(),
        r.wf(net),
        net.has_movement(m),
    ensures
        ({
            let (from, to) = (net.movement_at(m).from_lane, net.movement_at(m).to_lane);
            successor(net, from) == Some(to) || r.chains@[r.of_lane@[to.0 as int] as int]@[0] == to
        }),
{
    let to = net.movement_at(m).to_lane;
    assert(net.movement_ok(m.0 as int));
    let c = r.of_lane@[to.0 as int] as int;
    assert(r.covers(c, LaneId(to.0)));
    assert(is_corridor(net, r.chains@[c]@));
    let s = r.chains@[c]@;
    let k = choose|k: int| 0 <= k < s.len() && s[k] == to;
    if k > 0 {
        lemma_only_from(net, s[k - 1], m);
    }
}

/// Where a lane continues, nobody else's movement lands.
proof fn lemma_only_from(net: &Network, p: LaneId, m: MovementId)
    requires
        net.wf(),
        net.has_lane(p),
        net.has_movement(m),
        successor(net, p) == Some(net.movement_at(m).to_lane),
    ensures
        net.movement_at(m).from_lane == p,
{
    assert(net.lane_ok(p.0 as int));
    let start = net.lane_at(p).movement_start;
    assert(net.movements@[start.0 as int].from_lane.0 == p.0);
    a_continuation_is_the_only_way(net, start);
    assert(net.has_movement(m));
}

/// Lanes of one corridor are joined: from one of them, continuing often enough
/// comes to the other.
pub proof fn lanes_of_a_corridor_are_joined(net: &Network, r: &Corridors, a: LaneId, b: LaneId)
    requires
        net.wf(),
        r.wf(net),
        net.has_lane(a),
        net.has_lane(b),
        r.of_lane@[a.0 as int] == r.of_lane@[b.0 as int],
    ensures
        exists|s: Seq<LaneId>| #[trigger]
            is_chain(net, s) && ((s[0] == a && s.last() == b) || (s[0] == b && s.last() == a)),
{
    let c = r.of_lane@[a.0 as int] as int;
    assert(r.covers(c, LaneId(a.0)));
    assert(r.of_lane@[b.0 as int] == c);
    assert(r.covers(c, LaneId(b.0)));
    let s = r.chains@[c]@;
    assert(is_corridor(net, r.chains@[c]@));
    let x = choose|x: int| 0 <= x < s.len() && s[x] == a;
    let y = choose|y: int| 0 <= y < s.len() && s[y] == b;
    let (lo, hi) = if x <= y {
        (x, y)
    } else {
        (y, x)
    };
    let t = s.subrange(lo, hi + 1);
    assert forall|k: int| 0 <= k < t.len() - 1 implies #[trigger] successor(net, t[k]) == Some(
        t[k + 1],
    ) by {
        assert(successor(net, s[lo + k]) == Some(s[lo + k + 1]));
    }
    assert forall|k: int| 0 <= k < t.len() implies net.has_lane(#[trigger] t[k]) by {
        assert(net.has_lane(s[lo + k]));
    }
    assert(is_chain(net, t));
}

} // verus!
