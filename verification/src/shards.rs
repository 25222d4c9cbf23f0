//! Splitting the network between shards. A junction cluster, or a node outside
//! any, is one indivisible unit; units are dealt to the least loaded shard. A
//! vehicle is acted on by the shard that owns the node at its lane's end, and a
//! lane's occupancy belongs to the shard of the node where vehicles enter it.

use vstd::prelude::*;
use crate::backend::pool_width;
use crate::network::{LaneId, MovementId, Network, NodeId};
use crate::search::{count_where, least_index, lemma_count_bounds, lemma_count_monotone, lemma_least, lemma_least_step};

verus! {

/// Of a node: no junction cluster holds it.
pub open spec fn is_lone(net: &Network) -> spec_fn(int) -> bool {
    |n: int| net.nodes@[n].junction is None
}

/// The indivisible unit of a node: its cluster, or one of its own.
pub open spec fn unit_of_node(net: &Network, n: int) -> int {
    match net.nodes@[n].junction {
        Some(j) => j as int,
        None => net.junctions@.len() + count_where(n, is_lone(net)),
    }
}

/// How many units there are.
pub open spec fn unit_total(net: &Network) -> int {
    net.junctions@.len() + count_where(net.nodes@.len() as int, is_lone(net))
}

/// The load of a shard, always present.
pub open spec fn load_of(load: Seq<int>) -> spec_fn(int) -> Option<int> {
    |s: int| Some(load[s])
}

/// The first shard with the least load.
pub open spec fn least_loaded(load: Seq<int>) -> int {
    match least_index(load.len() as int, load_of(load)) {
        Some(s) => s,
        None => 0,
    }
}

/// The loads after the first `u` units have been dealt.
pub open spec fn loads_after(count: nat, weight: Seq<u64>, u: int) -> Seq<int>
    decreases u,
{
    if u <= 0 {
        Seq::new(count, |s: int| 0int)
    } else {
        let load = loads_after(count, weight, u - 1);
        let s = least_loaded(load);
        load.update(s, load[s] + weight[u - 1])
    }
}

/// The shard that a unit is dealt to.
pub open spec fn shard_of_unit(count: nat, weight: Seq<u64>, u: int) -> int {
    least_loaded(loads_after(count, weight, u))
}

#[derive(Debug)]
pub struct Sharding {
    pub count: usize,
    /// Per lane: the shard of the node where it begins.
    pub lane_entry: Vec<u32>,
    /// Per lane: the shard of the node where it ends.
    pub lane_home: Vec<u32>,
    /// Per node: its indivisible unit.
    pub unit_of: Vec<u32>,
    pub units: usize,
}

/// As many shards as asked for, at least one, and no more than there are threads or
/// numbers for them.
pub open spec fn shard_count(target: int, threads: int) -> int {
    let wanted = if target < 1 {
        1
    } else {
        target
    };
    let run = if wanted < threads {
        wanted
    } else {
        threads
    };
    if run < u32::MAX {
        run
    } else {
        u32::MAX as int
    }
}

impl Sharding {
    /// The tables fit the network.
    pub open spec fn wf(&self, net: &Network) -> bool {
        &&& 1 <= self.count <= u32::MAX
        &&& self.units == unit_total(net)
        &&& self.unit_of@.len() == net.nodes@.len()
        &&& forall|n: int|
            0 <= n < net.nodes@.len() ==> #[trigger] self.unit_of@[n] == unit_of_node(net, n)
        &&& self.lane_entry@.len() == net.lanes@.len()
        &&& self.lane_home@.len() == net.lanes@.len()
        &&& forall|l: int| 0 <= l < net.lanes@.len() ==> #[trigger] self.lane_entry@[l] < self.count
        &&& forall|l: int| 0 <= l < net.lanes@.len() ==> #[trigger] self.lane_home@[l] < self.count
        &&& exists|w: Seq<u64>| w.len() == self.units && #[trigger] self.dealt(net, w)
    }

    /// The units were dealt by these weights: a lane's home is the shard of its
    /// end, its entry the shard of its beginning.
    pub open spec fn dealt(&self, net: &Network, weight: Seq<u64>) -> bool {
        forall|l: LaneId| #![trigger net.lane_at(l)]
            net.has_lane(l) ==> self.lane_home@[l.0 as int] == shard_of_unit(
                self.count as nat,
                weight,
                unit_of_node(net, net.link_at(net.link_of(l)).to.0 as int),
            ) && self.lane_entry@[l.0 as int] == shard_of_unit(
                self.count as nat,
                weight,
                unit_of_node(net, net.link_at(net.link_of(l)).from.0 as int),
            )
    }
}

impl Sharding {
    /// The units were dealt by their numbers of nodes.
    pub open spec fn balanced_by_nodes(&self, net: &Network) -> bool {
        exists|w: Seq<u64>|
            w.len() == unit_total(net) && (forall|u: int|
                0 <= u < w.len() ==> #[trigger] w[u] == unit_size(net, u)) && #[trigger] self.dealt(
                net,
                w,
            )
    }

    /// The two partitions are the same.
    pub open spec fn same_as(&self, other: &Sharding) -> bool {
        &&& self.count == other.count
        &&& self.units == other.units
        &&& self.unit_of@ == other.unit_of@
        &&& self.lane_entry@ == other.lane_entry@
        &&& self.lane_home@ == other.lane_home@
    }
}

/// Two nodes belong to one unit: they are the same, or lie in one cluster.
pub open spec fn in_one_unit(net: &Network, a: NodeId, b: NodeId) -> bool {
    a == b || (net.node_at(a).junction is Some && net.node_at(a).junction == net.node_at(b).junction)
}

/// How many nodes a unit has.
pub open spec fn unit_size(net: &Network, u: int) -> int {
    count_where(net.nodes@.len() as int, in_unit(net, u))
}

/// Of a node: it belongs to the unit.
pub open spec fn in_unit(net: &Network, u: int) -> spec_fn(int) -> bool {
    |n: int| unit_of_node(net, n) == u
}

proof fn lemma_unit_range(net: &Network, n: int)
    requires
        net.wf(),
        0 <= n < net.nodes@.len(),
    ensures
        0 <= unit_of_node(net, n) < unit_total(net),
{
    assert(net.node_ok(n));
    lemma_count_bounds(n, is_lone(net));
    lemma_count_bounds(net.nodes@.len() as int, is_lone(net));
    lemma_count_monotone(n + 1, net.nodes@.len() as int, is_lone(net));
    if net.nodes@[n].junction is None {
        assert(is_lone(net)(n));
    }
}

proof fn lemma_least_loaded(load: Seq<int>)
    requires
        load.len() > 0,
    ensures
        0 <= least_loaded(load) < load.len(),
        forall|s: int| 0 <= s < load.len() ==> load[least_loaded(load)] <= #[trigger] load[s],
        forall|s: int| 0 <= s < least_loaded(load) ==> load[least_loaded(load)] < #[trigger] load[s],
{
    lemma_least(load.len() as int, load_of(load));
    assert(load_of(load)(0) is Some);
    let m = least_loaded(load);
    assert forall|s: int| 0 <= s < load.len() implies load[m] <= #[trigger] load[s] by {
        assert(load_of(load)(s) is Some);
    }
    assert forall|s: int| 0 <= s < m implies load[m] < #[trigger] load[s] by {
        assert(load_of(load)(s) is Some);
    }
}

proof fn lemma_loads_len(count: nat, weight: Seq<u64>, u: int)
    requires
        count > 0,
        0 <= u <= weight.len(),
    ensures
        loads_after(count, weight, u).len() == count,
        forall|s: int|
            0 <= s < count ==> 0 <= #[trigger] loads_after(count, weight, u)[s] <= u * u64::MAX,
    decreases u,
{
    if u > 0 {
        lemma_loads_len(count, weight, u - 1);
        let before = loads_after(count, weight, u - 1);
        lemma_least_loaded(before);
        let now = loads_after(count, weight, u);
        assert((u - 1) * u64::MAX + u64::MAX == u * u64::MAX) by (nonlinear_arith);
        assert forall|s: int| 0 <= s < count implies 0 <= #[trigger] now[s] <= u * u64::MAX by {
            assert(0 <= before[s] <= (u - 1) * u64::MAX);
        }
    }
}

/// The loads after some units depend on the weights of those alone.
proof fn lemma_loads_agree(count: nat, a: Seq<u64>, b: Seq<u64>, u: int)
    requires
        0 <= u <= a.len(),
        u <= b.len(),
        forall|x: int| 0 <= x < u ==> #[trigger] a[x] == b[x],
    ensures
        loads_after(count, a, u) == loads_after(count, b, u),
    decreases u,
{
    if u > 0 {
        lemma_loads_agree(count, a, b, u - 1);
        assert(a[u - 1] == b[u - 1]);
    }
}

fn find_least_loaded(load: &Vec<u128>) -> (s: usize)
    requires
        load@.len() > 0,
    ensures
        s == least_loaded(load@.map_values(|x: u128| x as int)),
        s < load@.len(),
{
    let ghost l = load@.map_values(|x: u128| x as int);
    let ghost c = load_of(l);
    let mut best: usize = 0;
    let mut i: usize = 1;
    proof {
        lemma_least_step(0, c);
        lemma_least(0, c);
        assert(least_index(1, c) == Some(0int));
    }
    while i < load.len()
        invariant
            l == load@.map_values(|x: u128| x as int),
            c == load_of(l),
            1 <= i <= load@.len(),
            best < i,
            least_index(i as int, c) == Some(best as int),
        decreases load@.len() - i,
    {
        proof {
            lemma_least_step(i as int, c);
            assert(c(best as int) == Some(load@[best as int] as int));
            assert(c(i as int) == Some(load@[i as int] as int));
        }
        if load[i] < load[best] {
            best = i;
        }
        i += 1;
    }
    best
}

/// Deal the first `units` of the weights: the shard of each.
fn deal(count: usize, weight: &Vec<u64>, units: usize) -> (out: Vec<u32>)
    requires
        1 <= count <= u32::MAX,
        units <= weight@.len(),
        units <= u32::MAX,
    ensures
        out@.len() == units,
        forall|u: int|
            0 <= u < out@.len() ==> #[trigger] out@[u] == shard_of_unit(count as nat, weight@, u)
                && out@[u] < count,
{
    let mut load: Vec<u128> = vec![0u128; count];
    let mut out: Vec<u32> = Vec::new();
    let mut u: usize = 0;
    assert(load@.map_values(|x: u128| x as int) =~= loads_after(count as nat, weight@, 0));
    while u < units
        invariant
            1 <= count <= u32::MAX,
            units <= weight@.len(),
            units <= u32::MAX,
            u <= units,
            load@.len() == count,
            load@.map_values(|x: u128| x as int) == loads_after(count as nat, weight@, u as int),
            out@.len() == u,
            forall|x: int|
                0 <= x < u ==> #[trigger] out@[x] == shard_of_unit(count as nat, weight@, x)
                    && out@[x] < count,
        decreases units - u,
    {
        let ghost l = load@.map_values(|x: u128| x as int);
        let s = find_least_loaded(&load);
        proof {
            lemma_loads_len(count as nat, weight@, u as int);
            assert(l[s as int] <= u * u64::MAX);
            assert(u * u64::MAX + u64::MAX <= u128::MAX) by (nonlinear_arith)
                requires
                    0 <= u <= u32::MAX,
            ;
        }
        out.push(s as u32);
        load[s] = load[s] + weight[u] as u128;
        assert(load@.map_values(|x: u128| x as int) =~= loads_after(
            count as nat,
            weight@,
            u + 1,
        ));
        u += 1;
    }
    out
}

impl Sharding {
    /// As many shards as asked for, at least one and no more than there are threads.
    pub fn clamp_to(target: usize, threads: usize) -> (r: usize)
        ensures
            r == ({
                let wanted = if target < 1 {
                    1
                } else {
                    target
                };
                let had = if threads < 1 {
                    1
                } else {
                    threads
                };
                if wanted < had {
                    wanted
                } else {
                    had
                }
            }),
    {
        let wanted: usize = if target < 1 {
            1
        } else {
            target
        };
        let had: usize = if threads < 1 {
            1
        } else {
            threads
        };
        if wanted < had {
            wanted
        } else {
            had
        }
    }

    /// As many shards as asked for, at least one and no more than the pool has
    /// threads: [`Sharding::clamp_to`] that number, which is the machine's.
    pub fn clamp_count(target: usize) -> (r: usize)
        ensures
            r >= 1,
            target >= 1 ==> r <= target,
            target == 0 ==> r == 1,
    {
        Self::clamp_to(target, pool_width())
    }

    fn units_of(net: &Network) -> (r: (Vec<u32>, usize))
        requires
            net.wf(),
        ensures
            r.0@.len() == net.nodes@.len(),
            forall|n: int|
                0 <= n < net.nodes@.len() ==> #[trigger] r.0@[n] == unit_of_node(net, n),
            r.1 == unit_total(net),
    {
        let mut unit_of: Vec<u32> = Vec::new();
        let mut next: u32 = net.junctions.len() as u32;
        let mut n: usize = 0;
        while n < net.nodes.len()
            invariant
                net.wf(),
                n <= net.nodes@.len(),
                unit_of@.len() == n,
                next == net.junctions@.len() + count_where(n as int, is_lone(net)),
                forall|k: int| 0 <= k < n ==> #[trigger] unit_of@[k] == unit_of_node(net, k),
            decreases net.nodes@.len() - n,
        {
            proof {
                lemma_count_bounds(n as int, is_lone(net));
            }
            match net.nodes[n].junction {
                Some(j) => {
                    unit_of.push(j);
                },
                None => {
                    unit_of.push(next);
                    next += 1;
                },
            }
            n += 1;
        }
        (unit_of, next as usize)
    }

    fn sizes_of(net: &Network, unit_of: &Vec<u32>, units: usize) -> (size: Vec<u64>)
        requires
            net.wf(),
            units == unit_total(net),
            unit_of@.len() == net.nodes@.len(),
            forall|n: int|
                0 <= n < net.nodes@.len() ==> #[trigger] unit_of@[n] == unit_of_node(net, n),
        ensures
            size@.len() == units,
            forall|u: int| 0 <= u < units ==> #[trigger] size@[u] == unit_size(net, u),
    {
        let mut size: Vec<u64> = vec![0u64; units];
        let mut n: usize = 0;
        while n < unit_of.len()
            invariant
                net.wf(),
                units == unit_total(net),
                n <= unit_of@.len(),
                unit_of@.len() == net.nodes@.len(),
                forall|k: int|
                    0 <= k < net.nodes@.len() ==> #[trigger] unit_of@[k] == unit_of_node(net, k),
                size@.len() == units,
                forall|u: int|
                    0 <= u < units ==> #[trigger] size@[u] == count_where(
                        n as int,
                        in_unit(net, u),
                    ),
            decreases unit_of@.len() - n,
        {
            proof {
                lemma_unit_range(net, n as int);
            }
            let u = unit_of[n] as usize;
            let ghost before = size@;
            proof {
                lemma_count_bounds(n as int, in_unit(net, u as int));
            }
            size[u] = size[u] + 1;
            assert forall|x: int| 0 <= x < units implies #[trigger] size@[x] == count_where(
                n + 1,
                in_unit(net, x),
            ) by {
                assert(before[x] == count_where(n as int, in_unit(net, x)));
            }
            n += 1;
        }
        size
    }

    /// Partition a network into a given number of shards, balanced by node count.
    pub fn build_with(net: &Network, count: usize) -> (r: Sharding)
        requires
            net.wf(),
            1 <= count <= u32::MAX,
        ensures
            r.wf(net),
            r.count == count,
            r.balanced_by_nodes(net),
    {
        let (unit_of, units) = Self::units_of(net);
        let size = Self::sizes_of(net, &unit_of, units);
        let mut r = Sharding {
            count,
            lane_entry: vec![0u32; net.lanes.len()],
            lane_home: vec![0u32; net.lanes.len()],
            unit_of,
            units,
        };
        r.assign(net, &size);
        assert(size@.take(units as int) =~= size@);
        assert(r.dealt(net, size@));
        r
    }

    /// Partition a network into as many shards as asked for and the pool can run.
    pub fn build(net: &Network, target: usize) -> (r: Sharding)
        requires
            net.wf(),
        ensures
            r.wf(net),
            exists|threads: int|
                threads >= 1 && r.count == #[trigger] shard_count(target as int, threads),
            r.balanced_by_nodes(net),
    {
        let threads = pool_width();
        let count = Self::clamp_to(target, threads);
        let count = if count < 0xFFFF_FFFF {
            count
        } else {
            0xFFFF_FFFF
        };
        assert(count == shard_count(target as int, threads as int));
        Self::build_with(net, count)
    }

    /// Deal the units anew by other weights, such as the vehicles in each: by the
    /// first ones of the list, one per unit.
    pub fn rebalance(&mut self, net: &Network, weight: &Vec<u64>)
        requires
            net.wf(),
            old(self).wf(net),
            weight@.len() >= old(self).units,
        ensures
            final(self).wf(net),
            final(self).count == old(self).count,
            final(self).units == old(self).units,
            final(self).unit_of@ == old(self).unit_of@,
            final(self).dealt(net, weight@.take(old(self).units as int)),
    {
        self.assign(net, weight);
    }

    fn assign(&mut self, net: &Network, weight: &Vec<u64>)
        requires
            net.wf(),
            1 <= old(self).count <= u32::MAX,
            old(self).units == unit_total(net),
            weight@.len() >= old(self).units,
            old(self).unit_of@.len() == net.nodes@.len(),
            forall|n: int|
                0 <= n < net.nodes@.len() ==> #[trigger] old(self).unit_of@[n] == unit_of_node(
                    net,
                    n,
                ),
            old(self).lane_entry@.len() == net.lanes@.len(),
            old(self).lane_home@.len() == net.lanes@.len(),
        ensures
            final(self).wf(net),
            final(self).count == old(self).count,
            final(self).units == old(self).units,
            final(self).unit_of@ == old(self).unit_of@,
            final(self).dealt(net, weight@.take(old(self).units as int)),
    {
        let ghost dealt = weight@.take(self.units as int);
        proof {
            lemma_count_bounds(net.nodes@.len() as int, is_lone(net));
        }
        let shard = deal(self.count, weight, self.units);
        assert forall|u: int| 0 <= u < shard@.len() implies #[trigger] shard@[u] == shard_of_unit(
            self.count as nat,
            dealt,
            u,
        ) by {
            lemma_loads_agree(self.count as nat, weight@, dealt, u);
        }
        let mut l: usize = 0;
        while l < net.lanes.len()
            invariant
                net.wf(),
                l <= net.lanes@.len(),
                self.count == old(self).count,
                self.units == old(self).units,
                self.unit_of@ == old(self).unit_of@,
                self.units == unit_total(net),
                self.unit_of@.len() == net.nodes@.len(),
                forall|n: int|
                    0 <= n < net.nodes@.len() ==> #[trigger] self.unit_of@[n] == unit_of_node(
                        net,
                        n,
                    ),
                dealt.len() == self.units,
                shard@.len() == self.units,
                forall|u: int|
                    0 <= u < shard@.len() ==> #[trigger] shard@[u] == shard_of_unit(
                        self.count as nat,
                        dealt,
                        u,
                    ) && shard@[u] < self.count,
                self.lane_entry@.len() == net.lanes@.len(),
                self.lane_home@.len() == net.lanes@.len(),
                forall|k: int|
                    0 <= k < l ==> #[trigger] self.lane_home@[k] == shard_of_unit(
                        self.count as nat,
                        dealt,
                        unit_of_node(
                            net,
                            net.link_at(net.link_of(LaneId(k as u32))).to.0 as int,
                        ),
                    ) && self.lane_home@[k] < self.count,
                forall|k: int|
                    0 <= k < l ==> #[trigger] self.lane_entry@[k] == shard_of_unit(
                        self.count as nat,
                        dealt,
                        unit_of_node(
                            net,
                            net.link_at(net.link_of(LaneId(k as u32))).from.0 as int,
                        ),
                    ) && self.lane_entry@[k] < self.count,
            decreases net.lanes@.len() - l,
        {
            assert(net.lane_ok(l as int));
            let link = net.link(net.lanes[l].link);
            assert(net.link_ok(net.lanes@[l as int].link.0 as int));
            proof {
                lemma_unit_range(net, link.from.0 as int);
                lemma_unit_range(net, link.to.0 as int);
            }
            let from_unit = self.unit_of[link.from.0 as usize];
            let to_unit = self.unit_of[link.to.0 as usize];
            self.lane_entry[l] = shard[from_unit as usize];
            self.lane_home[l] = shard[to_unit as usize];
            l += 1;
        }
        assert(self.dealt(net, dealt)) by {
            assert forall|k: LaneId| #![trigger net.lane_at(k)] net.has_lane(k) implies self.lane_home@[k.0 as int]
                == shard_of_unit(
                self.count as nat,
                dealt,
                unit_of_node(net, net.link_at(net.link_of(k)).to.0 as int),
            ) && self.lane_entry@[k.0 as int] == shard_of_unit(
                self.count as nat,
                dealt,
                unit_of_node(net, net.link_at(net.link_of(k)).from.0 as int),
            ) by {
                assert(LaneId(k.0 as u32) == k);
                assert(self.lane_home@[k.0 as int] < self.count);
                assert(self.lane_entry@[k.0 as int] < self.count);
            }
        }
    }

    /// The shard that acts on the vehicles of a lane.
    pub fn home_of(&self, lane: LaneId) -> (r: u32)
        requires
            lane.0 < self.lane_home@.len(),
        ensures
            r == self.lane_home@[lane.0 as int],
    {
        self.lane_home[lane.0 as usize]
    }

    /// The shard that owns a lane's occupancy.
    pub fn entry_of(&self, lane: LaneId) -> (r: u32)
        requires
            lane.0 < self.lane_entry@.len(),
        ensures
            r == self.lane_entry@[lane.0 as int],
    {
        self.lane_entry[lane.0 as usize]
    }
}

/// A unit is never split: lanes that end or begin at nodes of one unit meet the
/// same shard there.
pub proof fn clusters_are_atomic(net: &Network, s: &Sharding, a: LaneId, b: LaneId)
    requires
        net.wf(),
        s.wf(net),
        net.has_lane(a),
        net.has_lane(b),
    ensures
        ({
            let (x, y) = (net.link_at(net.link_of(a)), net.link_at(net.link_of(b)));
            &&& in_one_unit(net, x.to, y.to) ==> s.lane_home@[a.0 as int] == s.lane_home@[b.0 as int]
            &&& in_one_unit(net, x.to, y.from) ==> s.lane_home@[a.0 as int]
                == s.lane_entry@[b.0 as int]
            &&& in_one_unit(net, x.from, y.from) ==> s.lane_entry@[a.0 as int]
                == s.lane_entry@[b.0 as int]
        }),
{
    let w = choose|w: Seq<u64>| w.len() == s.units && #[trigger] s.dealt(net, w);
    assert(net.lane_at(a) == net.lane_at(a));
    assert(net.lane_at(b) == net.lane_at(b));
}

/// Partitions of one network into as many shards, dealt by the same weights, are
/// the same: what was there before the dealing does not matter, and dealing
/// again changes nothing.
pub proof fn dealing_depends_on_the_weights_alone(
    net: &Network,
    a: &Sharding,
    b: &Sharding,
    weight: Seq<u64>,
)
    requires
        net.wf(),
        a.wf(net),
        b.wf(net),
        a.count == b.count,
        a.dealt(net, weight),
        b.dealt(net, weight),
    ensures
        a.same_as(b),
{
    assert forall|l: int| 0 <= l < net.lanes@.len() implies a.lane_home@[l] == b.lane_home@[l]
        && #[trigger] a.lane_entry@[l] == b.lane_entry@[l] by {
        let lane = LaneId(l as u32);
        assert(lane.0 == l);
        let link = net.lane_at(lane).link;
        assert(a.lane_home@[lane.0 as int] == b.lane_home@[lane.0 as int]);
    }
    assert forall|l: int| 0 <= l < net.lanes@.len() implies #[trigger] a.lane_home@[l]
        == b.lane_home@[l] by {
        assert(a.lane_entry@[l] == b.lane_entry@[l]);
    }
    assert(a.lane_home@ =~= b.lane_home@);
    assert(a.lane_entry@ =~= b.lane_entry@);
    assert(a.unit_of@ =~= b.unit_of@);
}

/// Two partitions of one network into as many shards, as they are built, are the
/// same.
pub proof fn builds_agree(net: &Network, a: &Sharding, b: &Sharding)
    requires
        net.wf(),
        a.wf(net),
        b.wf(net),
        a.count == b.count,
        a.balanced_by_nodes(net),
        b.balanced_by_nodes(net),
    ensures
        a.same_as(b),
{
    let n = unit_total(net);
    let u = choose|w: Seq<u64>|
        w.len() == n && (forall|u: int| 0 <= u < w.len() ==> #[trigger] w[u] == unit_size(net, u))
            && #[trigger] a.dealt(net, w);
    let v = choose|w: Seq<u64>|
        w.len() == n && (forall|u: int| 0 <= u < w.len() ==> #[trigger] w[u] == unit_size(net, u))
            && #[trigger] b.dealt(net, w);
    assert(u =~= v);
    dealing_depends_on_the_weights_alone(net, a, b, u);
}

/// No shard ever has more than another by above the heaviest unit.
pub proof fn loads_stay_balanced(count: nat, weight: Seq<u64>, u: int, most: int, a: int, b: int)
    requires
        count > 0,
        0 <= u <= weight.len(),
        forall|x: int| 0 <= x < u ==> #[trigger] weight[x] <= most,
        0 <= most,
        0 <= a < count,
        0 <= b < count,
    ensures
        loads_after(count, weight, u)[a] - loads_after(count, weight, u)[b] <= most,
    decreases u,
{
    if u > 0 {
        let before = loads_after(count, weight, u - 1);
        let s = least_loaded(before);
        loads_stay_balanced(count, weight, u - 1, most, a, b);
        lemma_loads_len(count, weight, u - 1);
        lemma_least_loaded(before);
        assert(before[s] <= before[b]);
        assert(weight[u - 1] <= most);
        if a == s {
            assert(b == s || before[a] <= before[b]);
        }
    }
}

/// Units of one weight are dealt in turn.
pub proof fn equal_units_are_dealt_in_turn(count: nat, weight: Seq<u64>, w: int, u: int)
    requires
        count > 0,
        0 <= u < weight.len(),
        0 < w,
        forall|x: int| 0 <= x < u ==> #[trigger] weight[x] == w,
    ensures
        shard_of_unit(count, weight, u) == u % (count as int),
{
    lemma_even_loads(count, weight, w, u);
    let load = loads_after(count, weight, u);
    let (q, m) = (u / (count as int), u % (count as int));
    lemma_loads_len(count, weight, u);
    lemma_even_least(load, w, q, m);
}

/// Of loads that differ by a unit, the first of the lower ones is the least.
proof fn lemma_even_least(load: Seq<int>, w: int, q: int, m: int)
    requires
        0 < w,
        0 <= m < load.len(),
        forall|s: int|
            0 <= s < load.len() ==> #[trigger] load[s] == (if s < m {
                w * q + w
            } else {
                w * q
            }),
    ensures
        least_loaded(load) == m,
{
    lemma_least_loaded(load);
    let s = least_loaded(load);
    assert(load[s] <= load[m]);
    if m < s {
        assert(load[s] < load[m]);
    }
}

proof fn lemma_even_loads(count: nat, weight: Seq<u64>, w: int, u: int)
    requires
        count > 0,
        0 <= u <= weight.len(),
        0 < w,
        forall|x: int| 0 <= x < u ==> #[trigger] weight[x] == w,
    ensures
        loads_after(count, weight, u).len() == count,
        forall|s: int|
            0 <= s < count ==> #[trigger] loads_after(count, weight, u)[s] == (if s < u % (
            count as int) {
                w * (u / (count as int)) + w
            } else {
                w * (u / (count as int))
            }),
    decreases u,
{
    let n = count as int;
    lemma_loads_len(count, weight, u);
    if u == 0 {
        assert(0int / n == 0 && 0int % n == 0) by (nonlinear_arith)
            requires
                n > 0,
        ;
        assert(w * 0 == 0);
    } else {
        lemma_even_loads(count, weight, w, u - 1);
        let before = loads_after(count, weight, u - 1);
        let (q, m) = ((u - 1) / n, (u - 1) % n);
        vstd::arithmetic::div_mod::lemma_fundamental_div_mod(u - 1, n);
        vstd::arithmetic::div_mod::lemma_mod_bound(u - 1, n);
        lemma_loads_len(count, weight, u - 1);
        lemma_even_least(before, w, q, m);
        assert(weight[u - 1] == w);
        if m + 1 < n {
            vstd::arithmetic::div_mod::lemma_fundamental_div_mod_converse(u, n, q, m + 1);
        } else {
            assert(n * q + n == n * (q + 1)) by (nonlinear_arith);
            vstd::arithmetic::div_mod::lemma_fundamental_div_mod_converse(u, n, q + 1, 0);
            assert(w * (q + 1) == w * q + w) by (nonlinear_arith);
        }
    }
}

/// The shard that acts on a vehicle owns the occupancy of every lane that the
/// vehicle can land on.
pub proof fn landing_is_owned_by_the_home_shard(net: &Network, s: &Sharding, m: MovementId)
    requires
        net.wf(),
        s.wf(net),
        net.has_movement(m),
    ensures
        s.lane_entry@[net.landing(m).0 as int] == s.lane_home@[net.movement_at(m).from_lane.0 as int],
{
    let w = choose|w: Seq<u64>| w.len() == s.units && #[trigger] s.dealt(net, w);
    assert(net.movement_ok(m.0 as int));
    let (a, b) = (net.movement_at(m).from_lane, net.movement_at(m).to_lane);
    assert(net.lane_at(a) == net.lane_at(a));
    assert(net.lane_at(b) == net.lane_at(b));
}

/// A unit always goes to a shard that no other is less loaded than.
pub proof fn units_go_to_a_least_loaded_shard(count: nat, weight: Seq<u64>, u: int, s: int)
    requires
        count > 0,
        0 <= u < weight.len(),
        0 <= s < count,
    ensures
        loads_after(count, weight, u)[shard_of_unit(count, weight, u)] <= loads_after(
            count,
            weight,
            u,
        )[s],
{
    lemma_loads_len(count, weight, u);
    lemma_least_loaded(loads_after(count, weight, u));
}

} // verus!
