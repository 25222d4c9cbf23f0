//! Least-cost routing over links. A route is a chain of links, each joined to
//! the next by some movement; its cost is what entering each further link costs.
//! A [`FieldRouter`] holds one field per destination.

use vstd::prelude::*;
use crate::backend::{map_all, AccelBackend};
use crate::network::{LinkId, Network};
use crate::search::{first_index, lemma_count_bounds, least_index, lemma_first_index_is, lemma_first_index_none, lemma_least, lemma_least_step};
use crate::solver::{feeder_links, feeders_listed, hops_descend, is_hop, is_distance, is_least_route, is_route, joined, leads, lemma_lower_bound, lemma_route_prepend, lemma_route_tail, reach_count, reaches, route_cost, solve, Field, Search};

verus! {

/// Distance value that an outside solver gives to links that do not reach the destination.
pub const UNREACHED: u64 = 0xFFFF_FFFF_FFFF_FFFF;

/// A recompute in flight: the link costs it goes by, how many fields it solves at
/// once, the first slot of those, and how many links each may have settled so far.
pub struct Cycle {
    pub costs: Seq<u64>,
    pub width: int,
    pub first: int,
    pub spent: int,
}

impl Cycle {
    /// The slot after those that are being solved.
    pub open spec fn end(&self, slots: int) -> int {
        if self.first + self.width < slots {
            self.first + self.width
        } else {
            slots
        }
    }

    /// With so many links settled, the fields that are being solved are complete.
    pub open spec fn completes(&self, net: &Network, slots: Seq<LinkId>, spent: int) -> bool {
        forall|s: int|
            self.first <= s < self.end(slots.len() as int) ==> reach_count(net, #[trigger] slots[s])
                <= spent
    }
}

/// The searches of a recompute.
#[derive(Debug)]
struct Pending {
    costs: Vec<u64>,
    width: usize,
    first: usize,
    spent: usize,
    searches: Vec<Search>,
}

impl Pending {
    spec fn cycle(&self) -> Cycle {
        Cycle {
            costs: self.costs@,
            width: self.width as int,
            first: self.first as int,
            spent: self.spent as int,
        }
    }

    /// The searches are those of the slots from the first on, as far as they may
    /// have come.
    spec fn wf(&self, net: &Network, slots: Seq<LinkId>) -> bool {
        &&& self.costs@.len() == net.links@.len()
        &&& self.width >= 1
        &&& self.first < slots.len()
        &&& self.spent <= net.links@.len()
        &&& self.searches@.len() == self.cycle().end(slots.len() as int) - self.first
        &&& forall|k: int|
            0 <= k < self.searches@.len() ==> come_so_far(
                #[trigger] self.searches@[k],
                net,
                self.costs@,
                slots[self.first + k],
                self.spent as int,
            )
    }
}

/// The search for a destination has settled so many links, or all there are.
spec fn come_so_far(s: Search, net: &Network, costs: Seq<u64>, to: LinkId, spent: int) -> bool {
    &&& s.wf(net, costs)
    &&& s.goal() == to
    &&& s.settled() == (if spent < reach_count(net, to) {
        spent
    } else {
        reach_count(net, to)
    })
}

/// The search has gone on, by so many links, or to its end.
spec fn went_on(s: Search, r: Search, net: &Network, costs: Seq<u64>, budget: int) -> bool {
    &&& r.wf(net, costs)
    &&& r.goal() == s.goal()
    &&& r.settled() == (if s.settled() + budget < reach_count(net, s.goal()) {
        s.settled() + budget
    } else {
        reach_count(net, s.goal())
    })
    &&& r.has_ended() <==> r.settled() == reach_count(net, s.goal())
}

fn copied(costs: &Vec<u64>) -> (r: Vec<u64>)
    ensures
        r@ == costs@,
{
    let mut r: Vec<u64> = Vec::new();
    let mut k: usize = 0;
    while k < costs.len()
        invariant
            k <= costs@.len(),
            r@ == costs@.take(k as int),
        decreases costs@.len() - k,
    {
        r.push(costs[k]);
        k += 1;
        assert(r@ =~= costs@.take(k as int));
    }
    assert(costs@.take(k as int) =~= costs@);
    r
}

/// Whether every search has come to its end.
fn all_ended(searches: &Vec<Search>) -> (r: bool)
    ensures
        r <==> forall|k: int| 0 <= k < searches@.len() ==> (#[trigger] searches@[k]).has_ended(),
{
    let mut k: usize = 0;
    while k < searches.len()
        invariant
            k <= searches@.len(),
            forall|j: int| 0 <= j < k ==> (#[trigger] searches@[j]).has_ended(),
        decreases searches@.len() - k,
    {
        if !searches[k].is_ended() {
            assert(!searches@[k as int].has_ended());
            return false;
        }
        k += 1;
    }
    true
}

/// One field per destination, in the order in which the destinations were given.
#[derive(Debug)]
pub struct FieldRouter {
    dests: Vec<LinkId>,
    fields: Vec<Field>,
    /// Per link: the links that some movement leads from.
    feeders: Vec<Vec<LinkId>>,
    pending: Option<Pending>,
}

impl FieldRouter {
    /// The destinations, in slot order.
    pub closed spec fn slots(&self) -> Seq<LinkId> {
        self.dests@
    }

    /// The field in a slot.
    pub closed spec fn field(&self, slot: int) -> Field {
        self.fields@[slot]
    }

    /// The recompute in flight.
    pub closed spec fn cycle(&self) -> Option<Cycle> {
        match self.pending {
            Some(p) => Some(p.cycle()),
            None => None,
        }
    }

    /// The searches in flight are sound.
    pub closed spec fn searches_ok(&self, net: &Network) -> bool {
        &&& feeders_listed(net, self.feeders@)
        &&& self.pending matches Some(p) ==> p.wf(net, self.dests@)
    }

    /// Every field of the slots in `from..to` solves its destination.
    pub open spec fn solved(&self, net: &Network, costs: Seq<u64>, from: int, to: int) -> bool {
        forall|s: int|
            from <= s < to ==> (#[trigger] self.field(s)).solves(net, costs, self.slots()[s])
    }

    /// The fields of the slots outside `from..to` are those of another router.
    pub open spec fn same_fields(&self, other: &FieldRouter, from: int, to: int) -> bool {
        forall|s: int|
            0 <= s < self.slots().len() && !(from <= s < to) ==> #[trigger] self.field(s)
                == other.field(s)
    }

    /// The router after a recompute has begun: the old fields still serve.
    pub open spec fn begun(&self, before: &FieldRouter, costs: Seq<u64>, width: int) -> bool {
        &&& self.slots() == before.slots()
        &&& self.same_fields(before, 0, 0)
        &&& self.cycle() == (if before.slots().len() > 0 {
            Some(
                Cycle {
                    costs,
                    width: if width < 1 {
                        1
                    } else {
                        width
                    },
                    first: 0,
                    spent: 0,
                },
            )
        } else {
            None
        })
    }

    /// The router after a recompute has gone on by so many links a field. The fields
    /// that it solves take effect together once all of them are complete; until then,
    /// and everywhere else, the old ones serve.
    pub open spec fn advanced(&self, before: &FieldRouter, net: &Network, budget: int) -> bool {
        let n = before.slots().len() as int;
        &&& self.slots() == before.slots()
        &&& match before.cycle() {
            None => self.cycle() is None && self.same_fields(before, 0, 0),
            Some(c) => {
                let links = net.links@.len() as int;
                let spent = if c.spent + budget < links {
                    c.spent + budget
                } else {
                    links
                };
                let end = c.end(n);
                if c.completes(net, before.slots(), spent) {
                    &&& self.solved(net, c.costs, c.first, end)
                    &&& self.same_fields(before, c.first, end)
                    &&& self.cycle() == (if end < n {
                        Some(Cycle { first: end, spent: 0, ..c })
                    } else {
                        None
                    })
                } else {
                    &&& self.same_fields(before, 0, 0)
                    &&& self.cycle() == Some(Cycle { spent, ..c })
                }
            },
        }
    }

    /// The slot that serves a destination.
    pub open spec fn slot_of(&self, dest: LinkId) -> Option<int> {
        first_index(0, self.slots().len() as int, self.serves(dest))
    }

    /// Of a slot: it serves the destination.
    pub open spec fn serves(&self, dest: LinkId) -> spec_fn(int) -> bool {
        |k: int| self.slots()[k] == dest
    }

    /// The next link from `link` towards `dest`.
    pub open spec fn hop(&self, dest: LinkId, link: LinkId) -> Option<LinkId> {
        match self.slot_of(dest) {
            Some(s) => self.field(s).next@[link.0 as int],
            None => None,
        }
    }

    /// The remaining cost from `link` to `dest`.
    pub open spec fn remaining(&self, dest: LinkId, link: LinkId) -> Option<u128> {
        match self.slot_of(dest) {
            Some(s) => self.field(s).dist@[link.0 as int],
            None => None,
        }
    }

    /// Every field covers every link, every hop is one that some movement makes, and
    /// of a recompute in flight the fields before those being solved are done.
    pub open spec fn wf(&self, net: &Network) -> bool {
        &&& self.searches_ok(net)
        &&& self.cycle() matches Some(c) ==> c.costs.len() == net.links@.len() && 0 <= c.first
            < self.slots().len() && c.width >= 1 && 0 <= c.spent <= net.links@.len()
            && self.solved(net, c.costs, 0, c.first)
        &&& self.columns() == self.slots().len()
        &&& forall|s: int|
            #![trigger self.slots()[s]]
            0 <= s < self.slots().len() ==> net.has_link(self.slots()[s])
        &&& forall|s: int|
            #![trigger self.field(s)]
            0 <= s < self.slots().len() ==> {
                &&& self.field(s).dist@.len() == net.links@.len()
                &&& self.field(s).next@.len() == net.links@.len()
                &&& forall|l: int|
                    0 <= l < net.links@.len() && (
                    #[trigger] self.field(s).next@[l]) is Some ==> is_hop(
                        net,
                        l,
                        self.field(s).next@[l]->0,
                    )
            }
    }

    pub closed spec fn columns(&self) -> nat {
        self.fields@.len()
    }

    /// Solve every destination under the given link costs.
    pub fn new(net: &Network, dests: &Vec<LinkId>, costs: &Vec<u64>) -> (r: FieldRouter)
        requires
            net.wf(),
            costs@.len() == net.links@.len(),
            forall|k: int| 0 <= k < dests@.len() ==> net.has_link(#[trigger] dests@[k]),
        ensures
            r.wf(net),
            r.slots() == dests@,
            r.cycle() is None,
            forall|s: int|
                0 <= s < dests@.len() ==> (#[trigger] r.field(s)).solves(net, costs@, dests@[s]),
    {
        let preds = feeder_links(net);
        let mut list: Vec<LinkId> = Vec::new();
        let mut fields: Vec<Field> = Vec::new();
        let mut k: usize = 0;
        while k < dests.len()
            invariant
                net.wf(),
                costs@.len() == net.links@.len(),
                feeders_listed(net, preds@),
                forall|j: int| 0 <= j < dests@.len() ==> net.has_link(#[trigger] dests@[j]),
                k <= dests@.len(),
                list@ == dests@.subrange(0, k as int),
                fields@.len() == k,
                forall|s: int|
                    0 <= s < k ==> (#[trigger] fields@[s]).solves(net, costs@, dests@[s]),
            decreases dests@.len() - k,
        {
            let to = dests[k];
            let (f, _rank) = solve(net, &preds, costs, to);
            list.push(to);
            fields.push(f);
            k += 1;
            assert(list@ =~= dests@.subrange(0, k as int));
        }
        assert(list@ =~= dests@);
        let r = FieldRouter { dests: list, fields, feeders: preds, pending: None };
        assert forall|s: int, l: int|
            0 <= s < r.slots().len() && 0 <= l < net.links@.len() && (
            #[trigger] r.field(s).next@[l]) is Some implies is_hop(net, l, r.field(s).next@[l]->0) by {
            assert(r.field(s) == fields@[s]);
            assert(l != dests@[s].0);
        }
        r
    }

    /// Whether a recompute is in flight.
    pub fn recompute_pending(&self) -> (r: bool)
        ensures
            r == self.cycle() is Some,
    {
        self.pending.is_some()
    }

    /// The searches of the slots `first..end`, none of them begun.
    fn searches_for(&self, net: &Network, first: usize, end: usize) -> (r: Vec<Search>)
        requires
            net.wf(),
            first <= end <= self.dests@.len(),
            forall|s: int| 0 <= s < self.dests@.len() ==> net.has_link(#[trigger] self.dests@[s]),
        ensures
            r@.len() == end - first,
            forall|k: int, costs: Seq<u64>|
                0 <= k < r@.len() && costs.len() == net.links@.len() ==> #[trigger] come_so_far(
                    r@[k],
                    net,
                    costs,
                    self.dests@[first + k],
                    0,
                ),
    {
        let mut out: Vec<Search> = Vec::new();
        let mut s: usize = first;
        while s < end
            invariant
                net.wf(),
                first <= s <= end <= self.dests@.len(),
                forall|k: int|
                    0 <= k < self.dests@.len() ==> net.has_link(#[trigger] self.dests@[k]),
                out@.len() == s - first,
                forall|k: int, costs: Seq<u64>|
                    0 <= k < out@.len() && costs.len() == net.links@.len()
                        ==> #[trigger] come_so_far(
                        out@[k],
                        net,
                        costs,
                        self.dests@[first + k],
                        0,
                    ),
            decreases end - s,
        {
            let to = self.dests[s];
            proof {
                lemma_count_bounds(
                    net.links@.len() as int,
                    |v: int| reaches(net, LinkId(v as u32), to),
                );
            }
            out.push(Search::begin(net, to));
            s += 1;
        }
        out
    }

    /// Take the fields of ended searches into the slots from `first` on.
    fn take_fields(&mut self, net: &Network, costs: &Vec<u64>, first: usize, searches: Vec<Search>)
        requires
            net.wf(),
            first + searches@.len() <= old(self).fields@.len(),
            old(self).fields@.len() == old(self).dests@.len(),
            forall|k: int|
                0 <= k < searches@.len() ==> (#[trigger] searches@[k]).wf(net, costs@)
                    && searches@[k].has_ended() && searches@[k].goal() == old(self).dests@[first + k],
        ensures
            *final(self) == (FieldRouter { fields: final(self).fields, ..*old(self) }),
            final(self).fields@.len() == old(self).fields@.len(),
            forall|s: int|
                first <= s < first + searches@.len() ==> (#[trigger] final(self).fields@[s]).solves(
                    net,
                    costs@,
                    old(self).dests@[s],
                ),
            forall|s: int|
                0 <= s < final(self).fields@.len() && !(first <= s < first + searches@.len())
                    ==> #[trigger] final(self).fields@[s] == old(self).fields@[s],
    {
        let ghost all = searches@;
        let mut searches = searches;
        while searches.len() > 0
            invariant
                net.wf(),
                *self == (FieldRouter { fields: self.fields, ..*old(self) }),
                self.fields@.len() == old(self).fields@.len(),
                first + all.len() <= self.fields@.len(),
                searches@.len() <= all.len(),
                forall|k: int| 0 <= k < searches@.len() ==> #[trigger] searches@[k] == all[k],
                forall|k: int|
                    0 <= k < all.len() ==> (#[trigger] all[k]).wf(net, costs@) && all[k].has_ended()
                        && all[k].goal() == old(self).dests@[first + k],
                forall|s: int|
                    first + searches@.len() <= s < first + all.len() ==> (
                    #[trigger] self.fields@[s]).solves(net, costs@, old(self).dests@[s]),
                forall|s: int|
                    0 <= s < self.fields@.len() && !(first <= s < first + all.len())
                        ==> #[trigger] self.fields@[s] == old(self).fields@[s],
            decreases searches@.len(),
        {
            if let Some(s) = searches.pop() {
                let k = searches.len();
                assert(s == all[k as int]);
                let (f, _rank) = s.into_field(net, costs);
                assert(self.fields@.len() == self.fields.len());
                self.fields[first + k] = f;
            }
        }
    }

    proof fn lemma_taken(&self, before: &FieldRouter, net: &Network, c: Cycle, end: int)
        requires
            before.wf(net),
            before.cycle() == Some(c),
            self.dests == before.dests,
            self.fields@.len() == before.fields@.len(),
            c.first <= end <= self.dests@.len(),
            forall|s: int|
                c.first <= s < end ==> (#[trigger] self.fields@[s]).solves(
                    net,
                    c.costs,
                    before.dests@[s],
                ),
            forall|s: int|
                0 <= s < self.fields@.len() && !(c.first <= s < end) ==> #[trigger] self.fields@[s]
                    == before.fields@[s],
        ensures
            self.solved(net, c.costs, 0, end),
            self.same_fields(before, c.first, end),
            self.columns() == self.slots().len(),
            forall|s: int|
                #![trigger self.field(s)]
                0 <= s < self.slots().len() ==> self.field(s).dist@.len() == net.links@.len()
                    && self.field(s).next@.len() == net.links@.len(),
            forall|s: int, l: int|
                0 <= s < self.slots().len() && 0 <= l < net.links@.len() && (
                #[trigger] self.field(s).next@[l]) is Some ==> is_hop(
                    net,
                    l,
                    self.field(s).next@[l]->0,
                ),
    {
        assert forall|s: int| 0 <= s < end implies (#[trigger] self.field(s)).solves(
            net,
            c.costs,
            self.slots()[s],
        ) by {
            if s < c.first {
                assert(before.field(s).solves(net, c.costs, before.slots()[s]));
                assert(self.fields@[s] == before.fields@[s]);
            } else {
                assert(self.fields@[s].solves(net, c.costs, before.dests@[s]));
            }
        }
        assert forall|s: int|
            0 <= s < self.slots().len() && !(c.first <= s < end) implies #[trigger] self.field(s)
            == before.field(s) by {
            assert(self.fields@[s] == before.fields@[s]);
        }
        assert forall|s: int, l: int|
            0 <= s < self.slots().len() && 0 <= l < net.links@.len() && (
            #[trigger] self.field(s).next@[l]) is Some implies is_hop(
            net,
            l,
            self.field(s).next@[l]->0,
        ) by {
            if c.first <= s < end {
                assert(self.field(s).settled(net, c.costs, self.slots()[s]));
                assert(l != self.slots()[s].0);
            } else {
                assert(self.field(s) == before.field(s));
                assert(before.slots()[s] == self.slots()[s]);
            }
        }
        assert forall|s: int|
            #![trigger self.field(s)]
            0 <= s < self.slots().len() implies self.field(s).dist@.len() == net.links@.len()
            && self.field(s).next@.len() == net.links@.len() by {
            if c.first <= s < end {
                assert(self.field(s).settled(net, c.costs, self.slots()[s]));
            } else {
                assert(self.field(s) == before.field(s));
            }
        }
    }

    /// Begin to solve every destination anew under other link costs, `width` fields
    /// at a time. Until they are complete the old fields serve.
    pub fn begin_recompute(&mut self, net: &Network, costs: &Vec<u64>, width: usize)
        requires
            net.wf(),
            old(self).wf(net),
            costs@.len() == net.links@.len(),
        ensures
            final(self).wf(net),
            final(self).begun(old(self), costs@, width as int),
    {
        let n = self.dests.len();
        assert(forall|k: int| 0 <= k < n ==> net.has_link(#[trigger] self.slots()[k]));
        if n == 0 {
            self.pending = None;
        } else {
            let width = if width < 1 {
                1
            } else {
                width
            };
            let end = if width < n {
                width
            } else {
                n
            };
            let searches = self.searches_for(net, 0, end);
            let costs = copied(costs);
            let p = Pending { costs, width, first: 0, spent: 0, searches };
            proof {
                assert forall|k: int| 0 <= k < p.searches@.len() implies come_so_far(
                    #[trigger] p.searches@[k],
                    net,
                    p.costs@,
                    self.dests@[0 + k],
                    0,
                ) by {}
                assert(p.wf(net, self.dests@));
            }
            self.pending = Some(p);
        }
        proof {
            assert forall|s: int| 0 <= s < n implies #[trigger] self.field(s) == old(self).field(s) by {}
        }
    }

    /// Let a recompute in flight go on, by at most `budget` links for each of the
    /// fields that it is solving.
    pub fn advance_recompute(&mut self, net: &Network, budget: usize)
        requires
            net.wf(),
            old(self).wf(net),
        ensures
            final(self).wf(net),
            final(self).advanced(old(self), net, budget as int),
    {
        let mut held: Option<Pending> = None;
        std::mem::swap(&mut held, &mut self.pending);
        let p = match held {
            Some(p) => p,
            None => {
                assert(self.same_fields(old(self), 0, 0));
                return;
            },
        };
        let ghost c = p.cycle();
        let ghost slots = self.dests@;
        let n = self.dests.len();
        assert(forall|k: int| 0 <= k < n ==> net.has_link(#[trigger] old(self).slots()[k]));
        assert(old(self).cycle() == Some(c));
        let links = net.links.len();
        let spent: usize = if budget < links - p.spent {
            p.spent + budget
        } else {
            links
        };
        let (first, width, costs) = (p.first, p.width, p.costs);
        let backend = if width > 1 {
            AccelBackend::Threads
        } else {
            AccelBackend::Serial
        };
        let (costs_ref, feeders) = (&costs, &self.feeders);
        let one = |s: Search| -> (r: Search)
            requires
                s.wf(net, costs_ref@),
            ensures
                went_on(s, r, net, costs_ref@, budget as int),
            {
                let mut s = s;
                s.advance(net, feeders, costs_ref, budget);
                s
            };
        let ghost were = p.searches@;
        assert forall|k: int| 0 <= k < were.len() implies call_requires(
            one,
            (#[trigger] were[k],),
        ) by {
            assert(come_so_far(were[k], net, costs@, slots[first + k], c.spent));
        }
        let searches = map_all(backend, p.searches, one);
        let size = searches.len();
        let end = first + size;
        proof {
            assert forall|k: int| 0 <= k < were.len() implies come_so_far(
                #[trigger] searches@[k],
                net,
                costs@,
                slots[first + k],
                spent as int,
            ) && (searches@[k].has_ended() <==> reach_count(net, slots[first + k]) <= spent) by {
                assert(call_ensures(one, (were[k],), searches@[k]));
                assert(went_on(were[k], searches@[k], net, costs@, budget as int));
                assert(come_so_far(were[k], net, costs@, slots[first + k], c.spent));
                lemma_count_bounds(
                    links as int,
                    |v: int| reaches(net, LinkId(v as u32), slots[first + k]),
                );
            }
        }
        let complete = all_ended(&searches);
        if !complete {
            let p = Pending { costs, width, first, spent, searches };
            proof {
                let k = choose|k: int| 0 <= k < searches@.len() && !(#[trigger] searches@[k]).has_ended();
                assert(come_so_far(searches@[k], net, costs@, slots[first + k], spent as int));
                assert(spent < reach_count(net, slots[first + k]));
                assert(!c.completes(net, slots, spent as int));
                assert(p.wf(net, slots));
            }
            self.pending = Some(p);
            assert(self.same_fields(old(self), 0, 0));
        } else {
            self.take_fields(net, &costs, first, searches);
            proof {
                assert forall|s: int| c.first <= s < c.end(n as int) implies reach_count(
                    net,
                    #[trigger] slots[s],
                ) <= spent by {
                    let k = s - first;
                    assert(searches@[k].has_ended());
                    assert(come_so_far(searches@[k], net, costs@, slots[first + k], spent as int));
                }
                assert(c.completes(net, slots, spent as int));
            }
            if end < n {
                let next_end = if width < n - end {
                    end + width
                } else {
                    n
                };
                let more = self.searches_for(net, end, next_end);
                let p = Pending { costs, width, first: end, spent: 0, searches: more };
                proof {
                    assert forall|k: int| 0 <= k < p.searches@.len() implies come_so_far(
                        #[trigger] p.searches@[k],
                        net,
                        p.costs@,
                        slots[end + k],
                        0,
                    ) by {}
                    assert(p.wf(net, slots));
                    assert(p.cycle() == (Cycle { first: c.end(n as int), spent: 0, ..c }));
                }
                self.pending = Some(p);
            }
            proof {
                self.lemma_taken(old(self), net, c, end as int);
                assert(self.searches_ok(net));
            }
        }
    }

    fn slot(&self, dest: LinkId) -> (r: Option<usize>)
        ensures
            match r {
                Some(s) => self.slot_of(dest) == Some(s as int) && s < self.slots().len(),
                None => self.slot_of(dest) is None,
            },
    {
        let ghost p = self.serves(dest);
        let mut k: usize = 0;
        while k < self.dests.len()
            invariant
                k <= self.dests@.len(),
                p == self.serves(dest),
                forall|j: int| 0 <= j < k ==> !#[trigger] p(j),
            decreases self.dests@.len() - k,
        {
            if self.dests[k] == dest {
                proof {
                    lemma_first_index_is(0, self.slots().len() as int, p, k as int);
                }
                return Some(k);
            }
            assert(!p(k as int));
            k += 1;
        }
        proof {
            lemma_first_index_none(0, self.slots().len() as int, p);
        }
        None
    }

    /// Whether a field exists for `dest`.
    pub fn knows(&self, dest: LinkId) -> (r: bool)
        ensures
            r == self.slots().contains(dest),
    {
        let s = self.slot(dest);
        proof {
            let p = self.serves(dest);
            crate::search::lemma_first_index(0, self.slots().len() as int, p);
            if self.slots().contains(dest) {
                let j = choose|j: int| 0 <= j < self.slots().len() && self.slots()[j] == dest;
                assert(p(j));
            }
        }
        s.is_some()
    }

    /// The destinations, in slot order.
    pub fn dests_in_slot_order(&self) -> (r: &Vec<LinkId>)
        ensures
            r@ == self.slots(),
    {
        &self.dests
    }

    /// The next link from `link` towards `dest`; nothing at the destination,
    /// where it cannot be reached, and for a destination without a field.
    pub fn next_hop(&self, dest: LinkId, link: LinkId, net: &Network) -> (r: Option<LinkId>)
        requires
            self.wf(net),
            net.has_link(link),
        ensures
            r == self.hop(dest, link),
            r matches Some(l) ==> net.has_link(l),
    {
        match self.slot(dest) {
            Some(s) => {
                assert(self.field(s as int) == self.fields@[s as int]);
                let r = self.fields[s].next[link.0 as usize];
                assert(r == self.field(s as int).next@[link.0 as int]);
                r
            },
            None => None,
        }
    }

    /// The remaining cost from `link` to `dest`, if it can be reached.
    pub fn distance(&self, dest: LinkId, link: LinkId, net: &Network) -> (r: Option<u128>)
        requires
            self.wf(net),
            net.has_link(link),
        ensures
            r == self.remaining(dest, link),
    {
        match self.slot(dest) {
            Some(s) => {
                assert(self.field(s as int) == self.fields@[s as int]);
                self.fields[s].dist[link.0 as usize]
            },
            None => None,
        }
    }
}

/// Of a movement: what taking it out of link `v` costs in all, given every
/// link's distance from an outside solver.
pub open spec fn hop_cost(
    net: &Network,
    v: LinkId,
    cost: Seq<u64>,
    raw: Seq<u64>,
) -> spec_fn(int) -> Option<int> {
    |m: int|
        {
            let w = net.link_of(net.movements@[m].to_lane).0 as int;
            if net.link_of(net.movements@[m].from_lane) == v && raw[w] != UNREACHED {
                Some(cost[w] + raw[w])
            } else {
                None
            }
        }
}

/// The hop that the outside distances call for.
pub open spec fn hop_from_distances(
    net: &Network,
    to: LinkId,
    v: LinkId,
    cost: Seq<u64>,
    raw: Seq<u64>,
) -> Option<LinkId> {
    if v == to {
        None
    } else {
        match least_index(net.movements@.len() as int, hop_cost(net, v, cost, raw)) {
            Some(m) => Some(net.link_of(net.movements@[m].to_lane)),
            None => None,
        }
    }
}

fn field_from_distances(net: &Network, to: LinkId, cost: &Vec<u64>, raw: &Vec<u64>) -> (f: Field)
    requires
        net.wf(),
        net.has_link(to),
        cost@.len() == net.links@.len(),
        raw@.len() == net.links@.len(),
    ensures
        f.dist@.len() == net.links@.len(),
        f.next@.len() == net.links@.len(),
        forall|v: int|
            0 <= v < raw@.len() ==> #[trigger] f.dist@[v] == (if raw@[v] == UNREACHED {
                None
            } else {
                Some(raw@[v] as u128)
            }),
        forall|v: int|
            0 <= v < raw@.len() ==> #[trigger] f.next@[v] == hop_from_distances(
                net,
                to,
                LinkId(v as u32),
                cost@,
                raw@,
            ),
{
    let n = net.links.len();
    let mut dist: Vec<Option<u128>> = Vec::new();
    let mut v: usize = 0;
    while v < n
        invariant
            v <= n,
            n == raw@.len(),
            dist@.len() == v,
            forall|x: int|
                0 <= x < v ==> #[trigger] dist@[x] == (if raw@[x] == UNREACHED {
                    None
                } else {
                    Some(raw@[x] as u128)
                }),
        decreases n - v,
    {
        let d = raw[v];
        dist.push(
            if d == UNREACHED {
                None
            } else {
                Some(d as u128)
            },
        );
        v += 1;
    }
    let mut best: Vec<Option<u128>> = vec![None; n];
    let mut next: Vec<Option<LinkId>> = vec![None; n];
    let mut m: usize = 0;
    while m < net.movements.len()
        invariant
            net.wf(),
            n == net.links@.len(),
            cost@.len() == n,
            raw@.len() == n,
            best@.len() == n,
            next@.len() == n,
            m <= net.movements@.len(),
            forall|x: int|
                #![trigger next@[x]]
                0 <= x < n ==> match least_index(
                    m as int,
                    hop_cost(net, LinkId(x as u32), cost@, raw@),
                ) {
                    Some(i) => best@[x] is Some && best@[x]->0 as int == hop_cost(
                        net,
                        LinkId(x as u32),
                        cost@,
                        raw@,
                    )(i)->0 && next@[x] == Some(net.link_of(net.movements@[i].to_lane)),
                    None => best@[x] is None && next@[x] is None,
                },
        decreases net.movements@.len() - m,
    {
        assert(net.movement_ok(m as int));
        let a = net.lane(net.movements[m].from_lane).link;
        let b = net.lane(net.movements[m].to_lane).link;
        assert(net.lane_ok(net.movements@[m as int].from_lane.0 as int));
        assert(net.lane_ok(net.movements@[m as int].to_lane.0 as int));
        proof {
            assert forall|x: int| 0 <= x < n && x != a.0 implies #[trigger] least_index(
                m + 1,
                hop_cost(net, LinkId(x as u32), cost@, raw@),
            ) == least_index(m as int, hop_cost(net, LinkId(x as u32), cost@, raw@)) by {
                lemma_least_step(m as int, hop_cost(net, LinkId(x as u32), cost@, raw@));
            }
            lemma_least_step(m as int, hop_cost(net, a, cost@, raw@));
            assert(next@[a.0 as int] == next@[a.0 as int]);
            assert(LinkId(a.0 as u32) == a);
        }
        if raw[b.0 as usize] != UNREACHED {
            let c: u128 = cost[b.0 as usize] as u128 + raw[b.0 as usize] as u128;
            let better = match best[a.0 as usize] {
                Some(d) => c < d,
                None => true,
            };
            if better {
                best[a.0 as usize] = Some(c);
                next[a.0 as usize] = Some(b);
            }
        }
        m += 1;
    }
    next[to.0 as usize] = None;
    Field { dist, next }
}

impl FieldRouter {
    /// Every field holds the distances of its slot, and hops by them.
    pub open spec fn fed(&self, net: &Network, cost: Seq<u64>, dist_per_slot: Seq<Vec<u64>>) -> bool {
        &&& forall|s: int, v: int|
            #![trigger self.field(s).dist@[v]]
            0 <= s < dist_per_slot.len() && 0 <= v < net.links@.len() ==> self.field(s).dist@[v] == (
            if dist_per_slot[s]@[v] == UNREACHED {
                None
            } else {
                Some(dist_per_slot[s]@[v] as u128)
            })
        &&& forall|s: int, v: int|
            #![trigger self.field(s).next@[v]]
            0 <= s < dist_per_slot.len() && 0 <= v < net.links@.len() ==> self.field(s).next@[v]
                == hop_from_distances(
                net,
                self.slots()[s],
                LinkId(v as u32),
                cost,
                dist_per_slot[s]@,
            )
    }

    /// Take every field from distances that an outside solver computed: slot by
    /// slot, [`UNREACHED`] for links that do not reach the destination. They replace
    /// what a recompute in flight would still bring.
    pub fn recompute_from_distances(
        &mut self,
        net: &Network,
        cost: &Vec<u64>,
        dist_per_slot: &Vec<Vec<u64>>,
    )
        requires
            net.wf(),
            old(self).wf(net),
            cost@.len() == net.links@.len(),
            dist_per_slot@.len() == old(self).slots().len(),
            forall|s: int|
                0 <= s < dist_per_slot@.len() ==> (#[trigger] dist_per_slot@[s])@.len()
                    == net.links@.len(),
        ensures
            final(self).wf(net),
            final(self).slots() == old(self).slots(),
            final(self).cycle() is None,
            final(self).fed(net, cost@, dist_per_slot@),
    {
        let mut fields: Vec<Field> = Vec::new();
        let mut s: usize = 0;
        while s < self.dests.len()
            invariant
                net.wf(),
                self.wf(net),
                *self == *old(self),
                s <= self.dests@.len(),
                cost@.len() == net.links@.len(),
                dist_per_slot@.len() == self.slots().len(),
                forall|k: int|
                    0 <= k < dist_per_slot@.len() ==> (#[trigger] dist_per_slot@[k])@.len()
                        == net.links@.len(),
                fields@.len() == s,
                forall|k: int|
                    0 <= k < s ==> (#[trigger] fields@[k]).dist@.len() == net.links@.len()
                        && fields@[k].next@.len() == net.links@.len(),
                forall|k: int, v: int|
                    #![trigger fields@[k].dist@[v]]
                    0 <= k < s && 0 <= v < net.links@.len() ==> fields@[k].dist@[v] == (
                    if dist_per_slot@[k]@[v] == UNREACHED {
                        None
                    } else {
                        Some(dist_per_slot@[k]@[v] as u128)
                    }),
                forall|k: int, v: int|
                    #![trigger fields@[k].next@[v]]
                    0 <= k < s && 0 <= v < net.links@.len() ==> fields@[k].next@[v]
                        == hop_from_distances(
                        net,
                        self.slots()[k],
                        LinkId(v as u32),
                        cost@,
                        dist_per_slot@[k]@,
                    ),
            decreases self.dests@.len() - s,
        {
            let to = self.dests[s];
            assert(net.has_link(self.slots()[s as int]));
            fields.push(field_from_distances(net, to, cost, &dist_per_slot[s]));
            s += 1;
        }
        self.fields = fields;
        self.pending = None;
        assert forall|k: int, v: int|
            0 <= k < self.slots().len() && 0 <= v < net.links@.len() && (
            #[trigger] self.field(k).next@[v]) is Some implies is_hop(
            net,
            v,
            self.field(k).next@[v]->0,
        ) by {
            assert(self.field(k) == fields@[k]);
            let c = hop_cost(net, LinkId(v as u32), cost@, dist_per_slot@[k]@);
            lemma_least(net.movements@.len() as int, c);
            let m = least_index(net.movements@.len() as int, c)->0;
            assert(net.movement_ok(m));
            assert(net.lane_ok(net.movements@[m].to_lane.0 as int));
            assert(leads(net, m, LinkId(v as u32), self.field(k).next@[v]->0));
        }
    }
}

impl Network {
    /// The cheapest route under free-flow travel times.
    pub fn route_links(&self, from: LinkId, to: LinkId) -> (r: Option<Vec<LinkId>>)
        requires
            self.wf(),
            self.has_link(from),
            self.has_link(to),
        ensures
            match r {
                Some(s) => is_least_route(self, free_flow_costs(self), s@, from, to),
                None => !reaches(self, from, to),
            },
    {
        let mut costs: Vec<u64> = Vec::new();
        let mut i: usize = 0;
        while i < self.links.len()
            invariant
                i <= self.links@.len(),
                costs@.len() == i,
                forall|k: int| 0 <= k < i ==> #[trigger] costs@[k] == self.links@[k].travel_time_ms,
            decreases self.links@.len() - i,
        {
            costs.push(self.links[i].travel_time_ms);
            i += 1;
        }
        assert(costs@ =~= free_flow_costs(self));
        self.route_links_with_costs(from, to, &costs)
    }

    /// The cheapest route under given link costs, from the first link to the last.
    pub fn route_links_with_costs(&self, from: LinkId, to: LinkId, costs: &Vec<u64>) -> (r: Option<
        Vec<LinkId>,
    >)
        requires
            self.wf(),
            self.has_link(from),
            self.has_link(to),
            costs@.len() == self.links@.len(),
        ensures
            match r {
                Some(s) => is_least_route(self, costs@, s@, from, to),
                None => !reaches(self, from, to),
            },
    {
        let preds = feeder_links(self);
        let (f, rank) = solve(self, &preds, costs, to);
        if f.dist[from.0 as usize].is_none() {
            return None;
        }
        let mut route: Vec<LinkId> = vec![from];
        let mut at = from;
        let ghost total = f.dist@[from.0 as int]->0;
        proof {
            lemma_completes_start(self, costs@, from, to);
            assert(route@ =~= seq![from]);
        }
        while f.next[at.0 as usize].is_some()
            invariant
                self.wf(),
                self.has_link(to),
                costs@.len() == self.links@.len(),
                f.solves(self, costs@, to),
                rank@.len() == self.links@.len(),
                hops_descend(f.next@, rank@),
                self.has_link(at),
                f.dist@[at.0 as int] is Some,
                route@.len() > 0,
                route@[route@.len() - 1] == at,
                completes(self, costs@, route@, from, at, to, total - f.dist@[at.0 as int]->0),
            decreases rank@[at.0 as int],
        {
            let w = f.next[at.0 as usize].unwrap();
            assert(at.0 != to.0);
            assert(f.next@[at.0 as int] == Some(w));
            let ghost before = route@;
            route.push(w);
            proof {
                lemma_completes(
                    self,
                    costs@,
                    before,
                    from,
                    at,
                    w,
                    to,
                    total - f.dist@[at.0 as int]->0,
                );
            }
            at = w;
        }
        proof {
            assert(f.next@[at.0 as int] is None);
            assert(at.0 == to.0);
            lemma_completes_end(self, costs@, route@, from, to, total as int);
            assert forall|t: Seq<LinkId>| #[trigger] is_route(self, t, from, to) implies route_cost(
                costs@,
                route@,
            ) <= route_cost(costs@, t) by {
                lemma_lower_bound(self, costs@, &f, t, from, to);
            }
        }
        Some(route)
    }
}

/// A recompute that comes to its end has solved every field.
pub proof fn a_finished_recompute_has_solved_every_field(
    before: &FieldRouter,
    after: &FieldRouter,
    net: &Network,
    budget: int,
)
    requires
        before.wf(net),
        before.cycle() is Some,
        after.advanced(before, net, budget),
        after.cycle() is None,
    ensures
        after.solved(net, before.cycle()->0.costs, 0, after.slots().len() as int),
{
    let c = before.cycle()->0;
    assert forall|s: int| 0 <= s < after.slots().len() implies (#[trigger] after.field(s)).solves(
        net,
        c.costs,
        after.slots()[s],
    ) by {
        if s < c.first {
            assert(before.field(s).solves(net, c.costs, before.slots()[s]));
        }
    }
}

/// Until the fields being solved are complete, everyone is routed as before.
pub proof fn the_old_routes_serve_until_the_new_are_complete(
    before: &FieldRouter,
    after: &FieldRouter,
    net: &Network,
    budget: int,
    dest: LinkId,
    link: LinkId,
)
    requires
        after.advanced(before, net, budget),
        before.cycle() matches Some(c) ==> !c.completes(
            net,
            before.slots(),
            if c.spent + budget < net.links@.len() {
                c.spent + budget
            } else {
                net.links@.len() as int
            },
        ),
    ensures
        after.hop(dest, link) == before.hop(dest, link),
        after.remaining(dest, link) == before.remaining(dest, link),
{
    assert(after.serves(dest) =~= before.serves(dest));
    crate::search::lemma_first_index(0, before.slots().len() as int, before.serves(dest));
}

/// How much of a recompute is left: its slots, and then its links.
pub open spec fn left_to_solve(r: &FieldRouter, net: &Network) -> (int, int) {
    match r.cycle() {
        Some(c) => (r.slots().len() - c.first, net.links@.len() - c.spent),
        None => (0, 0),
    }
}

/// A recompute comes to its end: every time it goes on there is less of it left.
pub proof fn a_recompute_comes_to_its_end(
    before: &FieldRouter,
    after: &FieldRouter,
    net: &Network,
    budget: int,
)
    requires
        before.wf(net),
        before.cycle() is Some,
        after.advanced(before, net, budget),
        budget > 0,
    ensures
        ({
            let (a, b) = (left_to_solve(after, net), left_to_solve(before, net));
            0 <= a.0 && (a.0 < b.0 || (a.0 == b.0 && 0 <= a.1 < b.1))
        }),
{
    let c = before.cycle()->0;
    if c.spent + budget >= net.links@.len() {
        assert forall|s: int|
            c.first <= s < c.end(before.slots().len() as int) implies reach_count(
            net,
            #[trigger] before.slots()[s],
        ) <= net.links@.len() by {
            lemma_count_bounds(
                net.links@.len() as int,
                |v: int| reaches(net, LinkId(v as u32), before.slots()[s]),
            );
        }
        assert(c.completes(net, before.slots(), net.links@.len() as int));
    }
}

/// A route from where one has come to.
spec fn goes_on(net: &Network, rest: Seq<LinkId>, at: LinkId, to: LinkId) -> bool {
    is_route(net, rest, at, to)
}

/// Any route onwards from `at` completes the route so far, whose links up to
/// `at` cost `spent`.
#[verifier::opaque]
spec fn completes(
    net: &Network,
    costs: Seq<u64>,
    so_far: Seq<LinkId>,
    from: LinkId,
    at: LinkId,
    to: LinkId,
    spent: int,
) -> bool {
    forall|rest: Seq<LinkId>| #[trigger]
        goes_on(net, rest, at, to) ==> is_route(net, so_far.drop_last() + rest, from, to)
            && route_cost(costs, so_far.drop_last() + rest) == spent + route_cost(
            costs,
            rest,
        )
}

proof fn lemma_completes_start(net: &Network, costs: Seq<u64>, from: LinkId, to: LinkId)
    ensures
        completes(net, costs, seq![from], from, from, to, 0),
{
    reveal(completes);
    assert forall|rest: Seq<LinkId>| #[trigger] goes_on(net, rest, from, to) implies is_route(
        net,
        seq![from].drop_last() + rest,
        from,
        to,
    ) && route_cost(costs, seq![from].drop_last() + rest) == 0 + route_cost(costs, rest) by {
        assert(seq![from].drop_last() + rest =~= rest);
    }
}

proof fn lemma_completes_end(
    net: &Network,
    costs: Seq<u64>,
    s: Seq<LinkId>,
    from: LinkId,
    to: LinkId,
    spent: int,
)
    requires
        completes(net, costs, s, from, to, to, spent),
        s.len() > 0,
        s[s.len() - 1] == to,
        net.has_link(to),
    ensures
        is_route(net, s, from, to),
        route_cost(costs, s) == spent,
{
    reveal(completes);
    let rest = seq![to];
    assert forall|k: int| 0 <= k < rest.len() implies net.has_link(#[trigger] rest[k]) by {}
    assert(goes_on(net, rest, to, to));
    assert(s.drop_last() + rest =~= s);
}

proof fn lemma_completes(
    net: &Network,
    costs: Seq<u64>,
    so_far: Seq<LinkId>,
    from: LinkId,
    at: LinkId,
    w: LinkId,
    to: LinkId,
    spent: int,
)
    requires
        completes(net, costs, so_far, from, at, to, spent),
        so_far.len() > 0,
        so_far[so_far.len() - 1] == at,
        net.has_link(at),
        joined(net, at, w),
    ensures
        completes(net, costs, so_far.push(w), from, w, to, spent + costs[w.0 as int]),
{
    reveal(completes);
    let longer = so_far.push(w);
    assert forall|rest: Seq<LinkId>| #[trigger] goes_on(net, rest, w, to) implies is_route(
        net,
        longer.drop_last() + rest,
        from,
        to,
    ) && route_cost(costs, longer.drop_last() + rest) == spent + costs[w.0 as int]
        + route_cost(costs, rest) by {
        lemma_route_prepend(net, costs, at, w, to, rest);
        let onward = seq![at] + rest;
        assert(goes_on(net, onward, at, to));
        assert(route_cost(costs, so_far.drop_last() + onward) == spent + route_cost(costs, onward));
        assert(longer.drop_last() + rest =~= so_far.drop_last() + onward);
    }
    assert(completes(net, costs, longer, from, w, to, spent + costs[w.0 as int]));
}

/// Every link's free-flow travel time.
pub open spec fn free_flow_costs(net: &Network) -> Seq<u64> {
    Seq::new(net.links@.len(), |i: int| net.links@[i].travel_time_ms)
}

/// A cheaper route cannot appear by making links dearer: the least cost only
/// grows with the link costs.
pub proof fn dearer_links_never_shorten_a_route(
    net: &Network,
    cheap: Seq<u64>,
    dear: Seq<u64>,
    from: LinkId,
    to: LinkId,
    d: int,
    e: int,
)
    requires
        forall|l: int| 0 <= l < net.links@.len() ==> cheap[l] <= #[trigger] dear[l],
        is_distance(net, cheap, from, to, d),
        is_distance(net, dear, from, to, e),
    ensures
        d <= e,
{
    let s = choose|s: Seq<LinkId>| #[trigger]
        is_least_route(net, cheap, s, from, to) && route_cost(cheap, s) == d;
    let t = choose|t: Seq<LinkId>| #[trigger]
        is_least_route(net, dear, t, from, to) && route_cost(dear, t) == e;
    assert(route_cost(cheap, s) <= route_cost(cheap, t));
    lemma_costs_grow(net, cheap, dear, t, from, to);
}

proof fn lemma_costs_grow(
    net: &Network,
    cheap: Seq<u64>,
    dear: Seq<u64>,
    s: Seq<LinkId>,
    from: LinkId,
    to: LinkId,
)
    requires
        forall|l: int| 0 <= l < net.links@.len() ==> cheap[l] <= #[trigger] dear[l],
        is_route(net, s, from, to),
    ensures
        route_cost(cheap, s) <= route_cost(dear, s),
    decreases s.len(),
{
    if s.len() > 1 {
        lemma_route_tail(net, s, from, to);
        assert(net.has_link(s[1]));
        lemma_costs_grow(net, cheap, dear, s.subrange(1, s.len() as int), s[1], to);
        assert(cheap[s[1].0 as int] <= dear[s[1].0 as int]);
    }
}

} // verus!
