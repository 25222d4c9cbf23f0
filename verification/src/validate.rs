//! Checking that a network's tables fit together, for networks that come from
//! outside.

use vstd::prelude::*;
use crate::network::{LaneId, MovementId, Network, NodeId};

verus! {

fn has_index(list: &Vec<u32>, x: u32) -> (r: bool)
    ensures
        r == list@.contains(x),
{
    let mut k: usize = 0;
    while k < list.len()
        invariant
            k <= list@.len(),
            forall|j: int| 0 <= j < k ==> #[trigger] list@[j] != x,
        decreases list@.len() - k,
    {
        if list[k] == x {
            return true;
        }
        k += 1;
    }
    false
}

fn has_member(list: &Vec<NodeId>, x: NodeId) -> (r: bool)
    ensures
        r == list@.contains(x),
{
    let mut k: usize = 0;
    while k < list.len()
        invariant
            k <= list@.len(),
            forall|j: int| 0 <= j < k ==> #[trigger] list@[j] != x,
        decreases list@.len() - k,
    {
        if list[k] == x {
            return true;
        }
        k += 1;
    }
    false
}

fn all_below(list: &Vec<u32>, n: usize) -> (r: bool)
    ensures
        r == (forall|k: int| 0 <= k < list@.len() ==> #[trigger] list@[k] < n),
{
    let mut k: usize = 0;
    while k < list.len()
        invariant
            k <= list@.len(),
            forall|j: int| 0 <= j < k ==> #[trigger] list@[j] < n,
        decreases list@.len() - k,
    {
        if list[k] as usize >= n {
            assert(!(list@[k as int] < n));
            return false;
        }
        k += 1;
    }
    true
}

impl Network {
    fn check_sizes(&self) -> (r: bool)
        ensures
            r == self.sizes_ok(),
    {
        let most = u32::MAX as usize;
        let (nodes, programs) = (self.nodes.len(), self.programs.len());
        nodes < most && self.links.len() < most && self.lanes.len() < most && self.movements.len()
            < most && self.conflicts.len() < most && self.junctions.len() < most - nodes
            && self.groups.len() < most && programs < most && self.bus_stops.len() < most && (
        self.am_offsets.len() == 0 || (self.am_offsets.len() == programs && self.pm_offsets.len()
            == programs))
    }

    fn check_node(&self, i: usize) -> (r: bool)
        requires
            self.sizes_ok(),
            i < self.nodes@.len(),
        ensures
            r == self.node_ok(i as int),
    {
        let n = &self.nodes[i];
        let member = match n.junction {
            Some(j) => (j as usize) < self.junctions.len() && has_member(
                &self.junctions[j as usize].nodes,
                NodeId(i as u32),
            ),
            None => true,
        };
        member && all_below(&n.conflicts, self.conflicts.len())
    }

    fn check_link(&self, i: usize) -> (r: bool)
        requires
            self.sizes_ok(),
            i < self.links@.len(),
        ensures
            r == self.link_ok(i as int),
    {
        let l = &self.links[i];
        if l.from.0 as usize >= self.nodes.len() || l.to.0 as usize >= self.nodes.len()
            || l.lane_count < 1 || l.lane_start.0 as usize > self.lanes.len()
            || l.lane_count as usize > self.lanes.len() - l.lane_start.0 as usize {
            return false;
        }
        let end = l.lane_start.0 as usize + l.lane_count as usize;
        let mut k: usize = l.lane_start.0 as usize;
        while k < end
            invariant
                i < self.links@.len(),
                self.sizes_ok(),
                *l == self.links@[i as int],
                l.lane_start.0 <= k <= end,
                end == l.lane_start.0 + l.lane_count,
                end <= self.lanes@.len(),
                forall|j: int|
                    l.lane_start.0 <= j < k ==> (#[trigger] self.lanes@[j]).link.0 == i,
            decreases end - k,
        {
            if self.lanes[k].link.0 as usize != i {
                assert(self.lanes@[k as int].link.0 != i);
                return false;
            }
            k += 1;
        }
        true
    }

    fn check_lane(&self, i: usize) -> (r: bool)
        requires
            self.sizes_ok(),
            i < self.lanes@.len(),
        ensures
            r == self.lane_ok(i as int),
    {
        let l = &self.lanes[i];
        if l.link.0 as usize >= self.links.len() {
            return false;
        }
        let link = &self.links[l.link.0 as usize];
        if l.index_in_link >= link.lane_count || link.lane_start.0 as u64 + l.index_in_link as u64
            != i as u64 || l.movement_start.0 as u64 + l.movement_count as u64
            > self.movements.len() as u64 {
            return false;
        }
        let end = l.movement_start.0 + l.movement_count;
        let mut m: u32 = l.movement_start.0;
        while m < end
            invariant
                i < self.lanes@.len(),
                self.sizes_ok(),
                *l == self.lanes@[i as int],
                l.movement_start.0 <= m <= end,
                end == l.movement_start.0 + l.movement_count,
                end <= self.movements@.len(),
                forall|j: int|
                    l.movement_start.0 <= j < m ==> (#[trigger] self.movements@[j]).from_lane.0 == i,
            decreases end - m,
        {
            if self.movements[m as usize].from_lane.0 as usize != i {
                assert(self.movements@[m as int].from_lane.0 != i);
                return false;
            }
            m += 1;
        }
        true
    }

    fn check_leaves(&self, m: MovementId, lane: LaneId) -> (r: bool)
        requires
            self.has_lane(lane),
        ensures
            r == self.leaves(m, lane),
    {
        let l = &self.lanes[lane.0 as usize];
        l.movement_start.0 <= m.0 && (m.0 as u64) < l.movement_start.0 as u64 + l.movement_count as u64
    }

    fn check_movement(&self, i: usize) -> (r: bool)
        requires
            self.sizes_ok(),
            i < self.movements@.len(),
            forall|l: int|
                0 <= l < self.lanes@.len() ==> self.has_link((#[trigger] self.lanes@[l]).link),
        ensures
            r == self.movement_ok(i as int),
    {
        let m = &self.movements[i];
        if m.from_lane.0 as usize >= self.lanes.len() || m.to_lane.0 as usize >= self.lanes.len()
            || m.node.0 as usize >= self.nodes.len() {
            return false;
        }
        let from = self.lane(m.from_lane).link;
        let to = self.lane(m.to_lane).link;
        let signal = match m.signal_group {
            Some(g) => (g as usize) < self.groups.len(),
            None => true,
        };
        self.check_leaves(MovementId(i as u32), m.from_lane) && m.node == self.link(from).to
            && m.node == self.link(to).from && signal && all_below(&m.points, self.conflicts.len())
    }

    fn check_conflict(&self, i: usize) -> (r: bool)
        requires
            self.sizes_ok(),
            i < self.conflicts@.len(),
        ensures
            r == self.conflict_ok(i as int),
    {
        let c = &self.conflicts[i];
        (c.a.0 as usize) < self.movements.len() && (c.b.0 as usize) < self.movements.len()
            && has_index(&self.movements[c.a.0 as usize].points, i as u32) && has_index(
            &self.movements[c.b.0 as usize].points,
            i as u32,
        )
    }

    fn check_junction(&self, i: usize) -> (r: bool)
        requires
            self.sizes_ok(),
            i < self.junctions@.len(),
        ensures
            r == self.junction_ok(i as int),
    {
        let nodes = &self.junctions[i].nodes;
        let mut k: usize = 0;
        while k < nodes.len()
            invariant
                self.sizes_ok(),
                i < self.junctions@.len(),
                *nodes == self.junctions@[i as int].nodes,
                k <= nodes@.len(),
                forall|j: int|
                    0 <= j < k ==> self.has_node(#[trigger] nodes@[j]) && self.node_at(
                        nodes@[j],
                    ).junction == Some(i as u32),
            decreases nodes@.len() - k,
        {
            let n = nodes[k];
            if n.0 as usize >= self.nodes.len() {
                assert(!self.has_node(self.junctions@[i as int].nodes@[k as int]));
                return false;
            }
            let inside = match self.nodes[n.0 as usize].junction {
                Some(j) => j == i as u32,
                None => false,
            };
            if !inside {
                assert(self.node_at(self.junctions@[i as int].nodes@[k as int]).junction != Some(
                    i as u32,
                ));
                return false;
            }
            k += 1;
        }
        true
    }

    fn check_roads(&self) -> (r: bool)
        requires
            self.sizes_ok(),
        ensures
            r == ((forall|i: int|
                #![trigger self.nodes@[i]]
                0 <= i < self.nodes@.len() ==> self.node_ok(i)) && (forall|i: int|
                #![trigger self.links@[i]]
                0 <= i < self.links@.len() ==> self.link_ok(i)) && (forall|i: int|
                #![trigger self.lanes@[i]]
                0 <= i < self.lanes@.len() ==> self.lane_ok(i))),
    {
        let mut n: usize = 0;
        while n < self.nodes.len()
            invariant
                self.sizes_ok(),
                n <= self.nodes@.len(),
                forall|i: int| #![trigger self.nodes@[i]] 0 <= i < n ==> self.node_ok(i),
            decreases self.nodes@.len() - n,
        {
            if !self.check_node(n) {
                assert(!self.node_ok(n as int) && self.nodes@[n as int] == self.nodes@[n as int]);
                return false;
            }
            n += 1;
        }
        let mut l: usize = 0;
        while l < self.links.len()
            invariant
                self.sizes_ok(),
                l <= self.links@.len(),
                forall|i: int| #![trigger self.links@[i]] 0 <= i < l ==> self.link_ok(i),
            decreases self.links@.len() - l,
        {
            if !self.check_link(l) {
                assert(!self.link_ok(l as int) && self.links@[l as int] == self.links@[l as int]);
                return false;
            }
            l += 1;
        }
        let mut k: usize = 0;
        while k < self.lanes.len()
            invariant
                self.sizes_ok(),
                k <= self.lanes@.len(),
                forall|i: int| #![trigger self.lanes@[i]] 0 <= i < k ==> self.lane_ok(i),
            decreases self.lanes@.len() - k,
        {
            if !self.check_lane(k) {
                assert(!self.lane_ok(k as int) && self.lanes@[k as int] == self.lanes@[k as int]);
                return false;
            }
            k += 1;
        }
        true
    }

    fn check_paths(&self) -> (r: bool)
        requires
            self.sizes_ok(),
            forall|l: int|
                0 <= l < self.lanes@.len() ==> self.has_link((#[trigger] self.lanes@[l]).link),
        ensures
            r == ((forall|i: int|
                #![trigger self.movements@[i]]
                0 <= i < self.movements@.len() ==> self.movement_ok(i)) && (forall|i: int|
                #![trigger self.conflicts@[i]]
                0 <= i < self.conflicts@.len() ==> self.conflict_ok(i)) && (forall|i: int|
                #![trigger self.junctions@[i]]
                0 <= i < self.junctions@.len() ==> self.junction_ok(i))),
    {
        let mut m: usize = 0;
        while m < self.movements.len()
            invariant
                self.sizes_ok(),
                forall|l: int|
                    0 <= l < self.lanes@.len() ==> self.has_link((#[trigger] self.lanes@[l]).link),
                m <= self.movements@.len(),
                forall|i: int| #![trigger self.movements@[i]] 0 <= i < m ==> self.movement_ok(i),
            decreases self.movements@.len() - m,
        {
            if !self.check_movement(m) {
                assert(!self.movement_ok(m as int) && self.movements@[m as int]
                    == self.movements@[m as int]);
                return false;
            }
            m += 1;
        }
        let mut c: usize = 0;
        while c < self.conflicts.len()
            invariant
                self.sizes_ok(),
                c <= self.conflicts@.len(),
                forall|i: int| #![trigger self.conflicts@[i]] 0 <= i < c ==> self.conflict_ok(i),
            decreases self.conflicts@.len() - c,
        {
            if !self.check_conflict(c) {
                assert(!self.conflict_ok(c as int) && self.conflicts@[c as int]
                    == self.conflicts@[c as int]);
                return false;
            }
            c += 1;
        }
        let mut j: usize = 0;
        while j < self.junctions.len()
            invariant
                self.sizes_ok(),
                j <= self.junctions@.len(),
                forall|i: int| #![trigger self.junctions@[i]] 0 <= i < j ==> self.junction_ok(i),
            decreases self.junctions@.len() - j,
        {
            if !self.check_junction(j) {
                assert(!self.junction_ok(j as int) && self.junctions@[j as int]
                    == self.junctions@[j as int]);
                return false;
            }
            j += 1;
        }
        true
    }

    fn check_rest(&self) -> (r: bool)
        ensures
            r == ((forall|i: int|
                0 <= i < self.groups@.len() ==> (#[trigger] self.groups@[i]).bit < 64
                    && self.groups@[i].program < self.programs@.len()) && (forall|i: int|
                0 <= i < self.bus_stops@.len() ==> self.has_link(
                    (#[trigger] self.bus_stops@[i]).link,
                ))),
    {
        let mut g: usize = 0;
        while g < self.groups.len()
            invariant
                g <= self.groups@.len(),
                forall|i: int|
                    0 <= i < g ==> (#[trigger] self.groups@[i]).bit < 64 && self.groups@[i].program
                        < self.programs@.len(),
            decreases self.groups@.len() - g,
        {
            if self.groups[g].bit >= 64 || self.groups[g].program as usize >= self.programs.len() {
                assert(!(self.groups@[g as int].bit < 64 && self.groups@[g as int].program
                    < self.programs@.len()));
                return false;
            }
            g += 1;
        }
        let mut s: usize = 0;
        while s < self.bus_stops.len()
            invariant
                s <= self.bus_stops@.len(),
                forall|i: int|
                    0 <= i < s ==> self.has_link((#[trigger] self.bus_stops@[i]).link),
            decreases self.bus_stops@.len() - s,
        {
            if self.bus_stops[s].link.0 as usize >= self.links.len() {
                assert(!self.has_link(self.bus_stops@[s as int].link));
                return false;
            }
            s += 1;
        }
        true
    }

    /// Whether the tables fit together.
    pub fn check(&self) -> (r: bool)
        ensures
            r == self.wf(),
    {
        if !self.check_sizes() || !self.check_roads() {
            return false;
        }
        assert forall|l: int| 0 <= l < self.lanes@.len() implies self.has_link(
            (#[trigger] self.lanes@[l]).link,
        ) by {
            assert(self.lane_ok(l));
        }
        self.check_paths() && self.check_rest()
    }
}

} // verus!
