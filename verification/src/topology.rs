//! What the shape of a network alone settles: where lanes merge, where each
//! continues, which approach of a link is its main one, which movements cross
//! others, where buses stop, and which signal phases clear a railway.

use vstd::prelude::*;
use crate::corridor::Corridors;
use crate::network::{LaneId, LinkId, MovementId, Network, NodeId, TurnType};
use crate::quantity::{place, Quantity};
use crate::search::{first_index, indices_where, lemma_first_index_is, lemma_first_index_none};

verus! {

/// A link this long or shorter can hold a queue that backs onto the tracks.
/// Place of 120 m.
pub const RAIL_ADJACENT: i64 = 0x405E_0000_0000_0000;

/// While a railway crossing is closed, the program shows the phase that clears
/// traffic away from it.
#[derive(Clone, Copy, Debug, PartialEq, Eq, Structural)]
pub struct RailPreempt {
    pub program: u32,
    pub phase: usize,
    pub crossing: NodeId,
}

#[derive(Debug)]
pub struct Topology {
    pub corridors: Corridors,
    /// Per lane: the lanes that feed it.
    pub feeders: Vec<Vec<u32>>,
    /// Per lane: it feeds a lane that others feed too.
    pub merge_feeder_lane: Vec<bool>,
    /// Per lane: the movement that goes straight on.
    pub through_next: Vec<Option<MovementId>>,
    /// Per movement: it continues its exit link's main approach.
    pub seam_primary: Vec<bool>,
    /// Per movement: its path meets another's.
    pub movement_conflicted: Vec<bool>,
    /// Per link: its bus stops.
    pub stops_by_link: Vec<Vec<usize>>,
    pub rail_preempts: Vec<RailPreempt>,
}

/// The distinct lanes whose movements land on `lane`, looking at the first `n`
/// movements, in the order of their first such movement.
pub open spec fn feeding(net: &Network, lane: LaneId, n: int) -> Seq<u32>
    decreases n,
{
    if n <= 0 {
        Seq::empty()
    } else {
        let before = feeding(net, lane, n - 1);
        let m = net.movements@[n - 1];
        if m.to_lane == lane && !before.contains(m.from_lane.0) {
            before.push(m.from_lane.0)
        } else {
            before
        }
    }
}

/// The distinct lanes that feed a lane.
pub open spec fn feeders_of(net: &Network, lane: LaneId) -> Seq<u32> {
    feeding(net, lane, net.movements@.len() as int)
}

/// More than one lane feeds this one.
pub open spec fn is_merge(net: &Network, lane: LaneId) -> bool {
    feeders_of(net, lane).len() > 1
}

/// Lane `f` feeds a merge.
pub open spec fn feeds_merge(net: &Network, f: LaneId) -> bool {
    exists|l: LaneId| #![trigger is_merge(net, l)]
        net.has_lane(l) && is_merge(net, l) && feeders_of(net, l).contains(f.0)
}

/// Of the movements of a lane: this one goes straight.
pub open spec fn goes_through(net: &Network, lane: LaneId) -> spec_fn(int) -> bool {
    |k: int| net.movement_at(net.nth_movement(lane, k)).turn == TurnType::Through
}

/// The movement of a lane that goes straight on: the first through movement, or
/// else its first.
pub open spec fn straight_on(net: &Network, lane: LaneId) -> Option<MovementId> {
    let n = net.lane_at(lane).movement_count as int;
    if n == 0 {
        None
    } else {
        match first_index(0, n, goes_through(net, lane)) {
            Some(k) => Some(net.nth_movement(lane, k)),
            None => Some(net.nth_movement(lane, 0)),
        }
    }
}

/// The movement straight on is one of the network's.
pub proof fn lemma_straight_on(net: &Network, lane: LaneId)
    requires
        net.wf(),
        net.has_lane(lane),
    ensures
        straight_on(net, lane) matches Some(m) ==> net.has_movement(m),
{
    assert(net.lane_ok(lane.0 as int));
    crate::search::lemma_first_index(
        0,
        net.lane_at(lane).movement_count as int,
        goes_through(net, lane),
    );
}

/// The link a movement comes from.
pub open spec fn origin(net: &Network, m: int) -> LinkId {
    net.link_of(net.movements@[m].from_lane)
}

/// The link a movement goes to.
pub open spec fn target(net: &Network, m: int) -> LinkId {
    net.link_of(net.movements@[m].to_lane)
}

/// The approach of movement `a` continues into its target more directly than
/// that of `b`: same kind of road, then straighter, then wider, then lower id.
pub open spec fn more_direct(net: &Network, a: int, b: int) -> bool {
    let same_a = net.link_at(origin(net, a)).kind == net.link_at(target(net, a)).kind;
    let same_b = net.link_at(origin(net, b)).kind == net.link_at(target(net, b)).kind;
    let (ka, kb) = (net.movements@[a].straightness.key, net.movements@[b].straightness.key);
    let (wa, wb) = (net.link_at(origin(net, a)).lane_count, net.link_at(origin(net, b)).lane_count);
    if same_a != same_b {
        same_a
    } else if ka != kb {
        ka > kb
    } else if wa != wb {
        wa > wb
    } else {
        origin(net, a).0 < origin(net, b).0
    }
}

/// No movement onto the same link comes from a more direct approach.
pub open spec fn is_most_direct(net: &Network, m: int) -> bool {
    forall|k: int|
        0 <= k < net.movements@.len() && target(net, k) == target(net, m) ==> !#[trigger] more_direct(
            net,
            k,
            m,
        )
}

/// Link `from` is the main approach of link `to`.
pub open spec fn main_approach(net: &Network, from: LinkId, to: LinkId) -> bool {
    exists|m: int|
        0 <= m < net.movements@.len() && target(net, m) == to && origin(net, m) == from
            && #[trigger] is_most_direct(net, m)
}

/// The movement continues its exit link's main approach.
pub open spec fn is_seam_primary(net: &Network, m: MovementId) -> bool {
    net.movement_at(m).continuation && main_approach(
        net,
        origin(net, m.0 as int),
        target(net, m.0 as int),
    )
}

/// The movement's path meets another's.
pub open spec fn crosses_something(net: &Network, m: MovementId) -> bool {
    exists|c: int|
        0 <= c < net.conflicts@.len() && ((#[trigger] net.conflicts@[c]).a == m || net.conflicts@[c].b
            == m)
}

/// Of a bus stop: it is on this link.
pub open spec fn stop_on(net: &Network, link: LinkId) -> spec_fn(int) -> bool {
    |i: int| net.bus_stops@[i].link == link
}

/// Of a program's phases: it shows green to the group.
pub open spec fn greens(phases: Seq<u64>, bit: u32) -> spec_fn(int) -> bool {
    |k: int| phases[k] & (1u64 << (bit as u64)) != 0
}

/// The preemption that the `k`-th movement of link `l`'s first lane gives for a
/// railway crossing at the link's start.
pub open spec fn clearing(net: &Network, l: int, k: int) -> Option<RailPreempt> {
    let link = net.links@[l];
    let lane = net.lane_at(link.lane_start);
    let group = net.movement_at(net.nth_movement(link.lane_start, k)).signal_group;
    if !net.node_at(link.from).rail_crossing || place(RAIL_ADJACENT).is_below(lane.length) || group
        is None {
        None
    } else {
        let g = net.groups@[group->0 as int];
        let phases = net.programs@[g.program as int].phases@;
        match first_index(0, phases.len() as int, greens(phases, g.bit)) {
            Some(phase) => Some(
                RailPreempt { program: g.program, phase: phase as usize, crossing: link.from },
            ),
            None => None,
        }
    }
}

/// Some link and movement give this preemption.
pub open spec fn is_preempt(net: &Network, p: RailPreempt) -> bool {
    exists|l: int, k: int|
        0 <= l < net.links@.len() && 0 <= k < net.lane_at(net.links@[l].lane_start).movement_count
            && #[trigger] clearing(net, l, k) == Some(p)
}

/// A preemption names a program and a node of the network.
pub proof fn lemma_preempt_named(net: &Network, p: RailPreempt)
    requires
        net.wf(),
        is_preempt(net, p),
    ensures
        p.program < net.programs@.len(),
        net.has_node(p.crossing),
{
    let (l, k) = choose|l: int, k: int|
        0 <= l < net.links@.len() && 0 <= k < net.lane_at(net.links@[l].lane_start).movement_count
            && #[trigger] clearing(net, l, k) == Some(p);
    let link = net.links@[l];
    assert(net.link_ok(l));
    assert(net.lane_ok(link.lane_start.0 as int));
    let m = net.nth_movement(link.lane_start, k);
    assert(net.movement_ok(m.0 as int));
    assert(net.groups@[net.movement_at(m).signal_group->0 as int].program < net.programs@.len());
}

/// By program, then phase, then crossing.
pub open spec fn preempt_before(a: RailPreempt, b: RailPreempt) -> bool {
    a.program < b.program || (a.program == b.program && (a.phase < b.phase || (a.phase == b.phase
        && a.crossing.0 < b.crossing.0)))
}

/// Exactly the network's preemptions, in order, none twice.
pub open spec fn preempts_ok(net: &Network, out: Seq<RailPreempt>) -> bool {
    &&& in_order(out)
    &&& forall|p: RailPreempt| #[trigger] out.contains(p) <==> is_preempt(net, p)
}

pub open spec fn in_order(out: Seq<RailPreempt>) -> bool {
    forall|i: int, j: int|
        0 <= i < j < out.len() ==> preempt_before(#[trigger] out[i], #[trigger] out[j])
}

impl Topology {
    pub open spec fn lanes_wf(&self, net: &Network) -> bool {
        &&& self.feeders@.len() == net.lanes@.len()
        &&& self.merge_feeder_lane@.len() == net.lanes@.len()
        &&& self.through_next@.len() == net.lanes@.len()
        &&& forall|l: int|
            0 <= l < net.lanes@.len() ==> (#[trigger] self.feeders@[l])@ == feeders_of(
                net,
                LaneId(l as u32),
            )
        &&& forall|l: int|
            0 <= l < net.lanes@.len() ==> #[trigger] self.merge_feeder_lane@[l] == feeds_merge(
                net,
                LaneId(l as u32),
            )
        &&& forall|l: int|
            0 <= l < net.lanes@.len() ==> #[trigger] self.through_next@[l] == straight_on(
                net,
                LaneId(l as u32),
            )
    }

    pub open spec fn movements_wf(&self, net: &Network) -> bool {
        &&& self.seam_primary@.len() == net.movements@.len()
        &&& self.movement_conflicted@.len() == net.movements@.len()
        &&& forall|m: int|
            0 <= m < net.movements@.len() ==> #[trigger] self.seam_primary@[m] == is_seam_primary(
                net,
                MovementId(m as u32),
            )
        &&& forall|m: int|
            0 <= m < net.movements@.len() ==> #[trigger] self.movement_conflicted@[m]
                == crosses_something(net, MovementId(m as u32))
    }

    pub open spec fn stops_wf(&self, net: &Network) -> bool {
        &&& self.stops_by_link@.len() == net.links@.len()
        &&& forall|l: int|
            0 <= l < net.links@.len() ==> (#[trigger] self.stops_by_link@[l])@ == indices_where(
                net.bus_stops@.len() as int,
                stop_on(net, LinkId(l as u32)),
            )
    }

    /// The tables say of the network what their names promise.
    pub open spec fn wf(&self, net: &Network) -> bool {
        &&& self.corridors.wf(net)
        &&& self.lanes_wf(net)
        &&& self.movements_wf(net)
        &&& self.stops_wf(net)
        &&& preempts_ok(net, self.rail_preempts@)
    }
}

fn holds(v: &Vec<u32>, x: u32) -> (r: bool)
    ensures
        r == v@.contains(x),
{
    let mut i: usize = 0;
    while i < v.len()
        invariant
            i <= v@.len(),
            forall|k: int| 0 <= k < i ==> v@[k] != x,
        decreases v@.len() - i,
    {
        if v[i] == x {
            return true;
        }
        i += 1;
    }
    false
}

proof fn lemma_feeding_within(net: &Network, lane: LaneId, n: int)
    requires
        net.wf(),
        0 <= n <= net.movements@.len(),
    ensures
        forall|k: int|
            0 <= k < feeding(net, lane, n).len() ==> #[trigger] feeding(net, lane, n)[k]
                < net.lanes@.len(),
    decreases n,
{
    if n > 0 {
        lemma_feeding_within(net, lane, n - 1);
        assert(net.movement_ok(n - 1));
        let before = feeding(net, lane, n - 1);
        let now = feeding(net, lane, n);
        assert forall|k: int| 0 <= k < now.len() implies #[trigger] now[k] < net.lanes@.len() by {
            if k < before.len() {
                assert(now[k] == before[k]);
            }
        }
    }
}

fn build_feeders(net: &Network) -> (out: Vec<Vec<u32>>)
    requires
        net.wf(),
    ensures
        out@.len() == net.lanes@.len(),
        forall|l: int|
            0 <= l < out@.len() ==> (#[trigger] out@[l])@ == feeders_of(net, LaneId(l as u32)),
{
    let n = net.lanes.len();
    let mut out: Vec<Vec<u32>> = Vec::new();
    let mut i: usize = 0;
    while i < n
        invariant
            i <= n,
            out@.len() == i,
            forall|l: int| 0 <= l < i ==> (#[trigger] out@[l])@ == Seq::<u32>::empty(),
        decreases n - i,
    {
        out.push(Vec::new());
        i += 1;
    }
    let mut m: usize = 0;
    while m < net.movements.len()
        invariant
            net.wf(),
            n == net.lanes@.len(),
            out@.len() == n,
            m <= net.movements@.len(),
            forall|l: int|
                0 <= l < n ==> (#[trigger] out@[l])@ == feeding(net, LaneId(l as u32), m as int),
        decreases net.movements@.len() - m,
    {
        assert(net.movement_ok(m as int));
        let to = net.movements[m].to_lane.0 as usize;
        let from = net.movements[m].from_lane.0;
        let ghost before = out@;
        if !holds(&out[to], from) {
            out[to].push(from);
        }
        assert forall|l: int| 0 <= l < n implies (#[trigger] out@[l])@ == feeding(
            net,
            LaneId(l as u32),
            m + 1,
        ) by {
            assert(before[l]@ == feeding(net, LaneId(l as u32), m as int));
        }
        m += 1;
    }
    out
}

fn build_merge_feeders(net: &Network, feeders: &Vec<Vec<u32>>) -> (out: Vec<bool>)
    requires
        net.wf(),
        feeders@.len() == net.lanes@.len(),
        forall|l: int|
            0 <= l < feeders@.len() ==> (#[trigger] feeders@[l])@ == feeders_of(
                net,
                LaneId(l as u32),
            ),
    ensures
        out@.len() == net.lanes@.len(),
        forall|f: int|
            0 <= f < out@.len() ==> #[trigger] out@[f] == feeds_merge(net, LaneId(f as u32)),
{
    let n = net.lanes.len();
    let mut out: Vec<bool> = vec![false; n];
    let mut l: usize = 0;
    while l < n
        invariant
            net.wf(),
            n == net.lanes@.len(),
            l <= n,
            out@.len() == n,
            feeders@.len() == n,
            forall|x: int|
                0 <= x < feeders@.len() ==> (#[trigger] feeders@[x])@ == feeders_of(
                    net,
                    LaneId(x as u32),
                ),
            forall|f: int|
                0 <= f < n ==> (#[trigger] out@[f] <==> exists|x: int|
                    0 <= x < l && (#[trigger] feeders@[x])@.len() > 1 && feeders@[x]@.contains(
                        f as u32,
                    )),
        decreases n - l,
    {
        let ghost start = out@;
        if feeders[l].len() > 1 {
            proof {
                lemma_feeding_within(net, LaneId(l as u32), net.movements@.len() as int);
            }
            let list = &feeders[l];
            let mut k: usize = 0;
            while k < list.len()
                invariant
                    net.wf(),
                    n == net.lanes@.len(),
                    out@.len() == n,
                    start.len() == n,
                    k <= list@.len(),
                    forall|j: int| 0 <= j < list@.len() ==> #[trigger] list@[j] < n,
                    forall|f: int|
                        0 <= f < n ==> (#[trigger] out@[f] <==> start[f] || list@.subrange(
                            0,
                            k as int,
                        ).contains(f as u32)),
                decreases list@.len() - k,
            {
                let f = list[k] as usize;
                out[f] = true;
                assert forall|x: int| 0 <= x < n implies (#[trigger] out@[x] <==> start[x]
                    || list@.subrange(0, k + 1).contains(x as u32)) by {
                    let then = list@.subrange(0, k as int);
                    let now = list@.subrange(0, k + 1);
                    assert(now =~= then.push(list@[k as int]));
                    if then.contains(x as u32) {
                        let j = choose|j: int| 0 <= j < then.len() && then[j] == x as u32;
                        assert(now[j] == x as u32);
                    }
                    if x == f {
                        assert(now[k as int] == x as u32);
                    } else if now.contains(x as u32) {
                        let j = choose|j: int| 0 <= j < now.len() && now[j] == x as u32;
                        assert(then[j] == x as u32);
                    }
                }
                k += 1;
            }
            assert(list@.subrange(0, k as int) =~= list@);
        }
        assert forall|f: int| 0 <= f < n implies (#[trigger] out@[f] <==> exists|x: int|
            0 <= x < l + 1 && (#[trigger] feeders@[x])@.len() > 1 && feeders@[x]@.contains(
                f as u32,
            )) by {
            if start[f] {
                let x = choose|x: int|
                    0 <= x < l && (#[trigger] feeders@[x])@.len() > 1 && feeders@[x]@.contains(
                        f as u32,
                    );
                assert(feeders@[x]@.len() > 1);
            }
            if feeders@[l as int]@.len() > 1 && feeders@[l as int]@.contains(f as u32) {
                assert(out@[f]);
            } else if out@[f] {
                assert(start[f]);
            }
        }
        l += 1;
    }
    assert forall|f: int| 0 <= f < n implies #[trigger] out@[f] == feeds_merge(
        net,
        LaneId(f as u32),
    ) by {
        if out@[f] {
            let x = choose|x: int|
                0 <= x < n && (#[trigger] feeders@[x])@.len() > 1 && feeders@[x]@.contains(f as u32);
            assert(is_merge(net, LaneId(x as u32)));
        }
        if feeds_merge(net, LaneId(f as u32)) {
            let x = choose|x: LaneId|
                #![trigger is_merge(net, x)]
                net.has_lane(x) && is_merge(net, x) && feeders_of(net, x).contains(f as u32);
            assert(feeders@[x.0 as int]@ == feeders_of(net, LaneId(x.0)));
        }
    }
    out
}

fn build_through(net: &Network) -> (out: Vec<Option<MovementId>>)
    requires
        net.wf(),
    ensures
        out@.len() == net.lanes@.len(),
        forall|l: int|
            0 <= l < out@.len() ==> #[trigger] out@[l] == straight_on(net, LaneId(l as u32)),
{
    let mut out: Vec<Option<MovementId>> = Vec::new();
    let mut l: usize = 0;
    while l < net.lanes.len()
        invariant
            net.wf(),
            l <= net.lanes@.len(),
            out@.len() == l,
            forall|x: int| 0 <= x < l ==> #[trigger] out@[x] == straight_on(net, LaneId(x as u32)),
        decreases net.lanes@.len() - l,
    {
        assert(net.lane_ok(l as int));
        let lane = net.lanes[l];
        let ghost id = LaneId(l as u32);
        let mut found: Option<MovementId> = None;
        if lane.movement_count > 0 {
            found = Some(lane.movement_start);
            let mut k: u32 = 0;
            let mut open: bool = true;
            while open && k < lane.movement_count
                invariant
                    net.wf(),
                    id == LaneId(l as u32),
                    l < net.lanes@.len(),
                    lane == net.lane_at(id),
                    lane.movement_count > 0,
                    net.lane_ok(l as int),
                    k <= lane.movement_count,
                    open ==> found == Some(net.nth_movement(id, 0)) && forall|j: int|
                        0 <= j < k ==> !#[trigger] goes_through(net, id)(j),
                    !open ==> found == straight_on(net, id),
                decreases lane.movement_count - k + (if open {
                    1int
                } else {
                    0int
                }),
            {
                let m = MovementId(lane.movement_start.0 + k);
                assert(m == net.nth_movement(id, k as int));
                if net.movement(m).turn == TurnType::Through {
                    found = Some(m);
                    open = false;
                    proof {
                        lemma_first_index_is(
                            0,
                            lane.movement_count as int,
                            goes_through(net, id),
                            k as int,
                        );
                    }
                } else {
                    k += 1;
                }
            }
            proof {
                if open {
                    lemma_first_index_none(0, lane.movement_count as int, goes_through(net, id));
                }
            }
        }
        out.push(found);
        l += 1;
    }
    out
}

fn more_direct_than(net: &Network, a: usize, b: usize) -> (r: bool)
    requires
        net.wf(),
        a < net.movements@.len(),
        b < net.movements@.len(),
    ensures
        r == more_direct(net, a as int, b as int),
{
    assert(net.movement_ok(a as int));
    assert(net.movement_ok(b as int));
    let (ma, mb) = (&net.movements[a], &net.movements[b]);
    assert(net.lane_ok(ma.from_lane.0 as int));
    assert(net.lane_ok(ma.to_lane.0 as int));
    assert(net.lane_ok(mb.from_lane.0 as int));
    assert(net.lane_ok(mb.to_lane.0 as int));
    let (fa, fb) = (net.lane(ma.from_lane).link, net.lane(mb.from_lane).link);
    let same_a = net.link(fa).kind == net.link(net.lane(ma.to_lane).link).kind;
    let same_b = net.link(fb).kind == net.link(net.lane(mb.to_lane).link).kind;
    let (wa, wb) = (net.link(fa).lane_count, net.link(fb).lane_count);
    if same_a != same_b {
        same_a
    } else if ma.straightness.key != mb.straightness.key {
        ma.straightness.key > mb.straightness.key
    } else if wa != wb {
        wa > wb
    } else {
        fa.0 < fb.0
    }
}

fn build_seams(net: &Network) -> (out: Vec<bool>)
    requires
        net.wf(),
    ensures
        out@.len() == net.movements@.len(),
        forall|m: int|
            0 <= m < out@.len() ==> #[trigger] out@[m] == is_seam_primary(
                net,
                MovementId(m as u32),
            ),
{
    let mut best: Vec<Option<usize>> = vec![None; net.links.len()];
    let mut m: usize = 0;
    while m < net.movements.len()
        invariant
            net.wf(),
            best@.len() == net.links@.len(),
            m <= net.movements@.len(),
            forall|t: int|
                0 <= t < best@.len() ==> match #[trigger] best@[t] {
                    Some(b) => b < m && target(net, b as int).0 == t && forall|k: int|
                        0 <= k < m && target(net, k).0 == t ==> !#[trigger] more_direct(
                            net,
                            k,
                            b as int,
                        ),
                    None => forall|k: int| 0 <= k < m ==> #[trigger] target(net, k).0 != t,
                },
        decreases net.movements@.len() - m,
    {
        assert(net.movement_ok(m as int));
        assert(net.lane_ok(net.movements@[m as int].to_lane.0 as int));
        let t = net.lane(net.movements[m].to_lane).link.0 as usize;
        let ghost before = best@;
        let replace = match best[t] {
            Some(b) => more_direct_than(net, m, b),
            None => true,
        };
        if replace {
            best[t] = Some(m);
        }
        assert forall|x: int| 0 <= x < best@.len() implies match #[trigger] best@[x] {
            Some(b) => b < m + 1 && target(net, b as int).0 == x && forall|k: int|
                0 <= k < m + 1 && target(net, k).0 == x ==> !#[trigger] more_direct(
                    net,
                    k,
                    b as int,
                ),
            None => forall|k: int| 0 <= k < m + 1 ==> #[trigger] target(net, k).0 != x,
        } by {
            if x == t && replace {
                assert forall|k: int| 0 <= k < m + 1 && target(net, k).0 == x implies !#[trigger] more_direct(
                net, k, m as int) by {
                    if before[x] is Some && k < m {
                        assert(!more_direct(net, k, before[x]->0 as int));
                    }
                }
            } else {
                assert(best@[x] == before[x]);
                assert(target(net, m as int).0 == t);
            }
        }
        m += 1;
    }
    let mut out: Vec<bool> = Vec::new();
    let mut i: usize = 0;
    while i < net.movements.len()
        invariant
            net.wf(),
            best@.len() == net.links@.len(),
            i <= net.movements@.len(),
            forall|t: int|
                0 <= t < best@.len() ==> match #[trigger] best@[t] {
                    Some(b) => b < net.movements@.len() && target(net, b as int).0 == t && forall|k: int|
                        0 <= k < net.movements@.len() && target(net, k).0 == t ==> !#[trigger] more_direct(
                            net,
                            k,
                            b as int,
                        ),
                    None => forall|k: int|
                        0 <= k < net.movements@.len() ==> #[trigger] target(net, k).0 != t,
                },
            out@.len() == i,
            forall|k: int|
                0 <= k < i ==> #[trigger] out@[k] == is_seam_primary(net, MovementId(k as u32)),
        decreases net.movements@.len() - i,
    {
        assert(net.movement_ok(i as int));
        assert(net.lane_ok(net.movements@[i as int].to_lane.0 as int));
        assert(net.lane_ok(net.movements@[i as int].from_lane.0 as int));
        let mv = &net.movements[i];
        let to = net.lane(mv.to_lane).link;
        let from = net.lane(mv.from_lane).link;
        let mut primary: bool = false;
        if let Some(b) = best[to.0 as usize] {
            assert(net.movement_ok(b as int));
            primary = net.lane(net.movements[b].from_lane).link == from;
        }
        proof {
            assert(target(net, i as int).0 == to.0);
            assert(best@[to.0 as int] is Some);
            let b = best@[to.0 as int]->0 as int;
            assert(is_most_direct(net, b));
            if main_approach(net, from, to) {
                let w = choose|w: int|
                    0 <= w < net.movements@.len() && target(net, w) == to && origin(net, w) == from
                        && #[trigger] is_most_direct(net, w);
                assert(!more_direct(net, w, b));
                assert(!more_direct(net, b, w));
                assert(origin(net, w) == origin(net, b));
            }
            assert(primary == main_approach(net, from, to));
        }
        out.push(mv.continuation && primary);
        i += 1;
    }
    out
}

fn build_conflicted(net: &Network) -> (out: Vec<bool>)
    requires
        net.wf(),
    ensures
        out@.len() == net.movements@.len(),
        forall|m: int|
            0 <= m < out@.len() ==> #[trigger] out@[m] == crosses_something(
                net,
                MovementId(m as u32),
            ),
{
    let n = net.movements.len();
    let mut out: Vec<bool> = vec![false; n];
    let mut c: usize = 0;
    while c < net.conflicts.len()
        invariant
            net.wf(),
            n == net.movements@.len(),
            out@.len() == n,
            c <= net.conflicts@.len(),
            forall|m: int|
                0 <= m < n ==> (#[trigger] out@[m] <==> exists|k: int|
                    0 <= k < c && ((#[trigger] net.conflicts@[k]).a.0 == m || net.conflicts@[k].b.0
                        == m)),
        decreases net.conflicts@.len() - c,
    {
        assert(net.conflict_ok(c as int));
        let cp = net.conflicts[c];
        let ghost before = out@;
        out[cp.a.0 as usize] = true;
        out[cp.b.0 as usize] = true;
        assert forall|m: int| 0 <= m < n implies (#[trigger] out@[m] <==> exists|k: int|
            0 <= k < c + 1 && ((#[trigger] net.conflicts@[k]).a.0 == m || net.conflicts@[k].b.0
                == m)) by {
            if before[m] {
                let k = choose|k: int|
                    0 <= k < c && ((#[trigger] net.conflicts@[k]).a.0 == m || net.conflicts@[k].b.0
                        == m);
                assert(net.conflicts@[k].a.0 == m || net.conflicts@[k].b.0 == m);
            }
            if cp.a.0 == m || cp.b.0 == m {
                assert(net.conflicts@[c as int].a.0 == m || net.conflicts@[c as int].b.0 == m);
            } else if out@[m] {
                assert(before[m]);
            }
        }
        c += 1;
    }
    assert forall|m: int| 0 <= m < n implies #[trigger] out@[m] == crosses_something(
        net,
        MovementId(m as u32),
    ) by {
        if out@[m] {
            let k = choose|k: int|
                0 <= k < net.conflicts@.len() && ((#[trigger] net.conflicts@[k]).a.0 == m
                    || net.conflicts@[k].b.0 == m);
            assert(net.conflicts@[k].a == MovementId(m as u32) || net.conflicts@[k].b == MovementId(
                m as u32,
            ));
        }
    }
    out
}

fn build_stops(net: &Network) -> (out: Vec<Vec<usize>>)
    requires
        net.wf(),
    ensures
        out@.len() == net.links@.len(),
        forall|l: int|
            0 <= l < out@.len() ==> (#[trigger] out@[l])@ == indices_where(
                net.bus_stops@.len() as int,
                stop_on(net, LinkId(l as u32)),
            ),
{
    let n = net.links.len();
    let mut out: Vec<Vec<usize>> = Vec::new();
    let mut i: usize = 0;
    while i < n
        invariant
            i <= n,
            out@.len() == i,
            forall|l: int| 0 <= l < i ==> (#[trigger] out@[l])@ == Seq::<usize>::empty(),
        decreases n - i,
    {
        out.push(Vec::new());
        i += 1;
    }
    let mut s: usize = 0;
    while s < net.bus_stops.len()
        invariant
            net.wf(),
            n == net.links@.len(),
            out@.len() == n,
            s <= net.bus_stops@.len(),
            forall|l: int|
                0 <= l < n ==> (#[trigger] out@[l])@ == indices_where(
                    s as int,
                    stop_on(net, LinkId(l as u32)),
                ),
        decreases net.bus_stops@.len() - s,
    {
        let link = net.bus_stops[s].link.0 as usize;
        let ghost before = out@;
        out[link].push(s);
        assert forall|l: int| 0 <= l < n implies (#[trigger] out@[l])@ == indices_where(
            s + 1,
            stop_on(net, LinkId(l as u32)),
        ) by {
            assert(before[l]@ == indices_where(s as int, stop_on(net, LinkId(l as u32))));
        }
        s += 1;
    }
    out
}

fn insert_preempt(out: &mut Vec<RailPreempt>, p: RailPreempt)
    requires
        in_order(old(out)@),
    ensures
        in_order(final(out)@),
        forall|q: RailPreempt| #[trigger]
            final(out)@.contains(q) <==> old(out)@.contains(q) || q == p,
{
    let ghost before = out@;
    let mut i: usize = 0;
    while i < out.len() && (out[i].program < p.program || (out[i].program == p.program && (
    out[i].phase < p.phase || (out[i].phase == p.phase && out[i].crossing.0 < p.crossing.0))))
        invariant
            out@ == before,
            in_order(before),
            i <= out@.len(),
            forall|k: int| 0 <= k < i ==> preempt_before(#[trigger] out@[k], p),
        decreases out@.len() - i,
    {
        i += 1;
    }
    if i < out.len() && out[i] == p {
        assert(before[i as int] == p);
    } else {
        out.insert(i, p);
        assert(out@ == before.insert(i as int, p));
        assert forall|a: int, b: int| 0 <= a < b < out@.len() implies preempt_before(
            #[trigger] out@[a],
            #[trigger] out@[b],
        ) by {
            let pa = if a < i {
                a
            } else {
                a - 1
            };
            let pb = if b < i {
                b
            } else {
                b - 1
            };
            if a == i {
                assert(out@[b] == before[pb]);
                if pb > i {
                    assert(preempt_before(before[i as int], before[pb]));
                }
            } else if b == i {
                assert(out@[a] == before[pa]);
            } else {
                assert(out@[a] == before[pa]);
                assert(out@[b] == before[pb]);
            }
        }
        assert forall|q: RailPreempt| #[trigger] out@.contains(q) <==> before.contains(q) || q == p by {
            if before.contains(q) {
                let k = choose|k: int| 0 <= k < before.len() && before[k] == q;
                if k < i {
                    assert(out@[k] == q);
                } else {
                    assert(out@[k + 1] == q);
                }
            }
            if q == p {
                assert(out@[i as int] == q);
            }
            if out@.contains(q) && q != p {
                let k = choose|k: int| 0 <= k < out@.len() && out@[k] == q;
                if k < i {
                    assert(before[k] == q);
                } else {
                    assert(before[k - 1] == q);
                }
            }
        }
    }
}

fn find_phase(phases: &Vec<u64>, bit: u32) -> (r: Option<usize>)
    requires
        bit < 64,
    ensures
        match r {
            Some(k) => first_index(0, phases@.len() as int, greens(phases@, bit)) == Some(k as int),
            None => first_index(0, phases@.len() as int, greens(phases@, bit)) is None,
        },
{
    let mut k: usize = 0;
    while k < phases.len()
        invariant
            bit < 64,
            k <= phases@.len(),
            forall|j: int| 0 <= j < k ==> !#[trigger] greens(phases@, bit)(j),
        decreases phases@.len() - k,
    {
        if phases[k] & (1u64 << (bit as u64)) != 0 {
            proof {
                lemma_first_index_is(0, phases@.len() as int, greens(phases@, bit), k as int);
            }
            return Some(k);
        }
        k += 1;
    }
    proof {
        lemma_first_index_none(0, phases@.len() as int, greens(phases@, bit));
    }
    None
}

fn clearing_phase(net: &Network, l: usize, k: u32) -> (r: Option<RailPreempt>)
    requires
        net.wf(),
        l < net.links@.len(),
        k < net.lane_at(net.links@[l as int].lane_start).movement_count,
    ensures
        r == clearing(net, l as int, k as int),
{
    assert(net.link_ok(l as int));
    let link = net.links[l];
    let lane = net.lane(link.lane_start);
    assert(net.lane_ok(link.lane_start.0 as int));
    let m = MovementId(lane.movement_start.0 + k);
    assert(m == net.nth_movement(link.lane_start, k as int));
    if !net.node(link.from).rail_crossing || Quantity::at(RAIL_ADJACENT).below(lane.length) {
        return None;
    }
    assert(net.movement_ok(m.0 as int));
    match net.movement(m).signal_group {
        Some(g) => {
            let group = net.groups[g as usize];
            let program = &net.programs[group.program as usize];
            match find_phase(&program.phases, group.bit) {
                Some(phase) => Some(
                    RailPreempt { program: group.program, phase, crossing: link.from },
                ),
                None => None,
            }
        },
        None => None,
    }
}

/// The signal phases that clear traffic away from each railway crossing.
pub fn build_rail_preempts(net: &Network) -> (out: Vec<RailPreempt>)
    requires
        net.wf(),
    ensures
        preempts_ok(net, out@),
{
    let mut out: Vec<RailPreempt> = Vec::new();
    let mut l: usize = 0;
    while l < net.links.len()
        invariant
            net.wf(),
            l <= net.links@.len(),
            in_order(out@),
            forall|p: RailPreempt| #[trigger]
                out@.contains(p) <==> exists|a: int, k: int|
                    0 <= a < l && 0 <= k < net.lane_at(net.links@[a].lane_start).movement_count
                        && #[trigger] clearing(net, a, k) == Some(p),
        decreases net.links@.len() - l,
    {
        assert(net.link_ok(l as int));
        let count = net.lane(net.links[l].lane_start).movement_count;
        let ghost start = out@;
        let mut k: u32 = 0;
        while k < count
            invariant
                net.wf(),
                l < net.links@.len(),
                count == net.lane_at(net.links@[l as int].lane_start).movement_count,
                k <= count,
                in_order(out@),
                forall|p: RailPreempt| #[trigger]
                    out@.contains(p) <==> start.contains(p) || exists|j: int|
                        0 <= j < k && #[trigger] clearing(net, l as int, j) == Some(p),
            decreases count - k,
        {
            let ghost before = out@;
            let found = clearing_phase(net, l, k);
            if let Some(p) = found {
                insert_preempt(&mut out, p);
            }
            assert forall|q: RailPreempt| #[trigger] out@.contains(q) <==> start.contains(q) || exists|j: int|
                0 <= j < k + 1 && #[trigger] clearing(net, l as int, j) == Some(q) by {
                if before.contains(q) && !start.contains(q) {
                    let j = choose|j: int|
                        0 <= j < k && #[trigger] clearing(net, l as int, j) == Some(q);
                    assert(clearing(net, l as int, j) == Some(q));
                }
                if found == Some(q) {
                    assert(clearing(net, l as int, k as int) == Some(q));
                }
                if exists|j: int|
                    0 <= j < k + 1 && #[trigger] clearing(net, l as int, j) == Some(q) {
                    let j = choose|j: int|
                        0 <= j < k + 1 && #[trigger] clearing(net, l as int, j) == Some(q);
                    if j < k {
                        assert(before.contains(q));
                    }
                }
            }
            k += 1;
        }
        assert forall|p: RailPreempt| #[trigger] out@.contains(p) <==> exists|a: int, j: int|
            0 <= a < l + 1 && 0 <= j < net.lane_at(net.links@[a].lane_start).movement_count
                && #[trigger] clearing(net, a, j) == Some(p) by {
            if start.contains(p) {
                let (a, j) = choose|a: int, j: int|
                    0 <= a < l && 0 <= j < net.lane_at(net.links@[a].lane_start).movement_count
                        && #[trigger] clearing(net, a, j) == Some(p);
                assert(clearing(net, a, j) == Some(p));
            }
            if exists|a: int, j: int|
                0 <= a < l + 1 && 0 <= j < net.lane_at(net.links@[a].lane_start).movement_count
                    && #[trigger] clearing(net, a, j) == Some(p) {
                let (a, j) = choose|a: int, j: int|
                    0 <= a < l + 1 && 0 <= j < net.lane_at(net.links@[a].lane_start).movement_count
                        && #[trigger] clearing(net, a, j) == Some(p);
                if a < l {
                    assert(start.contains(p));
                } else {
                    assert(clearing(net, l as int, j) == Some(p));
                }
            }
        }
        l += 1;
    }
    out
}

impl Topology {
    /// Read everything off the network.
    pub fn build(net: &Network) -> (r: Topology)
        requires
            net.wf(),
        ensures
            r.wf(net),
    {
        let corridors = Corridors::build(net);
        let feeders = build_feeders(net);
        let merge_feeder_lane = build_merge_feeders(net, &feeders);
        Topology {
            corridors,
            feeders,
            merge_feeder_lane,
            through_next: build_through(net),
            seam_primary: build_seams(net),
            movement_conflicted: build_conflicted(net),
            stops_by_link: build_stops(net),
            rail_preempts: build_rail_preempts(net),
        }
    }
}

} // verus!
