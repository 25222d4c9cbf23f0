//! How the work is run leaves no trace in what comes of it. The backend, the size
//! from which it is used, the flat sort keys, the threads and the shards decide who
//! computes what and when; two worlds that differ in nothing else see the same
//! neighbours, decide alike, and come out of a tick alike.

use vstd::prelude::*;
use crate::boxes::{other_of, ExitMeasure, PointTiming, Room, EXIT_DEPTH};
use crate::crashes::{pair_before, Pair};
use crate::crossing::CrossView;
use crate::fleet::{Fate, Fleet, NetVehicle};
use crate::groups::GroupMap;
use crate::intent::{BoxView, GatherView, Sight, Sleep};
use crate::lanes::LaneView;
use crate::neighbors::{next_in, Neighbors};
use crate::network::{LaneId, LinkId, MovementId, NodeId};
use crate::occupancy::ShardMaps;
use crate::paths::{nth_lane, LANE_ROUTE_DEPTH};
use crate::quantity::Quantity;
use crate::resolution::TurnView;
use crate::router::FieldRouter;
use crate::search::lemma_indices;
use crate::sorting::lemma_sorted_members;
use crate::step::TickEnd;
use crate::tick::{Tick, TickView};
use crate::world::NetWorld;
use crate::yielding::{PointPressure, Rival};

verus! {

/// Two routers lead the same ways: their fields say the same, and a recompute in
/// flight has come as far.
pub open spec fn same_routes(a: Option<FieldRouter>, b: Option<FieldRouter>) -> bool {
    match (a, b) {
        (Some(r), Some(s)) => {
            &&& r.slots() == s.slots()
            &&& r.cycle() == s.cycle()
            &&& forall|k: int|
                #![trigger r.field(k)]
                #![trigger s.field(k)]
                0 <= k < r.slots().len() ==> r.field(k).dist@ == s.field(k).dist@ && r.field(
                    k,
                ).next@ == s.field(k).next@
            &&& forall|d: LinkId, l: LinkId|
                #![trigger r.hop(d, l)]
                #![trigger s.hop(d, l)]
                r.hop(d, l) == s.hop(d, l)
            &&& forall|d: LinkId, l: LinkId|
                #![trigger r.remaining(d, l)]
                #![trigger s.remaining(d, l)]
                r.remaining(d, l) == s.remaining(d, l)
        },
        (None, None) => true,
        _ => false,
    }
}

/// The same roads, rules and state, whatever vehicles there are and however the
/// work is run.
pub open spec fn same_rules(a: &NetWorld, b: &NetWorld) -> bool {
    &&& same_routes(a.router, b.router)
    &&& a.meters@ == b.meters@
    &&& a.bus_dwell@ == b.bus_dwell@
    &&& a.crashed_by@ == b.crashed_by@
    &&& a.crash_log@ == b.crash_log@
    &&& a.link_entries@ == b.link_entries@
    &&& *b == (NetWorld {
        fleet: b.fleet,
        router: b.router,
        meters: b.meters,
        bus_dwell: b.bus_dwell,
        crashed_by: b.crashed_by,
        crash_log: b.crash_log,
        link_entries: b.link_entries,
        cache_sort: b.cache_sort,
        accel_backend: b.accel_backend,
        gpu_accel: b.gpu_accel,
        threads_ready: b.threads_ready,
        par_threshold: b.par_threshold,
        sharding: b.sharding,
        ..*a
    })
}

/// Two worlds are alike to their users: the vehicles with their histories, the
/// counters, the crash log and everything else but how the work is run.
pub open spec fn alike(a: &NetWorld, b: &NetWorld) -> bool {
    &&& a.rows() == b.rows()
    &&& forall|k: int|
        #![trigger a.fleet.samples(k)]
        #![trigger b.fleet.samples(k)]
        0 <= k < a.rows().len() ==> a.fleet.samples(k) == b.fleet.samples(k)
    &&& same_rules(a, b)
}

proof fn lemma_ways_on(a: &NetWorld, b: &NetWorld, v: &NetVehicle, lane: LaneId)
    requires
        same_rules(a, b),
    ensures
        a.nearest_landing(v, lane) == b.nearest_landing(v, lane),
        a.stopgap(v, lane) == b.stopgap(v, lane),
        a.onward(v, lane) == b.onward(v, lane),
{
    assert(a.landing_distance(v, lane) =~= b.landing_distance(v, lane));
}

proof fn lemma_intended(a: &NetWorld, b: &NetWorld, v: &NetVehicle)
    requires
        same_rules(a, b),
    ensures
        a.intended(v) == b.intended(v),
{
    lemma_ways_on(a, b, v, v.lane);
}

proof fn lemma_followed(
    a: &NetWorld,
    b: &NetWorld,
    v: &NetVehicle,
    lane: LaneId,
    taken: Seq<MovementId>,
    n: nat,
)
    requires
        same_rules(a, b),
    ensures
        a.followed(v, lane, taken, n) == b.followed(v, lane, taken, n),
    decreases n,
{
    if n > 0 {
        lemma_ways_on(a, b, v, lane);
        if a.onward(v, lane) is Some {
            let m = a.onward(v, lane)->0;
            lemma_followed(a, b, v, a.network.landing(m), taken.push(m), (n - 1) as nat);
        }
    }
}

proof fn lemma_path(a: &NetWorld, b: &NetWorld, v: &NetVehicle, m: MovementId)
    requires
        same_rules(a, b),
    ensures
        a.committed_path(v, m) == b.committed_path(v, m),
{
    lemma_followed(a, b, v, a.network.landing(m), Seq::empty(), a.network.movements@.len());
}

/// A vehicle decides the same, however the decisions are run.
pub proof fn decisions_do_not_depend_on_how_they_are_run(
    a: &NetWorld,
    b: &NetWorld,
    i: int,
    nb: &Neighbors,
    s: Sight,
)
    requires
        alike(a, b),
    ensures
        a.decision(i, nb, s) == b.decision(i, nb, s),
{
    lemma_intended(a, b, &a.rows()[i]);
}

proof fn lemma_field_chain(a: &NetWorld, b: &NetWorld, v: &NetVehicle, link: LinkId, n: nat)
    requires
        same_rules(a, b),
    ensures
        a.field_chain(v, link, n) == b.field_chain(v, link, n),
    decreases n,
{
    if n > 0 {
        if a.field_hop(v, link) is Some {
            lemma_field_chain(a, b, v, a.field_hop(v, link)->0, (n - 1) as nat);
        }
    }
}

proof fn lemma_needs(a: &NetWorld, b: &NetWorld, v: &NetVehicle, view: &LaneView, side: int, to: LaneId)
    requires
        same_rules(a, b),
    ensures
        a.demanded(v, view, side, to) == b.demanded(v, view, side, to),
        a.drifts_off(v, view, to) == b.drifts_off(v, view, to),
{
    assert(a.next_on_path(v) == b.next_on_path(v));
    if a.next_on_path(v) is Some {
        let next = a.next_on_path(v)->0;
        lemma_field_chain(a, b, v, next, (LANE_ROUTE_DEPTH - 1) as nat);
        assert(a.hops_from(v, next) == b.hops_from(v, next));
    }
}

/// A vehicle has the same options to change lanes, however they are gathered.
pub proof fn options_do_not_depend_on_how_they_are_run(
    a: &NetWorld,
    b: &NetWorld,
    i: int,
    view: &LaneView,
    hov_ok: bool,
    side: int,
)
    requires
        alike(a, b),
    ensures
        a.looks_sideways(i) == b.looks_sideways(i),
        a.option_on(i, view, hov_ok, side) == b.option_on(i, view, hov_ok, side),
{
    let net = &a.network;
    let v = &a.rows()[i];
    let k = net.lane_at(v.lane).index_in_link + side;
    let target = nth_lane(net, net.link_of(v.lane), k);
    lemma_needs(a, b, v, view, side, target);
    assert(a.rolls_on(target.0) =~= b.rolls_on(target.0));
    let list = a.rolling_order(target.0);
    assert(list == b.rolling_order(target.0));
    let x = i as usize;
    assert(a.is_behind(list, v.position, x) =~= b.is_behind(list, v.position, x));
    assert(a.is_ahead(list, v.position, x) =~= b.is_ahead(list, v.position, x));
    if a.last_behind(list, v.position, x) is Some {
        let p = a.rows()[a.last_behind(list, v.position, x)->0 as int].position;
        assert(a.is_ahead(list, p, x) =~= b.is_ahead(list, p, x));
    }
}

proof fn lemma_reserved(a: &NetWorld, b: &NetWorld, n: int, key: u32, moving_only: bool)
    requires
        alike(a, b),
    ensures
        a.reserved(n, key, moving_only) == b.reserved(n, key, moving_only),
    decreases n,
{
    if n > 0 {
        lemma_reserved(a, b, n - 1, key, moving_only);
        let v = &a.rows()[n - 1];
        lemma_path(a, b, v, (v.crossing->0).movement);
    }
}

/// In a list without repeats one follows another at most once.
proof fn lemma_one_next(list: Seq<usize>, i: usize, j: usize)
    requires
        list.no_duplicates(),
        next_in(list, i, j),
    ensures
        list.last() != i,
        forall|l: usize| #[trigger] next_in(list, i, l) ==> l == j,
{
    let k = choose|k: int| 0 <= k < list.len() - 1 && #[trigger] list[k] == i && list[k + 1] == j;
    assert forall|l: usize| #[trigger] next_in(list, i, l) implies l == j by {
        let x = choose|x: int|
            0 <= x < list.len() - 1 && #[trigger] list[x] == i && list[x + 1] == l;
        assert(x == k);
    }
}

/// The neighbours are the same, however they are found.
pub proof fn neighbours_do_not_depend_on_how_they_are_found(
    a: &NetWorld,
    b: &NetWorld,
    cpos: Seq<Quantity>,
    x: &Neighbors,
    y: &Neighbors,
)
    requires
        alike(a, b),
        x.sees(a, cpos),
        y.sees(b, cpos),
    ensures
        x.leader_of@ == y.leader_of@,
        forall|l: u32| #[trigger] x.by_lane.group(l) == y.by_lane.group(l),
        forall|k: u32| #[trigger] x.approaching.group(k) == y.approaching.group(k),
        forall|k: u32| #[trigger] x.crossing_at.group(k) == y.crossing_at.group(k),
        forall|k: u32| #[trigger] x.crossing_mvs.group(k) == y.crossing_mvs.group(k),
        forall|k: u32| #[trigger]
            x.moving_crossing_mvs.group(k) == y.moving_crossing_mvs.group(k),
{
    let n = a.rows().len() as int;
    assert(n == a.fleet.rows.len());
    assert forall|i: int| 0 <= i < n implies x.leader_of@[i] == y.leader_of@[i] by {
        let c = a.corridor_of_row(i);
        assert(a.in_corridor(c) =~= b.in_corridor(c));
        let order = a.corridor_order(c, cpos);
        assert(order == b.corridor_order(c, cpos));
        lemma_indices(n, a.in_corridor(c));
        lemma_sorted_members(
            crate::search::indices_where(n, a.in_corridor(c)),
            crate::neighbors::keys_of(cpos),
        );
        if x.leader_of@[i] is Some {
            lemma_one_next(order, i as usize, x.leader_of@[i]->0);
        }
        if y.leader_of@[i] is Some {
            lemma_one_next(order, i as usize, y.leader_of@[i]->0);
        }
    }
    assert forall|l: u32| #[trigger] x.by_lane.group(l) == y.by_lane.group(l) by {
        assert(a.on_lane(l) =~= b.on_lane(l));
    }
    assert forall|k: u32| #[trigger] x.approaching.group(k) == y.approaching.group(k) by {
        assert(a.approaches(k) =~= b.approaches(k));
    }
    assert forall|k: u32| #[trigger] x.crossing_at.group(k) == y.crossing_at.group(k) by {
        assert(a.crosses_at(k) =~= b.crosses_at(k));
    }
    assert forall|k: u32| #[trigger] x.crossing_mvs.group(k) == y.crossing_mvs.group(k) by {
        lemma_reserved(a, b, n, k, false);
    }
    assert forall|k: u32| #[trigger] x.moving_crossing_mvs.group(k)
        == y.moving_crossing_mvs.group(k) by {
        lemma_reserved(a, b, n, k, true);
    }
}

proof fn lemma_at_node(a: &NetWorld, b: &NetWorld, key: u32)
    requires
        alike(a, b),
    ensures
        a.crosses_at(key) == b.crosses_at(key),
        a.approaches(key) == b.approaches(key),
{
    assert(a.crosses_at(key) =~= b.crosses_at(key));
    assert(a.approaches(key) =~= b.approaches(key));
}

proof fn lemma_on_lane(a: &NetWorld, b: &NetWorld, lane: LaneId)
    requires
        alike(a, b),
    ensures
        a.lane_order(lane.0) == b.lane_order(lane.0),
        a.nearest_entrance(lane) == b.nearest_entrance(lane),
{
    assert(a.on_lane(lane.0) =~= b.on_lane(lane.0));
}

proof fn lemma_box_taken(a: &NetWorld, b: &NetWorld, m: MovementId, node: NodeId)
    requires
        alike(a, b),
    ensures
        a.box_taken(m, node) == b.box_taken(m, node),
{
    lemma_reserved(a, b, a.rows().len() as int, a.network.node_at(node).intersection, false);
}

proof fn lemma_path_closed(
    a: &NetWorld,
    b: &NetWorld,
    v: &NetVehicle,
    m: MovementId,
    node: NodeId,
    hold: Option<Quantity>,
    times: Seq<Vec<PointTiming>>,
)
    requires
        alike(a, b),
    ensures
        a.path_closed(v, m, node, hold, times) == b.path_closed(v, m, node, hold, times),
{
    lemma_at_node(a, b, a.network.node_at(node).intersection);
    assert forall|o: &NetVehicle, t: Seq<PointTiming>| #[trigger]
        a.keeps_closed(node, m, o, hold, t) == b.keeps_closed(node, m, o, hold, t) by {
        lemma_inner(a, b, o, a.network.landing((o.crossing->0).movement));
        lemma_shared(a, b, node, m, o, hold, t);
    }
    assert(a.box_closed(m, node, hold, times) == b.box_closed(m, node, hold, times));
    lemma_path(a, b, v, m);
    assert forall|x: MovementId| #[trigger] a.lands_on_taken(x) == b.lands_on_taken(x) by {
        assert forall|y: MovementId, n: NodeId|
            #![trigger a.box_taken(y, n)]
            #![trigger b.box_taken(y, n)]
            a.box_taken(y, n) == b.box_taken(y, n) by {
            lemma_box_taken(a, b, y, n);
        }
        let link = a.network.link_of(a.network.landing(x));
        assert(a.link_taken(link) == b.link_taken(link));
    }
    assert(a.inner_taken(v, m) == b.inner_taken(v, m));
}

proof fn lemma_inner(a: &NetWorld, b: &NetWorld, v: &NetVehicle, lane: LaneId)
    requires
        same_rules(a, b),
    ensures
        a.inner_path(v, lane) == b.inner_path(v, lane),
{
    lemma_followed(a, b, v, lane, Seq::empty(), a.network.movements@.len());
}

proof fn lemma_shared(
    a: &NetWorld,
    b: &NetWorld,
    node: NodeId,
    m: MovementId,
    o: &NetVehicle,
    hold: Option<Quantity>,
    t: Seq<PointTiming>,
)
    requires
        alike(a, b),
    ensures
        a.owns_shared(node, m, o, hold, t) == b.owns_shared(node, m, o, hold, t),
        a.is_timed(node, m, (o.crossing->0).movement) == b.is_timed(
            node,
            m,
            (o.crossing->0).movement,
        ),
{
    assert forall|k: int|
        #![trigger a.point(node, k)]
        #![trigger b.point(node, k)]
        a.point(node, k) == b.point(node, k) by {}
    assert forall|k: int|
        a.contests(node, m, o, hold, #[trigger] t[k], k) == b.contests(node, m, o, hold, t[k], k) by {}
}

proof fn lemma_live(a: &NetWorld, b: &NetWorld, m: MovementId, node: NodeId, n: int)
    requires
        alike(a, b),
    ensures
        a.live_arc_upto(node, m, n) == b.live_arc_upto(node, m, n),
    decreases n,
{
    if n > 0 {
        lemma_live(a, b, m, node, n - 1);
    }
}

proof fn lemma_gives_way(a: &NetWorld, b: &NetWorld, m: MovementId)
    requires
        alike(a, b),
    ensures
        a.gives_way(m) == b.gives_way(m),
{
    let node = a.network.movement_at(m).node;
    assert forall|k: int|
        #![trigger a.is_live(node, m, k)]
        #![trigger b.is_live(node, m, k)]
        a.is_live(node, m, k) == b.is_live(node, m, k) by {}
}

proof fn lemma_waiter(a: &NetWorld, b: &NetWorld, i: int, m: MovementId, node: NodeId, hold: Quantity)
    requires
        alike(a, b),
    ensures
        a.waiter_hold(i, m, node, hold) == b.waiter_hold(i, m, node, hold),
{
    lemma_gives_way(a, b, m);
    lemma_live(a, b, m, node, a.network.node_at(node).conflicts@.len() as int);
    lemma_at_node(a, b, a.network.node_at(node).intersection);
}

proof fn lemma_pressure(
    a: &NetWorld,
    b: &NetWorld,
    i: int,
    m: MovementId,
    node: NodeId,
    points: Seq<PointPressure>,
)
    requires
        alike(a, b),
    ensures
        a.under_pressure(i, m, node, points) == b.under_pressure(i, m, node, points),
{
    lemma_at_node(a, b, a.network.node_at(node).intersection);
    assert forall|k: int|
        a.presses_at(i, m, node, k, #[trigger] points[k]) == b.presses_at(
            i,
            m,
            node,
            k,
            points[k],
        ) by {
        lemma_point_pressure(a, b, i, m, node, k, points[k]);
    }
}

proof fn lemma_point_pressure(
    a: &NetWorld,
    b: &NetWorld,
    i: int,
    m: MovementId,
    node: NodeId,
    k: int,
    p: PointPressure,
)
    requires
        alike(a, b),
    ensures
        a.presses_at(i, m, node, k, p) == b.presses_at(i, m, node, k, p),
{
    reveal(NetWorld::presses_at);
    lemma_at_node(a, b, a.network.node_at(node).intersection);
    let other = other_of(a.point(node, k), m);
    assert(a.is_live(node, m, k) == b.is_live(node, m, k));
    assert(other == other_of(b.point(node, k), m));
    let (inside, coming) = (a.crossers(node), a.approachers(node));
    assert(inside == b.crossers(node) && coming == b.approachers(node));
    assert forall|x: int|
        a.crosser_presses(i, inside[x] as int, other, #[trigger] p.inside@[x])
            == b.crosser_presses(i, inside[x] as int, other, p.inside@[x]) by {
        let o = &a.rows()[inside[x] as int];
        lemma_inner(a, b, o, a.network.landing((o.crossing->0).movement));
    }
    assert forall|x: int|
        a.approacher_presses(coming[x] as int, other, #[trigger] p.coming@[x], p.needed->0)
            == b.approacher_presses(coming[x] as int, other, p.coming@[x], p.needed->0) by {
        let o = &a.rows()[coming[x] as int];
        lemma_intended(a, b, o);
        if a.intended(o) is Some {
            lemma_path(a, b, o, a.intended(o)->0);
        }
        lemma_on_lane(a, b, o.lane);
    }
}

proof fn lemma_yield(a: &NetWorld, b: &NetWorld, i: int, lane: LaneId, node: NodeId, rivals: Seq<Rival>)
    requires
        alike(a, b),
    ensures
        a.must_yield(i, lane, node, rivals) == b.must_yield(i, lane, node, rivals),
{
    lemma_at_node(a, b, a.network.node_at(node).intersection);
    lemma_intended(a, b, &a.rows()[i]);
    assert forall|x: int|
        a.has_priority_over(i, lane, a.approachers(node)[x] as int, #[trigger] rivals[x])
            == b.has_priority_over(i, lane, b.approachers(node)[x] as int, rivals[x]) by {
        lemma_intended(a, b, &a.rows()[a.approachers(node)[x] as int]);
    }
}

proof fn lemma_exit(
    a: &NetWorld,
    b: &NetWorld,
    v: &NetVehicle,
    first: MovementId,
    m: MovementId,
    j: u32,
    depth: nat,
    at: Seq<ExitMeasure>,
)
    requires
        alike(a, b),
    ensures
        a.exit_shut(v, first, m, j, depth, at) == b.exit_shut(v, first, m, j, depth, at),
    decreases depth,
{
    if depth > 0 {
        let to = a.network.landing(m);
        lemma_on_lane(a, b, to);
        lemma_at_node(
            a,
            b,
            a.network.node_at(a.network.link_at(a.network.link_of(to)).from).intersection,
        );
        assert(a.has_landed(to) =~= b.has_landed(to));
        assert(a.will_land(to) =~= b.will_land(to));
        if a.intended_from(v, to) is Some {
            let next = a.intended_from(v, to)->0;
            lemma_on_lane(a, b, a.network.landing(next));
            lemma_exit(a, b, v, first, next, j, (depth - 1) as nat, at.drop_first());
        }
    }
}

proof fn lemma_strands(
    a: &NetWorld,
    b: &NetWorld,
    v: &NetVehicle,
    m: MovementId,
    node: NodeId,
    at: Seq<ExitMeasure>,
)
    requires
        alike(a, b),
    ensures
        a.strands(v, m, node, at) == b.strands(v, m, node, at),
{
    if a.network.node_at(node).junction is Some {
        lemma_exit(a, b, v, m, m, a.network.node_at(node).junction->0, EXIT_DEPTH as nat, at);
    }
}

/// A vehicle's way into the node is shut or open, however that is worked out.
pub proof fn gates_do_not_depend_on_how_they_are_run(
    a: &NetWorld,
    b: &NetWorld,
    i: int,
    m: Option<MovementId>,
    g: &BoxView,
)
    requires
        alike(a, b),
    ensures
        a.entry_shut(i, m, g) == b.entry_shut(i, m, g),
{
    if m is Some {
        let x = m->0;
        let v = &a.rows()[i];
        let node = a.network.end_of(v.lane);
        lemma_waiter(a, b, i, x, node, g.hold);
        lemma_path_closed(a, b, v, x, node, a.waiter_hold(i, x, node, g.hold), g.times@);
        lemma_gives_way(a, b, x);
        lemma_pressure(a, b, i, x, node, g.pressure@);
        lemma_strands(a, b, v, x, node, g.exit@);
        lemma_yield(a, b, i, v.lane, node, g.rivals@);
    }
}

proof fn lemma_tight(a: &NetWorld, b: &NetWorld, m: MovementId, room: Room)
    requires
        alike(a, b),
    ensures
        a.landing_tight(m, room) == b.landing_tight(m, room),
{
    lemma_on_lane(a, b, a.network.landing(m));
}

proof fn lemma_turn_taking(a: &NetWorld, b: &NetWorld, i: int, m: MovementId, node: NodeId, rooms: Seq<Room>)
    requires
        alike(a, b),
    ensures
        a.waits_turn(i, m, node, rooms) == b.waits_turn(i, m, node, rooms),
{
    lemma_at_node(a, b, a.network.node_at(node).intersection);
    assert forall|x: int|
        a.goes_before(i, m, node, a.approachers(node)[x] as int, #[trigger] rooms[x])
            == b.goes_before(i, m, node, b.approachers(node)[x] as int, rooms[x]) by {
        let o = &a.rows()[a.approachers(node)[x] as int];
        lemma_on_lane(a, b, o.lane);
        lemma_intended(a, b, o);
        if a.intended(o) is Some {
            lemma_tight(a, b, a.intended(o)->0, rooms[x]);
        }
    }
}

proof fn lemma_lane_box(a: &NetWorld, b: &NetWorld, lane: LaneId, node: NodeId)
    requires
        alike(a, b),
    ensures
        a.lane_box_taken(lane, node) == b.lane_box_taken(lane, node),
{
    reveal(NetWorld::gate_taken);
    assert forall|m: MovementId|
        #![trigger a.gate_taken(m, node)]
        #![trigger b.gate_taken(m, node)]
        a.gate_taken(m, node) == b.gate_taken(m, node) by {
        lemma_box_taken(a, b, m, node);
    }
}

/// What binds a vehicle on its lane, and where its acceleration comes from, are the
/// same, however they are gathered.
pub proof fn constraints_do_not_depend_on_how_they_are_run(
    a: &NetWorld,
    b: &NetWorld,
    i: int,
    nb: &Neighbors,
    sleep: Sleep,
    m: Option<MovementId>,
    g: &GatherView,
)
    requires
        alike(a, b),
        a.led(nb),
        0 <= i < a.rows().len(),
    ensures
        a.source_of(i, nb, sleep) == b.source_of(i, nb, sleep),
        a.constraints_on(i, nb, m, g) == b.constraints_on(i, nb, m, g),
{
    let v = &a.rows()[i];
    let node = a.network.end_of(v.lane);
    let link = a.network.link_of(v.lane);
    assert(a.meters_link(link) =~= b.meters_link(link));
    lemma_lane_box(a, b, v.lane, node);
    lemma_yield(a, b, i, v.lane, node, g.wide_rivals@);
    lemma_yield(a, b, i, v.lane, node, g.entry.rivals@);
    if m is Some {
        let x = m->0;
        lemma_tight(a, b, x, g.room);
        lemma_strands(a, b, v, x, node, g.entry.exit@);
        lemma_waiter(a, b, i, x, node, g.entry.hold);
        lemma_path_closed(
            a,
            b,
            v,
            x,
            node,
            a.waiter_hold(i, x, node, g.entry.hold),
            g.entry.times@,
        );
        lemma_gives_way(a, b, x);
        lemma_pressure(a, b, i, x, node, g.entry.pressure@);
        lemma_turn_taking(a, b, i, x, node, g.fifo_rooms@);
    }
    assert(a.held_at_line(i, m, g) == b.held_at_line(i, m, g));
    assert(a.covers_brake(i, m, g) == b.covers_brake(i, m, g));
    assert(a.gives_way_at_line(i, m, g) == b.gives_way_at_line(i, m, g));
}

proof fn lemma_held_short(a: &NetWorld, b: &NetWorld, i: int, g: &CrossView, start: Quantity, n: int)
    requires
        alike(a, b),
    ensures
        a.held_short(i, g, start, n) == b.held_short(i, g, start, n),
    decreases n,
{
    if n > 0 {
        lemma_held_short(a, b, i, g, start, n - 1);
        let m = (a.rows()[i].crossing->0).movement;
        let other = other_of(a.point(a.network.movement_at(m).node, n - 1), m);
        assert(a.is_on(other.0) =~= b.is_on(other.0));
        assert(a.holds_short(i, n - 1, g.ahead@[n - 1]) == b.holds_short(
            i,
            n - 1,
            g.ahead@[n - 1],
        ));
    }
}

/// A vehicle inside a node accelerates the same, however it is worked out.
pub proof fn crossings_do_not_depend_on_how_they_are_run(
    a: &NetWorld,
    b: &NetWorld,
    i: int,
    g: &CrossView,
)
    requires
        alike(a, b),
    ensures
        a.crossing_rate(i, g) == b.crossing_rate(i, g),
{
    let v = &a.rows()[i];
    let m = (v.crossing->0).movement;
    let node = a.network.movement_at(m).node;
    let to = a.network.landing(m);
    lemma_ways_on(a, b, v, to);
    if a.onward(v, to) is Some {
        let next = a.onward(v, to)->0;
        lemma_reserved(
            a,
            b,
            a.rows().len() as int,
            a.network.node_at(a.network.movement_at(next).node).intersection,
            true,
        );
    }
    assert(a.next_hop_taken(v) == b.next_hop_taken(v));
    lemma_live(a, b, m, node, a.network.node_at(node).conflicts@.len() as int);
    lemma_pressure(a, b, i, m, node, g.pressure@);
    assert(a.waits_inside(i, g) == b.waits_inside(i, g));
    let hop = if a.next_hop_taken(v) {
        g.follow.lesser(g.hop_hold)
    } else {
        g.follow
    };
    let waited = if a.waits_inside(i, g) {
        hop.lesser(g.wait_hold)
    } else {
        hop
    };
    lemma_held_short(a, b, i, g, waited, g.ahead@.len() as int);
}

/// Two states of the occupancy hold the same.
pub open spec fn holds_same(o: &ShardMaps, p: &ShardMaps) -> bool {
    &&& forall|l: u32| #[trigger] o.tail(LaneId(l)) == p.tail(LaneId(l))
    &&& forall|l: u32| #[trigger] o.taken(LaneId(l)) == p.taken(LaneId(l))
    &&& o.inbound@ == p.inbound@
}

/// Two lists of entries hold the same.
spec fn entered_same(e: &GroupMap<MovementId>, f: &GroupMap<MovementId>) -> bool {
    forall|key: u32| #[trigger] e.group(key) == f.group(key)
}

proof fn lemma_at_key(a: &NetWorld, b: &NetWorld, path: Seq<MovementId>, key: u32)
    requires
        same_rules(a, b),
    ensures
        a.at_key(path, key) == b.at_key(path, key),
    decreases path.len(),
{
    if path.len() > 0 {
        lemma_at_key(a, b, path.drop_last(), key);
    }
}

proof fn lemma_admits(
    a: &NetWorld,
    b: &NetWorld,
    v: &NetVehicle,
    m: MovementId,
    block: bool,
    o: &ShardMaps,
    p: &ShardMaps,
    e: &GroupMap<MovementId>,
    f: &GroupMap<MovementId>,
    g: crate::boundary::BoundaryView,
)
    requires
        same_rules(a, b),
        holds_same(o, p),
        entered_same(e, f),
    ensures
        a.admits(v, m, block, o, e, g) == b.admits(v, m, block, p, f, g),
{
    lemma_path(a, b, v, m);
    let path = a.committed_path(v, m);
    assert forall|k: int| 0 <= k < path.len() implies a.entered_meets(#[trigger] path[k], e)
        == b.entered_meets(path[k], f) by {
        assert(e.group(a.movement_key(path[k])) == f.group(a.movement_key(path[k])));
    }
    assert(a.meets_entered(path, e) == b.meets_entered(path, f));
    let link = a.network.link_of(v.lane);
    assert(a.meters_link(link) =~= b.meters_link(link));
    let to = a.network.landing(m);
    assert(LaneId(to.0) == to);
    assert(o.tail(LaneId(to.0)) == p.tail(LaneId(to.0)));
    assert(o.taken(LaneId(to.0)) == p.taken(LaneId(to.0)));
}

/// A vehicle that takes its turn from the same occupancy and entries comes out of
/// it the same, and leaves the same.
proof fn lemma_turn(
    a: &NetWorld,
    b: &NetWorld,
    v: &NetVehicle,
    after: (&NetVehicle, &NetVehicle),
    ready: (bool, bool, Option<MovementId>),
    g: TurnView,
    o: (&ShardMaps, &ShardMaps),
    p: (&ShardMaps, &ShardMaps),
    e: (&GroupMap<MovementId>, &GroupMap<MovementId>),
    f: (&GroupMap<MovementId>, &GroupMap<MovementId>),
    fates: (Fate, Fate),
)
    requires
        same_rules(a, b),
        holds_same(o.0, p.0),
        entered_same(e.0, f.0),
        a.turn_taken(v, after.0, ready.0, ready.1, ready.2, g, o.0, o.1, e.0, e.1, fates.0),
        b.turn_taken(v, after.1, ready.0, ready.1, ready.2, g, p.0, p.1, f.0, f.1, fates.1),
    ensures
        *after.0 == *after.1,
        fates.0 == fates.1,
        holds_same(o.1, p.1),
        entered_same(e.1, f.1),
{
    if ready.0 {
        let m = if v.crossing is Some {
            (v.crossing->0).movement
        } else {
            lemma_intended(a, b, v);
            a.resolved(v, ready.2)->0
        };
        let to = a.network.landing(m);
        assert(LaneId(to.0) == to);
        assert(o.0.tail(LaneId(to.0)) == p.0.tail(LaneId(to.0)));
        assert(o.0.taken(LaneId(to.0)) == p.0.taken(LaneId(to.0)));
        if v.crossing is None && a.resolved(v, ready.2) is Some {
            lemma_admits(a, b, v, m, ready.1, o.0, p.0, e.0, f.0, g.boundary);
            lemma_path(a, b, v, m);
            assert(a.registers(v, m) == b.registers(v, m));
            assert(LaneId(v.lane.0) == v.lane);
            assert(o.0.taken(LaneId(v.lane.0)) == p.0.taken(LaneId(v.lane.0)));
            assert forall|key: u32| #[trigger] e.1.group(key) == f.1.group(key) by {
                lemma_at_key(a, b, a.registers(v, m), key);
                assert(e.0.group(key) == f.0.group(key));
            }
        }
        assert forall|l: u32| #[trigger] o.1.tail(LaneId(l)) == p.1.tail(LaneId(l)) by {
            assert(o.0.tail(LaneId(l)) == p.0.tail(LaneId(l)));
        }
        assert forall|l: u32| #[trigger] o.1.taken(LaneId(l)) == p.1.taken(LaneId(l)) by {
            assert(o.0.taken(LaneId(l)) == p.0.taken(LaneId(l)));
        }
    }
}

proof fn lemma_promised(a: &NetWorld, b: &NetWorld, totals: Seq<Quantity>, n: int)
    requires
        alike(a, b),
    ensures
        a.promised_by(totals, n) == b.promised_by(totals, n),
    decreases n,
{
    if n > 0 {
        lemma_promised(a, b, totals, n - 1);
    }
}

/// What is measured in two ticks is the same wherever it is measured of the same:
/// for a turn, of the vehicle and the occupancy; for the collisions, of the
/// vehicles, their fates and the pairs.
pub open spec fn measured_alike(t: Tick, u: Tick) -> bool {
    &&& forall|i: int|
        0 <= i < t.moved.len() && t.moved[i] == u.moved[i] && holds_same(
            &t.turns.occ[i],
            &u.turns.occ[i],
        ) ==> #[trigger] t.turns.views[i] == u.turns.views[i]
    &&& t.taken.rows@ == u.taken.rows@ && t.fates@ == u.fates@ && t.pairs@ == u.pairs@ ==> {
        &&& t.crash.gaps@ == u.crash.gaps@
        &&& t.crash.closings@ == u.crash.closings@
        &&& t.crash.impacts@ == u.crash.impacts@
        &&& t.crash.sites@ == u.crash.sites@
    }
}

proof fn lemma_begin(
    a: &NetWorld,
    b: &NetWorld,
    carried: Seq<Option<MovementId>>,
    blocked: Seq<bool>,
    view: &TickView,
    t: Tick,
    u: Tick,
)
    requires
        alike(a, b),
        a.tick_begins(carried, blocked, view, t),
        b.tick_begins(carried, blocked, view, u),
    ensures
        same_rules(&t.road, &u.road),
        t.moved == u.moved,
        t.who.deferred@ == u.who.deferred@,
        holds_same(&t.occ, &u.occ),
{
    let n = a.rows().len() as int;
    assert forall|i: int| 0 <= i < n implies t.moved[i] == u.moved[i] by {
        assert(t.moved[i] == t.road.advanced(&a.rows()[i], carried[i], view.motion@[i]));
        assert(u.moved[i] == u.road.advanced(&b.rows()[i], carried[i], view.motion@[i]));
    }
    assert(t.moved =~= u.moved);
    assert forall|i: int| 0 <= i < n implies t.who.deferred@[i] == u.who.deferred@[i] by {
        assert(t.who.deferred@[i] == t.road.is_deferred(&a.rows()[i], view.motion@[i]));
        assert(u.who.deferred@[i] == u.road.is_deferred(&b.rows()[i], view.motion@[i]));
    }
    assert(t.who.deferred@ =~= u.who.deferred@);
    assert forall|l: u32| #[trigger] t.occ.tail(LaneId(l)) == u.occ.tail(LaneId(l)) by {
        assert(a.rear_on(l, view.rears@) =~= b.rear_on(l, view.rears@));
    }
    assert forall|l: u32| #[trigger] t.occ.taken(LaneId(l)) == u.occ.taken(LaneId(l)) by {
        assert(a.takes_slot(l) =~= b.takes_slot(l));
    }
    lemma_promised(a, b, view.promises@, n);
}

proof fn lemma_turns(a: &NetWorld, b: &NetWorld, x: &Neighbors, y: &Neighbors, t: Tick, u: Tick, i: int)
    requires
        alike(a, b),
        same_rules(&t.road, &u.road),
        t.moved == u.moved,
        t.moved.len() == a.rows().len(),
        t.who.deferred@ == u.who.deferred@,
        t.who.blocked@ == u.who.blocked@,
        t.who.carried@ == u.who.carried@,
        holds_same(&t.occ, &u.occ),
        a.tick_goes(x, t),
        b.tick_goes(y, u),
        measured_alike(t, u),
        0 <= i <= a.rows().len(),
    ensures
        holds_same(&t.turns.occ[i], &u.turns.occ[i]),
        entered_same(&t.turns.entered[i], &u.turns.entered[i]),
        forall|k: int|
            0 <= k < i ==> (#[trigger] t.taken.rows@[k]) == u.taken.rows@[k] && t.fates@[k]
                == u.fates@[k],
    decreases i,
{
    if i == 0 {
        assert forall|key: u32| #[trigger] t.turns.entered[0].group(key)
            == u.turns.entered[0].group(key) by {
            assert(t.turns.entered[0].group(key).len() == 0);
            assert(u.turns.entered[0].group(key).len() == 0);
            assert(t.turns.entered[0].group(key) =~= u.turns.entered[0].group(key));
        }
    } else {
        let k = i - 1;
        lemma_turns(a, b, x, y, t, u, k);
        assert(t.turns.views[k] == u.turns.views[k]);
        lemma_turn(
            &t.road,
            &u.road,
            &t.moved[k],
            (&t.taken.rows@[k], &u.taken.rows@[k]),
            (t.who.deferred@[k], t.who.blocked@[k], t.who.carried@[k]),
            t.turns.views[k],
            (&t.turns.occ[k], &t.turns.occ[k + 1]),
            (&u.turns.occ[k], &u.turns.occ[k + 1]),
            (&t.turns.entered[k], &t.turns.entered[k + 1]),
            (&u.turns.entered[k], &u.turns.entered[k + 1]),
            (t.fates@[k], u.fates@[k]),
        );
    }
}

/// Of the pairs that may collide there is one list in order.
proof fn lemma_one_list(s: Seq<Pair>, t: Seq<Pair>)
    requires
        forall|p: Pair| #[trigger] s.contains(p) <==> t.contains(p),
        forall|k: int, l: int|
            0 <= k < l < s.len() ==> pair_before(#[trigger] s[k], #[trigger] s[l]),
        forall|k: int, l: int|
            0 <= k < l < t.len() ==> pair_before(#[trigger] t[k], #[trigger] t[l]),
    ensures
        s == t,
    decreases s.len(),
{
    if s.len() == 0 {
        if t.len() > 0 {
            assert(t.contains(t[0]));
            assert(s.contains(t[0]));
        }
    } else {
        assert(s.contains(s.last()));
        assert(t.len() > 0);
        assert(t.contains(t.last()));
        assert(s.contains(t.last()));
        let x = choose|x: int| 0 <= x < s.len() && s[x] == t.last();
        let y = choose|y: int| 0 <= y < t.len() && t[y] == s.last();
        assert(s.last() == t.last());
        let (a, b) = (s.drop_last(), t.drop_last());
        assert forall|p: Pair| #[trigger] a.contains(p) <==> b.contains(p) by {
            if a.contains(p) {
                let k = choose|k: int| 0 <= k < a.len() && a[k] == p;
                assert(s[k] == p);
                assert(s.contains(p));
                let l = choose|l: int| 0 <= l < t.len() && t[l] == p;
                assert(b[l] == p);
            }
            if b.contains(p) {
                let k = choose|k: int| 0 <= k < b.len() && b[k] == p;
                assert(t[k] == p);
                assert(t.contains(p));
                assert(s.contains(p));
                let l = choose|l: int| 0 <= l < s.len() && s[l] == p;
                assert(a[l] == p);
            }
        }
        lemma_one_list(a, b);
        assert(s =~= a.push(s.last()));
        assert(t =~= b.push(t.last()));
    }
}

/// Two ticks from worlds that differ only in how the work is run, with the same
/// decisions and the same measures, come out alike.
pub proof fn a_tick_does_not_depend_on_how_it_is_run(
    a: &NetWorld,
    b: &NetWorld,
    x: &Neighbors,
    y: &Neighbors,
    carried: Seq<Option<MovementId>>,
    blocked: Seq<bool>,
    view: &TickView,
    t: Tick,
    u: Tick,
    after_a: &NetWorld,
    after_b: &NetWorld,
)
    requires
        alike(a, b),
        x.leader_of@ == y.leader_of@,
        a.tick_begins(carried, blocked, view, t),
        b.tick_begins(carried, blocked, view, u),
        a.tick_goes(x, t),
        b.tick_goes(y, u),
        measured_alike(t, u),
        a.tick_ends(after_a, view, t),
        b.tick_ends(after_b, view, u),
    ensures
        alike(after_a, after_b),
{
    let n = a.rows().len() as int;
    lemma_begin(a, b, carried, blocked, view, t, u);
    lemma_turns(a, b, x, y, t, u, n);
    assert(t.taken.rows@ =~= u.taken.rows@);
    assert forall|k: int| 0 <= k < n implies t.fates@[k] == u.fates@[k] by {
        assert(t.taken.rows@[k] == u.taken.rows@[k]);
    }
    assert(t.fates@ =~= u.fates@);
    assert forall|p: Pair| #[trigger] t.pairs@.contains(p) <==> u.pairs@.contains(p) by {
        assert(t.road.may_collide(t.taken.rows@, t.fates@, p) == u.road.may_collide(
            u.taken.rows@,
            u.fates@,
            p,
        ));
    }
    lemma_one_list(t.pairs@, u.pairs@);
    let (rows, fates, gaps) = (t.taken.rows@, t.fates@, t.crash.gaps@);
    assert forall|k: int| 0 <= k < n implies t.hits[k] == u.hits[k] by {
        assert(t.road.rear_end_of(rows, fates, x, gaps, k) =~= u.road.rear_end_of(
            rows,
            fates,
            y,
            gaps,
            k,
        ));
        assert(t.hits[k] == t.road.hit_of(
            rows,
            fates,
            x,
            gaps,
            t.crash.closings@,
            t.pairs@,
            t.crash.impacts@,
            k,
        ));
        assert(u.hits[k] == u.road.hit_of(
            rows,
            fates,
            y,
            gaps,
            t.crash.closings@,
            t.pairs@,
            t.crash.impacts@,
            k,
        ));
    }
    assert(t.hits =~= u.hits);
    let end = TickEnd { rows, fates, hits: t.hits, wreck_ticks: view.wreck_ticks };
    assert forall|k: int| 0 <= k < n implies #[trigger] t.taken.samples(k) == u.taken.samples(k) by {
        assert(a.fleet.samples(k) == b.fleet.samples(k));
    }
    lemma_histories(end, n, &t.taken, &u.taken);
    assert(after_a.crashed_by@ =~= after_b.crashed_by@);
    assert(after_a.link_entries@ =~= after_b.link_entries@);
}

proof fn lemma_histories(end: TickEnd, n: int, a: &Fleet, b: &Fleet)
    requires
        forall|k: int| 0 <= k < n ==> #[trigger] a.samples(k) == b.samples(k),
    ensures
        end.histories(n, a) == end.histories(n, b),
    decreases n,
{
    if n > 0 {
        lemma_histories(end, n - 1, a, b);
    }
}

} // verus!
