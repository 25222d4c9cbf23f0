//! What shuts the way into a junction: others' right of way, the far side, a meter.

use vstd::prelude::*;

use crate::boxes::{DEPARTING_SPEED, ExitMeasure};
use crate::fleet::NetVehicle;
use crate::intent::BoxView;
use crate::laws::boxes::crosses_free;
use crate::laws::terms::{
    a_lane_lists_its_vehicles_in_order, end_node, is_rearmost,
    nobody_is_behind_the_nearest_to_the_entrance, the_rearmost_is_nearest_the_entrance,
};
use crate::network::{LaneId, LinkId, MovementId, NodeControl, NodeId};
use crate::quantity::place;
use crate::rooms::{METER_GREEN_SECS, RAIL_CLOSURE_SECS};
use crate::search::{
    count_where, first_index, indices_where, lemma_count_agree, lemma_first_index, lemma_indices,
};
use crate::world::NetWorld;

verus! {

/// Whatever closes the way is a reason to stay out: a closed box, pressure on a
/// turn that cannot wait inside, a far side without room, a train, or somebody's
/// right of way where no light and no turn-taking decides.
pub proof fn each_reason_shuts_the_way(w: &NetWorld, i: int, m: MovementId, g: &BoxView)
    requires
        !crosses_free(&w.network, m),
        ({
            let v = w.rows()[i];
            let end = end_node(&w.network, v.lane);
            let node = w.network.nodes@[end.0 as int];
            let waiter = w.waiter_hold(i, m, end, g.hold);
            ||| w.box_closed(m, end, waiter, g.times@)
            ||| w.inner_taken(&v, m)
            ||| waiter is None && w.gives_way(m) && w.under_pressure(i, m, end, g.pressure@)
            ||| w.strands(&v, m, end, g.exit@)
            ||| node.rail_crossing && w.rail_since.is_below(place(RAIL_CLOSURE_SECS))
            ||| (node.control == NodeControl::Uncontrolled || node.control == NodeControl::Yield || (
            node.control == NodeControl::Stop && !node.all_way_stop)) && w.must_yield(
                i,
                v.lane,
                end,
                g.rivals@,
            )
        }),
    ensures
        w.gate_shut(i, m, g),
        w.entry_shut(i, Some(m), g),
{
}

/// Nothing else shuts it, and nothing shuts a merge or diverge that meets no path.
pub proof fn the_way_is_shut_for_a_reason(w: &NetWorld, i: int, m: MovementId, g: &BoxView)
    requires
        w.gate_shut(i, m, g),
    ensures
        !crosses_free(&w.network, m),
        ({
            let v = w.rows()[i];
            let end = end_node(&w.network, v.lane);
            let node = w.network.nodes@[end.0 as int];
            let waiter = w.waiter_hold(i, m, end, g.hold);
            ||| w.box_closed(m, end, waiter, g.times@)
            ||| w.inner_taken(&v, m)
            ||| waiter is None && w.gives_way(m) && w.under_pressure(i, m, end, g.pressure@)
            ||| w.strands(&v, m, end, g.exit@)
            ||| node.rail_crossing && w.rail_since.is_below(place(RAIL_CLOSURE_SECS))
            ||| (node.control == NodeControl::Uncontrolled || node.control == NodeControl::Yield || (
            node.control == NodeControl::Stop && !node.all_way_stop)) && w.must_yield(
                i,
                v.lane,
                end,
                g.rivals@,
            )
        }),
{
}

/// Without a movement there is no way in to be shut.
pub proof fn without_a_movement_nothing_is_shut(w: &NetWorld, i: int, g: &BoxView)
    ensures
        !w.entry_shut(i, None, g),
{
}

/// The lane that the movement lands on ends outside the junction.
pub open spec fn leaves_the_junction(w: &NetWorld, m: MovementId, j: u32) -> bool {
    let to = w.network.movements@[m.0 as int].to_lane;
    w.network.nodes@[end_node(&w.network, to).0 as int].junction != Some(j)
}

/// The light at the movement's node, or the road that it continues, lets a
/// departing tail be followed.
pub open spec fn follows_a_departing_tail(w: &NetWorld, m: MovementId) -> bool {
    let mv = w.network.movements@[m.0 as int];
    w.network.nodes@[mv.node.0 as int].control is Signalized || mv.continuation || mv.interchange
}

/// Nobody enters a junction whose exit just beyond has no room: the tail on the
/// landing is too near, and does not depart or is not to be followed.
pub proof fn a_full_exit_strands(w: &NetWorld, v: &NetVehicle, m: MovementId, node: NodeId, at: Seq<ExitMeasure>, j: u32, f: int)
    requires
        w.network.nodes@[node.0 as int].junction == Some(j),
        leaves_the_junction(w, m, j),
        0 <= f < w.rows().len(),
        w.rows()[f].lane == w.network.movements@[m.0 as int].to_lane,
        is_rearmost(w, f),
        w.rows()[f].speed.is_below(place(DEPARTING_SPEED)) || !follows_a_departing_tail(w, m),
    ensures
        w.strands(v, m, node, at) <==> at[0].room.rear.is_below(at[0].room.commit_room),
{
    assert(w.rows().len() == w.fleet.rows.len());
    the_rearmost_is_nearest_the_entrance(w, f);
}

/// Behind a departing tail that may be followed only the room after it counts.
pub proof fn a_departing_tail_strands_by_the_room_after_it(
    w: &NetWorld,
    v: &NetVehicle,
    m: MovementId,
    node: NodeId,
    at: Seq<ExitMeasure>,
    j: u32,
    f: int,
)
    requires
        w.network.nodes@[node.0 as int].junction == Some(j),
        leaves_the_junction(w, m, j),
        0 <= f < w.rows().len(),
        w.rows()[f].lane == w.network.movements@[m.0 as int].to_lane,
        is_rearmost(w, f),
        place(DEPARTING_SPEED).is_at_most(w.rows()[f].speed),
        follows_a_departing_tail(w, m),
    ensures
        w.strands(v, m, node, at) <==> at[0].room.clear_after.is_below(at[0].room.margin),
{
    assert(w.rows().len() == w.fleet.rows.len());
    the_rearmost_is_nearest_the_entrance(w, f);
}

/// An empty exit strands nobody, nor does a node outside every junction.
pub proof fn an_empty_exit_strands_nobody(w: &NetWorld, v: &NetVehicle, m: MovementId, node: NodeId, at: Seq<ExitMeasure>)
    ensures
        w.network.nodes@[node.0 as int].junction is None ==> !w.strands(v, m, node, at),
        (w.network.nodes@[node.0 as int].junction matches Some(j) && leaves_the_junction(w, m, j)
            && forall|x: int|
            0 <= x < w.rows().len() ==> (#[trigger] w.rows()[x]).lane
                != w.network.movements@[m.0 as int].to_lane) ==> !w.strands(v, m, node, at),
{
    nobody_is_behind_the_nearest_to_the_entrance(w, w.network.landing(m));
}

/// A lane inside the junction that is as full as it gets strands whoever would
/// land on it.
pub proof fn a_full_inner_lane_strands(w: &NetWorld, v: &NetVehicle, m: MovementId, node: NodeId, at: Seq<ExitMeasure>, j: u32)
    requires
        w.network.nodes@[node.0 as int].junction == Some(j),
        !leaves_the_junction(w, m, j),
        w.lane_load(w.network.movements@[m.0 as int].to_lane) >= at[0].slots,
    ensures
        w.strands(v, m, node, at),
{
}

/// So does a lane after it that is occupied too near its start.
pub proof fn a_tail_beyond_an_inner_lane_strands(
    w: &NetWorld,
    v: &NetVehicle,
    m: MovementId,
    node: NodeId,
    at: Seq<ExitMeasure>,
    j: u32,
    next: MovementId,
    f: int,
)
    requires
        w.network.nodes@[node.0 as int].junction == Some(j),
        !leaves_the_junction(w, m, j),
        w.intended_from(v, w.network.movements@[m.0 as int].to_lane) == Some(next),
        0 <= f < w.rows().len(),
        w.rows()[f].lane == w.network.movements@[next.0 as int].to_lane,
        at[0].onward_rear.is_below(at[0].unit),
    ensures
        w.strands(v, m, node, at),
{
    assert(w.rows().len() == w.fleet.rows.len());
    nobody_is_behind_the_nearest_to_the_entrance(w, w.network.landing(next));
    assert(w.rows()[f].lane == w.network.landing(next));
}

/// The rest of the way is looked at in the same manner: with room on an inner lane
/// and beyond it, what the next movement finds decides.
pub proof fn the_rest_of_the_way_decides(
    w: &NetWorld,
    v: &NetVehicle,
    first: MovementId,
    m: MovementId,
    j: u32,
    depth: nat,
    at: Seq<ExitMeasure>,
    next: MovementId,
)
    requires
        depth > 0,
        !leaves_the_junction(w, m, j),
        w.lane_load(w.network.movements@[m.0 as int].to_lane) < at[0].slots,
        w.intended_from(v, w.network.movements@[m.0 as int].to_lane) == Some(next),
        !at[0].onward_rear.is_below(at[0].unit) || forall|x: int|
            0 <= x < w.rows().len() ==> (#[trigger] w.rows()[x]).lane
                != w.network.movements@[next.0 as int].to_lane,
    ensures
        w.exit_shut(v, first, m, j, depth, at) == w.exit_shut(
            v,
            first,
            next,
            j,
            (depth - 1) as nat,
            at.drop_first(),
        ),
{
    nobody_is_behind_the_nearest_to_the_entrance(w, w.network.landing(next));
}

/// Where the field ends inside the junction, room on the inner lane is enough.
pub proof fn an_inner_lane_with_room_is_enough(w: &NetWorld, v: &NetVehicle, m: MovementId, node: NodeId, at: Seq<ExitMeasure>, j: u32)
    requires
        w.network.nodes@[node.0 as int].junction == Some(j),
        !leaves_the_junction(w, m, j),
        w.lane_load(w.network.movements@[m.0 as int].to_lane) < at[0].slots,
        w.intended_from(v, w.network.movements@[m.0 as int].to_lane) is None,
    ensures
        !w.strands(v, m, node, at),
{
}

/// The rows among the first `n` of the list that have the property.
spec fn chosen(list: Seq<usize>, n: int, q: spec_fn(int) -> bool) -> Set<usize>
    decreases n,
{
    if n <= 0 {
        Set::empty()
    } else if q(list[n - 1] as int) {
        chosen(list, n - 1, q).insert(list[n - 1])
    } else {
        chosen(list, n - 1, q)
    }
}

proof fn lemma_chosen(list: Seq<usize>, n: int, q: spec_fn(int) -> bool)
    requires
        0 <= n <= list.len(),
        list.no_duplicates(),
    ensures
        chosen(list, n, q).finite(),
        chosen(list, n, q).len() == count_where(n, |k: int| q(list[k] as int)),
        forall|x: usize| #[trigger]
            chosen(list, n, q).contains(x) <==> q(x as int) && exists|k: int|
                0 <= k < n && list[k] == x,
    decreases n,
{
    if n > 0 {
        lemma_chosen(list, n - 1, q);
        let before = chosen(list, n - 1, q);
        assert(!before.contains(list[n - 1]));
        assert forall|x: usize| #[trigger]
            chosen(list, n, q).contains(x) <==> q(x as int) && exists|k: int|
                0 <= k < n && list[k] == x by {
            if x == list[n - 1] {
                assert(list[n - 1] == x);
            }
            if exists|k: int| 0 <= k < n && list[k] == x {
                let k = choose|k: int| 0 <= k < n && list[k] == x;
                if k < n - 1 {
                    assert(exists|y: int| 0 <= y < n - 1 && list[y] == x);
                }
            }
        }
    }
}

/// How many of the listed rows have the property does not depend on the order.
proof fn lemma_count_of_list(a: Seq<usize>, b: Seq<usize>, q: spec_fn(int) -> bool)
    requires
        a.no_duplicates(),
        b.no_duplicates(),
        forall|x: usize| #[trigger] a.contains(x) <==> #[trigger] b.contains(x),
    ensures
        count_where(a.len() as int, |k: int| q(a[k] as int)) == count_where(
            b.len() as int,
            |k: int| q(b[k] as int),
        ),
{
    lemma_chosen(a, a.len() as int, q);
    lemma_chosen(b, b.len() as int, q);
    let (s, t) = (chosen(a, a.len() as int, q), chosen(b, b.len() as int, q));
    assert forall|x: usize| s.contains(x) <==> t.contains(x) by {
        assert(a.contains(x) <==> b.contains(x));
    }
    assert(s =~= t);
}

proof fn lemma_count_of_indices(n: int, p: spec_fn(int) -> bool, q: spec_fn(int) -> bool)
    requires
        0 <= n <= usize::MAX,
    ensures
        count_where(
            indices_where(n, p).len() as int,
            |k: int| q(indices_where(n, p)[k] as int),
        ) == count_where(n, |i: int| p(i) && q(i)),
    decreases n,
{
    if n > 0 {
        lemma_count_of_indices(n - 1, p, q);
        let now = indices_where(n, p);
        let before = indices_where(n - 1, p);
        let f = |k: int| q(now[k] as int);
        let g = |k: int| q(before[k] as int);
        let h = |i: int| p(i) && q(i);
        if p(n - 1) {
            assert(now == before.push((n - 1) as usize));
            assert forall|k: int| 0 <= k < before.len() implies #[trigger] f(k) == g(k) by {
                assert(now[k] == before[k]);
            }
            lemma_count_agree(before.len() as int, f, g);
            assert(f(before.len() as int) == h(n - 1));
        }
    }
}

/// Of a row: it rolls on the lane.
pub open spec fn rolls_on_it(w: &NetWorld, lane: LaneId) -> spec_fn(int) -> bool {
    |i: int| w.rows()[i].lane == lane && w.rows()[i].crossing is None
}

/// Of a row: it is inside the intersection where the lane begins, and lands on it.
pub open spec fn comes_onto_it(w: &NetWorld, lane: LaneId) -> spec_fn(int) -> bool {
    |i: int|
        {
            let net = &w.network;
            let start = net.links@[net.lanes@[lane.0 as int].link.0 as int].from;
            let mv = net.movements@[(w.rows()[i].crossing->0).movement.0 as int];
            w.rows()[i].crossing is Some && net.nodes@[mv.node.0 as int].intersection
                == net.nodes@[start.0 as int].intersection && mv.to_lane == lane
        }
}

/// The load of a lane is how many roll on it and how many are inside before it and
/// land on it.
pub proof fn the_load_counts_those_on_and_those_in_flight(w: &NetWorld, lane: LaneId)
    ensures
        w.lane_load(lane) == count_where(w.rows().len() as int, rolls_on_it(w, lane)) + count_where(
            w.rows().len() as int,
            comes_onto_it(w, lane),
        ),
{
    assert(w.rows().len() == w.fleet.rows.len());
    let n = w.rows().len() as int;
    // on the lane
    let on = w.on_lane(lane.0);
    let raw = indices_where(n, on);
    let s = w.lane_order(lane.0);
    lemma_indices(n, on);
    a_lane_lists_its_vehicles_in_order(w, lane.0);
    assert forall|a: int, b: int| 0 <= a < raw.len() && 0 <= b < raw.len() && a != b implies raw[a]
        != raw[b] by {
        if a < b {
            assert(raw[a] < raw[b]);
        } else {
            assert(raw[b] < raw[a]);
        }
    }
    assert(raw.no_duplicates());
    assert(s.no_duplicates()) by {
        assert forall|a: int, b: int| 0 <= a < s.len() && 0 <= b < s.len() && a != b implies s[a]
            != s[b] by {
            if a < b {
                assert(s[a] != s[b]);
            } else {
                assert(s[b] != s[a]);
            }
        }
    }
    assert forall|x: usize| #[trigger] s.contains(x) <==> #[trigger] raw.contains(x) by {
        if s.contains(x) {
            let a = choose|a: int| 0 <= a < s.len() && s[a] == x;
            assert(s[a] < n);
            assert(s.contains(x as int as usize));
            assert(on(x as int));
            assert(raw.contains(x as int as usize));
        }
        if raw.contains(x) {
            let a = choose|a: int| 0 <= a < raw.len() && raw[a] == x;
            assert(raw[a] < n && on(raw[a] as int));
            assert(s.contains(x as int as usize));
        }
    }
    let landed = |i: int| w.rows()[i].crossing is None;
    lemma_count_of_list(s, raw, landed);
    lemma_count_of_indices(n, on, landed);
    assert(w.has_landed(lane) =~= (|k: int| landed(s[k] as int)));
    lemma_count_agree(n, |i: int| on(i) && landed(i), rolls_on_it(w, lane));
    // in flight
    let start = w.network.link_at(w.network.link_of(lane)).from;
    let inside = w.crosses_at(w.network.node_at(start).intersection);
    let list = w.inside_before(lane);
    let lands = |i: int| w.network.landing((w.rows()[i].crossing->0).movement) == lane;
    lemma_count_of_indices(n, inside, lands);
    assert(w.will_land(lane) =~= (|k: int| lands(list[k] as int)));
    lemma_count_agree(n, |i: int| inside(i) && lands(i), comes_onto_it(w, lane));
}

/// A meter holds its ramp exactly while metering is on and its green is over.
pub proof fn a_meter_holds_its_ramp(w: &NetWorld, link: LinkId, k: int)
    requires
        0 <= k < w.meters@.len(),
        w.meters@[k].ramp == link,
        forall|x: int| 0 <= x < w.meters@.len() && x != k ==> (#[trigger] w.meters@[x]).ramp != link,
    ensures
        w.meter_holds(link) <==> w.metering_on && place(METER_GREEN_SECS).is_at_most(
            w.meters@[k].cycle_t,
        ),
{
    let p = w.meters_link(link);
    lemma_first_index(0, w.meters@.len() as int, p);
    assert(p(k));
}

/// Nothing holds a link without a meter.
pub proof fn a_link_without_a_meter_is_not_held(w: &NetWorld, link: LinkId)
    requires
        forall|x: int| 0 <= x < w.meters@.len() ==> (#[trigger] w.meters@[x]).ramp != link,
    ensures
        !w.meter_holds(link),
{
    let p = w.meters_link(link);
    lemma_first_index(0, w.meters@.len() as int, p);
    if first_index(0, w.meters@.len() as int, p) is Some {
        assert(p(first_index(0, w.meters@.len() as int, p)->0));
    }
}

} // verus!
