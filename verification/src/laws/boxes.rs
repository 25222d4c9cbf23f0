//! When the box of a junction is closed to whoever would enter it.

use vstd::prelude::*;

use crate::boxes::{CLAIM_REACH, PointTiming, SHALLOWEST_HOLD, meets_any, other_of, own_arc};
use crate::fleet::NetVehicle;
use crate::laws::pressure::crosses_there;
use crate::laws::priority::joins;
use crate::laws::terms::{
    all_who_are_inside_are_crossers, is_inside, meets_a_path, runs_inside, shows,
};
use crate::neighbors::MOVING_SPEED;
use crate::network::{MovementId, Network, NodeId, SignalState, TurnType};
use crate::quantity::{INFINITY, Quantity, place};
use crate::search::lemma_indices;
use crate::world::NetWorld;

verus! {

/// A merge or diverge whose path meets no other.
pub open spec fn crosses_free(net: &Network, m: MovementId) -> bool {
    net.movements@[m.0 as int].interchange && !meets_a_path(net, m)
}

/// Some conflict of the network is between the two paths.
pub open spec fn paths_meet(net: &Network, a: MovementId, b: MovementId) -> bool {
    exists|c: int| #![trigger net.conflicts@[c]]
        0 <= c < net.conflicts@.len() && joins(net.conflicts@[c], a, b)
}

proof fn lemma_paths_meet(net: &Network, a: MovementId, b: MovementId)
    ensures
        net.paths_cross(a, b) <==> paths_meet(net, a, b),
{
    if net.paths_cross(a, b) {
        let c = choose|c: int|
            0 <= c < net.conflicts@.len() && Network::pairs(#[trigger] net.conflicts@[c], a, b);
        assert(joins(net.conflicts@[c], a, b));
    }
    if paths_meet(net, a, b) {
        let c = choose|c: int| #![trigger net.conflicts@[c]]
            0 <= c < net.conflicts@.len() && joins(net.conflicts@[c], a, b);
        assert(Network::pairs(net.conflicts@[c], a, b));
    }
}

/// The row of timings with number `a` is of row `j`.
pub open spec fn times_row_of(w: &NetWorld, node: NodeId, j: int, a: int) -> bool {
    0 <= a < w.crossers(node).len() && w.crossers(node)[a] == j as usize
}

/// Point `k` of the node is one that the two movements share.
pub open spec fn is_shared(w: &NetWorld, node: NodeId, k: int, a: MovementId, b: MovementId) -> bool {
    joins(w.network.conflicts@[w.network.nodes@[node.0 as int].conflicts@[k] as int], a, b)
}

/// Where the movement's own path passes point `k` of the node.
pub open spec fn arc_there(w: &NetWorld, node: NodeId, k: int, m: MovementId) -> Quantity {
    let c = w.network.conflicts@[w.network.nodes@[node.0 as int].conflicts@[k] as int];
    if c.a == m {
        c.sa
    } else {
        c.sb
    }
}

/// The vehicle still stands in the way at a point: its tail has not cleared it, it
/// moves or is near, and it is there when the other arrives.
pub open spec fn is_in_the_way(o: &NetVehicle, t: PointTiming) -> bool {
    &&& !t.tail_clear.is_at_most(t.arc)
    &&& !o.speed.is_below(place(MOVING_SPEED)) || !place(CLAIM_REACH).is_below(t.short_by)
    &&& t.t_reach.is_below(t.t_free)
}

/// A vehicle inside whose path meets the entrant's at no measured point keeps the
/// box closed.
pub proof fn an_unmeasured_conflict_closes_the_box(
    w: &NetWorld,
    m: MovementId,
    node: NodeId,
    hold: Option<Quantity>,
    times: Seq<Vec<PointTiming>>,
    j: int,
)
    requires
        w.times_fit(node, times),
        is_inside(w, j, node),
        paths_meet(&w.network, m, (w.rows()[j].crossing->0).movement),
        forall|k: int|
            0 <= k < w.network.nodes@[node.0 as int].conflicts@.len() ==> !#[trigger] is_shared(
                w,
                node,
                k,
                m,
                (w.rows()[j].crossing->0).movement,
            ),
    ensures
        w.box_closed(m, node, hold, times),
{
    assert(w.rows().len() == w.fleet.rows.len());
    let theirs = (w.rows()[j].crossing->0).movement;
    all_who_are_inside_are_crossers(w, node, j);
    lemma_paths_meet(&w.network, m, theirs);
    let list = w.crossers(node);
    let a = choose|a: int| 0 <= a < list.len() && list[a] == j as usize;
    if w.is_timed(node, m, theirs) {
        let k = choose|k: int|
            0 <= k < w.network.node_at(node).conflicts@.len() && Network::pairs(
                #[trigger] w.point(node, k),
                m,
                theirs,
            );
        assert(is_shared(w, node, k, m, theirs));
    }
    assert(w.keeps_closed(node, m, &w.rows()[list[a] as int], hold, times[a]@));
}

/// A vehicle inside that is in the way at a shared point, short of where the
/// entrant may wait, keeps the box closed.
pub proof fn who_is_in_the_way_closes_the_box(
    w: &NetWorld,
    m: MovementId,
    node: NodeId,
    hold: Option<Quantity>,
    times: Seq<Vec<PointTiming>>,
    j: int,
    k: int,
)
    requires
        w.times_fit(node, times),
        is_inside(w, j, node),
        0 <= k < w.network.nodes@[node.0 as int].conflicts@.len(),
        paths_meet(&w.network, m, (w.rows()[j].crossing->0).movement),
        is_shared(w, node, k, m, (w.rows()[j].crossing->0).movement),
        hold matches Some(h) ==> arc_there(w, node, k, m).is_below(h),
        forall|a: int|
            #[trigger] times_row_of(w, node, j, a) ==> is_in_the_way(&w.rows()[j], times[a]@[k]),
    ensures
        w.box_closed(m, node, hold, times),
{
    assert(w.rows().len() == w.fleet.rows.len());
    let theirs = (w.rows()[j].crossing->0).movement;
    all_who_are_inside_are_crossers(w, node, j);
    lemma_paths_meet(&w.network, m, theirs);
    let list = w.crossers(node);
    let a = choose|a: int| 0 <= a < list.len() && list[a] == j as usize;
    assert(times_row_of(w, node, j, a));
    assert(w.contests(node, m, &w.rows()[j], hold, times[a]@[k], k));
    assert(w.owns_shared(node, m, &w.rows()[j], hold, times[a]@));
    assert(w.keeps_closed(node, m, &w.rows()[list[a] as int], hold, times[a]@));
}

/// A moving vehicle inside whose way on meets the entrant's path keeps the box
/// closed.
pub proof fn who_will_sweep_the_path_closes_the_box(
    w: &NetWorld,
    m: MovementId,
    node: NodeId,
    hold: Option<Quantity>,
    times: Seq<Vec<PointTiming>>,
    j: int,
    x: int,
)
    requires
        w.times_fit(node, times),
        is_inside(w, j, node),
        place(MOVING_SPEED).is_at_most(w.rows()[j].speed),
        ({
            let path = w.inner_path(
                &w.rows()[j],
                w.network.movements@[(w.rows()[j].crossing->0).movement.0 as int].to_lane,
            );
            0 <= x < path.len() && paths_meet(&w.network, m, path[x])
        }),
    ensures
        w.box_closed(m, node, hold, times),
{
    assert(w.rows().len() == w.fleet.rows.len());
    let path = w.inner_path(
        &w.rows()[j],
        w.network.movements@[(w.rows()[j].crossing->0).movement.0 as int].to_lane,
    );
    all_who_are_inside_are_crossers(w, node, j);
    lemma_paths_meet(&w.network, m, path[x]);
    let list = w.crossers(node);
    let a = choose|a: int| 0 <= a < list.len() && list[a] == j as usize;
    assert(meets_any(&w.network, m, path));
    assert(w.keeps_closed(node, m, &w.rows()[list[a] as int], hold, times[a]@));
}

/// A vehicle keeps the box closed only if its way on meets the entrant's path while
/// it moves, or its own path does, at no measured point or at one where it is in
/// the way short of where the entrant may wait.
pub proof fn only_who_is_in_the_way_closes_the_box(
    w: &NetWorld,
    m: MovementId,
    node: NodeId,
    hold: Option<Quantity>,
    o: &NetVehicle,
    times: Seq<PointTiming>,
)
    requires
        w.keeps_closed(node, m, o, hold, times),
    ensures
        (place(MOVING_SPEED).is_at_most(o.speed) && exists|x: int|
            {
                let path = w.inner_path(
                    o,
                    w.network.movements@[(o.crossing->0).movement.0 as int].to_lane,
                );
                0 <= x < path.len() && paths_meet(
                    &w.network,
                    m,
                    #[trigger] w.inner_path(
                        o,
                        w.network.movements@[(o.crossing->0).movement.0 as int].to_lane,
                    )[x],
                )
            }) || (paths_meet(&w.network, m, (o.crossing->0).movement) && ((forall|k: int|
            0 <= k < w.network.nodes@[node.0 as int].conflicts@.len() ==> !#[trigger] is_shared(
                w,
                node,
                k,
                m,
                (o.crossing->0).movement,
            )) || exists|k: int|
            0 <= k < w.network.nodes@[node.0 as int].conflicts@.len() && #[trigger] is_shared(
                w,
                node,
                k,
                m,
                (o.crossing->0).movement,
            ) && is_in_the_way(o, times[k]) && (hold is None || !hold->0.is_at_most(
                arc_there(w, node, k, m),
            )))),
{
    let theirs = (o.crossing->0).movement;
    let path = w.inner_path(o, w.network.movements@[theirs.0 as int].to_lane);
    lemma_paths_meet(&w.network, m, theirs);
    if w.will_sweep(o, m) {
        let x = choose|x: int| 0 <= x < path.len() && w.network.paths_cross(m, #[trigger] path[x]);
        lemma_paths_meet(&w.network, m, path[x]);
    } else if w.is_timed(node, m, theirs) {
        let k = choose|k: int|
            0 <= k < w.network.node_at(node).conflicts@.len() && w.contests(
                node,
                m,
                o,
                hold,
                #[trigger] times[k],
                k,
            );
        assert(is_shared(w, node, k, m, theirs));
    } else {
        assert forall|k: int|
            0 <= k < w.network.nodes@[node.0 as int].conflicts@.len() implies !#[trigger] is_shared(
            w,
            node,
            k,
            m,
            theirs,
        ) by {
            assert(!Network::pairs(w.point(node, k), m, theirs));
        }
    }
}

/// An empty box is open.
pub proof fn an_empty_box_is_open(
    w: &NetWorld,
    m: MovementId,
    node: NodeId,
    hold: Option<Quantity>,
    times: Seq<Vec<PointTiming>>,
)
    requires
        forall|j: int| !#[trigger] is_inside(w, j, node),
    ensures
        !w.box_closed(m, node, hold, times),
        !w.box_taken(m, node),
{
    assert(w.rows().len() == w.fleet.rows.len());
    let list = w.crossers(node);
    lemma_indices(
        w.rows().len() as int,
        w.crosses_at(w.network.node_at(node).intersection),
    );
    if list.len() > 0 {
        assert(list.contains(list[0] as int as usize));
        all_who_are_inside_are_crossers(w, node, list[0] as int);
    }
    lemma_none_reserved(w, node, w.rows().len() as int);
}

proof fn lemma_none_reserved(w: &NetWorld, node: NodeId, n: int)
    requires
        0 <= n <= w.rows().len(),
        forall|j: int| !#[trigger] is_inside(w, j, node),
    ensures
        w.reserved(n, w.network.node_at(node).intersection, false).len() == 0,
    decreases n,
{
    if n > 0 {
        lemma_none_reserved(w, node, n - 1);
        assert(!is_inside(w, n - 1, node));
    }
}

proof fn lemma_reserved(w: &NetWorld, node: NodeId, n: int, j: int, m: MovementId)
    requires
        0 <= j < n <= w.rows().len(),
        is_inside(w, j, node),
        w.reserved_by(&w.rows()[j]).contains(m),
    ensures
        w.reserved(n, w.network.node_at(node).intersection, false).contains(m),
    decreases n,
{
    let key = w.network.node_at(node).intersection;
    let before = w.reserved(n - 1, key, false);
    let now = w.reserved(n, key, false);
    if j == n - 1 {
        let own = w.reserved_by(&w.rows()[j]);
        assert(now == before + own);
        let x = choose|x: int| 0 <= x < own.len() && own[x] == m;
        assert(now[before.len() + x] == m);
    } else {
        lemma_reserved(w, node, n - 1, j, m);
        let x = choose|x: int| 0 <= x < before.len() && before[x] == m;
        assert(now[x] == m);
    }
}

/// Whoever is inside takes the box from every movement whose path its own meets,
/// the rest of its way through the junction counted.
pub proof fn who_is_inside_takes_the_box(w: &NetWorld, m: MovementId, node: NodeId, j: int, theirs: MovementId)
    requires
        is_inside(w, j, node),
        theirs == (w.rows()[j].crossing->0).movement || w.inner_path(
            &w.rows()[j],
            w.network.movements@[(w.rows()[j].crossing->0).movement.0 as int].to_lane,
        ).contains(theirs),
        paths_meet(&w.network, m, theirs),
    ensures
        w.box_taken(m, node),
{
    let o = w.rows()[j];
    let key = w.network.node_at(node).intersection;
    let cm = (o.crossing->0).movement;
    let path = w.inner_path(&o, w.network.landing(cm));
    let own = w.reserved_by(&o);
    if theirs == cm {
        assert(own[0] == cm);
    } else {
        let x = choose|x: int| 0 <= x < path.len() && path[x] == theirs;
        assert(own[x + 1] == theirs);
    }
    assert(own.contains(theirs));
    lemma_reserved(w, node, w.rows().len() as int, j, theirs);
    lemma_paths_meet(&w.network, m, theirs);
    let all = w.reserved(w.rows().len() as int, key, false);
    let x = choose|x: int| 0 <= x < all.len() && all[x] == theirs;
    assert(w.network.paths_cross(m, all[x]));
}

/// Entering is closed where the movement lands inside the junction, on a link off
/// which a movement's box is taken.
pub proof fn a_taken_box_further_in_closes_the_path(
    w: &NetWorld,
    v: &NetVehicle,
    m: MovementId,
    x: MovementId,
)
    requires
        runs_inside(&w.network, w.network.movements@[m.0 as int].to_lane),
        w.network.has_movement(x),
        w.network.lanes@[w.network.movements@[x.0 as int].from_lane.0 as int].link
            == w.network.lanes@[w.network.movements@[m.0 as int].to_lane.0 as int].link,
        w.box_taken(x, w.network.movements@[x.0 as int].node),
    ensures
        w.inner_taken(v, m),
{
    assert(w.committed_path(v, m)[0] == m);
    let at = w.network.movement_at(x).node;
    assert(w.network.link_of(w.network.movement_at(x).from_lane) == w.network.link_of(
        w.network.landing(m),
    ));
    assert(w.box_taken(x, at));
    assert(w.link_taken(w.network.link_of(w.network.landing(m))));
    assert(w.lands_on_taken(w.committed_path(v, m)[0]));
}

/// A movement that lands outside every junction commits to nothing further in.
pub proof fn a_landing_outside_commits_to_nothing(w: &NetWorld, v: &NetVehicle, m: MovementId)
    requires
        !runs_inside(&w.network, w.network.movements@[m.0 as int].to_lane),
    ensures
        !w.inner_taken(v, m),
        w.committed_path(v, m) == seq![m],
{
    assert(w.committed_path(v, m) =~= seq![m]);
}

/// A right turn at grade gives way exactly on red; a left exactly on the green of
/// its light, across a path that has no red; nobody who goes straight does, nor a
/// merge or diverge.
pub proof fn permissive_turns_give_way(w: &NetWorld, m: MovementId)
    ensures
        ({
            let mv = w.network.movements@[m.0 as int];
            &&& mv.interchange ==> !w.gives_way(m)
            &&& mv.turn == TurnType::Through ==> !w.gives_way(m)
            &&& !mv.interchange && mv.turn == TurnType::Right ==> (w.gives_way(m) <==> shows(
                w,
                m,
                SignalState::Red,
            ))
            &&& !mv.interchange && mv.turn == TurnType::Left ==> (w.gives_way(m) <==> mv.signal_group
                is Some && shows(w, m, SignalState::Green) && exists|k: int, other: MovementId|
                0 <= k < w.network.nodes@[mv.node.0 as int].conflicts@.len()
                    && #[trigger] crosses_there(w, m, mv.node, k, other) && !shows(
                    w,
                    other,
                    SignalState::Red,
                ))
        }),
{
    let mv = w.network.movements@[m.0 as int];
    if w.has_live_conflict(m) {
        let k = choose|k: int|
            0 <= k < w.network.node_at(mv.node).conflicts@.len() && #[trigger] w.is_live(
                mv.node,
                m,
                k,
            );
        let other = other_of(w.point(mv.node, k), m);
        assert(crosses_there(w, m, mv.node, k, other));
    }
    if exists|k: int, other: MovementId|
        0 <= k < w.network.nodes@[mv.node.0 as int].conflicts@.len() && #[trigger] crosses_there(
            w,
            m,
            mv.node,
            k,
            other,
        ) && !shows(w, other, SignalState::Red) {
        let (k, other) = choose|k: int, other: MovementId|
            0 <= k < w.network.nodes@[mv.node.0 as int].conflicts@.len() && #[trigger] crosses_there(
                w,
                m,
                mv.node,
                k,
                other,
            ) && !shows(w, other, SignalState::Red);
        assert(w.is_live(mv.node, m, k));
    }
}

/// A vehicle waits inside the box only for a left turn that gives way, deep enough
/// in it, with no other vehicle on the same movement; and then at the arc measured.
pub proof fn only_a_lone_left_turn_waits_inside(w: &NetWorld, i: int, m: MovementId, node: NodeId, hold: Quantity)
    ensures
        w.waiter_hold(i, m, node, hold) matches Some(h) ==> {
            &&& h == hold
            &&& w.network.movements@[m.0 as int].turn == TurnType::Left
            &&& w.gives_way(m)
            &&& w.first_live_arc(m, node) is Some
            &&& !hold.is_below(place(SHALLOWEST_HOLD))
            &&& forall|j: int|
                j != i && #[trigger] is_inside(w, j, node) ==> (w.rows()[j].crossing->0).movement != m
        },
        (w.network.movements@[m.0 as int].turn == TurnType::Left && w.gives_way(m)
            && w.first_live_arc(m, node) is Some && place(SHALLOWEST_HOLD).is_at_most(hold) && forall|j: int|
            j != i && #[trigger] is_inside(w, j, node) ==> (w.rows()[j].crossing->0).movement != m)
            ==> w.waiter_hold(i, m, node, hold) == Some(hold),
{
    let key = w.network.node_at(node).intersection;
    assert forall|j: int| j != i && #[trigger] is_inside(w, j, node) && (w.rows()[j].crossing->0).movement
        == m implies w.someone_waits(i, m, key) by {
        assert(w.crosses_at(key)(j));
    }
    if w.someone_waits(i, m, key) {
        let j = choose|j: int|
            0 <= j < w.rows().len() && j != i && #[trigger] w.crosses_at(key)(j) && (
            w.rows()[j].crossing->0).movement == m;
        assert(is_inside(w, j, node));
    }
}

/// The arc of the first live point is that of some live point, and none of a live
/// point is below it.
pub proof fn the_first_live_arc_is_the_least(w: &NetWorld, m: MovementId, node: NodeId)
    ensures
        w.first_live_arc(m, node) matches Some(arc) ==> {
            &&& arc.is_finite()
            &&& exists|k: int, other: MovementId|
                0 <= k < w.network.nodes@[node.0 as int].conflicts@.len()
                    && #[trigger] crosses_there(w, m, node, k, other) && !shows(
                    w,
                    other,
                    SignalState::Red,
                ) && arc_there(w, node, k, m) == arc
            &&& forall|k: int, other: MovementId|
                0 <= k < w.network.nodes@[node.0 as int].conflicts@.len()
                    && #[trigger] crosses_there(w, m, node, k, other) && !shows(
                    w,
                    other,
                    SignalState::Red,
                ) ==> !arc_there(w, node, k, m).is_below(arc)
        },
        w.first_live_arc(m, node) is None ==> forall|k: int, other: MovementId|
            0 <= k < w.network.nodes@[node.0 as int].conflicts@.len() && #[trigger] crosses_there(
                w,
                m,
                node,
                k,
                other,
            ) && arc_there(w, node, k, m).is_finite() && !shows(w, other, SignalState::Red) ==> exists|
                y: int,
                z: MovementId,
            |
                0 <= y < w.network.nodes@[node.0 as int].conflicts@.len()
                    && #[trigger] crosses_there(w, m, node, y, z) && !arc_there(
                    w,
                    node,
                    y,
                    m,
                ).is_finite(),
{
    let n = w.network.nodes@[node.0 as int].conflicts@.len() as int;
    lemma_live_arc(w, m, node, n);
    let arc = w.live_arc_upto(node, m, n);
    assert forall|k: int, other: MovementId|
        0 <= k < n && #[trigger] crosses_there(w, m, node, k, other) && !shows(
            w,
            other,
            SignalState::Red,
        ) implies w.is_live(node, m, k) && own_arc(w.point(node, k), m) == arc_there(
        w,
        node,
        k,
        m,
    ) by {}
    if arc.is_finite() {
        let k = choose|k: int|
            0 <= k < n && #[trigger] w.is_live(node, m, k) && own_arc(
                w.point(node, k),
                m,
            ) == arc;
        assert(crosses_there(w, m, node, k, other_of(w.point(node, k), m)));
    } else if arc != place(INFINITY) {
        let y = choose|k: int|
            0 <= k < n && #[trigger] w.is_live(node, m, k) && own_arc(
                w.point(node, k),
                m,
            ) == arc;
        assert(crosses_there(w, m, node, y, other_of(w.point(node, y), m)));
    }
}

proof fn lemma_live_arc(w: &NetWorld, m: MovementId, node: NodeId, n: int)
    requires
        0 <= n,
    ensures
        ({
            let arc = w.live_arc_upto(node, m, n);
            &&& !arc.is_nan() || arc == place(INFINITY)
            &&& arc == place(INFINITY) || exists|k: int|
                0 <= k < n && #[trigger] w.is_live(node, m, k) && own_arc(
                    w.point(node, k),
                    m,
                ) == arc
            &&& forall|k: int|
                0 <= k < n && #[trigger] w.is_live(node, m, k) ==> !own_arc(
                    w.point(node, k),
                    m,
                ).is_below(arc)
        }),
    decreases n,
{
    if n > 0 {
        lemma_live_arc(w, m, node, n - 1);
        let before = w.live_arc_upto(node, m, n - 1);
        let arc = w.live_arc_upto(node, m, n);
        let own = own_arc(w.point(node, n - 1), m);
        if w.is_live(node, m, n - 1) {
            assert(arc == before.lesser(own));
            if arc != before {
                assert(w.is_live(node, m, n - 1) && own == arc);
            }
        }
        if arc == before && arc != place(INFINITY) {
            let k = choose|k: int|
                0 <= k < n - 1 && #[trigger] w.is_live(node, m, k) && own_arc(
                    w.point(node, k),
                    m,
                ) == before;
            assert(w.is_live(node, m, k));
        }
    }
}

} // verus!
