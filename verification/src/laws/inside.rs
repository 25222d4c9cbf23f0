//! What a vehicle minds beyond its lane: who is ahead, who is first at a point, and
//! when it waits inside a node.

use vstd::prelude::*;

use crate::boxes::{CLAIM_REACH, meets_any};
use crate::crossing::CrossView;
use crate::fleet::NetVehicle;
use crate::laws::boxes::paths_meet;
use crate::laws::pressure::crosses_there;
use crate::laws::priority::joins;
use crate::laws::terms::{
    is_inside, nobody_is_behind_the_nearest_to_the_entrance, runs_inside, shows,
};
use crate::leading::{OtherAt, PointAhead, SIGNAL_LOOKAHEAD, claims_before};
use crate::neighbors::{MOVING_SPEED, Neighbors};
use crate::network::{LaneId, MovementId, Network, SignalState, TurnType};
use crate::quantity::{INFINITY, Quantity, ZERO, place};
use crate::search::{first_index, least_index, lemma_first_index, lemma_indices, lemma_least};
use crate::topology::{goes_through, straight_on};
use crate::world::NetWorld;

verus! {

/// Straight on from a lane is its first movement that goes straight, or its first
/// where none does; a lane without movements has none.
pub proof fn straight_on_is_straight_where_it_can_be(net: &Network, lane: LaneId)
    requires
        net.wf(),
        net.has_lane(lane),
    ensures
        ({
            let l = net.lanes@[lane.0 as int];
            match straight_on(net, lane) {
                Some(m) => {
                    &&& l.movement_start.0 <= m.0 < l.movement_start.0 + l.movement_count
                    &&& net.movements@[m.0 as int].turn == TurnType::Through ==> forall|x: int|
                        #![trigger net.movements@[x]]
                        l.movement_start.0 <= x < m.0 ==> net.movements@[x].turn != TurnType::Through
                    &&& net.movements@[m.0 as int].turn != TurnType::Through ==> m
                        == l.movement_start && forall|x: int|
                        #![trigger net.movements@[x]]
                        l.movement_start.0 <= x < l.movement_start.0 + l.movement_count
                            ==> net.movements@[x].turn != TurnType::Through
                },
                None => l.movement_count == 0,
            }
        }),
{
    let l = net.lanes@[lane.0 as int];
    let n = l.movement_count as int;
    let p = goes_through(net, lane);
    assert(net.lane_ok(lane.0 as int));
    lemma_first_index(0, n, p);
    if n > 0 {
        let r = first_index(0, n, p);
        assert forall|x: int|
            #![trigger net.movements@[x]]
            l.movement_start.0 <= x < l.movement_start.0 + n implies (net.movements@[x].turn
            == TurnType::Through <==> p(x - l.movement_start.0)) by {
            assert(net.nth_movement(lane, x - l.movement_start.0) == MovementId(x as u32));
        }
        if r is Some {
            assert(p(r->0));
            assert(net.movements@[l.movement_start.0 + r->0].turn == TurnType::Through);
        } else {
            assert(net.nth_movement(lane, 0) == l.movement_start);
        }
    }
}

/// The movement after number `k` goes straight on from where that one lands.
pub open spec fn goes_straight_on(w: &NetWorld, walk: Seq<MovementId>, k: int) -> bool {
    straight_on(&w.network, w.network.movements@[walk[k].0 as int].to_lane) == Some(walk[k + 1])
}

/// A walk straight on starts with the given movement, each next one goes straight on
/// from where the one before lands, and it ends only at its depth or where no
/// movement leads on.
pub proof fn a_walk_goes_straight_on(w: &NetWorld, m: MovementId, depth: nat)
    requires
        depth > 0,
    ensures
        ({
            let walk = w.walk_on(m, depth);
            &&& 1 <= walk.len() <= depth
            &&& walk[0] == m
            &&& forall|k: int| 0 <= k < walk.len() - 1 ==> #[trigger] goes_straight_on(w, walk, k)
            &&& walk.len() < depth ==> straight_on(
                &w.network,
                w.network.movements@[walk.last().0 as int].to_lane,
            ) is None
        }),
    decreases depth,
{
    let walk = w.walk_on(m, depth);
    let to = w.network.landing(m);
    match straight_on(&w.network, to) {
        Some(n) => {
            let rest = w.walk_on(n, (depth - 1) as nat);
            assert(walk == seq![m] + rest);
            if depth > 1 {
                a_walk_goes_straight_on(w, n, (depth - 1) as nat);
                assert(walk.last() == rest.last());
                assert forall|k: int| 0 <= k < walk.len() - 1 implies #[trigger] goes_straight_on(
                    w,
                    walk,
                    k,
                ) by {
                    if k > 0 {
                        assert(goes_straight_on(w, rest, k - 1));
                        assert(walk[k] == rest[k - 1] && walk[k + 1] == rest[k]);
                    } else {
                        assert(walk[1] == rest[0]);
                    }
                }
            } else {
                assert(walk =~= seq![m]);
            }
        },
        None => {
            assert(walk =~= seq![m]);
        },
    }
}

/// The vehicle found beyond the boundary is the rearmost on the first occupied
/// landing of the walk, no landing up to it being beyond the horizon.
pub proof fn the_first_beyond_the_boundary_is_found(
    w: &NetWorld,
    walk: Seq<MovementId>,
    dists: Seq<Quantity>,
    horizon: Quantity,
)
    requires
        walk.len() <= usize::MAX,
    ensures
        match w.far_leader(walk, dists, horizon) {
            Some(f) => {
                let to = w.network.movements@[walk[f.hop as int].0 as int].to_lane;
                &&& f.hop < walk.len()
                &&& f.row < w.rows().len()
                &&& w.rows()[f.row as int].lane == to
                &&& forall|x: int|
                    0 <= x < w.rows().len() && (#[trigger] w.rows()[x]).lane == to
                        ==> w.rows()[f.row as int].position.key <= w.rows()[x].position.key
                &&& forall|k: int| 0 <= k <= f.hop ==> !horizon.is_below(#[trigger] dists[k])
                &&& forall|k: int, x: int|
                    #![trigger walk[k], w.rows()[x]]
                    0 <= k < f.hop && 0 <= x < w.rows().len() ==> w.rows()[x].lane
                        != w.network.movements@[walk[k].0 as int].to_lane
            },
            None => forall|k: int, x: int|
                #![trigger walk[k], w.rows()[x]]
                0 <= k < walk.len() && 0 <= x < w.rows().len() && w.rows()[x].lane
                    == w.network.movements@[walk[k].0 as int].to_lane ==> exists|b: int|
                    0 <= b <= k && horizon.is_below(#[trigger] dists[b]),
        },
{
    let p = w.walk_ends(walk, dists, horizon);
    lemma_first_index(0, walk.len() as int, p);
    let r = first_index(0, walk.len() as int, p);
    assert forall|k: int, x: int|
        #![trigger walk[k], w.rows()[x]]
        0 <= k < walk.len() && 0 <= x < w.rows().len() && w.rows()[x].lane
            == w.network.movements@[walk[k].0 as int].to_lane implies p(k) by {
        nobody_is_behind_the_nearest_to_the_entrance(w, w.network.landing(walk[k]));
    }
    if r is Some {
        let e = r->0;
        nobody_is_behind_the_nearest_to_the_entrance(w, w.network.landing(walk[e]));
        assert forall|k: int| 0 <= k < e implies !horizon.is_below(#[trigger] dists[k]) by {
            assert(!p(k));
        }
        if horizon.is_below(dists[e]) {
            assert forall|k: int, x: int|
                #![trigger walk[k], w.rows()[x]]
                0 <= k < walk.len() && 0 <= x < w.rows().len() && w.rows()[x].lane
                    == w.network.movements@[walk[k].0 as int].to_lane implies exists|b: int|
                0 <= b <= k && horizon.is_below(#[trigger] dists[b]) by {
                assert(p(k));
                assert(horizon.is_below(dists[e]));
            }
        }
    }
}

/// Row `x` is another vehicle on the same path as row `i`, farther along, at a
/// finite gap.
pub open spec fn is_ahead_inside(w: &NetWorld, i: int, arcs: Seq<Quantity>, gaps: Seq<Quantity>, x: int) -> bool {
    &&& 0 <= x < w.rows().len()
    &&& x != i
    &&& w.rows()[x].crossing is Some
    &&& (w.rows()[x].crossing->0).movement == (w.rows()[i].crossing->0).movement
    &&& arcs[i].is_below(arcs[x])
    &&& gaps[x].is_below(place(INFINITY))
}

/// Inside a node a vehicle follows the nearest ahead on its own path, or whoever is
/// rearmost on the lane that it comes to when that one is nearer.
pub proof fn the_nearest_inside_is_followed(
    w: &NetWorld,
    i: int,
    arcs: Seq<Quantity>,
    gaps: Seq<Quantity>,
    front_gap: Quantity,
)
    requires
        0 <= i < w.rows().len(),
        w.rows()[i].crossing is Some,
    ensures
        ({
            let to = w.network.movements@[(w.rows()[i].crossing->0).movement.0 as int].to_lane;
            match w.path_leader(i, arcs, gaps, front_gap) {
                Some(l) => {
                    ||| (is_ahead_inside(w, i, arcs, gaps, l as int) && forall|x: int| #[trigger]
                        is_ahead_inside(w, i, arcs, gaps, x) ==> gaps[l as int].rank()
                            <= gaps[x].rank())
                    ||| (l < w.rows().len() && w.rows()[l as int].lane == to && front_gap.is_below(
                        place(INFINITY),
                    ) && forall|x: int| #[trigger]
                        is_ahead_inside(w, i, arcs, gaps, x) ==> front_gap.is_below(gaps[x]))
                },
                None => (forall|x: int| !#[trigger] is_ahead_inside(w, i, arcs, gaps, x)) && ((
                forall|x: int| 0 <= x < w.rows().len() ==> (#[trigger] w.rows()[x]).lane != to)
                    || !front_gap.is_below(place(INFINITY))),
            }
        }),
{
    assert(w.rows().len() == w.fleet.rows.len());
    let n = w.rows().len() as int;
    let m = (w.rows()[i].crossing->0).movement;
    let to = w.network.landing(m);
    let list = w.on_movement(m);
    let cost = w.ahead_on_path(i, list, arcs, gaps);
    lemma_indices(n, w.is_on(m.0));
    lemma_least(list.len() as int, cost);
    nobody_is_behind_the_nearest_to_the_entrance(w, to);
    let best = least_index(list.len() as int, cost);
    assert forall|x: int| #[trigger] is_ahead_inside(w, i, arcs, gaps, x) implies best is Some
        && gaps[list[best->0] as int].rank() <= gaps[x].rank() by {
        assert(w.is_on(m.0)(x));
        assert(list.contains(x as usize));
        let k = choose|k: int| 0 <= k < list.len() && list[k] == x as usize;
        assert(cost(k) is Some);
    }
    if best is Some {
        let k = best->0;
        assert(cost(k) is Some);
        assert(w.is_on(m.0)(list[k] as int));
        assert(is_ahead_inside(w, i, arcs, gaps, list[k] as int));
    }
}

/// Along a corridor the leader there is followed, inside nodes too.
pub proof fn along_a_corridor_its_leader_is_followed(
    w: &NetWorld,
    i: int,
    nb: &Neighbors,
    arcs: Seq<Quantity>,
    gaps: Seq<Quantity>,
    front_gap: Quantity,
)
    ensures
        w.stays_in_corridor((w.rows()[i].crossing->0).movement) ==> w.followed_inside(
            i,
            nb,
            arcs,
            gaps,
            front_gap,
        ) == nb.leader_of@[i],
        !w.stays_in_corridor((w.rows()[i].crossing->0).movement) ==> w.followed_inside(
            i,
            nb,
            arcs,
            gaps,
            front_gap,
        ) == w.path_leader(i, arcs, gaps, front_gap),
{
}

/// The other vehicle comes first at the point: its tail has not cleared it, it does
/// not stand well short of it, and it is nearer, or as near with the lower id.
pub open spec fn is_first_there(o: &NetVehicle, me: &NetVehicle, my_dist: Quantity, t: OtherAt) -> bool {
    &&& !t.dist.is_below(t.cleared)
    &&& !o.speed.is_below(place(MOVING_SPEED)) || !place(CLAIM_REACH).is_below(t.dist)
    &&& t.dist.is_below(my_dist) || (t.dist.is_same(my_dist) && o.id < me.id)
}

/// A crossing vehicle holds short of a point ahead of it exactly when some vehicle on
/// the other path of the point comes first there.
pub proof fn a_crosser_holds_short_for_who_is_first(w: &NetWorld, i: int, k: int, p: PointAhead, other: MovementId)
    requires
        crosses_there(
            w,
            (w.rows()[i].crossing->0).movement,
            w.network.movements@[(w.rows()[i].crossing->0).movement.0 as int].node,
            k,
            other,
        ),
        p.others@.len() == w.on_movement(other).len(),
    ensures
        w.holds_short(i, k, p) <==> !p.dist.is_at_most(place(ZERO)) && exists|x: int, a: int|
            #![trigger w.rows()[x], p.others@[a]]
            0 <= x < w.rows().len() && w.rows()[x].crossing is Some && (
            w.rows()[x].crossing->0).movement == other && 0 <= a < p.others@.len() && w.on_movement(
                other,
            )[a] == x as usize && is_first_there(&w.rows()[x], &w.rows()[i], p.dist, p.others@[a]),
{
    assert(w.rows().len() == w.fleet.rows.len());
    let me = &w.rows()[i];
    let list = w.on_movement(other);
    lemma_indices(w.rows().len() as int, w.is_on(other.0));
    if w.holds_short(i, k, p) {
        let a = choose|a: int|
            0 <= a < list.len() && claims_before(
                &w.rows()[list[a] as int],
                me,
                p.dist,
                #[trigger] p.others@[a],
            );
        assert(w.is_on(other.0)(list[a] as int));
        assert(is_first_there(&w.rows()[list[a] as int], me, p.dist, p.others@[a]));
    }
    if !p.dist.is_at_most(place(ZERO)) && exists|x: int, a: int|
        #![trigger w.rows()[x], p.others@[a]]
        0 <= x < w.rows().len() && w.rows()[x].crossing is Some && (w.rows()[x].crossing->0).movement
            == other && 0 <= a < p.others@.len() && list[a] == x as usize && is_first_there(
            &w.rows()[x],
            me,
            p.dist,
            p.others@[a],
        ) {
        let (x, a) = choose|x: int, a: int|
            #![trigger w.rows()[x], p.others@[a]]
            0 <= x < w.rows().len() && w.rows()[x].crossing is Some && (
            w.rows()[x].crossing->0).movement == other && 0 <= a < p.others@.len() && list[a]
                == x as usize && is_first_there(&w.rows()[x], me, p.dist, p.others@[a]);
        assert(claims_before(
            &w.rows()[list[a] as int],
            me,
            p.dist,
            p.others@[a],
        ));
    }
}

/// The rows listed on a movement are all who are on it, and nobody else.
pub proof fn all_on_a_movement_are_listed(w: &NetWorld, m: MovementId, x: int)
    requires
        0 <= x < w.rows().len(),
    ensures
        w.on_movement(m).contains(x as usize) <==> w.rows()[x].crossing is Some && (
        w.rows()[x].crossing->0).movement == m,
{
    assert(w.rows().len() == w.fleet.rows.len());
    let p = w.is_on(m.0);
    lemma_indices(w.rows().len() as int, p);
    assert(p(x) <==> w.rows()[x].crossing is Some && (w.rows()[x].crossing->0).movement == m);
    if w.on_movement(m).contains(x as usize) {
        let a = choose|a: int| 0 <= a < w.on_movement(m).len() && w.on_movement(m)[a] == x as usize;
        assert(p(w.on_movement(m)[a] as int));
    }
}

proof fn lemma_moving_reserved(w: &NetWorld, key: u32, n: int, m: MovementId)
    requires
        0 <= n <= w.rows().len(),
    ensures
        w.reserved(n, key, true).contains(m) <==> exists|j: int|
            #![trigger w.rows()[j]]
            0 <= j < n && w.crosses_at(key)(j) && place(MOVING_SPEED).is_at_most(w.rows()[j].speed)
                && w.reserved_by(&w.rows()[j]).contains(m),
    decreases n,
{
    if n > 0 {
        lemma_moving_reserved(w, key, n - 1, m);
        let before = w.reserved(n - 1, key, true);
        let now = w.reserved(n, key, true);
        let v = w.rows()[n - 1];
        if w.crosses_at(key)(n - 1) && place(MOVING_SPEED).is_at_most(v.speed) {
            let own = w.reserved_by(&v);
            assert(now == before + own);
            assert(now.contains(m) <==> before.contains(m) || own.contains(m)) by {
                if before.contains(m) {
                    let a = choose|a: int| 0 <= a < before.len() && before[a] == m;
                    assert(now[a] == m);
                }
                if own.contains(m) {
                    let a = choose|a: int| 0 <= a < own.len() && own[a] == m;
                    assert(now[before.len() + a] == m);
                }
                if now.contains(m) {
                    let a = choose|a: int| 0 <= a < now.len() && now[a] == m;
                    if a < before.len() {
                        assert(before[a] == m);
                    } else {
                        assert(own[a - before.len()] == m);
                    }
                }
            }
        } else {
            assert(now == before);
        }
        if exists|j: int|
            #![trigger w.rows()[j]]
            0 <= j < n && w.crosses_at(key)(j) && place(MOVING_SPEED).is_at_most(w.rows()[j].speed)
                && w.reserved_by(&w.rows()[j]).contains(m) {
            let j = choose|j: int|
                #![trigger w.rows()[j]]
                0 <= j < n && w.crosses_at(key)(j) && place(MOVING_SPEED).is_at_most(
                    w.rows()[j].speed,
                ) && w.reserved_by(&w.rows()[j]).contains(m);
            if j == n - 1 {
                assert(now.contains(m));
            } else {
                assert(before.contains(m));
            }
        }
        if now.contains(m) && !before.contains(m) {
            assert(w.rows()[n - 1] == v);
        }
    }
}

/// The next hop of a crossing vehicle is taken exactly when it lies inside the
/// junction and somebody moving there is on, or will come to, a path that meets it.
pub proof fn the_next_hop_is_taken_by_moving_traffic(w: &NetWorld, v: &NetVehicle, next: MovementId)
    requires
        w.onward(v, w.network.movements@[(v.crossing->0).movement.0 as int].to_lane) == Some(next),
    ensures
        w.next_hop_taken(v) <==> runs_inside(
            &w.network,
            w.network.movements@[(v.crossing->0).movement.0 as int].to_lane,
        ) && exists|j: int, theirs: MovementId|
            #![trigger w.rows()[j], paths_meet(&w.network, next, theirs)]
            is_inside(w, j, w.network.movements@[next.0 as int].node) && place(MOVING_SPEED).is_at_most(
                w.rows()[j].speed,
            ) && w.committed_path(&w.rows()[j], (w.rows()[j].crossing->0).movement).contains(theirs)
                && paths_meet(&w.network, next, theirs),
{
    let net = &w.network;
    let node = net.movements@[next.0 as int].node;
    let key = net.node_at(node).intersection;
    let n = w.rows().len() as int;
    let all = w.reserved(n, key, true);
    if meets_any(net, next, all) {
        let a = choose|a: int| 0 <= a < all.len() && net.paths_cross(next, #[trigger] all[a]);
        let theirs = all[a];
        assert(all.contains(theirs));
        lemma_moving_reserved(w, key, n, theirs);
        let j = choose|j: int|
            #![trigger w.rows()[j]]
            0 <= j < n && w.crosses_at(key)(j) && place(MOVING_SPEED).is_at_most(w.rows()[j].speed)
                && w.reserved_by(&w.rows()[j]).contains(theirs);
        assert(is_inside(w, j, node));
        let c = choose|c: int|
            0 <= c < net.conflicts@.len() && Network::pairs(#[trigger] net.conflicts@[c], next, theirs);
        assert(joins(net.conflicts@[c], next, theirs));
        assert(paths_meet(net, next, theirs));
    }
    if exists|j: int, theirs: MovementId|
        #![trigger w.rows()[j], paths_meet(net, next, theirs)]
        is_inside(w, j, node) && place(MOVING_SPEED).is_at_most(w.rows()[j].speed)
            && w.committed_path(&w.rows()[j], (w.rows()[j].crossing->0).movement).contains(theirs)
            && paths_meet(net, next, theirs) {
        let (j, theirs) = choose|j: int, theirs: MovementId|
            #![trigger w.rows()[j], paths_meet(net, next, theirs)]
            is_inside(w, j, node) && place(MOVING_SPEED).is_at_most(w.rows()[j].speed)
                && w.committed_path(&w.rows()[j], (w.rows()[j].crossing->0).movement).contains(theirs)
                && paths_meet(net, next, theirs);
        assert(w.crosses_at(key)(j));
        assert(w.reserved_by(&w.rows()[j]).contains(theirs));
        lemma_moving_reserved(w, key, n, theirs);
        let a = choose|a: int| 0 <= a < all.len() && all[a] == theirs;
        let c = choose|c: int| #![trigger net.conflicts@[c]]
            0 <= c < net.conflicts@.len() && joins(
                net.conflicts@[c],
                next,
                theirs,
            );
        assert(Network::pairs(net.conflicts@[c], next, theirs));
        assert(net.paths_cross(next, all[a]));
    }
}

/// A left turner under a light that is under pressure, before the place where it can
/// still stop, brakes at least as waiting there asks.
pub proof fn a_pressed_left_turn_waits_inside(w: &NetWorld, i: int, g: &CrossView)
    requires
        !g.follow.is_nan(),
        !g.wait_hold.is_nan(),
        ({
            let m = (w.rows()[i].crossing->0).movement;
            let mv = w.network.movements@[m.0 as int];
            &&& mv.turn == TurnType::Left
            &&& mv.signal_group is Some
            &&& w.first_live_arc(m, mv.node) is Some
            &&& g.arc.is_below(g.brink)
            &&& w.under_pressure(i, m, mv.node, g.pressure@)
        }),
    ensures
        w.crossing_rate(i, g).is_at_most(g.wait_hold),
{
    let hop = if w.next_hop_taken(&w.rows()[i]) {
        g.follow.lesser(g.hop_hold)
    } else {
        g.follow
    };
    lemma_short(w, i, g, hop.lesser(g.wait_hold), g.ahead@.len() as int);
}

/// A vehicle whose next hop inside the junction is taken brakes at least as holding at
/// the end of its path asks.
pub proof fn a_taken_hop_is_held_for(w: &NetWorld, i: int, g: &CrossView)
    requires
        !g.follow.is_nan(),
        !g.hop_hold.is_nan(),
        w.next_hop_taken(&w.rows()[i]),
    ensures
        w.crossing_rate(i, g).is_at_most(g.hop_hold),
{
    let hop = g.follow.lesser(g.hop_hold);
    let waited = if w.waits_inside(i, g) {
        hop.lesser(g.wait_hold)
    } else {
        hop
    };
    lemma_short(w, i, g, waited, g.ahead@.len() as int);
}

/// A vehicle with nothing to mind inside the node only follows its leader.
pub proof fn a_crosser_with_nothing_to_mind_follows(w: &NetWorld, i: int, g: &CrossView)
    requires
        !w.next_hop_taken(&w.rows()[i]),
        ({
            let m = (w.rows()[i].crossing->0).movement;
            let mv = w.network.movements@[m.0 as int];
            mv.turn != TurnType::Left || mv.signal_group is None || !g.arc.is_below(g.brink)
                || !w.under_pressure(i, m, mv.node, g.pressure@)
        }),
        forall|k: int| 0 <= k < g.ahead@.len() ==> !w.holds_short(i, k, #[trigger] g.ahead@[k]),
    ensures
        w.crossing_rate(i, g) == g.follow,
{
    lemma_nothing_short(w, i, g, g.follow, g.ahead@.len() as int);
}

proof fn lemma_short(w: &NetWorld, i: int, g: &CrossView, start: Quantity, n: int)
    requires
        !start.is_nan(),
    ensures
        w.held_short(i, g, start, n).is_at_most(start),
    decreases n,
{
    if n > 0 {
        lemma_short(w, i, g, start, n - 1);
    }
}

proof fn lemma_nothing_short(w: &NetWorld, i: int, g: &CrossView, start: Quantity, n: int)
    requires
        n <= g.ahead@.len(),
        forall|k: int| 0 <= k < g.ahead@.len() ==> !w.holds_short(i, k, #[trigger] g.ahead@[k]),
    ensures
        w.held_short(i, g, start, n) == start,
    decreases n,
{
    if n > 0 {
        lemma_nothing_short(w, i, g, start, n - 1);
        assert(!w.holds_short(i, n - 1, g.ahead@[n - 1]));
    }
}

/// The red light beyond is the first one after the vehicle's own movement, at the
/// distance where it stands; none is seen behind a red at hand, nor past the
/// lookahead.
pub proof fn the_first_red_beyond_is_seen(
    w: &NetWorld,
    v: &NetVehicle,
    m: MovementId,
    first: Quantity,
    second: Quantity,
)
    ensures
        shows(w, m, SignalState::Red) ==> w.red_beyond(v, Some(m), first, second) is None,
        place(SIGNAL_LOOKAHEAD).is_below(first) ==> w.red_beyond(v, Some(m), first, second) is None,
        ({
            let next = w.intended_from(v, w.network.movements@[m.0 as int].to_lane);
            &&& next is None ==> w.red_beyond(v, Some(m), first, second) is None
            &&& next is Some && !shows(w, m, SignalState::Red) && !place(
                SIGNAL_LOOKAHEAD,
            ).is_below(first) ==> {
                let after = w.intended_from(v, w.network.movements@[(next->0).0 as int].to_lane);
                &&& shows(w, next->0, SignalState::Red) ==> w.red_beyond(v, Some(m), first, second)
                    == Some(first)
                &&& !shows(w, next->0, SignalState::Red) ==> (w.red_beyond(v, Some(m), first, second)
                    == Some(second) <==> !place(SIGNAL_LOOKAHEAD).is_below(second) && after is Some
                    && shows(w, after->0, SignalState::Red)) && (w.red_beyond(
                    v,
                    Some(m),
                    first,
                    second,
                ) is Some ==> w.red_beyond(v, Some(m), first, second) == Some(second))
            }
        }),
        w.red_beyond(v, None, first, second) is None,
{
}

} // verus!
