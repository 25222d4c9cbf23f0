//! Which lane a vehicle means to be in, and what it finds beside it.

use vstd::prelude::*;
use vstd::relations::sorted_by;

use crate::fleet::NetVehicle;
use crate::lanes::{
    LaneOptions, LaneScore, LaneView, best_option, chain_depth, depth_is_the_longest_chain,
    follows,
};
use crate::laws::terms::{
    leads_to, the_first_movement_onto_a_link_is_found, the_last_index_is_the_last,
};
use crate::neighbors::{keys_of, positions};
use crate::network::{LaneId, LinkId, MovementId};
use crate::paths::LANE_ROUTE_DEPTH;
use crate::quantity::Quantity;
use crate::search::{first_index, indices_where, last_index, lemma_first_index, lemma_indices};
use crate::sorting::{by_key, lemma_sorted_members};
use crate::world::NetWorld;

verus! {

/// The vehicle is inside the window in which it has to be `d` lanes farther right.
pub open spec fn has_to_cross(w: &NetWorld, v: &NetVehicle, view: &LaneView, d: int) -> bool {
    let far = if d < 0 {
        -d
    } else {
        d
    };
    &&& w.lanes_over(v) == Some(d)
    &&& view.to_node.is_below(view.far_window)
    &&& view.to_node.is_below(view.windows@[far])
}

/// A vehicle that has to be in a lane farther right must move right and need not
/// move left; one that has to be farther left must move left and need not move
/// right; one that is in the right lane need do neither.
pub proof fn the_side_that_the_path_needs_is_mandatory(
    w: &NetWorld,
    i: int,
    view: &LaneView,
    hov_ok: bool,
    d: int,
)
    requires
        has_to_cross(w, &w.rows()[i], view, d),
    ensures
        w.option_on(i, view, hov_ok, 1) matches Some(o) ==> (o.mandatory <==> d > 0),
        w.option_on(i, view, hov_ok, -1) matches Some(o) ==> (o.mandatory <==> d < 0),
{
}

/// Such a move is always offered where the lane beside exists and is open to the
/// vehicle: the lane offered is the next one on that side.
pub proof fn a_needed_move_is_offered(w: &NetWorld, i: int, view: &LaneView, hov_ok: bool, d: int, side: int)
    requires
        w.wf(),
        0 <= i < w.rows().len(),
        has_to_cross(w, &w.rows()[i], view, d),
        (side == 1 && d > 0) || (side == -1 && d < 0),
        !w.network.lanes@[w.rows()[i].lane.0 + side].hov || hov_ok,
        0 <= w.network.lanes@[w.rows()[i].lane.0 as int].index_in_link + side
            < w.network.links@[w.network.lanes@[w.rows()[i].lane.0 as int].link.0 as int].lane_count,
    ensures
        w.option_on(i, view, hov_ok, side) matches Some(o) && o.mandatory && o.target.0
            == w.rows()[i].lane.0 + side,
{
    let net = &w.network;
    assert(w.rows()[i].placed(net));
    assert(net.lane_ok(w.rows()[i].lane.0 as int));
    assert(net.link_ok(net.link_of(w.rows()[i].lane).0 as int));
}

/// Nobody is offered a move off the side of the road.
pub proof fn there_is_no_lane_off_the_road(w: &NetWorld, i: int, view: &LaneView, hov_ok: bool, side: int)
    requires
        w.option_on(i, view, hov_ok, side) is Some,
    ensures
        0 <= w.network.lanes@[w.rows()[i].lane.0 as int].index_in_link + side
            < w.network.links@[w.network.lanes@[w.rows()[i].lane.0 as int].link.0 as int].lane_count,
{
}

/// Where no window binds, a move is mandatory exactly when the lane that the
/// vehicle is in does not lead to the next link on its path and the other does.
pub proof fn outside_the_windows_only_the_next_link_counts(
    w: &NetWorld,
    i: int,
    view: &LaneView,
    hov_ok: bool,
    side: int,
    next: LinkId,
)
    requires
        w.wf(),
        w.guides(),
        0 <= i < w.rows().len(),
        side == 1 || side == -1,
        w.next_on_path(&w.rows()[i]) == Some(next),
        !view.to_node.is_below(view.far_window),
        w.option_on(i, view, hov_ok, side) is Some,
    ensures
        ({
            let o = w.option_on(i, view, hov_ok, side)->0;
            o.mandatory <==> !leads_to(&w.network, w.rows()[i].lane, next) && leads_to(
                &w.network,
                o.target,
                next,
            )
        }),
{
    let net = &w.network;
    assert(w.rows()[i].placed(net));
    assert(net.lane_ok(w.rows()[i].lane.0 as int));
    assert(net.link_ok(net.link_of(w.rows()[i].lane).0 as int));
    let o = w.option_on(i, view, hov_ok, side)->0;
    assert(net.has_lane(o.target));
    the_first_movement_onto_a_link_is_found(net, w.rows()[i].lane, next);
    the_first_movement_onto_a_link_is_found(net, o.target, next);
}

/// A vehicle without a path is never made to move over.
pub proof fn without_a_path_no_move_is_mandatory(w: &NetWorld, i: int, view: &LaneView, hov_ok: bool, side: int)
    requires
        w.next_on_path(&w.rows()[i]) is None,
    ensures
        w.option_on(i, view, hov_ok, side) matches Some(o) ==> !o.mandatory,
{
}

/// Near the node a vehicle is never offered a free move into a lane that follows
/// its path less far: where the lane it is in can follow the path for all of a
/// chain of movements that the other cannot, a move there is mandatory or not
/// offered.
pub proof fn a_free_move_keeps_to_the_path(
    w: &NetWorld,
    i: int,
    view: &LaneView,
    hov_ok: bool,
    side: int,
    next: LinkId,
    s: Seq<MovementId>,
)
    requires
        w.wf(),
        w.guides(),
        0 <= i < w.rows().len(),
        side == 1 || side == -1,
        view.to_node.is_below(view.far_window),
        w.next_on_path(&w.rows()[i]) == Some(next),
        w.option_on(i, view, hov_ok, side) matches Some(o) && !o.mandatory,
        follows(&w.network, w.rows()[i].lane, s, w.hops_from(&w.rows()[i], next)),
    ensures
        exists|t: Seq<MovementId>|
            t.len() >= s.len() && #[trigger] follows(
                &w.network,
                (w.option_on(i, view, hov_ok, side)->0).target,
                t,
                w.hops_from(&w.rows()[i], next),
            ),
{
    let net = &w.network;
    assert(w.rows()[i].placed(net));
    assert(net.lane_ok(w.rows()[i].lane.0 as int));
    assert(net.link_ok(net.link_of(w.rows()[i].lane).0 as int));
    let o = w.option_on(i, view, hov_ok, side)->0;
    let hops = w.hops_from(&w.rows()[i], next);
    depth_is_the_longest_chain(net, w.rows()[i].lane, hops, s);
    depth_is_the_longest_chain(net, o.target, hops, s);
    assert(chain_depth(net, o.target, hops) >= chain_depth(net, w.rows()[i].lane, hops));
    let t = choose|t: Seq<MovementId>|
        t.len() == chain_depth(net, o.target, hops) && #[trigger] follows(net, o.target, t, hops);
    assert(t.len() >= s.len());
}

/// And one into a lane that follows its path as far is offered, where the lane is
/// there and open to the vehicle.
pub proof fn a_free_move_as_good_is_offered(
    w: &NetWorld,
    i: int,
    view: &LaneView,
    hov_ok: bool,
    side: int,
    next: LinkId,
    t: Seq<MovementId>,
)
    requires
        w.wf(),
        w.guides(),
        0 <= i < w.rows().len(),
        side == 1 || side == -1,
        0 <= w.network.lanes@[w.rows()[i].lane.0 as int].index_in_link + side
            < w.network.links@[w.network.lanes@[w.rows()[i].lane.0 as int].link.0 as int].lane_count,
        !w.network.lanes@[w.rows()[i].lane.0 + side].hov || hov_ok,
        w.next_on_path(&w.rows()[i]) == Some(next),
        follows(
            &w.network,
            LaneId((w.rows()[i].lane.0 + side) as u32),
            t,
            w.hops_from(&w.rows()[i], next),
        ),
        forall|s: Seq<MovementId>| #[trigger]
            follows(&w.network, w.rows()[i].lane, s, w.hops_from(&w.rows()[i], next)) ==> s.len()
                <= t.len(),
    ensures
        w.option_on(i, view, hov_ok, side) matches Some(o) && o.target.0 == w.rows()[i].lane.0 + side,
{
    let net = &w.network;
    let own = w.rows()[i].lane;
    assert(w.rows()[i].placed(net));
    assert(net.lane_ok(own.0 as int));
    assert(net.link_ok(net.link_of(own).0 as int));
    let beside = LaneId((own.0 + side) as u32);
    assert(net.has_lane(beside));
    let hops = w.hops_from(&w.rows()[i], next);
    depth_is_the_longest_chain(net, own, hops, t);
    depth_is_the_longest_chain(net, beside, hops, t);
    let s = choose|s: Seq<MovementId>|
        s.len() == chain_depth(net, own, hops) && #[trigger] follows(net, own, s, hops);
    assert(chain_depth(net, own, hops) <= chain_depth(net, beside, hops));
}

/// Far from the node, or without a path, every lane beside that is open is offered.
pub proof fn far_from_the_node_every_lane_is_offered(w: &NetWorld, i: int, view: &LaneView, hov_ok: bool, side: int)
    requires
        w.wf(),
        0 <= i < w.rows().len(),
        side == 1 || side == -1,
        0 <= w.network.lanes@[w.rows()[i].lane.0 as int].index_in_link + side
            < w.network.links@[w.network.lanes@[w.rows()[i].lane.0 as int].link.0 as int].lane_count,
        !w.network.lanes@[w.rows()[i].lane.0 + side].hov || hov_ok,
        !view.to_node.is_below(view.far_window) || w.next_on_path(&w.rows()[i]) is None,
    ensures
        w.option_on(i, view, hov_ok, side) matches Some(o) && o.target.0 == w.rows()[i].lane.0 + side,
{
    let net = &w.network;
    assert(w.rows()[i].placed(net));
    assert(net.lane_ok(w.rows()[i].lane.0 as int));
    assert(net.link_ok(net.link_of(w.rows()[i].lane).0 as int));
}

/// A lane's rolling list holds exactly the rows that roll on it, in order.
pub proof fn a_lane_lists_its_rolling_vehicles_in_order(w: &NetWorld, lane: u32)
    ensures
        forall|j: int|
            0 <= j < w.rows().len() ==> (#[trigger] w.rolling_order(lane).contains(j as usize)
                <==> w.rows()[j].lane.0 == lane && w.rows()[j].crossing is None),
        forall|a: int|
            0 <= a < w.rolling_order(lane).len() ==> (#[trigger] w.rolling_order(lane)[a])
                < w.rows().len(),
        forall|a: int, b: int|
            #![trigger w.rolling_order(lane)[a], w.rolling_order(lane)[b]]
            0 <= a < b < w.rolling_order(lane).len() ==> w.rolling_order(lane)[a]
                != w.rolling_order(lane)[b] && w.rows()[w.rolling_order(lane)[a] as int].position.key
                <= w.rows()[w.rolling_order(lane)[b] as int].position.key,
{
    assert(w.rows().len() == w.fleet.rows.len());
    let n = w.rows().len() as int;
    let p = w.rolls_on(lane);
    let raw = indices_where(n, p);
    let keys = keys_of(positions(w.rows()));
    lemma_indices(n, p);
    assert forall|a: int, b: int| 0 <= a < raw.len() && 0 <= b < raw.len() && a != b implies raw[a]
        != raw[b] by {
        if a < b {
            assert(raw[a] < raw[b]);
        } else {
            assert(raw[b] < raw[a]);
        }
    }
    assert(raw.no_duplicates());
    lemma_sorted_members(raw, keys);
    let s = w.rolling_order(lane);
    assert(s == raw.sort_by(by_key(keys)));
    assert forall|j: int| 0 <= j < n implies (#[trigger] s.contains(j as usize) <==> w.rows()[j].lane.0
        == lane && w.rows()[j].crossing is None) by {
        assert(p(j) <==> w.rows()[j].lane.0 == lane && w.rows()[j].crossing is None);
        assert(s.contains(j as usize) <==> raw.contains(j as usize));
        if raw.contains(j as usize) {
            let b = choose|b: int| 0 <= b < raw.len() && raw[b] == j as usize;
            assert(p(raw[b] as int));
        }
    }
    assert forall|a: int| 0 <= a < s.len() implies (#[trigger] s[a]) < n by {
        assert(s.contains(s[a]));
        assert(raw.contains(s[a]));
        let b = choose|b: int| 0 <= b < raw.len() && raw[b] == s[a];
        assert(raw[b] < n);
    }
    assert forall|a: int, b: int| #![trigger s[a], s[b]] 0 <= a < b < s.len() implies s[a] != s[b]
        && w.rows()[s[a] as int].position.key <= w.rows()[s[b] as int].position.key by {
        assert(sorted_by(s, by_key(keys)));
        assert(by_key(keys)(s[a], s[b]));
        assert(s[a] < n && s[b] < n);
        assert(keys[s[a] as int] == w.rows()[s[a] as int].position.key as i128);
        assert(keys[s[b] as int] == w.rows()[s[b] as int].position.key as i128);
    }
}

/// Row `x`, not the one left out, rolls on the lane.
pub open spec fn rolls_there(w: &NetWorld, lane: LaneId, out: usize, x: int) -> bool {
    0 <= x < w.rows().len() && x != out && w.rows()[x].lane == lane && w.rows()[x].crossing is None
}

/// The vehicle found ahead of a position rolls on the lane, is not at or behind the
/// position, and is the nearest such; where none is found there is none.
pub proof fn the_nearest_ahead_is_found(w: &NetWorld, lane: LaneId, pos: Quantity, out: usize)
    ensures
        match w.first_ahead(w.rolling_order(lane.0), pos, out) {
            Some(a) => rolls_there(w, lane, out, a as int) && !w.rows()[a as int].position.is_at_most(
                pos,
            ) && forall|x: int| #[trigger]
                rolls_there(w, lane, out, x) && !w.rows()[x].position.is_at_most(pos)
                    ==> w.rows()[a as int].position.key <= w.rows()[x].position.key,
            None => forall|x: int| #[trigger]
                rolls_there(w, lane, out, x) ==> w.rows()[x].position.is_at_most(pos),
        },
{
    let list = w.rolling_order(lane.0);
    let p = w.is_ahead(list, pos, out);
    assert(w.rows().len() == w.fleet.rows.len());
    a_lane_lists_its_rolling_vehicles_in_order(w, lane.0);
    lemma_first_index(0, list.len() as int, p);
    let r = first_index(0, list.len() as int, p);
    if r is Some {
        assert(p(r->0));
        assert(list.contains(list[r->0] as int as usize));
    }
    assert forall|x: int| #[trigger]
        rolls_there(w, lane, out, x) && !w.rows()[x].position.is_at_most(pos) implies r is Some
        && w.rows()[list[r->0] as int].position.key <= w.rows()[x].position.key by {
        assert(list.contains(x as usize));
        let a = choose|a: int| 0 <= a < list.len() && list[a] == x as usize;
        assert(p(a));
        if r->0 < a {
            assert(w.rows()[list[r->0] as int].position.key <= w.rows()[list[a] as int].position.key);
        }
    }
}

/// The vehicle found behind a position rolls on the lane, is behind the position,
/// and is the nearest such; where none is found there is none.
pub proof fn the_nearest_behind_is_found(w: &NetWorld, lane: LaneId, pos: Quantity, out: usize)
    ensures
        match w.last_behind(w.rolling_order(lane.0), pos, out) {
            Some(a) => rolls_there(w, lane, out, a as int) && w.rows()[a as int].position.is_below(
                pos,
            ) && forall|x: int| #[trigger]
                rolls_there(w, lane, out, x) && w.rows()[x].position.is_below(pos)
                    ==> w.rows()[x].position.key <= w.rows()[a as int].position.key,
            None => forall|x: int| #[trigger]
                rolls_there(w, lane, out, x) ==> !w.rows()[x].position.is_below(pos),
        },
{
    let list = w.rolling_order(lane.0);
    let p = w.is_behind(list, pos, out);
    assert(w.rows().len() == w.fleet.rows.len());
    a_lane_lists_its_rolling_vehicles_in_order(w, lane.0);
    the_last_index_is_the_last(list.len() as int, p);
    let r = last_index(list.len() as int, p);
    if r is Some {
        assert(p(r->0));
        assert(list.contains(list[r->0] as int as usize));
    }
    assert forall|x: int| #[trigger]
        rolls_there(w, lane, out, x) && w.rows()[x].position.is_below(pos) implies r is Some
        && w.rows()[x].position.key <= w.rows()[list[r->0] as int].position.key by {
        assert(list.contains(x as usize));
        let a = choose|a: int| 0 <= a < list.len() && list[a] == x as usize;
        assert(p(a));
        if a < r->0 {
            assert(w.rows()[list[a] as int].position.key <= w.rows()[list[r->0] as int].position.key);
        }
    }
}

/// An option names the nearest vehicles ahead and behind in its lane, and whom the
/// one behind follows now.
pub proof fn an_option_names_its_neighbours(w: &NetWorld, i: int, view: &LaneView, hov_ok: bool, side: int)
    requires
        0 <= i < w.rows().len(),
    ensures
        w.option_on(i, view, hov_ok, side) matches Some(o) ==> {
            let at = w.rows()[i].position;
            &&& o.ahead matches Some(a) ==> rolls_there(w, o.target, i as usize, a as int)
                && !w.rows()[a as int].position.is_at_most(at)
            &&& forall|x: int| #[trigger]
                rolls_there(w, o.target, i as usize, x) && !w.rows()[x].position.is_at_most(at)
                    ==> o.ahead is Some && w.rows()[o.ahead->0 as int].position.key
                    <= w.rows()[x].position.key
            &&& o.behind matches Some(a) ==> rolls_there(w, o.target, i as usize, a as int)
                && w.rows()[a as int].position.is_below(at)
            &&& forall|x: int| #[trigger]
                rolls_there(w, o.target, i as usize, x) && w.rows()[x].position.is_below(at)
                    ==> o.behind is Some && w.rows()[x].position.key
                    <= w.rows()[o.behind->0 as int].position.key
            &&& o.behind is None ==> o.behind_leader is None
            &&& o.behind is Some ==> forall|x: int| #[trigger]
                rolls_there(w, o.target, i as usize, x) && !w.rows()[x].position.is_at_most(
                    w.rows()[o.behind->0 as int].position,
                ) ==> o.behind_leader is Some && w.rows()[o.behind_leader->0 as int].position.key
                    <= w.rows()[x].position.key
            &&& o.behind_leader matches Some(a) ==> rolls_there(w, o.target, i as usize, a as int)
                && !w.rows()[a as int].position.is_at_most(w.rows()[o.behind->0 as int].position)
        },
{
    let r = w.option_on(i, view, hov_ok, side);
    if r is Some {
        let o = r->0;
        the_nearest_ahead_is_found(w, o.target, w.rows()[i].position, i as usize);
        the_nearest_behind_is_found(w, o.target, w.rows()[i].position, i as usize);
        if o.behind is Some {
            the_nearest_ahead_is_found(
                w,
                o.target,
                w.rows()[o.behind->0 as int].position,
                i as usize,
            );
        }
    }
}

/// Of two moves that a driver would take the one with more to gain is made, the
/// left one when neither has; a move alone is made; none is made that was not
/// offered or that the driver would not take.
pub proof fn the_better_move_is_made(options: LaneOptions, left: LaneScore, right: LaneScore)
    ensures
        options.left is Some && left.take && options.right is Some && right.take ==> best_option(
            options,
            left,
            right,
        ) == Some(
            if left.gain.is_below(right.gain) {
                (options.right->0).target
            } else {
                (options.left->0).target
            },
        ),
        options.left is Some && left.take && !(options.right is Some && right.take) ==> best_option(
            options,
            left,
            right,
        ) == Some((options.left->0).target),
        !(options.left is Some && left.take) && options.right is Some && right.take ==> best_option(
            options,
            left,
            right,
        ) == Some((options.right->0).target),
        !(options.left is Some && left.take) && !(options.right is Some && right.take)
            ==> best_option(options, left, right) is None,
{
}

/// A vehicle with a destination goes where the router says; one without, or
/// without a router, along its route.
pub proof fn the_next_link_is_the_routers_or_the_routes(w: &NetWorld, v: &NetVehicle)
    ensures
        v.dest is Some && w.router is Some ==> w.next_on_path(v) == w.router->0.hop(
            v.dest->0,
            w.network.lanes@[v.lane.0 as int].link,
        ),
        v.dest is None || w.router is None ==> w.next_on_path(v) == (if v.route_idx + 1
            < v.route@.len() {
            Some(v.route@[v.route_idx + 1])
        } else {
            None
        }),
{
}

/// The link after number `k` is the router's hop from that one.
pub open spec fn hops_on(w: &NetWorld, dest: LinkId, hops: Seq<LinkId>, k: int) -> bool {
    w.router->0.hop(dest, hops[k]) == Some(hops[k + 1])
}

proof fn lemma_chain(w: &NetWorld, v: &NetVehicle, link: LinkId, n: nat)
    requires
        v.dest is Some,
        w.router is Some,
    ensures
        ({
            let all = seq![link] + w.field_chain(v, link, n);
            &&& 1 <= all.len() <= n + 1
            &&& forall|k: int| 0 <= k < all.len() - 1 ==> #[trigger] hops_on(w, v.dest->0, all, k)
            &&& all.len() < n + 1 ==> w.router->0.hop(v.dest->0, all.last()) is None
        }),
    decreases n,
{
    let dest = v.dest->0;
    let all = seq![link] + w.field_chain(v, link, n);
    if n > 0 {
        match w.field_hop(v, link) {
            Some(l) => {
                lemma_chain(w, v, l, (n - 1) as nat);
                let rest = seq![l] + w.field_chain(v, l, (n - 1) as nat);
                assert(all =~= seq![link] + rest);
                assert forall|k: int| 0 <= k < all.len() - 1 implies #[trigger] hops_on(
                    w,
                    dest,
                    all,
                    k,
                ) by {
                    if k > 0 {
                        assert(hops_on(w, dest, rest, k - 1));
                        assert(all[k] == rest[k - 1] && all[k + 1] == rest[k]);
                    } else {
                        assert(all[1] == rest[0]);
                    }
                }
                assert(all.last() == rest.last());
            },
            None => {
                assert(all =~= seq![link]);
            },
        }
    } else {
        assert(all =~= seq![link]);
    }
}

/// The links that lane choice looks at are the next ones on the path, in order, as
/// many as there are up to the depth.
pub proof fn the_hops_ahead_are_the_path(w: &NetWorld, v: &NetVehicle, next: LinkId)
    requires
        w.next_on_path(v) == Some(next),
    ensures
        ({
            let hops = w.hops_from(v, next);
            &&& 1 <= hops.len() <= LANE_ROUTE_DEPTH
            &&& hops[0] == next
            &&& v.dest is Some && w.router is Some ==> (forall|k: int|
                0 <= k < hops.len() - 1 ==> #[trigger] hops_on(w, v.dest->0, hops, k)) && (hops.len()
                < LANE_ROUTE_DEPTH ==> w.router->0.hop(v.dest->0, hops.last()) is None)
            &&& v.dest is None || w.router is None ==> (forall|k: int|
                0 <= k < hops.len() ==> v.route_idx + 1 + k < v.route@.len() && #[trigger] hops[k]
                    == v.route@[v.route_idx + 1 + k]) && (hops.len() < LANE_ROUTE_DEPTH
                ==> v.route_idx + 1 + hops.len() == v.route@.len())
        }),
{
    if v.dest is Some && w.router is Some {
        lemma_chain(w, v, next, (LANE_ROUTE_DEPTH - 1) as nat);
    }
}

} // verus!
