//! The words that the laws are stated in, and what the ordered lists hold.

use vstd::prelude::*;
use vstd::relations::sorted_by;

use crate::neighbors::{keys_of, positions};
use crate::network::{LaneId, LinkId, MovementId, Network, NodeId, SignalState};
use crate::paths::{lands_on, movement_onto};
use crate::search::{first_index, indices_where, last_index, lemma_first_index, lemma_indices};
use crate::sorting::{by_key, lemma_sorted_members};
use crate::world::NetWorld;

verus! {

/// The light of the movement's signal group shows the colour; a movement without
/// a group is always green.
pub open spec fn shows(w: &NetWorld, m: MovementId, c: SignalState) -> bool {
    match w.network.movements@[m.0 as int].signal_group {
        Some(g) => w.signals@[g as int] == c,
        None => c == SignalState::Green,
    }
}

/// Row `j` rolls on a lane that ends at a node of the same intersection.
pub open spec fn rolls_towards(w: &NetWorld, j: int, node: NodeId) -> bool {
    let link = w.network.lanes@[w.rows()[j].lane.0 as int].link;
    let end = w.network.links@[link.0 as int].to;
    &&& 0 <= j < w.rows().len()
    &&& w.rows()[j].crossing is None
    &&& w.network.nodes@[end.0 as int].intersection == w.network.nodes@[node.0 as int].intersection
}

/// Row `j` is on a movement of a node of the same intersection.
pub open spec fn is_inside(w: &NetWorld, j: int, node: NodeId) -> bool {
    let at = w.network.movements@[(w.rows()[j].crossing->0).movement.0 as int].node;
    &&& 0 <= j < w.rows().len()
    &&& w.rows()[j].crossing is Some
    &&& w.network.nodes@[at.0 as int].intersection == w.network.nodes@[node.0 as int].intersection
}

/// Every other vehicle of row `j`'s lane is farther along.
pub open spec fn is_rearmost(w: &NetWorld, j: int) -> bool {
    forall|x: int|
        #![trigger w.rows()[x]]
        0 <= x < w.rows().len() && x != j && w.rows()[x].lane == w.rows()[j].lane
            ==> w.rows()[j].position.key < w.rows()[x].position.key
}

/// The node at the end of the lane's link.
pub open spec fn end_node(net: &Network, lane: LaneId) -> NodeId {
    net.links@[net.lanes@[lane.0 as int].link.0 as int].to
}

/// The lane's link runs inside a junction: both its nodes belong to the same one.
pub open spec fn runs_inside(net: &Network, lane: LaneId) -> bool {
    let l = net.links@[net.lanes@[lane.0 as int].link.0 as int];
    let from = net.nodes@[l.from.0 as int].junction;
    from is Some && from == net.nodes@[l.to.0 as int].junction
}

/// Some conflict is on the movement's path.
pub open spec fn meets_a_path(net: &Network, m: MovementId) -> bool {
    exists|c: int| #![trigger net.conflicts@[c]]
        0 <= c < net.conflicts@.len() && (net.conflicts@[c].a == m || net.conflicts@[c].b == m)
}

/// The approachers of an intersection are all who roll towards it, and nobody
/// else.
pub proof fn all_who_roll_towards_are_approachers(w: &NetWorld, node: NodeId, j: int)
    requires
        0 <= j < w.rows().len(),
    ensures
        w.approachers(node).contains(j as usize) <==> rolls_towards(w, j, node),
{
    assert(w.rows().len() == w.fleet.rows.len());
    let n = w.rows().len() as int;
    let p = w.approaches(w.network.node_at(node).intersection);
    lemma_indices(n, p);
    assert(p(j) <==> rolls_towards(w, j, node));
    if w.approachers(node).contains(j as usize) {
        let b = choose|b: int| 0 <= b < w.approachers(node).len() && w.approachers(node)[b] == j as usize;
        assert(indices_where(n, p)[b] == j as usize);
    }
}

/// The crossers of an intersection are all who are inside it, and nobody else.
pub proof fn all_who_are_inside_are_crossers(w: &NetWorld, node: NodeId, j: int)
    requires
        0 <= j < w.rows().len(),
    ensures
        w.crossers(node).contains(j as usize) <==> is_inside(w, j, node),
{
    assert(w.rows().len() == w.fleet.rows.len());
    let n = w.rows().len() as int;
    let p = w.crosses_at(w.network.node_at(node).intersection);
    lemma_indices(n, p);
    assert(p(j) <==> is_inside(w, j, node));
    if w.crossers(node).contains(j as usize) {
        let b = choose|b: int| 0 <= b < w.crossers(node).len() && w.crossers(node)[b] == j as usize;
        assert(indices_where(n, p)[b] == j as usize);
    }
}

/// A lane's list holds exactly the rows on that lane, each once, and nobody in it
/// is farther along than who comes after.
pub proof fn a_lane_lists_its_vehicles_in_order(w: &NetWorld, lane: u32)
    ensures
        forall|j: int|
            0 <= j < w.rows().len() ==> (#[trigger] w.lane_order(lane).contains(j as usize)
                <==> w.rows()[j].lane.0 == lane),
        forall|a: int|
            0 <= a < w.lane_order(lane).len() ==> (#[trigger] w.lane_order(lane)[a])
                < w.rows().len(),
        forall|a: int, b: int|
            #![trigger w.lane_order(lane)[a], w.lane_order(lane)[b]]
            0 <= a < b < w.lane_order(lane).len() ==> w.lane_order(lane)[a] != w.lane_order(lane)[b]
                && w.rows()[w.lane_order(lane)[a] as int].position.key
                <= w.rows()[w.lane_order(lane)[b] as int].position.key,
{
    assert(w.rows().len() == w.fleet.rows.len());
    let n = w.rows().len() as int;
    let p = w.on_lane(lane);
    let raw = indices_where(n, p);
    let keys = keys_of(positions(w.rows()));
    lemma_indices(n, p);
    assert forall|a: int, b: int| 0 <= a < raw.len() && 0 <= b < raw.len() && a != b implies raw[a]
        != raw[b] by {
        if a < b {
            assert(raw[a] < raw[b]);
        } else {
            assert(raw[b] < raw[a]);
        }
    }
    assert(raw.no_duplicates());
    lemma_sorted_members(raw, keys);
    let s = w.lane_order(lane);
    assert(s == raw.sort_by(by_key(keys)));
    assert forall|j: int| 0 <= j < n implies (#[trigger] s.contains(j as usize) <==> w.rows()[j].lane.0
        == lane) by {
        assert(p(j) <==> w.rows()[j].lane.0 == lane);
        assert(s.contains(j as usize) <==> raw.contains(j as usize));
        if raw.contains(j as usize) {
            let b = choose|b: int| 0 <= b < raw.len() && raw[b] == j as usize;
            assert(p(raw[b] as int));
        }
    }
    assert forall|a: int| 0 <= a < s.len() implies (#[trigger] s[a]) < n by {
        assert(s.contains(s[a]));
        assert(raw.contains(s[a]));
        let b = choose|b: int| 0 <= b < raw.len() && raw[b] == s[a];
        assert(raw[b] < n);
    }
    assert forall|a: int, b: int| #![trigger s[a], s[b]] 0 <= a < b < s.len() implies s[a] != s[b]
        && w.rows()[s[a] as int].position.key <= w.rows()[s[b] as int].position.key by {
        assert(sorted_by(s, by_key(keys)));
        assert(by_key(keys)(s[a], s[b]));
        assert(s[a] < n && s[b] < n);
        assert(keys[s[a] as int] == w.rows()[s[a] as int].position.key as i128);
        assert(keys[s[b] as int] == w.rows()[s[b] as int].position.key as i128);
    }
}

/// The vehicle nearest a lane's entrance is the one with all others farther along.
pub proof fn the_rearmost_is_nearest_the_entrance(w: &NetWorld, j: int)
    requires
        0 <= j < w.rows().len(),
        is_rearmost(w, j),
    ensures
        w.nearest_entrance(w.rows()[j].lane) == Some(j as usize),
{
    let lane = w.rows()[j].lane.0;
    let s = w.lane_order(lane);
    assert(w.rows().len() == w.fleet.rows.len());
    a_lane_lists_its_vehicles_in_order(w, lane);
    assert(s.contains(j as usize));
    let a = choose|a: int| 0 <= a < s.len() && s[a] == j as usize;
    assert(s.len() > 0);
    let f = s[0] as int;
    assert(s[0] < w.rows().len());
    assert(s.contains(f as usize));
    assert(w.rows()[f].lane.0 == lane);
    if a > 0 {
        assert(s[0] != s[a]);
        assert(w.rows()[f].position.key <= w.rows()[j].position.key);
    }
}

/// Whoever is nearest a lane's entrance is on that lane, with nobody behind; a
/// lane has such a vehicle exactly when it has any.
pub proof fn nobody_is_behind_the_nearest_to_the_entrance(w: &NetWorld, lane: LaneId)
    ensures
        match w.nearest_entrance(lane) {
            Some(f) => f < w.rows().len() && w.rows()[f as int].lane == lane && forall|x: int|
                #![trigger w.rows()[x]]
                0 <= x < w.rows().len() && w.rows()[x].lane == lane ==> w.rows()[f as int].position.key
                    <= w.rows()[x].position.key,
            None => forall|x: int|
                0 <= x < w.rows().len() ==> (#[trigger] w.rows()[x]).lane != lane,
        },
{
    let s = w.lane_order(lane.0);
    assert(w.rows().len() == w.fleet.rows.len());
    a_lane_lists_its_vehicles_in_order(w, lane.0);
    if s.len() > 0 {
        let f = s[0];
        assert(f < w.rows().len());
        assert(s.contains(f as int as usize));
        assert forall|x: int|
            #![trigger w.rows()[x]]
            0 <= x < w.rows().len() && w.rows()[x].lane == lane implies w.rows()[f as int].position.key
            <= w.rows()[x].position.key by {
            assert(s.contains(x as usize));
            let a = choose|a: int| 0 <= a < s.len() && s[a] == x as usize;
            if a > 0 {
                assert(w.rows()[s[0] as int].position.key <= w.rows()[s[a] as int].position.key);
            }
        }
    } else {
        assert forall|x: int| 0 <= x < w.rows().len() implies (#[trigger] w.rows()[x]).lane != lane by {
            if w.rows()[x].lane == lane {
                assert(s.contains(x as usize));
            }
        }
    }
}

/// The last index with a property has it, and none after it does.
pub proof fn the_last_index_is_the_last(n: int, p: spec_fn(int) -> bool)
    ensures
        match last_index(n, p) {
            Some(k) => 0 <= k < n && p(k) && forall|x: int| k < x < n ==> !#[trigger] p(x),
            None => forall|x: int| 0 <= x < n ==> !#[trigger] p(x),
        },
    decreases n,
{
    if n > 0 && !p(n - 1) {
        the_last_index_is_the_last(n - 1, p);
    }
}

/// Some movement off the lane lands on the link.
pub open spec fn leads_to(net: &Network, lane: LaneId, link: LinkId) -> bool {
    exists|x: int| #![trigger net.movements@[x]]
        net.lanes@[lane.0 as int].movement_start.0 <= x < net.lanes@[lane.0 as int].movement_start.0
            + net.lanes@[lane.0 as int].movement_count
            && net.lanes@[net.movements@[x].to_lane.0 as int].link == link
}

/// A lane has a movement onto a link exactly when it leads to it, and the one found
/// is off the lane, lands on the link, and is the first such.
pub proof fn the_first_movement_onto_a_link_is_found(net: &Network, lane: LaneId, link: LinkId)
    requires
        net.wf(),
        net.has_lane(lane),
    ensures
        match movement_onto(net, lane, link) {
            Some(m) => net.lanes@[lane.0 as int].movement_start.0 <= m.0
                < net.lanes@[lane.0 as int].movement_start.0 + net.lanes@[lane.0 as int].movement_count
                && net.lanes@[net.movements@[m.0 as int].to_lane.0 as int].link == link && forall|x: int|
                #![trigger net.movements@[x]]
                net.lanes@[lane.0 as int].movement_start.0 <= x < m.0
                    ==> net.lanes@[net.movements@[x].to_lane.0 as int].link != link,
            None => !leads_to(net, lane, link),
        },
        movement_onto(net, lane, link) is Some <==> leads_to(net, lane, link),
{
    let l = net.lanes@[lane.0 as int];
    let p = lands_on(net, lane, link);
    assert(net.lane_ok(lane.0 as int));
    lemma_first_index(0, l.movement_count as int, p);
    match movement_onto(net, lane, link) {
        Some(m) => {
            let k = first_index(0, l.movement_count as int, p)->0;
            assert(p(k));
            assert(m.0 == l.movement_start.0 + k);
            assert forall|x: int|
                #![trigger net.movements@[x]]
                l.movement_start.0 <= x < m.0 implies net.lanes@[net.movements@[x].to_lane.0 as int].link
                != link by {
                assert(!p(x - l.movement_start.0));
                assert(net.nth_movement(lane, x - l.movement_start.0) == MovementId(x as u32));
            }
        },
        None => {
            if leads_to(net, lane, link) {
                let x = choose|x: int|
                    #![trigger net.movements@[x]]
                    l.movement_start.0 <= x < l.movement_start.0 + l.movement_count
                        && net.lanes@[net.movements@[x].to_lane.0 as int].link == link;
                assert(net.nth_movement(lane, x - l.movement_start.0) == MovementId(x as u32));
                assert(p(x - l.movement_start.0));
            }
        },
    }
}

} // verus!
