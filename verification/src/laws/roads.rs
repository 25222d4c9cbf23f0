//! What the network's tables say of its roads, and what the routes go by.

use vstd::prelude::*;

use crate::control::{is_memory_order, reordered};
use crate::corridor::successor;
use crate::fleet::Fleet;
use crate::infrastructure::{fingerprint_sum, fingerprint_term};
use crate::network::{LaneId, LinkId, MovementId, Network, TurnType};
use crate::quantity::{Quantity, place};
use crate::router::{FieldRouter, UNREACHED, hop_cost, hop_from_distances};
use crate::search::{
    count_where, first_index, least_index, lemma_count_bounds, lemma_count_monotone,
    lemma_count_positive, lemma_count_zero, lemma_first_index, lemma_least,
};
use crate::shards::{is_lone, shard_count, unit_of_node};
use crate::topology::{is_most_direct, is_seam_primary, main_approach, more_direct, origin, target};
use crate::world::NetWorld;
use crate::yielding::{
    GAP_MAJOR, GAP_MAJOR_HEAVY, GAP_MINOR_LEFT, GAP_MINOR_LEFT_HEAVY, GAP_MINOR_RIGHT,
    GAP_MINOR_RIGHT_HEAVY, GAP_MINOR_THROUGH, GAP_MINOR_THROUGH_HEAVY, HEAVY_LENGTH, book_gap,
};

verus! {

proof fn lemma_count_one(n: int, p: spec_fn(int) -> bool, a: int, b: int)
    requires
        0 <= a < b < n,
        p(a),
        p(b),
    ensures
        count_where(n, p) >= 2,
    decreases n,
{
    if b == n - 1 {
        lemma_count_positive(n - 1, p, a);
    } else {
        lemma_count_one(n - 1, p, a, b);
    }
}

proof fn lemma_count_single(n: int, p: spec_fn(int) -> bool, a: int)
    requires
        0 <= a < n,
        p(a),
        forall|x: int| 0 <= x < n && x != a ==> !#[trigger] p(x),
    ensures
        count_where(n, p) == 1,
    decreases n,
{
    if a == n - 1 {
        lemma_count_zero(n - 1, p);
    } else {
        lemma_count_single(n - 1, p, a);
        assert(!p(n - 1));
    }
}

/// A lane continues into another exactly when its only movement is a merge or diverge
/// that alone lands there.
pub proof fn a_lane_continues_where_one_way_leads(net: &Network, a: LaneId, m: MovementId)
    requires
        net.wf(),
        net.has_lane(a),
        net.lanes@[a.0 as int].movement_count > 0,
        m == net.lanes@[a.0 as int].movement_start,
    ensures
        successor(net, a) is Some <==> net.lanes@[a.0 as int].movement_count == 1
            && net.movements@[m.0 as int].interchange && forall|x: int|
            #![trigger net.movements@[x]]
            0 <= x < net.movements@.len() && net.movements@[x].to_lane
                == net.movements@[m.0 as int].to_lane ==> x == m.0,
        successor(net, a) matches Some(b) ==> b == net.movements@[m.0 as int].to_lane,
{
    let to = net.movements@[m.0 as int].to_lane;
    let n = net.movements@.len() as int;
    assert(net.lane_ok(a.0 as int));
    let p = |i: int| net.movements@[i].to_lane == to;
    assert(p(m.0 as int));
    if forall|x: int|
        #![trigger net.movements@[x]]
        0 <= x < n && net.movements@[x].to_lane == to ==> x == m.0 {
        assert forall|x: int| 0 <= x < n && x != m.0 implies !#[trigger] p(x) by {
            assert(net.movements@[x].to_lane != to);
        }
        lemma_count_single(n, p, m.0 as int);
    } else {
        let x = choose|x: int|
            #![trigger net.movements@[x]]
            0 <= x < n && net.movements@[x].to_lane == to && x != m.0;
        assert(p(x));
        if x < m.0 {
            lemma_count_one(n, p, x, m.0 as int);
        } else {
            lemma_count_one(n, p, m.0 as int, x);
        }
    }
}

/// A dead end continues nowhere.
pub proof fn a_dead_end_continues_nowhere(net: &Network, a: LaneId)
    requires
        net.lanes@[a.0 as int].movement_count == 0,
    ensures
        successor(net, a) is None,
{
}

/// The link that a movement comes from is of the same kind as the one it goes to.
pub open spec fn keeps_its_kind(net: &Network, m: int) -> bool {
    net.links@[net.lanes@[net.movements@[m].from_lane.0 as int].link.0 as int].kind
        == net.links@[net.lanes@[net.movements@[m].to_lane.0 as int].link.0 as int].kind
}

/// Both movements go onto one link.
pub open spec fn go_onto_one_link(net: &Network, a: int, b: int) -> bool {
    net.lanes@[net.movements@[a].to_lane.0 as int].link
        == net.lanes@[net.movements@[b].to_lane.0 as int].link
}

/// Of approaches onto one link, one of the link's own kind comes before one of
/// another; of one kind the straighter; of equally straight ones the wider; and last
/// the one with the lower id.
pub proof fn directness_goes_by_kind_straightness_width_id(net: &Network, a: int, b: int)
    ensures
        ({
            let from_a = net.lanes@[net.movements@[a].from_lane.0 as int].link;
            let from_b = net.lanes@[net.movements@[b].from_lane.0 as int].link;
            let wide_a = net.links@[from_a.0 as int].lane_count;
            let wide_b = net.links@[from_b.0 as int].lane_count;
            let straight_a = net.movements@[a].straightness.key;
            let straight_b = net.movements@[b].straightness.key;
            &&& keeps_its_kind(net, a) && !keeps_its_kind(net, b) ==> more_direct(net, a, b)
                && !more_direct(net, b, a)
            &&& keeps_its_kind(net, a) == keeps_its_kind(net, b) && straight_a > straight_b
                ==> more_direct(net, a, b) && !more_direct(net, b, a)
            &&& keeps_its_kind(net, a) == keeps_its_kind(net, b) && straight_a == straight_b && wide_a
                > wide_b ==> more_direct(net, a, b) && !more_direct(net, b, a)
            &&& keeps_its_kind(net, a) == keeps_its_kind(net, b) && straight_a == straight_b && wide_a
                == wide_b ==> (more_direct(net, a, b) <==> from_a.0 < from_b.0)
        }),
{
}

/// A movement crosses its boundary freely along a corridor; or where it continues a
/// road and some movement between the same two links has no more direct one onto
/// the link it goes to; and nowhere else.
pub proof fn a_seam_is_free_on_the_main_approach(w: &NetWorld, m: MovementId)
    ensures
        w.is_free_seam(m) <==> successor(&w.network, w.network.movements@[m.0 as int].from_lane)
            == Some(w.network.movements@[m.0 as int].to_lane) || (
        w.network.movements@[m.0 as int].continuation && exists|x: int|
            #![trigger w.network.movements@[x]]
            0 <= x < w.network.movements@.len() && go_onto_one_link(&w.network, x, m.0 as int)
                && w.network.lanes@[w.network.movements@[x].from_lane.0 as int].link
                == w.network.lanes@[w.network.movements@[m.0 as int].from_lane.0 as int].link
                && forall|y: int|
                0 <= y < w.network.movements@.len() && go_onto_one_link(&w.network, y, x)
                    ==> !#[trigger] more_direct(&w.network, y, x)),
{
    let net = &w.network;
    let i = m.0 as int;
    if is_seam_primary(net, m) {
        let x = choose|x: int|
            0 <= x < net.movements@.len() && target(net, x) == target(net, i) && origin(net, x)
                == origin(net, i) && #[trigger] is_most_direct(net, x);
        assert(go_onto_one_link(net, x, i));
        assert(net.movements@[x] == net.movements@[x]);
        assert forall|y: int|
            0 <= y < net.movements@.len() && go_onto_one_link(net, y, x) implies !#[trigger] more_direct(
            net,
            y,
            x,
        ) by {
            assert(target(net, y) == target(net, x));
        }
    }
    if net.movements@[i].continuation && exists|x: int|
        #![trigger net.movements@[x]]
        0 <= x < net.movements@.len() && go_onto_one_link(net, x, i)
            && net.lanes@[net.movements@[x].from_lane.0 as int].link
            == net.lanes@[net.movements@[i].from_lane.0 as int].link && forall|y: int|
            0 <= y < net.movements@.len() && go_onto_one_link(net, y, x) ==> !#[trigger] more_direct(
                net,
                y,
                x,
            ) {
        let x = choose|x: int|
            #![trigger net.movements@[x]]
            0 <= x < net.movements@.len() && go_onto_one_link(net, x, i)
                && net.lanes@[net.movements@[x].from_lane.0 as int].link
                == net.lanes@[net.movements@[i].from_lane.0 as int].link && forall|y: int|
                0 <= y < net.movements@.len() && go_onto_one_link(net, y, x) ==> !#[trigger] more_direct(
                    net,
                    y,
                    x,
                );
        assert(is_most_direct(net, x));
        assert(main_approach(net, origin(net, i), target(net, i)));
    }
}

/// By distances from outside, a link's hop is onto a link that it has a movement to
/// and that reaches the destination, and no other such link is nearer through; a
/// link with no such hop has none, and neither has the destination.
pub proof fn a_hop_by_distances_is_a_nearest_one(
    net: &Network,
    to: LinkId,
    v: LinkId,
    cost: Seq<u64>,
    raw: Seq<u64>,
)
    ensures
        v == to ==> hop_from_distances(net, to, v, cost, raw) is None,
        hop_from_distances(net, to, v, cost, raw) is Some ==> raw[(hop_from_distances(
            net,
            to,
            v,
            cost,
            raw,
        )->0).0 as int] != UNREACHED,
        hop_from_distances(net, to, v, cost, raw) is Some ==> exists|m: int| #[trigger]
            makes_a_hop(net, v, hop_from_distances(net, to, v, cost, raw)->0, m),
        hop_from_distances(net, to, v, cost, raw) matches Some(n) ==> forall|m: int, o: LinkId|
            #[trigger] makes_a_hop(net, v, o, m) && raw[o.0 as int] != UNREACHED ==> cost[n.0 as int]
                + raw[n.0 as int] <= cost[o.0 as int] + raw[o.0 as int],
        v != to && hop_from_distances(net, to, v, cost, raw) is None ==> forall|m: int, o: LinkId|
            #[trigger] makes_a_hop(net, v, o, m) ==> raw[o.0 as int] == UNREACHED,
{
    let n = net.movements@.len() as int;
    let c = hop_cost(net, v, cost, raw);
    lemma_least(n, c);
    assert forall|m: int, o: LinkId| #[trigger] makes_a_hop(net, v, o, m) && raw[o.0 as int]
        != UNREACHED implies c(m) == Some(cost[o.0 as int] + raw[o.0 as int]) by {}
    if least_index(n, c) is Some {
        let b = least_index(n, c)->0;
        assert(c(b) is Some);
        let o = net.link_of(net.movements@[b].to_lane);
        assert(makes_a_hop(net, v, o, b));
        assert(raw[o.0 as int] != UNREACHED);
        if v != to {
            assert(hop_from_distances(net, to, v, cost, raw) == Some(o));
            assert(makes_a_hop(net, v, hop_from_distances(net, to, v, cost, raw)->0, b));
        }
        assert(c(b) == Some(cost[o.0 as int] + raw[o.0 as int]));
        assert forall|m: int, x: LinkId| #[trigger] makes_a_hop(net, v, x, m) && raw[x.0 as int]
            != UNREACHED implies cost[o.0 as int] + raw[o.0 as int] <= cost[x.0 as int]
            + raw[x.0 as int] by {
            assert(c(m) is Some);
        }
    } else {
        assert forall|m: int, o: LinkId| #[trigger] makes_a_hop(net, v, o, m) implies raw[o.0 as int]
            == UNREACHED by {
            assert(c(m) is None);
        }
    }
}

/// Movement `m` goes from a lane of the one link to a lane of the other.
pub open spec fn makes_a_hop(net: &Network, v: LinkId, o: LinkId, m: int) -> bool {
    &&& 0 <= m < net.movements@.len()
    &&& net.lanes@[net.movements@[m].from_lane.0 as int].link == v
    &&& net.lanes@[net.movements@[m].to_lane.0 as int].link == o
}

/// The router answers from the first field whose destination it is asked for, and
/// knows nothing of others.
pub proof fn the_router_answers_for_its_destinations(r: &FieldRouter, dest: LinkId, link: LinkId, s: int)
    ensures
        !r.slots().contains(dest) ==> r.hop(dest, link) is None && r.remaining(dest, link) is None,
        0 <= s < r.slots().len() && r.slots()[s] == dest && (forall|x: int|
            0 <= x < s ==> #[trigger] r.slots()[x] != dest) ==> r.hop(dest, link) == r.field(
            s,
        ).next@[link.0 as int] && r.remaining(dest, link) == r.field(s).dist@[link.0 as int],
{
    let n = r.slots().len() as int;
    let p = r.serves(dest);
    lemma_first_index(0, n, p);
    if first_index(0, n, p) is Some {
        let k = first_index(0, n, p)->0;
        assert(p(k));
        assert(r.slots().contains(r.slots()[k]));
        if 0 <= s < n && r.slots()[s] == dest && (forall|x: int|
            0 <= x < s ==> #[trigger] r.slots()[x] != dest) {
            assert(p(s));
            if k < s {
                assert(r.slots()[k] != dest);
            }
        }
    } else if 0 <= s < n && r.slots()[s] == dest {
        assert(p(s));
    }
}

/// The gap by the book: one off the major road, whatever the turn; off the minor road
/// one for each turn; and for a long vehicle the longer one of each pair.
pub proof fn the_gap_by_the_book(turn: TurnType, length: Quantity)
    ensures
        length.is_below(place(HEAVY_LENGTH)) ==> book_gap(turn, false, length) == place(GAP_MAJOR)
            && book_gap(TurnType::Right, true, length) == place(GAP_MINOR_RIGHT) && book_gap(
            TurnType::Through,
            true,
            length,
        ) == place(GAP_MINOR_THROUGH) && book_gap(TurnType::Left, true, length) == place(
            GAP_MINOR_LEFT,
        ),
        place(HEAVY_LENGTH).is_at_most(length) ==> book_gap(turn, false, length) == place(
            GAP_MAJOR_HEAVY,
        ) && book_gap(TurnType::Right, true, length) == place(GAP_MINOR_RIGHT_HEAVY) && book_gap(
            TurnType::Through,
            true,
            length,
        ) == place(GAP_MINOR_THROUGH_HEAVY) && book_gap(TurnType::Left, true, length) == place(
            GAP_MINOR_LEFT_HEAVY,
        ),
{
}

/// A longer vehicle never needs a shorter gap, nor does one off the minor road; and
/// off it a left turn needs more than going straight, and that more than a right.
pub proof fn harder_crossings_need_longer_gaps(turn: TurnType, minor: bool, short: Quantity, long: Quantity)
    requires
        short.is_at_most(long),
    ensures
        book_gap(turn, minor, short).is_at_most(book_gap(turn, minor, long)),
        book_gap(turn, false, short).is_below(book_gap(turn, true, short)),
        book_gap(TurnType::Right, true, short).is_below(book_gap(TurnType::Through, true, short)),
        book_gap(TurnType::Through, true, short).is_below(book_gap(TurnType::Left, true, short)),
{
}

/// In memory order the lanes ascend, and along a lane the positions do.
pub proof fn memory_order_ascends(w: &NetWorld, after: &Fleet, order: Seq<usize>, a: int, b: int)
    requires
        reordered(&w.fleet, after, order),
        is_memory_order(w, order),
        0 <= a < b < after.rows@.len(),
    ensures
        after.rows@[a].lane.0 <= after.rows@[b].lane.0,
        after.rows@[a].lane == after.rows@[b].lane ==> after.rows@[a].position.rank()
            <= after.rows@[b].position.rank(),
{
    assert(after.rows@[a] == w.fleet.rows@[order[a] as int]);
    assert(after.rows@[b] == w.fleet.rows@[order[b] as int]);
}

/// A link adds its own term to the fingerprint, once it has vehicles and a band above
/// zero, and nothing before.
pub proof fn a_busy_link_marks_the_fingerprint(
    counts: Seq<u32>,
    bands: Seq<u64>,
    n: int,
    l: int,
    band: u64,
)
    requires
        0 <= l < n <= counts.len(),
        n <= bands.len(),
        bands[l] == 0 || counts[l] == 0,
    ensures
        fingerprint_sum(counts, bands.update(l, band), n) == fingerprint_sum(counts, bands, n) + (if counts[l]
            > 0 && band > 0 {
            fingerprint_term(l as u32, band) as int
        } else {
            0
        }),
    decreases n,
{
    if l < n - 1 {
        a_busy_link_marks_the_fingerprint(counts, bands, n - 1, l, band);
    } else {
        lemma_prefix(counts, bands, bands.update(l, band), n - 1);
    }
}

proof fn lemma_prefix(counts: Seq<u32>, a: Seq<u64>, b: Seq<u64>, n: int)
    requires
        forall|x: int| 0 <= x < n ==> #[trigger] a[x] == b[x],
    ensures
        fingerprint_sum(counts, a, n) == fingerprint_sum(counts, b, n),
    decreases n,
{
    if n > 0 {
        lemma_prefix(counts, a, b, n - 1);
        assert(a[n - 1] == b[n - 1]);
    }
}

/// As many shards as are wanted, at least one, and no more than there are threads.
pub proof fn shards_are_as_many_as_wanted(wanted: int, threads: int)
    requires
        1 <= threads < u32::MAX,
    ensures
        wanted <= 1 ==> shard_count(wanted, threads) == 1,
        1 <= wanted <= threads ==> shard_count(wanted, threads) == wanted,
        wanted > threads ==> shard_count(wanted, threads) == threads,
{
}

/// Two nodes are in one unit exactly when they are the same or share a junction.
pub proof fn a_unit_is_a_junction_or_a_lone_node(net: &Network, a: int, b: int)
    requires
        net.wf(),
        0 <= a < b < net.nodes@.len(),
    ensures
        unit_of_node(net, a) == unit_of_node(net, b) <==> net.nodes@[a].junction is Some
            && net.nodes@[a].junction == net.nodes@[b].junction,
{
    let p = is_lone(net);
    lemma_count_monotone(a, b, p);
    lemma_count_bounds(a, p);
    lemma_count_bounds(b, p);
    assert(net.node_ok(a) && net.node_ok(b));
    if net.nodes@[a].junction is None {
        lemma_count_monotone(a + 1, b, p);
        assert(p(a));
        assert(count_where(a + 1, p) == count_where(a, p) + 1);
    }
}

} // verus!
