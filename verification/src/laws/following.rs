//! Whom a vehicle follows, when it sleeps, and what it then obeys.

use vstd::prelude::*;
use vstd::relations::sorted_by;

use crate::intent::{
    AccelSource, CarState, LEADER_PERCEPTION, LeaderSource, MOVE_EPS, STOP_QUEUE_GAP, Sight,
    Sleep,
};
use crate::lanes::SLEEP_SPEED_EPS;
use crate::laws::merging::{
    a_merge_has_two_feeders, feeders_are_the_lanes_with_a_movement_onto, feeds,
};
use crate::leading::SIGNAL_LOOKAHEAD;
use crate::neighbors::{Neighbors, keys_of, next_in};
use crate::network::{LaneId, MovementId, TurnType};
use crate::quantity::{Quantity, ZERO, place};
use crate::search::{indices_where, lemma_indices};
use crate::sorting::{by_key, lemma_sorted_members};
use crate::topology::{feeders_of, feeds_merge, is_merge};
use crate::world::NetWorld;

verus! {

/// The corridor of row `i`'s lane.
pub open spec fn corridor(w: &NetWorld, i: int) -> u32 {
    w.topology.corridors.of_lane@[w.rows()[i].lane.0 as int]
}

/// A corridor's list holds exactly the rows of the corridor, each once, and nobody
/// in it is farther along than who comes after.
pub proof fn a_corridor_lists_its_vehicles_in_order(w: &NetWorld, c: u32, cpos: Seq<Quantity>)
    requires
        cpos.len() == w.rows().len(),
    ensures
        forall|j: int|
            0 <= j < w.rows().len() ==> (#[trigger] w.corridor_order(c, cpos).contains(j as usize)
                <==> corridor(w, j) == c),
        forall|a: int|
            0 <= a < w.corridor_order(c, cpos).len() ==> (#[trigger] w.corridor_order(c, cpos)[a])
                < w.rows().len(),
        forall|a: int, b: int|
            #![trigger w.corridor_order(c, cpos)[a], w.corridor_order(c, cpos)[b]]
            0 <= a < b < w.corridor_order(c, cpos).len() ==> w.corridor_order(c, cpos)[a]
                != w.corridor_order(c, cpos)[b] && cpos[w.corridor_order(c, cpos)[a] as int].key
                <= cpos[w.corridor_order(c, cpos)[b] as int].key,
{
    assert(w.rows().len() == w.fleet.rows.len());
    let n = w.rows().len() as int;
    let p = w.in_corridor(c);
    let raw = indices_where(n, p);
    let keys = keys_of(cpos);
    lemma_indices(n, p);
    assert forall|a: int, b: int| 0 <= a < raw.len() && 0 <= b < raw.len() && a != b implies raw[a]
        != raw[b] by {
        if a < b {
            assert(raw[a] < raw[b]);
        } else {
            assert(raw[b] < raw[a]);
        }
    }
    assert(raw.no_duplicates());
    lemma_sorted_members(raw, keys);
    let s = w.corridor_order(c, cpos);
    assert(s == raw.sort_by(by_key(keys)));
    assert forall|j: int| 0 <= j < n implies (#[trigger] s.contains(j as usize) <==> corridor(w, j)
        == c) by {
        assert(p(j) <==> corridor(w, j) == c);
        assert(s.contains(j as usize) <==> raw.contains(j as usize));
        if raw.contains(j as usize) {
            let b = choose|b: int| 0 <= b < raw.len() && raw[b] == j as usize;
            assert(p(raw[b] as int));
        }
    }
    assert forall|a: int| 0 <= a < s.len() implies (#[trigger] s[a]) < n by {
        assert(s.contains(s[a]));
        assert(raw.contains(s[a]));
        let b = choose|b: int| 0 <= b < raw.len() && raw[b] == s[a];
        assert(raw[b] < n);
    }
    assert forall|a: int, b: int| #![trigger s[a], s[b]] 0 <= a < b < s.len() implies s[a] != s[b]
        && cpos[s[a] as int].key <= cpos[s[b] as int].key by {
        assert(sorted_by(s, by_key(keys)));
        assert(by_key(keys)(s[a], s[b]));
        assert(s[a] < n && s[b] < n);
        assert(keys[s[a] as int] == cpos[s[a] as int].key as i128);
        assert(keys[s[b] as int] == cpos[s[b] as int].key as i128);
    }
}

/// A vehicle's leader is another one of its corridor, not behind it, and nobody of
/// the corridor is between the two; a vehicle without a leader has nobody of its
/// corridor ahead.
pub proof fn the_leader_is_the_next_ahead(w: &NetWorld, nb: &Neighbors, cpos: Seq<Quantity>, i: int)
    requires
        nb.leaders_of(w, cpos),
        cpos.len() == w.rows().len(),
        0 <= i < w.rows().len(),
    ensures
        match nb.leader_of@[i] {
            Some(l) => {
                &&& l < w.rows().len()
                &&& l != i
                &&& corridor(w, l as int) == corridor(w, i)
                &&& cpos[i].key <= cpos[l as int].key
                &&& forall|x: int|
                    #![trigger cpos[x]]
                    0 <= x < w.rows().len() && corridor(w, x) == corridor(w, i) ==> !(cpos[i].key
                        < cpos[x].key < cpos[l as int].key)
            },
            None => forall|x: int|
                #![trigger cpos[x]]
                0 <= x < w.rows().len() && corridor(w, x) == corridor(w, i) ==> cpos[x].key
                    <= cpos[i].key,
        },
{
    assert(w.rows().len() == w.fleet.rows.len());
    let c = corridor(w, i);
    let s = w.corridor_order(c, cpos);
    a_corridor_lists_its_vehicles_in_order(w, c, cpos);
    assert(s.contains(i as usize));
    match nb.leader_of@[i] {
        Some(l) => {
            assert(next_in(s, i as usize, l));
            let k = choose|k: int| 0 <= k < s.len() - 1 && #[trigger] s[k] == i as usize && s[k + 1] == l;
            assert(s[k] != s[k + 1]);
            assert(s.contains(l as int as usize)) by {
                assert(s[k + 1] == l);
            }
            assert forall|x: int|
                #![trigger cpos[x]]
                0 <= x < w.rows().len() && corridor(w, x) == c implies !(cpos[i].key < cpos[x].key
                < cpos[l as int].key) by {
                assert(s.contains(x as usize));
                let a = choose|a: int| 0 <= a < s.len() && s[a] == x as usize;
                if a < k {
                    assert(cpos[s[a] as int].key <= cpos[s[k] as int].key);
                } else if a > k + 1 {
                    assert(cpos[s[k + 1] as int].key <= cpos[s[a] as int].key);
                }
            }
        },
        None => {
            assert forall|x: int|
                #![trigger cpos[x]]
                0 <= x < w.rows().len() && corridor(w, x) == c implies cpos[x].key <= cpos[i].key by {
                assert(s.contains(x as usize));
                let a = choose|a: int| 0 <= a < s.len() && s[a] == x as usize;
                let z = s.len() - 1;
                assert(s[z] == i as usize);
                if a < z {
                    assert(cpos[s[a] as int].key <= cpos[s[z] as int].key);
                }
            }
        },
    }
}

/// A vehicle inside a node decides. Outside, one that stands close behind a
/// standing leader, or close to the end of its lane, is frozen; one that is not,
/// with no leader near and far from its node, is free; every other one decides.
pub proof fn the_state_is_what_is_seen(w: &NetWorld, i: int, nb: &Neighbors, s: Sight, l: usize)
    requires
        nb.leader_of@[i] == Some(l),
    ensures
        w.rows()[i].crossing is Some ==> w.state_of(i, nb, s) == CarState::Deciding,
        w.rows()[i].crossing is None && w.rows()[i].speed.is_below(place(MOVE_EPS))
            && s.leader_gap.is_below(place(STOP_QUEUE_GAP)) && w.rows()[l as int].speed.is_below(
            place(MOVE_EPS),
        ) ==> w.state_of(i, nb, s) == CarState::Frozen,
        w.rows()[i].crossing is None && w.rows()[i].speed.is_below(place(MOVE_EPS))
            && s.to_end.is_below(place(STOP_QUEUE_GAP)) ==> w.state_of(i, nb, s)
            == CarState::Frozen,
        w.rows()[i].crossing is None && place(MOVE_EPS).is_at_most(w.rows()[i].speed) && place(
            LEADER_PERCEPTION,
        ).is_at_most(s.leader_gap) && place(SIGNAL_LOOKAHEAD).is_at_most(s.to_end) ==> w.state_of(
            i,
            nb,
            s,
        ) == CarState::Free,
        place(MOVE_EPS).is_at_most(w.rows()[i].speed) && (s.leader_gap.is_below(
            place(LEADER_PERCEPTION),
        ) || s.to_end.is_below(place(SIGNAL_LOOKAHEAD))) ==> w.state_of(i, nb, s)
            == CarState::Deciding,
        w.state_of(i, nb, s) == CarState::Frozen ==> w.rows()[i].speed.is_below(place(MOVE_EPS)),
        w.state_of(i, nb, s) == CarState::Free ==> place(SIGNAL_LOOKAHEAD).is_at_most(s.to_end)
            && !s.leader_gap.is_below(place(LEADER_PERCEPTION)),
{
}

/// Without a leader the same holds by the distance to the end alone.
pub proof fn without_a_leader_the_end_of_the_lane_counts(w: &NetWorld, i: int, nb: &Neighbors, s: Sight)
    requires
        nb.leader_of@[i] is None,
        w.rows()[i].crossing is None,
    ensures
        w.rows()[i].speed.is_below(place(MOVE_EPS)) && s.to_end.is_below(place(STOP_QUEUE_GAP))
            <==> w.state_of(i, nb, s) == CarState::Frozen,
        place(SIGNAL_LOOKAHEAD).is_at_most(s.to_end) && !(w.rows()[i].speed.is_below(
            place(MOVE_EPS),
        ) && s.to_end.is_below(place(STOP_QUEUE_GAP))) <==> w.state_of(i, nb, s) == CarState::Free,
{
}

/// A vehicle queues asleep exactly when the scheduler is on, it stands outside every
/// node, and the leader it follows on its own lane stands close ahead of it.
pub proof fn a_pinned_vehicle_sleeps_in_its_queue(w: &NetWorld, i: int, nb: &Neighbors, s: Sight, l: usize)
    requires
        w.rows()[i].wreck is None,
    ensures
        w.decision(i, nb, s).1 == Sleep::Queued(l) <==> {
            &&& w.cfg.sleep_scheduler
            &&& w.rows()[i].crossing is None
            &&& !place(SLEEP_SPEED_EPS).is_at_most(w.rows()[i].speed)
            &&& nb.leader_of@[i] == Some(l)
            &&& w.rows()[l as int].lane == w.rows()[i].lane
            &&& w.rows()[l as int].speed.is_below(place(SLEEP_SPEED_EPS))
            &&& place(ZERO).is_at_most(s.leader_gap)
            &&& s.leader_gap.is_below(place(STOP_QUEUE_GAP))
        },
        w.decision(i, nb, s).1 == Sleep::Queued(l) ==> w.decision(i, nb, s).0 is None,
{
}

/// A vehicle cruises asleep only far from its node, on a straight link that feeds no
/// merge, with no leader near, going straight on to a road no slower.
pub proof fn a_cruiser_sees_nothing_to_decide(w: &NetWorld, i: int, nb: &Neighbors, s: Sight)
    requires
        w.decision(i, nb, s).1 == Sleep::Free,
    ensures
        w.cfg.sleep_scheduler,
        w.rows()[i].wreck is None,
        w.rows()[i].crossing is None,
        !s.to_end.is_at_most(s.clear_horizon),
        w.link_straight@[w.network.lanes@[w.rows()[i].lane.0 as int].link.0 as int],
        nb.leader_of@[i] is Some ==> !s.leader_gap.is_at_most(place(LEADER_PERCEPTION)),
        w.intended(&w.rows()[i]) matches Some(x) ==> {
            let mv = w.network.movements@[x.0 as int];
            mv.turn == TurnType::Through
                && w.network.lanes@[w.rows()[i].lane.0 as int].speed_limit.is_at_most(
                w.network.lanes@[mv.to_lane.0 as int].speed_limit,
            )
        },
        w.decision(i, nb, s).0 is None,
{
}

/// And where all that holds, the vehicle being neither pinned nor a wreck, it does.
pub proof fn whoever_has_nothing_to_decide_cruises(w: &NetWorld, i: int, nb: &Neighbors, s: Sight)
    requires
        w.network.wf(),
        0 <= i < w.rows().len(),
        w.network.has_lane(w.rows()[i].lane),
        w.cfg.sleep_scheduler,
        w.rows()[i].wreck is None,
        w.rows()[i].crossing is None,
        place(SLEEP_SPEED_EPS).is_at_most(w.rows()[i].speed),
        !s.to_end.is_at_most(s.clear_horizon),
        w.link_straight@[w.network.lanes@[w.rows()[i].lane.0 as int].link.0 as int],
        nb.leader_of@[i] is None || place(LEADER_PERCEPTION).is_below(s.leader_gap),
        forall|to: LaneId, other: LaneId|
            #![trigger feeds(&w.network, w.rows()[i].lane, to), feeds(&w.network, other, to)]
            feeds(&w.network, w.rows()[i].lane, to) && feeds(&w.network, other, to) ==> other
                == w.rows()[i].lane,
        w.intended(&w.rows()[i]) matches Some(x) ==> {
            let mv = w.network.movements@[x.0 as int];
            mv.turn == TurnType::Through
                && w.network.lanes@[w.rows()[i].lane.0 as int].speed_limit.is_at_most(
                w.network.lanes@[mv.to_lane.0 as int].speed_limit,
            )
        },
    ensures
        w.decision(i, nb, s).1 == Sleep::Free,
{
    let net = &w.network;
    let own = w.rows()[i].lane;
    if feeds_merge(net, own) {
        let l = choose|l: LaneId| #![trigger is_merge(net, l)]
            net.has_lane(l) && is_merge(net, l) && feeders_of(
                net,
                l,
            ).contains(own.0);
        feeders_are_the_lanes_with_a_movement_onto(net, l, own);
        a_merge_has_two_feeders(net, l);
        let (a, b) = choose|a: LaneId, b: LaneId|
            #![trigger feeds(net, a, l), feeds(net, b, l)]
            a != b && feeds(net, a, l) && feeds(net, b, l);
        assert(a == own && b == own);
    }
}

/// Whoever is awake carries the movement it means to take; whoever is inside a node
/// the one it is on; a wreck none. All of these are awake.
pub proof fn whoever_is_awake_carries_its_movement(w: &NetWorld, i: int, nb: &Neighbors, s: Sight)
    ensures
        w.rows()[i].wreck is Some ==> w.decision(i, nb, s) == (None::<MovementId>, Sleep::Awake),
        w.rows()[i].wreck is None && w.rows()[i].crossing is Some ==> w.decision(i, nb, s) == (
            Some((w.rows()[i].crossing->0).movement),
            Sleep::Awake,
        ),
        w.rows()[i].wreck is None && w.rows()[i].crossing is None && w.decision(i, nb, s).1
            == Sleep::Awake ==> w.decision(i, nb, s).0 == w.intended(&w.rows()[i]),
        !w.cfg.sleep_scheduler ==> w.decision(i, nb, s).1 == Sleep::Awake,
{
}

/// What a vehicle obeys: a wreck nothing, who is inside a node the way through it, a
/// sleeper its queue or the open road, and whoever is awake all its constraints,
/// unless its link runs the queue model and it has a leader on its lane.
pub proof fn what_a_vehicle_obeys(w: &NetWorld, i: int, nb: &Neighbors, l: usize)
    ensures
        w.rows()[i].wreck is Some ==> forall|z: Sleep| #[trigger]
            w.source_of(i, nb, z) == AccelSource::Wreck,
        w.rows()[i].wreck is None && w.rows()[i].crossing is Some ==> forall|z: Sleep| #[trigger]
            w.source_of(i, nb, z) == AccelSource::Crossing,
        w.rows()[i].wreck is None && w.rows()[i].crossing is None ==> {
            &&& w.source_of(i, nb, Sleep::Queued(l)) == AccelSource::Queue(l)
            &&& w.source_of(i, nb, Sleep::Free) == AccelSource::Free
            &&& w.source_of(i, nb, Sleep::Awake) == AccelSource::Queue(l) <==> {
                &&& w.congestion_cfg.enabled
                &&& w.queue_links@[w.network.lanes@[w.rows()[i].lane.0 as int].link.0 as int]
                &&& nb.leader_of@[i] == Some(l)
                &&& w.rows()[l as int].lane == w.rows()[i].lane
            }
            &&& (w.source_of(i, nb, Sleep::Awake) is Queue || w.source_of(i, nb, Sleep::Awake)
                == AccelSource::Full)
        },
{
}

/// A vehicle follows its leader as it was a reaction time ago where both roll on one
/// lane and both have been seen that long; as it is, with capped braking, across
/// lanes; else as it is. Without a leader it looks beyond the boundary.
pub proof fn a_leader_is_followed_as_it_was_seen(w: &NetWorld, i: int, nb: &Neighbors, delay: usize)
    ensures
        nb.leader_of@[i] is None ==> w.leader_source(i, nb, delay) == LeaderSource::Beyond,
        nb.leader_of@[i] matches Some(l) ==> {
            let o = w.rows()[l as int];
            let v = w.rows()[i];
            &&& o.lane != v.lane ==> w.leader_source(i, nb, delay) == LeaderSource::Capped(l)
            &&& o.lane == v.lane && (v.crossing is Some || o.crossing is Some) ==> w.leader_source(
                i,
                nb,
                delay,
            ) == LeaderSource::Current(l)
            &&& o.lane == v.lane && v.crossing is None && o.crossing is None ==> (w.leader_source(
                i,
                nb,
                delay,
            ) == LeaderSource::Delayed(l) <==> w.fleet.samples(i).len() > delay && w.fleet.samples(
                l as int,
            ).len() > delay) && (w.leader_source(i, nb, delay) == LeaderSource::Delayed(l)
                || w.leader_source(i, nb, delay) == LeaderSource::Current(l))
        },
{
}

} // verus!
