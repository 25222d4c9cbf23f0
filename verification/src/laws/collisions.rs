//! Who collides, and what the end of a tick makes of it.

use vstd::prelude::*;

use crate::boundary::MotionView;
use crate::crashes::{Hit, Pair, newest};
use crate::fleet::{Fate, Fleet, HISTORY_LEN, NetVehicle, Sample, recorded};
use crate::laws::boxes::paths_meet;
use crate::laws::priority::joins;
use crate::laws::terms::the_last_index_is_the_last;
use crate::neighbors::{MOVING_SPEED, Neighbors};
use crate::network::{LinkId, MovementId, Network};
use crate::quantity::{Quantity, ZERO, place};
use crate::search::{count_where, last_index, lemma_count_agree};
use crate::step::{Site, TickEnd};
use crate::world::{CrashKind, CrashRecord, MAX_CRASH_SITES, NetWorld};

verus! {

/// The vehicle is still on the road after its turn.
pub open spec fn stays_on_the_road(f: Fate) -> bool {
    f != Fate::Exited && f != Fate::Leaked
}

/// Two rows are inside one intersection, both on the road, on paths that meet, and
/// not both wrecks.
pub open spec fn could_touch(w: &NetWorld, rows: Seq<NetVehicle>, fates: Seq<Fate>, i: int, j: int) -> bool {
    let net = &w.network;
    let a = (rows[i].crossing->0).movement;
    let b = (rows[j].crossing->0).movement;
    &&& rows[i].crossing is Some
    &&& rows[j].crossing is Some
    &&& stays_on_the_road(fates[i])
    &&& stays_on_the_road(fates[j])
    &&& net.nodes@[net.movements@[a.0 as int].node.0 as int].intersection
        == net.nodes@[net.movements@[b.0 as int].node.0 as int].intersection
    &&& rows[i].wreck is None || rows[j].wreck is None
    &&& paths_meet(net, a, b)
}

/// Every two rows that could touch inside an intersection are looked at, in one
/// order, and no others.
pub proof fn all_who_could_touch_are_paired(
    w: &NetWorld,
    rows: Seq<NetVehicle>,
    fates: Seq<Fate>,
    pairs: Seq<Pair>,
    i: usize,
    j: usize,
)
    requires
        w.all_pairs(rows, fates, pairs),
        i < j < rows.len(),
    ensures
        pairs.contains(Pair { a: i, b: j }) <==> could_touch(w, rows, fates, i as int, j as int),
        !pairs.contains(Pair { a: j, b: i }),
{
    let p = Pair { a: i, b: j };
    let net = &w.network;
    let (a, b) = ((rows[i as int].crossing->0).movement, (rows[j as int].crossing->0).movement);
    assert(pairs.contains(p) <==> w.may_collide(rows, fates, p));
    assert(pairs.contains(Pair { a: j, b: i }) <==> w.may_collide(rows, fates, Pair { a: j, b: i }));
    if net.paths_cross(a, b) {
        let c = choose|c: int|
            0 <= c < net.conflicts@.len() && Network::pairs(#[trigger] net.conflicts@[c], a, b);
        assert(joins(net.conflicts@[c], a, b));
        assert(paths_meet(net, a, b));
    }
    if paths_meet(net, a, b) {
        let c = choose|c: int| #![trigger net.conflicts@[c]]
            0 <= c < net.conflicts@.len() && joins(net.conflicts@[c], a, b);
        assert(Network::pairs(net.conflicts@[c], a, b));
    }
}

/// Whoever touches another inside an intersection is hit there, unless it is a wreck
/// already; of several such hits the last pair's counts.
pub proof fn touching_inside_is_a_junction_hit(
    w: &NetWorld,
    rows: Seq<NetVehicle>,
    fates: Seq<Fate>,
    nb: &Neighbors,
    gaps: Seq<Quantity>,
    closings: Seq<u32>,
    pairs: Seq<Pair>,
    impacts: Seq<Option<u32>>,
    k: int,
    x: int,
)
    requires
        0 <= k < pairs.len(),
        impacts[k] is Some,
        pairs[k].a == x || pairs[k].b == x,
        rows[x].wreck is None,
        forall|y: int|
            k < y < pairs.len() && impacts[y] is Some ==> (#[trigger] pairs[y]).a != x && pairs[y].b
                != x,
    ensures
        w.hit_of(rows, fates, nb, gaps, closings, pairs, impacts, x) == Some(
            Hit { kind: CrashKind::Junction, closing: impacts[k]->0 },
        ),
{
    let p = NetWorld::impact_of(rows, pairs, impacts, x);
    the_last_index_is_the_last(pairs.len() as int, p);
    assert(p(k));
    let z = last_index(pairs.len() as int, p)->0;
    assert(p(z));
    if z > k {
        assert(pairs[z].a != x && pairs[z].b != x);
    }
}

/// The vehicle has just landed on the first lane of its corridor.
pub open spec fn has_just_begun(w: &NetWorld, v: NetVehicle, fate: Fate) -> bool {
    let c = w.topology.corridors.of_lane@[v.lane.0 as int] as int;
    fate is Entered && w.topology.corridors.chains@[c]@[0] == v.lane
}

/// Row `f` has run into its leader: both stay on the road, it is no wreck, they
/// are in one corridor and not just one of them has come to its beginning, they are
/// not on different paths inside a node, and its front has passed the leader's rear.
pub open spec fn has_run_into(
    w: &NetWorld,
    rows: Seq<NetVehicle>,
    fates: Seq<Fate>,
    nb: &Neighbors,
    gaps: Seq<Quantity>,
    f: int,
    l: usize,
) -> bool {
    &&& nb.leader_of@[f] == Some(l)
    &&& stays_on_the_road(fates[f])
    &&& stays_on_the_road(fates[l as int])
    &&& rows[f].wreck is None
    &&& w.topology.corridors.of_lane@[rows[f].lane.0 as int]
        == w.topology.corridors.of_lane@[rows[l as int].lane.0 as int]
    &&& has_just_begun(w, rows[f], fates[f]) == has_just_begun(w, rows[l as int], fates[l as int])
    &&& rows[f].crossing is None || rows[l as int].crossing is None || (rows[f].crossing->0).movement
        == (rows[l as int].crossing->0).movement
    &&& gaps[f].is_below(place(ZERO))
}

/// Whoever is not hit inside an intersection is hit from behind, or runs into its
/// leader, exactly when some follower has done so and it is one of the two and, as
/// the leader, no wreck already; the closing speed is that follower's.
pub proof fn overrunning_is_a_rear_end_hit(
    w: &NetWorld,
    rows: Seq<NetVehicle>,
    fates: Seq<Fate>,
    nb: &Neighbors,
    gaps: Seq<Quantity>,
    closings: Seq<u32>,
    pairs: Seq<Pair>,
    impacts: Seq<Option<u32>>,
    x: int,
)
    requires
        0 <= x < rows.len() <= usize::MAX,
        forall|k: int|
            0 <= k < pairs.len() && impacts[k] is Some ==> (#[trigger] pairs[k]).a != x && pairs[k].b
                != x,
    ensures
        match w.hit_of(rows, fates, nb, gaps, closings, pairs, impacts, x) {
            Some(h) => h.kind == CrashKind::RearEnd && exists|f: int, l: usize|
                0 <= f < rows.len() && #[trigger] has_run_into(w, rows, fates, nb, gaps, f, l)
                    && closings[f] == h.closing && (f == x || (l == x && rows[x].wreck is None)),
            None => forall|f: int, l: usize|
                0 <= f < rows.len() && #[trigger] has_run_into(w, rows, fates, nb, gaps, f, l) ==> f != x
                    && (l == x ==> rows[x].wreck is Some),
        },
{
    let p = NetWorld::impact_of(rows, pairs, impacts, x);
    the_last_index_is_the_last(pairs.len() as int, p);
    if last_index(pairs.len() as int, p) is Some {
        let z = last_index(pairs.len() as int, p)->0;
        assert(p(z));
        assert(pairs[z].a != x && pairs[z].b != x);
    }
    let q = w.rear_end_of(rows, fates, nb, gaps, x);
    the_last_index_is_the_last(rows.len() as int, q);
    assert forall|f: int, l: usize|
        0 <= f < rows.len() && #[trigger] has_run_into(w, rows, fates, nb, gaps, f, l) && (f == x || (l
            == x && rows[x].wreck is None)) implies q(f) by {}
    if last_index(rows.len() as int, q) is Some {
        let f = last_index(rows.len() as int, q)->0;
        assert(q(f));
        assert(has_run_into(w, rows, fates, nb, gaps, f, nb.leader_of@[f]->0));
    }
}

/// Where in the kept rows a row comes to stand.
spec fn place_of(t: TickEnd, i: int) -> int {
    count_where(i, t.is_kept())
}

proof fn lemma_kept(t: TickEnd, n: int, taken: &Fleet)
    requires
        0 <= n,
    ensures
        t.survivors(n).len() == place_of(t, n),
        t.histories(n, taken).len() == place_of(t, n),
        place_of(t, n) >= 0,
        forall|i: int|
            0 <= i < n && #[trigger] t.is_kept()(i) ==> 0 <= place_of(t, i) < place_of(t, n)
                && t.survivors(n)[place_of(t, i)] == t.survivor(i) && t.histories(n, taken)[place_of(
                t,
                i,
            )] == t.history(i, taken.samples(i)),
        forall|k: int|
            0 <= k < place_of(t, n) ==> exists|i: int|
                0 <= i < n && #[trigger] t.is_kept()(i) && place_of(t, i) == k
                    && #[trigger] t.survivors(n)[k] == t.survivor(i),
    decreases n,
{
    if n > 0 {
        lemma_kept(t, n - 1, taken);
        let before = t.survivors(n - 1);
        let now = t.survivors(n);
        assert forall|i: int| 0 <= i < n && #[trigger] t.is_kept()(i) implies 0 <= place_of(t, i)
            < place_of(t, n) && now[place_of(t, i)] == t.survivor(i) && t.histories(n, taken)[place_of(
            t,
            i,
        )] == t.history(i, taken.samples(i)) by {
            if i < n - 1 {
                assert(before[place_of(t, i)] == t.survivor(i));
            }
        }
        assert forall|k: int| 0 <= k < place_of(t, n) implies exists|i: int|
            0 <= i < n && #[trigger] t.is_kept()(i) && place_of(t, i) == k && #[trigger] now[k]
                == t.survivor(i) by {
            if k < before.len() {
                let i = choose|i: int|
                    0 <= i < n - 1 && #[trigger] t.is_kept()(i) && place_of(t, i) == k && before[k]
                        == t.survivor(i);
                assert(now[k] == before[k]);
                assert(t.is_kept()(i) && place_of(t, i) == k);
            } else {
                assert(t.is_kept()(n - 1));
                assert(place_of(t, n - 1) == k);
            }
        }
    }
}

/// Row `i` is still there after the tick: its turn left it on the road, and no wreck
/// of it is cleared, neither a fresh one that is not kept nor an old one whose time
/// is up.
pub open spec fn is_still_there(taken: &Fleet, fates: Seq<Fate>, hits: Seq<Option<Hit>>, wreck_ticks: u16, i: int) -> bool {
    &&& 0 <= i < taken.rows@.len()
    &&& stays_on_the_road(fates[i])
    &&& hits[i] is Some ==> wreck_ticks > 0
    &&& hits[i] is None && taken.rows@[i].wreck is Some ==> taken.rows@[i].wreck->0 > 1
}

/// The row as the tick leaves it: once hit, a standing wreck with all its ticks; an
/// older wreck with one less; standing where it was, waiting one tick longer, and not
/// waiting when it moves or has entered a link; otherwise unchanged.
pub open spec fn is_left_as(
    v: NetVehicle,
    before: NetVehicle,
    fate: Fate,
    hit: Option<Hit>,
    wreck_ticks: u16,
) -> bool {
    &&& hit is Some ==> v.wreck == Some(wreck_ticks) && v.speed == place(ZERO)
    &&& hit is None ==> v.speed == before.speed
    &&& hit is None && before.wreck is None ==> v.wreck is None
    &&& hit is None && before.wreck is Some ==> v.wreck == Some((before.wreck->0 - 1) as u16)
    &&& fate == Fate::Alive && v.speed.is_below(place(MOVING_SPEED)) ==> v.wait_ticks == (
    before.wait_ticks + 1) as u32
    &&& fate != Fate::Alive || !v.speed.is_below(place(MOVING_SPEED)) ==> v.wait_ticks == 0
    &&& v == (NetVehicle { wreck: v.wreck, speed: v.speed, wait_ticks: v.wait_ticks, ..before })
}

/// Whoever is still there is in the fleet after the tick, as the tick leaves it, and
/// its history goes on with where it is, begun anew on a new link.
pub proof fn whoever_stays_is_kept(
    w: &NetWorld,
    after: &NetWorld,
    taken: &Fleet,
    fates: Seq<Fate>,
    hits: Seq<Option<Hit>>,
    sites: Seq<Site>,
    wreck_ticks: u16,
    time: Quantity,
    i: int,
)
    requires
        w.ends_as(after, taken, fates, hits, sites, wreck_ticks, time),
        is_still_there(taken, fates, hits, wreck_ticks, i),
    ensures
        exists|k: int|
            #![trigger after.rows()[k]]
            0 <= k < after.rows().len() && is_left_as(
                after.rows()[k],
                taken.rows@[i],
                fates[i],
                hits[i],
                wreck_ticks,
            ) && after.fleet.samples(k).len() > 0 && after.fleet.samples(k).last() == (Sample {
                position: after.rows()[k].position,
                speed: after.rows()[k].speed,
            }) && (fates[i] is Entered ==> after.fleet.samples(k).len() == 1) && (fates[i] == Fate::Alive
                && taken.samples(i).len() < HISTORY_LEN ==> after.fleet.samples(k).drop_last()
                == taken.samples(i)) && (fates[i] == Fate::Alive && taken.samples(i).len()
                == HISTORY_LEN ==> after.fleet.samples(k).drop_last() == taken.samples(i).drop_first()),
{
    let t = TickEnd { rows: taken.rows@, fates, hits, wreck_ticks };
    let n = taken.rows@.len() as int;
    lemma_kept(t, n, taken);
    assert(t.is_kept()(i));
    let k = place_of(t, i);
    assert(after.rows()[k] == t.survivor(i));
    assert(after.fleet.samples(k) == t.histories(n, taken)[k]);
    let s = after.fleet.samples(k);
    let old_s = taken.samples(i);
    let x = Sample { position: after.rows()[k].position, speed: after.rows()[k].speed };
    if fates[i] is Entered {
        assert(s =~= seq![x]);
    } else {
        assert(s == recorded(old_s, x));
        if old_s.len() < HISTORY_LEN {
            assert(s.drop_last() =~= old_s);
        } else if old_s.len() == HISTORY_LEN {
            assert(s.drop_last() =~= old_s.drop_first());
        }
    }
}

/// Nobody else is: every vehicle of the fleet after the tick was there before, is
/// still there, and is as the tick leaves it.
pub proof fn nobody_else_is_kept(
    w: &NetWorld,
    after: &NetWorld,
    taken: &Fleet,
    fates: Seq<Fate>,
    hits: Seq<Option<Hit>>,
    sites: Seq<Site>,
    wreck_ticks: u16,
    time: Quantity,
    k: int,
)
    requires
        w.ends_as(after, taken, fates, hits, sites, wreck_ticks, time),
        0 <= k < after.rows().len(),
    ensures
        exists|i: int| #[trigger]
            is_still_there(taken, fates, hits, wreck_ticks, i) && is_left_as(
                after.rows()[k],
                taken.rows@[i],
                fates[i],
                hits[i],
                wreck_ticks,
            ),
{
    let t = TickEnd { rows: taken.rows@, fates, hits, wreck_ticks };
    let n = taken.rows@.len() as int;
    lemma_kept(t, n, taken);
    let i = choose|i: int|
        0 <= i < n && #[trigger] t.is_kept()(i) && place_of(t, i) == k && #[trigger] t.survivors(n)[k]
            == t.survivor(i);
    assert(is_still_there(taken, fates, hits, wreck_ticks, i));
}

/// Of a row: its turn ended in this fate, and it is not cleared as a wreck.
pub open spec fn came_to(
    taken: &Fleet,
    fates: Seq<Fate>,
    hits: Seq<Option<Hit>>,
    wreck_ticks: u16,
    f: Fate,
) -> spec_fn(int) -> bool {
    |i: int|
        fates[i] == f && (hits[i] is Some ==> wreck_ticks > 0) && (hits[i] is None
            && taken.rows@[i].wreck is Some ==> taken.rows@[i].wreck->0 > 1)
}

/// Of a row: it was hit in this way.
pub open spec fn hit_in(hits: Seq<Option<Hit>>, kind: CrashKind) -> spec_fn(int) -> bool {
    |i: int| hits[i] matches Some(h) && h.kind == kind
}

/// The tick counts who arrived, who leaked, who entered which link and who was hit,
/// each kind of hit apart and all together; and the clock moves one tick on.
pub proof fn a_tick_counts_what_became_of_everybody(
    w: &NetWorld,
    after: &NetWorld,
    taken: &Fleet,
    fates: Seq<Fate>,
    hits: Seq<Option<Hit>>,
    sites: Seq<Site>,
    wreck_ticks: u16,
    time: Quantity,
    link: LinkId,
)
    requires
        w.ends_as(after, taken, fates, hits, sites, wreck_ticks, time),
        link.0 < w.link_entries@.len(),
    ensures
        ({
            let n = taken.rows@.len() as int;
            &&& after.exited == w.exited + count_where(
                n,
                came_to(taken, fates, hits, wreck_ticks, Fate::Exited),
            )
            &&& after.leaked == w.leaked + count_where(
                n,
                came_to(taken, fates, hits, wreck_ticks, Fate::Leaked),
            )
            &&& after.link_entries@[link.0 as int] == w.link_entries@[link.0 as int] + count_where(
                n,
                |i: int| fates[i] == Fate::Entered(link),
            )
            &&& after.crashed_by@[0] == w.crashed_by@[0] + count_where(
                n,
                hit_in(hits, CrashKind::RearEnd),
            )
            &&& after.crashed_by@[1] == w.crashed_by@[1] + count_where(
                n,
                hit_in(hits, CrashKind::Junction),
            )
            &&& after.crashed == w.crashed + count_where(n, |i: int| hits[i] is Some)
            &&& after.tick == w.tick + 1
            &&& after.time == time
        }),
{
    let t = TickEnd { rows: taken.rows@, fates, hits, wreck_ticks };
    let n = taken.rows@.len() as int;
    lemma_count_agree(n, t.has_exited(), came_to(taken, fates, hits, wreck_ticks, Fate::Exited));
    lemma_count_agree(n, t.has_leaked(), came_to(taken, fates, hits, wreck_ticks, Fate::Leaked));
    lemma_count_agree(n, t.was_hit_by(CrashKind::RearEnd), hit_in(hits, CrashKind::RearEnd));
    lemma_count_agree(n, t.was_hit_by(CrashKind::Junction), hit_in(hits, CrashKind::Junction));
    lemma_count_agree(n, t.was_hit(), |i: int| hits[i] is Some);
    assert(LinkId(link.0 as int as u32) == link);
    lemma_count_agree(n, t.has_entered(link), |i: int| fates[i] == Fate::Entered(link));
    let l = link.0 as int;
    assert(after.link_entries@[l] == w.link_entries@[l] + count_where(
        n,
        t.has_entered(LinkId(l as u32)),
    ));
}

proof fn lemma_records(t: TickEnd, n: int, sites: Seq<Site>)
    requires
        0 <= n,
    ensures
        t.records(n, sites).len() == count_where(n, t.was_hit()),
        count_where(n, t.was_hit()) >= 0,
        forall|i: int|
            0 <= i < n && (#[trigger] t.hits[i]) is Some ==> 0 <= count_where(i, t.was_hit())
                < count_where(n, t.was_hit()) && t.records(n, sites)[count_where(i, t.was_hit())] == (
            CrashRecord {
                x: sites[i].x,
                y: sites[i].y,
                kind: (t.hits[i]->0).kind,
                closing_speed: (t.hits[i]->0).closing,
            }),
    decreases n,
{
    if n > 0 {
        lemma_records(t, n - 1, sites);
        assert forall|i: int| 0 <= i < n && (#[trigger] t.hits[i]) is Some implies 0 <= count_where(
            i,
            t.was_hit(),
        ) < count_where(n, t.was_hit()) && t.records(n, sites)[count_where(i, t.was_hit())] == (
        CrashRecord {
            x: sites[i].x,
            y: sites[i].y,
            kind: (t.hits[i]->0).kind,
            closing_speed: (t.hits[i]->0).closing,
        }) by {
            assert(t.was_hit()(i));
            if i < n - 1 {
                assert(t.records(n - 1, sites)[count_where(i, t.was_hit())]
                    == t.records(n, sites)[count_where(i, t.was_hit())]);
            }
        }
    }
}

/// While the log has room every hit vehicle is in it after the tick, with the place,
/// the kind and the closing speed of its hit, and what was in it before stays first.
pub proof fn every_hit_is_logged(
    w: &NetWorld,
    after: &NetWorld,
    taken: &Fleet,
    fates: Seq<Fate>,
    hits: Seq<Option<Hit>>,
    sites: Seq<Site>,
    wreck_ticks: u16,
    time: Quantity,
    i: int,
)
    requires
        w.ends_as(after, taken, fates, hits, sites, wreck_ticks, time),
        0 <= i < taken.rows@.len(),
        hits[i] is Some,
        w.crash_log@.len() + count_where(taken.rows@.len() as int, |x: int| hits[x] is Some)
            <= MAX_CRASH_SITES,
    ensures
        after.crash_log@.len() == w.crash_log@.len() + count_where(
            taken.rows@.len() as int,
            |x: int| hits[x] is Some,
        ),
        after.crash_log@.take(w.crash_log@.len() as int) == w.crash_log@,
        exists|k: int|
            w.crash_log@.len() <= k < after.crash_log@.len() && #[trigger] after.crash_log@[k] == (
            CrashRecord {
                x: sites[i].x,
                y: sites[i].y,
                kind: (hits[i]->0).kind,
                closing_speed: (hits[i]->0).closing,
            }),
{
    let t = TickEnd { rows: taken.rows@, fates, hits, wreck_ticks };
    let n = taken.rows@.len() as int;
    lemma_count_agree(n, t.was_hit(), |x: int| hits[x] is Some);
    lemma_records(t, n, sites);
    let more = t.records(n, sites);
    let all = w.crash_log@ + more;
    assert(after.crash_log@ == newest(all));
    assert(after.crash_log@ == all);
    assert(all.take(w.crash_log@.len() as int) =~= w.crash_log@);
    assert(t.hits[i] is Some);
    let k = w.crash_log@.len() + count_where(i, t.was_hit());
    assert(all[k] == more[count_where(i, t.was_hit())]);
}

/// A log that overflows keeps its newest end, as much as it holds.
pub proof fn a_full_log_keeps_its_newest_end(log: Seq<CrashRecord>, k: int)
    requires
        log.len() > MAX_CRASH_SITES,
        0 <= k < MAX_CRASH_SITES,
    ensures
        newest(log).len() == MAX_CRASH_SITES,
        newest(log)[k] == log[log.len() - MAX_CRASH_SITES + k],
{
}

/// What a turn leaves of a vehicle within its lane: a wreck stands, who is inside a
/// node waits for its turn; and only a vehicle that is no wreck, inside a node or at
/// the end of its lane, has a turn to take.
pub proof fn a_wreck_stays_put(
    w: &NetWorld,
    v: &NetVehicle,
    m: Option<MovementId>,
    g: MotionView,
)
    ensures
        v.wreck is Some ==> w.advanced(v, m, g) == (NetVehicle { speed: place(ZERO), ..*v })
            && !w.is_deferred(v, g),
        v.wreck is None && v.crossing is Some ==> w.advanced(v, m, g) == *v && w.is_deferred(v, g),
        v.wreck is None && v.crossing is None ==> w.advanced(v, m, g) == w.after_motion(v, m, g) && (
        w.is_deferred(v, g) <==> w.network.lanes@[v.lane.0 as int].length.is_at_most(g.position)),
{
}

} // verus!
