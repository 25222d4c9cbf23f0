//! The pass in which vehicles at lane ends and inside nodes take their turns, in
//! row order. Each turn sees the occupancy and the entries that the turns before
//! it have left.

use vstd::prelude::*;
use crate::boundary::{BoundaryView, COMMITTED_SPEED_SQ};
use crate::boxes::meets_any;
use crate::fleet::{Fate, NetVehicle};
use crate::groups::GroupMap;
use crate::network::MovementId;
use crate::occupancy::ShardMaps;
use crate::quantity::{place, Quantity};
use crate::world::NetWorld;

verus! {

/// What is measured of a vehicle when its turn comes: where motion inside a node
/// takes it, and its view of the boundary.
#[derive(Clone, Copy, Debug, PartialEq, Eq, Structural)]
pub struct TurnView {
    pub speed: Quantity,
    pub position: Quantity,
    pub boundary: BoundaryView,
}

/// What every vehicle brings to the pass.
pub struct Entrants {
    /// It is inside a node or at its lane's end.
    pub deferred: Vec<bool>,
    /// The box ahead is shut to it.
    pub blocked: Vec<bool>,
    /// The movement that it carries into the tick.
    pub carried: Vec<Option<MovementId>>,
}

/// The turns of a pass: the occupancy and the entries before each and after the
/// last, and what was measured for each.
pub struct Turns {
    pub occ: Seq<ShardMaps>,
    pub entered: Seq<GroupMap<MovementId>>,
    pub views: Seq<TurnView>,
}

impl NetWorld {
    /// What becomes of one vehicle in its turn.
    pub open spec fn turn_taken(
        &self,
        before: &NetVehicle,
        after: &NetVehicle,
        deferred: bool,
        blocked: bool,
        carried: Option<MovementId>,
        g: TurnView,
        occ0: &ShardMaps,
        occ1: &ShardMaps,
        entered0: &GroupMap<MovementId>,
        entered1: &GroupMap<MovementId>,
        fate: Fate,
    ) -> bool {
        if !deferred {
            fate == Fate::Alive && *after == *before && *occ1 == *occ0 && *entered1 == *entered0
        } else if before.crossing is Some {
            self.crosses_as(
                before,
                after,
                g.speed,
                g.position,
                occ0,
                occ1,
                g.boundary.landing,
                fate,
            ) && *entered1 == *entered0
        } else {
            self.resolves_as(
                before,
                after,
                blocked,
                carried,
                occ0,
                occ1,
                entered0,
                entered1,
                g.boundary,
                fate,
            )
        }
    }

    /// The first `n` turns of a pass, taken in row order.
    pub open spec fn turns_taken(
        &self,
        before: Seq<NetVehicle>,
        after: Seq<NetVehicle>,
        who: &Entrants,
        t: Turns,
        fates: Seq<Fate>,
        n: int,
    ) -> bool {
        &&& t.occ.len() == n + 1
        &&& t.entered.len() == n + 1
        &&& t.views.len() == n
        &&& forall|i: int|
            0 <= i < n ==> self.turn_taken(
                &before[i],
                &after[i],
                who.deferred@[i],
                who.blocked@[i],
                who.carried@[i],
                #[trigger] t.views[i],
                &t.occ[i],
                &t.occ[i + 1],
                &t.entered[i],
                &t.entered[i + 1],
                fates[i],
            )
    }

    /// What every vehicle brings fits the rows.
    pub open spec fn entrants_fit(&self, rows: Seq<NetVehicle>, who: &Entrants) -> bool {
        &&& who.deferred@.len() == rows.len()
        &&& who.blocked@.len() == rows.len()
        &&& who.carried@.len() == rows.len()
        &&& forall|i: int|
            0 <= i < rows.len() ==> ((#[trigger] who.carried@[i]) matches Some(m)
                ==> self.network.has_movement(m))
    }

    /// The slot counts leave room for `n` more.
    pub open spec fn countable_for(occ: &ShardMaps, n: int) -> bool {
        n < u32::MAX && forall|l: u32| #[trigger]
            occ.interior_occ@.contains_key(l) ==> occ.interior_occ@[l] + n < u32::MAX
    }

    /// Resolve one vehicle, in its turn: nothing happens to one that stayed within
    /// its lane; one inside a node advances there; one at its lane's end enters
    /// the node, is held, or leaves the network.
    pub fn resolve_row(
        &self,
        v: &mut NetVehicle,
        deferred: bool,
        blocked: bool,
        carried: Option<MovementId>,
        occ: &mut ShardMaps,
        entered: &mut GroupMap<MovementId>,
        g: &TurnView,
    ) -> (r: Fate)
        requires
            self.wf(),
            old(v).placed(&self.network),
            carried matches Some(m) ==> self.network.has_movement(m),
            old(entered).wf(),
            Self::countable(old(occ)),
            g.boundary.landing.blend_from matches Some(l) ==> self.network.has_lane(l),
        ensures
            final(v).placed(&self.network),
            final(entered).wf(),
            r is Entered ==> self.network.has_link(r->Entered_0),
            final(v).wait_ticks == old(v).wait_ticks,
            self.turn_taken(
                old(v),
                final(v),
                deferred,
                blocked,
                carried,
                *g,
                old(occ),
                final(occ),
                old(entered),
                final(entered),
                r,
            ),
    {
        if !deferred {
            Fate::Alive
        } else if v.crossing.is_some() {
            self.advance_crossing(v, g.speed, g.position, occ, &g.boundary.landing)
        } else {
            self.resolve_boundary(v, blocked, carried, occ, entered, &g.boundary)
        }
    }

    /// Let every vehicle take its turn, in row order. What is measured of each
    /// is asked for when its turn comes, of the occupancy as it then is.
    pub fn resolve_all<F: Fn(&NetWorld, usize, &NetVehicle, &ShardMaps) -> TurnView>(
        &self,
        rows: Vec<NetVehicle>,
        who: &Entrants,
        occ: &mut ShardMaps,
        entered: &mut GroupMap<MovementId>,
        measure: F,
    ) -> (r: (Vec<NetVehicle>, Vec<Fate>))
        requires
            self.wf(),
            self.all_placed(rows@),
            self.entrants_fit(rows@, who),
            old(entered).wf(),
            Self::countable_for(old(occ), rows@.len() as int),
            forall|i: usize, v: &NetVehicle, o: &ShardMaps|
                i < rows@.len() ==> #[trigger] call_requires(measure, (self, i, v, o)),
            forall|i: usize, v: &NetVehicle, o: &ShardMaps, g: TurnView|
                i < rows@.len() && #[trigger] call_ensures(measure, (self, i, v, o), g) ==> (
                g.boundary.landing.blend_from matches Some(l) ==> self.network.has_lane(l)),
        ensures
            r.0@.len() == rows@.len(),
            r.1@.len() == rows@.len(),
            self.all_placed(r.0@),
            final(entered).wf(),
            forall|i: int|
                0 <= i < rows@.len() && (#[trigger] r.1@[i]) is Entered ==> self.network.has_link(
                    r.1@[i]->Entered_0,
                ),
            forall|i: int|
                0 <= i < rows@.len() ==> (#[trigger] r.0@[i]).wait_ticks == rows@[i].wait_ticks,
            exists|t: Turns| #[trigger]
                self.turns_taken(rows@, r.0@, who, t, r.1@, rows@.len() as int) && t.occ[0] == *old(
                    occ,
                ) && t.occ[rows@.len() as int] == *final(occ) && t.entered[0] == *old(entered)
                    && t.entered[rows@.len() as int] == *final(entered) && forall|i: int|
                    0 <= i < rows@.len() ==> call_ensures(
                        measure,
                        (self, i as usize, &rows@[i], &t.occ[i]),
                        #[trigger] t.views[i],
                    ),
    {
        let n = rows.len();
        let ghost all = rows@;
        let mut rest = crate::fleet::reversed(rows);
        let mut out: Vec<NetVehicle> = Vec::new();
        let mut fates: Vec<Fate> = Vec::new();
        let ghost mut t = Turns { occ: seq![*occ], entered: seq![*entered], views: Seq::empty() };
        let mut i: usize = 0;
        while i < n
            invariant
                self.wf(),
                self.all_placed(all),
                self.entrants_fit(all, who),
                n == all.len(),
                i <= n,
                rest@.len() == n - i,
                forall|k: int| 0 <= k < rest@.len() ==> #[trigger] rest@[k] == all[n - 1 - k],
                out@.len() == i,
                fates@.len() == i,
                self.all_placed(out@),
                forall|k: int|
                    0 <= k < i && (#[trigger] fates@[k]) is Entered ==> self.network.has_link(
                        fates@[k]->Entered_0,
                    ),
                forall|k: int|
                    0 <= k < i ==> (#[trigger] out@[k]).wait_ticks == all[k].wait_ticks,
                entered.wf(),
                Self::countable_for(occ, n - i),
                forall|k: usize, v: &NetVehicle, o: &ShardMaps|
                    k < n ==> #[trigger] call_requires(measure, (self, k, v, o)),
                forall|k: usize, v: &NetVehicle, o: &ShardMaps, g: TurnView|
                    k < n && #[trigger] call_ensures(measure, (self, k, v, o), g) ==> (
                    g.boundary.landing.blend_from matches Some(l) ==> self.network.has_lane(l)),
                self.turns_taken(all, out@, who, t, fates@, i as int),
                t.occ[0] == *old(occ),
                t.occ[i as int] == *occ,
                t.entered[0] == *old(entered),
                t.entered[i as int] == *entered,
                forall|k: int|
                    0 <= k < i ==> call_ensures(
                        measure,
                        (self, k as usize, &all[k], &t.occ[k]),
                        #[trigger] t.views[k],
                    ),
            decreases n - i,
        {
            let mut v = rest.pop().unwrap();
            assert(v == all[i as int]);
            assert(all[i as int].placed(&self.network));
            assert(who.carried@[i as int] matches Some(m) ==> self.network.has_movement(m));
            let g = measure(self, i, &v, occ);
            let ghost occ0 = *occ;
            let ghost entered0 = *entered;
            let ghost out0 = out@;
            let ghost fates0 = fates@;
            let ghost t0 = t;
            let fate = self.resolve_row(
                &mut v,
                who.deferred[i],
                who.blocked[i],
                who.carried[i],
                occ,
                entered,
                &g,
            );
            proof {
                self.lemma_countable(
                    &all[i as int],
                    &v,
                    who.deferred@[i as int],
                    who.blocked@[i as int],
                    who.carried@[i as int],
                    g,
                    &occ0,
                    occ,
                    &entered0,
                    entered,
                    fate,
                    n - i,
                );
                t = Turns {
                    occ: t.occ.push(*occ),
                    entered: t.entered.push(*entered),
                    views: t.views.push(g),
                };
            }
            out.push(v);
            fates.push(fate);
            assert forall|k: int| 0 <= k < i + 1 implies self.turn_taken(
                &all[k],
                &out@[k],
                who.deferred@[k],
                who.blocked@[k],
                who.carried@[k],
                #[trigger] t.views[k],
                &t.occ[k],
                &t.occ[k + 1],
                &t.entered[k],
                &t.entered[k + 1],
                fates@[k],
            ) by {
                if k < i {
                    assert(t.views[k] == t0.views[k]);
                    assert(out@[k] == out0[k] && fates@[k] == fates0[k]);
                }
            }
            assert forall|k: int| 0 <= k < i + 1 implies call_ensures(
                measure,
                (self, k as usize, &all[k], &t.occ[k]),
                #[trigger] t.views[k],
            ) by {
                if k < i {
                    assert(t.views[k] == t0.views[k]);
                }
            }
            i += 1;
        }
        (out, fates)
    }

    /// A turn takes at most one slot more on any inner lane.
    proof fn lemma_countable(
        &self,
        before: &NetVehicle,
        after: &NetVehicle,
        deferred: bool,
        blocked: bool,
        carried: Option<MovementId>,
        g: TurnView,
        occ0: &ShardMaps,
        occ1: &ShardMaps,
        entered0: &GroupMap<MovementId>,
        entered1: &GroupMap<MovementId>,
        fate: Fate,
        n: int,
    )
        requires
            n > 0,
            Self::countable_for(occ0, n),
            self.turn_taken(
                before,
                after,
                deferred,
                blocked,
                carried,
                g,
                occ0,
                occ1,
                entered0,
                entered1,
                fate,
            ),
        ensures
            Self::countable_for(occ1, n - 1),
    {
        assert forall|l: u32| #[trigger] occ1.interior_occ@.contains_key(l) implies occ1.interior_occ@[l] + (n
            - 1) < u32::MAX by {
            assert(occ0.interior_occ@.contains_key(l) ==> occ0.interior_occ@[l] + n < u32::MAX);
        }
    }

    /// A vehicle enters a node in its turn.
    pub open spec fn enters(
        &self,
        before: Seq<NetVehicle>,
        who: &Entrants,
        t: Turns,
        i: int,
        m: MovementId,
    ) -> bool {
        &&& who.deferred@[i]
        &&& before[i].crossing is None
        &&& self.resolved(&before[i], who.carried@[i]) == Some(m)
        &&& self.admits(
            &before[i],
            m,
            who.blocked@[i],
            &t.occ[i],
            &t.entered[i],
            t.views[i].boundary,
        )
    }

    /// Two paths cross somewhere inside one intersection.
    pub open spec fn paths_clash(&self, a: Seq<MovementId>, b: Seq<MovementId>) -> bool {
        exists|x: int, y: int|
            0 <= x < a.len() && 0 <= y < b.len() && #[trigger] self.clash(a[x], b[y])
    }

    /// Two movements cross inside one intersection.
    pub open spec fn clash(&self, a: MovementId, b: MovementId) -> bool {
        self.movement_key(a) == self.movement_key(b) && self.network.paths_cross(a, b)
    }
}

/// What is registered stays registered to the end of the pass.
proof fn lemma_entries_stay(
    w: &NetWorld,
    before: Seq<NetVehicle>,
    after: Seq<NetVehicle>,
    who: &Entrants,
    t: Turns,
    fates: Seq<Fate>,
    n: int,
    i: int,
    j: int,
    key: u32,
    m: MovementId,
)
    requires
        w.turns_taken(before, after, who, t, fates, n),
        0 <= i <= j <= n,
        t.entered[i].group(key).contains(m),
    ensures
        t.entered[j].group(key).contains(m),
    decreases j - i,
{
    if i < j {
        lemma_entries_stay(w, before, after, who, t, fates, n, i, j - 1, key, m);
        // the turn before `j`
        let _turn = t.views[j - 1];
        let old_group = t.entered[j - 1].group(key);
        let k = choose|k: int| 0 <= k < old_group.len() && old_group[k] == m;
        assert(t.entered[j - 1 + 1] == t.entered[j]);
        if t.entered[j] != t.entered[j - 1] {
            let x = w.resolved(&before[j - 1], who.carried@[j - 1])->0;
            assert(t.entered[j].group(key) == old_group + w.at_key(
                w.registers(&before[j - 1], x),
                key,
            ));
            assert(t.entered[j].group(key)[k] == m);
        }
    }
}

/// The movements of a path at an intersection are among those kept for it.
proof fn lemma_at_key(w: &NetWorld, path: Seq<MovementId>, y: int)
    requires
        0 <= y < path.len(),
    ensures
        w.at_key(path, w.movement_key(path[y])).contains(path[y]),
    decreases path.len(),
{
    let key = w.movement_key(path[y]);
    let rest = w.at_key(path.drop_last(), key);
    if y == path.len() - 1 {
        assert(w.at_key(path, key) == rest.push(path.last()));
        assert(w.at_key(path, key)[rest.len() as int] == path[y]);
    } else {
        lemma_at_key(w, path.drop_last(), y);
        assert(path.drop_last()[y] == path[y]);
        let k = choose|k: int| 0 <= k < rest.len() && rest[k] == path[y];
        assert(w.at_key(path, key)[k] == path[y]);
    }
}

/// Of two vehicles that enter in one tick on paths that cross at grade, the later
/// one was too fast to stop: what the first has committed to is closed to all
/// who can hold.
pub proof fn same_tick_entries_do_not_cross(
    w: &NetWorld,
    before: Seq<NetVehicle>,
    after: Seq<NetVehicle>,
    who: &Entrants,
    t: Turns,
    fates: Seq<Fate>,
    n: int,
    i: int,
    j: int,
    mi: MovementId,
    mj: MovementId,
)
    requires
        w.turns_taken(before, after, who, t, fates, n),
        0 <= i < j < n,
        w.enters(before, who, t, i, mi),
        w.enters(before, who, t, j, mj),
        w.paths_clash(w.committed_path(&before[j], mj), w.registers(&before[i], mi)),
    ensures
        place(COMMITTED_SPEED_SQ).is_below(t.views[j].boundary.speed_sq),
{
    let path = w.committed_path(&before[j], mj);
    let taken = w.registers(&before[i], mi);
    let (x, y) = choose|x: int, y: int|
        0 <= x < path.len() && 0 <= y < taken.len() && #[trigger] w.clash(path[x], taken[y]);
    let key = w.movement_key(path[x]);
    lemma_at_key(w, taken, y);
    // the turn of `i`
    let _turn = t.views[i];
    let before_group = t.entered[i].group(key);
    let added = w.at_key(taken, key);
    assert(t.entered[i + 1].group(key) == before_group + added);
    let k = choose|k: int| 0 <= k < added.len() && added[k] == taken[y];
    assert(t.entered[i + 1].group(key)[before_group.len() + k] == taken[y]);
    lemma_entries_stay(w, before, after, who, t, fates, n, i + 1, j, key, taken[y]);
    let group = t.entered[j].group(key);
    let z = choose|z: int| 0 <= z < group.len() && group[z] == taken[y];
    assert(w.network.paths_cross(path[x], group[z]));
    assert(meets_any(&w.network, path[x], group));
    assert(w.entered_meets(path[x], &t.entered[j]));
    assert(w.meets_entered(path, &t.entered[j]));
}

} // verus!
