//! One tick of the world: the decisions of all vehicles, and the fleet that
//! comes out once their fates are known.

use vstd::prelude::*;
use crate::backend::{map_collect, LIGHT_PAR_THRESHOLD};
use crate::boundary::MotionView;
use crate::crashes::{newest, Hit};
use crate::fleet::{recent, record_history, recorded, reversed, Fate, Fleet, History, NetVehicle, Sample, HISTORY_LEN};
use crate::groups::GroupMap;
use crate::intent::{Sight, Sleep};
use crate::lanes::{LaneOptions, LaneView};
use crate::neighbors::{Neighbors, MOVING_SPEED};
use crate::network::{LinkId, MovementId};
use crate::quantity::{place, Quantity, ZERO};
use crate::search::{count_where, lemma_count_bounds};
use crate::world::{CrashKind, CrashRecord, NetWorld, MAX_CRASH_SITES};

verus! {

/// Where a vehicle is, in single-precision bit patterns.
#[derive(Clone, Copy, Debug, PartialEq, Eq, Structural)]
pub struct Site {
    pub x: u32,
    pub y: u32,
}

/// The end of a tick: every vehicle with its fate and how it was hit, and how
/// long a wreck stays on the road.
pub struct TickEnd {
    pub rows: Seq<NetVehicle>,
    pub fates: Seq<Fate>,
    pub hits: Seq<Option<Hit>>,
    pub wreck_ticks: u16,
}

impl TickEnd {
    /// Of a row: it is taken off the road as a wreck, at once or in time.
    pub open spec fn is_cleared(&self) -> spec_fn(int) -> bool {
        |i: int|
            if self.hits[i] is Some {
                self.wreck_ticks == 0
            } else {
                self.rows[i].wreck is Some && self.rows[i].wreck->0 <= 1
            }
    }

    /// Of a row: it left the network.
    pub open spec fn has_exited(&self) -> spec_fn(int) -> bool {
        |i: int| !self.is_cleared()(i) && self.fates[i] == Fate::Exited
    }

    /// Of a row: it disappeared at a node.
    pub open spec fn has_leaked(&self) -> spec_fn(int) -> bool {
        |i: int| !self.is_cleared()(i) && self.fates[i] == Fate::Leaked
    }

    /// Of a row: it is still there.
    pub open spec fn is_kept(&self) -> spec_fn(int) -> bool {
        |i: int|
            !self.is_cleared()(i) && self.fates[i] != Fate::Exited && self.fates[i] != Fate::Leaked
    }

    /// Of a row: it entered the link, whatever became of it there.
    pub open spec fn has_entered(&self, link: LinkId) -> spec_fn(int) -> bool {
        |i: int| self.fates[i] == Fate::Entered(link)
    }

    /// Of a row: it was hit.
    pub open spec fn was_hit(&self) -> spec_fn(int) -> bool {
        |i: int| self.hits[i] is Some
    }

    /// Of a row: it was hit in this way.
    pub open spec fn was_hit_by(&self, kind: CrashKind) -> spec_fn(int) -> bool {
        |i: int| self.hits[i] is Some && (self.hits[i]->0).kind == kind
    }

    /// A row once hits and wreck timers have been applied: freshly hit it stands
    /// as a wreck, and an older wreck counts down.
    pub open spec fn wrecked(&self, i: int) -> NetVehicle {
        let v = self.rows[i];
        if self.hits[i] is Some {
            NetVehicle { wreck: Some(self.wreck_ticks), speed: place(ZERO), ..v }
        } else {
            match v.wreck {
                Some(t) => NetVehicle { wreck: Some((t - 1) as u16), ..v },
                None => v,
            }
        }
    }

    /// A kept row at the end of the tick: standing it waits on, and moving or
    /// entering a link it waits no more.
    pub open spec fn survivor(&self, i: int) -> NetVehicle {
        let v = self.wrecked(i);
        NetVehicle {
            wait_ticks: if self.fates[i] == Fate::Alive && v.speed.is_below(place(MOVING_SPEED)) {
                (v.wait_ticks + 1) as u32
            } else {
                0
            },
            ..v
        }
    }

    /// The history of a kept row, from the one it had: begun anew on entering a link.
    pub open spec fn history(&self, i: int, before: Seq<Sample>) -> Seq<Sample> {
        let v = self.wrecked(i);
        recorded(
            if self.fates[i] is Entered {
                Seq::empty()
            } else {
                before
            },
            Sample { position: v.position, speed: v.speed },
        )
    }

    /// The kept rows among the first `n`, in order.
    pub open spec fn survivors(&self, n: int) -> Seq<NetVehicle>
        decreases n,
    {
        if n <= 0 {
            Seq::empty()
        } else if self.is_kept()(n - 1) {
            self.survivors(n - 1).push(self.survivor(n - 1))
        } else {
            self.survivors(n - 1)
        }
    }

    /// Their histories.
    pub open spec fn histories(&self, n: int, fleet: &Fleet) -> Seq<Seq<Sample>>
        decreases n,
    {
        if n <= 0 {
            Seq::empty()
        } else if self.is_kept()(n - 1) {
            self.histories(n - 1, fleet).push(self.history(n - 1, fleet.samples(n - 1)))
        } else {
            self.histories(n - 1, fleet)
        }
    }

    /// The records of the hits among the first `n` rows, in order.
    pub open spec fn records(&self, n: int, sites: Seq<Site>) -> Seq<CrashRecord>
        decreases n,
    {
        if n <= 0 {
            Seq::empty()
        } else {
            match self.hits[n - 1] {
                Some(h) => self.records(n - 1, sites).push(
                    CrashRecord {
                        x: sites[n - 1].x,
                        y: sites[n - 1].y,
                        kind: h.kind,
                        closing_speed: h.closing,
                    },
                ),
                None => self.records(n - 1, sites),
            }
        }
    }
}

proof fn lemma_newest(log: Seq<CrashRecord>, more: Seq<CrashRecord>, r: CrashRecord)
    ensures
        newest(newest(log + more).push(r)) == newest(log + more.push(r)),
{
    let s = log + more;
    assert(log + more.push(r) =~= s.push(r));
    if s.len() <= MAX_CRASH_SITES {
    } else {
        assert(newest(s).push(r) =~= s.push(r).subrange(
            s.len() - MAX_CRASH_SITES,
            s.push(r).len() as int,
        ));
        assert(newest(newest(s).push(r)) =~= newest(s.push(r)));
    }
}

/// No vehicle is lost or made: every row is kept, has exited, has leaked, or is
/// cleared as a wreck, and is only one of these.
pub proof fn vehicles_are_conserved(t: TickEnd, n: int)
    requires
        0 <= n <= t.rows.len(),
    ensures
        n == t.survivors(n).len() + count_where(n, t.has_exited()) + count_where(n, t.has_leaked())
            + count_where(n, t.is_cleared()),
    decreases n,
{
    if n > 0 {
        vehicles_are_conserved(t, n - 1);
    }
}

/// A wreck that is left alone stands for exactly the ticks it was given: it is
/// kept while more than one is left, and cleared at the last.
pub proof fn a_wreck_stands_for_its_ticks(t: TickEnd, i: int)
    requires
        0 <= i < t.rows.len(),
        t.hits[i] is None,
        t.rows[i].wreck is Some,
        t.fates[i] == Fate::Alive,
    ensures
        t.rows[i].wreck->0 <= 1 ==> t.is_cleared()(i),
        t.rows[i].wreck->0 > 1 ==> t.is_kept()(i) && t.survivor(i).wreck == Some(
            (t.rows[i].wreck->0 - 1) as u16,
        ),
{
}

/// A vehicle that is hit stops where it is and becomes a wreck, or is gone at
/// once when wrecks are not kept.
pub proof fn a_hit_vehicle_becomes_a_standing_wreck(t: TickEnd, i: int)
    requires
        0 <= i < t.rows.len(),
        t.hits[i] is Some,
        t.fates[i] == Fate::Alive,
    ensures
        t.wreck_ticks == 0 <==> t.is_cleared()(i),
        t.wreck_ticks > 0 ==> t.is_kept()(i) && t.survivor(i).wreck == Some(t.wreck_ticks)
            && t.survivor(i).speed == place(ZERO) && t.survivor(i).position == t.rows[i].position,
{
}

impl NetWorld {
    /// Take the fleet out of the world, leaving it without vehicles.
    pub fn take_fleet(&mut self) -> (r: Fleet)
        requires
            old(self).wf(),
        ensures
            final(self).wf(),
            r == old(self).fleet,
            *final(self) == (NetWorld { fleet: final(self).fleet, ..*old(self) }),
            final(self).rows().len() == 0,
    {
        let mut out = Fleet::new();
        std::mem::swap(&mut out, &mut self.fleet);
        out
    }

    /// Of a decision: the vehicle sleeps.
    pub open spec fn is_asleep(decided: Seq<(Option<MovementId>, Sleep)>) -> spec_fn(int) -> bool {
        |i: int| decided[i].1 != Sleep::Awake
    }

    /// Every vehicle's decision: its movement and whether it sleeps. Run on the
    /// active backend; the order is that of the rows.
    pub fn decide_all(&self, nb: &Neighbors, sights: &Vec<Sight>) -> (r: Vec<(
        Option<MovementId>,
        Sleep,
    )>)
        requires
            self.wf(),
            self.led(nb),
            sights@.len() == self.rows().len(),
        ensures
            r@.len() == self.rows().len(),
            forall|i: int|
                0 <= i < r@.len() ==> #[trigger] r@[i] == self.decision(i, nb, sights@[i]),
            forall|i: int|
                0 <= i < r@.len() ==> ((#[trigger] r@[i]).0 matches Some(m)
                    ==> self.network.has_movement(m)),
    {
        let one = |i: usize| -> (d: (Option<MovementId>, Sleep))
            requires
                self.wf(),
                self.led(nb),
                i < self.rows().len(),
                sights@.len() == self.rows().len(),
            ensures
                d == self.decision(i as int, nb, sights@[i as int]),
                d.0 matches Some(m) ==> self.network.has_movement(m),
            { self.decide_intent(i, nb, &sights[i]) };
        map_collect(self.active_backend(), self.par_threshold, self.fleet.rows.len(), one)
    }

    /// Every vehicle's options to change lanes; nothing for those that do not
    /// look for one this tick. Run on the active backend once there are enough
    /// vehicles for a light pass.
    pub fn lane_change_candidates(
        &self,
        by_lane: &GroupMap<usize>,
        views: &Vec<LaneView>,
        hov_ok: &Vec<bool>,
    ) -> (r: Vec<Option<LaneOptions>>)
        requires
            self.wf(),
            self.rolling_groups(by_lane),
            views@.len() == self.rows().len(),
            hov_ok@.len() == self.rows().len(),
            forall|i: int|
                0 <= i < views@.len() ==> (#[trigger] views@[i]).windows@.len()
                    >= self.network.link_at(self.network.link_of(self.rows()[i].lane)).lane_count,
        ensures
            r@.len() == self.rows().len(),
            forall|i: int|
                0 <= i < r@.len() ==> #[trigger] r@[i] == (if self.looks_sideways(i) {
                    Some(
                        LaneOptions {
                            left: self.option_on(i, &views@[i], hov_ok@[i], -1),
                            right: self.option_on(i, &views@[i], hov_ok@[i], 1),
                        },
                    )
                } else {
                    None
                }),
    {
        let threshold: usize = if self.par_threshold < LIGHT_PAR_THRESHOLD {
            LIGHT_PAR_THRESHOLD
        } else {
            self.par_threshold
        };
        let one = |i: usize| -> (d: Option<LaneOptions>)
            requires
                self.wf(),
                self.rolling_groups(by_lane),
                i < self.rows().len(),
                views@.len() == self.rows().len(),
                hov_ok@.len() == self.rows().len(),
                views@[i as int].windows@.len() >= self.network.link_at(
                    self.network.link_of(self.rows()[i as int].lane),
                ).lane_count,
            ensures
                d == (if self.looks_sideways(i as int) {
                    Some(
                        LaneOptions {
                            left: self.option_on(
                                i as int,
                                &views@[i as int],
                                hov_ok@[i as int],
                                -1,
                            ),
                            right: self.option_on(
                                i as int,
                                &views@[i as int],
                                hov_ok@[i as int],
                                1,
                            ),
                        },
                    )
                } else {
                    None
                }),
            {
                if self.considers_lane_change(i) {
                    Some(self.lane_options(i, by_lane, &views[i], hov_ok[i]))
                } else {
                    None
                }
            };
        map_collect(self.active_backend(), threshold, self.fleet.rows.len(), one)
    }

    /// Note who sleeps: in every row, and how many in all.
    pub fn note_sleepers(&mut self, decided: &Vec<(Option<MovementId>, Sleep)>)
        requires
            old(self).wf(),
            decided@.len() == old(self).rows().len(),
        ensures
            final(self).wf(),
            *final(self) == (NetWorld {
                fleet: final(self).fleet,
                asleep_last: final(self).asleep_last,
                ..*old(self)
            }),
            final(self).asleep_last == count_where(
                decided@.len() as int,
                Self::is_asleep(decided@),
            ),
            final(self).rows().len() == old(self).rows().len(),
            forall|i: int|
                0 <= i < final(self).rows().len() ==> #[trigger] final(self).rows()[i] == (
                NetVehicle { slept: decided@[i].1 != Sleep::Awake, ..old(self).rows()[i] })
                    && final(self).fleet.samples(i) == old(self).fleet.samples(i),
    {
        let n = self.fleet.rows.len();
        let mut asleep: usize = 0;
        let mut i: usize = 0;
        while i < n
            invariant
                old(self).wf(),
                n == old(self).rows().len(),
                decided@.len() == n,
                i <= n,
                *self == (NetWorld { fleet: self.fleet, ..*old(self) }),
                self.fleet.hist@ == old(self).fleet.hist@,
                self.fleet.hist_len@ == old(self).fleet.hist_len@,
                self.fleet.rows@.len() == n,
                asleep == count_where(i as int, Self::is_asleep(decided@)),
                asleep <= i,
                forall|k: int|
                    0 <= k < i ==> #[trigger] self.fleet.rows@[k] == (NetVehicle {
                        slept: decided@[k].1 != Sleep::Awake,
                        ..old(self).rows()[k]
                    }),
                forall|k: int|
                    i <= k < n ==> #[trigger] self.fleet.rows@[k] == old(self).rows()[k],
            decreases n - i,
        {
            let slept = match decided[i].1 {
                Sleep::Awake => false,
                _ => true,
            };
            self.fleet.rows[i].slept = slept;
            if slept {
                asleep += 1;
            }
            i += 1;
        }
        self.asleep_last = asleep;
        assert forall|k: int| 0 <= k < n implies (#[trigger] self.fleet.rows@[k]).placed(
            &self.network,
        ) by {
            assert(old(self).rows()[k].placed(&self.network));
        }
        assert forall|k: int| 0 <= k < n implies 1 <= #[trigger] self.fleet.hist_len@[k]
            <= HISTORY_LEN by {
            assert(1 <= old(self).fleet.hist_len@[k] <= HISTORY_LEN);
        }
    }

    /// A vehicle once it has moved within its lane: a wreck stays put, and one
    /// inside a node moves when its turn comes.
    pub open spec fn advanced(&self, v: &NetVehicle, m: Option<MovementId>, g: MotionView) -> NetVehicle {
        if v.wreck is Some {
            NetVehicle { speed: place(ZERO), ..*v }
        } else if v.crossing is Some {
            *v
        } else {
            self.after_motion(v, m, g)
        }
    }

    /// A vehicle has a turn to take: it is inside a node or at its lane's end, and
    /// no wreck.
    pub open spec fn is_deferred(&self, v: &NetVehicle, g: MotionView) -> bool {
        v.wreck is None && (v.crossing is Some || self.network.lane_at(
            v.lane,
        ).length.is_at_most(g.position))
    }

    /// Move a vehicle to its measured state within its lane. Says whether it has a
    /// turn to take.
    pub fn advance_row(&self, v: &mut NetVehicle, m: Option<MovementId>, g: &MotionView) -> (r: bool)
        requires
            self.wf(),
            old(v).placed(&self.network),
            m matches Some(x) ==> self.network.has_movement(x),
        ensures
            final(v).placed(&self.network),
            *final(v) == self.advanced(old(v), m, *g),
            r == self.is_deferred(old(v), *g),
    {
        if v.wreck.is_some() {
            v.speed = Quantity::at(ZERO);
            return false;
        }
        v.crossing.is_some() || self.integrate_in_lane(v, m, g)
    }

    /// Move every vehicle to its measured state within its lane. Says of each
    /// whether it has a turn to take.
    pub fn advance_all(
        &self,
        rows: Vec<NetVehicle>,
        carried: &Vec<Option<MovementId>>,
        views: &Vec<MotionView>,
    ) -> (r: (Vec<NetVehicle>, Vec<bool>))
        requires
            self.wf(),
            self.all_placed(rows@),
            carried@.len() == rows@.len(),
            views@.len() == rows@.len(),
            forall|i: int|
                0 <= i < rows@.len() ==> ((#[trigger] carried@[i]) matches Some(m)
                    ==> self.network.has_movement(m)),
        ensures
            r.0@.len() == rows@.len(),
            r.1@.len() == rows@.len(),
            self.all_placed(r.0@),
            forall|i: int|
                0 <= i < rows@.len() ==> #[trigger] r.0@[i] == self.advanced(
                    &rows@[i],
                    carried@[i],
                    views@[i],
                ),
            forall|i: int|
                0 <= i < rows@.len() ==> #[trigger] r.1@[i] == self.is_deferred(
                    &rows@[i],
                    views@[i],
                ),
    {
        let n = rows.len();
        let ghost all = rows@;
        let mut rest = reversed(rows);
        let mut out: Vec<NetVehicle> = Vec::new();
        let mut deferred: Vec<bool> = Vec::new();
        let mut i: usize = 0;
        while i < n
            invariant
                self.wf(),
                self.all_placed(all),
                n == all.len(),
                carried@.len() == n,
                views@.len() == n,
                forall|k: int|
                    0 <= k < n ==> ((#[trigger] carried@[k]) matches Some(m)
                        ==> self.network.has_movement(m)),
                i <= n,
                rest@.len() == n - i,
                forall|k: int| 0 <= k < rest@.len() ==> #[trigger] rest@[k] == all[n - 1 - k],
                out@.len() == i,
                deferred@.len() == i,
                self.all_placed(out@),
                forall|k: int|
                    0 <= k < i ==> #[trigger] out@[k] == self.advanced(
                        &all[k],
                        carried@[k],
                        views@[k],
                    ),
                forall|k: int|
                    0 <= k < i ==> #[trigger] deferred@[k] == self.is_deferred(&all[k], views@[k]),
            decreases n - i,
        {
            let mut v = rest.pop().unwrap();
            assert(v == all[i as int]);
            assert(all[i as int].placed(&self.network));
            assert(carried@[i as int] matches Some(m) ==> self.network.has_movement(m));
            let later = self.advance_row(&mut v, carried[i], &views[i]);
            out.push(v);
            deferred.push(later);
            i += 1;
        }
        (out, deferred)
    }

    /// Count one crash and append its record, dropping the oldest beyond the cap.
    pub fn record_crash(&mut self, r: CrashRecord)
        requires
            old(self).wf(),
            old(self).crashed < u32::MAX,
        ensures
            final(self).wf(),
            *final(self) == (NetWorld {
                crash_log: final(self).crash_log,
                crashed: (old(self).crashed + 1) as u32,
                crashed_by: final(self).crashed_by,
                ..*old(self)
            }),
            final(self).crash_log@ == newest(old(self).crash_log@.push(r)),
            final(self).crashed_by@ == (match r.kind {
                CrashKind::RearEnd => old(self).crashed_by@.update(
                    0,
                    (old(self).crashed_by@[0] + 1) as u32,
                ),
                CrashKind::Junction => old(self).crashed_by@.update(
                    1,
                    (old(self).crashed_by@[1] + 1) as u32,
                ),
            }),
    {
        self.log_crash(r);
    }

    /// The counters can take another fleet's worth.
    pub open spec fn can_count(&self, n: nat) -> bool {
        &&& self.crashed + n <= u32::MAX
        &&& self.exited + n <= u32::MAX
        &&& self.leaked + n <= u32::MAX
        &&& self.tick < u64::MAX
        &&& forall|l: int|
            0 <= l < self.link_entries@.len() ==> #[trigger] self.link_entries@[l] + n <= u32::MAX
    }
}

/// What has been put together from the first `i` rows.
spec fn assembled(
    t: TickEnd,
    taken: &Fleet,
    i: int,
    rows: Seq<NetVehicle>,
    hist: Seq<History>,
    hist_len: Seq<u8>,
) -> bool {
    &&& rows == t.survivors(i)
    &&& hist.len() == rows.len()
    &&& hist_len.len() == rows.len()
    &&& t.histories(i, taken).len() == rows.len()
    &&& forall|k: int|
        0 <= k < rows.len() ==> 1 <= #[trigger] hist_len[k] <= HISTORY_LEN && recent(
            hist[k],
            hist_len[k],
        ) == t.histories(i, taken)[k]
}

/// What has been counted from the first `i` rows.
spec fn counted(
    t: TickEnd,
    w: &NetWorld,
    i: int,
    exited: u32,
    leaked: u32,
    entries: Seq<u32>,
) -> bool {
    &&& exited == w.exited + count_where(i, t.has_exited())
    &&& leaked == w.leaked + count_where(i, t.has_leaked())
    &&& entries.len() == w.link_entries@.len()
    &&& forall|l: int|
        0 <= l < entries.len() ==> #[trigger] entries[l] == w.link_entries@[l] + count_where(
            i,
            t.has_entered(LinkId(l as u32)),
        )
}

impl NetWorld {
    /// What the end of a tick makes of the world, from the fleet that was taken
    /// out of it and every vehicle's fate.
    pub open spec fn ends_as(
        &self,
        after: &NetWorld,
        taken: &Fleet,
        fates: Seq<Fate>,
        hits: Seq<Option<Hit>>,
        sites: Seq<Site>,
        wreck_ticks: u16,
        time: Quantity,
    ) -> bool {
        let t = TickEnd { rows: taken.rows@, fates, hits, wreck_ticks };
        let n = taken.rows@.len() as int;
        &&& after.rows() == t.survivors(n)
        &&& forall|k: int|
            0 <= k < after.rows().len() ==> #[trigger] after.fleet.samples(k) == t.histories(
                n,
                taken,
            )[k]
        &&& after.exited == self.exited + count_where(n, t.has_exited())
        &&& after.leaked == self.leaked + count_where(n, t.has_leaked())
        &&& after.crashed == self.crashed + count_where(n, t.was_hit())
        &&& after.crashed_by@[0] == self.crashed_by@[0] + count_where(
            n,
            t.was_hit_by(CrashKind::RearEnd),
        )
        &&& after.crashed_by@[1] == self.crashed_by@[1] + count_where(
            n,
            t.was_hit_by(CrashKind::Junction),
        )
        &&& after.crash_log@ == newest(self.crash_log@ + t.records(n, sites))
        &&& after.link_entries@.len() == self.link_entries@.len()
        &&& forall|l: int|
            0 <= l < after.link_entries@.len() ==> #[trigger] after.link_entries@[l]
                == self.link_entries@[l] + count_where(n, t.has_entered(LinkId(l as u32)))
        &&& after.tick == self.tick + 1
        &&& *after == (NetWorld {
            fleet: after.fleet,
            exited: after.exited,
            leaked: after.leaked,
            crashed: after.crashed,
            crashed_by: after.crashed_by,
            crash_log: after.crash_log,
            link_entries: after.link_entries,
            tick: after.tick,
            time,
            ..*self
        })
    }

    /// Put the fleet together again once every vehicle's fate is known: hit
    /// vehicles become wrecks or go, wrecks count down, those who left are
    /// dropped, and all of it is counted. Then the clock moves on.
    pub fn assemble(
        &mut self,
        taken: Fleet,
        fates: &Vec<Fate>,
        hits: &Vec<Option<Hit>>,
        sites: &Vec<Site>,
        wreck_ticks: u16,
        time: Quantity,
    )
        requires
            old(self).wf(),
            taken.wf(),
            taken.on(&old(self).network),
            fates@.len() == taken.rows@.len(),
            hits@.len() == taken.rows@.len(),
            sites@.len() == taken.rows@.len(),
            old(self).can_count(taken.rows@.len()),
            forall|i: int|
                0 <= i < taken.rows@.len() ==> (#[trigger] taken.rows@[i]).wait_ticks < u32::MAX,
            forall|i: int|
                0 <= i < fates@.len() && (#[trigger] fates@[i]) is Entered ==> old(
                    self
                ).network.has_link(fates@[i]->Entered_0),
        ensures
            final(self).wf(),
            old(self).ends_as(final(self), &taken, fates@, hits@, sites@, wreck_ticks, time),
    {
        let ghost t = TickEnd { rows: taken.rows@, fates: fates@, hits: hits@, wreck_ticks };
        let ghost start = *self;
        let ghost fleet = taken;
        let n = taken.rows.len();
        let mut exited = self.exited;
        let mut leaked = self.leaked;
        let mut entries: Vec<u32> = Vec::new();
        std::mem::swap(&mut entries, &mut self.link_entries);
        let Fleet { rows: taken_rows, hist: taken_hist, hist_len: taken_len } = taken;
        let mut stack = reversed(taken_rows);
        let mut rows: Vec<NetVehicle> = Vec::new();
        let mut hist: Vec<History> = Vec::new();
        let mut hist_len: Vec<u8> = Vec::new();
        let mut i: usize = 0;
        assert(start.crash_log@ + t.records(0, sites@) =~= start.crash_log@);
        while i < n
            invariant
                i <= n,
                n == fleet.rows@.len(),
                fleet.wf(),
                fleet.on(&start.network),
                start.wf(),
                start.can_count(n as nat),
                t == (TickEnd {
                    rows: fleet.rows@,
                    fates: fates@,
                    hits: hits@,
                    wreck_ticks,
                }),
                fates@.len() == n,
                hits@.len() == n,
                sites@.len() == n,
                taken_hist@ == fleet.hist@,
                taken_len@ == fleet.hist_len@,
                forall|k: int|
                    0 <= k < n ==> (#[trigger] fleet.rows@[k]).wait_ticks < u32::MAX,
                forall|k: int|
                    0 <= k < n && (#[trigger] fates@[k]) is Entered ==> start.network.has_link(
                        fates@[k]->Entered_0,
                    ),
                stack@.len() == n - i,
                forall|k: int|
                    0 <= k < stack@.len() ==> #[trigger] stack@[k] == fleet.rows@[n - 1 - k],
                assembled(t, &fleet, i as int, rows@, hist@, hist_len@),
                counted(t, &start, i as int, exited, leaked, entries@),
                forall|k: int| 0 <= k < rows@.len() ==> (#[trigger] rows@[k]).placed(&start.network),
                *self == (NetWorld {
                    link_entries: self.link_entries,
                    crashed: self.crashed,
                    crashed_by: self.crashed_by,
                    crash_log: self.crash_log,
                    ..start
                }),
                self.crashed == start.crashed + count_where(i as int, t.was_hit()),
                self.crashed_by@[0] == start.crashed_by@[0] + count_where(
                    i as int,
                    t.was_hit_by(CrashKind::RearEnd),
                ),
                self.crashed_by@[1] == start.crashed_by@[1] + count_where(
                    i as int,
                    t.was_hit_by(CrashKind::Junction),
                ),
                self.crashed == self.crashed_by@[0] + self.crashed_by@[1],
                self.crash_log@ == newest(start.crash_log@ + t.records(i as int, sites@)),
            decreases n - i,
        {
            proof {
                lemma_count_bounds(i as int, t.was_hit());
                lemma_count_bounds(i as int, t.has_exited());
                lemma_count_bounds(i as int, t.has_leaked());
                assert(fleet.rows@[i as int].placed(&start.network));
                assert(fleet.rows@[i as int].wait_ticks < u32::MAX);
            }
            let mut v = stack.pop().unwrap();
            assert(v == fleet.rows@[i as int]);
            let fate = fates[i];
            let mut cleared: bool = false;
            match hits[i] {
                Some(h) => {
                    let r = CrashRecord {
                        x: sites[i].x,
                        y: sites[i].y,
                        kind: h.kind,
                        closing_speed: h.closing,
                    };
                    proof {
                        lemma_newest(start.crash_log@, t.records(i as int, sites@), r);
                    }
                    self.log_crash(r);
                    if wreck_ticks == 0 {
                        cleared = true;
                    } else {
                        v.wreck = Some(wreck_ticks);
                        v.speed = Quantity::at(ZERO);
                    }
                },
                None => {
                    if let Some(left) = v.wreck {
                        if left <= 1 {
                            cleared = true;
                        } else {
                            v.wreck = Some(left - 1);
                        }
                    }
                },
            }
            assert(cleared == t.is_cleared()(i as int));
            assert(!cleared ==> v == t.wrecked(i as int));
            let ghost entries0 = entries@;
            if let Fate::Entered(link) = fate {
                proof {
                    lemma_count_bounds(i as int, t.has_entered(LinkId(link.0)));
                    assert(start.network.has_link(fates@[i as int]->Entered_0));
                    assert(entries@[link.0 as int] == start.link_entries@[link.0 as int]
                        + count_where(i as int, t.has_entered(LinkId(link.0 as u32))));
                }
                entries[link.0 as usize] = entries[link.0 as usize] + 1;
            }
            let mut keep: bool = false;
            let mut fresh: bool = false;
            if !cleared {
                match fate {
                    Fate::Alive => {
                        v.wait_ticks = if v.speed.below(Quantity::at(MOVING_SPEED)) {
                            v.wait_ticks + 1
                        } else {
                            0
                        };
                        keep = true;
                    },
                    Fate::Entered(_) => {
                        v.wait_ticks = 0;
                        keep = true;
                        fresh = true;
                    },
                    Fate::Exited => {
                        exited = exited + 1;
                    },
                    Fate::Leaked => {
                        leaked = leaked + 1;
                    },
                }
            }
            assert(keep == t.is_kept()(i as int));
            assert(keep ==> v == t.survivor(i as int));
            let ghost rows0 = rows@;
            let ghost len0 = hist_len@;
            let ghost hist0 = hist@;
            if keep {
                let mut h: History = taken_hist[i];
                assert(1 <= fleet.hist_len@[i as int] <= HISTORY_LEN);
                let mut len: u8 = if fresh {
                    0
                } else {
                    taken_len[i]
                };
                let ghost had = recent(h, len);
                assert(fresh ==> had =~= Seq::<Sample>::empty());
                assert(!fresh ==> had == fleet.samples(i as int));
                record_history(&mut h, &mut len, Sample { position: v.position, speed: v.speed });
                assert(recent(h, len) == t.history(i as int, fleet.samples(i as int)));
                rows.push(v);
                hist.push(h);
                hist_len.push(len);
                assert(hist@.subrange(0, hist0.len() as int) =~= hist0);
                assert(hist_len@.subrange(0, len0.len() as int) =~= len0);
            }
            proof {
                lemma_assembled_step(
                    t,
                    &fleet,
                    i as int,
                    keep,
                    rows0,
                    hist0,
                    len0,
                    rows@,
                    hist@,
                    hist_len@,
                );
                assert forall|l: int| 0 <= l < entries@.len() implies #[trigger] entries@[l]
                    == start.link_entries@[l] + count_where(i + 1, t.has_entered(LinkId(l as u32))) by {
                    assert(entries0[l] == start.link_entries@[l] + count_where(
                        i as int,
                        t.has_entered(LinkId(l as u32)),
                    ));
                }
            }
            i += 1;
        }
        self.link_entries = entries;
        self.exited = exited;
        self.leaked = leaked;
        self.fleet = Fleet { rows, hist, hist_len };
        self.time = time;
        self.tick = self.tick + 1;
    }

    fn log_crash(&mut self, r: CrashRecord)
        requires
            old(self).crashed < u32::MAX,
            old(self).crashed == old(self).crashed_by@[0] + old(self).crashed_by@[1],
            old(self).crash_log@.len() <= MAX_CRASH_SITES,
        ensures
            *final(self) == (NetWorld {
                crash_log: final(self).crash_log,
                crashed: (old(self).crashed + 1) as u32,
                crashed_by: final(self).crashed_by,
                ..*old(self)
            }),
            final(self).crash_log@ == newest(old(self).crash_log@.push(r)),
            final(self).crashed_by@ == (match r.kind {
                CrashKind::RearEnd => old(self).crashed_by@.update(
                    0,
                    (old(self).crashed_by@[0] + 1) as u32,
                ),
                CrashKind::Junction => old(self).crashed_by@.update(
                    1,
                    (old(self).crashed_by@[1] + 1) as u32,
                ),
            }),
    {
        self.crash_log.push(r);
        if self.crash_log.len() > MAX_CRASH_SITES {
            let _oldest = self.crash_log.remove(0);
            assert(self.crash_log@ =~= newest(old(self).crash_log@.push(r)));
        }
        self.crashed = self.crashed + 1;
        match r.kind {
            CrashKind::RearEnd => {
                self.crashed_by[0] = self.crashed_by[0] + 1;
            },
            CrashKind::Junction => {
                self.crashed_by[1] = self.crashed_by[1] + 1;
            },
        }
    }
}

proof fn lemma_assembled_step(
    t: TickEnd,
    taken: &Fleet,
    i: int,
    keep: bool,
    rows0: Seq<NetVehicle>,
    hist0: Seq<History>,
    len0: Seq<u8>,
    rows: Seq<NetVehicle>,
    hist: Seq<History>,
    len: Seq<u8>,
)
    requires
        0 <= i,
        assembled(t, taken, i, rows0, hist0, len0),
        keep == t.is_kept()(i),
        !keep ==> rows == rows0 && hist == hist0 && len == len0,
        keep ==> rows == rows0.push(t.survivor(i)) && hist.len() == hist0.len() + 1 && len.len()
            == len0.len() + 1 && hist.subrange(0, hist0.len() as int) == hist0 && len.subrange(
            0,
            len0.len() as int,
        ) == len0 && 1 <= len[len0.len() as int] <= HISTORY_LEN && recent(
            hist[hist0.len() as int],
            len[len0.len() as int],
        ) == t.history(i, taken.samples(i)),
    ensures
        assembled(t, taken, i + 1, rows, hist, len),
{
    if keep {
        assert(t.survivors(i + 1) == t.survivors(i).push(t.survivor(i)));
        assert(t.histories(i + 1, taken) == t.histories(i, taken).push(
            t.history(i, taken.samples(i)),
        ));
        assert forall|k: int| 0 <= k < rows.len() implies 1 <= #[trigger] len[k] <= HISTORY_LEN
            && recent(hist[k], len[k]) == t.histories(i + 1, taken)[k] by {
            if k < rows0.len() {
                assert(len[k] == len.subrange(0, len0.len() as int)[k]);
                assert(hist[k] == hist.subrange(0, hist0.len() as int)[k]);
                assert(1 <= len0[k] <= HISTORY_LEN);
            }
        }
    }
}

} // verus!
