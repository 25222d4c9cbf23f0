//! The lane changes of a tick: every vehicle that looks sideways weighs its options
//! on the state as it is, and those that found a better lane change over, one after
//! the other.

use vstd::prelude::*;
use crate::backend::{map_collect, LIGHT_PAR_THRESHOLD};
use crate::fleet::{LaneChange, NetVehicle};
use crate::groups::GroupMap;
use crate::lanes::{best_option, LaneOptions, LaneScore, LaneView, SlideView, Slides};
use crate::network::LaneId;
use crate::paths::nth_lane;
use crate::quantity::{place, Quantity, ZERO};
use crate::world::NetWorld;

verus! {

/// A pass as it went: what everyone made of their options, the lane that each wants,
/// and the changes that were made.
pub struct LanePass {
    pub scores: Seq<(LaneScore, LaneScore)>,
    pub wanted: Seq<Option<LaneId>>,
    pub slides: Slides,
}

/// The changes wanted by the first `n` rows, in row order.
pub open spec fn moves_upto(wanted: Seq<Option<LaneId>>, n: int) -> Seq<(usize, LaneId)>
    decreases n,
{
    if n <= 0 {
        Seq::empty()
    } else {
        match wanted[n - 1] {
            Some(l) => moves_upto(wanted, n - 1).push(((n - 1) as usize, l)),
            None => moves_upto(wanted, n - 1),
        }
    }
}

spec fn can_weigh<
    W: Fn(&NetWorld, usize, Option<usize>, &LaneOptions) -> (LaneScore, LaneScore),
>(weigh: &W, w: &NetWorld, i: usize, leader: Option<usize>, o: LaneOptions) -> bool {
    call_requires(*weigh, (w, i, leader, &o))
}

spec fn weighs_as<
    W: Fn(&NetWorld, usize, Option<usize>, &LaneOptions) -> (LaneScore, LaneScore),
>(
    weigh: &W,
    w: &NetWorld,
    i: usize,
    leader: Option<usize>,
    o: LaneOptions,
    d: (LaneScore, LaneScore),
) -> bool {
    call_ensures(*weigh, (w, i, leader, &o), d)
}

/// The scores are what the weighing function gives for those who look sideways.
pub open spec fn scores_weighed<
    W: Fn(&NetWorld, usize, Option<usize>, &LaneOptions) -> (LaneScore, LaneScore),
>(weigh: &W, w: &NetWorld, views: Seq<LaneView>, hov_ok: Seq<bool>, p: LanePass) -> bool {
    forall|i: int|
        0 <= i < w.rows().len() && w.looks_sideways(i) ==> call_ensures(
            *weigh,
            (w, i as usize, w.own_leader(i), &w.options_of(i, views, hov_ok)),
            #[trigger] p.scores[i],
        )
}

/// What was measured for each change is what the measuring function gives for it.
pub open spec fn slides_measured<M: Fn(&NetWorld, usize, LaneId) -> SlideView>(
    measure: &M,
    p: LanePass,
) -> bool {
    let moves = moves_upto(p.wanted, p.wanted.len() as int);
    forall|k: int|
        0 <= k < moves.len() ==> call_ensures(
            *measure,
            (&p.slides.worlds[k], moves[k].0, moves[k].1),
            #[trigger] p.slides.at[k],
        )
}

/// What the pass leaves of a row: who does not look sideways is as before, and so is
/// everyone else, or moved over to the lane beside.
pub open spec fn sidled_or_stayed(before: &NetWorld, i: int, v: &NetVehicle) -> bool {
    *v == before.rows()[i] || (before.looks_sideways(i) && before.is_beside(
        &before.rows()[i],
        v.lane,
    ) && before.has_sidled(&before.rows()[i], v, v.lane))
}

/// A pass leaves wrecks alone, and those inside a node; whoever moves over stays on
/// their link and comes by at most one lane, as they are otherwise.
pub proof fn lane_changes_leave_the_rest_alone(before: &NetWorld, i: int, v: &NetVehicle)
    requires
        sidled_or_stayed(before, i, v),
    ensures
        before.rows()[i].wreck is Some || before.rows()[i].crossing is Some ==> *v
            == before.rows()[i],
        before.network.link_of(v.lane) == before.network.link_of(before.rows()[i].lane),
        ({
            let (k, j) = (
                before.network.lane_at(before.rows()[i].lane).index_in_link,
                before.network.lane_at(v.lane).index_in_link,
            );
            k - 1 <= j <= k + 1
        }),
        v.id == before.rows()[i].id,
        v.speed == before.rows()[i].speed,
        v.driver == before.rows()[i].driver,
        v.route == before.rows()[i].route,
        v.dest == before.rows()[i].dest,
{
}

proof fn lemma_moves_agree(a: Seq<Option<LaneId>>, b: Seq<Option<LaneId>>, n: int)
    requires
        n <= a.len(),
        n <= b.len(),
        forall|i: int| 0 <= i < n ==> #[trigger] a[i] == b[i],
    ensures
        moves_upto(a, n) == moves_upto(b, n),
    decreases n,
{
    if n > 0 {
        lemma_moves_agree(a, b, n - 1);
    }
}

/// Every move is a row's, and what it wants.
proof fn lemma_moves(wanted: Seq<Option<LaneId>>, n: int, k: int)
    requires
        0 <= n <= wanted.len(),
        n <= usize::MAX,
        0 <= k < moves_upto(wanted, n).len(),
    ensures
        moves_upto(wanted, n)[k].0 < n,
        wanted[moves_upto(wanted, n)[k].0 as int] == Some(moves_upto(wanted, n)[k].1),
        forall|j: int|
            k < j < moves_upto(wanted, n).len() ==> moves_upto(wanted, n)[k].0 < (
            #[trigger] moves_upto(wanted, n)[j]).0,
    decreases n,
{
    let all = moves_upto(wanted, n);
    let rest = moves_upto(wanted, n - 1);
    if wanted[n - 1] is None {
        lemma_moves(wanted, n - 1, k);
    } else {
        if k < rest.len() {
            lemma_moves(wanted, n - 1, k);
            assert(all[k] == rest[k]);
            assert forall|j: int| k < j < all.len() implies all[k].0 < (#[trigger] all[j]).0 by {
                if j < rest.len() {
                    assert(all[j] == rest[j]);
                }
            }
        }
    }
}

/// A row after the first `m` changes: as before, or moved over by its own.
proof fn lemma_slid(w: &NetWorld, wanted: Seq<Option<LaneId>>, s: Slides, m: int, x: int)
    requires
        w.rows().len() == wanted.len(),
        wanted.len() <= usize::MAX,
        ({
            let moves = moves_upto(wanted, wanted.len() as int);
            &&& 0 <= m <= moves.len()
            &&& NetWorld::slides_made(moves, s, moves.len() as int)
            &&& s.worlds[0] == *w
            &&& forall|k: int|
                0 <= k < moves.len() ==> w.is_beside(
                    &w.rows()[(#[trigger] moves[k]).0 as int],
                    moves[k].1,
                ) && w.looks_sideways(moves[k].0 as int)
        }),
        0 <= x < w.rows().len(),
    ensures
        s.worlds[m].rows().len() == w.rows().len(),
        s.worlds[m].network == w.network,
        sidled_or_stayed(w, x, &s.worlds[m].rows()[x]),
        (forall|k: int|
            0 <= k < m ==> (#[trigger] moves_upto(wanted, wanted.len() as int)[k]).0 != x)
            ==> s.worlds[m].rows()[x] == w.rows()[x],
    decreases m,
{
    if m > 0 {
        let moves = moves_upto(wanted, wanted.len() as int);
        lemma_slid(w, wanted, s, m - 1, x);
        let k = m - 1;
        lemma_moves(wanted, wanted.len() as int, k);
        let (a, b) = (s.worlds[k], s.worlds[k + 1]);
        assert(s.at[k] == s.at[k]);
        assert(a.slides_to(&b, moves[k].0 as int, moves[k].1, s.at[k].new_pos, s.at[k].gaps@));
        if moves[k].0 == x {
            assert forall|j: int| 0 <= j < k implies (#[trigger] moves[j]).0 != x by {
                lemma_moves(wanted, wanted.len() as int, j);
            }
            assert(a.rows()[x] == w.rows()[x]);
            assert(w.is_beside(&w.rows()[moves[k].0 as int], moves[k].1));
        }
    }
}

impl NetWorld {
    /// The options of a row to either side.
    pub open spec fn options_of(&self, i: int, views: Seq<LaneView>, hov_ok: Seq<bool>) -> LaneOptions {
        LaneOptions {
            left: self.option_on(i, &views[i], hov_ok[i], -1),
            right: self.option_on(i, &views[i], hov_ok[i], 1),
        }
    }

    /// Whom a row follows on its own lane.
    pub open spec fn own_leader(&self, i: int) -> Option<usize> {
        self.first_ahead(
            self.rolling_order(self.rows()[i].lane.0),
            self.rows()[i].position,
            i as usize,
        )
    }

    /// Everyone who looks sideways wants the better of the options they would take,
    /// and nobody else wants to change.
    pub open spec fn lanes_wanted(&self, views: Seq<LaneView>, hov_ok: Seq<bool>, p: LanePass) -> bool {
        &&& p.scores.len() == self.rows().len()
        &&& p.wanted.len() == self.rows().len()
        &&& forall|i: int|
            0 <= i < self.rows().len() ==> #[trigger] p.wanted[i] == (if self.looks_sideways(i) {
                best_option(self.options_of(i, views, hov_ok), p.scores[i].0, p.scores[i].1)
            } else {
                None
            })
    }

    /// What the pass makes of the world.
    pub open spec fn pass_made(
        &self,
        after: &NetWorld,
        views: Seq<LaneView>,
        hov_ok: Seq<bool>,
        p: LanePass,
    ) -> bool {
        let moves = moves_upto(p.wanted, p.wanted.len() as int);
        &&& self.lanes_wanted(views, hov_ok, p)
        &&& Self::slides_made(moves, p.slides, moves.len() as int)
        &&& p.slides.worlds[0] == *self
        &&& p.slides.worlds[moves.len() as int] == *after
    }

    /// The lane is next to the row's own, on the same link.
    pub open spec fn is_beside(&self, v: &NetVehicle, lane: LaneId) -> bool {
        let net = &self.network;
        let (k, j) = (
            net.lane_at(v.lane).index_in_link as int,
            net.lane_at(lane).index_in_link as int,
        );
        net.has_lane(lane) && net.link_of(lane) == net.link_of(v.lane) && (j == k - 1 || j == k + 1)
    }

    /// What has become of a row that wanted a lane: it is there, at the start of its
    /// sideways move and on the lane's length, and otherwise as it was.
    pub open spec fn has_sidled(&self, before: &NetVehicle, after: &NetVehicle, lane: LaneId) -> bool {
        &&& *after == (NetVehicle {
            lane,
            position: after.position,
            lane_change: Some(
                LaneChange { from: before.lane, progress: place(ZERO) },
            ),
            ..*before
        })
        &&& !after.position.is_below(place(ZERO))
        &&& !self.network.lane_at(lane).length.is_below(after.position)
    }

    proof fn lemma_wanted_is_beside(
        &self,
        views: Seq<LaneView>,
        hov_ok: Seq<bool>,
        i: int,
        scores: (LaneScore, LaneScore),
    )
        requires
            self.wf(),
            0 <= i < self.rows().len(),
        ensures
            best_option(self.options_of(i, views, hov_ok), scores.0, scores.1) matches Some(l)
                ==> self.is_beside(&self.rows()[i], l),
    {
        let net = &self.network;
        let v = self.rows()[i];
        assert(v.placed(net));
        assert(net.lane_ok(v.lane.0 as int));
        let link = net.link_of(v.lane);
        assert(net.link_ok(link.0 as int));
        let k = net.lane_at(v.lane).index_in_link as int;
        if k > 0 {
            let l = nth_lane(net, link, k - 1);
            assert(net.lane_ok(l.0 as int));
        }
        if k + 1 < net.link_at(link).lane_count {
            let l = nth_lane(net, link, k + 1);
            assert(net.lane_ok(l.0 as int));
        }
    }

    /// What everyone who looks sideways makes of their options.
    fn weigh_all<
        W: Fn(&NetWorld, usize, Option<usize>, &LaneOptions) -> (LaneScore, LaneScore) + Sync
            + Send,
    >(
        &self,
        by_lane: &GroupMap<usize>,
        views: &Vec<LaneView>,
        hov_ok: &Vec<bool>,
        options: &Vec<Option<LaneOptions>>,
        weigh: &W,
    ) -> (r: Vec<(LaneScore, LaneScore)>)
        requires
            self.wf(),
            self.rolling_groups(by_lane),
            options@.len() == self.rows().len(),
            forall|i: int|
                0 <= i < self.rows().len() ==> #[trigger] options@[i] == (if self.looks_sideways(
                    i,
                ) {
                    Some(self.options_of(i, views@, hov_ok@))
                } else {
                    None
                }),
            forall|i: usize, l: Option<usize>, o: &LaneOptions|
                i < self.rows().len() ==> #[trigger] call_requires(*weigh, (self, i, l, o)),
        ensures
            r@.len() == self.rows().len(),
            forall|i: int|
                0 <= i < r@.len() && self.looks_sideways(i) ==> call_ensures(
                    *weigh,
                    (self, i as usize, self.own_leader(i), &self.options_of(i, views@, hov_ok@)),
                    #[trigger] r@[i],
                ),
    {
        let threshold: usize = if self.par_threshold < LIGHT_PAR_THRESHOLD {
            LIGHT_PAR_THRESHOLD
        } else {
            self.par_threshold
        };
        let one = |i: usize| -> (d: (LaneScore, LaneScore))
            requires
                self.rolling_groups(by_lane),
                i < self.rows().len(),
                options@.len() == self.rows().len(),
                can_weigh(weigh, self, i, self.own_leader(i as int), options@[i as int]->0),
            ensures
                options@[i as int] is Some ==> weighs_as(
                    weigh,
                    self,
                    i,
                    self.own_leader(i as int),
                    options@[i as int]->0,
                    d,
                ),
            {
                match &options[i] {
                    Some(o) => {
                        let v = &self.fleet.rows[i];
                        let leader = self.nearest_ahead(v.lane, v.position, by_lane, i);
                        (*weigh)(self, i, leader, o)
                    },
                    None => {
                        let none = LaneScore { take: false, gain: Quantity::at(ZERO) };
                        (none, none)
                    },
                }
            };
        let r = map_collect(self.active_backend(), threshold, self.fleet.rows.len(), one);
        assert forall|i: int| 0 <= i < r@.len() && self.looks_sideways(i) implies call_ensures(
            *weigh,
            (self, i as usize, self.own_leader(i), &self.options_of(i, views@, hov_ok@)),
            #[trigger] r@[i],
        ) by {
            assert(options@[i] == Some(self.options_of(i, views@, hov_ok@)));
            assert(call_ensures(one, (i as usize,), r@[i]));
        }
        r
    }

    /// The lane changes of a tick. Every vehicle that looks sideways weighs its
    /// options, on the active backend once there are enough vehicles for a light
    /// pass; then the changes are made in row order, each measured on the world as it
    /// then is.
    pub fn lane_changes<
        W: Fn(&NetWorld, usize, Option<usize>, &LaneOptions) -> (LaneScore, LaneScore) + Sync
            + Send,
        M: Fn(&NetWorld, usize, LaneId) -> SlideView,
    >(&mut self, views: &Vec<LaneView>, hov_ok: &Vec<bool>, weigh: W, measure: M)
        requires
            old(self).wf(),
            views@.len() == old(self).rows().len(),
            hov_ok@.len() == old(self).rows().len(),
            forall|i: int|
                0 <= i < views@.len() ==> (#[trigger] views@[i]).windows@.len() >= old(
                    self,
                ).network.link_at(old(self).network.link_of(old(self).rows()[i].lane)).lane_count,
            forall|i: usize, l: Option<usize>, o: &LaneOptions|
                i < old(self).rows().len() ==> #[trigger] call_requires(weigh, (&*old(self), i, l, o)),
            forall|w: &NetWorld, i: usize, l: LaneId|
                w.wf() && w.rows().len() == old(self).rows().len() && i < w.rows().len()
                    ==> #[trigger] call_requires(measure, (w, i, l)),
            forall|w: &NetWorld, i: usize, l: LaneId, g: SlideView| #[trigger]
                call_ensures(measure, (w, i, l), g) ==> g.gaps@.len() == w.rows().len(),
        ensures
            final(self).wf(),
            *final(self) == (NetWorld { fleet: final(self).fleet, ..*old(self) }),
            final(self).rows().len() == old(self).rows().len(),
            exists|p: LanePass| #[trigger]
                old(self).pass_made(final(self), views@, hov_ok@, p) && scores_weighed(
                    &weigh,
                    old(self),
                    views@,
                    hov_ok@,
                    p,
                ) && slides_measured(&measure, p),
            forall|i: int|
                0 <= i < old(self).rows().len() ==> sidled_or_stayed(
                    old(self),
                    i,
                    &#[trigger] final(self).rows()[i],
                ),
    {
        let n = self.fleet.rows.len();
        let by_lane = self.lane_groups();
        let options = self.lane_change_candidates(&by_lane, views, hov_ok);
        let scores = self.weigh_all(&by_lane, views, hov_ok, &options, &weigh);
        let mut moves: Vec<(usize, LaneId)> = Vec::new();
        let ghost mut wanted: Seq<Option<LaneId>> = Seq::empty();
        let mut i: usize = 0;
        while i < n
            invariant
                *self == *old(self),
                self.wf(),
                n == self.rows().len(),
                i <= n,
                options@.len() == n,
                scores@.len() == n,
                forall|k: int|
                    0 <= k < n ==> #[trigger] options@[k] == (if self.looks_sideways(k) {
                        Some(self.options_of(k, views@, hov_ok@))
                    } else {
                        None
                    }),
                wanted.len() == i,
                forall|k: int|
                    0 <= k < i ==> #[trigger] wanted[k] == (if self.looks_sideways(k) {
                        best_option(
                            self.options_of(k, views@, hov_ok@),
                            scores@[k].0,
                            scores@[k].1,
                        )
                    } else {
                        None
                    }),
                moves@ == moves_upto(wanted, i as int),
            decreases n - i,
        {
            assert(options@[i as int] == options@[i as int]);
            let want = match &options[i] {
                Some(o) => Self::best_lane_change(o, &scores[i].0, &scores[i].1),
                None => None,
            };
            let ghost before = wanted;
            proof {
                wanted = wanted.push(want);
                lemma_moves_agree(before, wanted, i as int);
            }
            if let Some(l) = want {
                moves.push((i, l));
            }
            i += 1;
        }
        proof {
            assert forall|k: int| 0 <= k < moves@.len() implies (#[trigger] moves@[k]).0 < n
                && self.is_beside(&self.rows()[moves@[k].0 as int], moves@[k].1)
                && wanted[moves@[k].0 as int] == Some(moves@[k].1) by {
                lemma_moves(wanted, n as int, k);
                self.lemma_wanted_is_beside(views@, hov_ok@, moves@[k].0 as int, scores@[moves@[k].0 as int]);
            }
        }
        self.apply_lane_changes(&moves, measure);
        proof {
            let s = choose|s: Slides| #[trigger]
                Self::slides_made(moves@, s, moves@.len() as int) && s.worlds[0] == *old(self)
                    && s.worlds[moves@.len() as int] == *self && forall|k: int|
                    0 <= k < moves@.len() ==> call_ensures(
                        measure,
                        (&s.worlds[k], moves@[k].0, moves@[k].1),
                        #[trigger] s.at[k],
                    );
            let p = LanePass { scores: scores@, wanted, slides: s };
            assert(old(self).pass_made(self, views@, hov_ok@, p));
            assert(slides_measured(&measure, p));
            assert(scores_weighed(&weigh, old(self), views@, hov_ok@, p));
            assert forall|k: int| 0 <= k < moves@.len() implies old(self).is_beside(
                &old(self).rows()[(#[trigger] moves@[k]).0 as int],
                moves@[k].1,
            ) && old(self).looks_sideways(moves@[k].0 as int) by {
                lemma_moves(wanted, n as int, k);
                old(self).lemma_wanted_is_beside(
                    views@,
                    hov_ok@,
                    moves@[k].0 as int,
                    scores@[moves@[k].0 as int],
                );
            }
            assert forall|x: int| 0 <= x < n implies sidled_or_stayed(
                old(self),
                x,
                &#[trigger] self.rows()[x],
            ) by {
                lemma_slid(old(self), wanted, s, moves@.len() as int, x);
            }
        }
    }
}

/// The pass keeps every row in its place, and all of it but where it drives.
pub proof fn lemma_pass_keeps(
    before: &NetWorld,
    after: &NetWorld,
    views: Seq<LaneView>,
    hov_ok: Seq<bool>,
    p: LanePass,
)
    requires
        before.pass_made(after, views, hov_ok, p),
    ensures
        *after == (NetWorld { fleet: after.fleet, ..*before }),
        after.rows().len() == before.rows().len(),
        forall|i: int|
            0 <= i < before.rows().len() ==> #[trigger] after.rows()[i] == (NetVehicle {
                lane: after.rows()[i].lane,
                position: after.rows()[i].position,
                lane_change: after.rows()[i].lane_change,
                ..before.rows()[i]
            }),
{
    assert(before.rows().len() == before.fleet.rows.len());
    lemma_kept_upto(
        before,
        p,
        moves_upto(p.wanted, p.wanted.len() as int).len() as int,
    );
}

proof fn lemma_kept_upto(before: &NetWorld, p: LanePass, m: int)
    requires
        p.slides.worlds[0] == *before,
        p.wanted.len() == before.rows().len(),
        p.wanted.len() <= usize::MAX,
        0 <= m <= moves_upto(p.wanted, p.wanted.len() as int).len(),
        NetWorld::slides_made(
            moves_upto(p.wanted, p.wanted.len() as int),
            p.slides,
            moves_upto(p.wanted, p.wanted.len() as int).len() as int,
        ),
    ensures
        ({
            let w = p.slides.worlds[m];
            &&& w == (NetWorld { fleet: w.fleet, ..*before })
            &&& w.rows().len() == before.rows().len()
            &&& forall|i: int|
                0 <= i < before.rows().len() ==> #[trigger] w.rows()[i] == (NetVehicle {
                    lane: w.rows()[i].lane,
                    position: w.rows()[i].position,
                    lane_change: w.rows()[i].lane_change,
                    ..before.rows()[i]
                })
        }),
    decreases m,
{
    if m > 0 {
        lemma_kept_upto(before, p, m - 1);
        let moves = moves_upto(p.wanted, p.wanted.len() as int);
        let k = m - 1;
        lemma_moves(p.wanted, p.wanted.len() as int, k);
        let (a, b) = (p.slides.worlds[k], p.slides.worlds[k + 1]);
        let at = p.slides.at[k];
        assert(a.slides_to(&b, moves[k].0 as int, moves[k].1, at.new_pos, at.gaps@));
        assert forall|i: int| 0 <= i < before.rows().len() implies #[trigger] b.rows()[i] == (
        NetVehicle {
            lane: b.rows()[i].lane,
            position: b.rows()[i].position,
            lane_change: b.rows()[i].lane_change,
            ..before.rows()[i]
        }) by {
            assert(a.rows()[i] == (NetVehicle {
                lane: a.rows()[i].lane,
                position: a.rows()[i].position,
                lane_change: a.rows()[i].lane_change,
                ..before.rows()[i]
            }));
        }
    }
}

} // verus!
