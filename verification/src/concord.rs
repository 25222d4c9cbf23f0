//! A whole step does not depend on how its work is run: two worlds that differ in
//! nothing else, and of which the same is measured, come out of it alike.

use vstd::prelude::*;
use crate::agreement::{a_tick_does_not_depend_on_how_it_is_run, alike, decisions_do_not_depend_on_how_they_are_run, gates_do_not_depend_on_how_they_are_run, measured_alike, neighbours_do_not_depend_on_how_they_are_found, options_do_not_depend_on_how_they_are_run, same_routes};
use crate::control::PoseUpdate;
use crate::intent::{Sight, Sleep};
use crate::lanes::{LaneView, SlotGap};
use crate::neighbors::Neighbors;
use crate::network::{LaneId, LinkId, MovementId, Network};
use crate::quantity::Quantity;
use crate::router::FieldRouter;
use crate::search::lemma_first_index;
use crate::sideways::{moves_upto, LanePass};
use crate::solver::solutions_are_unique;
use crate::stride::{carried_by, Back, Front, Look, StepView, Stride};
use crate::world::NetWorld;

verus! {

/// The fields of two routers say the same.
spec fn same_fields(r: &FieldRouter, s: &FieldRouter) -> bool {
    &&& r.slots() == s.slots()
    &&& r.cycle() == s.cycle()
    &&& forall|k: int|
        #![trigger r.field(k)]
        #![trigger s.field(k)]
        0 <= k < r.slots().len() ==> r.field(k).dist@ == s.field(k).dist@ && r.field(k).next@
            == s.field(k).next@
}

proof fn lemma_same_routes(r: FieldRouter, s: FieldRouter)
    requires
        same_fields(&r, &s),
    ensures
        same_routes(Some(r), Some(s)),
{
    assert forall|d: LinkId, l: LinkId|
        r.hop(d, l) == s.hop(d, l) && r.remaining(d, l) == s.remaining(d, l) by {
        assert(r.serves(d) =~= s.serves(d));
        lemma_first_index(0, r.slots().len() as int, r.serves(d));
        match r.slot_of(d) {
            Some(k) => {
                assert(r.field(k).dist@ == s.field(k).dist@);
            },
            None => {},
        }
    }
}

proof fn lemma_advanced(
    r: FieldRouter,
    s: FieldRouter,
    r1: FieldRouter,
    s1: FieldRouter,
    net: &Network,
    budget: int,
)
    requires
        net.wf(),
        same_fields(&r, &s),
        forall|k: int| 0 <= k < r.slots().len() ==> net.has_link(#[trigger] r.slots()[k]),
        r1.advanced(&r, net, budget),
        s1.advanced(&s, net, budget),
    ensures
        same_fields(&r1, &s1),
{
    assert forall|k: int|
        #![trigger r1.field(k)]
        #![trigger s1.field(k)]
        0 <= k < r1.slots().len() implies r1.field(k).dist@ == s1.field(k).dist@ && r1.field(
        k,
    ).next@ == s1.field(k).next@ by {
        match r.cycle() {
            Some(c) => {
                let end = c.end(r.slots().len() as int);
                let links = net.links@.len() as int;
                let spent = if c.spent + budget < links {
                    c.spent + budget
                } else {
                    links
                };
                if c.completes(net, r.slots(), spent) && c.first <= k < end {
                    let (f, g) = (r1.field(k), s1.field(k));
                    assert(f.solves(net, c.costs, r1.slots()[k]));
                    assert(g.solves(net, c.costs, s1.slots()[k]));
                    assert(net.has_link(r.slots()[k]));
                    solutions_are_unique(net, c.costs, r.slots()[k], &f, &g);
                } else {
                    assert(r1.field(k) == r.field(k));
                    assert(s1.field(k) == s.field(k));
                }
            },
            None => {
                assert(r1.field(k) == r.field(k));
                assert(s1.field(k) == s.field(k));
            },
        }
    }
}

proof fn lemma_begun(
    r: FieldRouter,
    s: FieldRouter,
    r1: FieldRouter,
    s1: FieldRouter,
    costs: Seq<u64>,
    width: int,
)
    requires
        same_fields(&r, &s),
        r1.begun(&r, costs, width),
        s1.begun(&s, costs, width),
    ensures
        same_fields(&r1, &s1),
{
    assert forall|k: int|
        #![trigger r1.field(k)]
        #![trigger s1.field(k)]
        0 <= k < r1.slots().len() implies r1.field(k).dist@ == s1.field(k).dist@ && r1.field(
        k,
    ).next@ == s1.field(k).next@ by {
        assert(r1.field(k) == r.field(k));
        assert(s1.field(k) == s.field(k));
    }
}

proof fn lemma_fingerprint(a: &NetWorld, b: &NetWorld, bands: Seq<u64>)
    requires
        alike(a, b),
    ensures
        a.fingerprint(bands) == b.fingerprint(bands),
{
    assert forall|l: int| 0 <= l < a.network.links@.len() implies a.link_tally()[l]
        == b.link_tally()[l] by {
        assert(a.on_link(LinkId(l as u32)) =~= b.on_link(LinkId(l as u32)));
    }
    assert(a.link_tally() =~= b.link_tally());
}

/// Refreshing the routes leads both the same ways.
proof fn lemma_refreshed(
    a: &NetWorld,
    b: &NetWorld,
    a1: &NetWorld,
    b1: &NetWorld,
    view: &StepView,
    width: int,
)
    requires
        alike(a, b),
        a.wf(),
        a1.refreshed(a, view.bands@, view.interval, view.costs@, width),
        b1.refreshed(b, view.bands@, view.interval, view.costs@, width),
    ensures
        alike(a1, b1),
{
    lemma_fingerprint(a, b, view.bands@);
    let budget = crate::control::ROUTE_SETTLE_BUDGET as int;
    if a.router is Some && !a.external_reroute {
        let (r, s) = (a.router->0, b.router->0);
        assert(same_fields(&r, &s));
        assert forall|k: int| 0 <= k < r.slots().len() implies a.network.has_link(
            #[trigger] r.slots()[k],
        ) by {}
        if a.reroutes(a.fingerprint(view.bands@), view.interval) {
            let x = choose|x: FieldRouter| #[trigger]
                x.begun(&r, view.costs@, width) && a1.router->0.advanced(&x, &a.network, budget);
            let y = choose|y: FieldRouter| #[trigger]
                y.begun(&s, view.costs@, width) && b1.router->0.advanced(&y, &b.network, budget);
            lemma_begun(r, s, x, y, view.costs@, width);
            lemma_advanced(x, y, a1.router->0, b1.router->0, &a.network, budget);
        } else {
            lemma_advanced(r, s, a1.router->0, b1.router->0, &a.network, budget);
        }
        lemma_same_routes(a1.router->0, b1.router->0);
    }
}

proof fn lemma_services(a: &NetWorld, b: &NetWorld, view: &StepView, n: int)
    requires
        alike(a, b),
    ensures
        a.services_upto(view.served@, view.stop_dists@, view.dwell_ticks, n) == b.services_upto(
            view.served@,
            view.stop_dists@,
            view.dwell_ticks,
            n,
        ),
    decreases n,
{
    if n > 0 {
        lemma_services(a, b, view, n - 1);
        let d = a.services_upto(view.served@, view.stop_dists@, view.dwell_ticks, n - 1);
        let v = &a.rows()[n - 1];
        assert(a.is_reached_stop(d, v, view.served@[n - 1], view.stop_dists@[n - 1]@)
            =~= b.is_reached_stop(d, v, view.served@[n - 1], view.stop_dists@[n - 1]@));
    }
}

/// Signals, meters, buses and queue links come out the same.
proof fn lemma_infrastructure(a: &NetWorld, b: &NetWorld, a1: &NetWorld, b1: &NetWorld, view: &StepView)
    requires
        alike(a, b),
        a.infrastructure_advanced(a1, view),
        b.infrastructure_advanced(b1, view),
    ensures
        alike(a1, b1),
{
    assert(a1.meters@ =~= b1.meters@);
    lemma_services(a, b, view, a.rows().len() as int);
    let all = a.services_upto(
        view.served@,
        view.stop_dists@,
        view.dwell_ticks,
        a.rows().len() as int,
    );
    assert forall|id: u32| #[trigger] a.has_vehicle(id) == b.has_vehicle(id) by {}
    assert(a.living(all) =~= b.living(all));
}

/// What is measured for the lane changes of two passes is the same wherever it is
/// measured of the same.
pub open spec fn passes_alike(a: &NetWorld, b: &NetWorld, p: LanePass, q: LanePass) -> bool {
    &&& alike(a, b) ==> p.scores == q.scores
    &&& forall|k: int|
        0 <= k < p.slides.at.len() && alike(&p.slides.worlds[k], &q.slides.worlds[k]) ==> (
        #[trigger] p.slides.at[k]).new_pos == q.slides.at[k].new_pos && p.slides.at[k].gaps@
            == q.slides.at[k].gaps@
}

proof fn lemma_slide(
    a: &NetWorld,
    b: &NetWorld,
    a1: &NetWorld,
    b1: &NetWorld,
    i: int,
    target: LaneId,
    new_pos: Quantity,
    gaps: Seq<SlotGap>,
)
    requires
        alike(a, b),
        0 <= i < a.rows().len(),
        a.slides_to(a1, i, target, new_pos, gaps),
        b.slides_to(b1, i, target, new_pos, gaps),
    ensures
        alike(a1, b1),
{
    assert(a.slot_is_clear(target, i, gaps) == b.slot_is_clear(target, i, gaps));
    if a.may_slide(i, target, new_pos, gaps) {
        assert forall|j: int| 0 <= j < a.rows().len() implies a1.rows()[j] == b1.rows()[j]
            && a1.fleet.samples(j) == b1.fleet.samples(j) by {
            if j != i {
                assert(a1.rows()[j] == a.rows()[j]);
                assert(b1.rows()[j] == b.rows()[j]);
                assert(a.fleet.samples(j) == b.fleet.samples(j));
            }
        }
        assert(a1.rows() =~= b1.rows());
    }
}

proof fn lemma_wanted(
    a: &NetWorld,
    b: &NetWorld,
    views: Seq<LaneView>,
    hov_ok: Seq<bool>,
    p: LanePass,
    q: LanePass,
)
    requires
        alike(a, b),
        a.lanes_wanted(views, hov_ok, p),
        b.lanes_wanted(views, hov_ok, q),
        p.scores == q.scores,
    ensures
        p.wanted == q.wanted,
{
    assert forall|i: int| 0 <= i < a.rows().len() implies p.wanted[i] == q.wanted[i] by {
        options_do_not_depend_on_how_they_are_run(a, b, i, &views[i], hov_ok[i], -1);
        options_do_not_depend_on_how_they_are_run(a, b, i, &views[i], hov_ok[i], 1);
    }
    assert(p.wanted =~= q.wanted);
}

proof fn lemma_move_rows(wanted: Seq<Option<LaneId>>, n: int, k: int)
    requires
        0 <= n <= wanted.len(),
        n <= usize::MAX,
        0 <= k < moves_upto(wanted, n).len(),
    ensures
        moves_upto(wanted, n)[k].0 < n,
    decreases n,
{
    if wanted[n - 1] is None || k < moves_upto(wanted, n - 1).len() {
        lemma_move_rows(wanted, n - 1, k);
    }
}

proof fn lemma_slides(a: &NetWorld, b: &NetWorld, views: Seq<LaneView>, hov_ok: Seq<bool>, p: LanePass, q: LanePass, a1: &NetWorld, b1: &NetWorld, k: int)
    requires
        alike(a, b),
        a.pass_made(a1, views, hov_ok, p),
        b.pass_made(b1, views, hov_ok, q),
        passes_alike(a, b, p, q),
        p.wanted == q.wanted,
        0 <= k <= moves_upto(p.wanted, p.wanted.len() as int).len(),
    ensures
        alike(&p.slides.worlds[k], &q.slides.worlds[k]),
        p.slides.worlds[k].rows().len() == a.rows().len(),
    decreases k,
{
    if k > 0 {
        lemma_slides(a, b, views, hov_ok, p, q, a1, b1, k - 1);
        let moves = moves_upto(p.wanted, p.wanted.len() as int);
        let j = k - 1;
        assert(a.rows().len() == a.fleet.rows.len());
        lemma_move_rows(p.wanted, p.wanted.len() as int, j);
        let (x, y) = (p.slides.at[j], q.slides.at[j]);
        assert(p.slides.worlds[j].slides_to(
            &p.slides.worlds[j + 1],
            moves[j].0 as int,
            moves[j].1,
            x.new_pos,
            x.gaps@,
        ));
        assert(q.slides.worlds[j].slides_to(
            &q.slides.worlds[j + 1],
            moves[j].0 as int,
            moves[j].1,
            y.new_pos,
            y.gaps@,
        ));
        lemma_slide(
            &p.slides.worlds[j],
            &q.slides.worlds[j],
            &p.slides.worlds[j + 1],
            &q.slides.worlds[j + 1],
            moves[j].0 as int,
            moves[j].1,
            x.new_pos,
            x.gaps@,
        );
    }
}

/// The lane changes of a tick do not depend on how they are run.
pub proof fn lane_changes_do_not_depend_on_how_they_are_run(
    a: &NetWorld,
    b: &NetWorld,
    a1: &NetWorld,
    b1: &NetWorld,
    views: Seq<LaneView>,
    hov_ok: Seq<bool>,
    p: LanePass,
    q: LanePass,
)
    requires
        alike(a, b),
        a.pass_made(a1, views, hov_ok, p),
        b.pass_made(b1, views, hov_ok, q),
        passes_alike(a, b, p, q),
    ensures
        alike(a1, b1),
{
    lemma_wanted(a, b, views, hov_ok, p, q);
    let n = moves_upto(p.wanted, p.wanted.len() as int).len() as int;
    lemma_slides(a, b, views, hov_ok, p, q, a1, b1, n);
}

/// The neighbours found in two worlds are the same.
pub open spec fn same_neighbours(x: &Neighbors, y: &Neighbors) -> bool {
    &&& x.leader_of@ == y.leader_of@
    &&& forall|l: u32| #[trigger] x.by_lane.group(l) == y.by_lane.group(l)
    &&& forall|k: u32| #[trigger] x.approaching.group(k) == y.approaching.group(k)
    &&& forall|k: u32| #[trigger] x.crossing_at.group(k) == y.crossing_at.group(k)
    &&& forall|k: u32| #[trigger] x.crossing_mvs.group(k) == y.crossing_mvs.group(k)
    &&& forall|k: u32| #[trigger]
        x.moving_crossing_mvs.group(k) == y.moving_crossing_mvs.group(k)
}

/// What is measured for what is seen and decided is the same wherever it is measured
/// of the same.
pub open spec fn looks_alike(a: &NetWorld, b: &NetWorld, k: Look, l: Look) -> bool {
    &&& alike(a, b) ==> k.cpos@ == l.cpos@
    &&& alike(a, b) && same_neighbours(&k.nb, &l.nb) ==> {
        &&& k.decisions.sights == l.decisions.sights
        &&& k.decisions.decided == l.decisions.decided ==> {
            &&& k.decisions.gates == l.decisions.gates
            &&& k.inputs@ == l.inputs@
            &&& k.inputs@ == l.inputs@ ==> k.accels@ == l.accels@
        }
    }
}

/// What is measured for the second half of a step is the same wherever it is measured
/// of the same.
pub open spec fn backs_alike(k: Look, l: Look, x: Back, y: Back) -> bool {
    &&& alike(&x.noted, &y.noted) && k.accels@ == l.accels@ ==> x.view == y.view
    &&& measured_alike(x.tick, y.tick)
    &&& alike(&x.moved, &y.moved) ==> x.poses@ == y.poses@
}

/// What is measured in two steps is the same wherever it is measured of the same, and
/// both solve as many routing fields at once.
pub open spec fn strides_alike(r: Stride, s: Stride) -> bool {
    &&& r.front.width == s.front.width
    &&& passes_alike(&r.front.begun, &s.front.begun, r.front.pass, s.front.pass)
    &&& looks_alike(&r.changed, &s.changed, r.look, s.look)
    &&& backs_alike(r.look, s.look, r.back, s.back)
}

proof fn lemma_front(
    a: &NetWorld,
    b: &NetWorld,
    a1: &NetWorld,
    b1: &NetWorld,
    view: &StepView,
    f: Front,
    g: Front,
)
    requires
        alike(a, b),
        a.wf(),
        a.front_goes(a1, view, f),
        b.front_goes(b1, view, g),
        f.width == g.width,
        passes_alike(&f.begun, &g.begun, f.pass, g.pass),
    ensures
        alike(a1, b1),
{
    reveal(NetWorld::front_goes);
    lemma_refreshed(a, b, &f.routed, &g.routed, view, f.width);
    lemma_infrastructure(&f.routed, &g.routed, &f.begun, &g.begun, view);
    lane_changes_do_not_depend_on_how_they_are_run(
        &f.begun,
        &g.begun,
        a1,
        b1,
        view.lanes@,
        view.hov_ok@,
        f.pass,
        g.pass,
    );
}

proof fn lemma_same_decision(w: &NetWorld, i: int, x: &Neighbors, y: &Neighbors, s: Sight)
    requires
        x.leader_of@ == y.leader_of@,
    ensures
        w.decision(i, x, s) == w.decision(i, y, s),
{
}

proof fn lemma_look(a: &NetWorld, b: &NetWorld, k: Look, l: Look)
    requires
        alike(a, b),
        a.looks(k),
        b.looks(l),
        looks_alike(a, b, k, l),
    ensures
        same_neighbours(&k.nb, &l.nb),
        k.decisions.decided == l.decisions.decided,
        k.decisions.blocked == l.decisions.blocked,
        k.accels@ == l.accels@,
{
    reveal(NetWorld::looks);
    neighbours_do_not_depend_on_how_they_are_found(a, b, k.cpos@, &k.nb, &l.nb);
    let (d, e) = (k.decisions, l.decisions);
    assert forall|i: int| 0 <= i < a.rows().len() implies d.decided[i] == e.decided[i] by {
        decisions_do_not_depend_on_how_they_are_run(a, b, i, &k.nb, d.sights[i]);
        lemma_same_decision(b, i, &k.nb, &l.nb, d.sights[i]);
        assert(d.decided[i] == a.decision(i, &k.nb, d.sights[i]));
        assert(e.decided[i] == b.decision(i, &l.nb, e.sights[i]));
    }
    assert(d.decided =~= e.decided);
    assert forall|i: int| 0 <= i < a.rows().len() implies d.blocked[i] == e.blocked[i] by {
        gates_do_not_depend_on_how_they_are_run(a, b, i, d.decided[i].0, &d.gates[i]);
        assert(d.blocked[i] == (a.stands_at_box(i, d.decided[i].0) && a.entry_shut(
            i,
            d.decided[i].0,
            &d.gates[i],
        )));
        assert(e.blocked[i] == (b.stands_at_box(i, e.decided[i].0) && b.entry_shut(
            i,
            e.decided[i].0,
            &e.gates[i],
        )));
    }
    assert(d.blocked =~= e.blocked);
}

proof fn lemma_noted(
    a: &NetWorld,
    b: &NetWorld,
    a1: &NetWorld,
    b1: &NetWorld,
    decided: Seq<(Option<MovementId>, Sleep)>,
)
    requires
        alike(a, b),
        a.sleepers_noted(a1, decided),
        b.sleepers_noted(b1, decided),
    ensures
        alike(a1, b1),
{
    assert forall|i: int| 0 <= i < a1.rows().len() implies a1.rows()[i] == b1.rows()[i]
        && a1.fleet.samples(i) == b1.fleet.samples(i) by {
        assert(a.fleet.samples(i) == b.fleet.samples(i));
    }
    assert(a1.rows() =~= b1.rows());
}

proof fn lemma_posed(
    a: &NetWorld,
    b: &NetWorld,
    a1: &NetWorld,
    b1: &NetWorld,
    updates: Seq<Option<PoseUpdate>>,
)
    requires
        alike(a, b),
        a.poses_written(a1, updates),
        b.poses_written(b1, updates),
    ensures
        alike(a1, b1),
{
    assert forall|i: int| 0 <= i < a1.rows().len() implies a1.rows()[i] == b1.rows()[i]
        && a1.fleet.samples(i) == b1.fleet.samples(i) by {
        assert(a.fleet.samples(i) == b.fleet.samples(i));
    }
    assert(a1.rows() =~= b1.rows());
}

proof fn lemma_back(a: &NetWorld, b: &NetWorld, a1: &NetWorld, b1: &NetWorld, k: Look, l: Look, x: Back, y: Back)
    requires
        alike(a, b),
        same_neighbours(&k.nb, &l.nb),
        k.decisions.decided == l.decisions.decided,
        k.decisions.blocked == l.decisions.blocked,
        k.accels@ == l.accels@,
        a.back_goes(a1, &k.nb, k.decisions.decided, k.decisions.blocked, x),
        b.back_goes(b1, &l.nb, l.decisions.decided, l.decisions.blocked, y),
        backs_alike(k, l, x, y),
    ensures
        alike(a1, b1),
{
    reveal(NetWorld::back_goes);
    lemma_noted(a, b, &x.noted, &y.noted, k.decisions.decided);
    a_tick_does_not_depend_on_how_it_is_run(
        &x.noted,
        &y.noted,
        &k.nb,
        &l.nb,
        carried_by(k.decisions.decided),
        k.decisions.blocked,
        &x.view,
        x.tick,
        y.tick,
        &x.moved,
        &y.moved,
    );
    lemma_posed(&x.moved, &y.moved, a1, b1, x.poses@);
}

/// A step does not depend on how it is run: two worlds that differ only in the
/// backend, in the size from which it is used, in the sort keys, the threads and the
/// shards come out of it alike, where the same is measured of the same.
pub proof fn a_step_does_not_depend_on_how_it_is_run(
    a: &NetWorld,
    b: &NetWorld,
    after_a: &NetWorld,
    after_b: &NetWorld,
    view: &StepView,
    r: Stride,
    s: Stride,
)
    requires
        a.wf(),
        alike(a, b),
        a.step_goes(after_a, view, r),
        b.step_goes(after_b, view, s),
        strides_alike(r, s),
    ensures
        alike(after_a, after_b),
{
    lemma_front(a, b, &r.changed, &s.changed, view, r.front, s.front);
    lemma_look(&r.changed, &s.changed, r.look, s.look);
    lemma_back(&r.changed, &s.changed, after_a, after_b, r.look, s.look, r.back, s.back);
}

} // verus!
