//! What holds of every cost.

use vstd::prelude::*;

use crate::double;
use crate::item::Item;
use crate::status::{Status, Timing};
use crate::step::Step;
use crate::table::cost;
use crate::table::cost::Figures;
use crate::text;

verus! {

/// What the item at `i` cost, if it ran.
pub open spec fn ran<F>(step: &Step<F>, i: int) -> Option<Timing> {
    match step.holds(i).outcome() {
        Status::Finished(t) | Status::TimedOut(t) => Some(t),
        _ => None,
    }
}

proof fn lemma_timings<F>(step: &Step<F>, n: nat)
    ensures
        cost::timings(step, n) == Seq::new(n, |i: int| ran(step, i)).filter_map(
            |t: Option<Timing>| t,
        ),
        forall|i: int|
            0 <= i < n && (#[trigger] ran(step, i)) is Some ==> cost::timings(step, n).contains(
                ran(step, i)->0,
            ),
        forall|k: int|
            0 <= k < cost::timings(step, n).len() ==> exists|i: int|
                0 <= i < n && #[trigger] ran(step, i) == Some(#[trigger] cost::timings(step, n)[k]),
    decreases n,
{
    let all = Seq::new(n, |i: int| ran(step, i));
    let now = cost::timings(step, n);
    if n > 0 {
        let m = (n - 1) as nat;
        let was = cost::timings(step, m);
        lemma_timings(step, m);
        assert(all.drop_last() == Seq::new(m, |i: int| ran(step, i)));
        assert(all.last() == ran(step, n - 1));
        assert forall|i: int| 0 <= i < n && (#[trigger] ran(step, i)) is Some implies now.contains(
            ran(step, i)->0,
        ) by {
            if i < m {
                let k = choose|k: int| 0 <= k < was.len() && was[k] == ran(step, i)->0;
                assert(now[k] == was[k]);
            } else {
                assert(now[now.len() - 1] == ran(step, i)->0);
            }
        }
        assert forall|k: int| 0 <= k < now.len() implies exists|i: int|
            0 <= i < n && #[trigger] ran(step, i) == Some(#[trigger] now[k]) by {
            if k < was.len() {
                assert(now[k] == was[k]);
                let i = choose|i: int| 0 <= i < m && #[trigger] ran(step, i) == Some(was[k]);
                assert(ran(step, i) == Some(now[k]));
            } else {
                assert(ran(step, n - 1) == Some(now[k]));
            }
        }
    } else {
        assert(now == all.filter_map(|t: Option<Timing>| t));
    }
}

/// A step costs what the items of it that ran cost, in the order it holds them,
/// and those that did not run add nothing.
pub proof fn law_only_what_ran_is_counted<F>(step: &Step<F>)
    ensures
        cost::timings(step, step.size()) == Seq::new(
            step.size(),
            |i: int| ran(step, i),
        ).filter_map(|t: Option<Timing>| t),
{
    lemma_timings(step, step.size());
}

proof fn lemma_peak(ts: Seq<Timing>)
    ensures
        forall|k: int|
            0 <= k < ts.len() && (#[trigger] ts[k]).max_rss_kb is Some ==> cost::peak(ts) is Some
                && cost::peak(ts)->0 >= ts[k].max_rss_kb->0,
        cost::peak(ts) is Some ==> exists|k: int|
            0 <= k < ts.len() && (#[trigger] ts[k]).max_rss_kb == cost::peak(ts),
    decreases ts.len(),
{
    if ts.len() > 0 {
        let init = ts.drop_last();
        lemma_peak(init);
        assert forall|k: int| 0 <= k < ts.len() && (#[trigger] ts[k]).max_rss_kb is Some implies
            cost::peak(ts) is Some && cost::peak(ts)->0 >= ts[k].max_rss_kb->0 by {
            if k < init.len() {
                assert(init[k] == ts[k]);
            }
        }
        if cost::peak(ts) is Some {
            if cost::peak(ts) == ts.last().max_rss_kb {
                assert(ts[ts.len() - 1].max_rss_kb == cost::peak(ts));
            } else {
                let k = choose|k: int|
                    0 <= k < init.len() && (#[trigger] init[k]).max_rss_kb == cost::peak(init);
                assert(ts[k].max_rss_kb == cost::peak(ts));
            }
        }
    }
}

/// The peak memory of a step is the most that any one thing in it reached: no
/// item that ran reached more, one of them reached just that, and it is missing
/// only where none that ran says.
pub proof fn law_the_peak_is_the_most_any_reached<F>(step: &Step<F>)
    ensures
        forall|i: int|
            0 <= i < step.size() && (#[trigger] ran(step, i)) is Some && ran(
                step,
                i,
            )->0.max_rss_kb is Some ==> cost::step_figures(step).rss is Some && cost::step_figures(
                step,
            ).rss->0 >= ran(step, i)->0.max_rss_kb->0,
        cost::step_figures(step).rss is Some ==> exists|i: int|
            0 <= i < step.size() && (#[trigger] ran(step, i)) is Some && ran(
                step,
                i,
            )->0.max_rss_kb is Some && ran(step, i)->0.max_rss_kb->0 == cost::step_figures(
                step,
            ).rss->0,
{
    let ts = cost::timings(step, step.size());
    lemma_timings(step, step.size());
    lemma_peak(ts);
    assert forall|i: int|
        0 <= i < step.size() && (#[trigger] ran(step, i)) is Some && ran(
            step,
            i,
        )->0.max_rss_kb is Some implies cost::step_figures(step).rss is Some && cost::step_figures(
        step,
    ).rss->0 >= ran(step, i)->0.max_rss_kb->0 by {
        let k = choose|k: int| 0 <= k < ts.len() && ts[k] == ran(step, i)->0;
        assert(ts[k].max_rss_kb is Some);
    }
    if cost::step_figures(step).rss is Some {
        let k = choose|k: int| 0 <= k < ts.len() && (#[trigger] ts[k]).max_rss_kb == cost::peak(ts);
        let i = choose|i: int| 0 <= i < step.size() && #[trigger] ran(step, i) == Some(ts[k]);
        assert(ran(step, i)->0.max_rss_kb == cost::peak(ts));
    }
}

/// `ns` added up.
pub open spec fn sum(ns: Seq<nat>) -> nat {
    ns.fold_left(0nat, |a: nat, b: nat| a + b)
}

/// `ns` added up the way doubles of seconds do, one after another.
pub open spec fn double_sum(ns: Seq<nat>) -> nat {
    ns.fold_left(0nat, |a: nat, b: nat| double::plus(a, double::ticks(b)))
}

/// The user times of `ts`.
pub open spec fn user_times(ts: Seq<Timing>) -> Seq<nat> {
    ts.map_values(|t: Timing| t.user_ns->0 as nat)
}

/// The system times of `ts`.
pub open spec fn sys_times(ts: Seq<Timing>) -> Seq<nat> {
    ts.map_values(|t: Timing| t.sys_ns->0 as nat)
}

proof fn lemma_user_total(ts: Seq<Timing>)
    ensures
        (forall|k: int| 0 <= k < ts.len() ==> (#[trigger] ts[k]).user_ns is Some)
            <==> cost::user_total(ts) is Some,
        cost::user_total(ts) is Some ==> cost::user_total(ts)->0 == (
            sum(user_times(ts)),
            double_sum(user_times(ts)),
        ),
    decreases ts.len(),
{
    if ts.len() > 0 {
        let init = ts.drop_last();
        lemma_user_total(init);
        assert(user_times(ts).drop_last() == user_times(init));
        assert(forall|k: int| 0 <= k < init.len() ==> init[k] == #[trigger] ts[k]);
        assert(ts[ts.len() - 1] == ts.last());
        if cost::user_total(ts) is Some {
            assert forall|k: int| 0 <= k < ts.len() implies (#[trigger] ts[k]).user_ns is Some by {
                if k < init.len() {
                    assert(init[k].user_ns is Some);
                }
            }
        }
    }
}

proof fn lemma_sys_total(ts: Seq<Timing>)
    ensures
        (forall|k: int| 0 <= k < ts.len() ==> (#[trigger] ts[k]).sys_ns is Some)
            <==> cost::sys_total(ts) is Some,
        cost::sys_total(ts) is Some ==> cost::sys_total(ts)->0 == (
            sum(sys_times(ts)),
            double_sum(sys_times(ts)),
        ),
    decreases ts.len(),
{
    if ts.len() > 0 {
        let init = ts.drop_last();
        lemma_sys_total(init);
        assert(sys_times(ts).drop_last() == sys_times(init));
        assert(forall|k: int| 0 <= k < init.len() ==> init[k] == #[trigger] ts[k]);
        assert(ts[ts.len() - 1] == ts.last());
        if cost::sys_total(ts) is Some {
            assert forall|k: int| 0 <= k < ts.len() implies (#[trigger] ts[k]).sys_ns is Some by {
                if k < init.len() {
                    assert(init[k].sys_ns is Some);
                }
            }
        }
    }
}

/// The cpu time of a step is that of everything in it that ran, added up:
/// exactly in nanoseconds, and as doubles do in seconds. There is one only where
/// something ran and all that did have one. Its wall clock is its own.
pub proof fn law_cpu_time_adds_up<F>(step: &Step<F>)
    ensures
        ({
            let figures = cost::step_figures(step);
            let ts = Seq::new(step.size(), |i: int| ran(step, i)).filter_map(
                |t: Option<Timing>| t,
            );
            &&& figures.user is Some <==> ts.len() > 0 && forall|k: int|
                0 <= k < ts.len() ==> (#[trigger] ts[k]).user_ns is Some
            &&& figures.sys is Some <==> ts.len() > 0 && forall|k: int|
                0 <= k < ts.len() ==> (#[trigger] ts[k]).sys_ns is Some
            &&& figures.user is Some ==> figures.user->0 == (
                sum(user_times(ts)),
                double_sum(user_times(ts)),
            )
            &&& figures.sys is Some ==> figures.sys->0 == (
                sum(sys_times(ts)),
                double_sum(sys_times(ts)),
            )
            &&& figures.wall is Some <==> step.elapsed_ns is Some
            &&& figures.wall is Some ==> figures.wall->0 == step.elapsed_ns->0
            &&& figures.exit is None
            &&& figures.status is None
        }),
{
    lemma_timings(step, step.size());
    let ts = cost::timings(step, step.size());
    lemma_user_total(ts);
    lemma_sys_total(ts);
}

/// What one command cost is what its own run did, and nothing where it did not
/// run. What a closure cost is too, but it has no exit.
pub proof fn law_an_item_costs_what_its_run_did<F>(item: Item<'_, F>)
    ensures
        ({
            let figures = cost::item_figures(item);
            match item.outcome() {
                Status::Finished(t) | Status::TimedOut(t) => {
                    &&& figures.wall == Some(t.wall_ns as nat)
                    &&& figures.user is Some <==> t.user_ns is Some
                    &&& figures.user is Some ==> figures.user->0 == (
                        t.user_ns->0 as nat,
                        double::ticks(t.user_ns->0 as nat),
                    )
                    &&& figures.sys is Some <==> t.sys_ns is Some
                    &&& figures.sys is Some ==> figures.sys->0 == (
                        t.sys_ns->0 as nat,
                        double::ticks(t.sys_ns->0 as nat),
                    )
                    &&& figures.rss is Some <==> t.max_rss_kb is Some
                    &&& figures.rss is Some ==> figures.rss->0 == t.max_rss_kb->0
                    &&& item is Cmd ==> figures.exit == Some(t.exit as int)
                },
                _ => {
                    &&& figures.wall is None
                    &&& figures.user is None
                    &&& figures.sys is None
                    &&& figures.rss is None
                    &&& figures.exit is None
                },
            }
        }),
        item is Closure ==> cost::item_figures(item).exit is None,
        cost::item_figures(item).status == Some(cost::word_for(item.outcome())),
{
}

/// The nanoseconds spent on a cpu, user and system together.
pub open spec fn on_cpu(figures: Figures) -> nat {
    let user = figures.user->0;
    let sys = figures.sys->0;
    user.0 + sys.0
}

/// The share of the clock is how many hundredths of it fit in the cpu time,
/// user and system together, cut off rather than rounded. It is missing where
/// any of the three is, or where no time went by.
pub proof fn law_the_share_is_cut_off(figures: Figures)
    ensures
        cost::share(figures) is Some <==> figures.user is Some && figures.sys is Some
            && figures.wall is Some && figures.wall->0 > 0,
        cost::share(figures) is Some ==> exists|k: nat|
            cost::share(figures)->0 == #[trigger] text::decimal(k) + "%"@ && k * figures.wall->0
                <= on_cpu(figures) * 100 && on_cpu(figures) * 100 < (k + 1) * figures.wall->0,
{
    if cost::share(figures) is Some {
        let cpu = on_cpu(figures) * 100;
        let wall = figures.wall->0;
        let k = cpu / wall;
        vstd::arithmetic::div_mod::lemma_fundamental_div_mod(cpu as int, wall as int);
        assert(k * wall <= cpu && cpu < (k + 1) * wall) by (nonlinear_arith)
            requires
                wall > 0,
                cpu == wall * k + cpu % wall,
                cpu % wall < wall,
        ;
        assert(cost::share(figures)->0 == text::decimal(k) + "%"@);
    }
}

/// The status column tells how it went apart for every way it can go.
pub proof fn law_a_status_says_how_it_went(status: Status)
    ensures
        status is NotRun <==> cost::word_for(status) == "-"@,
        status is Skipped <==> cost::word_for(status) == "skip"@,
        status is TimedOut <==> cost::word_for(status) == "time"@,
        (status is Finished && status->Finished_0.exit == 0) <==> cost::word_for(status)
            == "ok"@,
        (status is Failed || (status is Finished && status->Finished_0.exit != 0))
            <==> cost::word_for(status) == "fail"@,
{
    reveal_strlit("-");
    reveal_strlit("skip");
    reveal_strlit("time");
    reveal_strlit("ok");
    reveal_strlit("fail");
    assert("-"@.len() == 1 && "ok"@.len() == 2);
    assert("skip"@.len() == 4 && "time"@.len() == 4 && "fail"@.len() == 4);
    assert("skip"@[0] == 's' && "time"@[0] == 't' && "fail"@[0] == 'f');
}

} // verus!
