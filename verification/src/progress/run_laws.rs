//! What holds of progress over a whole run.

use vstd::prelude::*;

use crate::cmd;
use crate::progress::state;
use crate::progress::state::State;
use crate::progress::text_laws;
use crate::status::Status;

verus! {

/// Something that happens in a run.
pub enum Event {
    /// A step starts, at this time.
    StepStart(u64),
    /// The item at this position starts, under this name and at this time.
    ItemStart(usize, Seq<char>, u64),
    /// The item at this position is done, and came out like this.
    ItemDone(usize, Status),
    /// Every item of a step is done.
    StepDone,
    /// The run is given up on, and why.
    GivenUp(Seq<char>),
    /// Another frame is drawn.
    Tick,
    /// The run is over.
    Over,
}

/// One where `b` holds, and none where it does not.
pub open spec fn one_if(b: bool) -> int {
    if b {
        1
    } else {
        0
    }
}

/// Whether `e` takes a run from `before` to `after`.
pub open spec fn moves(before: &State, after: &State, e: Event) -> bool {
    match e {
        Event::StepStart(now) => {
            &&& after.running@.len() == 0
            &&& *after == (State {
                at: before.started,
                started: (before.started + 1) as usize,
                step_began: now,
                done_here: 0,
                titled: false,
                running: after.running,
                drawn: after.drawn,
                ..*before
            })
            &&& before.started < usize::MAX
        },
        Event::ItemStart(at, name, now) => {
            &&& *after == (State { running: after.running, drawn: after.drawn, ..*before })
            &&& after.running@.len() == before.running@.len() + 1
            &&& after.running@.drop_last() == before.running@
            &&& after.running@.last().at == at
            &&& after.running@.last().name@ == name
            &&& after.running@.last().since == now
        },
        Event::ItemDone(at, status) => {
            &&& *after == (State {
                running: after.running,
                ok: after.ok,
                failed: after.failed,
                skipped: after.skipped,
                done_here: after.done_here,
                done_total: after.done_total,
                titled: true,
                drawn: after.drawn,
                ..*before
            })
            &&& after.running@ == state::without(before.running@, at)
            &&& after.ok == before.ok + one_if(text_laws::ends_well(status))
            &&& after.failed == before.failed + one_if(text_laws::ends_badly(status))
            &&& after.skipped == before.skipped + one_if(text_laws::never_ran(status))
            &&& after.done_here == before.done_here + 1
            &&& after.done_total == before.done_total + 1
        },
        Event::StepDone => {
            &&& *after == (State { running: after.running, drawn: after.drawn, ..*before })
            &&& after.running@.len() == 0
        },
        Event::GivenUp(why) => {
            &&& *after == (State { why: after.why, drawn: after.drawn, ..*before })
            &&& cmd::maybe(after.why) == Some(why)
        },
        Event::Tick => {
            ||| before.over && *after == *before
            ||| !before.over && *after == (State {
                frame: (before.frame + 1) as usize,
                drawn: after.drawn,
                ..*before
            })
        },
        Event::Over => *after == (State { over: true, drawn: after.drawn, ..*before }),
    }
}

/// Whether `events` take a run through `states`, one after another.
pub open spec fn runs(states: Seq<State>, events: Seq<Event>) -> bool {
    &&& states.len() == events.len() + 1
    &&& forall|i: int| 0 <= i < events.len() ==> #[trigger] follows(states, events, i)
}

/// Whether the event at `i` takes the state there to the next.
pub open spec fn follows(states: Seq<State>, events: Seq<Event>, i: int) -> bool {
    moves(&states[i], &states[i + 1], events[i])
}

/// How many of `events` are an item that is done and came out as `how` asks.
pub open spec fn finished(events: Seq<Event>, how: spec_fn(Status) -> bool) -> nat {
    events.filter(|e: Event| e matches Event::ItemDone(_, status) && how(status)).len()
}

/// How many of `events` are a step that starts.
pub open spec fn begun(events: Seq<Event>) -> nat {
    events.filter(|e: Event| e is StepStart).len()
}

/// However a run goes, what has come out each way is as many items as came out
/// that way, what is done of the run is as many as are done, and the steps that
/// have started are as many as started. What there is to do never changes.
pub proof fn law_a_run_counts_what_happens(states: Seq<State>, events: Seq<Event>)
    requires
        runs(states, events),
    ensures
        ({
            let first = states[0];
            let last = states.last();
            &&& last.ok == first.ok + finished(events, |s: Status| text_laws::ends_well(s))
            &&& last.failed == first.failed + finished(events, |s: Status| text_laws::ends_badly(s))
            &&& last.skipped == first.skipped + finished(events, |s: Status| text_laws::never_ran(s))
            &&& last.done_total == first.done_total + finished(events, |s: Status| true)
            &&& last.started == first.started + begun(events)
            &&& last.total == first.total
            &&& last.steps == first.steps
            &&& last.began == first.began
            &&& last.marks == first.marks
            &&& last.color == first.color
            &&& last.rewrite == first.rewrite
            &&& last.stream == first.stream
        }),
    decreases events.len(),
{
    reveal(Seq::filter);
    if events.len() > 0 {
        let n = events.len() - 1;
        let front = events.drop_last();
        let seen = states.drop_last();
        assert(runs(seen, front)) by {
            assert forall|i: int| 0 <= i < front.len() implies #[trigger] follows(
                seen,
                front,
                i,
            ) by {
                assert(follows(states, events, i));
            }
        }
        law_a_run_counts_what_happens(seen, front);
        assert(follows(states, events, n));
        let e = events[n];
        assert(events.last() == e);
        if let Event::ItemDone(at, status) = e {
            text_laws::law_every_outcome_is_counted_once(status);
        }
    }
}

/// What is done of a step is as many items as are done since it started: it
/// starts from none, and its name has been said once one of them is done. The
/// step shown is the one that started last, and its time is since it did.
pub proof fn law_a_step_counts_its_own_items(states: Seq<State>, events: Seq<Event>, at: int)
    requires
        runs(states, events),
        0 <= at < events.len(),
        events[at] is StepStart,
        forall|i: int| at < i < events.len() ==> !((#[trigger] events[i]) is StepStart),
    ensures
        ({
            let last = states.last();
            let since = events.skip(at + 1);
            &&& last.done_here == finished(since, |s: Status| true)
            &&& last.titled <==> finished(since, |s: Status| true) > 0
            &&& last.at == states[at].started
            &&& last.started == states[at].started + 1
            &&& last.step_began == events[at]->StepStart_0
        }),
    decreases events.len(),
{
    reveal(Seq::filter);
    let n = events.len() - 1;
    let since = events.skip(at + 1);
    assert(follows(states, events, n));
    if at == n {
        assert(since == Seq::<Event>::empty());
    } else {
        let front = events.drop_last();
        let seen = states.drop_last();
        assert(runs(seen, front)) by {
            assert forall|i: int| 0 <= i < front.len() implies #[trigger] follows(
                seen,
                front,
                i,
            ) by {
                assert(follows(states, events, i));
            }
        }
        assert forall|i: int| at < i < front.len() implies !((
        #[trigger] front[i]) is StepStart) by {
            assert(front[i] == events[i]);
        }
        law_a_step_counts_its_own_items(seen, front, at);
        assert(since.drop_last() == front.skip(at + 1));
        assert(since.last() == events[n]);
    }
}

/// An item is shown as running from when it starts until it is done, as long as
/// nothing else of its step is at its position.
pub proof fn law_an_item_is_shown_while_it_runs(
    before: &State,
    started: &State,
    done: &State,
    at: usize,
    name: Seq<char>,
    now: u64,
    status: Status,
)
    requires
        forall|i: int| 0 <= i < before.running@.len() ==> (#[trigger] before.running@[i]).at != at,
        moves(before, started, Event::ItemStart(at, name, now)),
        moves(started, done, Event::ItemDone(at, status)),
    ensures
        started.running@.last().name@ == name,
        started.running@.last().since == now,
        done.running@ == before.running@,
{
    let running = started.running@;
    let k = before.running@.len() as int;
    assert forall|i: int| 0 <= i < k implies (#[trigger] running[i]).at != at by {
        assert(running.drop_last()[i] == running[i]);
    }
    assert(running[k].at == at);
    text_laws::law_the_rest_keep_running(running, at);
    assert(running.take(k) + running.skip(k + 1) == before.running@);
}

} // verus!
