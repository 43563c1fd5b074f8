//! What each thing progress writes says.

use vstd::prelude::*;

use crate::cmd::Output;
use crate::cpu::list;
use crate::cpu::list_laws;
use crate::fmt;
use crate::item::Item;
use crate::progress::events;
use crate::progress::line;
use crate::progress::state;
use crate::progress::state::{Planned, Running, State};
use crate::progress::{Marks, When};
use crate::status::Status;
use crate::step::Step;
use crate::text;

verus! {

/// How many of a run's items are done, however each of them went.
pub open spec fn done(s: &State) -> nat {
    (s.ok + s.failed + s.skipped) as nat
}

/// What the live line says of the run as a whole: how many of all its items
/// are done, and how long it has been going.
pub open spec fn of_the_run(s: &State, now: u64) -> Seq<char> {
    "· "@ + text::decimal(done(s)) + "/"@ + text::decimal(s.total as nat) + " total  "@
        + fmt::span_text(state::since(s.began, now))
}

/// What the live line says of the step it is at: its name, how many of its own
/// items are done, and how long it has been going.
pub open spec fn of_the_step(s: &State, now: u64) -> Seq<char> {
    let step = s.steps@[s.at as int];
    line::painted(s.color, "1"@, step.label@) + "  "@ + text::decimal(s.done_here as nat) + "/"@
        + text::decimal(step.items as nat) + "  "@ + fmt::span_text(state::since(s.step_began, now))
}

/// The live line counts two things apart: the items of the step it is at, and
/// behind the dot the items of the whole run, whichever step they were in.
pub proof fn law_the_live_line_counts_the_whole_run(s: &State, now: u64)
    requires
        s.well_formed(),
    ensures
        s.step_line(now) == line::painted(s.color, "36"@, s.marks.turn(s.frame as nat)) + " "@
            + of_the_step(s, now) + "  "@ + line::painted(s.color, "2"@, of_the_run(s, now)),
{
    let spun = line::painted(s.color, "36"@, s.marks.turn(s.frame as nat));
    let run = line::painted(s.color, "2"@, of_the_run(s, now));
    assert(s.step_line(now) == spun + " "@ + of_the_step(s, now) + "  "@ + run);
}

/// A step starting changes nothing that the live line says of the run.
pub proof fn law_a_step_starting_leaves_the_run_as_it_was(before: &State, after: &State, now: u64)
    requires
        before.well_formed(),
        *after == (State {
            at: after.at,
            started: after.started,
            step_began: after.step_began,
            done_here: 0,
            titled: false,
            running: after.running,
            drawn: after.drawn,
            ..*before
        }),
    ensures
        done(after) == done(before),
        of_the_run(after, now) == of_the_run(before, now),
        after.step_line(now) == line::painted(
            after.color,
            "36"@,
            after.marks.turn(after.frame as nat),
        ) + " "@ + of_the_step(after, now) + "  "@ + line::painted(
            before.color,
            "2"@,
            of_the_run(before, now),
        ),
{
    let same = State { started: after.at, ..*after };
    law_the_live_line_counts_the_whole_run(&same, now);
    assert(after.step_line(now) == same.step_line(now));
    assert(of_the_step(after, now) == of_the_step(&same, now));
    assert(of_the_run(&same, now) == of_the_run(before, now));
}

/// An item being done takes what the live line says of the run up by one,
/// whichever step it is in and however it went.
pub proof fn law_an_item_done_moves_the_run_by_one(
    before: &State,
    after: &State,
    status: Status,
    now: u64,
)
    requires
        before.well_formed(),
        after.total == before.total,
        after.began == before.began,
        after.ok == before.ok + if ends_well(status) {
            1int
        } else {
            0
        },
        after.failed == before.failed + if ends_badly(status) {
            1int
        } else {
            0
        },
        after.skipped == before.skipped + if never_ran(status) {
            1int
        } else {
            0
        },
    ensures
        done(after) == done(before) + 1,
        of_the_run(after, now) == "· "@ + text::decimal(done(before) + 1) + "/"@ + text::decimal(
            before.total as nat,
        ) + " total  "@ + fmt::span_text(state::since(before.began, now)),
{
}

/// Whether an item with this status ran and exited with zero.
pub open spec fn ends_well(status: Status) -> bool {
    status matches Status::Finished(t) && t.exit == 0
}

/// Whether an item with this status could not start, was killed at its deadline,
/// or exited with anything but zero.
pub open spec fn ends_badly(status: Status) -> bool {
    ||| status is Failed
    ||| status is TimedOut
    ||| (status matches Status::Finished(t) && t.exit != 0)
}

/// Whether an item with this status was never reached.
pub open spec fn never_ran(status: Status) -> bool {
    status is NotRun || status is Skipped
}

/// Every item is counted under one of ok, failed and skipped and no other, by
/// how it came out.
pub proof fn law_every_outcome_is_counted_once(status: Status)
    ensures
        state::passed_over(status) <==> never_ran(status),
        status.is_failure() <==> ends_badly(status),
        !state::passed_over(status) && !status.is_failure() <==> ends_well(status),
        !(ends_well(status) && ends_badly(status)),
        !(ends_well(status) && never_ran(status)),
        !(ends_badly(status) && never_ran(status)),
{
}

/// The live block is a line for the step, and under it a line for each item
/// running in it with its name and how long it has been going. Past eight, the
/// rest are counted on one line more.
pub proof fn law_the_live_block_names_what_runs(s: &State, now: u64)
    ensures
        ({
            let lines = s.live_lines(now);
            let n = s.running@.len();
            let spun = line::painted(s.color, "36"@, s.marks.turn(s.frame as nat));
            if s.over || s.at >= s.steps@.len() {
                lines.len() == 0
            } else {
                &&& lines[0] == s.step_line(now)
                &&& forall|i: int|
                    0 <= i < n && i < 8 ==> #[trigger] lines[i + 1] == "   "@ + spun + " "@
                        + text::padded_right(s.marks.shortened(s.running@[i].name@), 32) + "  "@
                        + line::painted(
                        s.color,
                        "2"@,
                        fmt::span_text(state::since(s.running@[i].since, now)),
                    )
                &&& n <= 8 ==> lines.len() == n + 1
                &&& n > 8 ==> lines.len() == 10 && lines[9] == line::painted(
                    s.color,
                    "2"@,
                    "   ... and "@ + text::decimal((n - 8) as nat) + " more"@,
                )
            }
        }),
{
    if !(s.over || s.at >= s.steps@.len()) {
        let lines = s.live_lines(now);
        let n = s.running@.len();
        assert forall|i: int| 0 <= i < n && i < 8 implies #[trigger] lines[i + 1]
            == state::running_line(s.marks, s.color, s.frame as nat, s.running@[i], now) by {
        }
    }
}

/// How long something has been going is the time since it began, and none on a
/// clock that reads earlier.
pub proof fn law_time_does_not_run_back(then_ns: u64, now: u64)
    ensures
        then_ns <= now ==> then_ns + state::since(then_ns, now) == now,
        then_ns > now ==> state::since(then_ns, now) == 0,
{
}

/// The opening says how many steps there are and how many items in all of them.
pub proof fn law_the_opening_counts_steps_and_items<F>(steps: Seq<Step<F>>)
    ensures
        events::opening(steps.len(), state::all_items(steps)) == text::decimal(steps.len())
            + " steps, "@ + text::decimal(
            steps.map_values(|step: Step<F>| step.size()).fold_left(0nat, |a: nat, b: nat| a + b),
        ) + " to run"@,
{
    lemma_all_items(steps);
}

proof fn lemma_all_items<F>(steps: Seq<Step<F>>)
    ensures
        state::all_items(steps) == steps.map_values(|step: Step<F>| step.size()).fold_left(
            0nat,
            |a: nat, b: nat| a + b,
        ),
    decreases steps.len(),
{
    let sizes = steps.map_values(|step: Step<F>| step.size());
    if steps.len() > 0 {
        lemma_all_items(steps.drop_last());
        assert(sizes.drop_last() == steps.drop_last().map_values(|step: Step<F>| step.size()));
    }
}

/// The closing says how many items went each way and how long the run took, in
/// red if any failed or the run was given up on and otherwise in green.
pub proof fn law_the_closing_counts_every_way(s: &State, now: u64)
    ensures
        events::summary(s, now) == line::painted(
            s.color,
            if s.failed > 0 || s.why is Some {
                "31"@
            } else {
                "32"@
            },
            text::decimal(s.ok as nat) + " ok, "@ + text::decimal(s.failed as nat) + " failed, "@
                + text::decimal(s.skipped as nat) + " skipped in "@ + fmt::span_text(
                state::since(s.began, now),
            ),
        ),
{
}

/// An item that is done is told under its step's name, which is said once, and
/// one that failed says where its stderr is if it left any.
pub proof fn law_a_result_is_told_under_its_step<F>(
    marks: Marks,
    color: bool,
    titled: bool,
    step: &Step<F>,
    item: Item<'_, F>,
    left: bool,
)
    ensures
        ({
            let lines = state::done_lines(marks, color, titled, step, item, left);
            let first: int = if titled {
                0
            } else {
                1
            };
            let file = match item {
                Item::Cmd(cmd) => match cmd.stderr {
                    Output::File(p) | Output::Append(p) | Output::OnFailure(p) => Some(p@),
                    _ => None,
                },
                Item::Closure(_) => None,
            };
            let told = ends_badly(item.outcome()) && left && file is Some;
            &&& lines.len() == first + 1 + if told {
                1int
            } else {
                0
            }
            &&& !titled ==> lines[0] == line::painted(color, "1"@, step.called())
            &&& lines[first] == line::finished_line(
                marks,
                color,
                item.called(),
                item.outcome(),
                match item {
                    Item::Cmd(cmd) => cmd.nodes@,
                    Item::Closure(_) => Seq::empty(),
                },
                item.dropped(),
            )
            &&& told ==> lines[first + 1] == line::painted(color, "2"@, "      "@ + file->0)
        }),
{
}

/// The line of a finished item is its mark, if there are marks, its name in a
/// column of its own, and its result. One that never ran is dim.
pub proof fn law_a_finished_line_is_mark_name_and_result(
    marks: Marks,
    color: bool,
    name: Seq<char>,
    status: Status,
    nodes: Seq<usize>,
    note: Option<Seq<char>>,
)
    ensures
        ({
            let text = line::finished_line(marks, color, name, status, nodes, note);
            let column = text::padded_right(name, 32);
            let shown = if never_ran(status) {
                line::painted(color, "2"@, column)
            } else {
                column
            };
            let result = line::detail_of(!(marks is Off), status, nodes, note);
            match mark_of(marks, status) {
                Some((mark, code)) => text == "  "@ + line::painted(color, code, mark) + " "@
                    + shown + " "@ + result,
                None => text == "  "@ + shown + " "@ + result,
            }
        }),
{
    law_a_mark_says_how_it_went(marks, status);
}

/// The mark that says how an item went, and its color: green if it worked, red
/// if it failed, yellow if it ran out of time and dim if it never ran.
pub open spec fn mark_of(marks: Marks, status: Status) -> Option<(Seq<char>, Seq<char>)> {
    if marks is Off {
        None
    } else {
        Some(
            if ends_well(status) {
                (if marks is Unicode {
                    "✓"@
                } else {
                    "+"@
                }, "32"@)
            } else if status is TimedOut {
                ("!"@, "33"@)
            } else if never_ran(status) {
                (if marks is Unicode {
                    "·"@
                } else {
                    "-"@
                }, "2"@)
            } else {
                (if marks is Unicode {
                    "✗"@
                } else {
                    "x"@
                }, "31"@)
            },
        )
    }
}

/// A mark says how an item went, and there is none only where marks are off.
pub proof fn law_a_mark_says_how_it_went(marks: Marks, status: Status)
    ensures
        marks.sign(status) == mark_of(marks, status),
{
}

/// What an item that ran cost is its wall clock and its peak memory. Where it ran
/// and how it went follow, in that order, if there is anything to say of them.
pub proof fn law_a_result_is_time_memory_place_and_verdict(
    marked: bool,
    status: Status,
    nodes: Seq<usize>,
    note: Option<Seq<char>>,
)
    ensures
        match status {
            Status::NotRun => line::detail_of(marked, status, nodes, note) == "-"@,
            Status::Skipped => line::detail_of(marked, status, nodes, note) == "skipped"@,
            Status::Failed(why) => line::detail_of(marked, status, nodes, note) == why@,
            Status::Finished(t) | Status::TimedOut(t) => {
                let time = text::padded_left(fmt::seconds_text(t.wall_ns as nat), ' ', 8) + "s "@;
                let memory = text::padded_left(
                    if t.max_rss_kb is Some {
                        fmt::bytes_text(t.max_rss_kb->0 as int)
                    } else {
                        "-"@
                    },
                    ' ',
                    9,
                );
                let place = line::placement_of(nodes, note);
                let verdict = line::verdict_of(marked, status);
                line::detail_of(marked, status, nodes, note) == time + memory + (if place.len()
                    == 0 {
                    Seq::empty()
                } else {
                    "  "@ + place
                }) + (if verdict.len() == 0 {
                    Seq::empty()
                } else {
                    "  "@ + verdict
                })
            },
        },
{
}

/// A verdict is the exit code of an item that did not exit with zero, whatever
/// it is, or that it ran out of time. One that worked says so only where there
/// is no mark to.
pub proof fn law_a_verdict_is_the_exit_or_the_deadline(marked: bool, status: Status)
    ensures
        status is TimedOut ==> line::verdict_of(marked, status) == "timed out"@,
        status matches Status::Finished(t) ==> (t.exit != 0 ==> line::verdict_of(marked, status)
            == "exit "@ + text::signed(t.exit as int)),
        ends_well(status) ==> line::verdict_of(marked, status) == if marked {
            Seq::empty()
        } else {
            "ok"@
        },
        !(status is TimedOut) && !(status is Finished) ==> line::verdict_of(marked, status)
            == Seq::<char>::empty(),
{
}

/// Where an item ran is the list of its nodes, with why no memory preference
/// went with them if none did. One with no nodes says nothing.
pub proof fn law_a_place_is_a_list_of_nodes(nodes: Seq<usize>, note: Option<Seq<char>>)
    ensures
        nodes.len() == 0 ==> line::placement_of(nodes, note).len() == 0,
        nodes.len() > 0 ==> exists|on: Seq<char>|
            list_laws::names(on, nodes) && line::placement_of(nodes, note) == "node "@ + on + (
            match note {
                Some(note) => " (no memory preference: "@ + note + ")"@,
                None => Seq::empty(),
            }),
{
    if nodes.len() > 0 {
        let on = list::list_text(nodes);
        list_laws::law_taskset_reads_a_list_back(nodes);
        assert(list_laws::names(on, nodes));
        match note {
            Some(note) => {
                assert("node "@ + on + " (no memory preference: "@ + note + ")"@ == "node "@ + on
                    + (" (no memory preference: "@ + note + ")"@));
            },
            None => {
                assert("node "@ + on + Seq::<char>::empty() == "node "@ + on);
            },
        }
    }
}

/// A name too long for its line keeps its start and says at its end that there
/// is more.
pub proof fn law_a_cut_name_keeps_its_start(marks: Marks, name: Seq<char>)
    requires
        name.len() > 32,
    ensures
        marks.shortened(name).len() == 32,
        marks is Unicode ==> marks.shortened(name) == name.take(31) + seq!['…'],
        !(marks is Unicode) ==> marks.shortened(name) == name.take(29) + "..."@,
{
    reveal_strlit("...");
    assert("..."@ == seq!['.', '.', '.']);
}

/// Color goes on in front of the words and off again after them.
pub proof fn law_color_goes_on_and_off_again(code: Seq<char>, words: Seq<char>)
    ensures
        line::painted(true, code, words) == "\u{1b}["@ + code + "m"@ + words + "\u{1b}[0m"@,
{
}

/// The spinner turns every frame and comes round again.
pub proof fn law_the_spinner_turns(marks: Marks, frame: nat)
    ensures
        marks.turn(frame) != marks.turn(frame + 1),
        marks is Unicode ==> marks.turn(frame) == marks.turn(frame + 10),
        !(marks is Unicode) ==> marks.turn(frame) == marks.turn(frame + 4),
        marks is Unicode ==> marks.turn(frame) == seq![
            "⠋⠙⠹⠸⠼⠴⠦⠧⠇⠏"@[(frame % 10) as int],
        ],
        !(marks is Unicode) ==> marks.turn(frame) == seq!["|/-\\"@[(frame % 4) as int]],
{
    reveal_strlit("⠋⠙⠹⠸⠼⠴⠦⠧⠇⠏");
    reveal_strlit("|/-\\");
    reveal_strlit("⠋");
    reveal_strlit("⠙");
    reveal_strlit("⠹");
    reveal_strlit("⠸");
    reveal_strlit("⠼");
    reveal_strlit("⠴");
    reveal_strlit("⠦");
    reveal_strlit("⠧");
    reveal_strlit("⠇");
    reveal_strlit("⠏");
    reveal_strlit("|");
    reveal_strlit("/");
    reveal_strlit("-");
    reveal_strlit("\\");
    if marks is Unicode {
        let wheel = "⠋⠙⠹⠸⠼⠴⠦⠧⠇⠏"@;
        assert forall|f: nat| #[trigger] marks.turn(f) == seq![wheel[(f % 10) as int]] by {
            assert(marks.turn(f) == seq![wheel[(f % 10) as int]]);
        }
        assert((frame + 10) % 10 == frame % 10);
        let a = marks.turn(frame);
        let b = marks.turn(frame + 1);
        assert(a[0] == wheel[(frame % 10) as int] && b[0] == wheel[((frame + 1) % 10) as int]);
        assert((frame + 1) % 10 == if frame % 10 == 9 {
            0
        } else {
            frame % 10 + 1
        });
        assert(a[0] != b[0]);
    } else {
        let wheel = "|/-\\"@;
        assert forall|f: nat| #[trigger] marks.turn(f) == seq![wheel[(f % 4) as int]] by {
            assert(marks.turn(f) == seq![wheel[(f % 4) as int]]);
        }
        assert((frame + 4) % 4 == frame % 4);
        let a = marks.turn(frame);
        let b = marks.turn(frame + 1);
        assert(a[0] == wheel[(frame % 4) as int] && b[0] == wheel[((frame + 1) % 4) as int]);
        assert((frame + 1) % 4 == if frame % 4 == 3 {
            0
        } else {
            frame % 4 + 1
        });
        assert(a[0] != b[0]);
    }
}

/// What is repeated comes out once for each time, one after another.
pub proof fn law_repeating_is_once_for_each_time(words: Seq<char>, a: nat, b: nat)
    ensures
        state::repeated(words, 1) == words,
        state::repeated(words, a + b) == state::repeated(words, a) + state::repeated(words, b),
        state::repeated(words, a).len() == a * words.len(),
    decreases a, b,
{
    reveal_with_fuel(state::repeated, 2);
    assert(state::repeated(words, 1) == words);
    if b > 0 {
        law_repeating_is_once_for_each_time(words, a, (b - 1) as nat);
        assert(state::repeated(words, a + b) == state::repeated(words, a) + state::repeated(
            words,
            b,
        ));
    } else {
        assert(state::repeated(words, a) + state::repeated(words, 0) == state::repeated(words, a));
    }
    if a > 0 {
        law_repeating_is_once_for_each_time(words, (a - 1) as nat, 0);
        assert(a * words.len() == (a - 1) * words.len() + words.len()) by (nonlinear_arith)
            requires
                a > 0,
        ;
    } else {
        assert(0 * words.len() == 0);
    }
}

/// A block is erased a row at a time, from its last row up to its first, and a
/// log has nothing to erase.
pub proof fn law_a_block_is_erased_row_by_row(rows: nat)
    ensures
        state::erased(false, rows).len() == 0,
        state::erased(true, 0) == "\r\u{1b}[2K"@,
        rows > 0 ==> state::erased(true, rows) == "\r\u{1b}[2K"@ + state::repeated(
            "\u{1b}[1A\u{1b}[2K"@,
            (rows - 1) as nat,
        ),
{
    if rows == 1 {
        assert("\r\u{1b}[2K"@ + state::repeated("\u{1b}[1A\u{1b}[2K"@, 0) == "\r\u{1b}[2K"@);
    }
}

/// A line is written for good where the live block was, and the block again
/// under it.
pub proof fn law_a_line_goes_above_the_block(s: &State, drawn: nat, words: Seq<char>, now: u64)
    requires
        s.rewrite,
    ensures
        s.written(drawn, seq![words], now) == state::erased(true, drawn) + text::trimmed_end(words)
            + "\n"@ + text::joined(s.live_lines(now), "\n"@),
        s.redrawn(drawn, now) == state::erased(true, drawn) + text::joined(
            s.live_lines(now),
            "\n"@,
        ),
        s.rows(now) == s.live_lines(now).len(),
{
    reveal_strlit("\n");
    assert("\n"@ == seq!['\n']);
    assert(seq![words].skip(1).len() == 0);
    assert(s.written(s.rows(now), seq![words].skip(1), now) == Seq::<char>::empty());
    let all = state::erased(true, drawn) + text::trimmed_end(words) + seq!['\n'] + s.block(now);
    assert(all + Seq::<char>::empty() == all);
}

/// Lines written one after another are written each as it would be alone, over
/// the block that the one before it left.
pub proof fn law_lines_are_written_in_turn(
    s: &State,
    drawn: nat,
    first: Seq<char>,
    rest: Seq<Seq<char>>,
    now: u64,
)
    ensures
        s.written(drawn, seq![first] + rest, now) == s.written(drawn, seq![first], now)
            + s.written(s.rows(now), rest, now),
        s.written(drawn, Seq::empty(), now) == Seq::<char>::empty(),
{
    events::lemma_written_on(s, drawn, first, rest, now);
}

/// A setting left to the terminal follows it, and one that is not does not.
pub proof fn law_only_auto_asks_the_terminal(asked: When, tty: bool)
    ensures
        asked is Always ==> asked.means(tty),
        asked is Never ==> !asked.means(tty),
        asked is Auto ==> asked.means(tty) == tty,
{
}

/// The item that is taken off the running ones is the first at that position,
/// and the others stay in their order.
pub proof fn law_the_rest_keep_running(running: Seq<Running>, at: usize)
    ensures
        (forall|i: int| 0 <= i < running.len() ==> (#[trigger] running[i]).at != at)
            ==> state::without(running, at) == running,
        forall|k: int|
            0 <= k < running.len() && (#[trigger] running[k]).at == at && (forall|i: int|
                0 <= i < k ==> (#[trigger] running[i]).at != at) ==> state::without(running, at)
                == running.take(k) + running.skip(k + 1),
{
    crate::progress::laws::lemma_place(running, at);
    let p = state::place_of(running, at) as int;
    if p < running.len() {
        assert(running[p].at == at);
    }
    assert forall|k: int|
        0 <= k < running.len() && (#[trigger] running[k]).at == at && (forall|i: int|
            0 <= i < k ==> (#[trigger] running[i]).at != at) implies state::without(running, at)
        == running.take(k) + running.skip(k + 1) by {
        assert(running[p].at == at);
        assert(p == k);
        assert(running.remove(k) == running.take(k) + running.skip(k + 1));
    }
}

/// Once a run is over its block is taken away and the cursor is put back, and a
/// log has neither.
pub proof fn law_the_cursor_is_put_back(s: &State)
    ensures
        s.rewrite ==> events::wiped(s) == state::erased(true, s.drawn as nat) + "\u{1b}[?25h"@,
        !s.rewrite ==> events::wiped(s).len() == 0,
        state::HIDE_CURSOR@ == "\u{1b}[?25l"@,
{
}

/// What is planned of a run is the name of each step and how many items it holds,
/// in the order of the steps.
pub proof fn law_a_plan_is_the_steps_in_order<F>(
    plan: Seq<Planned>,
    steps: Seq<Step<F>>,
    i: int,
)
    requires
        state::plans(plan, steps),
        0 <= i < steps.len(),
    ensures
        plan.len() == steps.len(),
        plan[i].label@ == steps[i].called(),
        plan[i].items == steps[i].size(),
{
}

} // verus!
