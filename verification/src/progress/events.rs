//! What to write at each turn of a run.

use vstd::prelude::*;

use crate::cmd;
use crate::fmt;
use crate::item::Item;
use crate::progress::line;
use crate::progress::line::{BOLD, DIM, GREEN, RED};
use crate::progress::run_laws;
use crate::progress::state;
use crate::progress::state::{Planned, Running, State, HIDE_CURSOR, SHOW_CURSOR};
use crate::progress::text_laws;
use crate::progress::Progress;
use crate::status::Status;
use crate::step::Step;
use crate::text;

verus! {

/// What has been drawn changes nothing about what is written over it.
pub proof fn lemma_written(a: &State, b: &State, da: nat, db: nat, lines: Seq<Seq<char>>, now: u64)
    requires
        a.same_but_drawn(b),
        a.rewrite ==> da == db,
    ensures
        a.written(da, lines, now) == b.written(db, lines, now),
    decreases lines.len(),
{
    if lines.len() > 0 {
        lemma_written(a, b, a.rows(now), b.rows(now), lines.skip(1), now);
        assert(a.block(now) == b.block(now));
    }
}

/// Lines written one after another are written together.
pub proof fn lemma_written_on(
    s: &State,
    drawn: nat,
    first: Seq<char>,
    rest: Seq<Seq<char>>,
    now: u64,
)
    ensures
        s.written(drawn, seq![first] + rest, now) == s.written(drawn, seq![first], now)
            + s.written(s.rows(now), rest, now),
{
    let lines = seq![first] + rest;
    assert(lines.skip(1) == rest);
    assert(seq![first].skip(1).len() == 0);
    assert(s.written(s.rows(now), seq![first].skip(1), now) == Seq::<char>::empty());
}

/// How many steps there are and how many things to run in them.
pub open spec fn opening(steps: nat, total: nat) -> Seq<char> {
    text::decimal(steps) + " steps, "@ + text::decimal(total) + " to run"@
}

/// How the run went.
pub open spec fn summary(s: &State, now: u64) -> Seq<char> {
    let counts = text::decimal(s.ok as nat) + " ok, "@ + text::decimal(s.failed as nat)
        + " failed, "@ + text::decimal(s.skipped as nat) + " skipped in "@ + fmt::span_text(
        state::since(s.began, now),
    );
    if s.failed > 0 || s.why is Some {
        line::painted(s.color, RED@, counts)
    } else {
        line::painted(s.color, GREEN@, counts)
    }
}

/// What takes the live block away and puts the cursor back.
pub open spec fn wiped(s: &State) -> Seq<char> {
    if s.rewrite {
        state::erased(true, s.drawn as nat) + SHOW_CURSOR@
    } else {
        Seq::empty()
    }
}

impl Progress {
    /// Everything that is about to run, before any of it has. `tty` is whether
    /// the stream asked for is a terminal, and `plain` whether the environment
    /// turns color off.
    pub fn start<F>(&mut self, steps: &[Step<F>], tty: bool, plain: bool, now: u64) -> (r: String)
        requires
            state::all_items(steps@) <= usize::MAX,
        ensures
            final(self).asked == old(self).asked,
            old(self).state.well_formed() ==> final(self).state.well_formed(),
            state::plans(final(self).state.steps@, steps@),
            final(self).state == (State {
                steps: final(self).state.steps,
                total: state::all_items(steps@) as usize,
                began: now,
                step_began: now,
                marks: old(self).asked.marks,
                stream: old(self).asked.stream,
                // these turn color off whatever was asked: asking for
                // it in code is not a reason to overrule the reader
                color: !plain && old(self).asked.color.means(tty),
                rewrite: old(self).asked.rewrite.means(tty),
                drawn: final(self).state.drawn,
                ..old(self).state
            }),
            final(self).state.drawn == final(self).state.rows(now),
            r@ == (if final(self).state.rewrite {
                HIDE_CURSOR@
            } else {
                Seq::empty()
            }) + final(self).state.written(
                old(self).state.drawn as nat,
                seq![
                    line::painted(
                        final(self).state.color,
                        DIM@,
                        opening(steps@.len(), state::all_items(steps@)),
                    ),
                ],
                now,
            ),
    {
        self.state.marks = self.asked.marks;
        self.state.stream = self.asked.stream;
        self.state.color = !plain && self.asked.color.yes(tty);
        self.state.rewrite = self.asked.rewrite.yes(tty);

        let mut plan: Vec<Planned> = Vec::new();
        let mut total: usize = 0;
        let mut i: usize = 0;
        while i < steps.len()
            invariant
                i <= steps@.len(),
                state::all_items(steps@) <= usize::MAX,
                total == state::all_items(steps@.take(i as int)),
                state::plans(plan@, steps@.take(i as int)),
            decreases steps@.len() - i,
        {
            let items: usize = steps[i].items().len();
            proof {
                lemma_all_items(steps@, i + 1);
                assert(steps@.take(i + 1).drop_last() == steps@.take(i as int));
            }
            plan.push(Planned { label: steps[i].label(), items });
            total = total + items;
            i = i + 1;
        }
        assert(steps@.take(i as int) == steps@);
        self.state.steps = plan;
        self.state.total = total;
        self.state.began = now;
        self.state.step_began = now;

        let mut r = String::new();
        if self.state.rewrite {
            r.append(HIDE_CURSOR);
        }
        let mut words = String::new();
        text::push_decimal(&mut words, self.state.steps.len() as u128);
        words.append(" steps, ");
        text::push_decimal(&mut words, self.state.total as u128);
        words.append(" to run");
        assert(words@ == opening(steps@.len(), state::all_items(steps@)));
        let words = self.state.paint(DIM, words.as_str());
        let ghost s = self.state;
        let said = self.state.emit(words.as_str(), now);
        r.append(said.as_str());
        proof {
            lemma_written(&s, &self.state, s.drawn as nat, s.drawn as nat, seq![words@], now);
        }
        r
    }

    /// A step is starting.
    pub fn step_start(&mut self, now: u64) -> (r: String)
        requires
            old(self).state.started < usize::MAX,
        ensures
            final(self).asked == old(self).asked,
            old(self).state.well_formed() ==> final(self).state.well_formed(),
            run_laws::moves(&old(self).state, &final(self).state, run_laws::Event::StepStart(now)),
            text_laws::done(&final(self).state) == text_laws::done(&old(self).state),
            forall|t: u64| #[trigger]
                text_laws::of_the_run(&final(self).state, t) == text_laws::of_the_run(
                    &old(self).state,
                    t,
                ),
            final(self).state == (State {
                at: old(self).state.started,
                started: (old(self).state.started + 1) as usize,
                step_began: now,
                done_here: 0,
                titled: false,
                running: final(self).state.running,
                drawn: final(self).state.drawn,
                ..old(self).state
            }),
            final(self).state.running@.len() == 0,
            final(self).state.drawn == final(self).state.rows(now),
            r@ == final(self).state.redrawn(old(self).state.drawn as nat, now),
    {
        self.state.at = self.state.started;
        self.state.started = self.state.started + 1;
        self.state.step_began = now;
        self.state.done_here = 0;
        self.state.titled = false;
        self.state.running = Vec::new();
        self.state.draw(now)
    }

    /// An item is about to run. `at` is its position in the step.
    pub fn item_start<F>(&mut self, at: usize, item: Item<'_, F>, now: u64) -> (r: String)
        ensures
            final(self).asked == old(self).asked,
            old(self).state.well_formed() ==> final(self).state.well_formed(),
            run_laws::moves(
                &old(self).state,
                &final(self).state,
                run_laws::Event::ItemStart(at, item.called(), now),
            ),
            final(self).state == (State {
                running: final(self).state.running,
                drawn: final(self).state.drawn,
                ..old(self).state
            }),
            final(self).state.running@.len() == old(self).state.running@.len() + 1,
            final(self).state.running@.drop_last() == old(self).state.running@,
            final(self).state.running@.last().at == at,
            final(self).state.running@.last().name@ == item.called(),
            final(self).state.running@.last().since == now,
            final(self).state.drawn == final(self).state.rows(now),
            r@ == final(self).state.redrawn(old(self).state.drawn as nat, now),
    {
        self.state.running.push(Running { at, name: item.label(), since: now });
        assert(self.state.running@.drop_last() == old(self).state.running@);
        self.state.draw(now)
    }

    /// An item is done. `at` is its position in the step, and `left` whether
    /// its stderr file is still there.
    //
    // only a file that is still there is named: a failure that
    // said nothing has had its file cleaned up already
    pub fn item_done<F>(
        &mut self,
        step: &Step<F>,
        at: usize,
        item: Item<'_, F>,
        left: bool,
        now: u64,
    ) -> (r: String)
        requires
            old(self).state.well_formed(),
            old(self).state.done_total < usize::MAX,
        ensures
            final(self).asked == old(self).asked,
            final(self).state.well_formed(),
            text_laws::done(&final(self).state) == text_laws::done(&old(self).state) + 1,
            run_laws::moves(
                &old(self).state,
                &final(self).state,
                run_laws::Event::ItemDone(at, item.outcome()),
            ),
            final(self).state.running@ == state::without(old(self).state.running@, at),
            final(self).state == (State {
                running: final(self).state.running,
                ok: final(self).state.ok,
                failed: final(self).state.failed,
                skipped: final(self).state.skipped,
                done_here: (old(self).state.done_here + 1) as usize,
                done_total: (old(self).state.done_total + 1) as usize,
                titled: true,
                drawn: final(self).state.drawn,
                ..old(self).state
            }),
            final(self).state.skipped == old(self).state.skipped + if state::passed_over(
                item.outcome(),
            ) {
                1int
            } else {
                0
            },
            final(self).state.failed == old(self).state.failed
                + if item.outcome().is_failure() {
                1int
            } else {
                0
            },
            final(self).state.ok == old(self).state.ok + if !state::passed_over(item.outcome())
                && !item.outcome().is_failure() {
                1int
            } else {
                0
            },
            final(self).state.drawn == final(self).state.rows(now),
            r@ == final(self).state.written(
                old(self).state.drawn as nat,
                state::done_lines(
                    old(self).state.marks,
                    old(self).state.color,
                    old(self).state.titled,
                    step,
                    item,
                    left,
                ),
                now,
            ),
    {
        let titled = self.state.titled;
        self.count(at, item.status());
        let ghost s = self.state;
        let r = self.tell(titled, step, item, left, now);
        proof {
            lemma_written(
                &s,
                &self.state,
                s.drawn as nat,
                s.drawn as nat,
                state::done_lines(s.marks, s.color, titled, step, item, left),
                now,
            );
        }
        r
    }

    /// Count an item at `at` as done, with its step's name printed.
    fn count(&mut self, at: usize, status: &Status)
        requires
            old(self).state.well_formed(),
            old(self).state.done_total < usize::MAX,
        ensures
            final(self).asked == old(self).asked,
            final(self).state.well_formed(),
            final(self).state.running@ == state::without(old(self).state.running@, at),
            final(self).state == (State {
                running: final(self).state.running,
                ok: final(self).state.ok,
                failed: final(self).state.failed,
                skipped: final(self).state.skipped,
                done_here: (old(self).state.done_here + 1) as usize,
                done_total: (old(self).state.done_total + 1) as usize,
                titled: true,
                ..old(self).state
            }),
            final(self).state.skipped == old(self).state.skipped + if state::passed_over(*status) {
                1int
            } else {
                0
            },
            final(self).state.failed == old(self).state.failed + if status.is_failure() {
                1int
            } else {
                0
            },
            final(self).state.ok == old(self).state.ok + if !state::passed_over(*status)
                && !status.is_failure() {
                1int
            } else {
                0
            },
    {
        // by position rather than by name: names repeat, positions do not
        let which: usize = position(&self.state.running, at);
        if which < self.state.running.len() {
            self.state.running.remove(which);
        }
        match status {
            Status::Skipped | Status::NotRun => {
                self.state.skipped = self.state.skipped + 1;
            },
            _ => {
                if status.failed() {
                    self.state.failed = self.state.failed + 1;
                } else {
                    self.state.ok = self.state.ok + 1;
                }
            },
        }
        self.state.done_here = self.state.done_here + 1;
        self.state.done_total = self.state.done_total + 1;
        self.state.titled = true;
    }

    /// Say that an item is done, under its step's name if that has not been
    /// printed.
    fn tell<F>(
        &mut self,
        titled: bool,
        step: &Step<F>,
        item: Item<'_, F>,
        left: bool,
        now: u64,
    ) -> (r: String)
        ensures
            final(self).asked == old(self).asked,
            final(self).state.same_but_drawn(&old(self).state),
            final(self).state.drawn == old(self).state.rows(now),
            r@ == old(self).state.written(
                old(self).state.drawn as nat,
                state::done_lines(
                    old(self).state.marks,
                    old(self).state.color,
                    titled,
                    step,
                    item,
                    left,
                ),
                now,
            ),
    {
        let ghost s = self.state;
        let ghost before = s.drawn as nat;
        let mut r = String::new();
        let ghost mut lines: Seq<Seq<char>> = Seq::empty();
        assert(s.written(before, lines, now) == r@);
        if !titled {
            let label = step.label();
            let title = self.state.paint(BOLD, label.as_str());
            let said = self.say(title.as_str(), Ghost(s), Ghost(before), Ghost(lines), now);
            r.append(said.as_str());
            proof {
                lines = lines + seq![title@];
            }
        }

        let name = item.label();
        let result = match item.nodes() {
            Some(nodes) => self.state.line(name.as_str(), item.status(), nodes, item.policy_note()),
            None => self.state.line(name.as_str(), item.status(), &[], item.policy_note()),
        };
        let said = self.say(result.as_str(), Ghost(s), Ghost(before), Ghost(lines), now);
        r.append(said.as_str());
        proof {
            lines = lines + seq![result@];
        }

        if item.status().failed() && left {
            if let Some(path) = item.stderr_path() {
                let mut words = "      ".to_owned();
                words.append(path);
                let words = self.state.paint(DIM, words.as_str());
                let said = self.say(words.as_str(), Ghost(s), Ghost(before), Ghost(lines), now);
                r.append(said.as_str());
                proof {
                    lines = lines + seq![words@];
                    assert(words@ == state::stderr_line(s.color, item)->0);
                }
            }
        }
        proof {
            assert(lines == state::done_lines(s.marks, s.color, titled, step, item, left));
        }
        r
    }

    /// Every item of a step is done.
    pub fn step_done(&mut self, now: u64) -> (r: String)
        ensures
            final(self).asked == old(self).asked,
            old(self).state.well_formed() ==> final(self).state.well_formed(),
            run_laws::moves(&old(self).state, &final(self).state, run_laws::Event::StepDone),
            final(self).state == (State {
                running: final(self).state.running,
                drawn: final(self).state.drawn,
                ..old(self).state
            }),
            final(self).state.running@.len() == 0,
            final(self).state.drawn == final(self).state.rows(now),
            r@ == final(self).state.redrawn(old(self).state.drawn as nat, now),
    {
        // `at` stays put: until the next step starts, the step that
        // just ended is still the one shown, at its full count
        self.state.running = Vec::new();
        self.state.draw(now)
    }

    /// The run is being given up on, and why.
    pub fn abandoned(&mut self, why: &str, now: u64) -> (r: String)
        ensures
            final(self).asked == old(self).asked,
            old(self).state.well_formed() ==> final(self).state.well_formed(),
            run_laws::moves(&old(self).state, &final(self).state, run_laws::Event::GivenUp(why@)),
            cmd::maybe(final(self).state.why) == Some(why@),
            final(self).state == (State {
                why: final(self).state.why,
                drawn: final(self).state.drawn,
                ..old(self).state
            }),
            final(self).state.drawn == final(self).state.rows(now),
            r@ == final(self).state.written(
                old(self).state.drawn as nat,
                seq![line::painted(final(self).state.color, RED@, "  giving up: "@ + why@)],
                now,
            ),
    {
        self.state.why = Some(why.to_owned());
        let mut words = "  giving up: ".to_owned();
        words.append(why);
        let words = self.state.paint(RED, words.as_str());
        let ghost s = self.state;
        let r = self.state.emit(words.as_str(), now);
        proof {
            lemma_written(&s, &self.state, s.drawn as nat, s.drawn as nat, seq![words@], now);
        }
        r
    }

    /// The run is over, however it ended.
    pub fn finish(&mut self, now: u64) -> (r: String)
        ensures
            final(self).asked == old(self).asked,
            old(self).state.well_formed() ==> final(self).state.well_formed(),
            run_laws::moves(&old(self).state, &final(self).state, run_laws::Event::Over),
            final(self).state == (State {
                over: true,
                drawn: final(self).state.drawn,
                ..old(self).state
            }),
            final(self).state.drawn == final(self).state.rows(now),
            r@ == wiped(&old(self).state) + final(self).state.written(
                0,
                seq![summary(&final(self).state, now)],
                now,
            ),
    {
        self.stop();
        let mut r = self.state.wipe();

        let mut counts = String::new();
        text::push_decimal(&mut counts, self.state.ok as u128);
        counts.append(" ok, ");
        text::push_decimal(&mut counts, self.state.failed as u128);
        counts.append(" failed, ");
        text::push_decimal(&mut counts, self.state.skipped as u128);
        counts.append(" skipped in ");
        let took = state::elapsed(self.state.began, now);
        counts.append(took.as_str());
        let code = if self.state.failed > 0 || self.state.why.is_some() {
            RED
        } else {
            GREEN
        };
        let words = self.state.paint(code, counts.as_str());
        let ghost s = self.state;
        let said = self.state.emit(words.as_str(), now);
        r.append(said.as_str());
        proof {
            lemma_written(&s, &self.state, s.drawn as nat, 0, seq![words@], now);
        }
        r
    }

    /// Stop drawing, so nothing draws over what is printed next. Doing it twice
    /// is harmless.
    pub fn stop(&mut self)
        ensures
            final(self).asked == old(self).asked,
            old(self).state.well_formed() ==> final(self).state.well_formed(),
            final(self).state == (State { over: true, ..old(self).state }),
    {
        self.state.over = true;
    }

    /// Another frame: the live block again with the spinner turned, or nothing
    /// once the run is over.
    pub fn tick(&mut self, now: u64) -> (r: Option<String>)
        requires
            old(self).state.frame < usize::MAX,
        ensures
            final(self).asked == old(self).asked,
            old(self).state.well_formed() ==> final(self).state.well_formed(),
            run_laws::moves(&old(self).state, &final(self).state, run_laws::Event::Tick),
            old(self).state.over ==> r is None && final(self).state == old(self).state,
            !old(self).state.over ==> {
                &&& final(self).state == (State {
                    frame: (old(self).state.frame + 1) as usize,
                    drawn: final(self).state.drawn,
                    ..old(self).state
                })
                &&& final(self).state.drawn == final(self).state.rows(now)
                &&& r is Some
                &&& r->0@ == final(self).state.redrawn(old(self).state.drawn as nat, now)
            },
    {
        if self.state.over {
            return None;
        }
        self.state.frame = self.state.frame + 1;
        Some(self.state.draw(now))
    }

    /// Write one more line above the live block, `lines` having been written
    /// since it was `before` rows high.
    fn say(
        &mut self,
        words: &str,
        Ghost(s): Ghost<State>,
        Ghost(before): Ghost<nat>,
        Ghost(lines): Ghost<Seq<Seq<char>>>,
        now: u64,
    ) -> (r: String)
        requires
            old(self).state.same_but_drawn(&s),
            !s.rewrite ==> old(self).state.drawn == s.drawn,
            lines.len() == 0 ==> old(self).state.drawn == before,
            lines.len() > 0 ==> old(self).state.drawn == s.rows(now),
        ensures
            final(self).asked == old(self).asked,
            final(self).state.same_but_drawn(&s),
            final(self).state.drawn == s.rows(now),
            s.written(before, lines + seq![words@], now) == s.written(before, lines, now) + r@,
    {
        let ghost was = self.state;
        let r = self.state.emit(words, now);
        proof {
            lemma_written(&was, &s, was.drawn as nat, was.drawn as nat, seq![words@], now);
            lemma_last_line(&s, before, lines, words@, now);
            assert(was.rows(now) == s.rows(now));
        }
        r
    }
}

proof fn lemma_last_line(s: &State, drawn: nat, lines: Seq<Seq<char>>, last: Seq<char>, now: u64)
    ensures
        s.written(drawn, lines + seq![last], now) == s.written(drawn, lines, now) + s.written(
            if lines.len() == 0 {
                drawn
            } else {
                s.rows(now)
            },
            seq![last],
            now,
        ),
    decreases lines.len(),
{
    if lines.len() == 0 {
        assert(lines + seq![last] == seq![last]);
        assert(s.written(drawn, lines, now) == Seq::<char>::empty());
    } else {
        let rest = lines.skip(1);
        lemma_last_line(s, s.rows(now), rest, last, now);
        assert(lines == seq![lines[0]] + rest);
        assert(lines + seq![last] == seq![lines[0]] + (rest + seq![last]));
        lemma_written_on(s, drawn, lines[0], rest, now);
        lemma_written_on(s, drawn, lines[0], rest + seq![last], now);
    }
}

proof fn lemma_all_items<F>(steps: Seq<Step<F>>, n: int)
    requires
        0 <= n <= steps.len(),
    ensures
        state::all_items(steps.take(n)) <= state::all_items(steps),
    decreases steps.len(),
{
    if n == steps.len() {
        assert(steps.take(n) == steps);
    } else {
        lemma_all_items(steps.drop_last(), n);
        assert(steps.drop_last().take(n) == steps.take(n));
    }
}

/// Where the first of `running` that is at `at` stands, or past the end.
fn position(running: &Vec<Running>, at: usize) -> (n: usize)
    ensures
        n == state::place_of(running@, at),
        n <= running@.len(),
{
    let mut i: usize = 0;
    assert(running@.skip(0) == running@);
    while i < running.len() && running[i].at != at
        invariant
            i <= running@.len(),
            state::place_of(running@, at) == i + state::place_of(running@.skip(i as int), at),
        decreases running@.len() - i,
    {
        assert(running@.skip(i as int).skip(1) == running@.skip(i + 1));
        i = i + 1;
    }
    i
}

} // verus!
