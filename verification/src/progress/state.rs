//! Where a run has got to, and what to write as it gets further.

use vstd::prelude::*;

use crate::cmd::Output;
use crate::fmt;
use crate::item::Item;
use crate::progress::line;
use crate::progress::line::{BOLD, CYAN, DIM, NAME};
use crate::progress::{Marks, Stream};
use crate::status::Status;
use crate::step::Step;
use crate::text;

verus! {

/// How many running items to name before summing up the rest.
//
// a batch fifty wide would otherwise push everything else
// off the screen
pub const SHOWN: usize = 8;

/// Erase the whole line and put the cursor back at the start of it.
pub const CLEAR: &'static str = "\r\u{1b}[2K";

/// Up one line, then erase that one too.
pub const UP: &'static str = "\u{1b}[1A\u{1b}[2K";

pub const HIDE_CURSOR: &'static str = "\u{1b}[?25l";

pub const SHOW_CURSOR: &'static str = "\u{1b}[?25h";

/// A step as known before it runs: enough to draw its live line before its
/// first result.
pub struct Planned {
    pub label: String,
    pub items: usize,
}

/// Something that has begun and not yet reported.
pub struct Running {
    /// Its position in the step, unique where its name may not be.
    pub at: usize,
    pub name: String,
    pub since: u64,
}

pub struct State {
    pub steps: Vec<Planned>,
    /// The step being shown.
    //
    // set by `step_start` rather than advanced by `step_done`, so
    // the label and the count below it belong to the same step:
    // advancing on the way out would show the next step's name
    // above the last one's tally until it started
    pub at: usize,
    /// How many steps have started, which is where the next one goes.
    pub started: usize,
    pub done_here: usize,
    pub done_total: usize,
    pub total: usize,
    pub ok: usize,
    pub failed: usize,
    pub skipped: usize,
    /// Whether this step has had its name printed above its results yet.
    pub titled: bool,
    pub running: Vec<Running>,
    pub began: u64,
    pub step_began: u64,
    pub frame: usize,
    pub over: bool,
    /// Why the run was given up on, if it was.
    pub why: Option<String>,
    /// How many rows the live block last took up, so it can be erased.
    pub drawn: usize,
    pub marks: Marks,
    pub color: bool,
    pub rewrite: bool,
    pub stream: Stream,
}

/// How long it has been since `then_ns` on a clock that reads `now`.
pub open spec fn since(then_ns: u64, now: u64) -> nat {
    if then_ns <= now {
        (now - then_ns) as nat
    } else {
        0
    }
}

/// How long it has been since `then_ns` on a clock that reads `now`, for display.
pub fn elapsed(then_ns: u64, now: u64) -> (s: String)
    ensures
        s@ == fmt::span_text(since(then_ns, now)),
{
    let ns: u64 = if then_ns <= now {
        now - then_ns
    } else {
        0
    };
    fmt::span(ns)
}

/// `words` over and over, `n` times.
pub open spec fn repeated(words: Seq<char>, n: nat) -> Seq<char>
    decreases n,
{
    if n == 0 {
        Seq::empty()
    } else {
        repeated(words, (n - 1) as nat) + words
    }
}

/// What moves up over `drawn` rows, clearing each.
pub open spec fn erased(rewrite: bool, drawn: nat) -> Seq<char> {
    if !rewrite {
        Seq::empty()
    } else if drawn > 1 {
        CLEAR@ + repeated(UP@, (drawn - 1) as nat)
    } else {
        CLEAR@
    }
}

/// The live line of one running item.
pub open spec fn running_line(
    marks: Marks,
    color: bool,
    frame: nat,
    item: Running,
    now: u64,
) -> Seq<char> {
    "   "@ + line::painted(color, CYAN@, marks.turn(frame)) + " "@ + text::padded_right(
        marks.shortened(item.name@),
        NAME as nat,
    ) + "  "@ + line::painted(color, DIM@, fmt::span_text(since(item.since, now)))
}

/// The live lines of the running items: one each, and one for those past
/// [`SHOWN`].
pub open spec fn running_lines(
    marks: Marks,
    color: bool,
    frame: nat,
    running: Seq<Running>,
    now: u64,
) -> Seq<Seq<char>> {
    if running.len() > SHOWN {
        Seq::new(
            SHOWN as nat,
            |i: int| running_line(marks, color, frame, running[i], now),
        ).push(
            line::painted(
                color,
                DIM@,
                "   ... and "@ + text::decimal((running.len() - SHOWN) as nat) + " more"@,
            ),
        )
    } else {
        Seq::new(
            running.len(),
            |i: int| running_line(marks, color, frame, running[i], now),
        )
    }
}

/// `a` of `b`.
pub open spec fn out_of(a: nat, b: nat) -> Seq<char> {
    text::decimal(a) + "/"@ + text::decimal(b)
}

/// Write `a` of `b` at the end of `out`.
fn push_out_of(out: &mut String, a: usize, b: usize)
    ensures
        final(out)@ == old(out)@ + out_of(a as nat, b as nat),
{
    text::push_decimal(out, a as u128);
    out.append("/");
    text::push_decimal(out, b as u128);
}

/// Where the first of `running` that is at `at` stands, or past the end.
pub open spec fn place_of(running: Seq<Running>, at: usize) -> nat
    decreases running.len(),
{
    if running.len() == 0 || running[0].at == at {
        0
    } else {
        1 + place_of(running.skip(1), at)
    }
}

/// `running` without the first of it that is at `at`.
pub open spec fn without(running: Seq<Running>, at: usize) -> Seq<Running> {
    let i = place_of(running, at);
    if i < running.len() {
        running.remove(i as int)
    } else {
        running
    }
}

/// The items of all of `steps` together.
pub open spec fn all_items<F>(steps: Seq<Step<F>>) -> nat
    decreases steps.len(),
{
    if steps.len() == 0 {
        0
    } else {
        all_items(steps.drop_last()) + steps.last().size()
    }
}

/// Whether `plan` is `steps` before they run.
pub open spec fn plans<F>(plan: Seq<Planned>, steps: Seq<Step<F>>) -> bool {
    &&& plan.len() == steps.len()
    &&& forall|i: int|
        0 <= i < plan.len() ==> (#[trigger] plan[i]).label@ == steps[i].called() && plan[i].items
            == steps[i].size()
}

/// Whether an item counts as skipped.
pub open spec fn passed_over(status: Status) -> bool {
    status is NotRun || status is Skipped
}

/// The line under a failed item that says where its stderr is.
pub open spec fn stderr_line<F>(color: bool, item: Item<'_, F>) -> Option<Seq<char>> {
    match item {
        Item::Cmd(cmd) => match cmd.stderr {
            Output::Null | Output::Inherit => None,
            Output::File(p) | Output::Append(p) | Output::OnFailure(p) => Some(
                line::painted(color, DIM@, "      "@ + p@),
            ),
        },
        Item::Closure(_) => None,
    }
}

/// The lines that say an item is done: its step's name if nothing has said it
/// yet, its result, and where its stderr is if it failed and left one.
pub open spec fn done_lines<F>(
    marks: Marks,
    color: bool,
    titled: bool,
    step: &Step<F>,
    item: Item<'_, F>,
    left: bool,
) -> Seq<Seq<char>> {
    let title = if titled {
        Seq::empty()
    } else {
        seq![line::painted(color, BOLD@, step.called())]
    };
    let nodes = match item.sits_on() {
        Some(nodes) => nodes,
        None => Seq::empty(),
    };
    let result = line::finished_line(
        marks,
        color,
        item.called(),
        item.outcome(),
        nodes,
        item.dropped(),
    );
    let stderr = if item.outcome().is_failure() && left && stderr_line(color, item) is Some {
        seq![stderr_line(color, item)->0]
    } else {
        Seq::empty()
    };
    title + seq![result] + stderr
}

impl State {
    /// Whether nothing has happened yet.
    pub open spec fn is_new(&self) -> bool {
        &&& self.steps@.len() == 0
        &&& self.at == 0
        &&& self.started == 0
        &&& self.done_here == 0
        &&& self.done_total == 0
        &&& self.total == 0
        &&& self.ok == 0
        &&& self.failed == 0
        &&& self.skipped == 0
        &&& !self.titled
        &&& self.running@.len() == 0
        &&& self.began == 0
        &&& self.step_began == 0
        &&& self.frame == 0
        &&& !self.over
        &&& self.why is None
        &&& self.drawn == 0
        &&& self.marks == Marks::Unicode
        &&& !self.color
        &&& !self.rewrite
        &&& self.stream == Stream::Stdout
    }

    /// Whether the counts add up.
    pub open spec fn well_formed(&self) -> bool {
        &&& self.ok + self.failed + self.skipped == self.done_total
        &&& self.done_here <= self.done_total
        &&& self.started >= self.at
    }

    /// The live line of the current step.
    pub open spec fn step_line(&self, now: u64) -> Seq<char> {
        let step = self.steps@[self.at as int];
        line::painted(self.color, CYAN@, self.marks.turn(self.frame as nat)) + " "@
            + line::painted(self.color, BOLD@, step.label@) + "  "@ + out_of(
            self.done_here as nat,
            step.items as nat,
        ) + "  "@ + fmt::span_text(since(self.step_began, now)) + "  "@ + line::painted(
            self.color,
            DIM@,
            "· "@ + out_of(self.done_total as nat, self.total as nat) + " total  "@
                + fmt::span_text(since(self.began, now)),
        )
    }

    /// The live block: the current step, then the items running in it.
    pub open spec fn live_lines(&self, now: u64) -> Seq<Seq<char>> {
        if self.at >= self.steps@.len() || self.over {
            Seq::empty()
        } else {
            seq![self.step_line(now)] + running_lines(
                self.marks,
                self.color,
                self.frame as nat,
                self.running@,
                now,
            )
        }
    }

    /// The live block as it is written.
    pub open spec fn block(&self, now: u64) -> Seq<char> {
        if self.rewrite {
            text::joined(self.live_lines(now), seq!['\n'])
        } else {
            Seq::empty()
        }
    }

    /// How many rows the live block takes up once it is written.
    pub open spec fn rows(&self, now: u64) -> nat {
        if self.rewrite {
            self.live_lines(now).len()
        } else {
            self.drawn as nat
        }
    }

    /// What redraws the live block in place of one that took up `drawn` rows.
    pub open spec fn redrawn(&self, drawn: nat, now: u64) -> Seq<char> {
        if self.rewrite {
            erased(true, drawn) + self.block(now)
        } else {
            Seq::empty()
        }
    }

    /// What writes `lines` for good above the live block, one after another,
    /// over a block that took up `drawn` rows.
    pub open spec fn written(&self, drawn: nat, lines: Seq<Seq<char>>, now: u64) -> Seq<char>
        decreases lines.len(),
    {
        if lines.len() == 0 {
            Seq::empty()
        } else {
            erased(self.rewrite, drawn) + text::trimmed_end(lines[0]) + seq!['\n'] + self.block(now)
                + self.written(self.rows(now), lines.skip(1), now)
        }
    }

    /// Whether this differs from `other` in nothing but what is drawn.
    pub open spec fn same_but_drawn(&self, other: &State) -> bool {
        *self == (State { drawn: self.drawn, ..*other })
    }

    pub fn new() -> (r: State)
        ensures
            r.is_new(),
            r.well_formed(),
    {
        State {
            steps: Vec::new(),
            at: 0,
            started: 0,
            done_here: 0,
            done_total: 0,
            total: 0,
            ok: 0,
            failed: 0,
            skipped: 0,
            titled: false,
            running: Vec::new(),
            began: 0,
            step_began: 0,
            frame: 0,
            over: false,
            why: None,
            drawn: 0,
            marks: Marks::Unicode,
            color: false,
            rewrite: false,
            stream: Stream::Stdout,
        }
    }

    /// Color `words`, when there is color.
    pub fn paint(&self, code: &str, words: &str) -> (s: String)
        ensures
            s@ == line::painted(self.color, code@, words@),
    {
        line::paint(self.color, code, words)
    }

    /// Move up over the rows the block last took, clearing each.
    fn erase_into(&mut self, out: &mut String)
        ensures
            final(out)@ == old(out)@ + erased(old(self).rewrite, old(self).drawn as nat),
            final(self).same_but_drawn(old(self)),
            final(self).drawn == if old(self).rewrite {
                0
            } else {
                old(self).drawn
            },
    {
        if !self.rewrite {
            return ;
        }
        out.append(CLEAR);
        let ghost front = out@;
        let mut i: usize = 1;
        while i < self.drawn
            invariant
                1 <= i,
                i <= self.drawn || i == 1,
                out@ == front + repeated(UP@, (i - 1) as nat),
            decreases self.drawn - i,
        {
            let ghost was = out@;
            out.append(UP);
            proof {
                assert(was + UP@ == front + (repeated(UP@, (i - 1) as nat) + UP@));
            }
            i = i + 1;
        }
        self.drawn = 0;
    }

    /// Write the live block at the end of `out`.
    fn live_into(&mut self, out: &mut String, now: u64)
        ensures
            final(out)@ == old(out)@ + old(self).block(now),
            final(self).same_but_drawn(old(self)),
            final(self).drawn == old(self).rows(now),
    {
        if !self.rewrite {
            return ;
        }
        let lines = self.live(now);
        proof {
            reveal_strlit("\n");
            assert("\n"@ == seq!['\n']);
        }
        let words = text::join(&lines, "\n");
        out.append(words.as_str());
        self.drawn = lines.len();
    }

    /// A permanent line, printed above the live block.
    pub fn emit(&mut self, words: &str, now: u64) -> (r: String)
        ensures
            r@ == old(self).written(old(self).drawn as nat, seq![words@], now),
            final(self).same_but_drawn(old(self)),
            final(self).drawn == old(self).rows(now),
    {
        let mut out = String::new();
        self.erase_into(&mut out);
        let v = text::chars(words);
        let end: usize = text::end_of(v.as_slice());
        let part = text::slice(v.as_slice(), 0, end);
        assert(part@ == text::trimmed_end(words@));
        let kept = text::string(part.as_slice());
        out.append(kept.as_str());
        out.push('\n');
        let ghost front = out@;
        self.live_into(&mut out, now);
        proof {
            let lines = seq![words@];
            assert(lines.skip(1).len() == 0);
            assert(old(self).written(old(self).rows(now), lines.skip(1), now)
                == Seq::<char>::empty());
            assert(self.block(now) == old(self).block(now));
        }
        out
    }

    /// Redraw the live block in place.
    pub fn draw(&mut self, now: u64) -> (r: String)
        ensures
            r@ == old(self).redrawn(old(self).drawn as nat, now),
            final(self).same_but_drawn(old(self)),
            final(self).drawn == old(self).rows(now),
    {
        let mut out = String::new();
        if !self.rewrite {
            return out;
        }
        self.erase_into(&mut out);
        self.live_into(&mut out, now);
        out
    }

    /// Take the live block away and put the cursor back.
    pub fn wipe(&mut self) -> (r: String)
        ensures
            r@ == if old(self).rewrite {
                erased(true, old(self).drawn as nat) + SHOW_CURSOR@
            } else {
                Seq::empty()
            },
            final(self).same_but_drawn(old(self)),
            final(self).drawn == if old(self).rewrite {
                0
            } else {
                old(self).drawn
            },
    {
        let mut out = String::new();
        if !self.rewrite {
            return out;
        }
        self.erase_into(&mut out);
        out.append(SHOW_CURSOR);
        out
    }

    /// The live block: the current step, then a line for each item running in
    /// it.
    pub fn live(&self, now: u64) -> (v: Vec<String>)
        ensures
            text::texts(v@) == self.live_lines(now),
    {
        let mut v: Vec<String> = Vec::new();
        if self.at >= self.steps.len() || self.over {
            assert(text::texts(v@) == Seq::<Seq<char>>::empty());
            return v;
        }
        let step = &self.steps[self.at];
        let spinner = self.marks.spinner(self.frame);
        let spun = self.paint(CYAN, spinner);

        let mut overall = "· ".to_owned();
        push_out_of(&mut overall, self.done_total, self.total);
        overall.append(" total  ");
        let running_for = elapsed(self.began, now);
        overall.append(running_for.as_str());
        let overall = self.paint(DIM, overall.as_str());

        let mut first = spun.clone();
        first.append(" ");
        let label = self.paint(BOLD, step.label.as_str());
        first.append(label.as_str());
        first.append("  ");
        push_out_of(&mut first, self.done_here, step.items);
        first.append("  ");
        let here_for = elapsed(self.step_began, now);
        first.append(here_for.as_str());
        first.append("  ");
        first.append(overall.as_str());
        assert(first@ == self.step_line(now));
        v.push(first);

        let ghost head = seq![self.step_line(now)];
        assert(text::texts(v@) == head);
        let shown: usize = if self.running.len() > SHOWN {
            SHOWN
        } else {
            self.running.len()
        };
        let ghost each = |i: int|
            running_line(self.marks, self.color, self.frame as nat, self.running@[i], now);
        let mut i: usize = 0;
        assert(head + Seq::new(0, each) == head);
        while i < shown
            invariant
                i <= shown <= self.running@.len(),
                spun@ == line::painted(self.color, CYAN@, self.marks.turn(self.frame as nat)),
                each == |i: int|
                    running_line(self.marks, self.color, self.frame as nat, self.running@[i], now),
                text::texts(v@) == head + Seq::new(i as nat, each),
            decreases shown - i,
        {
            let mut one = "   ".to_owned();
            one.append(spun.as_str());
            one.append(" ");
            let name = self.marks.cut(self.running[i].name.as_str());
            let name = text::pad_right(name.as_str(), NAME);
            one.append(name.as_str());
            one.append("  ");
            let so_far = elapsed(self.running[i].since, now);
            let so_far = self.paint(DIM, so_far.as_str());
            one.append(so_far.as_str());
            proof {
                assert(one@ == each(i as int));
                text::lemma_texts_push(v@, one);
                assert((head + Seq::new(i as nat, each)).push(one@) == head + Seq::new(
                    (i + 1) as nat,
                    each,
                ));
            }
            v.push(one);
            i = i + 1;
        }
        if self.running.len() > SHOWN {
            let mut rest = "   ... and ".to_owned();
            text::push_decimal(&mut rest, (self.running.len() - SHOWN) as u128);
            rest.append(" more");
            let last = self.paint(DIM, rest.as_str());
            proof {
                text::lemma_texts_push(v@, last);
                assert((head + Seq::new(SHOWN as nat, each)).push(last@) == head + Seq::new(
                    SHOWN as nat,
                    each,
                ).push(last@));
            }
            v.push(last);
        }
        assert(text::texts(v@) == self.live_lines(now));
        v
    }

    /// The line for one finished item: its result and the nodes it ran on.
    pub fn line(&self, name: &str, status: &Status, nodes: &[usize], note: Option<&str>) -> (s:
        String)
        ensures
            s@ == line::finished_line(
                self.marks,
                self.color,
                name@,
                *status,
                nodes@,
                match note {
                    Some(note) => Some(note@),
                    None => None,
                },
            ),
    {
        line::line(self.marks, self.color, name, status, nodes, note)
    }
}

} // verus!
