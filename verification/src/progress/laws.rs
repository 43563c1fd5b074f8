//! What holds of everything progress writes.

use vstd::prelude::*;

use crate::progress::line;
use crate::progress::line::NAME;
use crate::progress::state;
use crate::progress::state::{Running, State, CLEAR, SHOWN, UP};
use crate::progress::Marks;
use crate::status::Status;
use crate::text;

verus! {

/// A name on a live line is never longer than the room for it, and one that
/// fits is left alone.
pub proof fn law_a_cut_name_fits(marks: Marks, name: Seq<char>)
    ensures
        marks.shortened(name).len() <= NAME,
        name.len() <= NAME ==> marks.shortened(name) == name,
        text::padded_right(marks.shortened(name), NAME as nat).len() == NAME,
{
}

/// Without color, what is painted is the words alone.
pub proof fn law_no_color_adds_nothing(code: Seq<char>, words: Seq<char>)
    ensures
        line::painted(false, code, words) == words,
{
}

/// Without rewriting, a line is written once and nothing else is: no live
/// block, and nothing that moves the cursor.
pub proof fn law_a_log_is_plain_lines(s: &State, drawn: nat, words: Seq<char>, now: u64)
    requires
        !s.rewrite,
    ensures
        s.written(drawn, seq![words], now) == text::trimmed_end(words) + seq!['\n'],
        s.redrawn(drawn, now) == Seq::<char>::empty(),
{
    assert(seq![words].skip(1).len() == 0);
    assert(s.written(s.rows(now), seq![words].skip(1), now) == Seq::<char>::empty());
}

/// The live block never takes up more than a step's line, a line for each item
/// that is named, and one for the rest.
pub proof fn law_the_live_block_is_short(s: &State, now: u64)
    ensures
        s.live_lines(now).len() <= SHOWN + 2,
        s.running@.len() <= SHOWN && s.at < s.steps@.len() && !s.over ==> s.live_lines(now).len()
            == s.running@.len() + 1,
{
}

/// Once the run is over there is no live block.
pub proof fn law_nothing_is_live_once_over(s: &State, now: u64)
    requires
        s.over,
    ensures
        s.live_lines(now).len() == 0,
        s.block(now) == Seq::<char>::empty(),
{
}

/// A place found is the first that is at `at`.
pub proof fn lemma_place(running: Seq<Running>, at: usize)
    ensures
        state::place_of(running, at) <= running.len(),
        state::place_of(running, at) < running.len() ==> running[state::place_of(
            running,
            at,
        ) as int].at == at,
        forall|i: int| 0 <= i < state::place_of(running, at) ==> running[i].at != at,
    decreases running.len(),
{
    if running.len() > 0 && running[0].at != at {
        let rest = running.skip(1);
        lemma_place(rest, at);
        assert forall|i: int| 0 <= i < state::place_of(running, at) implies running[i].at
            != at by {
            if i > 0 {
                assert(running[i] == rest[i - 1]);
            }
        }
    }
}

/// An item that is done stops being shown and no other does, however many of
/// them share its name: positions are told apart where names are not.
pub proof fn law_only_the_item_done_goes(running: Seq<Running>, at: usize, i: int)
    requires
        0 <= i < running.len(),
        forall|a: int, b: int|
            0 <= a < b < running.len() ==> (#[trigger] running[a]).at != (
            #[trigger] running[b]).at,
    ensures
        running[i].at != at ==> state::without(running, at).contains(running[i]),
        running[i].at == at ==> !state::without(running, at).contains(running[i]),
{
    lemma_place(running, at);
    let k = state::place_of(running, at) as int;
    let left = state::without(running, at);
    if k < running.len() {
        if running[i].at != at {
            if i < k {
                assert(left[i] == running[i]);
            } else {
                assert(left[i - 1] == running[i]);
            }
        } else if left.contains(running[i]) {
            let j = choose|j: int| 0 <= j < left.len() && left[j] == running[i];
            if j < k {
                assert(left[j] == running[j]);
            } else {
                assert(left[j] == running[j + 1]);
                assert(running[k].at == at);
            }
            assert(false);
        }
    } else if running[i].at != at {
        assert(left[i] == running[i]);
    }
}

/// How an item went is always on its line: as a mark, or in words where there
/// are no marks.
pub proof fn law_a_line_says_how_it_went(marks: Marks, status: Status)
    requires
        status is TimedOut || status is Finished,
    ensures
        marks.sign(status) is None <==> marks == Marks::Off,
        marks == Marks::Off ==> line::verdict_of(marks != Marks::Off, status).len() > 0,
        status.is_failure() ==> line::verdict_of(marks != Marks::Off, status).len() > 0,
{
    reveal_strlit("ok");
    reveal_strlit("timed out");
    reveal_strlit("exit ");
}

/// How many rows `s` moves the cursor down.
pub open spec fn falls(s: Seq<char>) -> nat
    decreases s.len(),
{
    if s.len() == 0 {
        0
    } else {
        falls(s.drop_last()) + if s.last() == '\n' {
            1nat
        } else {
            0
        }
    }
}

proof fn lemma_falls(a: Seq<char>, b: Seq<char>)
    ensures
        falls(a + b) == falls(a) + falls(b),
    decreases b.len(),
{
    if b.len() == 0 {
        assert(a + b == a);
    } else {
        lemma_falls(a, b.drop_last());
        assert((a + b).drop_last() == a + b.drop_last());
    }
}

proof fn lemma_falls_joined(lines: Seq<Seq<char>>)
    requires
        lines.len() > 0,
        forall|i: int| 0 <= i < lines.len() ==> falls(#[trigger] lines[i]) == 0,
    ensures
        falls(text::joined(lines, seq!['\n'])) == lines.len() - 1,
    decreases lines.len(),
{
    if lines.len() > 1 {
        let front = lines.drop_last();
        assert forall|i: int| 0 <= i < front.len() implies falls(#[trigger] front[i]) == 0 by {
            assert(front[i] == lines[i]);
        }
        lemma_falls_joined(front);
        let newline = seq!['\n'];
        assert(falls(newline) == 1) by {
            assert(newline.drop_last().len() == 0);
            assert(falls(newline.drop_last()) == 0);
        }
        lemma_falls(text::joined(front, newline), newline);
        lemma_falls(text::joined(front, newline) + newline, lines.last());
        assert(falls(lines[lines.len() - 1]) == 0);
    }
}

/// Erasing the live block goes back up over exactly the rows that drawing it
/// came down, as long as nothing on a line of it is a line break of its own.
pub proof fn law_an_erase_covers_what_was_drawn(s: &State, now: u64)
    requires
        s.rewrite,
        s.rows(now) > 0,
        forall|i: int| 0 <= i < s.live_lines(now).len() ==> falls(#[trigger] s.live_lines(now)[i])
            == 0,
    ensures
        falls(s.block(now)) == s.rows(now) - 1,
        state::erased(true, s.rows(now)) == CLEAR@ + state::repeated(UP@, falls(s.block(now))),
{
    lemma_falls_joined(s.live_lines(now));
    if s.rows(now) == 1 {
        assert(CLEAR@ + state::repeated(UP@, 0) == CLEAR@);
    }
}

} // verus!
