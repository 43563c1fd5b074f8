//! What holds of every table.

use vstd::prelude::*;

use crate::cmd::Cmd;
use crate::item::Item;
use crate::sorted;
use crate::status::Status;
use crate::step::Step;
use crate::table::columns;
use crate::table::columns::{Columns, PoolText, LAST};
use crate::table::cost;
use crate::table::layout;
use crate::table::{Headers, Mode, Table};

verus! {

/// Every row has a cell for each column, whatever it is the row of.
pub proof fn law_every_row_is_full<F>(
    table: &Columns,
    step: &Step<F>,
    first: (Option<Seq<char>>, bool),
    item: Item<'_, F>,
    pool: PoolText,
)
    ensures
        table.step_cells(step).len() == table.width(),
        table.item_cells(first, item, pool).len() == table.width(),
{
}

/// A step of one thing has one row, and any other has one for itself and one
/// for each thing it holds. Either way its first row starts with its name.
pub proof fn law_a_step_of_one_collapses<F>(table: &Columns, step: &Step<F>)
    ensures
        table.block_cells(step).len() == if step.size() == 1 {
            1
        } else {
            step.size() + 1
        },
        table.block_cells(step)[0][0] == (Some(step.called()), false),
{
    if step.size() == 1 {
        assert(table.block_cells(step)[0] == table.item_cells(
            columns::first_cell(step),
            step.holds(0),
            columns::pool_of(step, step.holds(0)),
        ));
    } else {
        assert(table.block_cells(step)[0] == table.step_cells(step));
    }
}

/// The columns of the same steps are the same columns: whatever order the
/// fields and tags turn up in, every block has the same headings.
pub proof fn law_columns_are_settled<F>(a: &Columns, b: &Columns, steps: Seq<Step<F>>)
    requires
        a.cover(steps),
        b.cover(steps),
    ensures
        a.heads() == b.heads(),
{
    let n = steps.len() as int;
    assert forall|key: Seq<char>| #[trigger] a.keys@.contains(key) <==> b.keys@.contains(key) by {
        assert(b.keys@.contains(key) <==> exists|i: int, j: int| #[trigger]
            columns::carries(steps, i, j, key) && columns::earlier(i, j, n, 0));
    }
    sorted::law_names_in_order_are_settled(a.keys@, b.keys@);
    assert forall|tag: Seq<char>| #[trigger] a.tags@.contains(tag) <==> b.tags@.contains(tag) by {
        assert(b.tags@.contains(tag) <==> exists|i: int, j: int| #[trigger]
            columns::bears(steps, i, j, tag) && columns::earlier(i, j, n, 0));
    }
    sorted::law_names_in_order_are_settled(a.tags@, b.tags@);
    if a.cpus_width != 0 {
        let (i, j) = choose|i: int, j: int| #[trigger]
            columns::takes(steps, i, j, a.cpus_width as nat) && columns::earlier(i, j, n, 0);
        assert(a.cpus_width <= b.cpus_width);
    }
    if b.cpus_width != 0 {
        let (i, j) = choose|i: int, j: int| #[trigger]
            columns::takes(steps, i, j, b.cpus_width as nat) && columns::earlier(i, j, n, 0);
        assert(b.cpus_width <= a.cpus_width);
    }
}

/// A run with nothing pinned has no placement columns, and one on a machine
/// with one node has no node column.
pub proof fn law_no_placement_no_columns<F>(table: &Columns, steps: Seq<Step<F>>)
    requires
        table.cover(steps),
    ensures
        (forall|i: int, j: int| columns::on(steps, i, j) ==> !#[trigger] columns::pins(
            steps,
            i,
            j,
        )) ==> !table.cpus && !table.nodes,
        (forall|i: int, j: int|
            #![trigger columns::lands(steps, i, j)]
            columns::on(steps, i, j) ==> !steps[i].holds(j).on_numa()) ==> !table.nodes,
{
}

proof fn lemma_widest(
    rows: Seq<Seq<(Option<Seq<char>>, bool)>>,
    i: int,
    least: nat,
    k: int,
)
    requires
        0 <= k < rows.len(),
    ensures
        layout::widest(rows, i, least) >= least,
        layout::widest(rows, i, least) >= layout::cell_width(layout::cell_at(rows[k], i)),
    decreases rows.len(),
{
    let front = rows.drop_last();
    if front.len() == 0 {
        assert(layout::widest(front, i, least) == least);
    } else if k < front.len() {
        lemma_widest(front, i, least, k);
        assert(front[k] == rows[k]);
    } else {
        lemma_widest(front, i, least, 0);
    }
}

/// The widths measured before a run leave room for every heading, and for every
/// cell they were measured from.
pub proof fn law_a_floor_has_room(
    headings: Seq<(Seq<char>, nat)>,
    last: Seq<char>,
    rows: Seq<Seq<(Option<Seq<char>>, bool)>>,
    k: int,
    i: int,
)
    requires
        0 <= k < rows.len(),
        0 <= i <= headings.len(),
    ensures
        layout::fitted(headings, last, rows).len() == headings.len() + 1,
        layout::fitted(headings, last, rows)[i] >= layout::cell_width(layout::cell_at(rows[k], i)),
        layout::fitted(headings, last, rows)[i] >= headings.push((last, 0)).map_values(
            |h: (Seq<char>, nat)| h.0.len(),
        )[i],
{
    let all = headings.push((last, 0));
    lemma_widest(rows, i, layout::heading_width(all[i], i == 0), k);
}

/// Widths for another number of columns are ignored: a block settles at the
/// same widths whichever of those it is given, as it does given none.
pub proof fn law_other_widths_are_ignored(
    headings: Seq<(Seq<char>, nat)>,
    last: Seq<char>,
    rows: Seq<Seq<(Option<Seq<char>>, bool)>>,
    floor: Seq<nat>,
)
    requires
        floor.len() != headings.len() + 1,
    ensures
        layout::settled(headings, last, rows, floor) == layout::fitted(headings, last, rows),
        layout::settled(headings, last, rows, floor) == layout::settled(
            headings,
            last,
            rows,
            Seq::empty(),
        ),
{
}

proof fn lemma_fits(rows: Seq<Seq<(Option<Seq<char>>, bool)>>, i: int, least: nat)
    requires
        forall|k: int| 0 <= k < rows.len() ==> layout::cell_width(
            layout::cell_at(#[trigger] rows[k], i),
        ) <= least,
    ensures
        layout::widest(rows, i, least) == least,
    decreases rows.len(),
{
    if rows.len() > 0 {
        let front = rows.drop_last();
        assert forall|k: int| 0 <= k < front.len() implies layout::cell_width(
            layout::cell_at(#[trigger] front[k], i),
        ) <= least by {
            assert(front[k] == rows[k]);
        }
        lemma_fits(front, i, least);
        assert(layout::cell_width(layout::cell_at(rows[rows.len() - 1], i)) <= least);
    }
}

/// Blocks line up under one header until a value is wider than its column: as
/// long as every cell fits, each block settles at the widths it was given.
pub proof fn law_blocks_line_up(
    headings: Seq<(Seq<char>, nat)>,
    last: Seq<char>,
    rows: Seq<Seq<(Option<Seq<char>>, bool)>>,
    floor: Seq<nat>,
)
    requires
        floor.len() == headings.len() + 1,
        forall|k: int, i: int|
            0 <= k < rows.len() && 0 <= i < floor.len() ==> layout::cell_width(
                #[trigger] layout::cell_at(rows[k], i),
            ) <= floor[i],
    ensures
        layout::settled(headings, last, rows, floor) == floor,
{
    let out = layout::settled(headings, last, rows, floor);
    assert forall|i: int| 0 <= i < floor.len() implies out[i] == floor[i] by {
        lemma_fits(rows, i, floor[i]);
    }
    assert(out == floor);
}

/// A step with something in it whose user or system time is not known has no
/// total of it, rather than a partial one, and no share of the clock.
pub proof fn law_no_partial_totals<F>(step: &Step<F>, i: int)
    requires
        0 <= i < step.size(),
        step.holds(i).outcome().cost() is Some,
    ensures
        step.holds(i).outcome().cost()->0.user_ns is None ==> cost::step_figures(step).user is None
            && cost::share(cost::step_figures(step)) is None,
        step.holds(i).outcome().cost()->0.sys_ns is None ==> cost::step_figures(step).sys is None
            && cost::share(cost::step_figures(step)) is None,
{
    lemma_missing(step, step.size(), i);
}

proof fn lemma_missing<F>(step: &Step<F>, n: nat, i: int)
    requires
        0 <= i < n,
        step.holds(i).outcome().cost() is Some,
    ensures
        cost::timings(step, n).len() > 0,
        step.holds(i).outcome().cost()->0.user_ns is None ==> cost::user_total(
            cost::timings(step, n),
        ) is None,
        step.holds(i).outcome().cost()->0.sys_ns is None ==> cost::sys_total(
            cost::timings(step, n),
        ) is None,
    decreases n,
{
    let front = cost::timings(step, (n - 1) as nat);
    let all = cost::timings(step, n);
    if i == n - 1 {
        assert(all.drop_last() == front);
    } else {
        lemma_missing(step, (n - 1) as nat, i);
        if all != front {
            assert(all.drop_last() == front);
        }
    }
}

/// The status column says whether a command worked and the exit column what it
/// reported: one that could not start fails with no exit beside it, and one
/// that ran has an exit whichever way it went.
pub proof fn law_status_and_exit_answer_different_questions<F>(cmd: &Cmd)
    ensures
        ({
            let figures = cost::item_figures(Item::<'_, F>::Cmd(cmd));
            match cmd.status {
                Status::NotRun => figures.exit is None && figures.status == Some("-"@),
                Status::Skipped => figures.exit is None && figures.status == Some("skip"@),
                Status::Failed(_) => figures.exit is None && figures.status == Some("fail"@),
                Status::TimedOut(t) => figures.exit == Some(t.exit as int) && figures.status
                    == Some("time"@),
                Status::Finished(t) => figures.exit == Some(t.exit as int) && figures.status
                    == Some(
                    if t.exit == 0 {
                        "ok"@
                    } else {
                        "fail"@
                    },
                ),
            }
        }),
{
}

/// What the file holds after a call that left `table`, if it held `file` before
/// and the call says with `flush` whether the text belongs in it now.
pub open spec fn written(file: Seq<char>, table: Table, flush: bool) -> Seq<char> {
    if flush {
        table.text@
    } else {
        file
    }
}

/// Whether the step at `i` being done takes a table from one of `states` to the
/// next.
pub open spec fn follows<F>(done: Seq<Step<F>>, states: Seq<(Table, bool)>, i: int) -> bool {
    states[i + 1].0.stepped(states[i].0, &done[i], states[i + 1].1)
}

/// Whether `states` are what `table` goes through as it is started on `planned`
/// and each of `done` is then done in turn, each with what its call gave back.
pub open spec fn ran<F>(
    table: Table,
    planned: Seq<Step<F>>,
    done: Seq<Step<F>>,
    states: Seq<(Table, bool)>,
) -> bool {
    &&& states.len() == done.len() + 1
    &&& states[0].0.started(table, planned, states[0].1)
    &&& forall|i: int| 0 <= i < done.len() ==> #[trigger] follows(done, states, i)
}

/// What the file holds once a table has gone through the first `n + 1` of
/// `states`.
pub open spec fn file_after(file: Seq<char>, states: Seq<(Table, bool)>, n: nat) -> Seq<char>
    decreases n,
{
    let before = if n == 0 {
        file
    } else {
        file_after(file, states, (n - 1) as nat)
    };
    written(before, states[n as int].0, states[n as int].1)
}

/// A whole table is held back until the run is over: the file is empty until
/// then, and after that it is one header with the rows of every step under it,
/// in the order the steps were done, all padded to the same widths.
pub proof fn law_whole_is_written_once<F>(
    table: Table,
    planned: Seq<Step<F>>,
    done: Seq<Step<F>>,
    states: Seq<(Table, bool)>,
    end: Table,
    flush: bool,
    file: Seq<char>,
)
    requires
        table.mode is Whole,
        table.rows@.len() == 0,
        ran(table, planned, done, states),
        end.finished(states.last().0, flush),
    ensures
        forall|n: nat|
            n <= done.len() ==> #[trigger] file_after(file, states, n) == Seq::<char>::empty(),
        states[0].0.columns.cover(planned),
        ({
            let columns = states[0].0.columns;
            let rows = columns.all_cells(done);
            let text = written(file_after(file, states, done.len()), end, flush);
            &&& text == columns.laid(rows, true, Seq::empty())
            &&& text == columns.laid(rows, true, layout::fitted(columns.heads(), LAST@, rows))
        }),
{
    assert forall|n: nat| n <= done.len() implies #[trigger] file_after(file, states, n)
        == Seq::<char>::empty() by {
        lemma_held_back(table, planned, done, states, file, n);
    }
    lemma_held_back(table, planned, done, states, file, done.len());
    assert(done.take(done.len() as int) == done);
}

proof fn lemma_held_back<F>(
    table: Table,
    planned: Seq<Step<F>>,
    done: Seq<Step<F>>,
    states: Seq<(Table, bool)>,
    file: Seq<char>,
    n: nat,
)
    requires
        table.mode is Whole,
        table.rows@.len() == 0,
        ran(table, planned, done, states),
        n <= done.len(),
    ensures
        states[n as int].0.mode is Whole,
        states[n as int].0.columns == states[0].0.columns,
        states[n as int].0.text@ == Seq::<char>::empty(),
        layout::rows_text(states[n as int].0.rows@) == states[0].0.columns.all_cells(
            done.take(n as int),
        ),
        file_after(file, states, n) == Seq::<char>::empty(),
    decreases n,
{
    if n > 0 {
        let i = n - 1;
        lemma_held_back(table, planned, done, states, file, (n - 1) as nat);
        assert(follows(done, states, i));
        assert(done.take(n as int).drop_last() == done.take(i));
    }
}

/// In any mode but [`Mode::Whole`] the end of the run changes nothing.
pub proof fn law_only_whole_waits_for_the_end(
    table: Table,
    end: Table,
    flush: bool,
    file: Seq<char>,
)
    requires
        !(table.mode is Whole),
        end.finished(table, flush),
    ensures
        end == table,
        written(file, end, flush) == file,
{
}

/// The blocks of `done`, one after another.
pub open spec fn blocks<F>(
    columns: Columns,
    done: Seq<Step<F>>,
    headed: bool,
    floor: Seq<nat>,
) -> Seq<char>
    decreases done.len(),
{
    if done.len() == 0 {
        Seq::empty()
    } else {
        blocks(columns, done.drop_last(), headed, floor) + columns.laid(
            columns.block_cells(&done.last()),
            headed,
            floor,
        )
    }
}

/// In blocks, the file is up to date after every step: the header if there is
/// one header, and the block of each step done so far, all under the same columns
/// and padded to at least the same widths.
pub proof fn law_blocks_are_written_as_steps_finish<F>(
    table: Table,
    headers: Headers,
    planned: Seq<Step<F>>,
    done: Seq<Step<F>>,
    states: Seq<(Table, bool)>,
    file: Seq<char>,
    n: nat,
)
    requires
        table.mode == (Mode::Blocks { headers }),
        ran(table, planned, done, states),
        n <= done.len(),
    ensures
        states[0].0.columns.cover(planned),
        ({
            let columns = states[0].0.columns;
            let floor = layout::fitted(columns.heads(), LAST@, columns.all_cells(planned));
            let head = match headers {
                Headers::Once => columns.laid(Seq::empty(), true, floor),
                Headers::Each => Seq::empty(),
            };
            file_after(file, states, n) == head + blocks(
                columns,
                done.take(n as int),
                headers == Headers::Each,
                floor,
            )
        }),
{
    lemma_kept_up(table, headers, planned, done, states, file, n);
}

proof fn lemma_kept_up<F>(
    table: Table,
    headers: Headers,
    planned: Seq<Step<F>>,
    done: Seq<Step<F>>,
    states: Seq<(Table, bool)>,
    file: Seq<char>,
    n: nat,
)
    requires
        table.mode == (Mode::Blocks { headers }),
        ran(table, planned, done, states),
        n <= done.len(),
    ensures
        states[n as int].0.mode == table.mode,
        states[n as int].0.columns == states[0].0.columns,
        states[n as int].0.floor == states[0].0.floor,
        file_after(file, states, n) == states[n as int].0.text@,
        file_after(file, states, n) == states[0].0.text@ + blocks(
            states[0].0.columns,
            done.take(n as int),
            headers == Headers::Each,
            states[0].0.floor@,
        ),
    decreases n,
{
    let columns = states[0].0.columns;
    let floor = states[0].0.floor@;
    let headed = headers == Headers::Each;
    if n > 0 {
        let i = n - 1;
        lemma_kept_up(table, headers, planned, done, states, file, (n - 1) as nat);
        assert(follows(done, states, i));
        let now = done.take(n as int);
        assert(now.drop_last() == done.take(i));
        assert(states[0].0.text@ + blocks(columns, now, headed, floor) == states[0].0.text@
            + blocks(columns, done.take(i), headed, floor) + columns.laid(
            columns.block_cells(&done[i]),
            headed,
            floor,
        ));
    } else {
        assert(states[0].0.text@ + Seq::<char>::empty() == states[0].0.text@);
    }
}

/// Whether `text` is the blocks of `done`, one after another, each with a header
/// of its own and under just the columns that it needs itself.
pub open spec fn ragged<F>(text: Seq<char>, done: Seq<Step<F>>) -> bool
    decreases done.len(),
{
    if done.len() == 0 {
        text.len() == 0
    } else {
        exists|front: Seq<char>, own: Columns| #[trigger]
            adds_block(text, front, own, done.last()) && ragged(front, done.drop_last())
    }
}

/// Whether `text` is `front` with the block of `step` after it, headed and under
/// `own`, which are just the columns it needs.
pub open spec fn adds_block<F>(
    text: Seq<char>,
    front: Seq<char>,
    own: Columns,
    step: Step<F>,
) -> bool {
    &&& own.cover(seq![step])
    &&& text == front + own.laid(own.block_cells(&step), true, Seq::empty())
}

/// Where blocks are ragged, the file is up to date after every step: the block of
/// each step done so far, under the columns it needs and at its own widths.
pub proof fn law_ragged_blocks_are_each_their_own<F>(
    table: Table,
    planned: Seq<Step<F>>,
    done: Seq<Step<F>>,
    states: Seq<(Table, bool)>,
    file: Seq<char>,
    n: nat,
)
    requires
        table.mode is Ragged,
        ran(table, planned, done, states),
        n <= done.len(),
    ensures
        ragged(file_after(file, states, n), done.take(n as int)),
        states[n as int].0.text@ == file_after(file, states, n),
        states[n as int].0.mode is Ragged,
        states[n as int].0.floor@ == Seq::<nat>::empty(),
    decreases n,
{
    let now = done.take(n as int);
    if n > 0 {
        let i = n - 1;
        law_ragged_blocks_are_each_their_own(table, planned, done, states, file, (n - 1) as nat);
        assert(follows(done, states, i));
        assert(now.drop_last() == done.take(i));
        assert(now.last() == done[i]);
        let was = states[i].0;
        let front = was.text@;
        let own = choose|own: Columns| #[trigger]
            own.cover(seq![done[i]]) && states[n as int].0.text@ == was.text@ + own.laid(
                own.block_cells(&done[i]),
                true,
                was.floor@,
            ) && states[n as int].0.text@ == was.text@ + own.laid(
                own.block_cells(&done[i]),
                true,
                own.settled(own.block_cells(&done[i]), was.floor@),
            );
        let text = file_after(file, states, n);
        assert(was.floor@ == Seq::<nat>::empty());
        assert(text == states[n as int].0.text@);
        assert(text == front + own.laid(own.block_cells(&now.last()), true, Seq::empty()));
        assert(adds_block(text, front, own, now.last()));
    } else {
        assert(states[0].0.started(table, planned, states[0].1));
        assert(file_after(file, states, 0).len() == 0);
        assert(now.len() == 0);
    }
}

} // verus!
