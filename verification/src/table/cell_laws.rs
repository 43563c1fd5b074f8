//! What stands in each cell of a table, and under which heading.

use vstd::prelude::*;

use crate::cpu::list;
use crate::cpu::list_laws;
use crate::double;
use crate::fmt;
use crate::item::Item;
use crate::sorted;
use crate::step::Step;
use crate::table::columns;
use crate::table::columns::{Columns, PoolText, LAST};
use crate::table::cost;
use crate::table::cost::Figures;
use crate::table::layout;
use crate::text;

verus! {

/// How many columns stand in front of the costs: the step, the command, and one
/// for each key and each tag.
pub open spec fn lead(table: &Columns) -> int {
    2int + table.keys@.len() + table.tags@.len()
}

/// Whether `cells` has the cost `figures` under the headings for it.
pub open spec fn costs(
    table: &Columns,
    cells: Seq<(Option<Seq<char>>, bool)>,
    figures: Figures,
) -> bool {
    let k = lead(table);
    &&& cells[k] == (match figures.wall {
        Some(ns) => Some(fmt::seconds_text(ns)),
        None => None,
    }, false)
    &&& cells[k + 1] == (match figures.user {
        Some((_, ticks)) => Some(double::text_of(ticks)),
        None => None,
    }, false)
    &&& cells[k + 2] == (match figures.sys {
        Some((_, ticks)) => Some(double::text_of(ticks)),
        None => None,
    }, false)
    &&& cells[k + 3] == (cost::share(figures), false)
    &&& cells[k + 4] == (match figures.rss {
        Some(kib) => Some(fmt::bytes_text(kib)),
        None => None,
    }, false)
    &&& cells[k + 5] == (match figures.exit {
        Some(code) => Some(text::signed(code)),
        None => None,
    }, false)
    &&& cells[k + 6] == (figures.status, false)
}

/// The headings stand in one order: the step, the command, the keys, the tags,
/// what it cost, where it ran as far as that is shown, and its line.
pub proof fn law_the_headings_in_order(table: &Columns)
    ensures
        ({
            let heads = table.heads();
            let k = lead(table);
            let on: int = if table.nodes {
                2
            } else {
                0
            };
            &&& heads[0] == ("step"@, 0nat)
            &&& heads[1] == ("cmd"@, 0nat)
            &&& forall|i: int|
                0 <= i < table.keys@.len() ==> #[trigger] heads[2 + i] == (table.keys@[i], 0nat)
            &&& forall|i: int|
                0 <= i < table.tags@.len() ==> #[trigger] heads[2 + table.keys@.len() + i] == (
                    table.tags@[i],
                    0nat,
                )
            &&& heads[k] == ("wall(s)"@, 0nat)
            &&& heads[k + 1] == ("user(s)"@, 0nat)
            &&& heads[k + 2] == ("sys(s)"@, 0nat)
            &&& heads[k + 3] == ("cpu(%)"@, 0nat)
            &&& heads[k + 4] == ("max_rss"@, 0nat)
            &&& heads[k + 5] == ("exit"@, 0nat)
            &&& heads[k + 6] == ("status"@, 0nat)
            &&& table.nodes ==> heads[k + 7] == ("node"@, 0nat) && heads[k + 8] == (
                "policy"@,
                8nat,
            )
            &&& table.cpus ==> heads[k + 7 + on] == ("cpus"@, table.cpus_width as nat)
            &&& heads.len() == k + 7 + on + if table.cpus {
                1int
            } else {
                0
            }
            &&& table.width() == heads.len() + 1
            &&& LAST@ == "argv"@
        }),
{
    let heads = table.heads();
    let n = table.keys@.len();
    assert forall|i: int| 0 <= i < table.keys@.len() implies #[trigger] heads[2 + i] == (
        table.keys@[i],
        0nat,
    ) by {
        assert(columns::bare(table.keys@)[i] == (table.keys@[i], 0nat));
    }
    assert forall|i: int| 0 <= i < table.tags@.len() implies #[trigger] heads[2 + n + i] == (
        table.tags@[i],
        0nat,
    ) by {
        assert(columns::bare(table.tags@)[i] == (table.tags@[i], 0nat));
    }
}

proof fn lemma_line(
    table: &Columns,
    first: (Option<Seq<char>>, bool),
    name: (Option<Seq<char>>, bool),
    keys: Seq<(Option<Seq<char>>, bool)>,
    figures: Figures,
    node: (Option<Seq<char>>, bool),
    policy: (Option<Seq<char>>, bool),
    cpus: (Option<Seq<char>>, bool),
    argv: (Option<Seq<char>>, bool),
)
    requires
        keys.len() == table.keys@.len() + table.tags@.len(),
    ensures
        ({
            let cells = table.line_cells(
                first,
                name,
                keys,
                figures,
                node,
                policy,
                cpus,
                argv,
            );
            let k = lead(table);
            let on: int = if table.nodes {
                2
            } else {
                0
            };
            &&& cells.len() == table.heads().len() + 1
            &&& cells[0] == first
            &&& cells[1] == name
            &&& forall|i: int| 0 <= i < keys.len() ==> #[trigger] cells[2 + i] == keys[i]
            &&& costs(table, cells, figures)
            &&& cells.last() == argv
            &&& table.nodes ==> cells[k + 7] == node && cells[k + 8] == policy
            &&& table.cpus ==> cells[k + 7 + on] == cpus
        }),
{
}

/// The value an item keeps under a key, as a cell.
pub open spec fn value_cell(fields: Seq<(Seq<char>, Seq<char>)>, key: Seq<char>) -> (
    Option<Seq<char>>,
    bool,
) {
    (sorted::kept(fields, key), false)
}

/// The row of an item has each thing about it under the heading for it: its
/// name, the value it keeps under each key, whether it bears each tag, what it
/// cost, where it ran if that is shown, and last its line.
pub proof fn law_a_row_sits_under_its_headings<F>(
    table: &Columns,
    first: (Option<Seq<char>>, bool),
    item: Item<'_, F>,
    pool: PoolText,
)
    ensures
        ({
            let cells = table.item_cells(first, item, pool);
            let k = lead(table);
            let n = table.keys@.len();
            let on: int = if table.nodes {
                2
            } else {
                0
            };
            &&& cells.len() == table.heads().len() + 1
            &&& cells[0] == first
            &&& cells[1] == (Some(item.called()), false)
            &&& forall|i: int|
                0 <= i < n ==> #[trigger] cells[2 + i] == value_cell(
                    item.carried(),
                    table.keys@[i],
                )
            &&& forall|i: int|
                0 <= i < table.tags@.len() ==> #[trigger] cells[2 + n + i] == (
                    if item.tagged().contains(table.tags@[i]) {
                        Some("x"@)
                    } else {
                        None
                    },
                    false,
                )
            &&& costs(table, cells, cost::item_figures(item))
            &&& cells.last() == (match item {
                Item::Cmd(cmd) => Some(cmd.shell_line()),
                Item::Closure(_) => None,
            }, false)
            &&& table.cpus && pool is Shared ==> cells[k + 7 + on] == (Some("pool"@), false)
            &&& table.cpus && pool is Own ==> lists(
                cells[k + 7 + on],
                match item {
                    Item::Cmd(cmd) => cmd.cpus@,
                    Item::Closure(_) => Seq::empty(),
                },
            )
            &&& table.cpus ==> (pool matches PoolText::Named(cpus, _) ==> lists(
                cells[k + 7 + on],
                cpus,
            ))
            &&& table.nodes ==> lists(
                cells[k + 7],
                match pool {
                    PoolText::Named(_, nodes) => nodes,
                    _ => match item {
                        Item::Cmd(cmd) => cmd.nodes@,
                        Item::Closure(_) => Seq::empty(),
                    },
                },
            )
            &&& table.nodes ==> cells[k + 8] == (columns::policy_words(item), false)
        }),
{
    let cells = table.item_cells(first, item, pool);
    let keys = table.field_cells(item.carried(), item.tagged());
    let n = table.keys@.len();
    assert(keys.len() == n + table.tags@.len());
    let own: Seq<usize> = match item {
        Item::Cmd(cmd) => cmd.cpus@,
        Item::Closure(_) => Seq::empty(),
    };
    let at: Seq<usize> = match item {
        Item::Cmd(cmd) => cmd.nodes@,
        Item::Closure(_) => Seq::empty(),
    };
    let nodes = match pool {
        PoolText::Named(_, nodes) => nodes,
        _ => at,
    };
    let cpus = match pool {
        PoolText::Named(cpus, _) => cost::listing(cpus),
        PoolText::Shared => Some("pool"@),
        PoolText::Own => cost::listing(own),
    };
    assert(columns::or_none(item.sits_on()) == at);
    assert(columns::or_none(item.pinned()) == own);
    lemma_line(
        table,
        first,
        cost::plain(Some(item.called())),
        keys,
        cost::item_figures(item),
        cost::plain(cost::listing(nodes)),
        cost::plain(columns::policy_words(item)),
        cost::plain(cpus),
        cost::plain(item.pasted()),
    );
    assert forall|i: int| 0 <= i < n implies #[trigger] cells[2 + i] == value_cell(
        item.carried(),
        table.keys@[i],
    ) by {
        assert(cells[2 + i] == keys[i]);
    }
    assert forall|i: int| 0 <= i < table.tags@.len() implies #[trigger] cells[2 + n + i] == (
        if item.tagged().contains(table.tags@[i]) {
            Some("x"@)
        } else {
            None
        },
        false,
    ) by {
        assert(cells[2 + (n + i)] == keys[n + i]);
        assert(keys[n + i] == columns::tag_cell(item.tagged(), table.tags@[i]));
    }
    lemma_listing(own);
    lemma_listing(nodes);
    if let PoolText::Named(cpus, _) = pool {
        lemma_listing(cpus);
    }
}

proof fn lemma_listing(numbers: Seq<usize>)
    ensures
        lists(cost::plain(cost::listing(numbers)), numbers),
{
    list_laws::law_taskset_reads_a_list_back(numbers);
}

/// Whether a cell is a list of just these, and no value for none of them.
pub open spec fn lists(cell: (Option<Seq<char>>, bool), numbers: Seq<usize>) -> bool {
    &&& !cell.1
    &&& cell.0 is None <==> numbers.len() == 0
    &&& cell.0 is Some ==> list_laws::names(cell.0->0, numbers)
}

/// A step's own line has its name, what the step cost, and the pool it ran in if
/// it had one, each under the heading for it. Everything that is a command's is
/// missing from it.
pub proof fn law_a_step_line_sits_under_its_headings<F>(table: &Columns, step: &Step<F>)
    ensures
        ({
            let cells = table.step_cells(step);
            let k = lead(table);
            let none = (None::<Seq<char>>, false);
            let on: int = if table.nodes {
                2
            } else {
                0
            };
            &&& cells.len() == table.heads().len() + 1
            &&& cells[0] == (Some(step.called()), false)
            &&& forall|i: int| 1 <= i < k ==> #[trigger] cells[i] == none
            &&& costs(table, cells, cost::step_figures(step))
            &&& cells.last() == none
            &&& table.nodes ==> cells[k + 8] == none && lists(
                cells[k + 7],
                if step.pooled {
                    step.pool_nodes@
                } else {
                    Seq::empty()
                },
            )
            &&& table.cpus ==> lists(
                cells[k + 7 + on],
                if step.pooled {
                    step.pool_cpus@
                } else {
                    Seq::empty()
                },
            )
        }),
{
    let blank = cost::plain(None);
    let keys = Seq::new(table.keys@.len() + table.tags@.len(), |i: int| blank);
    let cells = table.step_cells(step);
    let node = if step.pooled {
        cost::plain(cost::listing(step.pool_nodes@))
    } else {
        blank
    };
    let cpus = if step.pooled {
        cost::plain(cost::listing(step.pool_cpus@))
    } else {
        blank
    };
    lemma_line(
        table,
        cost::plain(Some(step.called())),
        blank,
        keys,
        cost::step_figures(step),
        node,
        blank,
        cpus,
        blank,
    );
    assert forall|i: int| 1 <= i < lead(table) implies #[trigger] cells[i] == blank by {
        if i > 1 {
            assert(cells[2 + (i - 2)] == keys[i - 2]);
        }
    }
    lemma_listing(step.pool_nodes@);
    lemma_listing(step.pool_cpus@);
    lemma_listing(Seq::empty());
}

/// The rows of a step are its own line, unless it holds one thing, and a row for
/// each thing it holds in the order it holds them. What they are marked with
/// says whether they ran together, and one alone is marked with the step's name.
pub proof fn law_rows_are_in_the_order_of_the_step<F>(table: &Columns, step: &Step<F>)
    ensures
        step.size() == 1 ==> table.block_cells(step) == seq![
            table.item_cells(
                (Some(step.called()), false),
                step.holds(0),
                if step.pooled && step.holds(0) is Closure {
                    PoolText::Named(step.pool_cpus@, step.pool_nodes@)
                } else {
                    PoolText::Own
                },
            ),
        ],
        step.size() != 1 ==> table.block_cells(step).len() == step.size() + 1
            && table.block_cells(step)[0] == table.step_cells(step),
        step.size() != 1 ==> forall|i: int|
            0 <= i < step.size() ==> #[trigger] table.block_cells(step)[i + 1] == table.item_cells(
                mark(step),
                step.holds(i),
                if step.holds(i).shares() {
                    PoolText::Shared
                } else {
                    PoolText::Own
                },
            ),
{
    if step.size() == 1 {
        assert(table.block_cells(step) == seq![
            table.item_cells(
                (Some(step.called()), false),
                step.holds(0),
                columns::pool_of(step, step.holds(0)),
            ),
        ]);
    }
}

/// What marks the rows of a step that holds more than one thing: whether they
/// ran together or one after another.
pub open spec fn mark<F>(step: &Step<F>) -> (Option<Seq<char>>, bool) {
    if step.planned() is Some && step.planned()->0 is Batched {
        (Some("||"@), true)
    } else {
        (Some("|"@), true)
    }
}

/// A memory policy is shown with why it is not the one asked for, if it is not.
pub proof fn law_a_policy_says_why_it_is_not_the_one_asked_for<F>(item: Item<'_, F>)
    ensures
        item.dropped() is None ==> columns::policy_words(item) == item.ran_under(),
        item.ran_under() is None ==> columns::policy_words(item) is None,
        item.ran_under() is Some && item.dropped() is Some ==> columns::policy_words(item) == Some(
            item.ran_under()->0 + " ("@ + item.dropped()->0 + ")"@,
        ),
{
}

proof fn lemma_widest_is_one(
    rows: Seq<Seq<(Option<Seq<char>>, bool)>>,
    i: int,
    least: nat,
)
    ensures
        layout::widest(rows, i, least) == least || exists|k: int|
            0 <= k < rows.len() && layout::widest(rows, i, least) == layout::cell_width(
                layout::cell_at(#[trigger] rows[k], i),
            ),
    decreases rows.len(),
{
    if rows.len() > 0 {
        let front = rows.drop_last();
        lemma_widest_is_one(front, i, least);
        let rest = layout::widest(front, i, least);
        if layout::widest(rows, i, least) == rest {
            if rest != least {
                let k = choose|k: int|
                    0 <= k < front.len() && rest == layout::cell_width(
                        layout::cell_at(#[trigger] front[k], i),
                    );
                assert(rows[k] == front[k]);
            }
        } else {
            assert(rows[rows.len() - 1] == rows.last());
        }
    }
}

/// A column measured before a run is no wider than it has to be: it is as wide as
/// its heading makes it, or as one of the cells in it.
pub proof fn law_a_floor_is_no_wider_than_it_must_be(
    headings: Seq<(Seq<char>, nat)>,
    last: Seq<char>,
    rows: Seq<Seq<(Option<Seq<char>>, bool)>>,
    i: int,
)
    requires
        0 <= i < headings.len(),
    ensures
        ({
            let width = layout::fitted(headings, last, rows)[i];
            ||| width == headings[i].1
            ||| width == headings[i].0.len() + if i == 0 {
                2nat
            } else {
                0
            }
            ||| exists|k: int|
                0 <= k < rows.len() && width == layout::cell_width(
                    layout::cell_at(#[trigger] rows[k], i),
                )
        }),
{
    let all = headings.push((last, 0));
    lemma_widest_is_one(rows, i, layout::heading_width(all[i], i == 0));
    assert(all[i] == headings[i]);
}

/// A cpus column is kept as wide as the widest list that something in the run
/// could need, going by how many cpus each thing asks for.
pub proof fn law_room_is_kept_for_the_cpus_asked_for(cores: nat)
    ensures
        cores == 0 ==> list::width_for(cores) == 0,
        cores == 1 ==> list::width_for(cores) == "0"@.len(),
        cores == 2 ==> list::width_for(cores) == "0,2"@.len(),
        cores >= 3 ==> list::width_for(cores) == "0-10:2"@.len(),
{
    reveal_strlit("0");
    reveal_strlit("0,2");
    reveal_strlit("0-10:2");
}

/// Whether the item at `i`, `j` is pinned: it asked for cores or its step runs in
/// a pool.
pub open spec fn held<F>(steps: Seq<Step<F>>, i: int, j: int) -> bool {
    &&& 0 <= i < steps.len()
    &&& 0 <= j < steps[i].size()
    &&& steps[i].holds(j).asked() > 0 || steps[i].pooled
}

/// Whether the item at `i`, `j` has a value under `key`.
pub open spec fn keeps<F>(steps: Seq<Step<F>>, i: int, j: int, key: Seq<char>) -> bool {
    &&& 0 <= i < steps.len()
    &&& 0 <= j < steps[i].size()
    &&& sorted::kept(steps[i].holds(j).carried(), key) is Some
}

/// Whether the item at `i`, `j` bears `tag`.
pub open spec fn wears<F>(steps: Seq<Step<F>>, i: int, j: int, tag: Seq<char>) -> bool {
    &&& 0 <= i < steps.len()
    &&& 0 <= j < steps[i].size()
    &&& steps[i].holds(j).tagged().contains(tag)
}

/// Whether the list of the cpus that the item at `i`, `j` asks for takes `width`.
pub open spec fn wants<F>(steps: Seq<Step<F>>, i: int, j: int, width: nat) -> bool {
    &&& 0 <= i < steps.len()
    &&& 0 <= j < steps[i].size()
    &&& width == list::width_for(steps[i].holds(j).asked() as nat)
}

/// A table has a column for every key and tag that anything in it has and for no
/// other, each once and in order. It shows cpus exactly where something in it is
/// pinned, nodes where something pinned is on a machine with more than one, and
/// keeps room for the widest list of cpus that anything asks for.
pub proof fn law_a_table_has_the_columns_it_needs<F>(table: &Columns, steps: Seq<Step<F>>)
    requires
        table.cover(steps),
    ensures
        sorted::in_order(table.keys@),
        sorted::in_order(table.tags@),
        forall|key: Seq<char>| #[trigger]
            table.keys@.contains(key) <==> exists|i: int, j: int| #[trigger]
                keeps(steps, i, j, key),
        forall|tag: Seq<char>| #[trigger]
            table.tags@.contains(tag) <==> exists|i: int, j: int| #[trigger]
                wears(steps, i, j, tag),
        table.cpus <==> exists|i: int, j: int| #[trigger] held(steps, i, j),
        table.nodes <==> exists|i: int, j: int| #[trigger]
            held(steps, i, j) && steps[i].holds(j).on_numa(),
        forall|i: int, j: int, width: nat| #[trigger]
            wants(steps, i, j, width) ==> width <= table.cpus_width,
        table.cpus_width > 0 ==> exists|i: int, j: int| #[trigger]
            wants(steps, i, j, table.cpus_width as nat),
{
    let n = steps.len() as int;
    assert forall|key: Seq<char>| #[trigger] table.keys@.contains(key) <==> exists|
        i: int,
        j: int,
    | #[trigger] keeps(steps, i, j, key) by {
        if table.keys@.contains(key) {
            let (i, j) = choose|i: int, j: int| #[trigger]
                columns::carries(steps, i, j, key) && columns::earlier(i, j, n, 0);
            sorted::law_what_is_kept_is_an_entry(steps[i].holds(j).carried(), key);
            assert(keeps(steps, i, j, key));
        }
        if exists|i: int, j: int| #[trigger] keeps(steps, i, j, key) {
            let (i, j) = choose|i: int, j: int| #[trigger] keeps(steps, i, j, key);
            sorted::law_what_is_kept_is_an_entry(steps[i].holds(j).carried(), key);
            assert(columns::carries(steps, i, j, key) && columns::earlier(i, j, n, 0));
        }
    }
    assert forall|tag: Seq<char>| #[trigger] table.tags@.contains(tag) <==> exists|
        i: int,
        j: int,
    | #[trigger] wears(steps, i, j, tag) by {
        if table.tags@.contains(tag) {
            let (i, j) = choose|i: int, j: int| #[trigger]
                columns::bears(steps, i, j, tag) && columns::earlier(i, j, n, 0);
            assert(wears(steps, i, j, tag));
        }
        if exists|i: int, j: int| #[trigger] wears(steps, i, j, tag) {
            let (i, j) = choose|i: int, j: int| #[trigger] wears(steps, i, j, tag);
            assert(columns::bears(steps, i, j, tag) && columns::earlier(i, j, n, 0));
        }
    }
    if table.cpus {
        let (i, j) = choose|i: int, j: int| #[trigger]
            columns::pins(steps, i, j) && columns::earlier(i, j, n, 0);
        assert(held(steps, i, j));
    }
    if exists|i: int, j: int| #[trigger] held(steps, i, j) {
        let (i, j) = choose|i: int, j: int| #[trigger] held(steps, i, j);
        assert(columns::pins(steps, i, j) && columns::earlier(i, j, n, 0));
    }
    if table.nodes {
        let (i, j) = choose|i: int, j: int| #[trigger]
            columns::lands(steps, i, j) && columns::earlier(i, j, n, 0);
        assert(held(steps, i, j) && steps[i].holds(j).on_numa());
    }
    if exists|i: int, j: int| #[trigger] held(steps, i, j) && steps[i].holds(j).on_numa() {
        let (i, j) = choose|i: int, j: int| #[trigger]
            held(steps, i, j) && steps[i].holds(j).on_numa();
        assert(columns::lands(steps, i, j) && columns::earlier(i, j, n, 0));
    }
    assert forall|i: int, j: int, width: nat| #[trigger] wants(steps, i, j, width) implies width
        <= table.cpus_width by {
        assert(columns::takes(steps, i, j, width) && columns::earlier(i, j, n, 0));
    }
    if table.cpus_width > 0 {
        let (i, j) = choose|i: int, j: int| #[trigger]
            columns::takes(steps, i, j, table.cpus_width as nat) && columns::earlier(i, j, n, 0);
        assert(wants(steps, i, j, table.cpus_width as nat));
    }
}

/// The rows of some steps are those of each, one step after another, and they
/// are laid out under the headings of the table and `argv`.
pub proof fn law_steps_are_laid_out_one_after_another<F>(
    table: &Columns,
    steps: Seq<Step<F>>,
    step: Step<F>,
    rows: Seq<Seq<(Option<Seq<char>>, bool)>>,
    headed: bool,
    floor: Seq<nat>,
)
    ensures
        table.all_cells(Seq::<Step<F>>::empty()).len() == 0,
        table.all_cells(steps.push(step)) == table.all_cells(steps) + table.block_cells(&step),
        table.laid(rows, headed, floor) == layout::rendered(
            table.heads(),
            "argv"@,
            rows,
            headed,
            floor,
        ),
        table.settled(rows, floor) == layout::settled(table.heads(), "argv"@, rows, floor),
{
    assert(steps.push(step).drop_last() == steps);
}

} // verus!
