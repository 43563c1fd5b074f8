//! The columns of a table and the rows under them.

use vstd::prelude::*;

use crate::cpu::list;
use crate::item::Item;
use crate::sorted;
use crate::sorted::{Fields, Names};
use crate::step::{Step, Strategy};
use crate::table::cost;
use crate::table::cost::Cost;
use crate::table::layout;
use crate::table::layout::{Cell, Floor, Header, Heading, Side};

verus! {

/// Marks a command that ran after the one above it.
pub const SERIAL: &'static str = "|";

/// Marks a command that ran alongside the others in its step.
pub const BATCH: &'static str = "||";

/// The heading of the last column, whose cells are never padded.
pub const LAST: &'static str = "argv";

/// The field keys and tags a block carries, and which placement columns it
/// needs.
pub struct Columns {
    pub keys: Names,
    pub tags: Names,
    /// Whether anything in the run asks to be pinned.
    //
    // what was requested, not where anything landed: the
    // columns are settled before the run. a run with nothing
    // pinned gets no cpus column rather than one of dashes
    pub cpus: bool,
    /// Whether to show which memory node each command landed on.
    //
    // a machine with one node gets no column rather than
    // one reading `0` all the way down
    pub nodes: bool,
    /// How wide the cpus column is reserved before anything has cpus to show.
    //
    // every cpus cell still says `-` before the run, but how
    // many each command gets is settled, so the column can be
    // sized for the widest of those rather than for a dash
    pub cpus_width: usize,
}

/// Every cell of one line, before the placement columns that its table does not
/// have are left out.
pub struct Line {
    pub first: Cell,
    pub name: Cell,
    pub keys: Vec<Cell>,
    pub cost: Cost,
    pub node: Cell,
    pub policy: Cell,
    pub cpus: Cell,
    pub argv: Cell,
}

/// What a row says about a pool its item ran in.
#[derive(Clone, Copy)]
pub enum Pool<'a> {
    /// Nothing: its own cpus, or none.
    Own,
    /// It shares the pool its step line names.
    Shared,
    /// It ran pinned to these cpus and nodes, with no step line to name them.
    Named(&'a [usize], &'a [usize]),
}

/// What a row says about a pool, by the cpus and nodes it names.
pub enum PoolText {
    Own,
    Shared,
    Named(Seq<usize>, Seq<usize>),
}

impl<'a> View for Pool<'a> {
    type V = PoolText;

    open spec fn view(&self) -> PoolText {
        match *self {
            Pool::Own => PoolText::Own,
            Pool::Shared => PoolText::Shared,
            Pool::Named(cpus, nodes) => PoolText::Named(cpus@, nodes@),
        }
    }
}

/// Whether the step at `i` holds something at `j`.
pub open spec fn on<F>(steps: Seq<Step<F>>, i: int, j: int) -> bool {
    0 <= i < steps.len() && 0 <= j < steps[i].size()
}

/// Whether the item at `i`, `j` carries a value under `key`.
pub open spec fn carries<F>(steps: Seq<Step<F>>, i: int, j: int, key: Seq<char>) -> bool {
    on(steps, i, j) && sorted::keys(steps[i].holds(j).carried()).contains(key)
}

/// Whether the item at `i`, `j` carries `tag`.
pub open spec fn bears<F>(steps: Seq<Step<F>>, i: int, j: int, tag: Seq<char>) -> bool {
    on(steps, i, j) && steps[i].holds(j).tagged().contains(tag)
}

/// Whether the item at `i`, `j` is pinned: it asked for cores of its own, or
/// its step runs in a pool.
pub open spec fn pins<F>(steps: Seq<Step<F>>, i: int, j: int) -> bool {
    on(steps, i, j) && (steps[i].holds(j).asked() > 0 || steps[i].pooled)
}

/// Whether the item at `i`, `j` is pinned on a machine with more than one node.
pub open spec fn lands<F>(steps: Seq<Step<F>>, i: int, j: int) -> bool {
    pins(steps, i, j) && steps[i].holds(j).on_numa()
}

/// Whether the list of as many cpus as the item at `i`, `j` asks for takes up
/// `width`.
pub open spec fn takes<F>(steps: Seq<Step<F>>, i: int, j: int, width: nat) -> bool {
    on(steps, i, j) && list::width_for(steps[i].holds(j).asked() as nat) == width
}

/// Whether the item at `i`, `j` comes before the one at `last`, `m`.
pub open spec fn earlier(i: int, j: int, last: int, m: int) -> bool {
    i < last || (i == last && j < m)
}

impl Columns {
    /// Whether these are the columns that the items of `steps` before the one
    /// at `last`, `m` need.
    pub open spec fn cover_to<F>(&self, steps: Seq<Step<F>>, last: int, m: int) -> bool {
        &&& self.keys.well_formed()
        &&& self.tags.well_formed()
        &&& forall|key: Seq<char>| #[trigger]
            self.keys@.contains(key) <==> exists|i: int, j: int| #[trigger]
                carries(steps, i, j, key) && earlier(i, j, last, m)
        &&& forall|tag: Seq<char>| #[trigger]
            self.tags@.contains(tag) <==> exists|i: int, j: int| #[trigger]
                bears(steps, i, j, tag) && earlier(i, j, last, m)
        &&& self.cpus <==> exists|i: int, j: int| #[trigger]
            pins(steps, i, j) && earlier(i, j, last, m)
        &&& self.nodes <==> exists|i: int, j: int| #[trigger]
            lands(steps, i, j) && earlier(i, j, last, m)
        &&& forall|i: int, j: int, width: nat| #[trigger]
            takes(steps, i, j, width) && earlier(i, j, last, m) ==> width <= self.cpus_width
        &&& self.cpus_width == 0 || exists|i: int, j: int| #[trigger]
            takes(steps, i, j, self.cpus_width as nat) && earlier(i, j, last, m)
    }

    /// Whether these are the columns that `steps` need: each key and tag that
    /// anything carries once, in order, and the placement columns that something
    /// has a use for.
    pub open spec fn cover<F>(&self, steps: Seq<Step<F>>) -> bool {
        self.cover_to(steps, steps.len() as int, 0)
    }

    /// Whether the keys and tags are in order and the cpus column is one that can
    /// be written.
    pub open spec fn well_formed(&self) -> bool {
        &&& self.keys.well_formed()
        &&& self.tags.well_formed()
        &&& self.cpus_width <= 6
    }

    /// The headings, but for the last.
    pub open spec fn heads(&self) -> Seq<(Seq<char>, nat)> {
        seq![("step"@, 0nat), ("cmd"@, 0nat)] + bare(self.keys@) + bare(self.tags@) + seq![
            ("wall(s)"@, 0nat),
            ("user(s)"@, 0nat),
            ("sys(s)"@, 0nat),
            ("cpu(%)"@, 0nat),
            ("max_rss"@, 0nat),
            ("exit"@, 0nat),
            ("status"@, 0nat),
        ] + (if self.nodes {
            seq![("node"@, 0nat), ("policy"@, 8nat)]
        } else {
            Seq::empty()
        }) + (if self.cpus {
            seq![("cpus"@, self.cpus_width as nat)]
        } else {
            Seq::empty()
        })
    }

    /// `rows` laid out under these columns, with the header if `headed`, padded
    /// to at least `floor`.
    pub open spec fn laid(
        &self,
        rows: Seq<Seq<(Option<Seq<char>>, bool)>>,
        headed: bool,
        floor: Seq<nat>,
    ) -> Seq<char> {
        layout::rendered(self.heads(), LAST@, rows, headed, floor)
    }

    /// The widths these columns settle at, starting from `floor`, with `rows`
    /// under them.
    pub open spec fn settled(
        &self,
        rows: Seq<Seq<(Option<Seq<char>>, bool)>>,
        floor: Seq<nat>,
    ) -> Seq<nat> {
        layout::settled(self.heads(), LAST@, rows, floor)
    }

    /// Whether `text` is `rows` laid out under these columns, whether from
    /// `floor` or from the widths the columns settle at.
    pub open spec fn lays_out(
        &self,
        text: Seq<char>,
        rows: Seq<Seq<(Option<Seq<char>>, bool)>>,
        headed: bool,
        floor: Seq<nat>,
    ) -> bool {
        &&& text == self.laid(rows, headed, floor)
        &&& text == self.laid(rows, headed, self.settled(rows, floor))
    }

    /// How many columns there are.
    pub open spec fn width(&self) -> nat {
        self.heads().len() + 1
    }

    /// A line's cells, without those of the placement columns that are not here.
    pub open spec fn line_cells(
        &self,
        first: (Option<Seq<char>>, bool),
        name: (Option<Seq<char>>, bool),
        keys: Seq<(Option<Seq<char>>, bool)>,
        figures: cost::Figures,
        node: (Option<Seq<char>>, bool),
        policy: (Option<Seq<char>>, bool),
        cpus: (Option<Seq<char>>, bool),
        argv: (Option<Seq<char>>, bool),
    ) -> Seq<(Option<Seq<char>>, bool)> {
        seq![first, name] + keys + cost::cost_cells(figures) + (if self.nodes {
            seq![node, policy]
        } else {
            Seq::empty()
        }) + (if self.cpus {
            seq![cpus]
        } else {
            Seq::empty()
        }) + seq![argv]
    }

    /// The cells of the fields and tags of one item.
    pub open spec fn field_cells(
        &self,
        fields: Seq<(Seq<char>, Seq<char>)>,
        tags: Seq<Seq<char>>,
    ) -> Seq<(Option<Seq<char>>, bool)> {
        self.keys@.map_values(|k: Seq<char>| cost::plain(sorted::kept(fields, k)))
            + self.tags@.map_values(|t: Seq<char>| tag_cell(tags, t))
    }

    /// The cells of a step's own line.
    pub open spec fn step_cells<F>(&self, step: &Step<F>) -> Seq<(Option<Seq<char>>, bool)> {
        let blank = cost::plain(None);
        self.line_cells(
            cost::plain(Some(step.called())),
            blank,
            Seq::new(self.keys@.len() + self.tags@.len(), |i: int| blank),
            cost::step_figures(step),
            if step.pooled {
                cost::plain(cost::listing(step.pool_nodes@))
            } else {
                blank
            },
            blank,
            if step.pooled {
                cost::plain(cost::listing(step.pool_cpus@))
            } else {
                blank
            },
            blank,
        )
    }

    /// The cells of one item's line.
    pub open spec fn item_cells<F>(
        &self,
        first: (Option<Seq<char>>, bool),
        item: Item<'_, F>,
        pool: PoolText,
    ) -> Seq<(Option<Seq<char>>, bool)> {
        let nodes = match pool {
            PoolText::Named(_, nodes) => nodes,
            _ => or_none(item.sits_on()),
        };
        let cpus = match pool {
            PoolText::Named(cpus, _) => cost::listing(cpus),
            PoolText::Shared => Some("pool"@),
            PoolText::Own => cost::listing(or_none(item.pinned())),
        };
        self.line_cells(
            first,
            cost::plain(Some(item.called())),
            self.field_cells(item.carried(), item.tagged()),
            cost::item_figures(item),
            cost::plain(cost::listing(nodes)),
            cost::plain(policy_words(item)),
            cost::plain(cpus),
            cost::plain(item.pasted()),
        )
    }

    /// One step's rows: its own line unless it holds one thing, and a line for
    /// each thing it holds.
    pub open spec fn block_cells<F>(&self, step: &Step<F>) -> Seq<
        Seq<(Option<Seq<char>>, bool)>,
    > {
        let alone = step.size() == 1;
        let items = Seq::new(
            step.size(),
            |i: int|
                self.item_cells(first_cell(step), step.holds(i), pool_of(step, step.holds(i))),
        );
        if alone {
            items
        } else {
            seq![self.step_cells(step)] + items
        }
    }

    /// The rows of all of `steps`, one block after another.
    pub open spec fn all_cells<F>(&self, steps: Seq<Step<F>>) -> Seq<
        Seq<(Option<Seq<char>>, bool)>,
    >
        decreases steps.len(),
    {
        if steps.len() == 0 {
            Seq::empty()
        } else {
            self.all_cells(steps.drop_last()) + self.block_cells(&steps.last())
        }
    }
}

/// Columns with nothing but a name.
pub open spec fn bare(names: Seq<Seq<char>>) -> Seq<(Seq<char>, nat)> {
    names.map_values(|n: Seq<char>| (n, 0nat))
}

/// Whether a tag is there, as a cell.
pub open spec fn tag_cell(tags: Seq<Seq<char>>, tag: Seq<char>) -> (Option<Seq<char>>, bool) {
    cost::plain(
        if tags.contains(tag) {
            Some("x"@)
        } else {
            None
        },
    )
}

/// `s`, or nothing.
pub open spec fn or_none(s: Option<Seq<usize>>) -> Seq<usize> {
    match s {
        Some(s) => s,
        None => Seq::empty(),
    }
}

/// The memory policy of an item, with why it is not the one it asked for.
pub open spec fn policy_words<F>(item: Item<'_, F>) -> Option<Seq<char>> {
    match (item.ran_under(), item.dropped()) {
        (Some(policy), Some(note)) => Some(policy + " ("@ + note + ")"@),
        (policy, _) => policy,
    }
}

/// The first cell of each of a step's items: the step's name for one alone, and
/// otherwise a mark, against the right, for how they ran.
pub open spec fn first_cell<F>(step: &Step<F>) -> (Option<Seq<char>>, bool) {
    if step.size() == 1 {
        (Some(step.called()), false)
    } else {
        match step.planned() {
            Some(Strategy::Batched { .. }) => (Some(BATCH@), true),
            _ => (Some(SERIAL@), true),
        }
    }
}

/// What the row of an item says about the pool it ran in.
//
// under a step line of its own, which names the pool,
// a command sharing it just says so. a closure is
// never placed itself, so one alone in its step shows
// the pool it ran pinned to
pub open spec fn pool_of<F>(step: &Step<F>, item: Item<'_, F>) -> PoolText {
    let alone = step.size() == 1;
    if item is Closure && alone && step.pooled {
        PoolText::Named(step.pool_cpus@, step.pool_nodes@)
    } else if !alone && item.shares() {
        PoolText::Shared
    } else {
        PoolText::Own
    }
}

impl Columns {
    /// The columns of a table with nothing in it.
    pub fn none() -> (r: Columns)
        ensures
            r.keys@.len() == 0,
            r.tags@.len() == 0,
            !r.cpus,
            !r.nodes,
            r.cpus_width == 0,
            r.well_formed(),
    {
        Columns {
            keys: Names::new(),
            tags: Names::new(),
            cpus: false,
            nodes: false,
            cpus_width: 0,
        }
    }

    /// The columns these steps need, with keys and tags each in sorted order.
    pub fn of<F>(steps: &[Step<F>]) -> (r: Columns)
        ensures
            r.cover(steps@),
            r.well_formed(),
    {
        let mut r = Columns::none();
        let mut i: usize = 0;
        assert(r.cover(steps@.take(0))) by {
            lemma_no_columns(&r, steps@.take(0));
        }
        while i < steps.len()
            invariant
                i <= steps@.len(),
                r.cover(steps@.take(i as int)),
                r.well_formed(),
            decreases steps@.len() - i,
        {
            assert(steps@.take(i + 1) == steps@.take(i as int).push(steps@[i as int]));
            r.add(&steps[i], Ghost(steps@.take(i as int)));
            i = i + 1;
        }
        assert(steps@.take(i as int) == steps@);
        r
    }

    /// The columns one step needs.
    pub fn of_one<F>(step: &Step<F>) -> (r: Columns)
        ensures
            r.cover(seq![*step]),
            r.well_formed(),
    {
        let mut r = Columns::none();
        let ghost before = Seq::<Step<F>>::empty();
        assert(r.cover(before)) by {
            lemma_no_columns(&r, before);
        }
        r.add(step, Ghost(before));
        assert(before.push(*step) == seq![*step]);
        r
    }

    /// Widen these to what `step` needs too.
    fn add<F>(&mut self, step: &Step<F>, Ghost(before): Ghost<Seq<Step<F>>>)
        requires
            old(self).cover(before),
            old(self).well_formed(),
        ensures
            final(self).cover(before.push(*step)),
            final(self).well_formed(),
    {
        let ghost all = before.push(*step);
        let ghost last = before.len() as int;
        let items = step.items();
        let mut j: usize = 0;
        proof {
            lemma_start(self, before, *step);
        }
        while j < items.len()
            invariant
                j <= items@.len(),
                items@ == Seq::new(step.size(), |k: int| step.holds(k)),
                all == before.push(*step),
                last == before.len(),
                self.cover_to(all, last, j as int),
                self.well_formed(),
            decreases items@.len() - j,
        {
            let ghost was = *self;
            let item = items[j];
            assert(item == step.holds(j as int));
            // anything in a pool is pinned, whether or not it
            // asked for cores of its own
            let placed = item.cores() > 0 || step.pooled;
            self.keys.add_keys(item.fields());
            self.tags.add_names(item.tags());
            self.cpus = self.cpus || placed;
            self.nodes = self.nodes || (placed && item.numa());
            let width: usize = list::list_width(item.cores());
            if width > self.cpus_width {
                self.cpus_width = width;
            }
            proof {
                lemma_more(&was, self, all, last, j as int);
            }
            j = j + 1;
        }
        proof {
            lemma_end(self, all);
        }
    }

    /// The columns but the last, in the order [`cells`](Columns::cells) fills
    /// them.
    pub fn schema(&self) -> (v: Vec<Heading>)
        ensures
            layout::headings_text(v@) == self.heads(),
            self.well_formed() ==> layout::modest(v@),
    {
        let mut v: Vec<Heading> = Vec::new();
        head(&mut v, "step", 0);
        head(&mut v, "cmd", 0);
        heads_of(&mut v, &self.keys);
        heads_of(&mut v, &self.tags);
        head(&mut v, "wall(s)", 0);
        head(&mut v, "user(s)", 0);
        head(&mut v, "sys(s)", 0);
        head(&mut v, "cpu(%)", 0);
        head(&mut v, "max_rss", 0);
        head(&mut v, "exit", 0);
        head(&mut v, "status", 0);
        // placement sits just before argv because its widths
        // are only guesses, and a wider value then shifts
        // only argv, which is last and unpadded
        if self.nodes {
            head(&mut v, "node", 0);
            // prefer:N is as wide as a policy gets on a machine
            // with under ten nodes, so that is the guess
            head(&mut v, "policy", 8);
        }
        if self.cpus {
            head(&mut v, "cpus", self.cpus_width);
        }
        assert(layout::headings_text(v@) == self.heads());
        proof {
            if self.well_formed() {
                assert forall|i: int| 0 <= i < v@.len() implies (#[trigger] v@[i]).min_width
                    <= 0xffff by {
                    assert(layout::headings_text(v@)[i] == v@[i]@);
                    lemma_heads_modest(self, i);
                }
            }
        }
        v
    }

    /// `rows` laid out under these columns, padded to at least `floor`. A
    /// `floor` that is empty or measured for other columns is ignored.
    pub fn render(&self, rows: &[Vec<Cell>], header: Header, floor: &Floor) -> (s: String)
        requires
            self.well_formed(),
        ensures
            self.lays_out(s@, layout::rows_text(rows@), header == Header::Show, floor@),
    {
        let schema = self.schema();
        floor.lay_out(schema.as_slice(), LAST, rows, header)
    }

    /// How wide each column has to be for every block to fit under one header.
    pub fn measure<F>(&self, steps: &[Step<F>]) -> (w: Floor)
        requires
            self.well_formed(),
            forall|i: int| 0 <= i < steps@.len() ==> cost::holdable(&#[trigger] steps@[i]),
        ensures
            w@ == layout::fitted(self.heads(), LAST@, self.all_cells(steps@)),
    {
        let schema = self.schema();
        let mut rows: Vec<Vec<Cell>> = Vec::new();
        let mut i: usize = 0;
        assert(layout::rows_text(rows@) == self.all_cells(steps@.take(0)));
        while i < steps.len()
            invariant
                i <= steps@.len(),
                forall|i: int| 0 <= i < steps@.len() ==> cost::holdable(&#[trigger] steps@[i]),
                layout::rows_text(rows@) == self.all_cells(steps@.take(i as int)),
            decreases steps@.len() - i,
        {
            let ghost was = rows@;
            let mut more = self.block(&steps[i]);
            let ghost added = more@;
            rows.append(&mut more);
            proof {
                assert(steps@.take(i + 1).drop_last() == steps@.take(i as int));
                assert(rows@ == was + added);
                assert(layout::rows_text(rows@) == layout::rows_text(was) + layout::rows_text(
                    added,
                ));
            }
            i = i + 1;
        }
        assert(steps@.take(i as int) == steps@);
        Floor::of(schema.as_slice(), LAST, rows.as_slice())
    }

    /// One step's rows: its own line, then a line per command.
    pub fn block<F>(&self, step: &Step<F>) -> (rows: Vec<Vec<Cell>>)
        requires
            cost::holdable(step),
        ensures
            layout::rows_text(rows@) == self.block_cells(step),
    {
        let mut rows: Vec<Vec<Cell>> = Vec::new();
        let items = step.items();

        // a step of one gets no line of its own: its name goes
        // in the first column of its command's row
        let alone = items.len() == 1;
        let first = if alone {
            Cell::of(step.label())
        } else {
            rows.push(self.step_row(step));
            let mark = match step.strategy() {
                Some(Strategy::Batched { .. }) => BATCH,
                _ => SERIAL,
            };
            Cell { text: Some(mark.to_owned()), side: Side::Right }
        };
        assert(first@ == first_cell(step));
        let ghost front = layout::rows_text(rows@);
        let ghost each = |i: int|
            self.item_cells(first_cell(step), step.holds(i), pool_of(step, step.holds(i)));
        assert(front == if alone {
            Seq::empty()
        } else {
            seq![self.step_cells(step)]
        });
        let mut i: usize = 0;
        assert(front + Seq::new(0, each) == front);
        while i < items.len()
            invariant
                i <= items@.len(),
                items@ == Seq::new(step.size(), |k: int| step.holds(k)),
                alone == (step.size() == 1),
                first@ == first_cell(step),
                each == |i: int|
                    self.item_cells(first_cell(step), step.holds(i), pool_of(step, step.holds(i))),
                layout::rows_text(rows@) == front + Seq::new(i as nat, each),
            decreases items@.len() - i,
        {
            let item = items[i];
            assert(item == step.holds(i as int));
            let pool = match item {
                Item::Closure(_) => if alone && step.pooled {
                    Pool::Named(step.pool_cpus.as_slice(), step.pool_nodes.as_slice())
                } else {
                    Pool::Own
                },
                Item::Cmd(_) => if !alone && item.pooled() {
                    Pool::Shared
                } else {
                    Pool::Own
                },
            };
            assert(pool@ == pool_of(step, item));
            let row = self.row(first.copy(), item, pool);
            let ghost was = rows@;
            proof {
                assert(layout::row_text(row@) == each(i as int));
                assert(layout::rows_text(was.push(row)) == layout::rows_text(was).push(
                    layout::row_text(row@),
                ));
                assert((front + Seq::new(i as nat, each)).push(each(i as int)) == front + Seq::new(
                    (i + 1) as nat,
                    each,
                ));
            }
            rows.push(row);
            i = i + 1;
        }
        assert(layout::rows_text(rows@) == self.block_cells(step));
        rows
    }

    /// The step's own line: measured wall clock, and its commands' CPU added up.
    pub fn step_row<F>(&self, step: &Step<F>) -> (row: Vec<Cell>)
        requires
            cost::holdable(step),
        ensures
            layout::row_text(row@) == self.step_cells(step),
            row@.len() == self.width(),
    {
        let spent = cost::step_cost(step);
        let mut keys: Vec<Cell> = Vec::new();
        let n: usize = self.keys.len();
        let m: usize = self.tags.len();
        let ghost blank = cost::plain(None);
        let mut i: usize = 0;
        while i < n
            invariant
                i <= n,
                blank == cost::plain(None),
                layout::row_text(keys@) == Seq::new(i as nat, |k: int| blank),
            decreases n - i,
        {
            let cell = Cell::missing();
            assert(layout::row_text(keys@.push(cell)) == layout::row_text(keys@).push(cell@));
            keys.push(cell);
            i = i + 1;
        }
        let mut k: usize = 0;
        while k < m
            invariant
                k <= m,
                blank == cost::plain(None),
                layout::row_text(keys@) == Seq::new((n + k) as nat, |k: int| blank),
            decreases m - k,
        {
            let cell = Cell::missing();
            assert(layout::row_text(keys@.push(cell)) == layout::row_text(keys@).push(cell@));
            keys.push(cell);
            k = k + 1;
        }
        // the cpus a whole step held are only the step's to report
        // when it carved them as a pool. otherwise they are the
        // commands', and the step line leaves them alone the way
        // it does exit and argv
        let (node, cpus) = if step.pooled {
            (cost::listed(step.pool_nodes.as_slice()), cost::listed(step.pool_cpus.as_slice()))
        } else {
            (Cell::missing(), Cell::missing())
        };
        self.cells(
            Line {
                first: Cell::of(step.label()),
                name: Cell::missing(),
                keys,
                cost: spent,
                node,
                policy: Cell::missing(),
                cpus,
                argv: Cell::missing(),
            },
        )
    }

    /// One item's line. `first` is the step name for a collapsed step of one,
    /// and a right-aligned `|` or `||` otherwise.
    pub fn row<F>(&self, first: Cell, item: Item<'_, F>, pool: Pool<'_>) -> (row: Vec<Cell>)
        ensures
            layout::row_text(row@) == self.item_cells(first@, item, pool@),
            row@.len() == self.width(),
    {
        let node = match pool {
            Pool::Named(_, nodes) => cost::listed(nodes),
            _ => match item.nodes() {
                Some(nodes) => cost::listed(nodes),
                None => Cell::missing(),
            },
        };
        let cpus = match pool {
            Pool::Named(cpus, _) => cost::listed(cpus),
            Pool::Shared => Cell::of("pool".to_owned()),
            Pool::Own => match item.cpus() {
                Some(cpus) => cost::listed(cpus),
                None => Cell::missing(),
            },
        };
        let policy = match (item.policy(), item.policy_note()) {
            (Some(policy), Some(note)) => {
                let mut s = policy;
                s.append(" (");
                s.append(note);
                s.append(")");
                Some(s)
            },
            (policy, _) => policy,
        };
        self.cells(
            Line {
                first,
                name: Cell::of(item.label()),
                keys: self.key_cells(item.fields(), item.tags()),
                cost: cost::item_cost(item),
                node,
                policy: Cell::maybe(policy),
                cpus,
                argv: Cell::maybe(item.line()),
            },
        )
    }

    /// A line's cells, in the order [`schema`](Columns::schema) names the
    /// columns, leaving out the placement ones this table does not have.
    pub fn cells(&self, line: Line) -> (v: Vec<Cell>)
        requires
            line.cost.in_range(),
        ensures
            layout::row_text(v@) == self.line_cells(
                line.first@,
                line.name@,
                layout::row_text(line.keys@),
                line.cost@,
                line.node@,
                line.policy@,
                line.cpus@,
                line.argv@,
            ),
            line.keys@.len() == self.keys@.len() + self.tags@.len() ==> v@.len() == self.width(),
    {
        let ghost all = self.line_cells(
            line.first@,
            line.name@,
            layout::row_text(line.keys@),
            line.cost@,
            line.node@,
            line.policy@,
            line.cpus@,
            line.argv@,
        );
        let Line { first, name, keys, cost, node, policy, cpus, argv } = line;
        let mut keys = keys;
        let mut v: Vec<Cell> = Vec::new();
        v.push(first);
        v.push(name);
        v.append(&mut keys);
        let mut spent = cost.cells();
        let ghost figures = layout::row_text(spent@);
        v.append(&mut spent);
        if self.nodes {
            v.push(node);
            v.push(policy);
        }
        if self.cpus {
            v.push(cpus);
        }
        v.push(argv);
        proof {
            assert(figures == cost::cost_cells(cost@));
            assert(layout::row_text(v@) == all);
            assert(layout::row_text(v@).len() == v@.len());
        }
        v
    }

    /// The field and tag cells.
    pub fn key_cells(&self, fields: &Fields, tags: &Names) -> (v: Vec<Cell>)
        ensures
            layout::row_text(v@) == self.field_cells(fields@, tags@),
            v@.len() == self.keys@.len() + self.tags@.len(),
    {
        let mut v: Vec<Cell> = Vec::new();
        let ghost each = |k: Seq<char>| cost::plain(sorted::kept(fields@, k));
        let ghost keys = self.keys@.map_values(each);
        let mut i: usize = 0;
        while i < self.keys.len()
            invariant
                i <= self.keys@.len(),
                each == |k: Seq<char>| cost::plain(sorted::kept(fields@, k)),
                keys == self.keys@.map_values(each),
                layout::row_text(v@) == keys.take(i as int),
            decreases self.keys@.len() - i,
        {
            let cell = match fields.get(self.keys.at(i)) {
                Some(value) => Cell::of(value.to_owned()),
                None => Cell::missing(),
            };
            proof {
                assert(cell@ == keys[i as int]);
                assert(layout::row_text(v@.push(cell)) == layout::row_text(v@).push(cell@));
                assert(keys.take(i + 1) == keys.take(i as int).push(cell@));
            }
            v.push(cell);
            i = i + 1;
        }
        assert(keys.take(i as int) == keys);
        let ghost marks = self.tags@.map_values(|t: Seq<char>| tag_cell(tags@, t));
        let mut k: usize = 0;
        assert(keys + marks.take(0) == keys);
        while k < self.tags.len()
            invariant
                k <= self.tags@.len(),
                marks == self.tags@.map_values(|t: Seq<char>| tag_cell(tags@, t)),
                layout::row_text(v@) == keys + marks.take(k as int),
            decreases self.tags@.len() - k,
        {
            let cell = if tags.contains(self.tags.at(k)) {
                Cell::of("x".to_owned())
            } else {
                Cell::missing()
            };
            proof {
                assert(cell@ == marks[k as int]);
                assert(layout::row_text(v@.push(cell)) == layout::row_text(v@).push(cell@));
                assert((keys + marks.take(k as int)).push(cell@) == keys + marks.take(k + 1));
            }
            v.push(cell);
            k = k + 1;
        }
        assert(marks.take(k as int) == marks);
        assert(layout::row_text(v@).len() == v@.len());
        v
    }
}

/// Put a heading at the end of `v`.
fn head(v: &mut Vec<Heading>, label: &str, min_width: usize)
    ensures
        layout::headings_text(final(v)@) == layout::headings_text(old(v)@).push(
            (label@, min_width as nat),
        ),
{
    v.push(Heading { label: label.to_owned(), min_width });
    assert(layout::headings_text(v@) == layout::headings_text(old(v)@).push(
        (label@, min_width as nat),
    ));
}

/// Put a heading for each of `names` at the end of `v`.
fn heads_of(v: &mut Vec<Heading>, names: &Names)
    ensures
        layout::headings_text(final(v)@) == layout::headings_text(old(v)@) + bare(names@),
{
    let ghost front = layout::headings_text(v@);
    let mut i: usize = 0;
    assert(front + bare(names@).take(0) == front);
    while i < names.len()
        invariant
            i <= names@.len(),
            layout::headings_text(v@) == front + bare(names@).take(i as int),
        decreases names@.len() - i,
    {
        head(v, names.at(i), 0);
        proof {
            let all = bare(names@);
            assert((front + all.take(i as int)).push((names@[i as int], 0nat)) == front + all.take(
                i + 1,
            ));
        }
        i = i + 1;
    }
    assert(bare(names@).take(i as int) == bare(names@));
}

proof fn lemma_heads_modest(columns: &Columns, i: int)
    requires
        columns.well_formed(),
        0 <= i < columns.heads().len(),
    ensures
        columns.heads()[i].1 <= 0xffff,
{
    let a = seq![("step"@, 0nat), ("cmd"@, 0nat)];
    let b = bare(columns.keys@);
    let c = bare(columns.tags@);
    assert(forall|k: int| 0 <= k < b.len() ==> (#[trigger] b[k]).1 == 0);
    assert(forall|k: int| 0 <= k < c.len() ==> (#[trigger] c[k]).1 == 0);
    let head = a + b + c;
    assert(forall|k: int| 0 <= k < head.len() ==> (#[trigger] head[k]).1 == 0);
    if i < head.len() {
        assert(columns.heads()[i] == head[i]);
    }
}

proof fn lemma_no_columns<F>(columns: &Columns, steps: Seq<Step<F>>)
    requires
        columns.keys@.len() == 0,
        columns.tags@.len() == 0,
        !columns.cpus,
        !columns.nodes,
        columns.cpus_width == 0,
        steps.len() == 0,
    ensures
        columns.cover(steps),
{
}

/// The columns of `before` are those of the items before the step after it.
proof fn lemma_start<F>(columns: &Columns, before: Seq<Step<F>>, step: Step<F>)
    requires
        columns.cover(before),
    ensures
        columns.cover_to(before.push(step), before.len() as int, 0),
{
    let all = before.push(step);
    let n = before.len() as int;
    assert forall|i: int, j: int, key: Seq<char>| i < n implies #[trigger] carries(
        all,
        i,
        j,
        key,
    ) == carries(before, i, j, key) by {
    }
    assert forall|i: int, j: int, tag: Seq<char>| i < n implies #[trigger] bears(all, i, j, tag)
        == bears(before, i, j, tag) by {
    }
    assert forall|i: int, j: int| i < n implies #[trigger] pins(all, i, j) == pins(
        before,
        i,
        j,
    ) by {
    }
    assert forall|i: int, j: int| i < n implies #[trigger] lands(all, i, j) == lands(
        before,
        i,
        j,
    ) by {
    }
    assert forall|i: int, j: int, width: nat| i < n implies #[trigger] takes(all, i, j, width)
        == takes(before, i, j, width) by {
    }
    assert forall|key: Seq<char>| #[trigger] columns.keys@.contains(key) <==> exists|
        i: int,
        j: int,
    | #[trigger] carries(all, i, j, key) && earlier(i, j, n, 0) by {
        if columns.keys@.contains(key) {
            let (i, j) = choose|i: int, j: int| #[trigger]
                carries(before, i, j, key) && earlier(i, j, n, 0);
            assert(carries(all, i, j, key));
        }
        if exists|i: int, j: int| #[trigger] carries(all, i, j, key) && earlier(i, j, n, 0) {
            let (i, j) = choose|i: int, j: int| #[trigger]
                carries(all, i, j, key) && earlier(i, j, n, 0);
            assert(carries(before, i, j, key));
        }
    }
    assert forall|tag: Seq<char>| #[trigger] columns.tags@.contains(tag) <==> exists|
        i: int,
        j: int,
    | #[trigger] bears(all, i, j, tag) && earlier(i, j, n, 0) by {
        if columns.tags@.contains(tag) {
            let (i, j) = choose|i: int, j: int| #[trigger]
                bears(before, i, j, tag) && earlier(i, j, n, 0);
            assert(bears(all, i, j, tag));
        }
        if exists|i: int, j: int| #[trigger] bears(all, i, j, tag) && earlier(i, j, n, 0) {
            let (i, j) = choose|i: int, j: int| #[trigger]
                bears(all, i, j, tag) && earlier(i, j, n, 0);
            assert(bears(before, i, j, tag));
        }
    }
    if columns.cpus {
        let (i, j) = choose|i: int, j: int| #[trigger] pins(before, i, j) && earlier(i, j, n, 0);
        assert(pins(all, i, j));
    }
    if exists|i: int, j: int| #[trigger] pins(all, i, j) && earlier(i, j, n, 0) {
        let (i, j) = choose|i: int, j: int| #[trigger] pins(all, i, j) && earlier(i, j, n, 0);
        assert(pins(before, i, j));
    }
    if columns.nodes {
        let (i, j) = choose|i: int, j: int| #[trigger] lands(before, i, j) && earlier(i, j, n, 0);
        assert(lands(all, i, j));
    }
    if exists|i: int, j: int| #[trigger] lands(all, i, j) && earlier(i, j, n, 0) {
        let (i, j) = choose|i: int, j: int| #[trigger] lands(all, i, j) && earlier(i, j, n, 0);
        assert(lands(before, i, j));
    }
    assert forall|i: int, j: int, width: nat| #[trigger]
        takes(all, i, j, width) && earlier(i, j, n, 0) implies width <= columns.cpus_width by {
        assert(takes(before, i, j, width));
    }
    if columns.cpus_width != 0 {
        let (i, j) = choose|i: int, j: int| #[trigger]
            takes(before, i, j, columns.cpus_width as nat) && earlier(i, j, n, 0);
        assert(takes(all, i, j, columns.cpus_width as nat));
    }
}

/// Columns widened by one more item are those of the items up to and with it.
proof fn lemma_more<F>(was: &Columns, is: &Columns, all: Seq<Step<F>>, last: int, m: int)
    requires
        was.cover_to(all, last, m),
        on(all, last, m),
        is.keys.well_formed(),
        is.tags.well_formed(),
        forall|y: Seq<char>| #[trigger]
            is.keys@.contains(y) <==> was.keys@.contains(y) || sorted::keys(
                all[last].holds(m).carried(),
            ).contains(y),
        forall|y: Seq<char>| #[trigger]
            is.tags@.contains(y) <==> was.tags@.contains(y) || all[last].holds(
                m,
            ).tagged().contains(y),
        is.cpus == (was.cpus || pins(all, last, m)),
        is.nodes == (was.nodes || lands(all, last, m)),
        is.cpus_width >= was.cpus_width,
        is.cpus_width >= list::width_for(all[last].holds(m).asked() as nat),
        is.cpus_width == was.cpus_width || is.cpus_width == list::width_for(
            all[last].holds(m).asked() as nat,
        ),
    ensures
        is.cover_to(all, last, m + 1),
{
    assert forall|key: Seq<char>| #[trigger] is.keys@.contains(key) <==> exists|
        i: int,
        j: int,
    | #[trigger] carries(all, i, j, key) && earlier(i, j, last, m + 1) by {
        if was.keys@.contains(key) {
            let (i, j) = choose|i: int, j: int| #[trigger]
                carries(all, i, j, key) && earlier(i, j, last, m);
            assert(carries(all, i, j, key) && earlier(i, j, last, m + 1));
        } else if is.keys@.contains(key) {
            assert(carries(all, last, m, key) && earlier(last, m, last, m + 1));
        }
        if exists|i: int, j: int| #[trigger]
            carries(all, i, j, key) && earlier(i, j, last, m + 1) {
            let (i, j) = choose|i: int, j: int| #[trigger]
                carries(all, i, j, key) && earlier(i, j, last, m + 1);
            if earlier(i, j, last, m) {
                assert(was.keys@.contains(key));
            } else {
                assert(i == last && j == m);
            }
        }
    }
    assert forall|tag: Seq<char>| #[trigger] is.tags@.contains(tag) <==> exists|
        i: int,
        j: int,
    | #[trigger] bears(all, i, j, tag) && earlier(i, j, last, m + 1) by {
        if was.tags@.contains(tag) {
            let (i, j) = choose|i: int, j: int| #[trigger]
                bears(all, i, j, tag) && earlier(i, j, last, m);
            assert(bears(all, i, j, tag) && earlier(i, j, last, m + 1));
        } else if is.tags@.contains(tag) {
            assert(bears(all, last, m, tag) && earlier(last, m, last, m + 1));
        }
        if exists|i: int, j: int| #[trigger] bears(all, i, j, tag) && earlier(i, j, last, m + 1) {
            let (i, j) = choose|i: int, j: int| #[trigger]
                bears(all, i, j, tag) && earlier(i, j, last, m + 1);
            if earlier(i, j, last, m) {
                assert(was.tags@.contains(tag));
            } else {
                assert(i == last && j == m);
            }
        }
    }
    if was.cpus {
        let (i, j) = choose|i: int, j: int| #[trigger] pins(all, i, j) && earlier(i, j, last, m);
        assert(pins(all, i, j) && earlier(i, j, last, m + 1));
    } else if is.cpus {
        assert(pins(all, last, m) && earlier(last, m, last, m + 1));
    }
    if exists|i: int, j: int| #[trigger] pins(all, i, j) && earlier(i, j, last, m + 1) {
        let (i, j) = choose|i: int, j: int| #[trigger]
            pins(all, i, j) && earlier(i, j, last, m + 1);
        if !earlier(i, j, last, m) {
            assert(i == last && j == m);
        }
    }
    if was.nodes {
        let (i, j) = choose|i: int, j: int| #[trigger] lands(all, i, j) && earlier(i, j, last, m);
        assert(lands(all, i, j) && earlier(i, j, last, m + 1));
    } else if is.nodes {
        assert(lands(all, last, m) && earlier(last, m, last, m + 1));
    }
    if exists|i: int, j: int| #[trigger] lands(all, i, j) && earlier(i, j, last, m + 1) {
        let (i, j) = choose|i: int, j: int| #[trigger]
            lands(all, i, j) && earlier(i, j, last, m + 1);
        if !earlier(i, j, last, m) {
            assert(i == last && j == m);
        }
    }
    assert forall|i: int, j: int, width: nat| #[trigger]
        takes(all, i, j, width) && earlier(i, j, last, m + 1) implies width <= is.cpus_width by {
        if earlier(i, j, last, m) {
            assert(width <= was.cpus_width);
        } else {
            assert(i == last && j == m);
        }
    }
    if is.cpus_width != 0 {
        if is.cpus_width == was.cpus_width {
            let (i, j) = choose|i: int, j: int| #[trigger]
                takes(all, i, j, was.cpus_width as nat) && earlier(i, j, last, m);
            assert(takes(all, i, j, is.cpus_width as nat) && earlier(i, j, last, m + 1));
        } else {
            assert(takes(all, last, m, is.cpus_width as nat) && earlier(last, m, last, m + 1));
        }
    }
}

/// The columns of every item of the last step are those of all the steps.
proof fn lemma_end<F>(columns: &Columns, all: Seq<Step<F>>)
    requires
        all.len() > 0,
        columns.cover_to(all, all.len() - 1, all.last().size() as int),
    ensures
        columns.cover(all),
{
    let last = all.len() - 1;
    let m = all.last().size() as int;
    let n = all.len() as int;
    assert forall|i: int, j: int| on(all, i, j) implies earlier(i, j, last, m) && earlier(
        i,
        j,
        n,
        0,
    ) by {
    }
    assert forall|key: Seq<char>| #[trigger] columns.keys@.contains(key) <==> exists|
        i: int,
        j: int,
    | #[trigger] carries(all, i, j, key) && earlier(i, j, n, 0) by {
        if columns.keys@.contains(key) {
            let (i, j) = choose|i: int, j: int| #[trigger]
                carries(all, i, j, key) && earlier(i, j, last, m);
            assert(carries(all, i, j, key) && earlier(i, j, n, 0));
        }
        if exists|i: int, j: int| #[trigger] carries(all, i, j, key) && earlier(i, j, n, 0) {
            let (i, j) = choose|i: int, j: int| #[trigger]
                carries(all, i, j, key) && earlier(i, j, n, 0);
            assert(carries(all, i, j, key) && earlier(i, j, last, m));
        }
    }
    assert forall|tag: Seq<char>| #[trigger] columns.tags@.contains(tag) <==> exists|
        i: int,
        j: int,
    | #[trigger] bears(all, i, j, tag) && earlier(i, j, n, 0) by {
        if columns.tags@.contains(tag) {
            let (i, j) = choose|i: int, j: int| #[trigger]
                bears(all, i, j, tag) && earlier(i, j, last, m);
            assert(bears(all, i, j, tag) && earlier(i, j, n, 0));
        }
        if exists|i: int, j: int| #[trigger] bears(all, i, j, tag) && earlier(i, j, n, 0) {
            let (i, j) = choose|i: int, j: int| #[trigger]
                bears(all, i, j, tag) && earlier(i, j, n, 0);
            assert(bears(all, i, j, tag) && earlier(i, j, last, m));
        }
    }
    if columns.cpus {
        let (i, j) = choose|i: int, j: int| #[trigger] pins(all, i, j) && earlier(i, j, last, m);
        assert(pins(all, i, j) && earlier(i, j, n, 0));
    }
    if exists|i: int, j: int| #[trigger] pins(all, i, j) && earlier(i, j, n, 0) {
        let (i, j) = choose|i: int, j: int| #[trigger] pins(all, i, j) && earlier(i, j, n, 0);
        assert(pins(all, i, j) && earlier(i, j, last, m));
    }
    if columns.nodes {
        let (i, j) = choose|i: int, j: int| #[trigger] lands(all, i, j) && earlier(i, j, last, m);
        assert(lands(all, i, j) && earlier(i, j, n, 0));
    }
    if exists|i: int, j: int| #[trigger] lands(all, i, j) && earlier(i, j, n, 0) {
        let (i, j) = choose|i: int, j: int| #[trigger] lands(all, i, j) && earlier(i, j, n, 0);
        assert(lands(all, i, j) && earlier(i, j, last, m));
    }
    assert forall|i: int, j: int, width: nat| #[trigger]
        takes(all, i, j, width) && earlier(i, j, n, 0) implies width <= columns.cpus_width by {
        assert(earlier(i, j, last, m));
    }
    if columns.cpus_width != 0 {
        let (i, j) = choose|i: int, j: int| #[trigger]
            takes(all, i, j, columns.cpus_width as nat) && earlier(i, j, last, m);
        assert(takes(all, i, j, columns.cpus_width as nat) && earlier(i, j, n, 0));
    }
}

} // verus!
