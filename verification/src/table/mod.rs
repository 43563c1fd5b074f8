//! The summary table.
//!
//! Two kinds of row, told apart by the first column. A step row carries the
//! step's name and its wall clock; the command rows under it carry a `|` or `||`
//! instead of a name, and their own numbers. A step of one command collapses to
//! a single row, since the two would otherwise say the same thing twice.
//!
//! A block is built when its step finishes, because a column's width is not
//! known until the last cell in it has arrived. [`Mode`] decides what happens
//! to it then.

pub mod cell_laws;
pub mod columns;
pub mod cost;
pub mod cost_laws;
pub mod laws;
pub mod layout;

use vstd::prelude::*;

use crate::step::Step;
use crate::table::columns::{Columns, LAST};
use crate::table::layout::{Cell, Floor, Header};
use crate::value::Value;

verus! {

/// Whether every block gets its own header.
#[derive(Clone, Copy, Debug, PartialEq, Eq)]
pub enum Headers {
    /// One header at the top of the file. Blocks are padded to at least its
    /// widths, so they line up until a value is wider than its heading.
    Once,
    /// A header on every block, so each block reads on its own.
    Each,
}

/// How the table is laid out and when it reaches the file.
#[derive(Clone, Copy, Debug, PartialEq, Eq)]
pub enum Mode {
    /// Hold everything back and write one table with every row padded alike.
    /// Nothing reaches the file until the run is over.
    Whole,
    /// Write each step's block as that step finishes. Every block carries the
    /// same columns, padded to its own contents. The default, with
    /// [`Headers::Once`].
    Blocks { headers: Headers },
    /// Write each step's block as that step finishes, each carrying only the
    /// columns its own commands use.
    Ragged,
}

impl Default for Mode {
    fn default() -> (r: Mode)
        ensures
            r == (Mode::Blocks { headers: Headers::Once }),
    {
        Mode::Blocks { headers: Headers::Once }
    }
}

/// A table of everything the pipeline ran.
pub struct Table {
    pub path: String,
    pub mode: Mode,
    /// The columns every block carries, unused by [`Mode::Ragged`].
    //
    // worked out before anything runs, so blocks agree
    // whatever order fields turn up in
    pub columns: Columns,
    /// Every row so far, for [`Mode::Whole`].
    pub rows: Vec<Vec<Cell>>,
    /// The widths every block is padded to at least, empty for the modes that
    /// do not share widths between blocks.
    //
    // measured before the run from names, fields, tags and
    // argv. only the numbers are missing, and their headings
    // are usually wider than they are
    pub floor: Floor,
    /// What belongs in the file.
    pub text: String,
}

impl Table {
    /// Whether the columns are ones that can be written.
    pub open spec fn well_formed(&self) -> bool {
        self.columns.well_formed()
    }

    /// Whether starting `was` on `steps` leaves this, and says with `flush`
    /// whether the text belongs in the file now.
    pub open spec fn started<F>(&self, was: Table, steps: Seq<Step<F>>, flush: bool) -> bool {
        &&& flush
        &&& self.path == was.path
        &&& self.mode == was.mode
        &&& self.rows == was.rows
        &&& self.columns.cover(steps)
        &&& self.floor@ == match was.mode {
            Mode::Ragged | Mode::Whole => Seq::empty(),
            Mode::Blocks { .. } => layout::fitted(
                self.columns.heads(),
                LAST@,
                self.columns.all_cells(steps),
            ),
        }
        &&& match was.mode {
            Mode::Blocks { headers: Headers::Once } => self.columns.lays_out(
                self.text@,
                Seq::empty(),
                true,
                self.floor@,
            ),
            _ => self.text@ == Seq::<char>::empty(),
        }
    }

    /// Whether `step` being done leaves this of `was`, and says with `flush`
    /// whether the text belongs in the file now.
    pub open spec fn stepped<F>(&self, was: Table, step: &Step<F>, flush: bool) -> bool {
        &&& *self == (Table { rows: self.rows, text: self.text, ..was })
        &&& flush == !(was.mode is Whole)
        &&& match was.mode {
            Mode::Whole => {
                &&& layout::rows_text(self.rows@) == layout::rows_text(was.rows@)
                    + was.columns.block_cells(step)
                &&& self.text == was.text
            },
            Mode::Blocks { headers } => {
                &&& self.rows == was.rows
                &&& self.text@ == was.text@ + was.columns.laid(
                    was.columns.block_cells(step),
                    headers == Headers::Each,
                    was.floor@,
                )
                &&& self.text@ == was.text@ + was.columns.laid(
                    was.columns.block_cells(step),
                    headers == Headers::Each,
                    was.columns.settled(was.columns.block_cells(step), was.floor@),
                )
            },
            Mode::Ragged => {
                &&& self.rows == was.rows
                &&& exists|own: Columns| #[trigger]
                    own.cover(seq![*step]) && self.text@ == was.text@ + own.laid(
                        own.block_cells(step),
                        true,
                        was.floor@,
                    ) && self.text@ == was.text@ + own.laid(
                        own.block_cells(step),
                        true,
                        own.settled(own.block_cells(step), was.floor@),
                    )
            },
        }
    }

    /// Whether the run being over leaves this of `was`, and says with `flush`
    /// whether the text belongs in the file now.
    pub open spec fn finished(&self, was: Table, flush: bool) -> bool {
        &&& flush == (was.mode is Whole)
        &&& match was.mode {
            Mode::Whole => {
                &&& *self == (Table { rows: self.rows, text: self.text, ..was })
                &&& self.rows@.len() == 0
                &&& was.columns.lays_out(
                    self.text@,
                    layout::rows_text(was.rows@),
                    true,
                    Seq::empty(),
                )
            },
            _ => *self == was,
        }
    }

    /// A table to be written to `path`.
    pub fn new(path: impl Value) -> (r: Table)
        ensures
            r.path@ == path.text(),
            r.mode == (Mode::Blocks { headers: Headers::Once }),
            r.columns.keys@.len() == 0,
            r.columns.tags@.len() == 0,
            !r.columns.cpus,
            !r.columns.nodes,
            r.columns.cpus_width == 0,
            r.rows@.len() == 0,
            r.floor@.len() == 0,
            r.text@.len() == 0,
            r.well_formed(),
    {
        Table {
            path: path.render(),
            mode: Mode::Blocks { headers: Headers::Once },
            columns: Columns::none(),
            rows: Vec::new(),
            floor: Floor::none(),
            text: String::new(),
        }
    }

    pub fn mode(self, mode: Mode) -> (r: Table)
        ensures
            r == (Table { mode, ..self }),
    {
        let mut table = self;
        table.mode = mode;
        table
    }

    /// Everything that is about to run, before any of it has. Gives back whether
    /// the text belongs in the file now, which it does.
    pub fn start<F>(&mut self, steps: &[Step<F>]) -> (flush: bool)
        requires
            forall|i: int| 0 <= i < steps@.len() ==> cost::holdable(&#[trigger] steps@[i]),
        ensures
            final(self).well_formed(),
            final(self).started(*old(self), steps@, flush),
    {
        self.columns = Columns::of(steps);

        // ragged blocks differ by design, and whole renders in
        // one go, so neither shares widths
        self.floor = match self.mode {
            Mode::Ragged | Mode::Whole => Floor::none(),
            Mode::Blocks { .. } => self.columns.measure(steps),
        };
        self.text = String::new();
        if let Mode::Blocks { headers: Headers::Once } = self.mode {
            let none: Vec<Vec<Cell>> = Vec::new();
            assert(layout::rows_text(none@) == Seq::<Seq<(Option<Seq<char>>, bool)>>::empty());
            let head = self.columns.render(none.as_slice(), Header::Show, &self.floor);
            self.take(head.as_str());
        }
        true
    }

    /// A step is done. Gives back whether the text belongs in the file now.
    //
    // a step's rows are built from the step itself once it is done,
    // which keeps them in the order the commands were declared rather
    // than the order a batch happened to finish them in
    pub fn step_done<F>(&mut self, step: &Step<F>) -> (flush: bool)
        requires
            old(self).well_formed(),
            cost::holdable(step),
        ensures
            final(self).well_formed(),
            final(self).stepped(*old(self), step, flush),
    {
        match self.mode {
            Mode::Whole => {
                let ghost was = self.rows@;
                let mut more = self.columns.block(step);
                let ghost added = more@;
                self.rows.append(&mut more);
                proof {
                    assert(self.rows@ == was + added);
                    assert(layout::rows_text(self.rows@) == layout::rows_text(was)
                        + layout::rows_text(added));
                }
                false
            },
            Mode::Blocks { headers } => {
                let header = match headers {
                    Headers::Once => Header::Hide,
                    Headers::Each => Header::Show,
                };
                let rows = self.columns.block(step);
                let laid_out = self.columns.render(rows.as_slice(), header, &self.floor);
                self.take(laid_out.as_str());
                true
            },
            Mode::Ragged => {
                let own = Columns::of_one(step);
                let rows = own.block(step);
                let laid_out = own.render(rows.as_slice(), Header::Show, &self.floor);
                self.take(laid_out.as_str());
                assert(own.cover(seq![*step]));
                true
            },
        }
    }

    /// The run is over. Gives back whether the text belongs in the file now.
    pub fn finish(&mut self) -> (flush: bool)
        requires
            old(self).well_formed(),
        ensures
            final(self).well_formed(),
            final(self).finished(*old(self), flush),
    {
        match self.mode {
            Mode::Whole => {
                let none = Floor::none();
                let laid_out = self.columns.render(self.rows.as_slice(), Header::Show, &none);
                self.rows = Vec::new();
                self.text = String::new();
                self.take(laid_out.as_str());
                true
            },
            _ => false,
        }
    }

    /// Put what has been laid out at the end of the text.
    pub fn take(&mut self, laid_out: &str)
        ensures
            final(self).text@ == old(self).text@ + laid_out@,
            *final(self) == (Table { text: final(self).text, ..*old(self) }),
    {
        self.text.append(laid_out);
    }
}

} // verus!
