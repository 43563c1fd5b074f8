//! Cells and headings, and laying them out with `toil`.

use vstd::prelude::*;

use crate::cmd;

verus! {

/// Which side of its column a cell sits against.
#[derive(Clone, Copy, Debug, PartialEq, Eq)]
pub enum Side {
    Left,
    Right,
}

/// One cell. One with no text, or with none in it, is written as `-`.
#[derive(Debug)]
pub struct Cell {
    pub text: Option<String>,
    pub side: Side,
}

/// One column: what it is called, and a width it will not shrink below.
#[derive(Debug)]
pub struct Heading {
    pub label: String,
    pub min_width: usize,
}

/// Whether the column names go above the rows.
#[derive(Clone, Copy, Debug, PartialEq, Eq)]
pub enum Header {
    Show,
    Hide,
}

impl View for Cell {
    type V = (Option<Seq<char>>, bool);

    /// What it reads, and whether it sits against the right.
    open spec fn view(&self) -> (Option<Seq<char>>, bool) {
        (cmd::maybe(self.text), self.side == Side::Right)
    }
}

impl View for Heading {
    type V = (Seq<char>, nat);

    open spec fn view(&self) -> (Seq<char>, nat) {
        (self.label@, self.min_width as nat)
    }
}

/// A row by what its cells read.
pub open spec fn row_text(row: Seq<Cell>) -> Seq<(Option<Seq<char>>, bool)> {
    row.map_values(|c: Cell| c@)
}

/// Rows by what their cells read.
pub open spec fn rows_text(rows: Seq<Vec<Cell>>) -> Seq<Seq<(Option<Seq<char>>, bool)>> {
    rows.map_values(|r: Vec<Cell>| row_text(r@))
}

/// Headings by what they read.
pub open spec fn headings_text(headings: Seq<Heading>) -> Seq<(Seq<char>, nat)> {
    headings.map_values(|h: Heading| h@)
}

impl Cell {
    /// A cell with no value.
    pub fn missing() -> (c: Cell)
        ensures
            c@ == (None::<Seq<char>>, false),
    {
        Cell { text: None, side: Side::Left }
    }

    /// A cell that reads `text`.
    pub fn of(text: String) -> (c: Cell)
        ensures
            c@ == (Some(text@), false),
    {
        Cell { text: Some(text), side: Side::Left }
    }

    /// A cell that reads `text`, if there is any to read.
    pub fn maybe(text: Option<String>) -> (c: Cell)
        ensures
            c@ == (cmd::maybe(text), false),
    {
        Cell { text, side: Side::Left }
    }

    /// The cell again.
    pub fn copy(&self) -> (c: Cell)
        ensures
            c@ == self@,
    {
        match &self.text {
            Some(text) => Cell { text: Some(text.clone()), side: self.side },
            None => Cell { text: None, side: self.side },
        }
    }
}

/// How wide a cell is: as many characters as it is written with.
pub open spec fn cell_width(cell: (Option<Seq<char>>, bool)) -> nat {
    match cell.0 {
        Some(text) => if text.len() == 0 {
            1
        } else {
            text.len()
        },
        None => 1,
    }
}

/// The cell that a row has in column `i`: a missing one past its end.
pub open spec fn cell_at(row: Seq<(Option<Seq<char>>, bool)>, i: int) -> (
    Option<Seq<char>>,
    bool,
) {
    if i < row.len() {
        row[i]
    } else {
        (None, false)
    }
}

/// The widest of the cells that `rows` have in column `i`, or `least` if that
/// is wider.
pub open spec fn widest(
    rows: Seq<Seq<(Option<Seq<char>>, bool)>>,
    i: int,
    least: nat,
) -> nat
    decreases rows.len(),
{
    if rows.len() == 0 {
        least
    } else {
        let rest = widest(rows.drop_last(), i, least);
        let width = cell_width(cell_at(rows.last(), i));
        if width > rest {
            width
        } else {
            rest
        }
    }
}

/// How wide a heading makes its column. The first has the two characters that
/// open the line in it too.
pub open spec fn heading_width(heading: (Seq<char>, nat), first: bool) -> nat {
    let label = heading.0.len() + if first {
        2nat
    } else {
        0
    };
    if heading.1 > label {
        heading.1
    } else {
        label
    }
}

/// How wide each column has to be for its heading and for every one of `rows`.
/// The last column has the heading `last`.
pub open spec fn fitted(
    headings: Seq<(Seq<char>, nat)>,
    last: Seq<char>,
    rows: Seq<Seq<(Option<Seq<char>>, bool)>>,
) -> Seq<nat> {
    let all = headings.push((last, 0));
    Seq::new(all.len(), |i: int| widest(rows, i, heading_width(all[i], i == 0)))
}

/// How wide each column comes out when it starts from `floor`, or from its
/// heading where `floor` is for another number of columns, and is widened until
/// every one of `rows` fits.
pub open spec fn settled(
    headings: Seq<(Seq<char>, nat)>,
    last: Seq<char>,
    rows: Seq<Seq<(Option<Seq<char>>, bool)>>,
    floor: Seq<nat>,
) -> Seq<nat> {
    if floor.len() == headings.len() + 1 {
        Seq::new(floor.len(), |i: int| widest(rows, i, floor[i]))
    } else {
        fitted(headings, last, rows)
    }
}

/// Whether no heading asks for a width that could not be written.
pub open spec fn modest(headings: Seq<Heading>) -> bool {
    forall|i: int| 0 <= i < headings.len() ==> (#[trigger] headings[i]).min_width <= 0xffff
}

/// Whether `widths` are none at all, or what some rows and headings that can be
/// written call for.
pub open spec fn measured(widths: Seq<nat>) -> bool {
    ||| widths.len() == 0
    ||| exists|headings: Seq<Heading>, last: Seq<char>, rows: Seq<Vec<Cell>>|
        modest(headings) && widths == #[trigger] fitted(
            headings_text(headings),
            last,
            rows_text(rows),
        )
}

/// `toil::Widths`: how wide each column of a table is written.
#[verifier::external_type_specification]
#[verifier::external_body]
pub struct ExWidths(toil::Widths);

/// The widths that a `toil::Widths` holds, in column order.
pub uninterp spec fn widths_of(widths: toil::Widths) -> Seq<nat>;

/// The text that `toil::Table::render_with` lays a table out as: the columns
/// `headings` and a last, ragged one called `last`, in the default style, with
/// these rows, the header if `headed`, and every column at least as wide as
/// `floor` has it.
pub uninterp spec fn rendered(
    headings: Seq<(Seq<char>, nat)>,
    last: Seq<char>,
    rows: Seq<Seq<(Option<Seq<char>>, bool)>>,
    headed: bool,
    floor: Seq<nat>,
) -> Seq<char>;

/// The widths that blocks are padded to at least. Every one of them was called
/// for by a row, a label or a minimum that can be written.
pub struct Floor {
    widths: toil::Widths,
}

impl View for Floor {
    type V = Seq<nat>;

    closed spec fn view(&self) -> Seq<nat> {
        widths_of(self.widths)
    }
}

impl Floor {
    #[verifier::type_invariant]
    spec fn well_formed(&self) -> bool {
        measured(self@)
    }

    /// No widths at all.
    pub fn none() -> (r: Floor)
        ensures
            r@ == Seq::<nat>::empty(),
    {
        Floor { widths: no_widths() }
    }

    /// The widths that these rows and headings call for.
    pub fn of(headings: &[Heading], last: &str, rows: &[Vec<Cell>]) -> (r: Floor)
        requires
            modest(headings@),
        ensures
            r@ == fitted(headings_text(headings@), last@, rows_text(rows@)),
    {
        Floor { widths: measure(headings, last, rows) }
    }

    /// `rows` laid out under `headings` and a last one called `last`, padded to
    /// at least these widths.
    pub fn lay_out(
        &self,
        headings: &[Heading],
        last: &str,
        rows: &[Vec<Cell>],
        header: Header,
    ) -> (s: String)
        requires
            modest(headings@),
        ensures
            s@ == rendered(
                headings_text(headings@),
                last@,
                rows_text(rows@),
                header == Header::Show,
                self@,
            ),
            s@ == rendered(
                headings_text(headings@),
                last@,
                rows_text(rows@),
                header == Header::Show,
                settled(headings_text(headings@), last@, rows_text(rows@), self@),
            ),
    {
        proof {
            use_type_invariant(self);
        }
        render(headings, last, rows, header, &self.widths)
    }
}

/// `toil::Widths::default`: no widths at all.
#[verifier::external_body]
fn no_widths() -> (w: toil::Widths)
    ensures
        widths_of(w) == Seq::<nat>::empty(),
{
    toil::Widths::default()
}

/// `toil::Schema::measure`: each column comes out as wide as its minimum, its
/// label and its widest cell call for, counted in characters, with two more
/// for the label of the first and a missing or empty cell counted as one. A row
/// with too few cells is missing the rest, and one with too many is cut. The
/// columns are `headings` and a last, ragged one called `last`, in the default
/// style.
#[verifier::external_body]
fn measure(headings: &[Heading], last: &str, rows: &[Vec<Cell>]) -> (w: toil::Widths)
    ensures
        widths_of(w) == fitted(headings_text(headings@), last@, rows_text(rows@)),
{
    let columns = headings.iter().map(|h| toil::Column::new(&h.label).min_width(h.min_width));
    let schema = toil::Schema::new(columns.chain([toil::Column::new(last).ragged()]));
    let rows: Vec<toil::Row> =
        rows.iter().map(|r| schema.row(r.iter().map(|c| c.text.as_ref()))).collect();
    schema.measure(&rows)
}

/// `toil::Table::render_with`: the text is a function of the columns, the rows
/// with the side each cell sits against, whether there is a header, and the
/// widths to start from. Those are a floor and not a ceiling, and ones for
/// another number of columns are ignored, so starting from the widths that the
/// columns settle at gives the same text. The columns are `headings` and a last,
/// ragged one called `last`, in the default style. Padding to a width near the
/// largest length a `String` may have would panic, so a minimum width is bounded
/// and the floor is one that was measured, which is no wider than such a minimum
/// or a text that was held.
#[verifier::external_body]
fn render(
    headings: &[Heading],
    last: &str,
    rows: &[Vec<Cell>],
    header: Header,
    floor: &toil::Widths,
) -> (s: String)
    requires
        modest(headings@),
        measured(widths_of(*floor)),
    ensures
        s@ == rendered(
            headings_text(headings@),
            last@,
            rows_text(rows@),
            header == Header::Show,
            widths_of(*floor),
        ),
        s@ == rendered(
            headings_text(headings@),
            last@,
            rows_text(rows@),
            header == Header::Show,
            settled(
                headings_text(headings@),
                last@,
                rows_text(rows@),
                widths_of(*floor),
            ),
        ),
{
    let columns = headings.iter().map(|h| toil::Column::new(&h.label).min_width(h.min_width));
    let schema = toil::Schema::new(columns.chain([toil::Column::new(last).ragged()]));
    let mut table = toil::Table::new(schema);
    for row in rows {
        table.row(row.iter().map(|c| toil::Cell::from(c.text.as_ref()).align(match c.side {
            Side::Left => toil::Align::Left,
            Side::Right => toil::Align::Right,
        })));
    }
    table.render_with(floor, match header {
        Header::Show => toil::Header::Show,
        Header::Hide => toil::Header::Hide,
    })
}

} // verus!
