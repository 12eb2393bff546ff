//! The report laid out as a Markdown table with comfy_table: the first
//! column centred, the runner columns right-aligned, the header centred.

use crate::report::{is_report_of, totals_of, Report, MAX_TOTAL_NANOS};
use crate::results::ResultsFormatted;
use vstd::prelude::*;

verus! {

#[verifier::external_type_specification]
#[verifier::external_body]
pub struct ExTable(comfy_table::Table);

/// The texts of a table's header cells, empty while it has none.
pub uninterp spec fn table_header(t: comfy_table::Table) -> Seq<Seq<char>>;

/// The texts of the cells of each of a table's rows, in order.
pub uninterp spec fn table_rows(t: comfy_table::Table) -> Seq<Seq<Seq<char>>>;

/// The texts of a row of cells.
pub open spec fn cell_texts(cells: Seq<String>) -> Seq<Seq<char>> {
    cells.map_values(|c: String| c@)
}

/// Relies on comfy_table's Table::new: a table without header or rows.
#[verifier::external_body]
fn new_table() -> (t: comfy_table::Table)
    ensures
        table_header(t) == Seq::<Seq<char>>::empty(),
        table_rows(t) == Seq::<Seq<Seq<char>>>::empty(),
{
    comfy_table::Table::new()
}

/// Relies on comfy_table's Table::load_style: the Markdown style, which
/// changes no cell.
#[verifier::external_body]
fn use_markdown_style(t: &mut comfy_table::Table)
    ensures
        table_header(*final(t)) == table_header(*old(t)),
        table_rows(*final(t)) == table_rows(*old(t)),
{
    t.load_style(comfy_table::presets::ASCII_MARKDOWN);
}

/// Relies on comfy_table's Table::set_header, with each cell made by
/// Cell::new and centred by Cell::set_alignment: the header becomes these
/// cells; the rows stay.
#[verifier::external_body]
fn set_centred_header(t: &mut comfy_table::Table, cells: &Vec<String>)
    ensures
        table_header(*final(t)) == cell_texts(cells@),
        table_rows(*final(t)) == table_rows(*old(t)),
{
    t.set_header(
        cells
            .iter()
            .map(|c| comfy_table::Cell::new(c).set_alignment(comfy_table::CellAlignment::Center))
            .collect::<Vec<_>>(),
    );
}

/// Relies on comfy_table's Table::add_row: the row goes after the others.
#[verifier::external_body]
fn add_row(t: &mut comfy_table::Table, cells: &Vec<String>)
    ensures
        table_header(*final(t)) == table_header(*old(t)),
        table_rows(*final(t)) == table_rows(*old(t)).push(cell_texts(cells@)),
{
    t.add_row(cells.clone());
}

/// Relies on comfy_table's Table::column_count: how many columns the
/// table has, which changes no cell.
#[verifier::external_body]
fn column_count(t: &mut comfy_table::Table) -> (n: usize)
    ensures
        table_header(*final(t)) == table_header(*old(t)),
        table_rows(*final(t)) == table_rows(*old(t)),
{
    t.column_count()
}

/// Relies on comfy_table's Table::column_mut and Column::set_cell_alignment:
/// the column's cells are centred, which changes no cell's text.
#[verifier::external_body]
fn centre_column(t: &mut comfy_table::Table, index: usize)
    ensures
        table_header(*final(t)) == table_header(*old(t)),
        table_rows(*final(t)) == table_rows(*old(t)),
{
    if let Some(column) = t.column_mut(index) {
        column.set_cell_alignment(comfy_table::CellAlignment::Center);
    }
}

/// Relies on comfy_table's Table::column_mut and Column::set_cell_alignment:
/// the column's cells are right-aligned, which changes no cell's text.
#[verifier::external_body]
fn right_align_column(t: &mut comfy_table::Table, index: usize)
    ensures
        table_header(*final(t)) == table_header(*old(t)),
        table_rows(*final(t)) == table_rows(*old(t)),
{
    if let Some(column) = t.column_mut(index) {
        column.set_cell_alignment(comfy_table::CellAlignment::Right);
    }
}

impl Report {
    /// The report as a table: its header, then its rows.
    pub fn table(&self) -> (t: comfy_table::Table)
        ensures
            table_header(t) == cell_texts(self.header@),
            table_rows(t) == self.rows@.map_values(|r: Vec<String>| cell_texts(r@)),
    {
        let mut t = new_table();
        use_markdown_style(&mut t);
        set_centred_header(&mut t, &self.header);
        let mut i: usize = 0;
        while i < self.rows.len()
            invariant
                i <= self.rows.len(),
                table_header(t) == cell_texts(self.header@),
                table_rows(t) == self.rows@.subrange(0, i as int).map_values(|r: Vec<String>| cell_texts(r@)),
            decreases self.rows.len() - i,
        {
            add_row(&mut t, &self.rows[i]);
            assert(self.rows@.subrange(0, i + 1).map_values(|r: Vec<String>| cell_texts(r@))
                =~= self.rows@.subrange(0, i as int).map_values(|r: Vec<String>| cell_texts(r@)).push(cell_texts(self.rows[i as int]@)));
            i = i + 1;
        }
        assert(self.rows@.subrange(0, i as int) =~= self.rows@);
        let n = column_count(&mut t);
        let mut c: usize = 0;
        while c < n
            invariant
                table_header(t) == cell_texts(self.header@),
                table_rows(t) == self.rows@.map_values(|r: Vec<String>| cell_texts(r@)),
            decreases n - c,
        {
            if c == 0 {
                centre_column(&mut t, c);
            } else {
                right_align_column(&mut t, c);
            }
            c = c + 1;
        }
        t
    }
}

impl ResultsFormatted {
    /// The comparison table of this document; `None` when an aggregate time
    /// exceeds the longest duration there is.
    pub fn table(&self) -> (r: Option<comfy_table::Table>)
        ensures
            r is Some <==> forall|k: int| 0 <= k < self.runners.len() ==> #[trigger] totals_of(*self)[k] <= MAX_TOTAL_NANOS,
            r is Some ==> exists|rep: Report|
                {
                    &&& is_report_of(rep, *self)
                    &&& table_header(r->0) == cell_texts(rep.header@)
                    &&& table_rows(r->0) == rep.rows@.map_values(|row: Vec<String>| cell_texts(row@))
                },
    {
        match self.report() {
            Some(rep) => Some(rep.table()),
            None => None,
        }
    }
}

} // verus!
