//! What a workbook file gives: the names of its sheets, and the cell grid of the one that matters,
//! which the `calamine` crate holds.
use calamine::{Data, Range};
use vstd::prelude::*;

use crate::spreadsheet::{Cell, CellModel};

verus! {

/// The cell grid of `calamine`, opaque.
#[verifier::external_type_specification]
#[verifier::external_body]
#[verifier::reject_recursive_types(T)]
pub struct ExRange<T>(calamine::Range<T>);

/// The cell of `calamine`, opaque.
#[verifier::external_type_specification]
#[verifier::external_body]
pub struct ExData(calamine::Data);

/// The cells of a grid, row by row.
pub uninterp spec fn grid_rows(grid: Range<Data>) -> Seq<Seq<CellModel>>;

/// `calamine::Range::rows`: the rows of a grid from the top, the value of each cell taken over
/// field by field.
#[verifier::external_body]
pub(crate) fn take_rows(grid: &Range<Data>) -> (rows: Vec<Vec<Cell>>)
    ensures
        rows.deep_view() == grid_rows(*grid),
{
    let taken = grid.rows().map(|row| row.iter().map(|cell| match cell {
        Data::String(s) => Cell::Text(s.clone()),
        Data::Float(f) => Cell::Float { bits: f.to_bits(), shown: f.to_string() },
        Data::Int(i) => Cell::Int(*i),
        Data::Bool(b) => Cell::Bool(*b),
        Data::DateTime(d) => Cell::DateTime(d.to_string()),
        Data::DateTimeIso(s) => Cell::DateTimeIso(s.clone()),
        Data::DurationIso(s) => Cell::DurationIso(s.clone()),
        Data::Error(e) => Cell::Error(format!("{e:?}")),
        Data::Empty => Cell::Empty,
    }).collect());
    taken.collect()
}

/// What an open workbook gives, in mathematical terms.
pub struct BookModel {
    pub names: Seq<Seq<char>>,
    pub sheet: Result<Seq<Seq<CellModel>>, Seq<char>>,
}

/// What an open workbook gives.
pub struct Workbook {
    /// The names of its sheets, in order.
    pub names: Vec<String>,
    /// The grid of the sheet that [`crate::spreadsheet::find_batch_sheet`] finds among them, or why
    /// it cannot be read.
    pub sheet: Result<Range<Data>, String>,
}

/// The rows of a sheet, or why it cannot be read.
pub open spec fn grid_outcome(sheet: Result<Range<Data>, String>) -> Result<
    Seq<Seq<CellModel>>,
    Seq<char>,
> {
    match sheet {
        Ok(grid) => Ok(grid_rows(grid)),
        Err(e) => Err(e@),
    }
}

impl DeepView for Workbook {
    type V = BookModel;

    open spec fn deep_view(&self) -> BookModel {
        BookModel { names: self.names.deep_view(), sheet: grid_outcome(self.sheet) }
    }
}

} // verus!
