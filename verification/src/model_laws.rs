//! What the models of values say: every field, as it is.
use vstd::prelude::*;

use crate::batch::{Batch, BatchModel, Job, Output, Plan, Render};
use crate::canvas::{Encoded, EncodedModel};
use crate::imaging::decode_outcome;
use crate::listing::{Found, FsNode, ImageInfo};
use crate::pipeline::{entries, Collection, Workspace};
use crate::progress::{Progress, Tally};
use crate::raster::{Canvas, Overlay, Raster};
use crate::report::{ProcessError, ProcessResult};
use crate::spreadsheet::{Cell, CellModel, LangColumn, MessageRow, SheetData};
use crate::text::{bytes_outcome, outcome};
use crate::workbook::{grid_outcome, grid_rows, Workbook};
use crate::wrapping::PlacedLine;

verus! {

/// Whether the elements of `models` are the models of those of `values`, one for one.
pub open spec fn model_each<T: DeepView>(values: Seq<T>, models: Seq<T::V>) -> bool {
    &&& values.len() == models.len()
    &&& forall|i: int| 0 <= i < values.len() ==> #[trigger] models[i] == values[i].deep_view()
}

/// The model of a cell holds what the cell holds.
pub proof fn lemma_cell_model(cell: Cell)
    ensures
        match cell {
            Cell::Text(s) => cell.deep_view() == CellModel::Text(s@),
            Cell::Float { bits, shown } => cell.deep_view() == (CellModel::Float {
                bits,
                shown: shown@,
            }),
            Cell::Int(i) => cell.deep_view() == CellModel::Int(i),
            Cell::Bool(b) => cell.deep_view() == CellModel::Bool(b),
            Cell::DateTime(s) => cell.deep_view() == CellModel::DateTime(s@),
            Cell::DateTimeIso(s) => cell.deep_view() == CellModel::DateTimeIso(s@),
            Cell::DurationIso(s) => cell.deep_view() == CellModel::DurationIso(s@),
            Cell::Error(s) => cell.deep_view() == CellModel::Error(s@),
            Cell::Empty => cell.deep_view() == CellModel::Empty,
        },
{
}

/// The models of a sheet and of its columns and messages hold what those hold.
pub proof fn lemma_sheet_model(data: SheetData, column: LangColumn, message: MessageRow)
    ensures
        model_each(data.columns@, data.deep_view().columns),
        model_each(data.messages@, data.deep_view().messages),
        column.deep_view().language == column.language@,
        column.deep_view().collection == column.collection@,
        column.deep_view().column == column.column,
        message.deep_view().id == message.id@,
        model_each(message.cells@, message.deep_view().cells),
{
}

/// The models of found images and of what is said of them hold what those hold.
pub proof fn lemma_image_model(found: Found, image: ImageInfo)
    ensures
        found.deep_view().rel == found.rel@,
        found.deep_view().raw == found.raw@,
        found.deep_view().exact == found.exact,
        image.deep_view().path == image.path@,
        image.deep_view().rel == image.rel@,
        image.deep_view().subfolder == image.subfolder@,
        image.deep_view().stem == image.stem@,
        image.deep_view().ext == image.ext@,
{
}

/// The models of a workspace and of its collections hold what those hold.
pub proof fn lemma_workspace_model(ws: Workspace, collection: Collection)
    ensures
        model_each(ws.columns@, ws.deep_view().columns),
        model_each(ws.messages@, ws.deep_view().messages),
        model_each(ws.collections@, ws.deep_view().collections),
        ws.deep_view().output_root == ws.output_root@,
        model_each(ws.warnings@, ws.deep_view().warnings),
        collection.deep_view().name == collection.name@,
        collection.deep_view().folder == collection.folder@,
        model_each(collection.images@, collection.deep_view().images),
{
}

/// The models of a plan and of what it comes to hold what those hold.
pub proof fn lemma_plan_model(plan: Plan, job: Job, render: Render, output: Output)
    ensures
        plan.deep_view().default_template == plan.default_template,
        plan.deep_view().templates_by_image == plan.templates_by_image@,
        plan.deep_view().only_selected == plan.only_selected,
        model_each(plan.selected@, plan.deep_view().selected),
        model_each(plan.formats@, plan.deep_view().formats),
        job.deep_view().image == job.image@,
        job.deep_view().spec == job.spec,
        model_each(job.renders@, job.deep_view().renders),
        render.deep_view().text == render.text@,
        model_each(render.outputs@, render.deep_view().outputs),
        output.deep_view().format == output.format,
        output.deep_view().path == output.path@,
{
}

/// The model of a batch holds what the batch holds.
pub proof fn lemma_batch_model(batch: Batch)
    ensures
        match batch {
            Batch::Skip(result) => batch.deep_view() == BatchModel::Skip(result.deep_view()),
            Batch::Run { jobs, out_dirs, total } => batch.deep_view() matches BatchModel::Run {
                jobs: j,
                out_dirs: d,
                total: t,
            } && model_each(jobs@, j) && model_each(out_dirs@, d) && t == total,
        },
{
}

/// The models of counts and reports hold what those hold.
pub proof fn lemma_report_model(
    tally: Tally,
    event: Progress,
    result: ProcessResult,
    error: ProcessError,
)
    ensures
        tally.deep_view().total == tally.total,
        tally.deep_view().current == tally.current,
        tally.deep_view().ok == tally.ok,
        model_each(tally.errors@, tally.deep_view().errors),
        tally.wf() <==> tally.ok + tally.errors@.len() == tally.current && tally.current
            <= tally.total,
        event.deep_view().current == event.current,
        event.deep_view().total == event.total,
        event.deep_view().file == event.file@,
        event.deep_view().ok == event.ok,
        event.error is Some ==> event.deep_view().error == Some(event.error->Some_0@),
        event.error is None ==> event.deep_view().error is None,
        result.deep_view().total == result.total,
        result.deep_view().ok == result.ok,
        model_each(result.errors@, result.deep_view().errors),
        result.deep_view().skipped_no_image == result.skipped_no_image,
        result.deep_view().skipped_no_rows == result.skipped_no_rows,
        result.deep_view().output_root == result.output_root@,
        error.deep_view().file == error.file@,
        error.deep_view().error == error.error@,
{
}

/// The models of placed rows and of what is to be written hold what those hold.
pub proof fn lemma_output_model(row: PlacedLine, encoded: Encoded)
    ensures
        row.deep_view().y == row.y,
        row.deep_view().text == row.text@,
        match encoded {
            Encoded::Png(bytes) => encoded.deep_view() == EncodedModel::Png(bytes@),
            Encoded::Jpeg { picture, quality } => encoded.deep_view() == (EncodedModel::Jpeg {
                picture: picture@,
                quality: quality as int,
            }),
        },
{
}

/// The model of an open workbook holds the names of its sheets and the rows of the grid, or why
/// there is none.
pub proof fn lemma_workbook_model(book: Workbook)
    ensures
        model_each(book.names@, book.deep_view().names),
        book.sheet matches Ok(grid) ==> book.deep_view().sheet == Ok::<
            Seq<Seq<CellModel>>,
            Seq<char>,
        >(grid_rows(grid)),
        book.sheet matches Err(e) ==> book.deep_view().sheet == Err::<
            Seq<Seq<CellModel>>,
            Seq<char>,
        >(e@),
        book.deep_view().sheet == grid_outcome(book.sheet),
{
}

/// The model of an answer is an answer of the same kind, with the model of what it holds.
pub proof fn lemma_answer_models<T: DeepView>(
    r: Result<T, String>,
    bytes: Result<Vec<u8>, String>,
    canvas: Result<Canvas, String>,
    listing: Option<Vec<FsNode>>,
)
    ensures
        r matches Ok(v) ==> outcome(r) == Ok::<T::V, Seq<char>>(v.deep_view()),
        r matches Err(e) ==> outcome(r) == Err::<T::V, Seq<char>>(e@),
        bytes matches Ok(v) ==> bytes_outcome(bytes) == Ok::<Seq<u8>, Seq<char>>(v@),
        bytes matches Err(e) ==> bytes_outcome(bytes) == Err::<Seq<u8>, Seq<char>>(e@),
        canvas matches Ok(v) ==> decode_outcome(canvas) == Ok::<Raster, Seq<char>>(v@),
        canvas matches Err(e) ==> decode_outcome(canvas) == Err::<Raster, Seq<char>>(e@),
        listing matches Some(v) ==> entries(listing) == Some(v@),
        listing is None ==> entries(listing) is None,
{
}

/// A picture is modelled with its size and its samples as they are stored, and is well formed
/// exactly where there are as many samples as the size asks for.
pub proof fn lemma_picture_model(canvas: Canvas, overlay: Overlay)
    ensures
        canvas@ == (Raster {
            width: canvas.width as nat,
            height: canvas.height as nat,
            depth: 3,
            samples: canvas.pixels@,
        }),
        overlay@ == (Raster {
            width: overlay.width as nat,
            height: overlay.height as nat,
            depth: 4,
            samples: overlay.pixels@,
        }),
        canvas.wf() <==> canvas.pixels@.len() == canvas.width * canvas.height * 3,
        overlay.wf() <==> overlay.pixels@.len() == overlay.width * overlay.height * 4,
{
}

} // verus!
