//! What a batch reports while it runs and when it is done.
use vstd::prelude::*;

verus! {

/// A file that could not be written, in mathematical terms.
pub struct ErrorModel {
    pub file: Seq<char>,
    pub error: Seq<char>,
}

/// A file that could not be written.
pub struct ProcessError {
    pub file: String,
    pub error: String,
}

impl DeepView for ProcessError {
    type V = ErrorModel;

    open spec fn deep_view(&self) -> ErrorModel {
        ErrorModel { file: self.file@, error: self.error@ }
    }
}

/// The result of a batch, in mathematical terms.
pub struct ResultModel {
    pub total: nat,
    pub ok: nat,
    pub errors: Seq<ErrorModel>,
    pub skipped_no_image: bool,
    pub skipped_no_rows: bool,
    pub output_root: Seq<char>,
}

/// The result of a batch.
pub struct ProcessResult {
    pub total: usize,
    pub ok: usize,
    pub errors: Vec<ProcessError>,
    pub skipped_no_image: bool,
    pub skipped_no_rows: bool,
    pub output_root: String,
}

impl DeepView for ProcessResult {
    type V = ResultModel;

    open spec fn deep_view(&self) -> ResultModel {
        ResultModel {
            total: self.total as nat,
            ok: self.ok as nat,
            errors: self.errors.deep_view(),
            skipped_no_image: self.skipped_no_image,
            skipped_no_rows: self.skipped_no_rows,
            output_root: self.output_root@,
        }
    }
}

/// The result of a batch with nothing to render.
pub open spec fn skipped_of(output_root: Seq<char>, no_image: bool, no_rows: bool) -> ResultModel {
    ResultModel {
        total: 0,
        ok: 0,
        errors: Seq::empty(),
        skipped_no_image: no_image,
        skipped_no_rows: no_rows,
        output_root,
    }
}

/// The result of a batch with nothing to render.
pub fn skipped(output_root: String, no_image: bool, no_rows: bool) -> (result: ProcessResult)
    ensures
        result.deep_view() == skipped_of(output_root@, no_image, no_rows),
{
    let errors: Vec<ProcessError> = Vec::new();
    assert(errors.deep_view() =~= Seq::empty());
    ProcessResult {
        total: 0,
        ok: 0,
        errors,
        skipped_no_image: no_image,
        skipped_no_rows: no_rows,
        output_root,
    }
}

} // verus!
