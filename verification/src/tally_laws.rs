//! What holds of every count of a running batch: what each outcome adds and what is reported of it.
use vstd::prelude::*;

use crate::batch::RenderModel;
use crate::paths::joined;
use crate::progress::{
    after, after_all, event_of, events_of, fresh, label_of, unprepared, OutcomeModel,
    ProgressModel, TallyModel,
};
use crate::report::{skipped_of, ErrorModel, ResultModel};
use crate::text_laws::{is_plain_name, lemma_file_name_is_last};

verus! {

/// A file is called by its name in reports, whatever folder it is in.
pub proof fn lemma_labels_are_names(dir: Seq<char>, name: Seq<char>)
    requires
        is_plain_name(name),
    ensures
        label_of(joined(dir, name)) == name,
        label_of(dir + seq!['/'] + name) == name,
        label_of(name) == name,
        label_of(Seq::empty()).len() == 0,
{
    lemma_file_name_is_last(dir, name);
    lemma_file_name_is_last(Seq::empty(), name);
    crate::text_laws::lemma_components_parted(Seq::empty(), Seq::empty());
}

/// A file that was written counts as one more that is done and one more that is right, and is
/// reported so.
pub proof fn lemma_written_counts(tally: TallyModel, path: Seq<char>)
    ensures
        after(tally, OutcomeModel::Written { path }) == (TallyModel {
            total: tally.total,
            current: tally.current + 1,
            ok: tally.ok + 1,
            errors: tally.errors,
        }),
        event_of(tally, OutcomeModel::Written { path }) == (ProgressModel {
            current: tally.current + 1,
            total: tally.total,
            file: label_of(path),
            ok: true,
            error: None,
        }),
{
}

/// A file that could not be written counts as one more that is done, adds an error under its name,
/// and is reported with it.
pub proof fn lemma_not_written_counts(tally: TallyModel, path: Seq<char>, error: Seq<char>)
    ensures
        after(tally, OutcomeModel::NotWritten { path, error }) == (TallyModel {
            total: tally.total,
            current: tally.current + 1,
            ok: tally.ok,
            errors: tally.errors.push(ErrorModel { file: label_of(path), error }),
        }),
        event_of(tally, OutcomeModel::NotWritten { path, error }) == (ProgressModel {
            current: tally.current + 1,
            total: tally.total,
            file: label_of(path),
            ok: false,
            error: Some(error),
        }),
{
}

/// A file whose image could not be prepared counts as one more that is done, adds an error under
/// the names of the image and the file, and is reported under its own name.
pub proof fn lemma_not_prepared_counts(
    tally: TallyModel,
    image: Seq<char>,
    path: Seq<char>,
    error: Seq<char>,
)
    ensures
        after(tally, OutcomeModel::NotPrepared { image, path, error }) == (TallyModel {
            total: tally.total,
            current: tally.current + 1,
            ok: tally.ok,
            errors: tally.errors.push(
                ErrorModel { file: label_of(image) + " → "@ + label_of(path), error },
            ),
        }),
        event_of(tally, OutcomeModel::NotPrepared { image, path, error }) == (ProgressModel {
            current: tally.current + 1,
            total: tally.total,
            file: label_of(path),
            ok: false,
            error: Some(error),
        }),
{
}

/// Outcomes count one after another, and each is reported as it counts, on top of those before it:
/// what is reported of the first is not changed by the rest.
pub proof fn lemma_outcomes_count_in_order(
    tally: TallyModel,
    outcomes: Seq<OutcomeModel>,
    next: OutcomeModel,
)
    ensures
        after_all(tally, Seq::empty()) == tally,
        after_all(tally, outcomes.push(next)) == after(after_all(tally, outcomes), next),
        events_of(tally, Seq::empty()).len() == 0,
        events_of(tally, outcomes.push(next)) == events_of(tally, outcomes).push(
            event_of(after_all(tally, outcomes), next),
        ),
{
    let all = outcomes.push(next);
    assert(all.drop_last() =~= outcomes);
    assert forall|k: int| 0 <= k <= outcomes.len() implies #[trigger] all.take(k) == outcomes.take(
        k,
    ) by {
        assert(all.take(k) =~= outcomes.take(k));
    }
    assert(outcomes.take(outcomes.len() as int) =~= outcomes);
    assert(events_of(tally, all) =~= events_of(tally, outcomes).push(
        event_of(after_all(tally, outcomes), next),
    ));
}

/// Every report says how many files are done, the one it is of among them, and how many there are.
pub proof fn lemma_reports_number_files(tally: TallyModel, outcomes: Seq<OutcomeModel>, k: int)
    requires
        0 <= k < outcomes.len(),
    ensures
        events_of(tally, outcomes).len() == outcomes.len(),
        events_of(tally, outcomes)[k].current == tally.current + k + 1,
        events_of(tally, outcomes)[k].total == tally.total,
        after_all(tally, outcomes).current == tally.current + outcomes.len(),
        after_all(tally, outcomes).total == tally.total,
{
    lemma_counted_on_top(tally, outcomes.take(k));
    lemma_counted_on_top(tally, outcomes);
}

proof fn lemma_counted_on_top(tally: TallyModel, outcomes: Seq<OutcomeModel>)
    ensures
        after_all(tally, outcomes).current == tally.current + outcomes.len(),
        after_all(tally, outcomes).total == tally.total,
    decreases outcomes.len(),
{
    if outcomes.len() > 0 {
        lemma_counted_on_top(tally, outcomes.drop_last());
    }
}

/// Where an image could not be prepared, each output of each of its renders fails for that reason,
/// in their order.
pub proof fn lemma_unprepared_outputs_fail(
    image: Seq<char>,
    renders: Seq<RenderModel>,
    render: RenderModel,
    error: Seq<char>,
    o: int,
)
    ensures
        unprepared(image, Seq::empty(), error).len() == 0,
        ({
            let before = unprepared(image, renders, error);
            let all = unprepared(image, renders.push(render), error);
            &&& all.len() == before.len() + render.outputs.len()
            &&& forall|k: int| 0 <= k < before.len() ==> #[trigger] all[k] == before[k]
            &&& 0 <= o < render.outputs.len() ==> all[before.len() + o]
                == (OutcomeModel::NotPrepared { image, path: render.outputs[o].path, error })
        }),
{
    assert(renders.push(render).drop_last() =~= renders);
}

/// A count begins with nothing done; a batch that is skipped has written nothing and says why.
pub proof fn lemma_nothing_counted(total: nat, root: Seq<char>, no_image: bool, no_rows: bool)
    ensures
        fresh(total) == (TallyModel { total, current: 0, ok: 0, errors: Seq::empty() }),
        skipped_of(root, no_image, no_rows) == (ResultModel {
            total: 0,
            ok: 0,
            errors: Seq::empty(),
            skipped_no_image: no_image,
            skipped_no_rows: no_rows,
            output_root: root,
        }),
{
}

} // verus!
