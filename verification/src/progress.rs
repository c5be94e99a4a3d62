//! What a running batch counts, file by file, and reports of each.
use vstd::prelude::*;

use crate::batch::{
    lemma_outputs_of_renders_grow, outputs_of_renders, Job, JobModel, OutputModel, RenderModel,
};
use crate::paths::{file_name, file_name_of};
use crate::report::{ErrorModel, ProcessError, ProcessResult, ResultModel};

verus! {

/// What is reported when a file is done, in mathematical terms.
pub struct ProgressModel {
    pub current: nat,
    pub total: nat,
    pub file: Seq<char>,
    pub ok: bool,
    pub error: Option<Seq<char>>,
}

/// What is reported when a file is done.
pub struct Progress {
    /// How many files are done, this one among them.
    pub current: usize,
    pub total: usize,
    pub file: String,
    pub ok: bool,
    pub error: Option<String>,
}

impl DeepView for Progress {
    type V = ProgressModel;

    open spec fn deep_view(&self) -> ProgressModel {
        ProgressModel {
            current: self.current as nat,
            total: self.total as nat,
            file: self.file@,
            ok: self.ok,
            error: self.error.deep_view(),
        }
    }
}

/// What became of one file.
pub enum OutcomeModel {
    /// It was written.
    Written { path: Seq<char> },
    /// It could not be encoded or written.
    NotWritten { path: Seq<char>, error: Seq<char> },
    /// The canvas of its image could not be prepared.
    NotPrepared { image: Seq<char>, path: Seq<char>, error: Seq<char> },
}

/// What a batch has counted so far, in mathematical terms.
#[verifier::ext_equal]
pub struct TallyModel {
    pub total: nat,
    pub current: nat,
    pub ok: nat,
    pub errors: Seq<ErrorModel>,
}

/// What a batch has counted so far.
pub struct Tally {
    /// How many files there are to write.
    pub total: usize,
    /// How many of them are done.
    pub current: usize,
    /// How many of those were written.
    pub ok: usize,
    /// The others.
    pub errors: Vec<ProcessError>,
}

impl DeepView for Tally {
    type V = TallyModel;

    open spec fn deep_view(&self) -> TallyModel {
        TallyModel {
            total: self.total as nat,
            current: self.current as nat,
            ok: self.ok as nat,
            errors: self.errors.deep_view(),
        }
    }
}

/// What a file is called in reports: the last component of its path.
pub open spec fn label_of(path: Seq<char>) -> Seq<char> {
    match file_name_of(path) {
        Some(name) => name,
        None => Seq::empty(),
    }
}

/// The error that an outcome adds.
pub open spec fn error_of(outcome: OutcomeModel) -> Option<ErrorModel> {
    match outcome {
        OutcomeModel::Written { path } => None,
        OutcomeModel::NotWritten { path, error } => Some(
            ErrorModel { file: label_of(path), error },
        ),
        OutcomeModel::NotPrepared { image, path, error } => Some(
            ErrorModel { file: label_of(image) + " → "@ + label_of(path), error },
        ),
    }
}

/// Nothing counted yet of `total` files.
pub open spec fn fresh(total: nat) -> TallyModel {
    TallyModel { total, current: 0, ok: 0, errors: Seq::empty() }
}

/// The tally after one more outcome.
pub open spec fn after(tally: TallyModel, outcome: OutcomeModel) -> TallyModel {
    match error_of(outcome) {
        None => TallyModel { current: tally.current + 1, ok: tally.ok + 1, ..tally },
        Some(e) => TallyModel {
            current: tally.current + 1,
            errors: tally.errors.push(e),
            ..tally
        },
    }
}

/// What is reported of one more outcome.
pub open spec fn event_of(tally: TallyModel, outcome: OutcomeModel) -> ProgressModel {
    let path = match outcome {
        OutcomeModel::Written { path } => path,
        OutcomeModel::NotWritten { path, error } => path,
        OutcomeModel::NotPrepared { image, path, error } => path,
    };
    ProgressModel {
        current: tally.current + 1,
        total: tally.total,
        file: label_of(path),
        ok: error_of(outcome) is None,
        error: match error_of(outcome) {
            Some(e) => Some(e.error),
            None => None,
        },
    }
}

/// The tally after outcomes.
pub open spec fn after_all(tally: TallyModel, outcomes: Seq<OutcomeModel>) -> TallyModel
    decreases outcomes.len(),
{
    if outcomes.len() == 0 {
        tally
    } else {
        after(after_all(tally, outcomes.drop_last()), outcomes.last())
    }
}

/// What is reported of outcomes.
pub open spec fn events_of(tally: TallyModel, outcomes: Seq<OutcomeModel>) -> Seq<ProgressModel> {
    Seq::new(
        outcomes.len(),
        |k: int| event_of(after_all(tally, outcomes.take(k)), outcomes[k]),
    )
}

/// What becomes of the outputs of renders on a canvas that could not be prepared.
pub open spec fn unprepared(
    image: Seq<char>,
    renders: Seq<RenderModel>,
    error: Seq<char>,
) -> Seq<OutcomeModel>
    decreases renders.len(),
{
    if renders.len() == 0 {
        Seq::empty()
    } else {
        unprepared(image, renders.drop_last(), error) + renders.last().outputs.map_values(
            |o: OutputModel| OutcomeModel::NotPrepared { image, path: o.path, error },
        )
    }
}

/// What a file is called in reports.
fn label(path: &str) -> (text: String)
    ensures
        text@ == label_of(path@),
{
    match file_name(path) {
        Some(name) => name,
        None => String::new(),
    }
}

proof fn lemma_events_push(tally: TallyModel, outcomes: Seq<OutcomeModel>, next: OutcomeModel)
    ensures
        after_all(tally, outcomes.push(next)) == after(after_all(tally, outcomes), next),
        events_of(tally, outcomes.push(next)) == events_of(tally, outcomes).push(
            event_of(after_all(tally, outcomes), next),
        ),
{
    let all = outcomes.push(next);
    assert(all.drop_last() =~= outcomes);
    assert forall|k: int| 0 <= k <= outcomes.len() implies #[trigger] all.take(k) == outcomes.take(
        k,
    ) by {
        assert(all.take(k) =~= outcomes.take(k));
    }
    assert(outcomes.take(outcomes.len() as int) =~= outcomes);
    assert(events_of(tally, all) =~= events_of(tally, outcomes).push(
        event_of(after_all(tally, outcomes), next),
    ));
}

impl Tally {
    /// Whether the counts agree: every file that is done was written or has an error.
    pub open spec fn wf(self) -> bool {
        self.ok + self.errors@.len() == self.current <= self.total
    }

    /// Nothing counted yet of `total` files.
    pub fn new(total: usize) -> (tally: Tally)
        ensures
            tally.deep_view() == fresh(total as nat),
            tally.wf(),
    {
        let tally = Tally { total, current: 0, ok: 0, errors: Vec::new() };
        assert(tally.errors.deep_view() =~= Seq::empty());
        tally
    }

    /// Counts a file that was written.
    pub fn written(&mut self, path: &str) -> (event: Progress)
        requires
            old(self).wf(),
            old(self).current < old(self).total,
        ensures
            final(self).wf(),
            final(self).deep_view() == after(
                old(self).deep_view(),
                OutcomeModel::Written { path: path@ },
            ),
            event.deep_view() == event_of(
                old(self).deep_view(),
                OutcomeModel::Written { path: path@ },
            ),
    {
        self.current = self.current + 1;
        self.ok = self.ok + 1;
        Progress {
            current: self.current,
            total: self.total,
            file: label(path),
            ok: true,
            error: None,
        }
    }

    /// Counts a file that could not be encoded or written.
    pub fn not_written(&mut self, path: &str, error: &str) -> (event: Progress)
        requires
            old(self).wf(),
            old(self).current < old(self).total,
        ensures
            final(self).wf(),
            final(self).deep_view() == after(
                old(self).deep_view(),
                OutcomeModel::NotWritten { path: path@, error: error@ },
            ),
            event.deep_view() == event_of(
                old(self).deep_view(),
                OutcomeModel::NotWritten { path: path@, error: error@ },
            ),
    {
        let file = label(path);
        self.failed(file.clone(), file, error)
    }

    /// Counts a file that failed, named `file` in the list of errors and `shown` in the report.
    fn failed(&mut self, file: String, shown: String, error: &str) -> (event: Progress)
        requires
            old(self).wf(),
            old(self).current < old(self).total,
        ensures
            final(self).wf(),
            final(self).deep_view() == (TallyModel {
                current: old(self).deep_view().current + 1,
                errors: old(self).deep_view().errors.push(
                    ErrorModel { file: file@, error: error@ },
                ),
                ..old(self).deep_view()
            }),
            event.deep_view() == (ProgressModel {
                current: old(self).deep_view().current + 1,
                total: old(self).deep_view().total,
                file: shown@,
                ok: false,
                error: Some(error@),
            }),
    {
        let ghost before = self.errors.deep_view();
        self.current = self.current + 1;
        let entry = ProcessError { file, error: error.to_string() };
        let ghost model = entry.deep_view();
        self.errors.push(entry);
        assert(self.errors.deep_view() =~= before.push(model));
        Progress {
            current: self.current,
            total: self.total,
            file: shown,
            ok: false,
            error: Some(error.to_string()),
        }
    }

    /// Counts every output of a job whose canvas could not be prepared: one error for each.
    pub fn not_prepared(&mut self, job: &Job, error: &str) -> (events: Vec<Progress>)
        requires
            old(self).wf(),
            old(self).current + outputs_of_renders(job.renders.deep_view()) <= old(self).total,
        ensures
            final(self).wf(),
            final(self).deep_view() == after_all(
                old(self).deep_view(),
                unprepared(job.image@, job.renders.deep_view(), error@),
            ),
            events.deep_view() == events_of(
                old(self).deep_view(),
                unprepared(job.image@, job.renders.deep_view(), error@),
            ),
    {
        let ghost start = self.deep_view();
        let ghost image = job.image@;
        let ghost renders = job.renders.deep_view();
        let ghost mut seen = Seq::<OutcomeModel>::empty();
        let image_label = label(job.image.as_str());
        let mut events: Vec<Progress> = Vec::new();
        let mut i: usize = 0;
        proof {
            assert(renders.take(0) =~= Seq::empty());
            assert(events.deep_view() =~= events_of(start, seen));
        }
        while i < job.renders.len()
            invariant
                i <= job.renders@.len(),
                image == job.image@,
                renders == job.renders.deep_view(),
                image_label@ == label_of(image),
                self.wf(),
                start.total == self.total,
                start.current + outputs_of_renders(renders) <= start.total,
                seen == unprepared(image, renders.take(i as int), error@),
                seen.len() == outputs_of_renders(renders.take(i as int)),
                self.current == start.current + seen.len(),
                self.deep_view() == after_all(start, seen),
                events.deep_view() == events_of(start, seen),
            decreases job.renders@.len() - i,
        {
            let render = &job.renders[i];
            let ghost done = seen;
            let ghost outputs = render.outputs.deep_view();
            let ghost f = |o: OutputModel| OutcomeModel::NotPrepared {
                image,
                path: o.path,
                error: error@,
            };
            let mut k: usize = 0;
            proof {
                assert(renders.take(i + 1).drop_last() =~= renders.take(i as int));
                assert(renders.take(i + 1).last() == render.deep_view());
                lemma_outputs_of_renders_grow(renders, i + 1);
                assert(done + outputs.take(0).map_values(f) =~= done);
            }
            while k < render.outputs.len()
                invariant
                    k <= render.outputs@.len(),
                    image == job.image@,
                    outputs == render.outputs.deep_view(),
                    f == (|o: OutputModel| OutcomeModel::NotPrepared {
                        image,
                        path: o.path,
                        error: error@,
                    }),
                    image_label@ == label_of(image),
                    self.wf(),
                    start.total == self.total,
                    start.current + done.len() + outputs.len() <= start.total,
                    seen == done + outputs.take(k as int).map_values(f),
                    self.current == start.current + seen.len(),
                    self.deep_view() == after_all(start, seen),
                    events.deep_view() == events_of(start, seen),
                decreases render.outputs@.len() - k,
            {
                let path = render.outputs[k].path.as_str();
                let ghost next = f(outputs[k as int]);
                let ghost known = events.deep_view();
                let shown = label(path);
                let file = image_label.clone().concat(" → ").concat(shown.as_str());
                assert(outputs[k as int].path == path@);
                let event = self.failed(file, shown, error);
                let ghost model = event.deep_view();
                events.push(event);
                proof {
                    lemma_events_push(start, seen, next);
                    assert(events.deep_view() =~= known.push(model));
                    assert(outputs.take(k + 1).map_values(f) =~= outputs.take(
                        k as int,
                    ).map_values(f).push(next));
                    assert(seen.push(next) =~= done + outputs.take(k + 1).map_values(f));
                    seen = seen.push(next);
                }
                k = k + 1;
            }
            assert(outputs.take(k as int) =~= outputs);
            i = i + 1;
        }
        assert(renders.take(i as int) =~= renders);
        events
    }

    /// The result of a batch that has been counted.
    pub fn finish(self, output_root: String) -> (result: ProcessResult)
        ensures
            result.deep_view() == (ResultModel {
                total: self.deep_view().total,
                ok: self.deep_view().ok,
                errors: self.deep_view().errors,
                skipped_no_image: false,
                skipped_no_rows: false,
                output_root: output_root@,
            }),
    {
        ProcessResult {
            total: self.total,
            ok: self.ok,
            errors: self.errors,
            skipped_no_image: false,
            skipped_no_rows: false,
            output_root,
        }
    }
}

/// A job whose canvas could not be prepared still accounts for each of its outputs, once.
pub proof fn lemma_failed_job_counts(job: JobModel, error: Seq<char>)
    ensures
        unprepared(job.image, job.renders, error).len() == outputs_of_renders(job.renders),
        forall|k: int|
            0 <= k < unprepared(job.image, job.renders, error).len() ==> error_of(
                #[trigger] unprepared(job.image, job.renders, error)[k],
            ) is Some,
    decreases job.renders.len(),
{
    if job.renders.len() > 0 {
        let rest = JobModel { renders: job.renders.drop_last(), ..job };
        lemma_failed_job_counts(rest, error);
        let before = unprepared(job.image, rest.renders, error);
        let all = unprepared(job.image, job.renders, error);
        assert forall|k: int| 0 <= k < all.len() implies error_of(#[trigger] all[k]) is Some by {
            if k < before.len() {
                assert(all[k] == before[k]);
            }
        }
    }
}

/// A batch that has reported every file once has counted all of them, each as written or with an
/// error, whatever the order of the reports; and the reports number the files from one on.
pub proof fn lemma_every_file_counts(total: nat, outcomes: Seq<OutcomeModel>)
    ensures
        ({
            let tally = after_all(fresh(total), outcomes);
            &&& tally.total == total
            &&& tally.current == outcomes.len()
            &&& tally.errors == outcomes.filter_map(|o: OutcomeModel| error_of(o))
            &&& tally.ok + tally.errors.len() == outcomes.len()
            &&& forall|k: int|
                0 <= k < outcomes.len() ==> (#[trigger] events_of(
                    fresh(total),
                    outcomes,
                )[k]).current == k + 1
        }),
    decreases outcomes.len(),
{
    let f = |o: OutcomeModel| error_of(o);
    if outcomes.len() > 0 {
        let n = outcomes.len() - 1;
        lemma_every_file_counts(total, outcomes.drop_last());
        outcomes.lemma_filter_map_take_succ(f, n);
        assert(outcomes.take(n) =~= outcomes.drop_last());
        assert(outcomes.take(n + 1) =~= outcomes);
        assert(after_all(fresh(total), outcomes).errors =~= outcomes.filter_map(f));
        assert forall|k: int| 0 <= k < outcomes.len() implies (#[trigger] events_of(
            fresh(total),
            outcomes,
        )[k]).current == k + 1 by {
            lemma_counted(total, outcomes.take(k));
        }
    } else {
        assert(outcomes =~= Seq::empty());
        reveal_with_fuel(Seq::filter_map, 1);
        assert(outcomes.filter_map(f) =~= Seq::empty());
    }
}

proof fn lemma_counted(total: nat, outcomes: Seq<OutcomeModel>)
    ensures
        after_all(fresh(total), outcomes).current == outcomes.len(),
    decreases outcomes.len(),
{
    if outcomes.len() > 0 {
        lemma_counted(total, outcomes.drop_last());
    }
}

} // verus!
