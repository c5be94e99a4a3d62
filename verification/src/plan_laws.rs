//! What holds of every planned batch: which jobs it has, in which order, and what each writes.
use vstd::prelude::*;

use crate::batch::{
    active_formats_of, all_formats, batch_of, chosen_images, collection_named, dirs_of, has_images,
    has_text, image_count, images_of_column, is_chosen, is_preview_of, job_of, jobs_of,
    jobs_of_column, messages_with_text, output_dir, output_name, outputs_of_jobs,
    outputs_of_renders, previewed, render_of, renders_of, template_of, BatchModel, JobModel,
    OutputModel, PlanModel, PreviewResult, RenderModel,
};
use crate::compositor::Format;
use crate::listing::ImageModel;
use crate::order_laws::lemma_filter_picks;
use crate::paths::joined;
use crate::pipeline::{
    first_seen, lemma_first_seen, output_root_of, CollectionModel, WorkspaceModel,
};
use crate::report::ResultModel;
use crate::spreadsheet::{sanitized, LangColumnModel, MessageModel};

verus! {

/// What file names say of a format.
pub open spec fn suffix_text_of(format: Format) -> Seq<char> {
    match format {
        Format::Portrait916 => "9x16"@,
        Format::Square1x1 => "1x1"@,
    }
}

/// A format is known by its suffix, which says its aspect.
pub proof fn lemma_suffixes(format: Format)
    ensures
        format.suffix_text() == suffix_text_of(format),
{
}

/// Whether a plan that names formats so asks for that one: it does where it names its suffix, or
/// names none at all.
pub open spec fn asks_for(names: Seq<Seq<char>>, format: Format) -> bool {
    names.len() == 0 || names.contains(suffix_text_of(format))
}

/// A plan exports the formats that it asks for, the portrait one first, and no other, however often
/// or in which order it names them.
pub proof fn lemma_formats_asked_for(names: Seq<Seq<char>>)
    ensures
        active_formats_of(names) == (if asks_for(names, Format::Portrait916) {
            seq![Format::Portrait916]
        } else {
            Seq::empty()
        }) + (if asks_for(names, Format::Square1x1) {
            seq![Format::Square1x1]
        } else {
            Seq::empty()
        }),
{
    let p = |f: Format| names.contains(f.suffix_text());
    reveal_with_fuel(Seq::filter, 3);
    let a = seq![Format::Portrait916];
    assert(all_formats().drop_last() =~= a);
    assert(a.drop_last() =~= Seq::empty());
    assert(all_formats().last() == Format::Square1x1);
    assert(a.last() == Format::Portrait916);
    assert(active_formats_of(names) =~= (if asks_for(names, Format::Portrait916) {
        seq![Format::Portrait916]
    } else {
        Seq::empty()
    }) + (if asks_for(names, Format::Square1x1) {
        seq![Format::Square1x1]
    } else {
        Seq::empty()
    }));
}

/// The images of a column are those of the collection that it names, of two of that name the later;
/// there are none where no collection has that name.
pub proof fn lemma_column_shows_collection(ws: WorkspaceModel, i: int)
    ensures
        (forall|c: int|
            0 <= c < ws.collections.len() ==> #[trigger] ws.collections[c].name
                != ws.columns[i].collection) ==> images_of_column(ws, i).len() == 0,
        forall|c: int|
            0 <= c < ws.collections.len() && #[trigger] ws.collections[c].name
                == ws.columns[i].collection && (forall|d: int|
                c < d < ws.collections.len() ==> #[trigger] ws.collections[d].name
                    != ws.columns[i].collection) ==> images_of_column(ws, i)
                == ws.collections[c].images,
{
    let name = ws.columns[i].collection;
    if forall|c: int| 0 <= c < ws.collections.len() ==> #[trigger] ws.collections[c].name != name {
        lemma_no_collection(ws.collections, name);
    }
    assert forall|c: int|
        0 <= c < ws.collections.len() && #[trigger] ws.collections[c].name == name && (forall|
            d: int,
        |
            c < d < ws.collections.len() ==> #[trigger] ws.collections[d].name
                != name) implies images_of_column(ws, i) == ws.collections[c].images by {
        lemma_last_collection(ws.collections, name, c);
    }
}

proof fn lemma_no_collection(collections: Seq<CollectionModel>, name: Seq<char>)
    requires
        forall|c: int| 0 <= c < collections.len() ==> #[trigger] collections[c].name != name,
    ensures
        collection_named(collections, name) is None,
    decreases collections.len(),
{
    if collections.len() > 0 {
        let front = collections.drop_last();
        assert forall|c: int| 0 <= c < front.len() implies #[trigger] front[c].name != name by {
            assert(collections[c].name != name);
        }
        assert(collections[collections.len() - 1].name != name);
        lemma_no_collection(front, name);
    }
}

proof fn lemma_last_collection(collections: Seq<CollectionModel>, name: Seq<char>, c: int)
    requires
        0 <= c < collections.len(),
        collections[c].name == name,
        forall|d: int| c < d < collections.len() ==> #[trigger] collections[d].name != name,
    ensures
        collection_named(collections, name) == Some(collections[c]),
    decreases collections.len(),
{
    if c < collections.len() - 1 {
        let front = collections.drop_last();
        assert(collections[collections.len() - 1].name != name);
        assert forall|d: int| c < d < front.len() implies #[trigger] front[d].name != name by {
            assert(collections[d].name != name);
        }
        lemma_last_collection(front, name, c);
    }
}

/// Whether some message has a text in column `i`.
pub open spec fn has_texts(messages: Seq<MessageModel>, i: int) -> bool {
    exists|q: int| 0 <= q < messages.len() && #[trigger] says(messages[q], i)
}

/// Whether a message has a text in column `i`.
pub open spec fn says(message: MessageModel, i: int) -> bool {
    0 <= i < message.cells.len() && message.cells[i].len() > 0
}

/// Whether a plan renders the image at `path`: all images, or those that are selected.
pub open spec fn wants(plan: PlanModel, path: Seq<char>) -> bool {
    plan.only_selected ==> plan.selected.contains(path)
}

/// Folder of the outputs of an image in a language, below `root`: the folder of the language, and
/// in it the subfolder that the image came from.
pub open spec fn folder_for(
    root: Seq<char>,
    language: Seq<char>,
    subfolder: Seq<char>,
) -> Seq<char> {
    if subfolder.len() == 0 {
        joined(root, sanitized(language))
    } else {
        joined(joined(root, sanitized(language)), subfolder)
    }
}

/// Whether `renders` are what the messages at the places `at` say in column `i`, on one image, and
/// those are all messages with a text there, in their order; each is written once in every format
/// that is asked for, to a file that is named after the image, the message and the format.
pub open spec fn are_renders(
    messages: Seq<MessageModel>,
    i: int,
    image: ImageModel,
    dir: Seq<char>,
    formats: Seq<Seq<char>>,
    renders: Seq<RenderModel>,
    at: Seq<int>,
) -> bool {
    let wanted = (if asks_for(formats, Format::Portrait916) {
        seq![Format::Portrait916]
    } else {
        Seq::empty()
    }) + (if asks_for(formats, Format::Square1x1) {
        seq![Format::Square1x1]
    } else {
        Seq::empty()
    });
    &&& at.len() == renders.len()
    &&& forall|r: int| 0 <= r < at.len() ==> 0 <= #[trigger] at[r] < messages.len()
    &&& forall|r: int, s: int| 0 <= r < s < at.len() ==> #[trigger] at[r] < #[trigger] at[s]
    &&& forall|q: int|
        0 <= q < messages.len() ==> (#[trigger] says(messages[q], i) <==> at.contains(q))
    &&& forall|r: int|
        0 <= r < renders.len() ==> (#[trigger] renders[r]).text == messages[at[r]].cells[i]
    &&& forall|r: int|
        0 <= r < renders.len() ==> (#[trigger] renders[r]).outputs.len() == wanted.len()
    &&& forall|r: int, o: int|
        0 <= r < renders.len() && 0 <= o < wanted.len() ==> #[trigger] renders[r].outputs[o] == (
        OutputModel {
            format: wanted[o],
            path: joined(
                dir,
                image.stem + "_"@ + sanitized(messages[at[r]].id) + "_"@ + suffix_text_of(wanted[o])
                    + "."@ + image.ext,
            ),
        })
}

/// Whether `job` is the job of `image` in column `i`: for its file, with the template that is set
/// for that image, or the common one where none is, whatever else the plan says, and with a render
/// for each message that has a text.
pub open spec fn is_job_of(
    ws: WorkspaceModel,
    plan: PlanModel,
    root: Seq<char>,
    i: int,
    image: ImageModel,
    job: JobModel,
) -> bool {
    &&& job.image == image.path
    &&& plan.templates_by_image.dom().contains(image.path) ==> job.spec
        == plan.templates_by_image[image.path]
    &&& !plan.templates_by_image.dom().contains(image.path) ==> job.spec == plan.default_template
    &&& exists|at: Seq<int>| #[trigger]
        are_renders(
            ws.messages,
            i,
            image,
            folder_for(root, ws.columns[i].language, image.subfolder),
            plan.formats,
            job.renders,
            at,
        )
}

/// Whether `jobs` are those of the images at the places `at`, each a column and an image of it, and
/// those are all images of the first `n` columns that the plan wants and for which there is a text,
/// column by column and image by image.
pub open spec fn are_jobs(
    ws: WorkspaceModel,
    plan: PlanModel,
    root: Seq<char>,
    n: int,
    jobs: Seq<JobModel>,
    at: Seq<(int, int)>,
) -> bool {
    &&& at.len() == jobs.len()
    &&& forall|k: int|
        0 <= k < at.len() ==> 0 <= (#[trigger] at[k]).0 < n && 0 <= at[k].1 < images_of_column(
            ws,
            at[k].0,
        ).len()
    &&& forall|j: int, k: int|
        0 <= j < k < at.len() ==> (#[trigger] at[j]).0 < (#[trigger] at[k]).0 || (at[j].0
            == at[k].0 && at[j].1 < at[k].1)
    &&& forall|i: int, m: int|
        0 <= i < n && 0 <= m < images_of_column(ws, i).len() ==> (#[trigger] at.contains((i, m))
            <==> has_texts(ws.messages, i) && wants(plan, images_of_column(ws, i)[m].path))
    &&& forall|k: int|
        0 <= k < jobs.len() ==> is_job_of(
            ws,
            plan,
            root,
            at[k].0,
            images_of_column(ws, at[k].0)[at[k].1],
            #[trigger] jobs[k],
        )
}

proof fn lemma_renders(
    messages: Seq<MessageModel>,
    i: int,
    image: ImageModel,
    dir: Seq<char>,
    formats: Seq<Seq<char>>,
)
    ensures
        exists|at: Seq<int>| #[trigger]
            are_renders(
                messages,
                i,
                image,
                dir,
                formats,
                renders_of(messages, i, image, dir, active_formats_of(formats)),
                at,
            ),
        messages_with_text(messages, i).len() > 0 <==> has_texts(messages, i),
{
    let p = |m: MessageModel| has_text(m, i);
    let wanted = active_formats_of(formats);
    let kept = messages_with_text(messages, i);
    let renders = renders_of(messages, i, image, dir, wanted);
    let at = lemma_filter_picks(messages, p);
    lemma_formats_asked_for(formats);
    assert forall|q: int| 0 <= q < messages.len() implies (#[trigger] says(messages[q], i)
        <==> at.contains(q)) by {
        assert(p(messages[q]) <==> at.contains(q));
    }
    assert forall|r: int| 0 <= r < renders.len() implies #[trigger] renders[r] == render_of(
        messages[at[r]],
        i,
        image,
        dir,
        wanted,
    ) by {
        assert(kept[r] == messages[at[r]]);
    }
    assert forall|r: int, o: int|
        0 <= r < renders.len() && 0 <= o < wanted.len() implies #[trigger] renders[r].outputs[o]
        == (OutputModel {
        format: wanted[o],
        path: joined(
            dir,
            image.stem + "_"@ + sanitized(messages[at[r]].id) + "_"@ + suffix_text_of(wanted[o])
                + "."@ + image.ext,
        ),
    }) by {
        assert(renders[r] == render_of(messages[at[r]], i, image, dir, wanted));
        lemma_suffixes(wanted[o]);
    }
    assert(are_renders(messages, i, image, dir, formats, renders, at));
    if has_texts(messages, i) {
        let q = choose|q: int| 0 <= q < messages.len() && #[trigger] says(messages[q], i);
        assert(at.contains(q));
    }
    if kept.len() > 0 {
        assert(at.contains(at[0]));
        assert(says(messages[at[0]], i));
    }
}

proof fn lemma_column_jobs(
    ws: WorkspaceModel,
    plan: PlanModel,
    root: Seq<char>,
    i: int,
) -> (at: Seq<int>)
    ensures
        at.len() == jobs_of_column(ws, plan, root, i).len(),
        forall|k: int|
            0 <= k < at.len() ==> 0 <= #[trigger] at[k] < images_of_column(ws, i).len(),
        forall|j: int, k: int| 0 <= j < k < at.len() ==> #[trigger] at[j] < #[trigger] at[k],
        forall|m: int|
            0 <= m < images_of_column(ws, i).len() ==> (#[trigger] at.contains(m) <==> has_texts(
                ws.messages,
                i,
            ) && wants(plan, images_of_column(ws, i)[m].path)),
        forall|k: int|
            0 <= k < at.len() ==> is_job_of(
                ws,
                plan,
                root,
                i,
                images_of_column(ws, i)[at[k]],
                #[trigger] jobs_of_column(ws, plan, root, i)[k],
            ),
{
    let p = |image: ImageModel| is_chosen(plan, image);
    let f = |image: ImageModel| job_of(ws, plan, root, i, image);
    let full = |job: JobModel| job.renders.len() > 0;
    let images = images_of_column(ws, i);
    let chosen = chosen_images(ws, plan, i);
    let all = chosen.map_values(f);
    let jobs = jobs_of_column(ws, plan, root, i);
    let from = lemma_filter_picks(images, p);
    let kept = lemma_filter_picks(all, full);
    let at = kept.map_values(|k: int| from[k]);
    assert forall|k: int| 0 <= k < at.len() implies 0 <= #[trigger] at[k] < images.len()
        && jobs[k] == f(images[at[k]]) by {
        assert(0 <= kept[k] < all.len());
        assert(0 <= from[kept[k]] < images.len());
        assert(jobs[k] == all[kept[k]]);
        assert(chosen[kept[k]] == images[from[kept[k]]]);
    }
    assert forall|j: int, k: int| 0 <= j < k < at.len() implies #[trigger] at[j]
        < #[trigger] at[k] by {
        assert(kept[j] < kept[k]);
        assert(0 <= kept[j] && kept[k] < all.len());
        assert(from[kept[j]] < from[kept[k]]);
    }
    assert forall|m: int| 0 <= m < images.len() implies (#[trigger] at.contains(m) <==> has_texts(
        ws.messages,
        i,
    ) && wants(plan, images[m].path)) by {
        lemma_renders(
            ws.messages,
            i,
            images[m],
            output_dir(root, ws.columns[i], images[m]),
            plan.formats,
        );
        if at.contains(m) {
            let k = choose|k: int| 0 <= k < at.len() && at[k] == m;
            assert(0 <= kept[k] < all.len());
            assert(kept.contains(kept[k]));
            assert(full(all[kept[k]]));
            assert(chosen[kept[k]] == images[from[kept[k]]]);
            assert(from.contains(from[kept[k]]));
            assert(p(images[m]));
        }
        if has_texts(ws.messages, i) && wants(plan, images[m].path) {
            assert(p(images[m]));
            assert(from.contains(m));
            let k = choose|k: int| 0 <= k < from.len() && from[k] == m;
            assert(chosen[k] == images[m]);
            assert(full(all[k]));
            assert(kept.contains(k));
            let j = choose|j: int| 0 <= j < kept.len() && kept[j] == k;
            assert(at[j] == m);
        }
    }
    assert forall|k: int| 0 <= k < at.len() implies is_job_of(
        ws,
        plan,
        root,
        i,
        images[at[k]],
        #[trigger] jobs[k],
    ) by {
        let image = images[at[k]];
        lemma_renders(
            ws.messages,
            i,
            image,
            output_dir(root, ws.columns[i], image),
            plan.formats,
        );
        assert(jobs[k] == f(image));
        assert(output_dir(root, ws.columns[i], image) == folder_for(
            root,
            ws.columns[i].language,
            image.subfolder,
        ));
    }
    at
}

/// A batch has exactly one job for each column and each image of it that the plan wants and for
/// which there is a text, column by column and image by image; and each job is what its image,
/// column and plan say.
pub proof fn lemma_jobs_column_by_column(
    ws: WorkspaceModel,
    plan: PlanModel,
    root: Seq<char>,
    n: nat,
) -> (at: Seq<(int, int)>)
    ensures
        are_jobs(ws, plan, root, n as int, jobs_of(ws, plan, root, n), at),
    decreases n,
{
    let jobs = jobs_of(ws, plan, root, n);
    if n == 0 {
        let at = Seq::<(int, int)>::empty();
        assert(are_jobs(ws, plan, root, 0, jobs, at));
        at
    } else {
        let i = n - 1;
        let before = jobs_of(ws, plan, root, i as nat);
        let more = jobs_of_column(ws, plan, root, i);
        let left = lemma_jobs_column_by_column(ws, plan, root, i as nat);
        let right = lemma_column_jobs(ws, plan, root, i);
        let tail = right.map_values(|m: int| (i, m));
        let at = left + tail;
        assert(jobs == before + more);
        assert forall|k: int| 0 <= k < at.len() implies 0 <= (#[trigger] at[k]).0 < n && 0
            <= at[k].1 < images_of_column(ws, at[k].0).len() && is_job_of(
            ws,
            plan,
            root,
            at[k].0,
            images_of_column(ws, at[k].0)[at[k].1],
            jobs[k],
        ) by {
            if k < left.len() {
                assert(at[k] == left[k]);
                assert(jobs[k] == before[k]);
            } else {
                let r = k - left.len();
                assert(at[k] == (i, right[r]));
                assert(jobs[k] == more[r]);
            }
        }
        assert forall|j: int, k: int| 0 <= j < k < at.len() implies (#[trigger] at[j]).0 < (
        #[trigger] at[k]).0 || (at[j].0 == at[k].0 && at[j].1 < at[k].1) by {
            if k < left.len() {
                assert(at[j] == left[j] && at[k] == left[k]);
            } else {
                let r = k - left.len();
                assert(at[k] == (i, right[r]));
                if j < left.len() {
                    assert(at[j] == left[j]);
                } else {
                    let s = j - left.len();
                    assert(at[j] == (i, right[s]));
                    assert(right[s] < right[r]);
                }
            }
        }
        assert forall|c: int, m: int|
            0 <= c < n && 0 <= m < images_of_column(ws, c).len() implies (#[trigger] at.contains(
            (c, m),
        ) <==> has_texts(ws.messages, c) && wants(plan, images_of_column(ws, c)[m].path)) by {
            if c < i {
                assert(left.contains((c, m)) <==> has_texts(ws.messages, c) && wants(
                    plan,
                    images_of_column(ws, c)[m].path,
                ));
                if left.contains((c, m)) {
                    let k = choose|k: int| 0 <= k < left.len() && left[k] == (c, m);
                    assert(at[k] == (c, m));
                }
                if at.contains((c, m)) {
                    let k = choose|k: int| 0 <= k < at.len() && at[k] == (c, m);
                    if k >= left.len() {
                        assert(at[k] == (i, right[k - left.len()]));
                    }
                    assert(left[k] == (c, m));
                }
            } else {
                assert(right.contains(m) <==> has_texts(ws.messages, i) && wants(
                    plan,
                    images_of_column(ws, i)[m].path,
                ));
                if right.contains(m) {
                    let k = choose|k: int| 0 <= k < right.len() && right[k] == m;
                    assert(at[left.len() + k] == (i, m));
                }
                if at.contains((c, m)) {
                    let k = choose|k: int| 0 <= k < at.len() && at[k] == (c, m);
                    if k < left.len() {
                        assert(left[k].0 < i);
                    }
                    assert(at[k] == (i, right[k - left.len()]));
                }
            }
        }
        assert(are_jobs(ws, plan, root, n as int, jobs, at));
        at
    }
}

/// Every job of a batch has the template that is set for its image, where there is one, and the
/// common template otherwise: whatever images are selected, and whatever formats are asked for.
pub proof fn lemma_job_templates(
    ws: WorkspaceModel,
    plan: PlanModel,
    root: Seq<char>,
    n: nat,
    k: int,
)
    requires
        0 <= k < jobs_of(ws, plan, root, n).len(),
    ensures
        ({
            let job = jobs_of(ws, plan, root, n)[k];
            &&& plan.templates_by_image.dom().contains(job.image) ==> job.spec
                == plan.templates_by_image[job.image]
            &&& !plan.templates_by_image.dom().contains(job.image) ==> job.spec
                == plan.default_template
            &&& plan.only_selected ==> plan.selected.contains(job.image)
        }),
{
    let at = lemma_jobs_column_by_column(ws, plan, root, n);
    let job = jobs_of(ws, plan, root, n)[k];
    assert(is_job_of(
        ws,
        plan,
        root,
        at[k].0,
        images_of_column(ws, at[k].0)[at[k].1],
        jobs_of(ws, plan, root, n)[k],
    ));
    assert(at.contains((at[k].0, at[k].1)));
}

/// Two plans that differ in selection and formats only give every image that both render the same
/// template.
pub proof fn lemma_template_whatever_else(a: PlanModel, b: PlanModel, image: ImageModel)
    requires
        a.templates_by_image == b.templates_by_image,
        a.default_template == b.default_template,
    ensures
        template_of(a, image) == template_of(b, image),
{
}

/// A batch creates the folders of the images that the plan wants, in every column, each once and no
/// other.
pub proof fn lemma_folders_of_wanted_images(
    ws: WorkspaceModel,
    plan: PlanModel,
    root: Seq<char>,
    n: nat,
    dir: Seq<char>,
)
    ensures
        first_seen(dirs_of(ws, plan, root, n)).no_duplicates(),
        first_seen(dirs_of(ws, plan, root, n)).contains(dir) <==> exists|i: int, m: int|
            {
                &&& 0 <= i < n
                &&& 0 <= m < images_of_column(ws, i).len()
                &&& wants(plan, images_of_column(ws, i)[m].path)
                &&& dir == folder_for(
                    root,
                    ws.columns[i].language,
                    (#[trigger] images_of_column(ws, i)[m]).subfolder,
                )
            },
{
    lemma_first_seen(dirs_of(ws, plan, root, n));
    lemma_folders(ws, plan, root, n, dir);
}

proof fn lemma_folders(
    ws: WorkspaceModel,
    plan: PlanModel,
    root: Seq<char>,
    n: nat,
    dir: Seq<char>,
)
    ensures
        dirs_of(ws, plan, root, n).contains(dir) <==> exists|i: int, m: int|
            {
                &&& 0 <= i < n
                &&& 0 <= m < images_of_column(ws, i).len()
                &&& wants(plan, images_of_column(ws, i)[m].path)
                &&& dir == folder_for(
                    root,
                    ws.columns[i].language,
                    (#[trigger] images_of_column(ws, i)[m]).subfolder,
                )
            },
    decreases n,
{
    if n > 0 {
        let c = n - 1;
        let images = images_of_column(ws, c);
        let chosen = chosen_images(ws, plan, c);
        let p = |image: ImageModel| is_chosen(plan, image);
        let f = |image: ImageModel| output_dir(root, ws.columns[c], image);
        let before = dirs_of(ws, plan, root, c as nat);
        let more = chosen.map_values(f);
        let all = dirs_of(ws, plan, root, n);
        let from = lemma_filter_picks(images, p);
        lemma_folders(ws, plan, root, c as nat, dir);
        assert(all == before + more);
        if all.contains(dir) {
            let k = choose|k: int| 0 <= k < all.len() && all[k] == dir;
            if k < before.len() {
                assert(before[k] == dir);
                assert(before.contains(dir));
            } else {
                let r = k - before.len();
                assert(more[r] == dir);
                assert(0 <= from[r] < images.len());
                assert(chosen[r] == images[from[r]]);
                assert(from.contains(from[r]));
                assert(p(images[from[r]]));
                assert(wants(plan, images_of_column(ws, c)[from[r]].path));
            }
        }
        if before.contains(dir) {
            let k = choose|k: int| 0 <= k < before.len() && before[k] == dir;
            assert(all[k] == dir);
        }
        assert forall|m: int|
            0 <= m < images.len() && wants(plan, images[m].path) && dir == folder_for(
                root,
                ws.columns[c].language,
                (#[trigger] images[m]).subfolder,
            ) implies all.contains(dir) by {
            assert(p(images[m]));
            assert(from.contains(m));
            let r = choose|r: int| 0 <= r < from.len() && from[r] == m;
            assert(chosen[r] == images[m]);
            assert(all[before.len() + r] == dir);
        }
        if exists|i: int, m: int|
            {
                &&& 0 <= i < n
                &&& 0 <= m < images_of_column(ws, i).len()
                &&& wants(plan, images_of_column(ws, i)[m].path)
                &&& dir == folder_for(
                    root,
                    ws.columns[i].language,
                    (#[trigger] images_of_column(ws, i)[m]).subfolder,
                )
            } {
            let (i, m) = choose|i: int, m: int|
                {
                    &&& 0 <= i < n
                    &&& 0 <= m < images_of_column(ws, i).len()
                    &&& wants(plan, images_of_column(ws, i)[m].path)
                    &&& dir == folder_for(
                        root,
                        ws.columns[i].language,
                        (#[trigger] images_of_column(ws, i)[m]).subfolder,
                    )
                };
            if i == c {
                assert(images[m].subfolder == images_of_column(ws, i)[m].subfolder);
                assert(all.contains(dir));
            } else {
                assert(before.contains(dir));
            }
        }
    }
}

/// What jobs write is what each of them writes, together; what renders write is what each of them
/// writes.
pub proof fn lemma_outputs_add_up(
    jobs: Seq<JobModel>,
    job: JobModel,
    renders: Seq<RenderModel>,
    render: RenderModel,
)
    ensures
        outputs_of_jobs(Seq::empty()) == 0,
        outputs_of_jobs(jobs.push(job)) == outputs_of_jobs(jobs) + outputs_of_renders(job.renders),
        outputs_of_renders(Seq::empty()) == 0,
        outputs_of_renders(renders.push(render)) == outputs_of_renders(renders)
            + render.outputs.len(),
{
    assert(jobs.push(job).drop_last() =~= jobs);
    assert(renders.push(render).drop_last() =~= renders);
}

/// A batch is skipped for want of messages, or else for want of images, and reports which, with
/// nothing counted; otherwise it runs its jobs, in the folders of the images it wants, and counts
/// what they write. Outputs go to the folder `Output` of the working folder.
pub proof fn lemma_batch_answers(ws: WorkspaceModel, folder: Seq<char>, plan: PlanModel)
    ensures
        ({
            let root = joined(folder, "Output"@);
            let empty = forall|c: int|
                0 <= c < ws.collections.len() ==> #[trigger] ws.collections[c].images.len() == 0;
            let nothing = |no_image: bool, no_rows: bool| ResultModel {
                total: 0,
                ok: 0,
                errors: Seq::empty(),
                skipped_no_image: no_image,
                skipped_no_rows: no_rows,
                output_root: root,
            };
            &&& ws.messages.len() == 0 ==> batch_of(ws, folder, plan) == BatchModel::Skip(
                nothing(false, true),
            )
            &&& ws.messages.len() > 0 && empty ==> batch_of(ws, folder, plan) == BatchModel::Skip(
                nothing(true, false),
            )
            &&& ws.messages.len() > 0 && !empty ==> {
                let jobs = jobs_of(ws, plan, root, ws.columns.len());
                batch_of(ws, folder, plan) == BatchModel::Run {
                    jobs,
                    out_dirs: first_seen(dirs_of(ws, plan, root, ws.columns.len())),
                    total: outputs_of_jobs(jobs),
                }
            }
        }),
{
    assert(output_root_of(folder) == joined(folder, "Output"@));
    if has_images(ws) {
        let c = choose|c: int|
            0 <= c < ws.collections.len() && #[trigger] ws.collections[c].images.len() > 0;
        assert(ws.collections[c].images.len() != 0);
    }
}

/// The preview counts the messages, the images of all collections, and, column by column, what a
/// batch of all images in both formats would write; a count that fits a machine word is given.
pub proof fn lemma_preview_answers(ws: WorkspaceModel, result: Option<PreviewResult>)
    requires
        is_preview_of(ws, result),
    ensures
        result matches Some(r) ==> r.rows == ws.messages.len() && r.images == image_count(
            ws.collections,
            ws.collections.len(),
        ) && r.total_outputs == previewed(ws, ws.columns.len()),
        previewed(ws, ws.columns.len()) <= usize::MAX && image_count(
            ws.collections,
            ws.collections.len(),
        ) <= usize::MAX ==> result is Some,
{
}

/// The images of collections are counted one collection after another, and the outputs of columns
/// one column after another: as many as its images, times the messages with a text there, times the
/// two formats.
pub proof fn lemma_preview_adds_up(ws: WorkspaceModel, n: nat)
    ensures
        image_count(ws.collections, 0) == 0,
        image_count(ws.collections, n + 1) == image_count(ws.collections, n)
            + ws.collections[n as int].images.len(),
        previewed(ws, 0) == 0,
        previewed(ws, n + 1) == previewed(ws, n) + 2 * (images_of_column(ws, n as int).len()
            * messages_with_text(ws.messages, n as int).len()),
        exists|at: Seq<int>|
            {
                &&& #[trigger] at.len() == messages_with_text(ws.messages, n as int).len()
                &&& forall|j: int, k: int|
                    0 <= j < k < at.len() ==> #[trigger] at[j] < #[trigger] at[k]
                &&& forall|k: int| 0 <= k < at.len() ==> 0 <= #[trigger] at[k] < ws.messages.len()
                &&& forall|q: int|
                    0 <= q < ws.messages.len() ==> (#[trigger] says(ws.messages[q], n as int)
                        <==> at.contains(q))
            },
{
    let i = n as int;
    let p = |m: MessageModel| has_text(m, i);
    let at = lemma_filter_picks(ws.messages, p);
    assert forall|q: int| 0 <= q < ws.messages.len() implies (#[trigger] says(ws.messages[q], i)
        <==> at.contains(q)) by {
        assert(p(ws.messages[q]) <==> at.contains(q));
    }
    let a = images_of_column(ws, i).len();
    let b = messages_with_text(ws.messages, i).len();
    assert(a * b * 2 == 2 * (a * b)) by (nonlinear_arith);
    assert(at.len() == messages_with_text(ws.messages, i).len());
}

/// An output file is named after the image, the message and the format, and has the extension of
/// the image; it stands in the folder of the language, in the subfolder that the image came from.
pub proof fn lemma_output_names(
    root: Seq<char>,
    column: LangColumnModel,
    image: ImageModel,
    id: Seq<char>,
    format: Format,
)
    ensures
        output_name(image, id, format) == image.stem + "_"@ + sanitized(id) + "_"@ + suffix_text_of(
            format,
        ) + "."@ + image.ext,
        output_dir(root, column, image) == folder_for(root, column.language, image.subfolder),
{
}

} // verus!
