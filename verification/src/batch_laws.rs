//! What holds of every batch.
use vstd::prelude::*;

use crate::batch::{
    active_formats_of, all_formats, chosen_images, dirs_of, images_of_column, is_chosen, job_of,
    jobs_of, jobs_of_column, language_dir, messages_with_text, output_dir, output_name,
    outputs_of_jobs, outputs_of_renders, previewed, previewed_column, render_of, JobModel,
    OutputModel, PlanModel,
};
use crate::compositor::Format;
use crate::listing::{image_of, last_slash, leaf_of, FoundModel, ImageModel};
use crate::paths::{joined, last_dot};
use crate::pipeline::{first_seen, lemma_first_seen, WorkspaceModel};
use crate::spreadsheet::{lemma_sanitized_is_component, sanitized, LangColumnModel, MessageModel};

verus! {

/// Whether `image` is an image of column `i` that the plan renders and that there is text for.
pub open spec fn is_rendered(
    ws: WorkspaceModel,
    plan: PlanModel,
    i: int,
    image: ImageModel,
) -> bool {
    &&& images_of_column(ws, i).contains(image)
    &&& is_chosen(plan, image)
    &&& messages_with_text(ws.messages, i).len() > 0
}

/// Column `i` has a job for each image that is rendered in it, and no other.
pub proof fn lemma_jobs_of_column(
    ws: WorkspaceModel,
    plan: PlanModel,
    root: Seq<char>,
    i: int,
    job: JobModel,
)
    ensures
        jobs_of_column(ws, plan, root, i).contains(job) <==> exists|image: ImageModel|
            #[trigger] is_rendered(ws, plan, i, image) && job == job_of(ws, plan, root, i, image),
{
    let p = |image: ImageModel| is_chosen(plan, image);
    let f = |image: ImageModel| job_of(ws, plan, root, i, image);
    let full = |job: JobModel| job.renders.len() > 0;
    let images = images_of_column(ws, i);
    let chosen = chosen_images(ws, plan, i);
    let all = chosen.map_values(f);
    let jobs = all.filter(full);
    broadcast use vstd::seq_lib::group_filter_ensures;

    if jobs.contains(job) {
        let k = choose|k: int| 0 <= k < jobs.len() && jobs[k] == job;
        all.lemma_filter_contains_rev(full, job);
        assert(full(jobs[k]));
        let m = choose|m: int| 0 <= m < all.len() && all[m] == job;
        assert(all[m] == f(chosen[m]));
        assert(p(chosen[m]));
        assert(chosen.contains(chosen[m]));
        images.lemma_filter_contains_rev(p, chosen[m]);
        assert(is_rendered(ws, plan, i, chosen[m]));
    }
    if exists|image: ImageModel| #[trigger]
        is_rendered(ws, plan, i, image) && job == job_of(ws, plan, root, i, image) {
        let image = choose|image: ImageModel| #[trigger]
            is_rendered(ws, plan, i, image) && job == job_of(ws, plan, root, i, image);
        let m = choose|m: int| 0 <= m < images.len() && images[m] == image;
        assert(p(images[m]));
        assert(chosen.contains(image));
        let k = choose|k: int| 0 <= k < chosen.len() && chosen[k] == image;
        assert(all[k] == job);
        assert(full(all[k]));
        assert(jobs.contains(job));
    }
}

/// A batch has a job for each column and each image that is rendered in it, and no other.
pub proof fn lemma_jobs(
    ws: WorkspaceModel,
    plan: PlanModel,
    root: Seq<char>,
    n: nat,
    job: JobModel,
)
    ensures
        jobs_of(ws, plan, root, n).contains(job) <==> exists|i: int, image: ImageModel|
            0 <= i < n && #[trigger] is_rendered(ws, plan, i, image) && job == job_of(
                ws,
                plan,
                root,
                i,
                image,
            ),
    decreases n,
{
    if n > 0 {
        let before = jobs_of(ws, plan, root, (n - 1) as nat);
        let more = jobs_of_column(ws, plan, root, n - 1);
        let all = jobs_of(ws, plan, root, n);
        lemma_jobs(ws, plan, root, (n - 1) as nat, job);
        lemma_jobs_of_column(ws, plan, root, n - 1, job);
        if all.contains(job) {
            let k = choose|k: int| 0 <= k < all.len() && all[k] == job;
            if k < before.len() {
                assert(before[k] == job);
                assert(before.contains(job));
            } else {
                assert(more[k - before.len()] == job);
                assert(more.contains(job));
            }
        }
        if before.contains(job) {
            let k = choose|k: int| 0 <= k < before.len() && before[k] == job;
            assert(all[k] == job);
        }
        if more.contains(job) {
            let k = choose|k: int| 0 <= k < more.len() && more[k] == job;
            assert(all[before.len() + k] == job);
        }
    }
}

/// Where only the selected images are rendered, every job is for one of them.
pub proof fn lemma_only_selected(
    ws: WorkspaceModel,
    plan: PlanModel,
    root: Seq<char>,
    n: nat,
    k: int,
)
    requires
        plan.only_selected,
        0 <= k < jobs_of(ws, plan, root, n).len(),
    ensures
        plan.selected.contains(jobs_of(ws, plan, root, n)[k].image),
{
    let job = jobs_of(ws, plan, root, n)[k];
    lemma_jobs(ws, plan, root, n, job);
    assert(jobs_of(ws, plan, root, n).contains(job));
}

/// Every render of a job has text, and one output for each format of the plan, in order.
pub proof fn lemma_one_output_per_format(
    ws: WorkspaceModel,
    plan: PlanModel,
    root: Seq<char>,
    n: nat,
    k: int,
    r: int,
)
    requires
        0 <= k < jobs_of(ws, plan, root, n).len(),
        0 <= r < jobs_of(ws, plan, root, n)[k].renders.len(),
    ensures
        ({
            let render = jobs_of(ws, plan, root, n)[k].renders[r];
            &&& render.text.len() > 0
            &&& render.outputs.map_values(|o: OutputModel| o.format) == active_formats_of(
                plan.formats,
            )
        }),
{
    let job = jobs_of(ws, plan, root, n)[k];
    lemma_jobs(ws, plan, root, n, job);
    assert(jobs_of(ws, plan, root, n).contains(job));
    let (i, image) = choose|i: int, image: ImageModel|
        0 <= i < n && #[trigger] is_rendered(ws, plan, i, image) && job == job_of(
            ws,
            plan,
            root,
            i,
            image,
        );
    let p = |m: MessageModel| crate::batch::has_text(m, i);
    broadcast use vstd::seq_lib::group_filter_ensures;

    let messages = messages_with_text(ws.messages, i);
    assert(p(messages[r]));
    assert(job.renders[r].outputs.map_values(|o: OutputModel| o.format) =~= active_formats_of(
        plan.formats,
    ));
}

proof fn lemma_dirs_grow(ws: WorkspaceModel, plan: PlanModel, root: Seq<char>, m: nat, n: nat)
    requires
        m <= n,
    ensures
        dirs_of(ws, plan, root, m).len() <= dirs_of(ws, plan, root, n).len(),
        forall|k: int|
            0 <= k < dirs_of(ws, plan, root, m).len() ==> #[trigger] dirs_of(ws, plan, root, m)[k]
                == dirs_of(ws, plan, root, n)[k],
    decreases n,
{
    if m < n {
        lemma_dirs_grow(ws, plan, root, m, (n - 1) as nat);
    }
}

/// Whether `output` is that of the message `id` on `image` in the language of `column`.
pub open spec fn is_output_of(
    root: Seq<char>,
    column: LangColumnModel,
    image: ImageModel,
    id: Seq<char>,
    output: OutputModel,
) -> bool {
    output.path == joined(
        output_dir(root, column, image),
        output_name(image, id, output.format),
    )
}

/// Every file that a batch writes lies in a folder that it creates first.
pub proof fn lemma_outputs_have_folders(
    ws: WorkspaceModel,
    plan: PlanModel,
    root: Seq<char>,
    n: nat,
    k: int,
    r: int,
    o: int,
)
    requires
        0 <= k < jobs_of(ws, plan, root, n).len(),
        0 <= r < jobs_of(ws, plan, root, n)[k].renders.len(),
        0 <= o < jobs_of(ws, plan, root, n)[k].renders[r].outputs.len(),
    ensures
        exists|i: int, image: ImageModel, id: Seq<char>|
            0 <= i < n && #[trigger] is_output_of(
                root,
                ws.columns[i],
                image,
                id,
                jobs_of(ws, plan, root, n)[k].renders[r].outputs[o],
            ) && images_of_column(ws, i).contains(image) && first_seen(
                dirs_of(ws, plan, root, n),
            ).contains(output_dir(root, ws.columns[i], image)),
{
    let job = jobs_of(ws, plan, root, n)[k];
    lemma_jobs(ws, plan, root, n, job);
    assert(jobs_of(ws, plan, root, n).contains(job));
    let (i, image) = choose|i: int, image: ImageModel|
        0 <= i < n && #[trigger] is_rendered(ws, plan, i, image) && job == job_of(
            ws,
            plan,
            root,
            i,
            image,
        );
    let dir = output_dir(root, ws.columns[i], image);
    let message = messages_with_text(ws.messages, i)[r];
    let formats = active_formats_of(plan.formats);
    let output = job.renders[r].outputs[o];
    assert(job.renders[r] == render_of(message, i, image, dir, formats));
    assert(is_output_of(root, ws.columns[i], image, message.id, output));
    let images = images_of_column(ws, i);
    let p = |image: ImageModel| is_chosen(plan, image);
    broadcast use vstd::seq_lib::group_filter_ensures;

    let m = choose|m: int| 0 <= m < images.len() && images[m] == image;
    assert(p(images[m]));
    let chosen = chosen_images(ws, plan, i);
    assert(chosen.contains(image));
    let c = choose|c: int| 0 <= c < chosen.len() && chosen[c] == image;
    let dirs = dirs_of(ws, plan, root, (i + 1) as nat);
    let before = dirs_of(ws, plan, root, i as nat);
    assert(dirs[before.len() + c] == dir);
    lemma_dirs_grow(ws, plan, root, (i + 1) as nat, n);
    let all = dirs_of(ws, plan, root, n);
    assert(all[before.len() + c] == dir);
    assert(all.contains(dir));
    lemma_first_seen(all);
}

/// The outputs of one render never share a file.
pub proof fn lemma_formats_differ_in_path(
    dir: Seq<char>,
    image: ImageModel,
    id: Seq<char>,
    a: Format,
    b: Format,
)
    requires
        a != b,
    ensures
        output_name(image, id, a) != output_name(image, id, b),
        joined(dir, output_name(image, id, a)) != joined(dir, output_name(image, id, b)),
{
    reveal_strlit("9x16");
    reveal_strlit("1x1");
    reveal_strlit("_");
    reveal_strlit(".");
    assert("9x16"@.len() == 4);
    assert("1x1"@.len() == 3);
    let x = output_name(image, id, a);
    let y = output_name(image, id, b);
    assert(x.len() != y.len());
    assert("_"@.len() == 1);
    assert(x[0] == y[0]) by {
        if image.stem.len() > 0 {
            assert(x[0] == image.stem[0]);
            assert(y[0] == image.stem[0]);
        } else {
            assert(x[0] == '_');
            assert(y[0] == '_');
        }
    }
    assert(joined(dir, x).len() != joined(dir, y).len());
}

/// Whether an image's subfolder and stem are relative.
pub open spec fn is_relative(image: ImageModel) -> bool {
    &&& image.subfolder.len() > 0 ==> image.subfolder[0] != '/'
    &&& image.stem.len() > 0 ==> image.stem[0] != '/'
}

proof fn lemma_last_slash(path: Seq<char>)
    ensures
        -1 <= last_slash(path) < path.len(),
        forall|k: int| last_slash(path) < k < path.len() ==> path[k] != '/',
    decreases path.len(),
{
    if path.len() > 0 && path.last() != '/' {
        lemma_last_slash(path.drop_last());
        assert forall|k: int| last_slash(path) < k < path.len() implies path[k] != '/' by {
            if k < path.len() - 1 {
                assert(path.drop_last()[k] == path[k]);
            }
        }
    }
}

proof fn lemma_last_dot(name: Seq<char>)
    ensures
        -1 <= last_dot(name) < name.len(),
    decreases name.len(),
{
    if name.len() > 0 && name.last() != '.' {
        lemma_last_dot(name.drop_last());
    }
}

/// An image found below a collection folder is relative, unless the first folder on the way to it,
/// or the image itself, has a name that starts with a backslash: that is taken for a separator.
pub proof fn lemma_found_images_are_relative(found: FoundModel, root: Seq<char>)
    requires
        found.rel.len() > 0 ==> found.rel[0] != '/' && found.rel[0] != '\\',
    ensures
        is_relative(image_of(found, root)),
{
    let image = image_of(found, root);
    lemma_last_slash(found.rel);
    reveal_strlit("image");
    if image.subfolder.len() > 0 {
        assert(image.subfolder[0] == found.rel[0]);
    }
    if found.exact && image.stem.len() > 0 {
        let name = leaf_of(found.rel);
        lemma_last_dot(name);
        assert(image.stem[0] == name[0]);
        assert(name[0] == found.rel[last_slash(found.rel) + 1]);
    }
}

proof fn lemma_joined_below(base: Seq<char>, rest: Seq<char>)
    requires
        rest.len() > 0 ==> rest[0] != '/',
    ensures
        base.is_prefix_of(joined(base, rest)),
{
    assert(joined(base, rest).subrange(0, base.len() as int) =~= base);
}

/// The outputs of an image lie below the output root, in the folder of the language and, inside it,
/// in the subfolder that the image came from.
pub proof fn lemma_outputs_below_root(
    root: Seq<char>,
    column: LangColumnModel,
    image: ImageModel,
    id: Seq<char>,
    format: Format,
)
    requires
        is_relative(image),
    ensures
        ({
            let path = joined(output_dir(root, column, image), output_name(image, id, format));
            &&& root.is_prefix_of(path)
            &&& language_dir(root, column).is_prefix_of(path)
            &&& output_dir(root, column, image).is_prefix_of(path)
        }),
{
    let language = language_dir(root, column);
    let dir = output_dir(root, column, image);
    let name = output_name(image, id, format);
    let path = joined(dir, name);
    lemma_sanitized_is_component(column.language);
    reveal_strlit("_");
    assert("_"@.len() == 1);
    assert(name[0] != '/') by {
        if image.stem.len() > 0 {
            assert(name[0] == image.stem[0]);
        } else {
            assert(name[0] == '_');
        }
    }
    lemma_joined_below(root, sanitized(column.language));
    lemma_joined_below(dir, name);
    if image.subfolder.len() > 0 {
        lemma_joined_below(language, image.subfolder);
    } else {
        assert(language.subrange(0, language.len() as int) =~= language);
    }
    assert(path.subrange(0, language.len() as int) =~= language) by {
        assert(path.subrange(0, dir.len() as int) == dir);
        assert(dir.subrange(0, language.len() as int) == language);
        assert forall|k: int| 0 <= k < language.len() implies path[k] == language[k] by {
            assert(path.subrange(0, dir.len() as int)[k] == dir[k]);
            assert(dir.subrange(0, language.len() as int)[k] == language[k]);
        }
    }
    assert(path.subrange(0, root.len() as int) =~= root) by {
        assert(language.subrange(0, root.len() as int) == root);
        assert forall|k: int| 0 <= k < root.len() implies path[k] == root[k] by {
            assert(path.subrange(0, language.len() as int)[k] == language[k]);
            assert(language.subrange(0, root.len() as int)[k] == root[k]);
        }
    }
}

proof fn lemma_outputs_of_renders(
    messages: Seq<MessageModel>,
    i: int,
    image: ImageModel,
    dir: Seq<char>,
    formats: Seq<Format>,
)
    ensures
        outputs_of_renders(
            messages.map_values(|m: MessageModel| render_of(m, i, image, dir, formats)),
        ) == messages.len() * formats.len(),
    decreases messages.len(),
{
    let f = |m: MessageModel| render_of(m, i, image, dir, formats);
    let renders = messages.map_values(f);
    if messages.len() > 0 {
        lemma_outputs_of_renders(messages.drop_last(), i, image, dir, formats);
        assert(renders.drop_last() =~= messages.drop_last().map_values(f));
        assert(renders.last().outputs.len() == formats.len());
        assert((messages.len() - 1) * formats.len() + formats.len() == messages.len()
            * formats.len()) by (nonlinear_arith);
    } else {
        assert(messages.len() * formats.len() == 0) by (nonlinear_arith)
            requires
                messages.len() == 0,
        ;
    }
}

proof fn lemma_outputs_add(a: Seq<JobModel>, b: Seq<JobModel>)
    ensures
        outputs_of_jobs(a + b) == outputs_of_jobs(a) + outputs_of_jobs(b),
    decreases b.len(),
{
    if b.len() > 0 {
        lemma_outputs_add(a, b.drop_last());
        assert((a + b).drop_last() =~= a + b.drop_last());
        assert((a + b).last() == b.last());
    } else {
        assert(a + b =~= a);
    }
}

proof fn lemma_outputs_of_full_jobs(jobs: Seq<JobModel>)
    ensures
        outputs_of_jobs(jobs.filter(|job: JobModel| job.renders.len() > 0)) == outputs_of_jobs(
            jobs,
        ),
    decreases jobs.len(),
{
    reveal(Seq::filter);
    let full = |job: JobModel| job.renders.len() > 0;
    if jobs.len() > 0 {
        lemma_outputs_of_full_jobs(jobs.drop_last());
        let before = jobs.drop_last().filter(full);
        if full(jobs.last()) {
            assert(jobs.filter(full) == before.push(jobs.last()));
            assert(before.push(jobs.last()).drop_last() =~= before);
        } else {
            assert(jobs.filter(full) == before);
        }
    }
}

proof fn lemma_outputs_of_images(
    ws: WorkspaceModel,
    plan: PlanModel,
    root: Seq<char>,
    i: int,
    images: Seq<ImageModel>,
)
    ensures
        outputs_of_jobs(
            images.map_values(|image: ImageModel| job_of(ws, plan, root, i, image)),
        ) == images.len() * (messages_with_text(ws.messages, i).len() * active_formats_of(
            plan.formats,
        ).len()),
    decreases images.len(),
{
    let f = |image: ImageModel| job_of(ws, plan, root, i, image);
    let jobs = images.map_values(f);
    let each = messages_with_text(ws.messages, i).len() * active_formats_of(plan.formats).len();
    if images.len() > 0 {
        lemma_outputs_of_images(ws, plan, root, i, images.drop_last());
        assert(jobs.drop_last() =~= images.drop_last().map_values(f));
        lemma_outputs_of_renders(
            messages_with_text(ws.messages, i),
            i,
            images.last(),
            output_dir(root, ws.columns[i], images.last()),
            active_formats_of(plan.formats),
        );
        assert(outputs_of_renders(jobs.last().renders) == each);
        assert((images.len() - 1) * each + each == images.len() * each) by (nonlinear_arith);
    } else {
        assert(images.len() * each == 0) by (nonlinear_arith)
            requires
                images.len() == 0,
        ;
    }
}

/// How many files the first `n` columns come to under a plan: for each column, as many as there are
/// chosen images, times its texts, times the formats.
pub open spec fn planned(ws: WorkspaceModel, plan: PlanModel, n: nat) -> nat
    decreases n,
{
    if n == 0 {
        0
    } else {
        planned(ws, plan, (n - 1) as nat) + chosen_images(ws, plan, n - 1).len() * (
        messages_with_text(ws.messages, n - 1).len() * active_formats_of(plan.formats).len())
    }
}

/// A batch writes one file for each column, chosen image, text and format.
pub proof fn lemma_total_is_planned(ws: WorkspaceModel, plan: PlanModel, root: Seq<char>, n: nat)
    ensures
        outputs_of_jobs(jobs_of(ws, plan, root, n)) == planned(ws, plan, n),
    decreases n,
{
    if n > 0 {
        let i = n - 1;
        lemma_total_is_planned(ws, plan, root, i as nat);
        let f = |image: ImageModel| job_of(ws, plan, root, i, image);
        lemma_outputs_of_images(ws, plan, root, i, chosen_images(ws, plan, i));
        lemma_outputs_of_full_jobs(chosen_images(ws, plan, i).map_values(f));
        lemma_outputs_add(jobs_of(ws, plan, root, i as nat), jobs_of_column(ws, plan, root, i));
    }
}

proof fn lemma_formats_at_most_all(names: Seq<Seq<char>>)
    ensures
        active_formats_of(names).len() <= 2,
{
    let p = |f: Format| names.contains(f.suffix_text());
    all_formats().lemma_filter_len(p);
}

/// No batch writes more files than the preview counts.
pub proof fn lemma_preview_is_a_bound(ws: WorkspaceModel, plan: PlanModel, n: nat)
    ensures
        planned(ws, plan, n) <= previewed(ws, n),
    decreases n,
{
    if n > 0 {
        let i = n - 1;
        lemma_preview_is_a_bound(ws, plan, i as nat);
        lemma_formats_at_most_all(plan.formats);
        images_of_column(ws, i).lemma_filter_len(|image: ImageModel| is_chosen(plan, image));
        let chosen = chosen_images(ws, plan, i).len();
        let images = images_of_column(ws, i).len();
        let texts = messages_with_text(ws.messages, i).len();
        let formats = active_formats_of(plan.formats).len();
        assert(chosen * (texts * formats) <= images * texts * 2) by (nonlinear_arith)
            requires
                chosen <= images,
                formats <= 2,
        ;
    }
}

/// A batch of all images in all formats writes exactly as many files as the preview counts.
pub proof fn lemma_preview_counts_the_batch(
    ws: WorkspaceModel,
    plan: PlanModel,
    root: Seq<char>,
    n: nat,
)
    requires
        !plan.only_selected,
        plan.formats.len() == 0,
    ensures
        outputs_of_jobs(jobs_of(ws, plan, root, n)) == previewed(ws, n),
    decreases n,
{
    lemma_total_is_planned(ws, plan, root, n);
    if n > 0 {
        let i = n - 1;
        lemma_preview_counts_the_batch(ws, plan, root, i as nat);
        lemma_total_is_planned(ws, plan, root, i as nat);
        let images = images_of_column(ws, i);
        let p = |image: ImageModel| is_chosen(plan, image);
        lemma_all_kept(images, p);
        assert(active_formats_of(plan.formats).len() == 2);
        let texts = messages_with_text(ws.messages, i).len();
        assert(images.len() * (texts * 2) == images.len() * texts * 2) by (nonlinear_arith);
        assert(previewed_column(ws, i) == images.len() * texts * 2);
    }
}

proof fn lemma_all_kept(images: Seq<ImageModel>, p: spec_fn(ImageModel) -> bool)
    requires
        forall|image: ImageModel| #[trigger] p(image),
    ensures
        images.filter(p) == images,
    decreases images.len(),
{
    reveal(Seq::filter);
    if images.len() > 0 {
        lemma_all_kept(images.drop_last(), p);
        assert(p(images.last()));
        assert(images.drop_last().push(images.last()) =~= images);
    } else {
        assert(images.filter(p) =~= images);
    }
}

} // verus!
