//! What a batch renders: which image with which text goes to which file.
use vstd::prelude::*;

use crate::compositor::{Format, LayoutSpec};
use crate::listing::{FsNode, ImageInfo, ImageModel};
use crate::paths::{join, joined};
use crate::pipeline::{
    contains_text, entries, first_seen, output_root, output_root_of, push_new, scan_workspace,
    scanned, Collection, CollectionModel, Workspace, WorkspaceModel,
};
use crate::report::{skipped, skipped_of, ProcessResult, ResultModel};
use crate::spreadsheet::{
    sanitize_component, sanitized, LangColumnModel, MessageModel, MessageRow,
};
use crate::text::{outcome, same_text};
use crate::workbook::Workbook;

verus! {

/// A template chosen for one image.
pub struct TemplateEntry {
    pub image: String,
    pub spec: LayoutSpec,
}

/// Templates by image path; of two for one image the later counts.
pub struct TemplateMap {
    entries: Vec<TemplateEntry>,
}

spec fn entries_map(entries: Seq<TemplateEntry>) -> Map<Seq<char>, LayoutSpec>
    decreases entries.len(),
{
    if entries.len() == 0 {
        Map::empty()
    } else {
        entries_map(entries.drop_last()).insert(entries.last().image@, entries.last().spec)
    }
}

impl View for TemplateMap {
    type V = Map<Seq<char>, LayoutSpec>;

    closed spec fn view(&self) -> Map<Seq<char>, LayoutSpec> {
        entries_map(self.entries@)
    }
}

impl TemplateMap {
    /// No templates.
    pub fn new() -> (map: TemplateMap)
        ensures
            map@ == Map::<Seq<char>, LayoutSpec>::empty(),
    {
        TemplateMap { entries: Vec::new() }
    }

    /// Sets the template of an image.
    pub fn insert(&mut self, image: String, spec: LayoutSpec)
        ensures
            final(self)@ == old(self)@.insert(image@, spec),
    {
        let ghost before = self.entries@;
        self.entries.push(TemplateEntry { image, spec });
        assert(self.entries@.drop_last() =~= before);
    }

    /// The template of an image.
    pub fn get(&self, image: &str) -> (spec: Option<LayoutSpec>)
        ensures
            spec == (if self@.dom().contains(image@) {
                Some(self@[image@])
            } else {
                None
            }),
    {
        let mut i: usize = self.entries.len();
        assert(self.entries@.take(i as int) =~= self.entries@);
        while i > 0
            invariant
                i <= self.entries@.len(),
                self@.dom().contains(image@) <==> entries_map(
                    self.entries@.take(i as int),
                ).dom().contains(image@),
                self@.dom().contains(image@) ==> self@[image@] == entries_map(
                    self.entries@.take(i as int),
                )[image@],
            decreases i,
        {
            let ghost prefix = self.entries@.take(i as int);
            assert(prefix.drop_last() =~= self.entries@.take(i - 1));
            assert(prefix.last() == self.entries@[i - 1]);
            if same_text(self.entries[i - 1].image.as_str(), image) {
                return Some(self.entries[i - 1].spec);
            }
            i = i - 1;
        }
        None
    }
}

/// A generation plan, in mathematical terms.
pub struct PlanModel {
    pub default_template: LayoutSpec,
    pub templates_by_image: Map<Seq<char>, LayoutSpec>,
    pub only_selected: bool,
    pub selected: Seq<Seq<char>>,
    pub formats: Seq<Seq<char>>,
}

/// A generation plan.
pub struct Plan {
    /// Template of images without one of their own.
    pub default_template: LayoutSpec,
    /// Templates of single images, by image path.
    pub templates_by_image: TemplateMap,
    /// Whether only the selected images are rendered.
    pub only_selected: bool,
    /// Paths of the selected images.
    pub selected: Vec<String>,
    /// Suffixes of the formats to export; none stands for all.
    pub formats: Vec<String>,
}

impl DeepView for Plan {
    type V = PlanModel;

    open spec fn deep_view(&self) -> PlanModel {
        PlanModel {
            default_template: self.default_template,
            templates_by_image: self.templates_by_image@,
            only_selected: self.only_selected,
            selected: self.selected.deep_view(),
            formats: self.formats.deep_view(),
        }
    }
}

/// One file to write, in mathematical terms.
pub struct OutputModel {
    pub format: Format,
    pub path: Seq<char>,
}

/// One file to write.
pub struct Output {
    pub format: Format,
    pub path: String,
}

impl DeepView for Output {
    type V = OutputModel;

    open spec fn deep_view(&self) -> OutputModel {
        OutputModel { format: self.format, path: self.path@ }
    }
}

/// One text on one image, in mathematical terms.
pub struct RenderModel {
    pub text: Seq<char>,
    pub outputs: Seq<OutputModel>,
}

/// One text on one image: one output for each format, all from the same composed canvas.
pub struct Render {
    pub text: String,
    pub outputs: Vec<Output>,
}

impl DeepView for Render {
    type V = RenderModel;

    open spec fn deep_view(&self) -> RenderModel {
        RenderModel { text: self.text@, outputs: self.outputs.deep_view() }
    }
}

/// The renders of one image in one language, in mathematical terms.
pub struct JobModel {
    pub image: Seq<char>,
    pub spec: LayoutSpec,
    pub renders: Seq<RenderModel>,
}

/// The renders of one image in one language.
pub struct Job {
    pub image: String,
    pub spec: LayoutSpec,
    pub renders: Vec<Render>,
}

impl DeepView for Job {
    type V = JobModel;

    open spec fn deep_view(&self) -> JobModel {
        JobModel { image: self.image@, spec: self.spec, renders: self.renders.deep_view() }
    }
}

/// Whether a message has text for column `i`.
pub open spec fn has_text(message: MessageModel, i: int) -> bool {
    0 <= i < message.cells.len() && message.cells[i].len() > 0
}

/// The messages with text for column `i`.
pub open spec fn messages_with_text(messages: Seq<MessageModel>, i: int) -> Seq<MessageModel> {
    messages.filter(|m: MessageModel| has_text(m, i))
}

/// The collection of that name; of two the later counts.
pub open spec fn collection_named(
    collections: Seq<CollectionModel>,
    name: Seq<char>,
) -> Option<CollectionModel>
    decreases collections.len(),
{
    if collections.len() == 0 {
        None
    } else if collections.last().name == name {
        Some(collections.last())
    } else {
        collection_named(collections.drop_last(), name)
    }
}

/// Both formats, in the order in which they are written.
pub open spec fn all_formats() -> Seq<Format> {
    seq![Format::Portrait916, Format::Square1x1]
}

/// The formats that a plan exports: those it names by suffix, or all where it names none.
pub open spec fn active_formats_of(names: Seq<Seq<char>>) -> Seq<Format> {
    if names.len() == 0 {
        all_formats()
    } else {
        all_formats().filter(|f: Format| names.contains(f.suffix_text()))
    }
}

/// The images of column `i`.
pub open spec fn images_of_column(ws: WorkspaceModel, i: int) -> Seq<ImageModel> {
    match collection_named(ws.collections, ws.columns[i].collection) {
        Some(collection) => collection.images,
        None => Seq::empty(),
    }
}

/// Whether a plan renders an image.
pub open spec fn is_chosen(plan: PlanModel, image: ImageModel) -> bool {
    !plan.only_selected || plan.selected.contains(image.path)
}

/// The template of an image.
pub open spec fn template_of(plan: PlanModel, image: ImageModel) -> LayoutSpec {
    if plan.templates_by_image.dom().contains(image.path) {
        plan.templates_by_image[image.path]
    } else {
        plan.default_template
    }
}

/// Folder of the outputs in one language.
pub open spec fn language_dir(root: Seq<char>, column: LangColumnModel) -> Seq<char> {
    joined(root, sanitized(column.language))
}

/// Folder of the outputs of an image: the source subfolder inside that of the language.
pub open spec fn output_dir(root: Seq<char>, column: LangColumnModel, image: ImageModel) -> Seq<
    char,
> {
    if image.subfolder.len() == 0 {
        language_dir(root, column)
    } else {
        joined(language_dir(root, column), image.subfolder)
    }
}

/// Name of an output file.
pub open spec fn output_name(image: ImageModel, id: Seq<char>, format: Format) -> Seq<char> {
    image.stem + "_"@ + sanitized(id) + "_"@ + format.suffix_text() + "."@ + image.ext
}

/// One message on one image.
pub open spec fn render_of(
    message: MessageModel,
    i: int,
    image: ImageModel,
    dir: Seq<char>,
    formats: Seq<Format>,
) -> RenderModel {
    RenderModel {
        text: message.cells[i],
        outputs: formats.map_values(
            |f: Format|
                OutputModel { format: f, path: joined(dir, output_name(image, message.id, f)) },
        ),
    }
}

/// All messages of column `i` on one image.
pub open spec fn renders_of(
    messages: Seq<MessageModel>,
    i: int,
    image: ImageModel,
    dir: Seq<char>,
    formats: Seq<Format>,
) -> Seq<RenderModel> {
    messages_with_text(messages, i).map_values(
        |m: MessageModel| render_of(m, i, image, dir, formats),
    )
}

/// The job of one image in column `i`.
pub open spec fn job_of(
    ws: WorkspaceModel,
    plan: PlanModel,
    root: Seq<char>,
    i: int,
    image: ImageModel,
) -> JobModel {
    JobModel {
        image: image.path,
        spec: template_of(plan, image),
        renders: renders_of(
            ws.messages,
            i,
            image,
            output_dir(root, ws.columns[i], image),
            active_formats_of(plan.formats),
        ),
    }
}

/// The images of column `i` that a plan renders.
pub open spec fn chosen_images(ws: WorkspaceModel, plan: PlanModel, i: int) -> Seq<ImageModel> {
    images_of_column(ws, i).filter(|image: ImageModel| is_chosen(plan, image))
}

/// The jobs of column `i`; an image without any text has none.
pub open spec fn jobs_of_column(
    ws: WorkspaceModel,
    plan: PlanModel,
    root: Seq<char>,
    i: int,
) -> Seq<JobModel> {
    chosen_images(ws, plan, i).map_values(
        |image: ImageModel| job_of(ws, plan, root, i, image),
    ).filter(|job: JobModel| job.renders.len() > 0)
}

/// The jobs of the first `n` columns.
pub open spec fn jobs_of(ws: WorkspaceModel, plan: PlanModel, root: Seq<char>, n: nat) -> Seq<
    JobModel,
>
    decreases n,
{
    if n == 0 {
        Seq::empty()
    } else {
        jobs_of(ws, plan, root, (n - 1) as nat) + jobs_of_column(ws, plan, root, n - 1)
    }
}

/// The output folders of the images that a plan renders in the first `n` columns.
pub open spec fn dirs_of(ws: WorkspaceModel, plan: PlanModel, root: Seq<char>, n: nat) -> Seq<
    Seq<char>,
>
    decreases n,
{
    if n == 0 {
        Seq::empty()
    } else {
        dirs_of(ws, plan, root, (n - 1) as nat) + chosen_images(ws, plan, n - 1).map_values(
            |image: ImageModel| output_dir(root, ws.columns[n - 1], image),
        )
    }
}

/// How many files renders write.
pub open spec fn outputs_of_renders(renders: Seq<RenderModel>) -> nat
    decreases renders.len(),
{
    if renders.len() == 0 {
        0
    } else {
        outputs_of_renders(renders.drop_last()) + renders.last().outputs.len()
    }
}

/// How many files jobs write.
pub open spec fn outputs_of_jobs(jobs: Seq<JobModel>) -> nat
    decreases jobs.len(),
{
    if jobs.len() == 0 {
        0
    } else {
        outputs_of_jobs(jobs.drop_last()) + outputs_of_renders(jobs.last().renders)
    }
}

/// Whether there is an image in some collection.
pub open spec fn has_images(ws: WorkspaceModel) -> bool {
    exists|k: int| 0 <= k < ws.collections.len() && #[trigger] ws.collections[k].images.len() > 0
}

/// What a batch comes to, in mathematical terms.
pub enum BatchModel {
    Skip(ResultModel),
    Run { jobs: Seq<JobModel>, out_dirs: Seq<Seq<char>>, total: nat },
}

/// What a batch comes to.
pub enum Batch {
    /// There is nothing to render, and this is the result.
    Skip(ProcessResult),
    /// The jobs, the folders that they write to, and how many files they write.
    Run { jobs: Vec<Job>, out_dirs: Vec<String>, total: usize },
}

impl DeepView for Batch {
    type V = BatchModel;

    open spec fn deep_view(&self) -> BatchModel {
        match *self {
            Batch::Skip(result) => BatchModel::Skip(result.deep_view()),
            Batch::Run { jobs, out_dirs, total } => BatchModel::Run {
                jobs: jobs.deep_view(),
                out_dirs: out_dirs.deep_view(),
                total: total as nat,
            },
        }
    }
}

/// What the batch of a workspace comes to under a plan, with outputs below `folder`.
pub open spec fn batch_of(ws: WorkspaceModel, folder: Seq<char>, plan: PlanModel) -> BatchModel {
    let root = output_root_of(folder);
    if ws.messages.len() == 0 {
        BatchModel::Skip(skipped_of(root, false, true))
    } else if !has_images(ws) {
        BatchModel::Skip(skipped_of(root, true, false))
    } else {
        let jobs = jobs_of(ws, plan, root, ws.columns.len());
        BatchModel::Run {
            jobs,
            out_dirs: first_seen(dirs_of(ws, plan, root, ws.columns.len())),
            total: outputs_of_jobs(jobs),
        }
    }
}

/// Whether a message has text for column `i`.
fn message_has_text(message: &MessageRow, i: usize) -> (has: bool)
    ensures
        has == has_text(message.deep_view(), i as int),
{
    i < message.cells.len() && !message.cells[i].as_str().is_empty()
}

/// Counts the messages with text for column `i`.
pub fn texts_for_column(messages: &Vec<MessageRow>, i: usize) -> (count: usize)
    ensures
        count == messages_with_text(messages.deep_view(), i as int).len(),
{
    let ghost all = messages.deep_view();
    let ghost p = |m: MessageModel| has_text(m, i as int);
    let mut count: usize = 0;
    let mut k: usize = 0;
    proof {
        reveal(Seq::filter);
        assert(all.take(0).filter(p).len() == 0);
    }
    while k < messages.len()
        invariant
            k <= messages@.len(),
            all == messages.deep_view(),
            p == (|m: MessageModel| has_text(m, i as int)),
            count == all.take(k as int).filter(p).len(),
            count <= k,
        decreases messages@.len() - k,
    {
        proof {
            reveal(Seq::filter);
            assert(all.take(k + 1).drop_last() =~= all.take(k as int));
            assert(all.take(k + 1).last() == messages@[k as int].deep_view());
        }
        if message_has_text(&messages[k], i) {
            count = count + 1;
        }
        k = k + 1;
    }
    assert(all.take(k as int) =~= all);
    count
}

/// The collection of that name.
fn find_collection<'a>(collections: &'a Vec<Collection>, name: &str) -> (found: Option<
    &'a Collection,
>)
    ensures
        match found {
            Some(c) => collection_named(collections.deep_view(), name@) == Some(c.deep_view()),
            None => collection_named(collections.deep_view(), name@) is None,
        },
{
    let ghost all = collections.deep_view();
    let mut i: usize = collections.len();
    assert(all.take(i as int) =~= all);
    while i > 0
        invariant
            i <= collections@.len(),
            all == collections.deep_view(),
            collection_named(all, name@) == collection_named(all.take(i as int), name@),
        decreases i,
    {
        assert(all.take(i as int).drop_last() =~= all.take(i - 1));
        assert(all.take(i as int).last() == collections@[i - 1].deep_view());
        if same_text(collections[i - 1].name.as_str(), name) {
            return Some(&collections[i - 1]);
        }
        i = i - 1;
    }
    None
}

/// The formats that a plan exports.
pub fn active_formats(names: &Vec<String>) -> (formats: Vec<Format>)
    ensures
        formats@ == active_formats_of(names.deep_view()),
{
    let ghost p = |f: Format| names.deep_view().contains(f.suffix_text());
    let mut formats: Vec<Format> = Vec::new();
    let any: bool = names.len() == 0;
    proof {
        reveal_with_fuel(Seq::filter, 3);
        let a = seq![Format::Portrait916];
        assert(all_formats().drop_last() =~= a);
        assert(a.drop_last() =~= Seq::empty());
        assert(all_formats().last() == Format::Square1x1);
        assert(a.last() == Format::Portrait916);
    }
    if any || contains_text(names, Format::Portrait916.suffix()) {
        formats.push(Format::Portrait916);
    }
    if any || contains_text(names, Format::Square1x1.suffix()) {
        formats.push(Format::Square1x1);
    }
    assert(formats@ =~= active_formats_of(names.deep_view()));
    formats
}

/// How many files the whole of column `i` comes to, over all formats.
pub open spec fn previewed_column(ws: WorkspaceModel, i: int) -> nat {
    images_of_column(ws, i).len() * messages_with_text(ws.messages, i).len() * 2
}

/// How many files the first `n` columns come to, over all formats.
pub open spec fn previewed(ws: WorkspaceModel, n: nat) -> nat
    decreases n,
{
    if n == 0 {
        0
    } else {
        previewed(ws, (n - 1) as nat) + previewed_column(ws, n - 1)
    }
}

/// How many images the first `n` collections hold.
pub open spec fn image_count(collections: Seq<CollectionModel>, n: nat) -> nat
    decreases n,
{
    if n == 0 {
        0
    } else {
        image_count(collections, (n - 1) as nat) + collections[n - 1].images.len()
    }
}

/// What a batch would render.
pub struct PreviewResult {
    pub rows: usize,
    pub images: usize,
    pub total_outputs: usize,
}

proof fn lemma_previewed_grows(ws: WorkspaceModel, m: nat, n: nat)
    requires
        m <= n,
    ensures
        previewed(ws, m) <= previewed(ws, n),
    decreases n,
{
    if m < n {
        lemma_previewed_grows(ws, m, (n - 1) as nat);
    }
}

proof fn lemma_image_count_grows(collections: Seq<CollectionModel>, m: nat, n: nat)
    requires
        m <= n,
    ensures
        image_count(collections, m) <= image_count(collections, n),
    decreases n,
{
    if m < n {
        lemma_image_count_grows(collections, m, (n - 1) as nat);
    }
}

/// Whether `result` counts what a batch over all images and formats would render; `None` stands for
/// a count that does not fit a machine word.
pub open spec fn is_preview_of(ws: WorkspaceModel, result: Option<PreviewResult>) -> bool {
    let total = previewed(ws, ws.columns.len());
    let images = image_count(ws.collections, ws.collections.len());
    match result {
        Some(r) => r.rows == ws.messages.len() && r.images == images && r.total_outputs == total,
        None => total > usize::MAX || images > usize::MAX,
    }
}

/// Counts what a batch over all images and formats would render.
pub fn count_batch(ws: &Workspace) -> (result: Option<PreviewResult>)
    ensures
        is_preview_of(ws.deep_view(), result),
{
    let ghost model = ws.deep_view();
    let mut total: usize = 0;
    let mut i: usize = 0;
    while i < ws.columns.len()
        invariant
            i <= ws.columns@.len(),
            model == ws.deep_view(),
            total == previewed(model, i as nat),
        decreases ws.columns@.len() - i,
    {
        let images: usize = match find_collection(
            &ws.collections,
            ws.columns[i].collection.as_str(),
        ) {
            Some(c) => c.images.len(),
            None => 0,
        };
        assert(model.columns[i as int].collection == ws.columns@[i as int].collection@);
        assert(images == images_of_column(model, i as int).len());
        let texts: usize = texts_for_column(&ws.messages, i);
        proof {
            lemma_previewed_grows(model, (i + 1) as nat, model.columns.len());
            assert(images * texts <= u64::MAX * u64::MAX) by (nonlinear_arith)
                requires
                    0 <= images <= u64::MAX,
                    0 <= texts <= u64::MAX,
            ;
            assert(previewed_column(model, i as int) == images * texts * 2);
        }
        let pairs: u128 = images as u128 * texts as u128;
        if pairs > usize::MAX as u128 / 2 {
            return None;
        }
        let outputs: u128 = 2 * pairs;
        if outputs > (usize::MAX - total) as u128 {
            return None;
        }
        total = total + outputs as usize;
        i = i + 1;
    }
    let mut images: usize = 0;
    let mut k: usize = 0;
    while k < ws.collections.len()
        invariant
            k <= ws.collections@.len(),
            model == ws.deep_view(),
            images == image_count(model.collections, k as nat),
        decreases ws.collections@.len() - k,
    {
        let more: usize = ws.collections[k].images.len();
        proof {
            lemma_image_count_grows(model.collections, (k + 1) as nat, model.collections.len());
            assert(model.collections[k as int] == ws.collections@[k as int].deep_view());
        }
        if more > usize::MAX - images {
            return None;
        }
        images = images + more;
        k = k + 1;
    }
    Some(PreviewResult { rows: ws.messages.len(), images, total_outputs: total })
}

/// Scans a working folder, as [`scan_workspace`] does, and counts what a batch over all images and
/// formats would render.
pub fn preview(
    folder: &str,
    listing: &Option<Vec<FsNode>>,
    workbook: &Result<Workbook, String>,
    images: &Option<Vec<FsNode>>,
) -> (result: Result<Option<PreviewResult>, String>)
    ensures
        match scanned(folder@, entries(*listing), outcome(*workbook), entries(*images)) {
            Ok(ws) => result matches Ok(r) && is_preview_of(ws, r),
            Err(error) => result matches Err(e) && e@ == error,
        },
{
    match scan_workspace(folder, listing, workbook, images) {
        Ok(ws) => Ok(count_batch(&ws)),
        Err(e) => Err(e),
    }
}

/// Name of an output file.
pub fn output_file_name(image: &ImageInfo, id: &str, format: Format) -> (name: String)
    ensures
        name@ == output_name(image.deep_view(), id@, format),
{
    image.stem.clone().concat("_").concat(sanitize_component(id).as_str()).concat("_").concat(
        format.suffix(),
    ).concat(".").concat(image.ext.as_str())
}

/// One message on one image.
fn plan_render(
    message: &MessageRow,
    i: usize,
    image: &ImageInfo,
    dir: &str,
    formats: &Vec<Format>,
) -> (render: Render)
    requires
        has_text(message.deep_view(), i as int),
    ensures
        render.deep_view() == render_of(
            message.deep_view(),
            i as int,
            image.deep_view(),
            dir@,
            formats@,
        ),
{
    let mut outputs: Vec<Output> = Vec::new();
    let mut k: usize = 0;
    while k < formats.len()
        invariant
            k <= formats@.len(),
            outputs@.len() == k,
            forall|j: int|
                0 <= j < k ==> #[trigger] outputs@[j].deep_view() == (OutputModel {
                    format: formats@[j],
                    path: joined(dir@, output_name(image.deep_view(), message.id@, formats@[j])),
                }),
        decreases formats@.len() - k,
    {
        let name = output_file_name(image, message.id.as_str(), formats[k]);
        outputs.push(Output { format: formats[k], path: join(dir, name.as_str()) });
        k = k + 1;
    }
    let render = Render { text: message.cells[i].clone(), outputs };
    assert(render.deep_view().outputs =~= render_of(
        message.deep_view(),
        i as int,
        image.deep_view(),
        dir@,
        formats@,
    ).outputs);
    render
}

/// All messages of column `i` on one image.
fn plan_renders(
    messages: &Vec<MessageRow>,
    i: usize,
    image: &ImageInfo,
    dir: &str,
    formats: &Vec<Format>,
) -> (renders: Vec<Render>)
    ensures
        renders.deep_view() == renders_of(
            messages.deep_view(),
            i as int,
            image.deep_view(),
            dir@,
            formats@,
        ),
{
    let ghost all = messages.deep_view();
    let ghost p = |m: MessageModel| has_text(m, i as int);
    let ghost f = |m: MessageModel| render_of(m, i as int, image.deep_view(), dir@, formats@);
    let mut renders: Vec<Render> = Vec::new();
    let mut k: usize = 0;
    proof {
        reveal(Seq::filter);
        assert(all.take(0).filter(p) =~= Seq::empty());
        assert(renders.deep_view() =~= all.take(0).filter(p).map_values(f));
    }
    while k < messages.len()
        invariant
            k <= messages@.len(),
            all == messages.deep_view(),
            p == (|m: MessageModel| has_text(m, i as int)),
            f == (|m: MessageModel| render_of(m, i as int, image.deep_view(), dir@, formats@)),
            renders.deep_view() == all.take(k as int).filter(p).map_values(f),
        decreases messages@.len() - k,
    {
        let ghost before = renders.deep_view();
        let ghost model = messages@[k as int].deep_view();
        proof {
            reveal(Seq::filter);
            assert(all.take(k + 1).drop_last() =~= all.take(k as int));
            assert(all.take(k + 1).last() == model);
        }
        if message_has_text(&messages[k], i) {
            renders.push(plan_render(&messages[k], i, image, dir, formats));
            assert(renders.deep_view() =~= before.push(f(model)));
            assert(all.take(k + 1).filter(p).map_values(f) =~= before.push(f(model)));
        }
        k = k + 1;
    }
    assert(all.take(k as int) =~= all);
    renders
}

/// Appends the jobs of column `i` and the folders they write to.
fn plan_column(
    ws: &Workspace,
    plan: &Plan,
    root: &str,
    formats: &Vec<Format>,
    i: usize,
    jobs: &mut Vec<Job>,
    out_dirs: &mut Vec<String>,
)
    requires
        i < ws.columns@.len(),
        formats@ == active_formats_of(plan.formats.deep_view()),
        old(jobs).deep_view() == jobs_of(ws.deep_view(), plan.deep_view(), root@, i as nat),
        old(out_dirs).deep_view() == first_seen(
            dirs_of(ws.deep_view(), plan.deep_view(), root@, i as nat),
        ),
    ensures
        final(jobs).deep_view() == jobs_of(
            ws.deep_view(),
            plan.deep_view(),
            root@,
            (i + 1) as nat,
        ),
        final(out_dirs).deep_view() == first_seen(
            dirs_of(ws.deep_view(), plan.deep_view(), root@, (i + 1) as nat),
        ),
{
    let ghost w = ws.deep_view();
    let ghost p = plan.deep_view();
    let ghost start_jobs = jobs.deep_view();
    let ghost start_dirs = dirs_of(w, p, root@, i as nat);
    let ghost column = w.columns[i as int];
    let ghost chosen = |image: ImageModel| is_chosen(p, image);
    let ghost job = |image: ImageModel| job_of(w, p, root@, i as int, image);
    let ghost dir = |image: ImageModel| output_dir(root@, column, image);
    let ghost full = |j: JobModel| j.renders.len() > 0;
    let ghost all = images_of_column(w, i as int);
    assert(column == ws.columns@[i as int].deep_view());
    let collection = match find_collection(&ws.collections, ws.columns[i].collection.as_str()) {
        Some(c) => c,
        None => {
            proof {
                reveal(Seq::filter);
                assert(all.filter(chosen) =~= Seq::empty());
                assert(chosen_images(w, p, i as int).map_values(job) =~= Seq::empty());
                assert(jobs_of_column(w, p, root@, i as int) =~= Seq::empty());
                assert(start_jobs + jobs_of_column(w, p, root@, i as int) =~= start_jobs);
                assert(start_dirs + chosen_images(w, p, i as int).map_values(dir) =~= start_dirs);
            }
            return ;
        },
    };
    let lang_dir = join(root, sanitize_component(ws.columns[i].language.as_str()).as_str());
    let images = &collection.images;
    assert(all == images.deep_view());
    let mut k: usize = 0;
    proof {
        reveal(Seq::filter);
        assert(all.take(0).filter(chosen) =~= Seq::empty());
        assert(all.take(0).filter(chosen).map_values(job) =~= Seq::empty());
        assert(all.take(0).filter(chosen).map_values(job).filter(full) =~= Seq::empty());
        assert(start_jobs + all.take(0).filter(chosen).map_values(job).filter(full)
            =~= start_jobs);
        assert(start_dirs + all.take(0).filter(chosen).map_values(dir) =~= start_dirs);
    }
    while k < images.len()
        invariant
            i < ws.columns@.len(),
            k <= images@.len(),
            w == ws.deep_view(),
            p == plan.deep_view(),
            column == w.columns[i as int],
            column == ws.columns@[i as int].deep_view(),
            all == images.deep_view(),
            formats@ == active_formats_of(p.formats),
            lang_dir@ == language_dir(root@, column),
            chosen == (|image: ImageModel| is_chosen(p, image)),
            job == (|image: ImageModel| job_of(w, p, root@, i as int, image)),
            dir == (|image: ImageModel| output_dir(root@, column, image)),
            full == (|j: JobModel| j.renders.len() > 0),
            jobs.deep_view() == start_jobs + all.take(k as int).filter(chosen).map_values(
                job,
            ).filter(full),
            out_dirs.deep_view() == first_seen(
                start_dirs + all.take(k as int).filter(chosen).map_values(dir),
            ),
        decreases images@.len() - k,
    {
        let image = &images[k];
        let ghost model = image.deep_view();
        let ghost picked = all.take(k as int).filter(chosen);
        let ghost jobs_before = jobs.deep_view();
        proof {
            reveal(Seq::filter);
            assert(all.take(k + 1).drop_last() =~= all.take(k as int));
            assert(all.take(k + 1).last() == model);
        }
        if !plan.only_selected || contains_text(&plan.selected, image.path.as_str()) {
            assert(all.take(k + 1).filter(chosen) =~= picked.push(model));
            let spec = match plan.templates_by_image.get(image.path.as_str()) {
                Some(spec) => spec,
                None => plan.default_template,
            };
            let out_dir = if image.subfolder.as_str().is_empty() {
                lang_dir.clone()
            } else {
                join(lang_dir.as_str(), image.subfolder.as_str())
            };
            assert(out_dir@ == dir(model));
            push_new(out_dirs, out_dir.as_str());
            proof {
                let now = start_dirs + picked.map_values(dir);
                let next = start_dirs + picked.push(model).map_values(dir);
                assert(next.drop_last() =~= now);
                assert(next.last() == dir(model));
            }
            let renders = plan_renders(&ws.messages, i, image, out_dir.as_str(), formats);
            let ghost planned = job(model);
            assert(renders.deep_view() == planned.renders);
            proof {
                let now = picked.map_values(job);
                let next = picked.push(model).map_values(job);
                assert(next.drop_last() =~= now);
                assert(next.last() == planned);
                reveal(Seq::filter);
            }
            if renders.len() > 0 {
                jobs.push(Job { image: image.path.clone(), spec, renders });
                assert(jobs.deep_view() =~= jobs_before.push(planned));
                assert(full(planned));
                assert(picked.push(model).map_values(job).filter(full) =~= picked.map_values(
                    job,
                ).filter(full).push(planned));
                assert(jobs.deep_view() =~= start_jobs + picked.push(model).map_values(job).filter(
                    full,
                ));
            } else {
                assert(!full(planned));
                assert(picked.push(model).map_values(job).filter(full) =~= picked.map_values(
                    job,
                ).filter(full));
            }
        } else {
            assert(all.take(k + 1).filter(chosen) =~= picked);
        }
        k = k + 1;
    }
    assert(all.take(k as int) =~= all);
}

proof fn lemma_outputs_of_jobs_grow(jobs: Seq<JobModel>, m: int)
    requires
        0 <= m <= jobs.len(),
    ensures
        outputs_of_jobs(jobs.take(m)) <= outputs_of_jobs(jobs),
    decreases jobs.len() - m,
{
    if m < jobs.len() {
        lemma_outputs_of_jobs_grow(jobs, m + 1);
        assert(jobs.take(m + 1).drop_last() =~= jobs.take(m));
    } else {
        assert(jobs.take(m) =~= jobs);
    }
}

/// Part of the renders write no more files than all of them.
pub proof fn lemma_outputs_of_renders_grow(renders: Seq<RenderModel>, m: int)
    requires
        0 <= m <= renders.len(),
    ensures
        outputs_of_renders(renders.take(m)) <= outputs_of_renders(renders),
    decreases renders.len() - m,
{
    if m < renders.len() {
        lemma_outputs_of_renders_grow(renders, m + 1);
        assert(renders.take(m + 1).drop_last() =~= renders.take(m));
    } else {
        assert(renders.take(m) =~= renders);
    }
}

/// Counts the files that renders write, on top of `start`; `None` where the count does not fit.
fn count_render_outputs(renders: &Vec<Render>, start: usize) -> (count: Option<usize>)
    ensures
        match count {
            Some(n) => n == start + outputs_of_renders(renders.deep_view()),
            None => start + outputs_of_renders(renders.deep_view()) > usize::MAX,
        },
{
    let ghost all = renders.deep_view();
    let mut count: usize = start;
    let mut i: usize = 0;
    assert(all.take(0) =~= Seq::empty());
    while i < renders.len()
        invariant
            i <= renders@.len(),
            all == renders.deep_view(),
            count == start + outputs_of_renders(all.take(i as int)),
        decreases renders@.len() - i,
    {
        let more: usize = renders[i].outputs.len();
        proof {
            assert(all.take(i + 1).drop_last() =~= all.take(i as int));
            assert(all.take(i + 1).last() == renders@[i as int].deep_view());
            lemma_outputs_of_renders_grow(all, i + 1);
        }
        if more > usize::MAX - count {
            return None;
        }
        count = count + more;
        i = i + 1;
    }
    assert(all.take(i as int) =~= all);
    Some(count)
}

/// Counts the files that jobs write; `None` where the count does not fit.
fn count_outputs(jobs: &Vec<Job>) -> (count: Option<usize>)
    ensures
        match count {
            Some(n) => n == outputs_of_jobs(jobs.deep_view()),
            None => outputs_of_jobs(jobs.deep_view()) > usize::MAX,
        },
{
    let ghost all = jobs.deep_view();
    let mut count: usize = 0;
    let mut i: usize = 0;
    assert(all.take(0) =~= Seq::empty());
    while i < jobs.len()
        invariant
            i <= jobs@.len(),
            all == jobs.deep_view(),
            count == outputs_of_jobs(all.take(i as int)),
        decreases jobs@.len() - i,
    {
        proof {
            assert(all.take(i + 1).drop_last() =~= all.take(i as int));
            assert(all.take(i + 1).last() == jobs@[i as int].deep_view());
            lemma_outputs_of_jobs_grow(all, i + 1);
        }
        match count_render_outputs(&jobs[i].renders, count) {
            Some(n) => {
                count = n;
            },
            None => {
                return None;
            },
        }
        i = i + 1;
    }
    assert(all.take(i as int) =~= all);
    Some(count)
}

/// Whether there is an image in some collection.
fn any_image(collections: &Vec<Collection>, Ghost(ws): Ghost<WorkspaceModel>) -> (any: bool)
    requires
        ws.collections == collections.deep_view(),
    ensures
        any == has_images(ws),
{
    let mut i: usize = 0;
    while i < collections.len()
        invariant
            i <= collections@.len(),
            ws.collections == collections.deep_view(),
            forall|k: int| 0 <= k < i ==> #[trigger] ws.collections[k].images.len() == 0,
        decreases collections@.len() - i,
    {
        assert(ws.collections[i as int] == collections@[i as int].deep_view());
        if collections[i].images.len() > 0 {
            assert(ws.collections[i as int].images.len() > 0);
            return true;
        }
        i = i + 1;
    }
    false
}

/// Plans the batch of a workspace: one job for each column and chosen image, with one output for
/// each message and format, in `Output/<language>/<source subfolder>/` below `folder`. `None` where
/// the number of outputs does not fit a machine word.
pub fn plan_batch(ws: &Workspace, folder: &str, plan: &Plan) -> (batch: Option<Batch>)
    ensures
        match batch {
            Some(b) => b.deep_view() == batch_of(ws.deep_view(), folder@, plan.deep_view()),
            None => match batch_of(ws.deep_view(), folder@, plan.deep_view()) {
                BatchModel::Run { jobs, out_dirs, total } => total > usize::MAX,
                BatchModel::Skip(_) => false,
            },
        },
{
    let root = output_root(folder);
    if ws.messages.len() == 0 {
        return Some(Batch::Skip(skipped(root, false, true)));
    }
    if !any_image(&ws.collections, Ghost(ws.deep_view())) {
        return Some(Batch::Skip(skipped(root, true, false)));
    }
    let formats = active_formats(&plan.formats);
    let mut jobs: Vec<Job> = Vec::new();
    let mut out_dirs: Vec<String> = Vec::new();
    let mut i: usize = 0;
    assert(jobs.deep_view() =~= Seq::empty());
    assert(out_dirs.deep_view() =~= Seq::empty());
    while i < ws.columns.len()
        invariant
            i <= ws.columns@.len(),
            formats@ == active_formats_of(plan.formats.deep_view()),
            jobs.deep_view() == jobs_of(ws.deep_view(), plan.deep_view(), root@, i as nat),
            out_dirs.deep_view() == first_seen(
                dirs_of(ws.deep_view(), plan.deep_view(), root@, i as nat),
            ),
        decreases ws.columns@.len() - i,
    {
        plan_column(ws, plan, root.as_str(), &formats, i, &mut jobs, &mut out_dirs);
        i = i + 1;
    }
    match count_outputs(&jobs) {
        Some(total) => Some(Batch::Run { jobs, out_dirs, total }),
        None => None,
    }
}

} // verus!
