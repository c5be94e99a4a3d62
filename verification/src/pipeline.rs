//! From a working folder to a workspace: the parsed sheet and the image collections it refers to.
use vstd::prelude::*;

use crate::listing::{
    collection_dir, find_spreadsheet, first_sheet, image_info, image_of, resolve_collection_dir,
    sorted_images, walk_images, Found, FoundModel, FsEntry, FsNode, ImageInfo, ImageModel,
};
use crate::paths::{join, joined};
use crate::spreadsheet::{
    parse, parsed, LangColumn, LangColumnModel, MessageModel, MessageRow, SheetData,
    SheetModel,
};
use crate::text::{outcome, same_text};
use crate::workbook::{BookModel, Workbook};

verus! {

/// Folder of the outputs in the working folder.
pub const OUTPUT_DIR_NAME: &'static str = "Output";

/// Folder of the image collections in the working folder.
pub const IMAGES_DIR_NAME: &'static str = "Images";

/// An image collection, in mathematical terms.
pub struct CollectionModel {
    pub name: Seq<char>,
    pub folder: Seq<char>,
    pub images: Seq<ImageModel>,
}

/// An image collection.
pub struct Collection {
    /// Name as written in the first row of the sheet.
    pub name: String,
    /// The folder it was found as (empty: not found).
    pub folder: String,
    pub images: Vec<ImageInfo>,
}

impl DeepView for Collection {
    type V = CollectionModel;

    open spec fn deep_view(&self) -> CollectionModel {
        CollectionModel {
            name: self.name@,
            folder: self.folder@,
            images: self.images.deep_view(),
        }
    }
}

/// A workspace, in mathematical terms.
pub struct WorkspaceModel {
    pub columns: Seq<LangColumnModel>,
    pub messages: Seq<MessageModel>,
    pub collections: Seq<CollectionModel>,
    pub output_root: Seq<char>,
    pub warnings: Seq<Seq<char>>,
}

/// The parsed sheet and the image collections of one working folder.
pub struct Workspace {
    pub columns: Vec<LangColumn>,
    pub messages: Vec<MessageRow>,
    pub collections: Vec<Collection>,
    pub output_root: String,
    pub warnings: Vec<String>,
}

impl DeepView for Workspace {
    type V = WorkspaceModel;

    open spec fn deep_view(&self) -> WorkspaceModel {
        WorkspaceModel {
            columns: self.columns.deep_view(),
            messages: self.messages.deep_view(),
            collections: self.collections.deep_view(),
            output_root: self.output_root@,
            warnings: self.warnings.deep_view(),
        }
    }
}

/// Folder of the outputs of a working folder.
pub open spec fn output_root_of(folder: Seq<char>) -> Seq<char> {
    joined(folder, OUTPUT_DIR_NAME@)
}

/// Folder of the outputs of a working folder.
pub fn output_root(folder: &str) -> (root: String)
    ensures
        root@ == output_root_of(folder@),
{
    join(folder, OUTPUT_DIR_NAME)
}

/// The texts of `s` without repetition, each where it is first seen.
pub open spec fn first_seen(s: Seq<Seq<char>>) -> Seq<Seq<char>>
    decreases s.len(),
{
    if s.len() == 0 {
        Seq::empty()
    } else {
        let before = first_seen(s.drop_last());
        if before.contains(s.last()) {
            before
        } else {
            before.push(s.last())
        }
    }
}

/// Leaving repetition out leaves every text, once.
pub proof fn lemma_first_seen(s: Seq<Seq<char>>)
    ensures
        forall|t: Seq<char>| s.contains(t) <==> #[trigger] first_seen(s).contains(t),
        first_seen(s).no_duplicates(),
    decreases s.len(),
{
    if s.len() > 0 {
        lemma_first_seen(s.drop_last());
        let before = first_seen(s.drop_last());
        let all = first_seen(s);
        assert forall|t: Seq<char>| s.contains(t) <==> #[trigger] all.contains(t) by {
            if s.contains(t) {
                let k = choose|k: int| 0 <= k < s.len() && s[k] == t;
                if k < s.len() - 1 {
                    assert(s.drop_last()[k] == t);
                    assert(before.contains(t));
                    let m = choose|m: int| 0 <= m < before.len() && before[m] == t;
                    assert(all[m] == t);
                } else if !before.contains(t) {
                    assert(all.last() == t);
                } else {
                    assert(all == before);
                }
            }
            if all.contains(t) {
                let m = choose|m: int| 0 <= m < all.len() && all[m] == t;
                if m < before.len() {
                    assert(before[m] == t);
                    assert(before.contains(t));
                    assert(s.drop_last().contains(t));
                    let k = choose|k: int| 0 <= k < s.drop_last().len() && s.drop_last()[k] == t;
                    assert(s[k] == t);
                } else {
                    assert(s[s.len() - 1] == t);
                }
            }
        }
    }
}

/// Whether a list holds a text.
pub fn contains_text(list: &Vec<String>, text: &str) -> (found: bool)
    ensures
        found == list.deep_view().contains(text@),
{
    let mut i: usize = 0;
    while i < list.len()
        invariant
            i <= list@.len(),
            forall|k: int| 0 <= k < i ==> #[trigger] list.deep_view()[k] != text@,
        decreases list@.len() - i,
    {
        if same_text(list[i].as_str(), text) {
            assert(list.deep_view()[i as int] == text@);
            return true;
        }
        assert(list.deep_view()[i as int] == list@[i as int]@);
        i = i + 1;
    }
    assert(!list.deep_view().contains(text@));
    false
}

/// Appends a text to a list without repetition.
pub fn push_new(list: &mut Vec<String>, text: &str)
    ensures
        final(list).deep_view() == (if old(list).deep_view().contains(text@) {
            old(list).deep_view()
        } else {
            old(list).deep_view().push(text@)
        }),
{
    if !contains_text(list, text) {
        let ghost before = list.deep_view();
        list.push(text.to_string());
        assert(list.deep_view() =~= before.push(text@));
    }
}

/// The names of the collections that columns refer to, each once, in the order of the columns.
pub open spec fn collection_names(columns: Seq<LangColumnModel>) -> Seq<Seq<char>> {
    first_seen(columns.map_values(|c: LangColumnModel| c.collection))
}

/// The folder of the collection `name`, where the image folder has one.
pub open spec fn dir_of(images: Option<Seq<FsNode>>, name: Seq<char>) -> Option<FsNode> {
    match images {
        Some(nodes) => collection_dir(nodes, name),
        None => None,
    }
}

/// The images below a collection folder at `dir`, in the order of their paths.
pub open spec fn images_of_dir(node: FsNode, dir: Seq<char>) -> Seq<ImageModel> {
    match node.entry {
        FsEntry::Dir(children) => sorted_images(children@).map_values(
            |f: FoundModel| image_of(f, dir),
        ),
        _ => Seq::empty(),
    }
}

/// The collection `name`.
pub open spec fn collection_of(
    images: Option<Seq<FsNode>>,
    images_root: Seq<char>,
    name: Seq<char>,
) -> CollectionModel {
    match dir_of(images, name) {
        Some(node) => {
            let dir = joined(images_root, node.name@);
            CollectionModel { name, folder: dir, images: images_of_dir(node, dir) }
        },
        None => CollectionModel { name, folder: Seq::empty(), images: Seq::empty() },
    }
}

/// What there is to warn of about the collection `name`.
pub open spec fn warning_of(
    images: Option<Seq<FsNode>>,
    images_root: Seq<char>,
    name: Seq<char>,
) -> Option<Seq<char>> {
    if dir_of(images, name) is None {
        Some("Collection \""@ + name + "\" not found under Images/."@)
    } else if collection_of(images, images_root, name).images.len() == 0 {
        Some("Collection \""@ + name + "\" has no images under Images/."@)
    } else {
        None
    }
}

/// The workspace of the folder `folder`, with the sheet `sheet` and the entries `images` of its
/// image folder.
pub open spec fn workspace_of(
    folder: Seq<char>,
    sheet: SheetModel,
    images: Option<Seq<FsNode>>,
) -> WorkspaceModel {
    let names = collection_names(sheet.columns);
    let root = joined(folder, IMAGES_DIR_NAME@);
    WorkspaceModel {
        columns: sheet.columns,
        messages: sheet.messages,
        collections: names.map_values(|name: Seq<char>| collection_of(images, root, name)),
        output_root: output_root_of(folder),
        warnings: names.filter_map(|name: Seq<char>| warning_of(images, root, name)),
    }
}

/// The entries of a folder that could be read.
pub open spec fn entries(listing: Option<Vec<FsNode>>) -> Option<Seq<FsNode>> {
    match listing {
        Some(nodes) => Some(nodes@),
        None => None,
    }
}

/// The first spreadsheet of a folder.
pub open spec fn sheet_name(listing: Option<Seq<FsNode>>) -> Option<Seq<char>> {
    match listing {
        Some(nodes) => first_sheet(nodes),
        None => None,
    }
}

/// What scanning the folder `folder` gives: `listing` are its entries, `workbook` what its
/// spreadsheet gives, `images` the entries of its image folder.
pub open spec fn scanned(
    folder: Seq<char>,
    listing: Option<Seq<FsNode>>,
    workbook: Result<BookModel, Seq<char>>,
    images: Option<Seq<FsNode>>,
) -> Result<WorkspaceModel, Seq<char>> {
    match sheet_name(listing) {
        None => Err("No spreadsheet (.xlsx) found in the working folder."@),
        Some(name) => match parsed(joined(folder, name), workbook) {
            Err(e) => Err(e),
            Ok(sheet) => Ok(workspace_of(folder, sheet, images)),
        },
    }
}

/// Describes the images below a collection folder, in the order of their paths.
fn collect_images(node: &FsNode, dir: &str) -> (images: Vec<ImageInfo>)
    ensures
        images.deep_view() == images_of_dir(*node, dir@),
{
    let mut images: Vec<ImageInfo> = Vec::new();
    match &node.entry {
        FsEntry::Dir(children) => {
            let mut found: Vec<Found> = Vec::new();
            assert(found.deep_view() =~= Seq::empty());
            walk_images(children, &mut found);
            let sorted = found;
            assert(sorted.deep_view() =~= sorted_images(children@));
            let mut i: usize = 0;
            while i < sorted.len()
                invariant
                    i <= sorted@.len(),
                    images@.len() == i,
                    forall|k: int|
                        0 <= k < i ==> #[trigger] images@[k].deep_view() == image_of(
                            sorted@[k].deep_view(),
                            dir@,
                        ),
                decreases sorted@.len() - i,
            {
                images.push(image_info(&sorted[i], dir));
                i = i + 1;
            }
            assert(images.deep_view() =~= images_of_dir(*node, dir@));
        },
        _ => {
            assert(images.deep_view() =~= Seq::empty());
        },
    }
    images
}

/// The names of the collections that columns refer to.
fn names_in_columns(columns: &Vec<LangColumn>) -> (names: Vec<String>)
    ensures
        names.deep_view() == collection_names(columns.deep_view()),
{
    let ghost all = columns.deep_view().map_values(|c: LangColumnModel| c.collection);
    let mut names: Vec<String> = Vec::new();
    let mut i: usize = 0;
    assert(names.deep_view() =~= first_seen(all.take(0)));
    while i < columns.len()
        invariant
            i <= columns@.len(),
            all == columns.deep_view().map_values(|c: LangColumnModel| c.collection),
            names.deep_view() == first_seen(all.take(i as int)),
        decreases columns@.len() - i,
    {
        push_new(&mut names, columns[i].collection.as_str());
        assert(all.take(i + 1).drop_last() =~= all.take(i as int));
        assert(all.take(i + 1).last() == columns@[i as int].collection@);
        i = i + 1;
    }
    assert(all.take(i as int) =~= all);
    names
}

/// Resolves one collection, with what there is to warn of about it.
fn resolve_collection(images: &Option<Vec<FsNode>>, images_root: &str, name: &str) -> (resolved: (
    Collection,
    Option<String>,
))
    ensures
        resolved.0.deep_view() == collection_of(entries(*images), images_root@, name@),
        resolved.1.deep_view() == warning_of(entries(*images), images_root@, name@),
{
    let dir = match images {
        Some(nodes) => resolve_collection_dir(nodes, name),
        None => None,
    };
    match dir {
        Some(node) => {
            let folder = join(images_root, node.name.as_str());
            let list = collect_images(node, folder.as_str());
            let warning = if list.len() == 0 {
                Some(
                    "Collection \"".to_string().concat(name).concat(
                        "\" has no images under Images/.",
                    ),
                )
            } else {
                None
            };
            (Collection { name: name.to_string(), folder, images: list }, warning)
        },
        None => {
            let list: Vec<ImageInfo> = Vec::new();
            assert(list.deep_view() =~= Seq::empty());
            let warning = "Collection \"".to_string().concat(name).concat(
                "\" not found under Images/.",
            );
            (
                Collection { name: name.to_string(), folder: String::new(), images: list },
                Some(warning),
            )
        },
    }
}

/// Builds the workspace of a folder from its sheet and the entries of its image folder.
pub fn build_workspace(folder: &str, data: SheetData, images: &Option<Vec<FsNode>>) -> (workspace:
    Workspace)
    ensures
        workspace.deep_view() == workspace_of(folder@, data.deep_view(), entries(*images)),
{
    let images_root = join(folder, IMAGES_DIR_NAME);
    let ghost root = images_root@;
    let ghost nodes = entries(*images);
    let names = names_in_columns(&data.columns);
    let ghost all = names.deep_view();
    let ghost warn = |name: Seq<char>| warning_of(nodes, root, name);
    let mut collections: Vec<Collection> = Vec::new();
    let mut warnings: Vec<String> = Vec::new();
    let mut i: usize = 0;
    assert(all.take(0) =~= Seq::empty());
    assert(warnings.deep_view() =~= all.take(0).filter_map(warn));
    while i < names.len()
        invariant
            i <= names@.len(),
            all == names.deep_view(),
            root == images_root@,
            nodes == entries(*images),
            warn == (|name: Seq<char>| warning_of(nodes, root, name)),
            collections@.len() == i,
            forall|k: int|
                0 <= k < i ==> #[trigger] collections@[k].deep_view() == collection_of(
                    nodes,
                    root,
                    all[k],
                ),
            warnings.deep_view() == all.take(i as int).filter_map(warn),
        decreases names@.len() - i,
    {
        let ghost before = warnings.deep_view();
        let (collection, warning) = resolve_collection(
            images,
            images_root.as_str(),
            names[i].as_str(),
        );
        collections.push(collection);
        proof {
            assert(all[i as int] == names@[i as int]@);
            all.lemma_filter_map_take_succ(warn, i as int);
        }
        match warning {
            Some(w) => {
                let ghost text = w@;
                warnings.push(w);
                assert(warnings.deep_view() =~= before + seq![text]);
            },
            None => {},
        }
        assert(warnings.deep_view() =~= all.take(i + 1).filter_map(warn));
        i = i + 1;
    }
    assert(all.take(i as int) =~= all);
    let workspace = Workspace {
        columns: data.columns,
        messages: data.messages,
        collections,
        output_root: output_root(folder),
        warnings,
    };
    assert(workspace.deep_view().collections =~= workspace_of(
        folder@,
        data.deep_view(),
        nodes,
    ).collections);
    workspace
}

/// Scans a working folder: parses its sheet and resolves every collection that the sheet refers to.
/// `listing` are the entries of the folder, `workbook` is what the spreadsheet that
/// [`find_spreadsheet`] finds in it gives, `images` are the entries of its image folder.
pub fn scan_workspace(
    folder: &str,
    listing: &Option<Vec<FsNode>>,
    workbook: &Result<Workbook, String>,
    images: &Option<Vec<FsNode>>,
) -> (workspace: Result<Workspace, String>)
    ensures
        outcome(workspace) == scanned(
            folder@,
            entries(*listing),
            outcome(*workbook),
            entries(*images),
        ),
{
    let name = match listing {
        Some(nodes) => find_spreadsheet(nodes),
        None => None,
    };
    match name {
        None => Err("No spreadsheet (.xlsx) found in the working folder.".to_string()),
        Some(name) => {
            let path = join(folder, name.as_str());
            match parse(path.as_str(), workbook) {
                Err(e) => Err(e),
                Ok(data) => Ok(build_workspace(folder, data, images)),
            }
        },
    }
}

/// A workspace has one collection for each name that a column refers to, and no other, in the order
/// in which the columns first refer to them.
pub proof fn lemma_collections_match_columns(
    folder: Seq<char>,
    sheet: SheetModel,
    images: Option<Seq<FsNode>>,
)
    ensures
        ({
            let ws = workspace_of(folder, sheet, images);
            &&& forall|i: int|
                0 <= i < ws.columns.len() ==> exists|k: int|
                    0 <= k < ws.collections.len() && #[trigger] ws.collections[k].name == (
                    #[trigger] ws.columns[i]).collection
            &&& forall|k: int|
                0 <= k < ws.collections.len() ==> exists|i: int|
                    0 <= i < ws.columns.len() && (#[trigger] ws.columns[i]).collection == (
                    #[trigger] ws.collections[k]).name
            &&& forall|j: int, k: int|
                0 <= j < k < ws.collections.len() ==> (#[trigger] ws.collections[j]).name != (
                #[trigger] ws.collections[k]).name
        }),
{
    let ws = workspace_of(folder, sheet, images);
    let refs = sheet.columns.map_values(|c: LangColumnModel| c.collection);
    let names = collection_names(sheet.columns);
    lemma_first_seen(refs);
    assert forall|k: int| 0 <= k < ws.collections.len() implies #[trigger] ws.collections[k].name
        == names[k] by {};
    assert forall|i: int| 0 <= i < ws.columns.len() implies exists|k: int|
        0 <= k < ws.collections.len() && #[trigger] ws.collections[k].name == (
        #[trigger] ws.columns[i]).collection by {
        assert(refs[i] == ws.columns[i].collection);
        assert(refs.contains(refs[i]));
        assert(names.contains(refs[i]));
        let k = choose|k: int| 0 <= k < names.len() && names[k] == refs[i];
        assert(ws.collections[k].name == names[k]);
    }
    assert forall|k: int| 0 <= k < ws.collections.len() implies exists|i: int|
        0 <= i < ws.columns.len() && (#[trigger] ws.columns[i]).collection == (
        #[trigger] ws.collections[k]).name by {
        assert(names.contains(names[k]));
        assert(refs.contains(names[k]));
        let i = choose|i: int| 0 <= i < refs.len() && refs[i] == names[k];
        assert(ws.columns[i].collection == refs[i]);
    }
}

/// There is a warning for every collection without images, and for no other.
pub proof fn lemma_warned_where_empty(
    images: Option<Seq<FsNode>>,
    images_root: Seq<char>,
    name: Seq<char>,
)
    ensures
        warning_of(images, images_root, name) is Some <==> collection_of(
            images,
            images_root,
            name,
        ).images.len() == 0,
{
}

} // verus!
