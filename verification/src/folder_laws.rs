//! What holds of every scan of a folder, entry by entry: what is found, in which order, and what is
//! said of it.
use vstd::prelude::*;

use crate::compositor::Kind;
use crate::listing::{
    collection_dir, first_sheet, first_sheet_entry, found_le, image_of, images_in, images_in_node,
    is_collection_dir, is_first_sheet, is_sheet_file, joined_raw, last_slash, lemma_found_order,
    lex_le, path_le, sorted_images, FoundModel, FsEntry, FsNode, ImageModel,
};
use crate::listing_laws::lemma_some_sheet_is_first;
use crate::order_laws::{lemma_filter_map_picks, picks};
use crate::paths::{joined, name_extension, name_stem};
use crate::pipeline::{
    collection_names, collection_of, dir_of, first_seen, lemma_first_seen, scanned, warning_of,
    workspace_of, WorkspaceModel,
};
use crate::spreadsheet::{has_sheet_extension, parsed, LangColumnModel, SheetModel};
use crate::text::{lowered, replaced};
use crate::workbook::BookModel;

verus! {

/// Whether two sequences agree before place `k` and `before` puts that of the first before that of
/// the second there.
pub open spec fn differ_at<T>(a: Seq<T>, b: Seq<T>, k: int, before: spec_fn(T, T) -> bool) -> bool {
    &&& 0 <= k < a.len()
    &&& k < b.len()
    &&& forall|i: int| 0 <= i < k ==> #[trigger] a[i] == b[i]
    &&& a[k] != b[k]
    &&& before(a[k], b[k])
}

proof fn lemma_lex_by_first_difference<T>(a: Seq<T>, b: Seq<T>, before: spec_fn(T, T) -> bool)
    ensures
        lex_le(a, b, before) <==> (a.len() <= b.len() && forall|i: int|
            0 <= i < a.len() ==> #[trigger] a[i] == b[i]) || exists|k: int| #[trigger]
            differ_at(a, b, k, before),
    decreases a.len(),
{
    if a.len() > 0 && b.len() > 0 {
        if a[0] == b[0] {
            let x = a.drop_first();
            let y = b.drop_first();
            lemma_lex_by_first_difference(x, y, before);
            assert forall|i: int| 1 <= i < a.len() implies x[i - 1] == #[trigger] a[i] by {};
            assert forall|i: int| 1 <= i < b.len() implies y[i - 1] == #[trigger] b[i] by {};
            if x.len() <= y.len() && forall|i: int| 0 <= i < x.len() ==> #[trigger] x[i] == y[i] {
                assert forall|i: int| 0 <= i < a.len() implies #[trigger] a[i] == b[i] by {
                    if i > 0 {
                        assert(x[i - 1] == y[i - 1]);
                    }
                }
            }
            if a.len() <= b.len() && forall|i: int| 0 <= i < a.len() ==> #[trigger] a[i] == b[i] {
                assert forall|i: int| 0 <= i < x.len() implies #[trigger] x[i] == y[i] by {
                    assert(a[i + 1] == b[i + 1]);
                }
            }
            if exists|k: int| #[trigger] differ_at(x, y, k, before) {
                let k = choose|k: int| #[trigger] differ_at(x, y, k, before);
                assert forall|i: int| 0 <= i < k + 1 implies #[trigger] a[i] == b[i] by {
                    if i > 0 {
                        assert(x[i - 1] == y[i - 1]);
                    }
                }
                assert(differ_at(a, b, k + 1, before));
            }
            if exists|k: int| #[trigger] differ_at(a, b, k, before) {
                let k = choose|k: int| #[trigger] differ_at(a, b, k, before);
                assert forall|i: int| 0 <= i < k - 1 implies #[trigger] x[i] == y[i] by {
                    assert(a[i + 1] == b[i + 1]);
                }
                assert(differ_at(x, y, k - 1, before));
            }
        } else {
            if before(a[0], b[0]) {
                assert(differ_at(a, b, 0, before));
            }
            if exists|k: int| #[trigger] differ_at(a, b, k, before) {
                let k = choose|k: int| #[trigger] differ_at(a, b, k, before);
                assert(k == 0);
            }
        }
    }
}

/// Whether the byte `x` of a path comes before `y`: the separator, which is 47, comes before any
/// other, and those by their value.
pub open spec fn by_byte() -> spec_fn(u8, u8) -> bool {
    |x: u8, y: u8| x == 47 || (y != 47 && x < y)
}

/// Whether the character `x` comes before `y`.
pub open spec fn by_character() -> spec_fn(char, char) -> bool {
    |x: char, y: char| x < y
}

/// Paths are ordered by the first byte in which they differ, the separator before any other byte; a
/// path comes before those that it begins.
pub proof fn lemma_paths_by_first_difference(a: Seq<u8>, b: Seq<u8>)
    ensures
        path_le(a, b) <==> (a.len() <= b.len() && forall|i: int|
            0 <= i < a.len() ==> #[trigger] a[i] == b[i]) || exists|k: int| #[trigger]
            differ_at(a, b, k, by_byte()),
{
    let before = |x: u8, y: u8| crate::listing::byte_before(x, y);
    lemma_lex_by_first_difference(a, b, before);
    if exists|k: int| #[trigger] differ_at(a, b, k, before) {
        let k = choose|k: int| #[trigger] differ_at(a, b, k, before);
        assert(differ_at(a, b, k, by_byte()));
    }
    if exists|k: int| #[trigger] differ_at(a, b, k, by_byte()) {
        let k = choose|k: int| #[trigger] differ_at(a, b, k, by_byte());
        assert(differ_at(a, b, k, before));
    }
}

/// Texts are ordered by the first character in which they differ; a text comes before those that it
/// begins. Found images are ordered by their paths, and only where those are the same by their
/// texts.
pub proof fn lemma_found_by_path(a: FoundModel, b: FoundModel)
    ensures
        a.raw != b.raw ==> (found_le(a, b) <==> path_le(a.raw, b.raw)),
        a.raw == b.raw && a.rel != b.rel ==> (found_le(a, b) <==> (a.rel.len() <= b.rel.len()
            && forall|i: int| 0 <= i < a.rel.len() ==> #[trigger] a.rel[i] == b.rel[i]) || exists|
            k: int,
        | #[trigger] differ_at(a.rel, b.rel, k, by_character())),
        a.raw == b.raw && a.rel == b.rel ==> (found_le(a, b) <==> !a.exact || b.exact),
{
    let before = |x: char, y: char| x < y;
    lemma_lex_by_first_difference(a.rel, b.rel, before);
    if exists|k: int| #[trigger] differ_at(a.rel, b.rel, k, before) {
        let k = choose|k: int| #[trigger] differ_at(a.rel, b.rel, k, before);
        assert(differ_at(a.rel, b.rel, k, by_character()));
    }
    if exists|k: int| #[trigger] differ_at(a.rel, b.rel, k, by_character()) {
        let k = choose|k: int| #[trigger] differ_at(a.rel, b.rel, k, by_character());
        assert(differ_at(a.rel, b.rel, k, before));
    }
}

/// The images below a folder are given all of them, as often as they are found.
pub proof fn lemma_images_all_given(nodes: Seq<FsNode>)
    ensures
        sorted_images(nodes).to_multiset() == images_in(
            nodes,
            Seq::empty(),
            Seq::empty(),
        ).to_multiset(),
        sorted_images(nodes).len() == images_in(nodes, Seq::empty(), Seq::empty()).len(),
{
    let le = |a: FoundModel, b: FoundModel| found_le(a, b);
    let found = images_in(nodes, Seq::empty(), Seq::empty());
    lemma_found_order();
    found.lemma_sort_by_ensures(le);
    broadcast use vstd::seq_lib::group_to_multiset_ensures;

    assert(sorted_images(nodes).to_multiset().len() == found.to_multiset().len());
}

/// The images below a folder are given in the order of their paths.
pub proof fn lemma_images_in_order_of_paths(nodes: Seq<FsNode>, j: int, k: int)
    requires
        0 <= j < k < sorted_images(nodes).len(),
    ensures
        ({
            let a = sorted_images(nodes)[j].raw;
            let b = sorted_images(nodes)[k].raw;
            a == b || (a.len() < b.len() && forall|i: int|
                0 <= i < a.len() ==> #[trigger] a[i] == b[i]) || exists|d: int| #[trigger]
                differ_at(a, b, d, by_byte())
        }),
{
    let le = |a: FoundModel, b: FoundModel| found_le(a, b);
    let found = images_in(nodes, Seq::empty(), Seq::empty());
    let sorted = sorted_images(nodes);
    lemma_found_order();
    found.lemma_sort_by_ensures(le);
    assert(le(sorted[j], sorted[k]));
    let a = sorted[j].raw;
    let b = sorted[k].raw;
    lemma_paths_by_first_difference(a, b);
    if a.len() == b.len() && forall|i: int| 0 <= i < a.len() ==> #[trigger] a[i] == b[i] {
        assert(a =~= b);
    }
}

/// What is found below a folder is found entry by entry: below a subfolder all that is found below
/// it, under its name; of a file the file itself where it is a picture by its name; and of anything
/// else nothing.
pub proof fn lemma_found_entry_by_entry(
    a: Seq<FsNode>,
    b: Seq<FsNode>,
    node: FsNode,
    prefix: Seq<char>,
    raw: Seq<u8>,
)
    ensures
        images_in(a + b, prefix, raw) == images_in(a, prefix, raw) + images_in(b, prefix, raw),
        images_in(Seq::empty(), prefix, raw) == Seq::<FoundModel>::empty(),
        ({
            let path = joined(prefix, node.name@);
            let bytes = if raw.len() == 0 {
                node.raw@
            } else {
                raw + seq![47u8] + node.raw@
            };
            match node.entry {
                FsEntry::Dir(children) => images_in(seq![node], prefix, raw) == images_in(
                    children@,
                    path,
                    bytes,
                ),
                FsEntry::File => images_in(seq![node], prefix, raw) == (if Kind::of_path(
                    node.name@,
                ) is Some {
                    seq![FoundModel { rel: path, raw: bytes, exact: node.exact }]
                } else {
                    Seq::empty()
                }),
                FsEntry::Other => images_in(seq![node], prefix, raw).len() == 0,
            }
        }),
    decreases b.len(),
{
    let one = seq![node];
    assert(one.drop_last() =~= Seq::empty());
    assert(one.last() == node);
    assert(images_in(one.drop_last(), prefix, raw) =~= Seq::empty());
    assert(images_in(one, prefix, raw) =~= images_in_node(node, prefix, raw));
    assert(raw.len() > 0 ==> raw.push(47u8) + node.raw@ =~= raw + seq![47u8] + node.raw@);
    assert(joined_raw(raw, node.raw@) == if raw.len() == 0 {
        node.raw@
    } else {
        raw + seq![47u8] + node.raw@
    });
    if b.len() == 0 {
        assert(a + b =~= a);
        assert(images_in(b, prefix, raw) =~= Seq::empty());
        assert(images_in(a, prefix, raw) + images_in(b, prefix, raw) =~= images_in(a, prefix, raw));
    } else {
        lemma_found_entry_by_entry(a, b.drop_last(), node, prefix, raw);
        assert((a + b).drop_last() =~= a + b.drop_last());
        assert((a + b).last() == b.last());
        assert(images_in(a + b, prefix, raw) =~= images_in(a, prefix, raw) + images_in(
            b,
            prefix,
            raw,
        ));
    }
}

/// The image that is reached by taking, level by level, the entries at the places `way`.
pub open spec fn found_at(
    nodes: Seq<FsNode>,
    way: Seq<int>,
    prefix: Seq<char>,
    raw: Seq<u8>,
) -> Option<FoundModel>
    decreases way.len(),
{
    if way.len() == 0 || !(0 <= way[0] < nodes.len()) {
        None
    } else {
        let node = nodes[way[0]];
        let path = joined(prefix, node.name@);
        let bytes = if raw.len() == 0 {
            node.raw@
        } else {
            raw + seq![47u8] + node.raw@
        };
        match node.entry {
            FsEntry::Dir(children) => found_at(children@, way.drop_first(), path, bytes),
            FsEntry::File => if way.len() == 1 && Kind::of_path(node.name@) is Some {
                Some(FoundModel { rel: path, raw: bytes, exact: node.exact })
            } else {
                None
            },
            FsEntry::Other => None,
        }
    }
}

/// An image is found exactly where there is a way to it, through folders of any depth.
pub proof fn lemma_found_where_there_is_a_way(
    nodes: Seq<FsNode>,
    prefix: Seq<char>,
    raw: Seq<u8>,
    found: FoundModel,
)
    ensures
        images_in(nodes, prefix, raw).contains(found) <==> exists|way: Seq<int>| #[trigger]
            found_at(nodes, way, prefix, raw) == Some(found),
    decreases nodes,
{
    let all = images_in(nodes, prefix, raw);
    if nodes.len() > 0 {
        let n = nodes.len() - 1;
        let front = nodes.drop_last();
        let before = images_in(front, prefix, raw);
        let node = nodes.last();
        let more = images_in_node(node, prefix, raw);
        lemma_found_where_there_is_a_way(front, prefix, raw, found);
        lemma_node_where_there_is_a_way(node, prefix, raw, found);
        if all.contains(found) {
            let k = choose|k: int| 0 <= k < all.len() && all[k] == found;
            if k < before.len() {
                assert(before[k] == found);
                assert(before.contains(found));
                let way = choose|way: Seq<int>| #[trigger]
                    found_at(front, way, prefix, raw) == Some(found);
                assert(nodes[way[0]] == front[way[0]]);
                assert(found_at(nodes, way, prefix, raw) == Some(found));
            } else {
                assert(more[k - before.len()] == found);
                assert(more.contains(found));
                let way = choose|way: Seq<int>| #[trigger]
                    found_at(seq![node], way, prefix, raw) == Some(found);
                let here = way.update(0, n);
                assert(here.drop_first() =~= way.drop_first());
                assert(found_at(nodes, here, prefix, raw) == Some(found));
            }
        }
        if exists|way: Seq<int>| #[trigger] found_at(nodes, way, prefix, raw) == Some(found) {
            let way = choose|way: Seq<int>| #[trigger]
                found_at(nodes, way, prefix, raw) == Some(found);
            if way[0] < n {
                assert(nodes[way[0]] == front[way[0]]);
                assert(found_at(front, way, prefix, raw) == Some(found));
                let k = choose|k: int| 0 <= k < before.len() && before[k] == found;
                assert(all[k] == found);
            } else {
                let here = way.update(0, 0);
                assert(here.drop_first() =~= way.drop_first());
                assert(seq![node][0] == nodes[way[0]]);
                assert(found_at(seq![node], here, prefix, raw) == Some(found));
                let k = choose|k: int| 0 <= k < more.len() && more[k] == found;
                assert(all[before.len() + k] == found);
            }
        }
    } else {
        assert(all =~= Seq::empty());
    }
}

proof fn lemma_node_where_there_is_a_way(
    node: FsNode,
    prefix: Seq<char>,
    raw: Seq<u8>,
    found: FoundModel,
)
    ensures
        images_in_node(node, prefix, raw).contains(found) <==> exists|way: Seq<int>| #[trigger]
            found_at(seq![node], way, prefix, raw) == Some(found),
    decreases node,
{
    let path = joined(prefix, node.name@);
    let bytes = joined_raw(raw, node.raw@);
    let all = images_in_node(node, prefix, raw);
    assert(raw.len() > 0 ==> raw.push(47u8) + node.raw@ =~= raw + seq![47u8] + node.raw@);
    match node.entry {
        FsEntry::Dir(children) => {
            lemma_found_where_there_is_a_way(children@, path, bytes, found);
            if all.contains(found) {
                let way = choose|way: Seq<int>| #[trigger]
                    found_at(children@, way, path, bytes) == Some(found);
                let longer = seq![0int] + way;
                assert(longer.drop_first() =~= way);
                assert(found_at(seq![node], longer, prefix, raw) == Some(found));
            }
            if exists|way: Seq<int>| #[trigger]
                found_at(seq![node], way, prefix, raw) == Some(found) {
                let way = choose|way: Seq<int>| #[trigger]
                    found_at(seq![node], way, prefix, raw) == Some(found);
                assert(found_at(children@, way.drop_first(), path, bytes) == Some(found));
            }
        },
        FsEntry::File => {
            if all.contains(found) {
                let way = seq![0int];
                assert(found_at(seq![node], way, prefix, raw) == Some(found));
            }
            if Kind::of_path(node.name@) is Some {
                assert(all[0] == FoundModel { rel: path, raw: bytes, exact: node.exact });
            }
        },
        FsEntry::Other => {},
    }
}

/// Whether an entry may drive a batch: a file, with the ending of a spreadsheet, that is no lock
/// file of an office program, whose names start with `~$`.
pub open spec fn may_drive(node: FsNode) -> bool {
    &&& node.entry is File
    &&& has_sheet_extension(node.name@)
    &&& node.exact ==> !(node.name@.len() >= 2 && node.name@[0] == '~' && node.name@[1] == '$')
}

proof fn lemma_may_drive(node: FsNode)
    ensures
        may_drive(node) <==> is_sheet_file(node),
{
    reveal_strlit("~$");
    let lock = "~$"@;
    let name = node.name@;
    assert(lock.len() == 2 && lock[0] == '~' && lock[1] == '$');
    if lock.is_prefix_of(name) {
        assert(name.subrange(0, 2)[0] == name[0]);
        assert(name.subrange(0, 2)[1] == name[1]);
    }
    if name.len() >= 2 && name[0] == '~' && name[1] == '$' {
        assert(name.subrange(0, 2) =~= lock);
    }
}

/// The spreadsheet of a folder is the first, by path, of the entries that may drive a batch; there
/// is none only where no entry may.
pub proof fn lemma_spreadsheet_is_first(nodes: Seq<FsNode>)
    ensures
        first_sheet_entry(nodes) is None <==> forall|k: int|
            0 <= k < nodes.len() ==> !may_drive(#[trigger] nodes[k]),
        first_sheet_entry(nodes) matches Some(i) ==> {
            &&& 0 <= i < nodes.len()
            &&& may_drive(nodes[i])
            &&& first_sheet(nodes) == Some(nodes[i].name@)
            &&& forall|k: int|
                0 <= k < nodes.len() && may_drive(#[trigger] nodes[k]) ==> path_le(
                    nodes[i].raw@,
                    nodes[k].raw@,
                ) && (nodes[k].raw@ == nodes[i].raw@ ==> i <= k)
        },
        first_sheet_entry(nodes) is None ==> first_sheet(nodes) is None,
{
    assert forall|k: int| 0 <= k < nodes.len() implies is_sheet_file(nodes[k]) == may_drive(
        #[trigger] nodes[k],
    ) by {
        lemma_may_drive(nodes[k]);
    }
    if exists|i: int| 0 <= i < nodes.len() && is_sheet_file(#[trigger] nodes[i]) {
        lemma_some_sheet_is_first(nodes);
        let i = choose|i: int| is_first_sheet(nodes, i);
        assert(is_first_sheet(nodes, i));
        assert(is_sheet_file(nodes[i]));
    }
}

/// The folder of a collection is the first entry that is a folder with its name, whatever the case
/// of the letters; there is none only where no entry is.
pub proof fn lemma_collection_folder_is_first(nodes: Seq<FsNode>, name: Seq<char>)
    ensures
        collection_dir(nodes, name) is None <==> forall|k: int|
            0 <= k < nodes.len() ==> !((#[trigger] nodes[k]).entry is Dir && nodes[k].exact
                && lowered(nodes[k].name@) == lowered(name)),
        collection_dir(nodes, name) matches Some(node) ==> exists|i: int|
            {
                &&& 0 <= i < nodes.len()
                &&& #[trigger] nodes[i] == node
                &&& node.entry is Dir
                &&& node.exact
                &&& lowered(node.name@) == lowered(name)
                &&& forall|k: int|
                    0 <= k < i ==> !((#[trigger] nodes[k]).entry is Dir && nodes[k].exact
                        && lowered(nodes[k].name@) == lowered(name))
            },
    decreases nodes.len(),
{
    if nodes.len() > 0 && !is_collection_dir(nodes[0], name) {
        let rest = nodes.drop_first();
        lemma_collection_folder_is_first(rest, name);
        assert forall|k: int| 1 <= k < nodes.len() implies rest[k - 1] == #[trigger] nodes[k] by {};
        assert forall|k: int| 0 <= k < rest.len() implies #[trigger] rest[k] == nodes[k + 1] by {};
        if collection_dir(rest, name) is Some {
            let node = collection_dir(rest, name)->Some_0;
            let i = choose|i: int|
                {
                    &&& 0 <= i < rest.len()
                    &&& #[trigger] rest[i] == node
                    &&& node.entry is Dir
                    &&& node.exact
                    &&& lowered(node.name@) == lowered(name)
                    &&& forall|k: int|
                        0 <= k < i ==> !((#[trigger] rest[k]).entry is Dir && rest[k].exact
                            && lowered(rest[k].name@) == lowered(name))
                };
            assert(nodes[i + 1] == node);
            assert forall|k: int| 0 <= k < i + 1 implies !((#[trigger] nodes[k]).entry is Dir
                && nodes[k].exact && lowered(nodes[k].name@) == lowered(name)) by {
                if k > 0 {
                    assert(rest[k - 1] == nodes[k]);
                }
            }
        }
    } else if nodes.len() > 0 {
        assert(nodes[0] == collection_dir(nodes, name)->Some_0);
    }
}

proof fn lemma_last_slash_place(folder: Seq<char>, name: Seq<char>)
    requires
        !name.contains('/'),
    ensures
        last_slash(folder.push('/') + name) == folder.len(),
        last_slash(name) == -1,
    decreases name.len(),
{
    let path = folder.push('/') + name;
    if name.len() == 0 {
        assert(path =~= folder.push('/'));
    } else {
        let front = name.drop_last();
        assert(name.contains(name.last()));
        assert forall|c: char| front.contains(c) implies name.contains(c) by {
            let k = choose|k: int| 0 <= k < front.len() && front[k] == c;
            assert(name[k] == c);
        }
        lemma_last_slash_place(folder, front);
        assert(path.drop_last() =~= folder.push('/') + front);
        assert(path.last() == name.last());
    }
}

/// What is said of an image: it is known by its path below the root; its subfolder is what stands
/// before its name, with slashes for backslashes, and empty where nothing does; and its name is
/// parted into stem and extension. A name that is not exact has no stem, so `image` stands for it,
/// and one without an extension counts as `jpg`.
pub proof fn lemma_image_described(
    folder: Seq<char>,
    name: Seq<char>,
    raw: Seq<u8>,
    exact: bool,
    root: Seq<char>,
)
    requires
        !name.contains('/'),
    ensures
        ({
            let rel = folder + seq!['/'] + name;
            let deep = image_of(FoundModel { rel, raw, exact }, root);
            let flat = image_of(FoundModel { rel: name, raw, exact }, root);
            let stem = if exact {
                name_stem(name)
            } else {
                "image"@
            };
            let ext = if name_extension(name) is Some {
                name_extension(name)->Some_0
            } else {
                "jpg"@
            };
            &&& deep == ImageModel {
                path: joined(root, rel),
                rel: replaced(rel, '\\', '/'),
                subfolder: replaced(folder, '\\', '/'),
                stem,
                ext,
            }
            &&& flat.path == joined(root, name)
            &&& flat.rel == replaced(name, '\\', '/')
            &&& flat.subfolder.len() == 0
            &&& flat.stem == stem
            &&& flat.ext == ext
        }),
{
    let rel = folder + seq!['/'] + name;
    assert(rel =~= folder.push('/') + name);
    lemma_last_slash_place(folder, name);
    assert(rel.skip(folder.len() as int + 1) =~= name);
    assert(rel.take(folder.len() as int) =~= folder);
    assert(name.skip(0) =~= name);
}

/// Leaving repetition out keeps each text where it is first seen, so their order is that of their
/// first places.
pub proof fn lemma_first_seen_in_order(s: Seq<Seq<char>>) -> (at: Seq<int>)
    ensures
        picks(s, first_seen(s), at),
        forall|k: int, m: int|
            0 <= k < at.len() && 0 <= m < at[k] ==> #[trigger] s[m] != s[#[trigger] at[k]],
        forall|t: Seq<char>| s.contains(t) <==> #[trigger] first_seen(s).contains(t),
    decreases s.len(),
{
    lemma_first_seen(s);
    if s.len() == 0 {
        Seq::empty()
    } else {
        let n = s.len() - 1;
        let front = s.drop_last();
        let before = lemma_first_seen_in_order(front);
        lemma_first_seen(front);
        let seen = first_seen(front);
        let at = if seen.contains(s.last()) {
            before
        } else {
            before.push(n)
        };
        assert forall|k: int| 0 <= k < at.len() implies 0 <= #[trigger] at[k] < s.len()
            && first_seen(s)[k] == s[at[k]] by {
            if k < before.len() {
                assert(at[k] == before[k]);
                assert(seen[k] == front[before[k]]);
            }
        }
        assert forall|j: int, k: int| 0 <= j < k < at.len() implies #[trigger] at[j]
            < #[trigger] at[k] by {
            assert(at[j] == before[j]);
            if k < before.len() {
                assert(at[k] == before[k]);
            }
        }
        assert forall|k: int, m: int| 0 <= k < at.len() && 0 <= m < at[k] implies #[trigger] s[m]
            != s[#[trigger] at[k]] by {
            if k < before.len() {
                assert(at[k] == before[k]);
                assert(0 <= before[k] < front.len());
                assert(front[m] != front[before[k]]);
            } else {
                assert(front[m] == s[m]);
                assert(front.contains(front[m]));
                assert(seen.contains(front[m]));
            }
        }
        at
    }
}

/// A workspace has the columns and messages of the sheet, unchanged, puts its outputs into the
/// folder `Output`, and has one collection for each name that a column refers to, in the order in
/// which the columns first do.
pub proof fn lemma_workspace_of_sheet(
    folder: Seq<char>,
    sheet: SheetModel,
    images: Option<Seq<FsNode>>,
) -> (at: Seq<int>)
    ensures
        ({
            let ws = workspace_of(folder, sheet, images);
            &&& ws.columns == sheet.columns
            &&& ws.messages == sheet.messages
            &&& ws.output_root == joined(folder, "Output"@)
            &&& at.len() == ws.collections.len()
            &&& forall|k: int| 0 <= k < at.len() ==> 0 <= #[trigger] at[k] < ws.columns.len()
            &&& forall|j: int, k: int| 0 <= j < k < at.len() ==> #[trigger] at[j] < #[trigger] at[k]
            &&& forall|k: int|
                0 <= k < at.len() ==> (#[trigger] ws.collections[k]).name
                    == ws.columns[at[k]].collection
            &&& forall|k: int, m: int|
                0 <= k < at.len() && 0 <= m < at[k] ==> (#[trigger] ws.columns[m]).collection != (
                #[trigger] ws.collections[k]).name
            &&& forall|i: int|
                0 <= i < ws.columns.len() ==> exists|k: int|
                    0 <= k < ws.collections.len() && (#[trigger] ws.collections[k]).name == (
                    #[trigger] ws.columns[i]).collection
            &&& forall|k: int|
                0 <= k < ws.collections.len() ==> #[trigger] ws.collections[k] == collection_of(
                    images,
                    joined(folder, "Images"@),
                    ws.collections[k].name,
                )
        }),
{
    let ws = workspace_of(folder, sheet, images);
    let refs = sheet.columns.map_values(|c: LangColumnModel| c.collection);
    let names = collection_names(sheet.columns);
    let at = lemma_first_seen_in_order(refs);
    assert forall|k: int| 0 <= k < ws.collections.len() implies #[trigger] ws.collections[k]
        == collection_of(images, joined(folder, "Images"@), names[k]) && ws.collections[k].name
        == names[k] by {};
    assert forall|k: int, m: int| 0 <= k < at.len() && 0 <= m < at[k] implies (
    #[trigger] ws.columns[m]).collection != (#[trigger] ws.collections[k]).name by {
        assert(0 <= at[k] < refs.len());
        assert(refs[m] != refs[at[k]]);
        assert(names[k] == refs[at[k]]);
    }
    assert forall|k: int| 0 <= k < at.len() implies (#[trigger] ws.collections[k]).name
        == ws.columns[at[k]].collection by {
        assert(0 <= at[k] < refs.len());
        assert(names[k] == refs[at[k]]);
    }
    assert forall|i: int| 0 <= i < ws.columns.len() implies exists|k: int|
        0 <= k < ws.collections.len() && (#[trigger] ws.collections[k]).name == (
        #[trigger] ws.columns[i]).collection by {
        assert(refs[i] == ws.columns[i].collection);
        assert(refs.contains(refs[i]));
        assert(names.contains(refs[i]));
        let k = choose|k: int| 0 <= k < names.len() && names[k] == refs[i];
        assert(ws.collections[k].name == names[k]);
    }
    at
}

/// A collection has the images below its folder, in the order of their paths, each described from
/// there; one whose folder was not found has neither folder nor images.
pub proof fn lemma_collection_of_folder(
    images: Option<Seq<FsNode>>,
    images_root: Seq<char>,
    name: Seq<char>,
)
    ensures
        ({
            let c = collection_of(images, images_root, name);
            let node = collection_dir(images->Some_0, name);
            &&& c.name == name
            &&& images is None || node is None ==> c.folder.len() == 0 && c.images.len() == 0
            &&& images is Some && node is Some ==> {
                let found = sorted_images(node->Some_0.entry->Dir_0@);
                &&& c.folder == joined(images_root, node->Some_0.name@)
                &&& c.images.len() == found.len()
                &&& forall|k: int|
                    0 <= k < found.len() ==> #[trigger] c.images[k] == image_of(found[k], c.folder)
            }
        }),
{
    if images is Some {
        lemma_collection_folder_is_first(images->Some_0, name);
    }
}

/// There is one warning for each collection without images, in their order, and no other: that its
/// folder was not found, or that it has no images.
pub proof fn lemma_warnings_in_order(
    folder: Seq<char>,
    sheet: SheetModel,
    images: Option<Seq<FsNode>>,
) -> (at: Seq<int>)
    ensures
        ({
            let ws = workspace_of(folder, sheet, images);
            &&& at.len() == ws.warnings.len()
            &&& forall|k: int| 0 <= k < at.len() ==> 0 <= #[trigger] at[k] < ws.collections.len()
            &&& forall|j: int, k: int| 0 <= j < k < at.len() ==> #[trigger] at[j] < #[trigger] at[k]
            &&& forall|c: int|
                0 <= c < ws.collections.len() ==> ((#[trigger] ws.collections[c]).images.len() == 0
                    <==> at.contains(c))
            &&& forall|k: int|
                0 <= k < at.len() ==> #[trigger] ws.warnings[k] == "Collection \""@
                    + ws.collections[at[k]].name + (if dir_of(
                    images,
                    ws.collections[at[k]].name,
                ) is None {
                    "\" not found under Images/."@
                } else {
                    "\" has no images under Images/."@
                })
        }),
{
    let ws = workspace_of(folder, sheet, images);
    let names = collection_names(sheet.columns);
    let root = joined(folder, "Images"@);
    let warn = |name: Seq<char>| warning_of(images, root, name);
    let at = lemma_filter_map_picks(names, warn);
    assert forall|c: int| 0 <= c < ws.collections.len() implies (#[trigger] ws.collections[c]).name
        == names[c] && ws.collections[c] == collection_of(images, root, names[c]) by {};
    assert forall|c: int| 0 <= c < ws.collections.len() implies ((
    #[trigger] ws.collections[c]).images.len() == 0 <==> at.contains(c)) by {
        assert(warn(names[c]) is Some <==> at.contains(c));
    }
    assert forall|k: int| 0 <= k < at.len() implies #[trigger] ws.warnings[k] == "Collection \""@
        + ws.collections[at[k]].name + (if dir_of(images, ws.collections[at[k]].name) is None {
        "\" not found under Images/."@
    } else {
        "\" has no images under Images/."@
    }) by {
        assert(0 <= at[k] < names.len());
        assert(warn(names[at[k]]) == Some(ws.warnings[k]));
    }
    at
}

/// What scanning answers: it refuses a folder without a spreadsheet, and one whose spreadsheet it
/// cannot parse, with what parsing says; otherwise it gives the workspace of that spreadsheet.
pub proof fn lemma_scanning_answers(
    folder: Seq<char>,
    listing: Option<Seq<FsNode>>,
    workbook: Result<BookModel, Seq<char>>,
    images: Option<Seq<FsNode>>,
)
    ensures
        listing is None || first_sheet(listing->Some_0) is None ==> scanned(
            folder,
            listing,
            workbook,
            images,
        ) == Err::<WorkspaceModel, Seq<char>>(
            "No spreadsheet (.xlsx) found in the working folder."@,
        ),
        listing is Some && first_sheet(listing->Some_0) is Some ==> {
            let path = joined(folder, first_sheet(listing->Some_0)->Some_0);
            match parsed(path, workbook) {
                Err(e) => scanned(folder, listing, workbook, images) == Err::<
                    WorkspaceModel,
                    Seq<char>,
                >(e),
                Ok(sheet) => scanned(folder, listing, workbook, images) == Ok::<
                    WorkspaceModel,
                    Seq<char>,
                >(workspace_of(folder, sheet, images)),
            }
        },
{
}

} // verus!
