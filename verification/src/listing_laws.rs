//! What holds of every scan of a folder.
use vstd::prelude::*;

use crate::compositor::Kind;
use crate::listing::{
    collection_dir, first_sheet, found_le, image_of, images_in, images_in_node, is_collection_dir,
    is_first_sheet, is_sheet_file, joined_raw, lemma_first_sheet, lemma_found_order,
    lemma_path_order, path_le, sorted_images, FoundModel, FsEntry, FsNode,
};
use crate::paths::{components, extension_of, file_name_of, joined};
use crate::pipeline::{
    collection_of, dir_of, images_of_dir, scanned, warning_of, IMAGES_DIR_NAME,
};
use crate::text::{lemma_pieces_nonempty, lowered, pieces};
use crate::workbook::BookModel;

verus! {

/// Where a text ends with a character that parts pieces, what follows it has its own.
pub proof fn lemma_pieces_joined(s: Seq<char>, t: Seq<char>, p: spec_fn(char) -> bool)
    requires
        s.len() == 0 || p(s.last()),
    ensures
        pieces(s + t, p) == pieces(s, p).drop_last() + pieces(t, p),
    decreases t.len(),
{
    lemma_pieces_nonempty(s, p);
    let left = pieces(s, p);
    if t.len() == 0 {
        assert(s + t =~= s);
        assert(left.last() =~= Seq::empty());
        assert(left =~= left.drop_last() + pieces(t, p));
    } else {
        let front = t.drop_last();
        lemma_pieces_joined(s, front, p);
        lemma_pieces_nonempty(front, p);
        assert((s + t).drop_last() =~= s + front);
        assert((s + t).last() == t.last());
        let before = left.drop_last() + pieces(front, p);
        let right = pieces(front, p);
        if p(t.last()) {
            assert(before.push(Seq::empty()) =~= left.drop_last() + right.push(Seq::empty()));
        } else {
            assert(before.last() == right.last());
            let last = right.last().push(t.last());
            assert(before.drop_last().push(last) =~= left.drop_last() + right.drop_last().push(
                last,
            ));
        }
    }
}

/// A path that is followed by another names what that other names.
pub proof fn lemma_joined_file_name(base: Seq<char>, rest: Seq<char>)
    requires
        file_name_of(rest) is Some,
    ensures
        file_name_of(joined(base, rest)) == file_name_of(rest),
        extension_of(joined(base, rest)) == extension_of(rest),
        Kind::of_path(joined(base, rest)) == Kind::of_path(rest),
{
    let p = |c: char| c == '/';
    let keep = |part: Seq<char>| part.len() > 0 && part != seq!['.'];
    let whole = joined(base, rest);
    if whole != rest {
        let start = if base.len() == 0 || base.last() == '/' {
            base
        } else {
            base.push('/')
        };
        assert(whole == start + rest);
        lemma_pieces_joined(start, rest, p);
        let left = pieces(start, p).drop_last();
        let right = pieces(rest, p);
        Seq::filter_distributes_over_add(left, right, keep);
        assert(components(whole) == left.filter(keep) + components(rest));
        assert(components(whole).last() == components(rest).last());
    }
}

/// Only pictures are found below a folder.
pub proof fn lemma_only_pictures_found(
    nodes: Seq<FsNode>,
    prefix: Seq<char>,
    raw: Seq<u8>,
    k: int,
)
    requires
        0 <= k < images_in(nodes, prefix, raw).len(),
    ensures
        Kind::of_path(images_in(nodes, prefix, raw)[k].rel) is Some,
    decreases nodes,
{
    let before = images_in(nodes.drop_last(), prefix, raw);
    if k < before.len() {
        lemma_only_pictures_found(nodes.drop_last(), prefix, raw, k);
    } else {
        let node = nodes.last();
        lemma_only_pictures_in_node(node, prefix, raw, k - before.len());
    }
}

proof fn lemma_only_pictures_in_node(node: FsNode, prefix: Seq<char>, raw: Seq<u8>, k: int)
    requires
        0 <= k < images_in_node(node, prefix, raw).len(),
    ensures
        Kind::of_path(images_in_node(node, prefix, raw)[k].rel) is Some,
    decreases node,
{
    match node.entry {
        FsEntry::Dir(children) => {
            lemma_only_pictures_found(
                children@,
                joined(prefix, node.name@),
                joined_raw(raw, node.raw@),
                k,
            );
        },
        FsEntry::File => {
            lemma_kind_has_name(node.name@);
            lemma_joined_file_name(prefix, node.name@);
        },
        FsEntry::Other => {},
    }
}

proof fn lemma_kind_has_name(path: Seq<char>)
    requires
        Kind::of_path(path) is Some,
    ensures
        file_name_of(path) is Some,
{
    reveal_strlit("jpg");
    reveal_strlit("jpeg");
    reveal_strlit("png");
    assert("jpg"@.len() == 3);
    assert("jpeg"@.len() == 4);
    assert("png"@.len() == 3);
}

/// No image of a collection is refused for its kind when its canvas is prepared.
pub proof fn lemma_collection_images_are_pictures(
    images: Option<Seq<FsNode>>,
    images_root: Seq<char>,
    name: Seq<char>,
    k: int,
)
    requires
        0 <= k < collection_of(images, images_root, name).images.len(),
    ensures
        Kind::of_path(collection_of(images, images_root, name).images[k].path) is Some,
{
    let le = |a: FoundModel, b: FoundModel| found_le(a, b);
    let node = dir_of(images, name)->Some_0;
    let dir = joined(images_root, node.name@);
    match node.entry {
        FsEntry::Dir(children) => {
            let found = images_in(children@, Seq::empty(), Seq::empty());
            let sorted = found.sort_by(le);
            lemma_found_order();
            found.lemma_sort_by_ensures(le);
            broadcast use vstd::seq_lib::group_to_multiset_ensures;

            assert(sorted.to_multiset().count(sorted[k]) > 0);
            assert(found.to_multiset().count(sorted[k]) > 0);
            assert(found.contains(sorted[k]));
            let m = choose|m: int| 0 <= m < found.len() && found[m] == sorted[k];
            lemma_only_pictures_found(children@, Seq::empty(), Seq::empty(), m);
            lemma_kind_has_name(sorted[k].rel);
            lemma_joined_file_name(dir, sorted[k].rel);
            assert(collection_of(images, images_root, name).images[k] == image_of(sorted[k], dir));
        },
        _ => {},
    }
}

/// Whether `f` takes a number below `n` to `k`.
pub open spec fn reaches(f: spec_fn(int) -> int, n: nat, k: int) -> bool {
    exists|i: int| 0 <= i < n && #[trigger] f(i) == k
}

/// Whether `f` permutes the numbers below `n`.
pub open spec fn permutes(f: spec_fn(int) -> int, n: nat) -> bool {
    &&& forall|i: int| 0 <= i < n ==> 0 <= #[trigger] f(i) < n
    &&& forall|i: int, j: int| 0 <= i < j < n ==> #[trigger] f(i) != #[trigger] f(j)
    &&& forall|k: int| 0 <= k < n ==> #[trigger] reaches(f, n, k)
}

/// Whether two entries are the same but for the order in which folders list their entries.
pub open spec fn same_node(a: FsNode, b: FsNode) -> bool
    decreases a,
{
    &&& a.name@ == b.name@
    &&& a.raw@ == b.raw@
    &&& a.exact == b.exact
    &&& match (a.entry, b.entry) {
        (FsEntry::Dir(x), FsEntry::Dir(y)) => reordered(x@, y@),
        (FsEntry::File, FsEntry::File) => true,
        (FsEntry::Other, FsEntry::Other) => true,
        _ => false,
    }
}

/// Whether two listings are the same but for the order of entries, at any depth.
pub open spec fn reordered(a: Seq<FsNode>, b: Seq<FsNode>) -> bool
    decreases a,
{
    &&& a.len() == b.len()
    &&& exists|f: spec_fn(int) -> int| #[trigger]
        permutes(f, a.len()) && forall|i: int|
            0 <= i < a.len() ==> same_node(#[trigger] a[i], b[f(i)])
}

proof fn lemma_images_without(b: Seq<FsNode>, j: int, prefix: Seq<char>, raw: Seq<u8>)
    requires
        0 <= j < b.len(),
    ensures
        images_in(b, prefix, raw).to_multiset() == images_in(
            b.remove(j),
            prefix,
            raw,
        ).to_multiset().add(images_in_node(b[j], prefix, raw).to_multiset()),
    decreases b.len(),
{
    let front = images_in(b.drop_last(), prefix, raw);
    let last = images_in_node(b.last(), prefix, raw);
    vstd::seq_lib::lemma_multiset_commutative(front, last);
    if j == b.len() - 1 {
        assert(b.remove(j) =~= b.drop_last());
    } else {
        lemma_images_without(b.drop_last(), j, prefix, raw);
        let rest = b.remove(j);
        assert(rest.drop_last() =~= b.drop_last().remove(j));
        assert(rest.last() == b.last());
        assert(b.drop_last()[j] == b[j]);
        vstd::seq_lib::lemma_multiset_commutative(images_in(rest.drop_last(), prefix, raw), last);
        let x = images_in(rest.drop_last(), prefix, raw).to_multiset();
        let y = images_in_node(b[j], prefix, raw).to_multiset();
        let z = last.to_multiset();
        assert(x.add(y).add(z) =~= x.add(z).add(y));
    }
}

/// What is found below a folder does not depend on the order in which folders list their entries.
pub proof fn lemma_found_whatever_the_order(
    a: Seq<FsNode>,
    b: Seq<FsNode>,
    prefix: Seq<char>,
    raw: Seq<u8>,
)
    requires
        reordered(a, b),
    ensures
        images_in(a, prefix, raw).to_multiset() == images_in(b, prefix, raw).to_multiset(),
    decreases a,
{
    if a.len() == 0 {
        assert(a =~= b);
    } else {
        let n = a.len() - 1;
        let f = choose|f: spec_fn(int) -> int| #[trigger]
            permutes(f, a.len()) && forall|i: int|
                0 <= i < a.len() ==> same_node(#[trigger] a[i], b[f(i)]);
        let j = f(n);
        let c = a.drop_last();
        let d = b.remove(j);
        let g = |i: int|
            if f(i) < j {
                f(i)
            } else {
                f(i) - 1
            };
        assert(permutes(g, c.len())) by {
            assert forall|i: int| 0 <= i < c.len() implies 0 <= #[trigger] g(i) < c.len() by {
                assert(f(i) != f(n));
            }
            assert forall|i: int, k: int| 0 <= i < k < c.len() implies #[trigger] g(i)
                != #[trigger] g(k) by {
                assert(f(i) != f(k) && f(i) != f(n) && f(k) != f(n));
            }
            assert forall|k: int| 0 <= k < c.len() implies #[trigger] reaches(g, c.len(), k) by {
                let k2 = if k < j {
                    k
                } else {
                    k + 1
                };
                assert(reaches(f, a.len(), k2));
                let i = choose|i: int| 0 <= i < a.len() && #[trigger] f(i) == k2;
                assert(i != n);
                assert(g(i) == k);
            }
        }
        assert forall|i: int| 0 <= i < c.len() implies same_node(#[trigger] c[i], d[g(i)]) by {
            assert(f(i) != f(n));
            assert(c[i] == a[i]);
            assert(same_node(a[i], b[f(i)]));
            assert(d[g(i)] == b[f(i)]);
        }
        assert(reordered(c, d));
        lemma_found_whatever_the_order(c, d, prefix, raw);
        assert(same_node(a[n], b[j]));
        lemma_node_whatever_the_order(a[n], b[j], prefix, raw);
        lemma_images_without(b, j, prefix, raw);
        vstd::seq_lib::lemma_multiset_commutative(
            images_in(c, prefix, raw),
            images_in_node(a[n], prefix, raw),
        );
    }
}

proof fn lemma_node_whatever_the_order(a: FsNode, b: FsNode, prefix: Seq<char>, raw: Seq<u8>)
    requires
        same_node(a, b),
    ensures
        images_in_node(a, prefix, raw).to_multiset() == images_in_node(
            b,
            prefix,
            raw,
        ).to_multiset(),
    decreases a,
{
    match (a.entry, b.entry) {
        (FsEntry::Dir(x), FsEntry::Dir(y)) => {
            lemma_found_whatever_the_order(
                x@,
                y@,
                joined(prefix, a.name@),
                joined_raw(raw, a.raw@),
            );
        },
        _ => {},
    }
}

/// Walking through a folder gives the same images in the same order, whatever the order in which
/// folders list their entries.
pub proof fn lemma_walk_whatever_the_order(a: Seq<FsNode>, b: Seq<FsNode>)
    requires
        reordered(a, b),
    ensures
        sorted_images(a) == sorted_images(b),
{
    let le = |a: FoundModel, b: FoundModel| found_le(a, b);
    let found_a = images_in(a, Seq::empty(), Seq::empty());
    let found_b = images_in(b, Seq::empty(), Seq::empty());
    lemma_found_whatever_the_order(a, b, Seq::empty(), Seq::empty());
    lemma_found_order();
    found_a.lemma_sort_by_ensures(le);
    found_b.lemma_sort_by_ensures(le);
    vstd::seq_lib::lemma_sorted_unique(found_a.sort_by(le), found_b.sort_by(le), le);
}

/// The images of a collection folder come in the same order, whatever the order in which folders
/// list their entries.
pub proof fn lemma_images_whatever_the_order(a: FsNode, b: FsNode, dir: Seq<char>)
    requires
        same_node(a, b),
    ensures
        images_of_dir(a, dir) == images_of_dir(b, dir),
{
    match (a.entry, b.entry) {
        (FsEntry::Dir(x), FsEntry::Dir(y)) => {
            lemma_walk_whatever_the_order(x@, y@);
        },
        _ => {},
    }
}

/// Whether no two entries of a listing have the same name, as in every folder.
pub open spec fn entries_differ(nodes: Seq<FsNode>) -> bool {
    forall|i: int, k: int|
        0 <= i < k < nodes.len() ==> (#[trigger] nodes[i]).raw@ != (#[trigger] nodes[k]).raw@
}

/// The spreadsheet of a folder is the same, whatever the order in which the folder lists its
/// entries.
pub proof fn lemma_sheet_whatever_the_order(a: Seq<FsNode>, b: Seq<FsNode>)
    requires
        reordered(a, b),
        entries_differ(a),
    ensures
        first_sheet(a) == first_sheet(b),
{
    let f = choose|f: spec_fn(int) -> int| #[trigger]
        permutes(f, a.len()) && forall|i: int|
            0 <= i < a.len() ==> same_node(#[trigger] a[i], b[f(i)]);
    assert forall|k: int| 0 <= k < b.len() implies exists|i: int|
        0 <= i < a.len() && #[trigger] f(i) == k && same_node(a[i], #[trigger] b[k]) by {
        assert(reaches(f, a.len(), k));
        let i = choose|i: int| 0 <= i < a.len() && #[trigger] f(i) == k;
        assert(same_node(a[i], b[f(i)]));
    }
    if exists|i: int| 0 <= i < a.len() && is_sheet_file(#[trigger] a[i]) {
        lemma_some_sheet_is_first(a);
        let i = choose|i: int| is_first_sheet(a, i);
        lemma_first_sheet(a, i);
        assert(same_node(a[i], b[f(i)]));
        assert forall|k: int| 0 <= k < b.len() && is_sheet_file(#[trigger] b[k]) implies path_le(
            b[f(i)].raw@,
            b[k].raw@,
        ) && (b[k].raw@ == b[f(i)].raw@ ==> f(i) <= k) by {
            let m = choose|m: int|
                0 <= m < a.len() && #[trigger] f(m) == k && same_node(a[m], b[k]);
            assert(is_sheet_file(a[m]));
            if a[m].raw@ == a[i].raw@ && m != i {
                assert(m < i || i < m);
            }
        }
        assert(is_first_sheet(b, f(i)));
        lemma_first_sheet(b, f(i));
    } else if exists|k: int| 0 <= k < b.len() && is_sheet_file(#[trigger] b[k]) {
        let k = choose|k: int| 0 <= k < b.len() && is_sheet_file(#[trigger] b[k]);
        let m = choose|m: int| 0 <= m < a.len() && #[trigger] f(m) == k && same_node(a[m], b[k]);
        assert(is_sheet_file(a[m]));
    }
}

/// Where there is a spreadsheet, one comes first.
pub proof fn lemma_some_sheet_is_first(nodes: Seq<FsNode>)
    requires
        exists|i: int| 0 <= i < nodes.len() && is_sheet_file(#[trigger] nodes[i]),
    ensures
        exists|i: int| is_first_sheet(nodes, i),
    decreases nodes.len(),
{
    let n = nodes.len() - 1;
    let front = nodes.drop_last();
    assert forall|k: int| 0 <= k < n implies front[k] == #[trigger] nodes[k] by {};
    lemma_path_order(nodes[n].raw@, nodes[n].raw@, nodes[n].raw@);
    if exists|i: int| 0 <= i < front.len() && is_sheet_file(#[trigger] front[i]) {
        lemma_some_sheet_is_first(front);
        let lead = choose|i: int| is_first_sheet(front, i);
        assert(is_sheet_file(front[lead]));
        lemma_path_order(nodes[lead].raw@, nodes[n].raw@, nodes[n].raw@);
        if is_sheet_file(nodes[n]) && !path_le(nodes[lead].raw@, nodes[n].raw@) {
            assert forall|k: int|
                0 <= k < nodes.len() && is_sheet_file(#[trigger] nodes[k]) implies path_le(
                nodes[n].raw@,
                nodes[k].raw@,
            ) && (nodes[k].raw@ == nodes[n].raw@ ==> n <= k) by {
                if k < n {
                    assert(is_sheet_file(front[k]));
                    lemma_path_order(nodes[n].raw@, nodes[lead].raw@, nodes[k].raw@);
                }
            }
            assert(is_first_sheet(nodes, n));
        } else {
            assert forall|k: int|
                0 <= k < nodes.len() && is_sheet_file(#[trigger] nodes[k]) implies path_le(
                nodes[lead].raw@,
                nodes[k].raw@,
            ) && (nodes[k].raw@ == nodes[lead].raw@ ==> lead <= k) by {
                if k < n {
                    assert(is_sheet_file(front[k]));
                }
            }
            assert(is_first_sheet(nodes, lead));
        }
    } else {
        let i = choose|i: int| 0 <= i < nodes.len() && is_sheet_file(#[trigger] nodes[i]);
        assert forall|k: int| 0 <= k < nodes.len() && is_sheet_file(#[trigger] nodes[k]) implies k
            == n by {
            if k < n {
                assert(is_sheet_file(front[k]));
            }
        }
        assert(is_first_sheet(nodes, n));
    }
}

proof fn lemma_collection_dir_found(nodes: Seq<FsNode>, name: Seq<char>, i: int)
    requires
        0 <= i < nodes.len(),
        is_collection_dir(nodes[i], name),
        forall|k: int|
            0 <= k < nodes.len() && is_collection_dir(#[trigger] nodes[k], name) ==> k == i,
    ensures
        collection_dir(nodes, name) == Some(nodes[i]),
    decreases nodes.len(),
{
    if i > 0 {
        let rest = nodes.drop_first();
        assert(rest[i - 1] == nodes[i]);
        assert forall|k: int|
            0 <= k < rest.len() && is_collection_dir(#[trigger] rest[k], name) implies k == i
            - 1 by {
            assert(rest[k] == nodes[k + 1]);
        }
        lemma_collection_dir_found(rest, name, i - 1);
    }
}

proof fn lemma_no_collection_dir(nodes: Seq<FsNode>, name: Seq<char>)
    requires
        forall|k: int| 0 <= k < nodes.len() ==> !is_collection_dir(#[trigger] nodes[k], name),
    ensures
        collection_dir(nodes, name) is None,
    decreases nodes.len(),
{
    if nodes.len() > 0 {
        let rest = nodes.drop_first();
        assert forall|k: int| 0 <= k < rest.len() implies !is_collection_dir(
            #[trigger] rest[k],
            name,
        ) by {
            assert(rest[k] == nodes[k + 1]);
        }
        lemma_no_collection_dir(rest, name);
    }
}

/// A collection is the same, whatever the order in which folders list their entries, unless two
/// folders have its name but for the case of letters: then the one that is listed first is taken.
pub proof fn lemma_collection_whatever_the_order(
    a: Seq<FsNode>,
    b: Seq<FsNode>,
    images_root: Seq<char>,
    name: Seq<char>,
)
    requires
        reordered(a, b),
        forall|i: int, k: int|
            0 <= i < a.len() && 0 <= k < a.len() && is_collection_dir(#[trigger] a[i], name)
                && is_collection_dir(#[trigger] a[k], name) ==> i == k,
    ensures
        collection_of(Some(a), images_root, name) == collection_of(Some(b), images_root, name),
        warning_of(Some(a), images_root, name) == warning_of(Some(b), images_root, name),
{
    let f = choose|f: spec_fn(int) -> int| #[trigger]
        permutes(f, a.len()) && forall|i: int|
            0 <= i < a.len() ==> same_node(#[trigger] a[i], b[f(i)]);
    assert forall|k: int|
        0 <= k < b.len() && is_collection_dir(#[trigger] b[k], name) implies exists|i: int|
        0 <= i < a.len() && #[trigger] f(i) == k && is_collection_dir(a[i], name) by {
        assert(reaches(f, a.len(), k));
        let i = choose|i: int| 0 <= i < a.len() && #[trigger] f(i) == k;
        assert(same_node(a[i], b[f(i)]));
    }
    if exists|i: int| 0 <= i < a.len() && is_collection_dir(#[trigger] a[i], name) {
        let i = choose|i: int| 0 <= i < a.len() && is_collection_dir(#[trigger] a[i], name);
        assert(same_node(a[i], b[f(i)]));
        lemma_collection_dir_found(a, name, i);
        assert forall|k: int| 0 <= k < b.len() && is_collection_dir(#[trigger] b[k], name) implies k
            == f(i) by {
            let m = choose|m: int|
                0 <= m < a.len() && #[trigger] f(m) == k && is_collection_dir(a[m], name);
            assert(m == i);
        }
        lemma_collection_dir_found(b, name, f(i));
        lemma_images_whatever_the_order(a[i], b[f(i)], joined(images_root, a[i].name@));
    } else {
        lemma_no_collection_dir(a, name);
        assert forall|k: int| 0 <= k < b.len() implies !is_collection_dir(
            #[trigger] b[k],
            name,
        ) by {
            if is_collection_dir(b[k], name) {
                let m = choose|m: int|
                    0 <= m < a.len() && #[trigger] f(m) == k && is_collection_dir(a[m], name);
            }
        }
        lemma_no_collection_dir(b, name);
    }
}

/// Whether no two folders of a listing have the same name but for the case of letters.
pub open spec fn folders_differ(nodes: Seq<FsNode>) -> bool {
    forall|i: int, k: int|
        0 <= i < nodes.len() && 0 <= k < nodes.len() && (#[trigger] nodes[i]).entry is Dir && (
        #[trigger] nodes[k]).entry is Dir && lowered(nodes[i].name@) == lowered(nodes[k].name@)
            ==> i == k
}

/// Scanning a folder gives the same, whatever the order in which folders list their entries, unless
/// two folders of images have the same name but for the case of letters.
pub proof fn lemma_scan_whatever_the_order(
    folder: Seq<char>,
    listing: Seq<FsNode>,
    other_listing: Seq<FsNode>,
    workbook: Result<BookModel, Seq<char>>,
    images: Seq<FsNode>,
    other_images: Seq<FsNode>,
)
    requires
        reordered(listing, other_listing),
        entries_differ(listing),
        reordered(images, other_images),
        folders_differ(images),
    ensures
        scanned(folder, Some(listing), workbook, Some(images)) == scanned(
            folder,
            Some(other_listing),
            workbook,
            Some(other_images),
        ),
{
    lemma_sheet_whatever_the_order(listing, other_listing);
    let root = joined(folder, IMAGES_DIR_NAME@);
    let found = |name: Seq<char>| collection_of(Some(images), root, name);
    let other_found = |name: Seq<char>| collection_of(Some(other_images), root, name);
    let warned = |name: Seq<char>| warning_of(Some(images), root, name);
    let other_warned = |name: Seq<char>| warning_of(Some(other_images), root, name);
    assert forall|name: Seq<char>|
        #![trigger found(name)]
        #![trigger warned(name)]
        found(name) == other_found(name) && warned(name) == other_warned(name) by {
        lemma_collection_whatever_the_order(images, other_images, root, name);
    }
    assert(found =~= other_found);
    assert(warned =~= other_warned);
}

} // verus!
