//! What a folder holds, and which of it the batch uses.
use vstd::prelude::*;
use vstd::relations::{sorted_by, total_ordering};

use crate::compositor::Kind;
use crate::paths::{join, joined, name_extension, name_stem, split_name};
use crate::spreadsheet::{has_sheet_extension, is_supported};
use crate::text::{
    chars_of, lowered, replace_char, replaced, same_ignoring_ascii_case, starts_with, text_between,
    text_of,
};

verus! {

/// One entry of a folder.
pub struct FsNode {
    /// Its name; where that is not valid Unicode, with replacement characters for the rest.
    pub name: String,
    /// Its name in the bytes by which the system holds and orders it.
    pub raw: Vec<u8>,
    /// Whether `name` is the whole name, with nothing replaced.
    pub exact: bool,
    pub entry: FsEntry,
}

/// What an entry of a folder is.
pub enum FsEntry {
    /// A folder with its entries, in the order in which the system lists them; none where it cannot
    /// be read.
    Dir(Vec<FsNode>),
    File,
    Other,
}

/// An image found below a folder.
#[verifier::ext_equal]
pub struct FoundModel {
    /// Its path from that folder.
    pub rel: Seq<char>,
    /// The same in the bytes of the names (see [`FsNode::raw`]).
    pub raw: Seq<u8>,
    /// Whether its name is exact (see [`FsNode::exact`]).
    pub exact: bool,
}

/// An image found below a folder.
pub struct Found {
    /// Its path from that folder.
    pub rel: Vec<char>,
    /// The same in the bytes of the names (see [`FsNode::raw`]).
    pub raw: Vec<u8>,
    /// Whether its name is exact (see [`FsNode::exact`]).
    pub exact: bool,
}

impl DeepView for Found {
    type V = FoundModel;

    open spec fn deep_view(&self) -> FoundModel {
        FoundModel { rel: self.rel@, raw: self.raw@, exact: self.exact }
    }
}

/// The byte that parts the names of a path.
pub const SEPARATOR: u8 = 47;

/// `base` followed by the name `rest`, in bytes.
pub open spec fn joined_raw(base: Seq<u8>, rest: Seq<u8>) -> Seq<u8> {
    if base.len() == 0 {
        rest
    } else {
        base.push(SEPARATOR) + rest
    }
}

/// `base` followed by the name `rest`, in bytes.
fn join_raw(base: &Vec<u8>, rest: &Vec<u8>) -> (out: Vec<u8>)
    ensures
        out@ == joined_raw(base@, rest@),
{
    let mut out: Vec<u8> = base.clone();
    assert(out@ =~= base@);
    if base.len() > 0 {
        out.push(SEPARATOR);
    }
    let mut more: Vec<u8> = rest.clone();
    assert(more@ =~= rest@);
    out.append(&mut more);
    assert(out@ =~= joined_raw(base@, rest@));
    out
}

/// The images that one entry of a folder stands for; `prefix` is the path of the folder, and `raw`
/// the same in bytes.
pub open spec fn images_in_node(node: FsNode, prefix: Seq<char>, raw: Seq<u8>) -> Seq<FoundModel>
    decreases node,
{
    let path = joined(prefix, node.name@);
    let bytes = joined_raw(raw, node.raw@);
    match node.entry {
        FsEntry::Dir(children) => images_in(children@, path, bytes),
        FsEntry::File => if Kind::of_path(node.name@) is Some {
            seq![FoundModel { rel: path, raw: bytes, exact: node.exact }]
        } else {
            Seq::empty()
        },
        FsEntry::Other => Seq::empty(),
    }
}

/// All images below a folder with the entries `nodes`, at any depth; `prefix` is the path of the
/// folder, and `raw` the same in bytes.
pub open spec fn images_in(nodes: Seq<FsNode>, prefix: Seq<char>, raw: Seq<u8>) -> Seq<FoundModel>
    decreases nodes,
{
    if nodes.len() == 0 {
        Seq::empty()
    } else {
        images_in(nodes.drop_last(), prefix, raw) + images_in_node(nodes.last(), prefix, raw)
    }
}

/// Appends all images below a folder with the entries `nodes`, at any depth, in the order of the
/// listing.
fn gather_images(nodes: &Vec<FsNode>, prefix: &str, raw: &Vec<u8>, out: &mut Vec<Found>)
    ensures
        final(out).deep_view() == old(out).deep_view() + images_in(nodes@, prefix@, raw@),
    decreases nodes,
{
    let ghost start = out.deep_view();
    let mut i: usize = 0;
    assert(nodes@.take(0) =~= Seq::empty());
    assert(out.deep_view() =~= start + images_in(nodes@.take(0), prefix@, raw@));
    while i < nodes.len()
        invariant
            i <= nodes@.len(),
            out.deep_view() == start + images_in(nodes@.take(i as int), prefix@, raw@),
        decreases nodes@.len() - i,
    {
        let node = &nodes[i];
        let path = join(prefix, node.name.as_str());
        let bytes = join_raw(raw, &node.raw);
        let ghost before = out.deep_view();
        match &node.entry {
            FsEntry::Dir(children) => {
                gather_images(children, path.as_str(), &bytes, out);
            },
            FsEntry::File => {
                if Kind::from_path(node.name.as_str()).is_some() {
                    let ghost model = FoundModel { rel: path@, raw: bytes@, exact: node.exact };
                    out.push(
                        Found { rel: chars_of(path.as_str()), raw: bytes, exact: node.exact },
                    );
                    assert(out.deep_view() =~= before.push(model));
                }
            },
            FsEntry::Other => {},
        }
        proof {
            assert(nodes@.take(i + 1).drop_last() =~= nodes@.take(i as int));
            assert(nodes@.take(i + 1).last() == *node);
            assert(out.deep_view() =~= before + images_in_node(*node, prefix@, raw@));
            assert(out.deep_view() =~= start + images_in(nodes@.take(i + 1), prefix@, raw@));
        }
        i = i + 1;
    }
    assert(nodes@.take(i as int) =~= nodes@);
}

/// The order of sequences, element by element, where `before` is that of different elements.
pub open spec fn lex_le<T>(a: Seq<T>, b: Seq<T>, before: spec_fn(T, T) -> bool) -> bool
    decreases a.len(),
{
    if a.len() == 0 {
        true
    } else if b.len() == 0 {
        false
    } else if a[0] == b[0] {
        lex_le(a.drop_first(), b.drop_first(), before)
    } else {
        before(a[0], b[0])
    }
}

/// Whether `before` puts any two different elements in an order.
pub open spec fn orders<T>(before: spec_fn(T, T) -> bool) -> bool {
    &&& forall|x: T, y: T| x != y ==> (#[trigger] before(x, y) <==> !before(y, x))
    &&& forall|x: T, y: T, z: T|
        x != y && y != z && #[trigger] before(x, y) && #[trigger] before(y, z) ==> x != z && before(
            x,
            z,
        )
}

/// Every sequence comes no later than itself.
pub proof fn lemma_lex_reflexive<T>(a: Seq<T>, before: spec_fn(T, T) -> bool)
    ensures
        lex_le(a, a, before),
    decreases a.len(),
{
    if a.len() > 0 {
        lemma_lex_reflexive(a.drop_first(), before);
    }
}

/// Two sequences that come no later than each other are the same.
pub proof fn lemma_lex_antisymmetric<T>(a: Seq<T>, b: Seq<T>, before: spec_fn(T, T) -> bool)
    requires
        orders(before),
        lex_le(a, b, before),
        lex_le(b, a, before),
    ensures
        a == b,
    decreases a.len(),
{
    if a.len() > 0 && b.len() > 0 && a[0] == b[0] {
        lemma_lex_antisymmetric(a.drop_first(), b.drop_first(), before);
        assert(a =~= seq![a[0]] + a.drop_first());
        assert(b =~= seq![b[0]] + b.drop_first());
    } else {
        assert(a =~= b);
    }
}

/// What comes no later than an earlier sequence comes no later than a later one.
pub proof fn lemma_lex_transitive<T>(
    a: Seq<T>,
    b: Seq<T>,
    c: Seq<T>,
    before: spec_fn(T, T) -> bool,
)
    requires
        orders(before),
        lex_le(a, b, before),
        lex_le(b, c, before),
    ensures
        lex_le(a, c, before),
    decreases a.len(),
{
    if a.len() > 0 && b.len() > 0 && c.len() > 0 && a[0] == b[0] && b[0] == c[0] {
        lemma_lex_transitive(a.drop_first(), b.drop_first(), c.drop_first(), before);
    }
}

/// Of two sequences, one comes no later than the other.
pub proof fn lemma_lex_total<T>(a: Seq<T>, b: Seq<T>, before: spec_fn(T, T) -> bool)
    requires
        orders(before),
    ensures
        lex_le(a, b, before) || lex_le(b, a, before),
    decreases a.len(),
{
    if a.len() > 0 && b.len() > 0 {
        if a[0] == b[0] {
            lemma_lex_total(a.drop_first(), b.drop_first(), before);
        } else {
            assert(before(a[0], b[0]) || before(b[0], a[0]));
        }
    }
}

/// The order of two different bytes of paths: a separator comes before anything else, so that paths
/// are ordered by their components.
pub open spec fn byte_before(a: u8, b: u8) -> bool {
    a == SEPARATOR || (b != SEPARATOR && a < b)
}

/// The order of paths: by components, and in a component by byte.
pub open spec fn path_le(a: Seq<u8>, b: Seq<u8>) -> bool {
    lex_le(a, b, |x: u8, y: u8| byte_before(x, y))
}

/// The order of texts: by character.
pub open spec fn text_le(a: Seq<char>, b: Seq<char>) -> bool {
    lex_le(a, b, |x: char, y: char| x < y)
}

/// The order of found images: by path. (The same bytes are read as the same text, so that the rest
/// decides nothing between images of one folder.)
pub open spec fn found_le(a: FoundModel, b: FoundModel) -> bool {
    if a.raw != b.raw {
        path_le(a.raw, b.raw)
    } else if a.rel != b.rel {
        text_le(a.rel, b.rel)
    } else {
        a.exact ==> b.exact
    }
}

/// The order of paths is total.
pub proof fn lemma_path_order(a: Seq<u8>, b: Seq<u8>, c: Seq<u8>)
    ensures
        path_le(a, a),
        path_le(a, b) || path_le(b, a),
        path_le(a, b) && path_le(b, a) ==> a == b,
        path_le(a, b) && path_le(b, c) ==> path_le(a, c),
{
    let before = |x: u8, y: u8| byte_before(x, y);
    assert(orders(before));
    lemma_lex_reflexive(a, before);
    lemma_lex_total(a, b, before);
    if path_le(a, b) && path_le(b, a) {
        lemma_lex_antisymmetric(a, b, before);
    }
    if path_le(a, b) && path_le(b, c) {
        lemma_lex_transitive(a, b, c, before);
    }
}

/// The order of texts is total.
pub proof fn lemma_text_order(a: Seq<char>, b: Seq<char>, c: Seq<char>)
    ensures
        text_le(a, a),
        text_le(a, b) || text_le(b, a),
        text_le(a, b) && text_le(b, a) ==> a == b,
        text_le(a, b) && text_le(b, c) ==> text_le(a, c),
{
    let before = |x: char, y: char| x < y;
    assert(orders(before));
    lemma_lex_reflexive(a, before);
    lemma_lex_total(a, b, before);
    if text_le(a, b) && text_le(b, a) {
        lemma_lex_antisymmetric(a, b, before);
    }
    if text_le(a, b) && text_le(b, c) {
        lemma_lex_transitive(a, b, c, before);
    }
}

/// The order of found images is total.
pub proof fn lemma_found_order()
    ensures
        total_ordering(|a: FoundModel, b: FoundModel| found_le(a, b)),
{
    let le = |a: FoundModel, b: FoundModel| found_le(a, b);
    assert forall|a: FoundModel, b: FoundModel| #[trigger]
        le(a, b) && #[trigger] le(b, a) implies a == b by {
        lemma_path_order(a.raw, b.raw, b.raw);
        lemma_text_order(a.rel, b.rel, b.rel);
    }
    assert forall|a: FoundModel, b: FoundModel, c: FoundModel| #[trigger]
        le(a, b) && #[trigger] le(b, c) implies le(a, c) by {
        lemma_path_order(a.raw, b.raw, c.raw);
        lemma_path_order(b.raw, a.raw, c.raw);
        lemma_text_order(a.rel, b.rel, c.rel);
        lemma_text_order(b.rel, a.rel, c.rel);
    }
    assert forall|a: FoundModel, b: FoundModel| #[trigger] le(a, b) || #[trigger] le(b, a) by {
        lemma_path_order(a.raw, b.raw, b.raw);
        lemma_text_order(a.rel, b.rel, b.rel);
    }
}

/// Whether the path `a` comes no later than the path `b`.
fn path_before(a: &Vec<u8>, b: &Vec<u8>) -> (le: bool)
    ensures
        le == path_le(a@, b@),
{
    let mut i: usize = 0;
    assert(a@.skip(0) =~= a@);
    assert(b@.skip(0) =~= b@);
    while i < a.len() && i < b.len()
        invariant
            i <= a@.len(),
            i <= b@.len(),
            path_le(a@, b@) == path_le(a@.skip(i as int), b@.skip(i as int)),
        decreases a@.len() - i,
    {
        let x: u8 = a[i];
        let y: u8 = b[i];
        assert(a@.skip(i as int)[0] == x);
        assert(b@.skip(i as int)[0] == y);
        if x != y {
            return x == SEPARATOR || (y != SEPARATOR && x < y);
        }
        assert(a@.skip(i as int).drop_first() =~= a@.skip(i + 1));
        assert(b@.skip(i as int).drop_first() =~= b@.skip(i + 1));
        i = i + 1;
    }
    i >= a.len()
}

/// Whether the text `a` comes no later than the text `b`.
fn text_before(a: &Vec<char>, b: &Vec<char>) -> (le: bool)
    ensures
        le == text_le(a@, b@),
{
    let mut i: usize = 0;
    assert(a@.skip(0) =~= a@);
    assert(b@.skip(0) =~= b@);
    while i < a.len() && i < b.len()
        invariant
            i <= a@.len(),
            i <= b@.len(),
            text_le(a@, b@) == text_le(a@.skip(i as int), b@.skip(i as int)),
        decreases a@.len() - i,
    {
        let x = a[i];
        let y = b[i];
        assert(a@.skip(i as int)[0] == x);
        assert(b@.skip(i as int)[0] == y);
        if x != y {
            return x < y;
        }
        assert(a@.skip(i as int).drop_first() =~= a@.skip(i + 1));
        assert(b@.skip(i as int).drop_first() =~= b@.skip(i + 1));
        i = i + 1;
    }
    i >= a.len()
}

/// Whether the image `a` comes no later than the image `b`.
fn found_before(a: &Found, b: &Found) -> (le: bool)
    ensures
        le == found_le(a.deep_view(), b.deep_view()),
{
    proof {
        lemma_path_order(a.raw@, b.raw@, b.raw@);
        lemma_text_order(a.rel@, b.rel@, b.rel@);
    }
    if !path_before(&b.raw, &a.raw) {
        return true;
    }
    if !path_before(&a.raw, &b.raw) {
        return false;
    }
    if !text_before(&b.rel, &a.rel) {
        return true;
    }
    if !text_before(&a.rel, &b.rel) {
        return false;
    }
    !a.exact || b.exact
}

/// Sorts found images by path.
pub fn sort_found(found: Vec<Found>) -> (sorted: Vec<Found>)
    ensures
        sorted.deep_view() == found.deep_view().sort_by(
            |a: FoundModel, b: FoundModel| found_le(a, b),
        ),
{
    let ghost le = |a: FoundModel, b: FoundModel| found_le(a, b);
    let ghost all = found.deep_view();
    let mut rest = found;
    let mut sorted: Vec<Found> = Vec::new();
    proof {
        lemma_found_order();
        assert(sorted.deep_view() =~= Seq::empty());
        assert(all.take(rest@.len() as int) =~= all);
        assert(all.skip(all.len() as int) =~= Seq::empty());
    }
    while rest.len() > 0
        invariant
            le == (|a: FoundModel, b: FoundModel| found_le(a, b)),
            total_ordering(le),
            rest@.len() <= all.len(),
            rest.deep_view() == all.take(rest@.len() as int),
            sorted.deep_view().to_multiset() == all.skip(rest@.len() as int).to_multiset(),
            sorted_by(sorted.deep_view(), le),
        decreases rest@.len(),
    {
        let ghost n = rest@.len() as int;
        let ghost before = sorted.deep_view();
        let item = rest.pop().unwrap();
        let ghost model = item.deep_view();
        assert(model == all[n - 1]) by {
            assert(all.take(n)[n - 1] == all[n - 1]);
        }
        let at: usize = insertion_point(&sorted, &item);
        sorted.insert(at, item);
        proof {
            assert(sorted.deep_view() =~= before.insert(at as int, model));
            lemma_insert_sorted(before, model, at as int, le);
            broadcast use vstd::seq_lib::group_to_multiset_ensures;

            assert(rest.deep_view() =~= all.take(n - 1)) by {
                assert(all.take(n).drop_last() =~= all.take(n - 1));
            }
            assert(all.skip(n - 1) =~= all.skip(n).insert(0, model));
            assert(all.skip(n - 1).to_multiset() =~= all.skip(n).to_multiset().insert(model));
            assert(sorted.deep_view().to_multiset() =~= before.to_multiset().insert(model));
        }
    }
    proof {
        assert(all.skip(0) =~= all);
        all.lemma_sort_by_ensures(le);
        vstd::seq_lib::lemma_sorted_unique(sorted.deep_view(), all.sort_by(le), le);
    }
    sorted
}

/// All images below a folder with the entries `nodes`, at any depth, sorted by path.
pub open spec fn sorted_images(nodes: Seq<FsNode>) -> Seq<FoundModel> {
    images_in(nodes, Seq::empty(), Seq::empty()).sort_by(
        |a: FoundModel, b: FoundModel| found_le(a, b),
    )
}

/// Appends all images below a folder with the entries `nodes`, at any depth, sorted by path.
pub fn walk_images(nodes: &Vec<FsNode>, out: &mut Vec<Found>)
    ensures
        final(out).deep_view() == old(out).deep_view() + sorted_images(nodes@),
        ({
            let added = final(out).deep_view().skip(old(out)@.len() as int);
            &&& added.to_multiset() == images_in(nodes@, Seq::empty(), Seq::empty()).to_multiset()
            &&& sorted_by(added, |a: FoundModel, b: FoundModel| found_le(a, b))
        }),
{
    let ghost start = out.deep_view();
    let ghost le = |a: FoundModel, b: FoundModel| found_le(a, b);
    let mut found: Vec<Found> = Vec::new();
    assert(found.deep_view() =~= Seq::empty());
    proof {
        reveal_strlit("");
        assert(""@ =~= Seq::empty());
    }
    let top: Vec<u8> = Vec::new();
    gather_images(nodes, "", &top, &mut found);
    assert(found.deep_view() =~= images_in(nodes@, Seq::empty(), Seq::empty()));
    let mut sorted = sort_found(found);
    let ghost added = sorted.deep_view();
    out.append(&mut sorted);
    proof {
        assert(out.deep_view() =~= start + added);
        assert(out.deep_view().skip(start.len() as int) =~= added);
        lemma_found_order();
        images_in(nodes@, Seq::empty(), Seq::empty()).lemma_sort_by_ensures(le);
    }
}

proof fn lemma_insert_sorted(
    s: Seq<FoundModel>,
    x: FoundModel,
    at: int,
    le: spec_fn(FoundModel, FoundModel) -> bool,
)
    requires
        total_ordering(le),
        sorted_by(s, le),
        0 <= at <= s.len(),
        forall|k: int| 0 <= k < at ==> le(#[trigger] s[k], x),
        forall|k: int| at <= k < s.len() ==> le(x, #[trigger] s[k]),
    ensures
        sorted_by(s.insert(at, x), le),
{
    let t = s.insert(at, x);
    assert forall|i: int, j: int| 0 <= i < j < t.len() implies #[trigger] le(t[i], t[j]) by {
        let a = if i < at {
            i
        } else {
            i - 1
        };
        let b = if j < at {
            j
        } else {
            j - 1
        };
        if i != at && j != at {
            assert(t[i] == s[a] && t[j] == s[b]);
            assert(le(s[a], s[b]));
        } else if i == at {
            assert(t[j] == s[b]);
            assert(le(x, s[b]));
        } else {
            assert(t[i] == s[a]);
            assert(le(s[a], x));
        }
    }
}

/// Where an image belongs among sorted ones.
fn insertion_point(sorted: &Vec<Found>, item: &Found) -> (at: usize)
    requires
        sorted_by(sorted.deep_view(), |a: FoundModel, b: FoundModel| found_le(a, b)),
    ensures
        at <= sorted@.len(),
        forall|k: int|
            0 <= k < at ==> found_le(#[trigger] sorted.deep_view()[k], item.deep_view()),
        forall|k: int|
            at <= k < sorted@.len() ==> found_le(
                item.deep_view(),
                #[trigger] sorted.deep_view()[k],
            ),
{
    let ghost le = |a: FoundModel, b: FoundModel| found_le(a, b);
    let ghost s = sorted.deep_view();
    let ghost x = item.deep_view();
    let mut low: usize = 0;
    let mut high: usize = sorted.len();
    while low < high
        invariant
            low <= high <= sorted@.len(),
            s == sorted.deep_view(),
            x == item.deep_view(),
            le == (|a: FoundModel, b: FoundModel| found_le(a, b)),
            sorted_by(s, le),
            forall|k: int| 0 <= k < low ==> found_le(#[trigger] s[k], x),
            forall|k: int| high <= k < s.len() ==> found_le(x, #[trigger] s[k]),
        decreases high - low,
    {
        let mid: usize = low + (high - low) / 2;
        proof {
            lemma_found_order();
            assert(s[mid as int] == sorted@[mid as int].deep_view());
        }
        if found_before(&sorted[mid], item) {
            assert forall|k: int| 0 <= k < mid + 1 implies found_le(#[trigger] s[k], x) by {
                if k < mid {
                    assert(le(s[k], s[mid as int]));
                    assert(le(s[mid as int], x));
                    assert(le(s[k], x));
                }
            }
            low = mid + 1;
        } else {
            assert forall|k: int| mid <= k < s.len() implies found_le(x, #[trigger] s[k]) by {
                assert(le(x, s[mid as int]) || le(s[mid as int], x));
                assert(le(x, s[mid as int]));
                if k > mid {
                    assert(le(s[mid as int], s[k]));
                    assert(le(x, s[k]));
                }
            }
            high = mid;
        }
    }
    low
}

/// Whether an entry is a spreadsheet that a batch may be driven by. Office lock files are not.
pub open spec fn is_sheet_file(node: FsNode) -> bool {
    &&& node.entry is File
    &&& has_sheet_extension(node.name@)
    &&& !(node.exact && "~$"@.is_prefix_of(node.name@))
}

/// Whether entry `i` of a folder is the first of its spreadsheets.
pub open spec fn is_first_sheet(nodes: Seq<FsNode>, i: int) -> bool {
    &&& 0 <= i < nodes.len()
    &&& is_sheet_file(nodes[i])
    &&& forall|k: int|
        0 <= k < nodes.len() && is_sheet_file(#[trigger] nodes[k]) ==> path_le(
            nodes[i].raw@,
            nodes[k].raw@,
        ) && (nodes[k].raw@ == nodes[i].raw@ ==> i <= k)
}

/// Which entry of a folder is the first of its spreadsheets.
pub open spec fn first_sheet_entry(nodes: Seq<FsNode>) -> Option<int> {
    if exists|i: int| 0 <= i < nodes.len() && is_sheet_file(#[trigger] nodes[i]) {
        Some(choose|i: int| is_first_sheet(nodes, i))
    } else {
        None
    }
}

/// The name of the first spreadsheet among the entries of a folder.
pub open spec fn first_sheet(nodes: Seq<FsNode>) -> Option<Seq<char>> {
    match first_sheet_entry(nodes) {
        Some(i) => Some(nodes[i].name@),
        None => None,
    }
}

/// There is only one entry that can come first.
pub proof fn lemma_first_sheet(nodes: Seq<FsNode>, i: int)
    requires
        is_first_sheet(nodes, i),
    ensures
        first_sheet_entry(nodes) == Some(i),
{
    let other = choose|i: int| is_first_sheet(nodes, i);
    assert(is_sheet_file(nodes[i]));
    assert(is_first_sheet(nodes, other));
    lemma_path_order(nodes[i].raw@, nodes[other].raw@, nodes[i].raw@);
}

/// Finds which entry of the working folder is the first of its spreadsheets.
pub fn find_spreadsheet_entry(nodes: &Vec<FsNode>) -> (at: Option<usize>)
    ensures
        match at {
            Some(b) => first_sheet_entry(nodes@) == Some(b as int) && b < nodes@.len(),
            None => first_sheet_entry(nodes@) is None,
        },
{
    let mut best: Option<usize> = None;
    let mut i: usize = 0;
    while i < nodes.len()
        invariant
            i <= nodes@.len(),
            match best {
                None => forall|k: int| 0 <= k < i ==> !is_sheet_file(#[trigger] nodes@[k]),
                Some(b) => {
                    &&& b < i
                    &&& is_sheet_file(nodes@[b as int])
                    &&& forall|k: int|
                        0 <= k < i && is_sheet_file(#[trigger] nodes@[k]) ==> path_le(
                            nodes@[b as int].raw@,
                            nodes@[k].raw@,
                        ) && (nodes@[k].raw@ == nodes@[b as int].raw@ ==> b <= k)
                },
            },
        decreases nodes@.len() - i,
    {
        let node = &nodes[i];
        let is_file = match node.entry {
            FsEntry::File => true,
            _ => false,
        };
        if is_file && is_supported(node.name.as_str()) && !(node.exact && starts_with(
            node.name.as_str(),
            "~$",
        )) {
            assert(is_sheet_file(nodes@[i as int]));
            proof {
                lemma_path_order(node.raw@, node.raw@, node.raw@);
            }
            match best {
                None => {
                    best = Some(i);
                },
                Some(b) => {
                    let ghost lead = nodes@[b as int].raw@;
                    if !path_before(&nodes[b].raw, &node.raw) {
                        proof {
                            assert forall|k: int|
                                0 <= k < i && is_sheet_file(#[trigger] nodes@[k]) implies path_le(
                                node.raw@,
                                nodes@[k].raw@,
                            ) && nodes@[k].raw@ != node.raw@ by {
                                lemma_path_order(node.raw@, lead, nodes@[k].raw@);
                            }
                        }
                        best = Some(i);
                    }
                },
            }
        }
        i = i + 1;
    }
    match best {
        None => None,
        Some(b) => {
            proof {
                assert(is_sheet_file(nodes@[b as int]));
                assert(is_first_sheet(nodes@, b as int));
                lemma_first_sheet(nodes@, b as int);
            }
            Some(b)
        },
    }
}

/// Finds the name of the first spreadsheet among the entries of the working folder.
pub fn find_spreadsheet(nodes: &Vec<FsNode>) -> (name: Option<String>)
    ensures
        name.deep_view() == first_sheet(nodes@),
{
    match find_spreadsheet_entry(nodes) {
        Some(at) => Some(nodes[at].name.clone()),
        None => None,
    }
}

/// Whether an entry is the folder of the collection `name`, whatever the case of its letters.
pub open spec fn is_collection_dir(node: FsNode, name: Seq<char>) -> bool {
    node.entry is Dir && node.exact && lowered(node.name@) == lowered(name)
}

/// The first entry that is the folder of the collection `name`.
pub open spec fn collection_dir(nodes: Seq<FsNode>, name: Seq<char>) -> Option<FsNode>
    decreases nodes.len(),
{
    if nodes.len() == 0 {
        None
    } else if is_collection_dir(nodes[0], name) {
        Some(nodes[0])
    } else {
        collection_dir(nodes.drop_first(), name)
    }
}

/// Finds the folder of a collection among the entries of the image folder.
pub fn resolve_collection_dir<'a>(nodes: &'a Vec<FsNode>, name: &str) -> (dir: Option<&'a FsNode>)
    ensures
        match dir {
            Some(d) => collection_dir(nodes@, name@) == Some(*d),
            None => collection_dir(nodes@, name@) is None,
        },
{
    let mut i: usize = 0;
    assert(nodes@.skip(0) =~= nodes@);
    while i < nodes.len()
        invariant
            i <= nodes@.len(),
            collection_dir(nodes@, name@) == collection_dir(nodes@.skip(i as int), name@),
        decreases nodes@.len() - i,
    {
        let node = &nodes[i];
        assert(nodes@.skip(i as int)[0] == *node);
        let is_dir = match node.entry {
            FsEntry::Dir(_) => true,
            _ => false,
        };
        if is_dir && node.exact && same_ignoring_ascii_case(node.name.as_str(), name) {
            return Some(node);
        }
        assert(nodes@.skip(i as int).drop_first() =~= nodes@.skip(i + 1));
        i = i + 1;
    }
    None
}

/// One source image of a collection, in mathematical terms.
pub struct ImageModel {
    pub path: Seq<char>,
    pub rel: Seq<char>,
    pub subfolder: Seq<char>,
    pub stem: Seq<char>,
    pub ext: Seq<char>,
}

/// One source image of a collection.
pub struct ImageInfo {
    /// Full path, by which templates and selections know the image.
    pub path: String,
    /// Path from the collection folder.
    pub rel: String,
    /// Folder of the image from the collection folder (empty in the folder itself).
    pub subfolder: String,
    pub stem: String,
    pub ext: String,
}

impl DeepView for ImageInfo {
    type V = ImageModel;

    open spec fn deep_view(&self) -> ImageModel {
        ImageModel {
            path: self.path@,
            rel: self.rel@,
            subfolder: self.subfolder@,
            stem: self.stem@,
            ext: self.ext@,
        }
    }
}

/// Where the last slash of a path stands, or -1.
pub open spec fn last_slash(path: Seq<char>) -> int
    decreases path.len(),
{
    if path.len() == 0 {
        -1
    } else if path.last() == '/' {
        path.len() - 1
    } else {
        last_slash(path.drop_last())
    }
}

/// What stands before the last slash of a path; nothing where there is none.
pub open spec fn parent_of(path: Seq<char>) -> Seq<char> {
    if last_slash(path) < 0 {
        Seq::empty()
    } else {
        path.take(last_slash(path))
    }
}

/// What stands behind the last slash of a path.
pub open spec fn leaf_of(path: Seq<char>) -> Seq<char> {
    path.skip(last_slash(path) + 1)
}

/// What there is to say of an image found below the folder `root`. A name that is not exact gives
/// no stem, so `image` stands for it.
pub open spec fn image_of(found: FoundModel, root: Seq<char>) -> ImageModel {
    let name = leaf_of(found.rel);
    ImageModel {
        path: joined(root, found.rel),
        rel: replaced(found.rel, '\\', '/'),
        subfolder: replaced(parent_of(found.rel), '\\', '/'),
        stem: if found.exact {
            name_stem(name)
        } else {
            "image"@
        },
        ext: match name_extension(name) {
            Some(ext) => ext,
            None => "jpg"@,
        },
    }
}

/// Describes an image found below the folder `root`.
pub fn image_info(found: &Found, root: &str) -> (info: ImageInfo)
    ensures
        info.deep_view() == image_of(found.deep_view(), root@),
{
    let rel = &found.rel;
    let mut i: usize = rel.len();
    assert(rel@.take(i as int) =~= rel@);
    while i > 0 && rel[i - 1] != '/'
        invariant
            i <= rel@.len(),
            last_slash(rel@) == last_slash(rel@.take(i as int)),
        decreases i,
    {
        assert(rel@.take(i as int).drop_last() =~= rel@.take(i - 1));
        i = i - 1;
    }
    assert(last_slash(rel@) == i - 1) by {
        if i > 0 {
            assert(rel@.take(i as int).last() == '/');
        }
    }
    let folder = if i > 0 {
        text_between(rel, 0, i - 1)
    } else {
        String::new()
    };
    let name = text_between(rel, i, rel.len());
    assert(folder@ =~= parent_of(rel@));
    assert(name@ =~= leaf_of(rel@));
    let whole = text_of(rel);
    let (stem, ext) = split_name(name.as_str());
    ImageInfo {
        path: join(root, whole.as_str()),
        rel: replace_char(whole.as_str(), '\\', '/'),
        subfolder: replace_char(folder.as_str(), '\\', '/'),
        stem: if found.exact {
            stem
        } else {
            "image".to_string()
        },
        ext: match ext {
            Some(e) => e,
            None => "jpg".to_string(),
        },
    }
}

} // verus!
