//! What holds of every text and every path: how they are trimmed, parted and put together.
use vstd::prelude::*;

use crate::compositor::Kind;
use crate::listing_laws::lemma_pieces_joined;
use crate::paths::{
    components, extension_of, file_name_of, joined, last_dot, lower_extension, name_extension,
    name_stem,
};
use crate::spreadsheet::{has_sheet_extension, is_batch_sheet, is_reserved, sanitized, unreserved};
use crate::text::{
    decimal, digits, is_white_space, lemma_single_piece, lemma_strip_ends, lines_of, lowered,
    pieces, replaced, strip, strip_end, strip_start, trimmed, undotted, words_of,
};
use crate::wrapping::{lemma_no_words, lemma_pieces_clean};

verus! {

/// The code points of white space: those with the Unicode property `White_Space`.
pub open spec fn white_points() -> Seq<int> {
    seq![
        9int, 10, 11, 12, 13, 32, 133, 160, 5760, 8192, 8193, 8194, 8195, 8196, 8197, 8198, 8199,
        8200, 8201, 8202, 8232, 8233, 8239, 8287, 12288,
    ]
}

/// Whether a character is white space, by its code point.
pub open spec fn by_point() -> spec_fn(char) -> bool {
    |c: char| white_points().contains(c as int)
}

/// Whether a character is a dot.
pub open spec fn by_dot() -> spec_fn(char) -> bool {
    |c: char| c == '.'
}

/// White space are these characters and no others.
pub proof fn lemma_white_space_points(c: char)
    ensures
        is_white_space(c) <==> white_points().contains(c as int),
{
    let s = white_points();
    let n = c as int;
    if is_white_space(c) {
        let k: int = if 9 <= n <= 13 {
            n - 9
        } else if n == 32 {
            5
        } else if n == 133 {
            6
        } else if n == 160 {
            7
        } else if n == 5760 {
            8
        } else if 8192 <= n <= 8202 {
            n - 8192 + 9
        } else if n == 8232 {
            20
        } else if n == 8233 {
            21
        } else if n == 8239 {
            22
        } else if n == 8287 {
            23
        } else {
            24
        };
        assert(s[k] == n);
    }
}

/// Whether `out` is what is left of `s` once characters that satisfy `p` are taken off both ends,
/// as many as there are: it begins at `a` and ends before `b`.
pub open spec fn is_middle(
    s: Seq<char>,
    out: Seq<char>,
    a: int,
    b: int,
    p: spec_fn(char) -> bool,
) -> bool {
    &&& 0 <= a <= b <= s.len()
    &&& out == s.subrange(a, b)
    &&& forall|k: int| 0 <= k < a ==> p(#[trigger] s[k])
    &&& forall|k: int| b <= k < s.len() ==> p(#[trigger] s[k])
    &&& a < b ==> !p(s[a]) && !p(s[b - 1])
}

proof fn lemma_strip_start_suffix(s: Seq<char>, p: spec_fn(char) -> bool)
    ensures
        strip_start(s, p).len() <= s.len(),
        strip_start(s, p) == s.skip(s.len() - strip_start(s, p).len()),
        forall|k: int| 0 <= k < s.len() - strip_start(s, p).len() ==> p(#[trigger] s[k]),
    decreases s.len(),
{
    if s.len() > 0 && p(s[0]) {
        let rest = s.drop_first();
        lemma_strip_start_suffix(rest, p);
        let a = s.len() - strip_start(s, p).len();
        assert(rest.skip(a - 1) =~= s.skip(a));
        assert forall|k: int| 0 <= k < a implies p(#[trigger] s[k]) by {
            if k > 0 {
                assert(rest[k - 1] == s[k]);
            }
        }
    } else {
        assert(s.skip(0) =~= s);
    }
}

proof fn lemma_strip_end_prefix(s: Seq<char>, p: spec_fn(char) -> bool)
    ensures
        strip_end(s, p).len() <= s.len(),
        strip_end(s, p) == s.take(strip_end(s, p).len() as int),
        forall|k: int| strip_end(s, p).len() <= k < s.len() ==> p(#[trigger] s[k]),
    decreases s.len(),
{
    if s.len() > 0 && p(s.last()) {
        let rest = s.drop_last();
        lemma_strip_end_prefix(rest, p);
        let b = strip_end(s, p).len() as int;
        assert(rest.take(b) =~= s.take(b));
        assert forall|k: int| b <= k < s.len() implies p(#[trigger] s[k]) by {
            if k < s.len() - 1 {
                assert(rest[k] == s[k]);
            }
        }
    } else {
        assert(s.take(s.len() as int) =~= s);
    }
}

proof fn lemma_strip_is_middle(s: Seq<char>, p: spec_fn(char) -> bool)
    ensures
        exists|a: int, b: int| is_middle(s, strip(s, p), a, b, p),
{
    let rest = strip_start(s, p);
    let out = strip(s, p);
    let a = s.len() - rest.len();
    let b = a + out.len();
    lemma_strip_ends(s, p);
    lemma_strip_start_suffix(s, p);
    lemma_strip_end_prefix(rest, p);
    assert(out =~= s.subrange(a, b));
    assert forall|k: int| b <= k < s.len() implies p(#[trigger] s[k]) by {
        assert(rest[k - a] == s[k]);
    }
    if a < b {
        assert(out[0] == s[a]);
        assert(out.last() == s[b - 1]);
    }
    assert(is_middle(s, out, a, b, p));
}

/// Trimming takes white space off both ends, all of it, and nothing else.
pub proof fn lemma_trimmed_is_middle(s: Seq<char>)
    ensures
        exists|a: int, b: int| is_middle(s, trimmed(s), a, b, by_point()),
{
    let p = |c: char| is_white_space(c);
    let q = by_point();
    assert forall|c: char| #[trigger] p(c) == q(c) by {
        lemma_white_space_points(c);
    }
    lemma_strip_is_middle(s, p);
    let (a, b) = choose|a: int, b: int| is_middle(s, strip(s, p), a, b, p);
    assert forall|k: int| 0 <= k < s.len() implies q(#[trigger] s[k]) == p(s[k]) by {};
    assert(is_middle(s, trimmed(s), a, b, q));
}

/// Taking dots off takes them off both ends, all of them, and nothing else.
pub proof fn lemma_undotted_is_middle(s: Seq<char>)
    ensures
        exists|a: int, b: int| is_middle(s, undotted(s), a, b, by_dot()),
{
    let p = |c: char| c == '.';
    lemma_strip_is_middle(s, p);
    let (a, b) = choose|a: int, b: int| is_middle(s, strip(s, p), a, b, p);
    assert(is_middle(s, undotted(s), a, b, by_dot()));
}

/// A sanitized text is, character for character, the middle of the text it came from, with an
/// underscore for every character that is reserved: white space went from both ends first, and then
/// dots.
pub proof fn lemma_sanitized_is_middle(raw: Seq<char>)
    ensures
        exists|a: int, b: int, c: int, d: int|
            {
                &&& 0 <= a <= c <= d <= b <= raw.len()
                &&& sanitized(raw) == unreserved(raw).subrange(c, d)
                &&& is_middle(
                    unreserved(raw),
                    unreserved(raw).subrange(a, b),
                    a,
                    b,
                    by_point(),
                )
                &&& #[trigger] is_middle(
                    unreserved(raw).subrange(a, b),
                    sanitized(raw),
                    c - a,
                    d - a,
                    by_dot(),
                )
            },
        unreserved(raw).len() == raw.len(),
        forall|i: int|
            0 <= i < raw.len() ==> #[trigger] unreserved(raw)[i] == (if "/\\:*?\"<>|\0"@.contains(
                raw[i],
            ) {
                '_'
            } else {
                raw[i]
            }),
{
    let u = unreserved(raw);
    let t = trimmed(u);
    let p = by_point();
    let q = by_dot();
    lemma_trimmed_is_middle(u);
    lemma_undotted_is_middle(t);
    let (a, b) = choose|a: int, b: int| is_middle(u, t, a, b, p);
    let (e, f) = choose|e: int, f: int| is_middle(t, sanitized(raw), e, f, q);
    assert(t == u.subrange(a, b));
    assert(t.subrange(e, f) =~= u.subrange(a + e, a + f));
    let c = a + e;
    let d = a + f;
    assert(is_middle(u.subrange(a, b), sanitized(raw), c - a, d - a, q));
    assert forall|i: int| 0 <= i < raw.len() implies #[trigger] u[i] == (
    if "/\\:*?\"<>|\0"@.contains(raw[i]) {
        '_'
    } else {
        raw[i]
    }) by {
        lemma_reserved_characters(raw[i]);
    }
}

/// The reserved characters.
pub proof fn lemma_reserved_characters(c: char)
    ensures
        is_reserved(c) <==> "/\\:*?\"<>|\0"@.contains(c),
{
    reveal_strlit("/\\:*?\"<>|\0");
    let s = "/\\:*?\"<>|\0"@;
    assert(s.len() == 10);
    assert(s[0] == '/' && s[1] == '\\' && s[2] == ':' && s[3] == '*' && s[4] == '?' && s[5] == '"'
        && s[6] == '<' && s[7] == '>' && s[8] == '|' && s[9] == '\0');
}

/// Lower case changes the letters from A to Z, each to the one 32 code points on, and nothing else.
pub proof fn lemma_lowered_letters(s: Seq<char>, i: int)
    ensures
        lowered(s).len() == s.len(),
        0 <= i < s.len() && 65 <= s[i] as int <= 90 ==> lowered(s)[i] as int == s[i] as int + 32,
        0 <= i < s.len() && !(65 <= s[i] as int <= 90) ==> lowered(s)[i] == s[i],
        lowered(lowered(s)) == lowered(s),
{
    assert forall|k: int| 0 <= k < s.len() implies lowered(lowered(s))[k] == lowered(s)[k] by {
        let c = s[k];
        assert(65 <= c as int <= 90 ==> (c as u8 + 32) as char as int == c as int + 32);
    }
    assert(lowered(lowered(s)) =~= lowered(s));
}

/// Replacing a character replaces it wherever it stands, and nothing else.
pub proof fn lemma_replaced_characters(s: Seq<char>, from: char, to: char, i: int)
    ensures
        replaced(s, from, to).len() == s.len(),
        0 <= i < s.len() && s[i] == from ==> replaced(s, from, to)[i] == to,
        0 <= i < s.len() && s[i] != from ==> replaced(s, from, to)[i] == s[i],
{
}

proof fn lemma_pieces_part(a: Seq<char>, c: char, b: Seq<char>, p: spec_fn(char) -> bool)
    requires
        p(c),
    ensures
        pieces(a.push(c) + b, p) == pieces(a, p) + pieces(b, p),
{
    let s = a.push(c);
    assert(s.drop_last() =~= a);
    lemma_pieces_joined(s, b, p);
    assert(pieces(a, p).push(Seq::empty()).drop_last() =~= pieces(a, p));
}

/// A line feed parts lines, wherever it stands; a text without one is one line.
pub proof fn lemma_lines_parted(a: Seq<char>, b: Seq<char>)
    ensures
        lines_of(a + seq!['\n'] + b) == lines_of(a) + lines_of(b),
        !a.contains('\n') ==> lines_of(a) == seq![a],
{
    let p = |c: char| c == '\n';
    assert(a + seq!['\n'] + b =~= a.push('\n') + b);
    lemma_pieces_part(a, '\n', b, p);
    if !a.contains('\n') {
        assert forall|i: int| 0 <= i < a.len() implies !p(#[trigger] a[i]) by {
            assert(a.contains(a[i]));
        }
        lemma_single_piece(a, p);
    }
}

/// White space parts words, wherever it stands; a text without any is one word, or none where it is
/// empty.
pub proof fn lemma_words_parted(a: Seq<char>, c: char, b: Seq<char>)
    requires
        white_points().contains(c as int),
    ensures
        words_of(a + seq![c] + b) == words_of(a) + words_of(b),
        a.len() > 0 && (forall|i: int|
            0 <= i < a.len() ==> !white_points().contains(#[trigger] a[i] as int)) ==> words_of(a)
            == seq![a],
        words_of(Seq::empty()) == Seq::<Seq<char>>::empty(),
{
    let p = |c: char| is_white_space(c);
    let keep = |w: Seq<char>| w.len() > 0;
    lemma_white_space_points(c);
    assert(a + seq![c] + b =~= a.push(c) + b);
    lemma_pieces_part(a, c, b, p);
    Seq::filter_distributes_over_add(pieces(a, p), pieces(b, p), keep);
    lemma_no_words();
    if a.len() > 0 && (forall|i: int|
        0 <= i < a.len() ==> !white_points().contains(#[trigger] a[i] as int)) {
        assert forall|i: int| 0 <= i < a.len() implies !p(#[trigger] a[i]) by {
            lemma_white_space_points(a[i]);
        }
        lemma_single_piece(a, p);
        lemma_only_kept(a, keep);
    }
}

proof fn lemma_only_kept(a: Seq<char>, keep: spec_fn(Seq<char>) -> bool)
    ensures
        keep(a) ==> seq![a].filter(keep) == seq![a],
        !keep(a) ==> seq![a].filter(keep) == Seq::<Seq<char>>::empty(),
{
    reveal(Seq::filter);
    let one = seq![a];
    assert(one.drop_last() =~= Seq::empty());
    assert(one.drop_last().filter(keep) =~= Seq::empty());
    assert(one.last() == a);
    assert(Seq::<Seq<char>>::empty().push(a) =~= one);
}

/// A slash parts the components of a path, wherever it stands; a text without one is one component,
/// but for what is empty or a single dot.
pub proof fn lemma_components_parted(a: Seq<char>, b: Seq<char>)
    ensures
        components(a + seq!['/'] + b) == components(a) + components(b),
        !a.contains('/') && a.len() > 0 && a != seq!['.'] ==> components(a) == seq![a],
        a.len() == 0 || a == seq!['.'] ==> components(a) == Seq::<Seq<char>>::empty(),
{
    let p = |c: char| c == '/';
    let keep = |part: Seq<char>| part.len() > 0 && part != seq!['.'];
    assert(a + seq!['/'] + b =~= a.push('/') + b);
    lemma_pieces_part(a, '/', b, p);
    Seq::filter_distributes_over_add(pieces(a, p), pieces(b, p), keep);
    if !a.contains('/') || a.len() == 0 || a == seq!['.'] {
        assert forall|i: int| 0 <= i < a.len() implies !p(#[trigger] a[i]) by {
            assert(a.contains(a[i]));
        }
        lemma_single_piece(a, p);
        lemma_only_kept(a, keep);
    }
}

/// A path that starts with a slash stands for itself, whatever it is joined to; any other is put
/// behind the base, with one slash between them unless the base is empty or ends with one. So the
/// components of the base are followed by those of the path.
pub proof fn lemma_joined_paths(base: Seq<char>, rest: Seq<char>)
    ensures
        rest.len() > 0 && rest[0] == '/' ==> joined(base, rest) == rest,
        (rest.len() == 0 || rest[0] != '/') && base.len() > 0 && base.last() != '/' ==> joined(
            base,
            rest,
        ) == base + seq!['/'] + rest,
        (rest.len() == 0 || rest[0] != '/') && (base.len() == 0 || base.last() == '/') ==> joined(
            base,
            rest,
        ) == base + rest,
        rest.len() == 0 || rest[0] != '/' ==> components(joined(base, rest)) == components(base)
            + components(rest),
{
    if rest.len() == 0 || rest[0] != '/' {
        lemma_components_parted(base, rest);
        lemma_components_parted(Seq::empty(), rest);
        if base.len() > 0 && base.last() != '/' {
            assert(joined(base, rest) =~= base + seq!['/'] + rest);
        } else if base.len() == 0 {
            assert(joined(base, rest) =~= rest);
            assert(components(base) =~= Seq::empty());
            assert(components(base) + components(rest) =~= components(rest));
        } else {
            let front = base.drop_last();
            lemma_components_parted(front, rest);
            lemma_components_parted(front, Seq::empty());
            lemma_components_parted(Seq::empty(), Seq::empty());
            assert(front + seq!['/'] + rest =~= base + rest);
            assert(front + seq!['/'] + Seq::empty() =~= base);
            assert(components(front) + components(Seq::empty()) =~= components(front));
        }
    }
}

/// Whether a text is the name of a file or folder: not empty, without a slash, and neither of the
/// names by which a folder calls itself and the one above.
pub open spec fn is_plain_name(name: Seq<char>) -> bool {
    name.len() > 0 && !name.contains('/') && name != seq!['.'] && name != seq!['.', '.']
}

/// The file that a path names is its last component, whatever stands before it; a slash at the end
/// does not matter, and a path of no components, or that ends by going up, names none.
pub proof fn lemma_file_name_is_last(base: Seq<char>, name: Seq<char>)
    ensures
        is_plain_name(name) ==> file_name_of(name) == Some(name),
        is_plain_name(name) ==> file_name_of(base + seq!['/'] + name) == Some(name),
        is_plain_name(name) ==> file_name_of(joined(base, name)) == Some(name),
        file_name_of(base + seq!['/']) == file_name_of(base),
        file_name_of(base + seq!['/', '.', '.']) is None,
        file_name_of(base) matches Some(last) ==> is_plain_name(last) && components(base).len() > 0
            && components(base).last() == last,
        file_name_of(base) is None ==> components(base).len() == 0 || components(base).last()
            == seq!['.', '.'],
{
    lemma_components_parted(base, name);
    lemma_components_parted(name, base);
    lemma_components_parted(base, Seq::empty());
    lemma_components_parted(Seq::empty(), base);
    let up = seq!['.', '.'];
    lemma_components_parted(base, up);
    lemma_components_parted(up, base);
    assert(up[0] == '.' && up[1] == '.');
    assert(base + seq!['/'] + Seq::empty() =~= base + seq!['/']);
    assert(base + seq!['/'] + up =~= base + seq!['/', '.', '.']);
    assert(components(base) + Seq::<Seq<char>>::empty() =~= components(base));
    if is_plain_name(name) {
        if name[0] == '/' {
            assert(name.contains(name[0]));
        }
        lemma_joined_paths(base, name);
    }
    if let Some(last) = file_name_of(base) {
        let p = |c: char| c == '/';
        let keep = |part: Seq<char>| part.len() > 0 && part != seq!['.'];
        let all = pieces(base, p);
        let kept = components(base);
        broadcast use vstd::seq_lib::group_filter_ensures;

        assert(keep(all.filter(keep)[kept.len() - 1]));
        assert(all.filter(keep).contains(last));
        all.lemma_filter_contains_rev(keep, last);
        let k = choose|k: int| 0 <= k < all.len() && all[k] == last;
        assert forall|i: int| 0 <= i < last.len() implies last[i] != '/' by {
            lemma_pieces_clean(base, p, k, i);
            assert(!p(last[i]));
        }
    }
}

proof fn lemma_last_dot_place(stem: Seq<char>, ext: Seq<char>)
    requires
        !ext.contains('.'),
    ensures
        last_dot(stem.push('.') + ext) == stem.len(),
    decreases ext.len(),
{
    let name = stem.push('.') + ext;
    if ext.len() == 0 {
        assert(name =~= stem.push('.'));
    } else {
        let front = ext.drop_last();
        assert(ext.contains(ext.last()));
        assert forall|c: char| front.contains(c) implies ext.contains(c) by {
            let k = choose|k: int| 0 <= k < front.len() && front[k] == c;
            assert(ext[k] == c);
        }
        lemma_last_dot_place(stem, front);
        assert(name.drop_last() =~= stem.push('.') + front);
        assert(name.last() == ext.last());
    }
}

proof fn lemma_no_dot(name: Seq<char>)
    requires
        !name.contains('.'),
    ensures
        last_dot(name) == -1,
    decreases name.len(),
{
    if name.len() > 0 {
        let front = name.drop_last();
        assert(name.contains(name.last()));
        assert forall|c: char| front.contains(c) implies name.contains(c) by {
            let k = choose|k: int| 0 <= k < front.len() && front[k] == c;
            assert(name[k] == c);
        }
        lemma_no_dot(front);
    }
}

/// The last dot of a file name parts its stem from its extension, unless it is the first character;
/// a name without such a dot is all stem.
pub proof fn lemma_name_parts(stem: Seq<char>, ext: Seq<char>)
    requires
        !ext.contains('.'),
    ensures
        stem.len() > 0 ==> name_stem(stem + seq!['.'] + ext) == stem,
        stem.len() > 0 ==> name_extension(stem + seq!['.'] + ext) == Some(ext),
        name_stem(ext) == ext,
        name_extension(ext) is None,
        name_stem(seq!['.'] + ext) == seq!['.'] + ext,
        name_extension(seq!['.'] + ext) is None,
{
    let name = stem + seq!['.'] + ext;
    assert(name =~= stem.push('.') + ext);
    lemma_last_dot_place(stem, ext);
    lemma_last_dot_place(Seq::empty(), ext);
    lemma_no_dot(ext);
    assert(seq!['.'] + ext =~= Seq::<char>::empty().push('.') + ext);
    if stem.len() > 0 {
        assert(name_stem(name) =~= stem);
        assert(name_extension(name)->Some_0 =~= ext);
    }
}

/// Whether a path ends with a dot and the extension `ext` behind a stem that is not empty.
pub open spec fn has_ending(path: Seq<char>, ext: Seq<char>) -> bool {
    &&& ext.len() > 0
    &&& !ext.contains('.')
    &&& !ext.contains('/')
    &&& path.len() > ext.len() + 1
    &&& path[path.len() - ext.len() - 2] != '/'
    &&& path[path.len() - ext.len() - 1] == '.'
    &&& path.skip(path.len() - ext.len()) == ext
}

/// The extension of a path is how it ends, behind the last dot of its last component.
pub proof fn lemma_extension_is_ending(path: Seq<char>, ext: Seq<char>)
    requires
        has_ending(path, ext),
    ensures
        extension_of(path) == Some(ext),
        lower_extension(path) == lowered(ext),
{
    let n = path.len() - ext.len() - 1;
    let stem = path.take(n);
    let cut = last_slash_before(path, n - 1);
    lemma_last_slash_before(path, n - 1);
    let base = path.take(cut + 1);
    let leaf = path.subrange(cut + 1, n);
    let name = leaf + seq!['.'] + ext;
    assert(path =~= base + name);
    assert forall|i: int| 0 <= i < name.len() implies name[i] != '/' by {
        if i > leaf.len() {
            assert(ext.contains(ext[i - leaf.len() - 1]));
        } else if i < leaf.len() {
            assert(path[cut + 1 + i] != '/');
        }
    }
    assert(!name.contains('/'));
    assert(name.len() >= 3);
    assert(is_plain_name(name));
    if cut >= 0 {
        let front = path.take(cut);
        assert(base =~= front + seq!['/']);
        assert(path =~= front + seq!['/'] + name);
        lemma_file_name_is_last(front, name);
    } else {
        assert(path =~= name);
        lemma_file_name_is_last(Seq::empty(), name);
    }
    lemma_name_parts(leaf, ext);
}

/// Where the last slash up to place `k` of a path stands, or -1.
spec fn last_slash_before(path: Seq<char>, k: int) -> int
    decreases k + 1,
{
    if k < 0 || path[k] == '/' {
        k
    } else {
        last_slash_before(path, k - 1)
    }
}

proof fn lemma_last_slash_before(path: Seq<char>, k: int)
    requires
        -1 <= k < path.len(),
    ensures
        -1 <= last_slash_before(path, k) <= k,
        last_slash_before(path, k) >= 0 ==> path[last_slash_before(path, k)] == '/',
        forall|i: int| last_slash_before(path, k) < i <= k ==> path[i] != '/',
    decreases k + 1,
{
    if k >= 0 && path[k] != '/' {
        lemma_last_slash_before(path, k - 1);
    }
}

/// Whether `ext` reads as `word`, whatever the case of its letters.
pub open spec fn reads(ext: Seq<char>, word: Seq<char>) -> bool {
    &&& ext.len() == word.len()
    &&& forall|i: int|
        0 <= i < ext.len() ==> ext[i] == #[trigger] word[i] || (65 <= ext[i] as int <= 90
            && ext[i] as int + 32 == word[i] as int)
}

proof fn lemma_reads(ext: Seq<char>, word: Seq<char>)
    requires
        forall|i: int| 0 <= i < word.len() ==> !(65 <= #[trigger] word[i] as int <= 90),
    ensures
        reads(ext, word) <==> lowered(ext) == word,
{
    if reads(ext, word) {
        assert forall|i: int| 0 <= i < ext.len() implies lowered(ext)[i] == word[i] by {
            lemma_lowered_letters(ext, i);
            assert(!(65 <= word[i] as int <= 90));
        }
        assert(lowered(ext) =~= word);
    }
    if lowered(ext) == word {
        assert forall|i: int| 0 <= i < ext.len() implies ext[i] == #[trigger] word[i] || (65
            <= ext[i] as int <= 90 && ext[i] as int + 32 == word[i] as int) by {
            lemma_lowered_letters(ext, i);
        }
    }
}

/// The extension of a path is that of the file it names, and there is none where it names no file.
pub proof fn lemma_extension_of_name(path: Seq<char>)
    ensures
        file_name_of(path) is None ==> extension_of(path) is None,
        file_name_of(path) is Some ==> extension_of(path) == name_extension(
            file_name_of(path)->Some_0,
        ),
        extension_of(path) is None ==> lower_extension(path).len() == 0,
        extension_of(path) is Some ==> lower_extension(path) == lowered(
            extension_of(path)->Some_0,
        ),
{
}

/// What kind of picture a file is follows from its extension, whatever the case of the letters:
/// `jpg` and `jpeg` stand for one kind, `png` for the other, and nothing else for any.
pub proof fn lemma_kind_by_extension(path: Seq<char>, ext: Seq<char>)
    requires
        extension_of(path) == Some(ext),
    ensures
        Kind::of_path(path) == Some(Kind::Jpeg) <==> reads(ext, "jpg"@) || reads(ext, "jpeg"@),
        Kind::of_path(path) == Some(Kind::Png) <==> reads(ext, "png"@),
{
    reveal_strlit("jpg");
    reveal_strlit("jpeg");
    reveal_strlit("png");
    assert("jpg"@.len() == 3 && "jpeg"@.len() == 4 && "png"@.len() == 3);
    assert("jpg"@[0] == 'j' && "png"@[0] == 'p');
    lemma_reads(ext, "jpg"@);
    lemma_reads(ext, "jpeg"@);
    lemma_reads(ext, "png"@);
}

/// A file without an extension is neither a picture nor a spreadsheet.
pub proof fn lemma_no_ending_no_kind(path: Seq<char>)
    requires
        extension_of(path) is None,
    ensures
        Kind::of_path(path) is None,
        !has_sheet_extension(path),
{
    reveal_strlit("jpg");
    reveal_strlit("jpeg");
    reveal_strlit("png");
    reveal_strlit("xlsx");
    reveal_strlit("xlsm");
    reveal_strlit("xlsb");
    reveal_strlit("xls");
    reveal_strlit("ods");
    assert("jpg"@.len() == 3 && "jpeg"@.len() == 4 && "png"@.len() == 3);
    assert("xlsx"@.len() == 4 && "xlsm"@.len() == 4 && "xlsb"@.len() == 4);
    assert("xls"@.len() == 3 && "ods"@.len() == 3);
}

/// Whether a file is a spreadsheet follows from its extension, whatever the case of the letters.
pub proof fn lemma_sheet_by_extension(path: Seq<char>, ext: Seq<char>)
    requires
        extension_of(path) == Some(ext),
    ensures
        has_sheet_extension(path) <==> reads(ext, "xlsx"@) || reads(ext, "xlsm"@) || reads(
            ext,
            "xlsb"@,
        ) || reads(ext, "xls"@) || reads(ext, "ods"@),
{
    reveal_strlit("xlsx");
    reveal_strlit("xlsm");
    reveal_strlit("xlsb");
    reveal_strlit("xls");
    reveal_strlit("ods");
    lemma_reads(ext, "xlsx"@);
    lemma_reads(ext, "xlsm"@);
    lemma_reads(ext, "xlsb"@);
    lemma_reads(ext, "xls"@);
    lemma_reads(ext, "ods"@);
}

/// The batch sheet is called `Batcher`, whatever the case of the letters.
pub proof fn lemma_batch_sheet_name(name: Seq<char>)
    ensures
        is_batch_sheet(name) <==> reads(lowered(name), "batcher"@),
        is_batch_sheet("Batcher"@),
{
    reveal_strlit("Batcher");
    reveal_strlit("batcher");
    let upper = "Batcher"@;
    assert(upper.len() == 7 && "batcher"@.len() == 7);
    assert forall|i: int| 0 <= i < 7 implies lowered(upper)[i] == "batcher"@[i] by {
        lemma_lowered_letters(upper, i);
    }
    assert(lowered(upper) =~= "batcher"@);
    lemma_reads(lowered(name), "batcher"@);
    lemma_lowered_letters(name, 0);
}

/// The number that decimal digits stand for.
pub open spec fn digits_value(s: Seq<char>) -> int
    decreases s.len(),
{
    if s.len() == 0 {
        0
    } else {
        10 * digits_value(s.drop_last()) + (s.last() as int - 48)
    }
}

/// The digits of a number stand for it, are digits, and do not start with a zero unless there is
/// only one.
pub proof fn lemma_digits_stand_for(n: nat)
    ensures
        digits_value(digits(n)) == n,
        digits(n).len() > 0,
        forall|i: int| 0 <= i < digits(n).len() ==> 48 <= #[trigger] digits(n)[i] as int <= 57,
        n > 0 ==> digits(n)[0] != '0',
        n == 0 ==> digits(n) == seq!['0'],
    decreases n,
{
    if n < 10 {
        let one = digits(n);
        assert(one.drop_last() =~= Seq::empty());
        assert(digits_value(one.drop_last()) == 0);
        assert(one.last() as int == 48 + n);
        assert(n == 0 ==> one =~= seq!['0']);
    } else {
        let front = digits(n / 10);
        lemma_digits_stand_for(n / 10);
        let all = digits(n);
        assert(all.drop_last() =~= front);
        assert(all.last() as int == 48 + n % 10);
        assert forall|i: int| 0 <= i < all.len() implies 48 <= #[trigger] all[i] as int <= 57 by {
            if i < front.len() {
                assert(all[i] == front[i]);
            }
        }
        assert(all[0] == front[0]);
    }
}

/// An integer is written with its digits, behind a minus sign where it is below zero.
pub proof fn lemma_decimal_stands_for(n: int)
    ensures
        n >= 0 ==> decimal(n) == digits(n as nat) && digits_value(decimal(n)) == n && decimal(n)[0]
            != '-',
        n < 0 ==> decimal(n) == seq!['-'] + digits((-n) as nat) && digits_value(
            decimal(n).drop_first(),
        ) == -n,
{
    if n >= 0 {
        lemma_digits_stand_for(n as nat);
        assert(48 <= digits(n as nat)[0] as int);
    } else {
        lemma_digits_stand_for((-n) as nat);
        assert(decimal(n).drop_first() =~= digits((-n) as nat));
    }
}

} // verus!
