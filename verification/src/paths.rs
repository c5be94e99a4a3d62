//! Paths as text, with `/` between their components.
use vstd::prelude::*;

use crate::text::{
    chars_of, lemma_pieces_nonempty, lowered, pieces, text_between, text_of,
};

verus! {

/// The components of a path: what stands between slashes, but for what is empty or a single dot.
pub open spec fn components(path: Seq<char>) -> Seq<Seq<char>> {
    pieces(path, |c: char| c == '/').filter(|part: Seq<char>| part.len() > 0 && part != seq!['.'])
}

/// The last component of a path, if it names something.
pub open spec fn file_name_of(path: Seq<char>) -> Option<Seq<char>> {
    let parts = components(path);
    if parts.len() == 0 || parts.last() == seq!['.', '.'] {
        None
    } else {
        Some(parts.last())
    }
}

/// Where the last dot of `name` stands, or -1.
pub open spec fn last_dot(name: Seq<char>) -> int
    decreases name.len(),
{
    if name.len() == 0 {
        -1
    } else if name.last() == '.' {
        name.len() - 1
    } else {
        last_dot(name.drop_last())
    }
}

/// What follows the last dot of a file name, unless that dot is its first character.
pub open spec fn name_extension(name: Seq<char>) -> Option<Seq<char>> {
    if last_dot(name) <= 0 {
        None
    } else {
        Some(name.skip(last_dot(name) + 1))
    }
}

/// A file name without its extension and the dot before it.
pub open spec fn name_stem(name: Seq<char>) -> Seq<char> {
    if last_dot(name) <= 0 {
        name
    } else {
        name.take(last_dot(name))
    }
}

/// The extension of the file that a path names.
pub open spec fn extension_of(path: Seq<char>) -> Option<Seq<char>> {
    match file_name_of(path) {
        Some(name) => name_extension(name),
        None => None,
    }
}

/// The extension of the file that a path names, in lower case; empty where there is none.
pub open spec fn lower_extension(path: Seq<char>) -> Seq<char> {
    match extension_of(path) {
        Some(ext) => lowered(ext),
        None => Seq::empty(),
    }
}

/// `base` followed by the path `rest`.
pub open spec fn joined(base: Seq<char>, rest: Seq<char>) -> Seq<char> {
    if rest.len() > 0 && rest[0] == '/' {
        rest
    } else if base.len() == 0 || base.last() == '/' {
        base + rest
    } else {
        base.push('/') + rest
    }
}

/// `base` followed by the path `rest`.
pub fn join(base: &str, rest: &str) -> (out: String)
    ensures
        out@ == joined(base@, rest@),
{
    let b = chars_of(base);
    let r = chars_of(rest);
    if r.len() > 0 && r[0] == '/' {
        return text_of(&r);
    }
    let mut out = text_of(&b);
    if b.len() > 0 && b[b.len() - 1] != '/' {
        out.push('/');
    }
    out.append(rest);
    out
}

/// The last component of a path, if it names something.
pub fn file_name(path: &str) -> (name: Option<String>)
    ensures
        name.deep_view() == file_name_of(path@),
{
    let chars = chars_of(path);
    let ghost p = |c: char| c == '/';
    let ghost keep = |part: Seq<char>| part.len() > 0 && part != seq!['.'];
    let mut last: Option<Vec<char>> = None;
    let mut part: Vec<char> = Vec::new();
    let mut i: usize = 0;
    let ghost kept = Seq::<Seq<char>>::empty();
    proof {
        reveal(Seq::filter);
        assert(chars@.take(0) =~= Seq::empty());
        assert(pieces(chars@.take(0), p).drop_last() =~= Seq::empty());
    }
    while i < chars.len()
        invariant
            i <= chars@.len(),
            p == (|c: char| c == '/'),
            keep == (|part: Seq<char>| part.len() > 0 && part != seq!['.']),
            pieces(chars@.take(i as int), p).len() > 0,
            part@ == pieces(chars@.take(i as int), p).last(),
            kept == pieces(chars@.take(i as int), p).drop_last().filter(keep),
            last is None <==> kept.len() == 0,
            last matches Some(l) ==> l@ == kept.last(),
        decreases chars@.len() - i,
    {
        let ghost s = chars@.take(i as int);
        let ghost t = chars@.take(i + 1);
        let ghost before = pieces(s, p);
        let c = chars[i];
        proof {
            assert(t.drop_last() =~= s);
            assert(t.last() == c);
            lemma_pieces_nonempty(t, p);
        }
        if c == '/' {
            proof {
                assert(pieces(t, p).drop_last() =~= before);
                assert(before =~= before.drop_last().push(before.last()));
                reveal(Seq::filter);
            }
            if part.len() > 0 && !(part.len() == 1 && part[0] == '.') {
                assert(part@ != seq!['.']);
                assert(keep(before.last()));
                proof {
                    kept = kept.push(part@);
                }
                last = Some(part);
            } else {
                assert(part@.len() > 0 ==> part@ =~= seq!['.']);
                assert(!keep(before.last()));
            }
            part = Vec::new();
        } else {
            assert(pieces(t, p).drop_last() =~= before.drop_last());
            part.push(c);
        }
        i = i + 1;
    }
    let ghost all = pieces(chars@, p);
    proof {
        assert(chars@.take(i as int) =~= chars@);
        assert(all =~= all.drop_last().push(all.last()));
        reveal(Seq::filter);
    }
    if part.len() > 0 && !(part.len() == 1 && part[0] == '.') {
        assert(part@ != seq!['.']);
        assert(keep(all.last()));
        last = Some(part);
    } else {
        assert(part@.len() > 0 ==> part@ =~= seq!['.']);
        assert(!keep(all.last()));
    }
    match last {
        None => None,
        Some(l) => {
            if l.len() == 2 && l[0] == '.' && l[1] == '.' {
                assert(l@ =~= seq!['.', '.']);
                None
            } else {
                assert(l@ != seq!['.', '.']);
                Some(text_of(&l))
            }
        },
    }
}

/// Where the last dot of `name` stands.
fn find_last_dot(name: &Vec<char>) -> (at: Option<usize>)
    ensures
        match at {
            Some(k) => k == last_dot(name@) && k < name@.len(),
            None => last_dot(name@) == -1,
        },
{
    let mut i: usize = name.len();
    assert(name@.take(i as int) =~= name@);
    while i > 0
        invariant
            i <= name@.len(),
            last_dot(name@) == last_dot(name@.take(i as int)),
        decreases i,
    {
        if name[i - 1] == '.' {
            assert(name@.take(i as int).last() == '.');
            return Some(i - 1);
        }
        assert(name@.take(i as int).drop_last() =~= name@.take(i - 1));
        i = i - 1;
    }
    None
}

/// The extension and the stem of a file name.
pub fn split_name(name: &str) -> (parts: (String, Option<String>))
    ensures
        parts.0@ == name_stem(name@),
        parts.1.deep_view() == name_extension(name@),
{
    let chars = chars_of(name);
    match find_last_dot(&chars) {
        Some(k) if k > 0 => {
            assert(k < chars.len());
            let stem = text_between(&chars, 0, k);
            let ext = text_between(&chars, k + 1, chars.len());
            assert(stem@ =~= name_stem(name@));
            assert(ext@ =~= name@.skip(k + 1));
            (stem, Some(ext))
        },
        _ => (text_of(&chars), None),
    }
}

/// The extension of the file that a path names.
pub fn extension(path: &str) -> (ext: Option<String>)
    ensures
        ext.deep_view() == extension_of(path@),
{
    match file_name(path) {
        Some(name) => split_name(name.as_str()).1,
        None => None,
    }
}

} // verus!
