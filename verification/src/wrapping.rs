//! How a text is broken into lines, and where each line stands.
use vstd::prelude::*;

use crate::text::{
    chars_of, is_white_space, lemma_pieces_nonempty, lines_of, pieces, text_of, white_space,
    words_of,
};

verus! {

/// Whether `fits` answers as `p` does.
pub open spec fn decides<F: Fn(&str) -> bool>(fits: F, p: spec_fn(Seq<char>) -> bool) -> bool {
    forall|s: &str, b: bool| #[trigger] fits.ensures((s,), b) ==> b == p(s@)
}

/// A line with one word more.
pub open spec fn extended(line: Seq<char>, word: Seq<char>) -> Seq<char> {
    if line.len() == 0 {
        word
    } else {
        line.push(' ') + word
    }
}

/// The finished lines and the current one after filling words into lines, each as long as it fits.
pub open spec fn filled(words: Seq<Seq<char>>, p: spec_fn(Seq<char>) -> bool) -> (
    Seq<Seq<char>>,
    Seq<char>,
)
    decreases words.len(),
{
    if words.len() == 0 {
        (Seq::empty(), Seq::empty())
    } else {
        let (lines, line) = filled(words.drop_last(), p);
        let word = words.last();
        if p(extended(line, word)) {
            (lines, extended(line, word))
        } else if line.len() > 0 {
            (lines.push(line), word)
        } else {
            (lines, word)
        }
    }
}

/// The lines that words are filled into; there is always one, though it be empty.
pub open spec fn filled_lines(words: Seq<Seq<char>>, p: spec_fn(Seq<char>) -> bool) -> Seq<
    Seq<char>,
> {
    let (lines, line) = filled(words, p);
    if line.len() > 0 {
        lines.push(line)
    } else if lines.len() == 0 {
        seq![Seq::empty()]
    } else {
        lines
    }
}

/// A line wrapped to a width, where `p` tells which texts fit into it: the line itself where the
/// width is zero or the line fits, its words filled into lines otherwise.
pub open spec fn wrapped(
    line: Seq<char>,
    max_w: u32,
    p: spec_fn(Seq<char>) -> bool,
) -> Seq<Seq<char>> {
    if max_w == 0 || p(line) {
        seq![line]
    } else {
        filled_lines(words_of(line), p)
    }
}

/// The words of a text, which white space parts.
pub fn split_words(text: &str) -> (words: Vec<String>)
    ensures
        words.deep_view() == words_of(text@),
{
    let chars = chars_of(text);
    let ghost p = |c: char| is_white_space(c);
    let ghost keep = |w: Seq<char>| w.len() > 0;
    let mut words: Vec<String> = Vec::new();
    let mut word: Vec<char> = Vec::new();
    let mut i: usize = 0;
    proof {
        reveal(Seq::filter);
        assert(chars@.take(0) =~= Seq::empty());
        assert(pieces(chars@.take(0), p).drop_last() =~= Seq::empty());
        assert(words.deep_view() =~= Seq::empty());
    }
    while i < chars.len()
        invariant
            i <= chars@.len(),
            p == (|c: char| is_white_space(c)),
            keep == (|w: Seq<char>| w.len() > 0),
            pieces(chars@.take(i as int), p).len() > 0,
            word@ == pieces(chars@.take(i as int), p).last(),
            words.deep_view() == pieces(chars@.take(i as int), p).drop_last().filter(keep),
        decreases chars@.len() - i,
    {
        let ghost s = chars@.take(i as int);
        let ghost t = chars@.take(i + 1);
        let ghost before = pieces(s, p);
        let ghost known = words.deep_view();
        let c = chars[i];
        proof {
            assert(t.drop_last() =~= s);
            assert(t.last() == c);
            lemma_pieces_nonempty(t, p);
        }
        if white_space(c) {
            proof {
                assert(pieces(t, p).drop_last() =~= before);
                assert(before =~= before.drop_last().push(before.last()));
                reveal(Seq::filter);
            }
            if word.len() > 0 {
                assert(keep(before.last()));
                words.push(text_of(&word));
                assert(words.deep_view() =~= known.push(word@));
            } else {
                assert(!keep(before.last()));
            }
            word = Vec::new();
        } else {
            assert(pieces(t, p).drop_last() =~= before.drop_last());
            word.push(c);
        }
        i = i + 1;
    }
    let ghost all = pieces(chars@, p);
    let ghost known = words.deep_view();
    proof {
        assert(chars@.take(i as int) =~= chars@);
        assert(all =~= all.drop_last().push(all.last()));
        reveal(Seq::filter);
    }
    if word.len() > 0 {
        assert(keep(all.last()));
        words.push(text_of(&word));
        assert(words.deep_view() =~= known.push(word@));
    } else {
        assert(!keep(all.last()));
    }
    words
}

/// The lines of a text, which line feeds part.
pub fn split_lines(text: &str) -> (lines: Vec<String>)
    ensures
        lines.deep_view() == lines_of(text@),
{
    let chars = chars_of(text);
    let ghost p = |c: char| c == '\n';
    let mut lines: Vec<String> = Vec::new();
    let mut line: Vec<char> = Vec::new();
    let mut i: usize = 0;
    proof {
        assert(chars@.take(0) =~= Seq::empty());
        assert(pieces(chars@.take(0), p).drop_last() =~= Seq::empty());
        assert(lines.deep_view() =~= Seq::empty());
    }
    while i < chars.len()
        invariant
            i <= chars@.len(),
            p == (|c: char| c == '\n'),
            pieces(chars@.take(i as int), p).len() > 0,
            line@ == pieces(chars@.take(i as int), p).last(),
            lines.deep_view() == pieces(chars@.take(i as int), p).drop_last(),
        decreases chars@.len() - i,
    {
        let ghost s = chars@.take(i as int);
        let ghost t = chars@.take(i + 1);
        let ghost before = pieces(s, p);
        let ghost known = lines.deep_view();
        let c = chars[i];
        proof {
            assert(t.drop_last() =~= s);
            assert(t.last() == c);
            lemma_pieces_nonempty(t, p);
        }
        if c == '\n' {
            proof {
                assert(pieces(t, p).drop_last() =~= before);
                assert(before =~= before.drop_last().push(before.last()));
            }
            lines.push(text_of(&line));
            assert(lines.deep_view() =~= known.push(line@));
            line = Vec::new();
        } else {
            assert(pieces(t, p).drop_last() =~= before.drop_last());
            line.push(c);
        }
        i = i + 1;
    }
    let ghost all = pieces(chars@, p);
    let ghost known = lines.deep_view();
    proof {
        assert(chars@.take(i as int) =~= chars@);
        assert(all =~= all.drop_last().push(all.last()));
    }
    lines.push(text_of(&line));
    assert(lines.deep_view() =~= known.push(line@));
    lines
}

/// Wraps a line to a width. `fits` tells which texts fit into it.
pub fn wrap_line<F: Fn(&str) -> bool>(line: &str, max_w: u32, fits: &F) -> (lines: Vec<String>)
    requires
        forall|s: &str| #[trigger] fits.requires((s,)),
    ensures
        forall|p: spec_fn(Seq<char>) -> bool| #[trigger]
            decides(*fits, p) ==> lines.deep_view() == wrapped(line@, max_w, p),
{
    if max_w == 0 || fits(line) {
        let lines: Vec<String> = vec![line.to_string()];
        assert(lines.deep_view() =~= seq![line@]);
        return lines;
    }
    let words = split_words(line);
    let ghost all = words.deep_view();
    let mut out: Vec<String> = Vec::new();
    let mut cur = String::new();
    let mut i: usize = 0;
    assert(all.take(0) =~= Seq::empty());
    assert(out.deep_view() =~= Seq::empty());
    assert(cur@ =~= Seq::empty());
    while i < words.len()
        invariant
            i <= words@.len(),
            all == words.deep_view(),
            forall|s: &str| #[trigger] fits.requires((s,)),
            forall|p: spec_fn(Seq<char>) -> bool| #[trigger]
                decides(*fits, p) ==> filled(all.take(i as int), p) == (out.deep_view(), cur@),
        decreases words@.len() - i,
    {
        let ghost lines_before = out.deep_view();
        let ghost line_before = cur@;
        let word = words[i].as_str();
        let empty: bool = cur.as_str().is_empty();
        let tentative = if empty {
            word.to_string()
        } else {
            cur.clone().concat(" ").concat(word)
        };
        proof {
            reveal_strlit(" ");
            assert(line_before + " "@ =~= line_before.push(' '));
            assert(tentative@ == extended(line_before, word@));
            assert(all.take(i + 1).drop_last() =~= all.take(i as int));
            assert(all.take(i + 1).last() == word@);
        }
        if fits(tentative.as_str()) {
            cur = tentative;
        } else {
            if !empty {
                out.push(cur);
                assert(out.deep_view() =~= lines_before.push(line_before));
            }
            cur = word.to_string();
        }
        i = i + 1;
    }
    assert(all.take(i as int) =~= all);
    let ghost lines_before = out.deep_view();
    let ghost line_before = cur@;
    if !cur.as_str().is_empty() {
        out.push(cur);
        assert(out.deep_view() =~= lines_before.push(line_before));
    }
    if out.len() == 0 {
        out.push(String::new());
        assert(out.deep_view() =~= seq![Seq::empty()]);
    }
    out
}

/// One line of text on the canvas, in mathematical terms.
#[verifier::ext_equal]
pub struct PlacedModel {
    pub y: int,
    pub text: Seq<char>,
}

/// One line of text on the canvas, with the height at which it stands.
pub struct PlacedLine {
    pub y: i32,
    pub text: String,
}

impl DeepView for PlacedLine {
    type V = PlacedModel;

    open spec fn deep_view(&self) -> PlacedModel {
        PlacedModel { y: self.y as int, text: self.text@ }
    }
}

/// The lines `rows` from the height `y` on, each a line height below the last.
pub open spec fn stacked(rows: Seq<Seq<char>>, y: int, line_height: int) -> Seq<PlacedModel> {
    Seq::new(rows.len(), |j: int| PlacedModel { y: y + j * line_height, text: rows[j] })
}

/// The first `n` of `lines`, each wrapped, the first at the height `oy` and each a line height
/// below the one before it, however many rows that one was wrapped to.
pub open spec fn placed(
    lines: Seq<Seq<char>>,
    n: nat,
    oy: int,
    line_height: int,
    max_w: u32,
    p: spec_fn(Seq<char>) -> bool,
) -> Seq<PlacedModel>
    decreases n,
{
    if n == 0 {
        Seq::empty()
    } else {
        placed(lines, (n - 1) as nat, oy, line_height, max_w, p) + stacked(
            wrapped(lines[n - 1], max_w, p),
            oy + (n - 1) * line_height,
            line_height,
        )
    }
}

/// Whether a number fits 32 bits.
pub open spec fn in_32_bits(n: int) -> bool {
    i32::MIN <= n <= i32::MAX
}

/// Whether the height of row `j` of line `i` can be computed in 32 bits.
pub open spec fn place_fits(i: int, j: int, oy: int, line_height: int) -> bool {
    &&& i <= i32::MAX
    &&& j <= i32::MAX
    &&& in_32_bits(i * line_height)
    &&& in_32_bits(oy + i * line_height)
    &&& in_32_bits(j * line_height)
    &&& in_32_bits(oy + i * line_height + j * line_height)
}

/// Whether the heights of all rows of the first `n` of `lines` can be computed in 32 bits.
pub open spec fn places_fit(
    lines: Seq<Seq<char>>,
    n: nat,
    oy: int,
    line_height: int,
    max_w: u32,
    p: spec_fn(Seq<char>) -> bool,
) -> bool {
    forall|i: int, j: int|
        0 <= i < n && 0 <= j < wrapped(lines[i], max_w, p).len() ==> #[trigger] place_fits(
            i,
            j,
            oy,
            line_height,
        )
}

/// The height of row `j` of line `i`.
fn place(i: usize, j: usize, oy: i32, line_height: i32) -> (y: Option<i32>)
    ensures
        match y {
            Some(y) => place_fits(i as int, j as int, oy as int, line_height as int) && y == oy + i
                * line_height + j * line_height,
            None => !place_fits(i as int, j as int, oy as int, line_height as int),
        },
{
    if i > i32::MAX as usize || j > i32::MAX as usize {
        return None;
    }
    assert(-0x4000_0000_0000_0000 <= i * line_height <= 0x4000_0000_0000_0000
        && -0x4000_0000_0000_0000 <= j * line_height <= 0x4000_0000_0000_0000)
        by (nonlinear_arith)
        requires
            0 <= i <= 0x7fff_ffff,
            0 <= j <= 0x7fff_ffff,
            -0x8000_0000 <= line_height <= 0x7fff_ffff,
    ;
    let down: i64 = i as i64 * line_height as i64;
    let below: i64 = j as i64 * line_height as i64;
    let low: i64 = i32::MIN as i64;
    let high: i64 = i32::MAX as i64;
    if down < low || down > high || below < low || below > high {
        return None;
    }
    let first: i64 = oy as i64 + down;
    if first < low || first > high {
        return None;
    }
    let y: i64 = first + below;
    if y < low || y > high {
        return None;
    }
    Some(y as i32)
}

/// Breaks a text into lines, wraps each to a width, and says where every row stands: row `j` of
/// line `i` is `i + j` line heights below `oy`. `fits` tells which texts fit into the width. `None`
/// stands for a height that cannot be computed in 32 bits.
pub fn place_text<F: Fn(&str) -> bool>(
    text: &str,
    oy: i32,
    line_height: i32,
    max_w: u32,
    fits: &F,
) -> (rows: Option<Vec<PlacedLine>>)
    requires
        forall|s: &str| #[trigger] fits.requires((s,)),
    ensures
        forall|p: spec_fn(Seq<char>) -> bool| #[trigger]
            decides(*fits, p) ==> {
                let lines = lines_of(text@);
                let n = lines.len();
                match rows {
                    Some(r) => {
                        &&& places_fit(lines, n, oy as int, line_height as int, max_w, p)
                        &&& r.deep_view() == placed(
                            lines,
                            n,
                            oy as int,
                            line_height as int,
                            max_w,
                            p,
                        )
                    },
                    None => !places_fit(lines, n, oy as int, line_height as int, max_w, p),
                }
            },
{
    let lines = split_lines(text);
    let ghost all = lines.deep_view();
    let ghost y = oy as int;
    let ghost lh = line_height as int;
    let mut rows: Vec<PlacedLine> = Vec::new();
    let mut i: usize = 0;
    assert(rows.deep_view() =~= Seq::empty());
    while i < lines.len()
        invariant
            i <= lines@.len(),
            all == lines.deep_view(),
            all == lines_of(text@),
            y == oy,
            lh == line_height,
            forall|s: &str| #[trigger] fits.requires((s,)),
            forall|p: spec_fn(Seq<char>) -> bool| #[trigger]
                decides(*fits, p) ==> places_fit(all, i as nat, y, lh, max_w, p)
                    && rows.deep_view() == placed(all, i as nat, y, lh, max_w, p),
        decreases lines@.len() - i,
    {
        let subs = wrap_line(lines[i].as_str(), max_w, fits);
        let ghost start = rows.deep_view();
        let ghost top = y + i * lh;
        let ghost parts = subs.deep_view();
        assert(all[i as int] == lines@[i as int]@);
        let mut j: usize = 0;
        assert(start + stacked(parts.take(0), top, lh) =~= start);
        while j < subs.len()
            invariant
                i < lines@.len(),
                j <= subs@.len(),
                all == lines.deep_view(),
                all == lines_of(text@),
                y == oy,
                lh == line_height,
                parts == subs.deep_view(),
                top == y + i * lh,
                forall|p: spec_fn(Seq<char>) -> bool| #[trigger]
                    decides(*fits, p) ==> parts == wrapped(all[i as int], max_w, p),
                forall|k: int| 0 <= k < j ==> #[trigger] place_fits(i as int, k, y, lh),
                rows.deep_view() == start + stacked(parts.take(j as int), top, lh),
            decreases subs@.len() - j,
        {
            let ghost known = rows.deep_view();
            match place(i, j, oy, line_height) {
                Some(at) => {
                    let ghost model = PlacedModel { y: at as int, text: parts[j as int] };
                    assert(parts[j as int] == subs@[j as int]@);
                    rows.push(PlacedLine { y: at, text: subs[j].clone() });
                    proof {
                        assert(rows.deep_view() =~= known.push(model));
                        assert(stacked(parts.take(j + 1), top, lh) =~= stacked(
                            parts.take(j as int),
                            top,
                            lh,
                        ).push(model));
                        assert(rows.deep_view() =~= start + stacked(parts.take(j + 1), top, lh));
                    }
                },
                None => {
                    assert forall|p: spec_fn(Seq<char>) -> bool| #[trigger]
                        decides(*fits, p) implies !places_fit(all, all.len(), y, lh, max_w, p) by {
                        assert(j < wrapped(all[i as int], max_w, p).len());
                        assert(!place_fits(i as int, j as int, y, lh));
                    }
                    return None;
                },
            }
            j = j + 1;
        }
        assert(parts.take(j as int) =~= parts);
        assert forall|p: spec_fn(Seq<char>) -> bool| #[trigger]
            decides(*fits, p) implies places_fit(
            all,
            (i + 1) as nat,
            y,
            lh,
            max_w,
            p,
        ) && rows.deep_view() == placed(all, (i + 1) as nat, y, lh, max_w, p) by {
            assert(start == placed(all, i as nat, y, lh, max_w, p));
            assert(places_fit(all, i as nat, y, lh, max_w, p));
            assert forall|a: int, b: int|
                0 <= a < i + 1 && 0 <= b < wrapped(
                    all[a],
                    max_w,
                    p,
                ).len() implies #[trigger] place_fits(
                a,
                b,
                y,
                lh,
            ) by {};
        }
        i = i + 1;
    }
    Some(rows)
}

/// All words of lines, line by line.
pub open spec fn words_in(lines: Seq<Seq<char>>) -> Seq<Seq<char>>
    decreases lines.len(),
{
    if lines.len() == 0 {
        Seq::empty()
    } else {
        words_in(lines.drop_last()) + words_of(lines.last())
    }
}

/// Whether a text is a word: not empty, and without white space.
pub open spec fn is_word(w: Seq<char>) -> bool {
    w.len() > 0 && forall|i: int| 0 <= i < w.len() ==> !is_white_space(#[trigger] w[i])
}

proof fn lemma_pieces_append(s: Seq<char>, w: Seq<char>, p: spec_fn(char) -> bool)
    requires
        forall|i: int| 0 <= i < w.len() ==> !p(#[trigger] w[i]),
    ensures
        pieces(s + w, p) == pieces(s, p).drop_last().push(pieces(s, p).last() + w),
    decreases w.len(),
{
    lemma_pieces_nonempty(s, p);
    let all = pieces(s, p);
    if w.len() == 0 {
        assert(s + w =~= s);
        assert(all.last() + w =~= all.last());
        assert(all.drop_last().push(all.last()) =~= all);
    } else {
        let front = w.drop_last();
        lemma_pieces_append(s, front, p);
        assert((s + w).drop_last() =~= s + front);
        assert((s + w).last() == w.last());
        assert(!p(w[w.len() - 1]));
        assert((all.last() + front).push(w.last()) =~= all.last() + w);
        let before = all.drop_last().push(all.last() + front);
        assert(before.drop_last() =~= all.drop_last());
    }
}

/// No piece holds a character that parts pieces.
pub proof fn lemma_pieces_clean(s: Seq<char>, p: spec_fn(char) -> bool, k: int, i: int)
    requires
        0 <= k < pieces(s, p).len(),
        0 <= i < pieces(s, p)[k].len(),
    ensures
        !p(pieces(s, p)[k][i]),
    decreases s.len(),
{
    if s.len() > 0 {
        let front = s.drop_last();
        let before = pieces(front, p);
        lemma_pieces_nonempty(front, p);
        if p(s.last()) {
            if k < before.len() {
                lemma_pieces_clean(front, p, k, i);
            }
        } else if k < before.len() - 1 || i < before.last().len() {
            lemma_pieces_clean(front, p, k, i);
        }
    }
}

/// What a text is parted into by white space are words.
pub proof fn lemma_words_are_words(s: Seq<char>, k: int)
    requires
        0 <= k < words_of(s).len(),
    ensures
        is_word(words_of(s)[k]),
{
    broadcast use vstd::seq_lib::group_filter_ensures;

    let p = |c: char| is_white_space(c);
    let keep = |w: Seq<char>| w.len() > 0;
    let all = pieces(s, p);
    let w = words_of(s)[k];
    assert(keep(all.filter(keep)[k]));
    assert(all.filter(keep).contains(w));
    all.lemma_filter_contains_rev(keep, w);
    let m = choose|m: int| 0 <= m < all.len() && all[m] == w;
    assert forall|i: int| 0 <= i < w.len() implies !is_white_space(#[trigger] w[i]) by {
        lemma_pieces_clean(s, p, m, i);
        assert(!p(w[i]));
    }
}

/// A line with one word more has one word more, at its end.
pub proof fn lemma_words_of_extended(line: Seq<char>, word: Seq<char>)
    requires
        is_word(word),
    ensures
        words_of(extended(line, word)) == words_of(line).push(word),
        extended(line, word).len() > 0,
{
    let p = |c: char| is_white_space(c);
    let keep = |w: Seq<char>| w.len() > 0;
    reveal(Seq::filter);
    if line.len() == 0 {
        assert(line =~= Seq::empty());
        assert(line + word =~= word);
        lemma_pieces_append(line, word, p);
        let all = pieces(word, p);
        assert(pieces(line, p) =~= seq![Seq::empty()]);
        assert(pieces(line, p).last() + word =~= word);
        assert(all =~= seq![word]);
        assert(all.drop_last() =~= Seq::empty());
        assert(all.last() == word);
        lemma_no_words();
        assert(keep(word));
        assert(words_of(word) =~= seq![word]);
        assert(words_of(line).push(word) =~= seq![word]);
    } else {
        let spaced = line.push(' ');
        let all = pieces(line, p);
        assert(spaced.drop_last() =~= line);
        assert(p(' '));
        assert(pieces(spaced, p) == all.push(Seq::empty()));
        lemma_pieces_append(spaced, word, p);
        assert(all.push(Seq::empty()).drop_last() =~= all);
        assert(all.push(Seq::empty()).last() + word =~= word);
        assert(pieces(spaced + word, p) == all.push(word));
        assert(all.push(word).drop_last() =~= all);
        assert(keep(word));
    }
}

proof fn lemma_filled_keeps_words(words: Seq<Seq<char>>, p: spec_fn(Seq<char>) -> bool)
    requires
        forall|k: int| 0 <= k < words.len() ==> is_word(#[trigger] words[k]),
    ensures
        words_in(filled(words, p).0) + words_of(filled(words, p).1) == words,
        words.len() > 0 ==> filled(words, p).1.len() > 0,
    decreases words.len(),
{
    let none = Seq::<char>::empty();
    lemma_no_words();
    if words.len() == 0 {
        assert(words_in(filled(words, p).0) + words_of(filled(words, p).1) =~= words);
    } else {
        let front = words.drop_last();
        let word = words.last();
        let (lines, line) = filled(front, p);
        assert(is_word(words[words.len() - 1]));
        lemma_filled_keeps_words(front, p);
        lemma_words_of_extended(line, word);
        lemma_words_of_extended(none, word);
        assert(words =~= front.push(word));
        let known = words_in(lines);
        if p(extended(line, word)) {
            assert(known + words_of(line).push(word) =~= (known + words_of(line)).push(word));
        } else if line.len() > 0 {
            assert(lines.push(line).drop_last() =~= lines);
            assert(words_in(lines.push(line)) == known + words_of(line));
            assert(words_of(word) == words_of(none).push(word));
            assert(front + words_of(none).push(word) =~= words);
        } else {
            assert(line =~= none);
            assert(known + words_of(none).push(word) =~= (known + words_of(line)).push(word));
        }
    }
}

/// Where there is nothing there are no words.
pub proof fn lemma_no_words()
    ensures
        words_of(Seq::empty()) == Seq::<Seq<char>>::empty(),
{
    let p = |c: char| is_white_space(c);
    let keep = |w: Seq<char>| w.len() > 0;
    reveal(Seq::filter);
    let all = pieces(Seq::empty(), p);
    assert(all =~= seq![Seq::empty()]);
    assert(all.drop_last() =~= Seq::empty());
    assert(all.drop_last().filter(keep) =~= Seq::empty());
    assert(!keep(all.last()));
}

/// Wrapping loses no word, adds none and keeps their order.
pub proof fn lemma_wrapping_keeps_words(
    line: Seq<char>,
    max_w: u32,
    p: spec_fn(Seq<char>) -> bool,
)
    ensures
        words_in(wrapped(line, max_w, p)) == words_of(line),
{
    lemma_no_words();
    if max_w == 0 || p(line) {
        let one = seq![line];
        assert(one.drop_last() =~= Seq::empty());
        assert(words_in(one.drop_last()) =~= Seq::empty());
        assert(one.last() == line);
        assert(words_in(one) =~= words_of(line));
    } else {
        let words = words_of(line);
        assert forall|k: int| 0 <= k < words.len() implies is_word(#[trigger] words[k]) by {
            lemma_words_are_words(line, k);
        }
        lemma_filled_keeps_words(words, p);
        let (lines, rest) = filled(words, p);
        if rest.len() > 0 {
            assert(lines.push(rest).drop_last() =~= lines);
        } else {
            assert(words.len() == 0);
            let one = seq![Seq::<char>::empty()];
            assert(one.drop_last() =~= Seq::empty());
            assert(words_in(one.drop_last()) =~= Seq::empty());
            assert(one.last() == Seq::<char>::empty());
            assert(words_in(one) =~= words);
        }
    }
}

proof fn lemma_filled_lines_fit(words: Seq<Seq<char>>, p: spec_fn(Seq<char>) -> bool)
    ensures
        forall|k: int|
            0 <= k < filled(words, p).0.len() ==> p(#[trigger] filled(words, p).0[k])
                || words.contains(filled(words, p).0[k]),
        filled(words, p).1.len() > 0 ==> p(filled(words, p).1) || words.contains(
            filled(words, p).1,
        ),
    decreases words.len(),
{
    if words.len() > 0 {
        let front = words.drop_last();
        let (lines, line) = filled(front, p);
        lemma_filled_lines_fit(front, p);
        assert forall|w: Seq<char>| front.contains(w) implies words.contains(w) by {
            let m = choose|m: int| 0 <= m < front.len() && front[m] == w;
            assert(words[m] == w);
        }
        assert(words[words.len() - 1] == words.last());
        assert(words.contains(words.last()));
        let out = filled(words, p).0;
        assert forall|k: int| 0 <= k < out.len() implies p(#[trigger] out[k]) || words.contains(
            out[k],
        ) by {
            if k < lines.len() {
                assert(out[k] == lines[k]);
            }
        }
    }
}

/// Every line that a text is wrapped to fits, or is a single word that is too long for any line, or
/// is the one empty line of a text without words.
pub proof fn lemma_wrapped_lines_fit(
    line: Seq<char>,
    max_w: u32,
    p: spec_fn(Seq<char>) -> bool,
    k: int,
)
    requires
        max_w > 0,
        0 <= k < wrapped(line, max_w, p).len(),
    ensures
        ({
            let row = wrapped(line, max_w, p)[k];
            p(row) || words_of(line).contains(row) || (row.len() == 0 && words_of(line).len() == 0)
        }),
{
    if !p(line) {
        let words = words_of(line);
        lemma_filled_lines_fit(words, p);
        assert forall|k: int| 0 <= k < words.len() implies is_word(#[trigger] words[k]) by {
            lemma_words_are_words(line, k);
        }
        lemma_filled_keeps_words(words, p);
    }
}

/// Words in one line, a space between each two.
pub open spec fn spaced(words: Seq<Seq<char>>) -> Seq<char>
    decreases words.len(),
{
    if words.len() == 0 {
        Seq::empty()
    } else {
        extended(spaced(words.drop_last()), words.last())
    }
}

/// Whether a run of words fits into a line, or is a single word and so cannot be broken.
pub open spec fn run_fits(
    words: Seq<Seq<char>>,
    from: int,
    to: int,
    p: spec_fn(Seq<char>) -> bool,
) -> bool {
    to == from + 1 || p(spaced(words.subrange(from, to)))
}

/// Whether `starts` are the first words of the lines of some way to break words into lines that
/// fit.
pub open spec fn breaks(
    words: Seq<Seq<char>>,
    starts: Seq<int>,
    p: spec_fn(Seq<char>) -> bool,
) -> bool {
    &&& words.len() > 0 ==> starts.len() > 0 && starts[0] == 0
    &&& forall|i: int| 0 <= i < starts.len() ==> 0 <= #[trigger] starts[i] < words.len()
    &&& forall|i: int, j: int|
        0 <= i < j < starts.len() ==> #[trigger] starts[i] < #[trigger] starts[j]
    &&& forall|i: int|
        0 <= i < starts.len() ==> run_fits(
            words,
            #[trigger] starts[i],
            if i + 1 < starts.len() {
                starts[i + 1]
            } else {
                words.len() as int
            },
            p,
        )
}

/// Whether every part of a run of words that fits into a line fits too.
pub open spec fn parts_fit(words: Seq<Seq<char>>, p: spec_fn(Seq<char>) -> bool) -> bool {
    forall|a: int, b: int, c: int, d: int|
        0 <= a <= b < c <= d <= words.len() && #[trigger] p(spaced(words.subrange(a, d)))
            ==> #[trigger] p(spaced(words.subrange(b, c)))
}

/// The first word of the current line after filling words into lines.
spec fn filled_start(words: Seq<Seq<char>>, p: spec_fn(Seq<char>) -> bool) -> int
    decreases words.len(),
{
    if words.len() == 0 {
        0
    } else if p(extended(filled(words.drop_last(), p).1, words.last())) {
        filled_start(words.drop_last(), p)
    } else {
        words.len() - 1
    }
}

proof fn lemma_filled_line(words: Seq<Seq<char>>, p: spec_fn(Seq<char>) -> bool)
    requires
        forall|k: int| 0 <= k < words.len() ==> is_word(#[trigger] words[k]),
    ensures
        words.len() > 0 ==> 0 <= filled_start(words, p) < words.len(),
        words.len() == 0 ==> filled_start(words, p) == 0,
        filled(words, p).1 == spaced(words.subrange(filled_start(words, p), words.len() as int)),
        words.len() > 0 ==> filled(words, p).1.len() > 0,
    decreases words.len(),
{
    let n = words.len() as int;
    if n > 0 {
        let front = words.drop_last();
        let word = words.last();
        assert(is_word(words[n - 1]));
        lemma_filled_line(front, p);
        let line = filled(front, p).1;
        if p(extended(line, word)) {
            let s = filled_start(front, p);
            let run = words.subrange(s, n);
            assert(run.drop_last() =~= front.subrange(s, n - 1));
            assert(run.last() == word);
        } else {
            let run = words.subrange(n - 1, n);
            assert(run.drop_last() =~= Seq::empty());
            assert(run.last() == word);
            assert(spaced(run.drop_last()) =~= Seq::empty());
        }
    } else {
        assert(words.subrange(0, 0) =~= Seq::empty());
    }
}

/// Filling stays ahead of any other way to break words into lines.
proof fn lemma_filling_stays_ahead(
    words: Seq<Seq<char>>,
    starts: Seq<int>,
    p: spec_fn(Seq<char>) -> bool,
)
    requires
        forall|k: int| 0 <= k < words.len() ==> is_word(#[trigger] words[k]),
        words.len() > 0,
        parts_fit(words, p),
        breaks(words, starts, p),
    ensures
        filled(words, p).0.len() + 1 <= starts.len(),
        filled(words, p).0.len() + 1 == starts.len() ==> starts.last() <= filled_start(words, p),
    decreases words.len(),
{
    let n = words.len() as int;
    let front = words.drop_last();
    let word = words.last();
    let line = filled(front, p).1;
    let last = starts.len() - 1;
    lemma_filled_line(words, p);
    lemma_filled_line(front, p);
    assert(starts[last] < n);
    assert(starts[0] == 0);
    if n == 1 {
        assert(front =~= Seq::empty());
    } else {
        assert forall|a: int, b: int| 0 <= a <= b <= n - 1 implies #[trigger] front.subrange(a, b)
            == words.subrange(a, b) by {
            assert(front.subrange(a, b) =~= words.subrange(a, b));
        }
        assert(parts_fit(front, p)) by {
            assert forall|a: int, b: int, c: int, d: int|
                0 <= a <= b < c <= d <= front.len() && #[trigger] p(
                    spaced(front.subrange(a, d)),
                ) implies #[trigger] p(spaced(front.subrange(b, c))) by {
                assert(p(spaced(words.subrange(a, d))));
                assert(p(spaced(words.subrange(b, c))));
            }
        }
        let others = if starts[last] == n - 1 {
            starts.drop_last()
        } else {
            starts
        };
        assert(starts[last] == n - 1 ==> last > 0);
        assert(breaks(front, others, p)) by {
            assert forall|i: int| 0 <= i < others.len() implies run_fits(
                front,
                #[trigger] others[i],
                if i + 1 < others.len() {
                    others[i + 1]
                } else {
                    front.len() as int
                },
                p,
            ) by {
                assert(others[i] == starts[i]);
                if i + 1 < others.len() {
                    assert(others[i + 1] == starts[i + 1]);
                } else if starts[last] != n - 1 && starts[i] + 1 != n - 1 {
                    assert(p(spaced(words.subrange(starts[i], n))));
                    assert(p(spaced(words.subrange(starts[i], n - 1))));
                }
                assert(run_fits(
                    words,
                    starts[i],
                    if i + 1 < starts.len() {
                        starts[i + 1]
                    } else {
                        n
                    },
                    p,
                ));
            }
            assert forall|i: int| 0 <= i < others.len() implies 0 <= #[trigger] others[i]
                < front.len() by {
                assert(others[i] == starts[i]);
                if i < last {
                    assert(starts[i] < starts[last]);
                }
            }
        }
        lemma_filling_stays_ahead(front, others, p);
        let s = filled_start(front, p);
        if starts[last] != n - 1 && filled(front, p).0.len() + 1 == starts.len() {
            assert(p(spaced(words.subrange(starts[last], n))));
            assert(p(spaced(words.subrange(s, n))));
            let run = words.subrange(s, n);
            assert(run.drop_last() =~= front.subrange(s, n - 1));
            assert(run.last() == word);
            assert(p(extended(line, word)));
        }
    }
}

/// Wrapping needs no more lines than any other way to break the words into lines that fit, where
/// every part of what fits into a line fits too.
pub proof fn lemma_wrapping_needs_fewest_lines(
    line: Seq<char>,
    max_w: u32,
    p: spec_fn(Seq<char>) -> bool,
    starts: Seq<int>,
)
    requires
        words_of(line).len() > 0,
        parts_fit(words_of(line), p),
        breaks(words_of(line), starts, p),
    ensures
        wrapped(line, max_w, p).len() <= starts.len(),
{
    let words = words_of(line);
    assert forall|k: int| 0 <= k < words.len() implies is_word(#[trigger] words[k]) by {
        lemma_words_are_words(line, k);
    }
    lemma_filling_stays_ahead(words, starts, p);
    lemma_filled_line(words, p);
}

} // verus!
