//! What holds of every text that is set: where its rows stand, what stands in them, and in which
//! font.
use vstd::prelude::*;

use crate::lettering::{
    answered, chosen_font, decides_for, fallback_paths, file_models, first_font, glyph_of,
    is_covered, is_font, is_spaced, supports, wrap_width, FontChoice, System,
};
use crate::text::words_of;
use crate::text_laws::{lemma_white_space_points, white_points};
use crate::wrapping::{
    decides, extended, filled, is_word, lemma_words_are_words, place_fits, placed,
    places_fit, stacked, wrapped,
};

verus! {

/// How many rows the first `n` lines are wrapped to.
pub open spec fn rows_before(
    lines: Seq<Seq<char>>,
    n: nat,
    max_w: u32,
    p: spec_fn(Seq<char>) -> bool,
) -> nat
    decreases n,
{
    if n == 0 {
        0
    } else {
        rows_before(lines, (n - 1) as nat, max_w, p) + wrapped(lines[n - 1], max_w, p).len()
    }
}

/// Row `j` of line `i` stands exactly `i + j` line heights below the top, however many rows and
/// lines there are; it comes behind all rows of the lines before and the rows before it in its own,
/// and holds what its line was wrapped to. So any two rows of one line that follow each other are
/// one line height apart.
pub proof fn lemma_rows_one_height_apart(
    lines: Seq<Seq<char>>,
    n: nat,
    oy: int,
    line_height: int,
    max_w: u32,
    p: spec_fn(Seq<char>) -> bool,
    i: int,
    j: int,
)
    requires
        0 <= i < n <= lines.len(),
        0 <= j < wrapped(lines[i], max_w, p).len(),
    ensures
        ({
            let all = placed(lines, n, oy, line_height, max_w, p);
            let k = rows_before(lines, i as nat, max_w, p) + j;
            &&& all.len() == rows_before(lines, n, max_w, p)
            &&& 0 <= k < all.len()
            &&& all[k].y == oy + (i + j) * line_height
            &&& all[k].text == wrapped(lines[i], max_w, p)[j]
            &&& j + 1 < wrapped(lines[i], max_w, p).len() ==> k + 1 < all.len() && all[k + 1].y
                == all[k].y + line_height
        }),
    decreases n,
{
    lemma_row_count(lines, n, oy, line_height, max_w, p);
    lemma_row_count(lines, (n - 1) as nat, oy, line_height, max_w, p);
    let all = placed(lines, n, oy, line_height, max_w, p);
    let before = placed(lines, (n - 1) as nat, oy, line_height, max_w, p);
    let k = rows_before(lines, i as nat, max_w, p) + j;
    if i < n - 1 {
        lemma_rows_one_height_apart(lines, (n - 1) as nat, oy, line_height, max_w, p, i, j);
        assert(all[k] == before[k]);
        if j + 1 < wrapped(lines[i], max_w, p).len() {
            assert(all[k + 1] == before[k + 1]);
        }
    } else {
        let rows = stacked(wrapped(lines[i], max_w, p), oy + i * line_height, line_height);
        assert(all[k] == rows[j]);
        assert(oy + i * line_height + j * line_height == oy + (i + j) * line_height)
            by (nonlinear_arith);
        if j + 1 < wrapped(lines[i], max_w, p).len() {
            assert(all[k + 1] == rows[j + 1]);
            assert((j + 1) * line_height == j * line_height + line_height) by (nonlinear_arith);
        }
    }
}

proof fn lemma_row_count(
    lines: Seq<Seq<char>>,
    n: nat,
    oy: int,
    line_height: int,
    max_w: u32,
    p: spec_fn(Seq<char>) -> bool,
)
    requires
        n <= lines.len(),
    ensures
        placed(lines, n, oy, line_height, max_w, p).len() == rows_before(lines, n, max_w, p),
    decreases n,
{
    if n > 0 {
        lemma_row_count(lines, (n - 1) as nat, oy, line_height, max_w, p);
    }
}

/// Moving the top of a text moves every row by as much and changes nothing else.
pub proof fn lemma_rows_move_with_top(
    lines: Seq<Seq<char>>,
    n: nat,
    oy: int,
    other: int,
    line_height: int,
    max_w: u32,
    p: spec_fn(Seq<char>) -> bool,
    k: int,
)
    requires
        n <= lines.len(),
        0 <= k < placed(lines, n, oy, line_height, max_w, p).len(),
    ensures
        ({
            let a = placed(lines, n, oy, line_height, max_w, p);
            let b = placed(lines, n, other, line_height, max_w, p);
            &&& a.len() == b.len()
            &&& a[k].text == b[k].text
            &&& a[k].y - oy == b[k].y - other
        }),
    decreases n,
{
    lemma_row_count(lines, n, oy, line_height, max_w, p);
    lemma_row_count(lines, n, other, line_height, max_w, p);
    lemma_row_count(lines, (n - 1) as nat, oy, line_height, max_w, p);
    lemma_row_count(lines, (n - 1) as nat, other, line_height, max_w, p);
    if k < rows_before(lines, (n - 1) as nat, max_w, p) {
        lemma_rows_move_with_top(lines, (n - 1) as nat, oy, other, line_height, max_w, p, k);
    }
}

/// The height of a row can be computed exactly where every number on the way to it fits 32 bits:
/// how far the line, how far the row in it, and both from the top.
pub proof fn lemma_heights_in_32_bits(
    lines: Seq<Seq<char>>,
    n: nat,
    oy: int,
    line_height: int,
    max_w: u32,
    p: spec_fn(Seq<char>) -> bool,
)
    ensures
        forall|i: int, j: int| #[trigger]
            place_fits(i, j, oy, line_height) <==> {
                &&& i <= 0x7fff_ffff
                &&& j <= 0x7fff_ffff
                &&& -0x8000_0000 <= i * line_height <= 0x7fff_ffff
                &&& -0x8000_0000 <= j * line_height <= 0x7fff_ffff
                &&& -0x8000_0000 <= oy + i * line_height <= 0x7fff_ffff
                &&& -0x8000_0000 <= oy + i * line_height + j * line_height <= 0x7fff_ffff
            },
        places_fit(lines, n, oy, line_height, max_w, p) <==> forall|i: int, j: int|
            0 <= i < n && 0 <= j < wrapped(lines[i], max_w, p).len() ==> #[trigger] place_fits(
                i,
                j,
                oy,
                line_height,
            ),
{
}

/// With lines that do not overlap, the height of a row can be computed exactly where the numbers on
/// the way to it are no larger than the largest of 32 bits.
pub proof fn lemma_heights_that_fit(i: int, j: int, oy: int, line_height: int)
    requires
        0 <= i,
        0 <= j,
        0 <= line_height,
        -0x8000_0000 <= oy <= 0x7fff_ffff,
    ensures
        place_fits(i, j, oy, line_height) <==> {
            &&& i <= 0x7fff_ffff
            &&& j <= 0x7fff_ffff
            &&& i * line_height <= 0x7fff_ffff
            &&& j * line_height <= 0x7fff_ffff
            &&& oy + (i + j) * line_height <= 0x7fff_ffff
        },
{
    assert(oy + i * line_height + j * line_height == oy + (i + j) * line_height && 0 <= i
        * line_height && 0 <= j * line_height) by (nonlinear_arith)
        requires
            0 <= i,
            0 <= j,
            0 <= line_height,
    ;
}

/// Words with one space between each two.
pub open spec fn with_spaces(words: Seq<Seq<char>>) -> Seq<char>
    decreases words.len(),
{
    if words.len() == 0 {
        Seq::empty()
    } else if words.len() == 1 {
        words[0]
    } else {
        with_spaces(words.drop_last()) + seq![' '] + words.last()
    }
}

/// Where the line that begins with word `starts[k]` ends.
pub open spec fn end_of(words: Seq<Seq<char>>, starts: Seq<int>, k: int) -> int {
    if k + 1 < starts.len() {
        starts[k + 1]
    } else {
        words.len() as int
    }
}

/// Whether `rows` are `words` in order, each row a run of them with one space between each two,
/// which fits unless it is a single word and would not fit with the word behind it; `starts` are
/// the first words of the rows.
pub open spec fn fills(
    words: Seq<Seq<char>>,
    rows: Seq<Seq<char>>,
    starts: Seq<int>,
    p: spec_fn(Seq<char>) -> bool,
) -> bool {
    &&& starts.len() == rows.len()
    &&& starts.len() > 0
    &&& starts[0] == 0
    &&& forall|k: int|
        0 <= k < starts.len() ==> 0 <= #[trigger] starts[k] < end_of(words, starts, k)
            <= words.len()
    &&& forall|k: int|
        0 <= k < rows.len() ==> #[trigger] rows[k] == with_spaces(
            words.subrange(starts[k], end_of(words, starts, k)),
        )
    &&& forall|k: int|
        0 <= k < rows.len() ==> end_of(words, starts, k) == starts[k] + 1 || p(#[trigger] rows[k])
    &&& forall|k: int|
        0 <= k < rows.len() - 1 ==> !p(
            #[trigger] rows[k] + seq![' '] + words[end_of(words, starts, k)],
        )
}

spec fn fill_starts(words: Seq<Seq<char>>, p: spec_fn(Seq<char>) -> bool) -> Seq<int>
    decreases words.len(),
{
    let n = words.len() as int;
    if n <= 1 {
        seq![0int]
    } else if p(extended(filled(words.drop_last(), p).1, words.last())) {
        fill_starts(words.drop_last(), p)
    } else {
        fill_starts(words.drop_last(), p).push(n - 1)
    }
}

proof fn lemma_filled_fills(words: Seq<Seq<char>>, p: spec_fn(Seq<char>) -> bool)
    requires
        words.len() > 0,
        forall|k: int| 0 <= k < words.len() ==> is_word(#[trigger] words[k]),
    ensures
        fills(words, filled(words, p).0.push(filled(words, p).1), fill_starts(words, p), p),
        filled(words, p).1.len() > 0,
    decreases words.len(),
{
    let n = words.len() as int;
    let starts = fill_starts(words, p);
    let rows = filled(words, p).0.push(filled(words, p).1);
    let word = words.last();
    let front = words.drop_last();
    assert(is_word(words[n - 1]));
    if n == 1 {
        assert(front =~= Seq::empty());
        assert(filled(front, p).1 =~= Seq::empty());
        assert(filled(front, p).0 =~= Seq::<Seq<char>>::empty());
        assert(rows =~= seq![word]);
        assert(words.subrange(0, 1) =~= words);
        assert(with_spaces(words) == word);
    } else {
        assert forall|k: int| 0 <= k < front.len() implies is_word(#[trigger] front[k]) by {
            assert(is_word(words[k]));
        }
        lemma_filled_fills(front, p);
        let (lines, line) = filled(front, p);
        let before = lines.push(line);
        let old = fill_starts(front, p);
        let last = old.len() - 1;
        assert(line == before[last]);
        assert(old[last] < end_of(front, old, last));
        let longer = line + seq![' '] + word;
        assert(extended(line, word) =~= longer);
        assert forall|a: int, b: int| 0 <= a <= b <= n - 1 implies #[trigger] front.subrange(a, b)
            == words.subrange(a, b) by {
            assert(front.subrange(a, b) =~= words.subrange(a, b));
        }
        if p(extended(line, word)) {
            assert(starts == old);
            assert(rows =~= lines.push(longer));
            let run = words.subrange(old[last], n);
            assert(run.drop_last() =~= front.subrange(old[last], n - 1));
            assert(run.last() == word);
            assert(with_spaces(run) == longer);
            assert forall|k: int| 0 <= k < starts.len() implies 0 <= #[trigger] starts[k] < end_of(
                words,
                starts,
                k,
            ) <= words.len() by {
                assert(old[k] < end_of(front, old, k));
            }
            assert forall|k: int| 0 <= k < rows.len() implies #[trigger] rows[k] == with_spaces(
                words.subrange(starts[k], end_of(words, starts, k)),
            ) && (end_of(words, starts, k) == starts[k] + 1 || p(rows[k])) by {
                if k < last {
                    assert(rows[k] == before[k]);
                    assert(old[k] < end_of(front, old, k));
                }
            }
            assert forall|k: int| 0 <= k < rows.len() - 1 implies !p(
                #[trigger] rows[k] + seq![' '] + words[end_of(words, starts, k)],
            ) by {
                assert(rows[k] == before[k]);
                assert(old[k + 1] < end_of(front, old, k + 1));
                assert(front[end_of(front, old, k)] == words[end_of(words, starts, k)]);
                assert(!p(before[k] + seq![' '] + front[end_of(front, old, k)]));
            }
        } else {
            assert(starts == old.push(n - 1));
            assert(rows =~= before.push(word));
            let run = words.subrange(n - 1, n);
            assert(run.len() == 1 && run[0] == word);
            assert forall|k: int| 0 <= k < starts.len() implies 0 <= #[trigger] starts[k] < end_of(
                words,
                starts,
                k,
            ) <= words.len() by {
                if k <= last {
                    assert(old[k] < end_of(front, old, k));
                }
            }
            assert forall|k: int| 0 <= k < rows.len() implies #[trigger] rows[k] == with_spaces(
                words.subrange(starts[k], end_of(words, starts, k)),
            ) && (end_of(words, starts, k) == starts[k] + 1 || p(rows[k])) by {
                if k <= last {
                    assert(rows[k] == before[k]);
                    assert(old[k] < end_of(front, old, k));
                    assert(end_of(words, starts, k) == end_of(front, old, k));
                }
            }
            assert forall|k: int| 0 <= k < rows.len() - 1 implies !p(
                #[trigger] rows[k] + seq![' '] + words[end_of(words, starts, k)],
            ) by {
                assert(rows[k] == before[k]);
                if k < last {
                    assert(old[k + 1] < end_of(front, old, k + 1));
                    assert(front[end_of(front, old, k)] == words[end_of(words, starts, k)]);
                    assert(!p(before[k] + seq![' '] + front[end_of(front, old, k)]));
                } else {
                    assert(end_of(words, starts, k) == n - 1);
                }
            }
        }
    }
}

/// Wrapping: where there is no limit, or the line fits, it stays as it is; a line without words
/// gives one empty row; and any other gives its words in order, one space between each two, each
/// row as long as fits.
pub proof fn lemma_wrapping_fills_rows(
    line: Seq<char>,
    max_w: u32,
    p: spec_fn(Seq<char>) -> bool,
)
    ensures
        max_w == 0 || p(line) ==> wrapped(line, max_w, p) == seq![line],
        max_w > 0 && !p(line) && words_of(line).len() == 0 ==> wrapped(line, max_w, p)
            == seq![Seq::<char>::empty()],
        max_w > 0 && !p(line) && words_of(line).len() > 0 ==> exists|starts: Seq<int>| #[trigger]
            fills(words_of(line), wrapped(line, max_w, p), starts, p),
{
    let words = words_of(line);
    if max_w > 0 && !p(line) && words.len() > 0 {
        assert forall|k: int| 0 <= k < words.len() implies is_word(#[trigger] words[k]) by {
            lemma_words_are_words(line, k);
        }
        lemma_filled_fills(words, p);
        assert(fills(words, wrapped(line, max_w, p), fill_starts(words, p), p));
    }
}

/// A test that answers as a condition says, on every text, decides by it.
pub proof fn lemma_deciding<F: Fn(&str) -> bool>(fits: F, p: spec_fn(Seq<char>) -> bool)
    requires
        forall|s: &str, b: bool| #[trigger] fits.ensures((s,), b) ==> b == p(s@),
    ensures
        decides(fits, p),
{
}

/// A test that answers as a condition says, on every text in either font, decides by it.
pub proof fn lemma_deciding_for<F: Fn(FontChoice, &str) -> bool>(
    fits: F,
    p: spec_fn(FontChoice, Seq<char>) -> bool,
)
    requires
        forall|f: FontChoice, s: &str, b: bool| #[trigger]
            fits.ensures((f, s), b) ==> b == p(f, s@),
    ensures
        decides_for(fits, p),
{
}

/// A text is set in the fallback font exactly where there is one and the brand font lacks a glyph
/// for some character that is not white space.
pub proof fn lemma_fallback_where_glyph_lacks(brand: Seq<u8>, has_fallback: bool, text: Seq<char>)
    ensures
        chosen_font(brand, has_fallback, text) == FontChoice::Fallback <==> has_fallback && exists|
            i: int,
        |
            0 <= i < text.len() && !white_points().contains(text[i] as int) && glyph_of(
                brand,
                #[trigger] text[i],
            ) == 0,
{
    if !supports(brand, text) {
        let i = choose|i: int|
            0 <= i < text.len() && !is_covered(
                #[trigger] text[i],
                glyph_of(brand, text[i]),
            );
        lemma_white_space_points(text[i]);
        assert(glyph_of(brand, text[i]) == 0);
    }
    if exists|i: int|
        0 <= i < text.len() && !white_points().contains(text[i] as int) && glyph_of(
            brand,
            #[trigger] text[i],
        ) == 0 {
        let i = choose|i: int|
            0 <= i < text.len() && !white_points().contains(text[i] as int) && glyph_of(
                brand,
                #[trigger] text[i],
            ) == 0;
        lemma_white_space_points(text[i]);
        assert(!is_covered(text[i], glyph_of(brand, text[i])));
    }
}

/// The fallback font is the first file, in order, that could be read and is a font; there is none
/// only where no file is.
pub proof fn lemma_first_font_is_first(files: Seq<Option<Seq<u8>>>)
    ensures
        first_font(files) matches Some(font) ==> is_font(font) && exists|i: int|
            0 <= i < files.len() && #[trigger] files[i] == Some(font) && forall|k: int|
                0 <= k < i ==> ((#[trigger] files[k]) matches Some(f) ==> !is_font(f)),
        first_font(files) is None ==> forall|k: int|
            0 <= k < files.len() ==> ((#[trigger] files[k]) matches Some(f) ==> !is_font(f)),
        answered(None, files) == first_font(files),
        forall|known: Option<Seq<u8>>| #[trigger] answered(Some(known), files) == known,
    decreases files.len(),
{
    if files.len() > 0 {
        let taken = files[0] is Some && is_font(files[0]->Some_0);
        if !taken {
            let rest = files.drop_first();
            lemma_first_font_is_first(rest);
            assert forall|k: int| 1 <= k < files.len() implies rest[k - 1] == #[trigger] files[
                k
            ] by {};
            if first_font(rest) is Some {
                let font = first_font(rest)->Some_0;
                let i = choose|i: int|
                    0 <= i < rest.len() && #[trigger] rest[i] == Some(font) && forall|k: int|
                        0 <= k < i ==> ((#[trigger] rest[k]) matches Some(f) ==> !is_font(f));
                assert(files[i + 1] == Some(font));
                assert forall|k: int| 0 <= k < i + 1 implies ((#[trigger] files[k]) matches Some(f)
                    ==> !is_font(f)) by {
                    if k > 0 {
                        assert(rest[k - 1] == files[k]);
                    }
                }
            } else {
                assert forall|k: int| 0 <= k < files.len() implies ((
                #[trigger] files[k]) matches Some(f) ==> !is_font(f)) by {
                    if k > 0 {
                        assert(rest[k - 1] == files[k]);
                    }
                }
            }
        } else {
            assert(files[0] == Some(first_font(files)->Some_0));
        }
    }
}

/// Files are looked at in the order in which they are given, each for what it holds.
pub proof fn lemma_files_looked_at(files: Seq<Option<Vec<u8>>>, k: int)
    ensures
        file_models(files).len() == files.len(),
        0 <= k < files.len() && files[k] is Some ==> file_models(files)[k] == Some(
            files[k]->Some_0@,
        ),
        0 <= k < files.len() && files[k] is None ==> file_models(files)[k] is None,
{
}

/// Where the fallback font is looked for, on each system.
pub proof fn lemma_fallback_places()
    ensures
        fallback_paths(System::MacOs).len() == 3,
        fallback_paths(System::MacOs)[0] == "/System/Library/Fonts/Supplemental/Arial.ttf"@,
        fallback_paths(System::MacOs)[1] == "/Library/Fonts/Arial.ttf"@,
        fallback_paths(System::MacOs)[2] == "/System/Library/Fonts/Helvetica.ttc"@,
        fallback_paths(System::Windows).len() == 1,
        fallback_paths(System::Windows)[0] == "C:\\Windows\\Fonts\\arial.ttf"@,
        fallback_paths(System::Other).len() == 0,
{
}

/// Letters are set apart exactly where the spacing is `2^-23` or more, to either side, or is no
/// number; and a text is wrapped to its width, or to none where that is below zero.
pub proof fn lemma_spacing_and_width(letter_spacing_px: u32, text_max_width: i32)
    ensures
        is_spaced(letter_spacing_px) <==> 0x3400_0000 <= letter_spacing_px <= 0x7fff_ffff
            || 0xb400_0000 <= letter_spacing_px,
        text_max_width >= 0 ==> wrap_width(text_max_width) == text_max_width,
        text_max_width < 0 ==> wrap_width(text_max_width) == 0,
{
}

/// A character can be set where it is white space or there is a glyph for it.
pub proof fn lemma_characters_set(c: char, glyph: u16)
    ensures
        is_covered(c, glyph) <==> white_points().contains(c as int) || glyph != 0,
{
    lemma_white_space_points(c);
}

/// A font supports a text exactly where it lacks a glyph for no character that is not white space.
pub proof fn lemma_supported_texts(font: Seq<u8>, text: Seq<char>)
    ensures
        supports(font, text) <==> forall|i: int|
            0 <= i < text.len() ==> white_points().contains(text[i] as int) || glyph_of(
                font,
                #[trigger] text[i],
            ) != 0,
{
    assert forall|i: int| 0 <= i < text.len() implies (is_covered(
        text[i],
        glyph_of(font, #[trigger] text[i]),
    ) <==> white_points().contains(text[i] as int) || glyph_of(font, text[i]) != 0) by {
        lemma_characters_set(text[i], glyph_of(font, text[i]));
    }
}

} // verus!
