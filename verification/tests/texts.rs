//! Text, paths, fonts and line breaks.
use batcher::lettering::{
    aeonik, arial, choose_font, compose_text, covered, fallback_candidates, font_supports,
    FallbackFont, FontChoice, System, Typeface,
};
use batcher::paths::{extension, file_name, join, split_name};
use batcher::text::{
    ascii_lowercase, decimal_text, replace_char, same_ignoring_ascii_case, starts_with, trim,
    trim_dots, white_space,
};
use batcher::wrapping::{place_text, split_lines, split_words, wrap_line};

#[test]
fn white_space_is_that_of_the_standard() {
    for n in 0..=0x10_ffffu32 {
        if let Some(c) = char::from_u32(n) {
            assert_eq!(white_space(c), c.is_whitespace(), "{n:x}");
        }
    }
}

#[test]
fn texts_are_trimmed_and_split_as_in_the_standard() {
    for s in [
        "", " ", "a", " a b ", "\u{a0}x\u{3000}", "...a.b..", ".", "a\nb", "\n", "a\n\nb\n", "a  b\tc\u{2003}d",
        "É ß", "AbC xYZ",
    ] {
        assert_eq!(trim(s), s.trim());
        assert_eq!(trim_dots(s), s.trim_matches('.'));
        assert_eq!(ascii_lowercase(s), s.to_ascii_lowercase());
        assert_eq!(split_words(s), s.split_whitespace().map(|w| w.to_string()).collect::<Vec<_>>());
        assert_eq!(split_lines(s), s.split('\n').map(|l| l.to_string()).collect::<Vec<_>>());
        assert_eq!(replace_char(s, 'a', '/'), s.replace('a', "/"));
        assert_eq!(starts_with(s, " a"), s.starts_with(" a"));
        assert_eq!(same_ignoring_ascii_case(s, "abc Xyz"), s.eq_ignore_ascii_case("abc Xyz"));
    }
    for n in [0i64, 9, 10, -1, -10, 123456789, i64::MAX, i64::MIN] {
        assert_eq!(decimal_text(n), n.to_string());
    }
}

#[test]
fn paths_are_those_of_the_standard() {
    let names = [
        "", "/", "a", "a/b", "a/b/", "a/b/.", "a/./b", "a/..", "..", ".", "/a", "a//b", ".hidden", "x.tar.gz", "x.",
        "..x", "...", "dir.d/file", "a/.b.c", "é.ü",
    ];
    for path in names {
        let std = std::path::Path::new(path);
        assert_eq!(
            file_name(path),
            std.file_name().map(|n| n.to_string_lossy().to_string()),
            "{path}"
        );
        assert_eq!(
            extension(path),
            std.extension().map(|n| n.to_string_lossy().to_string()),
            "{path}"
        );
        for rest in names {
            assert_eq!(join(path, rest), std.join(rest).to_string_lossy(), "{path} and {rest}");
        }
    }
    for name in ["x.tar.gz", ".hidden", "x.", "a", "..x", ".a.b"] {
        let std = std::path::Path::new(name);
        let (stem, ext) = split_name(name);
        assert_eq!(stem, std.file_stem().unwrap().to_string_lossy());
        assert_eq!(ext, std.extension().map(|e| e.to_string_lossy().to_string()));
    }
}

/// Wraps as the plain greedy loop does.
fn greedy(line: &str, max_w: u32, fits: &dyn Fn(&str) -> bool) -> Vec<String> {
    if max_w == 0 || fits(line) {
        return vec![line.to_string()];
    }
    let mut out = Vec::new();
    let mut cur = String::new();
    for word in line.split_whitespace() {
        let tentative = if cur.is_empty() { word.to_string() } else { format!("{cur} {word}") };
        if fits(&tentative) {
            cur = tentative;
        } else {
            if !cur.is_empty() {
                out.push(std::mem::take(&mut cur));
            }
            cur = word.to_string();
        }
    }
    if !cur.is_empty() {
        out.push(cur);
    }
    if out.is_empty() {
        out.push(String::new());
    }
    out
}

#[test]
fn lines_are_wrapped_greedily() {
    let fits = |s: &str| s.chars().count() <= 8;
    assert_eq!(wrap_line("the quick ox", 8, &fits), ["the", "quick ox"]);
    assert_eq!(wrap_line("a  b", 8, &fits), vec!["a  b".to_string()]);
    assert_eq!(wrap_line("a  much longer line", 0, &fits), vec!["a  much longer line".to_string()]);
    assert_eq!(wrap_line("         ", 8, &fits), vec![String::new()]);
    assert_eq!(
        wrap_line("an extraordinarily big word", 8, &fits),
        ["an", "extraordinarily", "big word"]
    );
    for line in ["", " ", "one", "one two three four", "x\u{a0}y z", "  lead and trail  ", "aaaaaaaaaaaa b c d"] {
        for width in 0..14usize {
            let fits = |s: &str| s.chars().count() <= width;
            assert_eq!(wrap_line(line, width as u32, &fits), greedy(line, width as u32, &fits));
        }
    }
}

#[test]
fn wrapping_loses_no_word() {
    let line = "Réinventez  votre espace\tde travail aujourd'hui";
    for width in 1..50usize {
        let fits = |s: &str| s.chars().count() <= width;
        let rows = wrap_line(line, width as u32, &fits);
        let words: Vec<&str> = rows.iter().flat_map(|r| r.split_whitespace()).collect();
        assert_eq!(words, line.split_whitespace().collect::<Vec<_>>());
        for row in &rows {
            assert!(fits(row) || !row.contains(' '));
        }
    }
}

#[test]
fn wrapping_needs_the_fewest_lines() {
    let words = ["a", "bbb", "cc", "dddd", "e", "ff", "ggg"];
    let line = words.join(" ");
    for width in 4..25usize {
        let fits = |s: &str| s.chars().count() <= width;
        let rows = wrap_line(&line, width as u32, &fits).len();
        // Every way to break the words into lines, a bit for each gap.
        let best = (0..1u32 << (words.len() - 1))
            .filter_map(|gaps| {
                let mut lines = vec![words[0].to_string()];
                for (i, word) in words.iter().enumerate().skip(1) {
                    if gaps >> (i - 1) & 1 == 1 {
                        lines.push(word.to_string());
                    } else {
                        let last = lines.len() - 1;
                        lines[last] = format!("{} {word}", lines[last]);
                    }
                }
                if lines.iter().all(|l| fits(l)) {
                    Some(lines.len())
                } else {
                    None
                }
            })
            .min();
        assert_eq!(Some(rows), best, "{width}");
    }
}

#[test]
fn rows_stand_line_heights_apart() {
    let fits = |s: &str| s.chars().count() <= 5;
    let rows = place_text("aaa bbb ccc\nx", 350, 99, 100, &fits).unwrap_or_else(|| panic!("no rows"));
    let placed: Vec<(i32, &str)> = rows.iter().map(|r| (r.y, r.text.as_str())).collect();
    // The second line starts one line height below the first, whatever that was wrapped to.
    assert_eq!(placed, vec![(350, "aaa"), (449, "bbb"), (548, "ccc"), (449, "x")]);
    assert!(place_text("a\nb", 1, i32::MAX, 100, &fits).is_none());
    assert!(place_text("a\nb", 0, i32::MAX, 100, &fits).is_some());
    assert!(place_text("a", i32::MAX, i32::MAX, 100, &fits).is_some());
    assert!(place_text("a\nb\nc", 0, i32::MIN, 100, &fits).is_none());
}

fn put16(out: &mut Vec<u8>, n: u16) {
    out.extend_from_slice(&n.to_be_bytes());
}

fn put32(out: &mut Vec<u8>, n: u32) {
    out.extend_from_slice(&n.to_be_bytes());
}

/// A font file with glyphs for the characters from `first` to `last`.
fn font(first: char, last: char) -> Vec<u8> {
    let mut cmap = Vec::new();
    for n in [0, 1, 3, 10] {
        put16(&mut cmap, n);
    }
    put32(&mut cmap, 12);
    put16(&mut cmap, 12);
    put16(&mut cmap, 0);
    for n in [28, 0, 1, first as u32, last as u32, 1] {
        put32(&mut cmap, n);
    }
    let mut head = Vec::new();
    for n in [0x0001_0000, 0x0001_0000, 0, 0x5f0f_3cf5] {
        put32(&mut head, n);
    }
    put16(&mut head, 0);
    put16(&mut head, 1000);
    head.extend_from_slice(&[0; 16]);
    head.extend_from_slice(&[0; 8]);
    for n in [0, 8, 2, 0, 0] {
        put16(&mut head, n);
    }
    let mut hhea = Vec::new();
    put32(&mut hhea, 0x0001_0000);
    put16(&mut hhea, 800);
    hhea.extend_from_slice(&[0; 28]);
    put16(&mut hhea, 1);
    let mut maxp = Vec::new();
    put32(&mut maxp, 0x0000_5000);
    put16(&mut maxp, 300);
    let tables = [(b"cmap", cmap), (b"head", head), (b"hhea", hhea), (b"maxp", maxp)];
    let mut out = Vec::new();
    put32(&mut out, 0x0001_0000);
    for n in [tables.len() as u16, 64, 2, 0] {
        put16(&mut out, n);
    }
    let mut offset = 12 + 16 * tables.len();
    for (tag, data) in &tables {
        out.extend_from_slice(*tag);
        put32(&mut out, 0);
        put32(&mut out, offset as u32);
        put32(&mut out, data.len() as u32);
        offset += (data.len() + 3) / 4 * 4;
    }
    for (_, data) in &tables {
        out.extend_from_slice(data);
        while out.len() % 4 != 0 {
            out.push(0);
        }
    }
    out
}

fn typeface(first: char, last: char) -> Typeface {
    match aeonik(font(first, last)) {
        Ok(f) => f,
        Err(e) => panic!("{e}"),
    }
}

#[test]
fn fonts_are_checked_when_loaded() {
    assert_eq!(typeface('a', 'z').bytes(), &font('a', 'z'));
    match aeonik(b"no font".to_vec()) {
        Ok(_) => panic!("a font"),
        Err(e) => assert_eq!(e, "load Aeonik: InvalidFont"),
    }
}

#[test]
fn fonts_support_the_characters_they_have() {
    let latin = typeface('a', 'z');
    assert!(font_supports(&latin, "abc xyz"));
    assert!(font_supports(&latin, ""));
    assert!(font_supports(&latin, " \n\t\u{a0}"));
    assert!(!font_supports(&latin, "abC"));
    assert!(!font_supports(&latin, "é"));
    assert!(font_supports(&typeface('A', 'é'), "Caé"));
    assert!(covered('\n', 0) && covered('x', 7) && !covered('x', 0));
}

#[test]
fn texts_the_brand_font_lacks_go_to_the_fallback() {
    let brand = typeface('a', 'z');
    let some = Some(typeface('A', 'Z'));
    assert!(choose_font(&brand, &some, "abc") == FontChoice::Brand);
    assert!(choose_font(&brand, &some, "ABC") == FontChoice::Fallback);
    // The fallback is taken even where it lacks the characters too.
    assert!(choose_font(&brand, &some, "é") == FontChoice::Fallback);
    assert!(choose_font(&brand, &None, "ABC") == FontChoice::Brand);
}

#[test]
fn first_readable_fallback_is_taken() {
    let files = vec![None, Some(b"junk".to_vec()), Some(font('a', 'b')), Some(font('c', 'd'))];
    match arial(&files) {
        Some(f) => assert_eq!(f.bytes(), &font('a', 'b')),
        None => panic!("no font"),
    }
    assert!(arial(&vec![None, Some(vec![])]).is_none());
    assert!(arial(&vec![]).is_none());
    assert_eq!(fallback_candidates(System::MacOs).len(), 3);
    assert_eq!(fallback_candidates(System::MacOs)[1], "/Library/Fonts/Arial.ttf");
    assert_eq!(fallback_candidates(System::Windows), vec!["C:\\Windows\\Fonts\\arial.ttf"]);
    assert!(fallback_candidates(System::Other).is_empty());
}

#[test]
fn fallback_is_looked_up_once() {
    let mut fallback = FallbackFont::new();
    assert!(!fallback.is_known());
    fallback.look_up(&vec![None, Some(font('a', 'b'))]);
    assert!(fallback.is_known());
    fallback.look_up(&vec![Some(font('c', 'd'))]);
    match fallback.font() {
        Some(f) => assert_eq!(f.bytes(), &font('a', 'b')),
        None => panic!("no font"),
    }
    let mut missing = FallbackFont::new();
    missing.look_up(&vec![]);
    missing.look_up(&vec![Some(font('c', 'd'))]);
    assert!(missing.font().is_none());
}

#[test]
fn texts_are_composed_in_the_chosen_font() {
    let brand = typeface('a', 'z');
    let fallback = Some(typeface('A', 'Z'));
    let fits = |font: FontChoice, s: &str| match font {
        FontChoice::Brand => s.chars().count() <= 3,
        FontChoice::Fallback => s.chars().count() <= 7,
    };
    let plan = |text: &str, width: i32, spacing: f32| {
        compose_text(
            text,
            &brand,
            &fallback,
            (104, 350),
            width,
            84.0f32.to_bits(),
            1.18f32.to_bits(),
            spacing.to_bits(),
            &fits,
        )
        .unwrap_or_else(|| panic!("no plan"))
    };
    let p = plan("aa bb", 100, 0.0);
    assert!(p.font == FontChoice::Brand);
    assert_eq!((p.x, p.spaced), (104, false));
    assert_eq!(p.rows.iter().map(|r| (r.y, r.text.clone())).collect::<Vec<_>>(), vec![
        (350, "aa".to_string()),
        (449, "bb".to_string())
    ]);
    let p = plan("AA BB", 100, 4.8);
    assert!(p.font == FontChoice::Fallback);
    assert!(p.spaced);
    assert_eq!(p.rows.len(), 1);
    // A width below zero stands for no limit.
    assert_eq!(plan("aa bb cc", -5, 0.0).rows.len(), 1);
}

#[test]
fn letters_are_set_apart_from_the_smallest_step_on() {
    let brand = typeface('a', 'z');
    for spacing in [0.0f32, -0.0, f32::EPSILON, -f32::EPSILON, f32::EPSILON / 2.0, 1.0, -1.0, f32::NAN, f32::INFINITY] {
        let p = compose_text(
            "a",
            &brand,
            &None,
            (0, 0),
            0,
            84.0f32.to_bits(),
            1.0f32.to_bits(),
            spacing.to_bits(),
            &|_: FontChoice, _: &str| true,
        )
        .unwrap_or_else(|| panic!("no plan"));
        assert_eq!(p.spaced, !(spacing.abs() < f32::EPSILON), "{spacing:e}");
    }
}
