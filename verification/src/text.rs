//! Text as a sequence of characters: trimming, splitting, ASCII case, decimal numbers.
use vstd::prelude::*;

verus! {

/// `String::push` of the standard library: the character is appended at the end.
pub assume_specification[ String::push ](s: &mut String, c: char)
    ensures
        final(s)@ == old(s)@.push(c),
;

/// What a fallible function of the library returned, in mathematical terms.
pub open spec fn outcome<T: DeepView>(r: Result<T, String>) -> Result<T::V, Seq<char>> {
    match r {
        Ok(v) => Ok(v.deep_view()),
        Err(e) => Err(e@),
    }
}

/// What a fallible function that gives bytes returned, in mathematical terms.
pub open spec fn bytes_outcome(r: Result<Vec<u8>, String>) -> Result<Seq<u8>, Seq<char>> {
    match r {
        Ok(v) => Ok(v@),
        Err(e) => Err(e@),
    }
}

/// The characters of `s`, in order.
pub fn chars_of(s: &str) -> (chars: Vec<char>)
    ensures
        chars@ == s@,
{
    let mut chars: Vec<char> = Vec::new();
    for c in it: s.chars()
        invariant
            it.seq() == s@,
            chars@ == s@.take(it.index()),
    {
        chars.push(c);
        assert(s@.take(it.index() + 1) =~= s@.take(it.index()).push(c));
    }
    assert(s@.take(s@.len() as int) =~= s@);
    chars
}

/// The text made of `chars[from..to]`.
pub fn text_between(chars: &Vec<char>, from: usize, to: usize) -> (text: String)
    requires
        from <= to <= chars@.len(),
    ensures
        text@ == chars@.subrange(from as int, to as int),
{
    let mut text = String::new();
    let mut i: usize = from;
    while i < to
        invariant
            from <= i <= to <= chars@.len(),
            text@ == chars@.subrange(from as int, i as int),
        decreases to - i,
    {
        text.push(chars[i]);
        assert(chars@.subrange(from as int, i as int).push(chars@[i as int]) =~= chars@.subrange(
            from as int,
            i + 1,
        ));
        i = i + 1;
    }
    text
}

/// The text made of all of `chars`.
pub fn text_of(chars: &Vec<char>) -> (text: String)
    ensures
        text@ == chars@,
{
    let text = text_between(chars, 0, chars.len());
    assert(chars@.subrange(0, chars@.len() as int) =~= chars@);
    text
}

/// Whether two sequences of characters are the same.
pub fn same_chars(a: &Vec<char>, b: &Vec<char>) -> (same: bool)
    ensures
        same == (a@ == b@),
{
    if a.len() != b.len() {
        return false;
    }
    let mut i: usize = 0;
    while i < a.len()
        invariant
            i <= a@.len() == b@.len(),
            a@.take(i as int) == b@.take(i as int),
        decreases a@.len() - i,
    {
        if a[i] != b[i] {
            return false;
        }
        assert(a@.take(i + 1) =~= a@.take(i as int).push(a@[i as int]));
        assert(b@.take(i + 1) =~= b@.take(i as int).push(b@[i as int]));
        i = i + 1;
    }
    assert(a@.take(i as int) =~= a@);
    assert(b@.take(i as int) =~= b@);
    true
}

/// Whether two texts are the same.
pub fn same_text(a: &str, b: &str) -> (same: bool)
    ensures
        same == (a@ == b@),
{
    same_chars(&chars_of(a), &chars_of(b))
}

/// Whether `text` begins with `prefix`.
pub fn starts_with(text: &str, prefix: &str) -> (starts: bool)
    ensures
        starts == prefix@.is_prefix_of(text@),
{
    let a = chars_of(text);
    let b = chars_of(prefix);
    if b.len() > a.len() {
        return false;
    }
    let mut i: usize = 0;
    while i < b.len()
        invariant
            i <= b@.len() <= a@.len(),
            a@ == text@,
            b@ == prefix@,
            forall|k: int| 0 <= k < i ==> a@[k] == b@[k],
        decreases b@.len() - i,
    {
        if a[i] != b[i] {
            assert(text@.subrange(0, prefix@.len() as int)[i as int] != prefix@[i as int]);
            return false;
        }
        i = i + 1;
    }
    assert(text@.subrange(0, prefix@.len() as int) =~= prefix@);
    true
}

/// The characters with the Unicode property `White_Space`.
pub open spec fn is_white_space(c: char) -> bool {
    ||| '\u{9}' <= c <= '\u{d}'
    ||| c == ' '
    ||| c == '\u{85}'
    ||| c == '\u{a0}'
    ||| c == '\u{1680}'
    ||| '\u{2000}' <= c <= '\u{200a}'
    ||| c == '\u{2028}'
    ||| c == '\u{2029}'
    ||| c == '\u{202f}'
    ||| c == '\u{205f}'
    ||| c == '\u{3000}'
}

/// Whether `c` is white space.
pub fn white_space(c: char) -> (white: bool)
    ensures
        white == is_white_space(c),
{
    ('\u{9}' <= c && c <= '\u{d}') || c == ' ' || c == '\u{85}' || c == '\u{a0}' || c == '\u{1680}'
        || ('\u{2000}' <= c && c <= '\u{200a}') || c == '\u{2028}' || c == '\u{2029}' || c
        == '\u{202f}' || c == '\u{205f}' || c == '\u{3000}'
}

/// `s` without the characters at its start that satisfy `p`.
pub open spec fn strip_start(s: Seq<char>, p: spec_fn(char) -> bool) -> Seq<char>
    decreases s.len(),
{
    if s.len() > 0 && p(s[0]) {
        strip_start(s.drop_first(), p)
    } else {
        s
    }
}

/// `s` without the characters at its end that satisfy `p`.
pub open spec fn strip_end(s: Seq<char>, p: spec_fn(char) -> bool) -> Seq<char>
    decreases s.len(),
{
    if s.len() > 0 && p(s.last()) {
        strip_end(s.drop_last(), p)
    } else {
        s
    }
}

/// `s` without the characters at either end that satisfy `p`.
pub open spec fn strip(s: Seq<char>, p: spec_fn(char) -> bool) -> Seq<char> {
    strip_end(strip_start(s, p), p)
}

/// `s` without white space at either end.
pub open spec fn trimmed(s: Seq<char>) -> Seq<char> {
    strip(s, |c: char| is_white_space(c))
}

/// `s` without dots at either end.
pub open spec fn undotted(s: Seq<char>) -> Seq<char> {
    strip(s, |c: char| c == '.')
}

proof fn lemma_strip_start_step(s: Seq<char>, i: int, p: spec_fn(char) -> bool)
    requires
        0 <= i < s.len(),
        p(s[i]),
    ensures
        strip_start(s.skip(i), p) == strip_start(s.skip(i + 1), p),
{
    assert(s.skip(i).drop_first() =~= s.skip(i + 1));
    assert(s.skip(i)[0] == s[i]);
}

/// What is left after stripping neither starts nor ends with a character that satisfies `p`,
/// and holds only characters of the text it came from.
pub proof fn lemma_strip_ends(s: Seq<char>, p: spec_fn(char) -> bool)
    ensures
        strip(s, p).len() > 0 ==> !p(strip(s, p)[0]) && !p(strip(s, p).last()),
        forall|i: int| 0 <= i < strip(s, p).len() ==> s.contains(#[trigger] strip(s, p)[i]),
{
    lemma_strip_start_first(s, p);
    lemma_strip_end_last(strip_start(s, p), p);
    assert forall|i: int| 0 <= i < strip(s, p).len() implies s.contains(
        #[trigger] strip(s, p)[i],
    ) by {
        assert(strip_start(s, p)[i] == strip(s, p)[i]);
        assert(s.contains(strip_start(s, p)[i]));
    }
}

proof fn lemma_strip_start_first(s: Seq<char>, p: spec_fn(char) -> bool)
    ensures
        strip_start(s, p).len() > 0 ==> !p(strip_start(s, p)[0]),
        forall|i: int|
            0 <= i < strip_start(s, p).len() ==> s.contains(#[trigger] strip_start(s, p)[i]),
    decreases s.len(),
{
    if s.len() > 0 && p(s[0]) {
        lemma_strip_start_first(s.drop_first(), p);
        assert forall|i: int| 0 <= i < strip_start(s, p).len() implies s.contains(
            #[trigger] strip_start(s, p)[i],
        ) by {
            let c = strip_start(s, p)[i];
            assert(s.drop_first().contains(strip_start(s.drop_first(), p)[i]));
            let k = choose|k: int| 0 <= k < s.drop_first().len() && s.drop_first()[k] == c;
            assert(s[k + 1] == c);
        }
    }
}

proof fn lemma_strip_end_last(s: Seq<char>, p: spec_fn(char) -> bool)
    ensures
        strip_end(s, p).len() <= s.len(),
        strip_end(s, p) == s.take(strip_end(s, p).len() as int),
        strip_end(s, p).len() > 0 ==> !p(strip_end(s, p).last()),
    decreases s.len(),
{
    if s.len() > 0 && p(s.last()) {
        lemma_strip_end_last(s.drop_last(), p);
        let n = strip_end(s, p).len() as int;
        assert(s.drop_last().take(n) =~= s.take(n));
    } else {
        assert(s.take(s.len() as int) =~= s);
    }
}

/// Where the text `chars` begins and ends once white space is stripped.
fn trim_bounds(chars: &Vec<char>) -> (bounds: (usize, usize))
    ensures
        bounds.0 <= bounds.1 <= chars@.len(),
        chars@.subrange(bounds.0 as int, bounds.1 as int) == trimmed(chars@),
{
    let ghost p = |c: char| is_white_space(c);
    let mut i: usize = 0;
    assert(chars@.skip(0) =~= chars@);
    while i < chars.len() && white_space(chars[i])
        invariant
            i <= chars@.len(),
            p == (|c: char| is_white_space(c)),
            strip_start(chars@, p) == strip_start(chars@.skip(i as int), p),
        decreases chars@.len() - i,
    {
        proof {
            lemma_strip_start_step(chars@, i as int, p);
        }
        i = i + 1;
    }
    let ghost rest = chars@.skip(i as int);
    assert(strip_start(chars@, p) == rest) by {
        if i < chars@.len() {
            assert(rest[0] == chars@[i as int]);
        }
    }
    let mut j: usize = chars.len();
    assert(rest.take(rest.len() as int) =~= rest);
    while i < j && white_space(chars[j - 1])
        invariant
            i <= j <= chars@.len(),
            p == (|c: char| is_white_space(c)),
            rest == chars@.skip(i as int),
            strip_end(rest, p) == strip_end(rest.take(j - i), p),
        decreases j,
    {
        proof {
            let t = rest.take(j - i);
            assert(t.last() == chars@[j - 1]);
            assert(t.drop_last() =~= rest.take(j - i - 1));
        }
        j = j - 1;
    }
    proof {
        let t = rest.take(j - i);
        if i < j {
            assert(t.last() == chars@[j - 1]);
        }
        assert(t =~= chars@.subrange(i as int, j as int));
    }
    (i, j)
}

/// `text` without white space at either end.
pub fn trim(text: &str) -> (out: String)
    ensures
        out@ == trimmed(text@),
{
    let chars = chars_of(text);
    let (from, to) = trim_bounds(&chars);
    text_between(&chars, from, to)
}

/// `text` without dots at either end.
pub fn trim_dots(text: &str) -> (out: String)
    ensures
        out@ == undotted(text@),
{
    let chars = chars_of(text);
    let ghost p = |c: char| c == '.';
    let mut i: usize = 0;
    assert(chars@.skip(0) =~= chars@);
    while i < chars.len() && chars[i] == '.'
        invariant
            i <= chars@.len(),
            p == (|c: char| c == '.'),
            strip_start(chars@, p) == strip_start(chars@.skip(i as int), p),
        decreases chars@.len() - i,
    {
        proof {
            lemma_strip_start_step(chars@, i as int, p);
        }
        i = i + 1;
    }
    let ghost rest = chars@.skip(i as int);
    assert(strip_start(chars@, p) == rest) by {
        if i < chars@.len() {
            assert(rest[0] == chars@[i as int]);
        }
    }
    let mut j: usize = chars.len();
    assert(rest.take(rest.len() as int) =~= rest);
    while i < j && chars[j - 1] == '.'
        invariant
            i <= j <= chars@.len(),
            p == (|c: char| c == '.'),
            rest == chars@.skip(i as int),
            strip_end(rest, p) == strip_end(rest.take(j - i), p),
        decreases j,
    {
        proof {
            let t = rest.take(j - i);
            assert(t.last() == chars@[j - 1]);
            assert(t.drop_last() =~= rest.take(j - i - 1));
        }
        j = j - 1;
    }
    proof {
        let t = rest.take(j - i);
        if i < j {
            assert(t.last() == chars@[j - 1]);
        }
        assert(t =~= chars@.subrange(i as int, j as int));
    }
    text_between(&chars, i, j)
}

/// The ASCII lower-case form of one character; any other character is left as it is.
pub open spec fn lower_char(c: char) -> char {
    if 'A' <= c <= 'Z' {
        (c as u8 + 32) as char
    } else {
        c
    }
}

/// `s` with its ASCII letters in lower case.
pub open spec fn lowered(s: Seq<char>) -> Seq<char> {
    s.map_values(|c: char| lower_char(c))
}

/// `text` with its ASCII letters in lower case.
pub fn ascii_lowercase(text: &str) -> (out: String)
    ensures
        out@ == lowered(text@),
{
    let chars = chars_of(text);
    let mut out = String::new();
    let mut i: usize = 0;
    while i < chars.len()
        invariant
            i <= chars@.len(),
            out@ == lowered(chars@.take(i as int)),
        decreases chars@.len() - i,
    {
        let c = chars[i];
        let low = if 'A' <= c && c <= 'Z' {
            (c as u8 + 32) as char
        } else {
            c
        };
        out.push(low);
        assert(lowered(chars@.take(i + 1)) =~= lowered(chars@.take(i as int)).push(lower_char(c)));
        i = i + 1;
    }
    assert(chars@.take(i as int) =~= chars@);
    out
}

/// Whether two texts differ at most in the case of ASCII letters.
pub fn same_ignoring_ascii_case(a: &str, b: &str) -> (same: bool)
    ensures
        same == (lowered(a@) == lowered(b@)),
{
    same_text(ascii_lowercase(a).as_str(), ascii_lowercase(b).as_str())
}

/// `s` with every `from` replaced by `to`.
pub open spec fn replaced(s: Seq<char>, from: char, to: char) -> Seq<char> {
    s.map_values(|c: char| if c == from { to } else { c })
}

/// `text` with every `from` replaced by `to`.
pub fn replace_char(text: &str, from: char, to: char) -> (out: String)
    ensures
        out@ == replaced(text@, from, to),
{
    let chars = chars_of(text);
    let mut out = String::new();
    let mut i: usize = 0;
    while i < chars.len()
        invariant
            i <= chars@.len(),
            out@ == replaced(chars@.take(i as int), from, to),
        decreases chars@.len() - i,
    {
        let c = chars[i];
        let put = if c == from {
            to
        } else {
            c
        };
        out.push(put);
        assert(replaced(chars@.take(i + 1), from, to) =~= replaced(
            chars@.take(i as int),
            from,
            to,
        ).push(put));
        i = i + 1;
    }
    assert(chars@.take(i as int) =~= chars@);
    out
}

/// The pieces between the characters of `s` that satisfy `p`: one more than there are such
/// characters.
pub open spec fn pieces(s: Seq<char>, p: spec_fn(char) -> bool) -> Seq<Seq<char>>
    decreases s.len(),
{
    if s.len() == 0 {
        seq![Seq::empty()]
    } else {
        let before = pieces(s.drop_last(), p);
        if p(s.last()) {
            before.push(Seq::empty())
        } else {
            before.drop_last().push(before.last().push(s.last()))
        }
    }
}

/// Every text has a piece, though it be empty.
pub proof fn lemma_pieces_nonempty(s: Seq<char>, p: spec_fn(char) -> bool)
    ensures
        pieces(s, p).len() >= 1,
    decreases s.len(),
{
    if s.len() > 0 {
        lemma_pieces_nonempty(s.drop_last(), p);
    }
}

/// A text that nothing parts is one piece.
pub proof fn lemma_single_piece(s: Seq<char>, p: spec_fn(char) -> bool)
    requires
        forall|i: int| 0 <= i < s.len() ==> !p(#[trigger] s[i]),
    ensures
        pieces(s, p) == seq![s],
    decreases s.len(),
{
    if s.len() > 0 {
        lemma_single_piece(s.drop_last(), p);
        assert(!p(s[s.len() - 1]));
        assert(s.drop_last().push(s.last()) =~= s);
        assert(pieces(s, p) =~= seq![s]);
    } else {
        assert(s =~= Seq::empty());
    }
}

/// The lines of `s`, which line feeds part.
pub open spec fn lines_of(s: Seq<char>) -> Seq<Seq<char>> {
    pieces(s, |c: char| c == '\n')
}

/// The words of `s`, which white space parts.
pub open spec fn words_of(s: Seq<char>) -> Seq<Seq<char>> {
    pieces(s, |c: char| is_white_space(c)).filter(|w: Seq<char>| w.len() > 0)
}

/// The decimal digit `d`.
pub open spec fn digit(d: nat) -> char {
    (48 + d) as char
}

/// The decimal digits of `n`, without leading zeros.
pub open spec fn digits(n: nat) -> Seq<char>
    decreases n,
{
    if n < 10 {
        seq![digit(n)]
    } else {
        digits(n / 10).push(digit(n % 10))
    }
}

/// The integer `n` in decimal.
pub open spec fn decimal(n: int) -> Seq<char> {
    if n < 0 {
        seq!['-'] + digits((-n) as nat)
    } else {
        digits(n as nat)
    }
}

/// Appends the decimal digits of `n` to `out`.
pub fn push_digits(out: &mut String, n: u64)
    ensures
        final(out)@ == old(out)@ + digits(n as nat),
    decreases n,
{
    if n >= 10 {
        push_digits(out, n / 10);
    }
    let d: u8 = (n % 10) as u8;
    out.push((48 + d) as char);
    assert(out@ =~= old(out)@ + digits(n as nat));
}

/// The integer `n` in decimal.
pub fn decimal_text(n: i64) -> (out: String)
    ensures
        out@ == decimal(n as int),
{
    let mut out = String::new();
    if n < 0 {
        out.push('-');
        let magnitude: u64 = (-(n as i128)) as u64;
        push_digits(&mut out, magnitude);
    } else {
        push_digits(&mut out, n as u64);
    }
    assert(out@ =~= decimal(n as int));
    out
}

} // verus!
