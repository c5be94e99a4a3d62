//! Which font a text is set in, and where its lines stand. Fonts are read with the `ab_glyph`
//! crate.
use ab_glyph::{Font, FontRef};
use vstd::prelude::*;

use crate::single::{rounded_product, whole_product};
use crate::text::{chars_of, is_white_space, lines_of, white_space};
use crate::wrapping::{decides, place_text, placed, places_fit, PlacedLine};

verus! {

/// Whether bytes are a font file.
pub uninterp spec fn is_font(bytes: Seq<u8>) -> bool;

/// The glyph that a font file has for a character; 0 stands for none.
pub uninterp spec fn glyph_of(font: Seq<u8>, c: char) -> u16;

/// `ab_glyph::FontRef::try_from_slice`: whether it takes the bytes is a function of the bytes. Its
/// only error reads `InvalidFont`.
#[verifier::external_body]
fn font_fault(bytes: &Vec<u8>) -> (fault: Option<String>)
    ensures
        fault is None <==> is_font(bytes@),
        fault matches Some(e) ==> e@ == "InvalidFont"@,
{
    FontRef::try_from_slice(bytes).err().map(|e| e.to_string())
}

/// `ab_glyph::Font::glyph_id`: the glyph is a function of the font file and the character.
#[verifier::external_body]
fn glyph_id(font: &Vec<u8>, c: char) -> (id: u16)
    requires
        is_font(font@),
    ensures
        id == glyph_of(font@, c),
{
    FontRef::try_from_slice(font).unwrap().glyph_id(c).0
}

/// A font file.
pub struct Typeface {
    bytes: Vec<u8>,
}

impl View for Typeface {
    type V = Seq<u8>;

    closed spec fn view(&self) -> Seq<u8> {
        self.bytes@
    }
}

impl Typeface {
    #[verifier::type_invariant]
    spec fn wf(self) -> bool {
        is_font(self.bytes@)
    }

    /// The bytes of the file.
    pub fn bytes(&self) -> (bytes: &Vec<u8>)
        ensures
            bytes@ == self@,
            is_font(self@),
    {
        proof {
            use_type_invariant(self);
        }
        &self.bytes
    }
}

/// The brand font in the bytes of its file.
pub fn aeonik(bytes: Vec<u8>) -> (font: Result<Typeface, String>)
    ensures
        match font {
            Ok(f) => is_font(bytes@) && f@ == bytes@,
            Err(e) => !is_font(bytes@) && e@ == "load Aeonik: InvalidFont"@,
        },
{
    match font_fault(&bytes) {
        None => Ok(Typeface { bytes }),
        Some(e) => {
            proof {
                reveal_strlit("load Aeonik: ");
                reveal_strlit("InvalidFont");
                reveal_strlit("load Aeonik: InvalidFont");
                assert("load Aeonik: "@ + "InvalidFont"@ =~= "load Aeonik: InvalidFont"@);
            }
            Err("load Aeonik: ".to_string().concat(e.as_str()))
        },
    }
}

/// The systems that fallback fonts are known for.
#[derive(Clone, Copy, PartialEq, Eq, Structural)]
pub enum System {
    MacOs,
    Windows,
    Other,
}

/// Where the fallback font may be found, best first.
pub open spec fn fallback_paths(system: System) -> Seq<Seq<char>> {
    match system {
        System::MacOs => seq![
            "/System/Library/Fonts/Supplemental/Arial.ttf"@,
            "/Library/Fonts/Arial.ttf"@,
            "/System/Library/Fonts/Helvetica.ttc"@,
        ],
        System::Windows => seq!["C:\\Windows\\Fonts\\arial.ttf"@],
        System::Other => Seq::empty(),
    }
}

/// Where the fallback font may be found, best first.
pub fn fallback_candidates(system: System) -> (paths: Vec<&'static str>)
    ensures
        paths.deep_view() == fallback_paths(system),
{
    let mut paths: Vec<&'static str> = Vec::new();
    match system {
        System::MacOs => {
            paths.push("/System/Library/Fonts/Supplemental/Arial.ttf");
            paths.push("/Library/Fonts/Arial.ttf");
            paths.push("/System/Library/Fonts/Helvetica.ttc");
        },
        System::Windows => {
            paths.push("C:\\Windows\\Fonts\\arial.ttf");
        },
        System::Other => {},
    }
    assert(paths.deep_view() =~= fallback_paths(system));
    paths
}

/// The first of the files that is a font; `None` stands for one that could not be read.
pub open spec fn first_font(files: Seq<Option<Seq<u8>>>) -> Option<Seq<u8>>
    decreases files.len(),
{
    if files.len() == 0 {
        None
    } else {
        match files[0] {
            Some(bytes) if is_font(bytes) => Some(bytes),
            _ => first_font(files.drop_first()),
        }
    }
}

/// Files in mathematical terms.
pub open spec fn file_models(files: Seq<Option<Vec<u8>>>) -> Seq<Option<Seq<u8>>> {
    files.map_values(
        |f: Option<Vec<u8>>|
            match f {
                Some(bytes) => Some(bytes@),
                None => None,
            },
    )
}

/// The fallback font: the first of the files, in the order of [`fallback_candidates`], that could
/// be read and is a font.
pub fn arial(files: &Vec<Option<Vec<u8>>>) -> (font: Option<Typeface>)
    ensures
        match font {
            Some(f) => first_font(file_models(files@)) == Some(f@),
            None => first_font(file_models(files@)) is None,
        },
{
    let ghost all = file_models(files@);
    let mut i: usize = 0;
    assert(all.skip(0) =~= all);
    while i < files.len()
        invariant
            i <= files@.len(),
            all == file_models(files@),
            first_font(all) == first_font(all.skip(i as int)),
        decreases files@.len() - i,
    {
        assert(all.skip(i as int)[0] == all[i as int]);
        assert(all.skip(i as int).drop_first() =~= all.skip(i + 1));
        match &files[i] {
            Some(bytes) => {
                let copy = bytes.clone();
                assert(copy@ =~= bytes@);
                if font_fault(&copy).is_none() {
                    return Some(Typeface { bytes: copy });
                }
            },
            None => {},
        }
        i = i + 1;
    }
    None
}

/// What a look-up gives, where `known` is what an earlier one gave: that, whatever files there are
/// now, and else the first font among the files.
pub open spec fn answered(known: Option<Option<Seq<u8>>>, files: Seq<Option<Seq<u8>>>) -> Option<
    Seq<u8>,
> {
    match known {
        Some(answer) => answer,
        None => first_font(files),
    }
}

/// The fallback font, looked up once.
pub struct FallbackFont {
    known: bool,
    font: Option<Typeface>,
}

impl View for FallbackFont {
    type V = Option<Option<Seq<u8>>>;

    /// What the look-up gave; `None` where there was none yet.
    closed spec fn view(&self) -> Option<Option<Seq<u8>>> {
        if self.known {
            Some(
                match self.font {
                    Some(f) => Some(f@),
                    None => None,
                },
            )
        } else {
            None
        }
    }
}

impl FallbackFont {
    /// A fallback font that was not looked up yet.
    pub fn new() -> (fallback: FallbackFont)
        ensures
            fallback@ is None,
    {
        FallbackFont { known: false, font: None }
    }

    /// Whether the font was looked up.
    pub fn is_known(&self) -> (known: bool)
        ensures
            known == (self@ is Some),
    {
        self.known
    }

    /// Looks the font up among the files, in the order of [`fallback_candidates`], unless that was
    /// done before.
    pub fn look_up(&mut self, files: &Vec<Option<Vec<u8>>>)
        ensures
            final(self)@ == Some(answered(old(self)@, file_models(files@))),
    {
        if !self.known {
            self.font = arial(files);
            self.known = true;
        }
    }

    /// What the look-up gave.
    pub fn font(&self) -> (font: &Option<Typeface>)
        requires
            self@ is Some,
        ensures
            match *font {
                Some(f) => self@ == Some(Some(f@)),
                None => self@ == Some(None::<Seq<u8>>),
            },
    {
        &self.font
    }
}

/// The fallback font is looked up once only: a later look-up gives what the first one gave,
/// whatever became of the files, and the first one gave the first readable font.
pub proof fn lemma_looked_up_once(first: Seq<Option<Seq<u8>>>, later: Seq<Option<Seq<u8>>>)
    ensures
        answered(Some(answered(None, first)), later) == answered(None, first),
        answered(None, first) == first_font(first),
{
}

/// On a system that is neither macOS nor Windows there is no fallback font.
pub proof fn lemma_no_fallback_elsewhere(files: Seq<Option<Seq<u8>>>)
    requires
        files.len() == fallback_paths(System::Other).len(),
    ensures
        answered(None, files) is None,
{
}

/// Whether a character for which a font has the glyph `glyph` can be set: white space needs none.
pub open spec fn is_covered(c: char, glyph: u16) -> bool {
    is_white_space(c) || glyph != 0
}

/// Whether a character for which a font has the glyph `glyph` can be set.
pub fn covered(c: char, glyph: u16) -> (yes: bool)
    ensures
        yes == is_covered(c, glyph),
{
    white_space(c) || glyph != 0
}

/// Whether a font has a glyph for every character of a text that is not white space.
pub open spec fn supports(font: Seq<u8>, text: Seq<char>) -> bool {
    forall|i: int| 0 <= i < text.len() ==> is_covered(#[trigger] text[i], glyph_of(font, text[i]))
}

/// Whether a font has a glyph for every character of a text that is not white space.
pub fn font_supports(font: &Typeface, text: &str) -> (supported: bool)
    ensures
        supported == supports(font@, text@),
{
    proof {
        use_type_invariant(font);
    }
    let chars = chars_of(text);
    let mut i: usize = 0;
    while i < chars.len()
        invariant
            i <= chars@.len(),
            chars@ == text@,
            is_font(font.bytes@),
            font@ == font.bytes@,
            forall|k: int|
                0 <= k < i ==> is_covered(#[trigger] text@[k], glyph_of(font@, text@[k])),
        decreases chars@.len() - i,
    {
        let c = chars[i];
        if !covered(c, glyph_id(&font.bytes, c)) {
            assert(text@[i as int] == c);
            return false;
        }
        i = i + 1;
    }
    true
}

/// The font that a text is set in.
#[derive(Clone, Copy, PartialEq, Eq, Structural)]
pub enum FontChoice {
    Brand,
    Fallback,
}

/// The font for a text: the brand font where it supports the text or there is no fallback.
pub open spec fn chosen_font(brand: Seq<u8>, has_fallback: bool, text: Seq<char>) -> FontChoice {
    if !supports(brand, text) && has_fallback {
        FontChoice::Fallback
    } else {
        FontChoice::Brand
    }
}

/// Chooses the font for a text.
pub fn choose_font(brand: &Typeface, fallback: &Option<Typeface>, text: &str) -> (font: FontChoice)
    ensures
        font == chosen_font(brand@, fallback is Some, text@),
{
    if font_supports(brand, text) {
        FontChoice::Brand
    } else if fallback.is_some() {
        FontChoice::Fallback
    } else {
        FontChoice::Brand
    }
}

/// Whether letters are set apart: the spacing, a single-precision bit pattern, is `2^-23` or more
/// in either direction, or no number.
pub open spec fn is_spaced(letter_spacing_px: u32) -> bool {
    letter_spacing_px % 0x8000_0000 >= 0x3400_0000
}

/// A text ready to be drawn.
pub struct TextPlan {
    pub font: FontChoice,
    /// Left edge of every row.
    pub x: i32,
    pub rows: Vec<PlacedLine>,
    /// Whether the rows are drawn letter by letter.
    pub spaced: bool,
}

/// Whether `fits` answers as `p` does, for each font.
pub open spec fn decides_for<F: Fn(FontChoice, &str) -> bool>(
    fits: F,
    p: spec_fn(FontChoice, Seq<char>) -> bool,
) -> bool {
    forall|f: FontChoice, s: &str, b: bool| #[trigger] fits.ensures((f, s), b) ==> b == p(f, s@)
}

/// The width that a text is wrapped to; 0 stands for no limit.
pub open spec fn wrap_width(text_max_width: i32) -> u32 {
    if text_max_width < 0 {
        0
    } else {
        text_max_width as u32
    }
}

/// Sets a text: chooses its font, breaks it into rows and says where each stands. The font size,
/// the line height as a multiple of it, and the letter spacing are single-precision bit patterns.
/// `fits` tells which texts fit into the width in a font. `None` stands for a row whose height
/// cannot be computed in 32 bits.
pub fn compose_text<F: Fn(FontChoice, &str) -> bool>(
    text: &str,
    brand: &Typeface,
    fallback: &Option<Typeface>,
    text_origin: (i32, i32),
    text_max_width: i32,
    font_px: u32,
    line_height_factor: u32,
    letter_spacing_px: u32,
    fits: &F,
) -> (plan: Option<TextPlan>)
    requires
        forall|f: FontChoice, s: &str| #[trigger] fits.requires((f, s)),
    ensures
        forall|p: spec_fn(FontChoice, Seq<char>) -> bool| #[trigger]
            decides_for(*fits, p) ==> {
                let font = chosen_font(brand@, fallback is Some, text@);
                let lines = lines_of(text@);
                let y = text_origin.1 as int;
                let lh = whole_product(font_px, line_height_factor);
                let w = wrap_width(text_max_width);
                let in_font = |s: Seq<char>| p(font, s);
                match plan {
                    Some(t) => {
                        &&& t.font == font
                        &&& t.x == text_origin.0
                        &&& t.spaced == is_spaced(letter_spacing_px)
                        &&& places_fit(lines, lines.len(), y, lh, w, in_font)
                        &&& t.rows.deep_view() == placed(lines, lines.len(), y, lh, w, in_font)
                    },
                    None => !places_fit(lines, lines.len(), y, lh, w, in_font),
                }
            },
{
    let font = choose_font(brand, fallback, text);
    let line_height: i32 = rounded_product(font_px, line_height_factor);
    let width: u32 = if text_max_width < 0 {
        0
    } else {
        text_max_width as u32
    };
    let fits_in_font = |s: &str| -> (b: bool)
        ensures
            fits.ensures((font, s), b),
        { fits(font, s) };
    let rows = place_text(text, text_origin.1, line_height, width, &fits_in_font);
    assert forall|p: spec_fn(FontChoice, Seq<char>) -> bool| #[trigger]
        decides_for(*fits, p) implies decides(
        fits_in_font,
        |s: Seq<char>| p(font, s),
    ) by {};
    match rows {
        Some(rows) => Some(
            TextPlan {
                font,
                x: text_origin.0,
                rows,
                spaced: letter_spacing_px % 0x8000_0000 >= 0x3400_0000,
            },
        ),
        None => None,
    }
}

} // verus!
