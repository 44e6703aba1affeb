//! Code points as documents store them: which to trust, and the characters they
//! stand for.

use vstd::prelude::*;
use vstd::string::*;
use crate::numbers;
use crate::text;

verus! {

/// The character with a code point, if there is one.
pub open spec fn char_of(u: u32) -> Option<char> {
    if u <= 0xD7FF || 0xE000 <= u <= 0x10FFFF {
        Some(u as char)
    } else {
        None
    }
}

/// `char::from_u32`: the character with a code point. There is none for
/// surrogates and above 0x10FFFF.
pub assume_specification[ char::from_u32 ](i: u32) -> (r: Option<char>)
    ensures
        r == char_of(i),
;

/// The kind of a font.
#[derive(Clone, Copy, Debug, PartialEq, Eq, Structural)]
pub enum FontType {
    Type1,
    TrueType,
    Type3,
    CidFont,
    Unknown,
}

/// A color with its opacity.
#[derive(Clone, Copy, Debug, PartialEq, Eq, Structural)]
pub struct Color {
    pub r: u8,
    pub g: u8,
    pub b: u8,
    pub a: u8,
}

/// A color as eight hexadecimal digits: opacity, red, green and blue.
pub open spec fn argb_hex(c: Color) -> Seq<char> {
    numbers::hex_byte(c.a) + numbers::hex_byte(c.r) + numbers::hex_byte(c.g) + numbers::hex_byte(
        c.b,
    )
}

/// A color as eight hexadecimal digits: opacity, red, green and blue.
pub fn color_to_argb_hex(c: &Color) -> (r: String)
    ensures
        r@ == argb_hex(*c),
{
    let mut out: String = String::new();
    numbers::push_hex_byte(&mut out, c.a);
    numbers::push_hex_byte(&mut out, c.r);
    numbers::push_hex_byte(&mut out, c.g);
    numbers::push_hex_byte(&mut out, c.b);
    proof {
        assert(out@ =~= argb_hex(*c));
    }
    out
}

// ---------------------------------------------------------------------------
// Trust
// ---------------------------------------------------------------------------

/// Whether a code point is never text: a control, or a private one behind 0xE000.
pub open spec fn buggy_point(u: u32) -> bool {
    u <= 0x1F || 0x7F <= u <= 0x9F || 0xE000 < u <= 0xF8FF
}

/// Whether a code point indicates a broken encoding.
pub fn is_buggy_codepoint(unicode: u32) -> (r: bool)
    ensures
        r == buggy_point(unicode),
{
    unicode <= 0x1F || (0x7F <= unicode && unicode <= 0x9F) || (0xE000 < unicode && unicode
        <= 0xF8FF)
}

/// Whether the byte at `at` of a text in UTF-8 is an underscore.
pub open spec fn underscore_at_byte(s: Seq<char>, at: int) -> bool {
    exists|k: int| 0 <= k < s.len() && #[trigger] text::utf8_len(s, k) == at && s[k] == '_'
}

/// Whether the name of a font is one of those that broken subset fonts have: it
/// starts with `TT` or has `+TT` in it, or it is the name of a Type 1 font with an
/// underscore behind its first six bytes.
pub open spec fn buggy_name(name: Seq<char>, kind: FontType) -> bool {
    text::starts(name, "TT"@) || text::has_substr(name, "+TT"@) || kind == FontType::Type1
        && underscore_at_byte(name, 6)
}

proof fn lemma_utf8_len_grows(s: Seq<char>, m: int, n: int)
    requires
        0 <= m <= n <= s.len(),
    ensures
        text::utf8_len(s, m) + (n - m) <= text::utf8_len(s, n),
    decreases n,
{
    if m < n {
        lemma_utf8_len_grows(s, m, n - 1);
    }
}

fn has_underscore_at(s: &str, at: u128) -> (r: bool)
    ensures
        r == underscore_at_byte(s@, at as int),
{
    let cs: Vec<char> = text::chars_of(s);
    let mut i: usize = 0;
    let mut offset: u128 = 0;
    while i < cs.len() && offset < at
        invariant
            i <= cs@.len(),
            cs@ == s@,
            offset == text::utf8_len(cs@, i as int),
            offset <= 4 * i,
            forall|k: int| 0 <= k < i ==> #[trigger] text::utf8_len(cs@, k) < at,
        decreases cs.len() - i,
    {
        offset = offset + text::char_width(cs[i]);
        i = i + 1;
    }
    proof {
        assert forall|k: int| i < k < cs@.len() implies #[trigger] text::utf8_len(cs@, k)
            > at by {
            lemma_utf8_len_grows(cs@, i as int, k);
        }
    }
    i < cs.len() && offset == at && cs[i] == '_'
}

/// Whether the name of a font is one of those that broken subset fonts have.
pub fn is_buggy_font(font_name: &str, font_type: FontType) -> (r: bool)
    ensures
        r == buggy_name(font_name@, font_type),
{
    if text::starts_with(font_name, "TT") || text::contains_str(font_name, "+TT") {
        return true;
    }
    font_type == FontType::Type1 && has_underscore_at(font_name, 6)
}

/// Whether a code point is a sentinel, a control other than tab and line ends, or
/// private.
pub open spec fn suspicious_point(u: u32) -> bool {
    u == 0 || u == 0xFFFE || u == 0xFFFF || (u < 0x20 && u != 0x09 && u != 0x0A && u != 0x0D)
        || 0xE000 <= u <= 0xF8FF
}

/// Whether a code point is a sentinel, a control other than tab and line ends, or
/// private.
pub fn is_suspicious(u: u32) -> (r: bool)
    ensures
        r == suspicious_point(u),
{
    u == 0 || u == 0xFFFE || u == 0xFFFF || (u < 0x20 && u != 0x09 && u != 0x0A && u != 0x0D) || (
    0xE000 <= u && u <= 0xF8FF)
}

/// Whether a code point is a sentinel that stands for no character.
pub open spec fn is_sentinel(u: u32) -> bool {
    u == 0 || u == 0xFFFE || u == 0xFFFF
}

// ---------------------------------------------------------------------------
// Characters
// ---------------------------------------------------------------------------

/// Typographic quotes and dashes as their ASCII equivalents.
pub open spec fn plain_punct(c: char) -> char {
    if c == '\u{2018}' || c == '\u{2019}' || c == '\u{201A}' || c == '\u{2032}' {
        '\''
    } else if c == '\u{201C}' || c == '\u{201D}' || c == '\u{201E}' || c == '\u{2033}' {
        '"'
    } else if '\u{2010}' <= c <= '\u{2015}' || c == '\u{2212}' {
        '-'
    } else {
        c
    }
}

/// Typographic quotes and dashes as their ASCII equivalents.
pub fn normalize_punct(c: char) -> (r: char)
    ensures
        r == plain_punct(c),
{
    if c == '\u{2018}' || c == '\u{2019}' || c == '\u{201A}' || c == '\u{2032}' {
        '\''
    } else if c == '\u{201C}' || c == '\u{201D}' || c == '\u{201E}' || c == '\u{2033}' {
        '"'
    } else if ('\u{2010}' <= c && c <= '\u{2015}') || c == '\u{2212}' {
        '-'
    } else {
        c
    }
}

/// Folding punctuation twice changes nothing more.
pub proof fn law_plain_punct_is_final(c: char)
    ensures
        plain_punct(plain_punct(c)) == plain_punct(c),
{
}

/// The letters that some fonts store as control characters.
pub open spec fn control_letters(u: u32) -> Option<Seq<char>> {
    if u == 0x02 {
        Some("-"@)
    } else if u == 0x1A {
        Some("ff"@)
    } else if u == 0x1B {
        Some("ft"@)
    } else if u == 0x1C {
        Some("fi"@)
    } else if u == 0x1D {
        Some("Th"@)
    } else if u == 0x1E {
        Some("ffi"@)
    } else if u == 0x1F {
        Some("fl"@)
    } else {
        None
    }
}

/// The letters that some fonts store as control characters.
pub fn expand_control(u: u32) -> (r: Option<&'static str>)
    ensures
        match r {
            Some(s) => control_letters(u) == Some(s@),
            None => control_letters(u) is None,
        },
{
    if u == 0x02 {
        Some("-")
    } else if u == 0x1A {
        Some("ff")
    } else if u == 0x1B {
        Some("ft")
    } else if u == 0x1C {
        Some("fi")
    } else if u == 0x1D {
        Some("Th")
    } else if u == 0x1E {
        Some("ffi")
    } else if u == 0x1F {
        Some("fl")
    } else {
        None
    }
}

/// The letters of a Latin ligature that has a code point of its own.
pub open spec fn ligature_letters(c: char) -> Option<Seq<char>> {
    if c == '\u{FB00}' {
        Some("ff"@)
    } else if c == '\u{FB01}' {
        Some("fi"@)
    } else if c == '\u{FB02}' {
        Some("fl"@)
    } else if c == '\u{FB03}' {
        Some("ffi"@)
    } else if c == '\u{FB04}' {
        Some("ffl"@)
    } else if c == '\u{FB05}' || c == '\u{FB06}' {
        Some("st"@)
    } else {
        None
    }
}

/// The letters of a Latin ligature that has a code point of its own.
pub fn presentation_form_expansion(c: char) -> (r: Option<&'static str>)
    ensures
        match r {
            Some(s) => ligature_letters(c) == Some(s@),
            None => ligature_letters(c) is None,
        },
{
    if c == '\u{FB00}' {
        Some("ff")
    } else if c == '\u{FB01}' {
        Some("fi")
    } else if c == '\u{FB02}' {
        Some("fl")
    } else if c == '\u{FB03}' {
        Some("ffi")
    } else if c == '\u{FB04}' {
        Some("ffl")
    } else if c == '\u{FB05}' || c == '\u{FB06}' {
        Some("st")
    } else {
        None
    }
}

/// The text that a code point of a recovered glyph stands for. Controls stand for
/// none.
pub open spec fn glyph_text(u: u32) -> Option<Seq<char>> {
    match char_of(u) {
        Some(c) => if text::is_cc(c) {
            None
        } else {
            match ligature_letters(c) {
                Some(s) => Some(s),
                None => Some(seq![c]),
            }
        },
        None => None,
    }
}

/// The text that a code point of a recovered glyph stands for.
pub fn text_of_glyph(u: u32) -> (r: Option<String>)
    ensures
        match r {
            Some(s) => glyph_text(u) == Some(s@),
            None => glyph_text(u) is None,
        },
{
    match char::from_u32(u) {
        Some(c) => {
            if text::is_control(c) {
                return None;
            }
            match presentation_form_expansion(c) {
                Some(s) => Some(text::to_string(s)),
                None => {
                    let mut out: String = String::new();
                    out.push(c);
                    proof {
                        assert(out@ =~= seq![c]);
                    }
                    Some(out)
                },
            }
        },
        None => None,
    }
}

} // verus!
