//! Characters whose code points cannot be trusted: which those are, and what the
//! glyphs behind them stand for.

use std::collections::HashMap;
use vstd::prelude::*;
use vstd::string::*;
use crate::code_points;
use crate::code_points::FontType;
use crate::text;
use crate::types;

verus! {

broadcast use vstd::std_specs::hash::group_hash_axioms;

// ---------------------------------------------------------------------------
// Characters of a page before they are read
// ---------------------------------------------------------------------------

/// What is known of a character of a page before the page is read.
#[derive(Clone, Copy, Debug, PartialEq, Eq, Structural)]
pub struct CharGlance {
    pub unicode: u32,
    /// Whether the character is not in the document itself.
    pub generated: bool,
    /// Whether the character is painted invisibly.
    pub invisible: bool,
    /// The font of the character, by a number that is its own.
    pub font: Option<usize>,
}

/// Whether a character counts when the visible text is weighed against the
/// invisible: it is in the document, and it is no sentinel, white space or control.
pub open spec fn weighs(c: CharGlance) -> bool {
    !c.generated && !code_points::is_sentinel(c.unicode) && match code_points::char_of(c.unicode) {
        Some(ch) => !text::is_ws(ch) && !text::is_cc(ch),
        None => true,
    }
}

/// How many of the first `n` characters count and are painted invisibly, or not.
pub open spec fn weight(chars: Seq<CharGlance>, invisible: bool, n: int) -> nat
    decreases n,
{
    if n <= 0 {
        0
    } else {
        weight(chars, invisible, n - 1) + if weighs(chars[n - 1]) && chars[n - 1].invisible
            == invisible {
            1nat
        } else {
            0nat
        }
    }
}

/// Whether the invisible text of a page is left out: there is visible text too, and
/// less than 30 percent of all the text is invisible.
pub open spec fn skips_invisible(chars: Seq<CharGlance>) -> bool {
    let n = chars.len() as int;
    let visible = weight(chars, false, n);
    let invisible = weight(chars, true, n);
    visible > 0 && invisible > 0 && 10 * invisible < 3 * (visible + invisible)
}

/// Whether the invisible text of a page is left out. It is kept where it is all the
/// text there is, or a large part of it.
pub fn should_skip_invisible(chars: &Vec<CharGlance>) -> (r: bool)
    ensures
        r == skips_invisible(chars@),
{
    let mut visible: usize = 0;
    let mut invisible: usize = 0;
    let mut i: usize = 0;
    while i < chars.len()
        invariant
            i <= chars@.len(),
            visible == weight(chars@, false, i as int),
            invisible == weight(chars@, true, i as int),
            visible + invisible <= i,
        decreases chars.len() - i,
    {
        let c: CharGlance = chars[i];
        let sentinel: bool = c.unicode == 0 || c.unicode == 0xFFFE || c.unicode == 0xFFFF;
        let blank: bool = match char::from_u32(c.unicode) {
            Some(ch) => text::is_whitespace(ch) || text::is_control(ch),
            None => false,
        };
        if !c.generated && !sentinel && !blank {
            if c.invisible {
                invisible = invisible + 1;
            } else {
                visible = visible + 1;
            }
        }
        i = i + 1;
    }
    visible > 0 && invisible > 0 && 10 * (invisible as u128) < 3 * (visible as u128
        + invisible as u128)
}

/// Whether a character counts when fonts are judged: it is in the document, it is no
/// tab, line end or space, and its font is the given one.
pub open spec fn speaks_for(c: CharGlance, font: usize) -> bool {
    !c.generated && c.unicode != 0x09 && c.unicode != 0x0A && c.unicode != 0x0D && c.unicode != 0x20
        && c.font == Some(font)
}

/// Whether a code point is a sentinel, a control, or private.
pub open spec fn no_text(u: u32) -> bool {
    code_points::is_sentinel(u) || u < 0x20 || 0xE000 <= u <= 0xF8FF
}

/// How many of the first `n` characters count for a font.
pub open spec fn voices(chars: Seq<CharGlance>, font: usize, n: int) -> nat
    decreases n,
{
    if n <= 0 {
        0
    } else {
        voices(chars, font, n - 1) + if speaks_for(chars[n - 1], font) {
            1nat
        } else {
            0nat
        }
    }
}

/// How many of the first `n` characters count for a font and are no text.
pub open spec fn complaints(chars: Seq<CharGlance>, font: usize, n: int) -> nat
    decreases n,
{
    if n <= 0 {
        0
    } else {
        complaints(chars, font, n - 1) + if speaks_for(chars[n - 1], font) && no_text(
            chars[n - 1].unicode,
        ) {
            1nat
        } else {
            0nat
        }
    }
}

/// Whether the code points of a font are garbage: twenty characters or more, of which
/// a tenth or more are no text.
pub open spec fn is_garbage(chars: Seq<CharGlance>, font: usize) -> bool {
    let n = chars.len() as int;
    voices(chars, font, n) >= 20 && complaints(chars, font, n) * 10 >= voices(chars, font, n)
}

fn font_is_garbage(chars: &Vec<CharGlance>, font: usize) -> (r: bool)
    ensures
        r == is_garbage(chars@, font),
{
    let mut total: usize = 0;
    let mut bad: usize = 0;
    let mut i: usize = 0;
    while i < chars.len()
        invariant
            i <= chars@.len(),
            total == voices(chars@, font, i as int),
            bad == complaints(chars@, font, i as int),
            bad <= total <= i,
        decreases chars.len() - i,
    {
        let c: CharGlance = chars[i];
        let own: bool = match c.font {
            Some(f) => f == font,
            None => false,
        };
        if own && !c.generated && c.unicode != 0x09 && c.unicode != 0x0A && c.unicode != 0x0D
            && c.unicode != 0x20 {
            total = total + 1;
            if c.unicode == 0xFFFE || c.unicode == 0xFFFF || c.unicode < 0x20 || (0xE000
                <= c.unicode && c.unicode <= 0xF8FF) {
                bad = bad + 1;
            }
        }
        i = i + 1;
    }
    total >= 20 && (bad as u128) * 10 >= total as u128
}

fn holds(v: &Vec<usize>, x: usize) -> (r: bool)
    ensures
        r == v@.contains(x),
{
    let mut i: usize = 0;
    while i < v.len()
        invariant
            i <= v@.len(),
            forall|k: int| 0 <= k < i ==> v@[k] != x,
        decreases v.len() - i,
    {
        if v[i] == x {
            return true;
        }
        i = i + 1;
    }
    false
}

proof fn lemma_garbage_occurs(chars: Seq<CharGlance>, font: usize, n: int)
    requires
        0 <= n <= chars.len(),
        voices(chars, font, n) > 0,
    ensures
        exists|i: int| 0 <= i < n && (#[trigger] chars[i]).font == Some(font),
    decreases n,
{
    if speaks_for(chars[n - 1], font) {
        assert(chars[n - 1].font == Some(font));
    } else {
        lemma_garbage_occurs(chars, font, n - 1);
        let i = choose|i: int| 0 <= i < n - 1 && (#[trigger] chars[i]).font == Some(font);
        assert(chars[i].font == Some(font));
    }
}

/// The fonts whose code points are garbage, each once.
pub fn detect_garbage_unicode_fonts(chars: &Vec<CharGlance>) -> (r: Vec<usize>)
    ensures
        forall|f: usize| #[trigger] r@.contains(f) <==> is_garbage(chars@, f),
        r@.no_duplicates(),
{
    let mut out: Vec<usize> = Vec::new();
    let mut seen: Vec<usize> = Vec::new();
    let mut i: usize = 0;
    while i < chars.len()
        invariant
            i <= chars@.len(),
            forall|f: usize| #[trigger] out@.contains(f) ==> is_garbage(chars@, f),
            forall|f: usize| #[trigger] out@.contains(f) ==> seen@.contains(f),
            forall|f: usize|
                #[trigger] seen@.contains(f) && is_garbage(chars@, f) ==> out@.contains(f),
            forall|k: int|
                0 <= k < i ==> ((#[trigger] chars@[k]).font is Some ==> seen@.contains(
                    chars@[k].font->0,
                )),
            out@.no_duplicates(),
        decreases chars.len() - i,
    {
        match chars[i].font {
            Some(f) => {
                if !holds(&seen, f) {
                    let ghost old_seen = seen@;
                    let ghost old_out = out@;
                    proof {
                        assert(!old_out.contains(f));
                    }
                    seen.push(f);
                    proof {
                        assert(seen@[old_seen.len() as int] == f);
                        assert forall|g: usize| #[trigger] old_seen.contains(
                            g,
                        ) implies seen@.contains(g) by {
                            let k = choose|k: int| 0 <= k < old_seen.len() && old_seen[k] == g;
                            assert(seen@[k] == g);
                        }
                        assert forall|g: usize| #[trigger] seen@.contains(g) implies g == f
                            || old_seen.contains(g) by {
                            let k = choose|k: int| 0 <= k < seen@.len() && seen@[k] == g;
                            if k < old_seen.len() {
                                assert(old_seen[k] == g);
                            }
                        }
                    }
                    if font_is_garbage(chars, f) {
                        out.push(f);
                        proof {
                            assert(out@[old_out.len() as int] == f);
                            assert forall|a: int, b: int|
                                0 <= a < out@.len() && 0 <= b < out@.len() && a != b implies out@[a]
                                != out@[b] by {
                                if a == old_out.len() {
                                    assert(old_out.contains(old_out[b]));
                                } else if b == old_out.len() {
                                    assert(old_out.contains(old_out[a]));
                                }
                            }
                            assert forall|g: usize| #[trigger] old_out.contains(
                                g,
                            ) implies out@.contains(g) by {
                                let k = choose|k: int| 0 <= k < old_out.len() && old_out[k] == g;
                                assert(out@[k] == g);
                            }
                            assert forall|g: usize| #[trigger] out@.contains(g) implies g == f
                                || old_out.contains(g) by {
                                let k = choose|k: int| 0 <= k < out@.len() && out@[k] == g;
                                if k < old_out.len() {
                                    assert(old_out[k] == g);
                                }
                            }
                        }
                    }
                }
            },
            None => {},
        }
        i = i + 1;
    }
    proof {
        assert forall|f: usize| is_garbage(chars@, f) implies #[trigger] out@.contains(f) by {
            lemma_garbage_occurs(chars@, f, chars@.len() as int);
            let k = choose|k: int| 0 <= k < chars@.len() && (#[trigger] chars@[k]).font == Some(f);
            assert(seen@.contains(chars@[k].font->0));
        }
    }
    out
}

// ---------------------------------------------------------------------------
// Trust in fonts
// ---------------------------------------------------------------------------

/// What is known of a font.
#[derive(Clone, Debug)]
pub struct FontTraits {
    pub base_name: Option<String>,
    pub font_type: FontType,
    pub embedded: bool,
    /// Whether the font says which characters its codes stand for.
    pub has_to_unicode: bool,
    pub encoding: Option<String>,
    /// Whether its code points were found to be garbage.
    pub garbage: bool,
}

/// Whether the encoding that a font declares cannot be true: it is embedded and has
/// a name that broken subset fonts have.
pub open spec fn lies(f: FontTraits) -> bool {
    f.embedded && match f.base_name {
        Some(name) => code_points::buggy_name(name@, f.font_type),
        None => false,
    }
}

/// Whether an encoding is one of the standard ones.
pub open spec fn is_standard_encoding(s: Seq<char>) -> bool {
    s == "WinAnsiEncoding"@ || s == "MacRomanEncoding"@ || s == "MacExpertEncoding"@ || s
        == "StandardEncoding"@
}

/// Whether the code points of a font cannot be trusted: they are garbage, or the
/// encoding cannot be true, or the font says nothing of them and has no standard
/// encoding.
pub open spec fn untrusted(f: FontTraits) -> bool {
    f.garbage || lies(f) || !f.has_to_unicode && match f.encoding {
        Some(e) => !is_standard_encoding(e@),
        None => true,
    }
}

/// Whether the encoding that a font declares cannot be true.
pub fn encoding_lies(f: &FontTraits) -> (r: bool)
    ensures
        r == lies(*f),
{
    f.embedded && match &f.base_name {
        Some(name) => code_points::is_buggy_font(name.as_str(), f.font_type),
        None => false,
    }
}

/// Whether the code points of a font cannot be trusted.
pub fn font_untrusted(f: &FontTraits) -> (r: bool)
    ensures
        r == untrusted(*f),
{
    if f.garbage || encoding_lies(f) {
        return true;
    }
    !f.has_to_unicode && match &f.encoding {
        Some(e) => {
            let s: &str = e.as_str();
            !(text::str_eq(s, "WinAnsiEncoding") || text::str_eq(s, "MacRomanEncoding")
                || text::str_eq(s, "MacExpertEncoding") || text::str_eq(s, "StandardEncoding"))
        },
        None => true,
    }
}

// ---------------------------------------------------------------------------
// Recovery of characters
// ---------------------------------------------------------------------------

/// What is known of the glyph of a character.
#[derive(Clone, Debug)]
pub struct GlyphFacts {
    pub char_code: u32,
    pub unicode: u32,
    /// Whether the code point was made up for want of one.
    pub map_error: bool,
    /// The text that the name of the glyph stands for, if it does for any.
    pub named: Option<String>,
    /// The code point that the font program has for the glyph, if any.
    pub mapped: Option<u32>,
    /// The text that the outline of the glyph stands for, if it was resolved.
    pub drawn: Option<String>,
}

/// Whether a text has a control character.
pub open spec fn has_control(s: Seq<char>) -> bool {
    exists|i: int| 0 <= i < s.len() && text::is_cc(#[trigger] s[i])
}

/// The text of a glyph by its name, unless the name rests on an encoding that cannot
/// be true.
pub open spec fn by_name(g: GlyphFacts, lying: bool) -> Option<Seq<char>> {
    match g.named {
        Some(s) => if lying || has_control(s@) {
            None
        } else {
            Some(s@)
        },
        None => None,
    }
}

/// The text of a glyph by the font program, unless its code point is private, or only
/// repeats the character code.
pub open spec fn by_program(g: GlyphFacts) -> Option<Seq<char>> {
    match g.mapped {
        Some(u) => if 0xE000 <= u <= 0xF8FF || u == g.char_code && u != g.unicode {
            None
        } else {
            code_points::glyph_text(u)
        },
        None => None,
    }
}

/// The text of a glyph by its outline, unless it is empty or has controls.
pub open spec fn by_outline(g: GlyphFacts) -> Option<Seq<char>> {
    match g.drawn {
        Some(s) => if s@.len() == 0 || has_control(s@) {
            None
        } else {
            Some(s@)
        },
        None => None,
    }
}

/// The text of a glyph: by its name, else by the font program, else by its outline.
pub open spec fn recovered(g: GlyphFacts, lying: bool) -> Option<Seq<char>> {
    if by_name(g, lying) is Some {
        by_name(g, lying)
    } else if by_program(g) is Some {
        by_program(g)
    } else {
        by_outline(g)
    }
}

fn contains_control(s: &str) -> (r: bool)
    ensures
        r == has_control(s@),
{
    let cs: Vec<char> = text::chars_of(s);
    let mut i: usize = 0;
    while i < cs.len()
        invariant
            i <= cs@.len(),
            cs@ == s@,
            forall|k: int| 0 <= k < i ==> !text::is_cc(#[trigger] cs@[k]),
        decreases cs.len() - i,
    {
        if text::is_control(cs[i]) {
            proof {
                assert(text::is_cc(s@[i as int]));
            }
            return true;
        }
        i = i + 1;
    }
    false
}

/// The text of a glyph, if anything tells it.
pub fn recover(g: &GlyphFacts, lying: bool) -> (r: Option<String>)
    ensures
        types::option_text(r) == recovered(*g, lying),
{
    if !lying {
        match &g.named {
            Some(s) => {
                if !contains_control(s.as_str()) {
                    return Some(s.clone());
                }
            },
            None => {},
        }
    }
    match g.mapped {
        Some(u) => {
            if !(0xE000 <= u && u <= 0xF8FF) && !(u == g.char_code && u != g.unicode) {
                match code_points::text_of_glyph(u) {
                    Some(s) => {
                        return Some(s);
                    },
                    None => {},
                }
            }
        },
        None => {},
    }
    match &g.drawn {
        Some(s) => {
            if s.as_str().is_empty() || contains_control(s.as_str()) {
                None
            } else {
                Some(s.clone())
            }
        },
        None => None,
    }
}

/// Whether a character has to be recovered: its font is not trusted, its code point
/// is suspicious, or it was made up.
pub open spec fn is_doubtful(g: GlyphFacts, untrusted_font: bool) -> bool {
    untrusted_font || code_points::suspicious_point(g.unicode) || g.map_error
}

/// Whether a recovered text is not used: it is longer than a character, and the code
/// point is good and among its characters, so that the text was taken apart already.
pub open spec fn is_split_already(g: GlyphFacts, found: Seq<char>) -> bool {
    found.len() > 1 && !code_points::suspicious_point(g.unicode) && match code_points::char_of(
        g.unicode,
    ) {
        Some(c) => found.contains(c),
        None => false,
    }
}

/// The text that takes the place of a character, given what is remembered of its
/// glyph.
pub open spec fn replacement(
    g: GlyphFacts,
    untrusted_font: bool,
    found: Option<Seq<char>>,
) -> Option<Seq<char>> {
    if !is_doubtful(g, untrusted_font) {
        None
    } else {
        match found {
            Some(s) => if is_split_already(g, s) {
                None
            } else {
                Some(s)
            },
            None => None,
        }
    }
}

/// Replaces characters whose code points cannot be trusted. What was found for a
/// glyph of a font is remembered.
pub struct GlyphDecoder {
    /// The texts of glyphs, by the number of the font and the character code.
    pub found: HashMap<u128, Option<String>>,
}

/// The place where a glyph of a font is remembered.
pub open spec fn glyph_slot(font: u64, char_code: u32) -> int {
    0x1_0000_0000 * font + char_code
}

/// Glyphs of different fonts, or with different codes, are remembered apart.
pub proof fn law_slots_differ(f: u64, c: u32, g: u64, d: u32)
    requires
        glyph_slot(f, c) == glyph_slot(g, d),
    ensures
        f == g,
        c == d,
{
}

/// What is remembered of a glyph.
pub open spec fn remembered(found: Map<u128, Option<String>>, slot: int) -> Option<
    Option<Seq<char>>,
> {
    if found.dom().contains(slot as u128) {
        Some(types::option_text(found[slot as u128]))
    } else {
        None
    }
}

impl GlyphDecoder {
    /// A decoder that remembers nothing yet.
    pub fn new() -> (r: GlyphDecoder)
        ensures
            r.found@ == Map::<u128, Option<String>>::empty(),
    {
        GlyphDecoder { found: HashMap::new() }
    }

    /// Whether a character has to be looked up: it is doubtful, and its glyph was not
    /// met before.
    pub fn wants(&self, font: u64, g: &GlyphFacts, traits: &FontTraits) -> (r: bool)
        ensures
            r == (is_doubtful(*g, untrusted(*traits)) && remembered(
                self.found@,
                glyph_slot(font, g.char_code),
            ) is None),
    {
        if !(font_untrusted(traits) || code_points::is_suspicious(g.unicode) || g.map_error) {
            return false;
        }
        let slot: u128 = 0x1_0000_0000 * (font as u128) + g.char_code as u128;
        !self.found.contains_key(&slot)
    }

    /// The text that takes the place of a character. What is found for the glyph the
    /// first time counts from then on.
    pub fn decode(&mut self, font: u64, g: &GlyphFacts, traits: &FontTraits) -> (r: Option<String>)
        ensures
            ({
                let slot = glyph_slot(font, g.char_code);
                let doubtful = is_doubtful(*g, untrusted(*traits));
                let known = match remembered(old(self).found@, slot) {
                    Some(t) => t,
                    None => recovered(*g, lies(*traits)),
                };
                &&& types::option_text(r) == replacement(*g, untrusted(*traits), known)
                &&& doubtful ==> remembered(final(self).found@, slot) == Some(known)
                &&& !doubtful ==> final(self).found@ == old(self).found@
                &&& forall|s: int|
                    0 <= s <= u128::MAX && s != slot ==> #[trigger] remembered(
                        final(self).found@,
                        s,
                    ) == remembered(old(self).found@, s)
            }),
    {
        let suspicious: bool = code_points::is_suspicious(g.unicode);
        if !(font_untrusted(traits) || suspicious || g.map_error) {
            return None;
        }
        let slot: u128 = 0x1_0000_0000 * (font as u128) + g.char_code as u128;
        let known: Option<String> = match self.found.get(&slot) {
            Some(t) => types::clone_option(t),
            None => recover(g, encoding_lies(traits)),
        };
        self.found.insert(slot, types::clone_option(&known));
        match known {
            Some(s) => {
                if s.as_str().unicode_len() > 1 && !suspicious {
                    match char::from_u32(g.unicode) {
                        Some(c) => {
                            if text::contains_char(s.as_str(), c) {
                                return None;
                            }
                        },
                        None => {},
                    }
                }
                Some(s)
            },
            None => None,
        }
    }
}

} // verus!
