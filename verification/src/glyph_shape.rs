//! When characters of a page are not taken at their word, and what takes their place.

use crate::code_points;
use crate::glyph_decoder;
use crate::glyph_decoder::{CharGlance, GlyphFacts};
use crate::text;
use vstd::prelude::*;

verus! {

/// Whether a character of the document leaves a mark: it stands for one, and that is neither
/// white space nor a control.
pub open spec fn leaves_mark(c: CharGlance) -> bool {
    let u = c.unicode;
    &&& !c.generated
    &&& u != 0 && u != 0xFFFE && u != 0xFFFF
    &&& u <= 0xD7FF || 0xE000 <= u <= 0x10FFFF ==> !text::is_ws(u as char) && !text::is_cc(
        u as char,
    )
}

proof fn lemma_weight(chars: Seq<CharGlance>, invisible: bool, n: int)
    requires
        0 <= n <= chars.len(),
    ensures
        glyph_decoder::weight(chars, invisible, n) == chars.take(n).filter(
            |c: CharGlance| leaves_mark(c) && c.invisible == invisible,
        ).len(),
    decreases n,
{
    reveal(Seq::filter);
    if n > 0 {
        lemma_weight(chars, invisible, n - 1);
        assert(chars.take(n).drop_last() =~= chars.take(n - 1));
        assert(chars.take(n).last() == chars[n - 1]);
    } else {
        assert(chars.take(n) =~= seq![]);
    }
}

/// The invisible text of a page is left out exactly where it has visible text too, and less
/// than 30 percent of its characters are invisible.
pub proof fn law_invisible_text(chars: Seq<CharGlance>)
    ensures
        glyph_decoder::skips_invisible(chars) <==> ({
            let hidden = chars.filter(
                |c: CharGlance| leaves_mark(c) && c.invisible == true,
            ).len();
            let shown = chars.filter(
                |c: CharGlance| leaves_mark(c) && c.invisible == false,
            ).len();
            hidden > 0 && shown > 0 && 100 * hidden < 30 * (hidden + shown)
        }),
{
    lemma_weight(chars, true, chars.len() as int);
    lemma_weight(chars, false, chars.len() as int);
    assert(chars.take(chars.len() as int) =~= chars);
}

/// Whether a character of the document is one of a font, and neither a tab, a line end nor a
/// space.
pub open spec fn is_of(c: CharGlance, font: usize) -> bool {
    !c.generated && c.font == Some(font) && c.unicode != 9 && c.unicode != 10 && c.unicode != 13
        && c.unicode != 32
}

/// Whether a code point cannot be text.
pub open spec fn is_garbled(u: u32) -> bool {
    u < 32 || 0xE000 <= u <= 0xF8FF || u == 0xFFFE || u == 0xFFFF
}

proof fn lemma_voices(chars: Seq<CharGlance>, font: usize, n: int)
    requires
        0 <= n <= chars.len(),
    ensures
        glyph_decoder::voices(chars, font, n) == chars.take(n).filter(
            |c: CharGlance| is_of(c, font),
        ).len(),
        glyph_decoder::complaints(chars, font, n) == chars.take(n).filter(
            |c: CharGlance| is_of(c, font) && is_garbled(c.unicode),
        ).len(),
    decreases n,
{
    reveal(Seq::filter);
    if n > 0 {
        lemma_voices(chars, font, n - 1);
        assert(chars.take(n).drop_last() =~= chars.take(n - 1));
        assert(chars.take(n).last() == chars[n - 1]);
    } else {
        assert(chars.take(n) =~= seq![]);
    }
}

/// The code points of a font are garbage exactly where it has twenty characters or more, and a
/// tenth of them or more cannot be text.
pub proof fn law_garbage_fonts(chars: Seq<CharGlance>, font: usize)
    ensures
        glyph_decoder::is_garbage(chars, font) <==> ({
            let all = chars.filter(|c: CharGlance| is_of(c, font)).len();
            let bad = chars.filter(
                |c: CharGlance| is_of(c, font) && is_garbled(c.unicode),
            ).len();
            all >= 20 && 10 * bad >= all
        }),
{
    lemma_voices(chars, font, chars.len() as int);
    assert(chars.take(chars.len() as int) =~= chars);
}

/// Whether a text has no control characters.
pub open spec fn is_printable(s: Seq<char>) -> bool {
    forall|i: int| 0 <= i < s.len() ==> !text::is_cc(#[trigger] s[i])
}

proof fn lemma_glyph_text(u: u32)
    ensures
        code_points::glyph_text(u) matches Some(s) ==> is_printable(s) && s.len() > 0,
{
    reveal_strlit("ff");
    reveal_strlit("fi");
    reveal_strlit("fl");
    reveal_strlit("ffi");
    reveal_strlit("ffl");
    reveal_strlit("st");
}

/// The text that is recovered for a glyph has no control characters. It is that of the name,
/// if the name can be trusted, else that of the font program, else that of the outline.
pub proof fn law_recovered_text(g: GlyphFacts, lying: bool)
    ensures
        glyph_decoder::recovered(g, lying) matches Some(s) ==> is_printable(s),
        !lying && g.named is Some && is_printable(g.named->0@) ==> glyph_decoder::recovered(
            g,
            lying,
        ) == Some(g.named->0@),
        (lying || g.named is None) && g.mapped is None && g.drawn is Some && g.drawn->0@.len() > 0
            && is_printable(g.drawn->0@) ==> glyph_decoder::recovered(g, lying) == Some(
            g.drawn->0@,
        ),
        (lying || g.named is None) && g.mapped is Some && g.mapped->0 == g.unicode && !(0xE000
            <= g.unicode <= 0xF8FF) && code_points::glyph_text(g.unicode) is Some
            ==> glyph_decoder::recovered(g, lying) == code_points::glyph_text(g.unicode),
{
    match g.named {
        Some(s) => {
            lemma_control(s@);
        },
        None => {},
    }
    match g.drawn {
        Some(s) => {
            lemma_control(s@);
        },
        None => {},
    }
    match g.mapped {
        Some(u) => {
            lemma_glyph_text(u);
        },
        None => {},
    }
}

proof fn lemma_control(s: Seq<char>)
    ensures
        glyph_decoder::has_control(s) == !is_printable(s),
{
}

/// A character that is good, of a font that is trusted, keeps its text. Any other takes the
/// text that is found for its glyph, unless it is good and one of several letters of that.
pub proof fn law_replacements(g: GlyphFacts, untrusted: bool, found: Option<Seq<char>>)
    ensures
        ({
            let good = !code_points::suspicious_point(g.unicode);
            let r = glyph_decoder::replacement(g, untrusted, found);
            &&& good && !untrusted && !g.map_error ==> r is None
            &&& !good ==> r == found
            &&& (untrusted || g.map_error) && found is Some && found->0.len() <= 1 ==> r == found
            &&& r is Some ==> r == found
        }),
{
}

} // verus!
