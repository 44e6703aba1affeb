//! Paragraphs: which lines belong together, and how their texts are joined.

use vstd::prelude::*;
use vstd::string::*;
use crate::font_sizes;
use crate::rows;
use crate::span_text;
use crate::text;
use crate::types;
use crate::types::{Anchor, Block, BlockView, ProjectedLine};

verus! {

/// Font sizes this close to each other are the same within a paragraph.
pub const FONT_SIZE_PARAGRAPH_TOLERANCE: i64 = 2_500;

/// Indents this close to each other are the same.
pub const INDENT_TOLERANCE: i64 = 6_000;

/// Whether `c` ends a sentence or closes a quotation or a bracket.
pub open spec fn is_closing(c: char) -> bool {
    c == '.' || c == '!' || c == '?' || c == ':' || c == ';' || c == '”' || c == '"' || c == ')' || c
        == ']' || c == '。' || c == '』' || c == '」'
}

/// Whether `s` breaks off in the middle of a sentence.
pub open spec fn ends_open(s: Seq<char>) -> bool {
    let t = text::trim_end_of(s);
    t.len() == 0 || !is_closing(t.last())
}

/// Whether the first visible character of `s` is a lowercase letter.
pub open spec fn starts_lower(s: Seq<char>) -> bool {
    let t = text::trim_start_of(s);
    t.len() > 0 && text::is_lower(t[0])
}

/// Whether `cur` continues the paragraph that `prev` belongs to.
///
/// Both or neither must be centred, and their font sizes alike. Into another
/// region a paragraph continues only in the middle of a sentence and with a
/// lowercase letter. Within a region a left-aligned line must not be indented
/// against the one before it, and the gap must be at most one and a half line
/// heights.
pub open spec fn continues(prev: ProjectedLine, cur: ProjectedLine) -> bool {
    if (prev.anchor == Anchor::Center) != (cur.anchor == Anchor::Center) {
        false
    } else if types::dist(prev.dominant_font_size as int, cur.dominant_font_size as int)
        > FONT_SIZE_PARAGRAPH_TOLERANCE {
        false
    } else if prev.region_path@ != cur.region_path@ {
        ends_open(prev.text@) && starts_lower(cur.text@)
    } else if cur.anchor == Anchor::Left && cur.indent_x > prev.indent_x + INDENT_TOLERANCE {
        false
    } else {
        2 * rows::gap_below(prev, cur) <= 3 * rows::row_height(prev, cur)
    }
}

fn closing(c: char) -> (r: bool)
    ensures
        r == is_closing(c),
{
    c == '.' || c == '!' || c == '?' || c == ':' || c == ';' || c == '”' || c == '"' || c == ')' || c
        == ']' || c == '。' || c == '』' || c == '」'
}

/// Whether `s` breaks off in the middle of a sentence.
pub fn breaks_off(s: &str) -> (r: bool)
    ensures
        r == ends_open(s@),
{
    let t = text::trim_end(s);
    let n: usize = t.unicode_len();
    n == 0 || !closing(t.get_char(n - 1))
}

/// Whether the first visible character of `s` is a lowercase letter.
pub fn begins_lowercase(s: &str) -> (r: bool)
    ensures
        r == starts_lower(s@),
{
    match text::first_char(text::trim_start(s)) {
        Some(c) => c.is_lowercase(),
        None => false,
    }
}

/// Whether two region paths are the same.
pub fn same_region(a: &Vec<u32>, b: &Vec<u32>) -> (r: bool)
    ensures
        r == (a@ == b@),
{
    if a.len() != b.len() {
        return false;
    }
    let mut i: usize = 0;
    while i < a.len()
        invariant
            i <= a@.len() == b@.len(),
            forall|k: int| 0 <= k < i ==> a@[k] == b@[k],
        decreases a.len() - i,
    {
        if a[i] != b[i] {
            return false;
        }
        i = i + 1;
    }
    proof {
        assert(a@ =~= b@);
    }
    true
}

/// Whether `cur` continues the paragraph that `prev` belongs to.
pub fn continues_paragraph(prev: &ProjectedLine, cur: &ProjectedLine) -> (r: bool)
    ensures
        r == continues(*prev, *cur),
{
    if (prev.anchor == Anchor::Center) != (cur.anchor == Anchor::Center) {
        return false;
    }
    if types::dist64(prev.dominant_font_size as i64, cur.dominant_font_size as i64)
        > FONT_SIZE_PARAGRAPH_TOLERANCE {
        return false;
    }
    if !same_region(&prev.region_path, &cur.region_path) {
        return breaks_off(prev.text.as_str()) && begins_lowercase(cur.text.as_str());
    }
    if cur.anchor == Anchor::Left && cur.indent_x as i64 > prev.indent_x as i64
        + INDENT_TOLERANCE {
        return false;
    }
    2 * rows::gap_between(prev, cur) <= 3 * rows::taller(prev, cur)
}

/// Whether `cur` continues the heading that `prev` belongs to: it is in the same
/// region, in the same font size and as bold, and the gap is at most one and a
/// half line heights.
pub open spec fn heading_continues(prev: ProjectedLine, cur: ProjectedLine) -> bool {
    &&& prev.region_path@ == cur.region_path@
    &&& types::dist(prev.dominant_font_size as int, cur.dominant_font_size as int)
        < font_sizes::FONT_SIZE_HEADING_TOLERANCE
    &&& span_text::all_runs_bold(prev.spans@) == span_text::all_runs_bold(cur.spans@)
    &&& 2 * rows::gap_below(prev, cur) <= 3 * rows::row_height(prev, cur)
}

/// Whether `cur` continues the heading that `prev` belongs to.
pub fn continues_heading(prev: &ProjectedLine, cur: &ProjectedLine) -> (r: bool)
    ensures
        r == heading_continues(*prev, *cur),
{
    same_region(&prev.region_path, &cur.region_path) && types::dist64(
        prev.dominant_font_size as i64,
        cur.dominant_font_size as i64,
    ) < font_sizes::FONT_SIZE_HEADING_TOLERANCE && span_text::line_all_bold(prev)
        == span_text::line_all_bold(cur) && 2 * rows::gap_between(prev, cur) <= 3 * rows::taller(
        prev,
        cur,
    )
}

// ---------------------------------------------------------------------------
// Joining lines
// ---------------------------------------------------------------------------

/// Append a line of plain text to a paragraph: a broken word is mended, else a
/// space joins the two. A blank line changes nothing.
pub fn append_paragraph_line(accum: &mut String, next: &str)
    ensures
        final(accum)@ == span_text::continued(
            old(accum)@,
            next@,
            text::collapse_of(next@),
        ),
{
    let collapsed: String = text::collapse_whitespace(next);
    span_text::append_inline_continuation(accum, next, collapsed.as_str());
}

/// A paragraph being read: its plain text, its rendered text, its last line by
/// index, and the bold and italic flags that all its lines share.
pub struct ParaAccum {
    pub raw: String,
    pub inline_text: String,
    pub last: usize,
    pub uniform: Option<(bool, bool)>,
}

/// The contents of a `ParaAccum`.
#[verifier::ext_equal]
pub struct ParaView {
    pub raw: Seq<char>,
    pub inline_text: Seq<char>,
    pub last: int,
    pub uniform: Option<(bool, bool)>,
}

impl View for ParaAccum {
    type V = ParaView;

    open spec fn view(&self) -> ParaView {
        ParaView {
            raw: self.raw@,
            inline_text: self.inline_text@,
            last: self.last as int,
            uniform: self.uniform,
        }
    }
}

/// The bold and italic flags that all visible runs of a line share.
pub open spec fn line_flags(line: ProjectedLine) -> Option<(bool, bool)> {
    match span_text::uniform_style(line.spans@) {
        Some(s) => Some((s.bold, s.italic)),
        None => None,
    }
}

/// The paragraph that begins with line `i`.
pub open spec fn paragraph_of(lines: Seq<ProjectedLine>, i: int) -> ParaView {
    ParaView {
        raw: text::collapse_of(text::trim_of(lines[i].text@)),
        inline_text: span_text::inline_text(lines[i]),
        last: i,
        uniform: line_flags(lines[i]),
    }
}

/// A paragraph continued by line `i`. A word broken with a hyphen is mended in
/// the plain text; in the rendered text only where the hyphen is not inside of
/// an emphasis. The paragraph keeps its flags while all lines share them.
pub open spec fn extended(p: ParaView, lines: Seq<ProjectedLine>, i: int) -> ParaView {
    let next = paragraph_of(lines, i);
    if next.raw.len() == 0 {
        p
    } else if p.raw.len() == 0 {
        ParaView {
            raw: next.raw,
            inline_text: p.inline_text + next.inline_text,
            last: i,
            uniform: next.uniform,
        }
    } else {
        let mend = span_text::mends_hyphen(p.raw, next.raw);
        ParaView {
            raw: if mend {
                p.raw.drop_last() + next.raw
            } else {
                p.raw.push(' ') + next.raw
            },
            inline_text: if mend && text::ends_char(p.inline_text, '-') {
                p.inline_text.drop_last() + next.inline_text
            } else {
                p.inline_text.push(' ') + next.inline_text
            },
            last: i,
            uniform: if p.uniform is Some && next.uniform == p.uniform {
                p.uniform
            } else {
                None
            },
        }
    }
}

/// The block that a paragraph makes: its plain text with the flags that all its
/// lines share, or else its rendered text.
pub open spec fn paragraph_block(p: ParaView) -> BlockView {
    match p.uniform {
        Some(f) => BlockView::Paragraph {
            text: span_text::escaped(p.raw),
            bold: f.0,
            italic: f.1,
        },
        None => BlockView::Paragraph { text: p.inline_text, bold: false, italic: false },
    }
}

/// The bold and italic flags that all visible runs of a line share.
pub fn uniform_flags(line: &ProjectedLine) -> (r: Option<(bool, bool)>)
    ensures
        r == line_flags(*line),
{
    match span_text::line_uniform_style(line) {
        Some(s) => Some((s.bold, s.italic)),
        None => None,
    }
}

/// The paragraph that begins with line `i`.
pub fn start_paragraph(lines: &Vec<ProjectedLine>, i: usize) -> (r: ParaAccum)
    requires
        i < lines@.len(),
    ensures
        r@ == paragraph_of(lines@, i as int),
{
    let line = &lines[i];
    ParaAccum {
        raw: text::collapse_whitespace(text::trim(line.text.as_str())),
        inline_text: span_text::render_line_inline(line),
        last: i,
        uniform: uniform_flags(line),
    }
}

/// Whether two sets of flags are known and the same.
fn same_flags(a: &Option<(bool, bool)>, b: &Option<(bool, bool)>) -> (r: bool)
    ensures
        r == (*a is Some && *b == *a),
{
    match a {
        Some(x) => match b {
            Some(y) => x.0 == y.0 && x.1 == y.1,
            None => false,
        },
        None => false,
    }
}

/// Append line `i` to a paragraph.
pub fn append_to_paragraph(accum: &mut ParaAccum, lines: &Vec<ProjectedLine>, i: usize)
    requires
        i < lines@.len(),
    ensures
        final(accum)@ == extended(old(accum)@, lines@, i as int),
{
    let next: ParaAccum = start_paragraph(lines, i);
    if next.raw.as_str().is_empty() {
        return ;
    }
    if accum.raw.as_str().is_empty() {
        accum.raw = next.raw;
        accum.inline_text.append(next.inline_text.as_str());
        accum.uniform = next.uniform;
        accum.last = i;
        return ;
    }
    if span_text::should_dehyphenate(accum.raw.as_str(), next.raw.as_str()) {
        let _ = accum.raw.pop();
        accum.raw.append(next.raw.as_str());
        if text::ends_with_char(accum.inline_text.as_str(), '-') {
            let _ = accum.inline_text.pop();
            accum.inline_text.append(next.inline_text.as_str());
        } else {
            accum.inline_text.push(' ');
            accum.inline_text.append(next.inline_text.as_str());
        }
    } else {
        accum.raw.push(' ');
        accum.raw.append(next.raw.as_str());
        accum.inline_text.push(' ');
        accum.inline_text.append(next.inline_text.as_str());
    }
    if !same_flags(&accum.uniform, &next.uniform) {
        accum.uniform = None;
    }
    accum.last = i;
}

/// The block that a paragraph makes.
pub fn paragraph_from_accum(accum: ParaAccum) -> (r: Block)
    ensures
        r@ == paragraph_block(accum@),
{
    match accum.uniform {
        Some(f) => Block::Paragraph {
            text: span_text::escape_inline(accum.raw.as_str()),
            bold: f.0,
            italic: f.1,
        },
        None => Block::Paragraph { text: accum.inline_text, bold: false, italic: false },
    }
}

} // verus!
