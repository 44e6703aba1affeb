//! Headings of a page that is read as one column of lines.

use vstd::prelude::*;
use vstd::string::*;
use crate::cells;
use crate::font_sizes;
use crate::font_sizes::{SizeCount, Tally};
use crate::paragraphs;
use crate::rows;
use crate::span_text;
use crate::text;
use crate::types::{ParsedPage, ProjectedLine};

verus! {

/// The largest number of characters in a heading that only bold type marks.
pub const BOLD_HEADING_MAX_CHARS: usize = 80;

/// The entry with the largest weight among the first `n`, the first one of equal
/// ones.
pub open spec fn heaviest_upto(table: Seq<SizeCount>, n: int) -> Option<SizeCount>
    decreases n,
{
    if n <= 0 {
        None
    } else {
        match heaviest_upto(table, n - 1) {
            Some(e) => if table[n - 1].weight > e.weight {
                Some(table[n - 1])
            } else {
                Some(e)
            },
            None => Some(table[n - 1]),
        }
    }
}

/// The body size of a document: the font size of most of its characters, or 0
/// without text.
pub open spec fn body_size_of(pages: Seq<ParsedPage>) -> int {
    let table = font_sizes::histogram(Tally::Body, pages);
    match heaviest_upto(table, table.len() as int) {
        Some(e) => e.size as int,
        None => 0,
    }
}

/// The body size of a document: the font size of most of its characters.
pub fn compute_body_size(pages: &Vec<ParsedPage>) -> (r: i32)
    requires
        font_sizes::document_fits(pages@),
    ensures
        r == body_size_of(pages@),
{
    let table: Vec<SizeCount> = font_sizes::size_histogram(Tally::Body, pages);
    let mut best: Option<SizeCount> = None;
    let mut i: usize = 0;
    while i < table.len()
        invariant
            i <= table@.len(),
            best == heaviest_upto(table@, i as int),
        decreases table.len() - i,
    {
        best = match best {
            Some(e) => if table[i].weight > e.weight {
                Some(table[i])
            } else {
                Some(e)
            },
            None => Some(table[i]),
        };
        i = i + 1;
    }
    match best {
        Some(e) => e.size,
        None => 0,
    }
}

/// Whether a size can be a heading size: 25 visible characters or more, at most
/// 200 in a line on average, and at least half of them alphabetic.
pub open spec fn qualifies(e: SizeCount) -> bool {
    e.weight >= 25 && e.weight <= 200 * e.lines && 2 * e.alpha >= e.weight
}

fn may_be_heading(e: &SizeCount) -> (r: bool)
    ensures
        r == qualifies(*e),
{
    let full: u128 = e.weight / 200;
    let short: bool = full < e.lines || (full == e.lines && e.weight % 200 == 0);
    e.weight >= 25 && short && (e.alpha >= e.weight || e.alpha >= e.weight - e.alpha)
}

/// The sizes among the first `n` entries of a histogram that can be heading
/// sizes.
pub open spec fn kept_upto(table: Seq<SizeCount>, n: int) -> Seq<int>
    decreases n,
{
    if n <= 0 {
        seq![]
    } else if qualifies(table[n - 1]) {
        kept_upto(table, n - 1).push(table[n - 1].size as int)
    } else {
        kept_upto(table, n - 1)
    }
}

/// The heading sizes of a document and their levels, the largest size first.
pub open spec fn heading_map_of(pages: Seq<ParsedPage>, body: i32) -> Seq<(i32, u8)> {
    let table = font_sizes::histogram(Tally::Larger { body, strict: false }, pages);
    font_sizes::levels_of(kept_upto(table, table.len() as int))
}

/// The heading sizes of a document and their levels, the largest size first.
pub fn build_heading_map(pages: &Vec<ParsedPage>, body_size: i32) -> (r: Vec<(i32, u8)>)
    requires
        font_sizes::document_fits(pages@),
    ensures
        r@ == heading_map_of(pages@, body_size),
        r@.len() <= font_sizes::MAX_HEADING_LEVELS,
{
    let table: Vec<SizeCount> = font_sizes::size_histogram(
        Tally::Larger { body: body_size, strict: false },
        pages,
    );
    let mut kept: Vec<i32> = Vec::new();
    let mut i: usize = 0;
    proof {
        assert(sizes_of(kept@) =~= seq![]);
    }
    while i < table.len()
        invariant
            i <= table@.len(),
            sizes_of(kept@) == kept_upto(table@, i as int),
        decreases table.len() - i,
    {
        if may_be_heading(&table[i]) {
            let size: i32 = table[i].size;
            proof {
                assert(sizes_of(kept@.push(size)) =~= sizes_of(kept@).push(size as int));
            }
            kept.push(size);
        }
        i = i + 1;
    }
    font_sizes::assign_levels(&kept)
}

spec fn sizes_of(v: Seq<i32>) -> Seq<int> {
    Seq::new(v.len(), |i: int| v[i] as int)
}

/// Whether a line is a section heading in bold type of the body size: all of one
/// bold style that is not monospaced, at most 80 characters, mostly letters, not
/// shaped like a row of a table, and with a paragraph break before and behind.
pub open spec fn is_bold_heading(
    line: ProjectedLine,
    prev: Option<ProjectedLine>,
    next: Option<ProjectedLine>,
) -> bool {
    let t = text::trim_of(line.text@);
    let style = span_text::uniform_style(line.spans@);
    &&& 0 < t.len() <= BOLD_HEADING_MAX_CHARS
    &&& style is Some && style->0.bold && !style->0.mono
    &&& text::half_alpha(t)
    &&& cells::cells_of(line).len() < rows::TABLE_MIN_COLUMNS
    &&& text::spaced_tokens_from(t, 0, false) < rows::TABLE_MIN_COLUMNS
    &&& prev is Some ==> !paragraphs::continues(prev->0, line)
    &&& next is Some ==> !paragraphs::continues(line, next->0)
}

/// The line that a reference points to, if there is one.
pub open spec fn pointed(l: Option<&ProjectedLine>) -> Option<ProjectedLine> {
    match l {
        Some(x) => Some(*x),
        None => None,
    }
}

/// Whether a line is a section heading in bold type of the body size.
pub fn looks_like_bold_heading(
    line: &ProjectedLine,
    prev: Option<&ProjectedLine>,
    next: Option<&ProjectedLine>,
) -> (r: bool)
    ensures
        r == is_bold_heading(*line, pointed(prev), pointed(next)),
{
    let t = text::trim(line.text.as_str());
    if t.is_empty() || t.unicode_len() > BOLD_HEADING_MAX_CHARS {
        return false;
    }
    match span_text::line_uniform_style(line) {
        Some(s) => {
            if !s.bold || s.mono {
                return false;
            }
        },
        None => {
            return false;
        },
    }
    if !text::mostly_alphabetic(t) {
        return false;
    }
    let cut = cells::split_cells(line);
    proof {
        assert(cells::cell_views(cut@).len() == cut@.len());
    }
    if cut.len() >= rows::TABLE_MIN_COLUMNS || text::spaced_tokens(t) >= rows::TABLE_MIN_COLUMNS {
        return false;
    }
    match prev {
        Some(p) => {
            if paragraphs::continues_paragraph(p, line) {
                return false;
            }
        },
        None => {},
    }
    match next {
        Some(n) => !paragraphs::continues_paragraph(line, n),
        None => true,
    }
}

} // verus!
