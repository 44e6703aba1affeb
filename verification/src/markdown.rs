//! Whole documents as markdown.

use vstd::prelude::*;
use vstd::string::*;
use crate::font_sizes;
use crate::grid;
use crate::numbers;
use crate::page_classify;
use crate::page_headings;
use crate::render;
use crate::repetition;
use crate::text;
use crate::types::{Block, ParsedPage};

verus! {

/// The text of a page that has no lines, between fences.
pub open spec fn fenced(t: Seq<char>) -> Seq<char> {
    "```text\n"@ + (if text::ends_char(t, '\n') {
        t
    } else {
        t.push('\n')
    }) + "```"@
}

/// The markdown of one page. A page without lines falls back on its plain text.
pub open spec fn page_text(
    page: ParsedPage,
    map: Seq<(i32, u8)>,
    header_footer: Set<Seq<char>>,
) -> Seq<char> {
    "<!-- page "@ + numbers::decimal(page.page_number as nat) + " -->\n\n"@ + (
    if page.projected_lines@.len() == 0 {
        fenced(page.text@)
    } else {
        render::markdown(page_classify::page_blocks(page, map, header_footer))
    })
}

/// The markdown of the first `n` pages.
pub open spec fn pages_upto(
    pages: Seq<ParsedPage>,
    map: Seq<(i32, u8)>,
    header_footer: Set<Seq<char>>,
    n: int,
) -> Seq<char>
    decreases n,
{
    if n <= 0 {
        seq![]
    } else if n == 1 {
        page_text(pages[0], map, header_footer)
    } else {
        pages_upto(pages, map, header_footer, n - 1) + "\n\n-----\n\n"@ + page_text(
            pages[n - 1],
            map,
            header_footer,
        )
    }
}

/// The heading sizes of a document and their levels.
pub open spec fn document_map(pages: Seq<ParsedPage>) -> Seq<(i32, u8)> {
    page_headings::heading_map_of(pages, page_headings::body_size_of(pages) as i32)
}

/// Whether the lines of a document and the rules of its pages can be counted.
pub open spec fn countable(pages: Seq<ParsedPage>) -> bool {
    &&& font_sizes::document_fits(pages)
    &&& forall|i: int| 0 <= i < pages.len() ==> grid::rules_fit((#[trigger] pages[i]).graphics@)
}

/// The markdown of a document: its pages in order, each with a marker that names
/// its number, and with rules between them.
pub fn format_markdown(pages: &Vec<ParsedPage>) -> (r: String)
    requires
        countable(pages@),
    ensures
        r@ == pages_upto(
            pages@,
            document_map(pages@),
            repetition::running_texts(pages@),
            pages@.len() as int,
        ),
{
    let header_footer: Vec<String> = repetition::compute_header_footer_set(pages);
    let ghost hv = repetition::string_set(header_footer@);
    let body_size: i32 = page_headings::compute_body_size(pages);
    let map: Vec<(i32, u8)> = page_headings::build_heading_map(pages, body_size);
    let mut out: String = String::new();
    let mut i: usize = 0;
    while i < pages.len()
        invariant
            i <= pages@.len(),
            countable(pages@),
            map@.len() <= font_sizes::MAX_HEADING_LEVELS,
            hv == repetition::string_set(header_footer@),
            out@ == pages_upto(pages@, map@, hv, i as int),
        decreases pages.len() - i,
    {
        let page = &pages[i];
        if i > 0 {
            out.append("\n\n-----\n\n");
        }
        let ghost before = out@;
        let t: String = format_page(page, &map, &header_footer);
        out.append(t.as_str());
        i = i + 1;
        proof {
            assert(out@ == before + page_text(*page, map@, hv));
        }
    }
    out
}

fn format_page(page: &ParsedPage, map: &Vec<(i32, u8)>, header_footer: &Vec<String>) -> (r: String)
    requires
        grid::rules_fit(page.graphics@),
        font_sizes::map_fits(map@),
    ensures
        r@ == page_text(*page, map@, repetition::string_set(header_footer@)),
{
    let mut out: String = String::new();
    out.append("<!-- page ");
    let number: String = numbers::decimal_of(page.page_number as u64);
    out.append(number.as_str());
    out.append(" -->\n\n");
    if page.projected_lines.len() == 0 {
        out.append("```text\n");
        out.append(page.text.as_str());
        if !text::ends_with_char(page.text.as_str(), '\n') {
            out.push('\n');
        }
        out.append("```");
    } else {
        let blocks: Vec<Block> = page_classify::classify_page_with_filters(
            page,
            map,
            header_footer,
        );
        let t: String = render::render_blocks(&blocks);
        out.append(t.as_str());
    }
    proof {
        assert(out@ =~= page_text(*page, map@, repetition::string_set(header_footer@)));
    }
    out
}

/// The markdown of a document begins with that of its first pages, and shows every page.
pub proof fn law_pages_come_in_order(
    pages: Seq<ParsedPage>,
    map: Seq<(i32, u8)>,
    header_footer: Set<Seq<char>>,
    i: int,
    n: int,
)
    requires
        0 <= i < n <= pages.len(),
    ensures
        pages_upto(pages, map, header_footer, i).is_prefix_of(
            pages_upto(pages, map, header_footer, n),
        ),
        text::has_substr(
            pages_upto(pages, map, header_footer, n),
            page_text(pages[i], map, header_footer),
        ),
    decreases n,
{
    let all = pages_upto(pages, map, header_footer, n);
    let last = page_text(pages[n - 1], map, header_footer);
    let before = pages_upto(pages, map, header_footer, n - 1);
    if n == 1 {
        text::lemma_holds_itself(last);
    } else if i == n - 1 {
        text::lemma_holds_itself(last);
        text::lemma_substr_between(before + "\n\n-----\n\n"@, last, seq![], last);
        assert(before + "\n\n-----\n\n"@ + last + seq![] =~= all);
        assert(all.take(before.len() as int) =~= before);
    } else {
        law_pages_come_in_order(pages, map, header_footer, i, n - 1);
        let head = pages_upto(pages, map, header_footer, i);
        let rest = "\n\n-----\n\n"@ + last;
        text::lemma_substr_between(
            seq![],
            before,
            rest,
            page_text(pages[i], map, header_footer),
        );
        assert(seq![] + before + rest =~= all);
        assert(all.take(head.len() as int) =~= before.take(head.len() as int));
    }
}

/// The text of a page without lines is never dropped.
pub proof fn law_plain_text_is_shown(
    page: ParsedPage,
    map: Seq<(i32, u8)>,
    header_footer: Set<Seq<char>>,
)
    requires
        page.projected_lines@.len() == 0,
    ensures
        text::has_substr(page_text(page, map, header_footer), page.text@),
{
    let t = page.text@;
    let head = "<!-- page "@ + numbers::decimal(page.page_number as nat) + " -->\n\n"@
        + "```text\n"@;
    let tail = if text::ends_char(t, '\n') {
        "```"@
    } else {
        seq!['\n'] + "```"@
    };
    text::lemma_holds_itself(t);
    text::lemma_substr_between(head, t, tail, t);
    assert(page_text(page, map, header_footer) =~= head + t + tail);
}

} // verus!
