//! Headings of a page that is read region by region: font sizes, bold lines,
//! structure tags, outline entries, and tables of contents.

use vstd::prelude::*;
use vstd::string::*;
use crate::cells;
use crate::font_sizes;
use crate::font_sizes::{SizeCount, Tally};
use crate::heading_text;
use crate::page_headings;
use crate::paragraphs;
use crate::rows;
use crate::span_text;
use crate::text;
use crate::types;
use crate::types::{OutlineTarget, ParsedPage, ProjectedLine, StructNode, TextItem};

verus! {

/// The largest number of characters in a heading that only bold type marks.
pub const BOLD_HEADING_MAX_CHARS: usize = 80;

/// The largest number of characters in a heading that its font size marks.
pub const HEADING_MAX_TEXT_CHARS: usize = 140;

/// The largest weight among the first `n` entries of a histogram.
pub open spec fn max_weight_upto(table: Seq<SizeCount>, n: int) -> int
    decreases n,
{
    if n <= 0 {
        0
    } else {
        types::max_of(max_weight_upto(table, n - 1), table[n - 1].weight as int)
    }
}

/// The largest size among the first `n` entries with a weight of `least` or
/// more.
pub open spec fn largest_upto(table: Seq<SizeCount>, least: int, n: int) -> int
    decreases n,
{
    if n <= 0 {
        0
    } else if table[n - 1].weight >= least {
        types::max_of(largest_upto(table, least, n - 1), table[n - 1].size as int)
    } else {
        largest_upto(table, least, n - 1)
    }
}

/// The body size of a document: the largest font size that has at least half as
/// many characters as the most frequent one, or 0 without text.
pub open spec fn body_size_of(pages: Seq<ParsedPage>) -> int {
    let table = font_sizes::histogram(Tally::Body, pages);
    let top = max_weight_upto(table, table.len() as int);
    if top == 0 {
        0
    } else {
        largest_upto(table, (top + 1) / 2, table.len() as int)
    }
}

/// The body size of a document: the largest font size that has at least half as
/// many characters as the most frequent one.
pub fn compute_body_size(pages: &Vec<ParsedPage>) -> (r: i32)
    requires
        font_sizes::document_fits(pages@),
    ensures
        r == body_size_of(pages@),
{
    let table: Vec<SizeCount> = font_sizes::size_histogram(Tally::Body, pages);
    let mut top: u128 = 0;
    let mut i: usize = 0;
    while i < table.len()
        invariant
            i <= table@.len(),
            top == max_weight_upto(table@, i as int),
        decreases table.len() - i,
    {
        if table[i].weight > top {
            top = table[i].weight;
        }
        i = i + 1;
    }
    if top == 0 {
        return 0;
    }
    let least: u128 = top / 2 + top % 2;
    let mut size: i32 = 0;
    let mut k: usize = 0;
    while k < table.len()
        invariant
            k <= table@.len(),
            size == largest_upto(table@, least as int, k as int),
        decreases table.len() - k,
    {
        if table[k].weight >= least && table[k].size > size {
            size = table[k].size;
        }
        k = k + 1;
    }
    size
}

/// Whether a size can be a heading size: ten visible characters or more, 8 to
/// 200 in a line on average, and at least half of them alphabetic.
pub open spec fn qualifies(e: SizeCount) -> bool {
    e.weight >= 10 && 8 * e.lines <= e.weight <= 200 * e.lines && 2 * e.alpha >= e.weight
}

fn may_be_heading(e: &SizeCount) -> (r: bool)
    ensures
        r == qualifies(*e),
{
    let full: u128 = e.weight / 200;
    let short: bool = full < e.lines || (full == e.lines && e.weight % 200 == 0);
    let long: bool = e.weight / 8 >= e.lines;
    e.weight >= 10 && short && long && (e.alpha >= e.weight || e.alpha >= e.weight - e.alpha)
}

/// The sizes among the first `n` entries of a histogram that can be heading
/// sizes.
pub open spec fn kept_upto(table: Seq<SizeCount>, n: int) -> Seq<int>
    decreases n,
{
    if n <= 0 {
        seq![]
    } else if qualifies(table[n - 1]) {
        kept_upto(table, n - 1).push(table[n - 1].size as int)
    } else {
        kept_upto(table, n - 1)
    }
}

/// The heading sizes of a document and their levels, the largest size first.
pub open spec fn heading_map_of(pages: Seq<ParsedPage>, body: i32) -> Seq<(i32, u8)> {
    let table = font_sizes::histogram(Tally::Larger { body, strict: true }, pages);
    font_sizes::levels_of(kept_upto(table, table.len() as int))
}

/// The heading sizes of a document and their levels, the largest size first.
pub fn build_heading_map(pages: &Vec<ParsedPage>, body_size: i32) -> (r: Vec<(i32, u8)>)
    requires
        font_sizes::document_fits(pages@),
    ensures
        r@ == heading_map_of(pages@, body_size),
        r@.len() <= font_sizes::MAX_HEADING_LEVELS,
{
    let table: Vec<SizeCount> = font_sizes::size_histogram(
        Tally::Larger { body: body_size, strict: true },
        pages,
    );
    let mut kept: Vec<i32> = Vec::new();
    let mut i: usize = 0;
    proof {
        assert(sizes_of(kept@) =~= seq![]);
    }
    while i < table.len()
        invariant
            i <= table@.len(),
            sizes_of(kept@) == kept_upto(table@, i as int),
        decreases table.len() - i,
    {
        if may_be_heading(&table[i]) {
            let size: i32 = table[i].size;
            proof {
                assert(sizes_of(kept@.push(size)) =~= sizes_of(kept@).push(size as int));
            }
            kept.push(size);
        }
        i = i + 1;
    }
    font_sizes::assign_levels(&kept)
}

spec fn sizes_of(v: Seq<i32>) -> Seq<int> {
    Seq::new(v.len(), |i: int| v[i] as int)
}

// ---------------------------------------------------------------------------
// Bold headings
// ---------------------------------------------------------------------------

/// Whether a full stop and a space stand at `i` in `t`, for the first time.
pub open spec fn first_break(t: Seq<char>, i: int) -> bool {
    text::occurs_at(t, ". "@, i) && forall|j: int| 0 <= j < i ==> !text::occurs_at(t, ". "@, j)
}

/// Whether `t`, whose first sentence ends at `i`, leads into running text: what
/// follows is three words or more and begins with a capital letter, and the line
/// ends in a hyphen or has more than 50 characters. A section number is no sentence.
pub open spec fn runs_in(t: Seq<char>, i: int) -> bool {
    let after = text::trim_of(t.skip(i + 2));
    let words = text::count_words(after, after.len() as int);
    &&& !heading_text::is_section_number(t.take(i))
    &&& after.len() > 0 && text::is_ascii_upper(after[0])
    &&& words >= 3
    &&& text::ends_char(text::trim_end_of(t), '-') || t.len() > 50
}

/// Whether the text of a bold line can be that of a heading.
pub open spec fn heading_shaped(t: Seq<char>) -> bool {
    &&& 0 < t.len() <= BOLD_HEADING_MAX_CHARS
    &&& !heading_text::is_caption(t)
    &&& !heading_text::is_attribution(t)
    &&& !text::ends_char(t, '.')
    &&& forall|i: int| first_break(t, i) ==> !#[trigger] runs_in(t, i)
    &&& !text::is_lower(t[0])
    &&& text::half_alpha(t)
    &&& text::spaced_tokens_from(t, 0, false) < rows::TABLE_MIN_COLUMNS
}

/// Whether a line is a section heading in bold type of the body size, with a
/// paragraph break before it, and with one behind it or another bold line.
pub open spec fn is_bold_heading(
    line: ProjectedLine,
    prev: Option<ProjectedLine>,
    next: Option<ProjectedLine>,
) -> bool {
    &&& heading_shaped(text::trim_of(line.text@))
    &&& span_text::all_runs_bold(line.spans@)
    &&& cells::cells_of(line).len() < rows::TABLE_MIN_COLUMNS
    &&& prev is Some ==> !paragraphs::continues(prev->0, line)
    &&& next is Some ==> !paragraphs::continues(line, next->0) || span_text::all_runs_bold(
        next->0.spans@,
    )
}

fn leads_into_text(t: &str, i: usize) -> (r: bool)
    requires
        text::occurs_at(t@, ". "@, i as int),
    ensures
        r == runs_in(t@, i as int),
{
    proof {
        reveal_strlit(". ");
    }
    let total: usize = t.unicode_len();
    let after = text::trim(text::skip_chars(t, i + 2));
    let upper: bool = match text::first_char(after) {
        Some(c) => text::is_ascii_uppercase(c),
        None => false,
    };
    let words: usize = text::word_count(after);
    let hyphen: bool = text::ends_with_char(text::trim_end(t), '-');
    !heading_text::is_section_number_prefix(text::take_chars(t, i)) && upper && words >= 3
        && (hyphen || total > 50)
}

fn shaped_like_heading(t: &str) -> (r: bool)
    ensures
        r == heading_shaped(t@),
{
    if t.is_empty() || t.unicode_len() > BOLD_HEADING_MAX_CHARS {
        return false;
    }
    if heading_text::is_caption_line(t) || heading_text::is_attribution_line(t)
        || text::ends_with_char(t, '.') {
        return false;
    }
    match text::find_str(t, ". ") {
        Some(i) => {
            proof {
                assert(first_break(t@, i as int));
                assert forall|j: int| first_break(t@, j) implies j == i by {
                    if j < i {
                        assert(!text::occurs_at(t@, ". "@, j));
                    }
                }
            }
            if leads_into_text(t, i) {
                return false;
            }
        },
        None => {
            proof {
                assert forall|j: int| !first_break(t@, j) by {
                    if first_break(t@, j) {
                        assert(text::occurs_at(t@, ". "@, j));
                    }
                }
            }
        },
    }
    if t.get_char(0).is_lowercase() {
        return false;
    }
    text::mostly_alphabetic(t) && text::spaced_tokens(t) < rows::TABLE_MIN_COLUMNS
}

/// Whether a line is a section heading in bold type of the body size.
pub fn looks_like_bold_heading(
    line: &ProjectedLine,
    prev: Option<&ProjectedLine>,
    next: Option<&ProjectedLine>,
) -> (r: bool)
    ensures
        r == is_bold_heading(*line, page_headings::pointed(prev), page_headings::pointed(next)),
{
    if !shaped_like_heading(text::trim(line.text.as_str())) {
        return false;
    }
    if !span_text::line_all_bold(line) {
        return false;
    }
    let cut = cells::split_cells(line);
    proof {
        assert(cells::cell_views(cut@).len() == cut@.len());
    }
    if cut.len() >= rows::TABLE_MIN_COLUMNS {
        return false;
    }
    match prev {
        Some(p) => {
            if paragraphs::continues_paragraph(p, line) {
                return false;
            }
        },
        None => {},
    }
    match next {
        Some(n) => !paragraphs::continues_paragraph(line, n) || span_text::line_all_bold(n),
        None => true,
    }
}

/// Whether `c` may stand in the marker of a numbered heading.
pub open spec fn is_marker_char(c: char) -> bool {
    text::is_digit(c) || c == '.' || c == ')' || c == '('
}

/// Whether a run holds text other than the marker of a numbered heading.
pub open spec fn is_body_run(item: TextItem) -> bool {
    exists|i: int|
        0 <= i < text::trim_of(item.text@).len() && !is_marker_char(
            #[trigger] text::trim_of(item.text@)[i],
        )
}

/// The number of full stops, question marks and exclamation marks among the
/// first `n` characters of `s`.
pub open spec fn count_stops(s: Seq<char>, n: int) -> nat
    decreases n,
{
    if n <= 0 {
        0
    } else {
        count_stops(s, n - 1) + if s[n - 1] == '.' || s[n - 1] == '?' || s[n - 1] == '!' {
            1nat
        } else {
            0nat
        }
    }
}

/// Whether a line, whose text behind a numeric marker is `rest`, is a numbered
/// section heading: short, no caption, not several sentences, all runs behind
/// the marker bold, mostly letters, and with a paragraph break before it.
pub open spec fn is_numbered_bold_heading(
    line: ProjectedLine,
    rest: Seq<char>,
    prev: Option<ProjectedLine>,
) -> bool {
    let t = text::trim_of(rest);
    let spans = line.spans@;
    &&& 0 < t.len() <= BOLD_HEADING_MAX_CHARS
    &&& !heading_text::is_caption(line.text@)
    &&& !(text::ends_char(t, '.') && count_stops(t, t.len() as int) >= 2)
    &&& exists|i: int| 0 <= i < spans.len() && is_body_run(#[trigger] spans[i])
    &&& forall|i: int|
        0 <= i < spans.len() && is_body_run(#[trigger] spans[i]) ==> spans[i].bold && !spans[i].mono
    &&& text::half_alpha(t)
    &&& prev is Some ==> !paragraphs::continues(prev->0, line)
}

fn body_run(item: &TextItem) -> (r: bool)
    ensures
        r == is_body_run(*item),
{
    let cs: Vec<char> = text::chars_of(text::trim(item.text.as_str()));
    let mut i: usize = 0;
    while i < cs.len()
        invariant
            i <= cs@.len(),
            cs@ == text::trim_of(item.text@),
            forall|k: int| 0 <= k < i ==> is_marker_char(#[trigger] cs@[k]),
        decreases cs.len() - i,
    {
        let c: char = cs[i];
        if !(text::is_ascii_digit(c) || c == '.' || c == ')' || c == '(') {
            proof {
                assert(!is_marker_char(text::trim_of(item.text@)[i as int]));
            }
            return true;
        }
        i = i + 1;
    }
    false
}

fn stop_count(s: &str) -> (r: usize)
    ensures
        r == count_stops(s@, s@.len() as int),
{
    let cs: Vec<char> = text::chars_of(s);
    let mut count: usize = 0;
    let mut i: usize = 0;
    while i < cs.len()
        invariant
            i <= cs@.len(),
            count <= i,
            count == count_stops(cs@, i as int),
        decreases cs.len() - i,
    {
        if cs[i] == '.' || cs[i] == '?' || cs[i] == '!' {
            count = count + 1;
        }
        i = i + 1;
    }
    count
}

/// Whether a line, whose text behind a numeric marker is `rest`, is a numbered
/// section heading.
pub fn looks_like_numbered_bold_heading(
    line: &ProjectedLine,
    rest: &str,
    prev: Option<&ProjectedLine>,
) -> (r: bool)
    ensures
        r == is_numbered_bold_heading(*line, rest@, page_headings::pointed(prev)),
{
    let t = text::trim(rest);
    if t.is_empty() || t.unicode_len() > BOLD_HEADING_MAX_CHARS {
        return false;
    }
    if heading_text::is_caption_line(line.text.as_str()) {
        return false;
    }
    if text::ends_with_char(t, '.') && stop_count(t) >= 2 {
        return false;
    }
    let spans: &Vec<TextItem> = &line.spans;
    let mut found: bool = false;
    let mut i: usize = 0;
    while i < spans.len()
        invariant
            i <= spans@.len(),
            spans@ == line.spans@,
            found == exists|k: int| 0 <= k < i && is_body_run(#[trigger] spans@[k]),
            forall|k: int|
                0 <= k < i && is_body_run(#[trigger] spans@[k]) ==> spans@[k].bold
                    && !spans@[k].mono,
        decreases spans.len() - i,
    {
        if body_run(&spans[i]) {
            if spans[i].mono || !spans[i].bold {
                return false;
            }
            proof {
                assert(is_body_run(spans@[i as int]));
            }
            found = true;
        }
        i = i + 1;
    }
    if !found || !text::mostly_alphabetic(t) {
        return false;
    }
    match prev {
        Some(p) => !paragraphs::continues_paragraph(p, line),
        None => true,
    }
}

// ---------------------------------------------------------------------------
// Structure tags and outline entries
// ---------------------------------------------------------------------------

/// The heading level that the first node from `i` on with a heading role gives
/// to the content `mcid`.
pub open spec fn tag_level_from(mcid: i32, nodes: Seq<StructNode>, i: int) -> Option<int>
    decreases nodes.len() - i,
{
    if i < 0 || i >= nodes.len() {
        None
    } else if nodes[i].mcids@.contains(mcid) && heading_text::role_level(nodes[i].role@) is Some {
        heading_text::role_level(nodes[i].role@)
    } else {
        tag_level_from(mcid, nodes, i + 1)
    }
}

/// The heading level that the structure tree gives to a line.
pub open spec fn tag_level(line: ProjectedLine, nodes: Seq<StructNode>) -> Option<int> {
    match line.mcid {
        Some(m) => tag_level_from(m, nodes, 0),
        None => None,
    }
}

/// An optional level as a number.
pub open spec fn level_number(l: Option<u8>) -> Option<int> {
    match l {
        Some(n) => Some(n as int),
        None => None,
    }
}

fn contains_mcid(v: &Vec<i32>, m: i32) -> (r: bool)
    ensures
        r == v@.contains(m),
{
    let mut i: usize = 0;
    while i < v.len()
        invariant
            i <= v@.len(),
            forall|k: int| 0 <= k < i ==> v@[k] != m,
        decreases v.len() - i,
    {
        if v[i] == m {
            return true;
        }
        i = i + 1;
    }
    false
}

/// The heading level that the structure tree gives to a line.
pub fn struct_heading_level(line: &ProjectedLine, struct_nodes: &Vec<StructNode>) -> (r: Option<u8>)
    ensures
        level_number(r) == tag_level(*line, struct_nodes@),
{
    let mcid: i32 = match line.mcid {
        Some(m) => m,
        None => {
            return None;
        },
    };
    let mut i: usize = 0;
    while i < struct_nodes.len()
        invariant
            i <= struct_nodes@.len(),
            line.mcid == Some(mcid),
            tag_level_from(mcid, struct_nodes@, 0) == tag_level_from(
                mcid,
                struct_nodes@,
                i as int,
            ),
        decreases struct_nodes.len() - i,
    {
        if contains_mcid(&struct_nodes[i].mcids, mcid) {
            match heading_text::parse_heading_role(struct_nodes[i].role.as_str()) {
                Some(n) => {
                    return Some(n);
                },
                None => {},
            }
        }
        i = i + 1;
    }
    None
}

/// Whether an outline entry points at the page with the given number. Pages are
/// numbered from one, and indexed from zero.
pub open spec fn points_at(entry: OutlineTarget, page_number: usize) -> bool {
    entry.page_index + 1 == page_number
}

/// Those of the first `n` entries that point at a page.
pub open spec fn entries_on(
    outline: Seq<OutlineTarget>,
    page_number: usize,
    n: int,
) -> Seq<OutlineTarget>
    decreases n,
{
    if n <= 0 {
        seq![]
    } else if points_at(outline[n - 1], page_number) {
        entries_on(outline, page_number, n - 1).push(outline[n - 1])
    } else {
        entries_on(outline, page_number, n - 1)
    }
}

/// The entries of a page all point at it.
pub proof fn lemma_entries_on(outline: Seq<OutlineTarget>, page_number: usize, n: int)
    requires
        0 <= n <= outline.len(),
    ensures
        forall|i: int|
            0 <= i < entries_on(outline, page_number, n).len() ==> points_at(
                #[trigger] entries_on(outline, page_number, n)[i],
                page_number,
            ),
    decreases n,
{
    if n > 0 {
        lemma_entries_on(outline, page_number, n - 1);
        let before = entries_on(outline, page_number, n - 1);
        let after = entries_on(outline, page_number, n);
        assert forall|i: int| 0 <= i < after.len() implies points_at(
            #[trigger] after[i],
            page_number,
        ) by {
            if i < before.len() {
                assert(points_at(before[i], page_number));
            }
        }
    }
}

/// Where all entries point at a page, all of them stay.
pub proof fn lemma_all_entries(outline: Seq<OutlineTarget>, page_number: usize, n: int)
    requires
        0 <= n <= outline.len(),
        forall|i: int| 0 <= i < outline.len() ==> points_at(#[trigger] outline[i], page_number),
    ensures
        entries_on(outline, page_number, n) == outline.take(n),
    decreases n,
{
    if n > 0 {
        lemma_all_entries(outline, page_number, n - 1);
        assert(points_at(outline[n - 1], page_number));
        assert(outline.take(n) =~= outline.take(n - 1).push(outline[n - 1]));
    } else {
        assert(outline.take(n) =~= seq![]);
    }
}

/// The entries of an outline that point at a page.
pub fn page_entries(outline: &Vec<OutlineTarget>, page_number: usize) -> (r: Vec<OutlineTarget>)
    ensures
        r@ == entries_on(outline@, page_number, outline@.len() as int),
{
    let mut out: Vec<OutlineTarget> = Vec::new();
    let mut i: usize = 0;
    while i < outline.len()
        invariant
            i <= outline@.len(),
            out@ == entries_on(outline@, page_number, i as int),
        decreases outline.len() - i,
    {
        let e = &outline[i];
        if page_number > 0 && e.page_index == page_number - 1 {
            out.push(
                OutlineTarget {
                    level: e.level,
                    title: e.title.clone(),
                    page_index: e.page_index,
                    y_pdf: e.y_pdf,
                },
            );
        }
        i = i + 1;
    }
    out
}

/// Whether an outline entry can point at a line by its height: the entry has no
/// height within the page, or one within one and a half line heights.
pub open spec fn near_target(line: ProjectedLine, page_height: int, entry: OutlineTarget) -> bool {
    match entry.y_pdf {
        Some(y) => {
            let top = page_height - y;
            top < 0 || top > page_height || 2 * types::dist(top, line.bbox.y as int) <= 3
                * types::max_of(line.bbox.height as int, 8_000)
        },
        None => true,
    }
}

/// Whether a line with the normalized text `key` is the heading that an outline
/// entry names: one is the beginning of the other, and the line is not much
/// longer than the title.
pub open spec fn matches_title(key: Seq<char>, title: Seq<char>) -> bool {
    let breaks = text::count_sentence_breaks(key, key.len() as int);
    &&& title.len() > 0
    &&& key.len() <= types::max_of(title.len() as int * 3, 120)
    &&& breaks < 2
    &&& !(breaks >= 1 && key.len() > title.len() + 15)
    &&& text::starts(key, title) || text::starts(title, key)
}

/// The level of the first outline entry from `i` on that names a line.
pub open spec fn outline_level_from(
    line: ProjectedLine,
    page_height: int,
    outline: Seq<OutlineTarget>,
    key: Seq<char>,
    i: int,
) -> Option<int>
    decreases outline.len() - i,
{
    if i < 0 || i >= outline.len() {
        None
    } else if near_target(line, page_height, outline[i]) && matches_title(
        key,
        heading_text::outline_key(outline[i].title@),
    ) {
        Some(types::min_of(outline[i].level as int, font_sizes::MAX_HEADING_LEVELS as int))
    } else {
        outline_level_from(line, page_height, outline, key, i + 1)
    }
}

/// The heading level that the outline gives to a line with the text `t`.
pub open spec fn outline_level(
    line: ProjectedLine,
    page_height: int,
    outline: Seq<OutlineTarget>,
    t: Seq<char>,
) -> Option<int> {
    let key = heading_text::outline_key(t);
    if key.len() == 0 {
        None
    } else {
        outline_level_from(line, page_height, outline, key, 0)
    }
}

fn near(line: &ProjectedLine, page_height: i32, entry: &OutlineTarget) -> (r: bool)
    ensures
        r == near_target(*line, page_height as int, *entry),
{
    match entry.y_pdf {
        Some(y) => {
            let top: i64 = page_height as i64 - y as i64;
            let height: i64 = types::max64(line.bbox.height as i64, 8_000);
            top < 0 || top > page_height as i64 || 2 * types::dist64(top, line.bbox.y as i64) <= 3
                * height
        },
        None => true,
    }
}

fn title_matches(key: &str, title: &str) -> (r: bool)
    ensures
        r == matches_title(key@, title@),
{
    if title.is_empty() {
        return false;
    }
    let key_len: usize = key.unicode_len();
    let title_len: usize = title.unicode_len();
    let third: usize = key_len / 3 + (if key_len % 3 == 0 { 0 } else { 1 });
    if key_len > 120 && third > title_len {
        return false;
    }
    let breaks: usize = text::sentence_breaks(key);
    if breaks >= 2 {
        return false;
    }
    if breaks >= 1 && key_len > title_len && key_len - title_len > 15 {
        return false;
    }
    text::starts_with(key, title) || text::starts_with(title, key)
}

/// The heading level that the entries of the outline for the page of a line give to
/// the line with the text `line_text`.
pub fn outline_heading_level(
    line: &ProjectedLine,
    page_height: i32,
    outline: &Vec<OutlineTarget>,
    line_text: &str,
) -> (r: Option<u8>)
    ensures
        level_number(r) == outline_level(*line, page_height as int, outline@, line_text@),
{
    if outline.len() == 0 {
        return None;
    }
    let key: String = heading_text::normalize_outline_text(line_text);
    if key.as_str().is_empty() {
        return None;
    }
    let mut i: usize = 0;
    while i < outline.len()
        invariant
            i <= outline@.len(),
            key@ == heading_text::outline_key(line_text@),
            key@.len() > 0,
            outline_level_from(*line, page_height as int, outline@, key@, 0)
                == outline_level_from(*line, page_height as int, outline@, key@, i as int),
        decreases outline.len() - i,
    {
        let entry = &outline[i];
        let title: String = heading_text::normalize_outline_text(entry.title.as_str());
        if near(line, page_height, entry) && title_matches(key.as_str(), title.as_str()) {
            return Some(if entry.level > 6 { 6 } else { entry.level });
        }
        i = i + 1;
    }
    None
}

// ---------------------------------------------------------------------------
// Pages with a table of contents
// ---------------------------------------------------------------------------

/// The decimal page numbers of the entries among the first `n` lines.
pub open spec fn toc_numbers_upto(lines: Seq<ProjectedLine>, n: int) -> Seq<int>
    decreases n,
{
    if n <= 0 {
        seq![]
    } else {
        let before = toc_numbers_upto(lines, n - 1);
        match heading_text::toc_number(lines[n - 1].text@) {
            Some(v) => if font_sizes::is_rotated(lines[n - 1]) {
                before
            } else {
                before.push(v)
            },
            None => before,
        }
    }
}

/// How many of the first `n` lines look like an entry of a table of contents.
pub open spec fn toc_entries_upto(lines: Seq<ProjectedLine>, n: int) -> nat
    decreases n,
{
    if n <= 0 {
        0
    } else {
        toc_entries_upto(lines, n - 1) + if !font_sizes::is_rotated(lines[n - 1])
            && heading_text::is_toc_entry(lines[n - 1].text@) {
            1nat
        } else {
            0nat
        }
    }
}

/// How many of the first `n` numbers are no smaller than the one before.
pub open spec fn ascents_upto(v: Seq<int>, n: int) -> nat
    decreases n,
{
    if n <= 1 {
        0
    } else {
        ascents_upto(v, n - 1) + if v[n - 1] >= v[n - 2] {
            1nat
        } else {
            0nat
        }
    }
}

/// Whether the lines of a page are a table of contents: four entries or more,
/// three of them or more with a decimal page number, and 70 percent of the
/// numbers no smaller than the one before.
pub open spec fn is_toc(lines: Seq<ProjectedLine>) -> bool {
    let n = lines.len() as int;
    let v = toc_numbers_upto(lines, n);
    &&& toc_entries_upto(lines, n) >= 4
    &&& v.len() >= 3
    &&& 10 * ascents_upto(v, v.len() as int) >= 7 * (v.len() - 1)
}

/// Whether a page is a table of contents.
pub fn page_is_toc(page: &ParsedPage) -> (r: bool)
    ensures
        r == is_toc(page.projected_lines@),
{
    let lines = &page.projected_lines;
    let ghost n = lines@.len() as int;
    let mut found: u128 = 0;
    let mut entries: u128 = 0;
    let mut ascents: u128 = 0;
    let mut last: i32 = 0;
    let mut i: usize = 0;
    while i < lines.len()
        invariant
            i <= lines@.len(),
            ascents <= found <= entries <= i,
            found == toc_numbers_upto(lines@, i as int).len(),
            found > 0 ==> last == toc_numbers_upto(lines@, i as int).last(),
            entries == toc_entries_upto(lines@, i as int),
            ascents == ascents_upto(toc_numbers_upto(lines@, i as int), found as int),
        decreases lines.len() - i,
    {
        let ghost before = toc_numbers_upto(lines@, i as int);
        if !font_sizes::is_rotated_line(&lines[i]) {
            match heading_text::toc_entry_arabic_number(lines[i].text.as_str()) {
                Some(v) => {
                    proof {
                        lemma_ascents(before, before.push(v as int), found as int);
                    }
                    if found > 0 && v >= last {
                        ascents = ascents + 1;
                    }
                    last = v;
                    found = found + 1;
                    entries = entries + 1;
                },
                None => {
                    if heading_text::looks_like_toc_entry(lines[i].text.as_str()) {
                        entries = entries + 1;
                    }
                },
            }
        }
        i = i + 1;
    }
    entries >= 4 && found >= 3 && 10 * ascents >= 7 * (found - 1)
}

proof fn lemma_ascents(a: Seq<int>, b: Seq<int>, n: int)
    requires
        n <= a.len(),
        n <= b.len(),
        forall|k: int| 0 <= k < n ==> a[k] == b[k],
    ensures
        ascents_upto(a, n) == ascents_upto(b, n),
    decreases n,
{
    if n > 1 {
        lemma_ascents(a, b, n - 1);
    }
}

} // verus!
