//! Reading a page as one column of lines: headings, paragraphs, lists, code,
//! tables and rules.

use vstd::prelude::*;
use vstd::string::*;
use crate::font_sizes;
use crate::grid;
use crate::hr;
use crate::lists;
use crate::page_headings;
use crate::page_ruled;
use crate::page_tables;
use crate::reader;
use crate::reader::{Interruption, InterruptionView, Reader, ReaderView};
use crate::repetition;
use crate::rows;
use crate::rows::{RunView, TableRun};
use crate::sort;
use crate::text;
use crate::types;
use crate::types::{Block, BlockView, ParsedPage, ProjectedLine};

verus! {

/// The first `n` lines of a page without its running headers and footers.
pub open spec fn kept_upto(page: ParsedPage, header_footer: Set<Seq<char>>, n: int) -> Seq<
    ProjectedLine,
>
    decreases n,
{
    if n <= 0 {
        seq![]
    } else if repetition::is_running_line(page.projected_lines@[n - 1], page, header_footer) {
        kept_upto(page, header_footer, n - 1)
    } else {
        kept_upto(page, header_footer, n - 1).push(page.projected_lines@[n - 1])
    }
}

/// The lines of a page without its running headers and footers.
pub open spec fn kept_lines(page: ParsedPage, header_footer: Set<Seq<char>>) -> Seq<
    ProjectedLine,
> {
    kept_upto(page, header_footer, page.projected_lines@.len() as int)
}

/// The lines of a page without its running headers and footers.
pub fn drop_running_lines(page: &ParsedPage, header_footer: &Vec<String>) -> (r: Vec<ProjectedLine>)
    ensures
        r@ == kept_lines(*page, repetition::string_set(header_footer@)),
        r@.len() <= page.projected_lines@.len(),
{
    let mut out: Vec<ProjectedLine> = Vec::new();
    let mut i: usize = 0;
    while i < page.projected_lines.len()
        invariant
            i <= page.projected_lines@.len(),
            out@ == kept_upto(*page, repetition::string_set(header_footer@), i as int),
            out@.len() <= i,
        decreases page.projected_lines.len() - i,
    {
        let line = &page.projected_lines[i];
        if !repetition::is_header_or_footer(line, page, header_footer) {
            out.push(types::clone_line(line));
        }
        i = i + 1;
    }
    out
}

/// The dividing rules of a page as interruptions of its text.
pub open spec fn rule_stops(ys: Seq<int>) -> Seq<InterruptionView> {
    Seq::new(ys.len(), |i: int| InterruptionView { y: ys[i], block: BlockView::HorizontalRule })
}

/// The dividing rules of a page as interruptions of its text.
pub fn rules_as_stops(page: &ParsedPage) -> (r: Vec<Interruption>)
    ensures
        reader::interruption_views(r@) == rule_stops(hr::rules(*page)),
        reader::stops_in_reach(reader::interruption_views(r@)),
{
    let ys: Vec<i64> = hr::detect_horizontal_rules(page);
    let ghost want = hr::rules(*page);
    let mut out: Vec<Interruption> = Vec::new();
    let mut i: usize = 0;
    while i < ys.len()
        invariant
            i <= ys@.len(),
            want == sort::ints(ys@),
            out@.len() == i,
            forall|k: int| 0 <= k < ys@.len() ==> crate::cells::in_reach(#[trigger] ys@[k] as int),
            forall|k: int|
                0 <= k < i ==> (#[trigger] out@[k])@.y == want[k] && out@[k]@.block
                    == BlockView::HorizontalRule && crate::cells::in_reach(out@[k]@.y),
        decreases ys.len() - i,
    {
        proof {
            assert(want[i as int] == ys@[i as int]);
        }
        out.push(Interruption { y: ys[i], block: Block::HorizontalRule });
        i = i + 1;
    }
    proof {
        assert forall|k: int| 0 <= k < out@.len() implies #[trigger] reader::interruption_views(
            out@,
        )[k] == rule_stops(want)[k] by {
            assert(out@[k]@.y == want[k]);
        }
        assert(reader::interruption_views(out@) =~= rule_stops(want));
    }
    out
}

/// The state after line `i`, which belongs to no table.
///
/// A blank or rotated line changes nothing. A monospaced line is code. A line in
/// a heading size is a heading, a line with a list marker an item. A line may
/// continue the last item, be a bold heading, or else is running text.
pub open spec fn read_line(
    s: ReaderView,
    lines: Seq<ProjectedLine>,
    i: int,
    map: Seq<(i32, u8)>,
) -> ReaderView {
    let line = lines[i];
    let t = text::trim_of(line.text@);
    if t.len() == 0 || font_sizes::is_rotated(line) {
        s
    } else if line.all_mono {
        reader::with_code_line(s, line)
    } else {
        let u = reader::flushed_code(s);
        match font_sizes::level_from(line.dominant_font_size as int, map, 0) {
            Some(level) => reader::with_heading(u, level, t),
            None => match lists::list_marker(t) {
                Some(m) => reader::with_item(u, lines, i, m),
                None => if reader::continues_item(u, lines, i) {
                    reader::with_item_line(u, lines, i)
                } else if page_headings::is_bold_heading(
                    line,
                    reader::line_before(u, lines),
                    reader::line_behind(lines, i),
                ) {
                    reader::with_heading(u, font_sizes::next_level(map.len() as int), t)
                } else {
                    reader::with_text_line(u, lines, i)
                },
            },
        }
    }
}

/// The state after the lines from `i` on, with the tables from `k` on.
pub open spec fn read_from(
    lines: Seq<ProjectedLine>,
    map: Seq<(i32, u8)>,
    runs: Seq<RunView>,
    stops: Seq<InterruptionView>,
    s: ReaderView,
    k: int,
    i: int,
) -> ReaderView
    decreases lines.len() - i,
{
    if i < 0 || i >= lines.len() {
        s
    } else if 0 <= k < runs.len() && runs[k].start == i && i < runs[k].end <= lines.len() {
        read_from(
            lines,
            map,
            runs,
            stops,
            reader::with_table(s, lines, runs[k], stops),
            k + 1,
            runs[k].end,
        )
    } else {
        let u = reader::interrupted(s, stops, Some(lines[i].bbox.y as int));
        read_from(lines, map, runs, stops, read_line(u, lines, i, map), k, i + 1)
    }
}

/// The tables of a page, those drawn with rules and those without.
pub open spec fn tables_of(page: ParsedPage, lines: Seq<ProjectedLine>) -> Seq<RunView> {
    page_ruled::merged_runs(
        page_ruled::ruled_tables(
            lines,
            page.graphics@,
            page.page_width as int,
            page.page_height as int,
        ),
        page_tables::tables_from(lines, 0, seq![]),
    )
}

/// The blocks of a page, given its heading sizes and the running headers and
/// footers of the document.
pub open spec fn page_blocks(
    page: ParsedPage,
    map: Seq<(i32, u8)>,
    header_footer: Set<Seq<char>>,
) -> Seq<BlockView> {
    let lines = kept_lines(page, header_footer);
    let runs = tables_of(page, lines);
    let all = rule_stops(hr::rules(page));
    let stops = reader::outside_tables(all, lines, runs, all.len() as int);
    reader::finished(read_from(lines, map, runs, stops, reader::fresh(), 0, 0), stops)
}

/// Read line `i`, which belongs to no table.
fn classify_line(
    s: &mut Reader,
    lines: &Vec<ProjectedLine>,
    i: usize,
    map: &Vec<(i32, u8)>,
)
    requires
        i < lines@.len(),
        reader::reads_within(old(s)@, lines@.len() as int),
        font_sizes::map_fits(map@),
    ensures
        final(s)@ == read_line(old(s)@, lines@, i as int, map@),
        reader::reads_within(final(s)@, lines@.len() as int),
{
    let line = &lines[i];
    let t = text::trim(line.text.as_str());
    if t.is_empty() || font_sizes::is_rotated_line(line) {
        return ;
    }
    if line.all_mono {
        s.push_code_line(line);
        return ;
    }
    s.flush_code();
    match font_sizes::heading_level_for(line.dominant_font_size, map) {
        Some(level) => {
            s.push_heading(level, t);
            return ;
        },
        None => {},
    }
    match lists::parse_list_marker(t) {
        Some(m) => {
            s.push_item(lines, i, m.0, m.1, m.2);
            return ;
        },
        None => {},
    }
    if s.try_continue_item(lines, i) {
        return ;
    }
    let prev: Option<&ProjectedLine> = match s.previous_line() {
        Some(k) => Some(&lines[k]),
        None => None,
    };
    let next: Option<&ProjectedLine> = if lines.len() - i > 1 {
        Some(&lines[i + 1])
    } else {
        None
    };
    if page_headings::looks_like_bold_heading(line, prev, next) {
        s.push_heading(font_sizes::level_below(map), t);
        return ;
    }
    s.push_text_line(lines, i);
}

/// The blocks of a page.
pub fn classify_page(page: &ParsedPage, heading_map: &Vec<(i32, u8)>) -> (r: Vec<Block>)
    requires
        grid::rules_fit(page.graphics@),
        font_sizes::map_fits(heading_map@),
    ensures
        types::block_views(r@) == page_blocks(*page, heading_map@, Set::empty()),
{
    let none: Vec<String> = Vec::new();
    proof {
        assert(repetition::string_set(none@) =~= Set::empty());
    }
    classify_page_with_filters(page, heading_map, &none)
}

/// The blocks of a page without the running headers and footers of the document.
pub fn classify_page_with_filters(
    page: &ParsedPage,
    heading_map: &Vec<(i32, u8)>,
    header_footer: &Vec<String>,
) -> (r: Vec<Block>)
    requires
        grid::rules_fit(page.graphics@),
        font_sizes::map_fits(heading_map@),
    ensures
        types::block_views(r@) == page_blocks(
            *page,
            heading_map@,
            repetition::string_set(header_footer@),
        ),
{
    let lines: Vec<ProjectedLine> = drop_running_lines(page, header_footer);
    let ruled: Vec<TableRun> = page_ruled::detect_ruled_tables(
        &lines,
        &page.graphics,
        page.page_width,
        page.page_height,
    );
    let borderless: Vec<TableRun> = page_tables::detect_tables(&lines);
    let runs: Vec<TableRun> = page_ruled::merge_table_runs(ruled, &borderless);
    let ghost n = lines@.len() as int;
    let ghost rv = rows::run_views(runs@);
    proof {
        assert(rows::runs_fit(rv, n));
        assert(rv == tables_of(*page, lines@));
    }
    let all: Vec<Interruption> = rules_as_stops(page);
    let stops: Vec<Interruption> = reader::drop_inside_tables(&all, &lines, &runs);
    let ghost sv = reader::interruption_views(stops@);
    let ghost map = heading_map@;
    let mut s: Reader = Reader::new();
    let ghost want = read_from(lines@, map, rv, sv, reader::fresh(), 0, 0);
    let mut k: usize = 0;
    let mut i: usize = 0;
    while i < lines.len()
        invariant
            i <= lines@.len() == n,
            k <= runs@.len(),
            rv == rows::run_views(runs@),
            rows::runs_fit(rv, n),
            sv == reader::interruption_views(stops@),
            map == heading_map@,
            font_sizes::map_fits(map),
            reader::reads_within(s@, n),
            want == read_from(lines@, map, rv, sv, s@, k as int, i as int),
        decreases lines.len() - i,
    {
        if k < runs.len() && runs[k].start == i {
            proof {
                assert(rv[k as int] == runs@[k as int]@);
                assert(rows::run_fits(rv[k as int], n));
            }
            s.push_table(&lines, &runs[k], &stops);
            i = runs[k].end;
            k = k + 1;
        } else {
            proof {
                if k < runs@.len() {
                    assert(rv[k as int] == runs@[k as int]@);
                }
            }
            s.pass_interruptions(&stops, Some(lines[i].bbox.y as i64), Ghost(n));
            classify_line(&mut s, &lines, i, heading_map);
            i = i + 1;
        }
    }
    s.finish(&stops)
}

} // verus!
