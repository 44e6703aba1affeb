//! Rules and figures keep their order among the blocks, and none is lost.

use vstd::prelude::*;
use crate::font_sizes;
use crate::heading_text;
use crate::hr;
use crate::lists;
use crate::page_classify;
use crate::reader;
use crate::reader::{InterruptionView, ReaderView};
use crate::region_classify;
use crate::region_reader;
use crate::region_reader::{RegionView, SettingView};
use crate::rows::RunView;
use crate::table_shape;
use crate::text;
use crate::types::{BlockView, ParsedPage, ProjectedLine};

verus! {

/// Whether a block is a rule or a figure.
pub open spec fn is_mark(b: BlockView) -> bool {
    b is HorizontalRule || b is Figure
}

/// The rules and figures among blocks.
pub open spec fn marks_of(blocks: Seq<BlockView>) -> Seq<BlockView>
    decreases blocks.len(),
{
    if blocks.len() == 0 {
        seq![]
    } else if is_mark(blocks.last()) {
        marks_of(blocks.drop_last()).push(blocks.last())
    } else {
        marks_of(blocks.drop_last())
    }
}

/// Whether all interruptions are rules and figures.
pub open spec fn all_marks(stops: Seq<InterruptionView>) -> bool {
    forall|i: int| 0 <= i < stops.len() ==> is_mark((#[trigger] stops[i]).block)
}

/// Whether the rules and figures of the blocks so far are the interruptions so far.
spec fn in_step(s: ReaderView, stops: Seq<InterruptionView>) -> bool {
    &&& 0 <= s.next <= stops.len()
    &&& marks_of(s.blocks) == region_classify::stop_blocks(stops.take(s.next))
}

proof fn lemma_pushed(blocks: Seq<BlockView>, b: BlockView)
    ensures
        marks_of(blocks.push(b)) == if is_mark(b) {
            marks_of(blocks).push(b)
        } else {
            marks_of(blocks)
        },
{
    assert(blocks.push(b).drop_last() =~= blocks);
}

proof fn lemma_updated(blocks: Seq<BlockView>, k: int, b: BlockView)
    requires
        0 <= k < blocks.len(),
        !is_mark(blocks[k]),
        !is_mark(b),
    ensures
        marks_of(blocks.update(k, b)) == marks_of(blocks),
    decreases blocks.len(),
{
    let after = blocks.update(k, b);
    if k == blocks.len() - 1 {
        assert(after.drop_last() =~= blocks.drop_last());
    } else {
        lemma_updated(blocks.drop_last(), k, b);
        assert(after.drop_last() =~= blocks.drop_last().update(k, b));
        assert(after.last() == blocks.last());
    }
}

// ---------------------------------------------------------------------------
// The steps of a reader
// ---------------------------------------------------------------------------

proof fn lemma_closed(s: ReaderView)
    ensures
        marks_of(reader::flushed_paragraph(s).blocks) == marks_of(s.blocks),
        marks_of(reader::flushed_code(s).blocks) == marks_of(s.blocks),
        marks_of(reader::flushed_code(reader::flushed_paragraph(s)).blocks) == marks_of(s.blocks),
        reader::flushed_code(reader::flushed_paragraph(s)).next == s.next,
{
    if s.paragraph is Some {
        lemma_pushed(s.blocks, crate::paragraphs::paragraph_block(s.paragraph->0));
    }
    if s.code is Some {
        let b = BlockView::CodeBlock { lines: s.code->0 };
        lemma_pushed(s.blocks, b);
        lemma_pushed(reader::flushed_paragraph(s).blocks, b);
    }
}

proof fn lemma_interrupted(s: ReaderView, stops: Seq<InterruptionView>, limit: Option<int>)
    requires
        in_step(s, stops),
        all_marks(stops),
    ensures
        in_step(reader::interrupted(s, stops, limit), stops),
        limit is None ==> reader::interrupted(s, stops, limit).next == stops.len(),
    decreases stops.len() - s.next,
{
    if s.next < stops.len() && (limit is None || stops[s.next].y <= limit->0) {
        let b = stops[s.next].block;
        lemma_closed(s);
        lemma_pushed(reader::all_closed(s).blocks, b);
        let t = reader::with_block(reader::all_closed(s), b);
        let u = ReaderView { next: s.next + 1, ..t };
        assert(region_classify::stop_blocks(stops.take(s.next + 1))
            =~= region_classify::stop_blocks(stops.take(s.next)).push(b));
        lemma_interrupted(u, stops, limit);
    }
}

proof fn lemma_table(
    s: ReaderView,
    lines: Seq<ProjectedLine>,
    run: RunView,
    stops: Seq<InterruptionView>,
)
    requires
        in_step(s, stops),
        all_marks(stops),
        table_shape::is_rectangular(run.block),
    ensures
        in_step(reader::with_table(s, lines, run, stops), stops),
{
    let limit = Some(lines[run.start].bbox.y as int);
    lemma_interrupted(s, stops, limit);
    let t = reader::interrupted(s, stops, limit);
    lemma_closed(t);
    lemma_pushed(reader::all_closed(t).blocks, run.block);
}

proof fn lemma_finished(s: ReaderView, stops: Seq<InterruptionView>)
    requires
        in_step(s, stops),
        all_marks(stops),
    ensures
        marks_of(reader::finished(s, stops)) == region_classify::stop_blocks(stops),
{
    lemma_closed(s);
    lemma_interrupted(reader::flushed_code(reader::flushed_paragraph(s)), stops, None);
    assert(stops.take(stops.len() as int) =~= stops);
}

proof fn lemma_heading(s: ReaderView, level: u8, t: Seq<char>)
    ensures
        marks_of(reader::with_heading(s, level, t).blocks) == marks_of(s.blocks),
{
    lemma_closed(s);
    lemma_pushed(
        reader::flushed_paragraph(s).blocks,
        BlockView::Heading { level, text: text::collapse_of(t) },
    );
}

proof fn lemma_item(
    s: ReaderView,
    lines: Seq<ProjectedLine>,
    i: int,
    m: lists::MarkerView,
)
    ensures
        marks_of(reader::with_item(s, lines, i, m).blocks) == marks_of(s.blocks),
{
    lemma_closed(s);
    let after = reader::with_item(s, lines, i, m).blocks;
    assert(after.drop_last() =~= reader::flushed_paragraph(s).blocks);
}

proof fn lemma_item_line(s: ReaderView, lines: Seq<ProjectedLine>, i: int)
    requires
        reader::continues_item(s, lines, i),
    ensures
        marks_of(reader::with_item_line(s, lines, i).blocks) == marks_of(s.blocks),
{
    let k = s.last_item->0;
    lemma_updated(s.blocks, k, reader::item_continued(s.blocks[k], lines[i]));
}

// ---------------------------------------------------------------------------
// Pages read as a whole
// ---------------------------------------------------------------------------

proof fn lemma_page_line(
    s: ReaderView,
    lines: Seq<ProjectedLine>,
    i: int,
    map: Seq<(i32, u8)>,
    stops: Seq<InterruptionView>,
)
    requires
        in_step(s, stops),
    ensures
        in_step(page_classify::read_line(s, lines, i, map), stops),
{
    let t = text::trim_of(lines[i].text@);
    lemma_closed(s);
    let u = reader::flushed_code(s);
    lemma_closed(u);
    lemma_heading(u, font_sizes::next_level(map.len() as int), t);
    match font_sizes::level_from(lines[i].dominant_font_size as int, map, 0) {
        Some(level) => {
            lemma_heading(u, level, t);
        },
        None => {},
    }
    match lists::list_marker(t) {
        Some(m) => {
            lemma_item(u, lines, i, m);
        },
        None => {},
    }
    if reader::continues_item(u, lines, i) {
        lemma_item_line(u, lines, i);
    }
}

proof fn lemma_page_read(
    lines: Seq<ProjectedLine>,
    map: Seq<(i32, u8)>,
    runs: Seq<RunView>,
    stops: Seq<InterruptionView>,
    s: ReaderView,
    k: int,
    i: int,
)
    requires
        in_step(s, stops),
        all_marks(stops),
        table_shape::all_rectangular(runs),
    ensures
        in_step(page_classify::read_from(lines, map, runs, stops, s, k, i), stops),
    decreases lines.len() - i,
{
    if 0 <= i < lines.len() {
        if 0 <= k < runs.len() && runs[k].start == i && i < runs[k].end <= lines.len() {
            lemma_table(s, lines, runs[k], stops);
            let t = reader::with_table(s, lines, runs[k], stops);
            lemma_page_read(lines, map, runs, stops, t, k + 1, runs[k].end);
        } else {
            let limit = Some(lines[i].bbox.y as int);
            lemma_interrupted(s, stops, limit);
            let u = reader::interrupted(s, stops, limit);
            lemma_page_line(u, lines, i, map, stops);
            let t = page_classify::read_line(u, lines, i, map);
            lemma_page_read(lines, map, runs, stops, t, k, i + 1);
        }
    }
}

proof fn lemma_outside(
    all: Seq<InterruptionView>,
    lines: Seq<ProjectedLine>,
    runs: Seq<RunView>,
    n: int,
)
    requires
        n <= all.len(),
        all_marks(all),
    ensures
        all_marks(reader::outside_tables(all, lines, runs, n)),
    decreases n,
{
    if n > 0 {
        lemma_outside(all, lines, runs, n - 1);
        assert(is_mark(all[n - 1].block));
    }
}

/// The rules of a page that lie outside its tables are all among its blocks, each once and
/// in their order, and there are no others.
pub proof fn law_page_rules_are_shown(
    page: ParsedPage,
    map: Seq<(i32, u8)>,
    header_footer: Set<Seq<char>>,
)
    ensures
        ({
            let lines = page_classify::kept_lines(page, header_footer);
            let all = page_classify::rule_stops(hr::rules(page));
            marks_of(page_classify::page_blocks(page, map, header_footer))
                == region_classify::stop_blocks(
                reader::outside_tables(
                    all,
                    lines,
                    page_classify::tables_of(page, lines),
                    all.len() as int,
                ),
            )
        }),
{
    let lines = page_classify::kept_lines(page, header_footer);
    let all = page_classify::rule_stops(hr::rules(page));
    let runs = page_classify::tables_of(page, lines);
    let stops = reader::outside_tables(all, lines, runs, all.len() as int);
    let fresh = reader::fresh();
    table_shape::law_page_tables_are_rectangular(page, lines);
    lemma_outside(all, lines, runs, all.len() as int);
    assert(region_classify::stop_blocks(stops.take(0)) =~= marks_of(fresh.blocks));
    lemma_page_read(lines, map, runs, stops, fresh, 0, 0);
    lemma_finished(page_classify::read_from(lines, map, runs, stops, fresh, 0, 0), stops);
}

// ---------------------------------------------------------------------------
// Pages read by regions
// ---------------------------------------------------------------------------

proof fn lemma_plain(
    s: RegionView,
    map: Seq<(i32, u8)>,
    suppressed: bool,
    lines: Seq<ProjectedLine>,
    i: int,
    stops: Seq<InterruptionView>,
)
    requires
        in_step(s.reader, stops),
    ensures
        in_step(region_reader::read_plain(s, map, suppressed, lines, i).reader, stops),
{
    let t = text::trim_of(lines[i].text@);
    lemma_closed(s.reader);
    lemma_heading(s.reader, font_sizes::next_level(map.len() as int), t);
    match lists::list_marker(t) {
        Some(m) => {
            lemma_item(s.reader, lines, i, m);
        },
        None => {},
    }
    if reader::continues_item(s.reader, lines, i) {
        lemma_item_line(s.reader, lines, i);
    }
}

proof fn lemma_region_line(
    s: RegionView,
    set: SettingView,
    lines: Seq<ProjectedLine>,
    i: int,
    stops: Seq<InterruptionView>,
)
    requires
        in_step(s.reader, stops),
    ensures
        in_step(region_reader::read_region_line(s, set, lines, i).reader, stops),
{
    let t = text::trim_of(lines[i].text@);
    lemma_closed(s.reader);
    let u = RegionView { reader: reader::flushed_code(s.reader), ..s };
    let suppressed = region_reader::is_suppressed(u, set, t);
    let v = RegionView { title_seen: u.title_seen || heading_text::is_contents_title(t), ..u };
    let open = region_reader::open_heading(v, lines, i);
    lemma_plain(v, set.map, suppressed, lines, i, stops);
    if open is Some {
        let h = (open->0).1;
        let front = v.reader.blocks.drop_last();
        assert(marks_of(front) == marks_of(v.reader.blocks));
        lemma_pushed(
            front,
            BlockView::Heading {
                level: (open->0).0,
                text: crate::span_text::continued(h, t, text::collapse_of(t)),
            },
        );
        lemma_plain(
            region_reader::heading_demoted(v, h),
            set.map,
            suppressed,
            lines,
            i,
            stops,
        );
    }
    match region_reader::line_level(u, set, lines, i) {
        Some(level) => {
            lemma_heading(v.reader, level, t);
        },
        None => {},
    }
}

proof fn lemma_region_read(
    lines: Seq<ProjectedLine>,
    set: SettingView,
    runs: Seq<RunView>,
    stops: Seq<InterruptionView>,
    s: RegionView,
    k: int,
    i: int,
)
    requires
        in_step(s.reader, stops),
        all_marks(stops),
        table_shape::all_rectangular(runs),
    ensures
        in_step(region_classify::read_from(lines, set, runs, stops, s, k, i).reader, stops),
    decreases lines.len() - i,
{
    if 0 <= i < lines.len() {
        if 0 <= k < runs.len() && runs[k].start == i && i < runs[k].end <= lines.len() {
            lemma_table(s.reader, lines, runs[k], stops);
            let t = RegionView { reader: reader::with_table(s.reader, lines, runs[k], stops), ..s };
            lemma_region_read(lines, set, runs, stops, t, k + 1, runs[k].end);
        } else {
            let limit = Some(lines[i].bbox.y as int);
            lemma_interrupted(s.reader, stops, limit);
            let u = RegionView { reader: reader::interrupted(s.reader, stops, limit), ..s };
            lemma_region_line(u, set, lines, i, stops);
            let t = region_reader::read_region_line(u, set, lines, i);
            lemma_region_read(lines, set, runs, stops, t, k, i + 1);
        }
    }
}

/// The rules and figures of a region that lie outside its tables are all among its blocks,
/// each once and in their order, and there are no others.
pub proof fn law_region_marks_are_shown(
    page: ParsedPage,
    set: SettingView,
    lines: Seq<ProjectedLine>,
    all: Seq<InterruptionView>,
)
    requires
        all_marks(all),
    ensures
        marks_of(region_classify::region_blocks(page, set, lines, all))
            == region_classify::stop_blocks(
            reader::outside_tables(
                all,
                lines,
                region_classify::tables_of(page, lines),
                all.len() as int,
            ),
        ),
{
    let runs = region_classify::tables_of(page, lines);
    let stops = reader::outside_tables(all, lines, runs, all.len() as int);
    let fresh = region_reader::fresh_region();
    table_shape::law_region_tables_are_rectangular(page, lines);
    lemma_outside(all, lines, runs, all.len() as int);
    assert(region_classify::stop_blocks(stops.take(0)) =~= marks_of(fresh.reader.blocks));
    lemma_region_read(lines, set, runs, stops, fresh, 0, 0);
    lemma_finished(
        region_classify::read_from(lines, set, runs, stops, fresh, 0, 0).reader,
        stops,
    );
}

} // verus!
