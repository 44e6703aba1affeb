//! Where the rules and the figures of a page stand among its text.

use crate::hr;
use crate::page_classify;
use crate::reader;
use crate::reader::{InterruptionView, ReaderView};
use crate::region_classify;
use crate::region_classify::PageState;
use crate::region_reader;
use crate::region_reader::{RegionView, SettingView};
use crate::rows::RunView;
use crate::sort;
use crate::table_shape;
use crate::config::ImageMode;
use crate::types::{BlockView, OutlineTarget, ParsedPage, ProjectedLine};
use vstd::prelude::*;

verus! {

/// Whether a block is a rule or a figure.
pub open spec fn is_mark(b: BlockView) -> bool {
    b is HorizontalRule || b is Figure
}

/// The rules and figures among blocks.
pub open spec fn marks(v: Seq<BlockView>) -> Seq<BlockView>
    decreases v.len(),
{
    if v.len() == 0 {
        seq![]
    } else if is_mark(v.last()) {
        marks(v.drop_last()).push(v.last())
    } else {
        marks(v.drop_last())
    }
}

proof fn lemma_pushed(v: Seq<BlockView>, b: BlockView)
    ensures
        marks(v.push(b)) == if is_mark(b) {
            marks(v).push(b)
        } else {
            marks(v)
        },
{
    assert(v.push(b).drop_last() =~= v);
    assert(v.push(b).last() == b);
}

proof fn lemma_updated(v: Seq<BlockView>, k: int, b: BlockView)
    requires
        0 <= k < v.len(),
        !is_mark(v[k]),
        !is_mark(b),
    ensures
        marks(v.update(k, b)) == marks(v),
    decreases v.len(),
{
    let u = v.update(k, b);
    if k < v.len() - 1 {
        lemma_updated(v.drop_last(), k, b);
        assert(u.drop_last() =~= v.drop_last().update(k, b));
        assert(u.last() == v.last());
    } else {
        assert(u.drop_last() =~= v.drop_last());
    }
}

/// Whether one state has the rules and figures of another, and has passed as many.
spec fn agrees(a: ReaderView, b: ReaderView) -> bool {
    marks(a.blocks) == marks(b.blocks) && a.next == b.next
}

proof fn lemma_flushed(s: ReaderView)
    ensures
        agrees(reader::flushed_paragraph(s), s),
        agrees(reader::flushed_code(s), s),
        agrees(reader::list_ended(s), s),
        agrees(reader::all_closed(s), s),
{
    match s.paragraph {
        Some(p) => {
            lemma_pushed(s.blocks, crate::paragraphs::paragraph_block(p));
        },
        None => {},
    }
    match s.code {
        Some(lines) => {
            lemma_pushed(s.blocks, BlockView::CodeBlock { lines });
        },
        None => {},
    }
    let t = reader::flushed_paragraph(s);
    match t.code {
        Some(lines) => {
            lemma_pushed(t.blocks, BlockView::CodeBlock { lines });
        },
        None => {},
    }
}

/// Whether the rules and figures of a state are those of the interruptions that it passed.
spec fn is_told(s: ReaderView, stops: Seq<InterruptionView>) -> bool {
    &&& 0 <= s.next <= stops.len()
    &&& marks(s.blocks) == region_classify::stop_blocks(stops.take(s.next))
}

/// Whether interruptions are rules and figures.
pub open spec fn are_marks(stops: Seq<InterruptionView>) -> bool {
    forall|i: int| 0 <= i < stops.len() ==> is_mark((#[trigger] stops[i]).block)
}

proof fn lemma_interrupted(s: ReaderView, stops: Seq<InterruptionView>, limit: Option<int>)
    requires
        is_told(s, stops),
        are_marks(stops),
    ensures
        is_told(reader::interrupted(s, stops, limit), stops),
        limit is None ==> reader::interrupted(s, stops, limit).next == stops.len(),
    decreases stops.len() - s.next,
{
    if s.next < stops.len() && (limit is None || stops[s.next].y <= limit->0) {
        lemma_flushed(s);
        let c = reader::all_closed(s);
        let b = stops[s.next].block;
        lemma_pushed(c.blocks, b);
        let t = ReaderView { next: s.next + 1, ..reader::with_block(c, b) };
        assert(region_classify::stop_blocks(stops.take(t.next)) =~= region_classify::stop_blocks(
            stops.take(s.next),
        ).push(b));
        lemma_interrupted(t, stops, limit);
    }
}

proof fn lemma_agrees(a: ReaderView, b: ReaderView, stops: Seq<InterruptionView>)
    requires
        agrees(a, b),
        is_told(b, stops),
    ensures
        is_told(a, stops),
{
}

proof fn lemma_plain(
    s: RegionView,
    map: Seq<(i32, u8)>,
    suppressed: bool,
    lines: Seq<ProjectedLine>,
    i: int,
)
    ensures
        agrees(region_reader::read_plain(s, map, suppressed, lines, i).reader, s.reader),
{
    let r = s.reader;
    lemma_flushed(r);
    let f = reader::flushed_paragraph(r);
    lemma_flushed(f);
    let out = region_reader::read_plain(s, map, suppressed, lines, i).reader;
    if out.blocks.len() == f.blocks.len() + 1 && out.blocks =~= f.blocks.push(out.blocks.last()) {
        lemma_pushed(f.blocks, out.blocks.last());
    }
    if reader::continues_item(r, lines, i) {
        let k = r.last_item->0;
        lemma_updated(r.blocks, k, reader::item_continued(r.blocks[k], lines[i]));
    }
}

proof fn lemma_heading(s: ReaderView, level: u8, t: Seq<char>)
    ensures
        agrees(reader::with_heading(s, level, t), s),
{
    lemma_flushed(s);
    let f = reader::flushed_paragraph(s);
    lemma_pushed(
        f.blocks,
        BlockView::Heading { level, text: crate::text::collapse_of(t) },
    );
}

proof fn lemma_heading_line(s: ReaderView, b: BlockView)
    requires
        s.blocks.len() > 0,
        s.blocks.last() is Heading,
        b is Heading,
    ensures
        marks(s.blocks.drop_last()) == marks(s.blocks),
        marks(s.blocks.drop_last().push(b)) == marks(s.blocks),
{
    lemma_pushed(s.blocks.drop_last(), b);
}

proof fn lemma_line(s: RegionView, set: SettingView, lines: Seq<ProjectedLine>, i: int)
    ensures
        agrees(region_reader::read_region_line(s, set, lines, i).reader, s.reader),
{
    let line = lines[i];
    let t = crate::text::trim_of(line.text@);
    lemma_flushed(s.reader);
    if t.len() == 0 || crate::font_sizes::is_rotated(line) {
    } else if line.all_mono {
        lemma_flushed(reader::flushed_paragraph(s.reader));
    } else {
        let u = RegionView { reader: reader::flushed_code(s.reader), ..s };
        let suppressed = region_reader::is_suppressed(u, set, t);
        let v = RegionView {
            title_seen: u.title_seen || crate::heading_text::is_contents_title(t),
            ..u
        };
        let open = region_reader::open_heading(v, lines, i);
        lemma_plain(v, set.map, suppressed, lines, i);
        if open is Some {
            let h = (open->0).1;
            lemma_heading_line(
                v.reader,
                BlockView::Heading {
                    level: (open->0).0,
                    text: crate::span_text::continued(h, t, crate::text::collapse_of(t)),
                },
            );
            lemma_plain(region_reader::heading_demoted(v, h), set.map, suppressed, lines, i);
        }
        match region_reader::line_level(u, set, lines, i) {
            Some(level) => {
                lemma_heading(v.reader, level, t);
            },
            None => {},
        }
    }
}

proof fn lemma_read(
    lines: Seq<ProjectedLine>,
    set: SettingView,
    runs: Seq<RunView>,
    stops: Seq<InterruptionView>,
    s: RegionView,
    k: int,
    i: int,
)
    requires
        is_told(s.reader, stops),
        are_marks(stops),
        table_shape::all_rectangular(runs),
    ensures
        is_told(region_classify::read_from(lines, set, runs, stops, s, k, i).reader, stops),
    decreases lines.len() - i,
{
    if i < 0 || i >= lines.len() {
    } else if 0 <= k < runs.len() && runs[k].start == i && i < runs[k].end <= lines.len() {
        let y = Some(lines[runs[k].start].bbox.y as int);
        let r = reader::interrupted(s.reader, stops, y);
        lemma_interrupted(s.reader, stops, y);
        lemma_flushed(r);
        assert(table_shape::is_rectangular(runs[k].block));
        lemma_pushed(reader::all_closed(r).blocks, runs[k].block);
        let t = RegionView { reader: reader::with_table(s.reader, lines, runs[k], stops), ..s };
        lemma_agrees(t.reader, r, stops);
        lemma_read(lines, set, runs, stops, t, k + 1, runs[k].end);
    } else {
        let y = Some(lines[i].bbox.y as int);
        let u = RegionView { reader: reader::interrupted(s.reader, stops, y), ..s };
        lemma_interrupted(s.reader, stops, y);
        lemma_line(u, set, lines, i);
        let n = region_reader::read_region_line(u, set, lines, i);
        lemma_agrees(n.reader, u.reader, stops);
        lemma_read(lines, set, runs, stops, n, k, i + 1);
    }
}

/// The rules and figures of a region stand among its blocks, each once and in their order,
/// but for those in the band of a table.
pub proof fn law_marks_of_a_region(
    page: ParsedPage,
    set: SettingView,
    lines: Seq<ProjectedLine>,
    all: Seq<InterruptionView>,
)
    requires
        are_marks(all),
    ensures
        ({
            let runs = region_classify::tables_of(page, lines);
            marks(region_classify::region_blocks(page, set, lines, all)) == all.filter(
                |s: InterruptionView| !is_beside_table(lines, runs, s.y),
            ).map_values(|s: InterruptionView| s.block)
        }),
{
    let runs = region_classify::tables_of(page, lines);
    let n = all.len() as int;
    let stops = reader::outside_tables(all, lines, runs, n);
    lemma_outside(all, lines, runs, n);
    assert(all.take(n) =~= all);
    table_shape::law_region_tables_are_rectangular(page, lines);
    let s0 = region_reader::fresh_region();
    assert(s0.reader.blocks =~= seq![]);
    assert(region_classify::stop_blocks(stops.take(0)) =~= seq![]);
    assert(is_told(s0.reader, stops));
    lemma_read(lines, set, runs, stops, s0, 0, 0);
    let r = region_classify::read_from(lines, set, runs, stops, s0, 0, 0).reader;
    lemma_flushed(r);
    let p = reader::flushed_paragraph(r);
    lemma_flushed(p);
    let c = reader::flushed_code(p);
    lemma_agrees(c, r, stops);
    lemma_interrupted(c, stops, None);
    assert(stops.take(stops.len() as int) =~= stops);
    assert(region_classify::stop_blocks(stops) =~= stops.map_values(
        |s: InterruptionView| s.block,
    ));
}

/// Whether a height is beside a table: from four line heights above its first line, a line
/// being eight points high at least, to its last line, with two points to spare.
pub open spec fn is_beside_table(lines: Seq<ProjectedLine>, runs: Seq<RunView>, y: int) -> bool {
    exists|k: int| 0 <= k < runs.len() && is_beside(lines, #[trigger] runs[k], y)
}

/// Whether a height is beside a table.
pub open spec fn is_beside(lines: Seq<ProjectedLine>, run: RunView, y: int) -> bool {
    let first = lines[run.start];
    let last = lines[run.end - 1];
    &&& y >= first.bbox.y - 4 * first.bbox.height - 2_000 || y >= first.bbox.y - 34_000
    &&& y <= last.bbox.y + last.bbox.height + 2_000
}

proof fn lemma_outside(
    all: Seq<InterruptionView>,
    lines: Seq<ProjectedLine>,
    runs: Seq<RunView>,
    n: int,
)
    requires
        0 <= n <= all.len(),
        are_marks(all),
    ensures
        ({
            let v = reader::outside_tables(all, lines, runs, n);
            &&& are_marks(v)
            &&& v == all.take(n).filter(|s: InterruptionView| !is_beside_table(lines, runs, s.y))
        }),
    decreases n,
{
    reveal(Seq::filter);
    let v = reader::outside_tables(all, lines, runs, n);
    if n > 0 {
        lemma_outside(all, lines, runs, n - 1);
        let s = all[n - 1];
        assert(all.take(n).drop_last() =~= all.take(n - 1));
        assert(all.take(n).last() == s);
        assert forall|k: int| 0 <= k < runs.len() implies reader::in_band(
            lines,
            #[trigger] runs[k],
            s.y,
        ) == is_beside(lines, runs[k], s.y) by {}
        assert(reader::in_any_band(lines, runs, s.y) == is_beside_table(lines, runs, s.y)) by {
            if reader::in_any_band(lines, runs, s.y) {
                let k = choose|k: int|
                    0 <= k < runs.len() && reader::in_band(lines, #[trigger] runs[k], s.y);
                assert(is_beside(lines, runs[k], s.y));
            }
            if is_beside_table(lines, runs, s.y) {
                let k = choose|k: int|
                    0 <= k < runs.len() && is_beside(lines, #[trigger] runs[k], s.y);
                assert(reader::in_band(lines, runs[k], s.y));
            }
        }
        assert(is_mark(all[n - 1].block));
    } else {
        assert(v =~= seq![]);
        assert(all.take(n) =~= seq![]);
    }
}

proof fn lemma_page_line(
    s: ReaderView,
    lines: Seq<ProjectedLine>,
    i: int,
    map: Seq<(i32, u8)>,
)
    ensures
        agrees(page_classify::read_line(s, lines, i, map), s),
{
    let line = lines[i];
    let t = crate::text::trim_of(line.text@);
    lemma_flushed(s);
    if t.len() == 0 || crate::font_sizes::is_rotated(line) {
    } else if line.all_mono {
        lemma_flushed(reader::flushed_paragraph(s));
    } else {
        let u = reader::flushed_code(s);
        lemma_flushed(u);
        let f = reader::flushed_paragraph(u);
        lemma_flushed(f);
        let out = page_classify::read_line(s, lines, i, map);
        if out.blocks.len() == f.blocks.len() + 1 && out.blocks =~= f.blocks.push(
            out.blocks.last(),
        ) {
            lemma_pushed(f.blocks, out.blocks.last());
        }
        if reader::continues_item(u, lines, i) {
            let k = u.last_item->0;
            lemma_updated(u.blocks, k, reader::item_continued(u.blocks[k], lines[i]));
        }
    }
}

proof fn lemma_page_read(
    lines: Seq<ProjectedLine>,
    map: Seq<(i32, u8)>,
    runs: Seq<RunView>,
    stops: Seq<InterruptionView>,
    s: ReaderView,
    k: int,
    i: int,
)
    requires
        is_told(s, stops),
        are_marks(stops),
        table_shape::all_rectangular(runs),
    ensures
        is_told(page_classify::read_from(lines, map, runs, stops, s, k, i), stops),
    decreases lines.len() - i,
{
    if i < 0 || i >= lines.len() {
    } else if 0 <= k < runs.len() && runs[k].start == i && i < runs[k].end <= lines.len() {
        let y = Some(lines[runs[k].start].bbox.y as int);
        let r = reader::interrupted(s, stops, y);
        lemma_interrupted(s, stops, y);
        lemma_flushed(r);
        assert(table_shape::is_rectangular(runs[k].block));
        lemma_pushed(reader::all_closed(r).blocks, runs[k].block);
        let t = reader::with_table(s, lines, runs[k], stops);
        lemma_agrees(t, r, stops);
        lemma_page_read(lines, map, runs, stops, t, k + 1, runs[k].end);
    } else {
        let y = Some(lines[i].bbox.y as int);
        let u = reader::interrupted(s, stops, y);
        lemma_interrupted(s, stops, y);
        lemma_page_line(u, lines, i, map);
        let n = page_classify::read_line(u, lines, i, map);
        lemma_agrees(n, u, stops);
        lemma_page_read(lines, map, runs, stops, n, k, i + 1);
    }
}

/// Where a page is read on its own, its dividing rules stand among its blocks, each once, but
/// for those in the band of a table.
pub proof fn law_rules_of_a_page(
    page: ParsedPage,
    map: Seq<(i32, u8)>,
    header_footer: Set<Seq<char>>,
)
    ensures
        ({
            let lines = page_classify::kept_lines(page, header_footer);
            let runs = page_classify::tables_of(page, lines);
            marks(page_classify::page_blocks(page, map, header_footer)) == Seq::new(
                hr::rules(page).filter(|y: int| !is_beside_table(lines, runs, y)).len(),
                |i: int| BlockView::HorizontalRule,
            )
        }),
{
    let lines = page_classify::kept_lines(page, header_footer);
    let runs = page_classify::tables_of(page, lines);
    let ys = hr::rules(page);
    let all = page_classify::rule_stops(ys);
    let n = all.len() as int;
    let stops = reader::outside_tables(all, lines, runs, n);
    lemma_outside(all, lines, runs, n);
    lemma_rules_outside(ys, lines, runs, n);
    table_shape::law_page_tables_are_rectangular(page, lines);
    let s0 = reader::fresh();
    assert(s0.blocks =~= seq![]);
    assert(region_classify::stop_blocks(stops.take(0)) =~= seq![]);
    assert(is_told(s0, stops));
    lemma_page_read(lines, map, runs, stops, s0, 0, 0);
    let r = page_classify::read_from(lines, map, runs, stops, s0, 0, 0);
    lemma_flushed(r);
    let p = reader::flushed_paragraph(r);
    lemma_flushed(p);
    let c = reader::flushed_code(p);
    lemma_agrees(c, r, stops);
    lemma_interrupted(c, stops, None);
    assert(stops.take(stops.len() as int) =~= stops);
    assert(ys.take(n) =~= ys);
    assert(region_classify::stop_blocks(stops) =~= Seq::new(
        ys.filter(|y: int| !is_beside_table(lines, runs, y)).len(),
        |i: int| BlockView::HorizontalRule,
    ));
}

proof fn lemma_rules_outside(
    ys: Seq<int>,
    lines: Seq<ProjectedLine>,
    runs: Seq<RunView>,
    n: int,
)
    requires
        0 <= n <= ys.len(),
    ensures
        ({
            let all = page_classify::rule_stops(ys);
            let v = all.take(n).filter(
                |s: InterruptionView| !is_beside_table(lines, runs, s.y),
            );
            let w = ys.take(n).filter(|y: int| !is_beside_table(lines, runs, y));
            &&& v.len() == w.len()
            &&& forall|i: int|
                0 <= i < v.len() ==> (#[trigger] v[i]).block == BlockView::HorizontalRule
        }),
    decreases n,
{
    reveal(Seq::filter);
    let all = page_classify::rule_stops(ys);
    if n > 0 {
        lemma_rules_outside(ys, lines, runs, n - 1);
        assert(all.take(n).drop_last() =~= all.take(n - 1));
        assert(ys.take(n).drop_last() =~= ys.take(n - 1));
        assert(all.take(n).last() == all[n - 1]);
        assert(ys.take(n).last() == ys[n - 1]);
    } else {
        assert(all.take(n) =~= seq![]);
        assert(ys.take(n) =~= seq![]);
    }
}

// ---------------------------------------------------------------------------
// Pages with regions
// ---------------------------------------------------------------------------

proof fn lemma_marks_joined(a: Seq<BlockView>, b: Seq<BlockView>)
    ensures
        marks(a + b) == marks(a) + marks(b),
    decreases b.len(),
{
    if b.len() == 0 {
        assert(a + b =~= a);
        assert(marks(a) + marks(b) =~= marks(a));
    } else {
        lemma_marks_joined(a, b.drop_last());
        assert((a + b).drop_last() =~= a + b.drop_last());
        assert((a + b).last() == b.last());
        assert(marks(a + b) =~= marks(a) + marks(b));
    }
}

proof fn lemma_all_marks(v: Seq<BlockView>)
    requires
        forall|i: int| 0 <= i < v.len() ==> is_mark(#[trigger] v[i]),
    ensures
        marks(v) == v,
    decreases v.len(),
{
    if v.len() > 0 {
        let w = v.drop_last();
        assert forall|i: int| 0 <= i < w.len() implies is_mark(#[trigger] w[i]) by {
            assert(w[i] == v[i]);
        }
        lemma_all_marks(w);
        assert(is_mark(v[v.len() - 1]));
        assert(v =~= w.push(v.last()));
    } else {
        assert(v =~= seq![]);
    }
}

/// Whether a rule or figure stands among blocks, or is in the band of a table of a region.
pub open spec fn is_placed(
    page: ParsedPage,
    lines: Seq<ProjectedLine>,
    blocks: Seq<BlockView>,
    s: InterruptionView,
) -> bool {
    marks(blocks).contains(s.block) || exists|from: int, to: int|
        is_beside_region_table(page, #[trigger] lines.subrange(from, to), s.y)
}

/// Whether a height is beside a table of a region.
pub open spec fn is_beside_region_table(
    page: ParsedPage,
    lines: Seq<ProjectedLine>,
    y: int,
) -> bool {
    is_beside_table(lines, region_classify::tables_of(page, lines), y)
}

/// Whether the interruptions that a page has passed are placed.
spec fn are_placed(
    page: ParsedPage,
    lines: Seq<ProjectedLine>,
    stops: Seq<InterruptionView>,
    st: PageState,
) -> bool {
    &&& 0 <= st.next <= stops.len()
    &&& forall|k: int|
        0 <= k < st.next ==> is_placed(page, lines, st.blocks, #[trigger] stops[k])
}

proof fn lemma_stops_above(stops: Seq<InterruptionView>, k: int, y: int)
    requires
        0 <= k <= stops.len(),
    ensures
        k <= region_classify::stops_above(stops, k, y) <= stops.len(),
        k <= region_classify::stops_within(stops, k, y) <= stops.len(),
    decreases stops.len() - k,
{
    if k < stops.len() {
        lemma_stops_above(stops, k + 1, y);
    }
}

proof fn lemma_grown_places(
    page: ParsedPage,
    lines: Seq<ProjectedLine>,
    a: Seq<BlockView>,
    b: Seq<BlockView>,
    s: InterruptionView,
)
    requires
        is_placed(page, lines, a, s),
    ensures
        is_placed(page, lines, a + b, s),
{
    lemma_marks_joined(a, b);
    if marks(a).contains(s.block) {
        let i = choose|i: int| 0 <= i < marks(a).len() && marks(a)[i] == s.block;
        assert(marks(a + b)[i] == s.block);
    }
}

proof fn lemma_listed(
    page: ParsedPage,
    lines: Seq<ProjectedLine>,
    before: Seq<BlockView>,
    v: Seq<InterruptionView>,
    k: int,
)
    requires
        are_marks(v),
        0 <= k < v.len(),
    ensures
        is_placed(page, lines, before + region_classify::stop_blocks(v), v[k]),
{
    let b = region_classify::stop_blocks(v);
    assert forall|i: int| 0 <= i < b.len() implies is_mark(#[trigger] b[i]) by {
        assert(is_mark(v[i].block));
    }
    lemma_all_marks(b);
    lemma_marks_joined(before, b);
    assert(marks(before + b)[marks(before).len() + k] == v[k].block);
}

proof fn lemma_within(
    page: ParsedPage,
    set: SettingView,
    lines: Seq<ProjectedLine>,
    from: int,
    to: int,
    before: Seq<BlockView>,
    v: Seq<InterruptionView>,
    k: int,
)
    requires
        are_marks(v),
        0 <= k < v.len(),
    ensures
        is_placed(
            page,
            lines,
            before + region_classify::region_blocks(page, set, lines.subrange(from, to), v),
            v[k],
        ),
{
    let part = lines.subrange(from, to);
    let found = region_classify::region_blocks(page, set, part, v);
    law_marks_of_a_region(page, set, part, v);
    if !is_beside_region_table(page, part, v[k].y) {
        let runs = region_classify::tables_of(page, part);
        let f = |s: InterruptionView| !is_beside_table(part, runs, s.y);
        v.filter_lemma(f);
        assert(f(v[k]));
        assert(v.filter(f).contains(v[k]));
        let i = choose|i: int| 0 <= i < v.filter(f).len() && v.filter(f)[i] == v[k];
        assert(marks(found)[i] == v[k].block);
        lemma_marks_joined(before, found);
        assert(marks(before + found)[marks(before).len() + i] == v[k].block);
    }
}

proof fn lemma_region_places(
    page: ParsedPage,
    set: SettingView,
    lines: Seq<ProjectedLine>,
    stops: Seq<InterruptionView>,
    st: PageState,
    from: int,
    to: int,
)
    requires
        are_marks(stops),
        are_placed(page, lines, stops, st),
    ensures
        are_placed(
            page,
            lines,
            stops,
            region_classify::with_region(page, set, lines, stops, st, from, to),
        ),
{
    let out = region_classify::with_region(page, set, lines, stops, st, from, to);
    let top = region_classify::top_of(lines, from, to);
    let bottom = region_classify::bottom_of(lines, from, to);
    lemma_stops_above(stops, st.next, top);
    let a = region_classify::stops_above(stops, st.next, top);
    lemma_stops_above(stops, a, bottom);
    let b = region_classify::stops_within(stops, a, bottom);
    let above = stops.subrange(st.next, a);
    let within = stops.subrange(a, b);
    let blocks = st.blocks + region_classify::stop_blocks(above);
    let found = region_classify::region_blocks(page, set, lines.subrange(from, to), within);
    assert forall|i: int| 0 <= i < above.len() implies is_mark((#[trigger] above[i]).block) by {
        assert(above[i] == stops[st.next + i]);
    }
    assert forall|i: int| 0 <= i < within.len() implies is_mark((#[trigger] within[i]).block) by {
        assert(within[i] == stops[a + i]);
    }
    assert(out.blocks =~= blocks + found);
    assert forall|k: int| 0 <= k < out.next implies is_placed(
        page,
        lines,
        out.blocks,
        #[trigger] stops[k],
    ) by {
        if k < a {
            if k < st.next {
                lemma_grown_places(
                    page,
                    lines,
                    st.blocks,
                    region_classify::stop_blocks(above),
                    stops[k],
                );
            } else {
                lemma_listed(page, lines, st.blocks, above, k - st.next);
                assert(above[k - st.next] == stops[k]);
            }
            lemma_grown_places(page, lines, blocks, found, stops[k]);
        } else {
            lemma_within(page, set, lines, from, to, blocks, within, k - a);
            assert(within[k - a] == stops[k]);
        }
    }
}

proof fn lemma_regions_place(
    page: ParsedPage,
    set: SettingView,
    lines: Seq<ProjectedLine>,
    stops: Seq<InterruptionView>,
    st: PageState,
    i: int,
)
    requires
        are_marks(stops),
        are_placed(page, lines, stops, st),
    ensures
        are_placed(
            page,
            lines,
            stops,
            region_classify::regions_from(page, set, lines, stops, st, i),
        ),
    decreases lines.len() - i,
{
    if 0 <= i < lines.len() {
        region_classify::lemma_region_end(lines, i, i + 1);
        let e = region_classify::region_end(lines, i, i + 1);
        lemma_region_places(page, set, lines, stops, st, i, e);
        lemma_regions_place(
            page,
            set,
            lines,
            stops,
            region_classify::with_region(page, set, lines, stops, st, i, e),
            e,
        );
    }
}

proof fn lemma_marks_of_others(v: Seq<BlockView>, n: int)
    requires
        0 <= n <= v.len(),
    ensures
        marks(region_classify::others_upto(v, n)) == marks(v.take(n)),
    decreases n,
{
    if n > 0 {
        lemma_marks_of_others(v, n - 1);
        assert(v.take(n).drop_last() =~= v.take(n - 1));
        assert(v.take(n).last() == v[n - 1]);
        lemma_pushed(region_classify::others_upto(v, n - 1), v[n - 1]);
    } else {
        assert(v.take(n) =~= seq![]);
    }
}

/// Each rule and each figure of a page stands among its blocks, but for those in the band of a
/// table of a region.
pub proof fn law_marks_of_a_page(
    page: ParsedPage,
    map: Seq<(i32, u8)>,
    header_footer: Set<Seq<char>>,
    outline: Seq<OutlineTarget>,
    mode: ImageMode,
    chrome: Seq<usize>,
    k: int,
)
    requires
        0 <= k < region_classify::page_stops(page, mode).len(),
    ensures
        is_placed(
            page,
            region_classify::kept_upto(
                page,
                header_footer,
                chrome,
                page.projected_lines@.len() as int,
            ),
            region_classify::page_blocks(page, map, header_footer, outline, mode, chrome),
            region_classify::page_stops(page, mode)[k],
        ),
{
    let lines = region_classify::kept_upto(
        page,
        header_footer,
        chrome,
        page.projected_lines@.len() as int,
    );
    let stops = region_classify::page_stops(page, mode);
    let set = SettingView {
        page_height: page.page_height as int,
        nodes: page.struct_nodes@,
        map,
        outline: crate::headings::entries_on(outline, page.page_number, outline.len() as int),
        toc: region_classify::is_toc_page(page),
    };
    let s0 = PageState { blocks: seq![], starts: seq![], next: 0 };
    law_stops_of_a_page(page, mode);
    lemma_regions_place(page, set, lines, stops, s0, 0);
    let st = region_classify::regions_from(page, set, lines, stops, s0, 0);
    let rest = stops.subrange(st.next, stops.len() as int);
    let all = st.blocks + region_classify::stop_blocks(rest);
    assert(are_marks(rest)) by {
        assert forall|i: int| 0 <= i < rest.len() implies is_mark((#[trigger] rest[i]).block) by {
            assert(rest[i] == stops[st.next + i]);
        }
    }
    if k < st.next {
        lemma_grown_places(
            page,
            lines,
            st.blocks,
            region_classify::stop_blocks(rest),
            stops[k],
        );
    } else {
        lemma_listed(page, lines, st.blocks, rest, k - st.next);
        assert(rest[k - st.next] == stops[k]);
    }
    let out = region_classify::stitched(all, st.starts);
    region_classify::law_stitching_joins_paragraphs_only(all, st.starts);
    lemma_marks_of_others(all, all.len() as int);
    lemma_marks_of_others(out, out.len() as int);
    assert(all.take(all.len() as int) =~= all);
    assert(out.take(out.len() as int) =~= out);
}

/// The rules and figures of a page come from top to bottom: each dividing rule, and each image
/// unless images are off.
pub proof fn law_stops_of_a_page(page: ParsedPage, mode: ImageMode)
    ensures
        ({
            let stops = region_classify::page_stops(page, mode);
            &&& are_marks(stops)
            &&& forall|i: int, j: int|
                0 <= i <= j < stops.len() ==> (#[trigger] stops[i]).y <= (#[trigger] stops[j]).y
            &&& forall|i: int|
                0 <= i < hr::rules(page).len() ==> stops.contains(
                    InterruptionView {
                        y: #[trigger] hr::rules(page)[i],
                        block: BlockView::HorizontalRule,
                    },
                )
            &&& mode != ImageMode::Off ==> forall|i: int|
                0 <= i < page.image_refs@.len() ==> stops.contains(
                    InterruptionView {
                        y: (#[trigger] page.image_refs@[i]).bbox.y as int,
                        block: BlockView::Figure {
                            id: page.image_refs@[i].id@,
                            bbox: page.image_refs@[i].bbox,
                        },
                    },
                )
            &&& stops.len() == hr::rules(page).len() + if mode == ImageMode::Off {
                0
            } else {
                page.image_refs@.len()
            }
        }),
{
    let rules = page_classify::rule_stops(hr::rules(page));
    let figures = if mode == ImageMode::Off {
        seq![]
    } else {
        region_classify::figure_stops(page.image_refs@)
    };
    let all = rules + figures;
    let keys = region_classify::stop_heights(all);
    let order = sort::stable_order(keys);
    let stops = region_classify::page_stops(page, mode);
    sort::law_stable_order(keys);
    assert(stops == sort::pick(all, order));
    assert forall|i: int| 0 <= i < stops.len() implies is_mark((#[trigger] stops[i]).block) by {
        assert(0 <= order[i] < all.len());
        assert(stops[i] == all[order[i]]);
    }
    assert forall|i: int, j: int| 0 <= i <= j < stops.len() implies (#[trigger] stops[i]).y <= (
    #[trigger] stops[j]).y by {
        assert(0 <= order[i] < all.len() && 0 <= order[j] < all.len());
        assert(keys[order[i]] == stops[i].y && keys[order[j]] == stops[j].y);
    }
    assert forall|q: int| 0 <= q < all.len() implies stops.contains(#[trigger] all[q]) by {
        assert(order.contains(q));
        let k = choose|k: int| 0 <= k < order.len() && order[k] == q;
        assert(stops[k] == all[q]);
    }
    assert forall|i: int| 0 <= i < hr::rules(page).len() implies stops.contains(
        InterruptionView {
            y: #[trigger] hr::rules(page)[i],
            block: BlockView::HorizontalRule,
        },
    ) by {
        assert(all[i] == rules[i]);
    }
    if mode != ImageMode::Off {
        assert forall|i: int| 0 <= i < page.image_refs@.len() implies stops.contains(
            InterruptionView {
                y: (#[trigger] page.image_refs@[i]).bbox.y as int,
                block: BlockView::Figure {
                    id: page.image_refs@[i].id@,
                    bbox: page.image_refs@[i].bbox,
                },
            },
        ) by {
            assert(all[rules.len() + i] == figures[i]);
        }
    }
}

} // verus!
