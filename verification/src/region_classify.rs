//! Reading a page region by region, and stitching paragraphs that run on from
//! one region into the next.

use vstd::prelude::*;
use vstd::string::*;
use crate::cells;
use crate::config::ImageMode;
use crate::font_sizes;
use crate::grid;
use crate::heading_text;
use crate::headings;
use crate::hr;
use crate::page_classify;
use crate::paragraphs;
use crate::reader;
use crate::reader::{Interruption, InterruptionView};
use crate::region_reader;
use crate::region_reader::{RegionReader, RegionView, Setting, SettingView};
use crate::region_ruled;
use crate::region_tables;
use crate::repetition;
use crate::rows;
use crate::rows::{RunView, TableRun};
use crate::sort;
use crate::text;
use crate::types;
use crate::types::{Block, BlockView, ImageRef, OutlineTarget, ParsedPage, ProjectedLine};

verus! {

// ---------------------------------------------------------------------------
// One region
// ---------------------------------------------------------------------------

/// The state after the lines from `i` on, with the tables from `k` on.
pub open spec fn read_from(
    lines: Seq<ProjectedLine>,
    set: SettingView,
    runs: Seq<RunView>,
    stops: Seq<InterruptionView>,
    s: RegionView,
    k: int,
    i: int,
) -> RegionView
    decreases lines.len() - i,
{
    if i < 0 || i >= lines.len() {
        s
    } else if 0 <= k < runs.len() && runs[k].start == i && i < runs[k].end <= lines.len() {
        let t = RegionView { reader: reader::with_table(s.reader, lines, runs[k], stops), ..s };
        read_from(lines, set, runs, stops, t, k + 1, runs[k].end)
    } else {
        let u = RegionView {
            reader: reader::interrupted(s.reader, stops, Some(lines[i].bbox.y as int)),
            ..s
        };
        read_from(
            lines,
            set,
            runs,
            stops,
            region_reader::read_region_line(u, set, lines, i),
            k,
            i + 1,
        )
    }
}

/// The tables of a region, those drawn with rules and those without.
pub open spec fn tables_of(page: ParsedPage, lines: Seq<ProjectedLine>) -> Seq<RunView> {
    region_ruled::merged_runs(
        region_ruled::ruled_tables(
            lines,
            page.graphics@,
            page.page_width as int,
            page.page_height as int,
        ),
        region_tables::tables_in(lines),
    )
}

/// The blocks of a region with the given interruptions.
pub open spec fn region_blocks(
    page: ParsedPage,
    set: SettingView,
    lines: Seq<ProjectedLine>,
    all: Seq<InterruptionView>,
) -> Seq<BlockView> {
    let runs = tables_of(page, lines);
    let stops = reader::outside_tables(all, lines, runs, all.len() as int);
    reader::finished(
        read_from(lines, set, runs, stops, region_reader::fresh_region(), 0, 0).reader,
        stops,
    )
}

/// The blocks of a region with the given interruptions, in the order of their
/// heights.
fn classify_region(
    page: &ParsedPage,
    set: &Setting,
    lines: &Vec<ProjectedLine>,
    all: &Vec<Interruption>,
) -> (r: Vec<Block>)
    requires
        grid::rules_fit(page.graphics@),
        font_sizes::map_fits(set.map@),
        reader::stops_in_reach(reader::interruption_views(all@)),
    ensures
        types::block_views(r@) == region_blocks(
            *page,
            set@,
            lines@,
            reader::interruption_views(all@),
        ),
{
    let ruled: Vec<TableRun> = region_ruled::detect_ruled_tables(
        lines,
        &page.graphics,
        page.page_width,
        page.page_height,
    );
    let borderless: Vec<TableRun> = region_tables::detect_tables(lines);
    let runs: Vec<TableRun> = region_ruled::merge_table_runs(&ruled, &borderless);
    let ghost n = lines@.len() as int;
    let ghost rv = rows::run_views(runs@);
    proof {
        assert(rows::runs_fit(rv, n));
        assert(rv == tables_of(*page, lines@));
    }
    let stops: Vec<Interruption> = reader::drop_inside_tables(all, lines, &runs);
    let ghost sv = reader::interruption_views(stops@);
    let ghost settings = set@;
    let mut s: RegionReader = RegionReader::new();
    let ghost want = read_from(
        lines@,
        settings,
        rv,
        sv,
        region_reader::fresh_region(),
        0,
        0,
    );
    let mut k: usize = 0;
    let mut i: usize = 0;
    while i < lines.len()
        invariant
            i <= lines@.len() == n,
            k <= runs@.len(),
            rv == rows::run_views(runs@),
            rows::runs_fit(rv, n),
            sv == reader::interruption_views(stops@),
            settings == set@,
            font_sizes::map_fits(set.map@),
            region_reader::region_within(s@, n),
            want == read_from(lines@, settings, rv, sv, s@, k as int, i as int),
        decreases lines.len() - i,
    {
        if k < runs.len() && runs[k].start == i {
            proof {
                assert(rv[k as int] == runs@[k as int]@);
                assert(rows::run_fits(rv[k as int], n));
            }
            s.reader.push_table(lines, &runs[k], &stops);
            i = runs[k].end;
            k = k + 1;
        } else {
            proof {
                if k < runs@.len() {
                    assert(rv[k as int] == runs@[k as int]@);
                }
            }
            s.reader.pass_interruptions(&stops, Some(lines[i].bbox.y as i64), Ghost(n));
            s.read_line(set, lines, i);
            i = i + 1;
        }
    }
    s.reader.finish(&stops)
}

// ---------------------------------------------------------------------------
// Pages with the title of a table of contents
// ---------------------------------------------------------------------------

/// Whether the lines from `i` on belong to a table of contents. `titled` says
/// that its title was read, `long` how many long lines of text followed it.
///
/// The title must come before any line of more than 40 characters, and three
/// lines of 80 characters or more, of which 30 percent are letters, make the
/// page one of running text.
pub open spec fn titled_from(lines: Seq<ProjectedLine>, i: int, titled: bool, long: int) -> bool
    decreases lines.len() - i,
{
    if i < 0 || i >= lines.len() {
        titled
    } else {
        let t = text::trim_of(lines[i].text@);
        let n = t.len() as int;
        if font_sizes::is_rotated(lines[i]) || n == 0 {
            titled_from(lines, i + 1, titled, long)
        } else if !titled {
            if heading_text::is_contents_title(t) {
                titled_from(lines, i + 1, true, long)
            } else if n > 40 {
                false
            } else {
                titled_from(lines, i + 1, false, long)
            }
        } else if n >= 80 && 10 * text::count_alpha(t, n) >= 3 * n {
            if long >= 2 {
                false
            } else {
                titled_from(lines, i + 1, true, long + 1)
            }
        } else {
            titled_from(lines, i + 1, true, long)
        }
    }
}

/// Whether a page is a table of contents, by its entries or by its title.
pub open spec fn is_toc_page(page: ParsedPage) -> bool {
    headings::is_toc(page.projected_lines@) || titled_from(page.projected_lines@, 0, false, 0)
}

fn has_toc_title(lines: &Vec<ProjectedLine>) -> (r: bool)
    ensures
        r == titled_from(lines@, 0, false, 0),
{
    let mut titled: bool = false;
    let mut long: usize = 0;
    let mut i: usize = 0;
    while i < lines.len()
        invariant
            i <= lines@.len(),
            long <= 2,
            titled_from(lines@, 0, false, 0) == titled_from(lines@, i as int, titled, long as int),
        decreases lines.len() - i,
    {
        let t = text::trim(lines[i].text.as_str());
        let n: usize = t.unicode_len();
        if !font_sizes::is_rotated_line(&lines[i]) && n > 0 {
            if !titled {
                if heading_text::is_toc_title(t) {
                    titled = true;
                } else if n > 40 {
                    return false;
                }
            } else if n >= 80 {
                let cs: Vec<char> = text::chars_of(t);
                let alpha: usize = heading_text::alphabetic_before(&cs, n);
                if 10 * (alpha as u128) >= 3 * (n as u128) {
                    if long >= 2 {
                        return false;
                    }
                    long = long + 1;
                }
            }
        }
        i = i + 1;
    }
    titled
}

// ---------------------------------------------------------------------------
// Lines and interruptions of a page
// ---------------------------------------------------------------------------

/// The first `n` lines of a page without its running headers and footers and
/// without the lines listed in `chrome`.
pub open spec fn kept_upto(
    page: ParsedPage,
    header_footer: Set<Seq<char>>,
    chrome: Seq<usize>,
    n: int,
) -> Seq<ProjectedLine>
    decreases n,
{
    if n <= 0 {
        seq![]
    } else {
        let before = kept_upto(page, header_footer, chrome, n - 1);
        let line = page.projected_lines@[n - 1];
        if chrome.contains((n - 1) as usize) || repetition::is_running_line(
            line,
            page,
            header_footer,
        ) {
            before
        } else {
            before.push(line)
        }
    }
}

fn contains_index(v: &Vec<usize>, k: usize) -> (r: bool)
    ensures
        r == v@.contains(k),
{
    let mut i: usize = 0;
    while i < v.len()
        invariant
            i <= v@.len(),
            forall|j: int| 0 <= j < i ==> v@[j] != k,
        decreases v.len() - i,
    {
        if v[i] == k {
            return true;
        }
        i = i + 1;
    }
    false
}

fn keep_lines(page: &ParsedPage, header_footer: &Vec<String>, chrome: &Vec<usize>) -> (r: Vec<
    ProjectedLine,
>)
    ensures
        r@ == kept_upto(
            *page,
            repetition::string_set(header_footer@),
            chrome@,
            page.projected_lines@.len() as int,
        ),
        r@.len() <= page.projected_lines@.len(),
{
    let mut out: Vec<ProjectedLine> = Vec::new();
    let mut i: usize = 0;
    while i < page.projected_lines.len()
        invariant
            i <= page.projected_lines@.len(),
            out@ == kept_upto(
                *page,
                repetition::string_set(header_footer@),
                chrome@,
                i as int,
            ),
            out@.len() <= i,
        decreases page.projected_lines.len() - i,
    {
        let line = &page.projected_lines[i];
        if !contains_index(chrome, i) && !repetition::is_header_or_footer(
            line,
            page,
            header_footer,
        ) {
            out.push(types::clone_line(line));
        }
        i = i + 1;
    }
    out
}

/// Figures as interruptions of the text.
pub open spec fn figure_stops(refs: Seq<ImageRef>) -> Seq<InterruptionView> {
    Seq::new(
        refs.len(),
        |i: int|
            InterruptionView {
                y: refs[i].bbox.y as int,
                block: BlockView::Figure { id: refs[i].id@, bbox: refs[i].bbox },
            },
    )
}

/// The heights of interruptions.
pub open spec fn stop_heights(v: Seq<InterruptionView>) -> Seq<int> {
    Seq::new(v.len(), |i: int| v[i].y)
}

/// The rules of a page and, unless images are off, its figures, in the order of
/// their heights.
pub open spec fn page_stops(page: ParsedPage, mode: ImageMode) -> Seq<InterruptionView> {
    let all = page_classify::rule_stops(hr::rules(page)) + (if mode == ImageMode::Off {
        seq![]
    } else {
        figure_stops(page.image_refs@)
    });
    sort::pick(all, sort::stable_order(stop_heights(all)))
}

fn collect_stops(page: &ParsedPage, mode: ImageMode) -> (r: Vec<Interruption>)
    ensures
        reader::interruption_views(r@) == page_stops(*page, mode),
        reader::stops_in_reach(reader::interruption_views(r@)),
{
    let mut all: Vec<Interruption> = page_classify::rules_as_stops(page);
    let ghost rules = page_classify::rule_stops(hr::rules(*page));
    let ghost figures = if mode == ImageMode::Off {
        seq![]
    } else {
        figure_stops(page.image_refs@)
    };
    if mode != ImageMode::Off {
        let mut i: usize = 0;
        proof {
            assert(rules + figures.take(0) =~= rules);
        }
        while i < page.image_refs.len()
            invariant
                i <= page.image_refs@.len(),
                figures == figure_stops(page.image_refs@),
                reader::interruption_views(all@) == rules + figures.take(i as int),
                reader::stops_in_reach(reader::interruption_views(all@)),
            decreases page.image_refs.len() - i,
        {
            let f = &page.image_refs[i];
            let stop = Interruption {
                y: f.bbox.y as i64,
                block: Block::Figure { id: f.id.clone(), bbox: f.bbox },
            };
            let ghost before = reader::interruption_views(all@);
            proof {
                assert(stop@ =~= figures[i as int]);
                assert(reader::interruption_views(all@.push(stop)) =~= before.push(stop@));
                assert(before.push(stop@) =~= rules + figures.take(i + 1));
                assert forall|k: int| 0 <= k < before.push(stop@).len() implies cells::in_reach(
                    (#[trigger] before.push(stop@)[k]).y,
                ) by {
                    if k < before.len() {
                        assert(cells::in_reach(before[k].y));
                    }
                }
            }
            all.push(stop);
            i = i + 1;
        }
        proof {
            assert(figures.take(figures.len() as int) =~= figures);
        }
    } else {
        proof {
            assert(rules + figures =~= rules);
        }
    }
    let ghost av = reader::interruption_views(all@);
    let mut keys: Vec<i128> = Vec::new();
    let mut k: usize = 0;
    while k < all.len()
        invariant
            k <= all@.len(),
            keys@.len() == k,
            forall|j: int| 0 <= j < k ==> #[trigger] keys@[j] == all@[j].y,
        decreases all.len() - k,
    {
        keys.push(all[k].y as i128);
        k = k + 1;
    }
    proof {
        assert(sort::wide(keys@) =~= stop_heights(av));
    }
    let order: Vec<usize> = sort::order_by(&keys);
    let mut out: Vec<Interruption> = Vec::new();
    let mut m: usize = 0;
    while m < order.len()
        invariant
            m <= order@.len() == all@.len(),
            av == reader::interruption_views(all@),
            reader::stops_in_reach(av),
            forall|j: int| 0 <= j < order@.len() ==> #[trigger] order@[j] < all@.len(),
            out@.len() == m,
            forall|j: int| 0 <= j < m ==> (#[trigger] out@[j])@ == av[order@[j] as int],
        decreases order.len() - m,
    {
        out.push(reader::clone_interruption(&all[order[m]]));
        m = m + 1;
    }
    proof {
        let want = sort::pick(av, sort::stable_order(stop_heights(av)));
        assert forall|j: int| 0 <= j < out@.len() implies #[trigger] reader::interruption_views(
            out@,
        )[j] == want[j] by {
            assert(out@[j]@ == av[order@[j] as int]);
            assert(sort::indices(order@)[j] == order@[j]);
        }
        assert(reader::interruption_views(out@) =~= want);
        assert forall|j: int| 0 <= j < out@.len() implies cells::in_reach(
            (#[trigger] reader::interruption_views(out@)[j]).y,
        ) by {
            assert(out@[j]@ == av[order@[j] as int]);
            assert(cells::in_reach(av[order@[j] as int].y));
        }
    }
    out
}

// ---------------------------------------------------------------------------
// Regions of a page
// ---------------------------------------------------------------------------

/// The end of the lines that are in the same region as line `start`, from `end`
/// on.
pub open spec fn region_end(lines: Seq<ProjectedLine>, start: int, end: int) -> int
    decreases lines.len() - end,
{
    if 0 <= end < lines.len() && lines[end].region_path@ == lines[start].region_path@ {
        region_end(lines, start, end + 1)
    } else {
        end
    }
}

/// The smallest top of the lines from `from` to `to`.
pub open spec fn top_of(lines: Seq<ProjectedLine>, from: int, to: int) -> int
    decreases to - from,
{
    if to <= from + 1 {
        lines[from].bbox.y as int
    } else {
        types::min_of(top_of(lines, from, to - 1), lines[to - 1].bbox.y as int)
    }
}

/// The largest bottom of the lines from `from` to `to`.
pub open spec fn bottom_of(lines: Seq<ProjectedLine>, from: int, to: int) -> int
    decreases to - from,
{
    if to <= from + 1 {
        lines[from].bbox.bottom_edge()
    } else {
        types::max_of(bottom_of(lines, from, to - 1), lines[to - 1].bbox.bottom_edge())
    }
}

/// The first interruption from `k` on that is not above `y`.
pub open spec fn stops_above(stops: Seq<InterruptionView>, k: int, y: int) -> int
    decreases stops.len() - k,
{
    if 0 <= k < stops.len() && stops[k].y < y {
        stops_above(stops, k + 1, y)
    } else {
        k
    }
}

/// The first interruption from `k` on that is below `y`.
pub open spec fn stops_within(stops: Seq<InterruptionView>, k: int, y: int) -> int
    decreases stops.len() - k,
{
    if 0 <= k < stops.len() && stops[k].y <= y {
        stops_within(stops, k + 1, y)
    } else {
        k
    }
}

/// The blocks of interruptions.
pub open spec fn stop_blocks(v: Seq<InterruptionView>) -> Seq<BlockView> {
    Seq::new(v.len(), |i: int| v[i].block)
}

/// The blocks of a page so far, where the blocks of each region begin, and the
/// first interruption that was not passed yet.
#[verifier::ext_equal]
pub struct PageState {
    pub blocks: Seq<BlockView>,
    pub starts: Seq<int>,
    pub next: int,
}

/// The state after the region of the lines from `from` to `to`: first the
/// interruptions above it, then its blocks with the interruptions within.
pub open spec fn with_region(
    page: ParsedPage,
    set: SettingView,
    lines: Seq<ProjectedLine>,
    stops: Seq<InterruptionView>,
    st: PageState,
    from: int,
    to: int,
) -> PageState {
    let a = stops_above(stops, st.next, top_of(lines, from, to));
    let b = stops_within(stops, a, bottom_of(lines, from, to));
    let blocks = st.blocks + stop_blocks(stops.subrange(st.next, a));
    let found = region_blocks(page, set, lines.subrange(from, to), stops.subrange(a, b));
    if found.len() == 0 {
        PageState { blocks, starts: st.starts, next: b }
    } else {
        PageState {
            blocks: blocks + found,
            starts: st.starts.push(blocks.len() as int),
            next: b,
        }
    }
}

/// A region is not empty.
pub proof fn lemma_region_end(lines: Seq<ProjectedLine>, start: int, end: int)
    requires
        0 <= end <= lines.len(),
    ensures
        end <= region_end(lines, start, end) <= lines.len(),
    decreases lines.len() - end,
{
    if end < lines.len() && lines[end].region_path@ == lines[start].region_path@ {
        lemma_region_end(lines, start, end + 1);
    }
}

/// The state after the regions from line `i` on.
pub open spec fn regions_from(
    page: ParsedPage,
    set: SettingView,
    lines: Seq<ProjectedLine>,
    stops: Seq<InterruptionView>,
    st: PageState,
    i: int,
) -> PageState
    decreases lines.len() - i,
{
    if i < 0 || i >= lines.len() {
        st
    } else {
        proof {
            lemma_region_end(lines, i, i + 1);
        }
        let e = region_end(lines, i, i + 1);
        regions_from(page, set, lines, stops, with_region(page, set, lines, stops, st, i, e), e)
    }
}

// ---------------------------------------------------------------------------
// Stitching
// ---------------------------------------------------------------------------

/// The text of a paragraph that runs on from one region into the next, where the
/// two texts belong together: a word broken by a hyphen is mended where it goes on
/// with an ASCII letter in lower case, and a sentence that breaks off goes on in
/// lower case.
pub open spec fn stitched_text(prev: Seq<char>, cur: Seq<char>) -> Option<Seq<char>> {
    let p = text::trim_end_of(prev);
    if !paragraphs::starts_lower(cur) {
        None
    } else if text::ends_char(p, '-') && p.len() >= 2 && text::is_ascii_letter(p[p.len() - 2])
        && text::is_ascii_lower(text::trim_start_of(cur)[0]) {
        Some(p.drop_last() + text::trim_start_of(cur))
    } else if paragraphs::ends_open(prev) {
        Some(prev.push(' ') + text::trim_start_of(cur))
    } else {
        None
    }
}

/// Two blocks as one paragraph, where they belong together. The second must have
/// no emphasis as a whole.
pub open spec fn stitched_pair(prev: BlockView, cur: BlockView) -> Option<BlockView> {
    match prev {
        BlockView::Paragraph { text: p, bold, italic } => match cur {
            BlockView::Paragraph { text: c, bold: b2, italic: i2 } => if b2 || i2 {
                None
            } else {
                match stitched_text(p, c) {
                    Some(t) => Some(BlockView::Paragraph { text: t, bold, italic }),
                    None => None,
                }
            },
            _ => None,
        },
        _ => None,
    }
}

/// The first `n` blocks, with the first paragraph of each region but the first
/// joined to the block before where they belong together.
pub open spec fn stitched_upto(blocks: Seq<BlockView>, starts: Seq<int>, n: int) -> Seq<BlockView>
    decreases n,
{
    if n <= 0 {
        seq![]
    } else {
        let before = stitched_upto(blocks, starts, n - 1);
        let joined = if starts.skip(1).contains(n - 1) && before.len() > 0 {
            stitched_pair(before.last(), blocks[n - 1])
        } else {
            None
        };
        match joined {
            Some(b) => before.drop_last().push(b),
            None => before.push(blocks[n - 1]),
        }
    }
}

/// The blocks with paragraphs joined across regions.
pub open spec fn stitched(blocks: Seq<BlockView>, starts: Seq<int>) -> Seq<BlockView> {
    if starts.len() <= 1 {
        blocks
    } else {
        stitched_upto(blocks, starts, blocks.len() as int)
    }
}

fn stitch_text(prev: &str, cur: &str) -> (r: Option<String>)
    ensures
        match r {
            Some(t) => stitched_text(prev@, cur@) == Some(t@),
            None => stitched_text(prev@, cur@) is None,
        },
{
    if !paragraphs::begins_lowercase(cur) {
        return None;
    }
    let p = text::trim_end(prev);
    let rest = text::trim_start(cur);
    let n: usize = p.unicode_len();
    if text::ends_with_char(p, '-') && n >= 2 && text::is_ascii_alphabetic(p.get_char(n - 2))
        && text::is_ascii_lowercase(rest.get_char(0)) {
        let mut out: String = text::to_string(text::take_chars(p, n - 1));
        out.append(rest);
        proof {
            assert(p@.take(n - 1) =~= p@.drop_last());
        }
        return Some(out);
    }
    if paragraphs::breaks_off(prev) {
        let mut out: String = text::to_string(prev);
        out.push(' ');
        out.append(rest);
        return Some(out);
    }
    None
}

fn stitch_pair(prev: &Block, cur: &Block) -> (r: Option<Block>)
    ensures
        match r {
            Some(b) => stitched_pair(prev@, cur@) == Some(b@),
            None => stitched_pair(prev@, cur@) is None,
        },
{
    match prev {
        Block::Paragraph { text: p, bold, italic } => match cur {
            Block::Paragraph { text: c, bold: b2, italic: i2 } => {
                if *b2 || *i2 {
                    return None;
                }
                match stitch_text(p.as_str(), c.as_str()) {
                    Some(t) => Some(Block::Paragraph { text: t, bold: *bold, italic: *italic }),
                    None => None,
                }
            },
            _ => None,
        },
        _ => None,
    }
}

fn is_later_start(starts: &Vec<usize>, k: usize) -> (r: bool)
    requires
        starts@.len() > 0,
    ensures
        r == sort::indices(starts@).skip(1).contains(k as int),
{
    let ghost tail = sort::indices(starts@).skip(1);
    let mut i: usize = 1;
    while i < starts.len()
        invariant
            1 <= i <= starts@.len(),
            tail == sort::indices(starts@).skip(1),
            forall|j: int| 0 <= j < i - 1 ==> tail[j] != k,
        decreases starts.len() - i,
    {
        proof {
            assert(tail[i - 1] == starts@[i as int]);
        }
        if starts[i] == k {
            return true;
        }
        i = i + 1;
    }
    false
}

/// The blocks with paragraphs joined across regions, given where the blocks of
/// each region begin.
pub fn stitch_regions(blocks: Vec<Block>, starts: &Vec<usize>) -> (r: Vec<Block>)
    ensures
        types::block_views(r@) == stitched(types::block_views(blocks@), sort::indices(starts@)),
{
    proof {
        assert(sort::indices(starts@).len() == starts@.len());
    }
    if starts.len() <= 1 {
        return blocks;
    }
    let ghost bv = types::block_views(blocks@);
    let ghost sv = sort::indices(starts@);
    let mut out: Vec<Block> = Vec::new();
    let mut i: usize = 0;
    proof {
        assert(types::block_views(out@) =~= seq![]);
    }
    while i < blocks.len()
        invariant
            i <= blocks@.len(),
            starts@.len() > 1,
            bv == types::block_views(blocks@),
            sv == sort::indices(starts@),
            types::block_views(out@) == stitched_upto(bv, sv, i as int),
        decreases blocks.len() - i,
    {
        let ghost before = types::block_views(out@);
        proof {
            assert(bv[i as int] == blocks@[i as int]@);
        }
        let mut done: bool = false;
        if is_later_start(starts, i) && out.len() > 0 {
            let top: usize = out.len() - 1;
            proof {
                assert(before.last() == out@[top as int]@);
            }
            match stitch_pair(&out[top], &blocks[i]) {
                Some(b) => {
                    proof {
                        assert(types::block_views(out@.update(top as int, b))
                            =~= before.drop_last().push(b@));
                    }
                    out.set(top, b);
                    done = true;
                },
                None => {},
            }
        }
        if !done {
            let b: Block = types::clone_block(&blocks[i]);
            proof {
                assert(types::block_views(out@.push(b)) =~= before.push(b@));
            }
            out.push(b);
        }
        i = i + 1;
    }
    out
}

// ---------------------------------------------------------------------------
// The page
// ---------------------------------------------------------------------------

/// The blocks of a page.
pub open spec fn page_blocks(
    page: ParsedPage,
    map: Seq<(i32, u8)>,
    header_footer: Set<Seq<char>>,
    outline: Seq<OutlineTarget>,
    mode: ImageMode,
    chrome: Seq<usize>,
) -> Seq<BlockView> {
    let lines = kept_upto(page, header_footer, chrome, page.projected_lines@.len() as int);
    let stops = page_stops(page, mode);
    let set = SettingView {
        page_height: page.page_height as int,
        nodes: page.struct_nodes@,
        map,
        outline: headings::entries_on(outline, page.page_number, outline.len() as int),
        toc: is_toc_page(page),
    };
    let st = regions_from(
        page,
        set,
        lines,
        stops,
        PageState { blocks: seq![], starts: seq![], next: 0 },
        0,
    );
    stitched(
        st.blocks + stop_blocks(stops.subrange(st.next, stops.len() as int)),
        st.starts,
    )
}

fn end_of_region(lines: &Vec<ProjectedLine>, start: usize) -> (r: usize)
    requires
        start < lines@.len(),
    ensures
        r == region_end(lines@, start as int, start + 1),
        start < r <= lines@.len(),
{
    let total: usize = lines.len();
    let mut e: usize = start + 1;
    while e < total && paragraphs::same_region(&lines[e].region_path, &lines[start].region_path)
        invariant
            start < e <= total == lines@.len(),
            region_end(lines@, start as int, start + 1) == region_end(
                lines@,
                start as int,
                e as int,
            ),
        decreases total - e,
    {
        e = e + 1;
    }
    e
}

fn vertical_extent(lines: &Vec<ProjectedLine>, from: usize, to: usize) -> (r: (i64, i64))
    requires
        from < to <= lines@.len(),
    ensures
        r.0 == top_of(lines@, from as int, to as int),
        r.1 == bottom_of(lines@, from as int, to as int),
{
    let mut top: i64 = lines[from].bbox.y as i64;
    let mut bottom: i64 = lines[from].bbox.bottom();
    let mut i: usize = from + 1;
    while i < to
        invariant
            from < i <= to <= lines@.len(),
            top == top_of(lines@, from as int, i as int),
            bottom == bottom_of(lines@, from as int, i as int),
        decreases to - i,
    {
        top = types::min64(top, lines[i].bbox.y as i64);
        bottom = types::max64(bottom, lines[i].bbox.bottom());
        i = i + 1;
    }
    (top, bottom)
}

fn clone_lines(lines: &Vec<ProjectedLine>, from: usize, to: usize) -> (r: Vec<ProjectedLine>)
    requires
        from <= to <= lines@.len(),
    ensures
        r@ == lines@.subrange(from as int, to as int),
{
    let mut out: Vec<ProjectedLine> = Vec::new();
    let mut i: usize = from;
    while i < to
        invariant
            from <= i <= to <= lines@.len(),
            out@ == lines@.subrange(from as int, i as int),
        decreases to - i,
    {
        proof {
            assert(lines@.subrange(from as int, i + 1) =~= lines@.subrange(
                from as int,
                i as int,
            ).push(lines@[i as int]));
        }
        out.push(types::clone_line(&lines[i]));
        i = i + 1;
    }
    out
}

/// Append the blocks of the interruptions from `from` to `to`.
fn push_stops(blocks: &mut Vec<Block>, stops: &Vec<Interruption>, from: usize, to: usize)
    requires
        from <= to <= stops@.len(),
    ensures
        types::block_views(final(blocks)@) == types::block_views(old(blocks)@) + stop_blocks(
            reader::interruption_views(stops@).subrange(from as int, to as int),
        ),
{
    let ghost before = types::block_views(blocks@);
    let ghost sv = reader::interruption_views(stops@);
    let ghost want = stop_blocks(sv.subrange(from as int, to as int));
    let mut i: usize = from;
    proof {
        assert(before + want.take(0) =~= before);
    }
    while i < to
        invariant
            from <= i <= to <= stops@.len(),
            sv == reader::interruption_views(stops@),
            want == stop_blocks(sv.subrange(from as int, to as int)),
            types::block_views(blocks@) == before + want.take(i - from),
        decreases to - i,
    {
        let b: Block = types::clone_block(&stops[i].block);
        let ghost prior = types::block_views(blocks@);
        proof {
            assert(types::block_views(blocks@.push(b)) =~= prior.push(b@));
            assert(want[i - from] == b@);
            assert(prior.push(b@) =~= before + want.take(i - from + 1));
        }
        blocks.push(b);
        i = i + 1;
    }
    proof {
        assert(want.take(want.len() as int) =~= want);
    }
}

fn clone_stops(stops: &Vec<Interruption>, from: usize, to: usize) -> (r: Vec<Interruption>)
    requires
        from <= to <= stops@.len(),
        reader::stops_in_reach(reader::interruption_views(stops@)),
    ensures
        reader::interruption_views(r@) == reader::interruption_views(stops@).subrange(
            from as int,
            to as int,
        ),
        reader::stops_in_reach(reader::interruption_views(r@)),
{
    let ghost sv = reader::interruption_views(stops@);
    let ghost want = sv.subrange(from as int, to as int);
    let mut out: Vec<Interruption> = Vec::new();
    let mut i: usize = from;
    while i < to
        invariant
            from <= i <= to <= stops@.len(),
            sv == reader::interruption_views(stops@),
            want == sv.subrange(from as int, to as int),
            out@.len() == i - from,
            forall|k: int| 0 <= k < i - from ==> (#[trigger] out@[k])@ == want[k],
        decreases to - i,
    {
        out.push(reader::clone_interruption(&stops[i]));
        i = i + 1;
    }
    proof {
        assert(reader::interruption_views(out@) =~= want);
        assert forall|k: int| 0 <= k < want.len() implies cells::in_reach(
            (#[trigger] want[k]).y,
        ) by {
            assert(cells::in_reach(sv[from + k].y));
        }
    }
    out
}

fn count_above(stops: &Vec<Interruption>, from: usize, y: i64) -> (r: usize)
    requires
        from <= stops@.len(),
    ensures
        r == stops_above(reader::interruption_views(stops@), from as int, y as int),
        from <= r <= stops@.len(),
{
    let ghost sv = reader::interruption_views(stops@);
    let mut k: usize = from;
    while k < stops.len() && stops[k].y < y
        invariant
            from <= k <= stops@.len(),
            sv == reader::interruption_views(stops@),
            stops_above(sv, from as int, y as int) == stops_above(sv, k as int, y as int),
        decreases stops.len() - k,
    {
        proof {
            assert(sv[k as int] == stops@[k as int]@);
        }
        k = k + 1;
    }
    proof {
        if k < stops@.len() {
            assert(sv[k as int] == stops@[k as int]@);
        }
    }
    k
}

fn count_within(stops: &Vec<Interruption>, from: usize, y: i64) -> (r: usize)
    requires
        from <= stops@.len(),
    ensures
        r == stops_within(reader::interruption_views(stops@), from as int, y as int),
        from <= r <= stops@.len(),
{
    let ghost sv = reader::interruption_views(stops@);
    let mut k: usize = from;
    while k < stops.len() && stops[k].y <= y
        invariant
            from <= k <= stops@.len(),
            sv == reader::interruption_views(stops@),
            stops_within(sv, from as int, y as int) == stops_within(sv, k as int, y as int),
        decreases stops.len() - k,
    {
        proof {
            assert(sv[k as int] == stops@[k as int]@);
        }
        k = k + 1;
    }
    proof {
        if k < stops@.len() {
            assert(sv[k as int] == stops@[k as int]@);
        }
    }
    k
}

fn push_blocks(out: &mut Vec<Block>, more: &Vec<Block>)
    ensures
        types::block_views(final(out)@) == types::block_views(old(out)@) + types::block_views(
            more@,
        ),
{
    let ghost before = types::block_views(out@);
    let ghost mv = types::block_views(more@);
    let mut i: usize = 0;
    proof {
        assert(before + mv.take(0) =~= before);
    }
    while i < more.len()
        invariant
            i <= more@.len(),
            mv == types::block_views(more@),
            types::block_views(out@) == before + mv.take(i as int),
        decreases more.len() - i,
    {
        let b: Block = types::clone_block(&more[i]);
        let ghost prior = types::block_views(out@);
        proof {
            assert(types::block_views(out@.push(b)) =~= prior.push(b@));
            assert(mv[i as int] == b@);
            assert(prior.push(b@) =~= before + mv.take(i + 1));
        }
        out.push(b);
        i = i + 1;
    }
    proof {
        assert(mv.take(mv.len() as int) =~= mv);
    }
}

/// Whether a page is a table of contents, by its entries or by its title.
pub fn is_table_of_contents(page: &ParsedPage) -> (r: bool)
    ensures
        r == is_toc_page(*page),
{
    headings::page_is_toc(page) || has_toc_title(&page.projected_lines)
}

/// The blocks of a page, with images as placeholders.
pub fn classify_page(page: &ParsedPage, heading_map: &Vec<(i32, u8)>) -> (r: Vec<Block>)
    requires
        grid::rules_fit(page.graphics@),
        font_sizes::map_fits(heading_map@),
    ensures
        types::block_views(r@) == page_blocks(
            *page,
            heading_map@,
            Set::empty(),
            seq![],
            ImageMode::Placeholder,
            seq![],
        ),
{
    let none: Vec<String> = Vec::new();
    let outline: Vec<OutlineTarget> = Vec::new();
    let chrome: Vec<usize> = Vec::new();
    proof {
        assert(repetition::string_set(none@) =~= Set::empty());
        assert(outline@ =~= seq![]);
        assert(chrome@ =~= seq![]);
    }
    classify_page_with_filters(
        page,
        heading_map,
        &none,
        &outline,
        ImageMode::Placeholder,
        &chrome,
    )
}

/// The blocks of a page without the running headers and footers of the document
/// and without the lines listed in `chrome_indices`. Entries of the outline that point at
/// other pages are ignored.
pub fn classify_page_with_filters(
    page: &ParsedPage,
    heading_map: &Vec<(i32, u8)>,
    header_footer: &Vec<String>,
    outline: &Vec<OutlineTarget>,
    image_mode: ImageMode,
    chrome_indices: &Vec<usize>,
) -> (r: Vec<Block>)
    requires
        grid::rules_fit(page.graphics@),
        font_sizes::map_fits(heading_map@),
    ensures
        types::block_views(r@) == page_blocks(
            *page,
            heading_map@,
            repetition::string_set(header_footer@),
            outline@,
            image_mode,
            chrome_indices@,
        ),
{
    let toc: bool = is_table_of_contents(page);
    let entries: Vec<OutlineTarget> = headings::page_entries(outline, page.page_number);
    let set = Setting {
        page_height: page.page_height,
        nodes: &page.struct_nodes,
        map: heading_map,
        outline: &entries,
        toc,
    };
    let lines: Vec<ProjectedLine> = keep_lines(page, header_footer, chrome_indices);
    let stops: Vec<Interruption> = collect_stops(page, image_mode);
    let ghost sv = reader::interruption_views(stops@);
    let ghost settings = set@;
    let mut blocks: Vec<Block> = Vec::new();
    let mut starts: Vec<usize> = Vec::new();
    let mut next: usize = 0;
    let mut i: usize = 0;
    let ghost begin = PageState { blocks: seq![], starts: seq![], next: 0 };
    proof {
        assert(types::block_views(blocks@) =~= seq![]);
        assert(sort::indices(starts@) =~= seq![]);
    }
    while i < lines.len()
        invariant
            i <= lines@.len(),
            grid::rules_fit(page.graphics@),
            font_sizes::map_fits(set.map@),
            settings == set@,
            sv == reader::interruption_views(stops@),
            reader::stops_in_reach(sv),
            next <= stops@.len(),
            regions_from(*page, settings, lines@, sv, begin, 0) == regions_from(
                *page,
                settings,
                lines@,
                sv,
                (PageState {
                    blocks: types::block_views(blocks@),
                    starts: sort::indices(starts@),
                    next: next as int,
                }),
                i as int,
            ),
        decreases lines.len() - i,
    {
        let e: usize = end_of_region(&lines, i);
        let extent: (i64, i64) = vertical_extent(&lines, i, e);
        let a: usize = count_above(&stops, next, extent.0);
        let b: usize = count_within(&stops, a, extent.1);
        push_stops(&mut blocks, &stops, next, a);
        let part: Vec<ProjectedLine> = clone_lines(&lines, i, e);
        let within: Vec<Interruption> = clone_stops(&stops, a, b);
        let found: Vec<Block> = classify_region(page, &set, &part, &within);
        proof {
            assert(types::block_views(found@).len() == found@.len());
            assert(types::block_views(blocks@).len() == blocks@.len());
        }
        if found.len() > 0 {
            let at: usize = blocks.len();
            proof {
                assert(sort::indices(starts@.push(at)) =~= sort::indices(starts@).push(at as int));
            }
            starts.push(at);
            push_blocks(&mut blocks, &found);
        }
        next = b;
        i = e;
    }
    push_stops(&mut blocks, &stops, next, stops.len());
    stitch_regions(blocks, &starts)
}

/// Outline entries that point at other pages make no difference to a page.
pub proof fn law_other_entries_are_ignored(
    page: ParsedPage,
    map: Seq<(i32, u8)>,
    header_footer: Set<Seq<char>>,
    outline: Seq<OutlineTarget>,
    mode: ImageMode,
    chrome: Seq<usize>,
)
    ensures
        ({
            let own = headings::entries_on(outline, page.page_number, outline.len() as int);
            &&& forall|i: int|
                0 <= i < own.len() ==> headings::points_at(#[trigger] own[i], page.page_number)
            &&& page_blocks(page, map, header_footer, own, mode, chrome) == page_blocks(
                page,
                map,
                header_footer,
                outline,
                mode,
                chrome,
            )
        }),
{
    let own = headings::entries_on(outline, page.page_number, outline.len() as int);
    headings::lemma_entries_on(outline, page.page_number, outline.len() as int);
    headings::lemma_all_entries(own, page.page_number, own.len() as int);
    assert(own.take(own.len() as int) =~= own);
}

/// The blocks other than paragraphs among the first `n`.
pub open spec fn others_upto(blocks: Seq<BlockView>, n: int) -> Seq<BlockView>
    decreases n,
{
    if n <= 0 {
        seq![]
    } else if blocks[n - 1] is Paragraph {
        others_upto(blocks, n - 1)
    } else {
        others_upto(blocks, n - 1).push(blocks[n - 1])
    }
}

/// Stitching makes no more blocks, and leaves all blocks but paragraphs as they are.
pub proof fn law_stitching_joins_paragraphs_only(blocks: Seq<BlockView>, starts: Seq<int>)
    ensures
        stitched(blocks, starts).len() <= blocks.len(),
        others_upto(stitched(blocks, starts), stitched(blocks, starts).len() as int)
            == others_upto(blocks, blocks.len() as int),
{
    lemma_stitched_others(blocks, starts, blocks.len() as int);
}

proof fn lemma_others_prefix(a: Seq<BlockView>, b: Seq<BlockView>, n: int)
    requires
        0 <= n <= a.len(),
        n <= b.len(),
        forall|i: int| 0 <= i < n ==> a[i] == b[i],
    ensures
        others_upto(a, n) == others_upto(b, n),
    decreases n,
{
    if n > 0 {
        lemma_others_prefix(a, b, n - 1);
    }
}

proof fn lemma_stitched_others(blocks: Seq<BlockView>, starts: Seq<int>, n: int)
    requires
        0 <= n <= blocks.len(),
    ensures
        stitched_upto(blocks, starts, n).len() <= n,
        others_upto(
            stitched_upto(blocks, starts, n),
            stitched_upto(blocks, starts, n).len() as int,
        ) == others_upto(blocks, n),
    decreases n,
{
    if n > 0 {
        lemma_stitched_others(blocks, starts, n - 1);
        let before = stitched_upto(blocks, starts, n - 1);
        let after = stitched_upto(blocks, starts, n);
        let m = before.len() as int;
        let joined = if starts.skip(1).contains(n - 1) && m > 0 {
            stitched_pair(before.last(), blocks[n - 1])
        } else {
            None
        };
        match joined {
            Some(b) => {
                assert(after =~= before.drop_last().push(b));
                lemma_others_prefix(after, before, m - 1);
                assert(before[m - 1] is Paragraph && b is Paragraph);
            },
            None => {
                assert(after =~= before.push(blocks[n - 1]));
                lemma_others_prefix(after, before, m);
            },
        }
    }
}

} // verus!
