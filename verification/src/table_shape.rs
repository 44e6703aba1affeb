//! Every table has the same number of cells in each of its rows.

use vstd::prelude::*;
use crate::cells::CellView;
use crate::column_tables;
use crate::grid;
use crate::grid::{GroupView, SegView};
use crate::inferred;
use crate::join_tables;
use crate::page_classify;
use crate::page_ruled;
use crate::page_tables;
use crate::region_classify;
use crate::region_ruled;
use crate::region_tables;
use crate::render;
use crate::rows;
use crate::rows::{RowView, RunView};
use crate::ruled_grid;
use crate::ruled_grid::GridCellView;
use crate::sort;
use crate::tracks;
use crate::tracks::Track;
use crate::types::{BlockView, ParsedPage, ProjectedLine, TextItem};

verus! {

/// Whether a block is a table whose rows all have as many cells as its header, or as its
/// first row where it has no header, or a table whose lines are kept verbatim.
pub open spec fn is_rectangular(b: BlockView) -> bool {
    match b {
        BlockView::Table { header, rows } => forall|i: int|
            0 <= i < rows.len() ==> (#[trigger] rows[i]).len() == render::columns_of(header, rows),
        BlockView::GridFallback { .. } => true,
        _ => false,
    }
}

/// Whether all runs are rectangular.
pub open spec fn all_rectangular(v: Seq<RunView>) -> bool {
    forall|i: int| 0 <= i < v.len() ==> is_rectangular((#[trigger] v[i]).block)
}

/// Whether all rows have `n` cells.
spec fn rows_have(found: Seq<RowView>, n: nat) -> bool {
    forall|i: int| 0 <= i < found.len() ==> (#[trigger] found[i]).cells.len() == n
}

// ---------------------------------------------------------------------------
// Rows of equal length
// ---------------------------------------------------------------------------

proof fn lemma_plain_rows(
    lines: Seq<ProjectedLine>,
    cols: Seq<int>,
    found: Seq<RowView>,
    j: int,
)
    requires
        rows_have(found, cols.len()),
        0 <= j,
    ensures
        rows_have(page_tables::rows_from(lines, cols, found, j), cols.len()),
    decreases lines.len() - j,
{
    if j < lines.len() && rows::rows_adjacent(lines[found.last().line], lines[j]) {
        let row = page_tables::row_cells(lines[j], cols);
        if page_tables::row_fits(row, cols) {
            lemma_plain_rows(lines, cols, found.push(RowView { line: j, cells: row }), j + 1);
        }
    }
}

proof fn lemma_run_covers(item: TextItem, cols: Seq<int>, n: int)
    ensures
        forall|i: int|
            0 <= i < inferred::run_covers_upto(item, cols, n).len() ==> 0 <= (
            #[trigger] inferred::run_covers_upto(item, cols, n)[i]) < n,
    decreases n,
{
    if n > 0 {
        lemma_run_covers(item, cols, n - 1);
        let before = inferred::run_covers_upto(item, cols, n - 1);
        let after = inferred::run_covers_upto(item, cols, n);
        assert forall|i: int| 0 <= i < after.len() implies 0 <= (#[trigger] after[i]) < n by {
            if i < before.len() {
                assert(after[i] == before[i]);
            }
        }
    }
}

proof fn lemma_with_pieces(
    row: Seq<CellView>,
    at: Seq<int>,
    pieces: Seq<Seq<char>>,
    bold: bool,
    n: int,
)
    requires
        n <= at.len(),
        forall|i: int| 0 <= i < at.len() ==> 0 <= #[trigger] at[i] < row.len(),
    ensures
        inferred::with_pieces(row, at, pieces, bold, n).len() == row.len(),
    decreases n,
{
    if n > 0 {
        lemma_with_pieces(row, at, pieces, bold, n - 1);
        assert(0 <= at[n - 1] < row.len());
    }
}

proof fn lemma_raw_upto(spans: Seq<TextItem>, at: Seq<int>, cols: Seq<int>, n: int)
    ensures
        match inferred::raw_upto(spans, at, cols, n) {
            Some(row) => row.len() == cols.len(),
            None => true,
        },
    decreases n,
{
    if n > 0 {
        lemma_raw_upto(spans, at, cols, n - 1);
        match inferred::raw_upto(spans, at, cols, n - 1) {
            Some(row) => {
                let item = spans[at[n - 1]];
                let over = inferred::run_covers(item, cols);
                lemma_run_covers(item, cols, cols.len() as int);
                if over.len() == 1 {
                    assert(0 <= over[0] < row.len());
                }
                if inferred::with_run(row, item, cols) is Some && over.len() > 1 {
                    let pieces = crate::cells::pieces_for(
                        item.text@,
                        inferred::columns_at(cols, over),
                        item.x as int,
                        crate::types::max_of(item.width as int, crate::types::PT as int),
                    )->0;
                    lemma_with_pieces(row, over, pieces, item.bold, over.len() as int);
                }
            },
            None => {},
        }
    }
}

proof fn lemma_raw_cells(line: ProjectedLine, cols: Seq<int>)
    ensures
        match inferred::raw_cells(line, cols) {
            Some(row) => row.len() == cols.len(),
            None => true,
        },
{
    let at = crate::span_text::left_to_right(line.spans@);
    lemma_raw_upto(line.spans@, at, cols, at.len() as int);
}

proof fn lemma_inferred_rows(
    lines: Seq<ProjectedLine>,
    cols: Seq<int>,
    edge: int,
    found: Seq<RowView>,
    j: int,
)
    requires
        rows_have(found, cols.len()),
        found.len() > 0,
    ensures
        rows_have(column_tables::inferred_rows(lines, cols, edge, found, j).rows, cols.len()),
        column_tables::inferred_rows(lines, cols, edge, found, j).rows.len() > 0,
    decreases lines.len() - j,
{
    if 0 <= j < lines.len() {
        lemma_raw_cells(lines[j], cols);
        if lines[j].bbox.x > edge {
            lemma_inferred_rows(lines, cols, edge, found, j + 1);
        } else if rows::rows_adjacent(lines[found.last().line], lines[j]) {
            match inferred::raw_cells(lines[j], cols) {
                Some(row) => {
                    lemma_inferred_rows(
                        lines,
                        cols,
                        edge,
                        found.push(RowView { line: j, cells: row }),
                        j + 1,
                    );
                },
                None => {},
            }
        }
    }
}

proof fn lemma_placed(base: Seq<CellView>, row: Seq<CellView>, v: Seq<Track>, n: int)
    requires
        base.len() == v.len(),
    ensures
        column_tables::placed_upto(base, row, v, n).len() == v.len(),
        column_tables::wrapped_upto(base, row, v, n).len() == v.len(),
    decreases n,
{
    if n > 0 {
        lemma_placed(base, row, v, n - 1);
        tracks::law_track_of(row[n - 1], v);
    }
}

proof fn lemma_column_rows(
    lines: Seq<ProjectedLine>,
    cols: Seq<int>,
    v: Seq<Track>,
    edge: int,
    found: Seq<RowView>,
    j: int,
)
    requires
        cols.len() == v.len(),
        rows_have(found, v.len()),
        found.len() > 0,
    ensures
        rows_have(column_tables::column_rows(lines, cols, v, edge, found, j).rows, v.len()),
        column_tables::column_rows(lines, cols, v, edge, found, j).rows.len() > 0,
    decreases lines.len() - j,
{
    if 0 <= j < lines.len() {
        if lines[j].bbox.x > edge {
            lemma_column_rows(lines, cols, v, edge, found, j + 1);
        } else if rows::rows_adjacent(lines[found.last().line], lines[j]) {
            match column_tables::rows_with_line(lines, cols, v, found, j) {
                Some(more) => {
                    let row = page_tables::row_cells(lines[j], cols);
                    let m = row.len() as int;
                    lemma_placed(inferred::blank_cells(cols), row, v, m);
                    assert(found[found.len() - 1].cells.len() == v.len());
                    lemma_placed(found.last().cells, row, v, m);
                    lemma_column_rows(lines, cols, v, edge, more, j + 1);
                },
                None => {},
            }
        }
    }
}

proof fn lemma_spread(texts: Seq<Seq<char>>, row: Seq<CellView>, v: Seq<Track>, n: int)
    requires
        texts.len() == v.len(),
    ensures
        tracks::spread_upto(texts, row, v, n).len() == v.len(),
    decreases n,
{
    if n > 0 {
        lemma_spread(texts, row, v, n - 1);
        tracks::law_track_of(row[n - 1], v);
    }
}

proof fn lemma_header_texts(lines: Seq<ProjectedLine>, from: int, to: int, v: Seq<Track>)
    ensures
        tracks::header_texts(lines, from, to, v).len() == v.len(),
    decreases to - from,
{
    if to > from {
        lemma_header_texts(lines, from, to - 1, v);
        let row = crate::cells::cells_of(lines[to - 1]);
        lemma_spread(tracks::header_texts(lines, from, to - 1, v), row, v, row.len() as int);
    }
}

proof fn lemma_table_run(
    lines: Seq<ProjectedLine>,
    start: int,
    floor: int,
    scan: column_tables::Scan,
    v: Seq<Track>,
    bold: bool,
)
    requires
        rows_have(scan.rows, v.len()),
        scan.rows.len() > 0,
    ensures
        is_rectangular(column_tables::table_run(lines, start, floor, scan, v, bold).block),
{
    let texts = rows::row_cell_texts(scan.rows);
    assert forall|i: int| 0 <= i < texts.len() implies (#[trigger] texts[i]).len() == v.len() by {
        assert(scan.rows[i].cells.len() == v.len());
    }
    assert(scan.rows[0].cells.len() == v.len());
    let top = tracks::header_top(lines, start, v, floor);
    lemma_header_texts(lines, top, start, v);
}

// ---------------------------------------------------------------------------
// Tables without rules
// ---------------------------------------------------------------------------

proof fn lemma_plain_table(lines: Seq<ProjectedLine>, start: int)
    requires
        0 <= start,
    ensures
        match page_tables::table_at(lines, start) {
            Some(run) => is_rectangular(run.block),
            None => true,
        },
{
    let first = crate::cells::cells_of(lines[start]);
    let cols = rows::starts_of(first);
    let begun = seq![RowView { line: start, cells: first }];
    let found = page_tables::rows_from(lines, cols, begun, start + 1);
    assert(rows_have(begun, cols.len()));
    lemma_plain_rows(lines, cols, begun, start + 1);
    let texts = rows::row_cell_texts(found);
    assert forall|i: int| 0 <= i < texts.len() implies (#[trigger] texts[i]).len() == cols.len() by {
        assert(found[i].cells.len() == cols.len());
    }
}

proof fn lemma_plain_tables(lines: Seq<ProjectedLine>, i: int, out: Seq<RunView>)
    requires
        all_rectangular(out),
    ensures
        all_rectangular(page_tables::tables_from(lines, i, out)),
    decreases lines.len() - i,
{
    if 0 <= i < lines.len() {
        let first = crate::cells::cells_of(lines[i]);
        page_tables::lemma_rows_from(
            lines,
            rows::starts_of(first),
            seq![RowView { line: i, cells: first }],
            i + 1,
        );
        lemma_plain_table(lines, i);
        match page_tables::table_at(lines, i) {
            Some(run) => {
                lemma_plain_tables(lines, run.end, out.push(run));
            },
            None => {
                lemma_plain_tables(lines, i + 1, out);
            },
        }
    }
}

proof fn lemma_found_table(lines: Seq<ProjectedLine>, i: int, floor: int)
    ensures
        match region_tables::found_at(lines, i, floor) {
            Some(run) => is_rectangular(run.block),
            None => true,
        },
{
    let line = lines[i];
    let cols = inferred::inferred_tracks(lines, i);
    lemma_raw_cells(line, cols);
    match inferred::raw_cells(line, cols) {
        Some(first) => {
            let begun = seq![RowView { line: i, cells: first }];
            let edge = cols.last() + column_tables::RIGHT_EDGE_SLACK;
            let scan = column_tables::inferred_rows(lines, cols, edge, begun, i + 1);
            let v = column_tables::thin_tracks(cols);
            assert(rows_have(begun, cols.len()));
            lemma_inferred_rows(lines, cols, edge, begun, i + 1);
            lemma_table_run(lines, i, floor, scan, v, column_tables::bold_and_filled(first));
        },
        None => {},
    }
    let first = crate::cells::cells_of(line);
    let v = tracks::extents_of(first);
    let starts = rows::starts_of(first);
    let edge = column_tables::right_edge_upto(first, first.len() as int)
        + column_tables::RIGHT_EDGE_SLACK;
    let begun = seq![RowView { line: i, cells: first }];
    let scan = column_tables::column_rows(lines, starts, v, edge, begun, i + 1);
    assert(rows_have(begun, v.len()));
    lemma_column_rows(lines, starts, v, edge, begun, i + 1);
    lemma_table_run(lines, i, floor, scan, v, rows::all_bold(scan.rows[0].cells));
}

proof fn lemma_found_tables(lines: Seq<ProjectedLine>, i: int, floor: int, out: Seq<RunView>)
    requires
        all_rectangular(out),
    ensures
        all_rectangular(region_tables::tables_from(lines, i, floor, out)),
    decreases lines.len() - i,
{
    if 0 <= i < lines.len() {
        lemma_found_table(lines, i, floor);
        match region_tables::found_at(lines, i, floor) {
            Some(run) => {
                if i < run.end <= lines.len() {
                    lemma_found_tables(lines, run.end, run.end, out.push(run));
                }
            },
            None => {
                lemma_found_tables(lines, i + 1, floor, out);
            },
        }
    }
}

proof fn lemma_joined_pair(lines: Seq<ProjectedLine>, a: RunView, b: RunView)
    requires
        is_rectangular(a.block),
        is_rectangular(b.block),
    ensures
        match join_tables::joined_pair(lines, a, b) {
            Some(run) => is_rectangular(run.block),
            None => true,
        },
{
    match join_tables::joined_pair(lines, a, b) {
        Some(run) => {
            let n = join_tables::column_count(b.block)->0;
            assert(n >= 0);
            let rows = run.block->rows;
            let ar = a.block->rows;
            let br = b.block->rows;
            assert forall|i: int| 0 <= i < br.len() implies (#[trigger] br[i]).len() == n by {}
            if join_tables::column_count(a.block) == Some(n) {
                assert forall|i: int| 0 <= i < ar.len() implies (#[trigger] ar[i]).len() == n by {}
            }
            assert forall|i: int| 0 <= i < rows.len() implies (#[trigger] rows[i]).len() == n by {}
        },
        None => {},
    }
}

proof fn lemma_joined(lines: Seq<ProjectedLine>, v: Seq<RunView>, n: int)
    requires
        0 <= n <= v.len(),
        all_rectangular(v),
    ensures
        all_rectangular(join_tables::joined_upto(lines, v, n)),
    decreases n,
{
    if n > 0 {
        lemma_joined(lines, v, n - 1);
        let before = join_tables::joined_upto(lines, v, n - 1);
        if before.len() > 0 {
            assert(is_rectangular(before[before.len() - 1].block));
            lemma_joined_pair(lines, before.last(), v[n - 1]);
        }
    }
}

// ---------------------------------------------------------------------------
// Tables with rules
// ---------------------------------------------------------------------------

proof fn lemma_grid_table(g: Seq<Seq<GridCellView>>, n: nat)
    requires
        g.len() > 0,
        forall|r: int| 0 <= r < g.len() ==> (#[trigger] g[r]).len() == n,
    ensures
        is_rectangular(ruled_grid::grid_table(g)),
{
    let texts = ruled_grid::texts_in_grid(g);
    assert forall|r: int| 0 <= r < texts.len() implies (#[trigger] texts[r]).len() == n by {
        assert(g[r].len() == n);
    }
    assert(g[0].len() == n);
}

proof fn lemma_page_ruled(
    hs: Seq<SegView>,
    vs: Seq<SegView>,
    groups: Seq<GroupView>,
    lines: Seq<ProjectedLine>,
    page_width: int,
    page_height: int,
    n: int,
)
    ensures
        all_rectangular(
            page_ruled::ruled_upto(hs, vs, groups, lines, page_width, page_height, n),
        ),
    decreases n,
{
    if n > 0 {
        lemma_page_ruled(hs, vs, groups, lines, page_width, page_height, n - 1);
        match page_ruled::ruled_table(hs, vs, groups[n - 1], lines, page_width, page_height) {
            Some(run) => {
                let ys = ruled_grid::boundaries(hs, groups[n - 1].hs);
                let xs = ruled_grid::boundaries(vs, groups[n - 1].vs);
                let at = ruled_grid::places(ys, xs, lines);
                let g = ruled_grid::filled_grid(lines, at, ys.len() - 1, xs.len() - 1);
                lemma_grid_table(g, (xs.len() - 1) as nat);
            },
            None => {},
        }
    }
}

proof fn lemma_region_ruled(
    hs: Seq<SegView>,
    vs: Seq<SegView>,
    groups: Seq<GroupView>,
    lines: Seq<ProjectedLine>,
    page_width: int,
    page_height: int,
    n: int,
)
    ensures
        all_rectangular(
            region_ruled::ruled_upto(hs, vs, groups, lines, page_width, page_height, n),
        ),
    decreases n,
{
    if n > 0 {
        lemma_region_ruled(hs, vs, groups, lines, page_width, page_height, n - 1);
        match region_ruled::ruled_table(hs, vs, groups[n - 1], lines, page_width, page_height) {
            Some(run) => {
                let ys = ruled_grid::boundaries(hs, groups[n - 1].hs);
                let xs = ruled_grid::boundaries(vs, groups[n - 1].vs);
                let at = ruled_grid::places(ys, xs, lines);
                let full = ruled_grid::filled_grid(lines, at, ys.len() - 1, xs.len() - 1);
                let kept_rows = region_ruled::kept_bands(
                    region_ruled::gaps(ys),
                    region_ruled::row_marks(full),
                    1,
                    2,
                );
                let kept_cols = region_ruled::kept_bands(
                    region_ruled::gaps(xs),
                    region_ruled::column_marks(full, kept_rows, (xs.len() - 1) as nat),
                    3,
                    10,
                );
                lemma_grid_table(
                    region_ruled::picked(full, kept_rows, kept_cols),
                    kept_cols.len(),
                );
            },
            None => {},
        }
    }
}

// ---------------------------------------------------------------------------
// All tables
// ---------------------------------------------------------------------------

proof fn lemma_in_order(v: Seq<RunView>)
    requires
        all_rectangular(v),
    ensures
        all_rectangular(rows::in_order(v)),
{
    let order = sort::stable_order(rows::run_starts(v));
    sort::law_stable_order(rows::run_starts(v));
    assert forall|i: int| 0 <= i < rows::in_order(v).len() implies is_rectangular(
        (#[trigger] rows::in_order(v)[i]).block,
    ) by {
        assert(0 <= order[i] < v.len());
    }
}

proof fn lemma_with_disjoint(kept: Seq<RunView>, more: Seq<RunView>, n: int)
    requires
        0 <= n <= more.len(),
        all_rectangular(kept),
        all_rectangular(more),
    ensures
        all_rectangular(rows::with_disjoint(kept, more, n)),
    decreases n,
{
    if n > 0 {
        lemma_with_disjoint(kept, more, n - 1);
    }
}

proof fn lemma_standing(ruled: Seq<RunView>, borderless: Seq<RunView>, n: int)
    requires
        0 <= n <= ruled.len(),
        all_rectangular(ruled),
    ensures
        all_rectangular(region_ruled::standing_upto(ruled, borderless, n)),
    decreases n,
{
    if n > 0 {
        lemma_standing(ruled, borderless, n - 1);
    }
}

/// All rows of a table of a page have the same number of cells, whatever the lines.
pub proof fn law_page_tables_are_rectangular(page: ParsedPage, lines: Seq<ProjectedLine>)
    ensures
        all_rectangular(page_classify::tables_of(page, lines)),
{
    let graphics = page.graphics@;
    let hs = grid::clustered(grid::horizontal_upto(graphics, graphics.len() as int));
    let vs = grid::clustered(grid::vertical_upto(graphics, graphics.len() as int));
    let groups = grid::components(hs, vs);
    let w = page.page_width as int;
    let h = page.page_height as int;
    lemma_page_ruled(hs, vs, groups, lines, w, h, groups.len() as int);
    lemma_in_order(page_ruled::ruled_upto(hs, vs, groups, lines, w, h, groups.len() as int));
    let ruled = page_ruled::ruled_tables(lines, graphics, w, h);
    let plain = page_tables::tables_from(lines, 0, seq![]);
    lemma_plain_tables(lines, 0, seq![]);
    lemma_with_disjoint(ruled, plain, plain.len() as int);
    lemma_in_order(rows::with_disjoint(ruled, plain, plain.len() as int));
}

/// All rows of a table of a region have the same number of cells, whatever the lines.
pub proof fn law_region_tables_are_rectangular(page: ParsedPage, lines: Seq<ProjectedLine>)
    ensures
        all_rectangular(region_classify::tables_of(page, lines)),
{
    let graphics = page.graphics@;
    let hs = grid::clustered(grid::horizontal_upto(graphics, graphics.len() as int));
    let vs = grid::clustered(grid::vertical_upto(graphics, graphics.len() as int));
    let groups = grid::components(hs, vs);
    let w = page.page_width as int;
    let h = page.page_height as int;
    lemma_region_ruled(hs, vs, groups, lines, w, h, groups.len() as int);
    lemma_in_order(region_ruled::ruled_upto(hs, vs, groups, lines, w, h, groups.len() as int));
    let ruled = region_ruled::ruled_tables(lines, graphics, w, h);
    let found = region_tables::tables_from(lines, 0, 0, seq![]);
    let plain = region_tables::tables_in(lines);
    lemma_found_tables(lines, 0, 0, seq![]);
    lemma_joined(lines, found, found.len() as int);
    let standing = region_ruled::standing_upto(ruled, plain, ruled.len() as int);
    lemma_standing(ruled, plain, ruled.len() as int);
    lemma_with_disjoint(standing, plain, plain.len() as int);
    lemma_in_order(rows::with_disjoint(standing, plain, plain.len() as int));
}

} // verus!
