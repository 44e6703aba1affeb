//! Tables without rules, found line by line on a whole page: consecutive lines
//! with the same number of cells at the same places.

use vstd::prelude::*;
use crate::cells;
use crate::cells::{CellView, TableCell};
use crate::rows;
use crate::rows::{RowView, RunView, TableRow, TableRun};
use crate::sort;
use crate::types;
use crate::types::{Block, BlockView, ProjectedLine};

verus! {

/// How many of the first `n` cells start away from their column.
pub open spec fn drifted_upto(row: Seq<CellView>, tracks: Seq<int>, n: int) -> nat
    decreases n,
{
    if n <= 0 {
        0
    } else {
        drifted_upto(row, tracks, n - 1) + if types::dist(row[n - 1].start_x, tracks[n - 1])
            > cells::TABLE_TRACK_TOLERANCE {
            1nat
        } else {
            0nat
        }
    }
}

/// The cells of a line as a row under the given columns. A row that is short of
/// cells, but not of too many, is mended when that works.
pub open spec fn row_cells(line: ProjectedLine, tracks: Seq<int>) -> Seq<CellView> {
    let row = cells::cells_of(line);
    if rows::TABLE_MIN_COLUMNS <= row.len() < tracks.len() {
        match cells::mended(row, tracks) {
            Some(m) => m,
            None => row,
        }
    } else {
        row
    }
}

/// Whether a row has one cell per column, of which at most one drifted away.
pub open spec fn row_fits(row: Seq<CellView>, tracks: Seq<int>) -> bool {
    row.len() == tracks.len() && drifted_upto(row, tracks, row.len() as int) <= 1
}

/// The rows of the table that has `found` so far, with line `j` next: lines are
/// added as long as they follow closely and fit the columns.
pub open spec fn rows_from(
    lines: Seq<ProjectedLine>,
    tracks: Seq<int>,
    found: Seq<RowView>,
    j: int,
) -> Seq<RowView>
    decreases lines.len() - j,
{
    if j >= lines.len() || !rows::rows_adjacent(lines[found.last().line], lines[j]) {
        found
    } else {
        let row = row_cells(lines[j], tracks);
        if !row_fits(row, tracks) {
            found
        } else {
            rows_from(lines, tracks, found.push(RowView { line: j, cells: row }), j + 1)
        }
    }
}

/// Each row of a table takes one line.
pub proof fn lemma_rows_from(
    lines: Seq<ProjectedLine>,
    tracks: Seq<int>,
    found: Seq<RowView>,
    j: int,
)
    requires
        0 <= j <= lines.len(),
    ensures
        found.len() <= rows_from(lines, tracks, found, j).len() <= found.len() + lines.len() - j,
    decreases lines.len() - j,
{
    if j < lines.len() && rows::rows_adjacent(lines[found.last().line], lines[j]) {
        let row = row_cells(lines[j], tracks);
        if row_fits(row, tracks) {
            lemma_rows_from(lines, tracks, found.push(RowView { line: j, cells: row }), j + 1);
        }
    }
}

/// The table that begins with line `start`, if one does. Its first line sets the
/// columns. Rows that are too irregularly spaced are kept verbatim; else the
/// first row is the header when all its cells are bold.
pub open spec fn table_at(lines: Seq<ProjectedLine>, start: int) -> Option<RunView> {
    let first = cells::cells_of(lines[start]);
    let found = rows_from(
        lines,
        rows::starts_of(first),
        seq![RowView { line: start, cells: first }],
        start + 1,
    );
    if first.len() < rows::TABLE_MIN_COLUMNS || found.len() < rows::TABLE_MIN_ROWS {
        None
    } else {
        Some(
            RunView {
                start,
                end: start + found.len(),
                block: if rows::spacing_irregular(lines, rows::row_lines(found)) {
                    BlockView::GridFallback { lines: rows::verbatim_lines(lines, found) }
                } else if rows::all_bold(first) {
                    BlockView::Table {
                        header: Some(cells::cell_texts(first)),
                        rows: rows::row_cell_texts(found).skip(1),
                    }
                } else {
                    BlockView::Table { header: None, rows: rows::row_cell_texts(found) }
                },
            },
        )
    }
}

/// `out` followed by the tables that begin at line `i` or later, each as early
/// as possible.
pub open spec fn tables_from(
    lines: Seq<ProjectedLine>,
    i: int,
    out: Seq<RunView>,
) -> Seq<RunView>
    decreases lines.len() - i,
{
    if i < 0 || i >= lines.len() {
        out
    } else {
        proof {
            let first = cells::cells_of(lines[i]);
            lemma_rows_from(
                lines,
                rows::starts_of(first),
                seq![RowView { line: i, cells: first }],
                i + 1,
            );
        }
        match table_at(lines, i) {
            Some(run) => tables_from(lines, run.end, out.push(run)),
            None => tables_from(lines, i + 1, out),
        }
    }
}

fn count_drifted(row: &Vec<TableCell>, tracks: &Vec<i64>) -> (r: usize)
    requires
        row@.len() == tracks@.len(),
        cells::cells_in_reach(cells::cell_views(row@)),
        forall|i: int| 0 <= i < tracks@.len() ==> cells::in_reach(#[trigger] tracks@[i] as int),
    ensures
        r == drifted_upto(cells::cell_views(row@), sort::ints(tracks@), row@.len() as int),
{
    let ghost cv = cells::cell_views(row@);
    let ghost ts = sort::ints(tracks@);
    let mut count: usize = 0;
    let mut i: usize = 0;
    while i < row.len()
        invariant
            i <= row@.len() == tracks@.len(),
            cv == cells::cell_views(row@),
            ts == sort::ints(tracks@),
            cells::cells_in_reach(cv),
            forall|k: int| 0 <= k < tracks@.len() ==> cells::in_reach(#[trigger] tracks@[k] as int),
            count <= i,
            count == drifted_upto(cv, ts, i as int),
        decreases row.len() - i,
    {
        proof {
            assert(cells::in_reach(cv[i as int].start_x));
        }
        if types::dist64(row[i].start_x, tracks[i]) > cells::TABLE_TRACK_TOLERANCE {
            count = count + 1;
        }
        i = i + 1;
    }
    count
}

/// The cells of a line as a row under the given columns.
pub fn cells_as_row(line: &ProjectedLine, tracks: &Vec<i64>) -> (r: Vec<TableCell>)
    requires
        forall|i: int| 0 <= i < tracks@.len() ==> cells::in_reach(#[trigger] tracks@[i] as int),
    ensures
        cells::cell_views(r@) == row_cells(*line, sort::ints(tracks@)),
        cells::cells_in_reach(cells::cell_views(r@)),
{
    let row: Vec<TableCell> = cells::split_cells(line);
    if row.len() < tracks.len() && row.len() >= rows::TABLE_MIN_COLUMNS {
        let again: Vec<TableCell> = cells::split_cells(line);
        match cells::recover_merged_cell(again, tracks) {
            Some(m) => m,
            None => row,
        }
    } else {
        row
    }
}

/// The table that begins with line `start`, if one does.
pub fn try_detect_table(lines: &Vec<ProjectedLine>, start: usize) -> (r: Option<TableRun>)
    requires
        start < lines@.len(),
    ensures
        match r {
            Some(run) => table_at(lines@, start as int) == Some(run@) && rows::run_fits(
                run@,
                lines@.len() as int,
            ) && run.start == start,
            None => table_at(lines@, start as int) is None,
        },
{
    let first: Vec<TableCell> = cells::split_cells(&lines[start]);
    if first.len() < rows::TABLE_MIN_COLUMNS {
        return None;
    }
    let ghost fv = cells::cell_views(first@);
    let tracks: Vec<i64> = rows::cell_starts(&first);
    let bold: bool = rows::row_all_bold(&first);
    let header: Vec<String> = rows::texts_of_cells(&first);
    let ghost ts = sort::ints(tracks@);
    proof {
        assert forall|i: int| 0 <= i < tracks@.len() implies cells::in_reach(
            #[trigger] tracks@[i] as int,
        ) by {
            assert(cells::in_reach(fv[i].start_x));
        }
    }
    let mut found: Vec<TableRow> = Vec::new();
    found.push(TableRow { line: start, cells: first });
    let ghost seed = seq![RowView { line: start as int, cells: fv }];
    proof {
        assert(rows::row_views(found@) =~= seed);
    }
    let total: usize = lines.len();
    let mut j: usize = start + 1;
    let mut more: bool = true;
    while more && j < total
        invariant
            start < j <= total == lines@.len(),
            ts == sort::ints(tracks@),
            tracks@.len() >= 3,
            forall|i: int| 0 <= i < tracks@.len() ==> cells::in_reach(#[trigger] tracks@[i] as int),
            found@.len() == j - start,
            forall|i: int| 0 <= i < found@.len() ==> (#[trigger] found@[i]).line == start + i,
            rows::row_views(found@)[0] == seed[0],
            more ==> rows_from(lines@, ts, seed, start + 1) == rows_from(
                lines@,
                ts,
                rows::row_views(found@),
                j as int,
            ),
            !more ==> rows_from(lines@, ts, seed, start + 1) == rows::row_views(found@),
        decreases total - j, (if more { 1int } else { 0int }),
    {
        let ghost fvs = rows::row_views(found@);
        let prev: usize = found[found.len() - 1].line;
        proof {
            assert(fvs.last().line == prev);
        }
        if !rows::table_rows_adjacent(&lines[prev], &lines[j]) {
            more = false;
        } else {
            let row: Vec<TableCell> = cells_as_row(&lines[j], &tracks);
            if row.len() != tracks.len() || count_drifted(&row, &tracks) > 1 {
                more = false;
            } else {
                let next = TableRow { line: j, cells: row };
                proof {
                    assert(rows::row_views(found@.push(next)) =~= fvs.push(next@));
                }
                found.push(next);
                j = j + 1;
            }
        }
    }
    if found.len() < rows::TABLE_MIN_ROWS {
        return None;
    }
    let ghost all = rows::row_views(found@);
    let block: Block = if rows::row_spacing_irregular(lines, &found) {
        Block::GridFallback { lines: rows::verbatim(lines, &found) }
    } else if bold {
        Block::Table { header: Some(header), rows: rows::texts_of_rows(&found, 1) }
    } else {
        let body: Vec<Vec<String>> = rows::texts_of_rows(&found, 0);
        proof {
            assert(rows::row_cell_texts(all).skip(0) =~= rows::row_cell_texts(all));
        }
        Block::Table { header: None, rows: body }
    };
    Some(TableRun { start, end: j, block })
}

/// All tables without rules, from top to bottom. They share no line.
pub fn detect_tables(lines: &Vec<ProjectedLine>) -> (r: Vec<TableRun>)
    ensures
        rows::run_views(r@) == tables_from(lines@, 0, seq![]),
        rows::runs_fit(rows::run_views(r@), lines@.len() as int),
        rows::runs_in_sequence(rows::run_views(r@)),
{
    let mut out: Vec<TableRun> = Vec::new();
    let mut i: usize = 0;
    proof {
        assert(rows::run_views(out@) =~= seq![]);
    }
    while i < lines.len()
        invariant
            i <= lines@.len(),
            tables_from(lines@, 0, seq![]) == tables_from(
                lines@,
                i as int,
                rows::run_views(out@),
            ),
            rows::runs_fit(rows::run_views(out@), lines@.len() as int),
            rows::runs_in_sequence(rows::run_views(out@)),
            forall|k: int| 0 <= k < out@.len() ==> (#[trigger] rows::run_views(out@)[k]).end <= i,
        decreases lines.len() - i,
    {
        match try_detect_table(lines, i) {
            Some(run) => {
                let end: usize = run.end;
                proof {
                    assert(rows::run_views(out@.push(run)) =~= rows::run_views(out@).push(run@));
                }
                out.push(run);
                i = end;
            },
            None => {
                i = i + 1;
            },
        }
    }
    out
}

} // verus!
