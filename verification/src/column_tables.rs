//! Tables without rules within a region: lines whose cells stand under each
//! other, with columns taken from the first line or inferred from several.

use vstd::prelude::*;
use vstd::string::*;
use crate::cells;
use crate::cells::{CellView, TableCell};
use crate::inferred;
use crate::page_tables;
use crate::rows;
use crate::rows::{RowView, RunView, TableRow, TableRun};
use crate::sort;
use crate::span_text;
use crate::tracks;
use crate::tracks::Track;
use crate::types;
use crate::types::{Block, BlockView, ProjectedLine, TextItem};

verus! {

/// How far right of the last column a line must begin to be in another column of
/// the page.
pub const RIGHT_EDGE_SLACK: i64 = 8_000;

/// The rows of a table and the line behind it.
#[verifier::ext_equal]
pub struct Scan {
    pub rows: Seq<RowView>,
    pub end: int,
}

/// Whether the rows have `columns` cells each, within reach, and stand on lines
/// before `end`, at most one row for each line.
pub open spec fn rows_valid(found: Seq<TableRow>, columns: int, end: int) -> bool {
    &&& 0 < found.len() <= end
    &&& forall|i: int|
        0 <= i < found.len() ==> (#[trigger] found[i]).line < end && found[i].cells@.len()
            == columns && cells::cells_in_reach(cells::cell_views(found[i].cells@))
}

// ---------------------------------------------------------------------------
// From rows to a table
// ---------------------------------------------------------------------------

/// The table with the given rows. Header lines above it become its header; else
/// its first row does, when `bold` says that it qualifies.
pub open spec fn table_run(
    lines: Seq<ProjectedLine>,
    start: int,
    floor: int,
    scan: Scan,
    v: Seq<Track>,
    bold: bool,
) -> RunView {
    let texts = rows::row_cell_texts(scan.rows);
    match tracks::absorbed_header(lines, start, v, floor) {
        Some(h) => RunView {
            start: h.0,
            end: scan.end,
            block: BlockView::Table { header: Some(h.1), rows: texts },
        },
        None => RunView {
            start,
            end: scan.end,
            block: if bold {
                BlockView::Table {
                    header: Some(cells::cell_texts(scan.rows[0].cells)),
                    rows: texts.skip(1),
                }
            } else {
                BlockView::Table { header: None, rows: texts }
            },
        },
    }
}

fn build_table(
    lines: &Vec<ProjectedLine>,
    start: usize,
    floor: usize,
    found: &Vec<TableRow>,
    end: usize,
    v: &Vec<Track>,
    bold: bool,
) -> (r: TableRun)
    requires
        start < end <= lines@.len(),
        found@.len() >= 1,
        tracks::tracks_in_reach(v@),
    ensures
        r@ == table_run(
            lines@,
            start as int,
            floor as int,
            (Scan { rows: rows::row_views(found@), end: end as int }),
            v@,
            bold,
        ),
        r.start <= start,
        floor <= start ==> floor <= r.start,
        r.end == end,
{
    let ghost fv = rows::row_views(found@);
    proof {
        assert(rows::row_cell_texts(fv).skip(0) =~= rows::row_cell_texts(fv));
        assert(fv[0] == found@[0]@);
    }
    match tracks::absorb_header_lines(lines, start, v, floor) {
        Some(h) => TableRun {
            start: h.0,
            end,
            block: Block::Table { header: Some(h.1), rows: rows::texts_of_rows(found, 0) },
        },
        None => {
            let block: Block = if bold {
                Block::Table {
                    header: Some(rows::texts_of_cells(&found[0].cells)),
                    rows: rows::texts_of_rows(found, 1),
                }
            } else {
                Block::Table { header: None, rows: rows::texts_of_rows(found, 0) }
            };
            TableRun { start, end, block }
        },
    }
}

// ---------------------------------------------------------------------------
// Inferred columns
// ---------------------------------------------------------------------------

/// Whether the gaps between the columns are at least one and a half
/// font sizes and twelve points.
pub open spec fn spaced_out(cols: Seq<int>, size: int) -> bool {
    forall|i: int|
        0 < i < cols.len() ==> 2 * (#[trigger] cols[i] - cols[i - 1]) >= 3 * size && cols[i]
            - cols[i - 1] >= 12_000
}

/// Whether every visible run of a line covers at most one column, and there are
/// at least as many of them as columns.
pub open spec fn seeds(line: ProjectedLine, cols: Seq<int>) -> bool {
    let vis = span_text::visible(line.spans@);
    &&& vis.len() >= cols.len()
    &&& forall|i: int|
        0 <= i < vis.len() ==> inferred::run_covers(line.spans@[#[trigger] vis[i]], cols).len() <= 1
}

/// How many of the first `n` cells hold text.
pub open spec fn filled_upto(row: Seq<CellView>, n: int) -> nat
    decreases n,
{
    if n <= 0 {
        0
    } else {
        filled_upto(row, n - 1) + if row[n - 1].text.len() > 0 {
            1nat
        } else {
            0nat
        }
    }
}

/// How many cells hold text.
pub open spec fn filled(row: Seq<CellView>) -> nat {
    filled_upto(row, row.len() as int)
}

/// The rows under inferred columns, with line `j` next. Lines right of the last
/// column are passed over.
pub open spec fn inferred_rows(
    lines: Seq<ProjectedLine>,
    cols: Seq<int>,
    edge: int,
    found: Seq<RowView>,
    j: int,
) -> Scan
    decreases lines.len() - j,
{
    if j < 0 || j >= lines.len() {
        Scan { rows: found, end: j }
    } else if lines[j].bbox.x > edge {
        inferred_rows(lines, cols, edge, found, j + 1)
    } else if !rows::rows_adjacent(lines[found.last().line], lines[j]) {
        Scan { rows: found, end: j }
    } else {
        match inferred::raw_cells(lines[j], cols) {
            Some(row) => if filled(row) == 0 {
                Scan { rows: found, end: j }
            } else {
                inferred_rows(lines, cols, edge, found.push(RowView { line: j, cells: row }), j + 1)
            },
            None => Scan { rows: found, end: j },
        }
    }
}

/// The columns themselves as extents.
pub open spec fn thin_tracks(cols: Seq<int>) -> Seq<Track> {
    Seq::new(cols.len(), |i: int| Track { start: cols[i] as i64, end: cols[i] as i64 })
}

/// Whether every cell of a row is bold and holds text.
pub open spec fn bold_and_filled(row: Seq<CellView>) -> bool {
    forall|i: int| 0 <= i < row.len() ==> (#[trigger] row[i]).bold && row[i].text.len() > 0
}

/// The table with inferred columns that begins with line `start`, if one does:
/// three columns or more, and more than the line has cells.
pub open spec fn inferred_table_at(lines: Seq<ProjectedLine>, start: int, floor: int) -> Option<
    RunView,
> {
    let line = lines[start];
    let cols = inferred::inferred_tracks(lines, start);
    if cols.len() < rows::TABLE_MIN_COLUMNS || cols.len() <= cells::cells_of(line).len()
        || !spaced_out(cols, cells::size_of(line)) || !seeds(line, cols) {
        None
    } else {
        match inferred::raw_cells(line, cols) {
            Some(first) => {
                let scan = inferred_rows(
                    lines,
                    cols,
                    cols.last() + RIGHT_EDGE_SLACK,
                    seq![RowView { line: start, cells: first }],
                    start + 1,
                );
                if filled(first) < rows::TABLE_MIN_COLUMNS || scan.rows.len()
                    < rows::TABLE_MIN_ROWS || rows::spacing_irregular(
                    lines,
                    rows::row_lines(scan.rows),
                ) {
                    None
                } else {
                    Some(
                        table_run(
                            lines,
                            start,
                            floor,
                            scan,
                            thin_tracks(cols),
                            bold_and_filled(first),
                        ),
                    )
                }
            },
            None => None,
        }
    }
}

fn columns_spaced_out(cols: &Vec<i64>, size: i64) -> (r: bool)
    requires
        forall|i: int| 0 <= i < cols@.len() ==> cells::in_reach(#[trigger] cols@[i] as int),
        0 <= size <= 0x1_0000_0000,
    ensures
        r == spaced_out(sort::ints(cols@), size as int),
{
    let ghost cv = sort::ints(cols@);
    let mut i: usize = 1;
    while i < cols.len()
        invariant
            1 <= i,
            cv == sort::ints(cols@),
            forall|k: int| 0 <= k < cols@.len() ==> cells::in_reach(#[trigger] cols@[k] as int),
            0 <= size <= 0x1_0000_0000,
            forall|k: int|
                0 < k < i && k < cols@.len() ==> 2 * (#[trigger] cv[k] - cv[k - 1]) >= 3 * size
                    && cv[k] - cv[k - 1] >= 12_000,
        decreases cols.len() - i,
    {
        proof {
            assert(cv[i as int] == cols@[i as int]);
            assert(cv[i - 1] == cols@[i - 1]);
        }
        let gap: i64 = cols[i] - cols[i - 1];
        if 2 * gap < 3 * size || gap < 12_000 {
            return false;
        }
        i = i + 1;
    }
    true
}

fn line_seeds(line: &ProjectedLine, cols: &Vec<i64>) -> (r: bool)
    requires
        forall|i: int| 0 <= i < cols@.len() ==> cells::in_reach(#[trigger] cols@[i] as int),
    ensures
        r == seeds(*line, sort::ints(cols@)),
{
    let spans: &Vec<TextItem> = &line.spans;
    let vis: Vec<usize> = span_text::visible_spans(spans);
    let ghost cv = sort::ints(cols@);
    let ghost v = span_text::visible(line.spans@);
    proof {
        assert(v.len() == vis@.len());
        assert(cv.len() == cols@.len());
    }
    if vis.len() < cols.len() {
        return false;
    }
    let mut i: usize = 0;
    while i < vis.len()
        invariant
            i <= vis@.len(),
            spans@ == line.spans@,
            cv == sort::ints(cols@),
            v == sort::indices(vis@),
            v == span_text::visible(line.spans@),
            forall|k: int| 0 <= k < cols@.len() ==> cells::in_reach(#[trigger] cols@[k] as int),
            forall|k: int| 0 <= k < vis@.len() ==> #[trigger] vis@[k] < spans@.len(),
            forall|k: int|
                0 <= k < i ==> inferred::run_covers(spans@[#[trigger] v[k]], cv).len() <= 1,
        decreases vis.len() - i,
    {
        proof {
            assert(v[i as int] == vis@[i as int]);
        }
        let at: Vec<usize> = inferred::covered_columns(&spans[vis[i]], cols);
        proof {
            assert(sort::indices(at@).len() == at@.len());
        }
        if at.len() > 1 {
            proof {
                assert(inferred::run_covers(spans@[v[i as int]], cv).len() > 1);
            }
            return false;
        }
        i = i + 1;
    }
    true
}

fn count_filled(row: &Vec<TableCell>) -> (r: usize)
    ensures
        r == filled(cells::cell_views(row@)),
{
    let ghost rv = cells::cell_views(row@);
    let mut count: usize = 0;
    let mut i: usize = 0;
    while i < row.len()
        invariant
            i <= row@.len(),
            rv == cells::cell_views(row@),
            count <= i,
            count == filled_upto(rv, i as int),
        decreases row.len() - i,
    {
        if !row[i].text.as_str().is_empty() {
            count = count + 1;
        }
        i = i + 1;
    }
    count
}

fn row_bold_and_filled(row: &Vec<TableCell>) -> (r: bool)
    ensures
        r == bold_and_filled(cells::cell_views(row@)),
{
    let ghost rv = cells::cell_views(row@);
    let mut i: usize = 0;
    while i < row.len()
        invariant
            i <= row@.len(),
            rv == cells::cell_views(row@),
            forall|k: int| 0 <= k < i ==> (#[trigger] rv[k]).bold && rv[k].text.len() > 0,
        decreases row.len() - i,
    {
        proof {
            assert(rv[i as int] == row@[i as int]@);
        }
        if !row[i].bold || row[i].text.as_str().is_empty() {
            return false;
        }
        i = i + 1;
    }
    true
}

fn columns_as_tracks(cols: &Vec<i64>) -> (r: Vec<Track>)
    requires
        forall|i: int| 0 <= i < cols@.len() ==> cells::in_reach(#[trigger] cols@[i] as int),
    ensures
        r@ == thin_tracks(sort::ints(cols@)),
        tracks::tracks_in_reach(r@),
        r@.len() == cols@.len(),
{
    let mut out: Vec<Track> = Vec::new();
    let mut i: usize = 0;
    while i < cols.len()
        invariant
            i <= cols@.len(),
            forall|k: int| 0 <= k < cols@.len() ==> cells::in_reach(#[trigger] cols@[k] as int),
            out@.len() == i,
            forall|k: int|
                0 <= k < i ==> #[trigger] out@[k] == (Track { start: cols@[k], end: cols@[k] }),
        decreases cols.len() - i,
    {
        out.push(Track { start: cols[i], end: cols[i] });
        i = i + 1;
    }
    proof {
        assert(out@ =~= thin_tracks(sort::ints(cols@)));
        assert forall|k: int| 0 <= k < out@.len() implies cells::in_reach(
            (#[trigger] out@[k]).start as int,
        ) && cells::in_reach(out@[k].end as int) by {
            assert(cells::in_reach(cols@[k] as int));
        }
    }
    out
}

/// The table with inferred columns that begins with line `start`, if one does.
/// Its header may reach up to line `floor`.
pub fn try_detect_table_inferred(
    lines: &Vec<ProjectedLine>,
    start: usize,
    floor: usize,
) -> (r: Option<TableRun>)
    requires
        start < lines@.len(),
    ensures
        match r {
            Some(run) => inferred_table_at(lines@, start as int, floor as int) == Some(run@)
                && run.start <= start < run.end <= lines@.len() && (floor <= start ==> floor
                <= run.start),
            None => inferred_table_at(lines@, start as int, floor as int) is None,
        },
{
    let total: usize = lines.len();
    let line = &lines[start];
    let cut: Vec<TableCell> = cells::split_cells(line);
    let cols: Vec<i64> = inferred::infer_tracks_from_raw_items(lines, start);
    let ghost cv = sort::ints(cols@);
    proof {
        assert(cv.len() == cols@.len());
        assert(cells::cell_views(cut@).len() == cut@.len());
    }
    if cols.len() < rows::TABLE_MIN_COLUMNS || cols.len() <= cut.len() {
        return None;
    }
    if !columns_spaced_out(&cols, cells::line_size(line)) || !line_seeds(line, &cols) {
        return None;
    }
    let first: Vec<TableCell> = match inferred::cells_from_raw_items_with_tracks(line, &cols) {
        Some(row) => row,
        None => {
            return None;
        },
    };
    if count_filled(&first) < rows::TABLE_MIN_COLUMNS {
        return None;
    }
    let ghost fv = cells::cell_views(first@);
    let bold: bool = row_bold_and_filled(&first);
    proof {
        assert(cells::in_reach(cols@[cols@.len() - 1] as int));
        assert(cv.last() == cols@[cols@.len() - 1]);
    }
    let edge: i64 = cols[cols.len() - 1] + RIGHT_EDGE_SLACK;
    let mut found: Vec<TableRow> = Vec::new();
    found.push(TableRow { line: start, cells: first });
    let ghost seed = seq![RowView { line: start as int, cells: fv }];
    proof {
        assert(rows::row_views(found@) =~= seed);
    }
    let mut j: usize = start + 1;
    let mut more: bool = true;
    while more && j < total
        invariant
            start < j <= total == lines@.len(),
            cv == sort::ints(cols@),
            forall|i: int| 0 <= i < cols@.len() ==> cells::in_reach(#[trigger] cols@[i] as int),
            rows_valid(found@, cols@.len() as int, j as int),
            found@.len() <= j - start,
            rows::row_views(found@)[0] == seed[0],
            more ==> inferred_rows(lines@, cv, edge as int, seed, start + 1) == inferred_rows(
                lines@,
                cv,
                edge as int,
                rows::row_views(found@),
                j as int,
            ),
            !more ==> inferred_rows(lines@, cv, edge as int, seed, start + 1) == (Scan {
                rows: rows::row_views(found@),
                end: j as int,
            }),
        decreases total - j, (if more { 1int } else { 0int }),
    {
        let ghost fvs = rows::row_views(found@);
        let prev: usize = found[found.len() - 1].line;
        proof {
            assert(fvs.last().line == prev);
        }
        if lines[j].bbox.x as i64 > edge {
            j = j + 1;
        } else if !rows::table_rows_adjacent(&lines[prev], &lines[j]) {
            more = false;
        } else {
            match inferred::cells_from_raw_items_with_tracks(&lines[j], &cols) {
                Some(row) => {
                    if count_filled(&row) == 0 {
                        more = false;
                    } else {
                        let next = TableRow { line: j, cells: row };
                        proof {
                            assert(rows::row_views(found@.push(next)) =~= fvs.push(next@));
                        }
                        found.push(next);
                        j = j + 1;
                    }
                },
                None => {
                    more = false;
                },
            }
        }
    }
    let ghost scan = Scan { rows: rows::row_views(found@), end: j as int };
    proof {
        assert(scan == inferred_rows(lines@, cv, edge as int, seed, start + 1));
    }
    if found.len() < rows::TABLE_MIN_ROWS {
        return None;
    }
    if rows::row_spacing_irregular(lines, &found) {
        return None;
    }
    let v: Vec<Track> = columns_as_tracks(&cols);
    Some(build_table(lines, start, floor, &found, j, &v, bold))
}

// ---------------------------------------------------------------------------
// Columns of the first line
// ---------------------------------------------------------------------------

/// The largest edge of the first `n` cells, the first one counted in any case.
pub open spec fn right_edge_upto(row: Seq<CellView>, n: int) -> int
    decreases n,
{
    if n <= 1 {
        types::max_of(row[0].start_x, row[0].end_x)
    } else {
        types::max_of(
            right_edge_upto(row, n - 1),
            types::max_of(row[n - 1].start_x, row[n - 1].end_x),
        )
    }
}

/// Whether no two cells belong to the same column.
pub open spec fn distinct_tracks(row: Seq<CellView>, v: Seq<Track>) -> bool {
    forall|a: int, b: int|
        0 <= a < b < row.len() ==> tracks::track_of(#[trigger] row[a], v) != tracks::track_of(
            #[trigger] row[b],
            v,
        )
}

/// The cells of `base` with the first `n` cells of a row put into the columns
/// that they belong to.
pub open spec fn placed_upto(
    base: Seq<CellView>,
    row: Seq<CellView>,
    v: Seq<Track>,
    n: int,
) -> Seq<CellView>
    decreases n,
{
    if n <= 0 {
        base
    } else {
        match tracks::track_of(row[n - 1], v) {
            Some(k) => placed_upto(base, row, v, n - 1).update(k, row[n - 1]),
            None => placed_upto(base, row, v, n - 1),
        }
    }
}

/// The cells of `base` with the texts of the first `n` cells of a row appended in
/// the columns that they belong to.
pub open spec fn wrapped_upto(
    base: Seq<CellView>,
    row: Seq<CellView>,
    v: Seq<Track>,
    n: int,
) -> Seq<CellView>
    decreases n,
{
    if n <= 0 {
        base
    } else {
        let before = wrapped_upto(base, row, v, n - 1);
        match tracks::track_of(row[n - 1], v) {
            Some(k) => before.update(
                k,
                CellView { text: tracks::joined(before[k].text, row[n - 1].text), ..before[k] },
            ),
            None => before,
        }
    }
}

/// The first `n` cells of a row without those that belong to no column.
pub open spec fn tracked_upto(row: Seq<CellView>, v: Seq<Track>, n: int) -> Seq<CellView>
    decreases n,
{
    if n <= 0 {
        seq![]
    } else if tracks::track_of(row[n - 1], v) is Some {
        tracked_upto(row, v, n - 1).push(row[n - 1])
    } else {
        tracked_upto(row, v, n - 1)
    }
}

/// How many of the first `n` cells are away from their column.
pub open spec fn misaligned_upto(row: Seq<CellView>, v: Seq<Track>, n: int) -> nat
    decreases n,
{
    if n <= 0 {
        0
    } else {
        misaligned_upto(row, v, n - 1) + if tracks::aligned(row[n - 1], v[n - 1]) {
            0nat
        } else {
            1nat
        }
    }
}

/// Whether a row has one cell for each column, of which at most one is away from
/// it.
pub open spec fn full_row(row: Seq<CellView>, v: Seq<Track>) -> bool {
    row.len() == v.len() && misaligned_upto(row, v, row.len() as int) <= 1
}

/// The rows after line `j`, or `None` when the table ends above it.
///
/// A line short of cells that are all in a column is a row of its own when it
/// leaves half a line height to the row above and no column has two of its
/// cells; else, tight below, its texts continue the row above. A line with more
/// cells loses those that are in no column.
pub open spec fn rows_with_line(
    lines: Seq<ProjectedLine>,
    cols: Seq<int>,
    v: Seq<Track>,
    found: Seq<RowView>,
    j: int,
) -> Option<Seq<RowView>> {
    let row = page_tables::row_cells(lines[j], cols);
    let last = found.last();
    let prev = lines[last.line];
    let height = rows::row_height(prev, lines[j]);
    let m = row.len() as int;
    if row.len() == 0 {
        None
    } else if row.len() < v.len() {
        if !tracks::all_aligned(row, v) {
            None
        } else if m >= 2 && 2 * rows::gap_below(prev, lines[j]) >= height && distinct_tracks(
            row,
            v,
        ) {
            Some(
                found.push(
                    RowView {
                        line: j,
                        cells: placed_upto(inferred::blank_cells(cols), row, v, m),
                    },
                ),
            )
        } else if 2 * (lines[j].bbox.y - prev.bbox.y) <= 3 * height {
            Some(
                found.drop_last().push(
                    RowView { line: last.line, cells: wrapped_upto(last.cells, row, v, m) },
                ),
            )
        } else {
            None
        }
    } else {
        let kept = if row.len() > v.len() {
            tracked_upto(row, v, m)
        } else {
            row
        };
        if full_row(kept, v) {
            Some(found.push(RowView { line: j, cells: kept }))
        } else {
            None
        }
    }
}

/// The rows under the columns of the first line, with line `j` next. Lines right
/// of the last column are passed over.
pub open spec fn column_rows(
    lines: Seq<ProjectedLine>,
    cols: Seq<int>,
    v: Seq<Track>,
    edge: int,
    found: Seq<RowView>,
    j: int,
) -> Scan
    decreases lines.len() - j,
{
    if j < 0 || j >= lines.len() {
        Scan { rows: found, end: j }
    } else if lines[j].bbox.x > edge {
        column_rows(lines, cols, v, edge, found, j + 1)
    } else if !rows::rows_adjacent(lines[found.last().line], lines[j]) {
        Scan { rows: found, end: j }
    } else {
        match rows_with_line(lines, cols, v, found, j) {
            Some(more) => column_rows(lines, cols, v, edge, more, j + 1),
            None => Scan { rows: found, end: j },
        }
    }
}

/// The table that begins with line `start`, if one does. Its first line sets the
/// columns. Rows that are too irregularly spaced are kept verbatim.
pub open spec fn table_at(lines: Seq<ProjectedLine>, start: int, floor: int) -> Option<RunView> {
    let first = cells::cells_of(lines[start]);
    let v = tracks::extents_of(first);
    let scan = column_rows(
        lines,
        rows::starts_of(first),
        v,
        right_edge_upto(first, first.len() as int) + RIGHT_EDGE_SLACK,
        seq![RowView { line: start, cells: first }],
        start + 1,
    );
    if first.len() < rows::TABLE_MIN_COLUMNS || scan.rows.len() < rows::TABLE_MIN_ROWS {
        None
    } else if rows::spacing_irregular(lines, rows::row_lines(scan.rows)) {
        Some(
            RunView {
                start,
                end: scan.end,
                block: BlockView::GridFallback { lines: rows::verbatim_lines(lines, scan.rows) },
            },
        )
    } else {
        Some(table_run(lines, start, floor, scan, v, rows::all_bold(scan.rows[0].cells)))
    }
}

fn right_edge(row: &Vec<TableCell>) -> (r: i64)
    requires
        row@.len() > 0,
        cells::cells_in_reach(cells::cell_views(row@)),
    ensures
        r == right_edge_upto(cells::cell_views(row@), row@.len() as int),
        cells::in_reach(r as int),
{
    let ghost rv = cells::cell_views(row@);
    proof {
        assert(cells::in_reach(rv[0].start_x));
    }
    let mut edge: i64 = types::max64(row[0].start_x, row[0].end_x);
    let mut i: usize = 1;
    while i < row.len()
        invariant
            1 <= i <= row@.len(),
            rv == cells::cell_views(row@),
            cells::cells_in_reach(rv),
            edge == right_edge_upto(rv, i as int),
            cells::in_reach(edge as int),
        decreases row.len() - i,
    {
        proof {
            assert(cells::in_reach(rv[i as int].start_x));
        }
        edge = types::max64(edge, types::max64(row[i].start_x, row[i].end_x));
        i = i + 1;
    }
    edge
}

fn tracks_distinct(row: &Vec<TableCell>, v: &Vec<Track>) -> (r: bool)
    requires
        cells::cells_in_reach(cells::cell_views(row@)),
        tracks::tracks_in_reach(v@),
    ensures
        r == distinct_tracks(cells::cell_views(row@), v@),
{
    let ghost rv = cells::cell_views(row@);
    let mut at: Vec<Option<usize>> = Vec::new();
    let mut i: usize = 0;
    while i < row.len()
        invariant
            i <= row@.len(),
            rv == cells::cell_views(row@),
            cells::cells_in_reach(rv),
            tracks::tracks_in_reach(v@),
            at@.len() == i,
            forall|k: int|
                0 <= k < i ==> crate::reader::index_view(#[trigger] at@[k]) == tracks::track_of(
                    rv[k],
                    v@,
                ),
            forall|a: int, b: int|
                0 <= a < b < i ==> tracks::track_of(#[trigger] rv[a], v@) != tracks::track_of(
                    #[trigger] rv[b],
                    v@,
                ),
        decreases row.len() - i,
    {
        proof {
            assert(rv[i as int] == row@[i as int]@);
            assert(cells::in_reach(rv[i as int].start_x));
        }
        let k: Option<usize> = tracks::match_track_idx(&row[i], v);
        let mut a: usize = 0;
        while a < i
            invariant
                a <= i < row@.len(),
                at@.len() == i,
                crate::reader::index_view(k) == tracks::track_of(rv[i as int], v@),
                rv.len() == row@.len(),
                forall|m: int|
                    0 <= m < i ==> crate::reader::index_view(#[trigger] at@[m])
                        == tracks::track_of(rv[m], v@),
                forall|m: int|
                    0 <= m < a ==> tracks::track_of(#[trigger] rv[m], v@) != tracks::track_of(
                        rv[i as int],
                        v@,
                    ),
                rv == cells::cell_views(row@),
            decreases i - a,
        {
            proof {
                assert(crate::reader::index_view(at@[a as int]) == tracks::track_of(
                    rv[a as int],
                    v@,
                ));
            }
            if same_index(&at[a], &k) {
                proof {
                    assert(tracks::track_of(rv[a as int], v@) == tracks::track_of(
                        rv[i as int],
                        v@,
                    ));
                }
                return false;
            }
            a = a + 1;
        }
        at.push(k);
        i = i + 1;
    }
    true
}

fn same_index(a: &Option<usize>, b: &Option<usize>) -> (r: bool)
    ensures
        r == (crate::reader::index_view(*a) == crate::reader::index_view(*b)),
{
    match a {
        Some(x) => match b {
            Some(y) => *x == *y,
            None => false,
        },
        None => match b {
            Some(_) => false,
            None => true,
        },
    }
}

fn place_row(cols: &Vec<i64>, row: &Vec<TableCell>, v: &Vec<Track>) -> (r: Vec<TableCell>)
    requires
        cols@.len() == v@.len(),
        forall|i: int| 0 <= i < cols@.len() ==> cells::in_reach(#[trigger] cols@[i] as int),
        cells::cells_in_reach(cells::cell_views(row@)),
        tracks::tracks_in_reach(v@),
    ensures
        cells::cell_views(r@) == placed_upto(
            inferred::blank_cells(sort::ints(cols@)),
            cells::cell_views(row@),
            v@,
            row@.len() as int,
        ),
        r@.len() == v@.len(),
        cells::cells_in_reach(cells::cell_views(r@)),
{
    let ghost rv = cells::cell_views(row@);
    let mut out: Vec<TableCell> = inferred::empty_cells(cols);
    let ghost base = inferred::blank_cells(sort::ints(cols@));
    let mut i: usize = 0;
    while i < row.len()
        invariant
            i <= row@.len(),
            rv == cells::cell_views(row@),
            cells::cells_in_reach(rv),
            tracks::tracks_in_reach(v@),
            out@.len() == v@.len(),
            cells::cells_in_reach(cells::cell_views(out@)),
            cells::cell_views(out@) == placed_upto(base, rv, v@, i as int),
        decreases row.len() - i,
    {
        proof {
            assert(rv[i as int] == row@[i as int]@);
            assert(cells::in_reach(rv[i as int].start_x));
        }
        match tracks::match_track_idx(&row[i], v) {
            Some(k) => {
                let c: TableCell = cells::clone_cell(&row[i]);
                let ghost before = cells::cell_views(out@);
                proof {
                    assert(cells::cell_views(out@.update(k as int, c)) =~= before.update(
                        k as int,
                        c@,
                    ));
                    assert forall|m: int| 0 <= m < before.len() implies cells::in_reach(
                        (#[trigger] before.update(k as int, c@)[m]).start_x,
                    ) && cells::in_reach(before.update(k as int, c@)[m].end_x) by {
                        assert(cells::in_reach(before[m].start_x));
                    }
                }
                out.set(k, c);
            },
            None => {},
        }
        i = i + 1;
    }
    out
}

fn wrap_row(base: &Vec<TableCell>, row: &Vec<TableCell>, v: &Vec<Track>) -> (r: Vec<TableCell>)
    requires
        base@.len() == v@.len(),
        cells::cells_in_reach(cells::cell_views(base@)),
        cells::cells_in_reach(cells::cell_views(row@)),
        tracks::tracks_in_reach(v@),
    ensures
        cells::cell_views(r@) == wrapped_upto(
            cells::cell_views(base@),
            cells::cell_views(row@),
            v@,
            row@.len() as int,
        ),
        r@.len() == v@.len(),
        cells::cells_in_reach(cells::cell_views(r@)),
{
    let ghost rv = cells::cell_views(row@);
    let ghost bv = cells::cell_views(base@);
    let mut out: Vec<TableCell> = cells::clone_cells(base);
    let mut i: usize = 0;
    while i < row.len()
        invariant
            i <= row@.len(),
            rv == cells::cell_views(row@),
            cells::cells_in_reach(rv),
            tracks::tracks_in_reach(v@),
            out@.len() == v@.len(),
            cells::cells_in_reach(cells::cell_views(out@)),
            cells::cell_views(out@) == wrapped_upto(bv, rv, v@, i as int),
        decreases row.len() - i,
    {
        proof {
            assert(rv[i as int] == row@[i as int]@);
            assert(cells::in_reach(rv[i as int].start_x));
        }
        match tracks::match_track_idx(&row[i], v) {
            Some(k) => {
                let ghost before = cells::cell_views(out@);
                proof {
                    assert(before[k as int] == out@[k as int]@);
                }
                let mut c: TableCell = cells::clone_cell(&out[k]);
                tracks::append_joined(&mut c.text, row[i].text.as_str());
                proof {
                    assert(cells::cell_views(out@.update(k as int, c)) =~= before.update(
                        k as int,
                        c@,
                    ));
                    assert forall|m: int| 0 <= m < before.len() implies cells::in_reach(
                        (#[trigger] before.update(k as int, c@)[m]).start_x,
                    ) && cells::in_reach(before.update(k as int, c@)[m].end_x) by {
                        assert(cells::in_reach(before[m].start_x));
                        assert(cells::in_reach(before[k as int].start_x));
                    }
                }
                out.set(k, c);
            },
            None => {},
        }
        i = i + 1;
    }
    out
}

fn keep_tracked(row: &Vec<TableCell>, v: &Vec<Track>) -> (r: Vec<TableCell>)
    requires
        cells::cells_in_reach(cells::cell_views(row@)),
        tracks::tracks_in_reach(v@),
    ensures
        cells::cell_views(r@) == tracked_upto(cells::cell_views(row@), v@, row@.len() as int),
        cells::cells_in_reach(cells::cell_views(r@)),
{
    let ghost rv = cells::cell_views(row@);
    let mut out: Vec<TableCell> = Vec::new();
    let mut i: usize = 0;
    proof {
        assert(cells::cell_views(out@) =~= seq![]);
    }
    while i < row.len()
        invariant
            i <= row@.len(),
            rv == cells::cell_views(row@),
            cells::cells_in_reach(rv),
            tracks::tracks_in_reach(v@),
            cells::cells_in_reach(cells::cell_views(out@)),
            cells::cell_views(out@) == tracked_upto(rv, v@, i as int),
        decreases row.len() - i,
    {
        proof {
            assert(rv[i as int] == row@[i as int]@);
            assert(cells::in_reach(rv[i as int].start_x));
        }
        match tracks::match_track_idx(&row[i], v) {
            Some(_) => {
                let c: TableCell = cells::clone_cell(&row[i]);
                proof {
                    assert(cells::cell_views(out@.push(c)) =~= cells::cell_views(out@).push(c@));
                }
                out.push(c);
            },
            None => {},
        }
        i = i + 1;
    }
    out
}

fn is_full_row(row: &Vec<TableCell>, v: &Vec<Track>) -> (r: bool)
    requires
        cells::cells_in_reach(cells::cell_views(row@)),
        tracks::tracks_in_reach(v@),
    ensures
        r == full_row(cells::cell_views(row@), v@),
{
    let ghost rv = cells::cell_views(row@);
    if row.len() != v.len() {
        return false;
    }
    let mut count: usize = 0;
    let mut i: usize = 0;
    while i < row.len()
        invariant
            i <= row@.len() == v@.len(),
            rv == cells::cell_views(row@),
            cells::cells_in_reach(rv),
            tracks::tracks_in_reach(v@),
            count <= i,
            count == misaligned_upto(rv, v@, i as int),
        decreases row.len() - i,
    {
        proof {
            assert(rv[i as int] == row@[i as int]@);
            assert(cells::in_reach(rv[i as int].start_x));
        }
        if !tracks::cell_aligns_track(&row[i], v[i]) {
            count = count + 1;
        }
        i = i + 1;
    }
    count <= 1
}

/// Add line `j` to the rows, or answer that the table ends above it.
fn add_line(
    lines: &Vec<ProjectedLine>,
    cols: &Vec<i64>,
    v: &Vec<Track>,
    found: &mut Vec<TableRow>,
    j: usize,
) -> (r: bool)
    requires
        0 < j < lines@.len(),
        cols@.len() == v@.len(),
        forall|i: int| 0 <= i < cols@.len() ==> cells::in_reach(#[trigger] cols@[i] as int),
        tracks::tracks_in_reach(v@),
        rows_valid(old(found)@, v@.len() as int, j as int),
    ensures
        r ==> rows_with_line(
            lines@,
            sort::ints(cols@),
            v@,
            rows::row_views(old(found)@),
            j as int,
        ) == Some(rows::row_views(final(found)@)) && rows_valid(
            final(found)@,
            v@.len() as int,
            j + 1,
        ) && final(found)@.len() <= old(found)@.len() + 1,
        !r ==> rows_with_line(
            lines@,
            sort::ints(cols@),
            v@,
            rows::row_views(old(found)@),
            j as int,
        ) is None && final(found)@ == old(found)@,
{
    let ghost fvs = rows::row_views(found@);
    let top: usize = found.len() - 1;
    let last: usize = found[top].line;
    proof {
        assert(fvs.last() == found@[top as int]@);
    }
    let prev = &lines[last];
    let line = &lines[j];
    let row: Vec<TableCell> = page_tables::cells_as_row(line, cols);
    proof {
        assert(cells::cell_views(row@).len() == row@.len());
    }
    if row.len() == 0 {
        return false;
    }
    if row.len() < v.len() {
        if !tracks::row_aligned(&row, v) {
            return false;
        }
        let height: i64 = rows::taller(prev, line);
        if row.len() >= 2 && 2 * rows::gap_between(prev, line) >= height && tracks_distinct(
            &row,
            v,
        ) {
            let next = TableRow { line: j, cells: place_row(cols, &row, v) };
            proof {
                assert(rows::row_views(found@.push(next)) =~= fvs.push(next@));
            }
            found.push(next);
            return true;
        }
        if 2 * (line.bbox.y as i64 - prev.bbox.y as i64) <= 3 * height {
            let next = TableRow { line: last, cells: wrap_row(&found[top].cells, &row, v) };
            proof {
                assert(rows::row_views(found@.update(top as int, next)) =~= fvs.drop_last().push(
                    next@,
                ));
            }
            found.set(top, next);
            return true;
        }
        return false;
    }
    let kept: Vec<TableCell> = if row.len() > v.len() {
        keep_tracked(&row, v)
    } else {
        row
    };
    if !is_full_row(&kept, v) {
        return false;
    }
    let next = TableRow { line: j, cells: kept };
    proof {
        assert(cells::cell_views(next.cells@).len() == next.cells@.len());
        assert(rows::row_views(found@.push(next)) =~= fvs.push(next@));
    }
    found.push(next);
    true
}

/// The table that begins with line `start`, if one does. Its header may reach up
/// to line `floor`.
pub fn try_detect_table(lines: &Vec<ProjectedLine>, start: usize, floor: usize) -> (r: Option<
    TableRun,
>)
    requires
        start < lines@.len(),
    ensures
        match r {
            Some(run) => table_at(lines@, start as int, floor as int) == Some(run@) && run.start
                <= start < run.end <= lines@.len() && (floor <= start ==> floor <= run.start),
            None => table_at(lines@, start as int, floor as int) is None,
        },
{
    let total: usize = lines.len();
    let first: Vec<TableCell> = cells::split_cells(&lines[start]);
    if first.len() < rows::TABLE_MIN_COLUMNS {
        return None;
    }
    let ghost fv = cells::cell_views(first@);
    let cols: Vec<i64> = rows::cell_starts(&first);
    let v: Vec<Track> = tracks::cell_extents(&first);
    let edge: i64 = right_edge(&first) + RIGHT_EDGE_SLACK;
    let ghost cv = sort::ints(cols@);
    proof {
        assert forall|i: int| 0 <= i < cols@.len() implies cells::in_reach(
            #[trigger] cols@[i] as int,
        ) by {
            assert(cells::in_reach(fv[i].start_x));
        }
    }
    let mut found: Vec<TableRow> = Vec::new();
    found.push(TableRow { line: start, cells: first });
    let ghost seed = seq![RowView { line: start as int, cells: fv }];
    proof {
        assert(rows::row_views(found@) =~= seed);
    }
    let mut j: usize = start + 1;
    let mut more: bool = true;
    while more && j < total
        invariant
            start < j <= total == lines@.len(),
            cv == sort::ints(cols@),
            cols@.len() == v@.len(),
            forall|i: int| 0 <= i < cols@.len() ==> cells::in_reach(#[trigger] cols@[i] as int),
            tracks::tracks_in_reach(v@),
            rows_valid(found@, v@.len() as int, j as int),
            found@.len() <= j - start,
            more ==> column_rows(lines@, cv, v@, edge as int, seed, start + 1) == column_rows(
                lines@,
                cv,
                v@,
                edge as int,
                rows::row_views(found@),
                j as int,
            ),
            !more ==> column_rows(lines@, cv, v@, edge as int, seed, start + 1) == (Scan {
                rows: rows::row_views(found@),
                end: j as int,
            }),
        decreases total - j, (if more { 1int } else { 0int }),
    {
        let prev: usize = found[found.len() - 1].line;
        proof {
            assert(rows::row_views(found@).last().line == prev);
        }
        if lines[j].bbox.x as i64 > edge {
            j = j + 1;
        } else if !rows::table_rows_adjacent(&lines[prev], &lines[j]) {
            more = false;
        } else if add_line(lines, &cols, &v, &mut found, j) {
            j = j + 1;
        } else {
            more = false;
        }
    }
    let ghost scan = Scan { rows: rows::row_views(found@), end: j as int };
    proof {
        assert(scan == column_rows(lines@, cv, v@, edge as int, seed, start + 1));
        assert(scan.rows[0] == found@[0]@);
    }
    if found.len() < rows::TABLE_MIN_ROWS {
        return None;
    }
    if rows::row_spacing_irregular(lines, &found) {
        return Some(
            TableRun {
                start,
                end: j,
                block: Block::GridFallback { lines: rows::verbatim(lines, &found) },
            },
        );
    }
    let bold: bool = rows::row_all_bold(&found[0].cells);
    Some(build_table(lines, start, floor, &found, j, &v, bold))
}

} // verus!
