//! What holds of the text of tables: no text of the lines that a table takes is lost.

use vstd::prelude::*;
use crate::cells;
use crate::cells::CellView;
use crate::column_tables;
use crate::column_tables::Scan;
use crate::inferred;
use crate::page_tables;
use crate::rows;
use crate::rows::RowView;
use crate::sort;
use crate::text;
use crate::tracks;
use crate::tracks::Track;
use crate::types::{BlockView, ProjectedLine};

verus! {

/// Whether `s` is a part of `t`.
pub open spec fn is_part_of(s: Seq<char>, t: Seq<char>) -> bool {
    exists|k: int|
        0 <= k <= t.len() - s.len() && #[trigger] t.subrange(k, k + s.len()) == s
}

/// A text is a part of itself.
pub proof fn lemma_part_self(t: Seq<char>)
    ensures
        is_part_of(t, t),
{
    assert(t.subrange(0, 0 + t.len() as int) =~= t);
}

/// A part of a part is a part.
pub proof fn lemma_part_through(a: Seq<char>, b: Seq<char>, c: Seq<char>)
    requires
        is_part_of(a, b),
        is_part_of(b, c),
    ensures
        is_part_of(a, c),
{
    let k = choose|k: int| 0 <= k <= b.len() - a.len() && #[trigger] b.subrange(k, k + a.len()) == a;
    let l = choose|l: int| 0 <= l <= c.len() - b.len() && #[trigger] c.subrange(l, l + b.len()) == b;
    assert(c.subrange(l + k, l + k + a.len()) =~= c.subrange(l, l + b.len()).subrange(
        k,
        k + a.len(),
    ));
}

/// Two texts are parts of what they are joined to.
pub proof fn lemma_part_joined(a: Seq<char>, b: Seq<char>)
    ensures
        is_part_of(a, tracks::joined(a, b)),
        is_part_of(b, tracks::joined(a, b)),
{
    let t = tracks::joined(a, b);
    assert(t.subrange(0, 0 + a.len() as int) =~= a);
    let k = t.len() - b.len();
    assert(t.subrange(k, k + b.len()) =~= b);
}

/// Whether a text is a part of a cell of a table.
pub open spec fn is_shown_in(grid: Seq<Seq<Seq<char>>>, s: Seq<char>) -> bool {
    exists|r: int, k: int|
        0 <= r < grid.len() && 0 <= k < grid[r].len() && #[trigger] is_part_of(s, grid[r][k])
}

/// All rows of a table, its header first.
pub open spec fn grid_of(b: BlockView) -> Seq<Seq<Seq<char>>> {
    match b {
        BlockView::Table { header, rows } => match header {
            Some(h) => seq![h] + rows,
            None => rows,
        },
        _ => seq![],
    }
}

/// Whether a cell lies in a column: its middle does, or one of its edges is that of the
/// column, to within six points.
pub open spec fn is_in_column(c: CellView, start: int, end: int) -> bool {
    ||| 2 * start - 12_000 <= c.start_x + c.end_x <= 2 * end + 12_000
    ||| -6_000 <= c.start_x - start <= 6_000
    ||| -6_000 <= c.end_x - end <= 6_000
}

proof fn lemma_in_column(c: CellView, t: Track)
    ensures
        tracks::aligned(c, t) == is_in_column(c, t.start as int, t.end as int),
{
}

// ---------------------------------------------------------------------------
// Rows that are mended
// ---------------------------------------------------------------------------

/// The characters of the cells of a row, one cell behind the other.
pub open spec fn ink_of_cells(v: Seq<CellView>, n: int) -> Seq<char>
    decreases n,
{
    if n <= 0 {
        seq![]
    } else {
        ink_of_cells(v, n - 1) + text::ink_of(v[n - 1].text)
    }
}

proof fn lemma_ink_of_front(a: Seq<CellView>, b: Seq<CellView>, n: int)
    requires
        0 <= n <= a.len(),
    ensures
        ink_of_cells(a + b, n) == ink_of_cells(a, n),
    decreases n,
{
    if n > 0 {
        lemma_ink_of_front(a, b, n - 1);
    }
}

proof fn lemma_ink_of_two(a: Seq<CellView>, b: Seq<CellView>, n: int)
    requires
        0 <= n <= b.len(),
    ensures
        ink_of_cells(a + b, a.len() + n) == ink_of_cells(a, a.len() as int) + ink_of_cells(b, n),
    decreases n,
{
    if n > 0 {
        lemma_ink_of_two(a, b, n - 1);
        assert((a + b)[a.len() + n - 1] == b[n - 1]);
        let x = ink_of_cells(a, a.len() as int);
        let y = ink_of_cells(b, n - 1);
        let z = text::ink_of(b[n - 1].text);
        assert(x + y + z =~= x + (y + z));
    } else {
        lemma_ink_of_front(a, b, a.len() as int);
        assert(ink_of_cells(a, a.len() as int) + ink_of_cells(b, 0) =~= ink_of_cells(
            a,
            a.len() as int,
        ));
    }
}

/// Where piece `i` of a text begins.
spec fn cut_at(breaks: Seq<int>, i: int) -> int {
    if i == 0 {
        0
    } else {
        breaks[i - 1]
    }
}

proof fn lemma_pieces_ink(cs: Seq<char>, breaks: Seq<int>, v: Seq<CellView>, n: int)
    requires
        forall|i: int| 0 <= i < breaks.len() ==> 0 <= #[trigger] breaks[i] <= cs.len(),
        forall|i: int, j: int| 0 <= i <= j < breaks.len() ==> breaks[i] <= breaks[j],
        v.len() == breaks.len() + 1,
        forall|i: int|
            0 <= i < v.len() ==> (#[trigger] v[i]).text == cells::pieces_at(cs, breaks)[i],
        0 <= n <= v.len(),
    ensures
        ink_of_cells(v, n) == text::ink_of(
            cs.take(
                if n == v.len() {
                    cs.len() as int
                } else {
                    cut_at(breaks, n)
                },
            ),
        ),
    decreases n,
{
    if n > 0 {
        lemma_pieces_ink(cs, breaks, v, n - 1);
        let a = cut_at(breaks, n - 1);
        let b = if n == v.len() {
            cs.len() as int
        } else {
            cut_at(breaks, n)
        };
        assert(a <= b);
        let piece = cs.subrange(a, b);
        assert(v[n - 1].text == text::trim_of(piece));
        text::law_trim_keeps_ink(piece);
        assert(cs.take(b) =~= cs.take(a) + piece);
        text::lemma_ink_joined(cs.take(a), piece);
    } else {
        assert(cs.take(0) =~= seq![]);
        if v.len() == 0 {
            assert(false);
        }
    }
}

proof fn lemma_split_keeps_ink(v: Seq<CellView>, columns: Seq<int>)
    ensures
        match cells::split_widest(v, columns) {
            Some(w) => ink_of_cells(w, w.len() as int) == ink_of_cells(v, v.len() as int),
            None => true,
        },
{
    cells::lemma_widest(v, columns, v.len() as int);
    match cells::split_widest(v, columns) {
        Some(w) => {
            let i = cells::widest_upto(v, columns, v.len() as int)->0;
            let cell = v[i];
            let targets = cells::covered(cell, columns);
            let cs = text::trim_of(cell.text);
            let width = crate::types::max_of(
                cell.end_x - cell.start_x,
                crate::types::PT as int,
            );
            cells::lemma_breaks(cs, targets, cell.start_x, width, targets.len() as int);
            let b = cells::breaks_upto(cs, targets, cell.start_x, width, targets.len() as int)->0;
            sort::law_sorted(b);
            let sb = sort::sorted(b);
            assert forall|k: int| 0 <= k < sb.len() implies 0 <= #[trigger] sb[k] <= cs.len() by {
                assert(sb.contains(sb[k]));
                assert(b.contains(sb[k]));
            }
            let pieces = cells::pieces_at(cs, sb);
            let mid = cells::cells_for_pieces(cell, targets, pieces);
            lemma_pieces_ink(cs, sb, mid, mid.len() as int);
            assert(cs.take(cs.len() as int) =~= cs);
            text::law_trim_keeps_ink(cell.text);
            let front = v.take(i);
            let back = v.skip(i + 1);
            lemma_ink_of_two(front, mid, mid.len() as int);
            lemma_ink_of_two(front + mid, back, back.len() as int);
            let one = seq![cell];
            lemma_ink_of_two(front, one, 1);
            lemma_ink_of_two(front + one, back, back.len() as int);
            assert(v =~= front + one + back);
            assert(w =~= front + mid + back);
            reveal_with_fuel(ink_of_cells, 2);
            assert(ink_of_cells(one, 1) =~= text::ink_of(cell.text));
        },
        None => {},
    }
}

proof fn lemma_mended_keeps_ink(v: Seq<CellView>, columns: Seq<int>)
    ensures
        match cells::mended_from(v, columns) {
            Some(w) => w.len() == columns.len() && ink_of_cells(w, w.len() as int) == ink_of_cells(
                v,
                v.len() as int,
            ),
            None => true,
        },
    decreases
            (if v.len() < columns.len() {
                columns.len() - v.len()
            } else {
                0
            }),
{
    if v.len() < columns.len() {
        lemma_split_keeps_ink(v, columns);
        cells::lemma_split_widest_grows(v, columns);
        match cells::split_widest(v, columns) {
            Some(w) => {
                lemma_mended_keeps_ink(w, columns);
            },
            None => {},
        }
    }
}

/// A row that is mended has one cell for each column, and its cells have the same characters
/// in the same order as before.
pub proof fn law_mended_rows_keep_their_text(v: Seq<CellView>, columns: Seq<int>)
    ensures
        match cells::mended(v, columns) {
            Some(w) => v.len() < columns.len() && w.len() == columns.len() && ink_of_cells(
                w,
                w.len() as int,
            ) == ink_of_cells(v, v.len() as int),
            None => true,
        },
{
    lemma_mended_keeps_ink(v, columns);
}

// ---------------------------------------------------------------------------
// Tables of a page
// ---------------------------------------------------------------------------

/// Whether a row is that of a line: it has the characters of the visible runs of the line, in
/// their order.
pub open spec fn is_row_of(line: ProjectedLine, row: Seq<CellView>) -> bool {
    ink_of_cells(row, row.len() as int) == ink_of_cells(
        cells::cells_of(line),
        cells::cells_of(line).len() as int,
    )
}

proof fn lemma_row_cells(line: ProjectedLine, columns: Seq<int>)
    ensures
        is_row_of(line, page_tables::row_cells(line, columns)),
{
    law_mended_rows_keep_their_text(cells::cells_of(line), columns);
}

/// Whether the rows stand on the lines from `start` on, one behind the other, each close
/// below the one before.
pub open spec fn are_rows_of(
    lines: Seq<ProjectedLine>,
    start: int,
    found: Seq<RowView>,
    columns: nat,
) -> bool {
    &&& forall|k: int|
        0 <= k < found.len() ==> (#[trigger] found[k]).line == start + k && start + k
            < lines.len() && found[k].cells.len() == columns && is_row_of(
            lines[start + k],
            found[k].cells,
        )
    &&& forall|k: int|
        0 < k < found.len() ==> are_close(
            lines[start + k - 1],
            lines[(#[trigger] found[k]).line],
        )
}

/// Whether a line is close below another: it overlaps it by no more than the height of the
/// taller one, and leaves two and a half heights at most.
pub open spec fn are_close(a: ProjectedLine, b: ProjectedLine) -> bool {
    let h = if a.bbox.height >= b.bbox.height {
        a.bbox.height as int
    } else {
        b.bbox.height as int
    };
    let height = if h < 1_000 {
        1_000
    } else {
        h
    };
    let gap = b.bbox.y - a.bbox.y - a.bbox.height;
    -height <= gap && 10 * gap <= 25 * height
}

proof fn lemma_rows_of(
    lines: Seq<ProjectedLine>,
    columns: Seq<int>,
    start: int,
    found: Seq<RowView>,
    j: int,
)
    requires
        0 <= start < j <= lines.len(),
        found.len() == j - start,
        are_rows_of(lines, start, found, columns.len()),
    ensures
        are_rows_of(
            lines,
            start,
            page_tables::rows_from(lines, columns, found, j),
            columns.len(),
        ),
        page_tables::rows_from(lines, columns, found, j).len() >= found.len(),
        page_tables::rows_from(lines, columns, found, j)[0] == found[0],
    decreases lines.len() - j,
{
    if !(j >= lines.len() || !rows::rows_adjacent(lines[found.last().line], lines[j])) {
        let row = page_tables::row_cells(lines[j], columns);
        if page_tables::row_fits(row, columns) {
            let more = found.push(RowView { line: j, cells: row });
            lemma_row_cells(lines[j], columns);
            assert(found.last() == found[found.len() - 1]);
            assert forall|k: int| 0 <= k < more.len() implies (#[trigger] more[k]).line == start + k
                && start + k < lines.len() && more[k].cells.len() == columns.len() && is_row_of(
                lines[start + k],
                more[k].cells,
            ) by {
                if k < found.len() {
                    assert(more[k] == found[k]);
                }
            }
            assert forall|k: int| 0 < k < more.len() implies are_close(
                lines[start + k - 1],
                lines[(#[trigger] more[k]).line],
            ) by {
                if k < found.len() {
                    assert(more[k] == found[k]);
                } else {
                    assert(rows::rows_adjacent(lines[j - 1], lines[j]));
                }
            }
            lemma_rows_of(lines, columns, start, more, j + 1);
            assert(more[0] == found[0]);
        }
    }
}

/// A table of a page takes lines that follow each other closely, one for each row, at least
/// two, with three cells or more. Its rows have the text of their lines. Its first row is its
/// header where all cells of it are bold. A table whose rows are too irregular has its lines
/// as they are.
pub proof fn law_page_tables_keep_their_text(lines: Seq<ProjectedLine>, start: int)
    requires
        0 <= start < lines.len(),
        page_tables::table_at(lines, start) is Some,
    ensures
        ({
            let run = page_tables::table_at(lines, start)->0;
            &&& run.start == start
            &&& start + 2 <= run.end <= lines.len()
            &&& cells::cells_of(lines[start]).len() >= 3
            &&& exists|found: Seq<RowView>| #[trigger]
                are_rows_of(lines, start, found, cells::cells_of(lines[start]).len())
                    && found.len() == run.end - start && shows_rows(lines, run.block, found)
        }),
{
    let first = cells::cells_of(lines[start]);
    let cols = rows::starts_of(first);
    let one = seq![RowView { line: start, cells: first }];
    assert(are_rows_of(lines, start, one, cols.len()));
    lemma_rows_of(lines, cols, start, one, start + 1);
    let found = page_tables::rows_from(lines, cols, one, start + 1);
    let run = page_tables::table_at(lines, start)->0;
    assert(found[found.len() - 1].line < lines.len());
    assert(shows_rows(lines, run.block, found));
    assert(are_rows_of(lines, start, found, first.len()));
}

/// Whether a block shows the rows of a table.
pub open spec fn shows_rows(
    lines: Seq<ProjectedLine>,
    b: BlockView,
    found: Seq<RowView>,
) -> bool {
    match b {
        BlockView::Table { header, rows } => {
            let all = grid_of(b);
            &&& all.len() == found.len()
            &&& forall|k: int, c: int|
                0 <= k < found.len() && 0 <= c < found[k].cells.len() ==> (#[trigger] all[k][c])
                    == found[k].cells[c].text && all[k].len() == found[k].cells.len()
            &&& header is Some <==> forall|c: int|
                0 <= c < found[0].cells.len() ==> (#[trigger] found[0].cells[c]).bold
        },
        BlockView::GridFallback { lines: kept } => {
            &&& kept.len() == found.len()
            &&& forall|k: int|
                0 <= k < kept.len() ==> (#[trigger] kept[k]) == text::trim_end_of(
                    lines[found[k].line].text@,
                )
        },
        _ => false,
    }
}

// ---------------------------------------------------------------------------
// Tables of a region
// ---------------------------------------------------------------------------

/// Whether a cell of a line belongs to a table with the given columns: it lies in one of
/// them, or the line has one cell for each.
pub open spec fn belongs(row: Seq<CellView>, v: Seq<Track>, i: int) -> bool {
    row.len() == v.len() || exists|k: int|
        0 <= k < v.len() && is_in_column(row[i], (#[trigger] v[k]).start as int, v[k].end as int)
}

/// Whether a table shows all cells of a line that belong to it.
pub open spec fn shows_line(
    grid: Seq<Seq<Seq<char>>>,
    row: Seq<CellView>,
    v: Seq<Track>,
) -> bool {
    forall|i: int|
        0 <= i < row.len() && belongs(row, v, i) ==> is_shown_in(grid, (#[trigger] row[i]).text)
}

/// Whether a table shows the lines from `start` to `j`, but for those right of `edge`.
pub open spec fn shows_lines(
    lines: Seq<ProjectedLine>,
    cols: Seq<int>,
    v: Seq<Track>,
    edge: int,
    grid: Seq<Seq<Seq<char>>>,
    start: int,
    j: int,
) -> bool {
    forall|i: int|
        start <= i < j && (#[trigger] lines[i]).bbox.x <= edge ==> shows_line(
            grid,
            page_tables::row_cells(lines[i], cols),
            v,
        )
}

/// Whether every cell of a grid is a part of the same cell of another.
spec fn grows_into(a: Seq<Seq<Seq<char>>>, b: Seq<Seq<Seq<char>>>) -> bool {
    &&& a.len() <= b.len()
    &&& forall|r: int, k: int|
        0 <= r < a.len() && 0 <= k < a[r].len() ==> k < b[r].len() && is_part_of(
            #[trigger] a[r][k],
            b[r][k],
        )
}

proof fn lemma_grown_shows(
    lines: Seq<ProjectedLine>,
    cols: Seq<int>,
    v: Seq<Track>,
    edge: int,
    a: Seq<Seq<Seq<char>>>,
    b: Seq<Seq<Seq<char>>>,
    start: int,
    j: int,
)
    requires
        shows_lines(lines, cols, v, edge, a, start, j),
        grows_into(a, b),
    ensures
        shows_lines(lines, cols, v, edge, b, start, j),
{
    assert forall|i: int| start <= i < j && (#[trigger] lines[i]).bbox.x <= edge implies shows_line(
        b,
        page_tables::row_cells(lines[i], cols),
        v,
    ) by {
        let row = page_tables::row_cells(lines[i], cols);
        assert(shows_line(a, row, v));
        assert forall|c: int| 0 <= c < row.len() && belongs(row, v, c) implies is_shown_in(
            b,
            (#[trigger] row[c]).text,
        ) by {
            let s = row[c].text;
            let (r, k) = choose|r: int, k: int|
                0 <= r < a.len() && 0 <= k < a[r].len() && #[trigger] is_part_of(s, a[r][k]);
            lemma_part_through(s, a[r][k], b[r][k]);
        }
    }
}

proof fn lemma_row_pushed(found: Seq<RowView>, x: RowView)
    ensures
        grows_into(rows::row_cell_texts(found), rows::row_cell_texts(found.push(x))),
        rows::row_cell_texts(found.push(x))[found.len() as int] == cells::cell_texts(x.cells),
{
    let a = rows::row_cell_texts(found);
    let b = rows::row_cell_texts(found.push(x));
    assert forall|r: int, k: int| 0 <= r < a.len() && 0 <= k < a[r].len() implies k < b[r].len()
        && is_part_of(#[trigger] a[r][k], b[r][k]) by {
        lemma_part_self(a[r][k]);
        assert(b[r] == a[r]);
    }
}

proof fn lemma_track(c: CellView, v: Seq<Track>)
    ensures
        tracks::track_of(c, v) is Some <==> exists|k: int|
            0 <= k < v.len() && is_in_column(c, (#[trigger] v[k]).start as int, v[k].end as int),
        tracks::track_of(c, v) is Some ==> 0 <= tracks::track_of(c, v)->0 < v.len(),
{
    tracks::law_track_of(c, v);
    if tracks::aligned_any(c, v) {
        let k = choose|k: int| 0 <= k < v.len() && tracks::aligned(c, #[trigger] v[k]);
        lemma_in_column(c, v[k]);
        assert(is_in_column(c, v[k].start as int, v[k].end as int));
    }
    if exists|k: int|
        0 <= k < v.len() && is_in_column(c, (#[trigger] v[k]).start as int, v[k].end as int) {
        let k = choose|k: int|
            0 <= k < v.len() && is_in_column(c, (#[trigger] v[k]).start as int, v[k].end as int);
        lemma_in_column(c, v[k]);
        assert(tracks::aligned(c, v[k]));
    }
}

proof fn lemma_placed(base: Seq<CellView>, row: Seq<CellView>, v: Seq<Track>, n: int)
    requires
        0 <= n <= row.len(),
        base.len() == v.len(),
        column_tables::distinct_tracks(row, v),
    ensures
        column_tables::placed_upto(base, row, v, n).len() == v.len(),
        forall|i: int|
            0 <= i < n && tracks::track_of(#[trigger] row[i], v) is Some
                ==> column_tables::placed_upto(base, row, v, n)[tracks::track_of(row[i], v)->0]
                == row[i],
    decreases n,
{
    if n > 0 {
        lemma_placed(base, row, v, n - 1);
        lemma_track(row[n - 1], v);
        assert forall|i: int|
            0 <= i < n && tracks::track_of(#[trigger] row[i], v) is Some implies column_tables::placed_upto(
            base,
            row,
            v,
            n,
        )[tracks::track_of(row[i], v)->0] == row[i] by {
            lemma_track(row[i], v);
            if i < n - 1 {
                assert(tracks::track_of(row[i], v) != tracks::track_of(row[n - 1], v));
            }
        }
    }
}

proof fn lemma_wrapped(base: Seq<CellView>, row: Seq<CellView>, v: Seq<Track>, n: int)
    requires
        0 <= n <= row.len(),
        base.len() == v.len(),
    ensures
        ({
            let w = column_tables::wrapped_upto(base, row, v, n);
            &&& w.len() == v.len()
            &&& forall|k: int| 0 <= k < v.len() ==> is_part_of(base[k].text, (#[trigger] w[k]).text)
            &&& forall|i: int|
                0 <= i < n && tracks::track_of(#[trigger] row[i], v) is Some ==> is_part_of(
                    row[i].text,
                    w[tracks::track_of(row[i], v)->0].text,
                )
        }),
    decreases n,
{
    let w = column_tables::wrapped_upto(base, row, v, n);
    if n > 0 {
        lemma_wrapped(base, row, v, n - 1);
        let b = column_tables::wrapped_upto(base, row, v, n - 1);
        lemma_track(row[n - 1], v);
        if tracks::track_of(row[n - 1], v) is Some {
            let t = tracks::track_of(row[n - 1], v)->0;
            lemma_part_joined(b[t].text, row[n - 1].text);
            assert forall|k: int| 0 <= k < v.len() implies is_part_of(
                base[k].text,
                (#[trigger] w[k]).text,
            ) by {
                if k == t {
                    lemma_part_through(base[k].text, b[k].text, w[k].text);
                } else {
                    assert(w[k] == b[k]);
                }
            }
            assert forall|i: int|
                0 <= i < n && tracks::track_of(#[trigger] row[i], v) is Some implies is_part_of(
                row[i].text,
                w[tracks::track_of(row[i], v)->0].text,
            ) by {
                let k = tracks::track_of(row[i], v)->0;
                lemma_track(row[i], v);
                if i < n - 1 {
                    if k == t {
                        lemma_part_through(row[i].text, b[k].text, w[k].text);
                    } else {
                        assert(w[k] == b[k]);
                    }
                }
            }
        }
    } else {
        assert forall|k: int| 0 <= k < v.len() implies is_part_of(
            base[k].text,
            (#[trigger] w[k]).text,
        ) by {
            lemma_part_self(base[k].text);
        }
    }
}

proof fn lemma_tracked(row: Seq<CellView>, v: Seq<Track>, n: int)
    requires
        0 <= n <= row.len(),
    ensures
        forall|i: int|
            0 <= i < n && tracks::track_of(#[trigger] row[i], v) is Some
                ==> column_tables::tracked_upto(row, v, n).contains(row[i]),
    decreases n,
{
    if n > 0 {
        lemma_tracked(row, v, n - 1);
        let b = column_tables::tracked_upto(row, v, n - 1);
        let w = column_tables::tracked_upto(row, v, n);
        assert forall|i: int|
            0 <= i < n && tracks::track_of(#[trigger] row[i], v) is Some implies w.contains(
            row[i],
        ) by {
            if i < n - 1 {
                let k = choose|k: int| 0 <= k < b.len() && b[k] == row[i];
                assert(w[k] == row[i]);
            } else {
                assert(w[b.len() as int] == row[i]);
            }
        }
    }
}

/// A cell of a row of a grid is shown in it.
proof fn lemma_cell_shown(found: Seq<RowView>, r: int, k: int, s: Seq<char>)
    requires
        0 <= r < found.len(),
        0 <= k < found[r].cells.len(),
        is_part_of(s, found[r].cells[k].text),
    ensures
        is_shown_in(rows::row_cell_texts(found), s),
{
    let grid = rows::row_cell_texts(found);
    assert(grid[r][k] == found[r].cells[k].text);
    assert(is_part_of(s, grid[r][k]));
}

/// Whether all rows have one cell for each column.
spec fn are_full(found: Seq<RowView>, columns: nat) -> bool {
    found.len() > 0 && forall|r: int|
        0 <= r < found.len() ==> (#[trigger] found[r]).cells.len() == columns
}

proof fn lemma_line_shown(
    lines: Seq<ProjectedLine>,
    cols: Seq<int>,
    v: Seq<Track>,
    found: Seq<RowView>,
    j: int,
)
    requires
        cols.len() == v.len(),
        are_full(found, v.len()),
        column_tables::rows_with_line(lines, cols, v, found, j) is Some,
    ensures
        ({
            let more = column_tables::rows_with_line(lines, cols, v, found, j)->0;
            &&& are_full(more, v.len())
            &&& grows_into(rows::row_cell_texts(found), rows::row_cell_texts(more))
            &&& shows_line(
                rows::row_cell_texts(more),
                page_tables::row_cells(lines[j], cols),
                v,
            )
        }),
{
    let row = page_tables::row_cells(lines[j], cols);
    let more = column_tables::rows_with_line(lines, cols, v, found, j)->0;
    let m = row.len() as int;
    let last = found.last();
    assert(last == found[found.len() - 1]);
    let x = more.last();
    assert(x == more[more.len() - 1]);
    assert forall|i: int| 0 <= i < row.len() implies (tracks::track_of(#[trigger] row[i], v) is Some
        <==> exists|k: int|
        0 <= k < v.len() && is_in_column(
            row[i],
            (#[trigger] v[k]).start as int,
            v[k].end as int,
        )) by {
        lemma_track(row[i], v);
    }
    if more.len() == found.len() + 1 {
        lemma_row_pushed(found, x);
        assert(more =~= found.push(x));
        assert forall|r: int| 0 <= r < more.len() implies (#[trigger] more[r]).cells.len()
            == v.len() by {
            if r < found.len() {
                assert(more[r] == found[r]);
            } else if row.len() < v.len() {
                lemma_placed(inferred::blank_cells(cols), row, v, m);
            }
        }
        assert forall|i: int| 0 <= i < row.len() && belongs(row, v, i) implies is_shown_in(
            rows::row_cell_texts(more),
            (#[trigger] row[i]).text,
        ) by {
            lemma_part_self(row[i].text);
            lemma_track(row[i], v);
            if row.len() < v.len() {
                lemma_placed(inferred::blank_cells(cols), row, v, m);
                lemma_cell_shown(
                    more,
                    more.len() - 1,
                    tracks::track_of(row[i], v)->0,
                    row[i].text,
                );
            } else if row.len() > v.len() {
                lemma_tracked(row, v, m);
                let kept = column_tables::tracked_upto(row, v, m);
                let k = choose|k: int| 0 <= k < kept.len() && kept[k] == row[i];
                assert(kept.contains(row[i]));
                lemma_cell_shown(more, more.len() - 1, k, row[i].text);
            } else {
                lemma_cell_shown(more, more.len() - 1, i, row[i].text);
            }
        }
    } else {
        lemma_wrapped(last.cells, row, v, m);
        let a = rows::row_cell_texts(found);
        let b = rows::row_cell_texts(more);
        assert forall|r: int| 0 <= r < more.len() implies (#[trigger] more[r]).cells.len()
            == v.len() by {
            if r < found.len() - 1 {
                assert(more[r] == found[r]);
            }
        }
        assert forall|r: int, k: int| 0 <= r < a.len() && 0 <= k < a[r].len() implies k
            < b[r].len() && is_part_of(#[trigger] a[r][k], b[r][k]) by {
            if r < found.len() - 1 {
                assert(more[r] == found[r]);
                lemma_part_self(a[r][k]);
            } else {
                let w = column_tables::wrapped_upto(last.cells, row, v, m);
                assert(w[k].text == b[r][k]);
            }
        }
        assert forall|i: int| 0 <= i < row.len() && belongs(row, v, i) implies is_shown_in(
            b,
            (#[trigger] row[i]).text,
        ) by {
            lemma_track(row[i], v);
            lemma_cell_shown(
                more,
                more.len() - 1,
                tracks::track_of(row[i], v)->0,
                row[i].text,
            );
        }
    }
}

proof fn lemma_lines_shown(
    lines: Seq<ProjectedLine>,
    cols: Seq<int>,
    v: Seq<Track>,
    edge: int,
    found: Seq<RowView>,
    start: int,
    j: int,
)
    requires
        0 <= start < j <= lines.len(),
        cols.len() == v.len(),
        are_full(found, v.len()),
        shows_lines(lines, cols, v, edge, rows::row_cell_texts(found), start, j),
    ensures
        ({
            let scan = column_tables::column_rows(lines, cols, v, edge, found, j);
            &&& are_full(scan.rows, v.len())
            &&& j <= scan.end <= lines.len()
            &&& shows_lines(
                lines,
                cols,
                v,
                edge,
                rows::row_cell_texts(scan.rows),
                start,
                scan.end,
            )
        }),
    decreases lines.len() - j,
{
    if j < lines.len() {
        if lines[j].bbox.x > edge {
            lemma_lines_shown(lines, cols, v, edge, found, start, j + 1);
        } else if rows::rows_adjacent(lines[found.last().line], lines[j]) {
            match column_tables::rows_with_line(lines, cols, v, found, j) {
                Some(more) => {
                    lemma_line_shown(lines, cols, v, found, j);
                    lemma_grown_shows(
                        lines,
                        cols,
                        v,
                        edge,
                        rows::row_cell_texts(found),
                        rows::row_cell_texts(more),
                        start,
                        j,
                    );
                    lemma_lines_shown(lines, cols, v, edge, more, start, j + 1);
                },
                None => {},
            }
        }
    }
}

proof fn lemma_header_shows(
    lines: Seq<ProjectedLine>,
    cols: Seq<int>,
    v: Seq<Track>,
    edge: int,
    h: Seq<Seq<char>>,
    texts: Seq<Seq<Seq<char>>>,
    start: int,
    j: int,
)
    requires
        shows_lines(lines, cols, v, edge, texts, start, j),
    ensures
        shows_lines(lines, cols, v, edge, seq![h] + texts, start, j),
{
    let grid = seq![h] + texts;
    assert forall|i: int| start <= i < j && (#[trigger] lines[i]).bbox.x <= edge implies shows_line(
        grid,
        page_tables::row_cells(lines[i], cols),
        v,
    ) by {
        let row = page_tables::row_cells(lines[i], cols);
        assert(shows_line(texts, row, v));
        assert forall|c: int| 0 <= c < row.len() && belongs(row, v, c) implies is_shown_in(
            grid,
            (#[trigger] row[c]).text,
        ) by {
            let s = row[c].text;
            let (r, k) = choose|r: int, k: int|
                0 <= r < texts.len() && 0 <= k < texts[r].len() && #[trigger] is_part_of(
                    s,
                    texts[r][k],
                );
            assert(grid[r + 1] == texts[r]);
            assert(is_part_of(s, grid[r + 1][k]));
        }
    }
}

proof fn lemma_run_shows(
    lines: Seq<ProjectedLine>,
    cols: Seq<int>,
    v: Seq<Track>,
    edge: int,
    floor: int,
    scan: Scan,
    bold: bool,
    start: int,
)
    requires
        scan.rows.len() >= 1,
        shows_lines(
            lines,
            cols,
            v,
            edge,
            rows::row_cell_texts(scan.rows),
            start,
            scan.end,
        ),
    ensures
        shows_lines(
            lines,
            cols,
            v,
            edge,
            grid_of(column_tables::table_run(lines, start, floor, scan, v, bold).block),
            start,
            scan.end,
        ),
{
    let texts = rows::row_cell_texts(scan.rows);
    match tracks::absorbed_header(lines, start, v, floor) {
        Some(h) => {
            lemma_header_shows(lines, cols, v, edge, h.1, texts, start, scan.end);
        },
        None => {
            assert(texts[0] == cells::cell_texts(scan.rows[0].cells));
            assert(seq![texts[0]] + texts.skip(1) =~= texts);
        },
    }
}

/// A table of a region, whose columns its first line sets, has three columns or more and
/// shows every cell of its lines that lies in one of the columns. Passed over are only lines
/// that begin eight points or more right of all cells of the first line.
pub proof fn law_region_tables_keep_their_text(
    lines: Seq<ProjectedLine>,
    start: int,
    floor: int,
)
    requires
        0 <= floor <= start < lines.len(),
        column_tables::table_at(lines, start, floor) is Some,
        column_tables::table_at(lines, start, floor)->0.block is Table,
    ensures
        ({
            let run = column_tables::table_at(lines, start, floor)->0;
            let first = cells::cells_of(lines[start]);
            &&& first.len() >= 3
            &&& run.start <= start < run.end <= lines.len()
            &&& exists|edge: int|
                shows_lines(
                    lines,
                    rows::starts_of(first),
                    tracks::extents_of(first),
                    edge,
                    grid_of(run.block),
                    start,
                    run.end,
                ) && #[trigger] is_edge_of(first, edge)
        }),
{
    let first = cells::cells_of(lines[start]);
    let cols = rows::starts_of(first);
    let v = tracks::extents_of(first);
    let edge = column_tables::right_edge_upto(first, first.len() as int)
        + column_tables::RIGHT_EDGE_SLACK;
    let one = seq![RowView { line: start, cells: first }];
    lemma_right_edge(first, first.len() as int);
    let row = page_tables::row_cells(lines[start], cols);
    assert(row == first);
    assert forall|i: int| 0 <= i < row.len() && belongs(row, v, i) implies is_shown_in(
        rows::row_cell_texts(one),
        (#[trigger] row[i]).text,
    ) by {
        lemma_part_self(row[i].text);
        lemma_cell_shown(one, 0, i, row[i].text);
    }
    assert(shows_lines(lines, cols, v, edge, rows::row_cell_texts(one), start, start + 1));
    lemma_lines_shown(lines, cols, v, edge, one, start, start + 1);
    let scan = column_tables::column_rows(lines, cols, v, edge, one, start + 1);
    let run = column_tables::table_at(lines, start, floor)->0;
    tracks::lemma_header_top(lines, start, v, floor);
    lemma_run_shows(
        lines,
        cols,
        v,
        edge,
        floor,
        scan,
        rows::all_bold(scan.rows[0].cells),
        start,
    );
    assert(run == column_tables::table_run(
        lines,
        start,
        floor,
        scan,
        v,
        rows::all_bold(scan.rows[0].cells),
    ));
    assert(is_edge_of(first, edge));
}

/// Whether an edge is eight points right of the rightmost edge of all cells.
pub open spec fn is_edge_of(first: Seq<CellView>, edge: int) -> bool {
    &&& forall|i: int|
        0 <= i < first.len() ==> (#[trigger] first[i]).end_x + 8_000 <= edge && first[i].start_x
            + 8_000 <= edge
    &&& exists|i: int|
        0 <= i < first.len() && ((#[trigger] first[i]).end_x + 8_000 == edge || first[i].start_x
            + 8_000 == edge)
}

proof fn lemma_right_edge(row: Seq<CellView>, n: int)
    requires
        1 <= n <= row.len(),
    ensures
        forall|i: int|
            0 <= i < n ==> (#[trigger] row[i]).end_x <= column_tables::right_edge_upto(row, n)
                && row[i].start_x <= column_tables::right_edge_upto(row, n),
        exists|i: int|
            0 <= i < n && ((#[trigger] row[i]).end_x == column_tables::right_edge_upto(row, n)
                || row[i].start_x == column_tables::right_edge_upto(row, n)),
    decreases n,
{
    if n > 1 {
        lemma_right_edge(row, n - 1);
        let e = column_tables::right_edge_upto(row, n);
        let i = choose|i: int|
            0 <= i < n - 1 && ((#[trigger] row[i]).end_x == column_tables::right_edge_upto(
                row,
                n - 1,
            ) || row[i].start_x == column_tables::right_edge_upto(row, n - 1));
        if !(row[i].end_x == e || row[i].start_x == e) {
            assert(row[n - 1].end_x == e || row[n - 1].start_x == e);
        }
    } else {
        assert(row[0].end_x == column_tables::right_edge_upto(row, 1) || row[0].start_x
            == column_tables::right_edge_upto(row, 1));
    }
}

} // verus!
