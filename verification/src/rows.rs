//! Rows of tables: when lines follow each other as rows, how regular their
//! spacing is, and the runs of lines that tables are made of.

use vstd::prelude::*;
use crate::cells;
use crate::cells::{CellView, TableCell};
use crate::numbers;
use crate::sort;
use crate::text;
use crate::types;
use crate::types::{Block, BlockView, ProjectedLine};

verus! {

/// Minimum number of cells in a row of a table.
pub const TABLE_MIN_COLUMNS: usize = 3;

/// Minimum number of rows of a table.
pub const TABLE_MIN_ROWS: usize = 2;

/// A table found in a list of lines: it takes the lines `start..end`.
#[derive(Clone, Debug)]
pub struct TableRun {
    pub start: usize,
    pub end: usize,
    pub block: Block,
}

/// The contents of a `TableRun`.
#[verifier::ext_equal]
pub struct RunView {
    pub start: int,
    pub end: int,
    pub block: BlockView,
}

impl View for TableRun {
    type V = RunView;

    open spec fn view(&self) -> RunView {
        RunView { start: self.start as int, end: self.end as int, block: self.block@ }
    }
}

/// The contents of every run of `v`.
pub open spec fn run_views(v: Seq<TableRun>) -> Seq<RunView> {
    Seq::new(v.len(), |i: int| v[i]@)
}

/// Whether a run takes one or more of the first `n` lines.
pub open spec fn run_fits(r: RunView, n: int) -> bool {
    0 <= r.start < r.end <= n
}

/// Whether every run takes one or more of the first `n` lines.
pub open spec fn runs_fit(v: Seq<RunView>, n: int) -> bool {
    forall|i: int| 0 <= i < v.len() ==> run_fits(#[trigger] v[i], n)
}

/// Whether the runs follow each other without sharing a line.
pub open spec fn runs_in_sequence(v: Seq<RunView>) -> bool {
    forall|i: int, j: int| 0 <= i < j < v.len() ==> (#[trigger] v[i]).end <= (#[trigger] v[j]).start
}

/// A copy of a run.
pub fn clone_run(r: &TableRun) -> (c: TableRun)
    ensures
        c@ == r@,
{
    TableRun { start: r.start, end: r.end, block: types::clone_block(&r.block) }
}

/// The lines at which the runs begin.
pub open spec fn run_starts(v: Seq<RunView>) -> Seq<int> {
    Seq::new(v.len(), |i: int| v[i].start)
}

/// The runs in the order in which they begin.
pub open spec fn in_order(v: Seq<RunView>) -> Seq<RunView> {
    sort::pick(v, sort::stable_order(run_starts(v)))
}

/// The runs in the order in which they begin.
pub fn sort_runs(v: &Vec<TableRun>) -> (r: Vec<TableRun>)
    ensures
        run_views(r@) == in_order(run_views(v@)),
        forall|n: int| runs_fit(run_views(v@), n) ==> #[trigger] runs_fit(run_views(r@), n),
        r@.len() == v@.len(),
{
    let ghost rv = run_views(v@);
    let mut keys: Vec<i128> = Vec::new();
    let mut k: usize = 0;
    while k < v.len()
        invariant
            k <= v@.len(),
            keys@.len() == k,
            forall|i: int| 0 <= i < k ==> #[trigger] keys@[i] == v@[i].start,
        decreases v.len() - k,
    {
        keys.push(v[k].start as i128);
        k = k + 1;
    }
    proof {
        assert(sort::wide(keys@) =~= run_starts(rv));
    }
    let order: Vec<usize> = sort::order_by(&keys);
    let mut out: Vec<TableRun> = Vec::new();
    let mut i: usize = 0;
    while i < order.len()
        invariant
            i <= order@.len() == v@.len(),
            rv == run_views(v@),
            forall|j: int| 0 <= j < order@.len() ==> #[trigger] order@[j] < v@.len(),
            out@.len() == i,
            forall|j: int| 0 <= j < i ==> (#[trigger] out@[j])@ == rv[order@[j] as int],
        decreases order.len() - i,
    {
        out.push(clone_run(&v[order[i]]));
        i = i + 1;
    }
    proof {
        assert forall|j: int| 0 <= j < out@.len() implies #[trigger] run_views(out@)[j] == in_order(
            rv,
        )[j] by {
            assert(out@[j]@ == rv[order@[j] as int]);
            assert(sort::indices(order@)[j] == order@[j]);
        }
        assert(run_views(out@) =~= in_order(rv));
        assert forall|n: int| runs_fit(rv, n) implies #[trigger] runs_fit(run_views(out@), n) by {
            assert forall|j: int| 0 <= j < out@.len() implies run_fits(
                #[trigger] run_views(out@)[j],
                n,
            ) by {
                assert(out@[j]@ == rv[order@[j] as int]);
            }
        }
    }
    out
}

/// Whether two runs share a line.
pub open spec fn runs_overlap(a: RunView, b: RunView) -> bool {
    !(a.end <= b.start || a.start >= b.end)
}

/// Whether a run shares a line with any of the runs of `v`.
pub open spec fn overlaps_any(a: RunView, v: Seq<RunView>) -> bool {
    exists|i: int| 0 <= i < v.len() && runs_overlap(a, #[trigger] v[i])
}

/// Whether a run shares a line with any of the runs of `v`.
pub fn run_overlaps_any(a: &TableRun, v: &Vec<TableRun>) -> (r: bool)
    ensures
        r == overlaps_any(a@, run_views(v@)),
{
    let ghost rv = run_views(v@);
    let mut i: usize = 0;
    while i < v.len()
        invariant
            i <= v@.len(),
            rv == run_views(v@),
            forall|k: int| 0 <= k < i ==> !runs_overlap(a@, #[trigger] rv[k]),
        decreases v.len() - i,
    {
        proof {
            assert(rv[i as int] == v@[i as int]@);
        }
        if !(a.end <= v[i].start || a.start >= v[i].end) {
            return true;
        }
        i = i + 1;
    }
    false
}

/// `kept` with each of the first `n` runs of `more` that shares no line with the
/// runs before it.
pub open spec fn with_disjoint(kept: Seq<RunView>, more: Seq<RunView>, n: int) -> Seq<RunView>
    decreases n,
{
    if n <= 0 {
        kept
    } else {
        let before = with_disjoint(kept, more, n - 1);
        if overlaps_any(more[n - 1], before) {
            before
        } else {
            before.push(more[n - 1])
        }
    }
}

/// `kept` with each of the runs of `more` that shares no line with the runs
/// before it, in the order in which they begin.
pub fn add_disjoint(kept: Vec<TableRun>, more: &Vec<TableRun>) -> (r: Vec<TableRun>)
    ensures
        run_views(r@) == in_order(
            with_disjoint(run_views(kept@), run_views(more@), more@.len() as int),
        ),
        forall|n: int|
            runs_fit(run_views(kept@), n) && runs_fit(run_views(more@), n) ==> #[trigger] runs_fit(
                run_views(r@),
                n,
            ),
{
    let ghost kv = run_views(kept@);
    let ghost mv = run_views(more@);
    let mut out: Vec<TableRun> = kept;
    let mut i: usize = 0;
    while i < more.len()
        invariant
            i <= more@.len(),
            mv == run_views(more@),
            run_views(out@) == with_disjoint(kv, mv, i as int),
            forall|n: int|
                runs_fit(kv, n) && runs_fit(mv, n) ==> #[trigger] runs_fit(run_views(out@), n),
        decreases more.len() - i,
    {
        proof {
            assert(mv[i as int] == more@[i as int]@);
        }
        if !run_overlaps_any(&more[i], &out) {
            let c: TableRun = clone_run(&more[i]);
            proof {
                let before = run_views(out@);
                assert(run_views(out@.push(c)) =~= before.push(c@));
                assert forall|n: int| runs_fit(kv, n) && runs_fit(mv, n) implies #[trigger] runs_fit(
                    run_views(out@.push(c)),
                    n,
                ) by {
                    assert(runs_fit(before, n));
                    assert(run_fits(mv[i as int], n));
                }
            }
            out.push(c);
        }
        i = i + 1;
    }
    sort_runs(&out)
}

/// A row of a table: the line it stands on and its cells.
pub struct TableRow {
    pub line: usize,
    pub cells: Vec<TableCell>,
}

/// The contents of a `TableRow`.
#[verifier::ext_equal]
pub struct RowView {
    pub line: int,
    pub cells: Seq<CellView>,
}

impl View for TableRow {
    type V = RowView;

    open spec fn view(&self) -> RowView {
        RowView { line: self.line as int, cells: cells::cell_views(self.cells@) }
    }
}

/// The contents of every row of `v`.
pub open spec fn row_views(v: Seq<TableRow>) -> Seq<RowView> {
    Seq::new(v.len(), |i: int| v[i]@)
}

/// The lines that the rows stand on.
pub open spec fn row_lines(v: Seq<RowView>) -> Seq<int> {
    Seq::new(v.len(), |i: int| v[i].line)
}

/// The texts of the cells of every row.
pub open spec fn row_cell_texts(v: Seq<RowView>) -> Seq<Seq<Seq<char>>> {
    Seq::new(v.len(), |i: int| cells::cell_texts(v[i].cells))
}

// ---------------------------------------------------------------------------
// Rows that follow each other
// ---------------------------------------------------------------------------

/// The height of the taller of two lines, at least one point.
pub open spec fn row_height(a: ProjectedLine, b: ProjectedLine) -> int {
    types::max_of(types::max_of(a.bbox.height as int, b.bbox.height as int), types::PT as int)
}

/// The vertical distance from the bottom of `prev` to the top of `cur`.
pub open spec fn gap_below(prev: ProjectedLine, cur: ProjectedLine) -> int {
    cur.bbox.y - prev.bbox.bottom_edge()
}

/// Whether `cur` is close enough below `prev` to be the next row: it overlaps by
/// at most one row height and leaves at most two and a half.
pub open spec fn rows_adjacent(prev: ProjectedLine, cur: ProjectedLine) -> bool {
    let gap = gap_below(prev, cur);
    let height = row_height(prev, cur);
    -height <= gap && 2 * gap <= 5 * height
}

/// The height of the taller of two lines, at least one point.
pub fn taller(a: &ProjectedLine, b: &ProjectedLine) -> (r: i64)
    ensures
        r == row_height(*a, *b),
        0 < r <= 0x8000_0000,
{
    types::max64(types::max64(a.bbox.height as i64, b.bbox.height as i64), types::PT)
}

/// The vertical distance from the bottom of `prev` to the top of `cur`.
pub fn gap_between(prev: &ProjectedLine, cur: &ProjectedLine) -> (r: i64)
    ensures
        r == gap_below(*prev, *cur),
        cells::in_reach(r as int),
{
    cur.bbox.y as i64 - prev.bbox.bottom()
}

/// Whether `cur` is close enough below `prev` to be the next row of a table.
pub fn table_rows_adjacent(prev: &ProjectedLine, cur: &ProjectedLine) -> (r: bool)
    ensures
        r == rows_adjacent(*prev, *cur),
{
    let gap: i64 = gap_between(prev, cur);
    let height: i64 = taller(prev, cur);
    gap >= -height && 2 * gap <= 5 * height
}

// ---------------------------------------------------------------------------
// Regular spacing
// ---------------------------------------------------------------------------

/// The vertical distance between the tops of the `k`-th row and the next.
pub open spec fn pitch(lines: Seq<ProjectedLine>, at: Seq<int>, k: int) -> int {
    types::dist(lines[at[k + 1]].bbox.y as int, lines[at[k]].bbox.y as int)
}

/// The sum of the first `n` pitches.
pub open spec fn pitch_sum(lines: Seq<ProjectedLine>, at: Seq<int>, n: int) -> int
    decreases n,
{
    if n <= 0 {
        0
    } else {
        pitch_sum(lines, at, n - 1) + pitch(lines, at, n - 1)
    }
}

/// The sum of the squares of the first `n` pitches.
pub open spec fn pitch_squares(lines: Seq<ProjectedLine>, at: Seq<int>, n: int) -> int
    decreases n,
{
    if n <= 0 {
        0
    } else {
        pitch_squares(lines, at, n - 1) + pitch(lines, at, n - 1) * pitch(lines, at, n - 1)
    }
}

/// Whether the coefficient of variation of the pitches is above one half.
///
/// With `m` pitches that sum up to `s` and whose squares sum up to `q`, the mean
/// is `s / m` and the variance `q / m - (s / m)^2`, so the coefficient is above
/// one half exactly when `4 * m * q > 5 * s^2`. Fewer than two pitches are
/// regular, and pitches that are all zero are not.
pub open spec fn spacing_irregular(lines: Seq<ProjectedLine>, at: Seq<int>) -> bool {
    let m = at.len() - 1;
    let s = pitch_sum(lines, at, m);
    let q = pitch_squares(lines, at, m);
    at.len() >= 3 && (s <= 0 || 4 * (m * q) > 5 * (s * s))
}

/// Whether the rows are too irregularly spaced to be those of a table.
pub fn row_spacing_irregular(lines: &Vec<ProjectedLine>, rows: &Vec<TableRow>) -> (r: bool)
    requires
        rows@.len() <= lines@.len(),
        forall|i: int| 0 <= i < rows@.len() ==> (#[trigger] rows@[i]).line < lines@.len(),
    ensures
        r == spacing_irregular(lines@, row_lines(row_views(rows@))),
{
    if rows.len() < 3 {
        return false;
    }
    let ghost at = row_lines(row_views(rows@));
    let m: usize = rows.len() - 1;
    let mut s: u128 = 0;
    let mut q: u128 = 0;
    let mut k: usize = 0;
    while k < m
        invariant
            k <= m == rows@.len() - 1,
            rows@.len() <= lines@.len(),
            forall|i: int| 0 <= i < rows@.len() ==> (#[trigger] rows@[i]).line < lines@.len(),
            at == row_lines(row_views(rows@)),
            s == pitch_sum(lines@, at, k as int),
            q == pitch_squares(lines@, at, k as int),
            s <= k * 0x1_0000_0000,
            q <= k * 0x1_0000_0000_0000_0000,
        decreases m - k,
    {
        proof {
            assert(at[k as int] == rows@[k as int].line);
            assert(at[k + 1] == rows@[k + 1].line);
        }
        let g: i64 = types::dist64(
            lines[rows[k + 1].line].bbox.y as i64,
            lines[rows[k].line].bbox.y as i64,
        );
        proof {
            assert(0 <= g * g <= 0x1_0000_0000_0000_0000) by (nonlinear_arith)
                requires
                    0 <= g <= 0x1_0000_0000,
            ;
        }
        s = s + g as u128;
        q = q + (g as u128) * (g as u128);
        k = k + 1;
    }
    if s == 0 {
        return true;
    }
    let mm: u128 = m as u128;
    proof {
        let (mi, qi, si) = (mm as int, q as int, s as int);
        assert(4 * (mi * qi) == (4 * mi) * qi && 5 * (si * si) == (5 * si) * si)
            by (nonlinear_arith);
    }
    numbers::product_exceeds(4 * mm, q, 5 * s, s)
}

// ---------------------------------------------------------------------------
// From rows to blocks
// ---------------------------------------------------------------------------

/// The texts of the lines that the rows stand on, without trailing white space.
pub open spec fn verbatim_lines(lines: Seq<ProjectedLine>, rows: Seq<RowView>) -> Seq<Seq<char>> {
    Seq::new(rows.len(), |i: int| text::trim_end_of(lines[rows[i].line].text@))
}

/// Whether every cell of a row is bold.
pub open spec fn all_bold(cells: Seq<CellView>) -> bool {
    forall|i: int| 0 <= i < cells.len() ==> (#[trigger] cells[i]).bold
}

/// Whether every cell of a row is bold.
pub fn row_all_bold(row: &Vec<TableCell>) -> (r: bool)
    ensures
        r == all_bold(cells::cell_views(row@)),
{
    let mut i: usize = 0;
    while i < row.len()
        invariant
            i <= row@.len(),
            forall|k: int| 0 <= k < i ==> (#[trigger] cells::cell_views(row@)[k]).bold,
        decreases row.len() - i,
    {
        if !row[i].bold {
            proof {
                assert(!cells::cell_views(row@)[i as int].bold);
            }
            return false;
        }
        i = i + 1;
    }
    true
}

/// The texts of the cells of a row.
pub fn texts_of_cells(row: &Vec<TableCell>) -> (r: Vec<String>)
    ensures
        types::texts(r@) == cells::cell_texts(cells::cell_views(row@)),
        r@.len() == row@.len(),
{
    let mut out: Vec<String> = Vec::new();
    let mut i: usize = 0;
    while i < row.len()
        invariant
            i <= row@.len(),
            out@.len() == i,
            forall|k: int| 0 <= k < i ==> (#[trigger] out@[k])@ == row@[k].text@,
        decreases row.len() - i,
    {
        out.push(row[i].text.clone());
        i = i + 1;
    }
    proof {
        assert(types::texts(out@) =~= cells::cell_texts(cells::cell_views(row@)));
    }
    out
}

/// The texts of the cells of the rows from `from` on.
pub fn texts_of_rows(rows: &Vec<TableRow>, from: usize) -> (r: Vec<Vec<String>>)
    requires
        from <= rows@.len(),
    ensures
        types::row_texts(r@) == row_cell_texts(row_views(rows@)).skip(from as int),
        r@.len() == rows@.len() - from,
{
    let ghost all = row_cell_texts(row_views(rows@));
    let mut out: Vec<Vec<String>> = Vec::new();
    let mut i: usize = from;
    while i < rows.len()
        invariant
            from <= i <= rows@.len(),
            all == row_cell_texts(row_views(rows@)),
            out@.len() == i - from,
            forall|k: int|
                0 <= k < i - from ==> types::texts((#[trigger] out@[k])@) == all[from + k],
        decreases rows.len() - i,
    {
        out.push(texts_of_cells(&rows[i].cells));
        proof {
            assert(all[i as int] == cells::cell_texts(row_views(rows@)[i as int].cells));
        }
        i = i + 1;
    }
    proof {
        assert(types::row_texts(out@) =~= all.skip(from as int));
    }
    out
}

/// The texts of the lines that the rows stand on, without trailing white space.
pub fn verbatim(lines: &Vec<ProjectedLine>, rows: &Vec<TableRow>) -> (r: Vec<String>)
    requires
        forall|i: int| 0 <= i < rows@.len() ==> (#[trigger] rows@[i]).line < lines@.len(),
    ensures
        types::texts(r@) == verbatim_lines(lines@, row_views(rows@)),
{
    let ghost all = verbatim_lines(lines@, row_views(rows@));
    let mut out: Vec<String> = Vec::new();
    let mut i: usize = 0;
    while i < rows.len()
        invariant
            i <= rows@.len(),
            forall|k: int| 0 <= k < rows@.len() ==> (#[trigger] rows@[k]).line < lines@.len(),
            all == verbatim_lines(lines@, row_views(rows@)),
            out@.len() == i,
            forall|k: int| 0 <= k < i ==> (#[trigger] out@[k])@ == all[k],
        decreases rows.len() - i,
    {
        proof {
            assert(row_views(rows@)[i as int].line == rows@[i as int].line);
        }
        out.push(text::to_string(text::trim_end(lines[rows[i].line].text.as_str())));
        i = i + 1;
    }
    proof {
        assert(types::texts(out@) =~= all);
    }
    out
}

/// The left edges of the cells.
pub open spec fn starts_of(row: Seq<CellView>) -> Seq<int> {
    Seq::new(row.len(), |i: int| row[i].start_x)
}

/// The left edges of the cells.
pub fn cell_starts(row: &Vec<TableCell>) -> (r: Vec<i64>)
    ensures
        sort::ints(r@) == starts_of(cells::cell_views(row@)),
        r@.len() == row@.len(),
        forall|i: int| 0 <= i < r@.len() ==> #[trigger] r@[i] == row@[i].start_x,
{
    let mut out: Vec<i64> = Vec::new();
    let mut i: usize = 0;
    while i < row.len()
        invariant
            i <= row@.len(),
            out@.len() == i,
            forall|k: int| 0 <= k < i ==> #[trigger] out@[k] == row@[k].start_x,
        decreases row.len() - i,
    {
        out.push(row[i].start_x);
        i = i + 1;
    }
    proof {
        assert(sort::ints(out@) =~= starts_of(cells::cell_views(row@)));
    }
    out
}

/// Whether no two runs share a line.
pub open spec fn are_apart(v: Seq<RunView>) -> bool {
    forall|i: int, j: int| 0 <= i < j < v.len() ==> !runs_overlap(#[trigger] v[i], #[trigger] v[j])
}

/// Adding runs keeps all runs that were there. Every other run is added, or shares a line
/// with one that is there. If the runs that were there share no line, none does.
pub proof fn law_disjoint_runs(kept: Seq<RunView>, more: Seq<RunView>, n: int)
    requires
        0 <= n <= more.len(),
    ensures
        kept.is_prefix_of(with_disjoint(kept, more, n)),
        forall|i: int|
            0 <= i < n ==> with_disjoint(kept, more, n).contains(#[trigger] more[i])
                || overlaps_any(more[i], with_disjoint(kept, more, n)),
        are_apart(kept) ==> are_apart(with_disjoint(kept, more, n)),
    decreases n,
{
    if n > 0 {
        law_disjoint_runs(kept, more, n - 1);
        let before = with_disjoint(kept, more, n - 1);
        let after = with_disjoint(kept, more, n);
        assert(forall|i: int| 0 <= i < before.len() ==> after[i] == before[i]);
        assert(kept =~= after.take(kept.len() as int));
        assert forall|i: int| 0 <= i < n implies after.contains(#[trigger] more[i])
            || overlaps_any(more[i], after) by {
            if i == n - 1 {
                if !overlaps_any(more[i], before) {
                    assert(after[after.len() - 1] == more[i]);
                }
            } else if before.contains(more[i]) {
                let k = choose|k: int| 0 <= k < before.len() && before[k] == more[i];
                assert(after[k] == more[i]);
            } else {
                let k = choose|k: int|
                    0 <= k < before.len() && runs_overlap(more[i], #[trigger] before[k]);
                assert(after[k] == before[k]);
            }
        }
        if are_apart(kept) {
            assert forall|i: int, j: int| 0 <= i < j < after.len() implies !runs_overlap(
                #[trigger] after[i],
                #[trigger] after[j],
            ) by {
                assert(after[i] == before[i]);
                if j < before.len() {
                    assert(after[j] == before[j]);
                }
            }
        }
    } else {
        assert(kept =~= kept.take(kept.len() as int));
    }
}

/// Runs that share no line follow each other when they are put in order, and none is lost.
pub proof fn law_ordered_runs(v: Seq<RunView>, n: int)
    requires
        runs_fit(v, n),
        are_apart(v),
    ensures
        runs_in_sequence(in_order(v)),
        forall|r: RunView| v.contains(r) <==> in_order(v).contains(r),
{
    let keys = run_starts(v);
    let order = sort::stable_order(keys);
    let sorted = in_order(v);
    sort::law_stable_order(keys);
    assert forall|i: int, j: int| 0 <= i < j < sorted.len() implies (#[trigger] sorted[i]).end
        <= (#[trigger] sorted[j]).start by {
        let a = order[i];
        let b = order[j];
        assert(sorted[i] == v[a] && sorted[j] == v[b]);
        assert(run_fits(v[a], n) && run_fits(v[b], n));
        assert(keys[a] == v[a].start && keys[b] == v[b].start);
        if a < b {
            assert(!runs_overlap(v[a], v[b]));
        } else {
            assert(!runs_overlap(v[b], v[a]));
        }
    }
    assert forall|r: RunView| v.contains(r) <==> sorted.contains(r) by {
        if v.contains(r) {
            let k = choose|k: int| 0 <= k < v.len() && v[k] == r;
            assert(order.contains(k));
            let m = choose|m: int| 0 <= m < order.len() && order[m] == k;
            assert(sorted[m] == r);
        }
        if sorted.contains(r) {
            let m = choose|m: int| 0 <= m < sorted.len() && sorted[m] == r;
            assert(v[order[m]] == r);
        }
    }
}

/// Added runs take lines that are there.
pub proof fn lemma_disjoint_runs_fit(
    kept: Seq<RunView>,
    more: Seq<RunView>,
    m: int,
    n: int,
)
    requires
        0 <= m <= more.len(),
        runs_fit(kept, n),
        runs_fit(more, n),
    ensures
        runs_fit(with_disjoint(kept, more, m), n),
    decreases m,
{
    if m > 0 {
        lemma_disjoint_runs_fit(kept, more, m - 1, n);
    }
}

} // verus!
