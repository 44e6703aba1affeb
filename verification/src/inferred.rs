//! Tables whose columns are inferred from where the runs of several lines
//! begin, for lines whose cells stand too close to be told apart by their gaps.

use vstd::prelude::*;
use vstd::string::*;
use crate::cells;
use crate::cells::{CellView, TableCell};
use crate::rows;
use crate::sort;
use crate::span_text;
use crate::text;
use crate::types;
use crate::types::{ProjectedLine, TextItem};

verus! {

/// The number of lines from which columns are inferred.
pub const INFERENCE_MAX_ROWS: usize = 12;

// ---------------------------------------------------------------------------
// Inferring columns
// ---------------------------------------------------------------------------

/// The end of the lines from which columns are inferred, with line `j` next: at
/// most twelve lines, each right below the one before.
pub open spec fn window_end(lines: Seq<ProjectedLine>, start: int, j: int) -> int
    decreases lines.len() - j,
{
    if 0 < j < lines.len() && j - start < INFERENCE_MAX_ROWS && rows::rows_adjacent(lines[j - 1], lines[j]) {
        window_end(lines, start, j + 1)
    } else {
        j
    }
}

/// The left edges of the visible runs of a line with two of them or more.
pub open spec fn row_edges(line: ProjectedLine) -> Seq<int> {
    let vis = span_text::visible(line.spans@);
    if vis.len() >= 2 {
        span_text::left_edges(line.spans@, vis)
    } else {
        seq![]
    }
}

/// The left edges of the runs of the lines from `from` to `to`.
pub open spec fn edges_between(lines: Seq<ProjectedLine>, from: int, to: int) -> Seq<int>
    decreases to - from,
{
    if to <= from {
        seq![]
    } else {
        edges_between(lines, from, to - 1) + row_edges(lines[to - 1])
    }
}

/// Clusters of ascending numbers: the means of those that are complete, and the sum,
/// the count and the last number of the one being collected.
#[verifier::ext_equal]
pub struct Clusters {
    pub done: Seq<int>,
    pub sum: int,
    pub count: int,
    pub last: int,
}

/// Clusters with one more number. A number within the tolerance of the number before
/// joins its cluster.
pub open spec fn with_edge(c: Clusters, x: int) -> Clusters {
    if c.count == 0 || types::dist(x, c.last) <= cells::TABLE_TRACK_TOLERANCE {
        Clusters { done: c.done, sum: c.sum + x, count: c.count + 1, last: x }
    } else {
        Clusters { done: c.done.push(c.sum / c.count), sum: x, count: 1, last: x }
    }
}

/// The clusters of the first `n` numbers.
pub open spec fn clusters_upto(xs: Seq<int>, n: int) -> Clusters
    decreases n,
{
    if n <= 0 {
        Clusters { done: seq![], sum: 0, count: 0, last: 0 }
    } else {
        with_edge(clusters_upto(xs, n - 1), xs[n - 1])
    }
}

/// The means of the clusters of ascending numbers.
pub open spec fn cluster_means(xs: Seq<int>) -> Seq<int> {
    let c = clusters_upto(xs, xs.len() as int);
    if c.count > 0 {
        c.done.push(c.sum / c.count)
    } else {
        c.done
    }
}

/// The columns inferred from the lines from `start` on.
pub open spec fn inferred_tracks(lines: Seq<ProjectedLine>, start: int) -> Seq<int> {
    cluster_means(
        sort::sorted(edges_between(lines, start, window_end(lines, start, start + 1))),
    )
}

/// The largest integer that is not above `a / b`.
fn floor_div(a: i128, b: i128) -> (r: i128)
    requires
        b > 0,
        -0x1000_0000_0000_0000_0000_0000_0000 < a < 0x1000_0000_0000_0000_0000_0000_0000,
    ensures
        r == (a as int) / (b as int),
{
    if a >= 0 {
        a / b
    } else {
        let m: i128 = -a - 1;
        let q: i128 = m / b;
        proof {
            let (ai, bi, mi, qi) = (a as int, b as int, m as int, q as int);
            vstd::arithmetic::div_mod::lemma_fundamental_div_mod(mi, bi);
            vstd::arithmetic::div_mod::lemma_mod_bound(mi, bi);
            let rem = bi - 1 - mi % bi;
            assert(ai == bi * (-qi - 1) + rem) by (nonlinear_arith)
                requires
                    mi == bi * qi + mi % bi,
                    mi == -ai - 1,
                    rem == bi - 1 - mi % bi,
            ;
            vstd::arithmetic::div_mod::lemma_fundamental_div_mod_converse(ai, bi, -qi - 1, rem);
            assert(0 <= qi <= mi) by (nonlinear_arith)
                requires
                    mi == bi * qi + mi % bi,
                    0 <= mi % bi < bi,
                    bi > 0,
                    mi >= 0,
            ;
        }
        -q - 1
    }
}

fn push_row_edges(xs: &mut Vec<i64>, line: &ProjectedLine)
    requires
        forall|i: int| 0 <= i < old(xs)@.len() ==> i32::MIN <= #[trigger] old(xs)@[i] <= i32::MAX,
    ensures
        sort::ints(final(xs)@) == sort::ints(old(xs)@) + row_edges(*line),
        forall|i: int|
            0 <= i < final(xs)@.len() ==> i32::MIN <= #[trigger] final(xs)@[i] <= i32::MAX,
{
    let spans: &Vec<TextItem> = &line.spans;
    let vis: Vec<usize> = span_text::visible_spans(spans);
    let ghost v = span_text::visible(line.spans@);
    let ghost before = sort::ints(xs@);
    proof {
        assert(sort::indices(vis@).len() == vis@.len());
    }
    if vis.len() < 2 {
        proof {
            assert(before + seq![] =~= before);
        }
        return ;
    }
    let ghost edges = span_text::left_edges(line.spans@, v);
    let mut i: usize = 0;
    proof {
        assert(before + edges.take(0) =~= before);
    }
    while i < vis.len()
        invariant
            i <= vis@.len(),
            spans@ == line.spans@,
            v == sort::indices(vis@),
            edges == span_text::left_edges(line.spans@, v),
            edges.len() == vis@.len(),
            forall|k: int| 0 <= k < vis@.len() ==> #[trigger] vis@[k] < spans@.len(),
            sort::ints(xs@) == before + edges.take(i as int),
            forall|k: int| 0 <= k < xs@.len() ==> i32::MIN <= #[trigger] xs@[k] <= i32::MAX,
        decreases vis.len() - i,
    {
        let x: i64 = spans[vis[i]].x as i64;
        let ghost prior = sort::ints(xs@);
        xs.push(x);
        proof {
            assert(edges[i as int] == x);
            assert(sort::ints(xs@) =~= prior.push(x as int));
            assert(edges.take(i + 1) =~= edges.take(i as int).push(x as int));
            assert(sort::ints(xs@) =~= before + edges.take(i + 1));
        }
        i = i + 1;
    }
    proof {
        assert(edges.take(edges.len() as int) =~= edges);
    }
}

/// The means of the clusters of ascending numbers.
fn mean_clusters(xs: &Vec<i64>) -> (r: Vec<i64>)
    requires
        forall|i: int| 0 <= i < xs@.len() ==> i32::MIN <= #[trigger] xs@[i] <= i32::MAX,
    ensures
        sort::ints(r@) == cluster_means(sort::ints(xs@)),
        forall|i: int| 0 <= i < r@.len() ==> cells::in_reach(#[trigger] r@[i] as int),
{
    let ghost xv = sort::ints(xs@);
    let mut done: Vec<i64> = Vec::new();
    let mut sum: i128 = 0;
    let mut count: i128 = 0;
    let mut last: i64 = 0;
    let mut i: usize = 0;
    proof {
        assert(sort::ints(done@) =~= seq![]);
    }
    while i < xs.len()
        invariant
            i <= xs@.len(),
            xv == sort::ints(xs@),
            forall|k: int| 0 <= k < xs@.len() ==> i32::MIN <= #[trigger] xs@[k] <= i32::MAX,
            0 <= count <= i,
            i32::MIN <= last <= i32::MAX,
            -0x8000_0000 * count <= sum <= 0x8000_0000 * count,
            clusters_upto(xv, i as int) == (Clusters {
                done: sort::ints(done@),
                sum: sum as int,
                count: count as int,
                last: last as int,
            }),
            forall|k: int| 0 <= k < done@.len() ==> cells::in_reach(#[trigger] done@[k] as int),
        decreases xs.len() - i,
    {
        let x: i128 = xs[i] as i128;
        proof {
            assert(xv[i as int] == x);
        }
        let near: bool = types::dist64(xs[i], last) <= cells::TABLE_TRACK_TOLERANCE;
        last = xs[i];
        if count == 0 || near {
            sum = sum + x;
            count = count + 1;
        } else {
            let mean: i128 = floor_div(sum, count);
            proof {
                lemma_mean(sum as int, count as int);
                assert(sort::ints(done@.push(mean as i64)) =~= sort::ints(done@).push(mean as int));
            }
            done.push(mean as i64);
            sum = x;
            count = 1;
        }
        i = i + 1;
    }
    if count > 0 {
        let mean: i128 = floor_div(sum, count);
        proof {
            lemma_mean(sum as int, count as int);
            assert(sort::ints(done@.push(mean as i64)) =~= sort::ints(done@).push(mean as int));
        }
        done.push(mean as i64);
    }
    done
}

proof fn lemma_mean(sum: int, count: int)
    requires
        count > 0,
        -0x8000_0000 * count <= sum <= 0x8000_0000 * count,
    ensures
        -0x8000_0000 <= sum / count <= 0x8000_0000,
{
    vstd::arithmetic::div_mod::lemma_fundamental_div_mod(sum, count);
    vstd::arithmetic::div_mod::lemma_mod_bound(sum, count);
    let q = sum / count;
    let m = sum % count;
    assert(-0x8000_0000 <= q <= 0x8000_0000) by (nonlinear_arith)
        requires
            count > 0,
            -0x8000_0000 * count <= sum <= 0x8000_0000 * count,
            sum == count * q + m,
            0 <= m < count,
    ;
}

/// The columns inferred from the lines from `start` on.
pub fn infer_tracks_from_raw_items(lines: &Vec<ProjectedLine>, start: usize) -> (r: Vec<i64>)
    requires
        start < lines@.len(),
    ensures
        sort::ints(r@) == inferred_tracks(lines@, start as int),
        forall|i: int| 0 <= i < r@.len() ==> cells::in_reach(#[trigger] r@[i] as int),
{
    let mut xs: Vec<i64> = Vec::new();
    proof {
        assert(sort::ints(xs@) =~= seq![]);
        reveal_with_fuel(edges_between, 2);
        assert(edges_between(lines@, start as int, start + 1) =~= seq![] + row_edges(
            lines@[start as int],
        ));
    }
    push_row_edges(&mut xs, &lines[start]);
    let total: usize = lines.len();
    let mut j: usize = start + 1;
    let mut used: usize = 1;
    while j < total && used < INFERENCE_MAX_ROWS && rows::table_rows_adjacent(&lines[j - 1], &lines[j])
        invariant
            start < j <= total == lines@.len(),
            used == j - start,
            sort::ints(xs@) == edges_between(lines@, start as int, j as int),
            window_end(lines@, start as int, start + 1) == window_end(
                lines@,
                start as int,
                j as int,
            ),
            forall|i: int| 0 <= i < xs@.len() ==> i32::MIN <= #[trigger] xs@[i] <= i32::MAX,
        decreases total - j,
    {
        push_row_edges(&mut xs, &lines[j]);
        j = j + 1;
        used = used + 1;
    }
    let ordered: Vec<i64> = sort::sort_values(&xs);
    proof {
        assert forall|k: int| 0 <= k < ordered@.len() implies i32::MIN <= #[trigger] ordered@[k]
            <= i32::MAX by {
            assert(xs@.contains(ordered@[k]));
        }
    }
    mean_clusters(&ordered)
}

// ---------------------------------------------------------------------------
// Cells under given columns
// ---------------------------------------------------------------------------

/// The first `n` columns that fall within the extent of a run, by index.
pub open spec fn run_covers_upto(item: TextItem, cols: Seq<int>, n: int) -> Seq<int>
    decreases n,
{
    if n <= 0 {
        seq![]
    } else if item.x - cells::TABLE_TRACK_TOLERANCE <= cols[n - 1] <= cells::right_of(item)
        + cells::TABLE_TRACK_TOLERANCE {
        run_covers_upto(item, cols, n - 1).push(n - 1)
    } else {
        run_covers_upto(item, cols, n - 1)
    }
}

/// The columns that fall within the extent of a run, by index.
pub open spec fn run_covers(item: TextItem, cols: Seq<int>) -> Seq<int> {
    run_covers_upto(item, cols, cols.len() as int)
}

/// The columns with the given indices.
pub open spec fn columns_at(cols: Seq<int>, at: Seq<int>) -> Seq<int> {
    Seq::new(at.len(), |i: int| cols[at[i]])
}

/// `t` followed by the trimmed text `s`, with a space between them unless there
/// is one already or one of them is empty.
pub open spec fn with_piece(t: Seq<char>, s: Seq<char>) -> Seq<char> {
    let p = text::trim_of(s);
    if p.len() == 0 {
        t
    } else if t.len() > 0 && t.last() != ' ' {
        t.push(' ') + p
    } else {
        t + p
    }
}

/// A cell with more text and its right edge moved out to `right`.
pub open spec fn grown(c: CellView, s: Seq<char>, right: int, bold: bool) -> CellView {
    CellView {
        start_x: c.start_x,
        end_x: types::max_of(c.end_x, right),
        text: with_piece(c.text, s),
        bold: c.bold || bold,
    }
}

/// The cells after the first `n` pieces of a run were added to its columns.
pub open spec fn with_pieces(
    row: Seq<CellView>,
    at: Seq<int>,
    pieces: Seq<Seq<char>>,
    bold: bool,
    n: int,
) -> Seq<CellView>
    decreases n,
{
    if n <= 0 {
        row
    } else {
        let before = with_pieces(row, at, pieces, bold, n - 1);
        let k = at[n - 1];
        before.update(k, grown(before[k], pieces[n - 1], before[k].end_x, bold))
    }
}

/// The cells after a run was added to the columns that it covers. A run over
/// several columns must begin at the first of them and is cut at white space.
pub open spec fn with_run(row: Seq<CellView>, item: TextItem, cols: Seq<int>) -> Option<
    Seq<CellView>,
> {
    let at = run_covers(item, cols);
    if at.len() == 0 {
        None
    } else if at.len() == 1 {
        Some(
            row.update(
                at[0],
                grown(row[at[0]], item.text@, cells::right_of(item), item.bold),
            ),
        )
    } else if types::dist(item.x as int, cols[at[0]]) > cells::TABLE_TRACK_TOLERANCE {
        None
    } else {
        match cells::pieces_for(
            item.text@,
            columns_at(cols, at),
            item.x as int,
            types::max_of(item.width as int, types::PT as int),
        ) {
            Some(pieces) => if exists|p: int|
                0 <= p < pieces.len() && (#[trigger] pieces[p]).len() == 0 {
                None
            } else {
                Some(with_pieces(row, at, pieces, item.bold, at.len() as int))
            },
            None => None,
        }
    }
}

/// The empty cells of the given columns.
pub open spec fn blank_cells(cols: Seq<int>) -> Seq<CellView> {
    Seq::new(
        cols.len(),
        |i: int| CellView { start_x: cols[i], end_x: cols[i], text: seq![], bold: false },
    )
}

/// The cells after the first `n` of the runs listed in `at` were added.
pub open spec fn raw_upto(spans: Seq<TextItem>, at: Seq<int>, cols: Seq<int>, n: int) -> Option<
    Seq<CellView>,
>
    decreases n,
{
    if n <= 0 {
        Some(blank_cells(cols))
    } else {
        match raw_upto(spans, at, cols, n - 1) {
            Some(row) => with_run(row, spans[at[n - 1]], cols),
            None => None,
        }
    }
}

/// Cells with their white space collapsed.
pub open spec fn tidied(row: Seq<CellView>) -> Seq<CellView> {
    Seq::new(
        row.len(),
        |i: int|
            CellView {
                start_x: row[i].start_x,
                end_x: row[i].end_x,
                text: text::collapse_of(text::trim_of(row[i].text)),
                bold: row[i].bold,
            },
    )
}

/// The cells of a line under the given columns, when it has two visible runs or
/// more and each of them can be assigned.
pub open spec fn raw_cells(line: ProjectedLine, cols: Seq<int>) -> Option<Seq<CellView>> {
    let at = span_text::left_to_right(line.spans@);
    if at.len() < 2 {
        None
    } else {
        match raw_upto(line.spans@, at, cols, at.len() as int) {
            Some(row) => Some(tidied(row)),
            None => None,
        }
    }
}

/// The columns that fall within the extent of a run, by index.
pub fn covered_columns(item: &TextItem, cols: &Vec<i64>) -> (r: Vec<usize>)
    requires
        forall|i: int| 0 <= i < cols@.len() ==> cells::in_reach(#[trigger] cols@[i] as int),
    ensures
        sort::indices(r@) == run_covers(*item, sort::ints(cols@)),
        forall|i: int| 0 <= i < r@.len() ==> #[trigger] r@[i] < cols@.len(),
{
    let ghost cv = sort::ints(cols@);
    let mut out: Vec<usize> = Vec::new();
    let mut i: usize = 0;
    proof {
        assert(sort::indices(out@) =~= seq![]);
    }
    let right: i64 = cells::run_right(item);
    while i < cols.len()
        invariant
            i <= cols@.len(),
            cv == sort::ints(cols@),
            right == cells::right_of(*item),
            cells::in_reach(right as int),
            sort::indices(out@) == run_covers_upto(*item, cv, i as int),
            forall|k: int| 0 <= k < out@.len() ==> #[trigger] out@[k] < cols@.len(),
        decreases cols.len() - i,
    {
        proof {
            assert(cv[i as int] == cols@[i as int]);
        }
        if item.x as i64 - cells::TABLE_TRACK_TOLERANCE <= cols[i] && cols[i] <= right
            + cells::TABLE_TRACK_TOLERANCE {
            proof {
                assert(sort::indices(out@.push(i)) =~= sort::indices(out@).push(i as int));
            }
            out.push(i);
        }
        i = i + 1;
    }
    out
}

fn push_piece(t: &mut String, s: &str)
    ensures
        final(t)@ == with_piece(old(t)@, s@),
{
    let p = text::trim(s);
    if p.is_empty() {
        return ;
    }
    if !t.as_str().is_empty() && !text::ends_with_char(t.as_str(), ' ') {
        t.push(' ');
    }
    t.append(p);
}

fn grow_cell(row: &mut Vec<TableCell>, k: usize, s: &str, right: i64, bold: bool)
    requires
        k < old(row)@.len(),
        cells::in_reach(right as int),
        cells::cells_in_reach(cells::cell_views(old(row)@)),
    ensures
        final(row)@.len() == old(row)@.len(),
        cells::cell_views(final(row)@) == cells::cell_views(old(row)@).update(
            k as int,
            grown(cells::cell_views(old(row)@)[k as int], s@, right as int, bold),
        ),
        cells::cells_in_reach(cells::cell_views(final(row)@)),
{
    let ghost before = cells::cell_views(row@);
    proof {
        assert(before[k as int] == row@[k as int]@);
    }
    let mut c: TableCell = cells::clone_cell(&row[k]);
    push_piece(&mut c.text, s);
    if right > c.end_x {
        c.end_x = right;
    }
    if bold {
        c.bold = true;
    }
    proof {
        assert(cells::cell_views(row@.update(k as int, c)) =~= before.update(k as int, c@));
        let after = before.update(k as int, c@);
        assert forall|i: int| 0 <= i < after.len() implies cells::in_reach(
            (#[trigger] after[i]).start_x,
        ) && cells::in_reach(after[i].end_x) by {
            assert(cells::in_reach(before[i].start_x));
            assert(cells::in_reach(before[k as int].start_x));
        }
    }
    row.set(k, c);
}

fn any_empty(pieces: &Vec<String>) -> (r: bool)
    ensures
        r == exists|p: int|
            0 <= p < types::texts(pieces@).len() && (#[trigger] types::texts(pieces@)[p]).len()
                == 0,
{
    let ghost pv = types::texts(pieces@);
    let mut i: usize = 0;
    while i < pieces.len()
        invariant
            i <= pieces@.len(),
            pv == types::texts(pieces@),
            forall|p: int| 0 <= p < i ==> (#[trigger] pv[p]).len() > 0,
        decreases pieces.len() - i,
    {
        proof {
            assert(pv[i as int] == pieces@[i as int]@);
        }
        if pieces[i].as_str().is_empty() {
            return true;
        }
        i = i + 1;
    }
    false
}

/// Add a run to the columns that it covers. On failure the cells are left in
/// some state.
fn add_run(row: &mut Vec<TableCell>, item: &TextItem, cols: &Vec<i64>) -> (r: bool)
    requires
        old(row)@.len() == cols@.len(),
        cells::cells_in_reach(cells::cell_views(old(row)@)),
        forall|i: int| 0 <= i < cols@.len() ==> cells::in_reach(#[trigger] cols@[i] as int),
    ensures
        r ==> final(row)@.len() == cols@.len() && cells::cells_in_reach(
            cells::cell_views(final(row)@),
        ) && with_run(cells::cell_views(old(row)@), *item, sort::ints(cols@)) == Some(
            cells::cell_views(final(row)@),
        ),
        !r ==> with_run(cells::cell_views(old(row)@), *item, sort::ints(cols@)) is None,
{
    let ghost before = cells::cell_views(row@);
    let ghost cv = sort::ints(cols@);
    let at: Vec<usize> = covered_columns(item, cols);
    let ghost av = run_covers(*item, cv);
    proof {
        assert(av == sort::indices(at@));
        assert(av.len() == at@.len());
    }
    if at.len() == 0 {
        return false;
    }
    proof {
        assert(av[0] == at@[0]);
        assert(cv[av[0]] == cols@[at@[0] as int]);
        assert(cells::in_reach(cols@[at@[0] as int] as int));
    }
    let right: i64 = cells::run_right(item);
    if at.len() == 1 {
        grow_cell(row, at[0], item.text.as_str(), right, item.bold);
        return true;
    }
    if types::dist64(item.x as i64, cols[at[0]]) > cells::TABLE_TRACK_TOLERANCE {
        return false;
    }
    let mut targets: Vec<i64> = Vec::new();
    let mut i: usize = 0;
    while i < at.len()
        invariant
            i <= at@.len(),
            forall|k: int| 0 <= k < at@.len() ==> #[trigger] at@[k] < cols@.len(),
            forall|k: int| 0 <= k < cols@.len() ==> cells::in_reach(#[trigger] cols@[k] as int),
            targets@.len() == i,
            forall|k: int| 0 <= k < i ==> #[trigger] targets@[k] == cols@[at@[k] as int],
        decreases at.len() - i,
    {
        targets.push(cols[at[i]]);
        i = i + 1;
    }
    proof {
        assert(sort::ints(targets@) =~= columns_at(cv, av));
        assert forall|k: int| 0 <= k < targets@.len() implies cells::in_reach(
            #[trigger] targets@[k] as int,
        ) by {
            assert(targets@[k] == cols@[at@[k] as int]);
        }
    }
    let width: i64 = types::max64(item.width as i64, types::PT);
    let cs: Vec<char> = text::chars_of(item.text.as_str());
    let pieces: Vec<String> = match cells::cut_for_tracks(&cs, &targets, item.x as i64, width) {
        Some(p) => p,
        None => {
            return false;
        },
    };
    if any_empty(&pieces) {
        return false;
    }
    let ghost pv = types::texts(pieces@);
    let mut k: usize = 0;
    while k < at.len()
        invariant
            k <= at@.len() == pieces@.len(),
            row@.len() == cols@.len(),
            av == sort::indices(at@),
            pv == types::texts(pieces@),
            forall|j: int| 0 <= j < at@.len() ==> #[trigger] at@[j] < cols@.len(),
            cells::cells_in_reach(cells::cell_views(row@)),
            cells::cell_views(row@) == with_pieces(before, av, pv, item.bold, k as int),
        decreases at.len() - k,
    {
        proof {
            assert(av[k as int] == at@[k as int]);
            assert(pv[k as int] == pieces@[k as int]@);
            assert(cells::in_reach(cells::cell_views(row@)[at@[k as int] as int].end_x));
        }
        let edge: i64 = row[at[k]].end_x;
        grow_cell(row, at[k], pieces[k].as_str(), edge, item.bold);
        k = k + 1;
    }
    true
}

/// The empty cells of the given columns.
pub fn empty_cells(cols: &Vec<i64>) -> (r: Vec<TableCell>)
    requires
        forall|i: int| 0 <= i < cols@.len() ==> cells::in_reach(#[trigger] cols@[i] as int),
    ensures
        cells::cell_views(r@) == blank_cells(sort::ints(cols@)),
        r@.len() == cols@.len(),
        cells::cells_in_reach(cells::cell_views(r@)),
{
    let ghost cv = sort::ints(cols@);
    let mut row: Vec<TableCell> = Vec::new();
    let mut i: usize = 0;
    while i < cols.len()
        invariant
            i <= cols@.len(),
            cv == sort::ints(cols@),
            row@.len() == i,
            forall|k: int| 0 <= k < i ==> (#[trigger] row@[k])@ == blank_cells(cv)[k],
        decreases cols.len() - i,
    {
        let c = TableCell { start_x: cols[i], end_x: cols[i], text: String::new(), bold: false };
        proof {
            assert(c@ =~= blank_cells(cv)[i as int]);
        }
        row.push(c);
        i = i + 1;
    }
    proof {
        assert(cells::cell_views(row@) =~= blank_cells(cv));
        assert forall|k: int| 0 <= k < row@.len() implies cells::in_reach(
            (#[trigger] cells::cell_views(row@)[k]).start_x,
        ) && cells::in_reach(cells::cell_views(row@)[k].end_x) by {
            assert(cells::in_reach(cols@[k] as int));
        }
    }
    row
}

/// The cells of a line under the given columns.
pub fn cells_from_raw_items_with_tracks(line: &ProjectedLine, cols: &Vec<i64>) -> (r: Option<
    Vec<TableCell>,
>)
    requires
        forall|i: int| 0 <= i < cols@.len() ==> cells::in_reach(#[trigger] cols@[i] as int),
    ensures
        match r {
            Some(row) => raw_cells(*line, sort::ints(cols@)) == Some(cells::cell_views(row@))
                && row@.len() == cols@.len() && cells::cells_in_reach(cells::cell_views(row@)),
            None => raw_cells(*line, sort::ints(cols@)) is None,
        },
{
    let ghost cv = sort::ints(cols@);
    let spans: &Vec<TextItem> = &line.spans;
    let at: Vec<usize> = span_text::spans_left_to_right(spans);
    let ghost av = span_text::left_to_right(line.spans@);
    proof {
        assert(av.len() == at@.len());
    }
    if at.len() < 2 {
        return None;
    }
    let mut row: Vec<TableCell> = empty_cells(cols);
    let mut n: usize = 0;
    while n < at.len()
        invariant
            n <= at@.len(),
            spans@ == line.spans@,
            cv == sort::ints(cols@),
            av == sort::indices(at@),
            av == span_text::left_to_right(line.spans@),
            at@.len() >= 2,
            forall|k: int| 0 <= k < at@.len() ==> #[trigger] at@[k] < spans@.len(),
            forall|k: int| 0 <= k < cols@.len() ==> cells::in_reach(#[trigger] cols@[k] as int),
            row@.len() == cols@.len(),
            cells::cells_in_reach(cells::cell_views(row@)),
            raw_upto(spans@, av, cv, n as int) == Some(cells::cell_views(row@)),
        decreases at.len() - n,
    {
        proof {
            assert(av[n as int] == at@[n as int]);
        }
        if !add_run(&mut row, &spans[at[n]], cols) {
            proof {
                lemma_raw_none(spans@, av, cv, n + 1, at@.len() as int);
            }
            return None;
        }
        n = n + 1;
    }
    let ghost found = cells::cell_views(row@);
    let mut out: Vec<TableCell> = Vec::new();
    let mut k: usize = 0;
    while k < row.len()
        invariant
            k <= row@.len() == cols@.len(),
            found == cells::cell_views(row@),
            out@.len() == k,
            forall|j: int| 0 <= j < k ==> (#[trigger] out@[j])@ == tidied(found)[j],
        decreases row.len() - k,
    {
        let t: String = text::collapse_whitespace(text::trim(row[k].text.as_str()));
        let c = TableCell {
            start_x: row[k].start_x,
            end_x: row[k].end_x,
            text: t,
            bold: row[k].bold,
        };
        proof {
            assert(found[k as int] == row@[k as int]@);
            assert(c@ =~= tidied(found)[k as int]);
        }
        out.push(c);
        k = k + 1;
    }
    proof {
        assert(cells::cell_views(out@) =~= tidied(found));
        assert forall|j: int| 0 <= j < out@.len() implies cells::in_reach(
            (#[trigger] cells::cell_views(out@)[j]).start_x,
        ) && cells::in_reach(cells::cell_views(out@)[j].end_x) by {
            assert(cells::in_reach(found[j].start_x));
        }
    }
    Some(out)
}

proof fn lemma_raw_none(spans: Seq<TextItem>, at: Seq<int>, cols: Seq<int>, m: int, n: int)
    requires
        0 <= m <= n,
        raw_upto(spans, at, cols, m) is None,
    ensures
        raw_upto(spans, at, cols, n) is None,
    decreases n - m,
{
    if m < n {
        lemma_raw_none(spans, at, cols, m, n - 1);
    }
}

} // verus!
