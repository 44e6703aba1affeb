//! Tables drawn with rules within a region, their boxes on the page, and their
//! union with the tables without rules.

use vstd::prelude::*;
use vstd::string::*;
use crate::cells;
use crate::grid;
use crate::grid::{GroupView, RuleGroup, Seg, SegView};
use crate::rows;
use crate::rows::{RunView, TableRun};
use crate::ruled_grid;
use crate::ruled_grid::{GridCell, GridCellView};
use crate::sort;
use crate::text;
use crate::types;
use crate::types::{Block, BlockView, Bounds, GraphicPrimitive, ProjectedLine};

verus! {

/// The most characters in a cell of a column of labels.
pub const SPINE_MAX_CELL_CHARS: usize = 60;

// ---------------------------------------------------------------------------
// Rows and columns that count
// ---------------------------------------------------------------------------

/// The distances between neighbouring boundaries.
pub open spec fn gaps(bounds: Seq<int>) -> Seq<int> {
    Seq::new(
        if bounds.len() > 0 {
            (bounds.len() - 1) as nat
        } else {
            0
        },
        |i: int| bounds[i + 1] - bounds[i],
    )
}

/// The sizes among the first `n` that are marked.
pub open spec fn marked_upto(sizes: Seq<int>, marks: Seq<bool>, n: int) -> Seq<int>
    decreases n,
{
    if n <= 0 {
        seq![]
    } else if marks[n - 1] {
        marked_upto(sizes, marks, n - 1).push(sizes[n - 1])
    } else {
        marked_upto(sizes, marks, n - 1)
    }
}

/// The middle one of the marked sizes, or of all sizes where none is marked.
pub open spec fn median_of(sizes: Seq<int>, marks: Seq<bool>) -> int {
    let marked = marked_upto(sizes, marks, sizes.len() as int);
    let base = if marked.len() > 0 {
        marked
    } else {
        sizes
    };
    sort::sorted(base)[base.len() as int / 2]
}

/// The first `n` bands that are marked, or no smaller than `num / den` of the
/// size `middle`.
pub open spec fn kept_upto(
    sizes: Seq<int>,
    marks: Seq<bool>,
    middle: int,
    num: int,
    den: int,
    n: int,
) -> Seq<int>
    decreases n,
{
    if n <= 0 {
        seq![]
    } else if marks[n - 1] || den * sizes[n - 1] >= num * middle {
        kept_upto(sizes, marks, middle, num, den, n - 1).push(n - 1)
    } else {
        kept_upto(sizes, marks, middle, num, den, n - 1)
    }
}

/// The bands that are marked, or no smaller than `num / den` of the middle marked
/// one.
pub open spec fn kept_bands(sizes: Seq<int>, marks: Seq<bool>, num: int, den: int) -> Seq<int> {
    kept_upto(sizes, marks, median_of(sizes, marks), num, den, sizes.len() as int)
}

/// Whether a row of a grid has text.
pub open spec fn row_has_text(row: Seq<GridCellView>) -> bool {
    exists|c: int| 0 <= c < row.len() && (#[trigger] row[c]).text.len() > 0
}

/// Which rows of a grid have text.
pub open spec fn row_marks(g: Seq<Seq<GridCellView>>) -> Seq<bool> {
    Seq::new(g.len(), |r: int| row_has_text(g[r]))
}

/// Whether a column has text in one of the given rows.
pub open spec fn column_has_text(g: Seq<Seq<GridCellView>>, at: Seq<int>, c: int) -> bool {
    exists|k: int| 0 <= k < at.len() && (#[trigger] g[at[k]])[c].text.len() > 0
}

/// Which columns have text in one of the given rows.
pub open spec fn column_marks(g: Seq<Seq<GridCellView>>, at: Seq<int>, n_cols: nat) -> Seq<bool> {
    Seq::new(n_cols, |c: int| column_has_text(g, at, c))
}

/// The grid of the given rows and columns.
pub open spec fn picked(g: Seq<Seq<GridCellView>>, at: Seq<int>, cols: Seq<int>) -> Seq<
    Seq<GridCellView>,
> {
    Seq::new(at.len(), |r: int| Seq::new(cols.len(), |c: int| g[at[r]][cols[c]]))
}

// ---------------------------------------------------------------------------
// Sparse grids
// ---------------------------------------------------------------------------

/// How many of the first `n` rows have text in a column.
pub open spec fn filled_in_column(g: Seq<Seq<GridCellView>>, c: int, n: int) -> nat
    decreases n,
{
    if n <= 0 {
        0
    } else {
        filled_in_column(g, c, n - 1) + if g[n - 1][c].text.len() > 0 {
            1nat
        } else {
            0nat
        }
    }
}

/// Whether 70 percent of the rows have text in a column.
pub open spec fn is_dense(g: Seq<Seq<GridCellView>>, c: int) -> bool {
    10 * filled_in_column(g, c, g.len() as int) >= 7 * g.len()
}

/// Whether the first column holds labels: it is dense, and all its texts are
/// short.
pub open spec fn has_spine(g: Seq<Seq<GridCellView>>) -> bool {
    &&& is_dense(g, 0)
    &&& forall|r: int|
        0 <= r < g.len() ==> (#[trigger] g[r])[0].text.len() <= SPINE_MAX_CELL_CHARS
}

/// The number of rows at the top that can be a header.
pub open spec fn header_band(g: Seq<Seq<GridCellView>>) -> int {
    types::min_of(g.len() as int, 4)
}

/// Whether a column has text in one of the rows at the top.
pub open spec fn header_covers(g: Seq<Seq<GridCellView>>, c: int) -> bool {
    exists|r: int| 0 <= r < header_band(g) && (#[trigger] g[r])[c].text.len() > 0
}

/// How many of the first `n` columns have text in one of the rows at the top.
pub open spec fn header_coverage(g: Seq<Seq<GridCellView>>, n: int) -> nat
    decreases n,
{
    if n <= 0 {
        0
    } else {
        header_coverage(g, n - 1) + if header_covers(g, n - 1) {
            1nat
        } else {
            0nat
        }
    }
}

/// Whether all text of a row is bold.
pub open spec fn row_bold(row: Seq<GridCellView>) -> bool {
    forall|c: int| 0 <= c < row.len() && (#[trigger] row[c]).text.len() > 0 ==> row[c].bold
}

/// Whether all text in the rows at the top is bold.
pub open spec fn header_bold(g: Seq<Seq<GridCellView>>) -> bool {
    forall|r: int| 0 <= r < header_band(g) ==> row_bold(#[trigger] g[r])
}

/// Whether a grid is a table of long texts: five rows and three columns or more,
/// a bold header over three columns or more, and a dense column behind the
/// first.
pub open spec fn is_long_prose(g: Seq<Seq<GridCellView>>, n_cols: int) -> bool {
    &&& g.len() >= 5
    &&& n_cols >= 3
    &&& header_coverage(g, n_cols) >= 3
    &&& header_bold(g)
    &&& exists|c: int| 1 <= c < n_cols && #[trigger] is_dense(g, c)
}

/// Whether a grid has enough text: at most 30 percent of its cells are empty, or
/// at most 75 percent and its first column holds labels, or it is a table of long
/// texts.
pub open spec fn filled_enough(g: Seq<Seq<GridCellView>>, n_cols: int) -> bool {
    let empty = ruled_grid::empty_upto(g, g.len() as int);
    let total = g.len() * n_cols;
    ||| 10 * empty <= 3 * total
    ||| is_long_prose(g, n_cols)
    ||| has_spine(g) && 4 * empty <= 3 * total
}

/// The table that a group of crossing rules draws around lines of text, if it
/// draws one. Rows and columns without text that are too small do not count.
pub open spec fn ruled_table(
    hs: Seq<SegView>,
    vs: Seq<SegView>,
    group: GroupView,
    lines: Seq<ProjectedLine>,
    page_width: int,
    page_height: int,
) -> Option<RunView> {
    let ys = ruled_grid::boundaries(hs, group.hs);
    let xs = ruled_grid::boundaries(vs, group.vs);
    let at = ruled_grid::places(ys, xs, lines);
    let full = ruled_grid::filled_grid(lines, at, ys.len() - 1, xs.len() - 1);
    let kept_rows = kept_bands(gaps(ys), row_marks(full), 1, 2);
    let kept_cols = kept_bands(
        gaps(xs),
        column_marks(full, kept_rows, (xs.len() - 1) as nat),
        3,
        10,
    );
    let g = picked(full, kept_rows, kept_cols);
    let n_rows = kept_rows.len();
    let n_cols = kept_cols.len();
    let first = ruled_grid::first_placed(at, lines.len() as int);
    let last = ruled_grid::last_placed(at, lines.len() as int);
    if ys.len() < 3 || xs.len() < 2 || ruled_grid::fills_page(ys, xs, page_width, page_height)
        || first is None {
        None
    } else if n_rows < 2 || n_cols == 0 || (n_cols == 1 && n_rows < 3) || !filled_enough(
        g,
        n_cols as int,
    ) {
        None
    } else {
        Some(
            RunView { start: first->0, end: last->0 + 1, block: ruled_grid::grid_table(g) },
        )
    }
}

/// The tables that the first `n` groups draw.
pub open spec fn ruled_upto(
    hs: Seq<SegView>,
    vs: Seq<SegView>,
    groups: Seq<GroupView>,
    lines: Seq<ProjectedLine>,
    page_width: int,
    page_height: int,
    n: int,
) -> Seq<RunView>
    decreases n,
{
    if n <= 0 {
        seq![]
    } else {
        let out = ruled_upto(hs, vs, groups, lines, page_width, page_height, n - 1);
        match ruled_table(hs, vs, groups[n - 1], lines, page_width, page_height) {
            Some(run) => out.push(run),
            None => out,
        }
    }
}

/// The tables drawn with rules, in the order in which they begin.
pub open spec fn ruled_tables(
    lines: Seq<ProjectedLine>,
    graphics: Seq<GraphicPrimitive>,
    page_width: int,
    page_height: int,
) -> Seq<RunView> {
    let hs = grid::clustered(grid::horizontal_upto(graphics, graphics.len() as int));
    let vs = grid::clustered(grid::vertical_upto(graphics, graphics.len() as int));
    let groups = grid::components(hs, vs);
    rows::in_order(
        ruled_upto(hs, vs, groups, lines, page_width, page_height, groups.len() as int),
    )
}

fn gaps_of(bounds: &Vec<i64>) -> (r: Vec<i64>)
    requires
        bounds@.len() > 0,
        forall|i: int| 0 <= i < bounds@.len() ==> cells::in_reach(#[trigger] bounds@[i] as int),
    ensures
        sort::ints(r@) == gaps(sort::ints(bounds@)),
        r@.len() == bounds@.len() - 1,
        forall|i: int|
            0 <= i < r@.len() ==> -0x4_0000_0000 <= #[trigger] r@[i] <= 0x4_0000_0000,
{
    let ghost bv = sort::ints(bounds@);
    let mut out: Vec<i64> = Vec::new();
    let mut i: usize = 1;
    while i < bounds.len()
        invariant
            1 <= i <= bounds@.len(),
            bv == sort::ints(bounds@),
            forall|k: int| 0 <= k < bounds@.len() ==> cells::in_reach(#[trigger] bounds@[k] as int),
            out@.len() == i - 1,
            forall|k: int| 0 <= k < i - 1 ==> #[trigger] out@[k] == bv[k + 1] - bv[k],
            forall|k: int|
                0 <= k < out@.len() ==> -0x4_0000_0000 <= #[trigger] out@[k] <= 0x4_0000_0000,
        decreases bounds.len() - i,
    {
        proof {
            assert(bv[i as int] == bounds@[i as int]);
            assert(bv[i - 1] == bounds@[i - 1]);
        }
        out.push(bounds[i] - bounds[i - 1]);
        i = i + 1;
    }
    proof {
        assert(sort::ints(out@) =~= gaps(bv));
    }
    out
}

fn middle_size(sizes: &Vec<i64>, marks: &Vec<bool>) -> (r: i64)
    requires
        sizes@.len() == marks@.len(),
        sizes@.len() > 0,
        forall|i: int|
            0 <= i < sizes@.len() ==> -0x4_0000_0000 <= #[trigger] sizes@[i] <= 0x4_0000_0000,
    ensures
        r == median_of(sort::ints(sizes@), marks@),
        -0x4_0000_0000 <= r <= 0x4_0000_0000,
{
    let ghost sv = sort::ints(sizes@);
    let mut marked: Vec<i64> = Vec::new();
    let mut i: usize = 0;
    proof {
        assert(sort::ints(marked@) =~= seq![]);
    }
    while i < sizes.len()
        invariant
            i <= sizes@.len() == marks@.len(),
            sv == sort::ints(sizes@),
            forall|k: int|
                0 <= k < sizes@.len() ==> -0x4_0000_0000 <= #[trigger] sizes@[k] <= 0x4_0000_0000,
            sort::ints(marked@) == marked_upto(sv, marks@, i as int),
            forall|k: int|
                0 <= k < marked@.len() ==> -0x4_0000_0000 <= #[trigger] marked@[k]
                    <= 0x4_0000_0000,
        decreases sizes.len() - i,
    {
        if marks[i] {
            let s: i64 = sizes[i];
            proof {
                assert(sv[i as int] == s);
                assert(sort::ints(marked@.push(s)) =~= sort::ints(marked@).push(s as int));
            }
            marked.push(s);
        }
        i = i + 1;
    }
    proof {
        assert(sort::ints(marked@).len() == marked@.len());
    }
    let base: &Vec<i64> = if marked.len() > 0 {
        &marked
    } else {
        sizes
    };
    let order: Vec<i64> = sort::sort_values(base);
    let m: usize = base.len() / 2;
    proof {
        assert(base@.contains(order@[m as int]));
        assert(sort::ints(order@)[m as int] == order@[m as int]);
    }
    order[m]
}

fn keep_bands(sizes: &Vec<i64>, marks: &Vec<bool>, num: i64, den: i64) -> (r: Vec<usize>)
    requires
        sizes@.len() == marks@.len(),
        sizes@.len() > 0,
        forall|i: int|
            0 <= i < sizes@.len() ==> -0x4_0000_0000 <= #[trigger] sizes@[i] <= 0x4_0000_0000,
        0 <= num <= 10,
        0 <= den <= 10,
    ensures
        sort::indices(r@) == kept_bands(sort::ints(sizes@), marks@, num as int, den as int),
        r@.len() <= sizes@.len(),
        forall|i: int| 0 <= i < r@.len() ==> #[trigger] r@[i] < sizes@.len(),
{
    let ghost sv = sort::ints(sizes@);
    let middle: i64 = middle_size(sizes, marks);
    let mut out: Vec<usize> = Vec::new();
    let mut i: usize = 0;
    proof {
        assert(sort::indices(out@) =~= seq![]);
    }
    while i < sizes.len()
        invariant
            i <= sizes@.len() == marks@.len(),
            sv == sort::ints(sizes@),
            forall|k: int|
                0 <= k < sizes@.len() ==> -0x4_0000_0000 <= #[trigger] sizes@[k] <= 0x4_0000_0000,
            0 <= num <= 10,
            0 <= den <= 10,
            -0x4_0000_0000 <= middle <= 0x4_0000_0000,
            sort::indices(out@) == kept_upto(
                sv,
                marks@,
                middle as int,
                num as int,
                den as int,
                i as int,
            ),
            out@.len() <= i,
            forall|k: int| 0 <= k < out@.len() ==> #[trigger] out@[k] < sizes@.len(),
        decreases sizes.len() - i,
    {
        let s: i64 = sizes[i];
        proof {
            assert(sv[i as int] == s);
            assert(-0x100_0000_0000 <= den * s <= 0x100_0000_0000) by (nonlinear_arith)
                requires
                    0 <= den <= 10,
                    -0x4_0000_0000 <= s <= 0x4_0000_0000,
            ;
            assert(-0x100_0000_0000 <= num * middle <= 0x100_0000_0000) by (nonlinear_arith)
                requires
                    0 <= num <= 10,
                    -0x4_0000_0000 <= middle <= 0x4_0000_0000,
            ;
        }
        if marks[i] || den * s >= num * middle {
            proof {
                assert(sort::indices(out@.push(i)) =~= sort::indices(out@).push(i as int));
            }
            out.push(i);
        }
        i = i + 1;
    }
    out
}

fn row_texted(row: &Vec<GridCell>) -> (r: bool)
    ensures
        r == row_has_text(ruled_grid::row_view(row@)),
{
    let ghost rv = ruled_grid::row_view(row@);
    let mut c: usize = 0;
    while c < row.len()
        invariant
            c <= row@.len(),
            rv == ruled_grid::row_view(row@),
            forall|k: int| 0 <= k < c ==> (#[trigger] rv[k]).text.len() == 0,
        decreases row.len() - c,
    {
        proof {
            assert(rv[c as int] == row@[c as int]@);
        }
        if !row[c].text.as_str().is_empty() {
            return true;
        }
        c = c + 1;
    }
    false
}

fn marks_of_rows(g: &Vec<Vec<GridCell>>) -> (r: Vec<bool>)
    ensures
        r@ == row_marks(ruled_grid::grid_view(g@)),
        r@.len() == g@.len(),
{
    let ghost gv = ruled_grid::grid_view(g@);
    let mut out: Vec<bool> = Vec::new();
    let mut i: usize = 0;
    while i < g.len()
        invariant
            i <= g@.len(),
            gv == ruled_grid::grid_view(g@),
            out@.len() == i,
            forall|k: int| 0 <= k < i ==> #[trigger] out@[k] == row_has_text(gv[k]),
        decreases g.len() - i,
    {
        proof {
            assert(gv[i as int] == ruled_grid::row_view(g@[i as int]@));
        }
        out.push(row_texted(&g[i]));
        i = i + 1;
    }
    proof {
        assert(out@ =~= row_marks(gv));
    }
    out
}

fn column_texted(g: &Vec<Vec<GridCell>>, at: &Vec<usize>, c: usize, n_cols: usize) -> (r: bool)
    requires
        c < n_cols,
        forall|i: int| 0 <= i < g@.len() ==> (#[trigger] g@[i])@.len() == n_cols,
        forall|i: int| 0 <= i < at@.len() ==> #[trigger] at@[i] < g@.len(),
    ensures
        r == column_has_text(ruled_grid::grid_view(g@), sort::indices(at@), c as int),
{
    let ghost gv = ruled_grid::grid_view(g@);
    let ghost av = sort::indices(at@);
    let mut k: usize = 0;
    while k < at.len()
        invariant
            k <= at@.len(),
            c < n_cols,
            gv == ruled_grid::grid_view(g@),
            av == sort::indices(at@),
            forall|i: int| 0 <= i < g@.len() ==> (#[trigger] g@[i])@.len() == n_cols,
            forall|i: int| 0 <= i < at@.len() ==> #[trigger] at@[i] < g@.len(),
            forall|i: int| 0 <= i < k ==> (#[trigger] gv[av[i]])[c as int].text.len() == 0,
        decreases at.len() - k,
    {
        let row = &g[at[k]];
        proof {
            assert(av[k as int] == at@[k as int]);
            assert(gv[av[k as int]] == ruled_grid::row_view(row@));
            assert(gv[av[k as int]][c as int] == row@[c as int]@);
        }
        if !row[c].text.as_str().is_empty() {
            return true;
        }
        k = k + 1;
    }
    false
}

fn marks_of_columns(g: &Vec<Vec<GridCell>>, at: &Vec<usize>, n_cols: usize) -> (r: Vec<bool>)
    requires
        forall|i: int| 0 <= i < g@.len() ==> (#[trigger] g@[i])@.len() == n_cols,
        forall|i: int| 0 <= i < at@.len() ==> #[trigger] at@[i] < g@.len(),
    ensures
        r@ == column_marks(ruled_grid::grid_view(g@), sort::indices(at@), n_cols as nat),
        r@.len() == n_cols,
{
    let ghost gv = ruled_grid::grid_view(g@);
    let ghost av = sort::indices(at@);
    let mut out: Vec<bool> = Vec::new();
    let mut c: usize = 0;
    while c < n_cols
        invariant
            c <= n_cols,
            gv == ruled_grid::grid_view(g@),
            av == sort::indices(at@),
            forall|i: int| 0 <= i < g@.len() ==> (#[trigger] g@[i])@.len() == n_cols,
            forall|i: int| 0 <= i < at@.len() ==> #[trigger] at@[i] < g@.len(),
            out@.len() == c,
            forall|k: int| 0 <= k < c ==> #[trigger] out@[k] == column_has_text(gv, av, k),
        decreases n_cols - c,
    {
        out.push(column_texted(g, at, c, n_cols));
        c = c + 1;
    }
    proof {
        assert(out@ =~= column_marks(gv, av, n_cols as nat));
    }
    out
}

fn pick_cells(
    g: &Vec<Vec<GridCell>>,
    at: &Vec<usize>,
    cols: &Vec<usize>,
    n_cols: usize,
) -> (r: Vec<Vec<GridCell>>)
    requires
        forall|i: int| 0 <= i < g@.len() ==> (#[trigger] g@[i])@.len() == n_cols,
        forall|i: int| 0 <= i < at@.len() ==> #[trigger] at@[i] < g@.len(),
        forall|i: int| 0 <= i < cols@.len() ==> #[trigger] cols@[i] < n_cols,
    ensures
        ruled_grid::grid_view(r@) == picked(
            ruled_grid::grid_view(g@),
            sort::indices(at@),
            sort::indices(cols@),
        ),
        r@.len() == at@.len(),
        forall|i: int| 0 <= i < r@.len() ==> (#[trigger] r@[i])@.len() == cols@.len(),
{
    let ghost gv = ruled_grid::grid_view(g@);
    let ghost av = sort::indices(at@);
    let ghost cv = sort::indices(cols@);
    let ghost want = picked(gv, av, cv);
    let mut out: Vec<Vec<GridCell>> = Vec::new();
    let mut r: usize = 0;
    while r < at.len()
        invariant
            r <= at@.len(),
            gv == ruled_grid::grid_view(g@),
            av == sort::indices(at@),
            cv == sort::indices(cols@),
            want == picked(gv, av, cv),
            forall|i: int| 0 <= i < g@.len() ==> (#[trigger] g@[i])@.len() == n_cols,
            forall|i: int| 0 <= i < at@.len() ==> #[trigger] at@[i] < g@.len(),
            forall|i: int| 0 <= i < cols@.len() ==> #[trigger] cols@[i] < n_cols,
            out@.len() == r,
            forall|k: int| 0 <= k < r ==> ruled_grid::row_view((#[trigger] out@[k])@) == want[k],
            forall|k: int| 0 <= k < r ==> (#[trigger] out@[k])@.len() == cols@.len(),
        decreases at.len() - r,
    {
        let src = &g[at[r]];
        proof {
            assert(av[r as int] == at@[r as int]);
            assert(gv[av[r as int]] == ruled_grid::row_view(src@));
        }
        let mut row: Vec<GridCell> = Vec::new();
        let mut c: usize = 0;
        while c < cols.len()
            invariant
                r < at@.len(),
                c <= cols@.len(),
                src@.len() == n_cols,
                gv[av[r as int]] == ruled_grid::row_view(src@),
                cv == sort::indices(cols@),
                av.len() == at@.len(),
                want == picked(gv, av, cv),
                forall|i: int| 0 <= i < cols@.len() ==> #[trigger] cols@[i] < n_cols,
                row@.len() == c,
                forall|k: int| 0 <= k < c ==> (#[trigger] row@[k])@ == want[r as int][k],
            decreases cols.len() - c,
        {
            let cell = &src[cols[c]];
            proof {
                assert(cv[c as int] == cols@[c as int]);
                assert(want[r as int][c as int] == cell@);
            }
            row.push(GridCell { text: cell.text.clone(), bold: cell.bold });
            c = c + 1;
        }
        proof {
            assert(ruled_grid::row_view(row@) =~= want[r as int]);
        }
        out.push(row);
        r = r + 1;
    }
    proof {
        assert(ruled_grid::grid_view(out@) =~= want);
    }
    out
}

fn column_dense(g: &Vec<Vec<GridCell>>, c: usize, n_cols: usize) -> (r: bool)
    requires
        c < n_cols,
        forall|i: int| 0 <= i < g@.len() ==> (#[trigger] g@[i])@.len() == n_cols,
    ensures
        r == is_dense(ruled_grid::grid_view(g@), c as int),
{
    let ghost gv = ruled_grid::grid_view(g@);
    let mut count: u128 = 0;
    let mut r: usize = 0;
    while r < g.len()
        invariant
            r <= g@.len(),
            c < n_cols,
            gv == ruled_grid::grid_view(g@),
            forall|i: int| 0 <= i < g@.len() ==> (#[trigger] g@[i])@.len() == n_cols,
            count <= r,
            count == filled_in_column(gv, c as int, r as int),
        decreases g.len() - r,
    {
        proof {
            assert(gv[r as int] == ruled_grid::row_view(g@[r as int]@));
            assert(gv[r as int][c as int] == g@[r as int]@[c as int]@);
        }
        if !g[r][c].text.as_str().is_empty() {
            count = count + 1;
        }
        r = r + 1;
    }
    10 * count >= 7 * (g.len() as u128)
}

fn spine(g: &Vec<Vec<GridCell>>, n_cols: usize) -> (r: bool)
    requires
        0 < n_cols,
        forall|i: int| 0 <= i < g@.len() ==> (#[trigger] g@[i])@.len() == n_cols,
    ensures
        r == has_spine(ruled_grid::grid_view(g@)),
{
    let ghost gv = ruled_grid::grid_view(g@);
    if !column_dense(g, 0, n_cols) {
        return false;
    }
    let mut r: usize = 0;
    while r < g.len()
        invariant
            r <= g@.len(),
            0 < n_cols,
            gv == ruled_grid::grid_view(g@),
            forall|i: int| 0 <= i < g@.len() ==> (#[trigger] g@[i])@.len() == n_cols,
            forall|k: int|
                0 <= k < r ==> (#[trigger] gv[k])[0].text.len() <= SPINE_MAX_CELL_CHARS,
        decreases g.len() - r,
    {
        proof {
            assert(gv[r as int] == ruled_grid::row_view(g@[r as int]@));
            assert(gv[r as int][0] == g@[r as int]@[0]@);
        }
        if g[r][0].text.as_str().unicode_len() > SPINE_MAX_CELL_CHARS {
            return false;
        }
        r = r + 1;
    }
    true
}

fn covered_by_header(g: &Vec<Vec<GridCell>>, c: usize, n_cols: usize) -> (r: bool)
    requires
        c < n_cols,
        forall|i: int| 0 <= i < g@.len() ==> (#[trigger] g@[i])@.len() == n_cols,
    ensures
        r == header_covers(ruled_grid::grid_view(g@), c as int),
{
    let ghost gv = ruled_grid::grid_view(g@);
    let band: usize = if g.len() < 4 {
        g.len()
    } else {
        4
    };
    let mut r: usize = 0;
    while r < band
        invariant
            r <= band <= g@.len(),
            band == header_band(gv),
            c < n_cols,
            gv == ruled_grid::grid_view(g@),
            forall|i: int| 0 <= i < g@.len() ==> (#[trigger] g@[i])@.len() == n_cols,
            forall|k: int| 0 <= k < r ==> (#[trigger] gv[k])[c as int].text.len() == 0,
        decreases band - r,
    {
        proof {
            assert(gv[r as int] == ruled_grid::row_view(g@[r as int]@));
            assert(gv[r as int][c as int] == g@[r as int]@[c as int]@);
        }
        if !g[r][c].text.as_str().is_empty() {
            return true;
        }
        r = r + 1;
    }
    false
}

fn bold_row(row: &Vec<GridCell>) -> (r: bool)
    ensures
        r == row_bold(ruled_grid::row_view(row@)),
{
    let ghost rv = ruled_grid::row_view(row@);
    let mut c: usize = 0;
    while c < row.len()
        invariant
            c <= row@.len(),
            rv == ruled_grid::row_view(row@),
            forall|k: int| 0 <= k < c && (#[trigger] rv[k]).text.len() > 0 ==> rv[k].bold,
        decreases row.len() - c,
    {
        proof {
            assert(rv[c as int] == row@[c as int]@);
        }
        if !row[c].text.as_str().is_empty() && !row[c].bold {
            return false;
        }
        c = c + 1;
    }
    true
}

fn bold_header(g: &Vec<Vec<GridCell>>) -> (r: bool)
    ensures
        r == header_bold(ruled_grid::grid_view(g@)),
{
    let ghost gv = ruled_grid::grid_view(g@);
    let band: usize = if g.len() < 4 {
        g.len()
    } else {
        4
    };
    let mut r: usize = 0;
    while r < band
        invariant
            r <= band <= g@.len(),
            band == header_band(gv),
            gv == ruled_grid::grid_view(g@),
            forall|k: int| 0 <= k < r ==> row_bold(#[trigger] gv[k]),
        decreases band - r,
    {
        proof {
            assert(gv[r as int] == ruled_grid::row_view(g@[r as int]@));
        }
        if !bold_row(&g[r]) {
            return false;
        }
        r = r + 1;
    }
    true
}

fn long_prose(g: &Vec<Vec<GridCell>>, n_cols: usize) -> (r: bool)
    requires
        forall|i: int| 0 <= i < g@.len() ==> (#[trigger] g@[i])@.len() == n_cols,
    ensures
        r == is_long_prose(ruled_grid::grid_view(g@), n_cols as int),
{
    let ghost gv = ruled_grid::grid_view(g@);
    if g.len() < 5 || n_cols < 3 || !bold_header(g) {
        return false;
    }
    let mut coverage: usize = 0;
    let mut dense: bool = false;
    let mut c: usize = 0;
    while c < n_cols
        invariant
            c <= n_cols,
            gv == ruled_grid::grid_view(g@),
            forall|i: int| 0 <= i < g@.len() ==> (#[trigger] g@[i])@.len() == n_cols,
            coverage <= c,
            coverage == header_coverage(gv, c as int),
            dense == exists|k: int| 1 <= k < c && #[trigger] is_dense(gv, k),
        decreases n_cols - c,
    {
        if covered_by_header(g, c, n_cols) {
            coverage = coverage + 1;
        }
        if c >= 1 && column_dense(g, c, n_cols) {
            proof {
                assert(is_dense(gv, c as int));
            }
            dense = true;
        }
        c = c + 1;
    }
    coverage >= 3 && dense
}

fn enough_text(g: &Vec<Vec<GridCell>>, n_cols: usize) -> (r: bool)
    requires
        0 < n_cols,
        forall|i: int| 0 <= i < g@.len() ==> (#[trigger] g@[i])@.len() == n_cols,
    ensures
        r == filled_enough(ruled_grid::grid_view(g@), n_cols as int),
{
    let n_rows: usize = g.len();
    let empty: u128 = ruled_grid::count_empty(g, n_cols);
    !ruled_grid::emptier_than(empty, 3, 10, n_rows, n_cols) || long_prose(g, n_cols) || (spine(
        g,
        n_cols,
    ) && !ruled_grid::emptier_than(empty, 3, 4, n_rows, n_cols))
}

/// The table that a group of crossing rules draws around lines of text, if it
/// draws one.
pub fn build_ruled_table(
    hs: &Vec<Seg>,
    vs: &Vec<Seg>,
    group: &RuleGroup,
    lines: &Vec<ProjectedLine>,
    page_width: i32,
    page_height: i32,
) -> (r: Option<TableRun>)
    requires
        grid::segs_in_reach(grid::seg_views(hs@)),
        grid::segs_in_reach(grid::seg_views(vs@)),
        grid::group_valid(group@, hs@.len() as int, vs@.len() as int),
    ensures
        match r {
            Some(run) => ruled_table(
                grid::seg_views(hs@),
                grid::seg_views(vs@),
                group@,
                lines@,
                page_width as int,
                page_height as int,
            ) == Some(run@) && rows::run_fits(run@, lines@.len() as int),
            None => ruled_table(
                grid::seg_views(hs@),
                grid::seg_views(vs@),
                group@,
                lines@,
                page_width as int,
                page_height as int,
            ) is None,
        },
{
    proof {
        assert forall|i: int| 0 <= i < group.hs@.len() implies #[trigger] group.hs@[i]
            < hs@.len() by {
            assert(group@.hs[i] == group.hs@[i]);
        }
        assert forall|i: int| 0 <= i < group.vs@.len() implies #[trigger] group.vs@[i]
            < vs@.len() by {
            assert(group@.vs[i] == group.vs@[i]);
        }
    }
    let ys: Vec<i64> = ruled_grid::boundaries_of(hs, &group.hs);
    let xs: Vec<i64> = ruled_grid::boundaries_of(vs, &group.vs);
    proof {
        assert(sort::ints(ys@).len() == ys@.len());
        assert(sort::ints(xs@).len() == xs@.len());
    }
    if ys.len() < 3 || xs.len() < 2 {
        return None;
    }
    if ruled_grid::grid_fills_page(&ys, &xs, page_width, page_height) {
        return None;
    }
    let n_cols: usize = xs.len() - 1;
    let at: Vec<Option<(usize, usize)>> = ruled_grid::place_lines(&ys, &xs, lines);
    let range: (usize, usize) = match ruled_grid::placed_range(&at) {
        Some(p) => p,
        None => {
            return None;
        },
    };
    let full: Vec<Vec<GridCell>> = ruled_grid::fill_grid(lines, &at, ys.len() - 1, n_cols);
    let kept_rows: Vec<usize> = keep_bands(&gaps_of(&ys), &marks_of_rows(&full), 1, 2);
    let kept_cols: Vec<usize> = keep_bands(
        &gaps_of(&xs),
        &marks_of_columns(&full, &kept_rows, n_cols),
        3,
        10,
    );
    proof {
        assert(sort::indices(kept_rows@).len() == kept_rows@.len());
        assert(sort::indices(kept_cols@).len() == kept_cols@.len());
    }
    let rows_left: usize = kept_rows.len();
    let cols_left: usize = kept_cols.len();
    if rows_left < 2 || cols_left == 0 || (cols_left == 1 && rows_left < 3) {
        return None;
    }
    let g: Vec<Vec<GridCell>> = pick_cells(&full, &kept_rows, &kept_cols, n_cols);
    if !enough_text(&g, cols_left) {
        return None;
    }
    Some(TableRun { start: range.0, end: range.1, block: ruled_grid::table_from_grid(&g) })
}

/// All tables drawn with rules, in the order in which they begin.
pub fn detect_ruled_tables(
    lines: &Vec<ProjectedLine>,
    graphics: &Vec<GraphicPrimitive>,
    page_width: i32,
    page_height: i32,
) -> (r: Vec<TableRun>)
    requires
        grid::rules_fit(graphics@),
    ensures
        rows::run_views(r@) == ruled_tables(
            lines@,
            graphics@,
            page_width as int,
            page_height as int,
        ),
        rows::runs_fit(rows::run_views(r@), lines@.len() as int),
{
    let segs = grid::extract_h_v_segments(graphics);
    let hs: Vec<Seg> = grid::cluster_segments(&segs.0);
    let vs: Vec<Seg> = grid::cluster_segments(&segs.1);
    let ghost hv = grid::seg_views(hs@);
    let ghost vv = grid::seg_views(vs@);
    let groups: Vec<RuleGroup> = grid::find_grid_components(&hs, &vs);
    let ghost gv = grid::group_views(groups@);
    let mut out: Vec<TableRun> = Vec::new();
    let mut i: usize = 0;
    proof {
        assert(rows::run_views(out@) =~= seq![]);
    }
    while i < groups.len()
        invariant
            i <= groups@.len(),
            hv == grid::seg_views(hs@),
            vv == grid::seg_views(vs@),
            gv == grid::group_views(groups@),
            gv == grid::components(hv, vv),
            grid::segs_in_reach(hv),
            grid::segs_in_reach(vv),
            forall|k: int|
                0 <= k < groups@.len() ==> grid::group_valid(
                    (#[trigger] groups@[k])@,
                    hs@.len() as int,
                    vs@.len() as int,
                ),
            rows::run_views(out@) == ruled_upto(
                hv,
                vv,
                gv,
                lines@,
                page_width as int,
                page_height as int,
                i as int,
            ),
            rows::runs_fit(rows::run_views(out@), lines@.len() as int),
        decreases groups.len() - i,
    {
        proof {
            assert(gv[i as int] == groups@[i as int]@);
            grid::lemma_component_sizes(hv, vv, i as int);
        }
        match build_ruled_table(&hs, &vs, &groups[i], lines, page_width, page_height) {
            Some(run) => {
                proof {
                    assert(rows::run_views(out@.push(run)) =~= rows::run_views(out@).push(run@));
                }
                out.push(run);
            },
            None => {},
        }
        i = i + 1;
    }
    rows::sort_runs(&out)
}

// ---------------------------------------------------------------------------
// Boxes of grids
// ---------------------------------------------------------------------------

/// The smallest of the first `n` numbers.
pub open spec fn smallest_upto(v: Seq<int>, n: int) -> int
    decreases n,
{
    if n <= 1 {
        v[0]
    } else {
        types::min_of(smallest_upto(v, n - 1), v[n - 1])
    }
}

/// The largest of the first `n` numbers.
pub open spec fn largest_upto(v: Seq<int>, n: int) -> int
    decreases n,
{
    if n <= 1 {
        v[0]
    } else {
        types::max_of(largest_upto(v, n - 1), v[n - 1])
    }
}

/// The box around the rules of a group, unless it is smaller than five points or
/// the border of the page.
pub open spec fn group_box(
    hs: Seq<SegView>,
    vs: Seq<SegView>,
    group: GroupView,
    page_width: int,
    page_height: int,
) -> Option<Bounds> {
    let ys = ruled_grid::positions_at(hs, group.hs);
    let xs = ruled_grid::positions_at(vs, group.vs);
    let left = smallest_upto(xs, xs.len() as int);
    let right = largest_upto(xs, xs.len() as int);
    let top = smallest_upto(ys, ys.len() as int);
    let bottom = largest_upto(ys, ys.len() as int);
    if right - left < 5_000 || bottom - top < 5_000 || (page_width > 0 && page_height > 0 && 20 * (
    right - left) >= 19 * page_width && 20 * (bottom - top) >= 19 * page_height) {
        None
    } else {
        Some(
            Bounds {
                left: left as i64,
                top: top as i64,
                right: right as i64,
                bottom: bottom as i64,
            },
        )
    }
}

/// The boxes around the first `n` groups.
pub open spec fn boxes_upto(
    hs: Seq<SegView>,
    vs: Seq<SegView>,
    groups: Seq<GroupView>,
    page_width: int,
    page_height: int,
    n: int,
) -> Seq<Bounds>
    decreases n,
{
    if n <= 0 {
        seq![]
    } else {
        let out = boxes_upto(hs, vs, groups, page_width, page_height, n - 1);
        match group_box(hs, vs, groups[n - 1], page_width, page_height) {
            Some(b) => out.push(b),
            None => out,
        }
    }
}

/// The boxes around the groups of crossing rules of a page.
pub open spec fn table_boxes(
    graphics: Seq<GraphicPrimitive>,
    page_width: int,
    page_height: int,
) -> Seq<Bounds> {
    let hs = grid::clustered(grid::horizontal_upto(graphics, graphics.len() as int));
    let vs = grid::clustered(grid::vertical_upto(graphics, graphics.len() as int));
    let groups = grid::components(hs, vs);
    boxes_upto(hs, vs, groups, page_width, page_height, groups.len() as int)
}

/// The smallest and the largest position of the rules at the given indices.
fn extent(segs: &Vec<Seg>, at: &Vec<usize>) -> (r: (i64, i64))
    requires
        at@.len() > 0,
        grid::segs_in_reach(grid::seg_views(segs@)),
        forall|i: int| 0 <= i < at@.len() ==> #[trigger] at@[i] < segs@.len(),
    ensures
        r.0 == smallest_upto(
            ruled_grid::positions_at(grid::seg_views(segs@), sort::indices(at@)),
            at@.len() as int,
        ),
        r.1 == largest_upto(
            ruled_grid::positions_at(grid::seg_views(segs@), sort::indices(at@)),
            at@.len() as int,
        ),
        cells::in_reach(r.0 as int),
        cells::in_reach(r.1 as int),
{
    let ghost sv = grid::seg_views(segs@);
    let ghost pv = ruled_grid::positions_at(sv, sort::indices(at@));
    proof {
        assert(pv[0] == segs@[at@[0] as int].pos);
        assert(grid::seg_in_reach(sv[at@[0] as int]));
    }
    let mut low: i64 = segs[at[0]].pos;
    let mut high: i64 = low;
    let mut i: usize = 1;
    while i < at.len()
        invariant
            1 <= i <= at@.len(),
            sv == grid::seg_views(segs@),
            pv == ruled_grid::positions_at(sv, sort::indices(at@)),
            grid::segs_in_reach(sv),
            forall|k: int| 0 <= k < at@.len() ==> #[trigger] at@[k] < segs@.len(),
            low == smallest_upto(pv, i as int),
            high == largest_upto(pv, i as int),
            cells::in_reach(low as int),
            cells::in_reach(high as int),
        decreases at.len() - i,
    {
        proof {
            assert(pv[i as int] == segs@[at@[i as int] as int].pos);
            assert(grid::seg_in_reach(sv[at@[i as int] as int]));
        }
        let p: i64 = segs[at[i]].pos;
        low = types::min64(low, p);
        high = types::max64(high, p);
        i = i + 1;
    }
    (low, high)
}

fn box_of_group(
    hs: &Vec<Seg>,
    vs: &Vec<Seg>,
    group: &RuleGroup,
    page_width: i32,
    page_height: i32,
) -> (r: Option<Bounds>)
    requires
        grid::segs_in_reach(grid::seg_views(hs@)),
        grid::segs_in_reach(grid::seg_views(vs@)),
        grid::group_valid(group@, hs@.len() as int, vs@.len() as int),
    ensures
        r == group_box(
            grid::seg_views(hs@),
            grid::seg_views(vs@),
            group@,
            page_width as int,
            page_height as int,
        ),
{
    proof {
        assert forall|i: int| 0 <= i < group.hs@.len() implies #[trigger] group.hs@[i]
            < hs@.len() by {
            assert(group@.hs[i] == group.hs@[i]);
        }
        assert forall|i: int| 0 <= i < group.vs@.len() implies #[trigger] group.vs@[i]
            < vs@.len() by {
            assert(group@.vs[i] == group.vs@[i]);
        }
    }
    let ys: (i64, i64) = extent(hs, &group.hs);
    let xs: (i64, i64) = extent(vs, &group.vs);
    let width: i64 = xs.1 - xs.0;
    let height: i64 = ys.1 - ys.0;
    if width < 5_000 || height < 5_000 {
        return None;
    }
    if page_width > 0 && page_height > 0 && 20 * width >= 19 * (page_width as i64) && 20 * height
        >= 19 * (page_height as i64) {
        return None;
    }
    Some(Bounds { left: xs.0, top: ys.0, right: xs.1, bottom: ys.1 })
}

/// The boxes around the groups of crossing rules of a page, whatever text they
/// hold.
pub fn detect_table_rects(
    graphics: &Vec<GraphicPrimitive>,
    page_width: i32,
    page_height: i32,
) -> (r: Vec<Bounds>)
    requires
        grid::rules_fit(graphics@),
    ensures
        r@ == table_boxes(graphics@, page_width as int, page_height as int),
{
    let segs = grid::extract_h_v_segments(graphics);
    let hs: Vec<Seg> = grid::cluster_segments(&segs.0);
    let vs: Vec<Seg> = grid::cluster_segments(&segs.1);
    let ghost hv = grid::seg_views(hs@);
    let ghost vv = grid::seg_views(vs@);
    let groups: Vec<RuleGroup> = grid::find_grid_components(&hs, &vs);
    let ghost gv = grid::group_views(groups@);
    let mut out: Vec<Bounds> = Vec::new();
    let mut i: usize = 0;
    while i < groups.len()
        invariant
            i <= groups@.len(),
            hv == grid::seg_views(hs@),
            vv == grid::seg_views(vs@),
            gv == grid::group_views(groups@),
            grid::segs_in_reach(hv),
            grid::segs_in_reach(vv),
            forall|k: int|
                0 <= k < groups@.len() ==> grid::group_valid(
                    (#[trigger] groups@[k])@,
                    hs@.len() as int,
                    vs@.len() as int,
                ),
            out@ == boxes_upto(hv, vv, gv, page_width as int, page_height as int, i as int),
        decreases groups.len() - i,
    {
        proof {
            assert(gv[i as int] == groups@[i as int]@);
        }
        match box_of_group(&hs, &vs, &groups[i], page_width, page_height) {
            Some(b) => {
                out.push(b);
            },
            None => {},
        }
        i = i + 1;
    }
    out
}

// ---------------------------------------------------------------------------
// Union with the tables without rules
// ---------------------------------------------------------------------------

/// The number of cells of the first row of a table, or `None` for another block.
pub open spec fn first_row_width(b: BlockView) -> Option<int> {
    match b {
        BlockView::Table { rows, .. } => Some(
            if rows.len() > 0 {
                rows[0].len() as int
            } else {
                0
            },
        ),
        _ => None,
    }
}

/// How many of the first `n` cells of a row hold visible text.
pub open spec fn visible_cells(row: Seq<Seq<char>>, n: int) -> nat
    decreases n,
{
    if n <= 0 {
        0
    } else {
        visible_cells(row, n - 1) + if text::is_blank(row[n - 1]) {
            0nat
        } else {
            1nat
        }
    }
}

/// How many cells of the first `n` rows hold visible text.
pub open spec fn visible_in_rows(v: Seq<Seq<Seq<char>>>, n: int) -> nat
    decreases n,
{
    if n <= 0 {
        0
    } else {
        visible_in_rows(v, n - 1) + visible_cells(v[n - 1], v[n - 1].len() as int)
    }
}

/// How many cells of a table hold visible text. Another block has none.
pub open spec fn filled_cells(b: BlockView) -> nat {
    match b {
        BlockView::Table { header, rows } => visible_in_rows(rows, rows.len() as int) + (
        match header {
            Some(h) => visible_cells(h, h.len() as int),
            None => 0nat,
        }),
        _ => 0,
    }
}

/// Whether a table with rules gives way to one without rules that shares a line
/// with it: the first has one column and the second more, or the second has more
/// than twice as many cells with text.
pub open spec fn gives_way(ruled: RunView, other: RunView) -> bool {
    &&& rows::runs_overlap(other, ruled)
    &&& {
        ||| first_row_width(ruled.block) is Some && first_row_width(ruled.block)->0 <= 1
            && first_row_width(other.block) is Some && first_row_width(other.block)->0 >= 2
        ||| filled_cells(other.block) >= 2 * filled_cells(ruled.block) + 4
    }
}

/// Whether a table with rules gives way to any of the tables without.
pub open spec fn beaten(ruled: RunView, borderless: Seq<RunView>) -> bool {
    exists|k: int| 0 <= k < borderless.len() && gives_way(ruled, #[trigger] borderless[k])
}

/// The first `n` tables with rules that give way to none without.
pub open spec fn standing_upto(ruled: Seq<RunView>, borderless: Seq<RunView>, n: int) -> Seq<
    RunView,
>
    decreases n,
{
    if n <= 0 {
        seq![]
    } else if beaten(ruled[n - 1], borderless) {
        standing_upto(ruled, borderless, n - 1)
    } else {
        standing_upto(ruled, borderless, n - 1).push(ruled[n - 1])
    }
}

/// The tables with and without rules, in the order in which they begin. Those
/// with rules come first where they share a line, unless they give way.
pub open spec fn merged_runs(ruled: Seq<RunView>, borderless: Seq<RunView>) -> Seq<RunView> {
    rows::in_order(
        rows::with_disjoint(
            standing_upto(ruled, borderless, ruled.len() as int),
            borderless,
            borderless.len() as int,
        ),
    )
}

fn width_of_first_row(b: &Block) -> (r: Option<usize>)
    ensures
        match r {
            Some(n) => first_row_width(b@) == Some(n as int),
            None => first_row_width(b@) is None,
        },
{
    match b {
        Block::Table { header: _, rows } => if rows.len() > 0 {
            proof {
                assert(types::row_texts(rows@)[0] == types::texts(rows@[0]@));
            }
            Some(rows[0].len())
        } else {
            Some(0)
        },
        _ => None,
    }
}

fn count_visible_cells(row: &Vec<String>) -> (r: u128)
    ensures
        r == visible_cells(types::texts(row@), row@.len() as int),
        r <= row@.len(),
{
    let ghost rv = types::texts(row@);
    let mut count: u128 = 0;
    let mut i: usize = 0;
    while i < row.len()
        invariant
            i <= row@.len(),
            rv == types::texts(row@),
            count <= i,
            count == visible_cells(rv, i as int),
        decreases row.len() - i,
    {
        proof {
            assert(rv[i as int] == row@[i as int]@);
        }
        if !text::blank(row[i].as_str()) {
            count = count + 1;
        }
        i = i + 1;
    }
    count
}

/// How many cells of a table hold visible text.
pub fn run_filled_cells(b: &Block) -> (r: u128)
    ensures
        r == filled_cells(b@),
{
    match b {
        Block::Table { header, rows } => {
            let ghost rv = types::row_texts(rows@);
            let mut count: u128 = 0;
            let mut i: usize = 0;
            while i < rows.len()
                invariant
                    i <= rows@.len(),
                    rv == types::row_texts(rows@),
                    count <= i * 0xFFFF_FFFF_FFFF_FFFF,
                    count == visible_in_rows(rv, i as int),
                decreases rows.len() - i,
            {
                proof {
                    assert(rv[i as int] == types::texts(rows@[i as int]@));
                }
                let n: usize = rows[i].len();
                let here: u128 = count_visible_cells(&rows[i]);
                assert(here <= n);
                count = count + here;
                i = i + 1;
            }
            match header {
                Some(h) => {
                    let n: usize = h.len();
                    let here: u128 = count_visible_cells(h);
                    assert(here <= n);
                    count + here
                },
                None => count,
            }
        },
        _ => 0,
    }
}

fn must_give_way(ruled: &TableRun, borderless: &Vec<TableRun>) -> (r: bool)
    ensures
        r == beaten(ruled@, rows::run_views(borderless@)),
{
    let ghost bv = rows::run_views(borderless@);
    let narrow: bool = match width_of_first_row(&ruled.block) {
        Some(n) => n <= 1,
        None => false,
    };
    let cells_here: u128 = run_filled_cells(&ruled.block);
    let mut k: usize = 0;
    while k < borderless.len()
        invariant
            k <= borderless@.len(),
            bv == rows::run_views(borderless@),
            narrow == (first_row_width(ruled@.block) is Some && first_row_width(ruled@.block)->0
                <= 1),
            cells_here == filled_cells(ruled@.block),
            forall|i: int| 0 <= i < k ==> !gives_way(ruled@, #[trigger] bv[i]),
        decreases borderless.len() - k,
    {
        let b = &borderless[k];
        proof {
            assert(bv[k as int] == b@);
        }
        if !(b.end <= ruled.start || b.start >= ruled.end) {
            let wide: bool = match width_of_first_row(&b.block) {
                Some(n) => n >= 2,
                None => false,
            };
            let cells_there: u128 = run_filled_cells(&b.block);
            if (narrow && wide) || (cells_there >= 4 && (cells_there - 4) / 2 >= cells_here) {
                return true;
            }
        }
        k = k + 1;
    }
    false
}

/// Merge the tables with rules and those without.
pub fn merge_table_runs(ruled: &Vec<TableRun>, borderless: &Vec<TableRun>) -> (r: Vec<TableRun>)
    ensures
        rows::run_views(r@) == merged_runs(
            rows::run_views(ruled@),
            rows::run_views(borderless@),
        ),
        forall|n: int|
            rows::runs_fit(rows::run_views(ruled@), n) && rows::runs_fit(
                rows::run_views(borderless@),
                n,
            ) ==> #[trigger] rows::runs_fit(rows::run_views(r@), n),
{
    let ghost rv = rows::run_views(ruled@);
    let ghost bv = rows::run_views(borderless@);
    let mut kept: Vec<TableRun> = Vec::new();
    let mut i: usize = 0;
    proof {
        assert(rows::run_views(kept@) =~= seq![]);
    }
    while i < ruled.len()
        invariant
            i <= ruled@.len(),
            rv == rows::run_views(ruled@),
            bv == rows::run_views(borderless@),
            rows::run_views(kept@) == standing_upto(rv, bv, i as int),
            forall|n: int|
                rows::runs_fit(rv, n) ==> #[trigger] rows::runs_fit(rows::run_views(kept@), n),
        decreases ruled.len() - i,
    {
        proof {
            assert(rv[i as int] == ruled@[i as int]@);
        }
        if !must_give_way(&ruled[i], borderless) {
            let c: TableRun = rows::clone_run(&ruled[i]);
            let ghost before = rows::run_views(kept@);
            proof {
                assert(rows::run_views(kept@.push(c)) =~= before.push(c@));
                assert forall|n: int| rows::runs_fit(rv, n) implies #[trigger] rows::runs_fit(
                    rows::run_views(kept@.push(c)),
                    n,
                ) by {
                    assert(rows::runs_fit(before, n));
                    assert(rows::run_fits(rv[i as int], n));
                }
            }
            kept.push(c);
        }
        i = i + 1;
    }
    rows::add_disjoint(kept, borderless)
}

proof fn lemma_standing(ruled: Seq<RunView>, borderless: Seq<RunView>, n: int, lines: int)
    requires
        0 <= n <= ruled.len(),
        rows::runs_fit(ruled, lines),
        rows::are_apart(ruled),
    ensures
        rows::runs_fit(standing_upto(ruled, borderless, n), lines),
        rows::are_apart(standing_upto(ruled, borderless, n)),
        forall|r: RunView|
            standing_upto(ruled, borderless, n).contains(r) ==> exists|k: int|
                0 <= k < n && #[trigger] ruled[k] == r,
        forall|k: int|
            0 <= k < n && !beaten(ruled[k], borderless) ==> standing_upto(
                ruled,
                borderless,
                n,
            ).contains(#[trigger] ruled[k]),
    decreases n,
{
    if n > 0 {
        lemma_standing(ruled, borderless, n - 1, lines);
        let before = standing_upto(ruled, borderless, n - 1);
        let after = standing_upto(ruled, borderless, n);
        if !beaten(ruled[n - 1], borderless) {
            assert(after[after.len() - 1] == ruled[n - 1]);
            assert forall|r: RunView| before.contains(r) implies after.contains(r) by {
                let k = choose|k: int| 0 <= k < before.len() && before[k] == r;
                assert(after[k] == r);
            }
            assert forall|i: int, j: int| 0 <= i < j < after.len() implies !rows::runs_overlap(
                #[trigger] after[i],
                #[trigger] after[j],
            ) by {
                assert(after[i] == before[i]);
                if j < before.len() {
                    assert(after[j] == before[j]);
                } else {
                    assert(before.contains(before[i]));
                    let k = choose|k: int| 0 <= k < n - 1 && #[trigger] ruled[k] == before[i];
                    assert(!rows::runs_overlap(ruled[k], ruled[n - 1]));
                }
            }
            assert forall|r: RunView| after.contains(r) implies exists|k: int|
                0 <= k < n && #[trigger] ruled[k] == r by {
                let m = choose|m: int| 0 <= m < after.len() && after[m] == r;
                if m < before.len() {
                    assert(before.contains(before[m]));
                    let k = choose|k: int| 0 <= k < n - 1 && #[trigger] ruled[k] == before[m];
                    assert(ruled[k] == r);
                } else {
                    assert(ruled[n - 1] == r);
                }
            }
        }
    }
}

/// Every table with rules that gives way to none is among the merged tables, and the merged
/// tables follow each other without sharing a line, if those with rules share none.
pub proof fn law_merged_tables_follow(
    ruled: Seq<RunView>,
    borderless: Seq<RunView>,
    n: int,
)
    requires
        rows::runs_fit(ruled, n),
        rows::runs_fit(borderless, n),
        rows::are_apart(ruled),
    ensures
        rows::runs_in_sequence(merged_runs(ruled, borderless)),
        forall|i: int|
            0 <= i < ruled.len() && !beaten(ruled[i], borderless) ==> merged_runs(
                ruled,
                borderless,
            ).contains(#[trigger] ruled[i]),
{
    let standing = standing_upto(ruled, borderless, ruled.len() as int);
    let all = rows::with_disjoint(standing, borderless, borderless.len() as int);
    lemma_standing(ruled, borderless, ruled.len() as int, n);
    rows::law_disjoint_runs(standing, borderless, borderless.len() as int);
    rows::lemma_disjoint_runs_fit(standing, borderless, borderless.len() as int, n);
    rows::law_ordered_runs(all, n);
    assert forall|i: int|
        0 <= i < ruled.len() && !beaten(ruled[i], borderless) implies merged_runs(
        ruled,
        borderless,
    ).contains(#[trigger] ruled[i]) by {
        assert(standing.contains(ruled[i]));
        let k = choose|k: int| 0 <= k < standing.len() && standing[k] == ruled[i];
        assert(all[k] == ruled[i]);
        assert(all.contains(ruled[i]));
    }
}

} // verus!
