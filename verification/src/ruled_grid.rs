//! The cells of a grid drawn with rules, and the lines of text that fall into
//! them.

use vstd::prelude::*;
use vstd::string::*;
use crate::cells;
use crate::grid;
use crate::grid::{Seg, SegView};
use crate::numbers;
use crate::sort;
use crate::text;
use crate::types;
use crate::types::{BlockView, ProjectedLine};

verus! {

/// The text in one cell of a grid, and whether all of it is bold.
pub struct GridCell {
    pub text: String,
    pub bold: bool,
}

/// The contents of a `GridCell`.
#[verifier::ext_equal]
pub struct GridCellView {
    pub text: Seq<char>,
    pub bold: bool,
}

impl View for GridCell {
    type V = GridCellView;

    open spec fn view(&self) -> GridCellView {
        GridCellView { text: self.text@, bold: self.bold }
    }
}

/// The contents of a row of cells.
pub open spec fn row_view(v: Seq<GridCell>) -> Seq<GridCellView> {
    Seq::new(v.len(), |i: int| v[i]@)
}

/// The contents of a grid.
pub open spec fn grid_view(v: Seq<Vec<GridCell>>) -> Seq<Seq<GridCellView>> {
    Seq::new(v.len(), |i: int| row_view(v[i]@))
}

// ---------------------------------------------------------------------------
// Boundaries of a grid
// ---------------------------------------------------------------------------

/// The positions of the rules at the given indices.
pub open spec fn positions_at(segs: Seq<SegView>, at: Seq<int>) -> Seq<int> {
    Seq::new(at.len(), |i: int| segs[at[i]].pos)
}

/// The distinct positions of the rules at the given indices, ascending.
pub open spec fn boundaries(segs: Seq<SegView>, at: Seq<int>) -> Seq<int> {
    grid::dedup_upto(
        sort::sorted(positions_at(segs, at)),
        grid::GRID_CLUSTER as int,
        at.len() as int,
    )
}

/// The distinct positions of the rules at the given indices, ascending.
pub fn boundaries_of(segs: &Vec<Seg>, at: &Vec<usize>) -> (r: Vec<i64>)
    requires
        grid::segs_in_reach(grid::seg_views(segs@)),
        forall|i: int| 0 <= i < at@.len() ==> #[trigger] at@[i] < segs@.len(),
    ensures
        sort::ints(r@) == boundaries(grid::seg_views(segs@), sort::indices(at@)),
        r@.len() <= at@.len(),
        forall|i: int| 0 <= i < r@.len() ==> cells::in_reach(#[trigger] r@[i] as int),
{
    let ghost sv = grid::seg_views(segs@);
    let mut pos: Vec<i64> = Vec::new();
    let mut i: usize = 0;
    while i < at.len()
        invariant
            i <= at@.len(),
            sv == grid::seg_views(segs@),
            grid::segs_in_reach(sv),
            forall|k: int| 0 <= k < at@.len() ==> #[trigger] at@[k] < segs@.len(),
            pos@.len() == i,
            forall|k: int|
                0 <= k < i ==> #[trigger] pos@[k] == positions_at(sv, sort::indices(at@))[k],
            forall|k: int| 0 <= k < i ==> cells::in_reach(#[trigger] pos@[k] as int),
        decreases at.len() - i,
    {
        proof {
            assert(sv[at@[i as int] as int] == segs@[at@[i as int] as int]@);
            assert(grid::seg_in_reach(sv[at@[i as int] as int]));
            assert(sort::indices(at@)[i as int] == at@[i as int]);
        }
        pos.push(segs[at[i]].pos);
        i = i + 1;
    }
    proof {
        assert(sort::ints(pos@) =~= positions_at(sv, sort::indices(at@)));
    }
    let ordered: Vec<i64> = sort::sort_values(&pos);
    proof {
        assert forall|k: int| 0 <= k < ordered@.len() implies cells::in_reach(
            #[trigger] ordered@[k] as int,
        ) by {
            assert(pos@.contains(ordered@[k]));
        }
    }
    grid::dedup_close(&ordered, grid::GRID_CLUSTER)
}

/// Whether the area between the outermost boundaries takes more than 95 percent
/// of the page.
pub open spec fn fills_page(ys: Seq<int>, xs: Seq<int>, page_width: int, page_height: int) -> bool {
    page_width > 0 && page_height > 0 && 20 * ((xs.last() - xs[0]) * (ys.last() - ys[0])) > 19 * (
    page_width * page_height)
}

/// Whether the area between the outermost boundaries takes nearly the whole page.
pub fn grid_fills_page(ys: &Vec<i64>, xs: &Vec<i64>, page_width: i32, page_height: i32) -> (r: bool)
    requires
        ys@.len() > 0,
        xs@.len() > 0,
        forall|i: int| 0 <= i < ys@.len() ==> cells::in_reach(#[trigger] ys@[i] as int),
        forall|i: int| 0 <= i < xs@.len() ==> cells::in_reach(#[trigger] xs@[i] as int),
    ensures
        r == fills_page(
            sort::ints(ys@),
            sort::ints(xs@),
            page_width as int,
            page_height as int,
        ),
{
    if page_width <= 0 || page_height <= 0 {
        return false;
    }
    let w: i128 = xs[xs.len() - 1] as i128 - xs[0] as i128;
    let h: i128 = ys[ys.len() - 1] as i128 - ys[0] as i128;
    let pw: i128 = page_width as i128;
    let ph: i128 = page_height as i128;
    proof {
        assert(-0x10_0000_0000_0000_0000 <= w * h <= 0x10_0000_0000_0000_0000) by (nonlinear_arith)
            requires
                -0x4_0000_0000 <= w <= 0x4_0000_0000,
                -0x4_0000_0000 <= h <= 0x4_0000_0000,
        ;
        assert(0 <= pw * ph <= 0x4000_0000_0000_0000) by (nonlinear_arith)
            requires
                0 <= pw <= 0x8000_0000,
                0 <= ph <= 0x8000_0000,
        ;
    }
    20 * (w * h) > 19 * (pw * ph)
}

// ---------------------------------------------------------------------------
// Lines in cells
// ---------------------------------------------------------------------------

/// The cell that the centre of a line falls into, by row and column. A blank
/// line falls into none.
pub open spec fn place(ys: Seq<int>, xs: Seq<int>, line: ProjectedLine) -> Option<(int, int)> {
    match grid::bucket_of(ys, 2 * line.bbox.y + line.bbox.height) {
        Some(r) => match grid::bucket_of(xs, 2 * line.bbox.x + line.bbox.width) {
            Some(c) => if text::is_blank(line.text@) {
                None
            } else {
                Some((r, c))
            },
            None => None,
        },
        None => None,
    }
}

/// The cell of every line.
pub open spec fn places(
    ys: Seq<int>,
    xs: Seq<int>,
    lines: Seq<ProjectedLine>,
) -> Seq<Option<(int, int)>> {
    Seq::new(lines.len(), |i: int| place(ys, xs, lines[i]))
}

/// Placed lines by index pairs.
pub open spec fn place_views(v: Seq<Option<(usize, usize)>>) -> Seq<Option<(int, int)>> {
    Seq::new(
        v.len(),
        |i: int|
            match v[i] {
                Some(p) => Some((p.0 as int, p.1 as int)),
                None => None,
            },
    )
}

/// The texts of the first `n` lines that fall into a cell, one space apart.
pub open spec fn text_in_cell(
    lines: Seq<ProjectedLine>,
    at: Seq<Option<(int, int)>>,
    r: int,
    c: int,
    n: int,
) -> Seq<char>
    decreases n,
{
    if n <= 0 {
        seq![]
    } else {
        let head = text_in_cell(lines, at, r, c, n - 1);
        if at[n - 1] == Some((r, c)) {
            (if head.len() > 0 {
                head.push(' ')
            } else {
                head
            }) + text::trim_of(lines[n - 1].text@)
        } else {
            head
        }
    }
}

/// Whether every line that falls into a cell is bold.
pub open spec fn bold_in_cell(
    lines: Seq<ProjectedLine>,
    at: Seq<Option<(int, int)>>,
    r: int,
    c: int,
) -> bool {
    forall|i: int| 0 <= i < lines.len() && #[trigger] at[i] == Some((r, c)) ==> lines[i].all_bold
}

/// The grid with the lines in its cells.
pub open spec fn filled_grid(
    lines: Seq<ProjectedLine>,
    at: Seq<Option<(int, int)>>,
    n_rows: int,
    n_cols: int,
) -> Seq<Seq<GridCellView>> {
    Seq::new(
        n_rows as nat,
        |r: int|
            Seq::new(
                n_cols as nat,
                |c: int|
                    GridCellView {
                        text: text_in_cell(lines, at, r, c, lines.len() as int),
                        bold: bold_in_cell(lines, at, r, c),
                    },
            ),
    )
}

/// The first of the first `n` lines that falls into a cell.
pub open spec fn first_placed(at: Seq<Option<(int, int)>>, n: int) -> Option<int>
    decreases n,
{
    if n <= 0 {
        None
    } else {
        match first_placed(at, n - 1) {
            Some(i) => Some(i),
            None => if at[n - 1] is Some {
                Some(n - 1)
            } else {
                None
            },
        }
    }
}

/// The last of the first `n` lines that falls into a cell.
pub open spec fn last_placed(at: Seq<Option<(int, int)>>, n: int) -> Option<int>
    decreases n,
{
    if n <= 0 {
        None
    } else if at[n - 1] is Some {
        Some(n - 1)
    } else {
        last_placed(at, n - 1)
    }
}

/// The cell that a line falls into.
fn place_line(ys: &Vec<i64>, xs: &Vec<i64>, line: &ProjectedLine) -> (r: Option<(usize, usize)>)
    requires
        forall|i: int| 0 <= i < ys@.len() ==> cells::in_reach(#[trigger] ys@[i] as int),
        forall|i: int| 0 <= i < xs@.len() ==> cells::in_reach(#[trigger] xs@[i] as int),
    ensures
        match r {
            Some(p) => place(sort::ints(ys@), sort::ints(xs@), *line) == Some(
                (p.0 as int, p.1 as int),
            ),
            None => place(sort::ints(ys@), sort::ints(xs@), *line) is None,
        },
{
    let cy: i64 = 2 * (line.bbox.y as i64) + line.bbox.height as i64;
    let cx: i64 = 2 * (line.bbox.x as i64) + line.bbox.width as i64;
    match grid::find_bucket(ys, cy) {
        None => None,
        Some(row) => match grid::find_bucket(xs, cx) {
            None => None,
            Some(col) => if text::blank(line.text.as_str()) {
                None
            } else {
                Some((row, col))
            },
        },
    }
}

/// The cell of every line.
pub fn place_lines(
    ys: &Vec<i64>,
    xs: &Vec<i64>,
    lines: &Vec<ProjectedLine>,
) -> (r: Vec<Option<(usize, usize)>>)
    requires
        forall|i: int| 0 <= i < ys@.len() ==> cells::in_reach(#[trigger] ys@[i] as int),
        forall|i: int| 0 <= i < xs@.len() ==> cells::in_reach(#[trigger] xs@[i] as int),
    ensures
        place_views(r@) == places(sort::ints(ys@), sort::ints(xs@), lines@),
        r@.len() == lines@.len(),
{
    let ghost all = places(sort::ints(ys@), sort::ints(xs@), lines@);
    let mut out: Vec<Option<(usize, usize)>> = Vec::new();
    let mut i: usize = 0;
    while i < lines.len()
        invariant
            i <= lines@.len(),
            forall|k: int| 0 <= k < ys@.len() ==> cells::in_reach(#[trigger] ys@[k] as int),
            forall|k: int| 0 <= k < xs@.len() ==> cells::in_reach(#[trigger] xs@[k] as int),
            all == places(sort::ints(ys@), sort::ints(xs@), lines@),
            out@.len() == i,
            forall|k: int| 0 <= k < i ==> #[trigger] place_views(out@)[k] == all[k],
        decreases lines.len() - i,
    {
        let p: Option<(usize, usize)> = place_line(ys, xs, &lines[i]);
        let ghost before = place_views(out@);
        out.push(p);
        proof {
            assert(place_views(out@) =~= before.push(place_views(out@)[i as int]));
        }
        i = i + 1;
    }
    proof {
        assert(place_views(out@) =~= all);
    }
    out
}

fn fill_cell(
    lines: &Vec<ProjectedLine>,
    at: &Vec<Option<(usize, usize)>>,
    r: usize,
    c: usize,
) -> (cell: GridCell)
    requires
        at@.len() == lines@.len(),
    ensures
        cell@.text == text_in_cell(
            lines@,
            place_views(at@),
            r as int,
            c as int,
            lines@.len() as int,
        ),
        cell@.bold == bold_in_cell(lines@, place_views(at@), r as int, c as int),
{
    let ghost pv = place_views(at@);
    let mut out: String = String::new();
    let mut bold: bool = true;
    let mut i: usize = 0;
    while i < lines.len()
        invariant
            i <= lines@.len() == at@.len(),
            pv == place_views(at@),
            out@ == text_in_cell(lines@, pv, r as int, c as int, i as int),
            bold == (forall|k: int|
                0 <= k < i && #[trigger] pv[k] == Some((r as int, c as int)) ==> lines@[k].all_bold),
        decreases lines.len() - i,
    {
        let here: bool = match at[i] {
            Some(p) => p.0 == r && p.1 == c,
            None => false,
        };
        proof {
            assert(here == (pv[i as int] == Some((r as int, c as int))));
        }
        if here {
            if !out.as_str().is_empty() {
                out.push(' ');
            }
            out.append(text::trim(lines[i].text.as_str()));
            if !lines[i].all_bold {
                bold = false;
            }
        }
        i = i + 1;
    }
    GridCell { text: out, bold }
}

/// The grid with the lines in its cells.
pub fn fill_grid(
    lines: &Vec<ProjectedLine>,
    at: &Vec<Option<(usize, usize)>>,
    n_rows: usize,
    n_cols: usize,
) -> (g: Vec<Vec<GridCell>>)
    requires
        at@.len() == lines@.len(),
    ensures
        grid_view(g@) == filled_grid(lines@, place_views(at@), n_rows as int, n_cols as int),
        g@.len() == n_rows,
        forall|i: int| 0 <= i < n_rows ==> (#[trigger] g@[i])@.len() == n_cols,
{
    let ghost all = filled_grid(lines@, place_views(at@), n_rows as int, n_cols as int);
    let mut out: Vec<Vec<GridCell>> = Vec::new();
    let mut r: usize = 0;
    while r < n_rows
        invariant
            r <= n_rows,
            at@.len() == lines@.len(),
            all == filled_grid(lines@, place_views(at@), n_rows as int, n_cols as int),
            out@.len() == r,
            forall|k: int| 0 <= k < r ==> row_view((#[trigger] out@[k])@) == all[k],
            forall|k: int| 0 <= k < r ==> (#[trigger] out@[k])@.len() == n_cols,
        decreases n_rows - r,
    {
        let mut row: Vec<GridCell> = Vec::new();
        let mut c: usize = 0;
        while c < n_cols
            invariant
                r < n_rows,
                c <= n_cols,
                at@.len() == lines@.len(),
                all == filled_grid(lines@, place_views(at@), n_rows as int, n_cols as int),
                row@.len() == c,
                forall|k: int| 0 <= k < c ==> (#[trigger] row@[k])@ == all[r as int][k],
            decreases n_cols - c,
        {
            row.push(fill_cell(lines, at, r, c));
            c = c + 1;
        }
        proof {
            assert(row_view(row@) =~= all[r as int]);
        }
        out.push(row);
        r = r + 1;
    }
    proof {
        assert(grid_view(out@) =~= all);
    }
    out
}

/// The first line that falls into a cell, and the end of the range up to the
/// last one.
pub fn placed_range(at: &Vec<Option<(usize, usize)>>) -> (r: Option<(usize, usize)>)
    ensures
        match r {
            Some(p) => first_placed(place_views(at@), at@.len() as int) == Some(p.0 as int)
                && last_placed(place_views(at@), at@.len() as int) == Some(p.1 - 1) && p.0 < p.1
                <= at@.len(),
            None => first_placed(place_views(at@), at@.len() as int) is None,
        },
{
    let ghost pv = place_views(at@);
    let mut range: Option<(usize, usize)> = None;
    let mut i: usize = 0;
    while i < at.len()
        invariant
            i <= at@.len(),
            pv == place_views(at@),
            match range {
                Some(p) => first_placed(pv, i as int) == Some(p.0 as int) && last_placed(
                    pv,
                    i as int,
                ) == Some(p.1 - 1) && p.0 < p.1 <= i,
                None => first_placed(pv, i as int) is None && last_placed(pv, i as int) is None,
            },
        decreases at.len() - i,
    {
        proof {
            assert(pv[i as int] is Some == at@[i as int] is Some);
        }
        if at[i].is_some() {
            range = match range {
                Some(p) => Some((p.0, i + 1)),
                None => Some((i, i + 1)),
            };
        }
        i = i + 1;
    }
    range
}

// ---------------------------------------------------------------------------
// Counting and rendering cells
// ---------------------------------------------------------------------------

/// How many of the first `n` cells of a row are empty.
pub open spec fn empty_in_row(row: Seq<GridCellView>, n: int) -> nat
    decreases n,
{
    if n <= 0 {
        0
    } else {
        empty_in_row(row, n - 1) + if row[n - 1].text.len() == 0 {
            1nat
        } else {
            0nat
        }
    }
}

/// How many cells of the first `n` rows are empty.
pub open spec fn empty_upto(g: Seq<Seq<GridCellView>>, n: int) -> nat
    decreases n,
{
    if n <= 0 {
        0
    } else {
        empty_upto(g, n - 1) + empty_in_row(g[n - 1], g[n - 1].len() as int)
    }
}

/// The number of empty cells.
pub fn count_empty(g: &Vec<Vec<GridCell>>, n_cols: usize) -> (r: u128)
    requires
        forall|i: int| 0 <= i < g@.len() ==> (#[trigger] g@[i])@.len() == n_cols,
    ensures
        r == empty_upto(grid_view(g@), g@.len() as int),
        r <= g@.len() * n_cols,
{
    let ghost gv = grid_view(g@);
    let mut count: u128 = 0;
    let mut i: usize = 0;
    while i < g.len()
        invariant
            i <= g@.len(),
            gv == grid_view(g@),
            forall|k: int| 0 <= k < g@.len() ==> (#[trigger] g@[k])@.len() == n_cols,
            count == empty_upto(gv, i as int),
            count <= i * n_cols,
            count <= i * 0xFFFF_FFFF_FFFF_FFFF,
        decreases g.len() - i,
    {
        let row = &g[i];
        let mut c: usize = 0;
        let ghost before = count;
        while c < row.len()
            invariant
                i < g@.len(),
                c <= row@.len() == n_cols,
                gv == grid_view(g@),
                row == &g@[i as int],
                before <= i * 0xFFFF_FFFF_FFFF_FFFF,
                count == before + empty_in_row(gv[i as int], c as int),
                count <= before + c,
            decreases row.len() - c,
        {
            proof {
                assert(gv[i as int][c as int] == row@[c as int]@);
            }
            if row[c].text.as_str().is_empty() {
                count = count + 1;
            }
            c = c + 1;
        }
        proof {
            assert(gv[i as int].len() == n_cols);
            assert(i * n_cols + n_cols == (i + 1) * n_cols) by (nonlinear_arith);
        }
        i = i + 1;
    }
    count
}

/// Whether more than `num / den` of the cells of a grid are among `empty` ones.
pub fn emptier_than(empty: u128, num: u128, den: u128, n_rows: usize, n_cols: usize) -> (r: bool)
    requires
        num <= 100,
    ensures
        r == (den * empty > num * (n_rows * n_cols)),
{
    proof {
        let (k, x, y) = (num as int, n_rows as int, n_cols as int);
        assert(k * (x * y) == (k * x) * y) by (nonlinear_arith);
        assert(0 <= k * x <= 100 * 0xFFFF_FFFF_FFFF_FFFF) by (nonlinear_arith)
            requires
                0 <= k <= 100,
                0 <= x <= 0xFFFF_FFFF_FFFF_FFFF,
        ;
    }
    numbers::product_exceeds(den, empty, num * (n_rows as u128), n_cols as u128)
}

/// The texts of the cells of a row.
pub open spec fn texts_in_row(row: Seq<GridCellView>) -> Seq<Seq<char>> {
    Seq::new(row.len(), |c: int| row[c].text)
}

/// The texts of the cells of every row.
pub open spec fn texts_in_grid(g: Seq<Seq<GridCellView>>) -> Seq<Seq<Seq<char>>> {
    Seq::new(g.len(), |r: int| texts_in_row(g[r]))
}

/// Whether a row can be a header: some cell holds text, and every cell that does
/// is bold.
pub open spec fn is_header(row: Seq<GridCellView>) -> bool {
    &&& forall|c: int| 0 <= c < row.len() && (#[trigger] row[c]).text.len() > 0 ==> row[c].bold
    &&& exists|c: int| 0 <= c < row.len() && (#[trigger] row[c]).text.len() > 0
}

/// The table that a grid makes: the first row is its header when it can be.
pub open spec fn grid_table(g: Seq<Seq<GridCellView>>) -> BlockView {
    if is_header(g[0]) {
        BlockView::Table {
            header: Some(texts_in_row(g[0])),
            rows: texts_in_grid(g).skip(1),
        }
    } else {
        BlockView::Table { header: None, rows: texts_in_grid(g) }
    }
}

fn row_texts_of(row: &Vec<GridCell>) -> (r: Vec<String>)
    ensures
        types::texts(r@) == texts_in_row(row_view(row@)),
{
    let mut out: Vec<String> = Vec::new();
    let mut i: usize = 0;
    while i < row.len()
        invariant
            i <= row@.len(),
            out@.len() == i,
            forall|k: int| 0 <= k < i ==> (#[trigger] out@[k])@ == row@[k].text@,
        decreases row.len() - i,
    {
        out.push(row[i].text.clone());
        i = i + 1;
    }
    proof {
        assert(types::texts(out@) =~= texts_in_row(row_view(row@)));
    }
    out
}

fn header_qualifies(row: &Vec<GridCell>) -> (r: bool)
    ensures
        r == is_header(row_view(row@)),
{
    let ghost rv = row_view(row@);
    let mut any: bool = false;
    let mut i: usize = 0;
    while i < row.len()
        invariant
            i <= row@.len(),
            rv == row_view(row@),
            any == (exists|c: int| 0 <= c < i && (#[trigger] rv[c]).text.len() > 0),
            forall|c: int| 0 <= c < i && (#[trigger] rv[c]).text.len() > 0 ==> rv[c].bold,
        decreases row.len() - i,
    {
        proof {
            assert(rv[i as int] == row@[i as int]@);
        }
        if !row[i].text.as_str().is_empty() {
            any = true;
            if !row[i].bold {
                return false;
            }
        }
        i = i + 1;
    }
    any
}

/// The table that a grid makes.
pub fn table_from_grid(g: &Vec<Vec<GridCell>>) -> (r: types::Block)
    requires
        g@.len() > 0,
    ensures
        r@ == grid_table(grid_view(g@)),
{
    let ghost gv = grid_view(g@);
    let header: bool = header_qualifies(&g[0]);
    proof {
        assert(gv[0] == row_view(g@[0]@));
    }
    let from: usize = if header {
        1
    } else {
        0
    };
    let mut body: Vec<Vec<String>> = Vec::new();
    let mut i: usize = from;
    while i < g.len()
        invariant
            from <= i <= g@.len(),
            gv == grid_view(g@),
            body@.len() == i - from,
            forall|k: int|
                0 <= k < i - from ==> types::texts((#[trigger] body@[k])@) == texts_in_grid(
                    gv,
                )[from + k],
        decreases g.len() - i,
    {
        proof {
            assert(texts_in_grid(gv)[i as int] == texts_in_row(row_view(g@[i as int]@)));
        }
        body.push(row_texts_of(&g[i]));
        i = i + 1;
    }
    proof {
        assert(types::row_texts(body@) =~= texts_in_grid(gv).skip(from as int));
        if !header {
            assert(texts_in_grid(gv).skip(0) =~= texts_in_grid(gv));
        }
    }
    if header {
        types::Block::Table { header: Some(row_texts_of(&g[0])), rows: body }
    } else {
        types::Block::Table { header: None, rows: body }
    }
}

} // verus!
