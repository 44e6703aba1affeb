//! Cells of tabular lines: cutting a line into cells, mending rows whose cells
//! were merged, and aligning cells with the columns of a table.

use vstd::prelude::*;
use vstd::string::*;
use crate::sort;
use crate::span_text;
use crate::text;
use crate::types;
use crate::types::{ProjectedLine, TextItem};

verus! {

/// Tolerance for matching a cell with a column.
pub const TABLE_TRACK_TOLERANCE: i64 = 6_000;

/// One cell of a tabular row.
#[derive(Clone, Debug)]
pub struct TableCell {
    pub start_x: i64,
    pub end_x: i64,
    pub text: String,
    pub bold: bool,
}

/// The contents of a `TableCell`.
#[verifier::ext_equal]
pub struct CellView {
    pub start_x: int,
    pub end_x: int,
    pub text: Seq<char>,
    pub bold: bool,
}

impl View for TableCell {
    type V = CellView;

    open spec fn view(&self) -> CellView {
        CellView {
            start_x: self.start_x as int,
            end_x: self.end_x as int,
            text: self.text@,
            bold: self.bold,
        }
    }
}

/// The contents of every cell of `v`.
pub open spec fn cell_views(v: Seq<TableCell>) -> Seq<CellView> {
    Seq::new(v.len(), |i: int| v[i]@)
}

/// The texts of the cells.
pub open spec fn cell_texts(v: Seq<CellView>) -> Seq<Seq<char>> {
    Seq::new(v.len(), |i: int| v[i].text)
}

/// How far a coordinate can lie from the origin.
pub open spec fn in_reach(x: int) -> bool {
    -0x2_0000_0000 <= x <= 0x2_0000_0000
}

/// Whether the edges of all cells lie in reach.
pub open spec fn cells_in_reach(v: Seq<CellView>) -> bool {
    forall|i: int| 0 <= i < v.len() ==> in_reach((#[trigger] v[i]).start_x) && in_reach(v[i].end_x)
}

// ---------------------------------------------------------------------------
// Cutting a line into cells
// ---------------------------------------------------------------------------

/// The cells that are complete, and the cell being read.
pub struct CutState {
    pub done: Seq<CellView>,
    pub text: Seq<char>,
    pub start: int,
    pub bold_chars: int,
    pub chars: int,
    pub right: int,
}

/// The cell being read, as a complete cell. It is bold when more than half of
/// its characters are.
pub open spec fn finished_cell(st: CutState) -> CellView {
    CellView {
        start_x: st.start,
        end_x: st.right,
        text: text::collapse_of(text::trim_of(st.text)),
        bold: 2 * st.bold_chars > st.chars,
    }
}

/// The right edge of a run.
pub open spec fn right_of(item: TextItem) -> int {
    item.x + types::max_of(item.width as int, 0)
}

/// Adds a run to the cell being read.
pub open spec fn add_run(st: CutState, item: TextItem) -> CutState {
    CutState {
        text: span_text::spaced(st.text) + item.text@,
        bold_chars: st.bold_chars + if item.bold {
            item.text@.len() as int
        } else {
            0
        },
        chars: st.chars + item.text@.len(),
        right: right_of(item),
        ..st
    }
}

/// The first `n` runs at the positions `at` cut into cells; a gap wider than
/// `gap` begins a new cell.
pub open spec fn cut_upto(spans: Seq<TextItem>, at: Seq<int>, gap: int, n: int) -> CutState
    decreases n,
{
    if n <= 0 {
        CutState {
            done: seq![],
            text: seq![],
            start: spans[at[0]].x as int,
            bold_chars: 0,
            chars: 0,
            right: spans[at[0]].x as int,
        }
    } else {
        let st = cut_upto(spans, at, gap, n - 1);
        let item = spans[at[n - 1]];
        if n > 1 && item.x - st.right > gap {
            add_run(
                CutState {
                    done: st.done.push(finished_cell(st)),
                    text: seq![],
                    start: item.x as int,
                    bold_chars: 0,
                    chars: 0,
                    right: st.right,
                },
                item,
            )
        } else {
            add_run(st, item)
        }
    }
}

/// The font size of a line, or its height when the size is unknown.
pub open spec fn size_of(line: ProjectedLine) -> int {
    if line.dominant_font_size > 0 {
        line.dominant_font_size as int
    } else {
        types::max_of(line.bbox.height as int, types::PT as int)
    }
}

/// The cells of a line: its visible runs from left to right, cut wherever the
/// gap between two of them is wider than the font size.
pub open spec fn cells_of(line: ProjectedLine) -> Seq<CellView> {
    let at = span_text::left_to_right(line.spans@);
    if at.len() == 0 {
        seq![]
    } else {
        let st = cut_upto(line.spans@, at, size_of(line), at.len() as int);
        if text::is_blank(st.text) {
            st.done
        } else {
            st.done.push(finished_cell(st))
        }
    }
}

/// The font size of a line, or its height when the size is unknown.
pub fn line_size(line: &ProjectedLine) -> (r: i64)
    ensures
        r == size_of(*line),
        0 < r <= 0x7fff_ffff,
{
    if line.dominant_font_size > 0 {
        line.dominant_font_size as i64
    } else {
        types::max64(line.bbox.height as i64, types::PT)
    }
}

/// The right edge of a run.
pub fn run_right(item: &TextItem) -> (r: i64)
    ensures
        r == right_of(*item),
        in_reach(r as int),
{
    item.x as i64 + types::max64(item.width as i64, 0)
}

fn finish(
    start: i64,
    right: i64,
    cell_text: &String,
    bold_chars: u128,
    chars: u128,
) -> (r: TableCell)
    requires
        bold_chars <= chars,
    ensures
        r@ == (CellView {
            start_x: start as int,
            end_x: right as int,
            text: text::collapse_of(text::trim_of(cell_text@)),
            bold: 2 * bold_chars > chars,
        }),
{
    TableCell {
        start_x: start,
        end_x: right,
        text: text::collapse_whitespace(text::trim(cell_text.as_str())),
        bold: bold_chars > chars - bold_chars,
    }
}

/// Cut a line into cells.
pub fn split_cells(line: &ProjectedLine) -> (r: Vec<TableCell>)
    ensures
        cell_views(r@) == cells_of(*line),
        cells_in_reach(cell_views(r@)),
        r@.len() <= line.spans@.len(),
{
    let spans: &Vec<TextItem> = &line.spans;
    let at: Vec<usize> = span_text::spans_left_to_right(spans);
    let mut cells: Vec<TableCell> = Vec::new();
    if at.len() == 0 {
        proof {
            assert(cell_views(cells@) =~= cells_of(*line));
        }
        return cells;
    }
    let gap: i64 = line_size(line);
    let ghost pos = span_text::left_to_right(spans@);
    let mut current: String = String::new();
    let mut start: i64 = spans[at[0]].x as i64;
    let mut bold_chars: u128 = 0;
    let mut chars: u128 = 0;
    let mut right: i64 = start;
    let mut i: usize = 0;
    proof {
        assert(sort::indices(at@)[0] == pos[0]);
        assert(cell_views(cells@) =~= seq![]);
    }
    while i < at.len()
        invariant
            i <= at@.len() <= usize::MAX,
            spans@ == line.spans@,
            gap == size_of(*line),
            0 < gap <= 0x7fff_ffff,
            pos == span_text::left_to_right(spans@),
            sort::indices(at@) == pos,
            forall|k: int| 0 <= k < at@.len() ==> #[trigger] at@[k] < spans@.len(),
            ({
                let st = cut_upto(spans@, pos, gap as int, i as int);
                &&& cell_views(cells@) == st.done
                &&& current@ == st.text
                &&& start == st.start
                &&& right == st.right
                &&& bold_chars == st.bold_chars
                &&& chars == st.chars
            }),
            in_reach(start as int),
            in_reach(right as int),
            cells_in_reach(cell_views(cells@)),
            cells@.len() < i || (i == 0 && cells@.len() == 0),
            bold_chars <= chars <= i * 0xffff_ffff_ffff_ffff,
        decreases at.len() - i,
    {
        proof {
            assert(sort::indices(at@)[i as int] == pos[i as int]);
        }
        let span = &spans[at[i]];
        let x: i64 = span.x as i64;
        if i > 0 && x - right > gap {
            let cell: TableCell = finish(start, right, &current, bold_chars, chars);
            proof {
                assert(cell_views(cells@.push(cell)) =~= cell_views(cells@).push(cell@));
            }
            cells.push(cell);
            current = String::new();
            start = x;
            bold_chars = 0;
            chars = 0;
        }
        span_text::push_space(&mut current);
        current.append(span.text.as_str());
        let n: usize = span.text.as_str().unicode_len();
        chars = chars + n as u128;
        if span_text::is_bold_span(span) {
            bold_chars = bold_chars + n as u128;
        }
        right = run_right(span);
        i = i + 1;
    }
    proof {
        span_text::lemma_left_to_right(spans@);
    }
    if !text::blank(current.as_str()) {
        let cell: TableCell = finish(start, right, &current, bold_chars, chars);
        proof {
            assert(cell_views(cells@.push(cell)) =~= cell_views(cells@).push(cell@));
        }
        cells.push(cell);
    }
    cells
}

// ---------------------------------------------------------------------------
// Mending rows whose cells were merged
// ---------------------------------------------------------------------------

/// The first `n` columns that fall within the horizontal extent of a cell.
pub open spec fn covered_upto(cell: CellView, tracks: Seq<int>, n: int) -> Seq<int>
    decreases n,
{
    if n <= 0 {
        seq![]
    } else {
        let head = covered_upto(cell, tracks, n - 1);
        let t = tracks[n - 1];
        if cell.start_x - TABLE_TRACK_TOLERANCE <= t <= cell.end_x + TABLE_TRACK_TOLERANCE {
            head.push(t)
        } else {
            head
        }
    }
}

/// The columns that fall within the horizontal extent of a cell.
pub open spec fn covered(cell: CellView, tracks: Seq<int>) -> Seq<int> {
    covered_upto(cell, tracks, tracks.len() as int)
}

/// Among the first `n` cells, the first of those that cover the most columns,
/// if any covers two or more.
pub open spec fn widest_upto(cells: Seq<CellView>, tracks: Seq<int>, n: int) -> Option<int>
    decreases n,
{
    if n <= 0 {
        None
    } else {
        let best = widest_upto(cells, tracks, n - 1);
        let count = covered(cells[n - 1], tracks).len();
        let beaten = match best {
            Some(i) => covered(cells[i], tracks).len(),
            None => 1nat,
        };
        if count > beaten {
            Some(n - 1)
        } else {
            best
        }
    }
}

/// How far the `k`-th of `n` characters, spread evenly over `width` from
/// `start` on, lies from `t`, scaled by `n`.
pub open spec fn spread_distance(n: int, k: int, start: int, width: int, t: int) -> int {
    types::dist(n * start + k * width, n * t)
}

/// Among the first `m` characters, the white space nearest to `t` that is not
/// used yet; the first one when several are equally near.
pub open spec fn nearest_upto(
    cs: Seq<char>,
    used: Seq<int>,
    start: int,
    width: int,
    t: int,
    m: int,
) -> Option<int>
    decreases m,
{
    if m <= 0 {
        None
    } else {
        let best = nearest_upto(cs, used, start, width, t, m - 1);
        let k = m - 1;
        if !text::is_ws(cs[k]) || used.contains(k) {
            best
        } else {
            match best {
                Some(b) => if spread_distance(cs.len() as int, k, start, width, t)
                    < spread_distance(cs.len() as int, b, start, width, t) {
                    Some(k)
                } else {
                    best
                },
                None => Some(k),
            }
        }
    }
}

/// Places to break `cs` in front of the columns `targets[1..m]`: for each in
/// turn the nearest white space not used before.
pub open spec fn breaks_upto(
    cs: Seq<char>,
    targets: Seq<int>,
    start: int,
    width: int,
    m: int,
) -> Option<Seq<int>>
    decreases m,
{
    if m <= 1 {
        Some(seq![])
    } else {
        match breaks_upto(cs, targets, start, width, m - 1) {
            None => None,
            Some(used) => match nearest_upto(
                cs,
                used,
                start,
                width,
                targets[m - 1],
                cs.len() as int,
            ) {
                None => None,
                Some(k) => Some(used.push(k)),
            },
        }
    }
}

/// The trimmed pieces of `cs` between the breaks.
pub open spec fn pieces_at(cs: Seq<char>, breaks: Seq<int>) -> Seq<Seq<char>> {
    Seq::new(
        breaks.len() + 1,
        |i: int|
            text::trim_of(
                cs.subrange(
                    if i == 0 {
                        0
                    } else {
                        breaks[i - 1]
                    },
                    if i == breaks.len() {
                        cs.len() as int
                    } else {
                        breaks[i]
                    },
                ),
            ),
    )
}

/// `cs` cut into one trimmed piece per target column, when there is enough
/// white space to cut at.
pub open spec fn pieces_for(
    cs: Seq<char>,
    targets: Seq<int>,
    start: int,
    width: int,
) -> Option<Seq<Seq<char>>> {
    match breaks_upto(cs, targets, start, width, targets.len() as int) {
        None => None,
        Some(breaks) => Some(pieces_at(cs, sort::sorted(breaks))),
    }
}

/// Cells with the given pieces, each starting at its column. The first keeps
/// the left edge of the cell they replace and the last its right edge.
pub open spec fn cells_for_pieces(
    cell: CellView,
    targets: Seq<int>,
    pieces: Seq<Seq<char>>,
) -> Seq<CellView> {
    Seq::new(
        pieces.len(),
        |p: int|
            {
                let start = if p == 0 {
                    cell.start_x
                } else {
                    targets[p]
                };
                CellView {
                    start_x: start,
                    end_x: if p + 1 < targets.len() {
                        types::max_of(targets[p + 1] - types::PT, start)
                    } else {
                        cell.end_x
                    },
                    text: pieces[p],
                    bold: cell.bold,
                }
            },
    )
}

/// The row with its widest cell split at the columns it covers.
pub open spec fn split_widest(cells: Seq<CellView>, tracks: Seq<int>) -> Option<Seq<CellView>> {
    match widest_upto(cells, tracks, cells.len() as int) {
        None => None,
        Some(i) => {
            let cell = cells[i];
            let targets = covered(cell, tracks);
            let cs = text::trim_of(cell.text);
            let width = types::max_of(cell.end_x - cell.start_x, types::PT as int);
            match pieces_for(cs, targets, cell.start_x, width) {
                None => None,
                Some(pieces) => if exists|p: int|
                    0 <= p < pieces.len() && (#[trigger] pieces[p]).len() == 0 {
                    None
                } else {
                    Some(
                        cells.take(i) + cells_for_pieces(cell, targets, pieces) + cells.skip(i + 1),
                    )
                },
            }
        },
    }
}

pub proof fn lemma_covered(cell: CellView, tracks: Seq<int>, n: int)
    requires
        0 <= n <= tracks.len(),
    ensures
        covered_upto(cell, tracks, n).len() <= n,
        forall|i: int|
            0 <= i < covered_upto(cell, tracks, n).len() ==> tracks.contains(
                #[trigger] covered_upto(cell, tracks, n)[i],
            ),
    decreases n,
{
    if n > 0 {
        lemma_covered(cell, tracks, n - 1);
        assert(tracks[n - 1] == tracks[n - 1]);
    }
}

pub proof fn lemma_widest(cells: Seq<CellView>, tracks: Seq<int>, n: int)
    requires
        0 <= n <= cells.len(),
    ensures
        match widest_upto(cells, tracks, n) {
            Some(i) => 0 <= i < n && covered(cells[i], tracks).len() >= 2,
            None => true,
        },
    decreases n,
{
    if n > 0 {
        lemma_widest(cells, tracks, n - 1);
    }
}

pub proof fn lemma_nearest(
    cs: Seq<char>,
    used: Seq<int>,
    start: int,
    width: int,
    t: int,
    m: int,
)
    requires
        0 <= m <= cs.len(),
    ensures
        match nearest_upto(cs, used, start, width, t, m) {
            Some(k) => 0 <= k < m && text::is_ws(cs[k]) && !used.contains(k),
            None => true,
        },
    decreases m,
{
    if m > 0 {
        lemma_nearest(cs, used, start, width, t, m - 1);
    }
}

pub proof fn lemma_breaks(cs: Seq<char>, targets: Seq<int>, start: int, width: int, m: int)
    requires
        1 <= m <= targets.len(),
    ensures
        match breaks_upto(cs, targets, start, width, m) {
            Some(b) => b.len() == m - 1 && forall|i: int|
                0 <= i < b.len() ==> 0 <= #[trigger] b[i] < cs.len(),
            None => true,
        },
    decreases m,
{
    if m > 1 {
        lemma_breaks(cs, targets, start, width, m - 1);
        match breaks_upto(cs, targets, start, width, m - 1) {
            Some(used) => {
                lemma_nearest(cs, used, start, width, targets[m - 1], cs.len() as int);
            },
            None => {},
        }
    }
}

/// Splitting the widest cell makes the row longer.
pub proof fn lemma_split_widest_grows(cells: Seq<CellView>, tracks: Seq<int>)
    ensures
        match split_widest(cells, tracks) {
            Some(next) => next.len() > cells.len(),
            None => true,
        },
{
    lemma_widest(cells, tracks, cells.len() as int);
    match widest_upto(cells, tracks, cells.len() as int) {
        Some(i) => {
            let cell = cells[i];
            let targets = covered(cell, tracks);
            let cs = text::trim_of(cell.text);
            let width = types::max_of(cell.end_x - cell.start_x, types::PT as int);
            lemma_breaks(cs, targets, cell.start_x, width, targets.len() as int);
            match breaks_upto(cs, targets, cell.start_x, width, targets.len() as int) {
                Some(breaks) => {
                    sort::law_stable_order(breaks);
                },
                None => {},
            }
        },
        None => {},
    }
}

/// The row with its widest cells split one after the other until it has one
/// cell per column, when that comes out even.
pub open spec fn mended_from(cells: Seq<CellView>, tracks: Seq<int>) -> Option<Seq<CellView>>
    decreases
            (if cells.len() < tracks.len() {
                tracks.len() - cells.len()
            } else {
                0
            }),
{
    if cells.len() >= tracks.len() {
        if cells.len() == tracks.len() {
            Some(cells)
        } else {
            None
        }
    } else {
        proof {
            lemma_split_widest_grows(cells, tracks);
        }
        match split_widest(cells, tracks) {
            None => None,
            Some(next) => mended_from(next, tracks),
        }
    }
}

/// A row with fewer cells than there are columns, mended by splitting cells
/// that span several columns. A row that is long enough is not mended.
pub open spec fn mended(cells: Seq<CellView>, tracks: Seq<int>) -> Option<Seq<CellView>> {
    if cells.len() >= tracks.len() {
        None
    } else {
        mended_from(cells, tracks)
    }
}

/// The scaled distance of a character from a column.
fn spread(n: usize, k: usize, start: i64, width: i64, t: i64) -> (r: i128)
    requires
        k <= n,
        in_reach(start as int),
        in_reach(t as int),
        0 <= width <= 0x4_0000_0000,
    ensures
        r == spread_distance(n as int, k as int, start as int, width as int, t as int),
        0 <= r,
{
    let nn: i128 = n as i128;
    let kk: i128 = k as i128;
    proof {
        assert(-0x8_0000_0000 * 0x1_0000_0000_0000_0000 <= n * start <= 0x8_0000_0000
            * 0x1_0000_0000_0000_0000) by (nonlinear_arith)
            requires
                0 <= n <= 0x1_0000_0000_0000_0000,
                -0x2_0000_0000 <= start <= 0x2_0000_0000,
        ;
        assert(-0x8_0000_0000 * 0x1_0000_0000_0000_0000 <= n * t <= 0x8_0000_0000
            * 0x1_0000_0000_0000_0000) by (nonlinear_arith)
            requires
                0 <= n <= 0x1_0000_0000_0000_0000,
                -0x2_0000_0000 <= t <= 0x2_0000_0000,
        ;
        assert(0 <= k * width <= 0x8_0000_0000 * 0x1_0000_0000_0000_0000) by (nonlinear_arith)
            requires
                0 <= k <= 0x1_0000_0000_0000_0000,
                0 <= width <= 0x4_0000_0000,
        ;
    }
    let a: i128 = nn * (start as i128) + kk * (width as i128);
    let b: i128 = nn * (t as i128);
    if a >= b {
        a - b
    } else {
        b - a
    }
}

/// The columns that fall within the horizontal extent of a cell.
fn covered_tracks(cell: &TableCell, tracks: &Vec<i64>) -> (r: Vec<i64>)
    requires
        in_reach(cell.start_x as int),
        in_reach(cell.end_x as int),
    ensures
        sort::ints(r@) == covered(cell@, sort::ints(tracks@)),
        r@.len() <= tracks@.len(),
        forall|i: int| 0 <= i < r@.len() ==> tracks@.contains(#[trigger] r@[i]),
{
    let mut out: Vec<i64> = Vec::new();
    let mut i: usize = 0;
    proof {
        assert(sort::ints(out@) =~= seq![]);
    }
    while i < tracks.len()
        invariant
            i <= tracks@.len(),
            in_reach(cell.start_x as int),
            in_reach(cell.end_x as int),
            sort::ints(out@) == covered_upto(cell@, sort::ints(tracks@), i as int),
            out@.len() <= i,
            forall|k: int| 0 <= k < out@.len() ==> tracks@.contains(#[trigger] out@[k]),
        decreases tracks.len() - i,
    {
        let t: i64 = tracks[i];
        if cell.start_x - TABLE_TRACK_TOLERANCE <= t && t <= cell.end_x + TABLE_TRACK_TOLERANCE {
            proof {
                assert(sort::ints(out@.push(t)) =~= sort::ints(out@).push(t as int));
            }
            out.push(t);
        }
        i = i + 1;
    }
    out
}

fn contains_index(v: &Vec<usize>, k: usize) -> (r: bool)
    ensures
        r == sort::indices(v@).contains(k as int),
{
    let mut i: usize = 0;
    while i < v.len()
        invariant
            i <= v@.len(),
            forall|j: int| 0 <= j < i ==> v@[j] != k,
        decreases v.len() - i,
    {
        if v[i] == k {
            proof {
                assert(sort::indices(v@)[i as int] == k);
            }
            return true;
        }
        i = i + 1;
    }
    proof {
        assert(!sort::indices(v@).contains(k as int));
    }
    false
}

fn nearest_break(
    cs: &Vec<char>,
    used: &Vec<usize>,
    start: i64,
    width: i64,
    t: i64,
) -> (r: Option<usize>)
    requires
        in_reach(start as int),
        in_reach(t as int),
        0 <= width <= 0x4_0000_0000,
    ensures
        match r {
            Some(k) => k < cs@.len() && nearest_upto(
                cs@,
                sort::indices(used@),
                start as int,
                width as int,
                t as int,
                cs@.len() as int,
            ) == Some(k as int),
            None => nearest_upto(
                cs@,
                sort::indices(used@),
                start as int,
                width as int,
                t as int,
                cs@.len() as int,
            ) is None,
        },
{
    let n: usize = cs.len();
    let mut best: Option<usize> = None;
    let mut best_distance: i128 = 0;
    let mut k: usize = 0;
    while k < n
        invariant
            k <= n == cs@.len(),
            in_reach(start as int),
            in_reach(t as int),
            0 <= width <= 0x4_0000_0000,
            match best {
                Some(b) => b < k && nearest_upto(
                    cs@,
                    sort::indices(used@),
                    start as int,
                    width as int,
                    t as int,
                    k as int,
                ) == Some(b as int) && best_distance == spread_distance(
                    n as int,
                    b as int,
                    start as int,
                    width as int,
                    t as int,
                ),
                None => nearest_upto(
                    cs@,
                    sort::indices(used@),
                    start as int,
                    width as int,
                    t as int,
                    k as int,
                ) is None,
            },
        decreases n - k,
    {
        if text::is_whitespace(cs[k]) && !contains_index(used, k) {
            let d: i128 = spread(n, k, start, width, t);
            if best.is_none() || d < best_distance {
                best = Some(k);
                best_distance = d;
            }
        }
        k = k + 1;
    }
    best
}

/// `cs` cut into one trimmed piece per target column.
pub fn cut_for_tracks(
    cs: &Vec<char>,
    targets: &Vec<i64>,
    start: i64,
    width: i64,
) -> (r: Option<Vec<String>>)
    requires
        targets@.len() >= 1,
        in_reach(start as int),
        forall|i: int| 0 <= i < targets@.len() ==> in_reach(#[trigger] targets@[i] as int),
        0 <= width <= 0x4_0000_0000,
    ensures
        match r {
            Some(p) => p@.len() == targets@.len() && pieces_for(
                cs@,
                sort::ints(targets@),
                start as int,
                width as int,
            ) == Some(types::texts(p@)),
            None => pieces_for(cs@, sort::ints(targets@), start as int, width as int) is None,
        },
{
    let ghost ts = sort::ints(targets@);
    let mut used: Vec<usize> = Vec::new();
    let mut m: usize = 1;
    proof {
        assert(sort::indices(used@) =~= seq![]);
    }
    while m < targets.len()
        invariant
            1 <= m <= targets@.len(),
            ts == sort::ints(targets@),
            in_reach(start as int),
            forall|i: int| 0 <= i < targets@.len() ==> in_reach(#[trigger] targets@[i] as int),
            0 <= width <= 0x4_0000_0000,
            used@.len() == m - 1,
            forall|i: int| 0 <= i < used@.len() ==> #[trigger] used@[i] < cs@.len(),
            breaks_upto(cs@, ts, start as int, width as int, m as int) == Some(
                sort::indices(used@),
            ),
        decreases targets.len() - m,
    {
        match nearest_break(cs, &used, start, width, targets[m]) {
            Some(k) => {
                proof {
                    assert(sort::indices(used@.push(k)) =~= sort::indices(used@).push(k as int));
                }
                used.push(k);
            },
            None => {
                proof {
                    lemma_breaks_stop(cs@, ts, start as int, width as int, m + 1, ts.len() as int);
                }
                return None;
            },
        }
        m = m + 1;
    }
    let breaks: Vec<usize> = sort::sort_indices(&used);
    proof {
        assert forall|i: int| 0 <= i < breaks@.len() implies #[trigger] breaks@[i] < cs@.len() by {
            assert(used@.contains(breaks@[i]));
        }
    }
    let ghost bs = sort::indices(breaks@);
    let mut pieces: Vec<String> = Vec::new();
    let mut prev: usize = 0;
    let mut i: usize = 0;
    while i < breaks.len()
        invariant
            i <= breaks@.len(),
            bs == sort::indices(breaks@),
            pieces@.len() == i,
            prev == (if i == 0 {
                0int
            } else {
                bs[i - 1]
            }),
            prev <= cs@.len(),
            forall|a: int, b: int| 0 <= a <= b < breaks@.len() ==> breaks@[a] <= breaks@[b],
            forall|k: int| 0 <= k < breaks@.len() ==> #[trigger] breaks@[k] < cs@.len(),
            forall|k: int|
                0 <= k < i ==> (#[trigger] pieces@[k])@ == pieces_at(cs@, bs)[k],
        decreases breaks.len() - i,
    {
        let k: usize = breaks[i];
        proof {
            assert(bs[i as int] == k);
            assert(i == 0 || breaks@[i - 1] <= breaks@[i as int]);
        }
        let piece: String = text::string_from(cs, prev, k);
        pieces.push(text::to_string(text::trim(piece.as_str())));
        prev = k;
        i = i + 1;
    }
    let last: String = text::string_from(cs, prev, cs.len());
    pieces.push(text::to_string(text::trim(last.as_str())));
    proof {
        assert(types::texts(pieces@) =~= pieces_at(cs@, bs));
    }
    Some(pieces)
}

proof fn lemma_breaks_stop(
    cs: Seq<char>,
    targets: Seq<int>,
    start: int,
    width: int,
    m: int,
    n: int,
)
    requires
        1 <= m <= n,
        breaks_upto(cs, targets, start, width, m) is None,
    ensures
        breaks_upto(cs, targets, start, width, n) is None,
    decreases n - m,
{
    if m < n {
        lemma_breaks_stop(cs, targets, start, width, m, n - 1);
    }
}

/// A copy of a cell.
pub fn clone_cell(c: &TableCell) -> (r: TableCell)
    ensures
        r@ == c@,
{
    TableCell { start_x: c.start_x, end_x: c.end_x, text: c.text.clone(), bold: c.bold }
}

/// A copy of a list of cells.
pub fn clone_cells(v: &Vec<TableCell>) -> (r: Vec<TableCell>)
    ensures
        cell_views(r@) == cell_views(v@),
        r@.len() == v@.len(),
{
    let mut out: Vec<TableCell> = Vec::new();
    let mut i: usize = 0;
    while i < v.len()
        invariant
            i <= v@.len(),
            out@.len() == i,
            forall|k: int| 0 <= k < i ==> (#[trigger] out@[k])@ == v@[k]@,
        decreases v.len() - i,
    {
        out.push(clone_cell(&v[i]));
        i = i + 1;
    }
    proof {
        assert(cell_views(out@) =~= cell_views(v@));
    }
    out
}

/// Appends copies of `src[from..to]` to `dst`.
fn append_cells(dst: &mut Vec<TableCell>, src: &Vec<TableCell>, from: usize, to: usize)
    requires
        from <= to <= src@.len(),
    ensures
        cell_views(final(dst)@) == cell_views(old(dst)@) + cell_views(src@).subrange(
            from as int,
            to as int,
        ),
{
    let ghost before = cell_views(dst@);
    let mut i: usize = from;
    proof {
        assert(before + cell_views(src@).subrange(from as int, from as int) =~= before);
    }
    while i < to
        invariant
            from <= i <= to <= src@.len(),
            cell_views(dst@) == before + cell_views(src@).subrange(from as int, i as int),
        decreases to - i,
    {
        let c: TableCell = clone_cell(&src[i]);
        proof {
            assert(cell_views(dst@.push(c)) =~= cell_views(dst@).push(c@));
            assert((before + cell_views(src@).subrange(from as int, i as int)).push(c@) =~= before
                + cell_views(src@).subrange(from as int, i + 1));
        }
        dst.push(c);
        i = i + 1;
    }
}

/// Appends to `dst` one cell per piece, each starting at its column.
fn append_pieces(
    dst: &mut Vec<TableCell>,
    cell: &TableCell,
    targets: &Vec<i64>,
    pieces: &Vec<String>,
)
    requires
        targets@.len() == pieces@.len(),
        in_reach(cell.start_x as int),
        in_reach(cell.end_x as int),
        forall|i: int| 0 <= i < targets@.len() ==> in_reach(#[trigger] targets@[i] as int),
        cells_in_reach(cell_views(old(dst)@)),
    ensures
        cell_views(final(dst)@) == cell_views(old(dst)@) + cells_for_pieces(
            cell@,
            sort::ints(targets@),
            types::texts(pieces@),
        ),
        cells_in_reach(cell_views(final(dst)@)),
{
    let ghost before = cell_views(dst@);
    let ghost all = cells_for_pieces(cell@, sort::ints(targets@), types::texts(pieces@));
    let mut p: usize = 0;
    proof {
        assert(before + all.take(0) =~= before);
    }
    while p < pieces.len()
        invariant
            p <= pieces@.len() == targets@.len() == all.len(),
            all == cells_for_pieces(cell@, sort::ints(targets@), types::texts(pieces@)),
            in_reach(cell.start_x as int),
            in_reach(cell.end_x as int),
            forall|i: int| 0 <= i < targets@.len() ==> in_reach(#[trigger] targets@[i] as int),
            cell_views(dst@) == before + all.take(p as int),
            cells_in_reach(cell_views(dst@)),
        decreases pieces.len() - p,
    {
        let start: i64 = if p == 0 {
            cell.start_x
        } else {
            targets[p]
        };
        let end: i64 = if targets.len() - p > 1 {
            types::max64(targets[p + 1] - types::PT, start)
        } else {
            cell.end_x
        };
        let c = TableCell { start_x: start, end_x: end, text: pieces[p].clone(), bold: cell.bold };
        proof {
            assert(c@ == all[p as int]);
            assert(cell_views(dst@.push(c)) =~= cell_views(dst@).push(c@));
            assert((before + all.take(p as int)).push(c@) =~= before + all.take(p + 1));
        }
        dst.push(c);
        p = p + 1;
    }
    proof {
        assert(all.take(p as int) =~= all);
    }
}

/// The first of the cells that cover the most columns, if any covers two or
/// more.
fn widest_cell(cells: &Vec<TableCell>, tracks: &Vec<i64>) -> (r: Option<usize>)
    requires
        cells_in_reach(cell_views(cells@)),
    ensures
        match r {
            Some(i) => i < cells@.len() && widest_upto(
                cell_views(cells@),
                sort::ints(tracks@),
                cells@.len() as int,
            ) == Some(i as int),
            None => widest_upto(
                cell_views(cells@),
                sort::ints(tracks@),
                cells@.len() as int,
            ) is None,
        },
{
    let ghost cv = cell_views(cells@);
    let ghost ts = sort::ints(tracks@);
    let mut best: Option<usize> = None;
    let mut best_count: usize = 1;
    let mut i: usize = 0;
    while i < cells.len()
        invariant
            i <= cells@.len(),
            cv == cell_views(cells@),
            ts == sort::ints(tracks@),
            cells_in_reach(cv),
            match best {
                Some(b) => b < i && widest_upto(cv, ts, i as int) == Some(b as int) && best_count
                    == covered(cv[b as int], ts).len(),
                None => widest_upto(cv, ts, i as int) is None && best_count == 1,
            },
        decreases cells.len() - i,
    {
        proof {
            assert(cv[i as int] == cells@[i as int]@);
        }
        let cov: Vec<i64> = covered_tracks(&cells[i], tracks);
        if cov.len() > best_count {
            best_count = cov.len();
            best = Some(i);
        }
        i = i + 1;
    }
    best
}

/// The row with its widest cell split at the columns it covers.
fn split_widest_cell(cells: &Vec<TableCell>, tracks: &Vec<i64>) -> (r: Option<Vec<TableCell>>)
    requires
        cells_in_reach(cell_views(cells@)),
        forall|i: int| 0 <= i < tracks@.len() ==> in_reach(#[trigger] tracks@[i] as int),
    ensures
        match r {
            Some(c) => split_widest(cell_views(cells@), sort::ints(tracks@)) == Some(
                cell_views(c@),
            ) && cells_in_reach(cell_views(c@)) && c@.len() > cells@.len(),
            None => split_widest(cell_views(cells@), sort::ints(tracks@)) is None,
        },
{
    let ghost cv = cell_views(cells@);
    let ghost ts = sort::ints(tracks@);
    match widest_cell(cells, tracks) {
        None => None,
        Some(i) => {
            let cell = &cells[i];
            proof {
                lemma_widest(cv, ts, cv.len() as int);
                assert(cv[i as int] == cell@);
            }
            let targets: Vec<i64> = covered_tracks(cell, tracks);
            proof {
                assert forall|k: int| 0 <= k < targets@.len() implies in_reach(
                    #[trigger] targets@[k] as int,
                ) by {
                    assert(tracks@.contains(targets@[k]));
                }
            }
            let cs: Vec<char> = text::chars_of(text::trim(cell.text.as_str()));
            let width: i64 = types::max64(cell.end_x - cell.start_x, types::PT);
            match cut_for_tracks(&cs, &targets, cell.start_x, width) {
                None => None,
                Some(pieces) => {
                    let ghost pt = types::texts(pieces@);
                    let mut p: usize = 0;
                    while p < pieces.len()
                        invariant
                            p <= pieces@.len(),
                            i < cells.len(),
                            cv == cell_views(cells@),
                            ts == sort::ints(tracks@),
                            pt == types::texts(pieces@),
                            forall|k: int| 0 <= k < p ==> (#[trigger] pt[k]).len() > 0,
                            split_widest(cv, ts) == (if exists|k: int|
                                0 <= k < pt.len() && (#[trigger] pt[k]).len() == 0 {
                                None
                            } else {
                                Some(
                                    cv.take(i as int) + cells_for_pieces(
                                        cv[i as int],
                                        sort::ints(targets@),
                                        pt,
                                    ) + cv.skip(i + 1),
                                )
                            }),
                        decreases pieces.len() - p,
                    {
                        proof {
                            assert(pt[p as int] == pieces@[p as int]@);
                        }
                        if pieces[p].as_str().is_empty() {
                            return None;
                        }
                        p = p + 1;
                    }
                    let mut out: Vec<TableCell> = Vec::new();
                    append_cells(&mut out, cells, 0, i);
                    append_pieces(&mut out, cell, &targets, &pieces);
                    append_cells(&mut out, cells, i + 1, cells.len());
                    proof {
                        assert(cell_views(out@) =~= cv.take(i as int) + cells_for_pieces(
                            cv[i as int],
                            sort::ints(targets@),
                            pt,
                        ) + cv.skip(i + 1));
                        lemma_split_widest_grows(cv, ts);
                    }
                    Some(out)
                },
            }
        },
    }
}

/// Mend a row with fewer cells than there are columns by splitting cells that
/// span several columns at the white space nearest to those columns.
pub fn recover_merged_cell(cells: Vec<TableCell>, tracks: &Vec<i64>) -> (r: Option<Vec<TableCell>>)
    requires
        cells_in_reach(cell_views(cells@)),
        forall|i: int| 0 <= i < tracks@.len() ==> in_reach(#[trigger] tracks@[i] as int),
    ensures
        match r {
            Some(c) => mended(cell_views(cells@), sort::ints(tracks@)) == Some(cell_views(c@))
                && cells_in_reach(cell_views(c@)) && c@.len() == tracks@.len(),
            None => mended(cell_views(cells@), sort::ints(tracks@)) is None,
        },
{
    let ghost ts = sort::ints(tracks@);
    let ghost first = cell_views(cells@);
    if cells.len() >= tracks.len() {
        return None;
    }
    let mut row: Vec<TableCell> = cells;
    while row.len() < tracks.len()
        invariant
            ts == sort::ints(tracks@),
            cells_in_reach(cell_views(row@)),
            forall|i: int| 0 <= i < tracks@.len() ==> in_reach(#[trigger] tracks@[i] as int),
            mended(first, ts) == mended_from(cell_views(row@), ts),
            mended(first, ts) == mended(cell_views(cells@), ts),
        decreases
                (if row@.len() < tracks@.len() {
                    tracks@.len() - row@.len()
                } else {
                    0
                }),
    {
        match split_widest_cell(&row, tracks) {
            None => {
                return None;
            },
            Some(next) => {
                row = next;
            },
        }
    }
    if row.len() == tracks.len() {
        Some(row)
    } else {
        None
    }
}

} // verus!
