//! Columns of a table by their horizontal extent, and the cells that belong to
//! them.

use vstd::prelude::*;
use vstd::string::*;
use crate::cells;
use crate::cells::{CellView, TableCell};
use crate::rows;
use crate::types;
use crate::types::ProjectedLine;

verus! {

/// The horizontal extent of a column.
#[derive(Clone, Copy, Debug, PartialEq, Eq, Structural)]
pub struct Track {
    pub start: i64,
    pub end: i64,
}

/// Whether the edges of every column are in reach of the arithmetic.
pub open spec fn tracks_in_reach(v: Seq<Track>) -> bool {
    forall|i: int|
        0 <= i < v.len() ==> cells::in_reach((#[trigger] v[i]).start as int) && cells::in_reach(
            v[i].end as int,
        )
}

/// The ways in which a cell can belong to a column, in the order of preference.
#[derive(Clone, Copy, Debug, PartialEq, Eq, Structural)]
pub enum Fit {
    /// The middle of the cell lies within the column.
    Centre,
    /// The left edges agree.
    Start,
    /// The right edges agree.
    End,
}

/// Whether a cell belongs to a column in the given way.
pub open spec fn fits(cell: CellView, t: Track, fit: Fit) -> bool {
    let tol = cells::TABLE_TRACK_TOLERANCE;
    match fit {
        Fit::Centre => 2 * (t.start - tol) <= cell.start_x + cell.end_x <= 2 * (t.end + tol),
        Fit::Start => types::dist(cell.start_x, t.start as int) <= tol,
        Fit::End => types::dist(cell.end_x, t.end as int) <= tol,
    }
}

/// How far a cell is from a column in the given way.
pub open spec fn misfit(cell: CellView, t: Track, fit: Fit) -> int {
    match fit {
        Fit::Centre => types::dist(cell.start_x + cell.end_x, t.start + t.end),
        Fit::Start => types::dist(cell.start_x, t.start as int),
        Fit::End => types::dist(cell.end_x, t.end as int),
    }
}

/// Whether a cell belongs to a column in any way.
pub open spec fn aligned(cell: CellView, t: Track) -> bool {
    fits(cell, t, Fit::Centre) || fits(cell, t, Fit::Start) || fits(cell, t, Fit::End)
}

/// The nearest of the first `n` columns that a cell belongs to in the given way,
/// the first one of equally near ones.
pub open spec fn best_upto(cell: CellView, v: Seq<Track>, fit: Fit, n: int) -> Option<int>
    decreases n,
{
    if n <= 0 {
        None
    } else {
        let best = best_upto(cell, v, fit, n - 1);
        if !fits(cell, v[n - 1], fit) {
            best
        } else {
            match best {
                Some(k) => if misfit(cell, v[n - 1], fit) < misfit(cell, v[k], fit) {
                    Some(n - 1)
                } else {
                    best
                },
                None => Some(n - 1),
            }
        }
    }
}

/// The column that a cell belongs to: by its middle, else by its left edge, else
/// by its right edge.
pub open spec fn track_of(cell: CellView, v: Seq<Track>) -> Option<int> {
    let n = v.len() as int;
    match best_upto(cell, v, Fit::Centre, n) {
        Some(k) => Some(k),
        None => match best_upto(cell, v, Fit::Start, n) {
            Some(k) => Some(k),
            None => best_upto(cell, v, Fit::End, n),
        },
    }
}

/// Whether a cell belongs to any of the columns.
pub open spec fn aligned_any(cell: CellView, v: Seq<Track>) -> bool {
    exists|k: int| 0 <= k < v.len() && aligned(cell, #[trigger] v[k])
}

/// Whether every cell belongs to some column.
pub open spec fn all_aligned(row: Seq<CellView>, v: Seq<Track>) -> bool {
    forall|i: int| 0 <= i < row.len() ==> aligned_any(#[trigger] row[i], v)
}

proof fn lemma_best(cell: CellView, v: Seq<Track>, fit: Fit, n: int)
    requires
        0 <= n <= v.len(),
    ensures
        match best_upto(cell, v, fit, n) {
            Some(k) => 0 <= k < n && fits(cell, v[k], fit),
            None => forall|k: int| 0 <= k < n ==> !fits(cell, #[trigger] v[k], fit),
        },
    decreases n,
{
    if n > 0 {
        lemma_best(cell, v, fit, n - 1);
    }
}

/// A cell has a column exactly when it belongs to one.
pub proof fn law_track_of(cell: CellView, v: Seq<Track>)
    ensures
        track_of(cell, v) is Some <==> aligned_any(cell, v),
        track_of(cell, v) is Some ==> 0 <= track_of(cell, v)->0 < v.len() && aligned(
            cell,
            v[track_of(cell, v)->0],
        ),
{
    let n = v.len() as int;
    lemma_best(cell, v, Fit::Centre, n);
    lemma_best(cell, v, Fit::Start, n);
    lemma_best(cell, v, Fit::End, n);
    if track_of(cell, v) is Some {
        let k = track_of(cell, v)->0;
        assert(aligned(cell, v[k]));
    } else {
        assert forall|k: int| 0 <= k < n implies !aligned(cell, #[trigger] v[k]) by {}
    }
}

fn fits_track(cell: &TableCell, t: Track, fit: Fit) -> (r: bool)
    requires
        cells::in_reach(cell.start_x as int),
        cells::in_reach(cell.end_x as int),
        cells::in_reach(t.start as int),
        cells::in_reach(t.end as int),
    ensures
        r == fits(cell@, t, fit),
{
    let tol: i64 = cells::TABLE_TRACK_TOLERANCE;
    match fit {
        Fit::Centre => {
            let twice: i64 = cell.start_x + cell.end_x;
            2 * (t.start - tol) <= twice && twice <= 2 * (t.end + tol)
        },
        Fit::Start => types::dist64(cell.start_x, t.start) <= tol,
        Fit::End => types::dist64(cell.end_x, t.end) <= tol,
    }
}

fn distance_to(cell: &TableCell, t: Track, fit: Fit) -> (r: i64)
    requires
        cells::in_reach(cell.start_x as int),
        cells::in_reach(cell.end_x as int),
        cells::in_reach(t.start as int),
        cells::in_reach(t.end as int),
    ensures
        r == misfit(cell@, t, fit),
{
    match fit {
        Fit::Centre => types::dist64(cell.start_x + cell.end_x, t.start + t.end),
        Fit::Start => types::dist64(cell.start_x, t.start),
        Fit::End => types::dist64(cell.end_x, t.end),
    }
}

/// Whether a cell belongs to a column.
pub fn cell_aligns_track(cell: &TableCell, t: Track) -> (r: bool)
    requires
        cells::in_reach(cell.start_x as int),
        cells::in_reach(cell.end_x as int),
        cells::in_reach(t.start as int),
        cells::in_reach(t.end as int),
    ensures
        r == aligned(cell@, t),
{
    fits_track(cell, t, Fit::Centre) || fits_track(cell, t, Fit::Start) || fits_track(
        cell,
        t,
        Fit::End,
    )
}

fn best_track(cell: &TableCell, v: &Vec<Track>, fit: Fit) -> (r: Option<usize>)
    requires
        cells::in_reach(cell.start_x as int),
        cells::in_reach(cell.end_x as int),
        tracks_in_reach(v@),
    ensures
        match r {
            Some(k) => k < v@.len() && best_upto(cell@, v@, fit, v@.len() as int) == Some(k as int),
            None => best_upto(cell@, v@, fit, v@.len() as int) is None,
        },
{
    let mut best: Option<usize> = None;
    let mut i: usize = 0;
    while i < v.len()
        invariant
            i <= v@.len(),
            cells::in_reach(cell.start_x as int),
            cells::in_reach(cell.end_x as int),
            tracks_in_reach(v@),
            match best {
                Some(k) => k < i && best_upto(cell@, v@, fit, i as int) == Some(k as int),
                None => best_upto(cell@, v@, fit, i as int) is None,
            },
        decreases v.len() - i,
    {
        if fits_track(cell, v[i], fit) {
            best = match best {
                Some(k) => if distance_to(cell, v[i], fit) < distance_to(cell, v[k], fit) {
                    Some(i)
                } else {
                    Some(k)
                },
                None => Some(i),
            };
        }
        i = i + 1;
    }
    best
}

/// The column that a cell belongs to.
pub fn match_track_idx(cell: &TableCell, v: &Vec<Track>) -> (r: Option<usize>)
    requires
        cells::in_reach(cell.start_x as int),
        cells::in_reach(cell.end_x as int),
        tracks_in_reach(v@),
    ensures
        match r {
            Some(k) => k < v@.len() && track_of(cell@, v@) == Some(k as int),
            None => track_of(cell@, v@) is None,
        },
{
    match best_track(cell, v, Fit::Centre) {
        Some(k) => Some(k),
        None => match best_track(cell, v, Fit::Start) {
            Some(k) => Some(k),
            None => best_track(cell, v, Fit::End),
        },
    }
}

/// Whether every cell belongs to some column.
pub fn row_aligned(row: &Vec<TableCell>, v: &Vec<Track>) -> (r: bool)
    requires
        cells::cells_in_reach(cells::cell_views(row@)),
        tracks_in_reach(v@),
    ensures
        r == all_aligned(cells::cell_views(row@), v@),
{
    let ghost rv = cells::cell_views(row@);
    let mut i: usize = 0;
    while i < row.len()
        invariant
            i <= row@.len(),
            rv == cells::cell_views(row@),
            cells::cells_in_reach(rv),
            tracks_in_reach(v@),
            forall|k: int| 0 <= k < i ==> aligned_any(#[trigger] rv[k], v@),
        decreases row.len() - i,
    {
        proof {
            assert(rv[i as int] == row@[i as int]@);
            assert(cells::in_reach(rv[i as int].start_x));
            law_track_of(rv[i as int], v@);
        }
        match match_track_idx(&row[i], v) {
            Some(_) => {},
            None => {
                return false;
            },
        }
        i = i + 1;
    }
    true
}

/// The extents of the cells of a row.
pub open spec fn extents_of(row: Seq<CellView>) -> Seq<Track> {
    Seq::new(
        row.len(),
        |i: int| Track { start: row[i].start_x as i64, end: row[i].end_x as i64 },
    )
}

/// The extents of the cells of a row.
pub fn cell_extents(row: &Vec<TableCell>) -> (r: Vec<Track>)
    requires
        cells::cells_in_reach(cells::cell_views(row@)),
    ensures
        r@ == extents_of(cells::cell_views(row@)),
        tracks_in_reach(r@),
        r@.len() == row@.len(),
{
    let ghost rv = cells::cell_views(row@);
    let mut out: Vec<Track> = Vec::new();
    let mut i: usize = 0;
    while i < row.len()
        invariant
            i <= row@.len(),
            rv == cells::cell_views(row@),
            out@.len() == i,
            forall|k: int|
                0 <= k < i ==> (#[trigger] out@[k]).start == rv[k].start_x && out@[k].end
                    == rv[k].end_x,
        decreases row.len() - i,
    {
        proof {
            assert(rv[i as int] == row@[i as int]@);
        }
        out.push(Track { start: row[i].start_x, end: row[i].end_x });
        i = i + 1;
    }
    proof {
        assert(out@ =~= extents_of(rv));
        assert forall|k: int| 0 <= k < out@.len() implies cells::in_reach(
            (#[trigger] out@[k]).start as int,
        ) && cells::in_reach(out@[k].end as int) by {
            assert(cells::in_reach(rv[k].start_x));
        }
    }
    out
}

// ---------------------------------------------------------------------------
// Collecting the texts of cells by column
// ---------------------------------------------------------------------------

/// Two texts with a space between them where neither is empty.
pub open spec fn joined(a: Seq<char>, b: Seq<char>) -> Seq<char> {
    if a.len() > 0 && b.len() > 0 {
        a.push(' ') + b
    } else {
        a + b
    }
}

/// Append `b` to `a`, with a space between them where neither is empty.
pub fn append_joined(a: &mut String, b: &str)
    ensures
        final(a)@ == joined(old(a)@, b@),
{
    if !a.as_str().is_empty() && !b.is_empty() {
        a.push(' ');
    }
    a.append(b);
}

/// The texts by column after the first `n` cells of a row were added, each to
/// the column that it belongs to.
pub open spec fn spread_upto(
    texts: Seq<Seq<char>>,
    row: Seq<CellView>,
    v: Seq<Track>,
    n: int,
) -> Seq<Seq<char>>
    decreases n,
{
    if n <= 0 {
        texts
    } else {
        let before = spread_upto(texts, row, v, n - 1);
        match track_of(row[n - 1], v) {
            Some(k) => before.update(k, joined(before[k], row[n - 1].text)),
            None => before,
        }
    }
}

/// Add the cells of a row to the texts by column.
pub fn spread_row(texts: &mut Vec<String>, row: &Vec<TableCell>, v: &Vec<Track>)
    requires
        old(texts)@.len() == v@.len(),
        cells::cells_in_reach(cells::cell_views(row@)),
        tracks_in_reach(v@),
    ensures
        types::texts(final(texts)@) == spread_upto(
            types::texts(old(texts)@),
            cells::cell_views(row@),
            v@,
            row@.len() as int,
        ),
        final(texts)@.len() == old(texts)@.len(),
{
    let ghost rv = cells::cell_views(row@);
    let ghost before = types::texts(texts@);
    let mut i: usize = 0;
    while i < row.len()
        invariant
            i <= row@.len(),
            rv == cells::cell_views(row@),
            cells::cells_in_reach(rv),
            tracks_in_reach(v@),
            texts@.len() == v@.len(),
            types::texts(texts@) == spread_upto(before, rv, v@, i as int),
        decreases row.len() - i,
    {
        proof {
            assert(rv[i as int] == row@[i as int]@);
            assert(cells::in_reach(rv[i as int].start_x));
        }
        match match_track_idx(&row[i], v) {
            Some(k) => {
                let ghost prior = types::texts(texts@);
                let mut t: String = texts[k].clone();
                append_joined(&mut t, row[i].text.as_str());
                proof {
                    assert(prior[k as int] == texts@[k as int]@);
                    assert(types::texts(texts@.update(k as int, t)) =~= prior.update(
                        k as int,
                        t@,
                    ));
                }
                texts.set(k, t);
            },
            None => {},
        }
        i = i + 1;
    }
}

/// `n` empty texts.
pub open spec fn blank_texts(n: nat) -> Seq<Seq<char>> {
    Seq::new(n, |i: int| Seq::<char>::empty())
}

/// `n` empty strings.
pub fn empty_strings(n: usize) -> (r: Vec<String>)
    ensures
        types::texts(r@) == blank_texts(n as nat),
        r@.len() == n,
{
    let mut out: Vec<String> = Vec::new();
    let mut i: usize = 0;
    while i < n
        invariant
            i <= n,
            out@.len() == i,
            forall|k: int| 0 <= k < i ==> (#[trigger] out@[k])@ == Seq::<char>::empty(),
        decreases n - i,
    {
        out.push(String::new());
        i = i + 1;
    }
    proof {
        assert(types::texts(out@) =~= blank_texts(n as nat));
    }
    out
}

// ---------------------------------------------------------------------------
// Header lines above a table
// ---------------------------------------------------------------------------

/// Whether line `j - 1` is a header line above line `j`: two cells or more, no
/// more than there are columns, all of them in a column, and right above.
pub open spec fn is_header_line(lines: Seq<ProjectedLine>, j: int, v: Seq<Track>) -> bool {
    let row = cells::cells_of(lines[j - 1]);
    &&& 2 <= row.len() <= v.len()
    &&& rows::rows_adjacent(lines[j - 1], lines[j])
    &&& all_aligned(row, v)
}

/// The first of the header lines that end above line `j`, not above `floor`.
pub open spec fn header_top(lines: Seq<ProjectedLine>, j: int, v: Seq<Track>, floor: int) -> int
    decreases j - floor,
{
    if j > floor && floor >= 0 && is_header_line(lines, j, v) {
        header_top(lines, j - 1, v, floor)
    } else {
        j
    }
}

/// The texts by column of the lines from `from` to `to`, from top to bottom.
pub open spec fn header_texts(lines: Seq<ProjectedLine>, from: int, to: int, v: Seq<Track>) -> Seq<
    Seq<char>,
>
    decreases to - from,
{
    if to <= from {
        blank_texts(v.len())
    } else {
        let row = cells::cells_of(lines[to - 1]);
        spread_upto(header_texts(lines, from, to - 1, v), row, v, row.len() as int)
    }
}

/// The header lines above line `start`: where they begin, and their texts by
/// column.
pub open spec fn absorbed_header(
    lines: Seq<ProjectedLine>,
    start: int,
    v: Seq<Track>,
    floor: int,
) -> Option<(int, Seq<Seq<char>>)> {
    let top = header_top(lines, start, v, floor);
    if top < start {
        Some((top, header_texts(lines, top, start, v)))
    } else {
        None
    }
}

/// The header lines lie between `floor` and the table.
pub proof fn lemma_header_top(lines: Seq<ProjectedLine>, j: int, v: Seq<Track>, floor: int)
    requires
        0 <= floor <= j,
    ensures
        floor <= header_top(lines, j, v, floor) <= j,
    decreases j - floor,
{
    if j > floor && is_header_line(lines, j, v) {
        lemma_header_top(lines, j - 1, v, floor);
    }
}

/// The header lines above line `start`: where they begin, and their texts by
/// column.
pub fn absorb_header_lines(
    lines: &Vec<ProjectedLine>,
    start: usize,
    v: &Vec<Track>,
    floor: usize,
) -> (r: Option<(usize, Vec<String>)>)
    requires
        start < lines@.len(),
        tracks_in_reach(v@),
    ensures
        match r {
            Some(h) => absorbed_header(lines@, start as int, v@, floor as int) == Some(
                (h.0 as int, types::texts(h.1@)),
            ) && floor <= h.0 < start,
            None => absorbed_header(lines@, start as int, v@, floor as int) is None,
        },
{
    let mut j: usize = start;
    let mut more: bool = true;
    while more && j > floor
        invariant
            j <= start < lines@.len(),
            j < start ==> floor <= j,
            tracks_in_reach(v@),
            more ==> header_top(lines@, start as int, v@, floor as int) == header_top(
                lines@,
                j as int,
                v@,
                floor as int,
            ),
            !more ==> header_top(lines@, start as int, v@, floor as int) == j,
        decreases j, (if more { 1int } else { 0int }),
    {
        let row: Vec<TableCell> = cells::split_cells(&lines[j - 1]);
        proof {
            assert(cells::cell_views(row@).len() == row@.len());
        }
        if row.len() < 2 || row.len() > v.len() || !rows::table_rows_adjacent(
            &lines[j - 1],
            &lines[j],
        ) || !row_aligned(&row, v) {
            more = false;
        } else {
            j = j - 1;
        }
    }
    if j >= start {
        return None;
    }
    let mut header: Vec<String> = empty_strings(v.len());
    let mut k: usize = j;
    while k < start
        invariant
            j <= k <= start < lines@.len(),
            tracks_in_reach(v@),
            header@.len() == v@.len(),
            types::texts(header@) == header_texts(lines@, j as int, k as int, v@),
        decreases start - k,
    {
        let row: Vec<TableCell> = cells::split_cells(&lines[k]);
        proof {
            assert(cells::cell_views(row@).len() == row@.len());
        }
        spread_row(&mut header, &row, v);
        k = k + 1;
    }
    Some((j, header))
}

} // verus!
