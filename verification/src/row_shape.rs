//! What holds of the rows of tables: how close they are, how even, and which column a cell
//! belongs to.

use crate::cells;
use crate::cells::CellView;
use crate::rows;
use crate::table_text;
use crate::text;
use crate::tracks;
use crate::tracks::{Fit, Track};
use crate::types;
use crate::types::ProjectedLine;
use vstd::prelude::*;

verus! {

/// A line is the next row of a table exactly where it is at most two and a half line heights
/// below the row before, and overlaps it by at most one. A line is a point high at least.
pub proof fn law_rows_are_close(prev: ProjectedLine, cur: ProjectedLine)
    ensures
        rows::rows_adjacent(prev, cur) <==> ({
            let gap = cur.bbox.y - (prev.bbox.y + prev.bbox.height);
            &&& 10 * gap <= 25 * prev.bbox.height || 10 * gap <= 25 * cur.bbox.height || 10 * gap
                <= 25_000
            &&& -gap <= prev.bbox.height || -gap <= cur.bbox.height || -gap <= 1_000
        }),
{
}

// ---------------------------------------------------------------------------
// Spacing
// ---------------------------------------------------------------------------

/// How far the tops of two neighbouring rows are apart.
pub open spec fn step(lines: Seq<ProjectedLine>, at: Seq<int>, k: int) -> int {
    let d = lines[at[k + 1]].bbox.y - lines[at[k]].bbox.y;
    if d >= 0 {
        d
    } else {
        -d
    }
}

/// The sum of the first `n` steps.
pub open spec fn total(lines: Seq<ProjectedLine>, at: Seq<int>, n: int) -> int
    decreases n,
{
    if n <= 0 {
        0
    } else {
        total(lines, at, n - 1) + step(lines, at, n - 1)
    }
}

/// The sum of the squares of what the first `n` steps differ from the mean of `m` steps with
/// the sum `s`, all times `m`.
pub open spec fn deviation(
    lines: Seq<ProjectedLine>,
    at: Seq<int>,
    m: int,
    s: int,
    n: int,
) -> int
    decreases n,
{
    if n <= 0 {
        0
    } else {
        let d = m * step(lines, at, n - 1) - s;
        deviation(lines, at, m, s, n - 1) + d * d
    }
}

proof fn lemma_sums(lines: Seq<ProjectedLine>, at: Seq<int>, m: int, s: int, n: int)
    requires
        n >= 0,
    ensures
        rows::pitch_sum(lines, at, n) == total(lines, at, n),
        deviation(lines, at, m, s, n) == m * m * rows::pitch_squares(lines, at, n) - 2 * (m * s)
            * total(lines, at, n) + n * (s * s),
    decreases n,
{
    if n > 0 {
        lemma_sums(lines, at, m, s, n - 1);
        let p = step(lines, at, n - 1);
        let q = rows::pitch_squares(lines, at, n - 1);
        let t = total(lines, at, n - 1);
        assert(rows::pitch(lines, at, n - 1) == p);
        assert((m * m * q - 2 * (m * s) * t + (n - 1) * (s * s)) + (m * p - s) * (m * p - s) == m
            * m * (q + p * p) - 2 * (m * s) * (t + p) + n * (s * s)) by (nonlinear_arith);
    } else {
        assert(m * m * 0 - 2 * (m * s) * 0 + 0 * (s * s) == 0) by (nonlinear_arith);
    }
}

/// The rows of a table are uneven exactly where there are three or more and the standard
/// deviation of their distances is more than half of the mean, or all distances are zero.
pub proof fn law_uneven_rows(lines: Seq<ProjectedLine>, at: Seq<int>)
    requires
        at.len() >= 1,
    ensures
        rows::spacing_irregular(lines, at) <==> ({
            let m = at.len() - 1;
            let s = total(lines, at, m);
            m >= 2 && (s == 0 || 4 * deviation(lines, at, m, s, m) > m * (s * s))
        }),
{
    let m = at.len() - 1;
    let s = total(lines, at, m);
    let q = rows::pitch_squares(lines, at, m);
    lemma_sums(lines, at, m, s, m);
    lemma_total(lines, at, m);
    if m >= 2 {
        let d = deviation(lines, at, m, s, m);
        assert(d == m * (m * q - s * s)) by (nonlinear_arith)
            requires
                d == m * m * q - 2 * (m * s) * s + m * (s * s),
        ;
        let x = m * q;
        let y = s * s;
        assert((4 * (m * (x - y)) > m * y) <==> (4 * x > 5 * y)) by (nonlinear_arith)
            requires
                m >= 2,
        ;
        assert(m * (m * q - s * s) == m * (x - y));
    }
}

proof fn lemma_total(lines: Seq<ProjectedLine>, at: Seq<int>, n: int)
    ensures
        total(lines, at, n) >= 0,
    decreases n,
{
    if n > 0 {
        lemma_total(lines, at, n - 1);
    }
}

// ---------------------------------------------------------------------------
// Columns
// ---------------------------------------------------------------------------

/// Whether the middle of a cell lies in a column, to within six points.
pub open spec fn has_middle(c: CellView, t: Track) -> bool {
    2 * t.start - 12_000 <= c.start_x + c.end_x <= 2 * t.end + 12_000
}

/// Whether a cell begins with a column, to within six points.
pub open spec fn has_start(c: CellView, t: Track) -> bool {
    -6_000 <= c.start_x - t.start <= 6_000
}

/// Whether a cell ends with a column, to within six points.
pub open spec fn has_end(c: CellView, t: Track) -> bool {
    -6_000 <= c.end_x - t.end <= 6_000
}

proof fn lemma_best(c: CellView, v: Seq<Track>, fit: Fit, n: int)
    requires
        0 <= n <= v.len(),
    ensures
        match tracks::best_upto(c, v, fit, n) {
            Some(k) => 0 <= k < n && tracks::fits(c, v[k], fit) && forall|j: int|
                0 <= j < n && tracks::fits(c, #[trigger] v[j], fit) ==> tracks::misfit(
                    c,
                    v[k],
                    fit,
                ) <= tracks::misfit(c, v[j], fit),
            None => forall|j: int| 0 <= j < n ==> !tracks::fits(c, #[trigger] v[j], fit),
        },
    decreases n,
{
    if n > 0 {
        lemma_best(c, v, fit, n - 1);
    }
}

/// A cell belongs to the column that its middle lies in, the nearest one; if there is none, to
/// the one that it begins with, else to the one that it ends with, and else to none.
pub proof fn law_nearest_column(c: CellView, v: Seq<Track>)
    ensures
        match tracks::track_of(c, v) {
            Some(k) => 0 <= k < v.len() && {
                ||| has_middle(c, v[k]) && forall|j: int|
                    0 <= j < v.len() && has_middle(c, #[trigger] v[j]) ==> types::dist(
                        c.start_x + c.end_x,
                        v[k].start + v[k].end,
                    ) <= types::dist(c.start_x + c.end_x, v[j].start + v[j].end)
                ||| has_start(c, v[k]) && forall|j: int|
                    0 <= j < v.len() ==> !has_middle(c, #[trigger] v[j]) && (has_start(c, v[j])
                        ==> types::dist(c.start_x, v[k].start as int) <= types::dist(
                        c.start_x,
                        v[j].start as int,
                    ))
                ||| has_end(c, v[k]) && forall|j: int|
                    0 <= j < v.len() ==> !has_middle(c, #[trigger] v[j]) && !has_start(c, v[j]) && (
                    has_end(c, v[j]) ==> types::dist(c.end_x, v[k].end as int) <= types::dist(
                        c.end_x,
                        v[j].end as int,
                    ))
            },
            None => forall|j: int|
                0 <= j < v.len() ==> !has_middle(c, #[trigger] v[j]) && !has_start(c, v[j])
                    && !has_end(c, v[j]),
        },
{
    let n = v.len() as int;
    lemma_best(c, v, Fit::Centre, n);
    lemma_best(c, v, Fit::Start, n);
    lemma_best(c, v, Fit::End, n);
    assert forall|j: int| 0 <= j < n implies tracks::fits(c, #[trigger] v[j], Fit::Centre)
        == has_middle(c, v[j]) && tracks::fits(c, v[j], Fit::Start) == has_start(c, v[j])
        && tracks::fits(c, v[j], Fit::End) == has_end(c, v[j]) by {}
}

// ---------------------------------------------------------------------------
// Headers
// ---------------------------------------------------------------------------

proof fn lemma_spread(texts: Seq<Seq<char>>, row: Seq<CellView>, v: Seq<Track>, n: int)
    requires
        0 <= n <= row.len(),
        texts.len() == v.len(),
    ensures
        ({
            let out = tracks::spread_upto(texts, row, v, n);
            &&& out.len() == v.len()
            &&& forall|k: int|
                0 <= k < v.len() ==> table_text::is_part_of(texts[k], #[trigger] out[k])
            &&& forall|i: int|
                0 <= i < n && tracks::track_of(#[trigger] row[i], v) is Some
                    ==> table_text::is_part_of(
                    row[i].text,
                    out[tracks::track_of(row[i], v)->0],
                )
        }),
    decreases n,
{
    let out = tracks::spread_upto(texts, row, v, n);
    if n > 0 {
        lemma_spread(texts, row, v, n - 1);
        let b = tracks::spread_upto(texts, row, v, n - 1);
        tracks::law_track_of(row[n - 1], v);
        if tracks::track_of(row[n - 1], v) is Some {
            let t = tracks::track_of(row[n - 1], v)->0;
            table_text::lemma_part_joined(b[t], row[n - 1].text);
            assert forall|k: int| 0 <= k < v.len() implies table_text::is_part_of(
                texts[k],
                #[trigger] out[k],
            ) by {
                assert(table_text::is_part_of(texts[k], b[k]));
                if k == t {
                    table_text::lemma_part_through(texts[k], b[k], out[k]);
                }
            }
            assert forall|i: int|
                0 <= i < n && tracks::track_of(#[trigger] row[i], v) is Some implies table_text::is_part_of(
                row[i].text,
                out[tracks::track_of(row[i], v)->0],
            ) by {
                let k = tracks::track_of(row[i], v)->0;
                tracks::law_track_of(row[i], v);
                if i < n - 1 && k == t {
                    table_text::lemma_part_through(row[i].text, b[k], out[k]);
                }
            }
        }
    } else {
        assert forall|k: int| 0 <= k < v.len() implies table_text::is_part_of(
            texts[k],
            #[trigger] out[k],
        ) by {
            table_text::lemma_part_self(texts[k]);
        }
    }
}

/// Whether a header shows a line: each cell in the text of its column.
pub open spec fn heads(row: Seq<CellView>, v: Seq<Track>, texts: Seq<Seq<char>>) -> bool {
    forall|i: int|
        0 <= i < row.len() && tracks::track_of(#[trigger] row[i], v) is Some
            ==> table_text::is_part_of(row[i].text, texts[tracks::track_of(row[i], v)->0])
}

proof fn lemma_header_texts(
    lines: Seq<ProjectedLine>,
    from: int,
    to: int,
    v: Seq<Track>,
    j: int,
)
    requires
        from <= j < to,
    ensures
        tracks::header_texts(lines, from, to, v).len() == v.len(),
        heads(cells::cells_of(lines[j]), v, tracks::header_texts(lines, from, to, v)),
    decreases to - from,
{
    let out = tracks::header_texts(lines, from, to, v);
    let before = tracks::header_texts(lines, from, to - 1, v);
    let row = cells::cells_of(lines[to - 1]);
    lemma_header_len(lines, from, to - 1, v);
    lemma_spread(before, row, v, row.len() as int);
    if j < to - 1 {
        lemma_header_texts(lines, from, to - 1, v, j);
        let r = cells::cells_of(lines[j]);
        assert forall|i: int|
            0 <= i < r.len() && tracks::track_of(
                #[trigger] r[i],
                v,
            ) is Some implies table_text::is_part_of(
            r[i].text,
            out[tracks::track_of(r[i], v)->0],
        ) by {
            let k = tracks::track_of(r[i], v)->0;
            tracks::law_track_of(r[i], v);
            table_text::lemma_part_through(r[i].text, before[k], out[k]);
        }
    }
}

proof fn lemma_header_len(lines: Seq<ProjectedLine>, from: int, to: int, v: Seq<Track>)
    ensures
        tracks::header_texts(lines, from, to, v).len() == v.len(),
    decreases to - from,
{
    if to > from {
        lemma_header_len(lines, from, to - 1, v);
        let row = cells::cells_of(lines[to - 1]);
        lemma_spread(
            tracks::header_texts(lines, from, to - 1, v),
            row,
            v,
            row.len() as int,
        );
    }
}

/// Whether a line can be one of a header above another: right above it, with two cells or
/// more, not more than there are columns, each in one of them.
pub open spec fn can_head(above: ProjectedLine, below: ProjectedLine, v: Seq<Track>) -> bool {
    let row = cells::cells_of(above);
    &&& 2 <= row.len() <= v.len()
    &&& rows::rows_adjacent(above, below)
    &&& forall|i: int| 0 <= i < row.len() ==> tracks::track_of(#[trigger] row[i], v) is Some
}

proof fn lemma_can_head(lines: Seq<ProjectedLine>, j: int, v: Seq<Track>)
    ensures
        tracks::is_header_line(lines, j, v) == can_head(lines[j - 1], lines[j], v),
{
    let row = cells::cells_of(lines[j - 1]);
    assert forall|i: int| 0 <= i < row.len() implies (tracks::track_of(#[trigger] row[i], v) is Some
        <==> tracks::aligned_any(row[i], v)) by {
        tracks::law_track_of(row[i], v);
    }
}

proof fn lemma_header_top(lines: Seq<ProjectedLine>, j: int, v: Seq<Track>, floor: int)
    requires
        0 <= floor <= j,
    ensures
        ({
            let top = tracks::header_top(lines, j, v, floor);
            &&& floor <= top <= j
            &&& forall|i: int|
                top <= i < j ==> can_head(#[trigger] lines[i], lines[i + 1], v)
            &&& top == floor || !can_head(lines[top - 1], lines[top], v)
        }),
    decreases j - floor,
{
    lemma_can_head(lines, j, v);
    if j > floor && tracks::is_header_line(lines, j, v) {
        lemma_header_top(lines, j - 1, v, floor);
    }
}

/// The header of a table is the lines right above it whose cells stand over its columns, as
/// many as there are, and each of their cells is shown in the text of its column.
pub proof fn law_headers(lines: Seq<ProjectedLine>, start: int, v: Seq<Track>, floor: int)
    requires
        0 <= floor <= start,
    ensures
        match tracks::absorbed_header(lines, start, v, floor) {
            Some(h) => {
                &&& floor <= h.0 < start
                &&& h.1.len() == v.len()
                &&& forall|i: int|
                    h.0 <= i < start ==> can_head(#[trigger] lines[i], lines[i + 1], v) && heads(
                        cells::cells_of(lines[i]),
                        v,
                        h.1,
                    )
                &&& h.0 == floor || !can_head(lines[h.0 - 1], lines[h.0], v)
            },
            None => start == floor || !can_head(lines[start - 1], lines[start], v),
        },
{
    lemma_header_top(lines, start, v, floor);
    let top = tracks::header_top(lines, start, v, floor);
    if top < start {
        lemma_header_len(lines, top, start, v);
        assert forall|i: int| top <= i < start implies can_head(
            #[trigger] lines[i],
            lines[i + 1],
            v,
        ) && heads(
            cells::cells_of(lines[i]),
            v,
            tracks::header_texts(lines, top, start, v),
        ) by {
            lemma_header_texts(lines, top, start, v, i);
        }
    }
}

// ---------------------------------------------------------------------------
// Cutting merged cells
// ---------------------------------------------------------------------------

/// A cell covers the columns that begin within it, to within six points, in their order.
pub proof fn law_covered_columns(c: CellView, columns: Seq<int>, n: int)
    requires
        0 <= n <= columns.len(),
    ensures
        cells::covered_upto(c, columns, n) == columns.take(n).filter(
            |x: int| c.start_x - 6_000 <= x <= c.end_x + 6_000,
        ),
    decreases n,
{
    reveal(Seq::filter);
    if n > 0 {
        law_covered_columns(c, columns, n - 1);
        assert(columns.take(n).drop_last() =~= columns.take(n - 1));
        assert(columns.take(n).last() == columns[n - 1]);
    } else {
        assert(columns.take(n) =~= seq![]);
        assert(cells::covered_upto(c, columns, n) =~= seq![]);
    }
}

/// How far character `k` of `n` that are spread evenly from `start` on lies from `t`, times
/// the number of characters.
pub open spec fn off(n: int, k: int, start: int, width: int, t: int) -> int {
    let d = n * start + k * width - n * t;
    if d >= 0 {
        d
    } else {
        -d
    }
}

/// A cell is cut at the white space nearest to a column that it is not cut at yet.
pub proof fn law_cut_is_nearest(
    cs: Seq<char>,
    used: Seq<int>,
    start: int,
    width: int,
    t: int,
    m: int,
)
    requires
        0 <= m <= cs.len(),
    ensures
        match cells::nearest_upto(cs, used, start, width, t, m) {
            Some(k) => 0 <= k < m && text::is_ws(cs[k]) && !used.contains(k) && forall|j: int|
                0 <= j < m && text::is_ws(#[trigger] cs[j]) && !used.contains(j) ==> off(
                    cs.len() as int,
                    k,
                    start,
                    width,
                    t,
                ) <= off(cs.len() as int, j, start, width, t),
            None => forall|j: int|
                0 <= j < m && text::is_ws(#[trigger] cs[j]) ==> used.contains(j),
        },
    decreases m,
{
    if m > 0 {
        law_cut_is_nearest(cs, used, start, width, t, m - 1);
    }
}

} // verus!
