//! Joining tables that were found in pieces: a header with one column less than
//! its body, and tables interrupted by a label line.

use vstd::prelude::*;
use vstd::string::*;
use crate::cells;
use crate::cells::TableCell;
use crate::rows;
use crate::rows::{RunView, TableRun};
use crate::text;
use crate::tracks;
use crate::tracks::Track;
use crate::types;
use crate::types::{Block, BlockView, ProjectedLine};

verus! {

/// The most rows that can become part of the header of the table below.
pub const HEADER_MAX_ABSORB_ROWS: usize = 3;

/// How far two columns may be apart when a header is matched to a body.
pub const SUBSET_TRACK_TOLERANCE: i64 = 12_000;

/// The most characters of a label line between two pieces of a table.
pub const INTERSTITIAL_MAX_CHARS: usize = 60;

// ---------------------------------------------------------------------------
// Columns of a run
// ---------------------------------------------------------------------------

/// The number of columns of a table: those of its header, or of its first row.
pub open spec fn column_count(b: BlockView) -> Option<int> {
    match b {
        BlockView::Table { header, rows } => match header {
            Some(h) => Some(h.len() as int),
            None => if rows.len() > 0 {
                Some(rows[0].len() as int)
            } else {
                None
            },
        },
        _ => None,
    }
}

/// The smallest extents that hold both lists of extents.
pub open spec fn united(a: Seq<Track>, b: Seq<Track>) -> Seq<Track> {
    Seq::new(
        a.len(),
        |i: int|
            Track {
                start: types::min_of(a[i].start as int, b[i].start as int) as i64,
                end: types::max_of(a[i].end as int, b[i].end as int) as i64,
            },
    )
}

/// The extents of the columns over the lines from `from` to `to` that have
/// `columns` cells.
pub open spec fn body_tracks(lines: Seq<ProjectedLine>, columns: int, from: int, to: int) -> Option<
    Seq<Track>,
>
    decreases to - from,
{
    if to <= from {
        None
    } else {
        let before = body_tracks(lines, columns, from, to - 1);
        let row = cells::cells_of(lines[to - 1]);
        if row.len() != columns {
            before
        } else {
            match before {
                Some(v) => Some(united(v, tracks::extents_of(row))),
                None => Some(tracks::extents_of(row)),
            }
        }
    }
}

/// Whether two lists of columns have the same middles.
pub open spec fn same_tracks(a: Seq<Track>, b: Seq<Track>) -> bool {
    &&& a.len() == b.len()
    &&& forall|i: int|
        0 <= i < a.len() ==> types::dist(
            (#[trigger] a[i]).start + a[i].end,
            b[i].start + b[i].end,
        ) <= 2 * cells::TABLE_TRACK_TOLERANCE
}

/// How well a header cell stands over a column: by its edges, or exactly when its
/// middle lies in the inner half of the column.
pub open spec fn subset_score(a: Track, b: Track) -> Option<int> {
    let edges = types::min_of(
        types::dist(a.start as int, b.start as int),
        types::dist(a.end as int, b.end as int),
    );
    let twice = 2 * (a.start + a.end);
    let d = if 3 * b.start + b.end <= twice <= b.start + 3 * b.end {
        0
    } else {
        edges
    };
    if d <= SUBSET_TRACK_TOLERANCE {
        Some(d)
    } else {
        None
    }
}

/// The column that the `i`-th header cell stands over when the column `skip` has
/// none.
pub open spec fn skipping(i: int, skip: int) -> int {
    if i < skip {
        i
    } else {
        i + 1
    }
}

/// The sum of the scores of the first `n` header cells when the column `skip` has
/// none.
pub open spec fn skip_error(a: Seq<Track>, b: Seq<Track>, skip: int, n: int) -> Option<int>
    decreases n,
{
    if n <= 0 {
        Some(0)
    } else {
        match skip_error(a, b, skip, n - 1) {
            Some(e) => match subset_score(a[n - 1], b[skipping(n - 1, skip)]) {
                Some(d) => Some(e + d),
                None => None,
            },
            None => None,
        }
    }
}

/// The best of the first `n` columns to be the one without a header cell, the
/// first one of equally good ones.
pub open spec fn best_skip(a: Seq<Track>, b: Seq<Track>, n: int) -> Option<int>
    decreases n,
{
    if n <= 0 {
        None
    } else {
        let best = best_skip(a, b, n - 1);
        match skip_error(a, b, n - 1, a.len() as int) {
            Some(e) => match best {
                Some(k) => if e < skip_error(a, b, k, a.len() as int)->0 {
                    Some(n - 1)
                } else {
                    best
                },
                None => Some(n - 1),
            },
            None => best,
        }
    }
}

/// The column of `b` over which no column of `a` stands, when `a` has one column
/// less and each of its columns stands over one of `b`.
pub open spec fn subset_skip(a: Seq<Track>, b: Seq<Track>) -> Option<int> {
    if a.len() + 1 == b.len() {
        best_skip(a, b, b.len() as int)
    } else {
        None
    }
}

/// The number of columns of a table.
pub fn run_column_count(b: &Block) -> (r: Option<usize>)
    ensures
        match r {
            Some(n) => column_count(b@) == Some(n as int),
            None => column_count(b@) is None,
        },
{
    match b {
        Block::Table { header, rows } => match header {
            Some(h) => Some(h.len()),
            None => if rows.len() > 0 {
                proof {
                    assert(types::row_texts(rows@)[0] == types::texts(rows@[0]@));
                }
                Some(rows[0].len())
            } else {
                None
            },
        },
        _ => None,
    }
}

fn unite(a: &Vec<Track>, b: &Vec<Track>) -> (r: Vec<Track>)
    requires
        a@.len() == b@.len(),
        tracks::tracks_in_reach(a@),
        tracks::tracks_in_reach(b@),
    ensures
        r@ == united(a@, b@),
        tracks::tracks_in_reach(r@),
{
    let mut out: Vec<Track> = Vec::new();
    let mut i: usize = 0;
    while i < a.len()
        invariant
            i <= a@.len() == b@.len(),
            out@.len() == i,
            forall|k: int| 0 <= k < i ==> #[trigger] out@[k] == united(a@, b@)[k],
        decreases a.len() - i,
    {
        out.push(
            Track {
                start: types::min64(a[i].start, b[i].start),
                end: types::max64(a[i].end, b[i].end),
            },
        );
        i = i + 1;
    }
    proof {
        assert(out@ =~= united(a@, b@));
        assert forall|k: int| 0 <= k < out@.len() implies cells::in_reach(
            (#[trigger] out@[k]).start as int,
        ) && cells::in_reach(out@[k].end as int) by {
            assert(cells::in_reach(a@[k].start as int));
            assert(cells::in_reach(b@[k].start as int));
        }
    }
    out
}

/// The extents of the columns over the lines from `from` to `to` that have
/// `columns` cells.
pub fn run_body_tracks(lines: &Vec<ProjectedLine>, columns: usize, from: usize, to: usize) -> (r:
    Option<Vec<Track>>)
    requires
        from <= to <= lines@.len(),
    ensures
        match r {
            Some(v) => body_tracks(lines@, columns as int, from as int, to as int) == Some(v@)
                && tracks::tracks_in_reach(v@) && v@.len() == columns,
            None => body_tracks(lines@, columns as int, from as int, to as int) is None,
        },
{
    let mut acc: Option<Vec<Track>> = None;
    let mut i: usize = from;
    while i < to
        invariant
            from <= i <= to <= lines@.len(),
            match acc {
                Some(v) => body_tracks(lines@, columns as int, from as int, i as int) == Some(v@)
                    && tracks::tracks_in_reach(v@) && v@.len() == columns,
                None => body_tracks(lines@, columns as int, from as int, i as int) is None,
            },
        decreases to - i,
    {
        let row: Vec<TableCell> = cells::split_cells(&lines[i]);
        proof {
            assert(cells::cell_views(row@).len() == row@.len());
        }
        if row.len() == columns {
            let here: Vec<Track> = tracks::cell_extents(&row);
            acc = match acc {
                Some(v) => Some(unite(&v, &here)),
                None => Some(here),
            };
        }
        i = i + 1;
    }
    acc
}

/// Whether two lists of columns have the same middles.
pub fn tracks_align_same(a: &Vec<Track>, b: &Vec<Track>) -> (r: bool)
    requires
        tracks::tracks_in_reach(a@),
        tracks::tracks_in_reach(b@),
    ensures
        r == same_tracks(a@, b@),
{
    if a.len() != b.len() {
        return false;
    }
    let mut i: usize = 0;
    while i < a.len()
        invariant
            i <= a@.len() == b@.len(),
            tracks::tracks_in_reach(a@),
            tracks::tracks_in_reach(b@),
            forall|k: int|
                0 <= k < i ==> types::dist(
                    (#[trigger] a@[k]).start + a@[k].end,
                    b@[k].start + b@[k].end,
                ) <= 2 * cells::TABLE_TRACK_TOLERANCE,
        decreases a.len() - i,
    {
        proof {
            assert(cells::in_reach(a@[i as int].start as int));
            assert(cells::in_reach(b@[i as int].start as int));
        }
        if types::dist64(a[i].start + a[i].end, b[i].start + b[i].end) > 2
            * cells::TABLE_TRACK_TOLERANCE {
            return false;
        }
        i = i + 1;
    }
    true
}

/// How well a header cell stands over a column.
pub fn subset_match_score(a: Track, b: Track) -> (r: Option<i64>)
    requires
        cells::in_reach(a.start as int),
        cells::in_reach(a.end as int),
        cells::in_reach(b.start as int),
        cells::in_reach(b.end as int),
    ensures
        match r {
            Some(d) => subset_score(a, b) == Some(d as int) && 0 <= d <= SUBSET_TRACK_TOLERANCE,
            None => subset_score(a, b) is None,
        },
{
    let edges: i64 = types::min64(
        types::dist64(a.start, b.start),
        types::dist64(a.end, b.end),
    );
    let twice: i64 = 2 * (a.start + a.end);
    let d: i64 = if 3 * b.start + b.end <= twice && twice <= b.start + 3 * b.end {
        0
    } else {
        edges
    };
    if d <= SUBSET_TRACK_TOLERANCE {
        Some(d)
    } else {
        None
    }
}

fn total_error(a: &Vec<Track>, b: &Vec<Track>, skip: usize) -> (r: Option<u128>)
    requires
        a@.len() + 1 == b@.len(),
        skip < b@.len(),
        tracks::tracks_in_reach(a@),
        tracks::tracks_in_reach(b@),
    ensures
        match r {
            Some(e) => skip_error(a@, b@, skip as int, a@.len() as int) == Some(e as int),
            None => skip_error(a@, b@, skip as int, a@.len() as int) is None,
        },
{
    let mut total: u128 = 0;
    let mut i: usize = 0;
    while i < a.len()
        invariant
            i <= a@.len(),
            a@.len() + 1 == b@.len(),
            skip < b@.len(),
            tracks::tracks_in_reach(a@),
            tracks::tracks_in_reach(b@),
            total <= i * 12_000,
            skip_error(a@, b@, skip as int, i as int) == Some(total as int),
        decreases a.len() - i,
    {
        let k: usize = if i < skip {
            i
        } else {
            i + 1
        };
        proof {
            assert(cells::in_reach(a@[i as int].start as int));
            assert(cells::in_reach(b@[k as int].start as int));
        }
        match subset_match_score(a[i], b[k]) {
            Some(d) => {
                total = total + d as u128;
            },
            None => {
                proof {
                    lemma_skip_none(a@, b@, skip as int, i + 1, a@.len() as int);
                }
                return None;
            },
        }
        i = i + 1;
    }
    Some(total)
}

proof fn lemma_skip_none(a: Seq<Track>, b: Seq<Track>, skip: int, m: int, n: int)
    requires
        0 <= m <= n,
        skip_error(a, b, skip, m) is None,
    ensures
        skip_error(a, b, skip, n) is None,
    decreases n - m,
{
    if m < n {
        lemma_skip_none(a, b, skip, m, n - 1);
    }
}

/// The column of `b` over which no column of `a` stands.
pub fn subset_mapping(a: &Vec<Track>, b: &Vec<Track>) -> (r: Option<usize>)
    requires
        tracks::tracks_in_reach(a@),
        tracks::tracks_in_reach(b@),
    ensures
        match r {
            Some(k) => subset_skip(a@, b@) == Some(k as int) && k < b@.len(),
            None => subset_skip(a@, b@) is None,
        },
{
    if b.len() == 0 || a.len() != b.len() - 1 {
        return None;
    }
    let mut best: Option<(usize, u128)> = None;
    let mut n: usize = 0;
    while n < b.len()
        invariant
            n <= b@.len(),
            a@.len() + 1 == b@.len(),
            tracks::tracks_in_reach(a@),
            tracks::tracks_in_reach(b@),
            match best {
                Some(p) => p.0 < n && best_skip(a@, b@, n as int) == Some(p.0 as int)
                    && skip_error(a@, b@, p.0 as int, a@.len() as int) == Some(p.1 as int),
                None => best_skip(a@, b@, n as int) is None,
            },
        decreases b.len() - n,
    {
        match total_error(a, b, n) {
            Some(e) => {
                best = match best {
                    Some(p) => if e < p.1 {
                        Some((n, e))
                    } else {
                        Some(p)
                    },
                    None => Some((n, e)),
                };
            },
            None => {},
        }
        n = n + 1;
    }
    match best {
        Some(p) => Some(p.0),
        None => None,
    }
}

// ---------------------------------------------------------------------------
// Rows and headers of the joined table
// ---------------------------------------------------------------------------

/// A row of the piece with one column less, with an empty cell at `skip`.
pub open spec fn padded(row: Seq<Seq<char>>, skip: int, columns: nat) -> Seq<Seq<char>> {
    Seq::new(
        columns,
        |k: int|
            if k < skip && k < row.len() {
                row[k]
            } else if k > skip && k - 1 < row.len() {
                row[k - 1]
            } else {
                seq![]
            },
    )
}

/// A row with a label in its first cell.
pub open spec fn label_row(t: Seq<char>, columns: nat) -> Seq<Seq<char>> {
    Seq::new(
        columns,
        |k: int|
            if k == 0 {
                t
            } else {
                seq![]
            },
    )
}

/// The text of a cell, or nothing where the row has no such cell.
pub open spec fn cell_or_empty(row: Seq<Seq<char>>, k: int) -> Seq<char> {
    if 0 <= k < row.len() {
        row[k]
    } else {
        seq![]
    }
}

/// The distinct texts of column `k` in the first `n` layers of a header, from
/// top to bottom.
pub open spec fn column_parts(layers: Seq<Seq<Seq<char>>>, k: int, n: int) -> Seq<Seq<char>>
    decreases n,
{
    if n <= 0 {
        seq![]
    } else {
        let before = column_parts(layers, k, n - 1);
        let s = cell_or_empty(layers[n - 1], k);
        if s.len() == 0 || (before.len() > 0 && before.last() == s) {
            before
        } else {
            before.push(s)
        }
    }
}

/// The first `n` parts with spaces between them.
pub open spec fn spaced_parts(parts: Seq<Seq<char>>, n: int) -> Seq<char>
    decreases n,
{
    if n <= 0 {
        seq![]
    } else if n == 1 {
        parts[0]
    } else {
        spaced_parts(parts, n - 1).push(' ') + parts[n - 1]
    }
}

/// The layers of a header as one row.
pub open spec fn flattened(layers: Seq<Seq<Seq<char>>>, columns: nat) -> Seq<Seq<char>> {
    Seq::new(
        columns,
        |k: int|
            {
                let parts = column_parts(layers, k, layers.len() as int);
                spaced_parts(parts, parts.len() as int)
            },
    )
}

/// Rows with an empty cell at `skip`.
pub open spec fn padded_rows(rows: Seq<Seq<Seq<char>>>, skip: int, columns: nat) -> Seq<
    Seq<Seq<char>>,
> {
    Seq::new(rows.len(), |i: int| padded(rows[i], skip, columns))
}

/// A header as a list of no row or one.
pub open spec fn as_rows(header: Option<Seq<Seq<char>>>) -> Seq<Seq<Seq<char>>> {
    match header {
        Some(h) => seq![h],
        None => seq![],
    }
}

/// Whether a line between two pieces of a table can be a row of it: one cell, and
/// short, and no sentence.
pub open spec fn is_absorbable(line: ProjectedLine) -> bool {
    let t = text::trim_of(line.text@);
    &&& cells::cells_of(line).len() <= 1
    &&& t.len() <= INTERSTITIAL_MAX_CHARS
    &&& !(t.len() > 0 && (t.last() == '.' || t.last() == '!' || t.last() == '?')
        && text::utf8_len(t, t.len() as int) > 6)
}

/// The label rows for the lines between two pieces of a table.
pub open spec fn label_rows(lines: Seq<ProjectedLine>, from: int, to: int, columns: nat) -> Seq<
    Seq<Seq<char>>,
> {
    Seq::new(
        if to > from {
            (to - from) as nat
        } else {
            0
        },
        |i: int| label_row(text::trim_of(lines[from + i].text@), columns),
    )
}

/// Whether at most one line stands between two pieces, and it can be a row.
pub open spec fn joinable_between(lines: Seq<ProjectedLine>, from: int, to: int) -> bool {
    to <= from || (to == from + 1 && is_absorbable(lines[from]))
}

/// Two tables with the same columns as one. The header of the second becomes a
/// row where the first has one too. Two complete tables stay apart when more
/// than a line height is between them.
pub open spec fn joined_same(
    lines: Seq<ProjectedLine>,
    a: RunView,
    b: RunView,
    gap: int,
    height: int,
    columns: nat,
) -> Option<RunView> {
    let ah = a.block->header;
    let ar = a.block->rows;
    let bh = b.block->header;
    let br = b.block->rows;
    if ah is Some && bh is Some && ar.len() >= 3 && br.len() >= 3 && gap > height {
        None
    } else {
        Some(
            RunView {
                start: a.start,
                end: b.end,
                block: BlockView::Table {
                    header: if ah is Some {
                        ah
                    } else {
                        bh
                    },
                    rows: ar + label_rows(lines, a.end, b.start, columns) + (if ah is Some {
                        as_rows(bh)
                    } else {
                        seq![]
                    }) + br,
                },
            },
        )
    }
}

/// The rows of a table as layers of the header of the table below, which has the
/// column `skip` more.
pub open spec fn joined_header(
    lines: Seq<ProjectedLine>,
    a: RunView,
    b: RunView,
    skip: int,
    columns: nat,
) -> Option<RunView> {
    let layers = padded_rows(as_rows(a.block->header), skip, columns) + padded_rows(
        a.block->rows,
        skip,
        columns,
    ) + as_rows(b.block->header);
    if layers.len() == 0 {
        None
    } else {
        Some(
            RunView {
                start: a.start,
                end: b.end,
                block: BlockView::Table {
                    header: Some(flattened(layers, columns)),
                    rows: label_rows(lines, a.end, b.start, columns) + b.block->rows,
                },
            },
        )
    }
}

/// The extents of the columns over those lines of a run that there are.
pub open spec fn run_tracks(lines: Seq<ProjectedLine>, r: RunView, columns: int) -> Option<
    Seq<Track>,
> {
    body_tracks(lines, columns, r.start, types::min_of(r.end, lines.len() as int))
}

/// Whether a run begins no later than it ends, and no later than the first `n` lines end.
pub open spec fn begins_within(r: RunView, n: int) -> bool {
    r.start <= r.end && r.start <= n
}

/// Whether the lines that are read to join two runs are there: the one between them, and
/// the beginnings of both.
pub open spec fn lines_at_hand(lines: Seq<ProjectedLine>, a: RunView, b: RunView) -> bool {
    let n = lines.len() as int;
    let ac = column_count(a.block);
    &&& b.start == a.end + 1 ==> b.start <= n
    &&& joinable_between(lines, a.end, b.start) && ac is Some && column_count(b.block) is Some
        ==> {
        &&& begins_within(a, n)
        &&& run_tracks(lines, a, ac->0) is Some ==> begins_within(b, n)
    }
}

/// Two neighbouring tables as one, where they belong together: they are close,
/// and have the same columns, or the upper one is short and lacks one column.
pub open spec fn joined_pair(lines: Seq<ProjectedLine>, a: RunView, b: RunView) -> Option<
    RunView,
> {
    let ac = column_count(a.block);
    let bc = column_count(b.block);
    if !joinable_between(lines, a.end, b.start) || ac is None || bc is None {
        None
    } else {
        let at = run_tracks(lines, a, ac->0);
        let bt = run_tracks(lines, b, bc->0);
        let above = lines[a.end - 1];
        let below = lines[b.start];
        let gap = rows::gap_below(above, below);
        let height = rows::row_height(above, below);
        let columns = bc->0 as nat;
        if at is None || bt is None || a.end == 0 || a.end > lines.len() || b.start
            >= lines.len() || gap > 2 * height || gap < -height {
            None
        } else if ac->0 == bc->0 && same_tracks(at->0, bt->0) {
            joined_same(lines, a, b, gap, height, columns)
        } else if ac->0 + 1 == bc->0 && a.block->rows.len() <= HEADER_MAX_ABSORB_ROWS {
            match subset_skip(at->0, bt->0) {
                Some(skip) => joined_header(lines, a, b, skip, columns),
                None => None,
            }
        } else {
            None
        }
    }
}

/// The first `n` runs, each joined with the one before where that is possible.
pub open spec fn joined_upto(lines: Seq<ProjectedLine>, v: Seq<RunView>, n: int) -> Seq<RunView>
    decreases n,
{
    if n <= 0 {
        seq![]
    } else {
        let before = joined_upto(lines, v, n - 1);
        if before.len() == 0 {
            before.push(v[n - 1])
        } else {
            match joined_pair(lines, before.last(), v[n - 1]) {
                Some(run) => before.drop_last().push(run),
                None => before.push(v[n - 1]),
            }
        }
    }
}

fn pad_row_to_layout(row: &Vec<String>, skip: usize, columns: usize) -> (r: Vec<String>)
    ensures
        types::texts(r@) == padded(types::texts(row@), skip as int, columns as nat),
{
    let ghost want = padded(types::texts(row@), skip as int, columns as nat);
    let mut out: Vec<String> = Vec::new();
    let mut k: usize = 0;
    while k < columns
        invariant
            k <= columns,
            want == padded(types::texts(row@), skip as int, columns as nat),
            out@.len() == k,
            forall|i: int| 0 <= i < k ==> (#[trigger] out@[i])@ == want[i],
        decreases columns - k,
    {
        let cell: String = if k < skip && k < row.len() {
            row[k].clone()
        } else if k > skip && k - 1 < row.len() {
            row[k - 1].clone()
        } else {
            String::new()
        };
        proof {
            assert(cell@ =~= want[k as int]);
        }
        out.push(cell);
        k = k + 1;
    }
    proof {
        assert(types::texts(out@) =~= want);
    }
    out
}

fn row_with_label(t: &str, columns: usize) -> (r: Vec<String>)
    ensures
        types::texts(r@) == label_row(t@, columns as nat),
{
    let ghost want = label_row(t@, columns as nat);
    let mut out: Vec<String> = Vec::new();
    let mut k: usize = 0;
    while k < columns
        invariant
            k <= columns,
            want == label_row(t@, columns as nat),
            out@.len() == k,
            forall|i: int| 0 <= i < k ==> (#[trigger] out@[i])@ == want[i],
        decreases columns - k,
    {
        let cell: String = if k == 0 {
            text::to_string(t)
        } else {
            String::new()
        };
        proof {
            assert(cell@ =~= want[k as int]);
        }
        out.push(cell);
        k = k + 1;
    }
    proof {
        assert(types::texts(out@) =~= want);
    }
    out
}

fn flatten_column(layers: &Vec<Vec<String>>, k: usize) -> (r: String)
    ensures
        r@ == flattened(types::row_texts(layers@), (k + 1) as nat)[k as int],
{
    let ghost lv = types::row_texts(layers@);
    let mut out: String = String::new();
    let mut last: String = String::new();
    let mut any: bool = false;
    let mut n: usize = 0;
    while n < layers.len()
        invariant
            n <= layers@.len(),
            lv == types::row_texts(layers@),
            any == (column_parts(lv, k as int, n as int).len() > 0),
            any ==> last@ == column_parts(lv, k as int, n as int).last(),
            out@ == spaced_parts(
                column_parts(lv, k as int, n as int),
                column_parts(lv, k as int, n as int).len() as int,
            ),
        decreases layers.len() - n,
    {
        let ghost before = column_parts(lv, k as int, n as int);
        proof {
            assert(lv[n as int] == types::texts(layers@[n as int]@));
        }
        if k < layers[n].len() && !layers[n][k].as_str().is_empty() {
            let s: String = layers[n][k].clone();
            proof {
                assert(cell_or_empty(lv[n as int], k as int) == s@);
            }
            if !(any && last == s) {
                proof {
                    lemma_spaced_prefix(before, before.push(s@), before.len() as int);
                }
                if any {
                    out.push(' ');
                }
                out.append(s.as_str());
                proof {
                    assert(before.len() == 0 ==> out@ =~= s@);
                }
                last = s;
                any = true;
            }
        } else {
            proof {
                assert(cell_or_empty(lv[n as int], k as int).len() == 0);
            }
        }
        n = n + 1;
    }
    out
}

proof fn lemma_spaced_prefix(a: Seq<Seq<char>>, b: Seq<Seq<char>>, n: int)
    requires
        n <= a.len(),
        n <= b.len(),
        forall|i: int| 0 <= i < n ==> a[i] == b[i],
    ensures
        spaced_parts(a, n) == spaced_parts(b, n),
    decreases n,
{
    if n > 1 {
        lemma_spaced_prefix(a, b, n - 1);
    }
}

fn flatten_layers(layers: &Vec<Vec<String>>, columns: usize) -> (r: Vec<String>)
    ensures
        types::texts(r@) == flattened(types::row_texts(layers@), columns as nat),
{
    let ghost want = flattened(types::row_texts(layers@), columns as nat);
    let mut out: Vec<String> = Vec::new();
    let mut k: usize = 0;
    while k < columns
        invariant
            k <= columns,
            want == flattened(types::row_texts(layers@), columns as nat),
            out@.len() == k,
            forall|i: int| 0 <= i < k ==> (#[trigger] out@[i])@ == want[i],
        decreases columns - k,
    {
        out.push(flatten_column(layers, k));
        k = k + 1;
    }
    proof {
        assert(types::texts(out@) =~= want);
    }
    out
}

/// Whether a line between two pieces of a table can be a row of it.
pub fn is_absorbable_interstitial(line: &ProjectedLine) -> (r: bool)
    ensures
        r == is_absorbable(*line),
{
    let row: Vec<TableCell> = cells::split_cells(line);
    proof {
        assert(cells::cell_views(row@).len() == row@.len());
    }
    if row.len() > 1 {
        return false;
    }
    let t = text::trim(line.text.as_str());
    let n: usize = t.unicode_len();
    if n > INTERSTITIAL_MAX_CHARS {
        return false;
    }
    if n == 0 {
        return true;
    }
    let last: char = t.get_char(n - 1);
    !((last == '.' || last == '!' || last == '?') && text::byte_length(t) > 6)
}

fn push_row(out: &mut Vec<Vec<String>>, row: Vec<String>)
    ensures
        types::row_texts(final(out)@) == types::row_texts(old(out)@).push(types::texts(row@)),
{
    let ghost before = types::row_texts(out@);
    proof {
        assert(types::row_texts(out@.push(row)) =~= before.push(types::texts(row@)));
    }
    out.push(row);
}

fn push_rows(out: &mut Vec<Vec<String>>, rows: &Vec<Vec<String>>)
    ensures
        types::row_texts(final(out)@) == types::row_texts(old(out)@) + types::row_texts(rows@),
{
    let ghost before = types::row_texts(out@);
    let ghost rv = types::row_texts(rows@);
    let mut i: usize = 0;
    proof {
        assert(before + rv.take(0) =~= before);
    }
    while i < rows.len()
        invariant
            i <= rows@.len(),
            rv == types::row_texts(rows@),
            types::row_texts(out@) == before + rv.take(i as int),
        decreases rows.len() - i,
    {
        push_row(out, types::clone_strings(&rows[i]));
        proof {
            assert(rv[i as int] == types::texts(rows@[i as int]@));
            assert((before + rv.take(i as int)).push(rv[i as int]) =~= before + rv.take(i + 1));
        }
        i = i + 1;
    }
    proof {
        assert(rv.take(rv.len() as int) =~= rv);
    }
}

fn push_padded(out: &mut Vec<Vec<String>>, rows: &Vec<Vec<String>>, skip: usize, columns: usize)
    ensures
        types::row_texts(final(out)@) == types::row_texts(old(out)@) + padded_rows(
            types::row_texts(rows@),
            skip as int,
            columns as nat,
        ),
{
    let ghost before = types::row_texts(out@);
    let ghost rv = types::row_texts(rows@);
    let ghost pv = padded_rows(rv, skip as int, columns as nat);
    let mut i: usize = 0;
    proof {
        assert(before + pv.take(0) =~= before);
    }
    while i < rows.len()
        invariant
            i <= rows@.len(),
            rv == types::row_texts(rows@),
            pv == padded_rows(rv, skip as int, columns as nat),
            types::row_texts(out@) == before + pv.take(i as int),
        decreases rows.len() - i,
    {
        push_row(out, pad_row_to_layout(&rows[i], skip, columns));
        proof {
            assert(rv[i as int] == types::texts(rows@[i as int]@));
            assert((before + pv.take(i as int)).push(pv[i as int]) =~= before + pv.take(i + 1));
        }
        i = i + 1;
    }
    proof {
        assert(pv.take(pv.len() as int) =~= pv);
    }
}

fn push_labels(
    out: &mut Vec<Vec<String>>,
    lines: &Vec<ProjectedLine>,
    from: usize,
    to: usize,
    columns: usize,
)
    requires
        to <= lines@.len(),
    ensures
        types::row_texts(final(out)@) == types::row_texts(old(out)@) + label_rows(
            lines@,
            from as int,
            to as int,
            columns as nat,
        ),
{
    let ghost before = types::row_texts(out@);
    let ghost pv = label_rows(lines@, from as int, to as int, columns as nat);
    let mut i: usize = from;
    proof {
        assert(before + pv.take(0) =~= before);
    }
    while i < to
        invariant
            from <= i,
            to <= lines@.len(),
            from < to ==> i <= to,
            pv == label_rows(lines@, from as int, to as int, columns as nat),
            types::row_texts(out@) == before + pv.take(i - from),
            from >= to ==> i == from,
        decreases to - i,
    {
        push_row(out, row_with_label(text::trim(lines[i].text.as_str()), columns));
        proof {
            assert((before + pv.take(i - from)).push(pv[i - from]) =~= before + pv.take(
                i - from + 1,
            ));
        }
        i = i + 1;
    }
    proof {
        assert(pv.take(pv.len() as int) =~= pv);
    }
}

fn clone_header(h: &Option<Vec<String>>) -> (r: Option<Vec<String>>)
    ensures
        types::header_texts(r) == types::header_texts(*h),
{
    match h {
        Some(v) => Some(types::clone_strings(v)),
        None => None,
    }
}

/// Two neighbouring tables as one, where they belong together.
pub fn try_merge_pair(a: &TableRun, b: &TableRun, lines: &Vec<ProjectedLine>) -> (r: Option<
    TableRun,
>)
    requires
        lines_at_hand(lines@, a@, b@),
    ensures
        match r {
            Some(run) => joined_pair(lines@, a@, b@) == Some(run@) && run.start == a.start
                && run.end == b.end,
            None => joined_pair(lines@, a@, b@) is None,
        },
{
    if b.start > a.end && (b.start - a.end > 1 || !is_absorbable_interstitial(&lines[a.end])) {
        return None;
    }
    let a_cols: usize = match run_column_count(&a.block) {
        Some(n) => n,
        None => {
            return None;
        },
    };
    let b_cols: usize = match run_column_count(&b.block) {
        Some(n) => n,
        None => {
            return None;
        },
    };
    let total: usize = lines.len();
    let a_end: usize = if a.end < total {
        a.end
    } else {
        total
    };
    let a_tracks: Vec<Track> = match run_body_tracks(lines, a_cols, a.start, a_end) {
        Some(v) => v,
        None => {
            return None;
        },
    };
    let b_end: usize = if b.end < total {
        b.end
    } else {
        total
    };
    let b_tracks: Vec<Track> = match run_body_tracks(lines, b_cols, b.start, b_end) {
        Some(v) => v,
        None => {
            return None;
        },
    };
    if a.end == 0 || a.end > total || b.start >= total {
        return None;
    }
    let above = &lines[a.end - 1];
    let below = &lines[b.start];
    let height: i64 = rows::taller(above, below);
    let gap: i64 = rows::gap_between(above, below);
    if gap > 2 * height || gap < -height {
        return None;
    }
    match &a.block {
        Block::Table { header: a_header, rows: a_rows } => match &b.block {
            Block::Table { header: b_header, rows: b_rows } => {
                if a_cols == b_cols && tracks_align_same(&a_tracks, &b_tracks) {
                    if a_header.is_some() && b_header.is_some() && a_rows.len() >= 3
                        && b_rows.len() >= 3 && gap > height {
                        return None;
                    }
                    let header: Option<Vec<String>> = if a_header.is_some() {
                        clone_header(a_header)
                    } else {
                        clone_header(b_header)
                    };
                    let mut out: Vec<Vec<String>> = types::clone_rows(a_rows);
                    let ghost ar = types::row_texts(a_rows@);
                    let ghost labels = label_rows(
                        lines@,
                        a@.end,
                        b@.start,
                        b_cols as nat,
                    );
                    push_labels(&mut out, lines, a.end, b.start, b_cols);
                    let ghost extra = if a_header is Some {
                        as_rows(types::header_texts(*b_header))
                    } else {
                        seq![]
                    };
                    if a_header.is_some() {
                        match b_header {
                            Some(h) => {
                                push_row(&mut out, types::clone_strings(h));
                            },
                            None => {},
                        }
                    }
                    proof {
                        assert(types::row_texts(out@) =~= ar + labels + extra);
                    }
                    push_rows(&mut out, b_rows);
                    return Some(
                        TableRun {
                            start: a.start,
                            end: b.end,
                            block: Block::Table { header, rows: out },
                        },
                    );
                }
                if a_cols < b_cols && b_cols - a_cols == 1 && a_rows.len()
                    <= HEADER_MAX_ABSORB_ROWS {
                    let skip: usize = match subset_mapping(&a_tracks, &b_tracks) {
                        Some(k) => k,
                        None => {
                            return None;
                        },
                    };
                    let mut layers: Vec<Vec<String>> = Vec::new();
                    let ghost first = padded_rows(
                        as_rows(types::header_texts(*a_header)),
                        skip as int,
                        b_cols as nat,
                    );
                    let ghost second = padded_rows(
                        types::row_texts(a_rows@),
                        skip as int,
                        b_cols as nat,
                    );
                    let ghost third = as_rows(types::header_texts(*b_header));
                    proof {
                        assert(types::row_texts(layers@) =~= seq![]);
                    }
                    match a_header {
                        Some(h) => {
                            push_row(&mut layers, pad_row_to_layout(h, skip, b_cols));
                        },
                        None => {},
                    }
                    proof {
                        assert(types::row_texts(layers@) =~= first);
                    }
                    push_padded(&mut layers, a_rows, skip, b_cols);
                    match b_header {
                        Some(h) => {
                            push_row(&mut layers, types::clone_strings(h));
                        },
                        None => {},
                    }
                    proof {
                        assert(types::row_texts(layers@) =~= first + second + third);
                        assert(types::row_texts(layers@).len() == layers@.len());
                    }
                    if layers.len() == 0 {
                        return None;
                    }
                    let header: Vec<String> = flatten_layers(&layers, b_cols);
                    let mut out: Vec<Vec<String>> = Vec::new();
                    let ghost labels = label_rows(
                        lines@,
                        a@.end,
                        b@.start,
                        b_cols as nat,
                    );
                    push_labels(&mut out, lines, a.end, b.start, b_cols);
                    proof {
                        assert(types::row_texts(out@) =~= labels);
                    }
                    push_rows(&mut out, b_rows);
                    return Some(
                        TableRun {
                            start: a.start,
                            end: b.end,
                            block: Block::Table { header: Some(header), rows: out },
                        },
                    );
                }
                None
            },
            _ => None,
        },
        _ => None,
    }
}

/// Whether every run fits and they follow each other.
pub open spec fn runs_valid(v: Seq<RunView>, n: int) -> bool {
    rows::runs_fit(v, n) && rows::runs_in_sequence(v)
}

/// The runs, each joined with the one before where that is possible.
pub fn merge_consecutive_table_runs(runs: &Vec<TableRun>, lines: &Vec<ProjectedLine>) -> (r: Vec<
    TableRun,
>)
    requires
        runs_valid(rows::run_views(runs@), lines@.len() as int),
    ensures
        rows::run_views(r@) == joined_upto(lines@, rows::run_views(runs@), runs@.len() as int),
        runs_valid(rows::run_views(r@), lines@.len() as int),
{
    let ghost rv = rows::run_views(runs@);
    let ghost n = lines@.len() as int;
    let mut out: Vec<TableRun> = Vec::new();
    let mut i: usize = 0;
    proof {
        assert(rows::run_views(out@) =~= seq![]);
    }
    while i < runs.len()
        invariant
            i <= runs@.len(),
            rv == rows::run_views(runs@),
            n == lines@.len(),
            runs_valid(rv, n),
            rows::run_views(out@) == joined_upto(lines@, rv, i as int),
            runs_valid(rows::run_views(out@), n),
            forall|k: int|
                0 <= k < out@.len() && i < runs@.len() ==> (#[trigger] rows::run_views(
                    out@,
                )[k]).end <= rv[i as int].start,
        decreases runs.len() - i,
    {
        let ghost before = rows::run_views(out@);
        proof {
            assert(rv[i as int] == runs@[i as int]@);
            assert(rows::run_fits(rv[i as int], n));
        }
        let mut done: bool = false;
        if out.len() > 0 {
            let top: usize = out.len() - 1;
            proof {
                assert(before.last() == out@[top as int]@);
                assert(rows::run_fits(before[top as int], n));
                assert(before[top as int].end <= rv[i as int].start);
            }
            match try_merge_pair(&out[top], &runs[i], lines) {
                Some(run) => {
                    let ghost joined = before.drop_last().push(run@);
                    proof {
                        assert(rows::run_views(out@.update(top as int, run)) =~= joined);
                        assert forall|k: int| 0 <= k < joined.len() implies rows::run_fits(
                            #[trigger] joined[k],
                            n,
                        ) by {
                            if k < top {
                                assert(rows::run_fits(before[k], n));
                            }
                        }
                        assert forall|a: int, b: int| 0 <= a < b < joined.len() implies (
                        #[trigger] joined[a]).end <= (#[trigger] joined[b]).start by {
                            assert(before[a].end <= before[b].start);
                        }
                    }
                    out.set(top, run);
                    done = true;
                },
                None => {},
            }
        }
        if !done {
            let c: TableRun = rows::clone_run(&runs[i]);
            proof {
                assert(rows::run_views(out@.push(c)) =~= before.push(c@));
            }
            out.push(c);
        }
        proof {
            let after = rows::run_views(out@);
            if i + 1 < runs@.len() {
                assert forall|k: int| 0 <= k < after.len() implies (#[trigger] after[k]).end
                    <= rv[i + 1].start by {
                    assert(rv[i as int].end <= rv[i + 1].start);
                    assert(rows::run_fits(rv[i as int], n));
                    if k < after.len() - 1 {
                        assert(before[k].end <= rv[i as int].start);
                    }
                }
            }
        }
        i = i + 1;
    }
    out
}

} // verus!
