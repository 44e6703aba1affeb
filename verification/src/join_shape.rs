//! What joining two pieces of a table keeps.

use crate::join_tables;
use crate::rows::RunView;
use crate::table_text;
use crate::text;
use crate::tracks::Track;
use crate::types::{BlockView, ProjectedLine};
use vstd::prelude::*;

verus! {

/// Whether a table shows all cells of another that hold text.
pub open spec fn shows_all(grid: Seq<Seq<Seq<char>>>, other: Seq<Seq<Seq<char>>>) -> bool {
    forall|r: int, k: int|
        0 <= r < other.len() && 0 <= k < other[r].len() && (#[trigger] other[r][k]).len() > 0
            ==> table_text::is_shown_in(grid, other[r][k])
}

/// Whether a grid has all rows of another.
spec fn has_rows(grid: Seq<Seq<Seq<char>>>, other: Seq<Seq<Seq<char>>>) -> bool {
    forall|r: int| 0 <= r < other.len() ==> grid.contains(#[trigger] other[r])
}

proof fn lemma_has_rows(grid: Seq<Seq<Seq<char>>>, other: Seq<Seq<Seq<char>>>)
    requires
        has_rows(grid, other),
    ensures
        shows_all(grid, other),
{
    assert forall|r: int, k: int|
        0 <= r < other.len() && 0 <= k < other[r].len() && (#[trigger] other[r][k]).len()
            > 0 implies table_text::is_shown_in(grid, other[r][k]) by {
        assert(grid.contains(other[r]));
        let q = choose|q: int| 0 <= q < grid.len() && grid[q] == other[r];
        table_text::lemma_part_self(other[r][k]);
        assert(table_text::is_part_of(other[r][k], grid[q][k]));
    }
}

/// Whether no row of a table has more cells than the table has columns.
pub open spec fn is_regular(b: BlockView) -> bool {
    forall|r: int|
        0 <= r < table_text::grid_of(b).len() ==> (#[trigger] table_text::grid_of(b)[r]).len()
            <= join_tables::column_count(b)->0
}

/// Whether a table shows the lines from `from` to `to`.
pub open spec fn shows_between(
    grid: Seq<Seq<Seq<char>>>,
    lines: Seq<ProjectedLine>,
    from: int,
    to: int,
) -> bool {
    forall|j: int|
        from <= j < to ==> table_text::is_shown_in(
            grid,
            text::trim_of((#[trigger] lines[j]).text@),
        )
}

proof fn lemma_labels(
    lines: Seq<ProjectedLine>,
    from: int,
    to: int,
    columns: nat,
    grid: Seq<Seq<Seq<char>>>,
)
    requires
        columns > 0,
        has_rows(grid, join_tables::label_rows(lines, from, to, columns)),
    ensures
        shows_between(grid, lines, from, to),
{
    let labels = join_tables::label_rows(lines, from, to, columns);
    assert forall|j: int| from <= j < to implies table_text::is_shown_in(
        grid,
        text::trim_of((#[trigger] lines[j]).text@),
    ) by {
        let s = text::trim_of(lines[j].text@);
        let row = labels[j - from];
        assert(row[0] == s);
        assert(grid.contains(row));
        let q = choose|q: int| 0 <= q < grid.len() && grid[q] == row;
        table_text::lemma_part_self(s);
        assert(table_text::is_part_of(s, grid[q][0]));
    }
}

proof fn lemma_same(
    lines: Seq<ProjectedLine>,
    a: RunView,
    b: RunView,
    gap: int,
    height: int,
    columns: nat,
)
    requires
        a.block is Table,
        b.block is Table,
        columns > 0,
        join_tables::joined_same(lines, a, b, gap, height, columns) is Some,
    ensures
        ({
            let run = join_tables::joined_same(lines, a, b, gap, height, columns)->0;
            let grid = table_text::grid_of(run.block);
            &&& run.start == a.start && run.end == b.end
            &&& shows_all(grid, table_text::grid_of(a.block))
            &&& shows_all(grid, table_text::grid_of(b.block))
            &&& shows_between(grid, lines, a.end, b.start)
        }),
{
    let run = join_tables::joined_same(lines, a, b, gap, height, columns)->0;
    let grid = table_text::grid_of(run.block);
    let ah = a.block->header;
    let bh = b.block->header;
    let ar = a.block->rows;
    let br = b.block->rows;
    let labels = join_tables::label_rows(lines, a.end, b.start, columns);
    let ga = table_text::grid_of(a.block);
    let gb = table_text::grid_of(b.block);
    let top = if ah is Some {
        join_tables::as_rows(ah)
    } else {
        join_tables::as_rows(bh)
    };
    let low = if ah is Some {
        join_tables::as_rows(bh)
    } else {
        seq![]
    };
    assert(grid =~= top + (ar + labels + low + br));
    assert(ga =~= join_tables::as_rows(ah) + ar);
    assert(gb =~= join_tables::as_rows(bh) + br);
    let t = top.len() as int;
    assert forall|r: int| 0 <= r < ga.len() implies grid.contains(#[trigger] ga[r]) by {
        if r < join_tables::as_rows(ah).len() {
            assert(grid[r] == ga[r]);
        } else {
            let i = r - join_tables::as_rows(ah).len();
            assert(grid[t + i] == ar[i]);
        }
    }
    assert forall|r: int| 0 <= r < gb.len() implies grid.contains(#[trigger] gb[r]) by {
        let h = join_tables::as_rows(bh).len() as int;
        if r < h {
            if ah is Some {
                assert(grid[t + ar.len() + labels.len() + r] == gb[r]);
            } else {
                assert(grid[r] == gb[r]);
            }
        } else {
            let i = r - h;
            assert(grid[t + ar.len() + labels.len() + low.len() + i] == br[i]);
        }
    }
    assert forall|r: int| 0 <= r < labels.len() implies grid.contains(#[trigger] labels[r]) by {
        assert(grid[t + ar.len() + r] == labels[r]);
    }
    lemma_has_rows(grid, ga);
    lemma_has_rows(grid, gb);
    lemma_labels(lines, a.end, b.start, columns, grid);
}

proof fn lemma_spaced(parts: Seq<Seq<char>>, i: int, n: int)
    requires
        0 <= i < n <= parts.len(),
    ensures
        table_text::is_part_of(parts[i], join_tables::spaced_parts(parts, n)),
    decreases n,
{
    let all = join_tables::spaced_parts(parts, n);
    if n == 1 {
        table_text::lemma_part_self(parts[0]);
    } else {
        let before = join_tables::spaced_parts(parts, n - 1);
        if i < n - 1 {
            lemma_spaced(parts, i, n - 1);
            assert(all.subrange(0, 0 + before.len() as int) =~= before);
            table_text::lemma_part_through(parts[i], before, all);
        } else {
            let k = all.len() - parts[i].len();
            assert(all.subrange(k, k + parts[i].len()) =~= parts[i]);
        }
    }
}

proof fn lemma_layer(layers: Seq<Seq<Seq<char>>>, k: int, l: int, n: int)
    requires
        0 <= l < n <= layers.len(),
        0 <= k < layers[l].len(),
        layers[l][k].len() > 0,
    ensures
        join_tables::column_parts(layers, k, n).contains(layers[l][k]),
    decreases n,
{
    let all = join_tables::column_parts(layers, k, n);
    let before = join_tables::column_parts(layers, k, n - 1);
    let s = layers[l][k];
    if l < n - 1 {
        lemma_layer(layers, k, l, n - 1);
        let i = choose|i: int| 0 <= i < before.len() && before[i] == s;
        assert(all[i] == s);
    } else {
        assert(all[all.len() - 1] == s);
    }
}

proof fn lemma_flattened(layers: Seq<Seq<Seq<char>>>, columns: nat, l: int, k: int)
    requires
        0 <= l < layers.len(),
        0 <= k < layers[l].len(),
        k < columns,
        layers[l][k].len() > 0,
    ensures
        table_text::is_part_of(layers[l][k], join_tables::flattened(layers, columns)[k]),
{
    let n = layers.len() as int;
    let parts = join_tables::column_parts(layers, k, n);
    lemma_layer(layers, k, l, n);
    let i = choose|i: int| 0 <= i < parts.len() && parts[i] == layers[l][k];
    lemma_spaced(parts, i, parts.len() as int);
}

proof fn lemma_header(lines: Seq<ProjectedLine>, a: RunView, b: RunView, skip: int, columns: nat)
    requires
        a.block is Table,
        b.block is Table,
        is_regular(a.block),
        is_regular(b.block),
        0 <= skip < columns,
        join_tables::column_count(a.block) is Some,
        join_tables::column_count(a.block)->0 + 1 == columns,
        join_tables::column_count(b.block) == Some(columns as int),
        join_tables::joined_header(lines, a, b, skip, columns) is Some,
    ensures
        ({
            let run = join_tables::joined_header(lines, a, b, skip, columns)->0;
            let grid = table_text::grid_of(run.block);
            &&& run.start == a.start && run.end == b.end
            &&& shows_all(grid, table_text::grid_of(a.block))
            &&& shows_all(grid, table_text::grid_of(b.block))
            &&& shows_between(grid, lines, a.end, b.start)
        }),
{
    let run = join_tables::joined_header(lines, a, b, skip, columns)->0;
    let grid = table_text::grid_of(run.block);
    let ah = join_tables::as_rows(a.block->header);
    let bh = join_tables::as_rows(b.block->header);
    let ar = a.block->rows;
    let br = b.block->rows;
    let layers = join_tables::padded_rows(ah, skip, columns) + join_tables::padded_rows(
        ar,
        skip,
        columns,
    ) + bh;
    let head = join_tables::flattened(layers, columns);
    let labels = join_tables::label_rows(lines, a.end, b.start, columns);
    let ga = table_text::grid_of(a.block);
    let gb = table_text::grid_of(b.block);
    assert(grid =~= seq![head] + (labels + br));
    assert(grid[0] == head);
    assert(ga =~= ah + ar);
    assert(gb =~= bh + br);
    assert forall|r: int, k: int|
        0 <= r < ga.len() && 0 <= k < ga[r].len() && (#[trigger] ga[r][k]).len()
            > 0 implies table_text::is_shown_in(grid, ga[r][k]) by {
        assert(ga[r].len() <= columns - 1);
        assert(layers[r] == join_tables::padded(ga[r], skip, columns));
        let q = if k < skip {
            k
        } else {
            k + 1
        };
        assert(layers[r][q] == ga[r][k]);
        lemma_flattened(layers, columns, r, q);
        assert(table_text::is_part_of(ga[r][k], grid[0][q]));
    }
    assert forall|r: int, k: int|
        0 <= r < gb.len() && 0 <= k < gb[r].len() && (#[trigger] gb[r][k]).len()
            > 0 implies table_text::is_shown_in(grid, gb[r][k]) by {
        assert(gb[r].len() <= columns);
        if r < bh.len() {
            let l = ah.len() + ar.len() + r;
            assert(layers[l] == gb[r]);
            lemma_flattened(layers, columns, l, k);
            assert(table_text::is_part_of(gb[r][k], grid[0][k]));
        } else {
            let q = 1 + labels.len() + (r - bh.len());
            assert(grid[q] == gb[r]);
            table_text::lemma_part_self(gb[r][k]);
            assert(table_text::is_part_of(gb[r][k], grid[q][k]));
        }
    }
    assert forall|r: int| 0 <= r < labels.len() implies grid.contains(#[trigger] labels[r]) by {
        assert(grid[1 + r] == labels[r]);
    }
    lemma_labels(lines, a.end, b.start, columns, grid);
}

proof fn lemma_skip(a: Seq<Track>, b: Seq<Track>, n: int)
    ensures
        join_tables::best_skip(a, b, n) matches Some(k) ==> 0 <= k < n,
    decreases n,
{
    if n > 0 {
        lemma_skip(a, b, n - 1);
    }
}

/// Joining two pieces of a table loses no text: each cell of either piece, and the line
/// between them, is shown in the table that they make.
pub proof fn law_joined_tables_keep_their_text(
    lines: Seq<ProjectedLine>,
    a: RunView,
    b: RunView,
)
    requires
        is_regular(a.block),
        is_regular(b.block),
        join_tables::column_count(b.block) is Some ==> join_tables::column_count(b.block)->0 > 0,
        join_tables::joined_pair(lines, a, b) is Some,
    ensures
        ({
            let run = join_tables::joined_pair(lines, a, b)->0;
            let grid = table_text::grid_of(run.block);
            &&& run.start == a.start && run.end == b.end
            &&& shows_all(grid, table_text::grid_of(a.block))
            &&& shows_all(grid, table_text::grid_of(b.block))
            &&& shows_between(grid, lines, a.end, b.start)
        }),
{
    let ac = join_tables::column_count(a.block)->0;
    let bc = join_tables::column_count(b.block)->0;
    let at = join_tables::run_tracks(lines, a, ac)->0;
    let bt = join_tables::run_tracks(lines, b, bc)->0;
    let gap = crate::rows::gap_below(lines[a.end - 1], lines[b.start]);
    let height = crate::rows::row_height(lines[a.end - 1], lines[b.start]);
    if ac == bc && join_tables::same_tracks(at, bt) {
        lemma_same(lines, a, b, gap, height, bc as nat);
    } else {
        let skip = join_tables::subset_skip(at, bt)->0;
        lemma_skip(at, bt, bt.len() as int);
        lemma_tracks(
            lines,
            bc,
            b.start,
            if b.end <= lines.len() {
                b.end
            } else {
                lines.len() as int
            },
        );
        lemma_header(lines, a, b, skip, bc as nat);
    }
}

proof fn lemma_tracks(lines: Seq<ProjectedLine>, columns: int, from: int, to: int)
    ensures
        join_tables::body_tracks(lines, columns, from, to) matches Some(v) ==> v.len() == columns,
    decreases to - from,
{
    if to > from {
        lemma_tracks(lines, columns, from, to - 1);
    }
}

/// Whether two tables can be pieces of one: they are at most two line heights apart, one
/// short line may stand between them, and the middles of their columns agree to within six
/// points; or the upper one has one column less and at most three rows, as a header has.
pub open spec fn can_be_joined(lines: Seq<ProjectedLine>, a: RunView, b: RunView) -> bool {
    let above = lines[a.end - 1];
    let below = lines[b.start];
    let gap = below.bbox.y - (above.bbox.y + above.bbox.height);
    let ac = join_tables::column_count(a.block);
    let bc = join_tables::column_count(b.block);
    &&& b.start <= a.end + 1
    &&& b.start == a.end + 1 ==> text::trim_of(lines[a.end].text@).len() <= 60
    &&& gap <= 2 * above.bbox.height || gap <= 2 * below.bbox.height || gap <= 2_000
    &&& ac is Some && bc is Some
    &&& {
        ||| ac == bc && has_columns_of(lines, a, b, ac->0)
        ||| ac->0 + 1 == bc->0 && a.block->rows.len() <= 3
    }
}

/// Whether the middles of the columns of two tables agree to within six points.
pub open spec fn has_columns_of(
    lines: Seq<ProjectedLine>,
    a: RunView,
    b: RunView,
    columns: int,
) -> bool {
    let at = join_tables::run_tracks(lines, a, columns);
    let bt = join_tables::run_tracks(lines, b, columns);
    &&& at is Some && bt is Some
    &&& at->0.len() == bt->0.len()
    &&& forall|i: int|
        0 <= i < at->0.len() ==> -12_000 <= ((#[trigger] at->0[i]).start + at->0[i].end) - (
        bt->0[i].start + bt->0[i].end) <= 12_000
}

/// Only tables that can be pieces of one are joined.
pub proof fn law_joined_tables_belong_together(
    lines: Seq<ProjectedLine>,
    a: RunView,
    b: RunView,
)
    requires
        join_tables::joined_pair(lines, a, b) is Some,
    ensures
        can_be_joined(lines, a, b),
{
}

} // verus!
