//! What a table of labels and their texts keeps of its lines.

use crate::cells;
use crate::cells::CellView;
use crate::entries;
use crate::entries::{EntryStep, EntryView};
use crate::label_text;
use crate::table_text;
use crate::text;
use crate::types;
use crate::types::{BlockView, ProjectedLine};
use vstd::prelude::*;

verus! {

/// Whether an entry holds the cells of a line: a label and its text, a text that goes on, or
/// both as one text that is cut at white space.
pub open spec fn holds_cells(row: Seq<CellView>, label: Seq<char>, value: Seq<char>) -> bool {
    ||| row.len() == 2 && label == row[0].text && table_text::is_part_of(row[1].text, value)
    ||| row.len() == 1 && table_text::is_part_of(row[0].text, value)
    ||| row.len() == 1 && exists|v: Seq<char>|
        #[trigger] table_text::is_part_of(v, value) && text::ink_of(row[0].text) == text::ink_of(
            label,
        ) + text::ink_of(v)
}

/// Whether an entry among those found holds the cells of a line.
pub open spec fn is_held(row: Seq<CellView>, found: Seq<EntryView>) -> bool {
    exists|i: int|
        0 <= i < found.len() && holds_cells(row, (#[trigger] found[i]).label, found[i].value)
}

/// Whether a cell begins at a column, to within eight points.
pub open spec fn begins_at(c: CellView, x: int) -> bool {
    -8_000 <= c.start_x - x <= 8_000
}

/// Whether a line fits the columns at `x0` and `x1`: a label at the first one and a text at
/// the second one, or one cell that begins at either.
pub open spec fn fits_columns(row: Seq<CellView>, x0: int, x1: int) -> bool {
    ||| row.len() == 2 && begins_at(row[0], x0) && begins_at(row[1], x1)
    ||| row.len() == 1 && (begins_at(row[0], x1) || begins_at(row[0], x0) && row[0].end_x > x1
        + 8_000)
}

proof fn lemma_continued(row: Seq<CellView>, e: EntryView, t: Seq<char>)
    requires
        holds_cells(row, e.label, e.value),
    ensures
        holds_cells(row, e.label, entries::entry_continued(e, t).value),
{
    let more = entries::entry_continued(e, t).value;
    assert(more.subrange(0, 0 + e.value.len() as int) =~= e.value);
    assert(table_text::is_part_of(e.value, more));
    if row.len() == 2 && e.label == row[0].text && table_text::is_part_of(row[1].text, e.value) {
        table_text::lemma_part_through(row[1].text, e.value, more);
    } else if row.len() == 1 && table_text::is_part_of(row[0].text, e.value) {
        table_text::lemma_part_through(row[0].text, e.value, more);
    } else {
        let v = choose|v: Seq<char>|
            #[trigger] table_text::is_part_of(v, e.value) && text::ink_of(row[0].text)
                == text::ink_of(e.label) + text::ink_of(v);
        table_text::lemma_part_through(v, e.value, more);
    }
}

proof fn lemma_nearest_space(cs: Seq<char>, target: int, n: int)
    requires
        0 <= n <= cs.len(),
    ensures
        entries::nearest_space_upto(cs, target, n) matches Some(k) ==> 0 <= k < n && text::is_ws(
            cs[k],
        ),
    decreases n,
{
    if n > 0 {
        lemma_nearest_space(cs, target, n - 1);
    }
}

/// Cutting a text at a column loses white space and nothing else.
pub proof fn law_cut_keeps_ink(cs: Seq<char>, start: int, end: int, anchor: int)
    requires
        entries::split_at_anchor(cs, start, end, anchor) is Some,
    ensures
        ({
            let p = entries::split_at_anchor(cs, start, end, anchor)->0;
            &&& p.0.len() > 0 && p.1.len() > 0
            &&& text::ink_of(p.0) + text::ink_of(p.1) == text::ink_of(cs)
        }),
{
    let n = cs.len() as int;
    let target = entries::anchor_index(n, start, end, anchor);
    lemma_nearest_space(cs, target, n);
    let k = entries::nearest_space_upto(cs, target, n)->0;
    let a = cs.take(k);
    let b = cs.skip(k + 1);
    text::law_trim_keeps_ink(a);
    text::law_trim_keeps_ink(b);
    text::lemma_ink_pushed(a, cs[k]);
    text::lemma_ink_joined(a.push(cs[k]), b);
    assert(cs =~= a.push(cs[k]) + b);
}

/// A text is cut at white space, and at the white space nearest to where the column lies if
/// its characters are spread evenly.
pub proof fn law_cut_is_nearest(cs: Seq<char>, target: int, n: int)
    requires
        0 <= n <= cs.len(),
    ensures
        match entries::nearest_space_upto(cs, target, n) {
            Some(k) => 0 <= k < n && text::is_ws(cs[k]) && forall|j: int|
                0 <= j < n && text::is_ws(#[trigger] cs[j]) ==> types::dist(k, target)
                    <= types::dist(j, target),
            None => forall|j: int| 0 <= j < n ==> !text::is_ws(#[trigger] cs[j]),
        },
    decreases n,
{
    if n > 0 {
        law_cut_is_nearest(cs, target, n - 1);
    }
}

/// Whether the lines from `start` to `j` fit the columns and are held by the entries.
pub open spec fn are_held(
    lines: Seq<ProjectedLine>,
    x0: int,
    x1: int,
    found: Seq<EntryView>,
    start: int,
    j: int,
) -> bool {
    forall|i: int|
        start <= i < j ==> is_held(cells::cells_of(#[trigger] lines[i]), found) && fits_columns(
            cells::cells_of(lines[i]),
            x0,
            x1,
        )
}

proof fn lemma_pushed(
    lines: Seq<ProjectedLine>,
    x0: int,
    x1: int,
    found: Seq<EntryView>,
    e: EntryView,
    start: int,
    j: int,
)
    requires
        are_held(lines, x0, x1, found, start, j),
        holds_cells(cells::cells_of(lines[j]), e.label, e.value),
        fits_columns(cells::cells_of(lines[j]), x0, x1),
    ensures
        are_held(lines, x0, x1, found.push(e), start, j + 1),
{
    let more = found.push(e);
    assert forall|i: int| start <= i < j + 1 implies is_held(
        cells::cells_of(#[trigger] lines[i]),
        more,
    ) && fits_columns(cells::cells_of(lines[i]), x0, x1) by {
        let row = cells::cells_of(lines[i]);
        if i < j {
            assert(is_held(row, found));
            let k = choose|k: int|
                0 <= k < found.len() && holds_cells(row, (#[trigger] found[k]).label, found[k].value);
            assert(more[k] == found[k]);
        } else {
            assert(more[found.len() as int] == e);
        }
    }
}

proof fn lemma_grown(
    lines: Seq<ProjectedLine>,
    x0: int,
    x1: int,
    found: Seq<EntryView>,
    t: Seq<char>,
    start: int,
    j: int,
)
    requires
        found.len() > 0,
        are_held(lines, x0, x1, found, start, j),
        cells::cells_of(lines[j]).len() == 1,
        cells::cells_of(lines[j])[0].text == t,
        fits_columns(cells::cells_of(lines[j]), x0, x1),
    ensures
        are_held(
            lines,
            x0,
            x1,
            found.drop_last().push(entries::entry_continued(found.last(), t)),
            start,
            j + 1,
        ),
{
    let e = entries::entry_continued(found.last(), t);
    let more = found.drop_last().push(e);
    let m = found.len() - 1;
    assert(more[m] == e);
    assert forall|i: int| start <= i < j + 1 implies is_held(
        cells::cells_of(#[trigger] lines[i]),
        more,
    ) && fits_columns(cells::cells_of(lines[i]), x0, x1) by {
        let row = cells::cells_of(lines[i]);
        if i < j {
            assert(is_held(row, found));
            let k = choose|k: int|
                0 <= k < found.len() && holds_cells(row, (#[trigger] found[k]).label, found[k].value);
            if k < m {
                assert(more[k] == found[k]);
            } else {
                lemma_continued(row, found[k], t);
                assert(holds_cells(row, more[m].label, more[m].value));
            }
        } else {
            let k = e.value.len() - t.len();
            assert(e.value.subrange(k, k + t.len()) =~= t);
            assert(table_text::is_part_of(t, e.value));
            assert(holds_cells(row, more[m].label, more[m].value));
        }
    }
}

proof fn lemma_entries(
    lines: Seq<ProjectedLine>,
    x0: int,
    x1: int,
    found: Seq<EntryView>,
    pairs: int,
    start: int,
    j: int,
)
    requires
        0 <= start < j <= lines.len(),
        found.len() > 0,
        are_held(lines, x0, x1, found, start, j),
    ensures
        ({
            let scan = entries::entries_from(lines, x0, x1, found, pairs, j);
            &&& j <= scan.end <= lines.len()
            &&& scan.entries.len() > 0
            &&& are_held(lines, x0, x1, scan.entries, start, scan.end)
        }),
    decreases lines.len() - j,
{
    if j < lines.len() {
        let row = cells::cells_of(lines[j]);
        match entries::entry_step(lines, x0, x1, found, j) {
            EntryStep::Pair(e) => {
                table_text::lemma_part_self(e.value);
                lemma_pushed(lines, x0, x1, found, e, start, j);
                lemma_entries(lines, x0, x1, found.push(e), pairs + 1, start, j + 1);
            },
            EntryStep::Split(e) => {
                table_text::lemma_part_self(e.value);
                law_cut_keeps_ink(row[0].text, row[0].start_x, row[0].end_x, x1);
                assert(holds_cells(row, e.label, e.value));
                lemma_pushed(lines, x0, x1, found, e, start, j);
                lemma_entries(lines, x0, x1, found.push(e), pairs, start, j + 1);
            },
            EntryStep::More(t) => {
                lemma_grown(lines, x0, x1, found, t, start, j);
                lemma_entries(
                    lines,
                    x0,
                    x1,
                    found.drop_last().push(entries::entry_continued(found.last(), t)),
                    pairs,
                    start,
                    j + 1,
                );
            },
            EntryStep::Stop => {},
        }
    }
}

/// Whether rows of two cells are those of entries.
pub open spec fn tells_entries(b: BlockView, found: Seq<EntryView>) -> bool {
    &&& b is Table
    &&& b->header is None
    &&& b->rows.len() == found.len()
    &&& forall|i: int|
        0 <= i < found.len() ==> #[trigger] b->rows[i] == seq![found[i].label, found[i].value]
}

/// A table of entries takes lines whose cells stand in two columns, twelve points or more
/// apart at its first line, and each line is held by one of its rows: as label and text, or as
/// text that goes on. It has two rows or more.
pub proof fn law_entries_keep_their_text(lines: Seq<ProjectedLine>, start: int)
    requires
        0 <= start < lines.len(),
        entries::entry_table_at(lines, start) is Some,
    ensures
        ({
            let run = entries::entry_table_at(lines, start)->0;
            let first = cells::cells_of(lines[start]);
            &&& run.start == start < run.end <= lines.len()
            &&& first.len() == 2
            &&& first[1].start_x - first[0].end_x >= 12_000
            &&& exists|found: Seq<EntryView>| #[trigger]
                tells_entries(run.block, found) && found.len() >= 2 && are_held(
                    lines,
                    first[0].start_x,
                    first[1].start_x,
                    found,
                    start,
                    run.end,
                )
        }),
{
    let run = entries::entry_table_at(lines, start)->0;
    let first = cells::cells_of(lines[start]);
    let e = EntryView { line: start, label: first[0].text, value: first[1].text };
    let one = seq![e];
    table_text::lemma_part_self(first[1].text);
    assert(are_held(lines, first[0].start_x, first[1].start_x, one, start, start + 1)) by {
        assert(one[0] == e);
        assert(holds_cells(first, one[0].label, one[0].value));
        assert(is_held(first, one));
    }
    lemma_entries(lines, first[0].start_x, first[1].start_x, one, 1, start, start + 1);
    let scan = entries::entries_from(
        lines,
        first[0].start_x,
        first[1].start_x,
        one,
        1,
        start + 1,
    );
    assert(tells_entries(run.block, scan.entries));
}

/// Whether a text can be a label: at most 40 characters and four words, and no exclamation
/// or question.
pub open spec fn is_short(s: Seq<char>) -> bool {
    let t = text::trim_of(s);
    &&& 1 <= t.len() <= 40
    &&& 1 <= text::count_words(t, t.len() as int) <= 4
    &&& t.last() != '!' && t.last() != '?'
}

/// Labels are short.
pub proof fn law_labels_are_short(s: Seq<char>)
    ensures
        label_text::is_label(s) ==> is_short(s),
{
}

} // verus!
