//! What holds of the cells that a line is cut into: they hold all its runs, and are cut
//! where the gaps are wide.

use vstd::prelude::*;
use crate::cells;
use crate::cells::{CellView, CutState};
use crate::inline_shape;
use crate::span_text;
use crate::text;
use crate::types::{ProjectedLine, TextItem};

verus! {

/// The gap that a run leaves to the run before it.
pub open spec fn gap_before(spans: Seq<TextItem>, at: Seq<int>, k: int) -> int {
    let before = spans[at[k - 1]];
    spans[at[k]].x - before.x - (if before.width > 0 {
        before.width as int
    } else {
        0
    })
}

/// How many characters the runs at positions `at[i..j]` have, or those of them that are bold.
pub open spec fn chars_of_runs(
    spans: Seq<TextItem>,
    at: Seq<int>,
    i: int,
    j: int,
    bold_only: bool,
) -> int
    decreases j - i,
{
    if j <= i {
        0
    } else {
        chars_of_runs(spans, at, i, j - 1, bold_only) + if bold_only && !spans[at[j - 1]].bold {
            0
        } else {
            spans[at[j - 1]].text@.len() as int
        }
    }
}

/// The widest gap within a cell: the font size, or the height of the line, but a point at
/// least, where the size is not known.
pub open spec fn widest_gap(line: ProjectedLine) -> int {
    if line.dominant_font_size > 0 {
        line.dominant_font_size as int
    } else if line.bbox.height > 1_000 {
        line.bbox.height as int
    } else {
        1_000
    }
}

/// Whether a cell is made of the runs at positions `at[i..j]`, with no gap wider than `gap`
/// between them: it has their text, reaches from the first to the last of them, and is bold
/// where most of its characters are.
pub open spec fn is_cell_of(
    spans: Seq<TextItem>,
    at: Seq<int>,
    gap: int,
    i: int,
    j: int,
    c: CellView,
) -> bool {
    let last = spans[at[j - 1]];
    &&& 0 <= i < j <= at.len()
    &&& forall|k: int| i < k < j ==> #[trigger] gap_before(spans, at, k) <= gap
    &&& text::ink_of(c.text) == inline_shape::ink_of_runs(spans, at, i, j)
    &&& text::is_spaced(c.text)
    &&& c.start_x == spans[at[i]].x
    &&& c.end_x == last.x + (if last.width > 0 {
        last.width as int
    } else {
        0
    })
    &&& c.bold <==> 2 * chars_of_runs(spans, at, i, j, true) > chars_of_runs(
        spans,
        at,
        i,
        j,
        false,
    )
}

/// Whether the cells are made of all runs, cut where a gap is wider than `gap` and only there.
pub open spec fn are_cells(
    spans: Seq<TextItem>,
    at: Seq<int>,
    gap: int,
    cuts: Seq<int>,
    v: Seq<CellView>,
) -> bool {
    &&& cuts.len() == v.len() + 1
    &&& cuts[0] == 0
    &&& forall|g: int|
        0 <= g < v.len() ==> is_cell_of(spans, at, gap, cuts[g], cuts[g + 1], #[trigger] v[g])
    &&& forall|g: int| 0 < g < v.len() ==> gap_before(spans, at, #[trigger] cuts[g]) > gap
}

/// What is told of the cell being read: it is made of the runs from `from` to `n`.
spec fn is_cell_begun(
    spans: Seq<TextItem>,
    at: Seq<int>,
    gap: int,
    from: int,
    n: int,
    st: CutState,
) -> bool {
    let last = spans[at[n - 1]];
    &&& 0 <= from < n <= at.len()
    &&& text::ink_of(st.text) == inline_shape::ink_of_runs(spans, at, from, n)
    &&& st.start == spans[at[from]].x
    &&& st.right == last.x + (if last.width > 0 {
        last.width as int
    } else {
        0
    })
    &&& st.bold_chars == chars_of_runs(spans, at, from, n, true)
    &&& st.chars == chars_of_runs(spans, at, from, n, false)
    &&& forall|k: int| from < k < n ==> #[trigger] gap_before(spans, at, k) <= gap
}

proof fn lemma_cell_finished(
    spans: Seq<TextItem>,
    at: Seq<int>,
    gap: int,
    from: int,
    n: int,
    st: CutState,
)
    requires
        is_cell_begun(spans, at, gap, from, n, st),
    ensures
        is_cell_of(spans, at, gap, from, n, cells::finished_cell(st)),
{
    text::law_trim_keeps_ink(st.text);
    text::law_collapse_is_final(text::trim_of(st.text));
    text::lemma_collapsed_is_spaced(text::trim_of(st.text));
}

proof fn lemma_run_added(
    spans: Seq<TextItem>,
    at: Seq<int>,
    gap: int,
    from: int,
    n: int,
    st: CutState,
)
    requires
        0 <= n < at.len(),
        n > from ==> is_cell_begun(spans, at, gap, from, n, st) && gap_before(spans, at, n) <= gap,
        n == from ==> from >= 0 && st.text.len() == 0 && st.bold_chars == 0 && st.chars == 0
            && st.start == spans[at[n]].x,
        n >= from,
    ensures
        is_cell_begun(spans, at, gap, from, n + 1, cells::add_run(st, spans[at[n]])),
{
    let t = spans[at[n]].text@;
    let u = cells::add_run(st, spans[at[n]]);
    text::lemma_ink_joined(span_text::spaced(st.text), t);
    text::lemma_ink_pushed(st.text, ' ');
    if n == from {
        assert(st.text =~= seq![]);
        assert(text::ink_of(st.text) =~= seq![]);
        assert(inline_shape::ink_of_runs(spans, at, n, n) =~= seq![]);
        assert(chars_of_runs(spans, at, n, n, true) == 0);
        assert(chars_of_runs(spans, at, n, n, false) == 0);
    }
    assert(inline_shape::ink_of_runs(spans, at, from, n + 1) == inline_shape::ink_of_runs(
        spans,
        at,
        from,
        n,
    ) + text::ink_of(t));
}

proof fn lemma_cut(spans: Seq<TextItem>, at: Seq<int>, gap: int, n: int) -> (r: (Seq<int>, int))
    requires
        1 <= n <= at.len(),
    ensures
        ({
            let st = cells::cut_upto(spans, at, gap, n);
            &&& are_cells(spans, at, gap, r.0, st.done)
            &&& r.0.last() == r.1
            &&& is_cell_begun(spans, at, gap, r.1, n, st)
            &&& r.1 > 0 ==> gap_before(spans, at, r.1) > gap
        }),
    decreases n,
{
    if n == 1 {
        let st = cells::cut_upto(spans, at, gap, 0);
        lemma_run_added(spans, at, gap, 0, 0, st);
        (seq![0int], 0)
    } else {
        let (cuts, from) = lemma_cut(spans, at, gap, n - 1);
        let st = cells::cut_upto(spans, at, gap, n - 1);
        let item = spans[at[n - 1]];
        assert(item.x - st.right == gap_before(spans, at, n - 1));
        if item.x - st.right > gap {
            lemma_cell_finished(spans, at, gap, from, n - 1, st);
            let c = cells::finished_cell(st);
            let fresh = CutState {
                done: st.done.push(c),
                text: seq![],
                start: item.x as int,
                bold_chars: 0,
                chars: 0,
                right: st.right,
            };
            lemma_run_added(spans, at, gap, n - 1, n - 1, fresh);
            let more = cuts.push(n - 1);
            let v = st.done.push(c);
            assert forall|g: int| 0 <= g < v.len() implies is_cell_of(
                spans,
                at,
                gap,
                more[g],
                more[g + 1],
                #[trigger] v[g],
            ) by {
                if g < st.done.len() {
                    assert(v[g] == st.done[g]);
                    assert(more[g] == cuts[g] && more[g + 1] == cuts[g + 1]);
                } else {
                    assert(more[g] == from);
                }
            }
            assert forall|g: int| 0 < g < v.len() implies gap_before(spans, at, #[trigger] more[g])
                > gap by {
                if g < st.done.len() {
                    assert(more[g] == cuts[g]);
                } else {
                    assert(more[g] == from);
                    assert(is_cell_of(
                        spans,
                        at,
                        gap,
                        cuts[g - 1],
                        cuts[g - 1 + 1],
                        st.done[g - 1],
                    ));
                }
            }
            (more, n - 1)
        } else {
            lemma_run_added(spans, at, gap, from, n - 1, st);
            (cuts, from)
        }
    }
}

/// The cells of a line hold all its visible runs from left to right. A new cell begins where
/// the gap is wider than the font size, or than the height of the line where the size is not
/// known, and only there.
pub proof fn law_cells_hold_all_runs(line: ProjectedLine)
    ensures
        ({
            let at = span_text::left_to_right(line.spans@);
            let gap = widest_gap(line);
            &&& inline_shape::lists_runs(line.spans@, at)
            &&& exists|cuts: Seq<int>| #[trigger]
                are_cells(line.spans@, at, gap, cuts, cells::cells_of(line)) && cuts.last()
                    == at.len()
        }),
{
    let spans = line.spans@;
    let at = span_text::left_to_right(spans);
    let gap = widest_gap(line);
    assert(gap == cells::size_of(line));
    inline_shape::law_runs_are_listed(spans);
    if at.len() == 0 {
        assert(are_cells(spans, at, gap, seq![0int], cells::cells_of(line)));
    } else {
        let n = at.len() as int;
        let (cuts, from) = lemma_cut(spans, at, gap, n);
        let st = cells::cut_upto(spans, at, gap, n);
        lemma_cell_finished(spans, at, gap, from, n, st);
        let last = spans[at[n - 1]].text@;
        assert(!text::is_blank(last));
        crate::passages::lemma_blank_is_inkless(last);
        crate::passages::lemma_blank_is_inkless(st.text);
        assert(text::ink_of(st.text).len() >= text::ink_of(last).len());
        let c = cells::finished_cell(st);
        let v = st.done.push(c);
        let more = cuts.push(n);
        assert forall|g: int| 0 <= g < v.len() implies is_cell_of(
            spans,
            at,
            gap,
            more[g],
            more[g + 1],
            #[trigger] v[g],
        ) by {
            if g < st.done.len() {
                assert(v[g] == st.done[g]);
                assert(more[g] == cuts[g] && more[g + 1] == cuts[g + 1]);
            } else {
                assert(more[g] == from);
            }
        }
        assert forall|g: int| 0 < g < v.len() implies gap_before(spans, at, #[trigger] more[g])
            > gap by {
            if g < st.done.len() {
                assert(more[g] == cuts[g]);
            } else {
                assert(more[g] == from);
                assert(is_cell_of(spans, at, gap, cuts[g - 1], cuts[g - 1 + 1], st.done[g - 1]));
            }
        }
        assert(are_cells(spans, at, gap, more, cells::cells_of(line)));
    }
}

} // verus!
