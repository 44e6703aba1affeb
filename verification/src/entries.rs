//! Tables of two columns without rules: short labels, and what is said of each
//! of them.

use vstd::prelude::*;
use vstd::string::*;
use crate::cells;
use crate::cells::TableCell;
use crate::label_text;
use crate::rows;
use crate::rows::{RunView, TableRun};
use crate::text;
use crate::types;
use crate::types::{Block, BlockView, ProjectedLine};

verus! {

/// How far a cell may be away from its column.
pub const ENTRY_TRACK_TOLERANCE: i64 = 8_000;

/// The smallest gap between the two columns.
pub const ENTRY_MIN_COLUMN_GAP: i64 = 12_000;

/// An entry: the line it begins with, its label and its text.
pub struct Entry {
    pub line: usize,
    pub label: String,
    pub value: String,
}

/// The contents of an `Entry`.
#[verifier::ext_equal]
pub struct EntryView {
    pub line: int,
    pub label: Seq<char>,
    pub value: Seq<char>,
}

impl View for Entry {
    type V = EntryView;

    open spec fn view(&self) -> EntryView {
        EntryView { line: self.line as int, label: self.label@, value: self.value@ }
    }
}

/// The contents of every entry of `v`.
pub open spec fn entry_views(v: Seq<Entry>) -> Seq<EntryView> {
    Seq::new(v.len(), |i: int| v[i]@)
}

// ---------------------------------------------------------------------------
// Splitting a text that runs over both columns
// ---------------------------------------------------------------------------

/// The character of a text of `n` characters, spread evenly from `start` to
/// `end`, that stands at `anchor`.
pub open spec fn anchor_index(n: int, start: int, end: int, anchor: int) -> int {
    let width = types::max_of(end - start, types::PT as int);
    let offset = types::max_of(types::min_of(anchor - start, width), 0);
    (n * offset) / width
}

/// The white space nearest to `target` among the first `n` characters, the first
/// one of equally near ones.
pub open spec fn nearest_space_upto(cs: Seq<char>, target: int, n: int) -> Option<int>
    decreases n,
{
    if n <= 0 {
        None
    } else {
        let best = nearest_space_upto(cs, target, n - 1);
        if !text::is_ws(cs[n - 1]) {
            best
        } else {
            match best {
                Some(b) => if types::dist(n - 1, target) < types::dist(b, target) {
                    Some(n - 1)
                } else {
                    best
                },
                None => Some(n - 1),
            }
        }
    }
}

/// A text cut at the white space nearest to the column at `anchor`, unless one of
/// the two pieces is blank.
pub open spec fn split_at_anchor(cs: Seq<char>, start: int, end: int, anchor: int) -> Option<
    (Seq<char>, Seq<char>),
> {
    match nearest_space_upto(
        cs,
        anchor_index(cs.len() as int, start, end, anchor),
        cs.len() as int,
    ) {
        Some(k) => {
            let left = text::trim_of(cs.take(k));
            let right = text::trim_of(cs.skip(k + 1));
            if left.len() == 0 || right.len() == 0 {
                None
            } else {
                Some((left, right))
            }
        },
        None => None,
    }
}

fn index_at_anchor(n: usize, start: i64, end: i64, anchor: i64) -> (r: usize)
    requires
        cells::in_reach(start as int),
        cells::in_reach(end as int),
        cells::in_reach(anchor as int),
    ensures
        r == anchor_index(n as int, start as int, end as int, anchor as int),
        r <= n,
{
    let width: i128 = types::max64(end - start, types::PT) as i128;
    let offset: i128 = types::max64(types::min64(anchor - start, width as i64), 0) as i128;
    let count: i128 = n as i128;
    proof {
        assert(0 <= count * offset <= 0x1_0000_0000_0000_0000 * 0x4_0000_0000)
            by (nonlinear_arith)
            requires
                0 <= count <= 0x1_0000_0000_0000_0000,
                0 <= offset <= 0x4_0000_0000,
        ;
        assert((count * offset) / (width as int) <= count) by (nonlinear_arith)
            requires
                0 <= count,
                0 <= offset <= width,
                0 < width,
        ;
        assert(0 <= (count * offset) / (width as int)) by (nonlinear_arith)
            requires
                0 <= count * offset,
                0 < width,
        ;
    }
    ((count * offset) / width) as usize
}

/// A text cut at the white space nearest to the column at `anchor`.
pub fn split_merged_at_anchor(t: &str, start: i64, end: i64, anchor: i64) -> (r: Option<
    (String, String),
>)
    requires
        cells::in_reach(start as int),
        cells::in_reach(end as int),
        cells::in_reach(anchor as int),
    ensures
        match r {
            Some(p) => split_at_anchor(t@, start as int, end as int, anchor as int) == Some(
                (p.0@, p.1@),
            ),
            None => split_at_anchor(t@, start as int, end as int, anchor as int) is None,
        },
{
    let cs: Vec<char> = text::chars_of(t);
    let target: usize = index_at_anchor(cs.len(), start, end, anchor);
    let mut best: Option<usize> = None;
    let mut i: usize = 0;
    while i < cs.len()
        invariant
            i <= cs@.len(),
            match best {
                Some(b) => b < i && nearest_space_upto(cs@, target as int, i as int) == Some(
                    b as int,
                ),
                None => nearest_space_upto(cs@, target as int, i as int) is None,
            },
        decreases cs.len() - i,
    {
        if text::is_whitespace(cs[i]) {
            let away: usize = if i >= target {
                i - target
            } else {
                target - i
            };
            best = match best {
                Some(b) => {
                    let before: usize = if b >= target {
                        b - target
                    } else {
                        target - b
                    };
                    if away < before {
                        Some(i)
                    } else {
                        Some(b)
                    }
                },
                None => Some(i),
            };
        }
        i = i + 1;
    }
    match best {
        Some(k) => {
            let left = text::trim(text::take_chars(t, k));
            let right = text::trim(text::skip_chars(t, k + 1));
            if left.is_empty() || right.is_empty() {
                None
            } else {
                Some((text::to_string(left), text::to_string(right)))
            }
        },
        None => None,
    }
}

// ---------------------------------------------------------------------------
// Collecting entries
// ---------------------------------------------------------------------------

/// The largest distance between the tops of neighbours among the first `n`
/// entries.
pub open spec fn widest_pitch(lines: Seq<ProjectedLine>, found: Seq<EntryView>, n: int) -> int
    decreases n,
{
    if n <= 1 {
        0
    } else {
        let gap = lines[found[n - 1].line].bbox.y - lines[found[n - 2].line].bbox.y;
        if n == 2 {
            gap as int
        } else {
            types::max_of(widest_pitch(lines, found, n - 1), gap as int)
        }
    }
}

/// Whether line `j` is too far below the last entry: farther than 1.6 times any
/// distance between entries, and farther than a line height.
pub open spec fn far_below(lines: Seq<ProjectedLine>, found: Seq<EntryView>, j: int) -> bool {
    let prev = lines[found.last().line];
    let gap = lines[j].bbox.y - prev.bbox.y;
    &&& found.len() >= 2
    &&& 5 * gap > 8 * widest_pitch(lines, found, found.len() as int)
    &&& gap > types::max_of(lines[j].bbox.height as int, prev.bbox.height as int)
}

/// Whether a position is at a column.
pub open spec fn at_column(x: int, column: int) -> bool {
    types::dist(x, column) <= ENTRY_TRACK_TOLERANCE
}

/// An entry whose text continues with `t`.
pub open spec fn entry_continued(e: EntryView, t: Seq<char>) -> EntryView {
    EntryView {
        line: e.line,
        label: e.label,
        value: (if e.value.len() > 0 {
            e.value.push(' ')
        } else {
            e.value
        }) + t,
    }
}

/// What line `j` does to a list of entries with columns at `x0` and `x1`.
pub enum EntryStep {
    /// The line has both cells of a new entry.
    Pair(EntryView),
    /// The line is a new entry whose cells ran together.
    Split(EntryView),
    /// The line continues the last entry.
    More(Seq<char>),
    /// The list ends above the line.
    Stop,
}

/// What line `j` does to a list of entries with columns at `x0` and `x1`.
pub open spec fn entry_step(
    lines: Seq<ProjectedLine>,
    x0: int,
    x1: int,
    found: Seq<EntryView>,
    j: int,
) -> EntryStep {
    let row = cells::cells_of(lines[j]);
    if !rows::rows_adjacent(lines[found.last().line], lines[j]) || label_text::is_float_caption(
        lines[j].text@,
    ) || far_below(lines, found, j) {
        EntryStep::Stop
    } else if row.len() == 2 {
        if at_column(row[0].start_x, x0) && at_column(row[1].start_x, x1) && label_text::is_label(
            row[0].text,
        ) {
            EntryStep::Pair(EntryView { line: j, label: row[0].text, value: row[1].text })
        } else {
            EntryStep::Stop
        }
    } else if row.len() == 1 {
        let c = row[0];
        if at_column(c.start_x, x1) {
            EntryStep::More(c.text)
        } else if at_column(c.start_x, x0) && c.end_x > x1 + ENTRY_TRACK_TOLERANCE {
            match split_at_anchor(c.text, c.start_x, c.end_x, x1) {
                Some(p) => if label_text::is_label(p.0) {
                    EntryStep::Split(EntryView { line: j, label: p.0, value: p.1 })
                } else {
                    EntryStep::Stop
                },
                None => EntryStep::Stop,
            }
        } else {
            EntryStep::Stop
        }
    } else {
        EntryStep::Stop
    }
}

/// The entries of a list, how many of them have two cells of their own, and the
/// line behind the list.
#[verifier::ext_equal]
pub struct EntryScan {
    pub entries: Seq<EntryView>,
    pub pairs: int,
    pub end: int,
}

/// The entries of a list, with line `j` next.
pub open spec fn entries_from(
    lines: Seq<ProjectedLine>,
    x0: int,
    x1: int,
    found: Seq<EntryView>,
    pairs: int,
    j: int,
) -> EntryScan
    decreases lines.len() - j,
{
    let here = EntryScan { entries: found, pairs, end: j };
    if j < 0 || j >= lines.len() {
        here
    } else {
        match entry_step(lines, x0, x1, found, j) {
            EntryStep::Pair(e) => entries_from(lines, x0, x1, found.push(e), pairs + 1, j + 1),
            EntryStep::Split(e) => entries_from(lines, x0, x1, found.push(e), pairs, j + 1),
            EntryStep::More(t) => entries_from(
                lines,
                x0,
                x1,
                found.drop_last().push(entry_continued(found.last(), t)),
                pairs,
                j + 1,
            ),
            EntryStep::Stop => here,
        }
    }
}

/// Whether `s` has a letter.
pub open spec fn has_letter(s: Seq<char>) -> bool {
    exists|i: int| 0 <= i < s.len() && text::is_alpha(#[trigger] s[i])
}

/// Whether both the label and the text of an entry have letters.
pub open spec fn is_wordy(e: EntryView) -> bool {
    has_letter(e.label) && has_letter(e.value)
}

/// Whether the text of an entry is at least twice as long as its label, and has
/// 20 characters or more.
pub open spec fn is_lopsided(e: EntryView) -> bool {
    e.value.len() >= types::max_of(2 * e.label.len() as int, 20)
}

/// Whether the entries make a table: two or more with two cells of their own,
/// one with words on both sides, not all page numbers, and three entries or one
/// with a long text.
pub open spec fn is_entry_table(scan: EntryScan) -> bool {
    let v = scan.entries;
    &&& v.len() >= 2
    &&& scan.pairs >= 2
    &&& exists|i: int| 0 <= i < v.len() && is_wordy(#[trigger] v[i])
    &&& exists|i: int|
        0 <= i < v.len() && !label_text::is_page_number((#[trigger] v[i]).value)
    &&& v.len() >= 3 || exists|i: int| 0 <= i < v.len() && is_lopsided(#[trigger] v[i])
}

/// The entries as rows of two cells.
pub open spec fn entry_rows(v: Seq<EntryView>) -> Seq<Seq<Seq<char>>> {
    Seq::new(v.len(), |i: int| seq![v[i].label, v[i].value])
}

/// The table of two columns that begins with line `start`, if one does.
pub open spec fn entry_table_at(lines: Seq<ProjectedLine>, start: int) -> Option<RunView> {
    let first = cells::cells_of(lines[start]);
    if first.len() != 2 || first[1].start_x - first[0].end_x < ENTRY_MIN_COLUMN_GAP
        || !label_text::is_label(first[0].text) {
        None
    } else {
        let scan = entries_from(
            lines,
            first[0].start_x,
            first[1].start_x,
            seq![EntryView { line: start, label: first[0].text, value: first[1].text }],
            1,
            start + 1,
        );
        if is_entry_table(scan) {
            Some(
                RunView {
                    start,
                    end: scan.end,
                    block: BlockView::Table { header: None, rows: entry_rows(scan.entries) },
                },
            )
        } else {
            None
        }
    }
}

/// The step that a line takes, with the strings it was decided by.
enum Step {
    Pair(Entry),
    Split(Entry),
    More(String),
    Stop,
}

spec fn step_view(s: Step) -> EntryStep {
    match s {
        Step::Pair(e) => EntryStep::Pair(e@),
        Step::Split(e) => EntryStep::Split(e@),
        Step::More(t) => EntryStep::More(t@),
        Step::Stop => EntryStep::Stop,
    }
}

spec fn entries_valid(found: Seq<Entry>, end: int) -> bool {
    &&& found.len() > 0
    &&& forall|i: int| 0 <= i < found.len() ==> (#[trigger] found[i]).line < end
}

fn is_far_below(lines: &Vec<ProjectedLine>, found: &Vec<Entry>, j: usize) -> (r: bool)
    requires
        j < lines@.len(),
        entries_valid(found@, j as int),
    ensures
        r == far_below(lines@, entry_views(found@), j as int),
{
    let ghost fv = entry_views(found@);
    let n: usize = found.len();
    if n < 2 {
        return false;
    }
    proof {
        assert(fv[1].line == found@[1].line);
        assert(fv[0].line == found@[0].line);
        assert(fv.last().line == found@[n - 1].line);
    }
    let mut widest: i64 = lines[found[1].line].bbox.y as i64 - lines[found[0].line].bbox.y as i64;
    let mut k: usize = 2;
    proof {
        reveal_with_fuel(widest_pitch, 2);
    }
    while k < n
        invariant
            2 <= k <= n == found@.len(),
            j < lines@.len(),
            fv == entry_views(found@),
            entries_valid(found@, j as int),
            widest == widest_pitch(lines@, fv, k as int),
            -0x1_0000_0000 <= widest <= 0x1_0000_0000,
        decreases n - k,
    {
        proof {
            assert(fv[k as int].line == found@[k as int].line);
            assert(fv[k - 1].line == found@[k - 1].line);
        }
        let gap: i64 = lines[found[k].line].bbox.y as i64 - lines[found[k - 1].line].bbox.y as i64;
        widest = types::max64(widest, gap);
        k = k + 1;
    }
    let prev = &lines[found[n - 1].line];
    let gap: i64 = lines[j].bbox.y as i64 - prev.bbox.y as i64;
    5 * gap > 8 * widest && gap > types::max64(
        lines[j].bbox.height as i64,
        prev.bbox.height as i64,
    )
}

fn is_at(x: i64, column: i64) -> (r: bool)
    requires
        cells::in_reach(x as int),
        cells::in_reach(column as int),
    ensures
        r == at_column(x as int, column as int),
{
    types::dist64(x, column) <= ENTRY_TRACK_TOLERANCE
}

fn take_step(lines: &Vec<ProjectedLine>, x0: i64, x1: i64, found: &Vec<Entry>, j: usize) -> (r: Step)
    requires
        j < lines@.len(),
        cells::in_reach(x0 as int),
        cells::in_reach(x1 as int),
        entries_valid(found@, j as int),
    ensures
        step_view(r) == entry_step(lines@, x0 as int, x1 as int, entry_views(found@), j as int),
        match r {
            Step::Pair(e) => e.line == j,
            Step::Split(e) => e.line == j,
            _ => true,
        },
{
    let ghost fv = entry_views(found@);
    let last: usize = found[found.len() - 1].line;
    proof {
        assert(fv.last().line == last);
    }
    if !rows::table_rows_adjacent(&lines[last], &lines[j]) || label_text::looks_like_caption(
        lines[j].text.as_str(),
    ) || is_far_below(lines, found, j) {
        return Step::Stop;
    }
    let row: Vec<TableCell> = cells::split_cells(&lines[j]);
    let ghost rv = cells::cell_views(row@);
    proof {
        assert(rv.len() == row@.len());
    }
    if row.len() == 2 {
        proof {
            assert(rv[0] == row@[0]@);
            assert(rv[1] == row@[1]@);
            assert(cells::in_reach(rv[0].start_x) && cells::in_reach(rv[1].start_x));
        }
        if is_at(row[0].start_x, x0) && is_at(row[1].start_x, x1) && label_text::is_label_like(
            row[0].text.as_str(),
        ) {
            return Step::Pair(
                Entry { line: j, label: row[0].text.clone(), value: row[1].text.clone() },
            );
        }
        return Step::Stop;
    }
    if row.len() == 1 {
        proof {
            assert(rv[0] == row@[0]@);
            assert(cells::in_reach(rv[0].start_x));
        }
        let c = &row[0];
        if is_at(c.start_x, x1) {
            return Step::More(c.text.clone());
        }
        if is_at(c.start_x, x0) && c.end_x > x1 + ENTRY_TRACK_TOLERANCE {
            match split_merged_at_anchor(c.text.as_str(), c.start_x, c.end_x, x1) {
                Some(p) => {
                    if label_text::is_label_like(p.0.as_str()) {
                        return Step::Split(Entry { line: j, label: p.0, value: p.1 });
                    }
                },
                None => {},
            }
        }
    }
    Step::Stop
}

fn letter_in(s: &str) -> (r: bool)
    ensures
        r == has_letter(s@),
{
    let cs: Vec<char> = text::chars_of(s);
    let mut i: usize = 0;
    while i < cs.len()
        invariant
            i <= cs@.len(),
            cs@ == s@,
            forall|k: int| 0 <= k < i ==> !text::is_alpha(#[trigger] cs@[k]),
        decreases cs.len() - i,
    {
        if cs[i].is_alphabetic() {
            proof {
                assert(text::is_alpha(s@[i as int]));
            }
            return true;
        }
        i = i + 1;
    }
    false
}

fn lopsided(e: &Entry) -> (r: bool)
    ensures
        r == is_lopsided(e@),
{
    let long: usize = e.value.as_str().unicode_len();
    let short: usize = e.label.as_str().unicode_len();
    long >= 20 && long >= short && long - short >= short
}

fn entries_make_table(found: &Vec<Entry>, pairs: usize, Ghost(end): Ghost<int>) -> (r: bool)
    ensures
        r == is_entry_table(
            (EntryScan { entries: entry_views(found@), pairs: pairs as int, end }),
        ),
{
    let ghost fv = entry_views(found@);
    if found.len() < 2 || pairs < 2 {
        return false;
    }
    let mut wordy: bool = false;
    let mut other: bool = false;
    let mut long: bool = false;
    let mut i: usize = 0;
    while i < found.len()
        invariant
            i <= found@.len(),
            fv == entry_views(found@),
            wordy == exists|k: int| 0 <= k < i && is_wordy(#[trigger] fv[k]),
            other == exists|k: int|
                0 <= k < i && !label_text::is_page_number((#[trigger] fv[k]).value),
            long == exists|k: int| 0 <= k < i && is_lopsided(#[trigger] fv[k]),
        decreases found.len() - i,
    {
        let e = &found[i];
        proof {
            assert(fv[i as int] == e@);
        }
        if letter_in(e.label.as_str()) && letter_in(e.value.as_str()) {
            proof {
                assert(is_wordy(fv[i as int]));
            }
            wordy = true;
        }
        if !label_text::is_page_ref(e.value.as_str()) {
            proof {
                assert(!label_text::is_page_number(fv[i as int].value));
            }
            other = true;
        }
        if lopsided(e) {
            proof {
                assert(is_lopsided(fv[i as int]));
            }
            long = true;
        }
        i = i + 1;
    }
    proof {
        let v = (EntryScan { entries: fv, pairs: pairs as int, end }).entries;
        assert(v.len() == found@.len());
        assert(wordy == exists|k: int| 0 <= k < v.len() && is_wordy(#[trigger] v[k]));
        assert(other == exists|k: int|
            0 <= k < v.len() && !label_text::is_page_number((#[trigger] v[k]).value));
        assert(long == exists|k: int| 0 <= k < v.len() && is_lopsided(#[trigger] v[k]));
    }
    wordy && other && (found.len() >= 3 || long)
}

fn rows_of_entries(found: &Vec<Entry>) -> (r: Vec<Vec<String>>)
    ensures
        types::row_texts(r@) == entry_rows(entry_views(found@)),
{
    let ghost want = entry_rows(entry_views(found@));
    let mut out: Vec<Vec<String>> = Vec::new();
    let mut i: usize = 0;
    while i < found.len()
        invariant
            i <= found@.len(),
            want == entry_rows(entry_views(found@)),
            out@.len() == i,
            forall|k: int| 0 <= k < i ==> types::texts((#[trigger] out@[k])@) == want[k],
        decreases found.len() - i,
    {
        let mut row: Vec<String> = Vec::new();
        row.push(found[i].label.clone());
        row.push(found[i].value.clone());
        proof {
            assert(types::texts(row@) =~= want[i as int]);
        }
        out.push(row);
        i = i + 1;
    }
    proof {
        assert(types::row_texts(out@) =~= want);
    }
    out
}

/// The table of two columns that begins with line `start`, if one does.
pub fn try_detect_description_list(lines: &Vec<ProjectedLine>, start: usize) -> (r: Option<
    TableRun,
>)
    requires
        start < lines@.len(),
    ensures
        match r {
            Some(run) => entry_table_at(lines@, start as int) == Some(run@) && run.start == start
                && start < run.end <= lines@.len(),
            None => entry_table_at(lines@, start as int) is None,
        },
{
    let total: usize = lines.len();
    let first: Vec<TableCell> = cells::split_cells(&lines[start]);
    let ghost rv = cells::cell_views(first@);
    proof {
        assert(rv.len() == first@.len());
    }
    if first.len() != 2 {
        return None;
    }
    proof {
        assert(rv[0] == first@[0]@);
        assert(rv[1] == first@[1]@);
        assert(cells::in_reach(rv[0].start_x) && cells::in_reach(rv[1].start_x));
    }
    let x0: i64 = first[0].start_x;
    let x1: i64 = first[1].start_x;
    if x1 - first[0].end_x < ENTRY_MIN_COLUMN_GAP || !label_text::is_label_like(
        first[0].text.as_str(),
    ) {
        return None;
    }
    let mut found: Vec<Entry> = Vec::new();
    found.push(
        Entry { line: start, label: first[0].text.clone(), value: first[1].text.clone() },
    );
    let ghost seed = seq![
        EntryView { line: start as int, label: rv[0].text, value: rv[1].text },
    ];
    proof {
        assert(entry_views(found@) =~= seed);
    }
    let mut pairs: usize = 1;
    let mut j: usize = start + 1;
    let mut more: bool = true;
    while more && j < total
        invariant
            start < j <= total == lines@.len(),
            cells::in_reach(x0 as int),
            cells::in_reach(x1 as int),
            entries_valid(found@, j as int),
            pairs <= j,
            more ==> entries_from(lines@, x0 as int, x1 as int, seed, 1, start + 1)
                == entries_from(
                lines@,
                x0 as int,
                x1 as int,
                entry_views(found@),
                pairs as int,
                j as int,
            ),
            !more ==> entries_from(lines@, x0 as int, x1 as int, seed, 1, start + 1) == (
            EntryScan { entries: entry_views(found@), pairs: pairs as int, end: j as int }),
        decreases total - j, (if more { 1int } else { 0int }),
    {
        let ghost fv = entry_views(found@);
        match take_step(lines, x0, x1, &found, j) {
            Step::Pair(e) => {
                proof {
                    assert(entry_views(found@.push(e)) =~= fv.push(e@));
                }
                found.push(e);
                pairs = pairs + 1;
                j = j + 1;
            },
            Step::Split(e) => {
                proof {
                    assert(entry_views(found@.push(e)) =~= fv.push(e@));
                }
                found.push(e);
                j = j + 1;
            },
            Step::More(t) => {
                let top: usize = found.len() - 1;
                proof {
                    assert(fv.last() == found@[top as int]@);
                }
                let mut value: String = found[top].value.clone();
                if !value.as_str().is_empty() {
                    value.push(' ');
                }
                value.append(t.as_str());
                let e = Entry { line: found[top].line, label: found[top].label.clone(), value };
                proof {
                    assert(entry_views(found@.update(top as int, e)) =~= fv.drop_last().push(e@));
                }
                found.set(top, e);
                j = j + 1;
            },
            Step::Stop => {
                more = false;
            },
        }
    }
    if entries_make_table(&found, pairs, Ghost(j as int)) {
        Some(
            TableRun {
                start,
                end: j,
                block: Block::Table { header: None, rows: rows_of_entries(&found) },
            },
        )
    } else {
        None
    }
}

} // verus!
