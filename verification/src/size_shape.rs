//! What the body size of a document and its heading sizes are.

use crate::font_sizes;
use crate::font_sizes::{SizeCount, Tally};
use crate::heading_text;
use crate::headings;
use crate::page_headings;
use crate::sort;
use crate::text;
use crate::types;
use crate::types::{ParsedPage, ProjectedLine, TextItem};
use vstd::prelude::*;

verus! {

/// The lines of the pages before page `p`, and the first `l` lines of page `p`.
pub open spec fn lines_before(pages: Seq<ParsedPage>, p: int, l: int) -> Seq<ProjectedLine>
    decreases p, l,
{
    if p < 0 {
        seq![]
    } else if l > 0 {
        lines_before(pages, p, l - 1).push(pages[p].projected_lines@[l - 1])
    } else if p > 0 {
        lines_before(pages, p - 1, pages[p - 1].projected_lines@.len() as int)
    } else {
        seq![]
    }
}

/// The lines of a document.
pub open spec fn lines_of(pages: Seq<ParsedPage>) -> Seq<ProjectedLine> {
    lines_before(pages, pages.len() as int, 0)
}

/// Whether the characters of lines can be counted on a machine.
pub open spec fn can_be_counted(lines: Seq<ProjectedLine>) -> bool {
    &&& lines.len() <= 0xFFFF_FFFF_FFFF_FFFF
    &&& forall|i: int|
        0 <= i < lines.len() ==> (#[trigger] lines[i]).text@.len() <= 0xFFFF_FFFF_FFFF_FFFF
}

/// Whether two font sizes are the same to the hundredth of a point.
#[verifier::opaque]
pub open spec fn same_size(a: int, b: int) -> bool {
    (a + 5) / 10 == (b + 5) / 10
}

/// Whether a line counts: as one of text, or as one that is larger than the body by half a
/// point. Where it matters, captions do not count, and an estimated size must be larger by
/// one and a half points.
pub open spec fn counts(t: Tally, line: ProjectedLine) -> bool {
    &&& !font_sizes::is_rotated(line)
    &&& match t {
        Tally::Body => line.dominant_font_size > 0,
        Tally::Larger { body, strict } => {
            &&& line.dominant_font_size - body > 500
            &&& strict ==> !heading_text::is_caption(line.text@) && (line.font_size_is_estimated
                ==> line.dominant_font_size - body > 1_500)
        },
    }
}

/// What a line adds to the characters of its size. An empty line of text counts as one
/// character; of larger lines the white space does not count.
pub open spec fn chars_in(t: Tally, line: ProjectedLine) -> int {
    match t {
        Tally::Body => if line.text@.len() == 0 {
            1
        } else {
            line.text@.len() as int
        },
        Tally::Larger { .. } => text::ink_of(line.text@).len() as int,
    }
}

/// What a line adds to the letters of its size.
pub open spec fn letters_in(t: Tally, line: ProjectedLine) -> int {
    match t {
        Tally::Body => 0,
        Tally::Larger { .. } => text::count_visible_alpha(
            line.text@,
            line.text@.len() as int,
        ) as int,
    }
}

/// Whether a line counts for a size.
pub open spec fn counts_for(t: Tally, line: ProjectedLine, size: int) -> bool {
    counts(t, line) && same_size(line.dominant_font_size as int, size)
}

/// The characters of a size in the first `n` lines.
pub open spec fn chars_of(t: Tally, lines: Seq<ProjectedLine>, size: int, n: int) -> int
    decreases n,
{
    if n <= 0 {
        0
    } else {
        chars_of(t, lines, size, n - 1) + if counts_for(t, lines[n - 1], size) {
            chars_in(t, lines[n - 1])
        } else {
            0
        }
    }
}

/// The letters of a size in the first `n` lines.
pub open spec fn letters_of(t: Tally, lines: Seq<ProjectedLine>, size: int, n: int) -> int
    decreases n,
{
    if n <= 0 {
        0
    } else {
        letters_of(t, lines, size, n - 1) + if counts_for(t, lines[n - 1], size) {
            letters_in(t, lines[n - 1])
        } else {
            0
        }
    }
}

/// The lines of a size among the first `n`.
pub open spec fn count_of(t: Tally, lines: Seq<ProjectedLine>, size: int, n: int) -> int
    decreases n,
{
    if n <= 0 {
        0
    } else {
        count_of(t, lines, size, n - 1) + if counts_for(t, lines[n - 1], size) {
            1int
        } else {
            0
        }
    }
}

proof fn lemma_visible(s: Seq<char>, n: int)
    requires
        0 <= n <= s.len(),
    ensures
        text::count_visible(s, n) == text::ink_of(s.take(n)).len(),
        text::count_visible(s, n) <= n,
        text::count_visible_alpha(s, n) <= n,
    decreases n,
{
    if n > 0 {
        lemma_visible(s, n - 1);
        assert(s.take(n).drop_last() =~= s.take(n - 1));
        assert(s.take(n).last() == s[n - 1]);
    } else {
        assert(s.take(n) =~= seq![]);
    }
}

proof fn lemma_contribution(t: Tally, line: ProjectedLine)
    ensures
        font_sizes::contribution(t, line) == if counts(t, line) {
            Some((chars_in(t, line), letters_in(t, line)))
        } else {
            None
        },
        0 <= letters_in(t, line) <= chars_in(t, line) + line.text@.len(),
        0 <= letters_in(t, line) <= line.text@.len() + 1,
        0 <= chars_in(t, line) <= line.text@.len() + 1,
{
    lemma_visible(line.text@, line.text@.len() as int);
    assert(line.text@.take(line.text@.len() as int) =~= line.text@);
}

proof fn lemma_bounds(t: Tally, lines: Seq<ProjectedLine>, size: int, n: int)
    requires
        0 <= n <= lines.len(),
        can_be_counted(lines),
    ensures
        0 <= chars_of(t, lines, size, n) <= n * 0x1_0000_0000_0000_0000,
        0 <= letters_of(t, lines, size, n) <= n * 0x1_0000_0000_0000_0000,
        0 <= count_of(t, lines, size, n) <= n,
        chars_of(t, lines, size, n) <= u128::MAX,
        letters_of(t, lines, size, n) <= u128::MAX,
        count_of(t, lines, size, n) <= u128::MAX,
    decreases n,
{
    if n > 0 {
        lemma_bounds(t, lines, size, n - 1);
        lemma_contribution(t, lines[n - 1]);
        assert(lines[n - 1].text@.len() <= 0xFFFF_FFFF_FFFF_FFFF);
    }
}

proof fn lemma_same_size(a: int, b: int, c: int)
    ensures
        same_size(a, a),
        same_size(a, b) ==> same_size(b, a),
        same_size(a, b) && same_size(b, c) ==> same_size(a, c),
{
    reveal(same_size);
}

proof fn lemma_same_class(t: Tally, lines: Seq<ProjectedLine>, a: int, b: int, n: int)
    requires
        same_size(a, b),
    ensures
        chars_of(t, lines, a, n) == chars_of(t, lines, b, n),
        letters_of(t, lines, a, n) == letters_of(t, lines, b, n),
        count_of(t, lines, a, n) == count_of(t, lines, b, n),
    decreases n,
{
    if n > 0 {
        lemma_same_class(t, lines, a, b, n - 1);
        let c = lines[n - 1].dominant_font_size as int;
        lemma_same_size(c, a, b);
        lemma_same_size(a, b, a);
        lemma_same_size(c, b, a);
    }
}

/// Whether a line among the first `n` is the first of its size.
spec fn is_counted(t: Tally, lines: Seq<ProjectedLine>, n: int, e: SizeCount) -> bool {
    exists|k: int|
        0 <= k < n && counts(t, #[trigger] lines[k]) && lines[k].dominant_font_size == e.size
}

/// Whether an entry of a histogram counts the first `n` lines of its size.
spec fn is_entry(t: Tally, lines: Seq<ProjectedLine>, n: int, e: SizeCount) -> bool {
    &&& is_counted(t, lines, n, e)
    &&& e.weight == chars_of(t, lines, e.size as int, n)
    &&& e.alpha == letters_of(t, lines, e.size as int, n)
    &&& e.lines == count_of(t, lines, e.size as int, n)
}

/// Whether a histogram is one of the first `n` lines.
spec fn tells(t: Tally, lines: Seq<ProjectedLine>, n: int, table: Seq<SizeCount>) -> bool {
    &&& forall|i: int| 0 <= i < table.len() ==> is_entry(t, lines, n, #[trigger] table[i])
    &&& sizes_differ(table)
    &&& all_listed(t, lines, n, table)
}

/// Whether no two entries of a histogram have the same size.
spec fn sizes_differ(table: Seq<SizeCount>) -> bool {
    forall|i: int, j: int|
        0 <= i < j < table.len() ==> !same_size(
            (#[trigger] table[i]).size as int,
            (#[trigger] table[j]).size as int,
        )
}

/// Whether a histogram has an entry for each of the first `n` lines that counts.
spec fn all_listed(t: Tally, lines: Seq<ProjectedLine>, n: int, table: Seq<SizeCount>) -> bool {
    forall|k: int|
        0 <= k < n && counts(t, #[trigger] lines[k]) ==> has_entry(
            table,
            lines[k].dominant_font_size as int,
        )
}

/// Whether a histogram has an entry for a size.
#[verifier::opaque]
spec fn has_entry(table: Seq<SizeCount>, size: int) -> bool {
    exists|i: int| 0 <= i < table.len() && same_size((#[trigger] table[i]).size as int, size)
}

/// Whether only positive sizes count.
pub open spec fn is_positive(t: Tally) -> bool {
    match t {
        Tally::Body => true,
        Tally::Larger { body, .. } => body >= 0,
    }
}

proof fn lemma_entry_from(table: Seq<SizeCount>, size: int, i: int)
    requires
        0 <= i <= table.len(),
        size > 0,
        forall|k: int| 0 <= k < table.len() ==> (#[trigger] table[k]).size > 0,
    ensures
        ({
            let k = font_sizes::entry_from(table, font_sizes::size_key(size), i);
            &&& i <= k <= table.len()
            &&& k < table.len() ==> same_size(table[k].size as int, size)
            &&& forall|j: int| i <= j < k ==> !same_size((#[trigger] table[j]).size as int, size)
        }),
    decreases table.len() - i,
{
    reveal(same_size);
    if i < table.len() {
        assert(table[i].size > 0);
        lemma_entry_from(table, size, i + 1);
    }
}

proof fn lemma_line_counted(t: Tally, lines: Seq<ProjectedLine>, n: int, table: Seq<SizeCount>)
    requires
        0 < n <= lines.len(),
        is_positive(t),
        can_be_counted(lines),
        tells(t, lines, n - 1, table),
        counts(t, lines[n - 1]),
    ensures
        tells(
            t,
            lines,
            n,
            font_sizes::counted(
                table,
                lines[n - 1].dominant_font_size,
                chars_in(t, lines[n - 1]),
                letters_in(t, lines[n - 1]),
            ),
        ),
{
    let line = lines[n - 1];
    let size = line.dominant_font_size;
    let more = font_sizes::counted(table, size, chars_in(t, line), letters_in(t, line));
    assert forall|k: int| 0 <= k < table.len() implies (#[trigger] table[k]).size > 0 by {
        assert(is_entry(t, lines, n - 1, table[k]));
    }
    lemma_entry_from(table, size as int, 0);
    lemma_contribution(t, line);
    let k = font_sizes::entry_from(table, font_sizes::size_key(size as int), 0);
    lemma_same_size(size as int, size as int, size as int);
    assert forall|i: int| 0 <= i < more.len() implies is_entry(
        t,
        lines,
        n,
        #[trigger] more[i],
    ) by {
        if i < table.len() {
            assert(is_entry(t, lines, n - 1, table[i]));
            if i == k {
                lemma_same_size(table[i].size as int, size as int, size as int);
                lemma_entry_grows(t, lines, n, table[i]);
            } else {
                if i > k {
                    assert(!same_size(table[k].size as int, table[i].size as int));
                    lemma_same_size(table[k].size as int, size as int, table[i].size as int);
                } else {
                    lemma_same_size(size as int, table[i].size as int, size as int);
                }
                lemma_entry_stays(t, lines, n, table[i]);
            }
        } else {
            lemma_unseen(t, lines, n - 1, table, size as int);
            lemma_bounds(t, lines, size as int, n);
            assert(counts(t, lines[n - 1]));
        }
    }
    lemma_sizes_differ(table, more, size as int, k);
    lemma_all_listed(t, lines, n, table, more, k);
}

proof fn lemma_sizes_differ(table: Seq<SizeCount>, more: Seq<SizeCount>, size: int, k: int)
    requires
        sizes_differ(table),
        forall|i: int| 0 <= i < table.len() ==> (#[trigger] more[i]).size == table[i].size,
        0 <= k <= table.len(),
        k < table.len() ==> more.len() == table.len(),
        k == table.len() ==> more.len() == table.len() + 1 && more[k].size == size,
        forall|j: int| 0 <= j < k ==> !same_size((#[trigger] table[j]).size as int, size),
    ensures
        sizes_differ(more),
{
    assert forall|i: int, j: int| 0 <= i < j < more.len() implies !same_size(
        (#[trigger] more[i]).size as int,
        (#[trigger] more[j]).size as int,
    ) by {
        if j < table.len() {
            assert(!same_size(table[i].size as int, table[j].size as int));
        } else {
            assert(!same_size(table[i].size as int, size as int));
        }
    }
}

proof fn lemma_all_listed(
    t: Tally,
    lines: Seq<ProjectedLine>,
    n: int,
    table: Seq<SizeCount>,
    more: Seq<SizeCount>,
    k: int,
)
    requires
        0 < n <= lines.len(),
        all_listed(t, lines, n - 1, table),
        forall|i: int| 0 <= i < table.len() ==> (#[trigger] more[i]).size == table[i].size,
        0 <= k < more.len(),
        table.len() <= more.len(),
        same_size(more[k].size as int, lines[n - 1].dominant_font_size as int),
    ensures
        all_listed(t, lines, n, more),
{
    reveal(has_entry);
    assert forall|j: int| 0 <= j < n && counts(t, #[trigger] lines[j]) implies has_entry(
        more,
        lines[j].dominant_font_size as int,
    ) by {
        if j < n - 1 {
            assert(has_entry(table, lines[j].dominant_font_size as int));
            let i = choose|i: int|
                0 <= i < table.len() && same_size(
                    (#[trigger] table[i]).size as int,
                    lines[j].dominant_font_size as int,
                );
            assert(same_size(more[i].size as int, lines[j].dominant_font_size as int));
        }
    }
}

proof fn lemma_unseen(
    t: Tally,
    lines: Seq<ProjectedLine>,
    n: int,
    table: Seq<SizeCount>,
    size: int,
)
    requires
        0 <= n <= lines.len(),
        forall|k: int|
            0 <= k < n && counts(t, #[trigger] lines[k]) ==> has_entry(
                table,
                lines[k].dominant_font_size as int,
            ),
        forall|i: int| 0 <= i < table.len() ==> !same_size((#[trigger] table[i]).size as int, size),
    ensures
        chars_of(t, lines, size, n) == 0,
        letters_of(t, lines, size, n) == 0,
        count_of(t, lines, size, n) == 0,
    decreases n,
{
    reveal(has_entry);
    if n > 0 {
        lemma_unseen(t, lines, n - 1, table, size);
        if counts_for(t, lines[n - 1], size) {
            let c = lines[n - 1].dominant_font_size as int;
            assert(has_entry(table, c));
            let i = choose|i: int|
                0 <= i < table.len() && same_size((#[trigger] table[i]).size as int, c);
            lemma_same_size(table[i].size as int, c, size);
        }
    }
}

proof fn lemma_histogram(t: Tally, pages: Seq<ParsedPage>, p: int, l: int)
    requires
        0 <= p <= pages.len(),
        l >= 0,
        p == pages.len() ==> l == 0,
        p < pages.len() ==> l <= pages[p].projected_lines@.len(),
        is_positive(t),
        can_be_counted(lines_before(pages, p, l)),
    ensures
        tells(
            t,
            lines_before(pages, p, l),
            lines_before(pages, p, l).len() as int,
            font_sizes::histogram_at(t, pages, p, l),
        ),
    decreases p, l,
{
    let lines = lines_before(pages, p, l);
    let n = lines.len() as int;
    if l > 0 {
        let before = lines_before(pages, p, l - 1);
        let table = font_sizes::histogram_at(t, pages, p, l - 1);
        let line = pages[p].projected_lines@[l - 1];
        assert(lines[n - 1] == line);
        assert forall|i: int| 0 <= i < before.len() implies (#[trigger] before[i]).text@.len()
            <= 0xFFFF_FFFF_FFFF_FFFF by {
            assert(lines[i] == before[i]);
        }
        lemma_histogram(t, pages, p, l - 1);
        lemma_prefix(t, before, lines, n - 1, table);
        lemma_contribution(t, line);
        if counts(t, line) {
            lemma_line_counted(t, lines, n, table);
        } else {
            lemma_skipped(t, lines, n, table);
        }
    } else if p > 0 {
        lemma_histogram(t, pages, p - 1, pages[p - 1].projected_lines@.len() as int);
    }
}

proof fn lemma_prefix_counts(
    t: Tally,
    a: Seq<ProjectedLine>,
    b: Seq<ProjectedLine>,
    size: int,
    n: int,
)
    requires
        0 <= n <= a.len() <= b.len(),
        forall|i: int| 0 <= i < a.len() ==> a[i] == b[i],
    ensures
        chars_of(t, a, size, n) == chars_of(t, b, size, n),
        letters_of(t, a, size, n) == letters_of(t, b, size, n),
        count_of(t, a, size, n) == count_of(t, b, size, n),
    decreases n,
{
    if n > 0 {
        lemma_prefix_counts(t, a, b, size, n - 1);
        assert(a[n - 1] == b[n - 1]);
    }
}

proof fn lemma_prefix(
    t: Tally,
    a: Seq<ProjectedLine>,
    b: Seq<ProjectedLine>,
    n: int,
    table: Seq<SizeCount>,
)
    requires
        0 <= n == a.len() <= b.len(),
        forall|i: int| 0 <= i < a.len() ==> a[i] == b[i],
        tells(t, a, n, table),
    ensures
        tells(t, b, n, table),
{
    assert forall|i: int| 0 <= i < table.len() implies is_entry(t, b, n, #[trigger] table[i]) by {
        lemma_prefix_counts(t, a, b, table[i].size as int, n);
        assert(is_entry(t, a, n, table[i]));
        let k = choose|k: int|
            0 <= k < n && counts(t, #[trigger] a[k]) && a[k].dominant_font_size == table[i].size;
        assert(counts(t, b[k]));
    }
    assert forall|k: int| 0 <= k < n && counts(t, #[trigger] b[k]) implies has_entry(
        table,
        b[k].dominant_font_size as int,
    ) by {
        assert(counts(t, a[k]));
    }
}

proof fn lemma_skipped(t: Tally, lines: Seq<ProjectedLine>, n: int, table: Seq<SizeCount>)
    requires
        0 < n <= lines.len(),
        tells(t, lines, n - 1, table),
        !counts(t, lines[n - 1]),
    ensures
        tells(t, lines, n, table),
{
    assert forall|i: int| 0 <= i < table.len() implies is_entry(
        t,
        lines,
        n,
        #[trigger] table[i],
    ) by {
        lemma_entry_stays(t, lines, n, table[i]);
    }
}

proof fn lemma_still_counted(t: Tally, lines: Seq<ProjectedLine>, n: int, e: SizeCount)
    requires
        is_counted(t, lines, n - 1, e),
    ensures
        is_counted(t, lines, n, e),
{
    let k = choose|k: int|
        0 <= k < n - 1 && counts(t, #[trigger] lines[k]) && lines[k].dominant_font_size == e.size;
    assert(counts(t, lines[k]));
}

proof fn lemma_entry_stays(t: Tally, lines: Seq<ProjectedLine>, n: int, e: SizeCount)
    requires
        0 < n <= lines.len(),
        is_entry(t, lines, n - 1, e),
        !counts_for(t, lines[n - 1], e.size as int),
    ensures
        is_entry(t, lines, n, e),
{
    lemma_still_counted(t, lines, n, e);
}

proof fn lemma_entry_grows(t: Tally, lines: Seq<ProjectedLine>, n: int, e: SizeCount)
    requires
        0 < n <= lines.len(),
        can_be_counted(lines),
        is_entry(t, lines, n - 1, e),
        counts_for(t, lines[n - 1], e.size as int),
    ensures
        is_entry(
            t,
            lines,
            n,
            SizeCount {
                size: e.size,
                lines: (e.lines + 1) as u128,
                weight: (e.weight + chars_in(t, lines[n - 1])) as u128,
                alpha: (e.alpha + letters_in(t, lines[n - 1])) as u128,
            },
        ),
{
    lemma_still_counted(t, lines, n, e);
    lemma_bounds(t, lines, e.size as int, n);
    let more = SizeCount {
        size: e.size,
        lines: (e.lines + 1) as u128,
        weight: (e.weight + chars_in(t, lines[n - 1])) as u128,
        alpha: (e.alpha + letters_in(t, lines[n - 1])) as u128,
    };
    let k = choose|k: int|
        0 <= k < n && counts(t, #[trigger] lines[k]) && lines[k].dominant_font_size == e.size;
    assert(counts(t, lines[k]) && lines[k].dominant_font_size == more.size);
}

/// Whether a size is that of a line that counts.
pub open spec fn occurs(t: Tally, lines: Seq<ProjectedLine>, size: int) -> bool {
    exists|k: int|
        0 <= k < lines.len() && counts(t, #[trigger] lines[k]) && lines[k].dominant_font_size
            == size
}

proof fn lemma_max_weight(table: Seq<SizeCount>, n: int)
    requires
        0 <= n <= table.len(),
    ensures
        forall|i: int|
            0 <= i < n ==> (#[trigger] table[i]).weight <= headings::max_weight_upto(table, n),
        headings::max_weight_upto(table, n) > 0 ==> exists|i: int|
            0 <= i < n && (#[trigger] table[i]).weight == headings::max_weight_upto(table, n),
        headings::max_weight_upto(table, n) >= 0,
    decreases n,
{
    if n > 0 {
        lemma_max_weight(table, n - 1);
        let top = headings::max_weight_upto(table, n);
        if top > 0 && table[n - 1].weight != top {
            let i = choose|i: int|
                0 <= i < n - 1 && (#[trigger] table[i]).weight == headings::max_weight_upto(
                    table,
                    n - 1,
                );
            assert(table[i].weight == top);
        }
    }
}

proof fn lemma_largest(table: Seq<SizeCount>, least: int, n: int)
    requires
        0 <= n <= table.len(),
        forall|i: int| 0 <= i < n ==> (#[trigger] table[i]).size > 0,
    ensures
        ({
            let b = headings::largest_upto(table, least, n);
            &&& forall|i: int|
                0 <= i < n && (#[trigger] table[i]).weight >= least ==> table[i].size <= b
            &&& b >= 0
            &&& b > 0 ==> exists|i: int|
                0 <= i < n && (#[trigger] table[i]).weight >= least && table[i].size == b
        }),
    decreases n,
{
    if n > 0 {
        lemma_largest(table, least, n - 1);
        let b = headings::largest_upto(table, least, n);
        if b > 0 && !(table[n - 1].weight >= least && table[n - 1].size == b) {
            let i = choose|i: int|
                0 <= i < n - 1 && (#[trigger] table[i]).weight >= least && table[i].size
                    == headings::largest_upto(table, least, n - 1);
            assert(table[i].size == b);
        }
    }
}

proof fn lemma_weight_of(
    t: Tally,
    lines: Seq<ProjectedLine>,
    table: Seq<SizeCount>,
    size: int,
) -> (i: int)
    requires
        tells(t, lines, lines.len() as int, table),
        occurs(t, lines, size),
    ensures
        0 <= i < table.len(),
        same_size(table[i].size as int, size),
        is_entry(t, lines, lines.len() as int, table[i]),
        table[i].weight == chars_of(t, lines, size, lines.len() as int),
        table[i].alpha == letters_of(t, lines, size, lines.len() as int),
        table[i].lines == count_of(t, lines, size, lines.len() as int),
{
    reveal(has_entry);
    let n = lines.len() as int;
    let k = choose|k: int|
        0 <= k < lines.len() && counts(t, #[trigger] lines[k]) && lines[k].dominant_font_size
            == size;
    assert(has_entry(table, size));
    let i = choose|i: int|
        0 <= i < table.len() && same_size((#[trigger] table[i]).size as int, size);
    assert(is_entry(t, lines, n, table[i]));
    lemma_same_class(t, lines, table[i].size as int, size, n);
    i
}

proof fn lemma_occurs(t: Tally, lines: Seq<ProjectedLine>, e: SizeCount)
    requires
        is_entry(t, lines, lines.len() as int, e),
        is_positive(t),
    ensures
        occurs(t, lines, e.size as int),
        e.size > 0,
{
    let k = choose|k: int|
        0 <= k < lines.len() && counts(t, #[trigger] lines[k]) && lines[k].dominant_font_size
            == e.size;
    assert(counts(t, lines[k]));
}

proof fn lemma_some_chars(lines: Seq<ProjectedLine>, k: int, n: int)
    requires
        0 <= k < n <= lines.len(),
        can_be_counted(lines),
        counts(Tally::Body, lines[k]),
    ensures
        chars_of(Tally::Body, lines, lines[k].dominant_font_size as int, n) > 0,
    decreases n,
{
    let size = lines[k].dominant_font_size as int;
    lemma_bounds(Tally::Body, lines, size, n - 1);
    lemma_contribution(Tally::Body, lines[n - 1]);
    lemma_same_size(size, size, size);
    if k < n - 1 {
        lemma_some_chars(lines, k, n - 1);
    }
}

/// Whether a size is the body size as far as another one goes: it has half as many
/// characters, or more, and it is the larger one where that is so of the other one too.
pub open spec fn outweighs(lines: Seq<ProjectedLine>, body: int, s: int) -> bool {
    let n = lines.len() as int;
    &&& occurs(Tally::Body, lines, body)
    &&& 2 * chars_of(Tally::Body, lines, body, n) >= chars_of(Tally::Body, lines, s, n)
    &&& is_weighty(lines, s) ==> s <= body || same_size(s, body)
}

proof fn lemma_outweighs(
    lines: Seq<ProjectedLine>,
    table: Seq<SizeCount>,
    top: int,
    body: int,
    w: int,
    b: int,
    s: int,
)
    requires
        tells(Tally::Body, lines, lines.len() as int, table),
        0 <= w < table.len(),
        table[w].weight == top,
        0 <= b < table.len(),
        table[b].size == body,
        2 * table[b].weight >= top,
        forall|i: int| 0 <= i < table.len() ==> (#[trigger] table[i]).weight <= top,
        forall|i: int|
            0 <= i < table.len() && 2 * (#[trigger] table[i]).weight >= top ==> table[i].size
                <= body,
        occurs(Tally::Body, lines, s),
    ensures
        outweighs(lines, body, s),
{
    let t = Tally::Body;
    let i = lemma_weight_of(t, lines, table, s);
    lemma_occurs(t, lines, table[b]);
    assert(is_entry(t, lines, lines.len() as int, table[b]));
    if is_weighty(lines, s) {
        lemma_occurs(t, lines, table[w]);
        assert(is_entry(t, lines, lines.len() as int, table[w]));
        assert(occurs(t, lines, table[w].size as int));
        assert(table[i].size <= body);
        if s > body {
            reveal(same_size);
        }
    }
}

/// The body size of a document is a size of its upright text. It has half as many characters
/// as any other size, or more, and of the sizes of which that is so it is the largest.
pub proof fn law_body_size(pages: Seq<ParsedPage>)
    requires
        can_be_counted(lines_of(pages)),
    ensures
        ({
            let lines = lines_of(pages);
            let body = headings::body_size_of(pages);
            &&& (forall|s: int| !occurs(Tally::Body, lines, s)) ==> body == 0
            &&& forall|s: int| #[trigger]
                occurs(Tally::Body, lines, s) ==> outweighs(lines, body, s)
        }),
{
    let t = Tally::Body;
    let lines = lines_of(pages);
    let n = lines.len() as int;
    let table = font_sizes::histogram(t, pages);
    let m = table.len() as int;
    let body = headings::body_size_of(pages);
    lemma_histogram(t, pages, pages.len() as int, 0);
    lemma_max_weight(table, m);
    let top = headings::max_weight_upto(table, m);
    assert forall|i: int| 0 <= i < table.len() implies (#[trigger] table[i]).size > 0 by {
        lemma_occurs(t, lines, table[i]);
    }
    lemma_largest(table, (top + 1) / 2, m);
    if top > 0 {
        let w = choose|i: int| 0 <= i < m && (#[trigger] table[i]).weight == top;
        assert(table[w].size <= body);
        let b = choose|i: int|
            0 <= i < m && (#[trigger] table[i]).weight >= (top + 1) / 2 && table[i].size == body;
        assert forall|s: int| #[trigger] occurs(t, lines, s) implies outweighs(lines, body, s) by {
            lemma_outweighs(lines, table, top, body, w, b, s);
        }
        lemma_occurs(t, lines, table[b]);
    } else {
        assert forall|s: int| !#[trigger] occurs(t, lines, s) by {
            if occurs(t, lines, s) {
                let i = lemma_weight_of(t, lines, table, s);
                let k = choose|k: int|
                    0 <= k < lines.len() && counts(t, #[trigger] lines[k])
                        && lines[k].dominant_font_size == s;
                lemma_some_chars(lines, k, n);
                assert(table[i].weight <= top);
            }
        }
    }
}

/// Whether a size has half as many characters as any other, or more.
pub open spec fn is_weighty(lines: Seq<ProjectedLine>, s: int) -> bool {
    forall|other: int| #[trigger]
        occurs(Tally::Body, lines, other) ==> 2 * chars_of(
            Tally::Body,
            lines,
            s,
            lines.len() as int,
        ) >= chars_of(Tally::Body, lines, other, lines.len() as int)
}

proof fn lemma_heaviest(table: Seq<SizeCount>, n: int)
    requires
        0 <= n <= table.len(),
    ensures
        match page_headings::heaviest_upto(table, n) {
            Some(e) => (exists|i: int| 0 <= i < n && #[trigger] table[i] == e) && forall|i: int|
                0 <= i < n ==> (#[trigger] table[i]).weight <= e.weight,
            None => n == 0,
        },
    decreases n,
{
    if n > 0 {
        lemma_heaviest(table, n - 1);
        match page_headings::heaviest_upto(table, n - 1) {
            Some(e) => {
                let i = choose|i: int| 0 <= i < n - 1 && #[trigger] table[i] == e;
                assert(table[i] == e);
                assert(table[n - 1] == table[n - 1]);
            },
            None => {
                assert(table[n - 1] == table[n - 1]);
            },
        }
    }
}

/// Where a page is read on its own, the body size is the size with the most characters.
pub proof fn law_commonest_size(pages: Seq<ParsedPage>)
    requires
        can_be_counted(lines_of(pages)),
    ensures
        ({
            let lines = lines_of(pages);
            let n = lines.len() as int;
            let body = page_headings::body_size_of(pages);
            &&& (forall|s: int| !occurs(Tally::Body, lines, s)) ==> body == 0
            &&& forall|s: int| #[trigger]
                occurs(Tally::Body, lines, s) ==> occurs(Tally::Body, lines, body) && chars_of(
                    Tally::Body,
                    lines,
                    body,
                    n,
                ) >= chars_of(Tally::Body, lines, s, n)
        }),
{
    let t = Tally::Body;
    let lines = lines_of(pages);
    let n = lines.len() as int;
    let table = font_sizes::histogram(t, pages);
    let m = table.len() as int;
    let body = page_headings::body_size_of(pages);
    lemma_histogram(t, pages, pages.len() as int, 0);
    lemma_heaviest(table, m);
    match page_headings::heaviest_upto(table, m) {
        Some(e) => {
            let b = choose|i: int| 0 <= i < m && #[trigger] table[i] == e;
            assert(is_entry(t, lines, n, table[b]));
            lemma_occurs(t, lines, table[b]);
            assert(occurs(t, lines, body));
            assert forall|s: int| #[trigger] occurs(t, lines, s) implies occurs(t, lines, body)
                && chars_of(t, lines, body, n) >= chars_of(t, lines, s, n) by {
                let i = lemma_weight_of(t, lines, table, s);
            }
        },
        None => {
            assert forall|s: int| !#[trigger] occurs(t, lines, s) by {
                if occurs(t, lines, s) {
                    let i = lemma_weight_of(t, lines, table, s);
                }
            }
        },
    }
}

/// Whether a size larger than the body can be that of headings: it has enough characters, not
/// too many in a line, and half of them are letters. Where all pages are read together, ten
/// characters are enough, if a line has eight or more; otherwise 25.
pub open spec fn can_head(t: Tally, lines: Seq<ProjectedLine>, size: int) -> bool {
    let n = lines.len() as int;
    let chars = chars_of(t, lines, size, n);
    let rows = count_of(t, lines, size, n);
    &&& chars <= 200 * rows
    &&& 2 * letters_of(t, lines, size, n) >= chars
    &&& if t == (Tally::Larger { body: body_of(t), strict: true }) {
        chars >= 10 && chars >= 8 * rows
    } else {
        chars >= 25
    }
}

/// The body size that lines are compared with.
pub open spec fn body_of(t: Tally) -> i32 {
    match t {
        Tally::Body => 0,
        Tally::Larger { body, .. } => body,
    }
}

/// Whether a size has a level in a map of six levels, or all six are larger.
pub open spec fn has_level(map: Seq<(i32, u8)>, size: int) -> bool {
    ||| exists|i: int| 0 <= i < map.len() && same_size((#[trigger] map[i]).0 as int, size)
    ||| map.len() == 6 && (size <= map[5].0 || same_size(size, map[5].0 as int))
}

/// Whether a map gives levels to the heading sizes of lines: the largest has level 1, each
/// smaller one the next, and no size is left out that could have one of six levels.
pub open spec fn ranks(t: Tally, lines: Seq<ProjectedLine>, map: Seq<(i32, u8)>) -> bool {
    &&& map.len() <= 6
    &&& forall|i: int|
        0 <= i < map.len() ==> (#[trigger] map[i]).1 == i + 1 && occurs(t, lines, map[i].0 as int)
            && can_head(t, lines, map[i].0 as int)
    &&& forall|i: int, j: int|
        0 <= i < j < map.len() ==> (#[trigger] map[i]).0 >= (#[trigger] map[j]).0
    &&& forall|s: int| #[trigger]
        occurs(t, lines, s) && can_head(t, lines, s) ==> has_level(map, s)
}

/// Whether a size is that of an entry that passes.
spec fn comes_from(
    table: Seq<SizeCount>,
    passes: spec_fn(SizeCount) -> bool,
    size: int,
    n: int,
) -> bool {
    exists|i: int| 0 <= i < n && passes(#[trigger] table[i]) && table[i].size == size
}

/// Whether the kept sizes are those of the entries that pass.
spec fn keeps(table: Seq<SizeCount>, passes: spec_fn(SizeCount) -> bool, kept: Seq<int>, n: int)
    -> bool {
    &&& forall|k: int|
        0 <= k < kept.len() ==> comes_from(table, passes, #[trigger] kept[k], n)
    &&& forall|i: int|
        0 <= i < n && passes(#[trigger] table[i]) ==> kept.contains(table[i].size as int)
}

proof fn lemma_kept(
    table: Seq<SizeCount>,
    passes: spec_fn(SizeCount) -> bool,
    kept: Seq<int>,
    n: int,
)
    requires
        0 < n <= table.len(),
        keeps(table, passes, kept, n - 1),
    ensures
        passes(table[n - 1]) ==> keeps(table, passes, kept.push(table[n - 1].size as int), n),
        !passes(table[n - 1]) ==> keeps(table, passes, kept, n),
{
    let more = kept.push(table[n - 1].size as int);
    if passes(table[n - 1]) {
        assert forall|k: int| 0 <= k < more.len() implies comes_from(
            table,
            passes,
            #[trigger] more[k],
            n,
        ) by {
            if k < kept.len() {
                assert(comes_from(table, passes, kept[k], n - 1));
                let i = choose|i: int|
                    0 <= i < n - 1 && passes(#[trigger] table[i]) && table[i].size == kept[k];
                assert(passes(table[i]) && table[i].size == more[k]);
            } else {
                assert(table[n - 1].size == more[k]);
            }
        }
        assert forall|i: int| 0 <= i < n && passes(#[trigger] table[i]) implies more.contains(
            table[i].size as int,
        ) by {
            if i < n - 1 {
                assert(kept.contains(table[i].size as int));
                let k = choose|k: int| 0 <= k < kept.len() && kept[k] == table[i].size;
                assert(more[k] == table[i].size);
            } else {
                assert(more[kept.len() as int] == table[i].size);
            }
        }
    } else {
        assert forall|k: int| 0 <= k < kept.len() implies comes_from(
            table,
            passes,
            #[trigger] kept[k],
            n,
        ) by {
            assert(comes_from(table, passes, kept[k], n - 1));
            let i = choose|i: int|
                0 <= i < n - 1 && passes(#[trigger] table[i]) && table[i].size == kept[k];
            assert(passes(table[i]) && table[i].size == kept[k]);
        }
    }
}

proof fn lemma_kept_strict(table: Seq<SizeCount>, n: int)
    requires
        0 <= n <= table.len(),
    ensures
        keeps(table, |e: SizeCount| headings::qualifies(e), headings::kept_upto(table, n), n),
    decreases n,
{
    if n > 0 {
        lemma_kept_strict(table, n - 1);
        lemma_kept(
            table,
            |e: SizeCount| headings::qualifies(e),
            headings::kept_upto(table, n - 1),
            n,
        );
    }
}

proof fn lemma_kept_single(table: Seq<SizeCount>, n: int)
    requires
        0 <= n <= table.len(),
    ensures
        keeps(
            table,
            |e: SizeCount| page_headings::qualifies(e),
            page_headings::kept_upto(table, n),
            n,
        ),
    decreases n,
{
    if n > 0 {
        lemma_kept_single(table, n - 1);
        lemma_kept(
            table,
            |e: SizeCount| page_headings::qualifies(e),
            page_headings::kept_upto(table, n - 1),
            n,
        );
    }
}

proof fn lemma_level_of(kept: Seq<int>, size: int)
    requires
        forall|i: int| 0 <= i < kept.len() ==> 0 <= #[trigger] kept[i] <= i32::MAX,
        kept.contains(size),
    ensures
        ({
            let map = font_sizes::levels_of(kept);
            ||| exists|i: int| 0 <= i < map.len() && (#[trigger] map[i]).0 == size
            ||| map.len() == 6 && size <= map[5].0
        }),
{
    let map = font_sizes::levels_of(kept);
    let neg = font_sizes::negated(kept);
    let order = sort::sorted(neg);
    sort::law_sorted(neg);
    font_sizes::law_levels_descend(kept);
    let k = choose|k: int| 0 <= k < kept.len() && kept[k] == size;
    assert(neg[k] == -size);
    assert(neg.contains(-size));
    assert(order.contains(-size));
    let p = choose|p: int| 0 <= p < order.len() && order[p] == -size;
    if p < 6 {
        assert(map[p].0 == size);
    } else {
        assert(order[5] <= order[p]);
        assert(order.contains(order[5]));
        assert(neg.contains(order[5]));
        let q = choose|q: int| 0 <= q < neg.len() && neg[q] == order[5];
        assert(0 <= kept[q] <= i32::MAX);
        assert(map[5].0 == -order[5]);
    }
}

proof fn lemma_ranks(
    t: Tally,
    lines: Seq<ProjectedLine>,
    table: Seq<SizeCount>,
    passes: spec_fn(SizeCount) -> bool,
    kept: Seq<int>,
)
    requires
        is_positive(t),
        tells(t, lines, lines.len() as int, table),
        keeps(table, passes, kept, table.len() as int),
        forall|e: SizeCount, s: int|
            #![trigger is_entry(t, lines, lines.len() as int, e), same_size(e.size as int, s)]
            is_entry(t, lines, lines.len() as int, e) && same_size(e.size as int, s) ==> (passes(e)
                <==> can_head(t, lines, s)),
    ensures
        ranks(t, lines, font_sizes::levels_of(kept)),
{
    let n = lines.len() as int;
    let map = font_sizes::levels_of(kept);
    assert forall|k: int| 0 <= k < kept.len() implies 0 <= #[trigger] kept[k] <= i32::MAX && occurs(
        t,
        lines,
        kept[k],
    ) && can_head(t, lines, kept[k]) by {
        assert(comes_from(table, passes, kept[k], table.len() as int));
        let i = choose|i: int|
            0 <= i < table.len() && passes(#[trigger] table[i]) && table[i].size == kept[k];
        assert(is_entry(t, lines, n, table[i]));
        lemma_occurs(t, lines, table[i]);
        lemma_same_size(kept[k], kept[k], kept[k]);
        assert(same_size(table[i].size as int, kept[k]));
    }
    font_sizes::law_levels_descend(kept);
    assert forall|i: int| 0 <= i < map.len() implies (#[trigger] map[i]).1 == i + 1 && occurs(
        t,
        lines,
        map[i].0 as int,
    ) && can_head(t, lines, map[i].0 as int) by {
        assert(kept.contains(map[i].0 as int));
        let k = choose|k: int| 0 <= k < kept.len() && kept[k] == map[i].0;
        assert(occurs(t, lines, kept[k]));
    }
    assert forall|s: int| #[trigger] occurs(t, lines, s) && can_head(t, lines, s) implies has_level(
        map,
        s,
    ) by {
        let i = lemma_weight_of(t, lines, table, s);
        assert(passes(table[i]));
        lemma_level_of(kept, table[i].size as int);
        if exists|j: int| 0 <= j < map.len() && (#[trigger] map[j]).0 == table[i].size {
            let j = choose|j: int| 0 <= j < map.len() && (#[trigger] map[j]).0 == table[i].size;
            assert(same_size(map[j].0 as int, s));
        } else {
            reveal(same_size);
        }
    }
}

/// The heading sizes of a document are the sizes, more than half a point larger than the
/// body, that lines of a heading's length are set in. The largest has level 1, each smaller
/// one the next, up to six.
pub proof fn law_heading_sizes(pages: Seq<ParsedPage>, body: i32)
    requires
        body >= 0,
        can_be_counted(lines_of(pages)),
    ensures
        ranks(
            Tally::Larger { body, strict: true },
            lines_of(pages),
            headings::heading_map_of(pages, body),
        ),
{
    let t = Tally::Larger { body, strict: true };
    let lines = lines_of(pages);
    let n = lines.len() as int;
    let table = font_sizes::histogram(t, pages);
    lemma_histogram(t, pages, pages.len() as int, 0);
    lemma_kept_strict(table, table.len() as int);
    let passes = |e: SizeCount| headings::qualifies(e);
    assert forall|e: SizeCount, s: int|
        #![trigger is_entry(t, lines, n, e), same_size(e.size as int, s)]
        is_entry(t, lines, n, e) && same_size(e.size as int, s) implies (passes(e) <==> can_head(
        t,
        lines,
        s,
    )) by {
        lemma_same_class(t, lines, e.size as int, s, n);
    }
    lemma_ranks(t, lines, table, passes, headings::kept_upto(table, table.len() as int));
}

/// Where a page is read on its own, the heading sizes are ranked in the same way.
pub proof fn law_page_heading_sizes(pages: Seq<ParsedPage>, body: i32)
    requires
        body >= 0,
        can_be_counted(lines_of(pages)),
    ensures
        ranks(
            Tally::Larger { body, strict: false },
            lines_of(pages),
            page_headings::heading_map_of(pages, body),
        ),
{
    let t = Tally::Larger { body, strict: false };
    let lines = lines_of(pages);
    let n = lines.len() as int;
    let table = font_sizes::histogram(t, pages);
    lemma_histogram(t, pages, pages.len() as int, 0);
    lemma_kept_single(table, table.len() as int);
    let passes = |e: SizeCount| page_headings::qualifies(e);
    assert forall|e: SizeCount, s: int|
        #![trigger is_entry(t, lines, n, e), same_size(e.size as int, s)]
        is_entry(t, lines, n, e) && same_size(e.size as int, s) implies (passes(e) <==> can_head(
        t,
        lines,
        s,
    )) by {
        lemma_same_class(t, lines, e.size as int, s, n);
    }
    lemma_ranks(t, lines, table, passes, page_headings::kept_upto(table, table.len() as int));
}

/// Whether a font size is within six tenths of a point of a heading size.
pub open spec fn is_near(size: int, heading: int) -> bool {
    -600 < size - heading < 600
}

/// A line gets the level of the first heading size that its font size is within six tenths
/// of a point of, and none if there is none.
pub proof fn law_level_of_size(size: int, map: Seq<(i32, u8)>, i: int)
    requires
        0 <= i <= map.len(),
    ensures
        match font_sizes::level_from(size, map, i) {
            Some(level) => exists|k: int|
                i <= k < map.len() && is_near(size, (#[trigger] map[k]).0 as int) && map[k].1
                    == level && forall|j: int|
                    i <= j < k ==> !is_near(size, (#[trigger] map[j]).0 as int),
            None => forall|k: int|
                i <= k < map.len() ==> !is_near(size, (#[trigger] map[k]).0 as int),
        },
    decreases map.len() - i,
{
    if i < map.len() {
        law_level_of_size(size, map, i + 1);
        if is_near(size, map[i].0 as int) {
            assert(map[i].1 == font_sizes::level_from(size, map, i)->0);
        } else if font_sizes::level_from(size, map, i) is Some {
            let level = font_sizes::level_from(size, map, i)->0;
            let k = choose|k: int|
                i + 1 <= k < map.len() && is_near(size, (#[trigger] map[k]).0 as int) && map[k].1
                    == level && forall|j: int|
                    i + 1 <= j < k ==> !is_near(size, (#[trigger] map[j]).0 as int);
            assert(is_near(size, map[k].0 as int));
        }
    }
}

/// Text that is turned by less than five degrees off the horizontal, or upside down, is
/// upright, and upright text is turned by no more than that.
pub proof fn law_upright_runs(item: TextItem, half_turns: int)
    ensures
        -5_000 < item.rotation - 180_000 * half_turns < 5_000 ==> !font_sizes::is_rotated_run(item),
        !font_sizes::is_rotated_run(item) ==> exists|k: int|
            -5_000 <= item.rotation - #[trigger] turned_by(k) <= 5_000,
{
    let a = types::dist(item.rotation as int, 0);
    let r = a % 360_000;
    let q = a / 360_000;
    assert(a == 360_000 * q + r);
    if !font_sizes::is_rotated_run(item) {
        let k: int = if r < 5_000 {
            2 * q
        } else if r <= 185_000 {
            2 * q + 1
        } else {
            2 * q + 2
        };
        if item.rotation >= 0 {
            assert(-5_000 <= item.rotation - turned_by(k) <= 5_000);
        } else {
            assert(-5_000 <= item.rotation - turned_by(-k) <= 5_000);
        }
    }
}

/// Half turns in thousandths of a degree.
pub open spec fn turned_by(half_turns: int) -> int {
    180_000 * half_turns
}

} // verus!
