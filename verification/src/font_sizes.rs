//! Histograms of font sizes, from which the body size and the heading sizes of
//! a document are read off.

use vstd::prelude::*;
use vstd::string::*;
use crate::heading_text;
use crate::sort;
use crate::text;
use crate::types;
use crate::types::{ParsedPage, ProjectedLine, TextItem};

verus! {

/// The number of heading levels.
pub const MAX_HEADING_LEVELS: usize = 6;

/// How much larger than the body a heading must be.
pub const HEADING_SIZE_EPSILON: i64 = 500;

/// How much larger than the body a heading must be when its size was estimated.
pub const ESTIMATED_HEADING_SIZE_MARGIN: i64 = 1_500;

/// Font sizes closer than this to a heading size belong to it.
pub const FONT_SIZE_HEADING_TOLERANCE: i64 = 600;

/// How many lines the first `n` pages have.
pub open spec fn lines_upto(pages: Seq<ParsedPage>, n: int) -> int
    decreases n,
{
    if n <= 0 {
        0
    } else {
        lines_upto(pages, n - 1) + pages[n - 1].projected_lines@.len()
    }
}

/// Whether the lines of a document can be counted.
pub open spec fn document_fits(pages: Seq<ParsedPage>) -> bool {
    lines_upto(pages, pages.len() as int) <= usize::MAX
}

proof fn lemma_lines_upto(pages: Seq<ParsedPage>, m: int, n: int)
    requires
        0 <= m <= n,
    ensures
        0 <= lines_upto(pages, m) <= lines_upto(pages, n),
    decreases n,
{
    if n > 0 {
        if m < n {
            lemma_lines_upto(pages, m, n - 1);
        } else {
            lemma_lines_upto(pages, m - 1, n - 1);
        }
    }
}

// ---------------------------------------------------------------------------
// Rotated lines
// ---------------------------------------------------------------------------

/// Whether a run is rotated by more than five degrees off the horizontal.
pub open spec fn is_rotated_run(item: TextItem) -> bool {
    let r = types::dist(item.rotation as int, 0) % 360_000;
    !(r < 5_000 || 175_000 <= r <= 185_000 || 355_000 <= r)
}

/// Whether any run of a line is rotated.
pub open spec fn is_rotated(line: ProjectedLine) -> bool {
    exists|i: int| 0 <= i < line.spans@.len() && is_rotated_run(#[trigger] line.spans@[i])
}

/// Whether any run of a line is rotated by more than five degrees off the
/// horizontal.
pub fn is_rotated_line(line: &ProjectedLine) -> (r: bool)
    ensures
        r == is_rotated(*line),
{
    let spans: &Vec<TextItem> = &line.spans;
    let mut i: usize = 0;
    while i < spans.len()
        invariant
            i <= spans@.len(),
            spans@ == line.spans@,
            forall|k: int| 0 <= k < i ==> !is_rotated_run(#[trigger] spans@[k]),
        decreases spans.len() - i,
    {
        let turn: i64 = types::dist64(spans[i].rotation as i64, 0) % 360_000;
        if !(turn < 5_000 || (175_000 <= turn && turn <= 185_000) || 355_000 <= turn) {
            return true;
        }
        i = i + 1;
    }
    false
}

// ---------------------------------------------------------------------------
// The histogram
// ---------------------------------------------------------------------------

/// What a histogram counts: all text, or the text larger than the body. With
/// `strict`, captions do not count and an estimated size must clear a wider
/// margin.
#[derive(Clone, Copy, Debug, PartialEq, Eq, Structural)]
pub enum Tally {
    Body,
    Larger { body: i32, strict: bool },
}

/// How often a font size occurs: in how many lines, with what weight in
/// characters, and how many of them are alphabetic.
#[derive(Clone, Copy, Debug, PartialEq, Eq, Structural)]
pub struct SizeCount {
    pub size: i32,
    pub lines: u128,
    pub weight: u128,
    pub alpha: u128,
}

/// The hundredth of a point that a size is counted under.
pub open spec fn size_key(size: int) -> int {
    if size <= 0 {
        0
    } else {
        (size + 5) / 10
    }
}

/// The margin over the body size that a line must clear to count as larger.
pub open spec fn heading_margin(line: ProjectedLine, strict: bool) -> int {
    if strict && line.font_size_is_estimated {
        ESTIMATED_HEADING_SIZE_MARGIN as int
    } else {
        HEADING_SIZE_EPSILON as int
    }
}

/// The weight and the alphabetic characters that a line adds to a histogram.
pub open spec fn contribution(t: Tally, line: ProjectedLine) -> Option<(int, int)> {
    let n = line.text@.len() as int;
    if is_rotated(line) {
        None
    } else {
        match t {
            Tally::Body => if line.dominant_font_size > 0 {
                Some((types::max_of(n, 1), 0int))
            } else {
                None
            },
            Tally::Larger { body, strict } => if !(strict && heading_text::is_caption(line.text@))
                && line.dominant_font_size > body + heading_margin(line, strict) {
                Some(
                    (
                        text::count_visible(line.text@, n) as int,
                        text::count_visible_alpha(line.text@, n) as int,
                    ),
                )
            } else {
                None
            },
        }
    }
}

/// The first entry from `i` on whose size has the key `key`, or the length of
/// the table.
pub open spec fn entry_from(table: Seq<SizeCount>, key: int, i: int) -> int
    decreases table.len() - i,
{
    if i < 0 || i >= table.len() {
        table.len() as int
    } else if size_key(table[i].size as int) == key {
        i
    } else {
        entry_from(table, key, i + 1)
    }
}

/// A histogram with one more line of size `size`. Sizes that share a key are
/// counted under the one that came first.
pub open spec fn counted(table: Seq<SizeCount>, size: i32, weight: int, alpha: int) -> Seq<
    SizeCount,
> {
    let k = entry_from(table, size_key(size as int), 0);
    if k < table.len() {
        let e = table[k];
        table.update(
            k,
            SizeCount {
                size: e.size,
                lines: (e.lines + 1) as u128,
                weight: (e.weight + weight) as u128,
                alpha: (e.alpha + alpha) as u128,
            },
        )
    } else {
        table.push(SizeCount { size, lines: 1, weight: weight as u128, alpha: alpha as u128 })
    }
}

/// The histogram over the pages before page `p` and the first `l` lines of page
/// `p`.
pub open spec fn histogram_at(t: Tally, pages: Seq<ParsedPage>, p: int, l: int) -> Seq<SizeCount>
    decreases p, l,
{
    if p < 0 {
        seq![]
    } else if l > 0 {
        let before = histogram_at(t, pages, p, l - 1);
        let line = pages[p].projected_lines@[l - 1];
        match contribution(t, line) {
            Some(c) => counted(before, line.dominant_font_size, c.0, c.1),
            None => before,
        }
    } else if p > 0 {
        histogram_at(t, pages, p - 1, pages[p - 1].projected_lines@.len() as int)
    } else {
        seq![]
    }
}

/// The histogram over a document.
pub open spec fn histogram(t: Tally, pages: Seq<ParsedPage>) -> Seq<SizeCount> {
    histogram_at(t, pages, pages.len() as int, 0)
}

fn key_of(size: i32) -> (r: i64)
    ensures
        r == size_key(size as int),
{
    if size <= 0 {
        0
    } else {
        (size as i64 + 5) / 10
    }
}

fn find_entry(table: &Vec<SizeCount>, key: i64) -> (r: usize)
    ensures
        r == entry_from(table@, key as int, 0),
        r <= table@.len(),
{
    let mut i: usize = 0;
    while i < table.len()
        invariant
            i <= table@.len(),
            entry_from(table@, key as int, 0) == entry_from(table@, key as int, i as int),
        decreases table.len() - i,
    {
        if key_of(table[i].size) == key {
            return i;
        }
        i = i + 1;
    }
    i
}

fn line_contribution(t: Tally, line: &ProjectedLine) -> (r: Option<(usize, usize)>)
    ensures
        match r {
            Some(c) => contribution(t, *line) == Some((c.0 as int, c.1 as int)),
            None => contribution(t, *line) is None,
        },
{
    if is_rotated_line(line) {
        return None;
    }
    match t {
        Tally::Body => {
            if line.dominant_font_size <= 0 {
                return None;
            }
            let n: usize = line.text.as_str().unicode_len();
            Some((if n > 1 { n } else { 1 }, 0))
        },
        Tally::Larger { body, strict } => {
            if strict && heading_text::is_caption_line(line.text.as_str()) {
                return None;
            }
            let margin: i64 = if strict && line.font_size_is_estimated {
                ESTIMATED_HEADING_SIZE_MARGIN
            } else {
                HEADING_SIZE_EPSILON
            };
            if line.dominant_font_size as i64 <= body as i64 + margin {
                return None;
            }
            Some(text::visible_and_alpha(line.text.as_str()))
        },
    }
}

/// Whether no count of a histogram of `n` lines can have overflown.
spec fn counts_fit(table: Seq<SizeCount>, n: int) -> bool {
    forall|k: int|
        0 <= k < table.len() ==> (#[trigger] table[k]).lines <= n && table[k].weight <= n
            * 0xFFFF_FFFF_FFFF_FFFF && table[k].alpha <= n * 0xFFFF_FFFF_FFFF_FFFF
}

fn count_line(table: &mut Vec<SizeCount>, size: i32, weight: usize, alpha: usize, Ghost(n): Ghost<int>)
    requires
        counts_fit(old(table)@, n),
        0 <= n < usize::MAX,
    ensures
        final(table)@ == counted(old(table)@, size, weight as int, alpha as int),
        counts_fit(final(table)@, n + 1),
{
    let k: usize = find_entry(table, key_of(size));
    if k < table.len() {
        let e: SizeCount = table[k];
        table.set(
            k,
            SizeCount {
                size: e.size,
                lines: e.lines + 1,
                weight: e.weight + weight as u128,
                alpha: e.alpha + alpha as u128,
            },
        );
    } else {
        table.push(SizeCount { size, lines: 1, weight: weight as u128, alpha: alpha as u128 });
    }
}

/// The histogram over a document.
pub fn size_histogram(t: Tally, pages: &Vec<ParsedPage>) -> (r: Vec<SizeCount>)
    requires
        document_fits(pages@),
    ensures
        r@ == histogram(t, pages@),
{
    let mut table: Vec<SizeCount> = Vec::new();
    let mut p: usize = 0;
    while p < pages.len()
        invariant
            p <= pages@.len(),
            document_fits(pages@),
            table@ == histogram_at(t, pages@, p as int, 0),
            counts_fit(table@, lines_upto(pages@, p as int)),
        decreases pages.len() - p,
    {
        let mut l: usize = 0;
        while l < pages[p].projected_lines.len()
            invariant
                p < pages@.len(),
                document_fits(pages@),
                l <= pages@[p as int].projected_lines@.len(),
                table@ == histogram_at(t, pages@, p as int, l as int),
                counts_fit(table@, lines_upto(pages@, p as int) + l),
            decreases pages@[p as int].projected_lines@.len() - l,
        {
            let line = &pages[p].projected_lines[l];
            proof {
                lemma_lines_upto(pages@, 0, p as int);
                lemma_lines_upto(pages@, p + 1, pages@.len() as int);
            }
            match line_contribution(t, line) {
                Some(c) => {
                    count_line(
                        &mut table,
                        line.dominant_font_size,
                        c.0,
                        c.1,
                        Ghost(lines_upto(pages@, p as int) + l),
                    );
                },
                None => {},
            }
            l = l + 1;
        }
        p = p + 1;
    }
    table
}

// ---------------------------------------------------------------------------
// Heading sizes
// ---------------------------------------------------------------------------

/// The sizes negated, so that ascending order puts the largest first.
pub open spec fn negated(sizes: Seq<int>) -> Seq<int> {
    Seq::new(sizes.len(), |i: int| -sizes[i])
}

/// Heading levels for a list of sizes: the largest size has level 1, and at most
/// six sizes get a level.
pub open spec fn levels_of(sizes: Seq<int>) -> Seq<(i32, u8)> {
    let order = sort::sorted(negated(sizes));
    Seq::new(
        types::min_of(order.len() as int, MAX_HEADING_LEVELS as int) as nat,
        |i: int| ((-order[i]) as i32, (i + 1) as u8),
    )
}

/// Heading levels for a list of sizes.
pub fn assign_levels(sizes: &Vec<i32>) -> (r: Vec<(i32, u8)>)
    ensures
        r@ == levels_of(Seq::new(sizes@.len(), |i: int| sizes@[i] as int)),
        r@.len() <= MAX_HEADING_LEVELS,
{
    let ghost given = Seq::new(sizes@.len(), |i: int| sizes@[i] as int);
    let mut keys: Vec<i64> = Vec::new();
    let mut k: usize = 0;
    while k < sizes.len()
        invariant
            k <= sizes@.len(),
            keys@.len() == k,
            forall|i: int| 0 <= i < k ==> #[trigger] keys@[i] == -(sizes@[i] as int),
        decreases sizes.len() - k,
    {
        keys.push(-(sizes[k] as i64));
        k = k + 1;
    }
    proof {
        assert(sort::ints(keys@) =~= negated(given));
    }
    let order: Vec<i64> = sort::sort_values(&keys);
    let ghost want = sort::sorted(negated(given));
    let mut out: Vec<(i32, u8)> = Vec::new();
    let mut i: usize = 0;
    while i < order.len() && i < MAX_HEADING_LEVELS
        invariant
            i <= order@.len(),
            i <= MAX_HEADING_LEVELS,
            order@.len() == keys@.len() == sizes@.len(),
            sort::ints(order@) == want,
            forall|j: int| 0 <= j < order@.len() ==> keys@.contains(#[trigger] order@[j]),
            forall|j: int|
                0 <= j < sizes@.len() ==> #[trigger] keys@[j] == -(sizes@[j] as int),
            out@.len() == i,
            forall|j: int|
                0 <= j < i ==> #[trigger] out@[j] == (((-want[j]) as i32), ((j + 1) as u8)),
        decreases MAX_HEADING_LEVELS - i,
    {
        proof {
            assert(keys@.contains(order@[i as int]));
            let j = choose|j: int| 0 <= j < keys@.len() && keys@[j] == order@[i as int];
            assert(keys@[j] == -(sizes@[j] as int));
            assert(sort::ints(order@)[i as int] == order@[i as int]);
        }
        out.push(((-order[i]) as i32, (i + 1) as u8));
        i = i + 1;
    }
    proof {
        assert(want.len() == order@.len());
        assert(out@ =~= levels_of(given));
    }
    out
}

/// The level of the first heading size from `i` on that `size` belongs to.
pub open spec fn level_from(size: int, map: Seq<(i32, u8)>, i: int) -> Option<u8>
    decreases map.len() - i,
{
    if i < 0 || i >= map.len() {
        None
    } else if types::dist(size, map[i].0 as int) < FONT_SIZE_HEADING_TOLERANCE {
        Some(map[i].1)
    } else {
        level_from(size, map, i + 1)
    }
}

/// The heading level of a font size.
pub fn heading_level_for(size: i32, map: &Vec<(i32, u8)>) -> (r: Option<u8>)
    ensures
        r == level_from(size as int, map@, 0),
{
    let mut i: usize = 0;
    while i < map.len()
        invariant
            i <= map@.len(),
            level_from(size as int, map@, 0) == level_from(size as int, map@, i as int),
        decreases map.len() - i,
    {
        if types::dist64(size as i64, map[i].0 as i64) < FONT_SIZE_HEADING_TOLERANCE {
            return Some(map[i].1);
        }
        i = i + 1;
    }
    None
}

/// The level of headings below all levels of a map with `n` sizes, which are
/// counted in one byte.
pub open spec fn next_level(n: int) -> u8 {
    if n % 256 + 1 > MAX_HEADING_LEVELS {
        MAX_HEADING_LEVELS as u8
    } else {
        (n % 256 + 1) as u8
    }
}

/// Whether the level below all levels of a map can be counted in one byte.
pub open spec fn map_fits(map: Seq<(i32, u8)>) -> bool {
    map.len() % 256 != 255
}

/// The level of headings below all levels of a map.
pub fn level_below(map: &Vec<(i32, u8)>) -> (r: u8)
    requires
        map_fits(map@),
    ensures
        r == next_level(map@.len() as int),
{
    let n: usize = map.len() % 256;
    if n >= MAX_HEADING_LEVELS {
        6
    } else {
        (n + 1) as u8
    }
}

/// A level within the levels that there are.
pub open spec fn clamped_level(level: u8) -> u8 {
    if level < 1 {
        1
    } else if level > MAX_HEADING_LEVELS {
        MAX_HEADING_LEVELS as u8
    } else {
        level
    }
}

/// A level within the levels that there are.
pub fn clamp_level(level: u8) -> (r: u8)
    ensures
        r == clamped_level(level),
{
    if level < 1 {
        1
    } else if level > 6 {
        6
    } else {
        level
    }
}

/// Larger sizes have smaller level numbers, which begin with 1 and do not go above 6, and
/// every size with a level is one of the given sizes.
pub proof fn law_levels_descend(sizes: Seq<int>)
    requires
        forall|i: int| 0 <= i < sizes.len() ==> 0 <= #[trigger] sizes[i] <= i32::MAX,
    ensures
        levels_of(sizes).len() <= MAX_HEADING_LEVELS,
        forall|i: int|
            0 <= i < levels_of(sizes).len() ==> (#[trigger] levels_of(sizes)[i]).1 == i + 1
                && sizes.contains(levels_of(sizes)[i].0 as int),
        forall|i: int, j: int|
            0 <= i <= j < levels_of(sizes).len() ==> levels_of(sizes)[i].0 >= levels_of(sizes)[j].0,
{
    let neg = negated(sizes);
    let order = sort::sorted(neg);
    sort::law_sorted(neg);
    assert(order.len() == neg.len());
    assert forall|i: int| 0 <= i < order.len() implies sizes.contains(-(#[trigger] order[i])) by {
        assert(order.contains(order[i]));
        assert(neg.contains(order[i]));
        let k = choose|k: int| 0 <= k < neg.len() && neg[k] == order[i];
        assert(sizes[k] == -order[i]);
    }
    assert forall|i: int| 0 <= i < levels_of(sizes).len() implies (#[trigger] levels_of(sizes)[i]).1
        == i + 1 && sizes.contains(levels_of(sizes)[i].0 as int) by {
        assert(sizes.contains(-order[i]));
        let k = choose|k: int| 0 <= k < sizes.len() && sizes[k] == -order[i];
        assert(0 <= sizes[k] <= i32::MAX);
    }
    assert forall|i: int, j: int| 0 <= i <= j < levels_of(sizes).len() implies levels_of(
        sizes,
    )[i].0 >= levels_of(sizes)[j].0 by {
        assert(order[i] <= order[j]);
        assert(levels_of(sizes)[i].1 == i + 1 && levels_of(sizes)[j].1 == j + 1);
        assert(sizes.contains(-order[i]) && sizes.contains(-order[j]));
    }
}

} // verus!
