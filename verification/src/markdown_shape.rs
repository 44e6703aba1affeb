//! What holds of rendered markdown: every block reads back from it, with its level, its
//! emphasis, its lines and its cells.

use vstd::prelude::*;
use vstd::string::*;
use crate::escapes;
use crate::render;
use crate::text;
use crate::types::BlockView;

verus! {

// ---------------------------------------------------------------------------
// Headings, paragraphs and list items
// ---------------------------------------------------------------------------

/// Whether the first `n` characters of a text are all `c`.
pub open spec fn begins_with(t: Seq<char>, c: char, n: int) -> bool {
    0 <= n <= t.len() && forall|i: int| 0 <= i < n ==> #[trigger] t[i] == c
}

/// Whether the last `n` characters of a text are all `c`.
pub open spec fn ends_with(t: Seq<char>, c: char, n: int) -> bool {
    0 <= n <= t.len() && forall|i: int| t.len() - n <= i < t.len() ==> #[trigger] t[i] == c
}

/// Whether `t` is `inner` between `n` stars on either side.
pub open spec fn is_starred(t: Seq<char>, inner: Seq<char>, n: int) -> bool {
    &&& t.len() == inner.len() + 2 * n
    &&& begins_with(t, '*', n)
    &&& ends_with(t, '*', n)
    &&& t.subrange(n, n + inner.len()) == inner
}

/// How many stars mark an emphasis on either side: two for bold, one for italic, three for
/// both. Blank text has none.
pub open spec fn stars(t: Seq<char>, bold: bool, italic: bool) -> int {
    if text::is_blank(t) {
        0
    } else {
        (if bold {
            2int
        } else {
            0int
        }) + (if italic {
            1int
        } else {
            0int
        })
    }
}

proof fn lemma_repeated_one(c: char, s: Seq<char>, n: int)
    requires
        s == seq![c],
        n >= 0,
    ensures
        render::repeated(s, n).len() == n,
        begins_with(render::repeated(s, n), c, n),
    decreases n,
{
    if n > 0 {
        lemma_repeated_one(c, s, n - 1);
    }
}

proof fn lemma_repeated_two(c: char, s: Seq<char>, n: int)
    requires
        s == seq![c, c],
        n >= 0,
    ensures
        render::repeated(s, n).len() == 2 * n,
        begins_with(render::repeated(s, n), c, 2 * n),
    decreases n,
{
    if n > 0 {
        lemma_repeated_two(c, s, n - 1);
    }
}

/// A paragraph is its text between two stars on either side where it is bold, one where it
/// is italic, and three where it is both.
pub proof fn law_emphasis_is_marked(t: Seq<char>, bold: bool, italic: bool)
    ensures
        is_starred(
            render::block_text(BlockView::Paragraph { text: t, bold, italic }),
            t,
            stars(t, bold, italic),
        ),
{
    lemma_emphasized(t, bold, italic);
}

proof fn lemma_emphasized(t: Seq<char>, bold: bool, italic: bool)
    ensures
        is_starred(render::emphasized(t, bold, italic), t, stars(t, bold, italic)),
{
    reveal_strlit("***");
    reveal_strlit("**");
    reveal_strlit("*");
    let r = render::emphasized(t, bold, italic);
    let n = stars(t, bold, italic);
    assert(r.subrange(n, n + t.len()) =~= t);
}

/// A heading is one to six number signs, as many as its level says, a space and its text.
pub proof fn law_heading_level_is_marked(level: u8, t: Seq<char>)
    ensures
        ({
            let r = render::block_text(BlockView::Heading { level, text: t });
            let n: int = if level == 0 {
                1
            } else if level > 6 {
                6
            } else {
                level as int
            };
            &&& r.len() == n + 1 + t.len()
            &&& begins_with(r, '#', n)
            &&& r[n] == ' '
            &&& r.skip(n + 1) == t
        }),
{
    reveal_strlit("#");
    reveal_strlit(" ");
    let n: int = if level == 0 {
        1
    } else if level > 6 {
        6
    } else {
        level as int
    };
    assert("#"@ =~= seq!['#']);
    lemma_repeated_one('#', "#"@, n);
    let r = render::block_text(BlockView::Heading { level, text: t });
    assert(r.skip(n + 1) =~= t);
}

/// Whether `r` is a list item of the given level: two spaces for each level up to six, then
/// the marker or a dash, a space, and the text with its emphasis.
pub open spec fn is_item_text(
    r: Seq<char>,
    ordered: bool,
    marker: Seq<char>,
    level: u8,
    t: Seq<char>,
    bold: bool,
    italic: bool,
) -> bool {
    let indent: int = if level > 6 {
        12
    } else {
        2 * level
    };
    let lead = if ordered {
        marker
    } else {
        seq!['-']
    };
    let body = indent + lead.len() + 1;
    &&& begins_with(r, ' ', indent)
    &&& body <= r.len()
    &&& r.subrange(indent, indent + lead.len()) == lead
    &&& r[body - 1] == ' '
    &&& is_starred(r.skip(body), t, stars(t, bold, italic))
}

/// A list item begins with two spaces for each level that it is nested, up to six levels,
/// in front of its marker.
pub proof fn law_item_level_is_marked(
    ordered: bool,
    marker: Seq<char>,
    level: u8,
    t: Seq<char>,
    bold: bool,
    italic: bool,
)
    ensures
        is_item_text(
            render::block_text(
                BlockView::ListItem { ordered, marker, level, text: t, bold, italic },
            ),
            ordered,
            marker,
            level,
            t,
            bold,
            italic,
        ),
{
    reveal_strlit("  ");
    reveal_strlit(" ");
    reveal_strlit("- ");
    let n: int = if level > 6 {
        6
    } else {
        level as int
    };
    assert("  "@ =~= seq![' ', ' ']);
    lemma_repeated_two(' ', "  "@, n);
    let r = render::block_text(
        BlockView::ListItem { ordered, marker, level, text: t, bold, italic },
    );
    let lead = if ordered {
        marker
    } else {
        seq!['-']
    };
    let body = 2 * n + lead.len() + 1;
    lemma_emphasized(t, bold, italic);
    let indent = render::repeated("  "@, n);
    let front = if ordered {
        marker + " "@
    } else {
        "- "@
    };
    assert(front =~= lead.push(' '));
    assert(r == indent + front + render::emphasized(t, bold, italic));
    assert(r.subrange(2 * n, 2 * n + lead.len()) =~= lead);
    assert(r.skip(body) =~= render::emphasized(t, bold, italic));
    assert forall|i: int| 0 <= i < 2 * n implies #[trigger] r[i] == ' ' by {
        assert(r[i] == indent[i]);
    }
}

/// The level of a list item reads back from the spaces in front of it: items of different
/// levels, up to six, are rendered differently.
pub proof fn law_item_levels_differ(
    ordered: bool,
    marker: Seq<char>,
    a: u8,
    b: u8,
    t: Seq<char>,
    bold: bool,
    italic: bool,
)
    requires
        a < b <= 6,
        ordered ==> marker.len() > 0 && marker[0] != ' ',
    ensures
        render::block_text(
            BlockView::ListItem { ordered, marker, level: a, text: t, bold, italic },
        ) != render::block_text(
            BlockView::ListItem { ordered, marker, level: b, text: t, bold, italic },
        ),
{
    law_item_level_is_marked(ordered, marker, a, t, bold, italic);
    law_item_level_is_marked(ordered, marker, b, t, bold, italic);
    let r = render::block_text(
        BlockView::ListItem { ordered, marker, level: a, text: t, bold, italic },
    );
    let lead = if ordered {
        marker
    } else {
        seq!['-']
    };
    assert(r.subrange(2 * a as int, 2 * a + lead.len())[0] == lead[0]);
    assert(r[2 * a as int] != ' ');
}

// ---------------------------------------------------------------------------
// Blocks one behind the other
// ---------------------------------------------------------------------------

/// Blocks are rendered one behind the other in their order, each as it is by itself. One
/// line break is between two list items, and an empty line else.
pub proof fn law_blocks_follow_each_other(a: Seq<BlockView>, b: Seq<BlockView>)
    requires
        a.len() > 0,
        b.len() > 0,
    ensures
        render::markdown(a + b) == render::markdown(a) + (if a.last() is ListItem
            && b[0] is ListItem {
            seq!['\n']
        } else {
            seq!['\n', '\n']
        }) + render::markdown(b),
{
    lemma_blocks_follow(a, b, b.len() as int);
}

/// A block by itself, and no block.
pub proof fn law_one_block(b: BlockView)
    ensures
        render::markdown(seq![b]) == render::block_text(b),
        render::markdown(seq![]) == Seq::<char>::empty(),
{
}

proof fn lemma_same_front(a: Seq<BlockView>, b: Seq<BlockView>, n: int)
    requires
        0 <= n <= a.len(),
    ensures
        render::markdown_upto(a + b, n) == render::markdown_upto(a, n),
    decreases n,
{
    if n > 0 {
        lemma_same_front(a, b, n - 1);
    }
}

proof fn lemma_blocks_follow(a: Seq<BlockView>, b: Seq<BlockView>, n: int)
    requires
        a.len() > 0,
        1 <= n <= b.len(),
    ensures
        render::markdown_upto(a + b, a.len() + n) == render::markdown(a) + (if a.last() is ListItem
            && b[0] is ListItem {
            seq!['\n']
        } else {
            seq!['\n', '\n']
        }) + render::markdown_upto(b, n),
    decreases n,
{
    reveal_strlit("\n");
    reveal_strlit("\n\n");
    let m = a.len() + n;
    let all = a + b;
    assert(all[m - 1] == b[n - 1]);
    assert("\n"@ =~= seq!['\n']);
    assert("\n\n"@ =~= seq!['\n', '\n']);
    if n == 1 {
        lemma_same_front(a, b, a.len() as int);
        assert(all[m - 2] == a.last());
        assert(render::markdown_upto(b, 1) == render::block_text(b[0]));
    } else {
        lemma_blocks_follow(a, b, n - 1);
        assert(all[m - 2] == b[n - 2]);
        let sep = if a.last() is ListItem && b[0] is ListItem {
            seq!['\n']
        } else {
            seq!['\n', '\n']
        };
        let head = render::markdown(a) + sep;
        let mid = render::separator(b[n - 2], b[n - 1]);
        let tail = render::block_text(b[n - 1]);
        assert(head + render::markdown_upto(b, n - 1) + mid + tail =~= head + (
        render::markdown_upto(b, n - 1) + mid + tail));
    }
}

// ---------------------------------------------------------------------------
// Lines
// ---------------------------------------------------------------------------

/// A text in lines: those that a line break ends, and what is behind the last one.
#[verifier::ext_equal]
pub struct Lines {
    pub done: Seq<Seq<char>>,
    pub rest: Seq<char>,
}

/// A text in lines.
pub open spec fn lines_of(s: Seq<char>) -> Lines
    decreases s.len(),
{
    if s.len() == 0 {
        Lines { done: seq![], rest: seq![] }
    } else {
        let p = lines_of(s.drop_last());
        if s.last() == '\n' {
            Lines { done: p.done.push(p.rest), rest: seq![] }
        } else {
            Lines { done: p.done, rest: p.rest.push(s.last()) }
        }
    }
}

proof fn lemma_line_goes_on(a: Seq<char>, b: Seq<char>)
    requires
        !b.contains('\n'),
    ensures
        lines_of(a + b) == (Lines { done: lines_of(a).done, rest: lines_of(a).rest + b }),
    decreases b.len(),
{
    if b.len() == 0 {
        assert(a + b =~= a);
        assert(lines_of(a).rest + b =~= lines_of(a).rest);
    } else {
        let front = b.drop_last();
        assert(!front.contains('\n')) by {
            if front.contains('\n') {
                let k = choose|k: int| 0 <= k < front.len() && front[k] == '\n';
                assert(b[k] == '\n');
            }
        }
        assert(b[b.len() - 1] != '\n');
        lemma_line_goes_on(a, front);
        assert((a + b).drop_last() =~= a + front);
        assert((lines_of(a).rest + front).push(b.last()) =~= lines_of(a).rest + b);
    }
}

proof fn lemma_line_ends(a: Seq<char>)
    ensures
        lines_of(a + seq!['\n']) == (Lines {
            done: lines_of(a).done.push(lines_of(a).rest),
            rest: seq![],
        }),
{
    assert((a + seq!['\n']).drop_last() =~= a);
}

proof fn lemma_lines_rendered(front: Seq<char>, lines: Seq<Seq<char>>, n: int)
    requires
        0 <= n <= lines.len(),
        forall|i: int| 0 <= i < lines.len() ==> !(#[trigger] lines[i]).contains('\n'),
        lines_of(front).rest.len() == 0,
    ensures
        lines_of(front + render::lines_upto(lines, n)) == (Lines {
            done: lines_of(front).done + lines.take(n),
            rest: seq![],
        }),
    decreases n,
{
    reveal_strlit("\n");
    assert("\n"@ =~= seq!['\n']);
    if n > 0 {
        lemma_lines_rendered(front, lines, n - 1);
        let before = front + render::lines_upto(lines, n - 1);
        lemma_line_goes_on(before, lines[n - 1]);
        lemma_line_ends(before + lines[n - 1]);
        assert(before + lines[n - 1] + "\n"@ =~= front + render::lines_upto(lines, n));
        assert(Seq::<char>::empty() + lines[n - 1] =~= lines[n - 1]);
        assert(lines_of(front).done + lines.take(n) =~= (lines_of(front).done + lines.take(
            n - 1,
        )).push(lines[n - 1]));
    } else {
        assert(front + render::lines_upto(lines, 0) =~= front);
        assert(lines_of(front).done + lines.take(0) =~= lines_of(front).done);
    }
}

proof fn lemma_no_breaks()
    ensures
        !"```"@.contains('\n'),
        !"~~~"@.contains('\n'),
        !"```text"@.contains('\n'),
        "```text\n"@ == "```text"@ + seq!['\n'],
{
    reveal_strlit("```");
    reveal_strlit("~~~");
    reveal_strlit("```text");
    reveal_strlit("```text\n");
    assert("```text\n"@ =~= "```text"@ + seq!['\n']);
}

/// A code block reads back line by line, between two lines with the same fence of three
/// backticks or three tildes.
pub proof fn law_code_reads_back(lines: Seq<Seq<char>>)
    requires
        forall|i: int| 0 <= i < lines.len() ==> !(#[trigger] lines[i]).contains('\n'),
    ensures
        ({
            let r = lines_of(render::block_text(BlockView::CodeBlock { lines }));
            &&& r.done == seq![r.rest] + lines
            &&& r.rest == seq!['`', '`', '`'] || r.rest == seq!['~', '~', '~']
        }),
{
    reveal_strlit("\n");
    reveal_strlit("```");
    reveal_strlit("~~~");
    assert("\n"@ =~= seq!['\n']);
    assert("```"@ =~= seq!['`', '`', '`']);
    assert("~~~"@ =~= seq!['~', '~', '~']);
    lemma_no_breaks();
    let fence = render::fence_for(lines);
    let none = Seq::<char>::empty();
    let n = lines.len() as int;
    lemma_line_goes_on(none, fence);
    assert(none + fence =~= fence);
    lemma_line_ends(fence);
    let front = fence + "\n"@;
    lemma_lines_rendered(front, lines, n);
    lemma_line_goes_on(front + render::lines_upto(lines, n), fence);
    assert(lines.take(n) =~= lines);
    assert(none + fence =~= fence);
    assert(lines_of(front).done =~= seq![fence]);
    assert(render::block_text(BlockView::CodeBlock { lines }) == front + render::lines_upto(
        lines,
        n,
    ) + fence);
}

/// Lines that are shown as they are read back line by line, between fences of backticks.
pub proof fn law_verbatim_lines_read_back(lines: Seq<Seq<char>>)
    requires
        forall|i: int| 0 <= i < lines.len() ==> !(#[trigger] lines[i]).contains('\n'),
    ensures
        ({
            let r = lines_of(render::block_text(BlockView::GridFallback { lines }));
            &&& r.done == seq!["```text"@] + lines
            &&& r.rest == "```"@
        }),
{
    lemma_no_breaks();
    let none = Seq::<char>::empty();
    let n = lines.len() as int;
    let front = "```text\n"@;
    lemma_line_goes_on(none, "```text"@);
    assert(none + "```text"@ =~= "```text"@);
    lemma_line_ends("```text"@);
    assert(lines_of(front).done =~= seq!["```text"@]);
    lemma_lines_rendered(front, lines, n);
    lemma_line_goes_on(front + render::lines_upto(lines, n), "```"@);
    assert(lines.take(n) =~= lines);
    assert(none + "```"@ =~= "```"@);
}

// ---------------------------------------------------------------------------
// Tables
// ---------------------------------------------------------------------------

/// An escaped text in pieces: those that a bare bar ends, and what is behind the last one.
pub open spec fn pieces_of(s: Seq<char>) -> Lines
    decreases s.len(),
{
    if s.len() == 0 {
        Lines { done: seq![], rest: seq![] }
    } else {
        let p = pieces_of(s.drop_last());
        if s.last() == '|' && !escapes::unescaped(s.drop_last()).open {
            Lines { done: p.done.push(p.rest), rest: seq![] }
        } else {
            Lines { done: p.done, rest: p.rest.push(s.last()) }
        }
    }
}

/// Whether a piece between two bars reads as a cell: a space, the escaped cell, a space.
pub open spec fn reads_as_cell(p: Seq<char>, cell: Seq<char>) -> bool {
    &&& p.len() >= 2
    &&& p[0] == ' '
    &&& p.last() == ' '
    &&& escapes::unescaped(p.subrange(1, p.len() - 1)) == (escapes::Unescaped {
        text: render::on_one_line(cell),
        open: false,
    })
}

/// Whether a line reads as a row: a bar, and its cells with a bar behind each of them.
pub open spec fn reads_as_row(line: Seq<char>, row: Seq<Seq<char>>) -> bool {
    let p = pieces_of(line);
    &&& p.done.len() == row.len() + 1
    &&& p.done[0].len() == 0
    &&& p.rest.len() == 0
    &&& forall|i: int| 0 <= i < row.len() ==> reads_as_cell(p.done[i + 1], #[trigger] row[i])
}

proof fn lemma_piece_goes_on(a: Seq<char>, b: Seq<char>)
    requires
        !escapes::unescaped(a).open,
        escapes::bare_bars(b) == 0,
    ensures
        pieces_of(a + b) == (Lines { done: pieces_of(a).done, rest: pieces_of(a).rest + b }),
    decreases b.len(),
{
    if b.len() == 0 {
        assert(a + b =~= a);
        assert(pieces_of(a).rest + b =~= pieces_of(a).rest);
    } else {
        let front = b.drop_last();
        assert(b =~= front.push(b.last()));
        escapes::lemma_bars_pushed(front, b.last());
        lemma_bars_not_negative(front);
        lemma_piece_goes_on(a, front);
        escapes::lemma_bars_joined(a, front);
        assert((a + b).drop_last() =~= a + front);
        assert((pieces_of(a).rest + front).push(b.last()) =~= pieces_of(a).rest + b);
    }
}

proof fn lemma_bars_not_negative(s: Seq<char>)
    ensures
        escapes::bare_bars(s) >= 0,
    decreases s.len(),
{
    if s.len() > 0 {
        lemma_bars_not_negative(s.drop_last());
    }
}

proof fn lemma_piece_ends(a: Seq<char>)
    requires
        !escapes::unescaped(a).open,
    ensures
        pieces_of(a.push('|')) == (Lines {
            done: pieces_of(a).done.push(pieces_of(a).rest),
            rest: seq![],
        }),
        !escapes::unescaped(a.push('|')).open,
{
    assert(a.push('|').drop_last() =~= a);
    escapes::lemma_unescape_pushed(a, '|');
}

proof fn lemma_plain_pushed(a: Seq<char>, c: char)
    requires
        !escapes::unescaped(a).open,
        c != '|',
        c != '\\',
    ensures
        pieces_of(a.push(c)) == (Lines {
            done: pieces_of(a).done,
            rest: pieces_of(a).rest.push(c),
        }),
        !escapes::unescaped(a.push(c)).open,
{
    assert(a.push(c).drop_last() =~= a);
    escapes::lemma_unescape_pushed(a, c);
}

/// The first `n` cells of a row behind a bar and a space.
proof fn lemma_cells_read_back(row: Seq<Seq<char>>, n: int)
    requires
        1 <= n <= row.len(),
    ensures
        ({
            let a = seq!['|', ' '] + render::cells_upto(row, n);
            let p = pieces_of(a);
            &&& !escapes::unescaped(a).open
            &&& p.done.len() == n
            &&& p.done[0].len() == 0
            &&& forall|i: int|
                0 <= i < n - 1 ==> reads_as_cell(p.done[i + 1], #[trigger] row[i])
            &&& p.rest == seq![' '] + render::cell_text(row[n - 1])
        }),
    decreases n,
{
    reveal_strlit(" | ");
    let none = Seq::<char>::empty();
    let cell = render::cell_text(row[n - 1]);
    render::law_cell_reads_back(row[n - 1]);
    render::lemma_cell_has_no_bars(row[n - 1], row[n - 1].len() as int);
    let a = seq!['|', ' '] + render::cells_upto(row, n);
    if n == 1 {
        let bar = none.push('|');
        lemma_piece_ends(none);
        lemma_plain_pushed(bar, ' ');
        let front = bar.push(' ');
        assert(front =~= seq!['|', ' ']);
        lemma_piece_goes_on(front, cell);
        escapes::lemma_bars_joined(front, cell);
        assert(none.push(' ') + cell =~= seq![' '] + cell);
    } else {
        lemma_cells_read_back(row, n - 1);
        let b = seq!['|', ' '] + render::cells_upto(row, n - 1);
        let before = render::cell_text(row[n - 2]);
        let c = b.push(' ');
        let d = c.push('|');
        let e = d.push(' ');
        lemma_plain_pushed(b, ' ');
        lemma_piece_ends(c);
        lemma_plain_pushed(d, ' ');
        lemma_piece_goes_on(e, cell);
        escapes::lemma_bars_joined(e, cell);
        assert(a =~= e + cell);
        let last = pieces_of(b).rest.push(' ');
        assert(pieces_of(a).done == pieces_of(b).done.push(last));
        assert(last.subrange(1, last.len() - 1) =~= before);
        render::law_cell_reads_back(row[n - 2]);
        assert(reads_as_cell(last, row[n - 2]));
        assert(none.push(' ') + cell =~= seq![' '] + cell);
        assert forall|i: int| 0 <= i < n - 1 implies reads_as_cell(
            pieces_of(a).done[i + 1],
            #[trigger] row[i],
        ) by {
            if i < n - 2 {
                assert(pieces_of(a).done[i + 1] == pieces_of(b).done[i + 1]);
            }
        }
    }
}

/// A row of a table reads back cell by cell, in their order, whatever the cells hold.
pub proof fn law_row_reads_back(row: Seq<Seq<char>>)
    requires
        row.len() > 0,
    ensures
        reads_as_row("| "@ + render::row_text(row) + " |"@, row),
{
    reveal_strlit("| ");
    reveal_strlit(" |");
    let n = row.len() as int;
    lemma_cells_read_back(row, n);
    let a = seq!['|', ' '] + render::row_text(row);
    let b = a.push(' ');
    lemma_plain_pushed(a, ' ');
    lemma_piece_ends(b);
    let line = "| "@ + render::row_text(row) + " |"@;
    assert("| "@ =~= seq!['|', ' ']);
    assert(line =~= b.push('|'));
    let last = pieces_of(a).rest.push(' ');
    assert(last.subrange(1, last.len() - 1) =~= render::cell_text(row[n - 1]));
    render::law_cell_reads_back(row[n - 1]);
    assert forall|i: int| 0 <= i < n implies reads_as_cell(
        pieces_of(line).done[i + 1],
        #[trigger] row[i],
    ) by {
        if i < n - 1 {
            assert(pieces_of(line).done[i + 1] == pieces_of(a).done[i + 1]);
        }
    }
}

proof fn lemma_cells_have_no_breaks(row: Seq<Seq<char>>, n: int)
    requires
        0 <= n <= row.len(),
    ensures
        !render::cells_upto(row, n).contains('\n'),
    decreases n,
{
    reveal_strlit(" | ");
    if n > 0 {
        lemma_cells_have_no_breaks(row, n - 1);
        render::law_cell_reads_back(row[n - 1]);
        let t = render::cells_upto(row, n);
        if t.contains('\n') {
            let k = choose|k: int| 0 <= k < t.len() && t[k] == '\n';
            let a = render::cells_upto(row, n - 1);
            let c = render::cell_text(row[n - 1]);
            if n == 1 {
                assert(c[k] == '\n');
            } else if k < a.len() {
                assert(a[k] == '\n');
            } else if k >= a.len() + 3 {
                assert(c[k - a.len() - 3] == '\n');
            }
        }
    }
}

proof fn lemma_row_has_no_breaks(row: Seq<Seq<char>>)
    ensures
        !("| "@ + render::row_text(row) + " |"@).contains('\n'),
{
    reveal_strlit("| ");
    reveal_strlit(" |");
    lemma_cells_have_no_breaks(row, row.len() as int);
    let t = "| "@ + render::row_text(row) + " |"@;
    if t.contains('\n') {
        let k = choose|k: int| 0 <= k < t.len() && t[k] == '\n';
        if 2 <= k < 2 + render::row_text(row).len() {
            assert(render::row_text(row)[k - 2] == '\n');
        }
    }
}

/// Whether a line has a bar in front and one behind each of `columns` columns of four
/// characters, which are bars and `c` only.
pub open spec fn is_ruler(line: Seq<char>, c: char, columns: int) -> bool {
    &&& line.len() == 1 + 4 * columns
    &&& forall|i: int|
        0 <= i < line.len() ==> #[trigger] line[i] == (if i % 4 == 0 {
            '|'
        } else {
            c
        })
}

proof fn lemma_ruler(c: char, s: Seq<char>, n: int)
    requires
        s == seq![c, c, c, '|'],
        n >= 0,
    ensures
        is_ruler(seq!['|'] + render::repeated(s, n), c, n),
    decreases n,
{
    if n > 0 {
        lemma_ruler(c, s, n - 1);
        let t = seq!['|'] + render::repeated(s, n);
        let u = seq!['|'] + render::repeated(s, n - 1);
        assert forall|i: int| 0 <= i < t.len() implies #[trigger] t[i] == (if i % 4 == 0 {
            '|'
        } else {
            c
        }) by {
            if i < u.len() {
                assert(t[i] == u[i]);
            } else {
                assert(t[i] == s[i - u.len()]);
            }
        }
    }
}

proof fn lemma_rows_follow(front: Seq<char>, rows: Seq<Seq<Seq<char>>>, n: int)
    requires
        0 <= n <= rows.len(),
    ensures
        ({
            let r = lines_of(front + render::rows_upto(rows, n));
            let f = lines_of(front);
            let all = r.done.push(r.rest);
            &&& all.len() == f.done.len() + 1 + n
            &&& all.take(f.done.len() as int + 1) == f.done.push(f.rest)
            &&& forall|i: int|
                0 <= i < n ==> all[f.done.len() + 1 + i] == "| "@ + render::row_text(
                    #[trigger] rows[i],
                ) + " |"@
        }),
    decreases n,
{
    reveal_strlit("\n| ");
    reveal_strlit("| ");
    let f = lines_of(front);
    if n > 0 {
        lemma_rows_follow(front, rows, n - 1);
        let before = front + render::rows_upto(rows, n - 1);
        let row = "| "@ + render::row_text(rows[n - 1]) + " |"@;
        lemma_line_ends(before);
        lemma_row_has_no_breaks(rows[n - 1]);
        lemma_line_goes_on(before + seq!['\n'], row);
        assert("\n| "@ =~= seq!['\n'] + "| "@);
        let whole = front + render::rows_upto(rows, n);
        assert(before + seq!['\n'] + row =~= whole);
        assert(Seq::<char>::empty() + row =~= row);
        let b = lines_of(before);
        let old_all = b.done.push(b.rest);
        let r = lines_of(whole);
        let all = r.done.push(r.rest);
        assert(all =~= old_all.push(row));
        assert(all.take(f.done.len() as int + 1) =~= old_all.take(f.done.len() as int + 1));
        assert forall|i: int| 0 <= i < n implies all[f.done.len() + 1 + i] == "| "@
            + render::row_text(#[trigger] rows[i]) + " |"@ by {
            if i < n - 1 {
                assert(all[f.done.len() + 1 + i] == old_all[f.done.len() + 1 + i]);
            }
        }
    } else {
        assert(front + render::rows_upto(rows, 0) =~= front);
        let all = f.done.push(f.rest);
        assert(all.take(f.done.len() as int + 1) =~= all);
    }
}

/// A table reads back line by line: its header, or a blank one with as many columns, a rule
/// with as many columns, and its rows in their order, each cell by cell.
pub proof fn law_table_reads_back(header: Option<Seq<Seq<char>>>, rows: Seq<Seq<Seq<char>>>)
    requires
        header is Some || rows.len() > 0,
        header is Some ==> header->0.len() > 0,
        forall|i: int| 0 <= i < rows.len() ==> (#[trigger] rows[i]).len() > 0,
    ensures
        ({
            let r = lines_of(render::block_text(BlockView::Table { header, rows }));
            let all = r.done.push(r.rest);
            let columns = match header {
                Some(h) => h.len() as int,
                None => rows[0].len() as int,
            };
            &&& all.len() == rows.len() + 2
            &&& match header {
                Some(h) => reads_as_row(all[0], h),
                None => is_ruler(all[0], ' ', columns),
            }
            &&& is_ruler(all[1], '-', columns)
            &&& forall|i: int| 0 <= i < rows.len() ==> reads_as_row(all[i + 2], #[trigger] rows[i])
        }),
{
    reveal_strlit("|");
    reveal_strlit("\n");
    reveal_strlit("   |");
    reveal_strlit("---|");
    reveal_strlit(" |");
    reveal_strlit(" |\n");
    let none = Seq::<char>::empty();
    let columns = match header {
        Some(h) => h.len() as int,
        None => rows[0].len() as int,
    };
    let top = match header {
        Some(h) => "| "@ + render::row_text(h) + " |"@,
        None => seq!['|'] + render::repeated("   |"@, columns),
    };
    assert("|"@ =~= seq!['|']);
    assert("   |"@ =~= seq![' ', ' ', ' ', '|']);
    assert("---|"@ =~= seq!['-', '-', '-', '|']);
    lemma_ruler(' ', "   |"@, columns);
    lemma_ruler('-', "---|"@, columns);
    let rule = seq!['|'] + render::repeated("---|"@, columns);
    assert(!rule.contains('\n')) by {
        if rule.contains('\n') {
            let k = choose|k: int| 0 <= k < rule.len() && rule[k] == '\n';
            assert(rule[k] == '|' || rule[k] == '-');
        }
    }
    assert(!top.contains('\n')) by {
        match header {
            Some(h) => {
                lemma_row_has_no_breaks(h);
            },
            None => {
                if top.contains('\n') {
                    let k = choose|k: int| 0 <= k < top.len() && top[k] == '\n';
                    assert(top[k] == '|' || top[k] == ' ');
                }
            },
        }
    }
    lemma_line_goes_on(none, top);
    assert(none + top =~= top);
    lemma_line_ends(top);
    lemma_line_goes_on(top + seq!['\n'], rule);
    let front = top + seq!['\n'] + rule;
    assert(none + rule =~= rule);
    let n = rows.len() as int;
    lemma_rows_follow(front, rows, n);
    assert(render::header_text(header, columns) =~= top + seq!['\n']);
    let t = render::block_text(BlockView::Table { header, rows });
    assert(t =~= front + render::rows_upto(rows, n));
    let r = lines_of(t);
    let all = r.done.push(r.rest);
    let head = lines_of(front).done.push(lines_of(front).rest);
    assert(head =~= seq![top, rule]);
    assert(all.take(2)[0] == top && all.take(2)[1] == rule);
    match header {
        Some(h) => {
            law_row_reads_back(h);
        },
        None => {},
    }
    assert forall|i: int| 0 <= i < rows.len() implies reads_as_row(
        all[i + 2],
        #[trigger] rows[i],
    ) by {
        law_row_reads_back(rows[i]);
        assert(all[lines_of(front).done.len() + 1 + i] == "| "@ + render::row_text(rows[i])
            + " |"@);
    }
}

/// A rule is three dashes, and a figure shows the image of its name.
pub proof fn law_rules_and_figures_are_marked(id: Seq<char>, b: BlockView)
    requires
        b is Figure,
        b->id == id,
    ensures
        render::block_text(BlockView::HorizontalRule) == seq!['-', '-', '-'],
        render::block_text(b) == "![](image_"@ + id + ".png)"@,
        render::block_text(BlockView::Blank).len() == 0,
{
    reveal_strlit("---");
    assert("---"@ =~= seq!['-', '-', '-']);
}

} // verus!
