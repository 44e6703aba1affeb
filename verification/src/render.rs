//! Rendering blocks as markdown.

use vstd::prelude::*;
use vstd::string::*;
use crate::escapes;
use crate::span_text;
use crate::text;
use crate::types;
use crate::types::{Block, BlockView};

verus! {

/// `s`, `n` times.
pub open spec fn repeated(s: Seq<char>, n: int) -> Seq<char>
    decreases n,
{
    if n <= 0 {
        seq![]
    } else {
        repeated(s, n - 1) + s
    }
}

/// What stands for one character of a table cell: a backslash and a bar are
/// escaped, and a line break becomes a space.
pub open spec fn cell_char(c: char) -> Seq<char> {
    if c == '\\' {
        seq!['\\', '\\']
    } else if c == '|' {
        seq!['\\', '|']
    } else if c == '\n' {
        seq![' ']
    } else {
        seq![c]
    }
}

/// The first `n` characters of a table cell, escaped.
pub open spec fn cell_upto(s: Seq<char>, n: int) -> Seq<char>
    decreases n,
{
    if n <= 0 {
        seq![]
    } else {
        cell_upto(s, n - 1) + cell_char(s[n - 1])
    }
}

/// A table cell, escaped.
pub open spec fn cell_text(s: Seq<char>) -> Seq<char> {
    cell_upto(s, s.len() as int)
}

/// The first `n` cells of a row, with bars between them.
pub open spec fn cells_upto(row: Seq<Seq<char>>, n: int) -> Seq<char>
    decreases n,
{
    if n <= 0 {
        seq![]
    } else if n == 1 {
        cell_text(row[0])
    } else {
        cells_upto(row, n - 1) + " | "@ + cell_text(row[n - 1])
    }
}

/// The cells of a row, with bars between them.
pub open spec fn row_text(row: Seq<Seq<char>>) -> Seq<char> {
    cells_upto(row, row.len() as int)
}

/// The first `n` rows of a table, each on a line of its own.
pub open spec fn rows_upto(rows: Seq<Seq<Seq<char>>>, n: int) -> Seq<char>
    decreases n,
{
    if n <= 0 {
        seq![]
    } else {
        rows_upto(rows, n - 1) + "\n| "@ + row_text(rows[n - 1]) + " |"@
    }
}

/// The number of columns of a table: those of its header, or of its first row.
pub open spec fn columns_of(header: Option<Seq<Seq<char>>>, rows: Seq<Seq<Seq<char>>>) -> int {
    match header {
        Some(h) => h.len() as int,
        None => if rows.len() > 0 {
            rows[0].len() as int
        } else {
            0
        },
    }
}

/// The header line of a table. A table without a header gets a blank one.
pub open spec fn header_text(header: Option<Seq<Seq<char>>>, columns: int) -> Seq<char> {
    match header {
        Some(h) => "| "@ + row_text(h) + " |\n"@,
        None => "|"@ + repeated("   |"@, columns) + "\n"@,
    }
}

/// A pipe table. A table without columns is rendered as nothing.
pub open spec fn table_text(
    header: Option<Seq<Seq<char>>>,
    rows: Seq<Seq<Seq<char>>>,
) -> Seq<char> {
    let columns = columns_of(header, rows);
    if columns == 0 {
        seq![]
    } else {
        header_text(header, columns) + "|"@ + repeated("---|"@, columns) + rows_upto(
            rows,
            rows.len() as int,
        )
    }
}

/// The first `n` lines, each with a line break behind it.
pub open spec fn lines_upto(lines: Seq<Seq<char>>, n: int) -> Seq<char>
    decreases n,
{
    if n <= 0 {
        seq![]
    } else {
        lines_upto(lines, n - 1) + lines[n - 1] + "\n"@
    }
}

/// Whether any of the lines holds three backticks.
pub open spec fn has_fence(lines: Seq<Seq<char>>) -> bool {
    exists|i: int| 0 <= i < lines.len() && text::has_substr(#[trigger] lines[i], "```"@)
}

/// The fence for a code block, which is one that the code does not hold.
pub open spec fn fence_for(lines: Seq<Seq<char>>) -> Seq<char> {
    if has_fence(lines) {
        "~~~"@
    } else {
        "```"@
    }
}

/// A text within the markers for its emphasis. A blank text gets none.
pub open spec fn emphasized(t: Seq<char>, bold: bool, italic: bool) -> Seq<char> {
    if text::is_blank(t) {
        t
    } else {
        span_text::emphasis(t, bold, italic)
    }
}

/// A number within bounds.
pub open spec fn clamped(n: int, low: int, high: int) -> int {
    if n < low {
        low
    } else if n > high {
        high
    } else {
        n
    }
}

/// The markdown of one block.
pub open spec fn block_text(b: BlockView) -> Seq<char> {
    match b {
        BlockView::Heading { level, text } => repeated("#"@, clamped(level as int, 1, 6)) + " "@
            + text,
        BlockView::Paragraph { text, bold, italic } => emphasized(text, bold, italic),
        BlockView::ListItem { ordered, marker, level, text, bold, italic } => repeated(
            "  "@,
            clamped(level as int, 0, 6),
        ) + (if ordered {
            marker + " "@
        } else {
            "- "@
        }) + emphasized(text, bold, italic),
        BlockView::CodeBlock { lines } => fence_for(lines) + "\n"@ + lines_upto(
            lines,
            lines.len() as int,
        ) + fence_for(lines),
        BlockView::Table { header, rows } => table_text(header, rows),
        BlockView::GridFallback { lines } => "```text\n"@ + lines_upto(lines, lines.len() as int)
            + "```"@,
        BlockView::HorizontalRule => "---"@,
        BlockView::Blank => seq![],
        BlockView::Figure { id, .. } => "![](image_"@ + id + ".png)"@,
    }
}

/// What stands between two blocks: a line break between list items, a blank line
/// else.
pub open spec fn separator(a: BlockView, b: BlockView) -> Seq<char> {
    if a is ListItem && b is ListItem {
        "\n"@
    } else {
        "\n\n"@
    }
}

/// The markdown of the first `n` blocks.
pub open spec fn markdown_upto(blocks: Seq<BlockView>, n: int) -> Seq<char>
    decreases n,
{
    if n <= 0 {
        seq![]
    } else if n == 1 {
        block_text(blocks[0])
    } else {
        markdown_upto(blocks, n - 1) + separator(blocks[n - 2], blocks[n - 1]) + block_text(
            blocks[n - 1],
        )
    }
}

/// The markdown of a list of blocks.
pub open spec fn markdown(blocks: Seq<BlockView>) -> Seq<char> {
    markdown_upto(blocks, blocks.len() as int)
}

fn push_repeated(out: &mut String, s: &str, n: usize)
    ensures
        final(out)@ == old(out)@ + repeated(s@, n as int),
{
    let ghost before = out@;
    let mut i: usize = 0;
    proof {
        assert(before + repeated(s@, 0) =~= before);
    }
    while i < n
        invariant
            i <= n,
            out@ == before + repeated(s@, i as int),
        decreases n - i,
    {
        out.append(s);
        i = i + 1;
        proof {
            assert(out@ =~= before + repeated(s@, i as int));
        }
    }
}

/// A table cell, escaped.
pub fn escape_table_cell(s: &str) -> (r: String)
    ensures
        r@ == cell_text(s@),
{
    let cs: Vec<char> = text::chars_of(s);
    let mut out: String = String::new();
    let mut i: usize = 0;
    while i < cs.len()
        invariant
            i <= cs@.len(),
            out@ == cell_upto(cs@, i as int),
        decreases cs.len() - i,
    {
        let c: char = cs[i];
        let ghost before = out@;
        if c == '\\' {
            out.push('\\');
            out.push('\\');
        } else if c == '|' {
            out.push('\\');
            out.push('|');
        } else if c == '\n' {
            out.push(' ');
        } else {
            out.push(c);
        }
        i = i + 1;
        proof {
            assert(out@ =~= before + cell_char(c));
        }
    }
    out
}

fn push_cells(out: &mut String, row: &Vec<String>)
    ensures
        final(out)@ == old(out)@ + row_text(types::texts(row@)),
{
    let ghost before = out@;
    let ghost rv = types::texts(row@);
    let mut i: usize = 0;
    proof {
        assert(before + cells_upto(rv, 0) =~= before);
    }
    while i < row.len()
        invariant
            i <= row@.len(),
            rv == types::texts(row@),
            out@ == before + cells_upto(rv, i as int),
        decreases row.len() - i,
    {
        if i > 0 {
            out.append(" | ");
        }
        let cell: String = escape_table_cell(row[i].as_str());
        out.append(cell.as_str());
        i = i + 1;
        proof {
            assert(rv[i - 1] == row@[i - 1]@);
            assert(out@ =~= before + cells_upto(rv, i as int));
        }
    }
}

fn render_table(header: &Option<Vec<String>>, rows: &Vec<Vec<String>>) -> (r: String)
    ensures
        r@ == table_text(types::header_texts(*header), types::row_texts(rows@)),
{
    let ghost hv = types::header_texts(*header);
    let ghost rv = types::row_texts(rows@);
    let columns: usize = match header {
        Some(h) => h.len(),
        None => if rows.len() > 0 {
            rows[0].len()
        } else {
            0
        },
    };
    proof {
        if *header is None && rows@.len() > 0 {
            assert(rv[0] == types::texts(rows@[0]@));
        }
        assert(columns == columns_of(hv, rv));
    }
    let mut out: String = String::new();
    if columns == 0 {
        return out;
    }
    match header {
        Some(h) => {
            out.append("| ");
            push_cells(&mut out, h);
            out.append(" |\n");
        },
        None => {
            out.append("|");
            push_repeated(&mut out, "   |", columns);
            out.append("\n");
        },
    }
    proof {
        assert(out@ =~= header_text(hv, columns as int));
    }
    out.append("|");
    push_repeated(&mut out, "---|", columns);
    let ghost before = out@;
    let mut i: usize = 0;
    proof {
        assert(before + rows_upto(rv, 0) =~= before);
    }
    while i < rows.len()
        invariant
            i <= rows@.len(),
            rv == types::row_texts(rows@),
            out@ == before + rows_upto(rv, i as int),
        decreases rows.len() - i,
    {
        out.append("\n| ");
        push_cells(&mut out, &rows[i]);
        out.append(" |");
        i = i + 1;
        proof {
            assert(rv[i - 1] == types::texts(rows@[i - 1]@));
            assert(out@ =~= before + rows_upto(rv, i as int));
        }
    }
    out
}

fn push_lines(out: &mut String, lines: &Vec<String>)
    ensures
        final(out)@ == old(out)@ + lines_upto(types::texts(lines@), lines@.len() as int),
{
    let ghost before = out@;
    let ghost lv = types::texts(lines@);
    let mut i: usize = 0;
    proof {
        assert(before + lines_upto(lv, 0) =~= before);
    }
    while i < lines.len()
        invariant
            i <= lines@.len(),
            lv == types::texts(lines@),
            out@ == before + lines_upto(lv, i as int),
        decreases lines.len() - i,
    {
        out.append(lines[i].as_str());
        out.append("\n");
        i = i + 1;
        proof {
            assert(lv[i - 1] == lines@[i - 1]@);
            assert(out@ =~= before + lines_upto(lv, i as int));
        }
    }
}

fn holds_fence(lines: &Vec<String>) -> (r: bool)
    ensures
        r == has_fence(types::texts(lines@)),
{
    let ghost lv = types::texts(lines@);
    let mut i: usize = 0;
    while i < lines.len()
        invariant
            i <= lines@.len(),
            lv == types::texts(lines@),
            forall|k: int| 0 <= k < i ==> !text::has_substr(#[trigger] lv[k], "```"@),
        decreases lines.len() - i,
    {
        proof {
            assert(lv[i as int] == lines@[i as int]@);
        }
        if text::contains_str(lines[i].as_str(), "```") {
            return true;
        }
        i = i + 1;
    }
    false
}

/// A text within the markers for its emphasis.
pub fn wrap_emphasis(t: &str, bold: bool, italic: bool) -> (r: String)
    ensures
        r@ == emphasized(t@, bold, italic),
{
    if text::blank(t) {
        text::to_string(t)
    } else {
        span_text::with_emphasis(t, bold, italic)
    }
}

fn render_block(b: &Block) -> (r: String)
    ensures
        r@ == block_text(b@),
{
    let mut out: String = String::new();
    match b {
        Block::Heading { level, text } => {
            let n: usize = if *level < 1 {
                1
            } else if *level > 6 {
                6
            } else {
                *level as usize
            };
            push_repeated(&mut out, "#", n);
            out.append(" ");
            out.append(text.as_str());
        },
        Block::Paragraph { text, bold, italic } => {
            out = wrap_emphasis(text.as_str(), *bold, *italic);
        },
        Block::ListItem { ordered, marker, level, text, bold, italic } => {
            let n: usize = if *level > 6 {
                6
            } else {
                *level as usize
            };
            push_repeated(&mut out, "  ", n);
            if *ordered {
                out.append(marker.as_str());
                out.append(" ");
            } else {
                out.append("- ");
            }
            let body: String = wrap_emphasis(text.as_str(), *bold, *italic);
            out.append(body.as_str());
        },
        Block::Table { header, rows } => {
            out = render_table(header, rows);
        },
        Block::GridFallback { lines } => {
            out.append("```text\n");
            push_lines(&mut out, lines);
            out.append("```");
        },
        Block::CodeBlock { lines } => {
            let fence = if holds_fence(lines) {
                "~~~"
            } else {
                "```"
            };
            out.append(fence);
            out.append("\n");
            push_lines(&mut out, lines);
            out.append(fence);
        },
        Block::HorizontalRule => {
            out.append("---");
        },
        Block::Blank => {},
        Block::Figure { id, bbox: _ } => {
            out.append("![](image_");
            out.append(id.as_str());
            out.append(".png)");
        },
    }
    proof {
        assert(out@ =~= block_text(b@));
    }
    out
}

fn is_list_item(b: &Block) -> (r: bool)
    ensures
        r == (b@ is ListItem),
{
    match b {
        Block::ListItem { ordered: _, marker: _, level: _, text: _, bold: _, italic: _ } => true,
        _ => false,
    }
}

/// The markdown of a list of blocks.
pub fn render_blocks(blocks: &Vec<Block>) -> (r: String)
    ensures
        r@ == markdown(types::block_views(blocks@)),
{
    let ghost bv = types::block_views(blocks@);
    let mut out: String = String::new();
    let mut i: usize = 0;
    while i < blocks.len()
        invariant
            i <= blocks@.len(),
            bv == types::block_views(blocks@),
            out@ == markdown_upto(bv, i as int),
        decreases blocks.len() - i,
    {
        let ghost before = out@;
        proof {
            assert(bv[i as int] == blocks@[i as int]@);
        }
        if i > 0 {
            proof {
                assert(bv[i - 1] == blocks@[i - 1]@);
            }
            if is_list_item(&blocks[i]) && is_list_item(&blocks[i - 1]) {
                out.append("\n");
            } else {
                out.append("\n\n");
            }
        }
        let t: String = render_block(&blocks[i]);
        out.append(t.as_str());
        i = i + 1;
        proof {
            assert(out@ =~= markdown_upto(bv, i as int));
        }
    }
    out
}

/// A table cell with its line breaks as spaces.
pub open spec fn on_one_line(s: Seq<char>) -> Seq<char> {
    Seq::new(
        s.len(),
        |i: int|
            if s[i] == '\n' {
                ' '
            } else {
                s[i]
            },
    )
}

/// An escaped table cell has no line break, and reads back as the cell with its line
/// breaks as spaces; so no bar of it ends the cell.
pub proof fn law_cell_reads_back(s: Seq<char>)
    ensures
        escapes::unescaped(cell_text(s)) == (escapes::Unescaped {
            text: on_one_line(s),
            open: false,
        }),
        !cell_text(s).contains('\n'),
{
    lemma_cell_reads_back(s, s.len() as int);
    assert(on_one_line(s).take(s.len() as int) =~= on_one_line(s));
}

proof fn lemma_cell_reads_back(s: Seq<char>, n: int)
    requires
        0 <= n <= s.len(),
    ensures
        escapes::unescaped(cell_upto(s, n)) == (escapes::Unescaped {
            text: on_one_line(s).take(n),
            open: false,
        }),
        forall|i: int| 0 <= i < cell_upto(s, n).len() ==> #[trigger] cell_upto(s, n)[i] != '\n',
    decreases n,
{
    if n > 0 {
        let before = cell_upto(s, n - 1);
        let c = s[n - 1];
        lemma_cell_reads_back(s, n - 1);
        assert(on_one_line(s).take(n) =~= on_one_line(s).take(n - 1).push(on_one_line(s)[n - 1]));
        if c == '\\' || c == '|' {
            escapes::lemma_unescape_pushed(before, '\\');
            escapes::lemma_unescape_pushed(before.push('\\'), c);
            assert(cell_upto(s, n) =~= before.push('\\').push(c));
        } else {
            let d = on_one_line(s)[n - 1];
            escapes::lemma_unescape_pushed(before, d);
            assert(cell_upto(s, n) =~= before.push(d));
        }
    } else {
        assert(on_one_line(s).take(0) =~= seq![]);
    }
}

/// The fence of a code block is in none of its lines, unless one has three backticks and
/// one has three tildes.
pub proof fn law_fence_is_not_in_code(lines: Seq<Seq<char>>, i: int)
    requires
        0 <= i < lines.len(),
        !has_fence(lines) || forall|k: int|
            0 <= k < lines.len() ==> !text::has_substr(#[trigger] lines[k], "~~~"@),
    ensures
        !text::has_substr(lines[i], fence_for(lines)),
{
}

/// No bar of an escaped cell is bare.
pub proof fn lemma_cell_has_no_bars(s: Seq<char>, n: int)
    requires
        0 <= n <= s.len(),
    ensures
        escapes::bare_bars(cell_upto(s, n)) == 0,
    decreases n,
{
    if n > 0 {
        let before = cell_upto(s, n - 1);
        let c = s[n - 1];
        lemma_cell_has_no_bars(s, n - 1);
        lemma_cell_reads_back(s, n - 1);
        if c == '\\' || c == '|' {
            escapes::lemma_unescape_pushed(before, '\\');
            escapes::lemma_bars_pushed(before, '\\');
            escapes::lemma_bars_pushed(before.push('\\'), c);
            assert(cell_upto(s, n) =~= before.push('\\').push(c));
        } else {
            let d = on_one_line(s)[n - 1];
            escapes::lemma_bars_pushed(before, d);
            assert(cell_upto(s, n) =~= before.push(d));
        }
    }
}

proof fn lemma_bar_pieces()
    ensures
        escapes::bare_bars(" | "@) == 1 && !escapes::unescaped(" | "@).open,
        escapes::bare_bars("| "@) == 1 && !escapes::unescaped("| "@).open,
        escapes::bare_bars(" |"@) == 1 && !escapes::unescaped(" |"@).open,
{
    reveal_strlit(" | ");
    reveal_strlit("| ");
    reveal_strlit(" |");
    let none = Seq::<char>::empty();
    let space = none.push(' ');
    let bar = none.push('|');
    let spaced = space.push('|');
    assert(escapes::bare_bars(none) == 0 && !escapes::unescaped(none).open);
    escapes::lemma_bars_pushed(none, ' ');
    escapes::lemma_unescape_pushed(none, ' ');
    escapes::lemma_bars_pushed(none, '|');
    escapes::lemma_unescape_pushed(none, '|');
    escapes::lemma_bars_pushed(space, '|');
    escapes::lemma_unescape_pushed(space, '|');
    escapes::lemma_bars_pushed(spaced, ' ');
    escapes::lemma_unescape_pushed(spaced, ' ');
    escapes::lemma_bars_pushed(bar, ' ');
    escapes::lemma_unescape_pushed(bar, ' ');
    assert(" | "@ =~= spaced.push(' '));
    assert("| "@ =~= bar.push(' '));
    assert(" |"@ =~= spaced);
}

proof fn lemma_cells_have_bars(row: Seq<Seq<char>>, n: int)
    requires
        1 <= n <= row.len(),
    ensures
        escapes::bare_bars(cells_upto(row, n)) == n - 1,
        !escapes::unescaped(cells_upto(row, n)).open,
    decreases n,
{
    let cell = row[n - 1];
    lemma_cell_has_no_bars(cell, cell.len() as int);
    law_cell_reads_back(cell);
    if n > 1 {
        lemma_cells_have_bars(row, n - 1);
        lemma_bar_pieces();
        escapes::lemma_bars_joined(cells_upto(row, n - 1), " | "@);
        escapes::lemma_bars_joined(cells_upto(row, n - 1) + " | "@, cell_text(cell));
    }
}

/// A row of a table has one bar more than it has cells, whatever the cells hold; so all
/// rows of a table with as many cells are read with as many cells.
pub proof fn law_row_has_a_bar_per_cell(row: Seq<Seq<char>>)
    requires
        row.len() > 0,
    ensures
        escapes::bare_bars("| "@ + row_text(row) + " |"@) == row.len() + 1,
{
    lemma_cells_have_bars(row, row.len() as int);
    lemma_bar_pieces();
    escapes::lemma_bars_joined("| "@, row_text(row));
    escapes::lemma_bars_joined("| "@ + row_text(row), " |"@);
}

} // verus!
