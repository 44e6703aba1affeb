//! The state of reading lines into blocks: what was read, and the paragraph, the
//! code block or the list that is still open.

use vstd::prelude::*;
use vstd::string::*;
use crate::cells;
use crate::lists;
use crate::lists::MarkerView;
use crate::paragraphs;
use crate::paragraphs::{ParaAccum, ParaView};
use crate::rows;
use crate::rows::{RunView, TableRun};
use crate::span_text;
use crate::text;
use crate::types;
use crate::types::{Block, BlockView, ProjectedLine};

verus! {

/// A block that interrupts the text at a height: a rule or a figure.
#[derive(Clone, Debug)]
pub struct Interruption {
    pub y: i64,
    pub block: Block,
}

/// The contents of an `Interruption`.
#[verifier::ext_equal]
pub struct InterruptionView {
    pub y: int,
    pub block: BlockView,
}

impl View for Interruption {
    type V = InterruptionView;

    open spec fn view(&self) -> InterruptionView {
        InterruptionView { y: self.y as int, block: self.block@ }
    }
}

/// The contents of every interruption of `v`.
pub open spec fn interruption_views(v: Seq<Interruption>) -> Seq<InterruptionView> {
    Seq::new(v.len(), |i: int| v[i]@)
}

/// A copy of an interruption.
pub fn clone_interruption(v: &Interruption) -> (r: Interruption)
    ensures
        r@ == v@,
{
    Interruption { y: v.y, block: types::clone_block(&v.block) }
}

/// The state of reading lines into blocks. Lines are held by their index.
///
/// `list_base` is the indent of the first item of the open list, `last_item` the
/// block of its last item, and `last_line` the last line of that item. `next` is
/// the first interruption that was not passed yet.
pub struct Reader {
    pub blocks: Vec<Block>,
    pub paragraph: Option<ParaAccum>,
    pub code: Option<Vec<String>>,
    pub list_base: Option<i32>,
    pub last_item: Option<usize>,
    pub last_line: Option<usize>,
    pub next: usize,
}

/// The contents of a `Reader`.
#[verifier::ext_equal]
pub struct ReaderView {
    pub blocks: Seq<BlockView>,
    pub paragraph: Option<ParaView>,
    pub code: Option<Seq<Seq<char>>>,
    pub list_base: Option<i32>,
    pub last_item: Option<int>,
    pub last_line: Option<int>,
    pub next: int,
}

pub open spec fn para_view(p: Option<ParaAccum>) -> Option<ParaView> {
    match p {
        Some(a) => Some(a@),
        None => None,
    }
}

pub open spec fn code_view(c: Option<Vec<String>>) -> Option<Seq<Seq<char>>> {
    match c {
        Some(v) => Some(types::texts(v@)),
        None => None,
    }
}

pub open spec fn index_view(i: Option<usize>) -> Option<int> {
    match i {
        Some(n) => Some(n as int),
        None => None,
    }
}

impl View for Reader {
    type V = ReaderView;

    open spec fn view(&self) -> ReaderView {
        ReaderView {
            blocks: types::block_views(self.blocks@),
            paragraph: para_view(self.paragraph),
            code: code_view(self.code),
            list_base: self.list_base,
            last_item: index_view(self.last_item),
            last_line: index_view(self.last_line),
            next: self.next as int,
        }
    }
}

/// The state before the first line.
pub open spec fn fresh() -> ReaderView {
    ReaderView {
        blocks: seq![],
        paragraph: None,
        code: None,
        list_base: None,
        last_item: None,
        last_line: None,
        next: 0,
    }
}

/// Whether the lines that the state refers to are among the first `n`.
pub open spec fn reads_within(s: ReaderView, n: int) -> bool {
    &&& s.paragraph is Some ==> 0 <= s.paragraph->0.last < n
    &&& s.last_line is Some ==> 0 <= s.last_line->0 < n
}

/// The state with one more block.
pub open spec fn with_block(s: ReaderView, b: BlockView) -> ReaderView {
    ReaderView { blocks: s.blocks.push(b), ..s }
}

/// The state after the open paragraph, if any, became a block.
pub open spec fn flushed_paragraph(s: ReaderView) -> ReaderView {
    let closed = ReaderView { paragraph: None, ..s };
    match s.paragraph {
        Some(p) => if text::is_blank(p.raw) {
            closed
        } else {
            with_block(closed, paragraphs::paragraph_block(p))
        },
        None => closed,
    }
}

/// The state after the open code block, if any, became a block.
pub open spec fn flushed_code(s: ReaderView) -> ReaderView {
    let closed = ReaderView { code: None, ..s };
    match s.code {
        Some(lines) => if lines.len() == 0 {
            closed
        } else {
            with_block(closed, BlockView::CodeBlock { lines })
        },
        None => closed,
    }
}

/// The state after the end of a list.
pub open spec fn list_ended(s: ReaderView) -> ReaderView {
    ReaderView { list_base: None, last_item: None, last_line: None, ..s }
}

/// The state after everything that was open became blocks.
pub open spec fn all_closed(s: ReaderView) -> ReaderView {
    list_ended(flushed_code(flushed_paragraph(s)))
}

/// The state after the interruptions down to the height `limit`, or all of them.
/// Each of them closes what was open.
pub open spec fn interrupted(
    s: ReaderView,
    stops: Seq<InterruptionView>,
    limit: Option<int>,
) -> ReaderView
    decreases stops.len() - s.next,
{
    if 0 <= s.next < stops.len() && (limit is None || stops[s.next].y <= limit->0) {
        let t = with_block(all_closed(s), stops[s.next].block);
        interrupted(ReaderView { next: s.next + 1, ..t }, stops, limit)
    } else {
        s
    }
}

/// The state after a heading with the text `t`.
pub open spec fn with_heading(s: ReaderView, level: u8, t: Seq<char>) -> ReaderView {
    with_block(
        list_ended(flushed_paragraph(s)),
        BlockView::Heading { level, text: text::collapse_of(t) },
    )
}

/// The state after a line of code.
pub open spec fn with_code_line(s: ReaderView, line: ProjectedLine) -> ReaderView {
    let t = list_ended(flushed_paragraph(s));
    let lines = match s.code {
        Some(lines) => lines,
        None => seq![],
    };
    ReaderView { code: Some(lines.push(text::trim_end_of(line.text@))), ..t }
}

/// The state after line `i`, a list item with the marker `m`. The first item of
/// a list sets the indent that the levels count from.
pub open spec fn with_item(
    s: ReaderView,
    lines: Seq<ProjectedLine>,
    i: int,
    m: MarkerView,
) -> ReaderView {
    let t = flushed_paragraph(s);
    let line = lines[i];
    let base = match s.list_base {
        Some(b) => b,
        None => line.indent_x,
    };
    ReaderView {
        blocks: t.blocks.push(
            BlockView::ListItem {
                ordered: m.ordered,
                marker: m.marker,
                level: lists::nesting_level(line.indent_x - base) as u8,
                text: span_text::list_item_text(line, m.marker, m.rest),
                bold: false,
                italic: false,
            },
        ),
        list_base: Some(base),
        last_item: Some(t.blocks.len() as int),
        last_line: Some(i),
        ..t
    }
}

/// Whether line `i` continues the last list item.
pub open spec fn continues_item(s: ReaderView, lines: Seq<ProjectedLine>, i: int) -> bool {
    &&& s.last_item is Some
    &&& s.last_line is Some
    &&& paragraphs::continues(lines[s.last_line->0], lines[i])
    &&& 0 <= s.last_item->0 < s.blocks.len()
    &&& s.blocks[s.last_item->0] is ListItem
}

/// A list item whose text is continued by a line.
pub open spec fn item_continued(b: BlockView, line: ProjectedLine) -> BlockView {
    match b {
        BlockView::ListItem { ordered, marker, level, text, bold, italic } => BlockView::ListItem {
            ordered,
            marker,
            level,
            text: span_text::continued(
                text,
                text::trim_of(line.text@),
                span_text::inline_text(line),
            ),
            bold,
            italic,
        },
        _ => b,
    }
}

/// The state after line `i`, which continues the last list item.
pub open spec fn with_item_line(s: ReaderView, lines: Seq<ProjectedLine>, i: int) -> ReaderView {
    let k = s.last_item->0;
    ReaderView {
        blocks: s.blocks.update(k, item_continued(s.blocks[k], lines[i])),
        last_line: Some(i),
        ..s
    }
}

/// The state after line `i` of running text, which continues the open paragraph
/// or begins one.
pub open spec fn with_text_line(s: ReaderView, lines: Seq<ProjectedLine>, i: int) -> ReaderView {
    if s.paragraph is Some && paragraphs::continues(lines[s.paragraph->0.last], lines[i]) {
        ReaderView {
            paragraph: Some(paragraphs::extended(s.paragraph->0, lines, i)),
            ..s
        }
    } else {
        ReaderView {
            paragraph: Some(paragraphs::paragraph_of(lines, i)),
            ..list_ended(flushed_paragraph(s))
        }
    }
}

/// The line before, as far as it is part of an open paragraph or list item.
pub open spec fn line_before(s: ReaderView, lines: Seq<ProjectedLine>) -> Option<ProjectedLine> {
    match s.paragraph {
        Some(p) => Some(lines[p.last]),
        None => match s.last_line {
            Some(k) => Some(lines[k]),
            None => None,
        },
    }
}

/// The line behind line `i`.
pub open spec fn line_behind(lines: Seq<ProjectedLine>, i: int) -> Option<ProjectedLine> {
    if i + 1 < lines.len() {
        Some(lines[i + 1])
    } else {
        None
    }
}

/// The state after a table that takes the lines of `run`.
pub open spec fn with_table(
    s: ReaderView,
    lines: Seq<ProjectedLine>,
    run: RunView,
    stops: Seq<InterruptionView>,
) -> ReaderView {
    with_block(
        all_closed(interrupted(s, stops, Some(lines[run.start].bbox.y as int))),
        run.block,
    )
}

/// The blocks at the end of the lines.
pub open spec fn finished(s: ReaderView, stops: Seq<InterruptionView>) -> Seq<BlockView> {
    interrupted(flushed_code(flushed_paragraph(s)), stops, None).blocks
}

fn at_or_above(y: i64, limit: Option<i64>) -> (r: bool)
    ensures
        r == (limit is None || y <= limit->0),
{
    match limit {
        Some(l) => y <= l,
        None => true,
    }
}

impl Reader {
    /// The state before the first line.
    pub fn new() -> (r: Reader)
        ensures
            r@ == fresh(),
    {
        let r = Reader {
            blocks: Vec::new(),
            paragraph: None,
            code: None,
            list_base: None,
            last_item: None,
            last_line: None,
            next: 0,
        };
        proof {
            assert(r@ =~= fresh());
        }
        r
    }

    pub fn push_block(&mut self, b: Block)
        ensures
            final(self)@ == with_block(old(self)@, b@),
    {
        let ghost before = self@;
        proof {
            assert(types::block_views(self.blocks@.push(b)) =~= before.blocks.push(b@));
        }
        self.blocks.push(b);
    }

    pub fn flush_paragraph(&mut self)
        ensures
            final(self)@ == flushed_paragraph(old(self)@),
    {
        match self.paragraph.take() {
            Some(p) => {
                if !text::blank(p.raw.as_str()) {
                    self.push_block(paragraphs::paragraph_from_accum(p));
                }
            },
            None => {},
        }
    }

    pub fn flush_code(&mut self)
        ensures
            final(self)@ == flushed_code(old(self)@),
    {
        match self.code.take() {
            Some(lines) => {
                if lines.len() > 0 {
                    self.push_block(Block::CodeBlock { lines });
                }
            },
            None => {},
        }
    }

    pub fn end_list(&mut self)
        ensures
            final(self)@ == list_ended(old(self)@),
    {
        self.list_base = None;
        self.last_item = None;
        self.last_line = None;
    }

    pub fn close_all(&mut self)
        ensures
            final(self)@ == all_closed(old(self)@),
    {
        self.flush_paragraph();
        self.flush_code();
        self.end_list();
    }

    /// Pass the interruptions down to the height `limit`, or all of them.
    pub fn pass_interruptions(
        &mut self,
        stops: &Vec<Interruption>,
        limit: Option<i64>,
        Ghost(n): Ghost<int>,
    )
        requires
            reads_within(old(self)@, n),
        ensures
            final(self)@ == interrupted(
                old(self)@,
                interruption_views(stops@),
                match limit {
                    Some(y) => Some(y as int),
                    None => None,
                },
            ),
            reads_within(final(self)@, n),
    {
        let ghost sv = interruption_views(stops@);
        let ghost lim = match limit {
            Some(y) => Some(y as int),
            None => None,
        };
        let ghost start = self@;
        while self.next < stops.len() && at_or_above(stops[self.next].y, limit)
            invariant
                sv == interruption_views(stops@),
                lim == (match limit {
                    Some(y) => Some(y as int),
                    None => None,
                }),
                reads_within(self@, n),
                interrupted(start, sv, lim) == interrupted(self@, sv, lim),
            decreases stops.len() - self.next,
        {
            proof {
                assert(sv[self.next as int] == stops@[self.next as int]@);
            }
            let b: Block = types::clone_block(&stops[self.next].block);
            self.close_all();
            self.push_block(b);
            self.next = self.next + 1;
        }
    }

    pub fn push_heading(&mut self, level: u8, t: &str)
        ensures
            final(self)@ == with_heading(old(self)@, level, t@),
    {
        self.flush_paragraph();
        self.end_list();
        self.push_block(Block::Heading { level, text: text::collapse_whitespace(t) });
    }

    pub fn push_code_line(&mut self, line: &ProjectedLine)
        ensures
            final(self)@ == with_code_line(old(self)@, *line),
    {
        self.flush_paragraph();
        self.end_list();
        let mut lines: Vec<String> = match self.code.take() {
            Some(v) => v,
            None => Vec::new(),
        };
        let ghost before = types::texts(lines@);
        let t: String = text::to_string(text::trim_end(line.text.as_str()));
        proof {
            assert(types::texts(lines@.push(t)) =~= before.push(t@));
            if old(self)@.code is None {
                assert(before =~= seq![]);
            }
        }
        lines.push(t);
        self.code = Some(lines);
    }

    pub fn push_item(
        &mut self,
        lines: &Vec<ProjectedLine>,
        i: usize,
        ordered: bool,
        marker: String,
        rest: &str,
    )
        requires
            i < lines@.len(),
        ensures
            final(self)@ == with_item(
                old(self)@,
                lines@,
                i as int,
                MarkerView { ordered, marker: marker@, rest: rest@ },
            ),
    {
        let line = &lines[i];
        self.flush_paragraph();
        let base: i32 = match self.list_base {
            Some(b) => b,
            None => line.indent_x,
        };
        self.list_base = Some(base);
        let level: u8 = lists::list_level(line.indent_x as i64 - base as i64);
        self.last_item = Some(self.blocks.len());
        self.last_line = Some(i);
        let t: String = span_text::render_list_item_text(line, marker.as_str(), rest);
        self.push_block(
            Block::ListItem { ordered, marker, level, text: t, bold: false, italic: false },
        );
    }

    /// Append line `i` to the last list item, if it continues the item.
    pub fn try_continue_item(&mut self, lines: &Vec<ProjectedLine>, i: usize) -> (r: bool)
        requires
            i < lines@.len(),
            reads_within(old(self)@, lines@.len() as int),
        ensures
            r == continues_item(old(self)@, lines@, i as int),
            final(self)@ == if r {
                with_item_line(old(self)@, lines@, i as int)
            } else {
                old(self)@
            },
    {
        let line = &lines[i];
        let k: usize = match self.last_item {
            Some(k) => k,
            None => {
                return false;
            },
        };
        let last: usize = match self.last_line {
            Some(p) => p,
            None => {
                return false;
            },
        };
        if !paragraphs::continues_paragraph(&lines[last], line) || k >= self.blocks.len() {
            return false;
        }
        proof {
            assert(self@.blocks[k as int] == self.blocks@[k as int]@);
        }
        let ghost before = self@;
        let b: Block = types::clone_block(&self.blocks[k]);
        match b {
            Block::ListItem { ordered, marker, level, text, bold, italic } => {
                let mut t: String = text;
                let cont: String = span_text::render_line_inline(line);
                span_text::append_inline_continuation(
                    &mut t,
                    text::trim(line.text.as_str()),
                    cont.as_str(),
                );
                let item = Block::ListItem { ordered, marker, level, text: t, bold, italic };
                proof {
                    assert(types::block_views(self.blocks@.update(k as int, item))
                        =~= before.blocks.update(k as int, item@));
                }
                self.blocks.set(k, item);
                self.last_line = Some(i);
                true
            },
            _ => false,
        }
    }

    pub fn push_text_line(&mut self, lines: &Vec<ProjectedLine>, i: usize)
        requires
            i < lines@.len(),
            reads_within(old(self)@, lines@.len() as int),
        ensures
            final(self)@ == with_text_line(old(self)@, lines@, i as int),
    {
        match self.paragraph.take() {
            Some(p) => {
                if paragraphs::continues_paragraph(&lines[p.last], &lines[i]) {
                    let mut q: ParaAccum = p;
                    paragraphs::append_to_paragraph(&mut q, lines, i);
                    self.paragraph = Some(q);
                    return ;
                }
                self.paragraph = Some(p);
            },
            None => {},
        }
        self.flush_paragraph();
        self.end_list();
        self.paragraph = Some(paragraphs::start_paragraph(lines, i));
    }

    /// The line before, as far as it is part of an open paragraph or list item.
    pub fn previous_line(&self) -> (r: Option<usize>)
        ensures
            match r {
                Some(k) => forall|lines: Seq<ProjectedLine>| #[trigger]
                    line_before(self@, lines) == Some(lines[k as int]),
                None => forall|lines: Seq<ProjectedLine>| #[trigger]
                    line_before(self@, lines) is None,
            },
            r is Some ==> forall|n: int| #[trigger] reads_within(self@, n) ==> r->0 < n,
    {
        match &self.paragraph {
            Some(p) => Some(p.last),
            None => self.last_line,
        }
    }

    pub fn push_table(
        &mut self,
        lines: &Vec<ProjectedLine>,
        run: &TableRun,
        stops: &Vec<Interruption>,
    )
        requires
            rows::run_fits(run@, lines@.len() as int),
            reads_within(old(self)@, lines@.len() as int),
        ensures
            final(self)@ == with_table(old(self)@, lines@, run@, interruption_views(stops@)),
            reads_within(final(self)@, lines@.len() as int),
    {
        let top: i64 = lines[run.start].bbox.y as i64;
        self.pass_interruptions(stops, Some(top), Ghost(lines@.len() as int));
        self.close_all();
        self.push_block(types::clone_block(&run.block));
    }

    /// The blocks at the end of the lines.
    pub fn finish(self, stops: &Vec<Interruption>) -> (r: Vec<Block>)
        ensures
            types::block_views(r@) == finished(self@, interruption_views(stops@)),
    {
        let mut s: Reader = self;
        s.flush_paragraph();
        s.flush_code();
        s.last_line = None;
        s.pass_interruptions(stops, None, Ghost(0int));
        s.blocks
    }
}

// ---------------------------------------------------------------------------
// Interruptions inside of tables
// ---------------------------------------------------------------------------

/// How far above and below a table its own rules may lie.
pub const TABLE_BAND_SLACK: i64 = 2_000;

/// Whether a height lies in the band of a table: from four row heights above its
/// first line, which leaves room for a header, to its last line.
pub open spec fn in_band(lines: Seq<ProjectedLine>, run: RunView, y: int) -> bool {
    let first = lines[run.start];
    let top = first.bbox.y - 4 * types::max_of(first.bbox.height as int, 8_000);
    top - TABLE_BAND_SLACK <= y <= lines[run.end - 1].bbox.bottom_edge() + TABLE_BAND_SLACK
}

/// Whether a height lies in the band of any of the tables.
pub open spec fn in_any_band(lines: Seq<ProjectedLine>, runs: Seq<RunView>, y: int) -> bool {
    exists|k: int| 0 <= k < runs.len() && in_band(lines, #[trigger] runs[k], y)
}

/// The first `n` interruptions without those that lie in the band of a table.
pub open spec fn outside_tables(
    stops: Seq<InterruptionView>,
    lines: Seq<ProjectedLine>,
    runs: Seq<RunView>,
    n: int,
) -> Seq<InterruptionView>
    decreases n,
{
    if n <= 0 {
        seq![]
    } else if in_any_band(lines, runs, stops[n - 1].y) {
        outside_tables(stops, lines, runs, n - 1)
    } else {
        outside_tables(stops, lines, runs, n - 1).push(stops[n - 1])
    }
}

fn lies_in_table(lines: &Vec<ProjectedLine>, runs: &Vec<TableRun>, y: i64) -> (r: bool)
    requires
        rows::runs_fit(rows::run_views(runs@), lines@.len() as int),
        cells::in_reach(y as int),
    ensures
        r == in_any_band(lines@, rows::run_views(runs@), y as int),
{
    let ghost rv = rows::run_views(runs@);
    let mut k: usize = 0;
    while k < runs.len()
        invariant
            k <= runs@.len(),
            rv == rows::run_views(runs@),
            rows::runs_fit(rv, lines@.len() as int),
            forall|j: int| 0 <= j < k ==> !in_band(lines@, #[trigger] rv[j], y as int),
        decreases runs.len() - k,
    {
        proof {
            assert(rv[k as int] == runs@[k as int]@);
            assert(rows::run_fits(rv[k as int], lines@.len() as int));
        }
        let first = &lines[runs[k].start];
        let height: i64 = types::max64(first.bbox.height as i64, 8_000);
        let top: i64 = first.bbox.y as i64 - 4 * height;
        let bottom: i64 = lines[runs[k].end - 1].bbox.bottom();
        if top - TABLE_BAND_SLACK <= y && y <= bottom + TABLE_BAND_SLACK {
            return true;
        }
        k = k + 1;
    }
    false
}

/// Whether every height is in reach of the arithmetic.
pub open spec fn stops_in_reach(stops: Seq<InterruptionView>) -> bool {
    forall|i: int| 0 <= i < stops.len() ==> cells::in_reach((#[trigger] stops[i]).y)
}

/// The interruptions without those that lie in the band of a table.
pub fn drop_inside_tables(
    stops: &Vec<Interruption>,
    lines: &Vec<ProjectedLine>,
    runs: &Vec<TableRun>,
) -> (r: Vec<Interruption>)
    requires
        rows::runs_fit(rows::run_views(runs@), lines@.len() as int),
        stops_in_reach(interruption_views(stops@)),
    ensures
        interruption_views(r@) == outside_tables(
            interruption_views(stops@),
            lines@,
            rows::run_views(runs@),
            stops@.len() as int,
        ),
{
    let ghost sv = interruption_views(stops@);
    let ghost rv = rows::run_views(runs@);
    let mut out: Vec<Interruption> = Vec::new();
    let mut i: usize = 0;
    proof {
        assert(interruption_views(out@) =~= seq![]);
    }
    while i < stops.len()
        invariant
            i <= stops@.len(),
            sv == interruption_views(stops@),
            rv == rows::run_views(runs@),
            rows::runs_fit(rv, lines@.len() as int),
            stops_in_reach(sv),
            interruption_views(out@) == outside_tables(sv, lines@, rv, i as int),
        decreases stops.len() - i,
    {
        proof {
            assert(sv[i as int] == stops@[i as int]@);
        }
        if !lies_in_table(lines, runs, stops[i].y) {
            let c: Interruption = clone_interruption(&stops[i]);
            proof {
                assert(interruption_views(out@.push(c)) =~= interruption_views(out@).push(c@));
            }
            out.push(c);
        }
        i = i + 1;
    }
    out
}

} // verus!
