//! What holds of the blocks that lines are read into: which lines a block is made of, and
//! how their texts are put together.

use vstd::prelude::*;
use crate::escapes;
use crate::font_sizes;
use crate::lists;
use crate::page_classify;
use crate::paragraphs;
use crate::paragraphs::ParaView;
use crate::reader;
use crate::reader::{InterruptionView, ReaderView};
use crate::region_classify;
use crate::region_reader;
use crate::region_reader::{RegionView, SettingView};
use crate::rows::RunView;
use crate::span_text;
use crate::table_shape;
use crate::text;
use crate::types::{BlockView, ParsedPage, ProjectedLine, TextItem};

verus! {

// ---------------------------------------------------------------------------
// Texts that are put together
// ---------------------------------------------------------------------------

/// Whether `t` is the parts one behind the other, part `k` from `at[k].0` to `at[k].1`: a
/// space is between two parts, or nothing, where a hyphen at the end of a part is left out.
pub open spec fn is_laid_out(t: Seq<char>, parts: Seq<Seq<char>>, at: Seq<(int, int)>) -> bool {
    &&& at.len() == parts.len()
    &&& at.len() > 0
    &&& at[0].0 == 0
    &&& at.last().1 == t.len()
    &&& at.last().1 - at.last().0 == parts.last().len()
    &&& forall|k: int|
        0 <= k < at.len() ==> {
            let n = (#[trigger] at[k]).1 - at[k].0;
            &&& 0 <= at[k].0 <= at[k].1 <= t.len()
            &&& n <= parts[k].len()
            &&& t.subrange(at[k].0, at[k].1) == parts[k].take(n)
            &&& forall|i: int| n <= i < parts[k].len() ==> #[trigger] parts[k][i] == '-'
        }
    &&& forall|k: int|
        0 <= k < at.len() - 1 ==> {
            ||| at[k + 1].0 == (#[trigger] at[k]).1
            ||| at[k + 1].0 == at[k].1 + 1 && t[at[k].1] == ' ' && at[k].1 - at[k].0
                == parts[k].len()
        }
}

/// Whether a word is mended exactly where a part ends with a hyphen and the next one begins
/// with a lowercase letter.
pub open spec fn is_mended(parts: Seq<Seq<char>>, at: Seq<(int, int)>) -> bool {
    forall|k: int|
        0 <= k < at.len() - 1 ==> {
            let broken = parts[k].len() > 0 && parts[k].last() == '-' && parts[k + 1].len() > 0
                && 'a' <= parts[k + 1][0] <= 'z';
            (at[k + 1].0 == (#[trigger] at[k]).1) == broken
        }
}

proof fn lemma_one_part(t: Seq<char>)
    ensures
        is_laid_out(t, seq![t], seq![(0int, t.len() as int)]),
        is_mended(seq![t], seq![(0int, t.len() as int)]),
{
    assert(t.subrange(0, t.len() as int) =~= t.take(t.len() as int));
}

/// The parts with one more behind a space.
proof fn lemma_part_behind_space(
    t: Seq<char>,
    parts: Seq<Seq<char>>,
    at: Seq<(int, int)>,
    x: Seq<char>,
) -> (more: Seq<(int, int)>)
    requires
        is_laid_out(t, parts, at),
    ensures
        is_laid_out(t.push(' ') + x, parts.push(x), more),
        is_mended(parts, at) && !(parts.last().len() > 0 && parts.last().last() == '-' && x.len()
            > 0 && 'a' <= x[0] <= 'z') ==> is_mended(parts.push(x), more),
{
    let u = t.push(' ') + x;
    let n = t.len() as int;
    let more = at.push((n + 1, u.len() as int));
    assert forall|k: int| 0 <= k < more.len() implies {
        let m = (#[trigger] more[k]).1 - more[k].0;
        &&& 0 <= more[k].0 <= more[k].1 <= u.len()
        &&& m <= parts.push(x)[k].len()
        &&& u.subrange(more[k].0, more[k].1) == parts.push(x)[k].take(m)
        &&& forall|i: int| m <= i < parts.push(x)[k].len() ==> #[trigger] parts.push(x)[k][i] == '-'
    } by {
        if k < at.len() {
            assert(more[k] == at[k]);
            assert(u.subrange(at[k].0, at[k].1) =~= t.subrange(at[k].0, at[k].1));
        } else {
            assert(u.subrange(n + 1, u.len() as int) =~= x.take(x.len() as int));
        }
    }
    assert forall|k: int| 0 <= k < more.len() - 1 implies {
        ||| more[k + 1].0 == (#[trigger] more[k]).1
        ||| more[k + 1].0 == more[k].1 + 1 && u[more[k].1] == ' ' && more[k].1 - more[k].0
            == parts.push(x)[k].len()
    } by {
        assert(more[k] == at[k]);
        if k + 1 < at.len() {
            assert(more[k + 1] == at[k + 1]);
            assert(at[k + 1].0 <= t.len());
        } else {
            assert(at[k] == at.last());
        }
    }
    if is_mended(parts, at) {
        assert forall|k: int| 0 <= k < at.len() - 1 implies ((more[k + 1].0 == (
        #[trigger] more[k]).1) == (at[k + 1].0 == at[k].1)) by {
            assert(more[k] == at[k] && more[k + 1] == at[k + 1]);
        }
        if !(parts.last().len() > 0 && parts.last().last() == '-' && x.len() > 0 && 'a' <= x[0]
            <= 'z') {
            assert forall|k: int| 0 <= k < more.len() - 1 implies {
                let p = parts.push(x);
                let broken = p[k].len() > 0 && p[k].last() == '-' && p[k + 1].len() > 0 && 'a'
                    <= p[k + 1][0] <= 'z';
                (more[k + 1].0 == (#[trigger] more[k]).1) == broken
            } by {
                assert(more[k] == at[k]);
                if k + 1 < at.len() {
                    assert(more[k + 1] == at[k + 1]);
                    assert(parts.push(x)[k] == parts[k] && parts.push(x)[k + 1] == parts[k + 1]);
                } else {
                    assert(parts.push(x)[k] == parts.last());
                }
            }
        }
    }
    more
}

/// The parts with one more, where the hyphen at the end is left out.
proof fn lemma_part_mended(
    t: Seq<char>,
    parts: Seq<Seq<char>>,
    at: Seq<(int, int)>,
    x: Seq<char>,
) -> (more: Seq<(int, int)>)
    requires
        is_laid_out(t, parts, at),
        parts.last().len() > 0,
        t.len() > 0,
        t.last() == '-',
    ensures
        is_laid_out(t.drop_last() + x, parts.push(x), more),
        is_mended(parts, at) && parts.last().last() == '-' && x.len() > 0 && 'a' <= x[0] <= 'z'
            ==> is_mended(parts.push(x), more),
{
    let u = t.drop_last() + x;
    let n = t.len() as int;
    let last = at.len() - 1;
    assert(at[last] == at.last());
    let cut = at.update(last, (at[last].0, n - 1));
    let more = cut.push((n - 1, u.len() as int));
    assert(t.subrange(at[last].0, n) == parts[last].take(n - at[last].0));
    assert(t[n - 1] == t.subrange(at[last].0, n)[n - 1 - at[last].0]);
    assert(parts[last].last() == '-');
    assert forall|k: int| 0 <= k < more.len() implies {
        let m = (#[trigger] more[k]).1 - more[k].0;
        &&& 0 <= more[k].0 <= more[k].1 <= u.len()
        &&& m <= parts.push(x)[k].len()
        &&& u.subrange(more[k].0, more[k].1) == parts.push(x)[k].take(m)
        &&& forall|i: int| m <= i < parts.push(x)[k].len() ==> #[trigger] parts.push(x)[k][i] == '-'
    } by {
        if k < last {
            assert(more[k] == at[k]);
            lemma_parts_ascend(t, parts, at, k, last);
            assert(at[k].1 <= at[last].0);
            assert(u.subrange(at[k].0, at[k].1) =~= t.subrange(at[k].0, at[k].1));
        } else if k == last {
            assert(more[k] == (at[last].0, n - 1));
            assert(u.subrange(at[last].0, n - 1) =~= t.subrange(at[last].0, n).take(
                n - 1 - at[last].0,
            ));
            assert(parts[last].take(n - at[last].0).take(n - 1 - at[last].0)
                =~= parts[last].take(n - 1 - at[last].0));
        } else {
            assert(u.subrange(n - 1, u.len() as int) =~= x.take(x.len() as int));
        }
    }
    assert forall|k: int| 0 <= k < more.len() - 1 implies {
        ||| more[k + 1].0 == (#[trigger] more[k]).1
        ||| more[k + 1].0 == more[k].1 + 1 && u[more[k].1] == ' ' && more[k].1 - more[k].0
            == parts.push(x)[k].len()
    } by {
        if k < last {
            assert(more[k] == at[k]);
            assert(more[k + 1].0 == at[k + 1].0);
            lemma_parts_ascend(t, parts, at, k, last);
            assert(at[k + 1].0 <= at[last].0 < n);
        }
    }
    if is_mended(parts, at) && x.len() > 0 && 'a' <= x[0] <= 'z' {
        assert forall|k: int| 0 <= k < more.len() - 1 implies {
            let p = parts.push(x);
            let broken = p[k].len() > 0 && p[k].last() == '-' && p[k + 1].len() > 0 && 'a' <= p[k
                + 1][0] <= 'z';
            (more[k + 1].0 == (#[trigger] more[k]).1) == broken
        } by {
            if k < last {
                assert(more[k] == at[k]);
                assert(more[k + 1].0 == at[k + 1].0);
                assert((at[k + 1].0 == at[k].1) == (parts[k].len() > 0 && parts[k].last() == '-'
                    && parts[k + 1].len() > 0 && 'a' <= parts[k + 1][0] <= 'z'));
            } else {
                assert(parts.push(x)[k] == parts.last());
            }
        }
    }
    more
}

proof fn lemma_parts_ascend(
    t: Seq<char>,
    parts: Seq<Seq<char>>,
    at: Seq<(int, int)>,
    k: int,
    l: int,
)
    requires
        is_laid_out(t, parts, at),
        0 <= k < l < at.len(),
    ensures
        at[k].1 <= at[l].0,
        at[k + 1].0 <= at[l].0,
    decreases l - k,
{
    assert(at[k + 1].0 == at[k].1 || at[k + 1].0 == at[k].1 + 1);
    if k + 1 < l {
        lemma_parts_ascend(t, parts, at, k + 1, l);
        assert(at[k + 1].0 <= at[k + 1].1);
    }
}

// ---------------------------------------------------------------------------
// Ink
// ---------------------------------------------------------------------------

proof fn lemma_trim_end_last(s: Seq<char>)
    ensures
        text::trim_end_of(s).len() > 0 ==> !text::is_ws(text::trim_end_of(s).last()),
    decreases s.len(),
{
    if s.len() > 0 && text::is_ws(s.last()) {
        lemma_trim_end_last(s.drop_last());
    }
}

/// A text is blank where it has no characters but white space.
pub proof fn lemma_blank_is_inkless(s: Seq<char>)
    ensures
        text::is_blank(s) == (text::ink_of(s).len() == 0),
{
    text::law_trim_keeps_ink(s);
    lemma_trim_end_last(text::trim_start_of(s));
    let t = text::trim_of(s);
    if t.len() > 0 {
        assert(text::ink_of(t) == text::ink_of(t.drop_last()).push(t.last()));
    }
}

proof fn lemma_joined_not_blank(a: Seq<char>, b: Seq<char>)
    requires
        !text::is_blank(b),
    ensures
        !text::is_blank(a + b),
{
    lemma_blank_is_inkless(b);
    lemma_blank_is_inkless(a + b);
    text::lemma_ink_joined(a, b);
}

/// Collapsed text is blank where the text is, and empty only then.
proof fn lemma_collapsed_blank(s: Seq<char>)
    ensures
        text::is_blank(text::collapse_of(s)) == text::is_blank(s),
        !text::is_blank(s) ==> text::collapse_of(s).len() > 0,
        !text::is_blank(s) ==> text::collapse_of(text::trim_of(s)).len() > 0 && !text::is_blank(
            text::collapse_of(text::trim_of(s)),
        ),
{
    let t = text::trim_of(s);
    text::law_collapse_is_final(s);
    text::law_collapse_is_final(t);
    text::law_trim_keeps_ink(s);
    lemma_blank_is_inkless(s);
    lemma_blank_is_inkless(t);
    lemma_blank_is_inkless(text::collapse_of(s));
    lemma_blank_is_inkless(text::collapse_of(t));
}

// ---------------------------------------------------------------------------
// Lines and their styles
// ---------------------------------------------------------------------------

/// Whether a run of a line is visible.
pub open spec fn is_visible(spans: Seq<TextItem>, i: int) -> bool {
    0 <= i < spans.len() && !text::is_blank(spans[i].text@)
}

/// Whether all visible runs of a line, and there are some, are in one style, which has the
/// given emphasis.
pub open spec fn is_set_in(line: ProjectedLine, bold: bool, italic: bool) -> bool {
    &&& exists|i: int| #[trigger] is_visible(line.spans@, i)
    &&& forall|i: int| #[trigger]
        is_visible(line.spans@, i) ==> line.spans@[i].bold == bold && line.spans@[i].italic
            == italic
    &&& forall|i: int, j: int| #[trigger]
        is_visible(line.spans@, i) && #[trigger] is_visible(line.spans@, j)
            ==> line.spans@[i].mono == line.spans@[j].mono
}

/// The visible runs are those that are listed.
proof fn lemma_visible_listed(spans: Seq<TextItem>, n: int)
    requires
        0 <= n <= spans.len(),
    ensures
        forall|k: int|
            0 <= k < span_text::visible_upto(spans, n).len() ==> is_visible(
                spans,
                #[trigger] span_text::visible_upto(spans, n)[k],
            ),
        forall|i: int|
            i < n && #[trigger] is_visible(spans, i) ==> span_text::visible_upto(
                spans,
                n,
            ).contains(i),
    decreases n,
{
    if n > 0 {
        lemma_visible_listed(spans, n - 1);
        let head = span_text::visible_upto(spans, n - 1);
        let all = span_text::visible_upto(spans, n);
        assert forall|i: int| i < n && #[trigger] is_visible(spans, i) implies all.contains(i) by {
            if i < n - 1 {
                let k = choose|k: int| 0 <= k < head.len() && head[k] == i;
                assert(all[k] == i);
            } else {
                assert(all[head.len() as int] == i);
            }
        }
    }
}

proof fn lemma_flags(line: ProjectedLine)
    ensures
        paragraphs::line_flags(line) is Some ==> is_set_in(
            line,
            (paragraphs::line_flags(line)->0).0,
            (paragraphs::line_flags(line)->0).1,
        ),
        forall|b: bool, i: bool| #[trigger]
            is_set_in(line, b, i) ==> paragraphs::line_flags(line) == Some((b, i)),
{
    let spans = line.spans@;
    let vis = span_text::visible(spans);
    lemma_visible_listed(spans, spans.len() as int);
    if paragraphs::line_flags(line) is Some {
        let (b, t) = paragraphs::line_flags(line)->0;
        assert(is_visible(spans, vis[0]));
        assert forall|i: int| #[trigger] is_visible(spans, i) implies span_text::style_of(spans[i])
            == span_text::style_of(spans[vis[0]]) by {
            let k = choose|k: int| 0 <= k < vis.len() && vis[k] == i;
            assert(vis.contains(i));
            assert(span_text::style_of(spans[vis[k]]) == span_text::style_of(spans[vis[0]]));
        }
    }
    assert forall|b: bool, t: bool| #[trigger] is_set_in(line, b, t) implies paragraphs::line_flags(
        line,
    ) == Some((b, t)) by {
        let i = choose|i: int| #[trigger] is_visible(spans, i);
        assert(vis.contains(i));
        assert(is_visible(spans, vis[0]));
        assert forall|k: int| 0 <= k < vis.len() implies span_text::style_of(
            spans[#[trigger] vis[k]],
        ) == span_text::style_of(spans[vis[0]]) by {
            assert(is_visible(spans, vis[k]));
        }
    }
}

/// The text of a line without its styles.
pub open spec fn plain_part(lines: Seq<ProjectedLine>, i: int) -> Seq<char> {
    text::collapse_of(text::trim_of(lines[i].text@))
}

/// The texts of lines without their styles.
pub open spec fn plain_parts(lines: Seq<ProjectedLine>, of: Seq<int>) -> Seq<Seq<char>> {
    Seq::new(of.len(), |k: int| plain_part(lines, of[k]))
}

/// The texts of lines with their styles, but for the first `m`.
pub open spec fn styled_parts(lines: Seq<ProjectedLine>, of: Seq<int>, m: int) -> Seq<Seq<char>> {
    Seq::new(
        of.len(),
        |k: int|
            if k < m {
                plain_part(lines, of[k])
            } else {
                span_text::inline_text(lines[of[k]])
            },
    )
}

/// Whether all lines are set in one style with the given emphasis.
pub open spec fn are_set_in(
    lines: Seq<ProjectedLine>,
    of: Seq<int>,
    bold: bool,
    italic: bool,
) -> bool {
    forall|k: int| 0 <= k < of.len() ==> is_set_in(lines[#[trigger] of[k]], bold, italic)
}

/// Whether a text is laid out of parts.
pub open spec fn joins(t: Seq<char>, parts: Seq<Seq<char>>) -> bool {
    exists|at: Seq<(int, int)>| #[trigger] is_laid_out(t, parts, at)
}

/// Whether a text is laid out of parts, with the words mended that are broken between them.
pub open spec fn joins_mended(t: Seq<char>, parts: Seq<Seq<char>>) -> bool {
    exists|at: Seq<(int, int)>| #[trigger] is_laid_out(t, parts, at) && is_mended(parts, at)
}

// ---------------------------------------------------------------------------
// Blocks and their lines
// ---------------------------------------------------------------------------

/// Whether the first `m` lines as one heading, with one more line behind them, have more than
/// 140 characters.
pub open spec fn is_overlong(lines: Seq<ProjectedLine>, of: Seq<int>, m: int) -> bool {
    exists|h: Seq<char>, i: int|
        #![trigger joins(h, plain_parts(lines, of.take(m))), lines[i]]
        joins(h, plain_parts(lines, of.take(m))) && 0 <= i < lines.len() && h.len() + 1
            + text::trim_of(lines[i].text@).len() > 140
}

/// Whether a paragraph is made of the given lines, of which the first `m` were read as a
/// heading that became too long. Where all lines are set in one style it has the emphasis of
/// that style and their plain text, escaped. Else it has no emphasis of its own, and its text
/// is that of the lines with their styles.
pub open spec fn is_passage(
    lines: Seq<ProjectedLine>,
    of: Seq<int>,
    m: int,
    t: Seq<char>,
    bold: bool,
    italic: bool,
) -> bool {
    &&& of.len() > 0
    &&& 0 <= m <= of.len()
    &&& m > 0 ==> is_overlong(lines, of, m)
    &&& forall|b: bool, i: bool| m == 0 && #[trigger] are_set_in(lines, of, b, i) ==> bold == b
        && italic == i && joins_mended(escapes::unescaped(t).text, plain_parts(lines, of))
    &&& (m > 0 || forall|b: bool, i: bool| !#[trigger] are_set_in(lines, of, b, i)) ==> !bold
        && !italic && joins(t, styled_parts(lines, of, m))
}

/// Whether lines of code are the given lines, with their white space in front.
pub open spec fn is_code_of(lines: Seq<ProjectedLine>, of: Seq<int>, code: Seq<Seq<char>>) -> bool {
    &&& of.len() == code.len()
    &&& forall|k: int|
        0 <= k < of.len() ==> #[trigger] code[k] == text::trim_end_of(lines[of[k]].text@)
}

/// Whether a list item is made of the given lines: the first one has its marker, and its
/// text follows, with that of the others behind it.
pub open spec fn is_item_of(
    lines: Seq<ProjectedLine>,
    of: Seq<int>,
    ordered: bool,
    marker: Seq<char>,
    t: Seq<char>,
) -> bool {
    &&& of.len() > 0
    &&& forall|k: int| 0 <= k < of.len() ==> !text::is_blank(lines[#[trigger] of[k]].text@)
    &&& lists::list_marker(text::trim_of(lines[of[0]].text@)) is Some
    &&& {
        let m = lists::list_marker(text::trim_of(lines[of[0]].text@))->0;
        &&& m.ordered == ordered
        &&& m.marker == marker
        &&& joins(
            t,
            styled_parts(lines, of, 0).update(
                0,
                span_text::list_item_text(lines[of[0]], m.marker, m.rest),
            ),
        )
    }
}

/// Whether a paragraph is made of the given lines, none of which was read as a heading unless
/// `demoted` is set.
pub open spec fn is_some_passage(
    lines: Seq<ProjectedLine>,
    of: Seq<int>,
    t: Seq<char>,
    bold: bool,
    italic: bool,
    demoted: bool,
) -> bool {
    exists|m: int| #[trigger] is_passage(lines, of, m, t, bold, italic) && (m > 0 ==> demoted)
}

/// Whether a block is made of the given lines. No paragraph was read as a heading unless
/// `demoted` is set.
pub open spec fn is_made_of(
    lines: Seq<ProjectedLine>,
    b: BlockView,
    of: Seq<int>,
    demoted: bool,
) -> bool {
    match b {
        BlockView::Paragraph { text, bold, italic } => is_some_passage(
            lines,
            of,
            text,
            bold,
            italic,
            demoted,
        ),
        BlockView::Heading { text, .. } => of.len() > 0 && !text::is_blank(text) && joins(
            text,
            plain_parts(lines, of),
        ) && forall|k: int| 0 <= k < of.len() ==> !text::is_blank(lines[#[trigger] of[k]].text@),
        BlockView::CodeBlock { lines: code } => of.len() > 0 && is_code_of(lines, of, code),
        BlockView::ListItem { ordered, marker, text, .. } => is_item_of(
            lines,
            of,
            ordered,
            marker,
            text,
        ),
        _ => false,
    }
}

/// Whether a block is made of the given lines, or of none where it is one of the tables or
/// one of the rules and figures.
pub open spec fn is_from(
    lines: Seq<ProjectedLine>,
    runs: Seq<RunView>,
    stops: Seq<InterruptionView>,
    b: BlockView,
    of: Seq<int>,
    demoted: bool,
) -> bool {
    ||| is_made_of(lines, b, of, demoted)
    ||| of.len() == 0 && exists|k: int| 0 <= k < runs.len() && (#[trigger] runs[k]).block == b
    ||| of.len() == 0 && exists|k: int| 0 <= k < stops.len() && (#[trigger] stops[k]).block == b
}

// ---------------------------------------------------------------------------
// Rendered lines are not empty
// ---------------------------------------------------------------------------

proof fn lemma_escaped_grows(s: Seq<char>, n: int)
    requires
        0 <= n <= s.len(),
    ensures
        span_text::escape_upto(s, n).len() >= n,
    decreases n,
{
    if n > 0 {
        lemma_escaped_grows(s, n - 1);
    }
}

proof fn lemma_styled_not_empty(s: Seq<char>, style: span_text::SpanStyle)
    requires
        s.len() > 0,
    ensures
        span_text::styled(s, style).len() > 0,
{
    lemma_escaped_grows(s, s.len() as int);
}

proof fn lemma_groups_grow(spans: Seq<TextItem>, at: Seq<int>, i: int, out: Seq<char>)
    ensures
        span_text::groups_from(spans, at, i, out).len() >= out.len(),
    decreases at.len() - i,
{
    if 0 <= i < at.len() {
        let styles = span_text::styles_at(spans, at);
        let j = span_text::group_end(styles, i, i + 1);
        span_text::lemma_group_end(styles, i, i + 1);
        let rendered = span_text::styled(
            text::collapse_of(span_text::group_text(spans, at, i, j)),
            styles[i],
        );
        lemma_groups_grow(spans, at, j, span_text::spaced(out) + rendered);
    }
}

proof fn lemma_inline_not_empty(line: ProjectedLine)
    requires
        !text::is_blank(line.text@),
    ensures
        span_text::inline_text(line).len() > 0,
{
    let spans = line.spans@;
    let at = span_text::left_to_right(spans);
    let whole = text::collapse_of(line.text@);
    lemma_collapsed_blank(line.text@);
    span_text::lemma_left_to_right(spans);
    if at.len() > 0 {
        if exists|i: int|
            0 <= i < at.len() && span_text::style_of(spans[#[trigger] at[i]])
                != span_text::style_of(spans[at[0]]) {
            let styles = span_text::styles_at(spans, at);
            let j = span_text::group_end(styles, 0, 1);
            span_text::lemma_group_end(styles, 0, 1);
            let g = span_text::group_text(spans, at, 0, j);
            let last = spans[at[j - 1]].text@;
            text::law_trim_keeps_ink(last);
            lemma_blank_is_inkless(last);
            lemma_blank_is_inkless(text::trim_of(last));
            lemma_joined_not_blank(
                span_text::spaced(span_text::group_text(spans, at, 0, j - 1)),
                text::trim_of(last),
            );
            lemma_collapsed_blank(g);
            lemma_styled_not_empty(text::collapse_of(g), styles[0]);
            let rendered = span_text::styled(text::collapse_of(g), styles[0]);
            lemma_groups_grow(spans, at, j, span_text::spaced(seq![]) + rendered);
        } else {
            lemma_styled_not_empty(whole, span_text::style_of(spans[at[0]]));
        }
    }
}

// ---------------------------------------------------------------------------
// Paragraphs that are open
// ---------------------------------------------------------------------------

/// Whether an open paragraph is made of the given lines.
spec fn is_open_passage(lines: Seq<ProjectedLine>, of: Seq<int>, m: int, p: ParaView) -> bool {
    &&& of.len() > 0
    &&& 0 <= m <= of.len()
    &&& m > 0 ==> p.uniform is None
    &&& m > 0 ==> is_overlong(lines, of, m)
    &&& !text::is_blank(p.raw)
    &&& p.raw.len() > 0
    &&& joins(p.inline_text, styled_parts(lines, of, m))
    &&& m == 0 ==> joins_mended(p.raw, plain_parts(lines, of))
    &&& p.raw.last() == plain_part(lines, of.last()).last()
    &&& m == 0 ==> (p.uniform is Some ==> are_set_in(lines, of, (p.uniform->0).0, (
    p.uniform->0).1))
    &&& m == 0 ==> forall|b: bool, i: bool| #[trigger] are_set_in(lines, of, b, i) ==> p.uniform
        == Some((b, i))
    &&& styled_parts(lines, of, m).last().len() > 0
    &&& plain_part(lines, of.last()).len() > 0
}

proof fn lemma_passage_begun(lines: Seq<ProjectedLine>, i: int)
    requires
        0 <= i < lines.len(),
        !text::is_blank(lines[i].text@),
    ensures
        is_open_passage(lines, seq![i], 0, paragraphs::paragraph_of(lines, i)),
{
    let p = paragraphs::paragraph_of(lines, i);
    let of = seq![i];
    lemma_collapsed_blank(lines[i].text@);
    lemma_inline_not_empty(lines[i]);
    lemma_flags(lines[i]);
    lemma_one_part(p.raw);
    lemma_one_part(p.inline_text);
    assert(plain_parts(lines, of) =~= seq![p.raw]);
    assert(styled_parts(lines, of, 0) =~= seq![p.inline_text]);
    assert forall|b: bool, t: bool| #[trigger] are_set_in(lines, of, b, t) implies p.uniform
        == Some((b, t)) by {
        assert(is_set_in(lines[of[0]], b, t));
    }
}

proof fn lemma_passage_extended(
    lines: Seq<ProjectedLine>,
    of: Seq<int>,
    m: int,
    p: ParaView,
    i: int,
)
    requires
        is_open_passage(lines, of, m, p),
        0 <= i < lines.len(),
        !text::is_blank(lines[i].text@),
    ensures
        is_open_passage(lines, of.push(i), m, paragraphs::extended(p, lines, i)),
{
    let next = paragraphs::paragraph_of(lines, i);
    let q = paragraphs::extended(p, lines, i);
    let more = of.push(i);
    assert(more.take(m) =~= of.take(m));
    lemma_collapsed_blank(lines[i].text@);
    lemma_inline_not_empty(lines[i]);
    lemma_flags(lines[i]);
    let pp = plain_parts(lines, of);
    let sp = styled_parts(lines, of, m);
    assert(plain_parts(lines, more) =~= pp.push(next.raw));
    assert(styled_parts(lines, more, m) =~= sp.push(next.inline_text));
    let mend = span_text::mends_hyphen(p.raw, next.raw);
    let ai = choose|at: Seq<(int, int)>| #[trigger] is_laid_out(p.inline_text, sp, at);
    if mend && text::ends_char(p.inline_text, '-') {
        let z = lemma_part_mended(p.inline_text, sp, ai, next.inline_text);
        assert(is_laid_out(q.inline_text, sp.push(next.inline_text), z));
    } else {
        let z = lemma_part_behind_space(p.inline_text, sp, ai, next.inline_text);
        assert(is_laid_out(q.inline_text, sp.push(next.inline_text), z));
    }
    if m == 0 {
        let ar = choose|at: Seq<(int, int)>| #[trigger]
            is_laid_out(p.raw, pp, at) && is_mended(pp, at);
        assert(pp.last() == plain_part(lines, of.last()));
        if mend {
            let z = lemma_part_mended(p.raw, pp, ar, next.raw);
            assert(is_laid_out(q.raw, pp.push(next.raw), z) && is_mended(pp.push(next.raw), z));
        } else {
            let z = lemma_part_behind_space(p.raw, pp, ar, next.raw);
            assert(is_laid_out(q.raw, pp.push(next.raw), z) && is_mended(pp.push(next.raw), z));
        }
    }
    if mend {
        lemma_joined_not_blank(p.raw.drop_last(), next.raw);
    } else {
        lemma_joined_not_blank(p.raw.push(' '), next.raw);
    }
    assert(q.raw.last() == next.raw.last());
    if q.uniform is Some && m == 0 {
        let (b, t) = q.uniform->0;
        assert forall|k: int| 0 <= k < more.len() implies is_set_in(
            lines[#[trigger] more[k]],
            b,
            t,
        ) by {
            if k < of.len() {
                assert(more[k] == of[k]);
            }
        }
    }
    assert forall|b: bool, t: bool| m == 0 && #[trigger] are_set_in(
        lines,
        more,
        b,
        t,
    ) implies q.uniform == Some((b, t)) by {
        assert(is_set_in(lines[more[of.len() as int]], b, t));
        assert forall|k: int| 0 <= k < of.len() implies is_set_in(lines[#[trigger] of[k]], b, t) by {
            assert(more[k] == of[k]);
        }
        assert(are_set_in(lines, of, b, t));
    }
}

proof fn lemma_one_style(lines: Seq<ProjectedLine>, of: Seq<int>, p: ParaView, f: (bool, bool))
    requires
        is_open_passage(lines, of, 0, p),
        p.uniform == Some(f),
    ensures
        is_passage(lines, of, 0, span_text::escaped(p.raw), f.0, f.1),
{
    span_text::law_escaped_text_reads_back(p.raw);
    let t = span_text::escaped(p.raw);
    assert(are_set_in(lines, of, f.0, f.1));
    assert(joins_mended(escapes::unescaped(t).text, plain_parts(lines, of)));
    assert forall|b: bool, i: bool| #[trigger] are_set_in(lines, of, b, i) implies f.0 == b && f.1
        == i by {
        assert(p.uniform == Some((b, i)));
    }
}

proof fn lemma_many_styles(lines: Seq<ProjectedLine>, of: Seq<int>, m: int, p: ParaView)
    requires
        is_open_passage(lines, of, m, p),
        p.uniform is None,
    ensures
        is_passage(lines, of, m, p.inline_text, false, false),
{
    assert forall|b: bool, i: bool| m == 0 implies !#[trigger] are_set_in(lines, of, b, i) by {}
}

proof fn lemma_passage_is_block(
    lines: Seq<ProjectedLine>,
    of: Seq<int>,
    m: int,
    t: Seq<char>,
    bold: bool,
    italic: bool,
    demoted: bool,
)
    requires
        is_passage(lines, of, m, t, bold, italic),
        m > 0 ==> demoted,
    ensures
        is_made_of(lines, BlockView::Paragraph { text: t, bold, italic }, of, demoted),
{
    assert(is_some_passage(lines, of, t, bold, italic, demoted));
}

proof fn lemma_passage_closed(
    lines: Seq<ProjectedLine>,
    of: Seq<int>,
    m: int,
    p: ParaView,
    demoted: bool,
)
    requires
        is_open_passage(lines, of, m, p),
        m > 0 ==> demoted,
    ensures
        is_made_of(lines, paragraphs::paragraph_block(p), of, demoted),
{
    match p.uniform {
        Some(f) => {
            lemma_one_style(lines, of, p, f);
            lemma_passage_is_block(
                lines,
                of,
                m,
                span_text::escaped(p.raw),
                f.0,
                f.1,
                demoted,
            );
        },
        None => {
            lemma_many_styles(lines, of, m, p);
            lemma_passage_is_block(lines, of, m, p.inline_text, false, false, demoted);
        },
    }
}

// ---------------------------------------------------------------------------
// What was read so far
// ---------------------------------------------------------------------------

/// Which lines the blocks, the open code and the open paragraph are made of; the first `m`
/// lines of the open paragraph were read as a heading.
pub struct Sources {
    pub blocks: Seq<Seq<int>>,
    pub code: Seq<int>,
    pub paragraph: Seq<int>,
    pub m: int,
}

/// Whether everything that was read is made of the lines that are told.
spec fn is_told(
    lines: Seq<ProjectedLine>,
    runs: Seq<RunView>,
    stops: Seq<InterruptionView>,
    s: ReaderView,
    src: Sources,
    demoted: bool,
) -> bool {
    &&& src.blocks.len() == s.blocks.len()
    &&& forall|k: int|
        0 <= k < s.blocks.len() ==> is_from(
            lines,
            runs,
            stops,
            #[trigger] s.blocks[k],
            src.blocks[k],
            demoted,
        )
    &&& match s.paragraph {
        Some(p) => is_open_passage(lines, src.paragraph, src.m, p) && (src.m > 0 ==> demoted),
        None => src.paragraph.len() == 0,
    }
    &&& match s.code {
        Some(code) => is_code_of(lines, src.code, code),
        None => src.code.len() == 0,
    }
}

proof fn lemma_block_told(
    lines: Seq<ProjectedLine>,
    runs: Seq<RunView>,
    stops: Seq<InterruptionView>,
    s: ReaderView,
    src: Sources,
    demoted: bool,
    b: BlockView,
    of: Seq<int>,
)
    requires
        is_told(lines, runs, stops, s, src, demoted),
        is_from(lines, runs, stops, b, of, demoted),
    ensures
        is_told(
            lines,
            runs,
            stops,
            reader::with_block(s, b),
            Sources { blocks: src.blocks.push(of), ..src },
            demoted,
        ),
{
    let t = reader::with_block(s, b);
    let more = src.blocks.push(of);
    assert forall|k: int| 0 <= k < t.blocks.len() implies is_from(
        lines,
        runs,
        stops,
        #[trigger] t.blocks[k],
        more[k],
        demoted,
    ) by {
        if k < s.blocks.len() {
            assert(t.blocks[k] == s.blocks[k]);
        }
    }
}

/// The sources after the open paragraph became a block.
spec fn paragraph_closed(s: ReaderView, src: Sources) -> Sources {
    if s.paragraph is Some {
        Sources { blocks: src.blocks.push(src.paragraph), paragraph: seq![], m: 0, ..src }
    } else {
        src
    }
}

/// The sources after the open code became a block.
spec fn code_closed(s: ReaderView, src: Sources) -> Sources {
    if s.code is Some && s.code->0.len() > 0 {
        Sources { blocks: src.blocks.push(src.code), code: seq![], ..src }
    } else {
        src
    }
}

proof fn lemma_paragraph_closed(
    lines: Seq<ProjectedLine>,
    runs: Seq<RunView>,
    stops: Seq<InterruptionView>,
    s: ReaderView,
    src: Sources,
    demoted: bool,
)
    requires
        is_told(lines, runs, stops, s, src, demoted),
    ensures
        is_told(
            lines,
            runs,
            stops,
            reader::flushed_paragraph(s),
            paragraph_closed(s, src),
            demoted,
        ),
{
    match s.paragraph {
        Some(p) => {
            lemma_passage_closed(lines, src.paragraph, src.m, p, demoted);
            let t = ReaderView { paragraph: None, ..s };
            let none = Sources { paragraph: seq![], m: 0, ..src };
            assert(is_told(lines, runs, stops, t, none, demoted));
            lemma_block_told(
                lines,
                runs,
                stops,
                t,
                none,
                demoted,
                paragraphs::paragraph_block(p),
                src.paragraph,
            );
        },
        None => {},
    }
}

proof fn lemma_code_closed(
    lines: Seq<ProjectedLine>,
    runs: Seq<RunView>,
    stops: Seq<InterruptionView>,
    s: ReaderView,
    src: Sources,
    demoted: bool,
)
    requires
        is_told(lines, runs, stops, s, src, demoted),
    ensures
        is_told(lines, runs, stops, reader::flushed_code(s), code_closed(s, src), demoted),
{
    match s.code {
        Some(code) => {
            let t = ReaderView { code: None, ..s };
            if code.len() > 0 {
                let none = Sources { code: seq![], ..src };
                assert(is_told(lines, runs, stops, t, none, demoted));
                lemma_block_told(
                    lines,
                    runs,
                    stops,
                    t,
                    none,
                    demoted,
                    BlockView::CodeBlock { lines: code },
                    src.code,
                );
            } else {
                assert(is_told(lines, runs, stops, t, src, demoted));
            }
        },
        None => {},
    }
}

/// The sources after everything open became blocks.
spec fn everything_closed(s: ReaderView, src: Sources) -> Sources {
    code_closed(reader::flushed_paragraph(s), paragraph_closed(s, src))
}

proof fn lemma_everything_closed(
    lines: Seq<ProjectedLine>,
    runs: Seq<RunView>,
    stops: Seq<InterruptionView>,
    s: ReaderView,
    src: Sources,
    demoted: bool,
)
    requires
        is_told(lines, runs, stops, s, src, demoted),
    ensures
        is_told(lines, runs, stops, reader::all_closed(s), everything_closed(s, src), demoted),
{
    let p = reader::flushed_paragraph(s);
    lemma_paragraph_closed(lines, runs, stops, s, src, demoted);
    lemma_code_closed(lines, runs, stops, p, paragraph_closed(s, src), demoted);
}

/// The sources after the interruptions down to a height.
spec fn interrupted_src(
    s: ReaderView,
    src: Sources,
    stops: Seq<InterruptionView>,
    limit: Option<int>,
) -> Sources
    decreases stops.len() - s.next,
{
    if 0 <= s.next < stops.len() && (limit is None || stops[s.next].y <= limit->0) {
        let b = everything_closed(s, src);
        let c = Sources { blocks: b.blocks.push(seq![]), ..b };
        let t = reader::with_block(reader::all_closed(s), stops[s.next].block);
        interrupted_src(ReaderView { next: s.next + 1, ..t }, c, stops, limit)
    } else {
        src
    }
}

proof fn lemma_interrupted(
    lines: Seq<ProjectedLine>,
    runs: Seq<RunView>,
    stops: Seq<InterruptionView>,
    s: ReaderView,
    src: Sources,
    demoted: bool,
    limit: Option<int>,
)
    requires
        is_told(lines, runs, stops, s, src, demoted),
    ensures
        is_told(
            lines,
            runs,
            stops,
            reader::interrupted(s, stops, limit),
            interrupted_src(s, src, stops, limit),
            demoted,
        ),
    decreases stops.len() - s.next,
{
    if 0 <= s.next < stops.len() && (limit is None || stops[s.next].y <= limit->0) {
        let b = everything_closed(s, src);
        lemma_everything_closed(lines, runs, stops, s, src, demoted);
        let z = reader::all_closed(s);
        lemma_block_told(lines, runs, stops, z, b, demoted, stops[s.next].block, seq![]);
        let c = Sources { blocks: b.blocks.push(seq![]), ..b };
        let t = reader::with_block(z, stops[s.next].block);
        let u = ReaderView { next: s.next + 1, ..t };
        assert(is_told(lines, runs, stops, u, c, demoted));
        lemma_interrupted(lines, runs, stops, u, c, demoted, limit);
    }
}

// ---------------------------------------------------------------------------
// One line
// ---------------------------------------------------------------------------

/// The sources after a heading of line `i`.
spec fn heading_src(s: ReaderView, src: Sources, i: int) -> Sources {
    let a = paragraph_closed(s, src);
    Sources { blocks: a.blocks.push(seq![i]), ..a }
}

proof fn lemma_heading(
    lines: Seq<ProjectedLine>,
    runs: Seq<RunView>,
    stops: Seq<InterruptionView>,
    s: ReaderView,
    src: Sources,
    demoted: bool,
    i: int,
    level: u8,
)
    requires
        is_told(lines, runs, stops, s, src, demoted),
        0 <= i < lines.len(),
        !text::is_blank(lines[i].text@),
    ensures
        is_told(
            lines,
            runs,
            stops,
            reader::with_heading(s, level, text::trim_of(lines[i].text@)),
            heading_src(s, src, i),
            demoted,
        ),
{
    lemma_paragraph_closed(lines, runs, stops, s, src, demoted);
    let z = reader::list_ended(reader::flushed_paragraph(s));
    let a = paragraph_closed(s, src);
    assert(is_told(lines, runs, stops, z, a, demoted));
    let t = plain_part(lines, i);
    lemma_one_part(t);
    lemma_collapsed_blank(lines[i].text@);
    assert(plain_parts(lines, seq![i]) =~= seq![t]);
    let b = BlockView::Heading { level, text: t };
    assert(is_made_of(lines, b, seq![i], demoted));
    lemma_block_told(lines, runs, stops, z, a, demoted, b, seq![i]);
}

/// The sources after line `i` of code.
spec fn code_src(s: ReaderView, src: Sources, i: int) -> Sources {
    let a = paragraph_closed(s, src);
    Sources { code: a.code.push(i), ..a }
}

proof fn lemma_code_line(
    lines: Seq<ProjectedLine>,
    runs: Seq<RunView>,
    stops: Seq<InterruptionView>,
    s: ReaderView,
    src: Sources,
    demoted: bool,
    i: int,
)
    requires
        is_told(lines, runs, stops, s, src, demoted),
        0 <= i < lines.len(),
    ensures
        is_told(
            lines,
            runs,
            stops,
            reader::with_code_line(s, lines[i]),
            code_src(s, src, i),
            demoted,
        ),
{
    lemma_paragraph_closed(lines, runs, stops, s, src, demoted);
    let before = match s.code {
        Some(code) => code,
        None => seq![],
    };
    let code = before.push(text::trim_end_of(lines[i].text@));
    let of = src.code.push(i);
    assert forall|k: int| 0 <= k < of.len() implies #[trigger] code[k] == text::trim_end_of(
        lines[of[k]].text@,
    ) by {
        if k < src.code.len() {
            assert(code[k] == before[k]);
        }
    }
}

/// The sources after line `i`, a list item.
spec fn item_src(s: ReaderView, src: Sources, i: int) -> Sources {
    let a = paragraph_closed(s, src);
    Sources { blocks: a.blocks.push(seq![i]), ..a }
}

proof fn lemma_item(
    lines: Seq<ProjectedLine>,
    runs: Seq<RunView>,
    stops: Seq<InterruptionView>,
    s: ReaderView,
    src: Sources,
    demoted: bool,
    i: int,
)
    requires
        is_told(lines, runs, stops, s, src, demoted),
        0 <= i < lines.len(),
        !text::is_blank(lines[i].text@),
        lists::list_marker(text::trim_of(lines[i].text@)) is Some,
    ensures
        is_told(
            lines,
            runs,
            stops,
            reader::with_item(
                s,
                lines,
                i,
                lists::list_marker(text::trim_of(lines[i].text@))->0,
            ),
            item_src(s, src, i),
            demoted,
        ),
{
    let m = lists::list_marker(text::trim_of(lines[i].text@))->0;
    let u = reader::with_item(s, lines, i, m);
    lemma_paragraph_closed(lines, runs, stops, s, src, demoted);
    let z = reader::flushed_paragraph(s);
    let a = paragraph_closed(s, src);
    let b = u.blocks.last();
    let t = span_text::list_item_text(lines[i], m.marker, m.rest);
    lemma_one_part(t);
    assert(styled_parts(lines, seq![i], 0).update(0, t) =~= seq![t]);
    assert(is_item_of(lines, seq![i], m.ordered, m.marker, t));
    assert(is_made_of(lines, b, seq![i], demoted));
    lemma_block_told(lines, runs, stops, z, a, demoted, b, seq![i]);
}

/// The sources after line `i`, which continues the last list item.
spec fn item_line_src(s: ReaderView, src: Sources, i: int) -> Sources {
    let k = s.last_item->0;
    Sources { blocks: src.blocks.update(k, src.blocks[k].push(i)), ..src }
}

proof fn lemma_item_continued(lines: Seq<ProjectedLine>, b: BlockView, of: Seq<int>, i: int)
    requires
        b is ListItem,
        is_made_of(lines, b, of, false),
        0 <= i < lines.len(),
        !text::is_blank(lines[i].text@),
    ensures
        is_made_of(lines, reader::item_continued(b, lines[i]), of.push(i), false),
{
    match b {
        BlockView::ListItem { ordered, marker, level, text, bold, italic } => {
            let m = lists::list_marker(text::trim_of(lines[of[0]].text@))->0;
            let first = span_text::list_item_text(lines[of[0]], m.marker, m.rest);
            let parts = styled_parts(lines, of, 0).update(0, first);
            let at = choose|at: Seq<(int, int)>| #[trigger] is_laid_out(text, parts, at);
            let raw = text::trim_of(lines[i].text@);
            let x = span_text::inline_text(lines[i]);
            let more = of.push(i);
            lemma_collapsed_blank(lines[i].text@);
            lemma_inline_not_empty(lines[i]);
            let u = span_text::continued(text, raw, x);
            assert(styled_parts(lines, more, 0).update(0, first) =~= parts.push(x));
            assert(more[0] == of[0]);
            if text.len() == 0 {
                let z = lemma_part_behind_nothing(text, parts, at, x);
                assert(u =~= text + x);
                assert(is_laid_out(u, parts.push(x), z));
            } else if span_text::mends_hyphen(text, text::collapse_of(raw)) {
                if parts.last().len() == 0 {
                    if of.len() == 1 {
                        assert(at[0] == at.last());
                    } else {
                        assert(parts.last() == span_text::inline_text(lines[of.last()]));
                        lemma_inline_not_empty(lines[of[of.len() - 1]]);
                    }
                }
                let z = lemma_part_mended(text, parts, at, x);
                assert(is_laid_out(u, parts.push(x), z));
            } else {
                let z = lemma_part_behind_space(text, parts, at, x);
                assert(is_laid_out(u, parts.push(x), z));
            }
            assert(joins(u, parts.push(x)));
            assert forall|k: int| 0 <= k < more.len() implies !text::is_blank(
                lines[#[trigger] more[k]].text@,
            ) by {
                if k < of.len() {
                    assert(more[k] == of[k]);
                }
            }
            assert(is_item_of(lines, more, ordered, marker, u));
        },
        _ => {},
    }
}

/// The parts of an empty text with one more.
proof fn lemma_part_behind_nothing(
    t: Seq<char>,
    parts: Seq<Seq<char>>,
    at: Seq<(int, int)>,
    x: Seq<char>,
) -> (more: Seq<(int, int)>)
    requires
        is_laid_out(t, parts, at),
        t.len() == 0,
    ensures
        is_laid_out(t + x, parts.push(x), more),
{
    let u = t + x;
    let more = at.push((0int, u.len() as int));
    assert forall|k: int| 0 <= k < more.len() implies {
        let m = (#[trigger] more[k]).1 - more[k].0;
        &&& 0 <= more[k].0 <= more[k].1 <= u.len()
        &&& m <= parts.push(x)[k].len()
        &&& u.subrange(more[k].0, more[k].1) == parts.push(x)[k].take(m)
        &&& forall|i: int| m <= i < parts.push(x)[k].len() ==> #[trigger] parts.push(x)[k][i] == '-'
    } by {
        if k < at.len() {
            assert(more[k] == at[k]);
            assert(u.subrange(at[k].0, at[k].1) =~= t.subrange(at[k].0, at[k].1));
        } else {
            assert(u.subrange(0, u.len() as int) =~= x.take(x.len() as int));
        }
    }
    assert forall|k: int| 0 <= k < more.len() - 1 implies more[k + 1].0 == (
    #[trigger] more[k]).1 by {
        assert(more[k] == at[k]);
        if k + 1 < at.len() {
            assert(more[k + 1] == at[k + 1]);
        }
    }
    more
}

proof fn lemma_item_line(
    lines: Seq<ProjectedLine>,
    runs: Seq<RunView>,
    stops: Seq<InterruptionView>,
    s: ReaderView,
    src: Sources,
    demoted: bool,
    i: int,
)
    requires
        is_told(lines, runs, stops, s, src, demoted),
        0 <= i < lines.len(),
        !text::is_blank(lines[i].text@),
        reader::continues_item(s, lines, i),
        is_made_of(lines, s.blocks[s.last_item->0], src.blocks[s.last_item->0], demoted),
    ensures
        is_told(
            lines,
            runs,
            stops,
            reader::with_item_line(s, lines, i),
            item_line_src(s, src, i),
            demoted,
        ),
        is_made_of(
            lines,
            reader::with_item_line(s, lines, i).blocks[s.last_item->0],
            item_line_src(s, src, i).blocks[s.last_item->0],
            demoted,
        ),
        reader::with_item_line(s, lines, i).blocks[s.last_item->0] is ListItem,
{
    let k = s.last_item->0;
    let u = reader::with_item_line(s, lines, i);
    let z = item_line_src(s, src, i);
    lemma_item_continued(lines, s.blocks[k], src.blocks[k], i);
    assert forall|j: int| 0 <= j < u.blocks.len() implies is_from(
        lines,
        runs,
        stops,
        #[trigger] u.blocks[j],
        z.blocks[j],
        demoted,
    ) by {
        if j != k {
            assert(u.blocks[j] == s.blocks[j]);
        }
    }
}

/// The sources after line `i` of running text.
spec fn text_src(s: ReaderView, lines: Seq<ProjectedLine>, src: Sources, i: int) -> Sources {
    if s.paragraph is Some && paragraphs::continues(lines[s.paragraph->0.last], lines[i]) {
        Sources { paragraph: src.paragraph.push(i), ..src }
    } else {
        Sources { paragraph: seq![i], m: 0, ..paragraph_closed(s, src) }
    }
}

proof fn lemma_text_line(
    lines: Seq<ProjectedLine>,
    runs: Seq<RunView>,
    stops: Seq<InterruptionView>,
    s: ReaderView,
    src: Sources,
    demoted: bool,
    i: int,
)
    requires
        is_told(lines, runs, stops, s, src, demoted),
        0 <= i < lines.len(),
        !text::is_blank(lines[i].text@),
    ensures
        is_told(
            lines,
            runs,
            stops,
            reader::with_text_line(s, lines, i),
            text_src(s, lines, src, i),
            demoted,
        ),
{
    if s.paragraph is Some && paragraphs::continues(lines[s.paragraph->0.last], lines[i]) {
        lemma_passage_extended(lines, src.paragraph, src.m, s.paragraph->0, i);
    } else {
        lemma_paragraph_closed(lines, runs, stops, s, src, demoted);
        lemma_passage_begun(lines, i);
    }
}

// ---------------------------------------------------------------------------
// All lines of a page
// ---------------------------------------------------------------------------

/// Lists one behind the other.
pub open spec fn concat(v: Seq<Seq<int>>) -> Seq<int>
    decreases v.len(),
{
    if v.len() == 0 {
        seq![]
    } else {
        concat(v.drop_last()) + v.last()
    }
}

/// Whether numbers are in ascending order, and none is there twice.
pub open spec fn ascends(v: Seq<int>) -> bool {
    forall|i: int, j: int| 0 <= i < j < v.len() ==> #[trigger] v[i] < #[trigger] v[j]
}

/// Whether a line is read: it is neither blank nor rotated.
pub open spec fn is_read(line: ProjectedLine) -> bool {
    !text::is_blank(line.text@) && !font_sizes::is_rotated(line)
}

/// Whether a line belongs to one of the tables.
pub open spec fn in_table(runs: Seq<RunView>, i: int) -> bool {
    exists|k: int| 0 <= k < runs.len() && (#[trigger] runs[k]).start <= i < runs[k].end
}

/// Whether the lines are in ascending order, and are all of the first `n` that are read and
/// belong to no table.
pub open spec fn are_all_lines(
    lines: Seq<ProjectedLine>,
    runs: Seq<RunView>,
    n: int,
    v: Seq<int>,
) -> bool {
    &&& ascends(v)
    &&& forall|k: int| 0 <= k < v.len() ==> 0 <= #[trigger] v[k] < n
    &&& forall|i: int|
        0 <= i < n && is_read(#[trigger] lines[i]) ==> v.contains(i) || in_table(runs, i)
}

/// All lines that were read, in the order of what they were read into.
spec fn all_lines(src: Sources) -> Seq<int> {
    concat(src.blocks) + src.code + src.paragraph
}

proof fn lemma_concat_pushed(v: Seq<Seq<int>>, x: Seq<int>)
    ensures
        concat(v.push(x)) == concat(v) + x,
{
    assert(v.push(x).drop_last() =~= v);
}

/// What holds of what is open: paragraph and code are not open at once, and the list item
/// that may be continued is the last block.
spec fn is_tidy(lines: Seq<ProjectedLine>, s: ReaderView, src: Sources) -> bool {
    &&& s.paragraph is None || s.code is None
    &&& s.last_item is Some ==> s.last_item->0 == s.blocks.len() - 1 && s.paragraph is None
        && s.code is None && s.blocks.len() > 0 && s.blocks.last() is ListItem && is_made_of(
        lines,
        s.blocks.last(),
        src.blocks.last(),
        false,
    )
}

/// What holds when the first `n` lines of a page are read.
spec fn is_page_told(
    lines: Seq<ProjectedLine>,
    runs: Seq<RunView>,
    stops: Seq<InterruptionView>,
    s: ReaderView,
    src: Sources,
    n: int,
) -> bool {
    &&& is_told(lines, runs, stops, s, src, false)
    &&& is_tidy(lines, s, src)
    &&& are_all_lines(lines, runs, n, all_lines(src))
}

proof fn lemma_paragraph_closed_flat(
    lines: Seq<ProjectedLine>,
    runs: Seq<RunView>,
    stops: Seq<InterruptionView>,
    s: ReaderView,
    src: Sources,
)
    requires
        is_told(lines, runs, stops, s, src, false),
        is_tidy(lines, s, src),
    ensures
        all_lines(paragraph_closed(s, src)) == all_lines(src),
{
    if s.paragraph is Some {
        lemma_concat_pushed(src.blocks, src.paragraph);
        assert(all_lines(paragraph_closed(s, src)) =~= all_lines(src));
    }
}

proof fn lemma_code_closed_flat(
    lines: Seq<ProjectedLine>,
    runs: Seq<RunView>,
    stops: Seq<InterruptionView>,
    s: ReaderView,
    src: Sources,
)
    requires
        is_told(lines, runs, stops, s, src, false),
        is_tidy(lines, s, src),
    ensures
        all_lines(code_closed(s, src)) == all_lines(src),
        is_tidy(lines, reader::flushed_code(s), code_closed(s, src)),
{
    if s.code is Some {
        lemma_concat_pushed(src.blocks, src.code);
        assert(all_lines(code_closed(s, src)) =~= all_lines(src));
    }
}

proof fn lemma_everything_closed_flat(
    lines: Seq<ProjectedLine>,
    runs: Seq<RunView>,
    stops: Seq<InterruptionView>,
    s: ReaderView,
    src: Sources,
    n: int,
)
    requires
        is_page_told(lines, runs, stops, s, src, n),
    ensures
        is_page_told(
            lines,
            runs,
            stops,
            reader::all_closed(s),
            everything_closed(s, src),
            n,
        ),
{
    lemma_paragraph_closed(lines, runs, stops, s, src, false);
    lemma_everything_closed(lines, runs, stops, s, src, false);
    lemma_paragraph_closed_flat(lines, runs, stops, s, src);
    let p = reader::flushed_paragraph(s);
    let a = paragraph_closed(s, src);
    if s.paragraph is Some {
        assert(s.code is None && p.code is None);
    } else {
        assert(p == s && a == src);
        lemma_code_closed_flat(lines, runs, stops, s, src);
    }
}

proof fn lemma_mark_flat(
    lines: Seq<ProjectedLine>,
    runs: Seq<RunView>,
    stops: Seq<InterruptionView>,
    s: ReaderView,
    src: Sources,
    n: int,
    b: BlockView,
)
    requires
        is_page_told(lines, runs, stops, s, src, n),
        is_from(lines, runs, stops, b, seq![], false),
        s.last_item is None,
    ensures
        is_page_told(
            lines,
            runs,
            stops,
            reader::with_block(s, b),
            Sources { blocks: src.blocks.push(seq![]), ..src },
            n,
        ),
{
    lemma_block_told(lines, runs, stops, s, src, false, b, seq![]);
    lemma_concat_pushed(src.blocks, seq![]);
    let z = Sources { blocks: src.blocks.push(seq![]), ..src };
    assert(all_lines(z) =~= all_lines(src));
}

proof fn lemma_interrupted_flat(
    lines: Seq<ProjectedLine>,
    runs: Seq<RunView>,
    stops: Seq<InterruptionView>,
    s: ReaderView,
    src: Sources,
    n: int,
    limit: Option<int>,
)
    requires
        is_page_told(lines, runs, stops, s, src, n),
    ensures
        is_page_told(
            lines,
            runs,
            stops,
            reader::interrupted(s, stops, limit),
            interrupted_src(s, src, stops, limit),
            n,
        ),
    decreases stops.len() - s.next,
{
    if 0 <= s.next < stops.len() && (limit is None || stops[s.next].y <= limit->0) {
        let b = everything_closed(s, src);
        lemma_everything_closed_flat(lines, runs, stops, s, src, n);
        let z = reader::all_closed(s);
        lemma_mark_flat(lines, runs, stops, z, b, n, stops[s.next].block);
        let c = Sources { blocks: b.blocks.push(seq![]), ..b };
        let t = reader::with_block(z, stops[s.next].block);
        let u = ReaderView { next: s.next + 1, ..t };
        assert(is_page_told(lines, runs, stops, u, c, n));
        lemma_interrupted_flat(lines, runs, stops, u, c, n, limit);
    }
}

/// One more line behind all others.
proof fn lemma_line_added(
    lines: Seq<ProjectedLine>,
    runs: Seq<RunView>,
    n: int,
    v: Seq<int>,
    w: Seq<int>,
)
    requires
        0 <= n < lines.len(),
        are_all_lines(lines, runs, n, v),
        w == v.push(n),
    ensures
        are_all_lines(lines, runs, n + 1, w),
{
    assert forall|i: int, j: int| 0 <= i < j < w.len() implies #[trigger] w[i] < #[trigger] w[j] by {
        assert(w[i] == v[i]);
        if j < v.len() {
            assert(w[j] == v[j]);
        }
    }
    assert forall|i: int| 0 <= i < n + 1 && is_read(#[trigger] lines[i]) implies w.contains(i)
        || in_table(runs, i) by {
        if i < n {
            if v.contains(i) {
                let k = choose|k: int| 0 <= k < v.len() && v[k] == i;
                assert(w[k] == i);
            }
        } else {
            assert(w[v.len() as int] == n);
        }
    }
}

/// The sources after line `i` of a page.
proof fn lemma_page_line(
    lines: Seq<ProjectedLine>,
    runs: Seq<RunView>,
    stops: Seq<InterruptionView>,
    s: ReaderView,
    src: Sources,
    i: int,
    map: Seq<(i32, u8)>,
) -> (z: Sources)
    requires
        is_page_told(lines, runs, stops, s, src, i),
        0 <= i < lines.len(),
    ensures
        is_page_told(
            lines,
            runs,
            stops,
            page_classify::read_line(s, lines, i, map),
            z,
            i + 1,
        ),
{
    let line = lines[i];
    let t = text::trim_of(line.text@);
    if t.len() == 0 || font_sizes::is_rotated(line) {
        assert(!is_read(lines[i]));
        src
    } else if line.all_mono {
        let z = code_src(s, src, i);
        lemma_code_line(lines, runs, stops, s, src, false, i);
        lemma_paragraph_closed_flat(lines, runs, stops, s, src);
        let a = paragraph_closed(s, src);
        assert(all_lines(z) =~= all_lines(a).push(i));
        lemma_line_added(lines, runs, i, all_lines(src), all_lines(z));
        z
    } else {
        let u = reader::flushed_code(s);
        let b = code_closed(s, src);
        lemma_code_closed(lines, runs, stops, s, src, false);
        lemma_code_closed_flat(lines, runs, stops, s, src);
        assert(is_page_told(lines, runs, stops, u, b, i));
        lemma_paragraph_closed_flat(lines, runs, stops, u, b);
        let a = paragraph_closed(u, b);
        lemma_concat_pushed(a.blocks, seq![i]);
        let more = Sources { blocks: a.blocks.push(seq![i]), ..a };
        assert(all_lines(more) =~= all_lines(a).push(i));
        lemma_line_added(lines, runs, i, all_lines(src), all_lines(more));
        let r = page_classify::read_line(s, lines, i, map);
        match font_sizes::level_from(line.dominant_font_size as int, map, 0) {
            Some(level) => {
                lemma_heading(lines, runs, stops, u, b, false, i, level);
                assert(heading_src(u, b, i) == more);
                more
            },
            None => match lists::list_marker(t) {
                Some(m) => {
                    lemma_item(lines, runs, stops, u, b, false, i);
                    assert(item_src(u, b, i) == more);
                    assert(r.blocks.last() is ListItem);
                    assert(is_from(
                        lines,
                        runs,
                        stops,
                        r.blocks[r.blocks.len() - 1],
                        more.blocks[r.blocks.len() - 1],
                        false,
                    ));
                    assert(is_made_of(lines, r.blocks.last(), more.blocks.last(), false));
                    more
                },
                None => if reader::continues_item(u, lines, i) {
                    lemma_item_line(lines, runs, stops, u, b, false, i);
                    let z = item_line_src(u, b, i);
                    let k = u.last_item->0;
                    assert(z.blocks =~= b.blocks.drop_last().push(b.blocks.last().push(i)));
                    lemma_concat_pushed(b.blocks.drop_last(), b.blocks.last().push(i));
                    assert(all_lines(z) =~= all_lines(b).push(i));
                    lemma_line_added(lines, runs, i, all_lines(src), all_lines(z));
                    assert(r.blocks.last() == r.blocks[k]);
                    assert(z.blocks.last() == z.blocks[k]);
                    z
                } else if crate::page_headings::is_bold_heading(
                    line,
                    reader::line_before(u, lines),
                    reader::line_behind(lines, i),
                ) {
                    lemma_heading(
                        lines,
                        runs,
                        stops,
                        u,
                        b,
                        false,
                        i,
                        font_sizes::next_level(map.len() as int),
                    );
                    assert(heading_src(u, b, i) == more);
                    more
                } else {
                    lemma_text_line(lines, runs, stops, u, b, false, i);
                    let z = text_src(u, lines, b, i);
                    if u.paragraph is Some && paragraphs::continues(
                        lines[u.paragraph->0.last],
                        lines[i],
                    ) {
                        assert(all_lines(z) =~= all_lines(b).push(i));
                    } else {
                        assert(all_lines(z) =~= all_lines(a).push(i));
                    }
                    lemma_line_added(lines, runs, i, all_lines(src), all_lines(z));
                    z
                },
            },
        }
    }
}

proof fn lemma_page_from(
    lines: Seq<ProjectedLine>,
    map: Seq<(i32, u8)>,
    runs: Seq<RunView>,
    stops: Seq<InterruptionView>,
    s: ReaderView,
    src: Sources,
    k: int,
    i: int,
) -> (z: Sources)
    requires
        is_page_told(lines, runs, stops, s, src, i),
        0 <= i <= lines.len(),
    ensures
        is_page_told(
            lines,
            runs,
            stops,
            page_classify::read_from(lines, map, runs, stops, s, k, i),
            z,
            lines.len() as int,
        ),
    decreases lines.len() - i,
{
    if i >= lines.len() {
        src
    } else if 0 <= k < runs.len() && runs[k].start == i && i < runs[k].end <= lines.len() {
        let y = lines[i].bbox.y as int;
        let t = reader::interrupted(s, stops, Some(y));
        let a = interrupted_src(s, src, stops, Some(y));
        lemma_interrupted_flat(lines, runs, stops, s, src, i, Some(y));
        lemma_everything_closed_flat(lines, runs, stops, t, a, i);
        let q = reader::all_closed(t);
        let b = everything_closed(t, a);
        lemma_mark_flat(lines, runs, stops, q, b, i, runs[k].block);
        let c = Sources { blocks: b.blocks.push(seq![]), ..b };
        let u = reader::with_table(s, lines, runs[k], stops);
        let e = runs[k].end;
        assert forall|j: int| 0 <= j < e && is_read(#[trigger] lines[j]) implies all_lines(
            c,
        ).contains(j) || in_table(runs, j) by {
            if j >= i {
                assert(runs[k].start <= j < runs[k].end);
            }
        }
        assert(is_page_told(lines, runs, stops, u, c, e));
        lemma_page_from(lines, map, runs, stops, u, c, k + 1, e)
    } else {
        let y = lines[i].bbox.y as int;
        let u = reader::interrupted(s, stops, Some(y));
        let a = interrupted_src(s, src, stops, Some(y));
        lemma_interrupted_flat(lines, runs, stops, s, src, i, Some(y));
        let b = lemma_page_line(lines, runs, stops, u, a, i, map);
        lemma_page_from(
            lines,
            map,
            runs,
            stops,
            page_classify::read_line(u, lines, i, map),
            b,
            k,
            i + 1,
        )
    }
}

/// Whether the lists tell which lines each block is made of.
pub open spec fn are_from(
    lines: Seq<ProjectedLine>,
    runs: Seq<RunView>,
    stops: Seq<InterruptionView>,
    blocks: Seq<BlockView>,
    of: Seq<Seq<int>>,
    demoted: bool,
) -> bool {
    &&& of.len() == blocks.len()
    &&& forall|k: int|
        0 <= k < blocks.len() ==> is_from(
            lines,
            runs,
            stops,
            #[trigger] blocks[k],
            of[k],
            demoted,
        )
}

/// Every line of a page that is neither blank nor rotated, and belongs to no table, is read
/// into one block, in the order of the page, and no line into two. A paragraph is set in an
/// emphasis only where all its lines are set in it; else its text is that of all its lines
/// with their own emphasis.
pub proof fn law_every_line_is_read(
    lines: Seq<ProjectedLine>,
    map: Seq<(i32, u8)>,
    runs: Seq<RunView>,
    stops: Seq<InterruptionView>,
)
    ensures
        ({
            let blocks = reader::finished(
                page_classify::read_from(lines, map, runs, stops, reader::fresh(), 0, 0),
                stops,
            );
            exists|of: Seq<Seq<int>>| #[trigger]
                are_from(lines, runs, stops, blocks, of, false) && are_all_lines(
                    lines,
                    runs,
                    lines.len() as int,
                    concat(of),
                )
        }),
{
    let s = reader::fresh();
    let src = Sources { blocks: seq![], code: seq![], paragraph: seq![], m: 0 };
    assert(all_lines(src) =~= seq![]);
    let n = lines.len() as int;
    let r = page_classify::read_from(lines, map, runs, stops, s, 0, 0);
    let z = lemma_page_from(lines, map, runs, stops, s, src, 0, 0);
    let closed = reader::flushed_code(reader::flushed_paragraph(r));
    let a = everything_closed(r, z);
    lemma_everything_closed_flat(lines, runs, stops, r, z, n);
    // The list that may be open makes no difference to what follows.
    let q = reader::list_ended(closed);
    lemma_interrupted_flat(lines, runs, stops, q, a, n, None);
    lemma_interrupted_same_blocks(closed, q, stops);
    let e = interrupted_src(q, a, stops, None);
    let f = reader::interrupted(q, stops, None);
    lemma_nothing_open(q, stops);
    assert(all_lines(e) =~= concat(e.blocks));
    let blocks = reader::finished(r, stops);
    assert(blocks == f.blocks);
    assert(are_from(lines, runs, stops, blocks, e.blocks, false));
    assert(are_all_lines(lines, runs, n, concat(e.blocks)));
}

/// The blocks after all interruptions do not depend on the list that is open.
proof fn lemma_interrupted_same_blocks(
    s: ReaderView,
    t: ReaderView,
    stops: Seq<InterruptionView>,
)
    requires
        t == reader::list_ended(s),
    ensures
        reader::interrupted(s, stops, None).blocks == reader::interrupted(t, stops, None).blocks,
{
    if 0 <= s.next < stops.len() {
        assert(reader::all_closed(s) =~= reader::all_closed(t));
    }
}

/// Where nothing is open, nothing is open after the interruptions.
proof fn lemma_nothing_open(s: ReaderView, stops: Seq<InterruptionView>)
    requires
        s.paragraph is None,
        s.code is None,
    ensures
        reader::interrupted(s, stops, None).paragraph is None,
        reader::interrupted(s, stops, None).code is None,
    decreases stops.len() - s.next,
{
    if 0 <= s.next < stops.len() {
        let t = reader::with_block(reader::all_closed(s), stops[s.next].block);
        lemma_nothing_open(ReaderView { next: s.next + 1, ..t }, stops);
    }
}

/// So is every line of a page without its running headers and footers.
pub proof fn law_every_line_of_a_page_is_read(
    page: ParsedPage,
    map: Seq<(i32, u8)>,
    header_footer: Set<Seq<char>>,
)
    ensures
        ({
            let lines = page_classify::kept_lines(page, header_footer);
            let runs = page_classify::tables_of(page, lines);
            let all = page_classify::rule_stops(crate::hr::rules(page));
            let stops = reader::outside_tables(all, lines, runs, all.len() as int);
            let blocks = page_classify::page_blocks(page, map, header_footer);
            exists|of: Seq<Seq<int>>| #[trigger]
                are_from(lines, runs, stops, blocks, of, false) && are_all_lines(
                    lines,
                    runs,
                    lines.len() as int,
                    concat(of),
                )
        }),
{
    let lines = page_classify::kept_lines(page, header_footer);
    let runs = page_classify::tables_of(page, lines);
    let all = page_classify::rule_stops(crate::hr::rules(page));
    let stops = reader::outside_tables(all, lines, runs, all.len() as int);
    law_every_line_is_read(lines, map, runs, stops);
    let n = lines.len() as int;
    let blocks = reader::finished(
        page_classify::read_from(lines, map, runs, stops, reader::fresh(), 0, 0),
        stops,
    );
    let of = choose|of: Seq<Seq<int>>| #[trigger]
        are_from(lines, runs, stops, blocks, of, false) && are_all_lines(
            lines,
            runs,
            n,
            concat(of),
        );
    assert(blocks == page_classify::page_blocks(page, map, header_footer));
    assert(are_from(
        lines,
        runs,
        stops,
        page_classify::page_blocks(page, map, header_footer),
        of,
        false,
    ));
}

// ---------------------------------------------------------------------------
// The lines of a region
// ---------------------------------------------------------------------------

/// Whether a line stands between two lines of one heading.
pub open spec fn is_inside_heading(lines: Seq<ProjectedLine>, i: int) -> bool {
    exists|h: int, j: int|
        0 <= h < i < j < lines.len() && #[trigger] paragraphs::heading_continues(
            lines[h],
            lines[j],
        )
}

/// Whether a line was read into a block.
pub open spec fn is_in_some(of: Seq<Seq<int>>, i: int) -> bool {
    exists|k: int| 0 <= k < of.len() && (#[trigger] of[k]).contains(i)
}

/// Whether a line is told: it was read into something, belongs to a table, or stands inside
/// of a heading.
spec fn is_accounted(
    lines: Seq<ProjectedLine>,
    runs: Seq<RunView>,
    src: Sources,
    i: int,
) -> bool {
    is_in_some(src.blocks, i) || src.code.contains(i) || src.paragraph.contains(i) || in_table(
        runs,
        i,
    ) || is_inside_heading(lines, i)
}

/// Whether the tables are tables, and the rules and figures are no text.
pub open spec fn are_tables_and_marks(
    runs: Seq<RunView>,
    stops: Seq<InterruptionView>,
) -> bool {
    &&& forall|k: int|
        0 <= k < runs.len() ==> (#[trigger] runs[k]).block is Table || runs[k].block
            is GridFallback
    &&& forall|k: int|
        0 <= k < stops.len() ==> (#[trigger] stops[k]).block is HorizontalRule || stops[k].block
            is Figure
}

/// What holds when the first `n` lines of a region are read.
spec fn is_region_told(
    lines: Seq<ProjectedLine>,
    runs: Seq<RunView>,
    stops: Seq<InterruptionView>,
    s: RegionView,
    src: Sources,
    n: int,
) -> bool {
    &&& is_told(lines, runs, stops, s.reader, src, true)
    &&& s.heading_run is Some ==> 0 <= (s.heading_run->0).1 < n && forall|k: int|
        0 <= k < src.paragraph.len() ==> (s.heading_run->0).1 < #[trigger] src.paragraph[k]
            || is_inside_heading(lines, src.paragraph[k])
    &&& forall|k: int| 0 <= k < src.paragraph.len() ==> #[trigger] src.paragraph[k] < n
    &&& forall|k: int| 0 <= k < src.code.len() ==> #[trigger] src.code[k] < n
    &&& forall|i: int|
        0 <= i < n && is_read(#[trigger] lines[i]) ==> is_accounted(lines, runs, src, i)
    &&& forall|k: int, l: int|
        0 <= k < src.blocks.len() && 0 <= l < src.blocks[k].len() ==> (#[trigger] src.blocks[k][l])
            < n
}

proof fn lemma_in_more(of: Seq<Seq<int>>, x: Seq<int>)
    ensures
        forall|i: int| #[trigger]
            is_in_some(of, i) || x.contains(i) ==> is_in_some(of.push(x), i),
{
    assert forall|i: int| #[trigger] is_in_some(of, i) || x.contains(i) implies is_in_some(
        of.push(x),
        i,
    ) by {
        if is_in_some(of, i) {
            let k = choose|k: int| 0 <= k < of.len() && (#[trigger] of[k]).contains(i);
            assert(of.push(x)[k].contains(i));
        } else {
            assert(of.push(x)[of.len() as int].contains(i));
        }
    }
}

/// Closing the open paragraph or the open code loses no line.
proof fn lemma_closed_accounted(
    lines: Seq<ProjectedLine>,
    runs: Seq<RunView>,
    stops: Seq<InterruptionView>,
    s: ReaderView,
    src: Sources,
)
    requires
        is_told(lines, runs, stops, s, src, true),
    ensures
        forall|i: int| #[trigger]
            is_accounted(lines, runs, src, i) ==> is_accounted(
                lines,
                runs,
                paragraph_closed(s, src),
                i,
            ),
        forall|i: int| #[trigger]
            is_accounted(lines, runs, src, i) ==> is_accounted(
                lines,
                runs,
                code_closed(s, src),
                i,
            ),
{
    lemma_in_more(src.blocks, src.paragraph);
    lemma_in_more(src.blocks, src.code);
    assert forall|i: int| #[trigger] is_accounted(lines, runs, src, i) implies is_accounted(
        lines,
        runs,
        paragraph_closed(s, src),
        i,
    ) by {
        assert(is_in_some(src.blocks, i) || !is_in_some(src.blocks, i));
    }
    assert forall|i: int| #[trigger] is_accounted(lines, runs, src, i) implies is_accounted(
        lines,
        runs,
        code_closed(s, src),
        i,
    ) by {
        assert(is_in_some(src.blocks, i) || !is_in_some(src.blocks, i));
    }
}

proof fn lemma_region_paragraph_closed(
    lines: Seq<ProjectedLine>,
    runs: Seq<RunView>,
    stops: Seq<InterruptionView>,
    s: RegionView,
    src: Sources,
    n: int,
)
    requires
        is_region_told(lines, runs, stops, s, src, n),
    ensures
        is_region_told(
            lines,
            runs,
            stops,
            RegionView { reader: reader::flushed_paragraph(s.reader), ..s },
            paragraph_closed(s.reader, src),
            n,
        ),
{
    lemma_paragraph_closed(lines, runs, stops, s.reader, src, true);
    lemma_closed_accounted(lines, runs, stops, s.reader, src);
    lemma_bounded(src.blocks, src.paragraph, n);
}

/// A list of lines below `n` behind others.
proof fn lemma_bounded(of: Seq<Seq<int>>, x: Seq<int>, n: int)
    requires
        forall|k: int, l: int| 0 <= k < of.len() && 0 <= l < of[k].len() ==> (#[trigger] of[k][l]) < n,
        forall|k: int| 0 <= k < x.len() ==> #[trigger] x[k] < n,
    ensures
        forall|k: int, l: int|
            0 <= k < of.push(x).len() && 0 <= l < of.push(x)[k].len() ==> (#[trigger] of.push(
                x,
            )[k][l]) < n,
{
    assert forall|k: int, l: int| 0 <= k < of.push(x).len() && 0 <= l < of.push(x)[k].len() implies (
    #[trigger] of.push(x)[k][l]) < n by {
        if k < of.len() {
            assert(of.push(x)[k] == of[k]);
        }
    }
}

proof fn lemma_region_code_closed(
    lines: Seq<ProjectedLine>,
    runs: Seq<RunView>,
    stops: Seq<InterruptionView>,
    s: RegionView,
    src: Sources,
    n: int,
)
    requires
        is_region_told(lines, runs, stops, s, src, n),
    ensures
        is_region_told(
            lines,
            runs,
            stops,
            RegionView { reader: reader::flushed_code(s.reader), ..s },
            code_closed(s.reader, src),
            n,
        ),
{
    lemma_code_closed(lines, runs, stops, s.reader, src, true);
    lemma_closed_accounted(lines, runs, stops, s.reader, src);
    lemma_bounded(src.blocks, src.code, n);
}

proof fn lemma_region_all_closed(
    lines: Seq<ProjectedLine>,
    runs: Seq<RunView>,
    stops: Seq<InterruptionView>,
    s: RegionView,
    src: Sources,
    n: int,
)
    requires
        is_region_told(lines, runs, stops, s, src, n),
    ensures
        is_region_told(
            lines,
            runs,
            stops,
            RegionView { reader: reader::all_closed(s.reader), ..s },
            everything_closed(s.reader, src),
            n,
        ),
{
    let p = RegionView { reader: reader::flushed_paragraph(s.reader), ..s };
    lemma_region_paragraph_closed(lines, runs, stops, s, src, n);
    lemma_region_code_closed(lines, runs, stops, p, paragraph_closed(s.reader, src), n);
}

proof fn lemma_region_mark(
    lines: Seq<ProjectedLine>,
    runs: Seq<RunView>,
    stops: Seq<InterruptionView>,
    s: RegionView,
    src: Sources,
    n: int,
    b: BlockView,
)
    requires
        is_region_told(lines, runs, stops, s, src, n),
        is_from(lines, runs, stops, b, seq![], true),
    ensures
        is_region_told(
            lines,
            runs,
            stops,
            RegionView { reader: reader::with_block(s.reader, b), ..s },
            Sources { blocks: src.blocks.push(seq![]), ..src },
            n,
        ),
{
    lemma_block_told(lines, runs, stops, s.reader, src, true, b, seq![]);
    lemma_in_more(src.blocks, seq![]);
    lemma_bounded(src.blocks, seq![], n);
    let z = Sources { blocks: src.blocks.push(seq![]), ..src };
    assert forall|i: int| 0 <= i < n && is_read(#[trigger] lines[i]) implies is_accounted(
        lines,
        runs,
        z,
        i,
    ) by {
        assert(is_accounted(lines, runs, src, i));
        assert(is_in_some(src.blocks, i) || !is_in_some(src.blocks, i));
    }
}

proof fn lemma_region_interrupted(
    lines: Seq<ProjectedLine>,
    runs: Seq<RunView>,
    stops: Seq<InterruptionView>,
    s: RegionView,
    src: Sources,
    n: int,
    limit: Option<int>,
)
    requires
        is_region_told(lines, runs, stops, s, src, n),
    ensures
        is_region_told(
            lines,
            runs,
            stops,
            RegionView { reader: reader::interrupted(s.reader, stops, limit), ..s },
            interrupted_src(s.reader, src, stops, limit),
            n,
        ),
    decreases stops.len() - s.reader.next,
{
    let r = s.reader;
    if 0 <= r.next < stops.len() && (limit is None || stops[r.next].y <= limit->0) {
        let b = everything_closed(r, src);
        lemma_region_all_closed(lines, runs, stops, s, src, n);
        let z = RegionView { reader: reader::all_closed(r), ..s };
        lemma_region_mark(lines, runs, stops, z, b, n, stops[r.next].block);
        let c = Sources { blocks: b.blocks.push(seq![]), ..b };
        let t = reader::with_block(z.reader, stops[r.next].block);
        let u = RegionView { reader: ReaderView { next: r.next + 1, ..t }, ..s };
        assert(is_region_told(lines, runs, stops, u, c, n));
        lemma_region_interrupted(lines, runs, stops, u, c, n, limit);
    }
}

/// What was told stays told when line `n` is told too.
proof fn lemma_one_more_told(
    lines: Seq<ProjectedLine>,
    runs: Seq<RunView>,
    src: Sources,
    z: Sources,
    n: int,
)
    requires
        forall|i: int|
            0 <= i < n && is_read(#[trigger] lines[i]) ==> is_accounted(lines, runs, src, i),
        forall|i: int| #[trigger]
            is_accounted(lines, runs, src, i) ==> is_accounted(lines, runs, z, i),
        is_accounted(lines, runs, z, n),
    ensures
        forall|i: int|
            0 <= i < n + 1 && is_read(#[trigger] lines[i]) ==> is_accounted(lines, runs, z, i),
{
    assert forall|i: int| 0 <= i < n + 1 && is_read(#[trigger] lines[i]) implies is_accounted(
        lines,
        runs,
        z,
        i,
    ) by {
        if i < n {
            assert(is_accounted(lines, runs, src, i));
        }
    }
}

/// A block that line `n` was read into.
proof fn lemma_region_block(
    lines: Seq<ProjectedLine>,
    runs: Seq<RunView>,
    stops: Seq<InterruptionView>,
    s: RegionView,
    src: Sources,
    n: int,
    t: RegionView,
)
    requires
        0 <= n < lines.len(),
        is_region_told(lines, runs, stops, s, src, n),
        s.reader.paragraph is None,
        is_told(
            lines,
            runs,
            stops,
            t.reader,
            Sources { blocks: src.blocks.push(seq![n]), ..src },
            true,
        ),
        t.heading_run is Some ==> (t.heading_run->0).1 == n || t.heading_run == s.heading_run,
    ensures
        is_region_told(
            lines,
            runs,
            stops,
            t,
            Sources { blocks: src.blocks.push(seq![n]), ..src },
            n + 1,
        ),
{
    let z = Sources { blocks: src.blocks.push(seq![n]), ..src };
    lemma_in_more(src.blocks, seq![n]);
    assert(seq![n][0] == n);
    assert(seq![n].contains(n));
    assert(is_in_some(z.blocks, n)) by {
        assert(is_in_some(src.blocks, n) || !is_in_some(src.blocks, n));
        assert(z.blocks[src.blocks.len() as int].contains(n));
    }
    assert forall|i: int| #[trigger] is_accounted(lines, runs, src, i) implies is_accounted(
        lines,
        runs,
        z,
        i,
    ) by {
        assert(is_in_some(src.blocks, i) || !is_in_some(src.blocks, i));
    }
    lemma_one_more_told(lines, runs, src, z, n);
    lemma_bounded(src.blocks, seq![n], n + 1);
}

/// The sources after line `i`, which is no heading by its level.
proof fn lemma_region_plain(
    lines: Seq<ProjectedLine>,
    runs: Seq<RunView>,
    stops: Seq<InterruptionView>,
    s: RegionView,
    src: Sources,
    i: int,
    map: Seq<(i32, u8)>,
    suppressed: bool,
) -> (z: Sources)
    requires
        0 <= i < lines.len(),
        !text::is_blank(lines[i].text@),
        are_tables_and_marks(runs, stops),
        is_region_told(lines, runs, stops, s, src, i),
    ensures
        is_region_told(
            lines,
            runs,
            stops,
            region_reader::read_plain(s, map, suppressed, lines, i),
            z,
            i + 1,
        ),
{
    let line = lines[i];
    let t = text::trim_of(line.text@);
    let prev = reader::line_before(s.reader, lines);
    let below = font_sizes::next_level(map.len() as int);
    let r = region_reader::read_plain(s, map, suppressed, lines, i);
    let p = RegionView { reader: reader::flushed_paragraph(s.reader), ..s };
    let a = paragraph_closed(s.reader, src);
    lemma_region_paragraph_closed(lines, runs, stops, s, src, i);
    lemma_heading(lines, runs, stops, s.reader, src, true, i, below);
    match lists::list_marker(t) {
        Some(m) => if m.ordered && !suppressed && crate::headings::is_numbered_bold_heading(
            line,
            m.rest,
            prev,
        ) {
            lemma_region_block(lines, runs, stops, p, a, i, r);
            Sources { blocks: a.blocks.push(seq![i]), ..a }
        } else {
            lemma_item(lines, runs, stops, s.reader, src, true, i);
            lemma_region_block(lines, runs, stops, p, a, i, r);
            Sources { blocks: a.blocks.push(seq![i]), ..a }
        },
        None => if reader::continues_item(s.reader, lines, i) {
            let k = s.reader.last_item->0;
            assert(is_from(
                lines,
                runs,
                stops,
                s.reader.blocks[k],
                src.blocks[k],
                true,
            ));
            lemma_item_line(lines, runs, stops, s.reader, src, true, i);
            let z = item_line_src(s.reader, src, i);
            let old_of = src.blocks[k];
            assert(z.blocks[k] == old_of.push(i));
            assert(old_of.push(i)[old_of.len() as int] == i);
            assert(z.blocks[k].contains(i));
            assert forall|j: int| #[trigger] is_accounted(
                lines,
                runs,
                src,
                j,
            ) implies is_accounted(lines, runs, z, j) by {
                if is_in_some(src.blocks, j) {
                    let l = choose|l: int|
                        0 <= l < src.blocks.len() && (#[trigger] src.blocks[l]).contains(j);
                    let w = choose|w: int| 0 <= w < src.blocks[l].len() && src.blocks[l][w] == j;
                    assert(z.blocks[l][w] == j);
                    assert(z.blocks[l].contains(j));
                }
            }
            assert(is_in_some(z.blocks, i));
            lemma_one_more_told(lines, runs, src, z, i);
            assert forall|x: int, l: int|
                0 <= x < z.blocks.len() && 0 <= l < z.blocks[x].len() implies (
            #[trigger] z.blocks[x][l]) < i + 1 by {
                if x != k {
                    assert(z.blocks[x][l] == src.blocks[x][l]);
                } else if l < old_of.len() {
                    assert(z.blocks[x][l] == src.blocks[x][l]);
                }
            }
            z
        } else if !suppressed && crate::headings::is_bold_heading(
            line,
            prev,
            reader::line_behind(lines, i),
        ) {
            lemma_region_block(lines, runs, stops, p, a, i, r);
            Sources { blocks: a.blocks.push(seq![i]), ..a }
        } else {
            lemma_text_line(lines, runs, stops, s.reader, src, true, i);
            let z = text_src(s.reader, lines, src, i);
            assert(z.paragraph[z.paragraph.len() - 1] == i);
            assert(z.paragraph.contains(i));
            if s.reader.paragraph is Some && paragraphs::continues(
                lines[s.reader.paragraph->0.last],
                lines[i],
            ) {
                assert forall|j: int| #[trigger] is_accounted(
                    lines,
                    runs,
                    src,
                    j,
                ) implies is_accounted(lines, runs, z, j) by {
                    if src.paragraph.contains(j) {
                        let w = choose|w: int|
                            0 <= w < src.paragraph.len() && src.paragraph[w] == j;
                        assert(z.paragraph[w] == j);
                    }
                }
                lemma_one_more_told(lines, runs, src, z, i);
                assert forall|k: int| 0 <= k < z.paragraph.len() && s.heading_run is Some implies (
                s.heading_run->0).1 < #[trigger] z.paragraph[k] || is_inside_heading(
                    lines,
                    z.paragraph[k],
                ) by {
                    if k < src.paragraph.len() {
                        assert(z.paragraph[k] == src.paragraph[k]);
                    }
                }
            } else {
                assert forall|j: int| #[trigger] is_accounted(
                    lines,
                    runs,
                    a,
                    j,
                ) implies is_accounted(lines, runs, z, j) by {}
                lemma_one_more_told(lines, runs, a, z, i);
            }
            z
        },
    }
}

/// The last character of a text is that of its last part.
proof fn lemma_last_of_parts(t: Seq<char>, parts: Seq<Seq<char>>, at: Seq<(int, int)>)
    requires
        is_laid_out(t, parts, at),
        parts.last().len() > 0,
    ensures
        t.len() > 0,
        t.last() == parts.last().last(),
{
    let k = at.len() - 1;
    let n = parts[k].len() as int;
    assert(at[k] == at.last());
    assert(t.subrange(at[k].0, at[k].1) == parts[k].take(n));
    assert(t.subrange(at[k].0, at[k].1)[n - 1] == parts[k].take(n)[n - 1]);
}

/// A heading that line `i` continues.
proof fn lemma_heading_line(
    lines: Seq<ProjectedLine>,
    b: BlockView,
    of: Seq<int>,
    i: int,
    level: u8,
    h: Seq<char>,
)
    requires
        0 <= i < lines.len(),
        !text::is_blank(lines[i].text@),
        b == (BlockView::Heading { level, text: h }),
        is_made_of(lines, b, of, true),
    ensures
        ({
            let t = text::trim_of(lines[i].text@);
            is_made_of(
                lines,
                BlockView::Heading {
                    level,
                    text: span_text::continued(h, t, text::collapse_of(t)),
                },
                of.push(i),
                true,
            )
        }),
{
    let t = text::trim_of(lines[i].text@);
    let x = text::collapse_of(t);
    let parts = plain_parts(lines, of);
    let more = of.push(i);
    let u = span_text::continued(h, t, x);
    lemma_collapsed_blank(lines[i].text@);
    assert(plain_parts(lines, more) =~= parts.push(x));
    let at = choose|at: Seq<(int, int)>| #[trigger] is_laid_out(h, parts, at);
    assert(parts.last() == plain_part(lines, of[of.len() - 1]));
    assert(!text::is_blank(lines[of[of.len() - 1]].text@));
    lemma_collapsed_blank(lines[of[of.len() - 1]].text@);
    lemma_last_of_parts(h, parts, at);
    if span_text::mends_hyphen(h, x) {
        let z = lemma_part_mended(h, parts, at, x);
        assert(is_laid_out(u, parts.push(x), z));
        lemma_joined_not_blank(h.drop_last(), x);
    } else {
        let z = lemma_part_behind_space(h, parts, at, x);
        assert(is_laid_out(u, parts.push(x), z));
        lemma_joined_not_blank(h.push(' '), x);
    }
    assert(joins(u, parts.push(x)));
    assert forall|k: int| 0 <= k < more.len() implies !text::is_blank(
        lines[#[trigger] more[k]].text@,
    ) by {
        if k < of.len() {
            assert(more[k] == of[k]);
        }
    }
}

/// A heading that became too long, as an open paragraph.
proof fn lemma_demoted(
    lines: Seq<ProjectedLine>,
    b: BlockView,
    of: Seq<int>,
    i: int,
    level: u8,
    h: Seq<char>,
    last: int,
)
    requires
        0 <= i < lines.len(),
        b == (BlockView::Heading { level, text: h }),
        is_made_of(lines, b, of, true),
        h.len() + 1 + text::trim_of(lines[i].text@).len() > 140,
    ensures
        is_open_passage(
            lines,
            of,
            of.len() as int,
            ParaView { raw: h, inline_text: h, last, uniform: None },
        ),
{
    let m = of.len() as int;
    let parts = plain_parts(lines, of);
    let at = choose|at: Seq<(int, int)>| #[trigger] is_laid_out(h, parts, at);
    assert(of.take(m) =~= of);
    assert(styled_parts(lines, of, m) =~= parts);
    assert(parts.last() == plain_part(lines, of[m - 1]));
    assert(!text::is_blank(lines[of[m - 1]].text@));
    lemma_collapsed_blank(lines[of[m - 1]].text@);
    lemma_last_of_parts(h, parts, at);
    assert(joins(h, plain_parts(lines, of.take(m))));
    assert(is_overlong(lines, of, m)) by {
        assert(lines[i] == lines[i]);
    }
}

/// The sources after line `i` of a region.
proof fn lemma_region_line(
    lines: Seq<ProjectedLine>,
    runs: Seq<RunView>,
    stops: Seq<InterruptionView>,
    s: RegionView,
    src: Sources,
    i: int,
    set: SettingView,
) -> (z: Sources)
    requires
        0 <= i < lines.len(),
        are_tables_and_marks(runs, stops),
        is_region_told(lines, runs, stops, s, src, i),
    ensures
        is_region_told(
            lines,
            runs,
            stops,
            region_reader::read_region_line(s, set, lines, i),
            z,
            i + 1,
        ),
{
    let line = lines[i];
    let t = text::trim_of(line.text@);
    let r = region_reader::read_region_line(s, set, lines, i);
    if t.len() == 0 || font_sizes::is_rotated(line) {
        assert(!is_read(lines[i]));
        src
    } else if line.all_mono {
        let z = code_src(s.reader, src, i);
        let a = paragraph_closed(s.reader, src);
        lemma_code_line(lines, runs, stops, s.reader, src, true, i);
        lemma_region_paragraph_closed(lines, runs, stops, s, src, i);
        assert(z.code[a.code.len() as int] == i);
        assert(z.code.contains(i));
        assert forall|j: int| #[trigger] is_accounted(lines, runs, a, j) implies is_accounted(
            lines,
            runs,
            z,
            j,
        ) by {
            if a.code.contains(j) {
                let w = choose|w: int| 0 <= w < a.code.len() && a.code[w] == j;
                assert(z.code[w] == j);
            }
        }
        lemma_one_more_told(lines, runs, a, z, i);
        z
    } else {
        let u = RegionView { reader: reader::flushed_code(s.reader), ..s };
        let b = code_closed(s.reader, src);
        lemma_region_code_closed(lines, runs, stops, s, src, i);
        let suppressed = region_reader::is_suppressed(u, set, t);
        let v = RegionView {
            title_seen: u.title_seen || crate::heading_text::is_contents_title(t),
            ..u
        };
        assert(is_region_told(lines, runs, stops, v, b, i));
        let open = region_reader::open_heading(v, lines, i);
        let level = region_reader::line_level(u, set, lines, i);
        if open is Some {
            let n = v.reader.blocks.len() as int;
            assert(is_from(lines, runs, stops, v.reader.blocks[n - 1], b.blocks[n - 1], true));
            assert(is_made_of(lines, v.reader.blocks.last(), b.blocks.last(), true));
        }
        let joins_on = match level {
            Some(l) => open is Some && (open->0).0 == l && region_reader::fits_heading(
                (open->0).1,
                t,
            ),
            None => open is Some && lists::list_marker(t) is None && !text::has_substr(t, ". "@)
                && region_reader::fits_heading((open->0).1, t),
        };
        if joins_on {
            lemma_region_heading_line(lines, runs, stops, v, b, i, (open->0).0, (open->0).1)
        } else if level is Some && open is Some && (open->0).0 == level->0 {
            let h = (open->0).1;
            let d = region_reader::heading_demoted(v, h);
            let y = lemma_region_demoted(lines, runs, stops, v, b, i, (open->0).0, h);
            lemma_region_plain(lines, runs, stops, d, y, i, set.map, suppressed)
        } else if level is Some {
            let p = RegionView { reader: reader::flushed_paragraph(v.reader), ..v };
            let a = paragraph_closed(v.reader, b);
            lemma_region_paragraph_closed(lines, runs, stops, v, b, i);
            lemma_heading(lines, runs, stops, v.reader, b, true, i, level->0);
            lemma_region_block(lines, runs, stops, p, a, i, r);
            Sources { blocks: a.blocks.push(seq![i]), ..a }
        } else {
            lemma_region_plain(lines, runs, stops, v, b, i, set.map, suppressed)
        }
    }
}

proof fn lemma_region_heading_line(
    lines: Seq<ProjectedLine>,
    runs: Seq<RunView>,
    stops: Seq<InterruptionView>,
    s: RegionView,
    src: Sources,
    i: int,
    level: u8,
    h: Seq<char>,
) -> (z: Sources)
    requires
        0 <= i < lines.len(),
        !text::is_blank(lines[i].text@),
        is_region_told(lines, runs, stops, s, src, i),
        region_reader::open_heading(s, lines, i) == Some((level, h)),
        is_made_of(lines, s.reader.blocks.last(), src.blocks.last(), true),
    ensures
        is_region_told(
            lines,
            runs,
            stops,
            region_reader::with_heading_line(s, level, h, text::trim_of(lines[i].text@), i),
            z,
            i + 1,
        ),
{
    let t = text::trim_of(lines[i].text@);
    let r = region_reader::with_heading_line(s, level, h, t, i);
    let n = s.reader.blocks.len() as int;
    let of = src.blocks.last();
    lemma_heading_line(lines, s.reader.blocks.last(), of, i, level, h);
    let z = Sources { blocks: src.blocks.drop_last().push(of.push(i)), ..src };
    assert forall|k: int| 0 <= k < r.reader.blocks.len() implies is_from(
        lines,
        runs,
        stops,
        #[trigger] r.reader.blocks[k],
        z.blocks[k],
        true,
    ) by {
        if k < n - 1 {
            assert(r.reader.blocks[k] == s.reader.blocks[k]);
            assert(z.blocks[k] == src.blocks[k]);
        }
    }
    assert(z.blocks[n - 1] == of.push(i));
    assert(of.push(i)[of.len() as int] == i);
    assert(z.blocks[n - 1].contains(i));
    assert(is_in_some(z.blocks, i));
    assert forall|j: int| #[trigger] is_accounted(lines, runs, src, j) implies is_accounted(
        lines,
        runs,
        z,
        j,
    ) by {
        if is_in_some(src.blocks, j) {
            let l = choose|l: int|
                0 <= l < src.blocks.len() && (#[trigger] src.blocks[l]).contains(j);
            let w = choose|w: int| 0 <= w < src.blocks[l].len() && src.blocks[l][w] == j;
            assert(z.blocks[l][w] == j);
            assert(z.blocks[l].contains(j));
        }
    }
    lemma_one_more_told(lines, runs, src, z, i);
    let from = (s.heading_run->0).1;
    assert(paragraphs::heading_continues(lines[from], lines[i]));
    assert forall|k: int| 0 <= k < z.paragraph.len() implies i < #[trigger] z.paragraph[k]
        || is_inside_heading(lines, z.paragraph[k]) by {
        let x = src.paragraph[k];
        if from < x {
            assert(x < i);
        }
    }
    assert forall|x: int, l: int| 0 <= x < z.blocks.len() && 0 <= l < z.blocks[x].len() implies (
    #[trigger] z.blocks[x][l]) < i + 1 by {
        if x < n - 1 {
            assert(z.blocks[x][l] == src.blocks[x][l]);
        } else if l < of.len() {
            assert(z.blocks[x][l] == src.blocks[n - 1][l]);
        }
    }
    z
}

proof fn lemma_region_demoted(
    lines: Seq<ProjectedLine>,
    runs: Seq<RunView>,
    stops: Seq<InterruptionView>,
    s: RegionView,
    src: Sources,
    i: int,
    level: u8,
    h: Seq<char>,
) -> (z: Sources)
    requires
        0 <= i < lines.len(),
        is_region_told(lines, runs, stops, s, src, i),
        region_reader::open_heading(s, lines, i) == Some((level, h)),
        !region_reader::fits_heading(h, text::trim_of(lines[i].text@)),
        is_made_of(lines, s.reader.blocks.last(), src.blocks.last(), true),
    ensures
        is_region_told(
            lines,
            runs,
            stops,
            region_reader::heading_demoted(s, h),
            z,
            i,
        ),
{
    let r = region_reader::heading_demoted(s, h);
    let n = s.reader.blocks.len() as int;
    let of = src.blocks.last();
    lemma_demoted(lines, s.reader.blocks.last(), of, i, level, h, (s.heading_run->0).1);
    let z = Sources {
        blocks: src.blocks.drop_last(),
        paragraph: of,
        m: of.len() as int,
        ..src
    };
    assert forall|k: int| 0 <= k < r.reader.blocks.len() implies is_from(
        lines,
        runs,
        stops,
        #[trigger] r.reader.blocks[k],
        z.blocks[k],
        true,
    ) by {
        assert(r.reader.blocks[k] == s.reader.blocks[k]);
        assert(z.blocks[k] == src.blocks[k]);
    }
    let from = (s.heading_run->0).1;
    assert(paragraphs::heading_continues(lines[from], lines[i]));
    assert forall|j: int| 0 <= j < i && is_read(#[trigger] lines[j]) implies is_accounted(
        lines,
        runs,
        z,
        j,
    ) by {
        assert(is_accounted(lines, runs, src, j));
        if is_in_some(src.blocks, j) {
            let l = choose|l: int|
                0 <= l < src.blocks.len() && (#[trigger] src.blocks[l]).contains(j);
            if l < n - 1 {
                assert(z.blocks[l].contains(j));
            }
        } else if src.paragraph.contains(j) {
            let w = choose|w: int| 0 <= w < src.paragraph.len() && src.paragraph[w] == j;
            assert(from < src.paragraph[w] || is_inside_heading(lines, src.paragraph[w]));
        }
    }
    assert forall|k: int| 0 <= k < z.paragraph.len() implies #[trigger] z.paragraph[k] < i by {
        assert(src.blocks[n - 1][k] < i);
    }
    assert forall|x: int, l: int| 0 <= x < z.blocks.len() && 0 <= l < z.blocks[x].len() implies (
    #[trigger] z.blocks[x][l]) < i by {
        assert(z.blocks[x][l] == src.blocks[x][l]);
    }
    z
}

proof fn lemma_region_from(
    lines: Seq<ProjectedLine>,
    set: SettingView,
    runs: Seq<RunView>,
    stops: Seq<InterruptionView>,
    s: RegionView,
    src: Sources,
    k: int,
    i: int,
) -> (z: Sources)
    requires
        are_tables_and_marks(runs, stops),
        is_region_told(lines, runs, stops, s, src, i),
        0 <= i <= lines.len(),
    ensures
        is_region_told(
            lines,
            runs,
            stops,
            region_classify::read_from(lines, set, runs, stops, s, k, i),
            z,
            lines.len() as int,
        ),
    decreases lines.len() - i,
{
    if i >= lines.len() {
        src
    } else if 0 <= k < runs.len() && runs[k].start == i && i < runs[k].end <= lines.len() {
        let y = lines[i].bbox.y as int;
        let t = RegionView { reader: reader::interrupted(s.reader, stops, Some(y)), ..s };
        let a = interrupted_src(s.reader, src, stops, Some(y));
        lemma_region_interrupted(lines, runs, stops, s, src, i, Some(y));
        let q = RegionView { reader: reader::all_closed(t.reader), ..s };
        let b = everything_closed(t.reader, a);
        lemma_region_all_closed(lines, runs, stops, t, a, i);
        lemma_region_mark(lines, runs, stops, q, b, i, runs[k].block);
        let c = Sources { blocks: b.blocks.push(seq![]), ..b };
        let u = RegionView { reader: reader::with_table(s.reader, lines, runs[k], stops), ..s };
        let e = runs[k].end;
        assert forall|j: int| 0 <= j < e && is_read(#[trigger] lines[j]) implies is_accounted(
            lines,
            runs,
            c,
            j,
        ) by {
            if j >= i {
                assert(runs[k].start <= j < runs[k].end);
            }
        }
        assert(is_region_told(lines, runs, stops, u, c, e));
        lemma_region_from(lines, set, runs, stops, u, c, k + 1, e)
    } else {
        let y = lines[i].bbox.y as int;
        let u = RegionView { reader: reader::interrupted(s.reader, stops, Some(y)), ..s };
        let a = interrupted_src(s.reader, src, stops, Some(y));
        lemma_region_interrupted(lines, runs, stops, s, src, i, Some(y));
        let b = lemma_region_line(lines, runs, stops, u, a, i, set);
        lemma_region_from(
            lines,
            set,
            runs,
            stops,
            region_reader::read_region_line(u, set, lines, i),
            b,
            k,
            i + 1,
        )
    }
}

/// Whether every line that is read and belongs to no table is in one of the lists, unless it
/// stands inside of a heading.
pub open spec fn are_most_lines(
    lines: Seq<ProjectedLine>,
    runs: Seq<RunView>,
    of: Seq<Seq<int>>,
) -> bool {
    forall|i: int|
        0 <= i < lines.len() && is_read(#[trigger] lines[i]) ==> is_in_some(of, i) || in_table(
            runs,
            i,
        ) || is_inside_heading(lines, i)
}

/// Every line of a region that is neither blank nor rotated, and belongs to no table, is read
/// into a block, unless it stands between two lines of one heading. A paragraph is set in an
/// emphasis only where all its lines are set in it; else its text is that of all its lines
/// with their own emphasis, but for lines that were read as a heading and became too long for
/// one.
pub proof fn law_every_line_of_a_region_is_read(
    lines: Seq<ProjectedLine>,
    set: SettingView,
    runs: Seq<RunView>,
    stops: Seq<InterruptionView>,
)
    requires
        are_tables_and_marks(runs, stops),
    ensures
        ({
            let blocks = reader::finished(
                region_classify::read_from(
                    lines,
                    set,
                    runs,
                    stops,
                    region_reader::fresh_region(),
                    0,
                    0,
                ).reader,
                stops,
            );
            exists|of: Seq<Seq<int>>| #[trigger]
                are_from(lines, runs, stops, blocks, of, true) && are_most_lines(lines, runs, of)
        }),
{
    let s = region_reader::fresh_region();
    let src = Sources { blocks: seq![], code: seq![], paragraph: seq![], m: 0 };
    let n = lines.len() as int;
    let r = region_classify::read_from(lines, set, runs, stops, s, 0, 0);
    let z = lemma_region_from(lines, set, runs, stops, s, src, 0, 0);
    let a = everything_closed(r.reader, z);
    lemma_region_all_closed(lines, runs, stops, r, z, n);
    let closed = reader::flushed_code(reader::flushed_paragraph(r.reader));
    let q = reader::list_ended(closed);
    let w = RegionView { reader: q, ..r };
    lemma_region_interrupted(lines, runs, stops, w, a, n, None);
    lemma_interrupted_same_blocks(closed, q, stops);
    lemma_nothing_open(q, stops);
    let e = interrupted_src(q, a, stops, None);
    let f = reader::interrupted(q, stops, None);
    let blocks = reader::finished(r.reader, stops);
    assert(blocks == f.blocks);
    assert(are_from(lines, runs, stops, blocks, e.blocks, true));
    assert forall|i: int| 0 <= i < lines.len() && is_read(#[trigger] lines[i]) implies is_in_some(
        e.blocks,
        i,
    ) || in_table(runs, i) || is_inside_heading(lines, i) by {
        assert(is_accounted(lines, runs, e, i));
    }
    assert(are_most_lines(lines, runs, e.blocks));
}

/// So is every line of a region with the tables that are found in it.
pub proof fn law_every_line_of_its_region_is_read(
    page: ParsedPage,
    set: SettingView,
    lines: Seq<ProjectedLine>,
    all: Seq<InterruptionView>,
)
    requires
        are_tables_and_marks(seq![], all),
    ensures
        ({
            let runs = region_classify::tables_of(page, lines);
            let stops = reader::outside_tables(all, lines, runs, all.len() as int);
            let blocks = region_classify::region_blocks(page, set, lines, all);
            exists|of: Seq<Seq<int>>| #[trigger]
                are_from(lines, runs, stops, blocks, of, true) && are_most_lines(lines, runs, of)
        }),
{
    let runs = region_classify::tables_of(page, lines);
    let stops = reader::outside_tables(all, lines, runs, all.len() as int);
    table_shape::law_region_tables_are_rectangular(page, lines);
    assert forall|k: int| 0 <= k < runs.len() implies (#[trigger] runs[k]).block is Table
        || runs[k].block is GridFallback by {
        assert(table_shape::is_rectangular(runs[k].block));
    }
    lemma_marks_outside(all, lines, runs, all.len() as int);
    law_every_line_of_a_region_is_read(lines, set, runs, stops);
    let blocks = region_classify::region_blocks(page, set, lines, all);
    let of = choose|of: Seq<Seq<int>>| #[trigger]
        are_from(lines, runs, stops, blocks, of, true) && are_most_lines(lines, runs, of);
    assert(are_from(lines, runs, stops, blocks, of, true));
}

proof fn lemma_marks_outside(
    all: Seq<InterruptionView>,
    lines: Seq<ProjectedLine>,
    runs: Seq<RunView>,
    n: int,
)
    requires
        0 <= n <= all.len(),
        are_tables_and_marks(seq![], all),
    ensures
        are_tables_and_marks(seq![], reader::outside_tables(all, lines, runs, n)),
    decreases n,
{
    if n > 0 {
        lemma_marks_outside(all, lines, runs, n - 1);
        let before = reader::outside_tables(all, lines, runs, n - 1);
        let after = reader::outside_tables(all, lines, runs, n);
        assert forall|k: int| 0 <= k < after.len() implies (#[trigger] after[k]).block
            is HorizontalRule || after[k].block is Figure by {
            if k < before.len() {
                assert(after[k] == before[k]);
            }
        }
    }
}

} // verus!
