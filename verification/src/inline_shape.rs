//! What holds of a line that is rendered as inline markdown: every run keeps its text and
//! its style.

use vstd::prelude::*;
use crate::escapes;
use crate::markdown_shape;
use crate::sort;
use crate::span_text;
use crate::span_text::SpanStyle;
use crate::text;
use crate::types::{ProjectedLine, TextItem};

verus! {

// ---------------------------------------------------------------------------
// Escaping
// ---------------------------------------------------------------------------

/// Whether no star and no underscore of an escaped text means anything but itself.
pub open spec fn has_no_marks(s: Seq<char>) -> bool {
    forall|k: int|
        0 <= k < s.len() && (#[trigger] s[k] == '*' || s[k] == '_') ==> escapes::unescaped(
            s.take(k),
        ).open
}

/// Whether `inner` is `content`, escaped: it reads back as it, and holds no marks.
pub open spec fn is_escaped(inner: Seq<char>, content: Seq<char>) -> bool {
    &&& escapes::unescaped(inner) == (escapes::Unescaped { text: content, open: false })
    &&& has_no_marks(inner)
}

proof fn lemma_no_marks_pushed(s: Seq<char>, c: char)
    requires
        has_no_marks(s),
        (c == '*' || c == '_') ==> escapes::unescaped(s).open,
    ensures
        has_no_marks(s.push(c)),
{
    let t = s.push(c);
    assert forall|k: int| 0 <= k < t.len() && (#[trigger] t[k] == '*' || t[k] == '_') implies escapes::unescaped(
        t.take(k),
    ).open by {
        if k < s.len() {
            assert(t[k] == s[k]);
            assert(t.take(k) =~= s.take(k));
        } else {
            assert(t.take(k) =~= s);
        }
    }
}

proof fn lemma_escaped_has_no_marks(s: Seq<char>, n: int)
    requires
        0 <= n <= s.len(),
    ensures
        has_no_marks(span_text::escape_upto(s, n)),
        !escapes::unescaped(span_text::escape_upto(s, n)).open,
    decreases n,
{
    if n > 0 {
        let before = span_text::escape_upto(s, n - 1);
        let c = s[n - 1];
        lemma_escaped_has_no_marks(s, n - 1);
        if span_text::is_inline_special(c) {
            escapes::lemma_unescape_pushed(before, '\\');
            lemma_no_marks_pushed(before, '\\');
            escapes::lemma_unescape_pushed(before.push('\\'), c);
            lemma_no_marks_pushed(before.push('\\'), c);
        } else {
            escapes::lemma_unescape_pushed(before, c);
            lemma_no_marks_pushed(before, c);
        }
    }
}

/// Escaped text reads back, and none of its stars and underscores begins or ends an emphasis.
pub proof fn law_escaped_text_has_no_marks(s: Seq<char>)
    ensures
        is_escaped(span_text::escaped(s), s),
{
    lemma_escaped_has_no_marks(s, s.len() as int);
    span_text::law_escaped_text_reads_back(s);
}

// ---------------------------------------------------------------------------
// Styles
// ---------------------------------------------------------------------------

/// Whether `t` is `inner` in the marks of a style: backticks for code, two of them where it
/// holds one, two stars for bold, one for italic, three for both.
pub open spec fn is_marked(t: Seq<char>, inner: Seq<char>, style: SpanStyle) -> bool {
    if style.mono {
        if inner.contains('`') {
            t == seq!['`', '`', ' '] + inner + seq![' ', '`', '`']
        } else {
            t == seq!['`'] + inner + seq!['`']
        }
    } else {
        markdown_shape::is_starred(
            t,
            inner,
            (if style.bold {
                2int
            } else {
                0int
            }) + (if style.italic {
                1int
            } else {
                0int
            }),
        )
    }
}

/// Text in a style is between the marks of that style, and of no other.
pub proof fn law_style_is_marked(inner: Seq<char>, style: SpanStyle)
    ensures
        is_marked(span_text::with_style(inner, style), inner, style),
{
    reveal_strlit("***");
    reveal_strlit("**");
    reveal_strlit("*");
    reveal_strlit("`");
    reveal_strlit("`` ");
    reveal_strlit(" ``");
    assert("`` "@ =~= seq!['`', '`', ' ']);
    assert(" ``"@ =~= seq![' ', '`', '`']);
    assert("`"@ =~= seq!['`']);
    let t = span_text::with_style(inner, style);
    let n = (if style.bold {
        2int
    } else {
        0int
    }) + (if style.italic {
        1int
    } else {
        0int
    });
    if !style.mono {
        assert(t.subrange(n, n + inner.len()) =~= inner);
    }
}

// ---------------------------------------------------------------------------
// The order of runs
// ---------------------------------------------------------------------------

/// Whether `at` lists the visible runs of a line once each, from left to right; runs with the
/// same left edge stay in their order.
pub open spec fn lists_runs(spans: Seq<TextItem>, at: Seq<int>) -> bool {
    &&& forall|k: int|
        0 <= k < at.len() ==> 0 <= #[trigger] at[k] < spans.len() && !text::is_blank(
            spans[at[k]].text@,
        )
    &&& forall|i: int|
        0 <= i < spans.len() && !text::is_blank((#[trigger] spans[i]).text@) ==> at.contains(i)
    &&& forall|k: int, l: int|
        0 <= k < l < at.len() ==> spans[#[trigger] at[k]].x < spans[#[trigger] at[l]].x || (
        spans[at[k]].x == spans[at[l]].x && at[k] < at[l])
}

/// The visible runs are those that are not blank, in their order.
pub proof fn lemma_visible_ascends(spans: Seq<TextItem>, n: int)
    requires
        0 <= n <= spans.len(),
    ensures
        ({
            let v = span_text::visible_upto(spans, n);
            &&& forall|k: int|
                0 <= k < v.len() ==> 0 <= #[trigger] v[k] < n && !text::is_blank(
                    spans[v[k]].text@,
                )
            &&& forall|k: int, l: int| 0 <= k < l < v.len() ==> #[trigger] v[k] < #[trigger] v[l]
            &&& forall|i: int|
                0 <= i < n && !text::is_blank((#[trigger] spans[i]).text@) ==> v.contains(i)
        }),
    decreases n,
{
    if n > 0 {
        lemma_visible_ascends(spans, n - 1);
        let head = span_text::visible_upto(spans, n - 1);
        let v = span_text::visible_upto(spans, n);
        assert forall|i: int|
            0 <= i < n && !text::is_blank((#[trigger] spans[i]).text@) implies v.contains(i) by {
            if i < n - 1 {
                let k = choose|k: int| 0 <= k < head.len() && head[k] == i;
                assert(v[k] == i);
            } else {
                assert(v[head.len() as int] == i);
            }
        }
    }
}

/// The runs of a line are taken from left to right, each visible one once.
pub proof fn law_runs_are_listed(spans: Seq<TextItem>)
    ensures
        lists_runs(spans, span_text::left_to_right(spans)),
{
    let vis = span_text::visible(spans);
    let keys = span_text::left_edges(spans, vis);
    let order = sort::stable_order(keys);
    let at = span_text::left_to_right(spans);
    lemma_visible_ascends(spans, spans.len() as int);
    sort::law_stable_order(keys);
    assert forall|k: int| 0 <= k < at.len() implies 0 <= #[trigger] at[k] < spans.len()
        && !text::is_blank(spans[at[k]].text@) by {
        assert(at[k] == vis[order[k]]);
    }
    assert forall|i: int|
        0 <= i < spans.len() && !text::is_blank((#[trigger] spans[i]).text@) implies at.contains(
        i,
    ) by {
        let k = choose|k: int| 0 <= k < vis.len() && vis[k] == i;
        assert(vis.contains(i));
        assert(order.contains(k));
        let m = choose|m: int| 0 <= m < order.len() && order[m] == k;
        assert(at[m] == i);
    }
    assert forall|k: int, l: int| 0 <= k < l < at.len() implies spans[#[trigger] at[k]].x
        < spans[#[trigger] at[l]].x || (spans[at[k]].x == spans[at[l]].x && at[k] < at[l]) by {
        assert(at[k] == vis[order[k]] && at[l] == vis[order[l]]);
        assert(keys[order[k]] == spans[at[k]].x && keys[order[l]] == spans[at[l]].x);
    }
}

// ---------------------------------------------------------------------------
// Lines
// ---------------------------------------------------------------------------

/// The characters of the runs at positions `at[i..j]`.
pub open spec fn ink_of_runs(spans: Seq<TextItem>, at: Seq<int>, i: int, j: int) -> Seq<char>
    decreases j - i,
{
    if j <= i {
        seq![]
    } else {
        ink_of_runs(spans, at, i, j - 1) + text::ink_of(spans[at[j - 1]].text@)
    }
}

/// Whether the runs at positions `at[i..j]` are all in the style of the first one.
pub open spec fn share_style(spans: Seq<TextItem>, at: Seq<int>, i: int, j: int) -> bool {
    forall|k: int|
        i <= k < j ==> spans[#[trigger] at[k]].bold == spans[at[i]].bold && spans[at[k]].italic
            == spans[at[i]].italic && spans[at[k]].mono == spans[at[i]].mono
}

/// Whether a piece of markdown is the text of the runs at positions `at[i..j]` in the style
/// that they share.
pub open spec fn is_piece_of(
    spans: Seq<TextItem>,
    at: Seq<int>,
    i: int,
    j: int,
    piece: Seq<char>,
) -> bool {
    &&& 0 <= i < j <= at.len()
    &&& share_style(spans, at, i, j)
    &&& exists|inner: Seq<char>, content: Seq<char>|
        #[trigger] is_escaped(inner, content) && is_marked(
            piece,
            inner,
            (SpanStyle {
                bold: spans[at[i]].bold,
                italic: spans[at[i]].italic,
                mono: spans[at[i]].mono,
            }),
        ) && text::is_spaced(content) && text::ink_of(content) == ink_of_runs(spans, at, i, j)
}

/// Pieces with one space between each two of them.
pub open spec fn with_spaces(pieces: Seq<Seq<char>>) -> Seq<char>
    decreases pieces.len(),
{
    if pieces.len() == 0 {
        seq![]
    } else if pieces.len() == 1 {
        pieces[0]
    } else {
        with_spaces(pieces.drop_last()) + seq![' '] + pieces.last()
    }
}

/// Whether the first `cuts.last()` runs are in pieces, cut where the style changes and only
/// there.
pub open spec fn are_pieces(
    spans: Seq<TextItem>,
    at: Seq<int>,
    cuts: Seq<int>,
    pieces: Seq<Seq<char>>,
) -> bool {
    &&& cuts.len() == pieces.len() + 1
    &&& cuts[0] == 0
    &&& forall|g: int|
        0 <= g < pieces.len() ==> is_piece_of(
            spans,
            at,
            cuts[g],
            cuts[g + 1],
            #[trigger] pieces[g],
        )
    &&& forall|g: int|
        0 < g < pieces.len() ==> !share_style(spans, at, cuts[g] - 1, #[trigger] cuts[g] + 1)
}

proof fn lemma_group_text(spans: Seq<TextItem>, at: Seq<int>, i: int, j: int)
    requires
        0 <= i < j <= at.len(),
        lists_runs(spans, at),
    ensures
        text::ink_of(span_text::group_text(spans, at, i, j)) == ink_of_runs(spans, at, i, j),
        ink_of_runs(spans, at, i, j).len() > 0,
    decreases j - i,
{
    let front = span_text::group_text(spans, at, i, j - 1);
    let last = spans[at[j - 1]].text@;
    text::law_trim_keeps_ink(last);
    text::lemma_ink_joined(span_text::spaced(front), text::trim_of(last));
    text::lemma_ink_pushed(front, ' ');
    crate::passages::lemma_blank_is_inkless(last);
    assert(!text::is_blank(spans[at[j - 1]].text@));
    if i < j - 1 {
        lemma_group_text(spans, at, i, j - 1);
    } else {
        assert(front =~= seq![]);
        assert(text::ink_of(front) =~= seq![]);
        assert(ink_of_runs(spans, at, i, i) =~= seq![]);
    }
}

proof fn lemma_group_shares(spans: Seq<TextItem>, at: Seq<int>, i: int, j: int)
    requires
        0 <= i < j <= at.len(),
        share_style(spans, at, i, j),
    ensures
        ({
            let e = span_text::group_end(span_text::styles_at(spans, at), i, j);
            &&& j <= e <= at.len()
            &&& share_style(spans, at, i, e)
            &&& e < at.len() ==> !share_style(spans, at, e - 1, e + 1)
        }),
    decreases at.len() - j,
{
    let styles = span_text::styles_at(spans, at);
    if j < styles.len() && styles[j] == styles[i] {
        assert(styles[j] == span_text::style_of(spans[at[j]]));
        assert(styles[i] == span_text::style_of(spans[at[i]]));
        lemma_group_shares(spans, at, i, j + 1);
    } else if j < at.len() {
        assert(styles[j] == span_text::style_of(spans[at[j]]));
        assert(styles[i] == span_text::style_of(spans[at[i]]));
        if share_style(spans, at, j - 1, j + 1) {
            assert(spans[at[j]].bold == spans[at[j - 1]].bold);
            assert(spans[at[j - 1]].bold == spans[at[i]].bold);
        }
    }
}

proof fn lemma_styled_piece(s: Seq<char>, style: SpanStyle)
    requires
        s.len() > 0,
        s.last() != ' ',
    ensures
        is_marked(span_text::styled(s, style), span_text::escaped(s), style),
        is_escaped(span_text::escaped(s), s),
        span_text::styled(s, style).len() > 0,
        span_text::styled(s, style).last() != ' ',
{
    law_escaped_text_has_no_marks(s);
    law_style_is_marked(span_text::escaped(s), style);
    let e = span_text::escaped(s);
    assert(e.last() == s.last());
    let t = span_text::styled(s, style);
    if !style.mono {
        if style.bold || style.italic {
            assert(t[t.len() - 1] == '*');
        } else {
            assert(t == e);
        }
    }
}

proof fn lemma_groups(
    spans: Seq<TextItem>,
    at: Seq<int>,
    i: int,
    out: Seq<char>,
    cuts: Seq<int>,
    pieces: Seq<Seq<char>>,
) -> (r: (Seq<int>, Seq<Seq<char>>))
    requires
        lists_runs(spans, at),
        0 <= i <= at.len(),
        are_pieces(spans, at, cuts, pieces),
        cuts.last() == i,
        out == with_spaces(pieces),
        pieces.len() > 0 ==> out.len() > 0 && out.last() != ' ',
        0 < i < at.len() ==> !share_style(spans, at, i - 1, i + 1),
    ensures
        are_pieces(spans, at, r.0, r.1),
        r.0.last() == at.len(),
        span_text::groups_from(spans, at, i, out) == with_spaces(r.1),
    decreases at.len() - i,
{
    if i >= at.len() {
        (cuts, pieces)
    } else {
        let styles = span_text::styles_at(spans, at);
        let j = span_text::group_end(styles, i, i + 1);
        lemma_group_shares(spans, at, i, i + 1);
        let g = span_text::group_text(spans, at, i, j);
        let content = text::collapse_of(g);
        lemma_group_text(spans, at, i, j);
        text::law_collapse_is_final(g);
        text::lemma_collapsed_is_spaced(g);
        let piece = span_text::styled(content, styles[i]);
        assert(content.len() > 0);
        lemma_styled_piece(content, styles[i]);
        assert(is_escaped(span_text::escaped(content), content));
        assert(is_piece_of(spans, at, i, j, piece));
        let more = pieces.push(piece);
        let next = span_text::spaced(out) + piece;
        assert(more.drop_last() =~= pieces);
        if pieces.len() == 0 {
            assert(next =~= piece);
        } else {
            assert(next =~= out + seq![' '] + piece);
        }
        let c = cuts.push(j);
        assert forall|k: int| 0 <= k < more.len() implies is_piece_of(
            spans,
            at,
            c[k],
            c[k + 1],
            #[trigger] more[k],
        ) by {
            if k < pieces.len() {
                assert(more[k] == pieces[k]);
                assert(c[k] == cuts[k] && c[k + 1] == cuts[k + 1]);
            } else {
                assert(c[k] == cuts.last());
            }
        }
        assert forall|k: int| 0 < k < more.len() implies !share_style(
            spans,
            at,
            c[k] - 1,
            #[trigger] c[k] + 1,
        ) by {
            if k < pieces.len() {
                assert(c[k] == cuts[k]);
            } else {
                assert(c[k] == cuts.last());
                assert(is_piece_of(spans, at, cuts[k - 1], cuts[k - 1 + 1], pieces[k - 1]));
            }
        }
        lemma_groups(spans, at, j, next, c, more)
    }
}

/// A line whose visible runs are in several styles is rendered piece by piece, from left to
/// right, with one space between them. A piece is the text of the runs that share a style, in
/// the marks of that style; so no run loses its emphasis or gets that of another.
pub proof fn law_runs_keep_their_style(line: ProjectedLine)
    requires
        ({
            let at = span_text::left_to_right(line.spans@);
            !share_style(line.spans@, at, 0, at.len() as int)
        }),
    ensures
        ({
            let at = span_text::left_to_right(line.spans@);
            exists|cuts: Seq<int>, pieces: Seq<Seq<char>>| #[trigger]
                are_pieces(line.spans@, at, cuts, pieces) && cuts.last() == at.len()
                    && span_text::inline_text(line) == with_spaces(pieces)
        }),
{
    let spans = line.spans@;
    let at = span_text::left_to_right(spans);
    law_runs_are_listed(spans);
    let k = choose|k: int|
        0 <= k < at.len() && !(spans[#[trigger] at[k]].bold == spans[at[0]].bold && spans[at[k]].italic
            == spans[at[0]].italic && spans[at[k]].mono == spans[at[0]].mono);
    assert(span_text::style_of(spans[at[k]]) != span_text::style_of(spans[at[0]]));
    let (cuts, pieces) = lemma_groups(spans, at, 0, seq![], seq![0int], seq![]);
    assert(are_pieces(spans, at, cuts, pieces));
}

/// A line whose visible runs are all in one style is rendered as its text, escaped, in the
/// marks of that style. A line without visible runs is its text.
pub proof fn law_one_style_is_marked_once(line: ProjectedLine)
    requires
        ({
            let at = span_text::left_to_right(line.spans@);
            share_style(line.spans@, at, 0, at.len() as int)
        }),
        !text::is_blank(line.text@),
    ensures
        ({
            let at = span_text::left_to_right(line.spans@);
            let whole = text::collapse_of(line.text@);
            if at.len() == 0 {
                span_text::inline_text(line) == whole
            } else {
                exists|inner: Seq<char>| #[trigger]
                    is_escaped(inner, whole) && is_marked(
                        span_text::inline_text(line),
                        inner,
                        SpanStyle {
                            bold: line.spans@[at[0]].bold,
                            italic: line.spans@[at[0]].italic,
                            mono: line.spans@[at[0]].mono,
                        },
                    )
            }
        }),
{
    let spans = line.spans@;
    let at = span_text::left_to_right(spans);
    let whole = text::collapse_of(line.text@);
    text::law_collapse_is_final(line.text@);
    text::lemma_collapsed_is_spaced(line.text@);
    crate::passages::lemma_blank_is_inkless(line.text@);
    crate::passages::lemma_blank_is_inkless(whole);
    if at.len() > 0 {
        assert forall|i: int| 0 <= i < at.len() implies span_text::style_of(
            spans[#[trigger] at[i]],
        ) == span_text::style_of(spans[at[0]]) by {}
        lemma_styled_piece(whole, span_text::style_of(spans[at[0]]));
        assert(is_escaped(span_text::escaped(whole), whole));
    }
}

} // verus!
