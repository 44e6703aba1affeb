//! When lines belong to one paragraph, and when a paragraph runs on into another region.

use crate::paragraphs;
use crate::region_classify;
use crate::span_text;
use crate::text;
use crate::trimming;
use crate::types::{Anchor, BlockView, ProjectedLine};
use vstd::prelude::*;

verus! {

/// The marks that end a sentence, a quotation or a bracket.
pub open spec fn closing_marks() -> Seq<char> {
    seq!['.', '!', '?', ':', ';', '”', '"', ')', ']', '。', '』', '」']
}

proof fn lemma_closing(c: char)
    ensures
        paragraphs::is_closing(c) <==> closing_marks().contains(c),
{
    let v = closing_marks();
    assert(v[0] == '.' && v[1] == '!' && v[2] == '?' && v[3] == ':' && v[4] == ';' && v[5] == '”'
        && v[6] == '"' && v[7] == ')' && v[8] == ']' && v[9] == '。' && v[10] == '』' && v[11]
        == '」');
    if v.contains(c) {
        let i = choose|i: int| 0 <= i < v.len() && v[i] == c;
    }
}

/// Whether a text ends with a closing mark, but for white space.
pub open spec fn is_closed(s: Seq<char>) -> bool {
    exists|a: Seq<char>, gap: Seq<char>|
        s == #[trigger] (a + gap) && trimming::is_gap(gap) && a.len() > 0
            && closing_marks().contains(a.last())
}

/// Whether a text begins with a lowercase letter, but for white space.
pub open spec fn begins_small(s: Seq<char>) -> bool {
    exists|gap: Seq<char>, b: Seq<char>|
        s == #[trigger] (gap + b) && trimming::is_gap(gap) && b.len() > 0 && text::is_lower(b[0])
            && !text::is_ws(b[0])
}

proof fn lemma_closed(s: Seq<char>)
    ensures
        is_closed(s) == !paragraphs::ends_open(s),
{
    let t = text::trim_end_of(s);
    let gap = trimming::law_end_goes(s);
    if t.len() > 0 {
        lemma_closing(t.last());
        if paragraphs::is_closing(t.last()) {
            assert(s == t + gap);
            assert(is_closed(s));
        }
    }
    if is_closed(s) {
        let (a, g) = choose|a: Seq<char>, g: Seq<char>|
            s == #[trigger] (a + g) && trimming::is_gap(g) && a.len() > 0
                && closing_marks().contains(a.last());
        lemma_closing(a.last());
        trimming::law_end_is_trimmed(a, g);
    }
}

proof fn lemma_small(s: Seq<char>)
    ensures
        begins_small(s) == paragraphs::starts_lower(s),
{
    let t = text::trim_start_of(s);
    let gap = trimming::law_front_goes(s);
    if t.len() > 0 && text::is_lower(t[0]) {
        assert(s == gap + t);
        assert(begins_small(s));
    }
    if begins_small(s) {
        let (g, b) = choose|g: Seq<char>, b: Seq<char>|
            s == #[trigger] (g + b) && trimming::is_gap(g) && b.len() > 0 && text::is_lower(b[0])
                && !text::is_ws(b[0]);
        trimming::law_front_is_trimmed(g, b);
    }
}

/// Whether a line is at most one and a half line heights below another.
pub open spec fn is_close_below(prev: ProjectedLine, cur: ProjectedLine) -> bool {
    let gap = cur.bbox.y - (prev.bbox.y + prev.bbox.height);
    2 * gap <= 3 * prev.bbox.height || 2 * gap <= 3 * cur.bbox.height || gap <= 1_500
}

/// Whether a line goes on with the paragraph of the line before it. Both are centred or
/// neither is, and their sizes are within two and a half points. In another region it goes on
/// only with a sentence that is not closed and in lower case; in the same region it is close
/// below, and not more than six points further in if it is set to the left.
pub open spec fn goes_on(prev: ProjectedLine, cur: ProjectedLine) -> bool {
    &&& (prev.anchor == Anchor::Center <==> cur.anchor == Anchor::Center)
    &&& -2_500 <= prev.dominant_font_size - cur.dominant_font_size <= 2_500
    &&& if prev.region_path@ == cur.region_path@ {
        &&& is_close_below(prev, cur)
        &&& cur.anchor == Anchor::Left ==> cur.indent_x - prev.indent_x <= 6_000
    } else {
        !is_closed(prev.text@) && begins_small(cur.text@)
    }
}

/// A line continues a paragraph exactly where it goes on with it.
pub proof fn law_paragraphs_go_on(prev: ProjectedLine, cur: ProjectedLine)
    ensures
        paragraphs::continues(prev, cur) <==> goes_on(prev, cur),
{
    lemma_closed(prev.text@);
    lemma_small(cur.text@);
}

/// A line continues a heading exactly where it is close below it in the same region, as bold,
/// and of a size within six tenths of a point.
pub proof fn law_headings_go_on(prev: ProjectedLine, cur: ProjectedLine)
    ensures
        paragraphs::heading_continues(prev, cur) <==> ({
            &&& prev.region_path@ == cur.region_path@
            &&& is_close_below(prev, cur)
            &&& -600 < prev.dominant_font_size - cur.dominant_font_size < 600
            &&& (span_text::all_runs_bold(prev.spans@) <==> span_text::all_runs_bold(cur.spans@))
        }),
{
}

// ---------------------------------------------------------------------------
// Paragraphs over two regions
// ---------------------------------------------------------------------------

/// Whether `t` is the text `p` and the text `c` behind it, which goes on in lower case: with a
/// space between them where the sentence is not closed, or as one word where `p` breaks one
/// with a hyphen.
pub open spec fn runs_on(p: Seq<char>, c: Seq<char>, t: Seq<char>) -> bool {
    exists|gap: Seq<char>, b: Seq<char>|
        c == #[trigger] (gap + b) && trimming::is_gap(gap) && b.len() > 0 && text::is_lower(b[0])
            && !text::is_ws(b[0]) && (is_mended(p, b, t) || (t == p.push(' ') + b && !is_closed(p)
            && !can_be_mended(p, b)))
}

/// Whether `p` breaks a word with a hyphen, and `t` is that word with `b` in place of the
/// hyphen.
pub open spec fn is_mended(p: Seq<char>, b: Seq<char>, t: Seq<char>) -> bool {
    exists|w: Seq<char>, gap: Seq<char>|
        p == #[trigger] (w.push('-') + gap) && breaks_word(w, gap, b) && t == w + b
}

/// Whether `p` breaks a word with a hyphen that goes on with `b`.
pub open spec fn can_be_mended(p: Seq<char>, b: Seq<char>) -> bool {
    exists|w: Seq<char>, gap: Seq<char>|
        p == #[trigger] (w.push('-') + gap) && breaks_word(w, gap, b)
}

/// Whether a hyphen behind `w`, with white space behind it, breaks a word: a letter is before
/// it, and `b` begins with one in lower case.
pub open spec fn breaks_word(w: Seq<char>, gap: Seq<char>, b: Seq<char>) -> bool {
    &&& trimming::is_gap(gap)
    &&& w.len() > 0 && ('a' <= w.last() <= 'z' || 'A' <= w.last() <= 'Z')
    &&& b.len() > 0 && 'a' <= b[0] <= 'z'
}

proof fn lemma_mended(p: Seq<char>, b: Seq<char>)
    ensures
        ({
            let q = text::trim_end_of(p);
            let broken = q.len() >= 2 && q.last() == '-' && text::is_ascii_letter(q[q.len() - 2])
                && b.len() > 0 && text::is_ascii_lower(b[0]);
            &&& broken == can_be_mended(p, b)
            &&& broken ==> is_mended(p, b, q.drop_last() + b)
            &&& forall|t: Seq<char>| #[trigger] is_mended(p, b, t) ==> t == q.drop_last() + b
        }),
{
    let q = text::trim_end_of(p);
    let gap = trimming::law_end_goes(p);
    if q.len() >= 2 && q.last() == '-' && text::is_ascii_letter(q[q.len() - 2]) && b.len() > 0
        && text::is_ascii_lower(b[0]) {
        let w = q.drop_last();
        assert(q =~= w.push('-'));
        assert(p == w.push('-') + gap);
        assert(w.last() == q[q.len() - 2]);
        assert(breaks_word(w, gap, b));
        assert(is_mended(p, b, w + b));
    }
    if can_be_mended(p, b) {
        let (w, g) = choose|w: Seq<char>, g: Seq<char>|
            p == #[trigger] (w.push('-') + g) && breaks_word(w, g, b);
        trimming::law_end_is_trimmed(w.push('-'), g);
        assert(q[q.len() - 2] == w.last());
    }
    assert forall|t: Seq<char>| #[trigger] is_mended(p, b, t) implies t == q.drop_last() + b by {
        let (w, g) = choose|w: Seq<char>, g: Seq<char>|
            p == #[trigger] (w.push('-') + g) && breaks_word(w, g, b) && t == w + b;
        trimming::law_end_is_trimmed(w.push('-'), g);
        assert(q.drop_last() =~= w);
    }
}

/// Two texts are put together exactly where the second goes on with the first.
pub proof fn law_text_runs_on(p: Seq<char>, c: Seq<char>, t: Seq<char>)
    ensures
        region_classify::stitched_text(p, c) == Some(t) <==> runs_on(p, c, t),
{
    let b = text::trim_start_of(c);
    let gap = trimming::law_front_goes(c);
    lemma_mended(p, b);
    lemma_closed(p);
    lemma_small(c);
    if region_classify::stitched_text(p, c) == Some(t) {
        assert(c == gap + b);
        assert(runs_on(p, c, t));
    }
    if runs_on(p, c, t) {
        let (g, d) = choose|g: Seq<char>, d: Seq<char>|
            c == #[trigger] (g + d) && trimming::is_gap(g) && d.len() > 0 && text::is_lower(d[0])
                && !text::is_ws(d[0]) && (is_mended(p, d, t) || (t == p.push(' ') + d
                && !is_closed(p) && !can_be_mended(p, d)));
        trimming::law_front_is_trimmed(g, d);
        assert(d == b);
    }
}

/// Whether block `j` goes on with a paragraph of the text `p` and the two make `t`: it begins a
/// region, and it is a paragraph without emphasis of its own.
pub open spec fn is_run_on(
    blocks: Seq<BlockView>,
    starts: Seq<int>,
    j: int,
    p: Seq<char>,
    t: Seq<char>,
) -> bool {
    &&& exists|k: int| 1 <= k < starts.len() && #[trigger] starts[k] == j
    &&& blocks[j] is Paragraph
    &&& !blocks[j]->Paragraph_bold && !blocks[j]->Paragraph_italic
    &&& runs_on(p, blocks[j]->Paragraph_text, t)
}

/// Whether `texts` are the texts of the paragraph that the blocks from `from` to `to` make, as
/// it grows from block to block.
pub open spec fn grows(
    blocks: Seq<BlockView>,
    starts: Seq<int>,
    from: int,
    to: int,
    texts: Seq<Seq<char>>,
) -> bool {
    &&& texts.len() == to - from >= 1
    &&& blocks[from] is Paragraph
    &&& texts[0] == blocks[from]->Paragraph_text
    &&& forall|k: int|
        1 <= k < texts.len() ==> is_run_on(
            blocks,
            starts,
            from + k,
            texts[k - 1],
            #[trigger] texts[k],
        )
}

/// Whether the blocks from `from` to `to` make one paragraph of the text `t`.
pub open spec fn is_chain(
    blocks: Seq<BlockView>,
    starts: Seq<int>,
    from: int,
    to: int,
    t: Seq<char>,
) -> bool {
    exists|texts: Seq<Seq<char>>| #[trigger]
        grows(blocks, starts, from, to, texts) && texts.last() == t
}

/// Whether a block is made of the blocks from `from` to `to`: of one as it is, or of
/// paragraphs that run on, with the emphasis of the first.
pub open spec fn is_made_of(
    blocks: Seq<BlockView>,
    starts: Seq<int>,
    from: int,
    to: int,
    b: BlockView,
) -> bool {
    ||| to == from + 1 && b == blocks[from]
    ||| {
        &&& from + 1 < to
        &&& b is Paragraph
        &&& b->Paragraph_bold == blocks[from]->Paragraph_bold
        &&& b->Paragraph_italic == blocks[from]->Paragraph_italic
        &&& is_chain(blocks, starts, from, to, b->Paragraph_text)
    }
}

/// Whether a block that begins a region stays apart from the one before it: one of the two is
/// no paragraph, the second has emphasis of its own, or its text does not go on.
pub open spec fn stays_apart(prev: BlockView, cur: BlockView) -> bool {
    ||| !(prev is Paragraph)
    ||| !(cur is Paragraph)
    ||| cur->Paragraph_bold || cur->Paragraph_italic
    ||| forall|t: Seq<char>| !runs_on(prev->Paragraph_text, cur->Paragraph_text, t)
}

/// Whether a block is made of the blocks between two cuts.
pub open spec fn is_piece(
    blocks: Seq<BlockView>,
    starts: Seq<int>,
    out: Seq<BlockView>,
    cuts: Seq<int>,
    k: int,
) -> bool {
    cuts[k] < cuts[k + 1] && is_made_of(blocks, starts, cuts[k], cuts[k + 1], out[k])
}

/// Whether `cuts` tells where the blocks end that others are made of.
pub open spec fn is_cut(
    blocks: Seq<BlockView>,
    starts: Seq<int>,
    n: int,
    out: Seq<BlockView>,
    cuts: Seq<int>,
) -> bool {
    &&& cuts.len() == out.len() + 1
    &&& cuts[0] == 0
    &&& cuts.last() == n
    &&& forall|k: int| 0 <= k < out.len() ==> #[trigger] is_piece(blocks, starts, out, cuts, k)
    &&& forall|k: int|
        1 <= k < out.len() && starts.skip(1).contains(#[trigger] cuts[k]) ==> stays_apart(
            out[k - 1],
            blocks[cuts[k]],
        )
}

proof fn lemma_run_on(
    blocks: Seq<BlockView>,
    starts: Seq<int>,
    from: int,
    n: int,
    prev: BlockView,
    b: BlockView,
)
    requires
        starts.len() > 1,
        is_made_of(blocks, starts, from, n - 1, prev),
        starts.skip(1).contains(n - 1),
        region_classify::stitched_pair(prev, blocks[n - 1]) == Some(b),
    ensures
        is_made_of(blocks, starts, from, n, b),
{
    let p = prev->Paragraph_text;
    let t = b->Paragraph_text;
    law_text_runs_on(p, blocks[n - 1]->Paragraph_text, t);
    let k = choose|k: int| 0 <= k < starts.skip(1).len() && starts.skip(1)[k] == n - 1;
    assert(starts[k + 1] == n - 1);
    assert(is_run_on(blocks, starts, n - 1, p, t));
    let texts = if from + 1 < n - 1 {
        choose|texts: Seq<Seq<char>>| #[trigger]
            grows(blocks, starts, from, n - 1, texts) && texts.last() == p
    } else {
        seq![p]
    };
    assert(grows(blocks, starts, from, n - 1, texts));
    let more = texts.push(t);
    assert forall|k: int| 1 <= k < more.len() implies is_run_on(
        blocks,
        starts,
        from + k,
        more[k - 1],
        #[trigger] more[k],
    ) by {
        if k < texts.len() {
            assert(more[k] == texts[k]);
        }
    }
    assert(grows(blocks, starts, from, n, more));
}

proof fn lemma_stitched(blocks: Seq<BlockView>, starts: Seq<int>, n: int) -> (cuts: Seq<int>)
    requires
        0 <= n <= blocks.len(),
        starts.len() > 1,
    ensures
        is_cut(blocks, starts, n, region_classify::stitched_upto(blocks, starts, n), cuts),
    decreases n,
{
    let out = region_classify::stitched_upto(blocks, starts, n);
    if n <= 0 {
        let cuts = seq![0int];
        assert(out =~= seq![]);
        assert(is_cut(blocks, starts, n, out, cuts));
        cuts
    } else {
        let c = lemma_stitched(blocks, starts, n - 1);
        let before = region_classify::stitched_upto(blocks, starts, n - 1);
        let m = before.len() as int;
        let begins = starts.skip(1).contains(n - 1) && m > 0;
        if begins && region_classify::stitched_pair(before.last(), blocks[n - 1]) is Some {
            let cuts = c.update(m, n);
            let b = region_classify::stitched_pair(before.last(), blocks[n - 1])->0;
            assert(is_piece(blocks, starts, before, c, m - 1));
            lemma_run_on(blocks, starts, c[m - 1], n, before[m - 1], b);
            assert forall|k: int| 0 <= k < out.len() implies #[trigger] is_piece(
                blocks,
                starts,
                out,
                cuts,
                k,
            ) by {
                assert(is_piece(blocks, starts, before, c, k));
                if k < m - 1 {
                    assert(out[k] == before[k]);
                }
            }
            assert forall|k: int|
                1 <= k < out.len() && starts.skip(1).contains(#[trigger] cuts[k]) implies stays_apart(
                out[k - 1],
                blocks[cuts[k]],
            ) by {
                assert(cuts[k] == c[k]);
                assert(out[k - 1] == before[k - 1]);
            }
            assert(is_cut(blocks, starts, n, out, cuts));
            cuts
        } else {
            let cuts = c.push(n);
            assert forall|k: int| 0 <= k < out.len() implies #[trigger] is_piece(
                blocks,
                starts,
                out,
                cuts,
                k,
            ) by {
                if k < m {
                    assert(is_piece(blocks, starts, before, c, k));
                    assert(out[k] == before[k]);
                }
            }
            assert forall|k: int|
                1 <= k < out.len() && starts.skip(1).contains(#[trigger] cuts[k]) implies stays_apart(
                out[k - 1],
                blocks[cuts[k]],
            ) by {
                assert(cuts[k] == c[k]);
                assert(out[k - 1] == before[k - 1]);
                if k == m {
                    let prev = before[m - 1];
                    let cur = blocks[n - 1];
                    if prev is Paragraph && cur is Paragraph && !cur->Paragraph_bold
                        && !cur->Paragraph_italic {
                        assert forall|t: Seq<char>| !runs_on(
                            prev->Paragraph_text,
                            cur->Paragraph_text,
                            t,
                        ) by {
                            law_text_runs_on(prev->Paragraph_text, cur->Paragraph_text, t);
                        }
                    }
                }
            }
            assert(is_cut(blocks, starts, n, out, cuts));
            cuts
        }
    }
}

/// The blocks of a page are the blocks of its regions, in order, but that a paragraph that
/// runs on from one region into the next is one, and where its text runs on it is.
pub proof fn law_paragraphs_run_on(blocks: Seq<BlockView>, starts: Seq<int>)
    requires
        starts.len() > 1,
    ensures
        exists|cuts: Seq<int>|
            is_cut(
                blocks,
                starts,
                blocks.len() as int,
                region_classify::stitched(blocks, starts),
                cuts,
            ),
{
    let cuts = lemma_stitched(blocks, starts, blocks.len() as int);
    assert(is_cut(
        blocks,
        starts,
        blocks.len() as int,
        region_classify::stitched(blocks, starts),
        cuts,
    ));
}

} // verus!
