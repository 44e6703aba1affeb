//! What headings, captions and tables of contents look like, and where heading levels come
//! from.

use crate::cells;
use crate::font_sizes;
use crate::heading_text;
use crate::headings;
use crate::inline_shape;
use crate::numbers;
use crate::paragraphs;
use crate::span_text;
use crate::text;
use crate::trimming;
use crate::types::{OutlineTarget, ProjectedLine, StructNode, TextItem};
use vstd::prelude::*;

verus! {

// ---------------------------------------------------------------------------
// Levels from the structure tree and the outline
// ---------------------------------------------------------------------------

/// Roles of headings are `H1` to `H6`, in either case.
pub proof fn law_heading_roles(h: char, d: char)
    requires
        h == 'H' || h == 'h',
        '0' <= d <= '9',
    ensures
        heading_text::role_level(seq![h, d]) == if '1' <= d <= '6' {
            Some(d as int - '0' as int)
        } else {
            None
        },
{
    let s = seq![h, d];
    let none = Seq::<char>::empty();
    trimming::law_trimmed_text(none, s, none);
    assert(none + s + none =~= s);
    let body = s.skip(1);
    assert(body =~= seq![d]);
    assert(numbers::digits_upto(body, 1)) by {
        assert(body[0] == d);
    }
    reveal_with_fuel(numbers::digits_value, 2);
    assert(numbers::digits_value(body, 1) == d as int - '0' as int);
}

/// No role names a level outside of one to six.
pub proof fn law_role_levels(role: Seq<char>)
    ensures
        heading_text::role_level(role) matches Some(n) ==> 1 <= n <= 6,
{
}

/// Whether a node of the structure tree makes content a heading.
pub open spec fn makes_heading(node: StructNode, mcid: i32) -> bool {
    node.mcids@.contains(mcid) && heading_text::role_level(node.role@) is Some
}

/// A line has the level of the first node that makes its content a heading, and none if there
/// is none.
pub proof fn law_tagged_level(mcid: i32, nodes: Seq<StructNode>, i: int)
    requires
        0 <= i <= nodes.len(),
    ensures
        match headings::tag_level_from(mcid, nodes, i) {
            Some(level) => exists|k: int|
                i <= k < nodes.len() && makes_heading(#[trigger] nodes[k], mcid)
                    && heading_text::role_level(nodes[k].role@) == Some(level) && forall|j: int|
                    i <= j < k ==> !makes_heading(#[trigger] nodes[j], mcid),
            None => forall|k: int|
                i <= k < nodes.len() ==> !makes_heading(#[trigger] nodes[k], mcid),
        },
    decreases nodes.len() - i,
{
    if i < nodes.len() {
        law_tagged_level(mcid, nodes, i + 1);
        if makes_heading(nodes[i], mcid) {
            assert(heading_text::role_level(nodes[i].role@) == headings::tag_level_from(
                mcid,
                nodes,
                i,
            ));
        } else if headings::tag_level_from(mcid, nodes, i) is Some {
            let level = headings::tag_level_from(mcid, nodes, i)->0;
            let k = choose|k: int|
                i + 1 <= k < nodes.len() && makes_heading(#[trigger] nodes[k], mcid)
                    && heading_text::role_level(nodes[k].role@) == Some(level) && forall|j: int|
                    i + 1 <= j < k ==> !makes_heading(#[trigger] nodes[j], mcid);
            assert(makes_heading(nodes[k], mcid));
        }
    }
}

/// Whether an outline entry points at a line: it gives no height on the page, or one within
/// one and a half line heights of the top of the line. A line is eight points high at least.
pub open spec fn points_near(line: ProjectedLine, page_height: int, y: Option<i32>) -> bool {
    match y {
        Some(y) => {
            let d = page_height - y - line.bbox.y;
            ||| y < 0 || y > page_height
            ||| -12_000 <= d <= 12_000
            ||| -3 * line.bbox.height <= 2 * d <= 3 * line.bbox.height
        },
        None => true,
    }
}

/// Whether a title names a line: one of the two texts begins with the other, and the line is
/// not much longer than the title: three times at most, or 120 characters, and with a sentence
/// in it at most fifteen characters longer.
pub open spec fn names(key: Seq<char>, title: Seq<char>) -> bool {
    let n = key.len() as int;
    let breaks = text::count_sentence_breaks(key, n);
    &&& title.len() > 0
    &&& title.is_prefix_of(key) || key.is_prefix_of(title)
    &&& n <= 3 * title.len() || n <= 120
    &&& breaks == 0 || (breaks == 1 && n <= title.len() + 15)
}

/// Whether an outline entry makes a line with the text `key` a heading.
pub open spec fn makes_titled(
    line: ProjectedLine,
    page_height: int,
    entry: OutlineTarget,
    key: Seq<char>,
) -> bool {
    points_near(line, page_height, entry.y_pdf) && names(
        key,
        heading_text::outline_key(entry.title@),
    )
}

proof fn lemma_prefix(s: Seq<char>, p: Seq<char>)
    ensures
        text::starts(s, p) == p.is_prefix_of(s),
{
    if p.len() <= s.len() {
        assert(s.subrange(0, 0 + p.len() as int) =~= s.subrange(0, p.len() as int));
    }
}

proof fn lemma_titled(line: ProjectedLine, page_height: int, entry: OutlineTarget, key: Seq<char>)
    ensures
        makes_titled(line, page_height, entry, key) == (headings::near_target(
            line,
            page_height,
            entry,
        ) && headings::matches_title(key, heading_text::outline_key(entry.title@))),
{
    let title = heading_text::outline_key(entry.title@);
    lemma_prefix(key, title);
    lemma_prefix(title, key);
}

/// A line has the level of the first outline entry that makes it a heading, six at most, and
/// none if there is none.
pub proof fn law_titled_level(
    line: ProjectedLine,
    page_height: int,
    outline: Seq<OutlineTarget>,
    key: Seq<char>,
    i: int,
)
    requires
        0 <= i <= outline.len(),
    ensures
        match headings::outline_level_from(line, page_height, outline, key, i) {
            Some(level) => exists|k: int|
                i <= k < outline.len() && makes_titled(
                    line,
                    page_height,
                    #[trigger] outline[k],
                    key,
                ) && level == (if outline[k].level > 6 {
                    6
                } else {
                    outline[k].level as int
                }) && forall|j: int|
                    i <= j < k ==> !makes_titled(line, page_height, #[trigger] outline[j], key),
            None => forall|k: int|
                i <= k < outline.len() ==> !makes_titled(
                    line,
                    page_height,
                    #[trigger] outline[k],
                    key,
                ),
        },
    decreases outline.len() - i,
{
    if i < outline.len() {
        law_titled_level(line, page_height, outline, key, i + 1);
        lemma_titled(line, page_height, outline[i], key);
        let found = headings::outline_level_from(line, page_height, outline, key, i);
        if makes_titled(line, page_height, outline[i], key) {
            assert(found is Some);
        } else if found is Some {
            let level = found->0;
            let k = choose|k: int|
                i + 1 <= k < outline.len() && makes_titled(
                    line,
                    page_height,
                    #[trigger] outline[k],
                    key,
                ) && level == (if outline[k].level > 6 {
                    6
                } else {
                    outline[k].level as int
                }) && forall|j: int|
                    i + 1 <= j < k ==> !makes_titled(line, page_height, #[trigger] outline[j], key);
            assert(makes_titled(line, page_height, outline[k], key));
        }
    }
}

// ---------------------------------------------------------------------------
// Headings in bold type
// ---------------------------------------------------------------------------

/// Whether all visible text of a line is bold, and none of it is monospaced.
pub open spec fn is_all_bold(spans: Seq<TextItem>) -> bool {
    &&& exists|i: int| 0 <= i < spans.len() && !text::is_blank((#[trigger] spans[i]).text@)
    &&& forall|i: int|
        0 <= i < spans.len() && !text::is_blank((#[trigger] spans[i]).text@) ==> spans[i].bold
            && !spans[i].mono
}

proof fn lemma_all_bold(spans: Seq<TextItem>)
    ensures
        span_text::all_runs_bold(spans) == is_all_bold(spans),
{
    inline_shape::lemma_visible_ascends(spans, spans.len() as int);
    let v = span_text::visible(spans);
    if is_all_bold(spans) {
        let i = choose|i: int| 0 <= i < spans.len() && !text::is_blank((#[trigger] spans[i]).text@);
        assert(v.contains(i));
    }
    if span_text::all_runs_bold(spans) {
        assert(!text::is_blank(spans[v[0]].text@));
        assert forall|i: int|
            0 <= i < spans.len() && !text::is_blank(
                (#[trigger] spans[i]).text@,
            ) implies spans[i].bold && !spans[i].mono by {
            assert(v.contains(i));
            let k = choose|k: int| 0 <= k < v.len() && v[k] == i;
            assert(spans[v[k]].bold);
        }
    }
}

/// A line of one sentence or less is a heading in bold type exactly where all of it is bold,
/// it has at most 80 characters, of which half or more are letters, it does not begin in lower
/// case or end with a full stop, it is no caption and no attribution, it does not fall into
/// three cells or more, and a paragraph begins with it. A paragraph begins behind it too,
/// unless it goes on in bold type.
pub proof fn law_bold_headings(
    line: ProjectedLine,
    prev: Option<ProjectedLine>,
    next: Option<ProjectedLine>,
)
    requires
        forall|i: int| !text::occurs_at(text::trim_of(line.text@), ". "@, i),
    ensures
        headings::is_bold_heading(line, prev, next) <==> ({
            let t = text::trim_of(line.text@);
            let n = t.len() as int;
            &&& 1 <= n <= 80
            &&& t[n - 1] != '.'
            &&& !text::is_lower(t[0])
            &&& 2 * text::count_visible_alpha(t, n) >= text::count_visible(t, n) > 0
            &&& !heading_text::is_caption(t)
            &&& !heading_text::is_attribution(t)
            &&& text::spaced_tokens_from(t, 0, false) <= 2
            &&& cells::cells_of(line).len() <= 2
            &&& is_all_bold(line.spans@)
            &&& prev matches Some(p) ==> !paragraphs::continues(p, line)
            &&& next matches Some(q) ==> !paragraphs::continues(line, q) || is_all_bold(q.spans@)
        }),
{
    let t = text::trim_of(line.text@);
    lemma_all_bold(line.spans@);
    if next is Some {
        lemma_all_bold(next->0.spans@);
    }
    assert forall|i: int| headings::first_break(t, i) implies !#[trigger] headings::runs_in(t, i) by {
        assert(!text::occurs_at(t, ". "@, i));
    }
}

// ---------------------------------------------------------------------------
// Captions
// ---------------------------------------------------------------------------

/// Whether a text is Latin letters and full stops.
pub open spec fn is_word(w: Seq<char>) -> bool {
    forall|i: int|
        0 <= i < w.len() ==> 'a' <= #[trigger] w[i] <= 'z' || 'A' <= w[i] <= 'Z' || w[i] == '.'
}

proof fn lemma_word_end(s: Seq<char>, i: int, n: int)
    requires
        0 <= i <= n <= s.len(),
        forall|k: int| i <= k < n ==> text::is_alpha(#[trigger] s[k]) || s[k] == '.',
        n < s.len() ==> !text::is_alpha(s[n]) && s[n] != '.',
    ensures
        heading_text::word_end(s, i) == n,
    decreases n - i,
{
    if i < n {
        assert(text::is_alpha(s[i]) || s[i] == '.');
        lemma_word_end(s, i + 1, n);
    }
}

/// A word that names a float, such as `Figure` or `Table`, and a number behind it make a
/// caption.
pub proof fn law_captions_are_read(
    lead: Seq<char>,
    word: Seq<char>,
    gap: Seq<char>,
    rest: Seq<char>,
)
    requires
        trimming::is_gap(lead),
        forall|i: int| 0 <= i < gap.len() ==> #[trigger] gap[i] == ' ',
        word.len() > 0,
        is_word(word),
        heading_text::is_caption_word(word),
        rest.len() > 0,
        '0' <= rest[0] <= '9',
    ensures
        heading_text::is_caption(lead + word + gap + rest),
{
    let t = word + gap + rest;
    let n = word.len() as int;
    assert('a' <= word[0] <= 'z' || 'A' <= word[0] <= 'Z' || word[0] == '.');
    assert(t[0] == word[0]);
    assert(lead + word + gap + rest =~= lead + t);
    trimming::law_front_is_trimmed(lead, t);
    assert forall|k: int| 0 <= k < n implies text::is_alpha(#[trigger] t[k]) || t[k] == '.' by {
        assert(t[k] == word[k]);
    }
    if gap.len() > 0 {
        assert(t[n] == gap[0]);
    } else {
        assert(t[n] == rest[0]);
    }
    lemma_word_end(t, 0, n);
    assert(t.take(n) =~= word);
    assert(t.skip(n) =~= gap + rest);
    assert forall|i: int| 0 <= i < gap.len() implies text::is_ws(#[trigger] gap[i]) by {
        assert(gap[i] == ' ');
    }
    trimming::law_front_is_trimmed(gap, rest);
}

// ---------------------------------------------------------------------------
// Tables of contents
// ---------------------------------------------------------------------------

/// How many of the first `n` numbers are smaller than the one before.
pub open spec fn drops(v: Seq<int>, n: int) -> int
    decreases n,
{
    if n <= 1 {
        0
    } else {
        drops(v, n - 1) + if v[n - 1] < v[n - 2] {
            1int
        } else {
            0
        }
    }
}

proof fn lemma_drops(v: Seq<int>, n: int)
    ensures
        n >= 1 ==> headings::ascents_upto(v, n) + drops(v, n) == n - 1,
    decreases n,
{
    if n > 1 {
        lemma_drops(v, n - 1);
    }
}

/// Whether an upright line is an entry of a table of contents.
pub open spec fn is_entry(line: ProjectedLine) -> bool {
    !font_sizes::is_rotated(line) && heading_text::is_toc_entry(line.text@)
}

/// Whether an upright line is an entry with a decimal page number.
pub open spec fn is_numbered_entry(line: ProjectedLine) -> bool {
    !font_sizes::is_rotated(line) && heading_text::toc_number(line.text@) is Some
}

/// The page number of an entry.
pub open spec fn page_of(line: ProjectedLine) -> int {
    heading_text::toc_number(line.text@)->0
}

proof fn lemma_toc(lines: Seq<ProjectedLine>, n: int)
    requires
        0 <= n <= lines.len(),
    ensures
        headings::toc_entries_upto(lines, n) == lines.take(n).filter(
            |l: ProjectedLine| is_entry(l),
        ).len(),
        headings::toc_numbers_upto(lines, n) == lines.take(n).filter(
            |l: ProjectedLine| is_numbered_entry(l),
        ).map_values(|l: ProjectedLine| page_of(l)),
    decreases n,
{
    reveal(Seq::filter);
    let f = |l: ProjectedLine| is_numbered_entry(l);
    let p = |l: ProjectedLine| page_of(l);
    let all = lines.take(n).filter(f).map_values(p);
    if n > 0 {
        lemma_toc(lines, n - 1);
        assert(lines.take(n).drop_last() =~= lines.take(n - 1));
        assert(lines.take(n).last() == lines[n - 1]);
        let before = lines.take(n - 1).filter(f);
        if f(lines[n - 1]) {
            assert(all =~= before.map_values(p).push(page_of(lines[n - 1])));
        }
    } else {
        assert(lines.take(n) =~= seq![]);
        assert(all =~= seq![]);
        assert(headings::toc_numbers_upto(lines, n) =~= seq![]);
    }
}

/// The lines of a page are a table of contents exactly where four or more are entries, three
/// or more have a decimal page number, and at most 30 percent of those numbers are smaller
/// than the one before.
pub proof fn law_table_of_contents(lines: Seq<ProjectedLine>)
    ensures
        headings::is_toc(lines) <==> ({
            let numbers = lines.filter(|l: ProjectedLine| is_numbered_entry(l)).map_values(
                |l: ProjectedLine| page_of(l),
            );
            let m = numbers.len() as int;
            &&& lines.filter(|l: ProjectedLine| is_entry(l)).len() >= 4
            &&& m >= 3
            &&& 100 * drops(numbers, m) <= 30 * (m - 1)
        }),
{
    lemma_toc(lines, lines.len() as int);
    assert(lines.take(lines.len() as int) =~= lines);
    let v = headings::toc_numbers_upto(lines, lines.len() as int);
    lemma_drops(v, v.len() as int);
}

/// The number that decimal digits spell.
pub open spec fn value_of(d: Seq<char>) -> int
    decreases d.len(),
{
    if d.len() == 0 {
        0
    } else {
        10 * value_of(d.drop_last()) + (d.last() as int - '0' as int)
    }
}

proof fn lemma_value(d: Seq<char>, n: int)
    requires
        0 <= n <= d.len(),
    ensures
        numbers::digits_value(d, n) == value_of(d.take(n)),
    decreases n,
{
    if n > 0 {
        lemma_value(d, n - 1);
        assert(d.take(n).drop_last() =~= d.take(n - 1));
        assert(d.take(n).last() == d[n - 1]);
    }
}

proof fn lemma_digits_start(s: Seq<char>, i: int, a: int)
    requires
        0 <= a <= i <= s.len(),
        forall|k: int| a <= k < i ==> '0' <= #[trigger] s[k] <= '9',
        a > 0 ==> !('0' <= s[a - 1] <= '9'),
    ensures
        heading_text::digits_start(s, i) == a,
    decreases i,
{
    if i > a {
        assert('0' <= s[i - 1] <= '9');
        lemma_digits_start(s, i - 1, a);
    }
}

proof fn lemma_leader_start(s: Seq<char>, i: int, a: int)
    requires
        0 <= a <= i <= s.len(),
        forall|k: int| a <= k < i ==> text::is_ws(#[trigger] s[k]) || s[k] == '.',
        a > 0 ==> !text::is_ws(s[a - 1]) && s[a - 1] != '.',
    ensures
        heading_text::leader_start(s, i) == a,
    decreases i,
{
    if i > a {
        assert(text::is_ws(s[i - 1]) || s[i - 1] == '.');
        lemma_leader_start(s, i - 1, a);
    }
}

proof fn lemma_alpha_of_front(s: Seq<char>, t: Seq<char>, n: int)
    requires
        0 <= n <= s.len(),
        n <= t.len(),
        forall|k: int| 0 <= k < n ==> s[k] == t[k],
    ensures
        text::count_alpha(s, n) == text::count_alpha(t, n),
    decreases n,
{
    if n > 0 {
        lemma_alpha_of_front(s, t, n - 1);
    }
}

/// A title with eight letters or more, white space and dots behind it, and a number of one to
/// four digits at the end is an entry of a table of contents with that page number.
pub proof fn law_entries_are_read(title: Seq<char>, leader: Seq<char>, number: Seq<char>)
    requires
        trimming::begins_with_ink(title),
        title.len() > 0,
        text::count_alpha(title, title.len() as int) >= 8,
        !text::is_ws(title.last()) && title.last() != '.' && !('0' <= title.last() <= '9'),
        forall|i: int|
            0 <= i < leader.len() ==> text::is_ws(#[trigger] leader[i]) || leader[i] == '.',
        exists|i: int| 0 <= i < leader.len() && text::is_ws(#[trigger] leader[i]),
        1 <= number.len() <= 4,
        forall|i: int| 0 <= i < number.len() ==> '0' <= #[trigger] number[i] <= '9',
    ensures
        heading_text::toc_number(title + leader + number) == Some(value_of(number)),
{
    let t = title + leader + number;
    let n = t.len() as int;
    let b = title.len() as int;
    let a = b + leader.len();
    let none = Seq::<char>::empty();
    assert(t[0] == title[0]);
    assert('0' <= number[number.len() - 1] <= '9');
    assert(t.last() == number[number.len() - 1]);
    trimming::law_trimmed_text(none, t, none);
    assert(none + t + none =~= t);
    assert forall|k: int| a <= k < n implies '0' <= #[trigger] t[k] <= '9' by {
        assert(t[k] == number[k - a]);
    }
    assert(leader.len() > 0);
    assert(text::is_ws(leader[leader.len() - 1]) || leader[leader.len() - 1] == '.');
    assert(t[a - 1] == leader[leader.len() - 1]);
    lemma_digits_start(t, n, a);
    assert forall|k: int| b <= k < a implies text::is_ws(#[trigger] t[k]) || t[k] == '.' by {
        assert(t[k] == leader[k - b]);
    }
    assert(t[b - 1] == title.last());
    lemma_leader_start(t, a, b);
    let i = choose|i: int| 0 <= i < leader.len() && text::is_ws(#[trigger] leader[i]);
    assert(text::is_ws(t[b + i]));
    lemma_alpha_of_front(t, title, b);
    assert(t.subrange(a, n) =~= number);
    lemma_value(number, number.len() as int);
    assert(number.take(number.len() as int) =~= number);
}

} // verus!
