//! What a line makes of itself when it is read: its level, its place in a list, its text.

use crate::font_sizes;
use crate::heading_shape;
use crate::heading_text;
use crate::headings;
use crate::lists::MarkerView;
use crate::page_classify;
use crate::reader;
use crate::reader::ReaderView;
use crate::region_classify;
use crate::region_reader;
use crate::region_reader::{RegionView, SettingView};
use crate::repetition;
use crate::size_shape;
use crate::span_text;
use crate::text;
use crate::types::{BlockView, ParsedPage, ProjectedLine};
use vstd::prelude::*;

verus! {

// ---------------------------------------------------------------------------
// List items
// ---------------------------------------------------------------------------

/// The first item of a list lies on level 0. Each item behind it lies on the level whose
/// indentation against the first one is nearest to its own, twelve points to each level. An
/// item keeps its marker, and has no emphasis as a whole.
pub proof fn law_items_of_a_list(s: ReaderView, lines: Seq<ProjectedLine>, i: int, m: MarkerView)
    ensures
        ({
            let t = reader::with_item(s, lines, i, m);
            let b = t.blocks.last();
            let base = t.list_base->0;
            &&& t.blocks.len() > 0
            &&& b is ListItem
            &&& b->ordered == m.ordered
            &&& b->marker == m.marker
            &&& !b->ListItem_bold && !b->ListItem_italic
            &&& t.list_base is Some
            &&& s.list_base is None ==> base == lines[i].indent_x && b->ListItem_level == 0
            &&& s.list_base is Some ==> base == s.list_base->0
            &&& b->ListItem_level > 0 ==> 12_000 * b->ListItem_level - 6_000 <= lines[i].indent_x
                - base
            &&& b->ListItem_level < 255 ==> lines[i].indent_x - base < 12_000 * b->ListItem_level
                + 6_000
        }),
{
}

/// A heading, a line of code, and a paragraph that begins end the list before them: the next
/// item is the first one of a list.
pub proof fn law_lists_end(s: ReaderView, lines: Seq<ProjectedLine>, i: int, level: u8, t: Seq<char>)
    ensures
        reader::with_heading(s, level, t).list_base is None,
        reader::with_code_line(s, lines[i]).list_base is None,
        s.paragraph is None ==> reader::with_text_line(s, lines, i).list_base is None,
{
}

proof fn lemma_marked(mark: Seq<char>, marker: Seq<char>, x: Seq<char>)
    ensures
        ({
            let p = span_text::wrapped(mark, marker).push(' ');
            text::starts(p + x, p) && text::after_prefix(p + x, p) == Some(x)
        }),
{
    let p = span_text::wrapped(mark, marker).push(' ');
    assert((p + x).subrange(0, 0 + p.len() as int) =~= p);
    assert((p + x).skip(p.len() as int) =~= x);
}

proof fn lemma_unlike(s: Seq<char>, p: Seq<char>, k: int)
    requires
        0 <= k < s.len(),
        k < p.len(),
        s[k] != p[k],
    ensures
        !text::starts(s, p),
{
    if text::starts(s, p) {
        assert(s.subrange(0, 0 + p.len() as int)[k] == p[k]);
    }
}

/// The text of a list item in several styles is that of its line without the marker, whether
/// the marker stands bare or in emphasis or code marks of its own.
pub proof fn law_markers_are_stripped(line: ProjectedLine, marker: Seq<char>, rest: Seq<char>, x: Seq<char>)
    requires
        span_text::uniform_style(line.spans@) is None,
        marker.len() > 0,
        marker[0] != '*' && marker[0] != '`',
        ({
            let s = span_text::inline_text(line);
            ||| s == marker.push(' ') + x
            ||| s == span_text::wrapped(seq!['`'], marker).push(' ') + x
            ||| s == span_text::wrapped(seq!['*'], marker).push(' ') + x
            ||| s == span_text::wrapped(seq!['*', '*'], marker).push(' ') + x
            ||| s == span_text::wrapped(seq!['*', '*', '*'], marker).push(' ') + x
        }),
    ensures
        span_text::list_item_text(line, marker, rest) == x,
{
    reveal_strlit("***");
    reveal_strlit("**");
    reveal_strlit("*");
    reveal_strlit("`");
    assert("***"@ =~= seq!['*', '*', '*']);
    assert("**"@ =~= seq!['*', '*']);
    assert("*"@ =~= seq!['*']);
    assert("`"@ =~= seq!['`']);
    let s = span_text::inline_text(line);
    let p3 = span_text::wrapped("***"@, marker).push(' ');
    let p2 = span_text::wrapped("**"@, marker).push(' ');
    let p1 = span_text::wrapped("*"@, marker).push(' ');
    let pc = span_text::wrapped("`"@, marker).push(' ');
    assert(p3[0] == '*' && p3[1] == '*' && p3[2] == '*' && p3[3] == marker[0]);
    assert(p2[0] == '*' && p2[1] == '*' && p2[2] == marker[0]);
    assert(p1[0] == '*' && p1[1] == marker[0]);
    assert(pc[0] == '`' && pc[1] == marker[0]);
    if s == p3 + x {
        lemma_marked("***"@, marker, x);
    } else if s == p2 + x {
        lemma_marked("**"@, marker, x);
        assert(s[2] == marker[0]);
        lemma_unlike(s, p3, 2);
    } else if s == p1 + x {
        lemma_marked("*"@, marker, x);
        assert(s[1] == marker[0]);
        lemma_unlike(s, p3, 1);
        lemma_unlike(s, p2, 1);
    } else if s == pc + x {
        lemma_marked("`"@, marker, x);
        assert(s[0] == '`');
        lemma_unlike(s, p3, 0);
        lemma_unlike(s, p2, 0);
        lemma_unlike(s, p1, 0);
    } else {
        let p = marker.push(' ');
        assert(s[0] == marker[0]);
        lemma_unlike(s, p3, 0);
        lemma_unlike(s, p2, 0);
        lemma_unlike(s, p1, 0);
        lemma_unlike(s, pc, 0);
        assert((p + x).subrange(0, 0 + p.len() as int) =~= p);
        assert((p + x).skip(p.len() as int) =~= x);
    }
}

// ---------------------------------------------------------------------------
// Heading levels
// ---------------------------------------------------------------------------

/// Whether the font size of a line makes it a heading of a level: it is within six tenths of a
/// point of a heading size, and the line has at most 140 characters and is neither a caption
/// nor an attribution.
pub open spec fn is_sized(line: ProjectedLine, map: Seq<(i32, u8)>, level: u8) -> bool {
    let t = text::trim_of(line.text@);
    &&& t.len() <= 140
    &&& !heading_text::is_caption(t)
    &&& !heading_text::is_attribution(t)
    &&& exists|k: int|
        0 <= k < map.len() && size_shape::is_near(
            line.dominant_font_size as int,
            (#[trigger] map[k]).0 as int,
        ) && (1 <= map[k].1 <= 6 ==> level == map[k].1)
}

/// A line has the heading level of its structure tag, if it has one; else that of the outline;
/// else that of its font size; else the title of a table of contents has level 1. On a page of
/// contents only the tags and the first title count. Levels go from 1 to 6.
pub proof fn law_heading_levels(
    s: RegionView,
    set: SettingView,
    lines: Seq<ProjectedLine>,
    i: int,
)
    ensures
        ({
            let line = lines[i];
            let t = text::trim_of(line.text@);
            let level = region_reader::line_level(s, set, lines, i);
            let tagged = headings::tag_level(line, set.nodes);
            let outlined = headings::outline_level(line, set.page_height, set.outline, t);
            let title = heading_text::is_contents_title(t) && !s.title_seen;
            let counts = !set.toc || title;
            &&& level matches Some(n) ==> 1 <= n <= 6
            &&& tagged is Some ==> level is Some && level->0 == tagged->0
            &&& tagged is None && counts && outlined is Some && outlined->0 >= 1 ==> level is Some
                && level->0 == outlined->0
            &&& tagged is None && !counts ==> level is None
            &&& tagged is None && outlined is None && level is Some ==> is_sized(
                line,
                set.map,
                level->0,
            ) || (title && level->0 == 1)
            &&& title ==> level is Some
        }),
{
    let line = lines[i];
    let t = text::trim_of(line.text@);
    match line.mcid {
        Some(m) => {
            heading_shape::law_tagged_level(m, set.nodes, 0);
            if headings::tag_level(line, set.nodes) is Some {
                let l = headings::tag_level(line, set.nodes)->0;
                let k = choose|k: int|
                    0 <= k < set.nodes.len() && heading_shape::makes_heading(
                        #[trigger] set.nodes[k],
                        m,
                    ) && heading_text::role_level(set.nodes[k].role@) == Some(l);
                heading_shape::law_role_levels(set.nodes[k].role@);
            }
        },
        None => {},
    }
    let key = heading_text::outline_key(t);
    heading_shape::law_titled_level(line, set.page_height, set.outline, key, 0);
    size_shape::law_level_of_size(line.dominant_font_size as int, set.map, 0);
}

// ---------------------------------------------------------------------------
// Lines that are read
// ---------------------------------------------------------------------------

proof fn lemma_kept(page: ParsedPage, header_footer: Set<Seq<char>>, n: int)
    requires
        0 <= n <= page.projected_lines@.len(),
    ensures
        page_classify::kept_upto(page, header_footer, n) == page.projected_lines@.take(n).filter(
            |l: ProjectedLine| !repetition::is_running_line(l, page, header_footer),
        ),
        region_classify::kept_upto(page, header_footer, seq![], n) == page.projected_lines@.take(
            n,
        ).filter(|l: ProjectedLine| !repetition::is_running_line(l, page, header_footer)),
    decreases n,
{
    reveal(Seq::filter);
    let v = page.projected_lines@;
    if n > 0 {
        lemma_kept(page, header_footer, n - 1);
        assert(v.take(n).drop_last() =~= v.take(n - 1));
        assert(v.take(n).last() == v[n - 1]);
    } else {
        assert(v.take(n) =~= seq![]);
        assert(page_classify::kept_upto(page, header_footer, n) =~= seq![]);
        assert(region_classify::kept_upto(page, header_footer, seq![], n) =~= seq![]);
    }
}

/// All lines of a page are read but the running ones.
pub proof fn law_lines_are_kept(page: ParsedPage, header_footer: Set<Seq<char>>)
    ensures
        ({
            let n = page.projected_lines@.len() as int;
            let kept = page.projected_lines@.filter(
                |l: ProjectedLine| !repetition::is_running_line(l, page, header_footer),
            );
            &&& page_classify::kept_lines(page, header_footer) == kept
            &&& region_classify::kept_upto(page, header_footer, seq![], n) == kept
        }),
{
    let v = page.projected_lines@;
    lemma_kept(page, header_footer, v.len() as int);
    assert(v.take(v.len() as int) =~= v);
}

/// Where a page is read on its own, a line in a heading size is a heading of the level of that
/// size, with its text.
pub proof fn law_page_headings_by_size(
    s: ReaderView,
    lines: Seq<ProjectedLine>,
    i: int,
    map: Seq<(i32, u8)>,
    k: int,
)
    requires
        !text::is_blank(lines[i].text@),
        !font_sizes::is_rotated(lines[i]),
        !lines[i].all_mono,
        0 <= k < map.len(),
        size_shape::is_near(lines[i].dominant_font_size as int, map[k].0 as int),
        forall|j: int|
            0 <= j < k ==> !size_shape::is_near(
                lines[i].dominant_font_size as int,
                (#[trigger] map[j]).0 as int,
            ),
    ensures
        ({
            let t = page_classify::read_line(s, lines, i, map);
            &&& t.blocks.len() > 0
            &&& t.blocks.last() == BlockView::Heading {
                level: map[k].1,
                text: text::collapse_of(text::trim_of(lines[i].text@)),
            }
        }),
{
    size_shape::law_level_of_size(lines[i].dominant_font_size as int, map, 0);
    let level = font_sizes::level_from(lines[i].dominant_font_size as int, map, 0)->0;
    let q = choose|q: int|
        0 <= q < map.len() && size_shape::is_near(
            lines[i].dominant_font_size as int,
            (#[trigger] map[q]).0 as int,
        ) && map[q].1 == level && forall|j: int|
            0 <= j < q ==> !size_shape::is_near(
                lines[i].dominant_font_size as int,
                (#[trigger] map[j]).0 as int,
            );
    assert(q == k) by {
        if q < k {
            assert(!size_shape::is_near(
                lines[i].dominant_font_size as int,
                map[q].0 as int,
            ));
        } else if k < q {
            assert(!size_shape::is_near(
                lines[i].dominant_font_size as int,
                map[k].0 as int,
            ));
        }
    }
}

} // verus!
