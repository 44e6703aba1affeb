//! Reading the lines of one region into blocks, with headings known from tags,
//! the outline, font sizes and bold type.

use vstd::prelude::*;
use vstd::string::*;
use crate::font_sizes;
use crate::heading_text;
use crate::headings;
use crate::lists;
use crate::page_headings;
use crate::paragraphs;
use crate::paragraphs::{ParaAccum, ParaView};
use crate::reader;
use crate::reader::{Reader, ReaderView};
use crate::span_text;
use crate::text;
use crate::types;
use crate::types::{Block, BlockView, OutlineTarget, ProjectedLine, StructNode};

verus! {

/// What is known of a page when one of its regions is read: its height, its
/// structure tags, the heading sizes of the document, its outline, and whether
/// the page is a table of contents.
pub struct Setting<'a> {
    pub page_height: i32,
    pub nodes: &'a Vec<StructNode>,
    pub map: &'a Vec<(i32, u8)>,
    pub outline: &'a Vec<OutlineTarget>,
    pub toc: bool,
}

/// The contents of a `Setting`.
pub struct SettingView {
    pub page_height: int,
    pub nodes: Seq<StructNode>,
    pub map: Seq<(i32, u8)>,
    pub outline: Seq<OutlineTarget>,
    pub toc: bool,
}

impl<'a> View for Setting<'a> {
    type V = SettingView;

    open spec fn view(&self) -> SettingView {
        SettingView {
            page_height: self.page_height as int,
            nodes: self.nodes@,
            map: self.map@,
            outline: self.outline@,
            toc: self.toc,
        }
    }
}

/// The state of reading a region: the blocks so far and what is open, the heading
/// that the next line may continue by its level and its last line, and whether
/// the title of a table of contents was seen.
pub struct RegionReader {
    pub reader: Reader,
    pub heading_run: Option<(u8, usize)>,
    pub title_seen: bool,
}

/// The contents of a `RegionReader`.
#[verifier::ext_equal]
pub struct RegionView {
    pub reader: ReaderView,
    pub heading_run: Option<(u8, int)>,
    pub title_seen: bool,
}

pub open spec fn run_view(r: Option<(u8, usize)>) -> Option<(u8, int)> {
    match r {
        Some(p) => Some((p.0, p.1 as int)),
        None => None,
    }
}

impl View for RegionReader {
    type V = RegionView;

    open spec fn view(&self) -> RegionView {
        RegionView {
            reader: self.reader@,
            heading_run: run_view(self.heading_run),
            title_seen: self.title_seen,
        }
    }
}

/// The state before the first line.
pub open spec fn fresh_region() -> RegionView {
    RegionView { reader: reader::fresh(), heading_run: None, title_seen: false }
}

/// Whether the lines that the state refers to are among the first `n`.
pub open spec fn region_within(s: RegionView, n: int) -> bool {
    &&& reader::reads_within(s.reader, n)
    &&& s.heading_run is Some ==> 0 <= (s.heading_run->0).1 < n
}

// ---------------------------------------------------------------------------
// The level of a line
// ---------------------------------------------------------------------------

/// Whether a text is the first title of a table of contents.
pub open spec fn is_first_title(s: RegionView, t: Seq<char>) -> bool {
    heading_text::is_contents_title(t) && !s.title_seen
}

/// Whether a line of a table of contents must not become a heading.
pub open spec fn is_suppressed(s: RegionView, set: SettingView, t: Seq<char>) -> bool {
    set.toc && !is_first_title(s, t)
}

/// Whether the font size of a line may make it a heading: it does not continue
/// the line before in lower case, is no long text, no attribution, and no label that
/// leads into a paragraph.
pub open spec fn size_counts(line: ProjectedLine, prev: Option<ProjectedLine>, t: Seq<char>) -> bool {
    &&& !(text::is_lower(t[0]) && prev is Some && paragraphs::continues(prev->0, line))
    &&& t.len() <= headings::HEADING_MAX_TEXT_CHARS
    &&& !heading_text::is_attribution(t)
    &&& !(forall|i: int| headings::first_break(t, i) ==> #[trigger] few_words_behind(t, i))
        ==> !text::ends_char(text::trim_end_of(t), '-')
}

/// Whether fewer than three words follow the sentence of `t` that ends at `i`.
pub open spec fn few_words_behind(t: Seq<char>, i: int) -> bool {
    let after = text::trim_of(t.skip(i + 2));
    text::count_words(after, after.len() as int) < 3
}

/// The heading level that the font size gives to a line.
pub open spec fn size_level(
    line: ProjectedLine,
    prev: Option<ProjectedLine>,
    map: Seq<(i32, u8)>,
    t: Seq<char>,
) -> Option<int> {
    match font_sizes::level_from(line.dominant_font_size as int, map, 0) {
        Some(level) => if !heading_text::is_caption(t) && size_counts(line, prev, t) {
            Some(level as int)
        } else {
            None
        },
        None => None,
    }
}

/// The heading level of a line: from its structure tag, else the outline, else
/// its font size, else the first level for the title of a table of contents.
pub open spec fn line_level(
    s: RegionView,
    set: SettingView,
    lines: Seq<ProjectedLine>,
    i: int,
) -> Option<u8> {
    let line = lines[i];
    let t = text::trim_of(line.text@);
    let suppressed = is_suppressed(s, set, t);
    let tagged = headings::tag_level(line, set.nodes);
    let outlined = headings::outline_level(line, set.page_height, set.outline, t);
    let sized = size_level(line, reader::line_before(s.reader, lines), set.map, t);
    if tagged is Some {
        Some(font_sizes::clamped_level(tagged->0 as u8))
    } else if !suppressed && outlined is Some {
        Some(font_sizes::clamped_level(outlined->0 as u8))
    } else if !suppressed && sized is Some {
        Some(font_sizes::clamped_level(sized->0 as u8))
    } else if is_first_title(s, t) {
        Some(1)
    } else {
        None
    }
}

fn size_may_count(line: &ProjectedLine, prev: Option<&ProjectedLine>, t: &str) -> (r: bool)
    requires
        t@.len() > 0,
    ensures
        r == size_counts(*line, page_headings::pointed(prev), t@),
{
    let flows: bool = match prev {
        Some(p) => t.get_char(0).is_lowercase() && paragraphs::continues_paragraph(p, line),
        None => false,
    };
    if flows || t.unicode_len() > headings::HEADING_MAX_TEXT_CHARS {
        return false;
    }
    if heading_text::is_attribution_line(t) {
        return false;
    }
    proof {
        reveal_strlit(". ");
    }
    if !text::ends_with_char(text::trim_end(t), '-') {
        return true;
    }
    match text::find_str(t, ". ") {
        Some(i) => {
            let few: bool = text::word_count(text::trim(text::skip_chars(t, i + 2))) < 3;
            proof {
                assert(headings::first_break(t@, i as int));
                assert(few == few_words_behind(t@, i as int));
                assert forall|j: int| headings::first_break(t@, j) implies j == i by {
                    assert(text::occurs_at(t@, ". "@, j));
                }
            }
            few
        },
        None => true,
    }
}

fn level_of_line(
    s: &RegionReader,
    set: &Setting,
    lines: &Vec<ProjectedLine>,
    i: usize,
    t: &str,
) -> (r: Option<u8>)
    requires
        i < lines@.len(),
        t@ == text::trim_of(lines@[i as int].text@),
        t@.len() > 0,
        region_within(s@, lines@.len() as int),
    ensures
        r == line_level(s@, set@, lines@, i as int),
{
    let line = &lines[i];
    let first_title: bool = heading_text::is_toc_title(t) && !s.title_seen;
    let suppressed: bool = set.toc && !first_title;
    match headings::struct_heading_level(line, set.nodes) {
        Some(n) => {
            return Some(font_sizes::clamp_level(n));
        },
        None => {},
    }
    if !suppressed {
        match headings::outline_heading_level(line, set.page_height, set.outline, t) {
            Some(n) => {
                return Some(font_sizes::clamp_level(n));
            },
            None => {},
        }
        match font_sizes::heading_level_for(line.dominant_font_size, set.map) {
            Some(n) => {
                let prev: Option<&ProjectedLine> = match s.reader.previous_line() {
                    Some(k) => Some(&lines[k]),
                    None => None,
                };
                if !heading_text::is_caption_line(t) && size_may_count(line, prev, t) {
                    return Some(font_sizes::clamp_level(n));
                }
            },
            None => {},
        }
    }
    if first_title {
        Some(1)
    } else {
        None
    }
}

// ---------------------------------------------------------------------------
// Headings over several lines
// ---------------------------------------------------------------------------

/// The heading that line `i` continues, by its level and text: the last block is
/// a heading that was read from a line that it continues.
pub open spec fn open_heading(s: RegionView, lines: Seq<ProjectedLine>, i: int) -> Option<
    (u8, Seq<char>),
> {
    match s.heading_run {
        Some(run) => if paragraphs::heading_continues(lines[run.1], lines[i])
            && s.reader.blocks.len() > 0 {
            match s.reader.blocks.last() {
                BlockView::Heading { level, text } => if level == run.0 {
                    Some((level, text))
                } else {
                    None
                },
                _ => None,
            }
        } else {
            None
        },
        None => None,
    }
}

/// Whether a heading with the text `h` can be continued by `t`.
pub open spec fn fits_heading(h: Seq<char>, t: Seq<char>) -> bool {
    h.len() + 1 + t.len() <= headings::HEADING_MAX_TEXT_CHARS
}

/// The state after line `i` continued the last block, a heading with the text
/// `h`.
pub open spec fn with_heading_line(
    s: RegionView,
    level: u8,
    h: Seq<char>,
    t: Seq<char>,
    i: int,
) -> RegionView {
    RegionView {
        reader: ReaderView {
            blocks: s.reader.blocks.drop_last().push(
                BlockView::Heading {
                    level,
                    text: span_text::continued(h, t, text::collapse_of(t)),
                },
            ),
            ..s.reader
        },
        heading_run: Some((level, i)),
        ..s
    }
}

/// The state after the last block, a heading with the text `h`, became a
/// paragraph that is still open.
pub open spec fn heading_demoted(s: RegionView, h: Seq<char>) -> RegionView {
    RegionView {
        reader: ReaderView {
            blocks: s.reader.blocks.drop_last(),
            paragraph: Some(
                ParaView { raw: h, inline_text: h, last: (s.heading_run->0).1, uniform: None },
            ),
            ..s.reader
        },
        heading_run: None,
        ..s
    }
}

/// The state after a heading with the text `t`. Where `run` is set, the next line
/// may continue it.
pub open spec fn with_new_heading(
    s: RegionView,
    level: u8,
    t: Seq<char>,
    i: int,
    run: bool,
) -> RegionView {
    RegionView {
        reader: reader::with_heading(s.reader, level, t),
        heading_run: if run {
            Some((level, i))
        } else {
            s.heading_run
        },
        ..s
    }
}

// ---------------------------------------------------------------------------
// One line
// ---------------------------------------------------------------------------

/// The state after line `i`, which is no heading by its level.
pub open spec fn read_plain(
    s: RegionView,
    map: Seq<(i32, u8)>,
    suppressed: bool,
    lines: Seq<ProjectedLine>,
    i: int,
) -> RegionView {
    let line = lines[i];
    let t = text::trim_of(line.text@);
    let prev = reader::line_before(s.reader, lines);
    let below = font_sizes::next_level(map.len() as int);
    match lists::list_marker(t) {
        Some(m) => if m.ordered && !suppressed && headings::is_numbered_bold_heading(
            line,
            m.rest,
            prev,
        ) {
            with_new_heading(s, below, t, i, false)
        } else {
            RegionView { reader: reader::with_item(s.reader, lines, i, m), ..s }
        },
        None => if reader::continues_item(s.reader, lines, i) {
            RegionView { reader: reader::with_item_line(s.reader, lines, i), ..s }
        } else if !suppressed && headings::is_bold_heading(
            line,
            prev,
            reader::line_behind(lines, i),
        ) {
            with_new_heading(s, below, t, i, true)
        } else {
            RegionView { reader: reader::with_text_line(s.reader, lines, i), ..s }
        },
    }
}

/// The state after line `i`, which belongs to no table.
pub open spec fn read_region_line(
    s: RegionView,
    set: SettingView,
    lines: Seq<ProjectedLine>,
    i: int,
) -> RegionView {
    let line = lines[i];
    let t = text::trim_of(line.text@);
    if t.len() == 0 || font_sizes::is_rotated(line) {
        s
    } else if line.all_mono {
        RegionView { reader: reader::with_code_line(s.reader, line), ..s }
    } else {
        let u = RegionView { reader: reader::flushed_code(s.reader), ..s };
        let suppressed = is_suppressed(u, set, t);
        let v = RegionView { title_seen: u.title_seen || heading_text::is_contents_title(t), ..u };
        let open = open_heading(v, lines, i);
        match line_level(u, set, lines, i) {
            Some(level) => if open is Some && (open->0).0 == level {
                if fits_heading((open->0).1, t) {
                    with_heading_line(v, level, (open->0).1, t, i)
                } else {
                    read_plain(heading_demoted(v, (open->0).1), set.map, suppressed, lines, i)
                }
            } else {
                with_new_heading(v, level, t, i, true)
            },
            None => if open is Some && lists::list_marker(t) is None && !text::has_substr(t, ". "@)
                && fits_heading((open->0).1, t) {
                with_heading_line(v, (open->0).0, (open->0).1, t, i)
            } else {
                read_plain(v, set.map, suppressed, lines, i)
            },
        }
    }
}

impl RegionReader {
    /// The state before the first line.
    pub fn new() -> (r: RegionReader)
        ensures
            r@ == fresh_region(),
    {
        RegionReader { reader: Reader::new(), heading_run: None, title_seen: false }
    }

    /// The heading that line `i` continues.
    fn heading_before(&self, lines: &Vec<ProjectedLine>, i: usize) -> (r: Option<(u8, String)>)
        requires
            i < lines@.len(),
            region_within(self@, lines@.len() as int),
        ensures
            match r {
                Some(p) => open_heading(self@, lines@, i as int) == Some((p.0, p.1@)),
                None => open_heading(self@, lines@, i as int) is None,
            },
    {
        let run: (u8, usize) = match self.heading_run {
            Some(p) => p,
            None => {
                return None;
            },
        };
        if !paragraphs::continues_heading(&lines[run.1], &lines[i]) {
            return None;
        }
        let n: usize = self.reader.blocks.len();
        if n == 0 {
            return None;
        }
        proof {
            assert(self@.reader.blocks.last() == self.reader.blocks@[n - 1]@);
        }
        match &self.reader.blocks[n - 1] {
            Block::Heading { level, text } => if *level == run.0 {
                Some((*level, text.clone()))
            } else {
                None
            },
            _ => None,
        }
    }

    /// Continue the last block, a heading with the text `h`, by line `i`.
    fn continue_heading(&mut self, level: u8, h: String, t: &str, i: usize)
        requires
            old(self)@.reader.blocks.len() > 0,
        ensures
            final(self)@ == with_heading_line(old(self)@, level, h@, t@, i as int),
    {
        let ghost before = self@.reader.blocks;
        let mut joined: String = h;
        let flat: String = text::collapse_whitespace(t);
        span_text::append_inline_continuation(&mut joined, t, flat.as_str());
        let b = Block::Heading { level, text: joined };
        let last: usize = self.reader.blocks.len() - 1;
        proof {
            assert(types::block_views(self.reader.blocks@.update(last as int, b))
                =~= before.drop_last().push(b@));
        }
        self.reader.blocks.set(last, b);
        self.heading_run = Some((level, i));
    }

    /// Turn the last block, a heading with the text `h`, into an open paragraph.
    fn demote_heading(&mut self, h: String)
        requires
            old(self)@.reader.blocks.len() > 0,
            old(self)@.heading_run is Some,
        ensures
            final(self)@ == heading_demoted(old(self)@, h@),
    {
        let ghost before = self@.reader.blocks;
        let run: (u8, usize) = match self.heading_run {
            Some(p) => p,
            None => (0, 0),
        };
        let _ = self.reader.blocks.pop();
        proof {
            assert(types::block_views(self.reader.blocks@) =~= before.drop_last());
        }
        let copy: String = h.clone();
        self.reader.paragraph = Some(
            ParaAccum { raw: h, inline_text: copy, last: run.1, uniform: None },
        );
        self.heading_run = None;
    }

    /// Read line `i`, which is no heading by its level.
    fn read_plain_line(
        &mut self,
        map: &Vec<(i32, u8)>,
        suppressed: bool,
        lines: &Vec<ProjectedLine>,
        i: usize,
    )
        requires
            i < lines@.len(),
            region_within(old(self)@, lines@.len() as int),
            font_sizes::map_fits(map@),
        ensures
            final(self)@ == read_plain(old(self)@, map@, suppressed, lines@, i as int),
            region_within(final(self)@, lines@.len() as int),
    {
        let line = &lines[i];
        let t = text::trim(line.text.as_str());
        let prev: Option<&ProjectedLine> = match self.reader.previous_line() {
            Some(k) => Some(&lines[k]),
            None => None,
        };
        match lists::parse_list_marker(t) {
            Some(m) => {
                if m.0 && !suppressed && headings::looks_like_numbered_bold_heading(
                    line,
                    m.2,
                    prev,
                ) {
                    self.reader.push_heading(font_sizes::level_below(map), t);
                } else {
                    self.reader.push_item(lines, i, m.0, m.1, m.2);
                }
                return ;
            },
            None => {},
        }
        if self.reader.try_continue_item(lines, i) {
            return ;
        }
        let next: Option<&ProjectedLine> = if lines.len() - i > 1 {
            Some(&lines[i + 1])
        } else {
            None
        };
        if !suppressed && headings::looks_like_bold_heading(line, prev, next) {
            let level: u8 = font_sizes::level_below(map);
            self.reader.push_heading(level, t);
            self.heading_run = Some((level, i));
            return ;
        }
        self.reader.push_text_line(lines, i);
    }

    /// Read line `i`, which belongs to no table.
    pub fn read_line(&mut self, set: &Setting, lines: &Vec<ProjectedLine>, i: usize)
        requires
            i < lines@.len(),
            region_within(old(self)@, lines@.len() as int),
            font_sizes::map_fits(set.map@),
        ensures
            final(self)@ == read_region_line(old(self)@, set@, lines@, i as int),
            region_within(final(self)@, lines@.len() as int),
    {
        let line = &lines[i];
        let t = text::trim(line.text.as_str());
        if t.is_empty() || font_sizes::is_rotated_line(line) {
            return ;
        }
        if line.all_mono {
            self.reader.push_code_line(line);
            return ;
        }
        self.reader.flush_code();
        let level: Option<u8> = level_of_line(self, set, lines, i, t);
        let title: bool = heading_text::is_toc_title(t);
        let suppressed: bool = set.toc && !(title && !self.title_seen);
        if title {
            self.title_seen = true;
        }
        let open: Option<(u8, String)> = self.heading_before(lines, i);
        let len: usize = t.unicode_len();
        match level {
            Some(l) => {
                match open {
                    Some(p) => {
                        if p.0 == l {
                            let room: usize = p.1.as_str().unicode_len();
                            if room < headings::HEADING_MAX_TEXT_CHARS && len
                                < headings::HEADING_MAX_TEXT_CHARS - room {
                                self.continue_heading(l, p.1, t, i);
                            } else {
                                self.demote_heading(p.1);
                                self.read_plain_line(set.map, suppressed, lines, i);
                            }
                            return ;
                        }
                    },
                    None => {},
                }
                self.reader.push_heading(l, t);
                self.heading_run = Some((l, i));
            },
            None => {
                match open {
                    Some(p) => {
                        let room: usize = p.1.as_str().unicode_len();
                        if lists::parse_list_marker(t).is_none() && !text::contains_str(t, ". ")
                            && room < headings::HEADING_MAX_TEXT_CHARS && len
                            < headings::HEADING_MAX_TEXT_CHARS - room {
                            self.continue_heading(p.0, p.1, t, i);
                            return ;
                        }
                    },
                    None => {},
                }
                self.read_plain_line(set.map, suppressed, lines, i);
            },
        }
    }
}

/// Lines that are captions or attributions are no headings by their size or their bold
/// type, and every heading level is between 1 and 6.
pub proof fn law_captions_are_no_headings(
    s: RegionView,
    set: SettingView,
    lines: Seq<ProjectedLine>,
    i: int,
    next: Option<ProjectedLine>,
)
    ensures
        ({
            let t = text::trim_of(lines[i].text@);
            let prev = reader::line_before(s.reader, lines);
            heading_text::is_caption(t) || heading_text::is_attribution(t) ==> size_level(
                lines[i],
                prev,
                set.map,
                t,
            ) is None && !headings::is_bold_heading(lines[i], prev, next)
        }),
        line_level(s, set, lines, i) is Some ==> 1 <= line_level(s, set, lines, i)->0
            <= font_sizes::MAX_HEADING_LEVELS,
{
}

} // verus!
