//! Reading the characters of a page, one after the other.

use vstd::prelude::*;
use vstd::string::*;
use crate::code_points;
use crate::code_points::Color;
use crate::item_marks;
use crate::item_marks::EdgeBox;
use crate::numbers;
use crate::segments;
use crate::segments::{CharFacts, Placement, ReadingView, SegmentBuilder};
use crate::sort;
use crate::text;
use crate::types;
use crate::types::TextItem;

verus! {

// ---------------------------------------------------------------------------
// Runs
// ---------------------------------------------------------------------------

fn height_of(b: &EdgeBox) -> (r: i64)
    ensures
        r == item_marks::distance(b.bottom as int, b.top as int),
        0 <= r <= 0x1_0000_0000,
{
    if b.bottom >= b.top {
        b.bottom as i64 - b.top as i64
    } else {
        b.top as i64 - b.bottom as i64
    }
}

/// The size of a character: its font size, or the height of its loose box where that is
/// not known.
pub fn char_size(ch: &CharFacts, loose: &EdgeBox) -> (r: i64)
    ensures
        r == segments::size_of_char(*ch, *loose),
        0 <= r <= 0x1_0000_0000,
{
    if ch.font_size > 0 {
        ch.font_size as i64
    } else {
        height_of(loose)
    }
}

fn scale_size(size: i64, scale: i32) -> (r: i32)
    requires
        0 <= size <= 0x1_0000_0000,
    ensures
        r == segments::scaled(size as int, scale as int),
{
    proof {
        let a = size as int;
        let b = scale as int;
        assert(-0x8000_0000_0000_0000 <= a * b <= 0x8000_0000_0000_0000) by (nonlinear_arith)
            requires
                0 <= a <= 0x1_0000_0000,
                -0x8000_0000 <= b <= 0x7FFF_FFFF,
        ;
    }
    types::clamp32(
        numbers::floor_div(2 * ((size as i128) * (scale as i128)) + 1_000_000, 2_000_000),
    )
}

fn color_string(c: &Option<Color>) -> (r: Option<String>)
    ensures
        types::option_text(r) == segments::color_text(*c),
{
    match c {
        Some(v) => Some(code_points::color_to_argb_hex(v)),
        None => None,
    }
}

/// The first letter of a text with plain punctuation, then the rest of the text.
fn push_text(out: &mut String, t: &str)
    requires
        t@.len() > 0,
    ensures
        final(out)@ == old(out)@.push(segments::letter_of(t@)) + t@.skip(1),
{
    out.push(code_points::normalize_punct(t.get_char(0)));
    out.append(text::skip_chars(t, 1));
}

fn smaller(a: i32, b: i32) -> (r: i32)
    ensures
        r == types::min_of(a as int, b as int),
{
    if a <= b {
        a
    } else {
        b
    }
}

fn larger(a: i32, b: i32) -> (r: i32)
    ensures
        r == types::max_of(a as int, b as int),
{
    if a >= b {
        a
    } else {
        b
    }
}

fn width_or_none(width: Option<i32>) -> (r: i128)
    ensures
        r == match width {
            Some(w) => w as int,
            None => 0,
        },
        -0x8000_0000 <= r <= 0x8000_0000,
{
    match width {
        Some(w) => w as i128,
        None => 0,
    }
}

impl SegmentBuilder {
    /// A run without characters.
    pub fn new() -> (r: SegmentBuilder)
        ensures
            r@ == segments::empty_run(),
            segments::run_fits(r@),
    {
        let r = SegmentBuilder {
            text: String::new(),
            left: 0,
            right: 0,
            top: 0,
            bottom: 0,
            last_right: 0,
            last_loose_right: 0,
            last_bottom: 0,
            count: 0,
            unmapped: 0,
            font_name: None,
            font_size: 0,
            font_height: None,
            font_ascent: None,
            font_descent: None,
            font_weight: None,
            font_flags: None,
            font_is_buggy: false,
            font_is_embedded: false,
            rotation: 0,
            text_width: 0,
            mcid: None,
            fill_color: None,
            stroke_color: None,
            has_content: false,
            pending_space: false,
        };
        proof {
            assert(r@ =~= segments::empty_run());
        }
        r
    }

    /// The run that begins with a character.
    pub fn start(
        ch: &CharFacts,
        t: &str,
        loose: &EdgeBox,
        strict: &EdgeBox,
        width: Option<i32>,
        page_rotation: i32,
    ) -> (r: SegmentBuilder)
        requires
            t@.len() > 0,
        ensures
            r@ == segments::begun(*ch, t@, *loose, *strict, width, page_rotation as int),
            segments::run_fits(r@),
    {
        let size: i64 = char_size(ch, loose);
        let mut content: String = String::new();
        push_text(&mut content, t);
        let mut font_name: Option<String> = match &ch.font_info {
            Some(i) => Some(i.0.clone()),
            None => None,
        };
        let mut embedded: bool = false;
        let mut buggy: bool = false;
        let mut ascent: Option<i32> = None;
        let mut descent: Option<i32> = None;
        match &ch.font {
            Some(f) => {
                match &f.base_name {
                    Some(name) => {
                        embedded = f.embedded;
                        buggy = f.embedded && (code_points::is_buggy_font(
                            name.as_str(),
                            f.font_type,
                        ) || code_points::is_buggy_codepoint(ch.unicode));
                        font_name = Some(name.clone());
                    },
                    None => {},
                }
                ascent = f.ascent;
                descent = f.descent;
            },
            None => {},
        }
        let r = SegmentBuilder {
            text: content,
            left: loose.left,
            right: loose.right,
            top: loose.top,
            bottom: loose.bottom,
            last_right: strict.right,
            last_loose_right: loose.right,
            last_bottom: strict.bottom,
            count: 1,
            unmapped: if ch.map_error {
                1
            } else {
                0
            },
            font_name,
            font_size: size,
            font_height: match ch.scale_y {
                Some(s) => Some(scale_size(size, s)),
                None => None,
            },
            font_ascent: ascent,
            font_descent: descent,
            font_weight: if ch.font_weight > 0 {
                Some(ch.font_weight)
            } else {
                None
            },
            font_flags: match &ch.font_info {
                Some(i) => Some(i.1),
                None => None,
            },
            font_is_buggy: buggy,
            font_is_embedded: embedded,
            rotation: if ch.angle >= 0 {
                segments::adjust_angle_for_rotation(ch.angle, page_rotation)
            } else {
                0
            },
            text_width: width_or_none(width),
            mcid: ch.mcid,
            fill_color: color_string(&ch.fill_color),
            stroke_color: color_string(&ch.stroke_color),
            has_content: true,
            pending_space: false,
        };
        proof {
            let want = segments::begun(*ch, t@, *loose, *strict, width, page_rotation as int);
            assert(r@.text =~= want.text);
            assert(r@ =~= want);
        }
        r
    }

    /// Add a character to the run, with a space in front of it or not.
    pub fn push_char(
        &mut self,
        ch: &CharFacts,
        t: &str,
        loose: &EdgeBox,
        strict: &EdgeBox,
        width: Option<i32>,
        space: bool,
    )
        requires
            t@.len() > 0,
            segments::run_fits(old(self)@),
            old(self)@.count < usize::MAX,
        ensures
            final(self)@ == segments::extended(
                old(self)@,
                *ch,
                t@,
                *loose,
                *strict,
                width,
                space,
            ),
            segments::run_fits(final(self)@),
    {
        let ghost before = self@;
        if space {
            self.text.push(' ');
        }
        push_text(&mut self.text, t);
        self.left = smaller(self.left, loose.left);
        self.right = larger(self.right, loose.right);
        self.top = smaller(self.top, loose.top);
        self.bottom = larger(self.bottom, loose.bottom);
        self.last_right = strict.right;
        self.last_loose_right = loose.right;
        self.last_bottom = strict.bottom;
        self.count = self.count + 1;
        if ch.map_error {
            self.unmapped = self.unmapped + 1;
        }
        self.text_width = self.text_width + width_or_none(width);
        if self.font_is_embedded && code_points::is_buggy_codepoint(ch.unicode) {
            self.font_is_buggy = true;
        }
        self.pending_space = false;
        proof {
            let want = segments::extended(before, *ch, t@, *loose, *strict, width, space);
            assert(self@.text =~= want.text);
            assert(self@ =~= want);
        }
    }

    /// Whether the run has anything but dots and spaces.
    pub fn has_non_dot_content(&self) -> (r: bool)
        ensures
            r == segments::has_words(self@.text),
    {
        let cs: Vec<char> = text::chars_of(self.text.as_str());
        let mut i: usize = 0;
        while i < cs.len()
            invariant
                i <= cs@.len(),
                cs@ == self.text@,
                forall|k: int|
                    0 <= k < i ==> #[trigger] cs@[k] == '.' || cs@[k] == ' ' || cs@[k] == '\u{B7}'
                        || cs@[k] == '\u{2022}',
            decreases cs.len() - i,
        {
            let c: char = cs[i];
            if c != '.' && c != ' ' && c != '\u{B7}' && c != '\u{2022}' {
                proof {
                    assert(self@.text[i as int] == c);
                }
                return true;
            }
            i = i + 1;
        }
        false
    }

    /// Whether a gap is wider than a number of tenths of the average width of the
    /// characters of the run.
    pub fn gap_is_wider(&self, gap: i64, tenths: i128) -> (r: bool)
        requires
            segments::run_fits(self@),
            -0x2_0000_0000 <= gap <= 0x2_0000_0000,
            0 <= tenths <= 100,
        ensures
            r == segments::is_wider(gap as int, self@, tenths as int),
    {
        if self.count == 0 {
            return 10 * (gap as i128) > tenths * 5_000;
        }
        proof {
            let g = gap as int;
            let c = self.count as int;
            assert(-0x2_0000_0000_0000_0000_0000_0000 <= g * c
                <= 0x2_0000_0000_0000_0000_0000_0000) by (nonlinear_arith)
                requires
                    -0x2_0000_0000 <= g <= 0x2_0000_0000,
                    0 <= c <= 0xFFFF_FFFF_FFFF_FFFF,
            ;
            let t = tenths as int;
            let w = self.text_width as int;
            assert(-0x80_0000_0000_0000_0000_0000_0000 <= t * w
                <= 0x80_0000_0000_0000_0000_0000_0000) by (nonlinear_arith)
                requires
                    -0x1_0000_0000_0000_0000_0000_0000 <= w
                        <= 0x1_0000_0000_0000_0000_0000_0000,
                    0 <= t <= 100,
            ;
            let d = self.right - self.left;
            assert(-0x100_0000_0000 <= t * d <= 0x100_0000_0000) by (nonlinear_arith)
                requires
                    -0x1_0000_0000 <= d <= 0x1_0000_0000,
                    0 <= t <= 100,
            ;
        }
        let scaled: i128 = 10 * ((gap as i128) * (self.count as i128));
        if self.text_width > 0 {
            scaled > tenths * self.text_width
        } else {
            scaled > tenths * (self.right as i128 - self.left as i128)
        }
    }

    /// Put the item of the run behind the items, unless the run is blank.
    pub fn flush(&self, items: &mut Vec<TextItem>)
        requires
            segments::run_fits(self@),
        ensures
            types::item_views(final(items)@) == segments::with_run(
                types::item_views(old(items)@),
                self@,
            ),
    {
        if !self.has_content {
            return;
        }
        let trimmed = text::trim(self.text.as_str());
        if trimmed.is_empty() {
            return;
        }
        let width: i32 = types::clamp32(self.right as i128 - self.left as i128);
        let height: i32 = types::clamp32(self.bottom as i128 - self.top as i128);
        let mut it: TextItem = TextItem::plain(
            text::to_string(trimmed),
            self.left,
            self.top,
            width,
            height,
        );
        it.rotation = self.rotation;
        it.font_name = types::clone_option(&self.font_name);
        it.font_size = Some(
            if self.font_size > 0 {
                types::clamp32(self.font_size as i128)
            } else {
                height
            },
        );
        it.font_height = self.font_height;
        it.font_ascent = self.font_ascent;
        it.font_descent = self.font_descent;
        it.font_weight = self.font_weight;
        it.font_flags = self.font_flags;
        it.text_width = if self.text_width > 0 {
            Some(types::clamp32(self.text_width))
        } else {
            None
        };
        it.font_is_buggy = self.font_is_buggy;
        it.has_unicode_map_error = self.unmapped >= self.count - self.unmapped && self.unmapped > 0;
        it.mcid = self.mcid;
        it.fill_color = types::clone_option(&self.fill_color);
        it.stroke_color = types::clone_option(&self.stroke_color);
        let ghost before = types::item_views(items@);
        proof {
            assert(it@ =~= segments::item_of_run(self@));
            assert(types::item_views(items@.push(it)) =~= before.push(it@));
        }
        items.push(it);
    }
}

// ---------------------------------------------------------------------------
// Where a character goes
// ---------------------------------------------------------------------------

fn ends_in_alnum(s: &str) -> (r: bool)
    requires
        s@.len() > 0,
    ensures
        r == segments::is_ascii_alnum(s@.last()),
{
    let c: char = s.get_char(s.unicode_len() - 1);
    text::is_ascii_digit(c) || text::is_ascii_alphabetic(c)
}

fn on_new_line(s: &SegmentBuilder, strict: &EdgeBox) -> (r: bool)
    ensures
        r == segments::is_new_line(s@, *strict),
{
    let gap: i64 = strict.left as i64 - s.last_right as i64;
    let width: i64 = s.right as i64 - s.left as i64;
    let top: i64 = strict.top as i64;
    let bottom: i64 = s.last_bottom as i64;
    top > bottom + segments::LINE_TOLERANCE || (top > bottom && gap < -5_000) || (width > 20_000
        && 2 * gap < -width)
}

fn at_leader_edge(s: &SegmentBuilder, c: char, gap: i64) -> (r: bool)
    requires
        segments::run_fits(s@),
        -0x2_0000_0000 <= gap <= 0x2_0000_0000,
    ensures
        r == segments::is_leader_edge(s@, c, gap as int),
{
    if s.pending_space {
        if c == '.' {
            s.has_non_dot_content()
        } else {
            s.count >= 3 && !s.has_non_dot_content()
        }
    } else {
        c == '.' && s.has_non_dot_content() && s.gap_is_wider(gap, 20)
    }
}

fn wide_as_space(
    s: &SegmentBuilder,
    samples: &Vec<(String, i64)>,
    ch: &CharFacts,
    loose: &EdgeBox,
    gap: i64,
) -> (r: bool)
    requires
        segments::samples_fit(segments::sample_views(samples@)),
        -0x2_0000_0000 <= gap <= 0x2_0000_0000,
    ensures
        r == segments::is_space_wide(
            s@,
            segments::sample_views(samples@),
            *ch,
            *loose,
            gap as int,
        ),
{
    let em: i64 = height_of(loose);
    let space: i128 = match ch.space_width {
        Some(w) => {
            proof {
                let a = w as int;
                let b = em as int;
                assert(-0x8000_0000_0000_0000 <= a * b <= 0x8000_0000_0000_0000)
                    by (nonlinear_arith)
                    requires
                        -0x8000_0000 <= a <= 0x7FFF_FFFF,
                        0 <= b <= 0x1_0000_0000,
                ;
            }
            (w as i128) * (em as i128)
        },
        None => 0,
    };
    if space > 0 {
        return 10_000_000 * (gap as i128) > 7 * space;
    }
    match &s.font_name {
        Some(f) => {
            let seen: Vec<i64> = segments::collect_samples(samples, f.as_str());
            proof {
                assert(sort::ints(seen@).len() == seen@.len());
            }
            if seen.len() >= segments::MIN_SAMPLES {
                let twice: i64 = segments::double_median(&seen);
                proof {
                    let a = twice as int;
                    let b = em as int;
                    assert(0 <= a * b <= 0x80_0000_0000_0000_0000_0000) by (nonlinear_arith)
                        requires
                            0 <= a <= 0x80_0000_0000_0000,
                            0 <= b <= 0x1_0000_0000,
                    ;
                }
                let threshold: i128 = (twice as i128) * (em as i128);
                return threshold > 0 && 20_000_000 * (gap as i128) > 7 * threshold;
            }
        },
        None => {},
    }
    em > 0 && 100 * gap > 35 * em
}

fn place_in_run(
    s: &SegmentBuilder,
    samples: &Vec<(String, i64)>,
    ch: &CharFacts,
    c: char,
    loose: &EdgeBox,
    strict: &EdgeBox,
) -> (r: Placement)
    requires
        segments::run_fits(s@),
        s@.has_content,
        segments::samples_fit(segments::sample_views(samples@)),
    ensures
        r == segments::place_behind(
            s@,
            segments::sample_views(samples@),
            *ch,
            c,
            *loose,
            *strict,
        ),
{
    let gap: i64 = strict.left as i64 - s.last_right as i64;
    let same_height: bool = (loose.top as i64) < s.bottom as i64 + segments::LINE_TOLERANCE && (
    loose.bottom as i64) > s.top as i64 - segments::LINE_TOLERANCE;
    if !same_height || on_new_line(s, strict) || gap >= segments::MAX_INLINE_GAP || at_leader_edge(
        s,
        c,
        gap,
    ) {
        return Placement::BeginAnew;
    }
    if s.pending_space {
        return if s.gap_is_wider(gap, 22) {
            Placement::BeginAnew
        } else {
            Placement::JoinSpaced
        };
    }
    let loose_gap: i64 = strict.left as i64 - s.last_loose_right as i64;
    if (text::is_ascii_digit(c) || text::is_ascii_alphabetic(c)) && ends_in_alnum(s.text.as_str())
        && wide_as_space(s, samples, ch, loose, loose_gap) {
        Placement::JoinRecovered
    } else {
        Placement::Join
    }
}

// ---------------------------------------------------------------------------
// A page
// ---------------------------------------------------------------------------

/// Reads the characters of a page, one after the other, into items of text.
///
/// The width of a glyph depends on the run that its character goes to, so a character is
/// placed first, then its glyph is measured, and then it is taken.
#[derive(Clone, Debug)]
pub struct TextReader {
    pub items: Vec<TextItem>,
    pub run: SegmentBuilder,
    /// Spaces that were seen: their fonts, and their widths in millionths of the height
    /// of the characters behind them.
    pub samples: Vec<(String, i64)>,
    pub skip_invisible: bool,
    /// The rotation of the page in quarters clockwise.
    pub page_rotation: i32,
}

impl View for TextReader {
    type V = ReadingView;

    open spec fn view(&self) -> ReadingView {
        ReadingView {
            items: types::item_views(self.items@),
            run: self.run@,
            samples: segments::sample_views(self.samples@),
        }
    }
}

impl TextReader {
    /// A reader that has read nothing yet.
    pub fn new(skip_invisible: bool, page_rotation: i32) -> (r: TextReader)
        ensures
            r@ == segments::fresh_reading(),
            segments::reading_fits(r@),
            r.skip_invisible == skip_invisible,
            r.page_rotation == page_rotation,
    {
        let r = TextReader {
            items: Vec::new(),
            run: SegmentBuilder::new(),
            samples: Vec::new(),
            skip_invisible,
            page_rotation,
        };
        proof {
            assert(r@ =~= segments::fresh_reading());
        }
        r
    }

    /// Where a character goes.
    pub fn place(&self, ch: &CharFacts) -> (r: Placement)
        requires
            segments::reading_fits(self@),
            segments::is_decoded_well(*ch),
        ensures
            r == segments::place_of(self@.run, self@.samples, self.skip_invisible, *ch),
    {
        if self.skip_invisible && ch.invisible {
            return Placement::Skip;
        }
        let t: String = match segments::char_text(ch) {
            Some(t) => t,
            None => {
                return Placement::Skip;
            },
        };
        let c: char = code_points::normalize_punct(t.as_str().get_char(0));
        if c == '\n' || c == '\r' {
            return Placement::EndLine;
        }
        if c == ' ' {
            return Placement::Blank;
        }
        if ch.generated {
            return Placement::Skip;
        }
        match (&ch.loose, &ch.strict) {
            (Some(loose), Some(strict)) => {
                if (loose.bottom as i64) - (loose.top as i64) < 500 {
                    Placement::Skip
                } else if self.run.has_content {
                    place_in_run(&self.run, &self.samples, ch, c, loose, strict)
                } else {
                    Placement::Begin
                }
            },
            _ => Placement::Skip,
        }
    }

    fn end_run(&mut self)
        requires
            segments::reading_fits(old(self)@),
        ensures
            final(self)@ == (ReadingView {
                items: segments::with_run(old(self)@.items, old(self)@.run),
                run: segments::empty_run(),
                ..old(self)@
            }),
            segments::reading_fits(final(self)@),
            final(self).skip_invisible == old(self).skip_invisible,
            final(self).page_rotation == old(self).page_rotation,
    {
        self.run.flush(&mut self.items);
        self.run = SegmentBuilder::new();
    }

    fn take_sample(&mut self, c: char, loose: &EdgeBox, strict: &EdgeBox)
        requires
            segments::reading_fits(old(self)@),
            old(self)@.run.has_content,
        ensures
            final(self)@ == (ReadingView {
                samples: segments::with_sample(
                    old(self)@.run,
                    old(self)@.samples,
                    c,
                    *loose,
                    *strict,
                ),
                ..old(self)@
            }),
            segments::reading_fits(final(self)@),
            final(self).skip_invisible == old(self).skip_invisible,
            final(self).page_rotation == old(self).page_rotation,
    {
        let em: i64 = height_of(loose);
        let gap: i64 = strict.left as i64 - self.run.last_loose_right as i64;
        let ghost before = self@.samples;
        match &self.run.font_name {
            Some(f) => {
                if ends_in_alnum(self.run.text.as_str()) && (text::is_ascii_digit(c)
                    || text::is_ascii_alphabetic(c)) && em > 0 && gap > 0 {
                    let seen: Vec<i64> = segments::collect_samples(&self.samples, f.as_str());
                    proof {
                        assert(sort::ints(seen@).len() == seen@.len());
                    }
                    if seen.len() < segments::MAX_SAMPLES {
                        let ratio: i64 = (1_000_000 * gap) / em;
                        proof {
                            let a = 1_000_000 * gap as int;
                            let b = em as int;
                            assert(0 <= a / b <= a) by (nonlinear_arith)
                                requires
                                    a >= 0,
                                    b > 0,
                            ;
                        }
                        let entry: (String, i64) = (f.clone(), ratio);
                        proof {
                            assert(segments::sample_views(self.samples@.push(entry))
                                =~= before.push((entry.0@, entry.1 as int)));
                        }
                        self.samples.push(entry);
                        proof {
                            assert forall|i: int| 0 <= i < self@.samples.len() implies 0 <= (
                            #[trigger] self@.samples[i]).1 <= 0x40_0000_0000_0000 by {
                                if i < before.len() {
                                    assert(0 <= before[i].1);
                                }
                            }
                        }
                    }
                }
            },
            None => {},
        }
    }

    /// Read a character, given the width of its glyph in the font of the run that it
    /// goes to.
    pub fn take(&mut self, ch: &CharFacts, width: Option<i32>)
        requires
            segments::reading_fits(old(self)@),
            segments::is_decoded_well(*ch),
            old(self)@.run.count < usize::MAX,
        ensures
            final(self)@ == segments::after_char(
                old(self)@,
                old(self).skip_invisible,
                old(self).page_rotation as int,
                *ch,
                width,
            ),
            segments::reading_fits(final(self)@),
            final(self)@.run.count <= old(self)@.run.count + 1,
            final(self).skip_invisible == old(self).skip_invisible,
            final(self).page_rotation == old(self).page_rotation,
    {
        let p: Placement = self.place(ch);
        let t: String = match segments::char_text(ch) {
            Some(t) => t,
            None => {
                return;
            },
        };
        match p {
            Placement::Skip => {},
            Placement::EndLine => {
                self.end_run();
            },
            Placement::Blank => {
                if self.run.has_content {
                    self.run.pending_space = true;
                }
            },
            _ => {
                match (&ch.loose, &ch.strict) {
                    (Some(loose), Some(strict)) => {
                        if p == Placement::Begin || p == Placement::BeginAnew {
                            self.end_run();
                            self.run = SegmentBuilder::start(
                                ch,
                                t.as_str(),
                                loose,
                                strict,
                                width,
                                self.page_rotation,
                            );
                        } else {
                            if p == Placement::JoinSpaced {
                                let c: char = code_points::normalize_punct(
                                    t.as_str().get_char(0),
                                );
                                self.take_sample(c, loose, strict);
                            }
                            self.run.push_char(
                                ch,
                                t.as_str(),
                                loose,
                                strict,
                                width,
                                p != Placement::Join,
                            );
                        }
                    },
                    _ => {},
                }
            },
        }
    }

    /// The items of a page of the given size, when all its characters are read.
    pub fn finish(self, width: i32, height: i32) -> (r: Vec<TextItem>)
        requires
            segments::reading_fits(self@),
        ensures
            types::item_views(r@) == segments::finished(self@, width as int, height as int),
    {
        let mut items: Vec<TextItem> = self.items;
        self.run.flush(&mut items);
        proof {
            assert(types::item_views(items@).len() == items@.len());
        }
        item_marks::drop_off_page_items(&mut items, width, height);
        proof {
            assert(types::item_views(items@).len() == items@.len());
        }
        item_marks::dedup_overlapping_items(&mut items);
        items
    }
}

/// The items of text of a page of the given size. Each character comes with the width of
/// its glyph in the font of the run that it goes to.
pub fn extract_page_text_items(
    chars: &Vec<CharFacts>,
    widths: &Vec<Option<i32>>,
    skip_invisible: bool,
    page_rotation: i32,
    width: i32,
    height: i32,
) -> (r: Vec<TextItem>)
    requires
        chars@.len() == widths@.len(),
        forall|i: int| 0 <= i < chars@.len() ==> segments::is_decoded_well(#[trigger] chars@[i]),
    ensures
        types::item_views(r@) == segments::finished(
            segments::reading_upto(
                chars@,
                widths@,
                skip_invisible,
                page_rotation as int,
                chars@.len() as int,
            ),
            width as int,
            height as int,
        ),
{
    let mut reader: TextReader = TextReader::new(skip_invisible, page_rotation);
    let mut i: usize = 0;
    while i < chars.len()
        invariant
            i <= chars@.len() == widths@.len(),
            forall|k: int|
                0 <= k < chars@.len() ==> segments::is_decoded_well(#[trigger] chars@[k]),
            segments::reading_fits(reader@),
            reader@.run.count <= i,
            reader.skip_invisible == skip_invisible,
            reader.page_rotation == page_rotation,
            reader@ == segments::reading_upto(
                chars@,
                widths@,
                skip_invisible,
                page_rotation as int,
                i as int,
            ),
        decreases chars.len() - i,
    {
        reader.take(&chars[i], widths[i]);
        i = i + 1;
    }
    reader.finish(width, height)
}

} // verus!
