//! Gathering the characters of a page into runs of text.
//!
//! A run ends where the line changes, where a gap is too wide, where a leader of dots
//! begins or ends, and at line ends. Spaces that a document leaves out are put back
//! where a gap tells of them.

use vstd::prelude::*;
use vstd::string::*;
use crate::code_points;
use crate::code_points::{Color, FontType};
use crate::item_marks;
use crate::item_marks::EdgeBox;
use crate::sort;
use crate::text;
use crate::types;
use crate::types::ItemView;

verus! {

/// Gaps of this width always end a run.
pub const MAX_INLINE_GAP: i64 = 15_000;

/// How much characters of one line can be apart vertically.
pub const LINE_TOLERANCE: i64 = 2_000;

/// How many samples of spaces are kept for a font.
pub const MAX_SAMPLES: usize = 512;

/// How many samples of spaces are needed for a font.
pub const MIN_SAMPLES: usize = 6;

/// What is known of the font of a character, with the measures of its size.
#[derive(Clone, Debug)]
pub struct FontMeasures {
    pub base_name: Option<String>,
    pub font_type: FontType,
    pub embedded: bool,
    pub ascent: Option<i32>,
    pub descent: Option<i32>,
}

/// What is known of a character of a page.
#[derive(Clone, Debug)]
pub struct CharFacts {
    pub unicode: u32,
    /// Whether the character is not in the document itself.
    pub generated: bool,
    /// Whether the character is painted invisibly.
    pub invisible: bool,
    /// Whether the code point was made up for want of one.
    pub map_error: bool,
    /// The text that takes the place of the character, if its code point is not
    /// trusted. It is not empty.
    pub decoded: Option<String>,
    /// The box that the character takes up in its line.
    pub loose: Option<EdgeBox>,
    /// The box around what is painted.
    pub strict: Option<EdgeBox>,
    /// The width of a space of the font, in millionths of its height.
    pub space_width: Option<i32>,
    pub font_info: Option<(String, i32)>,
    pub font_size: i32,
    pub font_weight: i32,
    /// The angle in thousandths of a degree, counterclockwise; negative if unknown.
    pub angle: i32,
    pub font: Option<FontMeasures>,
    /// The vertical scale of the character, in millionths.
    pub scale_y: Option<i32>,
    pub stroke_color: Option<Color>,
    pub fill_color: Option<Color>,
    pub mcid: Option<i32>,
}

// ---------------------------------------------------------------------------
// Characters
// ---------------------------------------------------------------------------

/// The text of a character: what takes its place, or the letters it stands for. None
/// for sentinels and for code points without a character.
pub open spec fn text_of(ch: CharFacts) -> Option<Seq<char>> {
    if !ch.generated && ch.decoded is Some {
        Some(ch.decoded->0@)
    } else if code_points::is_sentinel(ch.unicode) {
        None
    } else {
        match code_points::control_letters(ch.unicode) {
            Some(s) => Some(s),
            None => match code_points::char_of(ch.unicode) {
                Some(c) => Some(seq![c]),
                None => None,
            },
        }
    }
}

/// The first letter of the text of a character, with plain punctuation.
pub open spec fn letter_of(t: Seq<char>) -> char {
    code_points::plain_punct(t[0])
}

pub open spec fn is_ascii_alnum(c: char) -> bool {
    text::is_digit(c) || text::is_ascii_letter(c)
}

proof fn lemma_letters_not_empty(u: u32)
    ensures
        code_points::control_letters(u) is Some ==> code_points::control_letters(u)->0.len() > 0,
{
    reveal_strlit("-");
    reveal_strlit("ff");
    reveal_strlit("ft");
    reveal_strlit("fi");
    reveal_strlit("Th");
    reveal_strlit("ffi");
    reveal_strlit("fl");
}

/// Whether the text that takes the place of a character is not empty.
pub open spec fn is_decoded_well(ch: CharFacts) -> bool {
    ch.decoded is Some ==> ch.decoded->0@.len() > 0
}

/// The text of a character.
pub fn char_text(ch: &CharFacts) -> (r: Option<String>)
    requires
        is_decoded_well(*ch),
    ensures
        types::option_text(r) == text_of(*ch),
        r is Some ==> r->0@.len() > 0,
{
    if !ch.generated {
        match &ch.decoded {
            Some(s) => {
                return Some(s.clone());
            },
            None => {},
        }
    }
    if ch.unicode == 0 || ch.unicode == 0xFFFE || ch.unicode == 0xFFFF {
        return None;
    }
    proof {
        lemma_letters_not_empty(ch.unicode);
    }
    match code_points::expand_control(ch.unicode) {
        Some(s) => Some(text::to_string(s)),
        None => match char::from_u32(ch.unicode) {
            Some(c) => {
                let mut out: String = String::new();
                out.push(c);
                proof {
                    assert(out@ =~= seq![c]);
                }
                Some(out)
            },
            None => None,
        },
    }
}

/// An angle on a page that is turned by a number of quarters clockwise, in thousandths
/// of a degree from 0 to below a full turn.
pub open spec fn turned(angle: int, quarters: int) -> int {
    let back = if quarters == 1 {
        270_000int
    } else if quarters == 2 {
        180_000
    } else if quarters == 3 {
        90_000
    } else {
        0
    };
    (angle - back) % 360_000
}

/// An angle on a page that is turned by a number of quarters clockwise.
pub fn adjust_angle_for_rotation(angle: i32, page_rotation: i32) -> (r: i32)
    ensures
        r == turned(angle as int, page_rotation as int),
        0 <= r < 360_000,
{
    let back: i64 = if page_rotation == 1 {
        270_000
    } else if page_rotation == 2 {
        180_000
    } else if page_rotation == 3 {
        90_000
    } else {
        0
    };
    let a: i64 = angle as i64 - back;
    if a >= 0 {
        (a % 360_000) as i32
    } else {
        // Adding full turns changes nothing.
        proof {
            vstd::arithmetic::div_mod::lemma_mod_multiples_vanish(6_000, a as int, 360_000);
        }
        ((a + 360_000 * 6_000) % 360_000) as i32
    }
}

// ---------------------------------------------------------------------------
// Runs
// ---------------------------------------------------------------------------

/// A run of text that is being gathered.
#[derive(Clone, Debug)]
pub struct SegmentBuilder {
    pub text: String,
    /// The box around the loose boxes of its characters.
    pub left: i32,
    pub right: i32,
    pub top: i32,
    pub bottom: i32,
    /// The right edge and the bottom of what is painted of the last character, and the
    /// right edge of its loose box.
    pub last_right: i32,
    pub last_loose_right: i32,
    pub last_bottom: i32,
    /// How many characters there are without spaces, and how many of those have
    /// made-up code points.
    pub count: usize,
    pub unmapped: usize,
    pub font_name: Option<String>,
    pub font_size: i64,
    pub font_height: Option<i32>,
    pub font_ascent: Option<i32>,
    pub font_descent: Option<i32>,
    pub font_weight: Option<i32>,
    pub font_flags: Option<i32>,
    pub font_is_buggy: bool,
    pub font_is_embedded: bool,
    pub rotation: i32,
    /// The sum of the widths of its glyphs.
    pub text_width: i128,
    pub mcid: Option<i32>,
    pub fill_color: Option<String>,
    pub stroke_color: Option<String>,
    pub has_content: bool,
    pub pending_space: bool,
}

/// The contents of a `SegmentBuilder`.
#[verifier::ext_equal]
pub struct SegmentView {
    pub text: Seq<char>,
    pub left: int,
    pub right: int,
    pub top: int,
    pub bottom: int,
    pub last_right: int,
    pub last_loose_right: int,
    pub last_bottom: int,
    pub count: int,
    pub unmapped: int,
    pub font_name: Option<Seq<char>>,
    pub font_size: int,
    pub font_height: Option<i32>,
    pub font_ascent: Option<i32>,
    pub font_descent: Option<i32>,
    pub font_weight: Option<i32>,
    pub font_flags: Option<i32>,
    pub font_is_buggy: bool,
    pub font_is_embedded: bool,
    pub rotation: int,
    pub text_width: int,
    pub mcid: Option<i32>,
    pub fill_color: Option<Seq<char>>,
    pub stroke_color: Option<Seq<char>>,
    pub has_content: bool,
    pub pending_space: bool,
}

impl View for SegmentBuilder {
    type V = SegmentView;

    open spec fn view(&self) -> SegmentView {
        SegmentView {
            text: self.text@,
            left: self.left as int,
            right: self.right as int,
            top: self.top as int,
            bottom: self.bottom as int,
            last_right: self.last_right as int,
            last_loose_right: self.last_loose_right as int,
            last_bottom: self.last_bottom as int,
            count: self.count as int,
            unmapped: self.unmapped as int,
            font_name: types::option_text(self.font_name),
            font_size: self.font_size as int,
            font_height: self.font_height,
            font_ascent: self.font_ascent,
            font_descent: self.font_descent,
            font_weight: self.font_weight,
            font_flags: self.font_flags,
            font_is_buggy: self.font_is_buggy,
            font_is_embedded: self.font_is_embedded,
            rotation: self.rotation as int,
            text_width: self.text_width as int,
            mcid: self.mcid,
            fill_color: types::option_text(self.fill_color),
            stroke_color: types::option_text(self.stroke_color),
            has_content: self.has_content,
            pending_space: self.pending_space,
        }
    }
}

/// A run without characters.
pub open spec fn empty_run() -> SegmentView {
    SegmentView {
        text: seq![],
        left: 0,
        right: 0,
        top: 0,
        bottom: 0,
        last_right: 0,
        last_loose_right: 0,
        last_bottom: 0,
        count: 0,
        unmapped: 0,
        font_name: None,
        font_size: 0,
        font_height: None,
        font_ascent: None,
        font_descent: None,
        font_weight: None,
        font_flags: None,
        font_is_buggy: false,
        font_is_embedded: false,
        rotation: 0,
        text_width: 0,
        mcid: None,
        fill_color: None,
        stroke_color: None,
        has_content: false,
        pending_space: false,
    }
}

/// What holds of every run: the counts fit each other and the sum of the widths.
pub open spec fn run_fits(s: SegmentView) -> bool {
    &&& 0 <= s.unmapped <= s.count <= usize::MAX
    &&& -0x8000_0000 * s.count <= s.text_width <= 0x8000_0000 * s.count
    &&& s.has_content ==> s.count > 0 && s.text.len() > 0
}

/// The size of a character: its font size, or the height of its loose box where that is
/// not known.
pub open spec fn size_of_char(ch: CharFacts, loose: EdgeBox) -> int {
    if ch.font_size > 0 {
        ch.font_size as int
    } else {
        item_marks::distance(loose.bottom as int, loose.top as int)
    }
}

/// A size, scaled by a number of millionths, to the nearest unit.
pub open spec fn scaled(size: int, scale: int) -> int {
    types::clamped((2 * (size * scale) + 1_000_000) / 2_000_000)
}

/// Whether a font is embedded, as far as it has a name.
pub open spec fn is_embedded(ch: CharFacts) -> bool {
    match ch.font {
        Some(f) => f.base_name is Some && f.embedded,
        None => false,
    }
}

/// A color as text.
pub open spec fn color_text(c: Option<Color>) -> Option<Seq<char>> {
    match c {
        Some(v) => Some(code_points::argb_hex(v)),
        None => None,
    }
}

/// The run that begins with a character.
pub open spec fn begun(
    ch: CharFacts,
    t: Seq<char>,
    loose: EdgeBox,
    strict: EdgeBox,
    width: Option<i32>,
    quarters: int,
) -> SegmentView {
    SegmentView {
        text: seq![letter_of(t)] + t.skip(1),
        left: loose.left as int,
        right: loose.right as int,
        top: loose.top as int,
        bottom: loose.bottom as int,
        last_right: strict.right as int,
        last_loose_right: loose.right as int,
        last_bottom: strict.bottom as int,
        count: 1,
        unmapped: if ch.map_error {
            1
        } else {
            0
        },
        font_name: match ch.font {
            Some(f) => match f.base_name {
                Some(n) => Some(n@),
                None => match ch.font_info {
                    Some(i) => Some(i.0@),
                    None => None,
                },
            },
            None => match ch.font_info {
                Some(i) => Some(i.0@),
                None => None,
            },
        },
        font_size: size_of_char(ch, loose),
        font_height: match ch.scale_y {
            Some(s) => Some(scaled(size_of_char(ch, loose), s as int) as i32),
            None => None,
        },
        font_ascent: match ch.font {
            Some(f) => f.ascent,
            None => None,
        },
        font_descent: match ch.font {
            Some(f) => f.descent,
            None => None,
        },
        font_weight: if ch.font_weight > 0 {
            Some(ch.font_weight)
        } else {
            None
        },
        font_flags: match ch.font_info {
            Some(i) => Some(i.1),
            None => None,
        },
        font_is_buggy: is_embedded(ch) && (code_points::buggy_name(
            (ch.font->0).base_name->0@,
            (ch.font->0).font_type,
        ) || code_points::buggy_point(ch.unicode)),
        font_is_embedded: is_embedded(ch),
        rotation: if ch.angle >= 0 {
            turned(ch.angle as int, quarters)
        } else {
            0
        },
        text_width: match width {
            Some(w) => w as int,
            None => 0,
        },
        mcid: ch.mcid,
        fill_color: color_text(ch.fill_color),
        stroke_color: color_text(ch.stroke_color),
        has_content: true,
        pending_space: false,
    }
}

/// The run with one more character, with a space in front of it or not.
pub open spec fn extended(
    s: SegmentView,
    ch: CharFacts,
    t: Seq<char>,
    loose: EdgeBox,
    strict: EdgeBox,
    width: Option<i32>,
    space: bool,
) -> SegmentView {
    let text = if space {
        s.text.push(' ')
    } else {
        s.text
    };
    SegmentView {
        text: text.push(letter_of(t)) + t.skip(1),
        left: types::min_of(s.left, loose.left as int),
        right: types::max_of(s.right, loose.right as int),
        top: types::min_of(s.top, loose.top as int),
        bottom: types::max_of(s.bottom, loose.bottom as int),
        last_right: strict.right as int,
        last_loose_right: loose.right as int,
        last_bottom: strict.bottom as int,
        count: s.count + 1,
        unmapped: s.unmapped + if ch.map_error {
            1int
        } else {
            0int
        },
        font_is_buggy: s.font_is_buggy || s.font_is_embedded && code_points::buggy_point(
            ch.unicode,
        ),
        text_width: s.text_width + match width {
            Some(w) => w as int,
            None => 0,
        },
        pending_space: false,
        ..s
    }
}

/// The item for a run.
pub open spec fn item_of_run(s: SegmentView) -> ItemView {
    let height = types::clamped(s.bottom - s.top);
    ItemView {
        rotation: s.rotation,
        font_name: s.font_name,
        font_size: Some(
            (if s.font_size > 0 {
                types::clamped(s.font_size)
            } else {
                height
            }) as i32,
        ),
        font_height: s.font_height,
        font_ascent: s.font_ascent,
        font_descent: s.font_descent,
        font_weight: s.font_weight,
        font_flags: s.font_flags,
        text_width: if s.text_width > 0 {
            Some(types::clamped(s.text_width) as i32)
        } else {
            None
        },
        font_is_buggy: s.font_is_buggy,
        has_unicode_map_error: 2 * s.unmapped >= types::max_of(s.count, 1),
        mcid: s.mcid,
        fill_color: s.fill_color,
        stroke_color: s.stroke_color,
        ..types::plain_item(
            text::trim_of(s.text),
            s.left,
            s.top,
            types::clamped(s.right - s.left),
            height,
        )
    }
}

/// The items with that of a run behind them, unless the run is blank.
pub open spec fn with_run(items: Seq<ItemView>, s: SegmentView) -> Seq<ItemView> {
    if !s.has_content || text::is_blank(s.text) {
        items
    } else {
        items.push(item_of_run(s))
    }
}

/// Whether a run has anything but dots and spaces.
pub open spec fn has_words(s: Seq<char>) -> bool {
    exists|i: int|
        0 <= i < s.len() && #[trigger] s[i] != '.' && s[i] != ' ' && s[i] != '\u{B7}' && s[i]
            != '\u{2022}'
}

/// Whether a gap is wider than a number of tenths of the average width of the
/// characters of a run: by the widths of its glyphs where they are known, else by the
/// width of the run.
pub open spec fn is_wider(gap: int, s: SegmentView, tenths: int) -> bool {
    if s.count == 0 {
        10 * gap > tenths * 5_000
    } else if s.text_width > 0 {
        10 * (gap * s.count) > tenths * s.text_width
    } else {
        10 * (gap * s.count) > tenths * (s.right - s.left)
    }
}

// ---------------------------------------------------------------------------
// Spaces of fonts
// ---------------------------------------------------------------------------

/// The widths of spaces that were seen, with the names of their fonts.
pub open spec fn samples_upto(
    samples: Seq<(Seq<char>, int)>,
    font: Seq<char>,
    n: int,
) -> Seq<int>
    decreases n,
{
    if n <= 0 {
        seq![]
    } else if samples[n - 1].0 == font {
        samples_upto(samples, font, n - 1).push(samples[n - 1].1)
    } else {
        samples_upto(samples, font, n - 1)
    }
}

/// The widths of spaces that were seen of a font.
pub open spec fn samples_of(samples: Seq<(Seq<char>, int)>, font: Seq<char>) -> Seq<int> {
    samples_upto(samples, font, samples.len() as int)
}

/// Twice the median of numbers.
pub open spec fn twice_median(v: Seq<int>) -> int {
    let s = sort::sorted(v);
    let mid = v.len() as int / 2;
    if v.len() % 2 == 0 {
        s[mid - 1] + s[mid]
    } else {
        2 * s[mid]
    }
}

/// Samples of spaces with their fonts.
pub open spec fn sample_views(v: Seq<(String, i64)>) -> Seq<(Seq<char>, int)> {
    Seq::new(v.len(), |i: int| (v[i].0@, v[i].1 as int))
}

/// Whether all samples are in range.
pub open spec fn samples_fit(v: Seq<(Seq<char>, int)>) -> bool {
    forall|i: int| 0 <= i < v.len() ==> 0 <= (#[trigger] v[i]).1 <= 0x40_0000_0000_0000
}

/// The widths of spaces that were seen of a font.
pub fn collect_samples(v: &Vec<(String, i64)>, font: &str) -> (r: Vec<i64>)
    requires
        samples_fit(sample_views(v@)),
    ensures
        sort::ints(r@) == samples_of(sample_views(v@), font@),
        forall|k: int| 0 <= k < r@.len() ==> 0 <= #[trigger] r@[k] <= 0x40_0000_0000_0000,
{
    let ghost sv = sample_views(v@);
    let mut out: Vec<i64> = Vec::new();
    let mut i: usize = 0;
    proof {
        assert(sort::ints(out@) =~= seq![]);
    }
    while i < v.len()
        invariant
            i <= v@.len(),
            sv == sample_views(v@),
            samples_fit(sv),
            sort::ints(out@) == samples_upto(sv, font@, i as int),
            forall|k: int| 0 <= k < out@.len() ==> 0 <= #[trigger] out@[k] <= 0x40_0000_0000_0000,
        decreases v.len() - i,
    {
        proof {
            assert(sv[i as int] == (v@[i as int].0@, v@[i as int].1 as int));
            assert(0 <= sv[i as int].1);
        }
        if text::str_eq(v[i].0.as_str(), font) {
            let x: i64 = v[i].1;
            proof {
                assert(sort::ints(out@.push(x)) =~= sort::ints(out@).push(x as int));
            }
            out.push(x);
        }
        i = i + 1;
    }
    out
}

/// Twice the median of numbers. There must be one at least.
pub fn double_median(v: &Vec<i64>) -> (r: i64)
    requires
        v@.len() > 0,
        forall|k: int| 0 <= k < v@.len() ==> 0 <= #[trigger] v@[k] <= 0x40_0000_0000_0000,
    ensures
        r == twice_median(sort::ints(v@)),
        0 <= r <= 0x80_0000_0000_0000,
{
    let s: Vec<i64> = sort::sort_values(v);
    let mid: usize = s.len() / 2;
    proof {
        assert(sort::ints(v@).len() == v@.len());
        assert(sort::ints(s@)[mid as int] == s@[mid as int]);
        assert(v@.contains(s@[mid as int]));
        if mid > 0 {
            assert(sort::ints(s@)[mid - 1] == s@[mid - 1]);
            assert(v@.contains(s@[mid - 1]));
        }
    }
    if s.len() % 2 == 0 {
        s[mid - 1] + s[mid]
    } else {
        2 * s[mid]
    }
}

// ---------------------------------------------------------------------------
// Where a character goes
// ---------------------------------------------------------------------------

/// Where a character goes.
#[derive(Clone, Copy, Debug, PartialEq, Eq, Structural)]
pub enum Placement {
    /// Nowhere.
    Skip,
    /// It ends the run.
    EndLine,
    /// It is a space.
    Blank,
    /// It begins a run.
    Begin,
    /// It ends the run and begins another.
    BeginAnew,
    /// It joins the run.
    Join,
    /// It joins the run behind the space that was seen.
    JoinSpaced,
    /// It joins the run behind a space that the document leaves out.
    JoinRecovered,
}

/// Whether a character is on another line than the run: it is painted below the last
/// character, or far to the left of it.
pub open spec fn is_new_line(s: SegmentView, strict: EdgeBox) -> bool {
    let gap = strict.left - s.last_right;
    let width = s.right - s.left;
    strict.top > s.last_bottom + LINE_TOLERANCE || strict.top > s.last_bottom && gap < -5_000
        || width > 20_000 && 2 * gap < -width
}

/// Whether a leader of dots begins or ends before a character.
pub open spec fn is_leader_edge(s: SegmentView, c: char, gap: int) -> bool {
    if s.pending_space {
        c == '.' && has_words(s.text) || c != '.' && !has_words(s.text) && s.count >= 3
    } else {
        c == '.' && has_words(s.text) && is_wider(gap, s, 20)
    }
}

/// Whether a gap without a space is as wide as a space: 70 percent of the space of the
/// font, or of the median of its spaces that were seen, or else 35 percent of the height
/// of the character.
pub open spec fn is_space_wide(
    s: SegmentView,
    samples: Seq<(Seq<char>, int)>,
    ch: CharFacts,
    loose: EdgeBox,
    gap: int,
) -> bool {
    let em = item_marks::distance(loose.bottom as int, loose.top as int);
    let space = match ch.space_width {
        Some(w) => w * em,
        None => 0,
    };
    if space > 0 {
        10_000_000 * gap > 7 * space
    } else {
        match s.font_name {
            Some(f) => {
                let seen = samples_of(samples, f);
                if seen.len() >= MIN_SAMPLES {
                    twice_median(seen) * em > 0 && 20_000_000 * gap > 7 * (twice_median(seen) * em)
                } else {
                    em > 0 && 100 * gap > 35 * em
                }
            },
            None => em > 0 && 100 * gap > 35 * em,
        }
    }
}

/// Where a visible character goes when there is a run.
pub open spec fn place_behind(
    s: SegmentView,
    samples: Seq<(Seq<char>, int)>,
    ch: CharFacts,
    c: char,
    loose: EdgeBox,
    strict: EdgeBox,
) -> Placement {
    let gap = strict.left - s.last_right;
    let same_height = loose.top < s.bottom + LINE_TOLERANCE && loose.bottom > s.top
        - LINE_TOLERANCE;
    if !same_height || is_new_line(s, strict) || gap >= MAX_INLINE_GAP || is_leader_edge(
        s,
        c,
        gap,
    ) {
        Placement::BeginAnew
    } else if s.pending_space {
        if is_wider(gap, s, 22) {
            Placement::BeginAnew
        } else {
            Placement::JoinSpaced
        }
    } else if is_ascii_alnum(c) && is_ascii_alnum(s.text.last()) && is_space_wide(
        s,
        samples,
        ch,
        loose,
        strict.left - s.last_loose_right,
    ) {
        Placement::JoinRecovered
    } else {
        Placement::Join
    }
}

/// Where a character goes.
pub open spec fn place_of(
    s: SegmentView,
    samples: Seq<(Seq<char>, int)>,
    skip_invisible: bool,
    ch: CharFacts,
) -> Placement {
    if skip_invisible && ch.invisible {
        Placement::Skip
    } else {
        match text_of(ch) {
            None => Placement::Skip,
            Some(t) => {
                let c = letter_of(t);
                if c == '\n' || c == '\r' {
                    Placement::EndLine
                } else if c == ' ' {
                    Placement::Blank
                } else if ch.generated {
                    Placement::Skip
                } else {
                    match (ch.loose, ch.strict) {
                        (Some(loose), Some(strict)) => if loose.bottom - loose.top < 500 {
                            Placement::Skip
                        } else if s.has_content {
                            place_behind(s, samples, ch, c, loose, strict)
                        } else {
                            Placement::Begin
                        },
                        _ => Placement::Skip,
                    }
                }
            },
        }
    }
}

/// The samples with the gap before a character, where it joins the run behind a space
/// and both neighbors are letters or digits.
pub open spec fn with_sample(
    s: SegmentView,
    samples: Seq<(Seq<char>, int)>,
    c: char,
    loose: EdgeBox,
    strict: EdgeBox,
) -> Seq<(Seq<char>, int)> {
    let em = item_marks::distance(loose.bottom as int, loose.top as int);
    let gap = strict.left - s.last_loose_right;
    match s.font_name {
        Some(f) => if is_ascii_alnum(s.text.last()) && is_ascii_alnum(c) && em > 0 && gap > 0
            && samples_of(samples, f).len() < MAX_SAMPLES {
            samples.push((f, (1_000_000 * gap) / em))
        } else {
            samples
        },
        None => samples,
    }
}

/// How far the reading of a page has come: the items so far, the run that is being
/// gathered, and the spaces that were seen.
#[verifier::ext_equal]
pub struct ReadingView {
    pub items: Seq<ItemView>,
    pub run: SegmentView,
    pub samples: Seq<(Seq<char>, int)>,
}

/// The state after a character, given the width of its glyph.
pub open spec fn after_char(
    r: ReadingView,
    skip_invisible: bool,
    quarters: int,
    ch: CharFacts,
    width: Option<i32>,
) -> ReadingView {
    let p = place_of(r.run, r.samples, skip_invisible, ch);
    let t = text_of(ch)->0;
    let loose = ch.loose->0;
    let strict = ch.strict->0;
    if p == Placement::Skip {
        r
    } else if p == Placement::EndLine {
        ReadingView { items: with_run(r.items, r.run), run: empty_run(), ..r }
    } else if p == Placement::Blank {
        ReadingView {
            run: SegmentView {
                pending_space: r.run.pending_space || r.run.has_content,
                ..r.run
            },
            ..r
        }
    } else if p == Placement::Begin || p == Placement::BeginAnew {
        ReadingView {
            items: with_run(r.items, r.run),
            run: begun(ch, t, loose, strict, width, quarters),
            ..r
        }
    } else {
        ReadingView {
            items: r.items,
            run: extended(r.run, ch, t, loose, strict, width, p != Placement::Join),
            samples: if p == Placement::JoinSpaced {
                with_sample(r.run, r.samples, letter_of(t), loose, strict)
            } else {
                r.samples
            },
        }
    }
}

/// What holds of every state.
pub open spec fn reading_fits(r: ReadingView) -> bool {
    run_fits(r.run) && samples_fit(r.samples) && (!r.run.has_content ==> r.run == empty_run())
}

/// The state before any character.
pub open spec fn fresh_reading() -> ReadingView {
    ReadingView { items: seq![], run: empty_run(), samples: seq![] }
}

/// The state after the first `n` characters, given the widths of their glyphs.
pub open spec fn reading_upto(
    chars: Seq<CharFacts>,
    widths: Seq<Option<i32>>,
    skip_invisible: bool,
    quarters: int,
    n: int,
) -> ReadingView
    decreases n,
{
    if n <= 0 {
        fresh_reading()
    } else {
        after_char(
            reading_upto(chars, widths, skip_invisible, quarters, n - 1),
            skip_invisible,
            quarters,
            chars[n - 1],
            widths[n - 1],
        )
    }
}

/// The items of a page when all characters are read: without those outside the page,
/// and without duplicates.
pub open spec fn finished(r: ReadingView, width: int, height: int) -> Seq<ItemView> {
    let all = with_run(r.items, r.run);
    let inside = item_marks::on_page_upto(all, width, height, all.len() as int);
    item_marks::distinct_upto(inside, inside.len() as int)
}

/// Whether a character is shown: it has visible text of its own, and boxes of a size that
/// can be seen.
pub open spec fn is_shown(skip_invisible: bool, ch: CharFacts) -> bool {
    &&& !(skip_invisible && ch.invisible)
    &&& !ch.generated
    &&& text_of(ch) is Some
    &&& letter_of(text_of(ch)->0) != '\n'
    &&& letter_of(text_of(ch)->0) != '\r'
    &&& letter_of(text_of(ch)->0) != ' '
    &&& ch.loose is Some
    &&& ch.strict is Some
    &&& (ch.loose->0).bottom - (ch.loose->0).top >= 500
}

/// The text of a character as it is put in a run.
pub open spec fn written(t: Seq<char>) -> Seq<char> {
    seq![letter_of(t)] + t.skip(1)
}

/// The text of the shown characters among the first `n`.
pub open spec fn shown_upto(chars: Seq<CharFacts>, skip_invisible: bool, n: int) -> Seq<char>
    decreases n,
{
    if n <= 0 {
        seq![]
    } else if is_shown(skip_invisible, chars[n - 1]) {
        shown_upto(chars, skip_invisible, n - 1) + written(text_of(chars[n - 1])->0)
    } else {
        shown_upto(chars, skip_invisible, n - 1)
    }
}

/// The text of items, one behind the other.
pub open spec fn joined_text(items: Seq<ItemView>) -> Seq<char>
    decreases items.len(),
{
    if items.len() == 0 {
        seq![]
    } else {
        joined_text(items.drop_last()) + items.last().text
    }
}

proof fn lemma_with_run_keeps_ink(items: Seq<ItemView>, s: SegmentView)
    requires
        !s.has_content ==> s == empty_run(),
    ensures
        text::ink_of(joined_text(with_run(items, s))) == text::ink_of(joined_text(items))
            + text::ink_of(s.text),
{
    let before = text::ink_of(joined_text(items));
    text::law_trim_keeps_ink(s.text);
    if !s.has_content || text::is_blank(s.text) {
        assert(text::ink_of(s.text) =~= seq![]) by {
            if s.has_content {
                assert(text::trim_of(s.text) =~= seq![]);
            }
        }
        assert(before + text::ink_of(s.text) =~= before);
    } else {
        let item = item_of_run(s);
        assert(items.push(item).drop_last() =~= items);
        text::lemma_ink_joined(joined_text(items), item.text);
    }
}

proof fn lemma_reading_keeps_ink(
    chars: Seq<CharFacts>,
    widths: Seq<Option<i32>>,
    skip_invisible: bool,
    quarters: int,
    n: int,
)
    requires
        0 <= n <= chars.len(),
    ensures
        ({
            let r = reading_upto(chars, widths, skip_invisible, quarters, n);
            &&& !r.run.has_content ==> r.run == empty_run()
            &&& text::ink_of(joined_text(r.items)) + text::ink_of(r.run.text) == text::ink_of(
                shown_upto(chars, skip_invisible, n),
            )
        }),
    decreases n,
{
    let r = reading_upto(chars, widths, skip_invisible, quarters, n);
    if n > 0 {
        lemma_reading_keeps_ink(chars, widths, skip_invisible, quarters, n - 1);
        let q = reading_upto(chars, widths, skip_invisible, quarters, n - 1);
        let ch = chars[n - 1];
        let p = place_of(q.run, q.samples, skip_invisible, ch);
        let t = text_of(ch)->0;
        let before = shown_upto(chars, skip_invisible, n - 1);
        lemma_with_run_keeps_ink(q.items, q.run);
        text::lemma_ink_joined(before, written(t));
        if p == Placement::Skip || p == Placement::EndLine || p == Placement::Blank {
            assert(!is_shown(skip_invisible, ch));
            assert(text::ink_of(joined_text(r.items)) + text::ink_of(r.run.text) =~= text::ink_of(
                before,
            ));
        } else {
            assert(is_shown(skip_invisible, ch));
            if p == Placement::Begin || p == Placement::BeginAnew {
                assert(r.run.text =~= written(t));
            } else {
                let spaced = if p != Placement::Join {
                    q.run.text.push(' ')
                } else {
                    q.run.text
                };
                text::lemma_ink_pushed(q.run.text, ' ');
                text::lemma_ink_joined(spaced, written(t));
                assert(r.run.text =~= spaced + written(t));
                assert(text::ink_of(joined_text(q.items)) + (text::ink_of(q.run.text)
                    + text::ink_of(written(t))) =~= text::ink_of(joined_text(q.items))
                    + text::ink_of(q.run.text) + text::ink_of(written(t)));
            }
        }
    } else {
        assert(joined_text(r.items) =~= seq![]);
        assert(text::ink_of(joined_text(r.items)) + text::ink_of(r.run.text) =~= seq![]);
    }
}

/// Gathering runs loses, doubles and moves no character: apart from white space, the text
/// of all items one behind the other is the text of the shown characters.
pub proof fn law_runs_keep_characters(
    chars: Seq<CharFacts>,
    widths: Seq<Option<i32>>,
    skip_invisible: bool,
    quarters: int,
)
    ensures
        ({
            let r = reading_upto(chars, widths, skip_invisible, quarters, chars.len() as int);
            text::ink_of(joined_text(with_run(r.items, r.run))) == text::ink_of(
                shown_upto(chars, skip_invisible, chars.len() as int),
            )
        }),
{
    let r = reading_upto(chars, widths, skip_invisible, quarters, chars.len() as int);
    lemma_reading_keeps_ink(chars, widths, skip_invisible, quarters, chars.len() as int);
    lemma_with_run_keeps_ink(r.items, r.run);
}

} // verus!
