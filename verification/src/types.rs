//! The page model: positioned text, vector graphics, and markdown blocks.
//!
//! Coordinates, lengths and font sizes are fixed-point numbers: integer
//! thousandths of a point, with the origin at the top left of the page.
//! Rotations are integer thousandths of a degree. All layout rules are exact
//! over these integers.

use std::sync::Arc;
use vstd::prelude::*;

verus! {

/// One point in the fixed-point unit.
pub const PT: i64 = 1000;

/// A box on the page, by its top left corner and its size.
#[derive(Clone, Copy, Debug, Default, PartialEq, Eq, Structural)]
pub struct Rect {
    pub x: i32,
    pub y: i32,
    pub width: i32,
    pub height: i32,
}

impl Rect {
    pub open spec fn right_edge(self) -> int {
        self.x + self.width
    }

    pub open spec fn bottom_edge(self) -> int {
        self.y + self.height
    }

    /// The x coordinate of the right edge.
    pub fn right(&self) -> (r: i64)
        ensures
            r == self.right_edge(),
            -0x1_0000_0000 <= r <= 0x1_0000_0000,
    {
        self.x as i64 + self.width as i64
    }

    /// The y coordinate of the bottom edge.
    pub fn bottom(&self) -> (r: i64)
        ensures
            r == self.bottom_edge(),
            -0x1_0000_0000 <= r <= 0x1_0000_0000,
    {
        self.y as i64 + self.height as i64
    }
}

/// A computed box, by its four edges.
#[derive(Clone, Copy, Debug, PartialEq, Eq, Structural)]
pub struct Bounds {
    pub left: i64,
    pub top: i64,
    pub right: i64,
    pub bottom: i64,
}

/// A run of text with one font, as extracted from a page.
///
/// `bold`, `italic` and `mono` say how the font of the run looks.
#[derive(Clone, Debug, Default)]
pub struct TextItem {
    pub text: String,
    pub x: i32,
    pub y: i32,
    pub width: i32,
    pub height: i32,
    pub rotation: i32,
    pub font_name: Option<String>,
    pub font_size: Option<i32>,
    pub font_height: Option<i32>,
    pub font_ascent: Option<i32>,
    pub font_descent: Option<i32>,
    pub font_weight: Option<i32>,
    pub font_flags: Option<i32>,
    pub text_width: Option<i32>,
    pub font_is_buggy: bool,
    pub has_unicode_map_error: bool,
    pub mcid: Option<i32>,
    pub fill_color: Option<String>,
    pub stroke_color: Option<String>,
    pub confidence: Option<i32>,
    pub link: Option<String>,
    pub strike: bool,
    pub bold: bool,
    pub italic: bool,
    pub mono: bool,
}

/// The characters of an optional string.
pub open spec fn option_text(s: Option<String>) -> Option<Seq<char>> {
    match s {
        Some(t) => Some(t@),
        None => None,
    }
}

/// The contents of a `TextItem`.
#[verifier::ext_equal]
pub struct ItemView {
    pub text: Seq<char>,
    pub x: int,
    pub y: int,
    pub width: int,
    pub height: int,
    pub rotation: int,
    pub font_name: Option<Seq<char>>,
    pub font_size: Option<i32>,
    pub font_height: Option<i32>,
    pub font_ascent: Option<i32>,
    pub font_descent: Option<i32>,
    pub font_weight: Option<i32>,
    pub font_flags: Option<i32>,
    pub text_width: Option<i32>,
    pub font_is_buggy: bool,
    pub has_unicode_map_error: bool,
    pub mcid: Option<i32>,
    pub fill_color: Option<Seq<char>>,
    pub stroke_color: Option<Seq<char>>,
    pub confidence: Option<i32>,
    pub link: Option<Seq<char>>,
    pub strike: bool,
    pub bold: bool,
    pub italic: bool,
    pub mono: bool,
}

impl View for TextItem {
    type V = ItemView;

    open spec fn view(&self) -> ItemView {
        ItemView {
            text: self.text@,
            x: self.x as int,
            y: self.y as int,
            width: self.width as int,
            height: self.height as int,
            rotation: self.rotation as int,
            font_name: option_text(self.font_name),
            font_size: self.font_size,
            font_height: self.font_height,
            font_ascent: self.font_ascent,
            font_descent: self.font_descent,
            font_weight: self.font_weight,
            font_flags: self.font_flags,
            text_width: self.text_width,
            font_is_buggy: self.font_is_buggy,
            has_unicode_map_error: self.has_unicode_map_error,
            mcid: self.mcid,
            fill_color: option_text(self.fill_color),
            stroke_color: option_text(self.stroke_color),
            confidence: self.confidence,
            link: option_text(self.link),
            strike: self.strike,
            bold: self.bold,
            italic: self.italic,
            mono: self.mono,
        }
    }
}

/// The contents of every item of `v`.
pub open spec fn item_views(v: Seq<TextItem>) -> Seq<ItemView> {
    Seq::new(v.len(), |i: int| v[i]@)
}

/// An item of plain text at a place, with nothing known of its font.
pub open spec fn plain_item(text: Seq<char>, x: int, y: int, width: int, height: int) -> ItemView {
    ItemView {
        text,
        x,
        y,
        width,
        height,
        rotation: 0,
        font_name: None,
        font_size: None,
        font_height: None,
        font_ascent: None,
        font_descent: None,
        font_weight: None,
        font_flags: None,
        text_width: None,
        font_is_buggy: false,
        has_unicode_map_error: false,
        mcid: None,
        fill_color: None,
        stroke_color: None,
        confidence: None,
        link: None,
        strike: false,
        bold: false,
        italic: false,
        mono: false,
    }
}

impl TextItem {
    /// An item of plain text at a place, with nothing known of its font.
    pub fn plain(text: String, x: i32, y: i32, width: i32, height: i32) -> (r: TextItem)
        ensures
            r@ == plain_item(text@, x as int, y as int, width as int, height as int),
    {
        TextItem {
            text,
            x,
            y,
            width,
            height,
            rotation: 0,
            font_name: None,
            font_size: None,
            font_height: None,
            font_ascent: None,
            font_descent: None,
            font_weight: None,
            font_flags: None,
            text_width: None,
            font_is_buggy: false,
            has_unicode_map_error: false,
            mcid: None,
            fill_color: None,
            stroke_color: None,
            confidence: None,
            link: None,
            strike: false,
            bold: false,
            italic: false,
            mono: false,
        }
    }
}

/// A copy of an item.
pub fn clone_item(t: &TextItem) -> (r: TextItem)
    ensures
        r == *t,
{
    TextItem {
        text: t.text.clone(),
        x: t.x,
        y: t.y,
        width: t.width,
        height: t.height,
        rotation: t.rotation,
        font_name: clone_option(&t.font_name),
        font_size: t.font_size,
        font_height: t.font_height,
        font_ascent: t.font_ascent,
        font_descent: t.font_descent,
        font_weight: t.font_weight,
        font_flags: t.font_flags,
        text_width: t.text_width,
        font_is_buggy: t.font_is_buggy,
        has_unicode_map_error: t.has_unicode_map_error,
        mcid: t.mcid,
        fill_color: clone_option(&t.fill_color),
        stroke_color: clone_option(&t.stroke_color),
        confidence: t.confidence,
        link: clone_option(&t.link),
        strike: t.strike,
        bold: t.bold,
        italic: t.italic,
        mono: t.mono,
    }
}

/// Where the text of a line is anchored horizontally.
#[derive(Clone, Copy, Debug, PartialEq, Eq, Structural)]
pub enum Anchor {
    Left,
    Right,
    Center,
    Floating,
}

/// One line of text in reading order, with the runs it was made of.
#[derive(Clone, Debug)]
pub struct ProjectedLine {
    pub text: String,
    pub bbox: Rect,
    pub anchor: Anchor,
    pub indent_x: i32,
    pub dominant_font_size: i32,
    /// Whether the font size was estimated from the height of the line.
    pub font_size_is_estimated: bool,
    pub dominant_font_name: Option<String>,
    pub all_bold: bool,
    pub all_italic: bool,
    pub all_mono: bool,
    pub all_strike: bool,
    /// The runs of the line. Copies of the line share them.
    pub spans: Arc<Vec<TextItem>>,
    /// The path of the page region that the line belongs to.
    pub region_path: Arc<Vec<u32>>,
    pub mcid: Option<i32>,
}

/// `Arc::clone`: the copy points to the same value.
#[verifier::external_body]
fn share<T>(a: &Arc<T>) -> (r: Arc<T>)
    ensures
        r == *a,
{
    a.clone()
}

/// A copy of an optional string.
pub fn clone_option(s: &Option<String>) -> (r: Option<String>)
    ensures
        r == *s,
{
    match s {
        Some(t) => Some(t.clone()),
        None => None,
    }
}

/// A copy of a line, which shares the runs of the line.
pub fn clone_line(l: &ProjectedLine) -> (r: ProjectedLine)
    ensures
        r == *l,
{
    ProjectedLine {
        text: l.text.clone(),
        bbox: l.bbox,
        anchor: l.anchor,
        indent_x: l.indent_x,
        dominant_font_size: l.dominant_font_size,
        font_size_is_estimated: l.font_size_is_estimated,
        dominant_font_name: clone_option(&l.dominant_font_name),
        all_bold: l.all_bold,
        all_italic: l.all_italic,
        all_mono: l.all_mono,
        all_strike: l.all_strike,
        spans: share(&l.spans),
        region_path: share(&l.region_path),
        mcid: l.mcid,
    }
}

/// A simplified vector graphic.
#[derive(Clone, Debug)]
pub enum GraphicPrimitive {
    Stroke { x1: i32, y1: i32, x2: i32, y2: i32, color: Option<String>, width: i32 },
    Rect { bbox: Rect, fill: Option<String>, stroke: Option<String> },
}

/// A node of the structure tree of a tagged page.
#[derive(Clone, Debug)]
pub struct StructNode {
    pub role: String,
    pub mcids: Vec<i32>,
    pub bbox: Option<Rect>,
    pub alt_text: Option<String>,
}

/// An outline entry that points at a page. `y_pdf` counts from the bottom of
/// the page.
#[derive(Clone, Debug)]
pub struct OutlineTarget {
    pub level: u8,
    pub title: String,
    pub page_index: usize,
    pub y_pdf: Option<i32>,
}

/// A raster image on a page.
#[derive(Clone, Debug)]
pub struct ImageRef {
    pub id: String,
    pub bbox: Rect,
    pub obj_index: usize,
}

/// A page as extracted, before its text is arranged in lines.
#[derive(Clone, Debug)]
pub struct Page {
    pub page_number: usize,
    pub page_width: i32,
    pub page_height: i32,
    pub text_items: Vec<TextItem>,
    pub graphics: Vec<GraphicPrimitive>,
    pub struct_nodes: Vec<StructNode>,
    pub image_refs: Vec<ImageRef>,
}

/// A page whose text is arranged in lines.
#[derive(Clone, Debug)]
pub struct ParsedPage {
    pub page_number: usize,
    pub page_width: i32,
    pub page_height: i32,
    pub text: String,
    pub text_items: Vec<TextItem>,
    pub projected_lines: Vec<ProjectedLine>,
    pub graphics: Vec<GraphicPrimitive>,
    pub struct_nodes: Vec<StructNode>,
    pub image_refs: Vec<ImageRef>,
}

/// A piece of a document as markdown sees it.
#[derive(Clone, Debug)]
pub enum Block {
    Heading { level: u8, text: String },
    Paragraph { text: String, bold: bool, italic: bool },
    ListItem {
        ordered: bool,
        marker: String,
        level: u8,
        text: String,
        bold: bool,
        italic: bool,
    },
    /// Rendered between fences, line by line.
    CodeBlock { lines: Vec<String> },
    /// Rendered as a pipe table. `header` is `None` when no row qualified.
    Table { header: Option<Vec<String>>, rows: Vec<Vec<String>> },
    /// A tabular region without a trustworthy grid, rendered verbatim between
    /// fences.
    GridFallback { lines: Vec<String> },
    HorizontalRule,
    Blank,
    /// A raster image, rendered as a reference.
    Figure { id: String, bbox: Rect },
}

/// The characters of every string of `v`.
pub open spec fn texts(v: Seq<String>) -> Seq<Seq<char>> {
    Seq::new(v.len(), |i: int| v[i]@)
}

/// The characters of every cell of every row of `v`.
pub open spec fn row_texts(v: Seq<Vec<String>>) -> Seq<Seq<Seq<char>>> {
    Seq::new(v.len(), |i: int| texts(v[i]@))
}

/// The characters of the header cells, when there is a header.
pub open spec fn header_texts(h: Option<Vec<String>>) -> Option<Seq<Seq<char>>> {
    match h {
        Some(v) => Some(texts(v@)),
        None => None,
    }
}

/// The contents of a `Block`.
#[verifier::ext_equal]
pub enum BlockView {
    Heading { level: u8, text: Seq<char> },
    Paragraph { text: Seq<char>, bold: bool, italic: bool },
    ListItem {
        ordered: bool,
        marker: Seq<char>,
        level: u8,
        text: Seq<char>,
        bold: bool,
        italic: bool,
    },
    CodeBlock { lines: Seq<Seq<char>> },
    Table { header: Option<Seq<Seq<char>>>, rows: Seq<Seq<Seq<char>>> },
    GridFallback { lines: Seq<Seq<char>> },
    HorizontalRule,
    Blank,
    Figure { id: Seq<char>, bbox: Rect },
}

impl View for Block {
    type V = BlockView;

    open spec fn view(&self) -> BlockView {
        match *self {
            Block::Heading { level, text } => BlockView::Heading { level, text: text@ },
            Block::Paragraph { text, bold, italic } => BlockView::Paragraph {
                text: text@,
                bold,
                italic,
            },
            Block::ListItem { ordered, marker, level, text, bold, italic } => BlockView::ListItem {
                ordered,
                marker: marker@,
                level,
                text: text@,
                bold,
                italic,
            },
            Block::CodeBlock { lines } => BlockView::CodeBlock { lines: texts(lines@) },
            Block::Table { header, rows } => BlockView::Table {
                header: header_texts(header),
                rows: row_texts(rows@),
            },
            Block::GridFallback { lines } => BlockView::GridFallback { lines: texts(lines@) },
            Block::HorizontalRule => BlockView::HorizontalRule,
            Block::Blank => BlockView::Blank,
            Block::Figure { id, bbox } => BlockView::Figure { id: id@, bbox },
        }
    }
}

/// The contents of every block of `v`.
pub open spec fn block_views(v: Seq<Block>) -> Seq<BlockView> {
    Seq::new(v.len(), |i: int| v[i]@)
}

/// A copy of a list of strings.
pub fn clone_strings(v: &Vec<String>) -> (r: Vec<String>)
    ensures
        texts(r@) == texts(v@),
        r@.len() == v@.len(),
{
    let mut out: Vec<String> = Vec::new();
    let mut i: usize = 0;
    while i < v.len()
        invariant
            i <= v@.len(),
            out@.len() == i,
            forall|k: int| 0 <= k < i ==> out@[k]@ == v@[k]@,
        decreases v.len() - i,
    {
        out.push(v[i].clone());
        i = i + 1;
    }
    proof {
        assert(texts(out@) =~= texts(v@));
    }
    out
}

/// A copy of a list of rows.
pub fn clone_rows(v: &Vec<Vec<String>>) -> (r: Vec<Vec<String>>)
    ensures
        row_texts(r@) == row_texts(v@),
        r@.len() == v@.len(),
{
    let mut out: Vec<Vec<String>> = Vec::new();
    let mut i: usize = 0;
    while i < v.len()
        invariant
            i <= v@.len(),
            out@.len() == i,
            forall|k: int| 0 <= k < i ==> texts(out@[k]@) == #[trigger] texts(v@[k]@),
        decreases v.len() - i,
    {
        out.push(clone_strings(&v[i]));
        i = i + 1;
    }
    proof {
        assert(row_texts(out@) =~= row_texts(v@));
    }
    out
}

/// A copy of a block.
pub fn clone_block(b: &Block) -> (r: Block)
    ensures
        r@ == b@,
{
    match b {
        Block::Heading { level, text } => Block::Heading { level: *level, text: text.clone() },
        Block::Paragraph { text, bold, italic } => Block::Paragraph {
            text: text.clone(),
            bold: *bold,
            italic: *italic,
        },
        Block::ListItem { ordered, marker, level, text, bold, italic } => Block::ListItem {
            ordered: *ordered,
            marker: marker.clone(),
            level: *level,
            text: text.clone(),
            bold: *bold,
            italic: *italic,
        },
        Block::CodeBlock { lines } => Block::CodeBlock { lines: clone_strings(lines) },
        Block::Table { header, rows } => {
            let h: Option<Vec<String>> = match header {
                Some(v) => Some(clone_strings(v)),
                None => None,
            };
            Block::Table { header: h, rows: clone_rows(rows) }
        },
        Block::GridFallback { lines } => Block::GridFallback { lines: clone_strings(lines) },
        Block::HorizontalRule => Block::HorizontalRule,
        Block::Blank => Block::Blank,
        Block::Figure { id, bbox } => Block::Figure { id: id.clone(), bbox: *bbox },
    }
}

/// A number, cut to the range of coordinates.
pub open spec fn clamped(v: int) -> int {
    if v < i32::MIN {
        i32::MIN as int
    } else if v > i32::MAX {
        i32::MAX as int
    } else {
        v
    }
}

/// A number, cut to the range of coordinates.
pub fn clamp32(v: i128) -> (r: i32)
    ensures
        r == clamped(v as int),
{
    if v < i32::MIN as i128 {
        i32::MIN
    } else if v > i32::MAX as i128 {
        i32::MAX
    } else {
        v as i32
    }
}

/// The larger of two integers.
pub open spec fn max_of(a: int, b: int) -> int {
    if a >= b {
        a
    } else {
        b
    }
}

/// The smaller of two integers.
pub open spec fn min_of(a: int, b: int) -> int {
    if a <= b {
        a
    } else {
        b
    }
}

/// The distance between two integers.
pub open spec fn dist(a: int, b: int) -> int {
    if a >= b {
        a - b
    } else {
        b - a
    }
}

pub fn max64(a: i64, b: i64) -> (r: i64)
    ensures
        r == max_of(a as int, b as int),
{
    if a >= b {
        a
    } else {
        b
    }
}

pub fn min64(a: i64, b: i64) -> (r: i64)
    ensures
        r == min_of(a as int, b as int),
{
    if a <= b {
        a
    } else {
        b
    }
}

/// The distance between two coordinates.
pub fn dist64(a: i64, b: i64) -> (r: i64)
    requires
        -0x4000_0000_0000_0000 < a < 0x4000_0000_0000_0000,
        -0x4000_0000_0000_0000 < b < 0x4000_0000_0000_0000,
    ensures
        r == dist(a as int, b as int),
        0 <= r,
{
    if a >= b {
        a - b
    } else {
        b - a
    }
}

/// The point halfway between two coordinates, rounded down to the unit.
pub open spec fn midpoint(a: int, b: int) -> int {
    (a + b) / 2
}

/// The point halfway between two coordinates, rounded down to the unit.
pub fn mid64(a: i64, b: i64) -> (r: i64)
    requires
        -0x2000_0000_0000_0000 < a < 0x2000_0000_0000_0000,
        -0x2000_0000_0000_0000 < b < 0x2000_0000_0000_0000,
    ensures
        r == midpoint(a as int, b as int),
{
    let s: i64 = a + b;
    if s >= 0 {
        s / 2
    } else {
        -((1 - s) / 2)
    }
}

} // verus!
