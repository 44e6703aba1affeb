//! Merging recognized text into pages.

use vstd::prelude::*;
use vstd::string::*;
use crate::numbers;
use crate::ocr_text;
use crate::text;
use crate::types;
use crate::types::{ItemView, Page, TextItem};

verus! {

/// A corner of a detected text, in thousandths of a pixel.
#[derive(Clone, Copy, Debug, PartialEq, Eq, Structural)]
pub struct Corner {
    pub x: i32,
    pub y: i32,
}

/// The four corners of a detected text, in the order in which the engine gives
/// them.
#[derive(Clone, Copy, Debug, PartialEq, Eq, Structural)]
pub struct Quad {
    pub a: Corner,
    pub b: Corner,
    pub c: Corner,
    pub d: Corner,
}

/// The edges of a detected text, in thousandths of a pixel.
#[derive(Clone, Copy, Debug, PartialEq, Eq, Structural)]
pub struct PixelBox {
    pub left: i32,
    pub top: i32,
    pub right: i32,
    pub bottom: i32,
}

/// A detected text. The confidence is in millionths.
#[derive(Clone, Debug)]
pub struct OcrResult {
    pub text: String,
    pub bbox: PixelBox,
    pub polygon: Option<Quad>,
    pub confidence: i32,
}

/// What an engine is told about a page.
#[derive(Clone, Debug)]
pub struct OcrOptions {
    pub language: String,
}

/// How hard a page is to read without recognition. Shares of the page are in millionths,
/// areas in thousandths of a square point; the reasons are given by their names.
#[derive(Clone, Debug)]
pub struct PageComplexityStats {
    pub page_number: usize,
    pub text_length: usize,
    pub text_coverage: i32,
    pub has_substantial_images: bool,
    pub image_block_count: usize,
    pub image_coverage: i32,
    pub largest_image_coverage: i32,
    pub full_page_image: bool,
    pub uncovered_vector_area: Option<i64>,
    pub is_garbled: bool,
    pub page_area: i64,
    pub needs_ocr: bool,
    pub reasons: Vec<String>,
}

/// What became of the recognition of one page.
#[derive(Clone, Debug)]
pub enum Outcome {
    Read(Vec<OcrResult>),
    Failed(String),
}

/// What went wrong in a parse.
#[derive(Clone, Debug)]
pub enum LiteParseError {
    Ocr(String),
    Image(String),
}

impl LiteParseError {
    /// What went wrong, in words.
    pub fn message(&self) -> (r: &str)
        ensures
            match *self {
                LiteParseError::Ocr(m) => r@ == m@,
                LiteParseError::Image(m) => r@ == m@,
            },
    {
        match self {
            LiteParseError::Ocr(m) => m.as_str(),
            LiteParseError::Image(m) => m.as_str(),
        }
    }
}

/// The text of a page.
#[verifier::ext_equal]
pub struct PageText {
    pub width: int,
    pub height: int,
    pub items: Seq<ItemView>,
}

/// The text of a page.
pub open spec fn page_text(p: Page) -> PageText {
    PageText {
        width: p.page_width as int,
        height: p.page_height as int,
        items: types::item_views(p.text_items@),
    }
}

/// The texts of pages.
pub open spec fn page_texts(v: Seq<Page>) -> Seq<PageText> {
    Seq::new(v.len(), |i: int| page_text(v[i]))
}

// ---------------------------------------------------------------------------
// Which pages need recognition
// ---------------------------------------------------------------------------

/// The number of bytes of those of the first `n` items that are not garbled.
pub open spec fn readable_bytes(items: Seq<ItemView>, n: int) -> nat
    decreases n,
{
    if n <= 0 {
        0
    } else {
        let t = items[n - 1].text;
        readable_bytes(items, n - 1) + if ocr_text::is_garbled(t) {
            0
        } else {
            text::utf8_len(t, t.len() as int)
        }
    }
}

/// The area of those of the first `n` items that are not garbled.
pub open spec fn readable_area(items: Seq<ItemView>, n: int) -> int
    decreases n,
{
    if n <= 0 {
        0
    } else {
        readable_area(items, n - 1) + if ocr_text::is_garbled(items[n - 1].text) {
            0
        } else {
            items[n - 1].width * items[n - 1].height
        }
    }
}

/// Whether the readable text of a page is sparse: fewer than 20 bytes, or on less
/// than 15 percent of the page.
pub open spec fn is_sparse(p: PageText) -> bool {
    let n = p.items.len() as int;
    let area = p.width * p.height;
    readable_bytes(p.items, n) < 20 || area <= 0 || 20 * readable_area(p.items, n) < 3 * area
}

/// The number of ASCII letters in the first `n` items.
pub open spec fn page_letters(items: Seq<ItemView>, n: int) -> nat
    decreases n,
{
    if n <= 0 {
        0
    } else {
        let t = items[n - 1].text;
        page_letters(items, n - 1) + ocr_text::letters(t, t.len() as int)
    }
}

/// The number of ASCII vowels in the first `n` items.
pub open spec fn page_vowels(items: Seq<ItemView>, n: int) -> nat
    decreases n,
{
    if n <= 0 {
        0
    } else {
        let t = items[n - 1].text;
        page_vowels(items, n - 1) + ocr_text::vowels(t, t.len() as int)
    }
}

/// Whether the text of a page is garbled as a whole: thirty letters or more with
/// vowels on fewer than a fifth of them.
pub open spec fn is_garbled_page(items: Seq<ItemView>) -> bool {
    let n = items.len() as int;
    page_letters(items, n) >= 30 && page_vowels(items, n) * 5 < page_letters(items, n)
}

/// Whether a page needs recognition: its readable text is sparse, it has images,
/// or its text is garbled.
pub open spec fn needs_ocr(p: PageText, has_images: bool) -> bool {
    is_sparse(p) || has_images || is_garbled_page(p.items)
}

proof fn lemma_item_area(w: int, h: int)
    requires
        -0x8000_0000 <= w <= 0x7FFF_FFFF,
        -0x8000_0000 <= h <= 0x7FFF_FFFF,
    ensures
        -0x4000_0000_0000_0000 <= w * h <= 0x4000_0000_0000_0000,
{
    assert(-0x4000_0000_0000_0000 <= w * h <= 0x4000_0000_0000_0000) by (nonlinear_arith)
        requires
            -0x8000_0000 <= w <= 0x7FFF_FFFF,
            -0x8000_0000 <= h <= 0x7FFF_FFFF,
    ;
}

/// Whether the readable text of a page is sparse.
pub fn page_has_sparse_native_text(page: &Page) -> (r: bool)
    ensures
        r == is_sparse(page_text(*page)),
{
    let ghost items = types::item_views(page.text_items@);
    // The number of bytes matters only up to 20.
    let mut bytes: u128 = 0;
    let mut covered: i128 = 0;
    let mut i: usize = 0;
    while i < page.text_items.len()
        invariant
            i <= page.text_items@.len(),
            items == types::item_views(page.text_items@),
            bytes == types::min_of(readable_bytes(items, i as int) as int, 20),
            covered == readable_area(items, i as int),
            -0x4000_0000_0000_0000 * i <= covered <= 0x4000_0000_0000_0000 * i,
        decreases page.text_items.len() - i,
    {
        let it = &page.text_items[i];
        proof {
            assert(items[i as int] == it@);
            lemma_item_area(it.width as int, it.height as int);
        }
        if !ocr_text::is_likely_garbled(it.text.as_str()) {
            let more: u128 = bytes + text::byte_length(it.text.as_str());
            bytes = if more < 20 {
                more
            } else {
                20
            };
            covered = covered + (it.width as i128) * (it.height as i128);
        }
        i = i + 1;
    }
    proof {
        lemma_item_area(page.page_width as int, page.page_height as int);
    }
    let area: i128 = (page.page_width as i128) * (page.page_height as i128);
    bytes < 20 || area <= 0 || covered < (3 * area + 19) / 20
}

/// Whether the text of a page is garbled as a whole.
pub fn page_is_garbled(page: &Page) -> (r: bool)
    ensures
        r == is_garbled_page(types::item_views(page.text_items@)),
{
    let ghost items = types::item_views(page.text_items@);
    let mut letters: u128 = 0;
    let mut vowels: u128 = 0;
    let mut i: usize = 0;
    while i < page.text_items.len()
        invariant
            i <= page.text_items@.len(),
            items == types::item_views(page.text_items@),
            letters == page_letters(items, i as int),
            vowels == page_vowels(items, i as int),
            letters <= 0xFFFF_FFFF_FFFF_FFFF * i,
            vowels <= 0xFFFF_FFFF_FFFF_FFFF * i,
        decreases page.text_items.len() - i,
    {
        let it = &page.text_items[i];
        proof {
            assert(items[i as int] == it@);
        }
        let n: (usize, usize) = ocr_text::count_letters_and_vowels(it.text.as_str());
        letters = letters + n.0 as u128;
        vowels = vowels + n.1 as u128;
        i = i + 1;
    }
    letters >= 30 && vowels < (letters + 4) / 5
}

/// Whether a page needs recognition, given whether it has images.
pub fn page_needs_ocr(page: &Page, has_images: bool) -> (r: bool)
    ensures
        r == needs_ocr(page_text(*page), has_images),
{
    page_has_sparse_native_text(page) || has_images || page_is_garbled(page)
}

// ---------------------------------------------------------------------------
// Where a detected text is
// ---------------------------------------------------------------------------

/// The square of the length of an edge.
pub open spec fn length_squared(x: int, y: int) -> int {
    x * x + y * y
}

/// The right angle next to the direction of an edge, in degrees counterclockwise,
/// where the y axis points down. Directions halfway between two right angles
/// belong to the larger one.
pub open spec fn right_angle(x: int, y: int) -> int {
    let u = x;
    let v = -y;
    if v > 0 && -v < u <= v {
        90
    } else if u < 0 && u < v <= -u {
        180
    } else if v < 0 && v <= u < -v {
        270
    } else {
        0
    }
}

/// The rotation of a detected text in degrees counterclockwise, as a right angle.
///
/// The text runs along the longer of two adjacent edges. Texts smaller than a
/// pixel, and texts whose edges have nearly the same length, count as upright.
pub open spec fn rotation_of(q: Quad) -> int {
    let x0 = q.b.x - q.a.x;
    let y0 = q.b.y - q.a.y;
    let x1 = q.c.x - q.b.x;
    let y1 = q.c.y - q.b.y;
    let l0 = length_squared(x0, y0);
    let l1 = length_squared(x1, y1);
    let longer = types::max_of(l0, l1);
    let shorter = types::min_of(l0, l1);
    if longer < 1_000_000 {
        0
    } else if shorter > 0 && 100 * longer < 169 * shorter {
        0
    } else if l0 >= l1 {
        right_angle(x0, y0)
    } else {
        right_angle(x1, y1)
    }
}

fn squared(x: i64, y: i64) -> (r: i128)
    requires
        -0x1_0000_0000 <= x <= 0x1_0000_0000,
        -0x1_0000_0000 <= y <= 0x1_0000_0000,
    ensures
        r == length_squared(x as int, y as int),
        0 <= r <= 0x2_0000_0000_0000_0000,
{
    proof {
        let a = x as int;
        let b = y as int;
        assert(0 <= a * a <= 0x1_0000_0000_0000_0000) by (nonlinear_arith)
            requires
                -0x1_0000_0000 <= a <= 0x1_0000_0000,
        ;
        assert(0 <= b * b <= 0x1_0000_0000_0000_0000) by (nonlinear_arith)
            requires
                -0x1_0000_0000 <= b <= 0x1_0000_0000,
        ;
    }
    (x as i128) * (x as i128) + (y as i128) * (y as i128)
}

fn nearest_right_angle(x: i64, y: i64) -> (r: i32)
    requires
        -0x1_0000_0000 <= x <= 0x1_0000_0000,
        -0x1_0000_0000 <= y <= 0x1_0000_0000,
    ensures
        r == right_angle(x as int, y as int),
        0 <= r <= 270,
{
    let u: i64 = x;
    let v: i64 = -y;
    if v > 0 && -v < u && u <= v {
        90
    } else if u < 0 && u < v && v <= -u {
        180
    } else if v < 0 && v <= u && u < -v {
        270
    } else {
        0
    }
}

/// The rotation of a detected text in degrees counterclockwise: 0, 90, 180 or 270.
pub fn polygon_rotation_deg(q: &Quad) -> (r: i32)
    ensures
        r == rotation_of(*q),
        r == 0 || r == 90 || r == 180 || r == 270,
{
    let x0: i64 = q.b.x as i64 - q.a.x as i64;
    let y0: i64 = q.b.y as i64 - q.a.y as i64;
    let x1: i64 = q.c.x as i64 - q.b.x as i64;
    let y1: i64 = q.c.y as i64 - q.b.y as i64;
    let l0: i128 = squared(x0, y0);
    let l1: i128 = squared(x1, y1);
    let longer: i128 = if l0 >= l1 {
        l0
    } else {
        l1
    };
    let shorter: i128 = if l0 >= l1 {
        l1
    } else {
        l0
    };
    if longer < 1_000_000 {
        return 0;
    }
    if shorter > 0 && 100 * longer < 169 * shorter {
        return 0;
    }
    if l0 >= l1 {
        nearest_right_angle(x0, y0)
    } else {
        nearest_right_angle(x1, y1)
    }
}

/// A number of pixels as a length on the page at a resolution of `dpi`, both in
/// thousandths, to the nearest unit; lengths that no coordinate can hold are cut
/// to the largest one. At a resolution of zero all lengths but zero are too large.
pub open spec fn on_page(pixels: int, dpi: int) -> int {
    if dpi > 0 {
        types::clamped((144_000 * pixels + dpi) / (2 * dpi))
    } else if pixels > 0 {
        i32::MAX as int
    } else if pixels < 0 {
        i32::MIN as int
    } else {
        0
    }
}

fn pixels_on_page(pixels: i64, dpi: u32) -> (r: i32)
    requires
        -0x1_0000_0000 <= pixels <= 0x1_0000_0000,
    ensures
        r == on_page(pixels as int, dpi as int),
{
    if dpi == 0 {
        return if pixels > 0 {
            i32::MAX
        } else if pixels < 0 {
            i32::MIN
        } else {
            0
        };
    }
    types::clamp32(
        numbers::floor_div(144_000 * (pixels as i128) + dpi as i128, 2 * (dpi as i128)),
    )
}

/// The edges of a detected text: those of the box around its corners, where it has
/// corners.
pub open spec fn edges_of(r: OcrResult) -> PixelBox {
    match r.polygon {
        Some(q) => PixelBox {
            left: types::min_of(
                types::min_of(q.a.x as int, q.b.x as int),
                types::min_of(q.c.x as int, q.d.x as int),
            ) as i32,
            top: types::min_of(
                types::min_of(q.a.y as int, q.b.y as int),
                types::min_of(q.c.y as int, q.d.y as int),
            ) as i32,
            right: types::max_of(
                types::max_of(q.a.x as int, q.b.x as int),
                types::max_of(q.c.x as int, q.d.x as int),
            ) as i32,
            bottom: types::max_of(
                types::max_of(q.a.y as int, q.b.y as int),
                types::max_of(q.c.y as int, q.d.y as int),
            ) as i32,
        },
        None => r.bbox,
    }
}

fn least(a: i32, b: i32, c: i32, d: i32) -> (r: i32)
    ensures
        r == types::min_of(
            types::min_of(a as int, b as int),
            types::min_of(c as int, d as int),
        ),
{
    let x: i32 = if a <= b {
        a
    } else {
        b
    };
    let y: i32 = if c <= d {
        c
    } else {
        d
    };
    if x <= y {
        x
    } else {
        y
    }
}

fn greatest(a: i32, b: i32, c: i32, d: i32) -> (r: i32)
    ensures
        r == types::max_of(
            types::max_of(a as int, b as int),
            types::max_of(c as int, d as int),
        ),
{
    let x: i32 = if a >= b {
        a
    } else {
        b
    };
    let y: i32 = if c >= d {
        c
    } else {
        d
    };
    if x >= y {
        x
    } else {
        y
    }
}

fn result_edges(r: &OcrResult) -> (e: PixelBox)
    ensures
        e == edges_of(*r),
{
    match r.polygon {
        Some(q) => PixelBox {
            left: least(q.a.x, q.b.x, q.c.x, q.d.x),
            top: least(q.a.y, q.b.y, q.c.y, q.d.y),
            right: greatest(q.a.x, q.b.x, q.c.x, q.d.x),
            bottom: greatest(q.a.y, q.b.y, q.c.y, q.d.y),
        },
        None => r.bbox,
    }
}

/// Whether a box touches an item, to within a tolerance.
pub open spec fn touches(it: ItemView, x: int, y: int, w: int, h: int, tolerance: int) -> bool {
    x < it.x + it.width + tolerance && x + w > it.x - tolerance && y < it.y + it.height + tolerance
        && y + h > it.y - tolerance
}

/// Whether a box touches any of the items, to within a tolerance.
pub open spec fn touches_any(
    items: Seq<ItemView>,
    x: int,
    y: int,
    w: int,
    h: int,
    tolerance: int,
) -> bool {
    exists|i: int| 0 <= i < items.len() && touches(#[trigger] items[i], x, y, w, h, tolerance)
}

/// Whether a box touches any of the items, to within a tolerance.
pub fn overlaps_existing_text(
    items: &Vec<TextItem>,
    x: i32,
    y: i32,
    w: i32,
    h: i32,
    tolerance: i32,
) -> (r: bool)
    ensures
        r == touches_any(
            types::item_views(items@),
            x as int,
            y as int,
            w as int,
            h as int,
            tolerance as int,
        ),
{
    let ghost iv = types::item_views(items@);
    let ox: i64 = x as i64;
    let oy: i64 = y as i64;
    let t: i64 = tolerance as i64;
    let right: i64 = ox + w as i64;
    let bottom: i64 = oy + h as i64;
    let mut i: usize = 0;
    while i < items.len()
        invariant
            i <= items@.len(),
            iv == types::item_views(items@),
            ox == x && oy == y && t == tolerance,
            right == x + w,
            bottom == y + h,
            forall|k: int|
                0 <= k < i ==> !touches(
                    #[trigger] iv[k],
                    x as int,
                    y as int,
                    w as int,
                    h as int,
                    tolerance as int,
                ),
        decreases items.len() - i,
    {
        let it = &items[i];
        proof {
            assert(iv[i as int] == it@);
        }
        let it_x: i64 = it.x as i64;
        let it_y: i64 = it.y as i64;
        if ox < it_x + it.width as i64 + t && right > it_x - t && oy < it_y + it.height as i64 + t
            && bottom > it_y - t {
            return true;
        }
        i = i + 1;
    }
    false
}

// ---------------------------------------------------------------------------
// Merging
// ---------------------------------------------------------------------------

/// How near recognized text can be to native text, in the unit of the page.
pub const OVERLAP_TOLERANCE: i32 = 2_000;

/// The items of a page that recognized text is merged with: those that are not
/// garbled, and none where the page is garbled as a whole.
pub open spec fn readable_upto(items: Seq<ItemView>, n: int) -> Seq<ItemView>
    decreases n,
{
    if n <= 0 {
        seq![]
    } else if ocr_text::is_garbled(items[n - 1].text) {
        readable_upto(items, n - 1)
    } else {
        readable_upto(items, n - 1).push(items[n - 1])
    }
}

/// The items of a page that recognized text is merged with.
pub open spec fn native_items(items: Seq<ItemView>) -> Seq<ItemView> {
    if is_garbled_page(items) {
        seq![]
    } else {
        readable_upto(items, items.len() as int)
    }
}

/// The item for a detected text, if it is taken: its confidence is above a tenth,
/// it does not touch native text, and text is left of it.
pub open spec fn item_for(native: Seq<ItemView>, r: OcrResult, dpi: int) -> Option<ItemView> {
    let e = edges_of(r);
    let x = on_page(e.left as int, dpi);
    let y = on_page(e.top as int, dpi);
    let w = on_page(e.right - e.left, dpi);
    let h = on_page(e.bottom - e.top, dpi);
    let degrees = match r.polygon {
        Some(q) => rotation_of(q),
        None => 0,
    };
    let cleaned = ocr_text::cleaned(r.text@);
    if r.confidence <= 100_000 || touches_any(native, x, y, w, h, OVERLAP_TOLERANCE as int)
        || cleaned.len() == 0 {
        None
    } else {
        Some(
            ItemView {
                rotation: 1000 * degrees,
                font_name: Some("OCR"@),
                font_size: Some(
                    (if degrees == 90 || degrees == 270 {
                        types::max_of(w, 1_000)
                    } else {
                        h
                    }) as i32,
                ),
                confidence: Some(((r.confidence + 500) / 1000) as i32),
                ..types::plain_item(cleaned, x, y, w, h)
            },
        )
    }
}

/// The items for those of the first `n` detected texts that are taken.
pub open spec fn items_upto(
    native: Seq<ItemView>,
    results: Seq<OcrResult>,
    dpi: int,
    n: int,
) -> Seq<ItemView>
    decreases n,
{
    if n <= 0 {
        seq![]
    } else {
        match item_for(native, results[n - 1], dpi) {
            Some(it) => items_upto(native, results, dpi, n - 1).push(it),
            None => items_upto(native, results, dpi, n - 1),
        }
    }
}

/// The items of a page after detected texts are merged in. With no detected text
/// the page stays as it is.
pub open spec fn merged_items(
    items: Seq<ItemView>,
    results: Seq<OcrResult>,
    dpi: int,
) -> Seq<ItemView> {
    if results.len() == 0 {
        items
    } else {
        let native = native_items(items);
        native + items_upto(native, results, dpi, results.len() as int)
    }
}

fn item_of_result(native: &Vec<TextItem>, r: &OcrResult, dpi: u32) -> (it: Option<TextItem>)
    ensures
        match it {
            Some(t) => item_for(types::item_views(native@), *r, dpi as int) == Some(t@),
            None => item_for(types::item_views(native@), *r, dpi as int) is None,
        },
{
    if r.confidence <= 100_000 {
        return None;
    }
    let e: PixelBox = result_edges(r);
    let x: i32 = pixels_on_page(e.left as i64, dpi);
    let y: i32 = pixels_on_page(e.top as i64, dpi);
    let w: i32 = pixels_on_page(e.right as i64 - e.left as i64, dpi);
    let h: i32 = pixels_on_page(e.bottom as i64 - e.top as i64, dpi);
    let degrees: i32 = match &r.polygon {
        Some(q) => polygon_rotation_deg(q),
        None => 0,
    };
    if overlaps_existing_text(native, x, y, w, h, OVERLAP_TOLERANCE) {
        return None;
    }
    let cleaned: String = ocr_text::clean_ocr_table_artifacts(r.text.as_str());
    if cleaned.as_str().is_empty() {
        return None;
    }
    let size: i32 = if degrees == 90 || degrees == 270 {
        if w >= 1_000 {
            w
        } else {
            1_000
        }
    } else {
        h
    };
    let confidence: i32 = ((r.confidence as i64 + 500) / 1000) as i32;
    let mut t: TextItem = TextItem::plain(cleaned, x, y, w, h);
    t.rotation = 1000 * degrees;
    t.font_name = Some(text::to_string("OCR"));
    t.font_size = Some(size);
    t.confidence = Some(confidence);
    Some(t)
}

/// Merge detected texts into the items of a page.
pub fn merge_results(items: &Vec<TextItem>, garbled: bool, results: &Vec<OcrResult>, dpi: u32) -> (r:
    Vec<TextItem>)
    requires
        results@.len() > 0,
        garbled == is_garbled_page(types::item_views(items@)),
    ensures
        types::item_views(r@) == merged_items(types::item_views(items@), results@, dpi as int),
{
    let ghost iv = types::item_views(items@);
    let mut native: Vec<TextItem> = Vec::new();
    proof {
        assert(types::item_views(native@) =~= seq![]);
    }
    if !garbled {
        let mut i: usize = 0;
        while i < items.len()
            invariant
                i <= items@.len(),
                iv == types::item_views(items@),
                types::item_views(native@) == readable_upto(iv, i as int),
            decreases items.len() - i,
        {
            proof {
                assert(iv[i as int] == items@[i as int]@);
            }
            if !ocr_text::is_likely_garbled(items[i].text.as_str()) {
                let c: TextItem = types::clone_item(&items[i]);
                proof {
                    assert(types::item_views(native@.push(c)) =~= types::item_views(
                        native@,
                    ).push(c@));
                }
                native.push(c);
            }
            i = i + 1;
        }
    }
    let ghost nv = types::item_views(native@);
    let mut added: Vec<TextItem> = Vec::new();
    let mut k: usize = 0;
    proof {
        assert(types::item_views(added@) =~= seq![]);
    }
    while k < results.len()
        invariant
            k <= results@.len(),
            nv == types::item_views(native@),
            types::item_views(added@) == items_upto(nv, results@, dpi as int, k as int),
        decreases results.len() - k,
    {
        match item_of_result(&native, &results[k], dpi) {
            Some(t) => {
                proof {
                    assert(types::item_views(added@.push(t)) =~= types::item_views(added@).push(
                        t@,
                    ));
                }
                added.push(t);
            },
            None => {},
        }
        k = k + 1;
    }
    let ghost av = types::item_views(added@);
    native.append(&mut added);
    proof {
        assert(types::item_views(native@) =~= nv + av);
    }
    native
}

/// How far the merging of outcomes has come: the texts of the pages, how many
/// recognitions failed, whether one of those was of a page with sparse text, and
/// what the first failure was.
#[verifier::ext_equal]
pub struct Progress {
    pub pages: Seq<PageText>,
    pub failed: int,
    pub sparse_failed: bool,
    pub first_error: Option<Seq<char>>,
}

/// The progress after one more outcome.
pub open spec fn after_outcome(p: Progress, index: int, o: Outcome, dpi: int) -> Progress {
    match o {
        Outcome::Read(results) => Progress {
            pages: p.pages.update(
                index,
                PageText {
                    items: merged_items(p.pages[index].items, results@, dpi),
                    ..p.pages[index]
                },
            ),
            ..p
        },
        Outcome::Failed(m) => Progress {
            failed: p.failed + 1,
            sparse_failed: p.sparse_failed || is_sparse(p.pages[index]),
            first_error: match p.first_error {
                Some(e) => Some(e),
                None => Some(m@),
            },
            ..p
        },
    }
}

/// The progress after the first `n` outcomes.
pub open spec fn progress_upto(
    pages: Seq<PageText>,
    outcomes: Seq<(usize, Outcome)>,
    dpi: int,
    n: int,
) -> Progress
    decreases n,
{
    if n <= 0 {
        Progress { pages, failed: 0, sparse_failed: false, first_error: None }
    } else {
        after_outcome(
            progress_upto(pages, outcomes, dpi, n - 1),
            outcomes[n - 1].0 as int,
            outcomes[n - 1].1,
            dpi,
        )
    }
}

/// What is reported when every recognition failed.
pub open spec fn failure_message(total: nat, first_error: Option<Seq<char>>) -> Seq<char> {
    "OCR failed for all "@ + numbers::decimal(total) + " page(s): "@ + match first_error {
        Some(e) => e,
        None => "unknown error"@,
    }
}

/// Whether recognition failed as a whole: every page failed, and one of them has
/// little text of its own.
pub open spec fn failed_as_whole(p: Progress, total: int) -> bool {
    total > 0 && p.failed == total && p.sparse_failed
}

/// Whether two pages differ at most in their text.
pub open spec fn same_but_text(a: Page, b: Page) -> bool {
    a.page_number == b.page_number && a.page_width == b.page_width && a.page_height
        == b.page_height && a.graphics == b.graphics && a.struct_nodes == b.struct_nodes
        && a.image_refs == b.image_refs
}

fn report(total: usize, first_error: &Option<String>) -> (r: String)
    ensures
        r@ == failure_message(total as nat, types::option_text(*first_error)),
{
    let mut out: String = text::to_string("OCR failed for all ");
    out.append(numbers::decimal_of(total as u64).as_str());
    out.append(" page(s): ");
    match first_error {
        Some(e) => {
            out.append(e.as_str());
        },
        None => {
            out.append("unknown error");
        },
    }
    out
}

/// Merge the outcomes of recognition into the pages, each at the index beside it.
///
/// Failures are counted. When every recognition failed and one of the pages has
/// little text of its own, that is an error; otherwise the pages keep what text
/// they have, and the number of failures is returned.
pub fn merge_outcomes(
    pages: &mut Vec<Page>,
    outcomes: &Vec<(usize, Outcome)>,
    dpi: u32,
) -> (r: Result<usize, LiteParseError>)
    requires
        forall|i: int| 0 <= i < outcomes@.len() ==> (#[trigger] outcomes@[i]).0 < old(pages)@.len(),
    ensures
        ({
            let total = outcomes@.len();
            let p = progress_upto(page_texts(old(pages)@), outcomes@, dpi as int, total as int);
            &&& page_texts(final(pages)@) == p.pages
            &&& match r {
                Ok(failed) => !failed_as_whole(p, total as int) && failed == p.failed,
                Err(e) => failed_as_whole(p, total as int) && e is Ocr && e->Ocr_0@
                    == failure_message(total, p.first_error),
            }
        }),
        final(pages)@.len() == old(pages)@.len(),
        forall|i: int|
            0 <= i < final(pages)@.len() ==> same_but_text(
                #[trigger] final(pages)@[i],
                old(pages)@[i],
            ),
{
    let ghost before = page_texts(pages@);
    let ghost start = pages@;
    let total: usize = outcomes.len();
    let mut failed: usize = 0;
    let mut sparse_failed: bool = false;
    let mut first_error: Option<String> = None;
    let mut k: usize = 0;
    while k < total
        invariant
            k <= total == outcomes@.len(),
            failed <= k,
            pages@.len() == start.len(),
            forall|i: int| 0 <= i < outcomes@.len() ==> (#[trigger] outcomes@[i]).0 < start.len(),
            forall|i: int|
                0 <= i < pages@.len() ==> same_but_text(#[trigger] pages@[i], start[i]),
            (Progress {
                pages: page_texts(pages@),
                failed: failed as int,
                sparse_failed,
                first_error: types::option_text(first_error),
            }) == progress_upto(before, outcomes@, dpi as int, k as int),
        decreases total - k,
    {
        let at: usize = outcomes[k].0;
        let ghost texts = page_texts(pages@);
        let ghost held = pages@;
        proof {
            assert(texts[at as int] == page_text(pages@[at as int]));
        }
        match &outcomes[k].1 {
            Outcome::Read(results) => {
                if results.len() > 0 {
                    let garbled: bool = page_is_garbled(&pages[at]);
                    let items: Vec<TextItem> = merge_results(
                        &pages[at].text_items,
                        garbled,
                        results,
                        dpi,
                    );
                    let page: &mut Page = &mut pages[at];
                    page.text_items = items;
                } 
                proof {
                    assert forall|i: int| 0 <= i < pages@.len() implies same_but_text(
                        #[trigger] pages@[i],
                        start[i],
                    ) by {
                        assert(same_but_text(held[i], start[i]));
                    }
                    let after = progress_upto(before, outcomes@, dpi as int, k + 1).pages;
                    assert(page_texts(pages@) =~= after);
                }
            },
            Outcome::Failed(m) => {
                failed = failed + 1;
                let sparse: bool = page_has_sparse_native_text(&pages[at]);
                sparse_failed = sparse_failed || sparse;
                if first_error.is_none() {
                    first_error = Some(m.clone());
                }
            },
        }
        k = k + 1;
    }
    if total > 0 && failed == total && sparse_failed {
        return Err(LiteParseError::Ocr(report(total, &first_error)));
    }
    Ok(failed)
}

/// Where a page and all its items are readable, its native text stays, in front of
/// the recognized text.
pub proof fn law_native_text_stays(items: Seq<ItemView>, results: Seq<OcrResult>, dpi: int)
    requires
        !is_garbled_page(items),
        forall|i: int|
            0 <= i < items.len() ==> !ocr_text::is_garbled((#[trigger] items[i]).text),
    ensures
        items.is_prefix_of(merged_items(items, results, dpi)),
{
    lemma_all_readable(items, items.len() as int);
    assert(items.take(items.len() as int) =~= items);
}

/// No recognized text that is taken touches native text.
pub proof fn law_recognized_text_is_apart(
    native: Seq<ItemView>,
    results: Seq<OcrResult>,
    dpi: int,
    n: int,
)
    requires
        0 <= n <= results.len(),
    ensures
        forall|i: int|
            #![trigger items_upto(native, results, dpi, n)[i]]
            0 <= i < items_upto(native, results, dpi, n).len() ==> {
                let it = items_upto(native, results, dpi, n)[i];
                !touches_any(native, it.x, it.y, it.width, it.height, OVERLAP_TOLERANCE as int)
            },
    decreases n,
{
    if n > 0 {
        law_recognized_text_is_apart(native, results, dpi, n - 1);
    }
}

/// Failures leave all pages as they are.
pub proof fn law_failures_keep_pages(
    pages: Seq<PageText>,
    outcomes: Seq<(usize, Outcome)>,
    dpi: int,
    n: int,
)
    requires
        0 <= n <= outcomes.len(),
        forall|i: int| 0 <= i < outcomes.len() ==> (#[trigger] outcomes[i]).1 is Failed,
    ensures
        progress_upto(pages, outcomes, dpi, n).pages == pages,
        progress_upto(pages, outcomes, dpi, n).failed == n,
    decreases n,
{
    if n > 0 {
        law_failures_keep_pages(pages, outcomes, dpi, n - 1);
    }
}

proof fn lemma_all_readable(items: Seq<ItemView>, n: int)
    requires
        0 <= n <= items.len(),
        forall|i: int|
            0 <= i < items.len() ==> !ocr_text::is_garbled((#[trigger] items[i]).text),
    ensures
        readable_upto(items, n) == items.take(n),
    decreases n,
{
    if n > 0 {
        lemma_all_readable(items, n - 1);
        assert(items.take(n) =~= items.take(n - 1).push(items[n - 1]));
    } else {
        assert(items.take(0) =~= seq![]);
    }
}

proof fn lemma_failures_counted(
    pages: Seq<PageText>,
    outcomes: Seq<(usize, Outcome)>,
    dpi: int,
    n: int,
)
    requires
        0 <= n <= outcomes.len(),
    ensures
        progress_upto(pages, outcomes, dpi, n).failed <= n,
        progress_upto(pages, outcomes, dpi, n).failed == n ==> forall|i: int|
            0 <= i < n ==> (#[trigger] outcomes[i]).1 is Failed,
    decreases n,
{
    if n > 0 {
        lemma_failures_counted(pages, outcomes, dpi, n - 1);
    }
}

proof fn lemma_sparse_failures(
    pages: Seq<PageText>,
    outcomes: Seq<(usize, Outcome)>,
    dpi: int,
    n: int,
)
    requires
        0 <= n <= outcomes.len(),
        forall|i: int| 0 <= i < outcomes.len() ==> (#[trigger] outcomes[i]).1 is Failed,
    ensures
        progress_upto(pages, outcomes, dpi, n).sparse_failed <==> exists|i: int|
            0 <= i < n && is_sparse(pages[(#[trigger] outcomes[i]).0 as int]),
    decreases n,
{
    if n > 0 {
        law_failures_keep_pages(pages, outcomes, dpi, n - 1);
        lemma_sparse_failures(pages, outcomes, dpi, n - 1);
        if is_sparse(pages[outcomes[n - 1].0 as int]) {
            assert(progress_upto(pages, outcomes, dpi, n).sparse_failed);
        } else if progress_upto(pages, outcomes, dpi, n - 1).sparse_failed {
            let i = choose|i: int|
                0 <= i < n - 1 && is_sparse(pages[(#[trigger] outcomes[i]).0 as int]);
            assert(is_sparse(pages[outcomes[i].0 as int]));
        }
    }
}

/// Recognition fails as a whole where there are outcomes, all of them are failures, and one
/// of the pages has little text of its own; so a broken engine does not stop a document
/// whose pages have their text.
pub proof fn law_failure_as_a_whole(
    pages: Seq<PageText>,
    outcomes: Seq<(usize, Outcome)>,
    dpi: int,
)
    ensures
        failed_as_whole(
            progress_upto(pages, outcomes, dpi, outcomes.len() as int),
            outcomes.len() as int,
        ) <==> outcomes.len() > 0 && (forall|i: int|
            0 <= i < outcomes.len() ==> (#[trigger] outcomes[i]).1 is Failed) && exists|i: int|
            0 <= i < outcomes.len() && is_sparse(pages[(#[trigger] outcomes[i]).0 as int]),
{
    let n = outcomes.len() as int;
    lemma_failures_counted(pages, outcomes, dpi, n);
    if forall|i: int| 0 <= i < outcomes.len() ==> (#[trigger] outcomes[i]).1 is Failed {
        law_failures_keep_pages(pages, outcomes, dpi, n);
        lemma_sparse_failures(pages, outcomes, dpi, n);
    }
}

} // verus!
