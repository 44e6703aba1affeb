//! Settings, text and results as callers in Python give and get them.

use vstd::prelude::*;
use vstd::string::*;
use crate::bindings;
use crate::config;
use crate::config::{LiteParseConfig, OutputFormat};
use crate::numbers;
use crate::ocr_merge::PageComplexityStats;
use crate::png::ExtractedImage;
use crate::text;
use crate::types;
use crate::types::{ItemView, ParsedPage, TextItem};

verus! {

// ---------------------------------------------------------------------------
// Settings
// ---------------------------------------------------------------------------

/// How much is cut off at each side of a page, in thousandths of its size.
#[derive(Clone, Copy, Debug, PartialEq, Eq, Structural)]
pub struct CropBox {
    pub top: i32,
    pub right: i32,
    pub bottom: i32,
    pub left: i32,
}

/// Settings as a caller gives them by keyword; what is not given has its default.
#[derive(Clone, Debug)]
pub struct PyOptions {
    pub ocr_language: Option<String>,
    pub ocr_enabled: Option<bool>,
    pub ocr_server_url: Option<String>,
    /// Names with their values; of headers with the same name, the last one counts.
    pub ocr_server_headers: Option<Vec<(String, String)>>,
    pub tessdata_path: Option<String>,
    pub max_pages: Option<usize>,
    pub target_pages: Option<String>,
    /// In thousandths of a dot per inch.
    pub dpi: Option<u32>,
    pub output_format: Option<String>,
    pub preserve_very_small_text: Option<bool>,
    pub password: Option<String>,
    pub quiet: Option<bool>,
    pub num_workers: Option<usize>,
    pub image_mode: Option<String>,
    pub extract_links: Option<bool>,
    pub ocr_failure_fatal: Option<bool>,
    pub ocr_hedge_delays_ms: Option<Vec<u64>>,
    pub emit_word_boxes: Option<bool>,
    /// Top, right, bottom and left.
    pub crop_box: Option<(i32, i32, i32, i32)>,
    pub skip_diagonal_text: Option<bool>,
}

/// The settings of a parser: those that all parsers have, and those of this caller, as far
/// as they are given.
#[derive(Clone, Debug)]
pub struct PySettings {
    pub config: LiteParseConfig,
    pub ocr_failure_fatal: Option<bool>,
    pub ocr_hedge_delays_ms: Option<Vec<u64>>,
    pub emit_word_boxes: Option<bool>,
    pub crop_box: Option<CropBox>,
    pub skip_diagonal_text: Option<bool>,
}

/// Whether settings are those that a caller gives, with the defaults of a machine with the
/// given number of cores for the others.
pub open spec fn follows(c: LiteParseConfig, o: PyOptions, cores: Option<usize>) -> bool {
    &&& c.ocr_language@ == match o.ocr_language {
        Some(s) => s@,
        None => "eng"@,
    }
    &&& c.ocr_enabled == bindings::given(o.ocr_enabled, true)
    &&& c.ocr_server_url == o.ocr_server_url
    &&& match o.ocr_server_headers {
        Some(h) => c.ocr_server_headers@ == bindings::by_name(h@),
        None => c.ocr_server_headers@.len() == 0,
    }
    &&& c.tessdata_path == o.tessdata_path
    &&& c.max_pages == bindings::given(o.max_pages, 1000)
    &&& c.target_pages == o.target_pages
    &&& c.dpi == bindings::given(o.dpi, 150_000)
    &&& c.output_format == match o.output_format {
        Some(s) => bindings::format_or_json(s@),
        None => OutputFormat::Json,
    }
    &&& c.preserve_very_small_text == bindings::given(o.preserve_very_small_text, false)
    &&& c.password == o.password
    &&& c.quiet == bindings::given(o.quiet, false)
    &&& c.num_workers == match o.num_workers {
        Some(n) => n as int,
        None => config::workers_for(cores),
    }
    &&& c.image_mode == match o.image_mode {
        Some(s) => bindings::mode_named(s@),
        None => config::ImageMode::Placeholder,
    }
    &&& c.extract_links == bindings::given(o.extract_links, true)
}

/// The box with the given top, right, bottom and left.
pub open spec fn crop_of(v: Option<(i32, i32, i32, i32)>) -> Option<CropBox> {
    match v {
        Some(b) => Some(CropBox { top: b.0, right: b.1, bottom: b.2, left: b.3 }),
        None => None,
    }
}

impl PySettings {
    /// The settings that a caller gives, with defaults for the others. An unknown output
    /// format counts as JSON.
    pub fn new(o: PyOptions, cores: Option<usize>) -> (r: PySettings)
        ensures
            follows(r.config, o, cores),
            r.ocr_failure_fatal == o.ocr_failure_fatal,
            r.ocr_hedge_delays_ms == o.ocr_hedge_delays_ms,
            r.emit_word_boxes == o.emit_word_boxes,
            r.crop_box == crop_of(o.crop_box),
            r.skip_diagonal_text == o.skip_diagonal_text,
    {
        let mut cfg: LiteParseConfig = LiteParseConfig::for_cores(cores);
        if let Some(v) = o.ocr_language {
            cfg.ocr_language = v;
        }
        if let Some(v) = o.ocr_enabled {
            cfg.ocr_enabled = v;
        }
        if let Some(v) = o.ocr_server_headers {
            cfg.ocr_server_headers = bindings::headers_by_name(&v);
        }
        if let Some(v) = o.max_pages {
            cfg.max_pages = v;
        }
        if let Some(v) = o.dpi {
            cfg.dpi = v;
        }
        if let Some(s) = &o.output_format {
            cfg.output_format = match bindings::parse_output_format(s.as_str()) {
                Some(f) => f,
                None => OutputFormat::Json,
            };
        }
        if let Some(v) = o.preserve_very_small_text {
            cfg.preserve_very_small_text = v;
        }
        if let Some(v) = o.quiet {
            cfg.quiet = v;
        }
        if let Some(v) = o.num_workers {
            cfg.num_workers = v;
        }
        if let Some(s) = &o.image_mode {
            cfg.image_mode = bindings::parse_image_mode(s.as_str());
        }
        if let Some(v) = o.extract_links {
            cfg.extract_links = v;
        }
        cfg.ocr_server_url = o.ocr_server_url;
        cfg.tessdata_path = o.tessdata_path;
        cfg.target_pages = o.target_pages;
        cfg.password = o.password;
        PySettings {
            config: cfg,
            ocr_failure_fatal: o.ocr_failure_fatal,
            ocr_hedge_delays_ms: o.ocr_hedge_delays_ms,
            emit_word_boxes: o.emit_word_boxes,
            crop_box: match o.crop_box {
                Some(b) => Some(CropBox { top: b.0, right: b.1, bottom: b.2, left: b.3 }),
                None => None,
            },
            skip_diagonal_text: o.skip_diagonal_text,
        }
    }
}

/// The settings in use, as a caller gets them.
#[derive(Clone, Debug)]
pub struct PyLiteParseConfig {
    pub ocr_language: String,
    pub ocr_enabled: bool,
    pub ocr_server_url: Option<String>,
    /// Names with their values; of headers with the same name, the last one counts.
    pub ocr_server_headers: Option<Vec<(String, String)>>,
    pub tessdata_path: Option<String>,
    pub max_pages: usize,
    pub target_pages: Option<String>,
    pub dpi: u32,
    pub output_format: String,
    pub preserve_very_small_text: bool,
    pub password: Option<String>,
    pub quiet: bool,
    pub num_workers: usize,
}

impl PyLiteParseConfig {
    /// The settings in use, as a caller gets them. Headers come by their names, and no
    /// headers are given as none.
    pub fn from_rust(cfg: &LiteParseConfig) -> (r: PyLiteParseConfig)
        ensures
            r.ocr_language == cfg.ocr_language,
            r.ocr_enabled == cfg.ocr_enabled,
            r.ocr_server_url == cfg.ocr_server_url,
            match r.ocr_server_headers {
                Some(h) => h@ == bindings::by_name(cfg.ocr_server_headers@)
                    && bindings::names_differ(h@) && h@.len() > 0,
                None => cfg.ocr_server_headers@.len() == 0,
            },
            r.tessdata_path == cfg.tessdata_path,
            r.max_pages == cfg.max_pages,
            r.target_pages == cfg.target_pages,
            r.dpi == cfg.dpi,
            r.output_format@ == bindings::format_name(cfg.output_format),
            r.preserve_very_small_text == cfg.preserve_very_small_text,
            r.password == cfg.password,
            r.quiet == cfg.quiet,
            r.num_workers == cfg.num_workers,
    {
        PyLiteParseConfig {
            ocr_language: cfg.ocr_language.clone(),
            ocr_enabled: cfg.ocr_enabled,
            ocr_server_url: types::clone_option(&cfg.ocr_server_url),
            ocr_server_headers: if cfg.ocr_server_headers.len() == 0 {
                None
            } else {
                Some(bindings::headers_by_name(&cfg.ocr_server_headers))
            },
            tessdata_path: types::clone_option(&cfg.tessdata_path),
            max_pages: cfg.max_pages,
            target_pages: types::clone_option(&cfg.target_pages),
            dpi: cfg.dpi,
            output_format: bindings::output_format_name(cfg.output_format),
            preserve_very_small_text: cfg.preserve_very_small_text,
            password: types::clone_option(&cfg.password),
            quiet: cfg.quiet,
            num_workers: cfg.num_workers,
        }
    }
}

// ---------------------------------------------------------------------------
// Text
// ---------------------------------------------------------------------------

/// A word of an item and its box.
#[derive(Clone, Debug)]
pub struct PyWordBox {
    pub text: String,
    pub x: i32,
    pub y: i32,
    pub width: i32,
    pub height: i32,
}

/// A text item as callers give and get it.
#[derive(Clone, Debug)]
pub struct PyTextItem {
    pub text: String,
    pub x: i32,
    pub y: i32,
    pub width: i32,
    pub height: i32,
    pub font_name: Option<String>,
    pub font_size: Option<i32>,
    pub confidence: Option<i32>,
    pub rotation: i32,
    /// The words of the item, where they were asked for.
    pub words: Vec<PyWordBox>,
}

/// The item that a caller gives. Its words are not used.
pub open spec fn item_given(p: PyTextItem) -> ItemView {
    ItemView {
        rotation: p.rotation as int,
        font_name: types::option_text(p.font_name),
        font_size: p.font_size,
        confidence: p.confidence,
        ..types::plain_item(
            p.text@,
            p.x as int,
            p.y as int,
            p.width as int,
            p.height as int,
        )
    }
}

/// Whether an item that a caller gets is the given one. Text that was not recognized has
/// full confidence.
pub open spec fn is_item_for(p: PyTextItem, it: TextItem) -> bool {
    &&& p.text@ == it.text@
    &&& p.x == it.x && p.y == it.y && p.width == it.width && p.height == it.height
    &&& p.rotation == it.rotation
    &&& types::option_text(p.font_name) == types::option_text(it.font_name)
    &&& p.font_size == it.font_size
    &&& p.confidence == Some(bindings::given(it.confidence, bindings::FULL_CONFIDENCE))
}

impl PyTextItem {
    /// The item that a caller gives.
    pub fn to_rust(&self) -> (r: TextItem)
        ensures
            r@ == item_given(*self),
    {
        let mut it: TextItem = TextItem::plain(
            self.text.clone(),
            self.x,
            self.y,
            self.width,
            self.height,
        );
        it.rotation = self.rotation;
        it.font_name = types::clone_option(&self.font_name);
        it.font_size = self.font_size;
        it.confidence = self.confidence;
        it
    }

    /// An item with its words, as a caller gets it.
    pub fn from_rust(item: &TextItem, words: Vec<PyWordBox>) -> (r: PyTextItem)
        ensures
            is_item_for(r, *item),
            r.words == words,
    {
        PyTextItem {
            text: item.text.clone(),
            x: item.x,
            y: item.y,
            width: item.width,
            height: item.height,
            font_name: types::clone_option(&item.font_name),
            font_size: item.font_size,
            confidence: match item.confidence {
                Some(c) => Some(c),
                None => Some(bindings::FULL_CONFIDENCE),
            },
            rotation: item.rotation,
            words,
        }
    }
}

// ---------------------------------------------------------------------------
// Results
// ---------------------------------------------------------------------------

/// A parsed page as a caller gets it.
#[derive(Clone, Debug)]
pub struct PyParsedPage {
    pub page_num: u32,
    pub width: i32,
    pub height: i32,
    pub text: String,
    pub markdown: String,
    pub text_items: Vec<PyTextItem>,
}

/// Whether a page that a caller gets is the given one.
pub open spec fn is_page_for(q: PyParsedPage, p: ParsedPage) -> bool {
    &&& q.page_num == p.page_number as u32
    &&& q.width == p.page_width && q.height == p.page_height
    &&& q.text@ == p.text@
    &&& q.text_items@.len() == p.text_items@.len()
    &&& forall|i: int|
        0 <= i < q.text_items@.len() ==> is_item_for(
            #[trigger] q.text_items@[i],
            p.text_items@[i],
        )
}

impl PyParsedPage {
    /// A page with its markdown, as a caller gets it. `words` are the words of the items,
    /// by item, where they were asked for.
    pub fn from_rust(page: &ParsedPage, markdown: String, words: &Vec<Vec<PyWordBox>>) -> (r:
        PyParsedPage)
        ensures
            is_page_for(r, *page),
            r.markdown == markdown,
            forall|i: int|
                0 <= i < r.text_items@.len() ==> word_views((#[trigger] r.text_items@[i]).words@)
                    == if i < words@.len() {
                    word_views(words@[i]@)
                } else {
                    seq![]
                },
    {
        let mut items: Vec<PyTextItem> = Vec::new();
        let mut i: usize = 0;
        while i < page.text_items.len()
            invariant
                i <= page.text_items@.len(),
                items@.len() == i,
                forall|k: int|
                    0 <= k < i ==> is_item_for(#[trigger] items@[k], page.text_items@[k]),
                forall|k: int|
                    0 <= k < i ==> word_views((#[trigger] items@[k]).words@) == if k < words@.len() {
                        word_views(words@[k]@)
                    } else {
                        seq![]
                    },
            decreases page.text_items.len() - i,
        {
            let own: Vec<PyWordBox> = if i < words.len() {
                clone_words(&words[i])
            } else {
                let none: Vec<PyWordBox> = Vec::new();
                proof {
                    assert(word_views(none@) =~= seq![]);
                }
                none
            };
            items.push(PyTextItem::from_rust(&page.text_items[i], own));
            i = i + 1;
        }
        PyParsedPage {
            page_num: page.page_number as u32,
            width: page.page_width,
            height: page.page_height,
            text: page.text.clone(),
            markdown,
            text_items: items,
        }
    }
}

/// The contents of a `PyWordBox`.
#[verifier::ext_equal]
pub struct WordView {
    pub text: Seq<char>,
    pub x: int,
    pub y: int,
    pub width: int,
    pub height: int,
}

impl View for PyWordBox {
    type V = WordView;

    open spec fn view(&self) -> WordView {
        WordView {
            text: self.text@,
            x: self.x as int,
            y: self.y as int,
            width: self.width as int,
            height: self.height as int,
        }
    }
}

/// The contents of every word.
pub open spec fn word_views(v: Seq<PyWordBox>) -> Seq<WordView> {
    Seq::new(v.len(), |i: int| v[i]@)
}

fn clone_words(v: &Vec<PyWordBox>) -> (r: Vec<PyWordBox>)
    ensures
        word_views(r@) == word_views(v@),
{
    let mut out: Vec<PyWordBox> = Vec::new();
    let mut i: usize = 0;
    while i < v.len()
        invariant
            i <= v@.len(),
            out@.len() == i,
            forall|k: int| 0 <= k < i ==> (#[trigger] out@[k])@ == v@[k]@,
        decreases v.len() - i,
    {
        let w = &v[i];
        out.push(
            PyWordBox { text: w.text.clone(), x: w.x, y: w.y, width: w.width, height: w.height },
        );
        i = i + 1;
    }
    proof {
        assert(word_views(out@) =~= word_views(v@));
    }
    out
}

/// A parsed document as a caller gets it.
#[derive(Clone, Debug)]
pub struct PyParseResult {
    pub pages: Vec<PyParsedPage>,
    pub text: String,
    pub images: Vec<PyExtractedImage>,
}

/// An image as a caller gets it.
#[derive(Clone, Debug)]
pub struct PyExtractedImage {
    pub id: String,
    pub page: u32,
    pub format: String,
    pub bytes_buffer: Vec<u8>,
}

/// A screenshot of a page as a caller gets it.
#[derive(Clone, Debug)]
pub struct PyScreenshotResult {
    pub page_num: u32,
    pub width: u32,
    pub height: u32,
    pub image_buffer: Vec<u8>,
}

/// How a result is shown: by the number of its pages, of the bytes of its text, and of its
/// images.
pub open spec fn result_shown(pages: nat, bytes: nat, images: nat) -> Seq<char> {
    "ParseResult(pages="@ + numbers::decimal(pages) + ", text_len="@ + numbers::decimal(bytes)
        + ", images="@ + numbers::decimal(images) + ")"@
}

/// How an image is shown.
pub open spec fn image_shown(i: PyExtractedImage) -> Seq<char> {
    "ExtractedImage(id='"@ + i.id@ + "', page="@ + numbers::decimal(i.page as nat) + ", format='"@
        + i.format@ + "', bytes_len="@ + numbers::decimal(i.bytes_buffer@.len()) + ")"@
}

/// How a screenshot is shown.
pub open spec fn screenshot_shown(s: PyScreenshotResult) -> Seq<char> {
    "ScreenshotResult(page_num="@ + numbers::decimal(s.page_num as nat) + ", width="@
        + numbers::decimal(s.width as nat) + ", height="@ + numbers::decimal(s.height as nat)
        + ")"@
}

/// Whether an image that a caller gets is the given one.
pub open spec fn is_image_for(p: PyExtractedImage, i: ExtractedImage) -> bool {
    p.id@ == i.id@ && p.page == i.page && p.format@ == i.format@ && p.bytes_buffer@ == i.bytes@
}

impl PyParseResult {
    /// A parsed document as a caller gets it: its pages, its text and its images.
    pub fn from_rust(pages: Vec<PyParsedPage>, text: String, images: Vec<ExtractedImage>) -> (r:
        PyParseResult)
        ensures
            r.pages == pages,
            r.text == text,
            r.images@.len() == images@.len(),
            forall|i: int|
                0 <= i < r.images@.len() ==> is_image_for(#[trigger] r.images@[i], images@[i]),
    {
        let mut out: Vec<PyExtractedImage> = Vec::new();
        let mut i: usize = 0;
        while i < images.len()
            invariant
                i <= images@.len(),
                out@.len() == i,
                forall|k: int| 0 <= k < i ==> is_image_for(#[trigger] out@[k], images@[k]),
            decreases images.len() - i,
        {
            out.push(PyExtractedImage::from_rust(&images[i]));
            i = i + 1;
        }
        PyParseResult { pages, text, images: out }
    }

    /// How the result is shown.
    pub fn repr(&self) -> (r: String)
        requires
            text::utf8_len(self.text@, self.text@.len() as int) <= u64::MAX,
        ensures
            r@ == result_shown(
                self.pages@.len(),
                text::utf8_len(self.text@, self.text@.len() as int),
                self.images@.len(),
            ),
    {
        let mut out: String = text::to_string("ParseResult(pages=");
        out.append(numbers::decimal_of(self.pages.len() as u64).as_str());
        out.append(", text_len=");
        out.append(numbers::decimal_of(text::byte_length(self.text.as_str()) as u64).as_str());
        out.append(", images=");
        out.append(numbers::decimal_of(self.images.len() as u64).as_str());
        out.append(")");
        out
    }

    /// The number of pages.
    pub fn num_pages(&self) -> (r: usize)
        ensures
            r == self.pages@.len(),
    {
        self.pages.len()
    }

    /// The index of the first page with a number, if there is one.
    pub fn get_page(&self, page_num: u32) -> (r: Option<usize>)
        ensures
            match r {
                Some(i) => i < self.pages@.len() && self.pages@[i as int].page_num == page_num
                    && forall|k: int| 0 <= k < i ==> (#[trigger] self.pages@[k]).page_num
                    != page_num,
                None => forall|k: int|
                    0 <= k < self.pages@.len() ==> (#[trigger] self.pages@[k]).page_num != page_num,
            },
    {
        let mut i: usize = 0;
        while i < self.pages.len()
            invariant
                i <= self.pages@.len(),
                forall|k: int| 0 <= k < i ==> (#[trigger] self.pages@[k]).page_num != page_num,
            decreases self.pages.len() - i,
        {
            if self.pages[i].page_num == page_num {
                return Some(i);
            }
            i = i + 1;
        }
        None
    }
}

impl PyExtractedImage {
    /// An image as a caller gets it.
    pub fn from_rust(img: &ExtractedImage) -> (r: PyExtractedImage)
        ensures
            is_image_for(r, *img),
    {
        PyExtractedImage {
            id: img.id.clone(),
            page: img.page,
            format: img.format.clone(),
            bytes_buffer: bindings::clone_bytes(&img.bytes),
        }
    }

    /// How the image is shown.
    pub fn repr(&self) -> (r: String)
        ensures
            r@ == image_shown(*self),
    {
        let mut out: String = text::to_string("ExtractedImage(id='");
        out.append(self.id.as_str());
        out.append("', page=");
        out.append(numbers::decimal_of(self.page as u64).as_str());
        out.append(", format='");
        out.append(self.format.as_str());
        out.append("', bytes_len=");
        out.append(numbers::decimal_of(self.bytes_buffer.len() as u64).as_str());
        out.append(")");
        out
    }
}

impl PyScreenshotResult {
    /// How the screenshot is shown.
    pub fn repr(&self) -> (r: String)
        ensures
            r@ == screenshot_shown(*self),
    {
        let mut out: String = text::to_string("ScreenshotResult(page_num=");
        out.append(numbers::decimal_of(self.page_num as u64).as_str());
        out.append(", width=");
        out.append(numbers::decimal_of(self.width as u64).as_str());
        out.append(", height=");
        out.append(numbers::decimal_of(self.height as u64).as_str());
        out.append(")");
        out
    }
}

// ---------------------------------------------------------------------------
// How hard pages are to read
// ---------------------------------------------------------------------------

/// How hard a page is to read without recognition, as a caller gets it, in the units of
/// `PageComplexityStats`.
#[derive(Clone, Debug)]
pub struct PyPageComplexityStats {
    pub page_number: usize,
    pub text_length: usize,
    pub text_coverage: i32,
    pub has_substantial_images: bool,
    pub image_block_count: usize,
    pub image_coverage: i32,
    pub largest_image_coverage: i32,
    pub full_page_image: bool,
    pub uncovered_vector_area: Option<i64>,
    pub is_garbled: bool,
    pub page_area: i64,
    pub needs_ocr: bool,
    pub reasons: Vec<String>,
}

impl PyPageComplexityStats {
    /// What a caller gets of a page.
    pub fn from_rust(stats: &PageComplexityStats) -> (r: PyPageComplexityStats)
        ensures
            r.page_number == stats.page_number,
            r.text_length == stats.text_length,
            r.text_coverage == stats.text_coverage,
            r.has_substantial_images == stats.has_substantial_images,
            r.image_block_count == stats.image_block_count,
            r.image_coverage == stats.image_coverage,
            r.largest_image_coverage == stats.largest_image_coverage,
            r.full_page_image == stats.full_page_image,
            r.uncovered_vector_area == stats.uncovered_vector_area,
            r.is_garbled == stats.is_garbled,
            r.page_area == stats.page_area,
            r.needs_ocr == stats.needs_ocr,
            r.reasons@ == stats.reasons@,
    {
        PyPageComplexityStats {
            page_number: stats.page_number,
            text_length: stats.text_length,
            text_coverage: stats.text_coverage,
            has_substantial_images: stats.has_substantial_images,
            image_block_count: stats.image_block_count,
            image_coverage: stats.image_coverage,
            largest_image_coverage: stats.largest_image_coverage,
            full_page_image: stats.full_page_image,
            uncovered_vector_area: stats.uncovered_vector_area,
            is_garbled: stats.is_garbled,
            page_area: stats.page_area,
            needs_ocr: stats.needs_ocr,
            reasons: bindings::clone_names(&stats.reasons),
        }
    }
}

} // verus!
