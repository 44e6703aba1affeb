use liteparse::bindings::{JsPageComplexityStats, JsScreenshotResult, LiteParse};
use liteparse::config::{ImageMode, OutputFormat};
use liteparse::ocr_merge::PageComplexityStats;
use liteparse::png::ExtractedImage;
use liteparse::python::{
    CropBox, PyExtractedImage, PyLiteParseConfig, PyOptions, PyPageComplexityStats, PyParseResult,
    PyParsedPage, PyScreenshotResult, PySettings, PyTextItem, PyWordBox,
};
use liteparse::types::{ParsedPage, Rect, TextItem};

fn nothing_given() -> PyOptions {
    PyOptions {
        ocr_language: None,
        ocr_enabled: None,
        ocr_server_url: None,
        ocr_server_headers: None,
        tessdata_path: None,
        max_pages: None,
        target_pages: None,
        dpi: None,
        output_format: None,
        preserve_very_small_text: None,
        password: None,
        quiet: None,
        num_workers: None,
        image_mode: None,
        extract_links: None,
        ocr_failure_fatal: None,
        ocr_hedge_delays_ms: None,
        emit_word_boxes: None,
        crop_box: None,
        skip_diagonal_text: None,
    }
}

fn a_page() -> ParsedPage {
    ParsedPage {
        page_number: 4,
        page_width: 612_000,
        page_height: 792_000,
        text: "two words".to_string(),
        text_items: vec![
            TextItem { text: "two".to_string(), x: 1_000, ..Default::default() },
            TextItem { text: "words".to_string(), confidence: Some(900), ..Default::default() },
        ],
        projected_lines: vec![],
        graphics: vec![],
        struct_nodes: vec![],
        image_refs: vec![],
    }
}

#[test]
fn keywords_that_are_given_count() {
    let s = PySettings::new(nothing_given(), Some(8));
    assert_eq!(s.config.ocr_language, "eng");
    assert_eq!(s.config.num_workers, 7);
    assert_eq!(s.config.output_format, OutputFormat::Json);
    assert!(s.crop_box.is_none());
    let mut o = nothing_given();
    o.max_pages = Some(3);
    o.output_format = Some("md".to_string());
    o.image_mode = Some("none".to_string());
    o.num_workers = Some(2);
    o.crop_box = Some((1, 2, 3, 4));
    o.ocr_hedge_delays_ms = Some(vec![0, 50]);
    let s = PySettings::new(o, Some(8));
    assert_eq!(s.config.max_pages, 3);
    assert_eq!(s.config.output_format, OutputFormat::Markdown);
    assert_eq!(s.config.image_mode, ImageMode::Off);
    assert_eq!(s.config.num_workers, 2);
    assert_eq!(s.crop_box, Some(CropBox { top: 1, right: 2, bottom: 3, left: 4 }));
    assert_eq!(s.ocr_hedge_delays_ms, Some(vec![0, 50]));
    let got = PyLiteParseConfig::from_rust(&s.config);
    assert_eq!(got.output_format, "markdown");
    assert!(got.ocr_server_headers.is_none());
}

#[test]
fn pages_and_words_are_handed_on() {
    let word = PyWordBox { text: "two".to_string(), x: 1, y: 2, width: 3, height: 4 };
    let page = PyParsedPage::from_rust(&a_page(), "**two** words".to_string(), &vec![vec![word]]);
    assert_eq!(page.page_num, 4);
    assert_eq!(page.markdown, "**two** words");
    assert_eq!(page.text_items[0].words.len(), 1);
    assert_eq!(page.text_items[0].words[0].width, 3);
    assert_eq!(page.text_items[0].confidence, Some(1_000));
    assert!(page.text_items[1].words.is_empty());
    assert_eq!(page.text_items[1].confidence, Some(900));
    let back: TextItem = page.text_items[0].to_rust();
    assert_eq!(back.text, "two");
    assert_eq!(back.x, 1_000);
    let again = PyTextItem::from_rust(&back, vec![]);
    assert_eq!(again.confidence, Some(1_000));
}

#[test]
fn results_are_shown_by_their_numbers() {
    let page = PyParsedPage::from_rust(&a_page(), String::new(), &vec![]);
    let image = ExtractedImage {
        id: "p4_0".to_string(),
        page: 4,
        bbox: Rect { x: 0, y: 0, width: 1, height: 1 },
        format: "png".to_string(),
        bytes: vec![1, 2, 3],
    };
    let r = PyParseResult::from_rust(vec![page], "h\u{e9}".to_string(), vec![image]);
    assert_eq!(r.repr(), "ParseResult(pages=1, text_len=3, images=1)");
    assert_eq!(r.num_pages(), 1);
    assert_eq!(r.get_page(4), Some(0));
    assert_eq!(r.get_page(1), None);
    let i: &PyExtractedImage = &r.images[0];
    assert_eq!(i.repr(), "ExtractedImage(id='p4_0', page=4, format='png', bytes_len=3)");
    let s = PyScreenshotResult { page_num: 2, width: 10, height: 20, image_buffer: vec![] };
    assert_eq!(s.repr(), "ScreenshotResult(page_num=2, width=10, height=20)");
}

#[test]
fn parsers_tell_their_settings() {
    let p = LiteParse::new(None, Some(4));
    let js = p.config();
    assert_eq!(js.num_workers, Some(3));
    assert_eq!(js.output_format.as_deref(), Some("json"));
    let mut given = js.clone();
    given.output_format = Some("text".to_string());
    given.max_pages = Some(5);
    let again = LiteParse::new(Some(given), None).config();
    assert_eq!(again.output_format.as_deref(), Some("text"));
    assert_eq!(again.max_pages, Some(5));
    assert_eq!(again.num_workers, Some(3));
}

#[test]
fn screenshots_are_png_files() {
    let s = JsScreenshotResult::of_pixels(3, 2, 1, &vec![255, 0, 0, 255, 0, 255, 0, 255]).unwrap();
    assert_eq!(s.page_num, 3);
    assert_eq!(&s.image_buffer[..4], &[0x89, b'P', b'N', b'G']);
    let refused = JsScreenshotResult::of_pixels(1, 0, 0, &vec![]);
    assert!(refused.unwrap_err().starts_with("PNG encode failed: "));
}

#[test]
fn callers_learn_how_hard_a_page_is() {
    let stats = PageComplexityStats {
        page_number: 7,
        text_length: 120,
        text_coverage: 250_000,
        has_substantial_images: true,
        image_block_count: 2,
        image_coverage: 600_000,
        largest_image_coverage: 500_000,
        full_page_image: false,
        uncovered_vector_area: Some(1_500),
        is_garbled: false,
        page_area: 484_704_000,
        needs_ocr: true,
        reasons: vec!["embedded_images".to_string()],
    };
    let js = JsPageComplexityStats::from_rust(&stats);
    assert_eq!((js.page_number, js.text_length, js.image_block_count), (7, 120, 2));
    assert_eq!(js.uncovered_vector_area, Some(1_500));
    assert!(js.needs_ocr && !js.is_garbled);
    assert_eq!(js.reasons, stats.reasons);
    let py = PyPageComplexityStats::from_rust(&stats);
    assert_eq!((py.page_number, py.page_area), (7, 484_704_000));
    assert_eq!(py.largest_image_coverage, 500_000);
    assert_eq!(py.reasons, stats.reasons);
}
