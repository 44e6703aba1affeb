use liteparse::bindings;
use liteparse::bindings::JsLiteParseConfig;
use liteparse::config::{
    default_num_workers, parse_target_pages, ImageMode, LiteParseConfig, OutputFormat,
};
use liteparse::python::PyLiteParseConfig;

#[test]
fn test_parse_target_pages() {
    assert_eq!(
        parse_target_pages("1-5,10,15-20").unwrap(),
        vec![1, 2, 3, 4, 5, 10, 15, 16, 17, 18, 19, 20]
    );
    assert_eq!(parse_target_pages("3").unwrap(), vec![3]);
    assert_eq!(parse_target_pages("1,1,2").unwrap(), vec![1, 2]);
    assert!(parse_target_pages("5-3").is_err());
    assert!(parse_target_pages("abc").is_err());
}

#[test]
fn test_parse_target_pages_with_whitespace() {
    assert_eq!(parse_target_pages(" 1 , 2 - 4 ").unwrap(), vec![1, 2, 3, 4]);
}

#[test]
fn test_parse_target_pages_single_range() {
    assert_eq!(parse_target_pages("2-2").unwrap(), vec![2]);
}

#[test]
fn test_parse_target_pages_rejects_oversized_range() {
    assert!(parse_target_pages("1-4294967295").is_err());
    assert!(parse_target_pages("0-4294967295").is_err());
    assert!(parse_target_pages("1-60000,60001-120000").is_err());
    assert_eq!(parse_target_pages("1-1000").unwrap().len(), 1000);
}

#[test]
fn target_pages_come_sorted() {
    assert_eq!(parse_target_pages("9,1-3,2").unwrap(), vec![1, 2, 3, 9]);
}

#[test]
fn test_default_config() {
    let c = LiteParseConfig::default();
    assert_eq!(c.ocr_language, "eng");
    assert!(c.ocr_enabled);
    assert_eq!(c.max_pages, 1000);
    assert_eq!(c.dpi, 150_000);
    assert_eq!(c.output_format, OutputFormat::Json);
    assert!(!c.preserve_very_small_text);
    assert!(!c.quiet);
    assert!(c.password.is_none());
}

#[test]
fn workers_leave_a_core_free() {
    assert_eq!(default_num_workers(Some(8)), 7);
    assert_eq!(default_num_workers(Some(1)), 1);
    assert_eq!(default_num_workers(Some(0)), 1);
    assert_eq!(default_num_workers(None), 1);
    assert_eq!(LiteParseConfig::for_cores(Some(4)).num_workers, 3);
}

#[test]
fn test_output_format_lowercase_serde() {
    let s = serde_json::to_string(&bindings::output_format_name(OutputFormat::Json)).unwrap();
    assert_eq!(s, "\"json\"");
    let name: String = serde_json::from_str("\"text\"").unwrap();
    assert_eq!(bindings::parse_output_format(&name), Some(OutputFormat::Text));
}

#[test]
fn test_config_roundtrip() {
    let c = LiteParseConfig::default();
    let back = JsLiteParseConfig::from_rust(&c).into_rust(None);
    assert_eq!(back.ocr_language, c.ocr_language);
    assert_eq!(back.output_format, c.output_format);
}

fn nothing_given() -> JsLiteParseConfig {
    JsLiteParseConfig {
        ocr_language: None,
        ocr_enabled: None,
        ocr_server_url: None,
        ocr_server_headers: None,
        tessdata_path: None,
        max_pages: None,
        target_pages: None,
        dpi: None,
        output_format: None,
        preserve_very_small_text: None,
        password: None,
        quiet: None,
        num_workers: None,
        image_mode: None,
        extract_links: None,
    }
}

#[test]
fn settings_that_are_given_count() {
    let mut js = nothing_given();
    js.max_pages = Some(7);
    js.output_format = Some("md".to_string());
    js.image_mode = Some("none".to_string());
    js.ocr_server_headers = Some(vec![("a".to_string(), "b".to_string())]);
    js.extract_links = Some(false);
    let c = js.into_rust(Some(3));
    assert_eq!(c.max_pages, 7);
    assert_eq!(c.output_format, OutputFormat::Markdown);
    assert_eq!(c.image_mode, ImageMode::Off);
    assert_eq!(c.ocr_server_headers.len(), 1);
    assert!(!c.extract_links);
    assert_eq!(c.num_workers, 2);
    assert_eq!(c.dpi, 150_000);
}

#[test]
fn unknown_output_format_counts_as_json_or_is_refused() {
    let mut js = nothing_given();
    js.output_format = Some("xml".to_string());
    assert_eq!(js.clone().into_rust(None).output_format, OutputFormat::Json);
    assert_eq!(
        js.into_core().unwrap_err(),
        "invalid outputFormat: xml (expected 'json', 'text', or 'markdown')"
    );
    assert_eq!(nothing_given().into_core().unwrap().num_workers, 1);
}

#[test]
fn names_of_choices_lead_back() {
    for f in [OutputFormat::Json, OutputFormat::Text, OutputFormat::Markdown] {
        assert_eq!(bindings::parse_output_format(&bindings::output_format_name(f)), Some(f));
    }
    for m in [ImageMode::Off, ImageMode::Placeholder, ImageMode::Embed] {
        assert_eq!(bindings::parse_image_mode(&bindings::image_mode_name(m)), m);
    }
}

#[test]
fn screenshots_of_all_or_of_named_pages() {
    assert_eq!(bindings::screenshot_pages(None, 3).unwrap(), vec![1, 2, 3]);
    assert_eq!(bindings::screenshot_pages(Some(&vec![3, 1]), 3).unwrap(), vec![3, 1]);
    assert_eq!(
        bindings::screenshot_pages(Some(&vec![2, 4]), 3).unwrap_err(),
        "page 4 out of range (document has 3 pages)"
    );
    assert!(bindings::screenshot_pages(Some(&vec![0]), 3).is_err());
}

#[test]
fn graphics_of_unknown_kinds_are_dropped() {
    let stroke = bindings::JsGraphic {
        kind: "stroke".to_string(),
        x1: Some(1000),
        y1: None,
        x2: Some(5000),
        y2: None,
        x: None,
        y: None,
        width: None,
        height: None,
        has_fill: None,
        has_stroke: None,
        fill_color: None,
        stroke_color: None,
        line_width: None,
    };
    let mut rect = stroke.clone();
    rect.kind = "rect".to_string();
    rect.width = Some(9000);
    rect.has_fill = Some(true);
    let mut other = stroke.clone();
    other.kind = "circle".to_string();
    let page = bindings::JsPageInput {
        page_number: 2,
        page_width: 612_000,
        page_height: 792_000,
        text_items: vec![],
        graphics: Some(vec![stroke, other, rect]),
    };
    let p = page.to_rust();
    assert_eq!(p.page_number, 2);
    assert_eq!(p.graphics.len(), 2);
    match &p.graphics[1] {
        liteparse::types::GraphicPrimitive::Rect { bbox, fill, stroke } => {
            assert_eq!(bbox.width, 9000);
            assert_eq!(fill.as_deref(), Some(""));
            assert!(stroke.is_none());
        }
        _ => panic!("expected a rectangle"),
    }
}

#[test]
fn items_come_back_with_full_confidence() {
    let js = bindings::JsTextItem {
        text: "word".to_string(),
        x: 1000,
        y: 2000,
        width: 3000,
        height: 4000,
        font_name: Some("Arial".to_string()),
        font_size: Some(9000),
        confidence: None,
        rotation: None,
    };
    let back = bindings::JsTextItem::from_rust(&js.to_rust());
    assert_eq!(back.text, "word");
    assert_eq!(back.confidence, Some(1000));
    assert_eq!(back.rotation, Some(0));
    assert_eq!(back.font_name.as_deref(), Some("Arial"));
}

#[test]
fn headers_come_by_their_names() {
    let pair = |a: &str, b: &str| (a.to_string(), b.to_string());
    let mut c = LiteParseConfig::default();
    c.ocr_server_headers = vec![pair("a", "1"), pair("b", "2"), pair("a", "3")];
    let js = JsLiteParseConfig::from_rust(&c);
    let want = vec![pair("b", "2"), pair("a", "3")];
    assert_eq!(js.ocr_server_headers, Some(want.clone()));
    assert_eq!(js.into_rust(None).ocr_server_headers, want);
    assert_eq!(PyLiteParseConfig::from_rust(&c).ocr_server_headers, Some(want));
}
