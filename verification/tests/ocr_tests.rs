use liteparse::http_ocr::{
    after_failure, after_request, is_connection_drop, is_retryable, jitter_ms, request_delays,
    spread_over, unreadable_answer, HedgeEvent, HedgeStep, HttpOcrEngine, HttpOcrResponse,
    HttpOcrResponseItem, OcrRetryConfig, ProdOcrItem, RequestFailure, RetryStep,
};
use liteparse::ocr_merge::{
    merge_outcomes, overlaps_existing_text, page_needs_ocr, polygon_rotation_deg, Corner,
    LiteParseError, OcrResult, Outcome, PixelBox, Quad,
};
use liteparse::ocr_text::{clean_ocr_table_artifacts, is_likely_garbled};
use liteparse::tesseract::{
    default_tessdata_dir, download_failure, partial_file, traineddata_file, traineddata_url,
    word_result, Platform, TesseractOcrEngine,
};
use liteparse::types::{Page, TextItem};
use serde_json::Value;

fn fix(v: f32) -> i32 {
    (v * 1000.0).round() as i32
}

fn corner(p: [f32; 2]) -> Corner {
    Corner { x: fix(p[0]), y: fix(p[1]) }
}

fn quad(p: [[f32; 2]; 4]) -> Quad {
    Quad { a: corner(p[0]), b: corner(p[1]), c: corner(p[2]), d: corner(p[3]) }
}

#[test]
fn test_polygon_rotation_horizontal() {
    let p = [[0.0, 0.0], [100.0, 0.0], [100.0, 20.0], [0.0, 20.0]];
    assert_eq!(polygon_rotation_deg(&quad(p)), 0);
}

#[test]
fn test_polygon_rotation_90_ccw() {
    let p = [[10.0, 100.0], [10.0, 0.0], [30.0, 0.0], [30.0, 100.0]];
    assert_eq!(polygon_rotation_deg(&quad(p)), 90);
}

#[test]
fn test_polygon_rotation_270_ccw() {
    let p = [[10.0, 0.0], [10.0, 100.0], [30.0, 100.0], [30.0, 0.0]];
    assert_eq!(polygon_rotation_deg(&quad(p)), 270);
}

#[test]
fn test_polygon_rotation_screen_axis_vertical() {
    let p = [[20.0, 50.0], [50.0, 50.0], [50.0, 750.0], [20.0, 750.0]];
    let r = polygon_rotation_deg(&quad(p));
    assert!(r == 90 || r == 270, "expected 90 or 270, got {r}");
}

#[test]
fn test_polygon_rotation_near_square() {
    let p = [[0.0, 0.0], [20.0, 0.0], [20.0, 22.0], [0.0, 22.0]];
    assert_eq!(polygon_rotation_deg(&quad(p)), 0);
}

#[test]
fn test_polygon_rotation_180() {
    let p = [[100.0, 20.0], [0.0, 20.0], [0.0, 0.0], [100.0, 0.0]];
    assert_eq!(polygon_rotation_deg(&quad(p)), 180);
}

#[test]
fn polygons_smaller_than_a_pixel_are_upright() {
    let p = [[0.0, 0.5], [0.0, 0.0], [0.1, 0.0], [0.1, 0.5]];
    assert_eq!(polygon_rotation_deg(&quad(p)), 0);
}

#[test]
fn test_clean_ocr_table_artifacts() {
    assert_eq!(clean_ocr_table_artifacts("44520]"), "44520");
    assert_eq!(clean_ocr_table_artifacts("|123"), "123");
    assert_eq!(clean_ocr_table_artifacts("0.3|"), "0.3");
    assert_eq!(clean_ocr_table_artifacts("(note)"), "(note)");
    assert_eq!(clean_ocr_table_artifacts("|hello|"), "|hello|");
    assert_eq!(clean_ocr_table_artifacts("N/A"), "N/A");
    assert_eq!(clean_ocr_table_artifacts(""), "");
    assert_eq!(clean_ocr_table_artifacts("|||"), "|||");
}

fn make_item(x: f32, y: f32, w: f32, h: f32) -> TextItem {
    item("x", x, y, w, h)
}

fn item(text: &str, x: f32, y: f32, w: f32, h: f32) -> TextItem {
    TextItem {
        text: text.into(),
        x: fix(x),
        y: fix(y),
        width: fix(w),
        height: fix(h),
        ..Default::default()
    }
}

fn overlaps(items: &Vec<TextItem>, x: f32, y: f32, w: f32, h: f32, t: f32) -> bool {
    overlaps_existing_text(items, fix(x), fix(y), fix(w), fix(h), fix(t))
}

#[test]
fn test_overlaps_existing_text_inside() {
    let items = vec![make_item(10.0, 10.0, 20.0, 5.0)];
    assert!(overlaps(&items, 12.0, 11.0, 5.0, 2.0, 2.0));
}

#[test]
fn test_overlaps_existing_text_disjoint() {
    let items = vec![make_item(10.0, 10.0, 20.0, 5.0)];
    assert!(!overlaps(&items, 100.0, 100.0, 5.0, 5.0, 2.0));
}

#[test]
fn test_overlaps_existing_text_tolerance() {
    let items = vec![make_item(10.0, 10.0, 20.0, 5.0)];
    assert!(overlaps(&items, 31.0, 10.0, 5.0, 5.0, 2.0));
    assert!(!overlaps(&items, 35.0, 10.0, 5.0, 5.0, 2.0));
}

#[test]
fn test_overlaps_empty() {
    assert!(!overlaps(&vec![], 0.0, 0.0, 1.0, 1.0, 0.0));
}

#[test]
fn test_clean_ocr_keeps_whitespace_trimmed() {
    assert_eq!(clean_ocr_table_artifacts("   "), "");
    assert_eq!(clean_ocr_table_artifacts(" 123 "), "123");
}

fn page(n: usize, items: Vec<TextItem>) -> Page {
    Page {
        page_number: n,
        page_width: fix(100.0),
        page_height: fix(100.0),
        text_items: items,
        graphics: vec![],
        struct_nodes: vec![],
        image_refs: vec![],
    }
}

fn make_blank_page(n: usize) -> Page {
    page(n, vec![])
}

fn make_native_text_page(n: usize) -> Page {
    page(n, vec![item("this page already has real native text content", 0.0, 0.0, 50.0, 50.0)])
}

fn make_low_coverage_text_page(n: usize) -> Page {
    page(n, vec![item("small native header that is not enough", 0.0, 0.0, 10.0, 5.0)])
}

fn failed(idx: usize) -> (usize, Outcome) {
    (idx, Outcome::Failed("Error opening data file tessdata/eng.traineddata".to_string()))
}

#[test]
fn test_all_pages_fail_returns_error() {
    let mut pages = vec![make_blank_page(1), make_blank_page(2)];
    let result = merge_outcomes(&mut pages, &vec![failed(0), failed(1)], 72_000);
    let err = result.expect_err("expected systemic OCR failure to be surfaced");
    let msg = err.message();
    assert!(
        msg.contains("OCR failed for all 2 page(s)"),
        "unexpected error message: {msg}"
    );
    assert!(
        msg.contains("traineddata"),
        "error should carry the underlying cause: {msg}"
    );
    assert!(matches!(err, LiteParseError::Ocr(_)));
}

#[test]
fn test_no_rendered_pages_is_ok() {
    let mut pages = vec![make_blank_page(1)];
    let result = merge_outcomes(&mut pages, &vec![], 72_000);
    assert!(result.is_ok(), "empty OCR set should succeed: {result:?}");
}

#[test]
fn test_native_text_pages_not_failed_on_ocr_error() {
    let mut pages = vec![make_native_text_page(1), make_native_text_page(2)];
    let result = merge_outcomes(&mut pages, &vec![failed(0), failed(1)], 72_000);
    assert_eq!(
        result.ok(),
        Some(2),
        "OCR failure on already-native-text pages must not abort the parse"
    );
    assert_eq!(pages[0].text_items.len(), 1);
    assert_eq!(pages[1].text_items.len(), 1);
}

#[test]
fn test_mixed_failure_with_sparse_text_page_returns_error() {
    let mut pages = vec![make_native_text_page(1), make_blank_page(2)];
    let result = merge_outcomes(&mut pages, &vec![failed(0), failed(1)], 72_000);
    let err = result.expect_err("a text-starved page losing all OCR must surface an error");
    assert!(
        err.message().contains("OCR failed for all 2 page(s)"),
        "unexpected error message: {}",
        err.message()
    );
}

#[test]
fn test_low_coverage_text_page_failure_returns_error() {
    let mut pages = vec![make_low_coverage_text_page(1)];
    let result = merge_outcomes(&mut pages, &vec![failed(0)], 72_000);
    let err = result.expect_err("low-coverage text page losing OCR must surface an error");
    assert!(
        err.message().contains("OCR failed for all 1 page(s)"),
        "unexpected error message: {}",
        err.message()
    );
}

fn found(text: &str, l: f32, t: f32, r: f32, b: f32, confidence: i32) -> OcrResult {
    OcrResult {
        text: text.to_string(),
        bbox: PixelBox { left: fix(l), top: fix(t), right: fix(r), bottom: fix(b) },
        polygon: None,
        confidence,
    }
}

#[test]
fn recognized_text_is_merged_behind_native_text() {
    let mut pages = vec![make_native_text_page(1)];
    let results = vec![
        found("over native", 10.0, 10.0, 40.0, 20.0, 900_000),
        found("unsure", 140.0, 140.0, 180.0, 150.0, 100_000),
        found("|42|", 140.0, 160.0, 180.0, 170.0, 912_345),
    ];
    let r = merge_outcomes(&mut pages, &vec![(0, Outcome::Read(results))], 144_000);
    assert_eq!(r.ok(), Some(0));
    assert_eq!(pages[0].text_items.len(), 2);
    let t = &pages[0].text_items[1];
    assert_eq!(t.text, "42");
    assert_eq!((t.x, t.y, t.width, t.height), (fix(70.0), fix(80.0), fix(20.0), fix(5.0)));
    assert_eq!(t.font_name.as_deref(), Some("OCR"));
    assert_eq!(t.font_size, Some(fix(5.0)));
    assert_eq!(t.confidence, Some(912));
}

#[test]
fn rotated_text_has_the_size_of_its_narrow_side() {
    let mut pages = vec![make_blank_page(1)];
    let mut r = found("side", 0.0, 0.0, 1.0, 1.0, 900_000);
    r.polygon = Some(quad([[10.0, 90.0], [10.0, 10.0], [20.0, 10.0], [20.0, 90.0]]));
    let _ = merge_outcomes(&mut pages, &vec![(0, Outcome::Read(vec![r]))], 72_000);
    let t = &pages[0].text_items[0];
    assert_eq!(t.rotation, 90_000);
    assert_eq!((t.x, t.y, t.width, t.height), (fix(10.0), fix(10.0), fix(10.0), fix(80.0)));
    assert_eq!(t.font_size, Some(fix(10.0)));
}

#[test]
fn garbled_native_text_is_replaced() {
    assert!(is_likely_garbled("FXHQFBXVGGDWH"));
    assert!(!is_likely_garbled("XVG"));
    assert!(!is_likely_garbled("perfectly ordinary text"));
    let mut pages = vec![page(
        1,
        vec![item("bcdfghjklmnp", 0.0, 0.0, 50.0, 50.0), item("readable words", 0.0, 60.0, 30.0, 5.0)],
    )];
    let r = vec![found("new", 10.0, 10.0, 40.0, 20.0, 900_000)];
    let _ = merge_outcomes(&mut pages, &vec![(0, Outcome::Read(r))], 72_000);
    let texts: Vec<&str> = pages[0].text_items.iter().map(|t| t.text.as_str()).collect();
    assert_eq!(texts, vec!["readable words", "new"]);
}

#[test]
fn pages_that_need_recognition() {
    assert!(page_needs_ocr(&make_blank_page(1), false));
    assert!(page_needs_ocr(&make_low_coverage_text_page(1), false));
    assert!(!page_needs_ocr(&make_native_text_page(1), false));
    assert!(page_needs_ocr(&make_native_text_page(1), true));
    let short = "GDWH FXUUHQF XVGB";
    let mut items = vec![item("a e i o u vowels are here too", 0.0, 0.0, 90.0, 90.0)];
    for _ in 0..20 {
        items.push(item(short, 0.0, 0.0, 1.0, 1.0));
    }
    assert!(page_needs_ocr(&page(1, items), false));
}

// ---------------------------------------------------------------------------
// HTTP
// ---------------------------------------------------------------------------

#[test]
fn test_new_sets_name_and_url() {
    let e = HttpOcrEngine::new("http://example.com/ocr".into());
    assert_eq!(e.name(), "http-ocr");
    assert_eq!(e.server_url, "http://example.com/ocr");
}

fn number(v: &Value) -> i32 {
    (v.as_f64().unwrap() * 1000.0).round() as i32
}

fn millionths(v: &Value) -> i32 {
    (v.as_f64().unwrap() * 1_000_000.0).round() as i32
}

fn parse(raw: &str) -> HttpOcrResponse {
    let v: Value = serde_json::from_str(raw).unwrap();
    if let Some(results) = v.get("results") {
        let mut out = vec![];
        for r in results.as_array().unwrap() {
            let b = r["bbox"].as_array().unwrap();
            out.push(HttpOcrResponseItem {
                text: r["text"].as_str().unwrap().to_string(),
                bbox: PixelBox {
                    left: number(&b[0]),
                    top: number(&b[1]),
                    right: number(&b[2]),
                    bottom: number(&b[3]),
                },
                confidence: millionths(&r["confidence"]),
                polygon: None,
            });
        }
        HttpOcrResponse::Standard { results: out }
    } else {
        let mut out = vec![];
        for r in v["result"].as_array().unwrap() {
            let corners = r[0]
                .as_array()
                .unwrap()
                .iter()
                .map(|p| Corner { x: number(&p[0]), y: number(&p[1]) })
                .collect();
            out.push(ProdOcrItem {
                corners,
                text: r[1].as_str().unwrap().to_string(),
                confidence: millionths(&r[2]),
            });
        }
        HttpOcrResponse::Prod { result: out }
    }
}

#[test]
fn test_response_deserializes() {
    let raw = r#"{"results":[{"text":"hi","bbox":[1.0,2.0,3.0,4.0],"confidence":0.85}]}"#;
    let results = parse(raw).into_results();
    assert_eq!(results.len(), 1);
    assert_eq!(results[0].text, "hi");
    assert_eq!(
        results[0].bbox,
        PixelBox { left: fix(1.0), top: fix(2.0), right: fix(3.0), bottom: fix(4.0) }
    );
    assert_eq!(results[0].confidence, 850_000);
}

#[test]
fn test_response_deserializes_empty() {
    let raw = r#"{"results":[]}"#;
    assert!(parse(raw).into_results().is_empty());
}

#[test]
fn test_prod_response_deserializes() {
    let raw = r#"{"document_angle":-90,"result":[[[[10.0,20.0],[60.0,20.0],[60.0,40.0],[10.0,40.0]],"hi",0.85]]}"#;
    let results = parse(raw).into_results();
    assert_eq!(results.len(), 1);
    assert_eq!(results[0].text, "hi");
    assert_eq!(
        results[0].bbox,
        PixelBox { left: fix(10.0), top: fix(20.0), right: fix(60.0), bottom: fix(40.0) }
    );
    assert_eq!(results[0].confidence, 850_000);
    assert_eq!(
        results[0].polygon,
        Some(quad([[10.0, 20.0], [60.0, 20.0], [60.0, 40.0], [10.0, 40.0]]))
    );
}

#[test]
fn test_prod_response_empty() {
    let raw = r#"{"document_angle":null,"result":[]}"#;
    assert!(parse(raw).into_results().is_empty());
}

#[test]
fn other_numbers_of_corners_give_only_a_box() {
    let i = ProdOcrItem {
        corners: vec![corner([5.0, 9.0]), corner([1.0, 2.0]), corner([3.0, 4.0])],
        text: "t".to_string(),
        confidence: 1,
    };
    let r = i.into_ocr_result();
    assert!(r.polygon.is_none());
    assert_eq!(r.bbox, PixelBox { left: 1000, top: 2000, right: 5000, bottom: 9000 });
}

#[test]
fn test_default_retry_matches_worker_parity() {
    let c = OcrRetryConfig::default();
    assert_eq!(c.max_attempts, 10);
    assert_eq!(c.base_backoff_ms, 1000);
    assert_eq!(c.max_backoff_ms, 10_000);
}

#[test]
fn test_jitter_within_bounds() {
    for _ in 0..1000 {
        assert!(jitter_ms(500) <= 500);
    }
    assert_eq!(jitter_ms(0), 0);
}

#[test]
fn jitter_spreads_nanoseconds() {
    assert_eq!(spread_over(1_234, 500), 1_234 % 501);
    assert_eq!(spread_over(999_999_999, u64::MAX), 999_999_999);
}

#[test]
fn test_default_has_no_hedging() {
    assert!(OcrRetryConfig::default().hedge_delays_ms.is_empty());
}

fn failure(status: Option<u16>, message: &str) -> RequestFailure {
    RequestFailure {
        timeout: false,
        connect: false,
        status,
        body: false,
        request: false,
        messages: vec!["error sending request".to_string(), message.to_string()],
    }
}

#[test]
fn overload_is_retried_and_mistakes_are_not() {
    for s in [408, 425, 429, 500, 501, 502, 503, 504, 599] {
        assert!(is_retryable(&failure(Some(s), "")));
    }
    for s in [400, 401, 404, 499, 600] {
        assert!(!is_retryable(&failure(Some(s), "")));
    }
    assert!(!is_retryable(&failure(None, "")));
    let mut f = failure(Some(404), "");
    f.timeout = true;
    assert!(is_retryable(&f));
    let mut g = failure(None, "");
    g.body = true;
    assert!(is_retryable(&g));
}

#[test]
fn dropped_connections_are_recognized_by_their_messages() {
    assert!(is_connection_drop(&failure(None, "Connection Reset by peer")));
    assert!(is_connection_drop(&failure(None, "socket hang up")));
    assert!(is_connection_drop(&failure(None, "IncompleteMessage")));
    assert!(!is_connection_drop(&failure(None, "timed out")));
}

#[test]
fn pauses_double_up_to_the_longest() {
    let c = OcrRetryConfig::default();
    let f = failure(Some(503), "");
    let steps: Vec<RetryStep> = (1..=10).map(|a| after_failure(&c, a, &f, 7)).collect();
    assert_eq!(steps[0], RetryStep::RetryAfter(1007));
    assert_eq!(steps[1], RetryStep::RetryAfter(2007));
    assert_eq!(steps[2], RetryStep::RetryAfter(4007));
    assert_eq!(steps[3], RetryStep::RetryAfter(8007));
    assert_eq!(steps[4], RetryStep::RetryAfter(10_007));
    assert_eq!(steps[8], RetryStep::RetryAfter(10_007));
    assert_eq!(steps[9], RetryStep::GiveUp);
    assert_eq!(after_failure(&c, 1, &failure(Some(404), ""), 0), RetryStep::GiveUp);
    let mut drop = failure(Some(503), "broken pipe");
    drop.connect = true;
    assert_eq!(after_failure(&c, 5, &drop, 0), RetryStep::RetryAfter(500));
}

#[test]
fn duplicate_requests_end_with_the_first_answer_or_the_last_failure() {
    let mut c = OcrRetryConfig::default();
    assert_eq!(request_delays(&c), vec![0]);
    c.hedge_delays_ms = vec![0, 5000];
    assert_eq!(request_delays(&c), vec![0, 5000]);
    match after_request(HedgeEvent::Answered("body".to_string()), 1) {
        HedgeStep::Take(b) => assert_eq!(b, "body"),
        _ => panic!("an answer is taken"),
    }
    assert!(matches!(
        after_request(HedgeEvent::Failed(failure(None, "")), 1),
        HedgeStep::Wait
    ));
    match after_request(HedgeEvent::Failed(failure(Some(500), "")), 0) {
        HedgeStep::Fail(f) => assert_eq!(f.status, Some(500)),
        _ => panic!("the last failure is reported"),
    }
}

#[test]
fn unreadable_answers_are_reported_with_their_start() {
    assert_eq!(
        unreadable_answer("bad", "body"),
        "OCR server returned unparseable response: bad; body starts: body"
    );
    let long: String = std::iter::repeat('x').take(300).collect();
    assert_eq!(unreadable_answer("", &long).matches('x').count(), 200);
}

#[test]
fn retries_can_be_set() {
    let mut retry = OcrRetryConfig::default();
    retry.max_attempts = 1;
    let e = HttpOcrEngine::with_headers("u".into(), vec![("a".into(), "b".into())]).with_retry(retry);
    assert_eq!(e.retry.max_attempts, 1);
    assert_eq!(e.headers.len(), 1);
    assert_eq!(e.server_url, "u");
}

// ---------------------------------------------------------------------------
// Tesseract
// ---------------------------------------------------------------------------

#[test]
fn test_normalize_language_known_codes() {
    assert_eq!(TesseractOcrEngine::normalize_language("en"), "eng");
    assert_eq!(TesseractOcrEngine::normalize_language("EN"), "eng");
    assert_eq!(TesseractOcrEngine::normalize_language(" fr "), "fra");
    assert_eq!(TesseractOcrEngine::normalize_language("zh"), "chi_sim");
    assert_eq!(TesseractOcrEngine::normalize_language("zh-tw"), "chi_tra");
    assert_eq!(TesseractOcrEngine::normalize_language("ja"), "jpn");
}

#[test]
fn test_normalize_language_passthrough_for_unknown() {
    assert_eq!(TesseractOcrEngine::normalize_language("eng"), "eng");
    assert_eq!(TesseractOcrEngine::normalize_language("xyz"), "xyz");
}

#[test]
fn test_engine_name() {
    let e = TesseractOcrEngine::new(None);
    assert_eq!(e.name(), "tesseract");
}

#[test]
fn test_new_stores_tessdata_path() {
    let e = TesseractOcrEngine::new(Some("/custom/tessdata".to_string()));
    assert_eq!(e.tessdata_path.as_deref(), Some("/custom/tessdata"));
    assert_eq!(e.data_path(Some("p"), "d"), "/custom/tessdata");
    let none = TesseractOcrEngine::new(None);
    assert_eq!(none.data_path(Some("p"), "d"), "p");
    assert_eq!(none.data_path(None, "d"), "d");
}

#[test]
fn test_default_tessdata_dir_non_empty() {
    for p in [Platform::MacOs, Platform::Linux, Platform::Windows, Platform::Other] {
        assert!(!default_tessdata_dir(p, Some("/home/me"), None, None).is_empty());
        assert!(!default_tessdata_dir(p, None, None, None).is_empty());
    }
}

#[test]
fn test_default_tessdata_dir_windows_uses_appdata() {
    let d = default_tessdata_dir(Platform::Windows, None, Some("C:\\Data"), None);
    assert!(
        d.ends_with("\\tesseract-rs\\tessdata"),
        "unexpected default path on windows: {}",
        d
    );
    assert_eq!(
        default_tessdata_dir(Platform::Windows, None, None, Some("C:\\Me")),
        "C:\\Me\\AppData\\Roaming\\tesseract-rs\\tessdata"
    );
}

#[test]
fn names_of_language_data() {
    assert_eq!(traineddata_file("eng"), "eng.traineddata");
    assert_eq!(
        traineddata_url("eng"),
        "https://github.com/tesseract-ocr/tessdata_best/raw/main/eng.traineddata"
    );
    assert_eq!(partial_file("eng", 42), "eng.traineddata.tmp.42");
    assert_eq!(
        download_failure("eng", "u", "404 Not Found"),
        "failed to download tessdata for language \"eng\" from u: HTTP 404 Not Found"
    );
}

#[test]
fn words_of_low_confidence_are_dropped() {
    let w = word_result("word".to_string(), 1, 2, 3, 4, 300_000).unwrap();
    assert_eq!(w.text, "word");
    assert_eq!(w.bbox, PixelBox { left: 1000, top: 2000, right: 3000, bottom: 4000 });
    assert!(word_result("word".to_string(), 1, 2, 3, 4, 299_999).is_none());
    assert!(word_result("  ".to_string(), 1, 2, 3, 4, 900_000).is_none());
}

#[test]
fn at_a_resolution_of_zero_text_is_out_of_bounds() {
    let mut pages = vec![make_blank_page(1)];
    let results = vec![found("far", 10.0, 0.0, 40.0, 20.0, 900_000)];
    assert_eq!(merge_outcomes(&mut pages, &vec![(0, Outcome::Read(results))], 0).ok(), Some(0));
    let it = &pages[0].text_items[0];
    assert_eq!((it.x, it.y, it.width, it.height), (i32::MAX, 0, i32::MAX, i32::MAX));
}
