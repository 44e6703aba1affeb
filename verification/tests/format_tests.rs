use std::sync::Arc;

use liteparse::markdown::format_markdown;
use liteparse::types::{Anchor, ParsedPage, ProjectedLine, Rect, TextItem};

fn fix(v: f32) -> i32 {
    (v * 1000.0).round() as i32
}

fn line(text: &str, x: f32, y: f32, h: f32, size: f32) -> ProjectedLine {
    ProjectedLine {
        text: text.to_string(),
        bbox: Rect {
            x: fix(x),
            y: fix(y),
            width: fix(text.chars().count() as f32 * (size * 0.5)),
            height: fix(h),
        },
        anchor: Anchor::Left,
        indent_x: fix(x),
        dominant_font_size: fix(size),
        font_size_is_estimated: false,
        dominant_font_name: Some("Arial".to_string()),
        all_bold: false,
        all_italic: false,
        all_mono: false,
        all_strike: false,
        spans: Arc::new(vec![TextItem::default()]),
        region_path: Arc::new(vec![]),
        mcid: None,
    }
}

fn page_with(n: usize, lines: Vec<ProjectedLine>) -> ParsedPage {
    ParsedPage {
        page_number: n,
        page_width: fix(612.0),
        page_height: fix(792.0),
        text: "fallback".to_string(),
        text_items: vec![],
        projected_lines: lines,
        graphics: vec![],
        struct_nodes: vec![],
        image_refs: vec![],
    }
}

#[test]
fn test_empty() {
    assert_eq!(format_markdown(&vec![]), "");
}

#[test]
fn test_fallback_when_no_projected_lines() {
    let mut p = page_with(1, vec![]);
    p.page_width = 0;
    p.page_height = 0;
    p.text = "hello".to_string();
    let out = format_markdown(&vec![p]);
    assert!(out.contains("```text"));
    assert!(out.contains("hello"));
    assert!(out.contains("<!-- page 1 -->"));
    assert_eq!(out, "<!-- page 1 -->\n\n```text\nhello\n```");
}

#[test]
fn test_heading_and_paragraph() {
    let p = page_with(
        1,
        vec![
            line("My Title For This Test Document", 50.0, 50.0, 18.0, 18.0),
            line("First sentence of body prose here.", 50.0, 80.0, 10.0, 10.0),
            line("Second sentence of body prose here.", 50.0, 92.0, 10.0, 10.0),
            line("Third sentence of body prose here.", 50.0, 104.0, 10.0, 10.0),
        ],
    );
    let out = format_markdown(&vec![p]);
    assert!(out.contains("# My Title For This Test Document"));
    assert!(out.contains("First sentence of body prose here."));
}

#[test]
fn test_multi_page_separator() {
    let a = page_with(1, vec![line("A page.", 50.0, 80.0, 10.0, 10.0)]);
    let b = page_with(2, vec![line("B page.", 50.0, 80.0, 10.0, 10.0)]);
    let out = format_markdown(&vec![a, b]);
    assert!(out.contains("-----"));
    assert!(out.find("A page.").unwrap() < out.find("B page.").unwrap());
}
