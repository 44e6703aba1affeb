use std::sync::Arc;

use liteparse::config::ImageMode;
use liteparse::headings::{build_heading_map, compute_body_size, page_is_toc};
use liteparse::heading_text::{is_toc_title, toc_entry_arabic_number};
use liteparse::region_classify::{classify_page, classify_page_with_filters};
use liteparse::render::render_blocks;
use liteparse::repetition::compute_header_footer_set;
use liteparse::types::{
    Anchor, Block, GraphicPrimitive, ParsedPage, ProjectedLine, Rect, TextItem,
};

fn fix(v: f32) -> i32 {
    (v * 1000.0).round() as i32
}

/// A run of text in a font, with the style that the name of the font tells.
fn item(text: &str, x: f32, y: f32, width: f32, size: f32, font: Option<&str>) -> TextItem {
    let name = font.unwrap_or("").to_ascii_lowercase();
    TextItem {
        text: text.to_string(),
        x: fix(x),
        y: fix(y),
        width: fix(width),
        height: fix(size),
        font_size: Some(fix(size)),
        font_name: font.map(|f| f.to_string()),
        bold: name.contains("bold"),
        italic: name.contains("italic"),
        mono: name.contains("courier"),
        ..Default::default()
    }
}

fn line(text: &str, x: f32, y: f32, h: f32, size: f32) -> ProjectedLine {
    ProjectedLine {
        text: text.to_string(),
        bbox: Rect {
            x: fix(x),
            y: fix(y),
            width: fix(text.chars().count() as f32 * (size * 0.5)),
            height: fix(h),
        },
        anchor: Anchor::Left,
        indent_x: fix(x),
        dominant_font_size: fix(size),
        font_size_is_estimated: false,
        dominant_font_name: Some("Arial".to_string()),
        all_bold: false,
        all_italic: false,
        all_mono: false,
        all_strike: false,
        spans: Arc::new(vec![TextItem::default()]),
        region_path: Arc::new(vec![]),
        mcid: None,
    }
}

fn page(lines: Vec<ProjectedLine>) -> ParsedPage {
    ParsedPage {
        page_number: 1,
        page_width: fix(612.0),
        page_height: fix(792.0),
        text: String::new(),
        text_items: vec![],
        projected_lines: lines,
        graphics: vec![],
        struct_nodes: vec![],
        image_refs: vec![],
    }
}

fn header_footer_page(n: usize, header: &str, footer: &str, body: &str) -> ParsedPage {
    let lines = vec![
        line(header, 50.0, 5.0, 8.0, 8.0),
        line(body, 50.0, 50.0, 10.0, 10.0),
        line(footer, 50.0, 92.0, 6.0, 6.0),
    ];
    let mut p = page(lines);
    p.page_number = n;
    p.page_height = fix(100.0);
    p
}

fn mono_line(text: &str, y: f32) -> ProjectedLine {
    let mut l = line(text, 50.0, y, 10.0, 10.0);
    l.all_mono = true;
    l
}

fn line_of_items(text: String, items: Vec<TextItem>, y: f32, size: f32) -> ProjectedLine {
    let min_x = items.iter().map(|s| s.x).min().unwrap();
    let max_x = items.iter().map(|s| s.x + s.width).max().unwrap();
    let mut l = line("", 0.0, y, size, size);
    l.text = text;
    l.bbox.x = min_x;
    l.bbox.width = (max_x - min_x).max(0);
    l.indent_x = min_x;
    l.spans = Arc::new(items);
    l
}

/// A line whose runs are at the given places.
fn line_with_spans(cells: &[(&str, f32)], y: f32, size: f32) -> ProjectedLine {
    let items: Vec<TextItem> = cells
        .iter()
        .map(|(t, x)| item(t, *x, y, t.chars().count() as f32 * size * 0.5, size, Some("Arial")))
        .collect();
    let text = cells.iter().map(|(t, _)| *t).collect::<Vec<_>>().join("   ");
    line_of_items(text, items, y, size)
}

/// A line whose runs have the given fonts.
fn styled_line(spans: &[(&str, f32, Option<&str>)], y: f32, size: f32) -> ProjectedLine {
    let items: Vec<TextItem> = spans
        .iter()
        .map(|(t, x, font)| item(t, *x, y, t.chars().count() as f32 * size * 0.5, size, *font))
        .collect();
    let text = spans.iter().map(|(t, _, _)| *t).collect::<Vec<_>>().join(" ");
    line_of_items(text, items, y, size)
}

fn stroke(x1: f32, y1: f32, x2: f32, y2: f32, width: f32) -> GraphicPrimitive {
    GraphicPrimitive::Stroke {
        x1: fix(x1),
        y1: fix(y1),
        x2: fix(x2),
        y2: fix(y2),
        width: fix(width),
        color: None,
    }
}

fn page_with_graphics(lines: Vec<ProjectedLine>, graphics: Vec<GraphicPrimitive>) -> ParsedPage {
    let mut p = page(lines);
    p.graphics = graphics;
    p
}

#[test]
fn classify_classify_emits_heading_and_paragraph() {
    let p = page(vec![
        line("Title of the document goes here", 50.0, 50.0, 18.0, 18.0),
        line("First sentence of the para-", 50.0, 80.0, 10.0, 10.0),
        line("graph continues here.", 50.0, 92.0, 10.0, 10.0),
        line("Another paragraph.", 50.0, 130.0, 10.0, 10.0),
    ]);
    let pages = vec![p];
    let body = compute_body_size(&pages);
    let map = build_heading_map(&pages, body);
    let blocks = classify_page(&pages[0], &map);
    assert_eq!(blocks.len(), 3);
    match &blocks[0] {
        Block::Heading { level, text } => {
            assert_eq!(*level, 1);
            assert_eq!(text, "Title of the document goes here");
        }
        other => panic!("expected heading, got {other:?}"),
    }
    match &blocks[1] {
        Block::Paragraph { text: t, .. } => {
            assert!(t.contains("paragraph continues"), "got: {t}");
            assert!(!t.contains("para-"), "de-hyphenation failed: {t}");
        }
        other => panic!("expected paragraph, got {other:?}"),
    }
    match &blocks[2] {
        Block::Paragraph { text: t, .. } => assert_eq!(t, "Another paragraph."),
        other => panic!("expected paragraph, got {other:?}"),
    }
}

#[test]
fn classify_paragraph_break_on_big_gap() {
    let p = page(vec![
        line("Line A.", 50.0, 80.0, 10.0, 10.0),
        line("Line B.", 50.0, 200.0, 10.0, 10.0),
    ]);
    let pages = vec![p];
    let body = compute_body_size(&pages);
    let map = build_heading_map(&pages, body);
    let blocks = classify_page(&pages[0], &map);
    assert_eq!(blocks.len(), 2);
}

#[test]
fn classify_classify_emits_list_items() {
    let p = page(vec![
        line("Intro line.", 50.0, 50.0, 10.0, 10.0),
        line("• first bullet", 60.0, 80.0, 10.0, 10.0),
        line("• second bullet", 60.0, 92.0, 10.0, 10.0),
        line("◦ nested item", 72.0, 104.0, 10.0, 10.0),
        line("• back to top", 60.0, 116.0, 10.0, 10.0),
    ]);
    let pages = vec![p];
    let body = compute_body_size(&pages);
    let map = build_heading_map(&pages, body);
    let blocks = classify_page(&pages[0], &map);
    let list_items: Vec<&Block> = blocks
        .iter()
        .filter(|b| matches!(b, Block::ListItem { .. }))
        .collect();
    assert_eq!(list_items.len(), 4);
    if let Block::ListItem { level, text, .. } = list_items[0] {
        assert_eq!(*level, 0);
        assert_eq!(text, "first bullet");
    } else {
        panic!("unexpected block");
    }
    if let Block::ListItem { level, .. } = list_items[2] {
        assert_eq!(*level, 1);
    } else {
        panic!("unexpected block");
    }
}

#[test]
fn classify_classify_emits_code_block() {
    let p = page(vec![
        line("Intro line.", 50.0, 50.0, 10.0, 10.0),
        mono_line("    let x = 1;", 80.0),
        mono_line("    let y = x + 2;", 92.0),
        line("After the code.", 50.0, 120.0, 10.0, 10.0),
    ]);
    let pages = vec![p];
    let body = compute_body_size(&pages);
    let map = build_heading_map(&pages, body);
    let blocks = classify_page(&pages[0], &map);
    assert_eq!(blocks.len(), 3);
    match &blocks[1] {
        Block::CodeBlock { lines } => {
            assert_eq!(lines.len(), 2);
            assert!(lines[0].contains("let x = 1;"));
            assert!(lines[1].contains("let y = x + 2;"));
        }
        other => panic!("expected code block, got {other:?}"),
    }
    let s = render_blocks(&blocks);
    assert!(s.contains("```\n    let x = 1;"));
    assert!(s.ends_with("After the code."));
}

#[test]
fn classify_classify_marks_paragraph_bold_when_all_lines_bold() {
    let mut a = line("Bold line one.", 50.0, 50.0, 10.0, 10.0);
    let mut b = line("bold continuation.", 50.0, 62.0, 10.0, 10.0);
    let bold_span = item("x", 0.0, 0.0, 0.0, 0.0, Some("Arial-Bold"));
    a.spans = Arc::new(vec![bold_span.clone()]);
    b.spans = Arc::new(vec![bold_span]);
    a.all_bold = true;
    b.all_bold = true;
    let p = page(vec![a, b]);
    let pages = vec![p];
    let body = compute_body_size(&pages);
    let map = build_heading_map(&pages, body);
    let blocks = classify_page(&pages[0], &map);
    assert_eq!(blocks.len(), 1);
    match &blocks[0] {
        Block::Paragraph { bold, italic, .. } => {
            assert!(*bold);
            assert!(!*italic);
        }
        other => panic!("expected paragraph, got {other:?}"),
    }
    let s = render_blocks(&blocks);
    assert!(s.starts_with("**") && s.ends_with("**"), "got: {s}");
}

#[test]
fn classify_detects_simple_borderless_table() {
        let lines = vec![
        line_with_spans(
            &[("Name", 50.0), ("Age", 150.0), ("City", 250.0)],
            100.0,
            10.0,
        ),
        line_with_spans(
            &[("Alice", 50.0), ("30", 150.0), ("NYC", 250.0)],
            115.0,
            10.0,
        ),
        line_with_spans(&[("Bob", 50.0), ("25", 150.0), ("LA", 250.0)], 130.0, 10.0),
    ];
    let p = page(lines);
    let pages = vec![p];
    let body = compute_body_size(&pages);
    let map = build_heading_map(&pages, body);
    let blocks = classify_page(&pages[0], &map);
    assert_eq!(blocks.len(), 1, "got: {blocks:?}");
    match &blocks[0] {
        Block::Table { header, rows } => {
            assert!(header.is_none());
            assert_eq!(rows.len(), 3);
            assert_eq!(rows[0][0], "Name");
            assert_eq!(rows[1][2], "NYC");
        }
        other => panic!("expected table, got {other:?}"),
    }
}

#[test]
fn classify_full_format_strips_header_footer() {
    let pages = vec![
        header_footer_page(1, "Acme Confidential", "Page 1 of 2", "First page body."),
        header_footer_page(2, "Acme Confidential", "Page 2 of 2", "Second page body."),
    ];
    let body = compute_body_size(&pages);
    let map = build_heading_map(&pages, body);
    let set = compute_header_footer_set(&pages);
    let blocks = classify_page_with_filters(
        &pages[0],
        &map,
        &set,
        &vec![],
        ImageMode::Placeholder,
        &vec![],
    );
    let s = render_blocks(&blocks);
    assert!(!s.contains("Acme Confidential"), "got: {s}");
    assert!(!s.contains("Page 1 of 2"), "got: {s}");
    assert!(s.contains("First page body."));
}

#[test]
fn classify_classify_paragraph_with_mid_line_bold() {
    let a = styled_line(
        &[
            ("a sentence with a", 50.0, Some("Arial")),
            ("bold", 180.0, Some("Arial-Bold")),
            ("word in it.", 230.0, Some("Arial")),
        ],
        50.0,
        10.0,
    );
    let p = page(vec![a]);
    let pages = vec![p];
    let body = compute_body_size(&pages);
    let map = build_heading_map(&pages, body);
    let blocks = classify_page(&pages[0], &map);
    assert_eq!(blocks.len(), 1, "got: {blocks:?}");
    match &blocks[0] {
        Block::Paragraph { text, bold, italic } => {
            assert!(!*bold, "mixed-style paragraph shouldn't set block bold");
            assert!(!*italic);
            assert!(text.contains("**bold**"), "got: {text}");
        }
        other => panic!("expected paragraph, got {other:?}"),
    }
}

#[test]
fn classify_classify_list_item_strips_marker_under_emphasis() {
    let l = styled_line(
        &[
            ("•", 60.0, Some("Arial-Bold")),
            ("important item", 80.0, Some("Arial-Bold")),
        ],
        50.0,
        10.0,
    );
    let p = page(vec![l]);
    let pages = vec![p];
    let body = compute_body_size(&pages);
    let map = build_heading_map(&pages, body);
    let blocks = classify_page(&pages[0], &map);
    assert_eq!(blocks.len(), 1);
    match &blocks[0] {
        Block::ListItem { text, .. } => {
            assert_eq!(text, "**important item**");
        }
        other => panic!("expected list item, got {other:?}"),
    }
}

#[test]
fn classify_hr_emitted_between_lines_by_y_order() {
    let lines = vec![
        line("before the rule", 50.0, 100.0, 10.0, 10.0),
        line("after the rule", 50.0, 300.0, 10.0, 10.0),
    ];
    let p = page_with_graphics(lines, vec![stroke(50.0, 200.0, 450.0, 200.0, 0.5)]);
    let blocks = classify_page(&p, &vec![]);
    let has_hr = blocks
        .iter()
        .position(|b| matches!(b, Block::HorizontalRule));
    assert!(has_hr.is_some(), "expected an HR block, got {blocks:?}");
    let pos = has_hr.unwrap();
    assert!(pos > 0 && pos < blocks.len() - 1);
}

#[test]
fn toc_entry_arabic_extracts_trailing_page_number() {
    assert_eq!(toc_entry_arabic_number("Introduction 7"), Some(7));
    assert_eq!(
        toc_entry_arabic_number("1. A Fountain in the Square 1"),
        Some(1)
    );
    assert_eq!(
        toc_entry_arabic_number("6. For the Love of Iran . . . 41"),
        Some(41)
    );
}

#[test]
fn toc_entry_arabic_rejects_decimals_and_axis_labels() {
    assert_eq!(toc_entry_arabic_number("OCR-Recall3 7 94.2"), None);
    assert_eq!(toc_entry_arabic_number("Chapter 7"), None);
    assert_eq!(toc_entry_arabic_number("Section1"), None);
}

#[test]
fn is_toc_title_matches_common_variants() {
    assert!(is_toc_title("Contents"));
    assert!(is_toc_title("Table of Contents"));
    assert!(is_toc_title("table of contents"));
    assert!(is_toc_title("Index"));
    assert!(!is_toc_title("Introduction"));
}

#[test]
fn page_is_toc_requires_monotonic_page_numbers() {
    let pages_toc = page(vec![
        line("Table of contents", 50.0, 30.0, 18.0, 18.0),
        line("Introduction 7", 50.0, 60.0, 12.0, 12.0),
        line("Part I: New Children 21", 50.0, 72.0, 12.0, 12.0),
        line("Part II: From Solitary 45", 50.0, 84.0, 12.0, 12.0),
        line("Part III: Commercial 71", 50.0, 96.0, 12.0, 12.0),
        line("Conclusion 127", 50.0, 108.0, 12.0, 12.0),
    ]);
    assert!(page_is_toc(&pages_toc));

    let pages_chart = page(vec![
        line("OCR-Recall is 94.2", 50.0, 60.0, 9.0, 9.0),
        line("Precision rate 89.0", 50.0, 72.0, 9.0, 9.0),
        line("F1 score 80.4", 50.0, 84.0, 9.0, 9.0),
    ]);
    assert!(!page_is_toc(&pages_chart));
}

#[test]
fn headings_body_size_picks_most_common() {
    let pages = vec![page(vec![
        line("Title", 50.0, 50.0, 18.0, 18.0),
        line("body line one", 50.0, 80.0, 10.0, 10.0),
        line("body line two", 50.0, 92.0, 10.0, 10.0),
        line("body line three", 50.0, 104.0, 10.0, 10.0),
    ])];
    let body = compute_body_size(&pages);
    assert_eq!(body, fix(10.0));
}

#[test]
fn headings_heading_map_descending_levels() {
    let pages = vec![page(vec![
        line("The largest heading on the page", 50.0, 50.0, 24.0, 24.0),
        line("A smaller heading right below it", 50.0, 80.0, 18.0, 18.0),
        line(
            "body text line one with plenty of content",
            50.0,
            110.0,
            10.0,
            10.0,
        ),
        line(
            "body text line two with plenty of content",
            50.0,
            122.0,
            10.0,
            10.0,
        ),
        line(
            "body text line three with even more content",
            50.0,
            134.0,
            10.0,
            10.0,
        ),
        line(
            "body text line four with even more content",
            50.0,
            146.0,
            10.0,
            10.0,
        ),
    ])];
    let body = compute_body_size(&pages);
    let map = build_heading_map(&pages, body);
    assert_eq!(map.len(), 2);
    assert_eq!(map[0].1, 1);
    assert_eq!(map[1].1, 2);
    assert!(map[0].0 > map[1].0);
}
