use std::sync::Arc;

use liteparse::cells::{recover_merged_cell, split_cells, TableCell};
use liteparse::hr::detect_horizontal_rules;
use liteparse::lists::parse_list_marker;
use liteparse::page_classify::{classify_page, classify_page_with_filters};
use liteparse::page_headings::{build_heading_map, compute_body_size};
use liteparse::page_ruled::{detect_ruled_tables, merge_table_runs};
use liteparse::page_tables::detect_tables;
use liteparse::paragraphs::append_paragraph_line;
use liteparse::render::{escape_table_cell, render_blocks, wrap_emphasis};
use liteparse::repetition::{compute_header_footer_set, normalize_for_repetition};
use liteparse::rows::TableRun;
use liteparse::span_text::render_line_inline;
use liteparse::types::{
    Anchor, Block, GraphicPrimitive, ParsedPage, ProjectedLine, Rect, TextItem,
};

fn fix(v: f32) -> i32 {
    (v * 1000.0).round() as i32
}

/// A run of text in a font, with the style that the name of the font tells.
fn item(text: &str, x: f32, y: f32, width: f32, size: f32, font: Option<&str>) -> TextItem {
    let name = font.unwrap_or("").to_ascii_lowercase();
    TextItem {
        text: text.to_string(),
        x: fix(x),
        y: fix(y),
        width: fix(width),
        height: fix(size),
        font_size: Some(fix(size)),
        font_name: font.map(|f| f.to_string()),
        bold: name.contains("bold"),
        italic: name.contains("italic"),
        mono: name.contains("courier"),
        ..Default::default()
    }
}

fn line(text: &str, x: f32, y: f32, h: f32, size: f32) -> ProjectedLine {
    ProjectedLine {
        text: text.to_string(),
        bbox: Rect {
            x: fix(x),
            y: fix(y),
            width: fix(text.chars().count() as f32 * (size * 0.5)),
            height: fix(h),
        },
        anchor: Anchor::Left,
        indent_x: fix(x),
        dominant_font_size: fix(size),
        font_size_is_estimated: false,
        dominant_font_name: Some("Arial".to_string()),
        all_bold: false,
        all_italic: false,
        all_mono: false,
        all_strike: false,
        spans: Arc::new(vec![TextItem::default()]),
        region_path: Arc::new(vec![]),
        mcid: None,
    }
}

fn page(lines: Vec<ProjectedLine>) -> ParsedPage {
    ParsedPage {
        page_number: 1,
        page_width: fix(612.0),
        page_height: fix(792.0),
        text: String::new(),
        text_items: vec![],
        projected_lines: lines,
        graphics: vec![],
        struct_nodes: vec![],
        image_refs: vec![],
    }
}

fn header_footer_page(n: usize, header: &str, footer: &str, body: &str) -> ParsedPage {
    let lines = vec![
        line(header, 50.0, 5.0, 8.0, 8.0),
        line(body, 50.0, 50.0, 10.0, 10.0),
        line(footer, 50.0, 92.0, 6.0, 6.0),
    ];
    let mut p = page(lines);
    p.page_number = n;
    p.page_height = fix(100.0);
    p
}

fn mono_line(text: &str, y: f32) -> ProjectedLine {
    let mut l = line(text, 50.0, y, 10.0, 10.0);
    l.all_mono = true;
    l
}

fn line_of_items(text: String, items: Vec<TextItem>, y: f32, size: f32) -> ProjectedLine {
    let min_x = items.iter().map(|s| s.x).min().unwrap();
    let max_x = items.iter().map(|s| s.x + s.width).max().unwrap();
    let mut l = line("", 0.0, y, size, size);
    l.text = text;
    l.bbox.x = min_x;
    l.bbox.width = (max_x - min_x).max(0);
    l.indent_x = min_x;
    l.spans = Arc::new(items);
    l
}

/// A line whose runs are at the given places.
fn line_with_spans(cells: &[(&str, f32)], y: f32, size: f32) -> ProjectedLine {
    let items: Vec<TextItem> = cells
        .iter()
        .map(|(t, x)| item(t, *x, y, t.chars().count() as f32 * size * 0.5, size, Some("Arial")))
        .collect();
    let text = cells.iter().map(|(t, _)| *t).collect::<Vec<_>>().join("   ");
    line_of_items(text, items, y, size)
}

/// A line whose runs have the given fonts.
fn styled_line(spans: &[(&str, f32, Option<&str>)], y: f32, size: f32) -> ProjectedLine {
    let items: Vec<TextItem> = spans
        .iter()
        .map(|(t, x, font)| item(t, *x, y, t.chars().count() as f32 * size * 0.5, size, *font))
        .collect();
    let text = spans.iter().map(|(t, _, _)| *t).collect::<Vec<_>>().join(" ");
    line_of_items(text, items, y, size)
}

fn stroke(x1: f32, y1: f32, x2: f32, y2: f32, width: f32) -> GraphicPrimitive {
    GraphicPrimitive::Stroke {
        x1: fix(x1),
        y1: fix(y1),
        x2: fix(x2),
        y2: fix(y2),
        width: fix(width),
        color: None,
    }
}

fn page_with_graphics(lines: Vec<ProjectedLine>, graphics: Vec<GraphicPrimitive>) -> ParsedPage {
    let mut p = page(lines);
    p.graphics = graphics;
    p
}

/// The four borders of a rectangle as strokes.
fn rect_borders(x: f32, y: f32, w: f32, h: f32) -> Vec<GraphicPrimitive> {
    vec![
        stroke(x, y, x + w, y, 0.5),
        stroke(x, y + h, x + w, y + h, 0.5),
        stroke(x, y, x, y + h, 0.5),
        stroke(x + w, y, x + w, y + h, 0.5),
    ]
}

#[test]
fn markdown_layout_body_size_picks_most_common() {
    let pages = vec![page(vec![
        line("Title", 50.0, 50.0, 18.0, 18.0),
        line("body line one", 50.0, 80.0, 10.0, 10.0),
        line("body line two", 50.0, 92.0, 10.0, 10.0),
        line("body line three", 50.0, 104.0, 10.0, 10.0),
    ])];
    let body = compute_body_size(&pages);
    assert_eq!(body, fix(10.0));
}

#[test]
fn markdown_layout_heading_map_descending_levels() {
    let pages = vec![page(vec![
        line("The largest heading on the page", 50.0, 50.0, 24.0, 24.0),
        line("A smaller heading right below it", 50.0, 80.0, 18.0, 18.0),
        line(
            "body text line one with plenty of content",
            50.0,
            110.0,
            10.0,
            10.0,
        ),
        line(
            "body text line two with plenty of content",
            50.0,
            122.0,
            10.0,
            10.0,
        ),
        line(
            "body text line three with even more content",
            50.0,
            134.0,
            10.0,
            10.0,
        ),
        line(
            "body text line four with even more content",
            50.0,
            146.0,
            10.0,
            10.0,
        ),
    ])];
    let body = compute_body_size(&pages);
    let map = build_heading_map(&pages, body);
    assert_eq!(map.len(), 2);
    assert_eq!(map[0].1, 1);
    assert_eq!(map[1].1, 2);
    assert!(map[0].0 > map[1].0);
}

#[test]
fn markdown_layout_classify_emits_heading_and_paragraph() {
    let p = page(vec![
        line("Title of the document goes here", 50.0, 50.0, 18.0, 18.0),
        line("First sentence of the para-", 50.0, 80.0, 10.0, 10.0),
        line("graph continues here.", 50.0, 92.0, 10.0, 10.0),
        line("Another paragraph.", 50.0, 130.0, 10.0, 10.0),
    ]);
    let pages = vec![p];
    let body = compute_body_size(&pages);
    let map = build_heading_map(&pages, body);
    let blocks = classify_page(&pages[0], &map);
    assert_eq!(blocks.len(), 3);
    match &blocks[0] {
        Block::Heading { level, text } => {
            assert_eq!(*level, 1);
            assert_eq!(text, "Title of the document goes here");
        }
        other => panic!("expected heading, got {other:?}"),
    }
    match &blocks[1] {
        Block::Paragraph { text: t, .. } => {
            assert!(t.contains("paragraph continues"), "got: {t}");
            assert!(!t.contains("para-"), "de-hyphenation failed: {t}");
        }
        other => panic!("expected paragraph, got {other:?}"),
    }
    match &blocks[2] {
        Block::Paragraph { text: t, .. } => assert_eq!(t, "Another paragraph."),
        other => panic!("expected paragraph, got {other:?}"),
    }
}

#[test]
fn markdown_layout_paragraph_break_on_big_gap() {
    let p = page(vec![
        line("Line A.", 50.0, 80.0, 10.0, 10.0),
        line("Line B.", 50.0, 200.0, 10.0, 10.0),
    ]);
    let pages = vec![p];
    let body = compute_body_size(&pages);
    let map = build_heading_map(&pages, body);
    let blocks = classify_page(&pages[0], &map);
    assert_eq!(blocks.len(), 2);
}

#[test]
fn render_blocks_formats_markdown() {
    let blocks = vec![
        Block::Heading {
            level: 1,
            text: "Title".into(),
        },
        Block::Paragraph {
            text: "A paragraph.".into(),
            bold: false,
            italic: false,
        },
        Block::Heading {
            level: 2,
            text: "Sub".into(),
        },
    ];
    let s = render_blocks(&blocks);
    assert_eq!(s, "# Title\n\nA paragraph.\n\n## Sub");
}

#[test]
fn parse_list_marker_bullets() {
    let (ordered, marker, rest) = parse_list_marker("• item one").unwrap();
    assert!(!ordered);
    assert_eq!(marker, "•");
    assert_eq!(rest, "item one");
}

#[test]
fn parse_list_marker_decimal() {
    let (ordered, marker, rest) = parse_list_marker("1. first").unwrap();
    assert!(ordered);
    assert_eq!(marker, "1.");
    assert_eq!(rest, "first");

    let (ordered, marker, rest) = parse_list_marker("12) twelfth").unwrap();
    assert!(ordered);
    assert_eq!(marker, "12)");
    assert_eq!(rest, "twelfth");
}

#[test]
fn parse_list_marker_rejects_prose() {
    assert!(parse_list_marker("This sentence.").is_none());
    assert!(parse_list_marker("2023 was a year").is_none());
    assert!(parse_list_marker("1.5x growth").is_none());
}

#[test]
fn markdown_layout_classify_emits_list_items() {
    let p = page(vec![
        line("Intro line.", 50.0, 50.0, 10.0, 10.0),
        line("• first bullet", 60.0, 80.0, 10.0, 10.0),
        line("• second bullet", 60.0, 92.0, 10.0, 10.0),
        line("◦ nested item", 72.0, 104.0, 10.0, 10.0),
        line("• back to top", 60.0, 116.0, 10.0, 10.0),
    ]);
    let pages = vec![p];
    let body = compute_body_size(&pages);
    let map = build_heading_map(&pages, body);
    let blocks = classify_page(&pages[0], &map);
    let list_items: Vec<&Block> = blocks
        .iter()
        .filter(|b| matches!(b, Block::ListItem { .. }))
        .collect();
    assert_eq!(list_items.len(), 4);
    if let Block::ListItem { level, text, .. } = list_items[0] {
        assert_eq!(*level, 0);
        assert_eq!(text, "first bullet");
    } else {
        panic!("unexpected block");
    }
    if let Block::ListItem { level, .. } = list_items[2] {
        assert_eq!(*level, 1);
    } else {
        panic!("unexpected block");
    }
}

#[test]
fn render_lists_are_tight() {
    let blocks = vec![
        Block::Paragraph {
            text: "Intro.".into(),
            bold: false,
            italic: false,
        },
        Block::ListItem {
            ordered: false,
            marker: "•".into(),
            level: 0,
            text: "a".into(),
            bold: false,
            italic: false,
        },
        Block::ListItem {
            ordered: false,
            marker: "•".into(),
            level: 0,
            text: "b".into(),
            bold: false,
            italic: false,
        },
        Block::Paragraph {
            text: "Outro.".into(),
            bold: false,
            italic: false,
        },
    ];
    let s = render_blocks(&blocks);
    assert_eq!(s, "Intro.\n\n- a\n- b\n\nOutro.");

    let s = render_blocks(&vec![
        Block::ListItem {
            ordered: true,
            marker: "138.".into(),
            level: 0,
            text: "footnote".into(),
            bold: false,
            italic: false,
        },
        Block::ListItem {
            ordered: true,
            marker: "139.".into(),
            level: 0,
            text: "next footnote".into(),
            bold: false,
            italic: false,
        },
    ]);
    assert_eq!(s, "138. footnote\n139. next footnote");
}

#[test]
fn markdown_layout_classify_emits_code_block() {
    let p = page(vec![
        line("Intro line.", 50.0, 50.0, 10.0, 10.0),
        mono_line("    let x = 1;", 80.0),
        mono_line("    let y = x + 2;", 92.0),
        line("After the code.", 50.0, 120.0, 10.0, 10.0),
    ]);
    let pages = vec![p];
    let body = compute_body_size(&pages);
    let map = build_heading_map(&pages, body);
    let blocks = classify_page(&pages[0], &map);
    assert_eq!(blocks.len(), 3);
    match &blocks[1] {
        Block::CodeBlock { lines } => {
            assert_eq!(lines.len(), 2);
            assert!(lines[0].contains("let x = 1;"));
            assert!(lines[1].contains("let y = x + 2;"));
        }
        other => panic!("expected code block, got {other:?}"),
    }
    let s = render_blocks(&blocks);
    assert!(s.contains("```\n    let x = 1;"));
    assert!(s.ends_with("After the code."));
}

#[test]
fn markdown_layout_classify_marks_paragraph_bold_when_all_lines_bold() {
    let mut a = line("Bold line one.", 50.0, 50.0, 10.0, 10.0);
    let mut b = line("bold continuation.", 50.0, 62.0, 10.0, 10.0);
    let bold_span = item("x", 0.0, 0.0, 0.0, 0.0, Some("Arial-Bold"));
    a.spans = Arc::new(vec![bold_span.clone()]);
    b.spans = Arc::new(vec![bold_span]);
    a.all_bold = true;
    b.all_bold = true;
    let p = page(vec![a, b]);
    let pages = vec![p];
    let body = compute_body_size(&pages);
    let map = build_heading_map(&pages, body);
    let blocks = classify_page(&pages[0], &map);
    assert_eq!(blocks.len(), 1);
    match &blocks[0] {
        Block::Paragraph { bold, italic, .. } => {
            assert!(*bold);
            assert!(!*italic);
        }
        other => panic!("expected paragraph, got {other:?}"),
    }
    let s = render_blocks(&blocks);
    assert!(s.starts_with("**") && s.ends_with("**"), "got: {s}");
}

#[test]
fn render_emphasis_combinations() {
    assert_eq!(wrap_emphasis("hi", false, false), "hi");
    assert_eq!(wrap_emphasis("hi", true, false), "**hi**");
    assert_eq!(wrap_emphasis("hi", false, true), "*hi*");
    assert_eq!(wrap_emphasis("hi", true, true), "***hi***");
}

#[test]
fn code_block_escapes_internal_fence() {
    let blocks = vec![Block::CodeBlock {
        lines: vec!["body containing ``` backticks".into()],
    }];
    let s = render_blocks(&blocks);
    assert!(s.starts_with("~~~\n"));
    assert!(s.ends_with("~~~"));
}

#[test]
fn markdown_layout_split_cells_splits_on_wide_gaps() {
    let l = line_with_spans(&[("A", 50.0), ("B", 150.0), ("C", 250.0)], 100.0, 10.0);
    let cells = split_cells(&l);
    assert_eq!(cells.len(), 3);
    assert_eq!(cells[0].text, "A");
    assert_eq!(cells[1].text, "B");
    assert_eq!(cells[2].text, "C");
}

#[test]
fn markdown_layout_recover_merged_cell_splits_off_by_one() {
    let row = vec![
        TableCell {
            start_x: fix(50.0) as i64,
            end_x: fix(160.0) as i64,
            text: "MEMORYBANK 5.00".into(),
            bold: false,
        },
        TableCell {
            start_x: fix(250.0) as i64,
            end_x: fix(280.0) as i64,
            text: "4.77".into(),
            bold: false,
        },
    ];
    let tracks: Vec<i64> = vec![50_000, 150_000, 250_000];
    let out = recover_merged_cell(row, &tracks).expect("recovery should succeed");
    assert_eq!(out.len(), 3);
    assert_eq!(out[0].text, "MEMORYBANK");
    assert_eq!(out[1].text, "5.00");
    assert_eq!(out[2].text, "4.77");
}

#[test]
fn markdown_layout_recover_merged_cell_splits_off_by_two() {
    let row = vec![
        TableCell {
            start_x: fix(50.0) as i64,
            end_x: fix(260.0) as i64,
            text: "MEMORYBANK 13.18 10.03".into(),
            bold: false,
        },
        TableCell {
            start_x: fix(350.0) as i64,
            end_x: fix(380.0) as i64,
            text: "7.61".into(),
            bold: false,
        },
    ];
    let tracks: Vec<i64> = vec![50_000, 150_000, 250_000, 350_000];
    let out = recover_merged_cell(row, &tracks).expect("recovery should succeed");
    assert_eq!(out.len(), 4);
    assert_eq!(out[0].text, "MEMORYBANK");
    assert_eq!(out[1].text, "13.18");
    assert_eq!(out[2].text, "10.03");
    assert_eq!(out[3].text, "7.61");
}

#[test]
fn markdown_layout_recover_merged_cell_bails_without_enough_whitespace() {
    let row = vec![TableCell {
        start_x: fix(50.0) as i64,
        end_x: fix(200.0) as i64,
        text: "ABC-DEF-GHI".into(),
        bold: false,
    }];
    let tracks: Vec<i64> = vec![50_000, 150_000];
    assert!(recover_merged_cell(row, &tracks).is_none());
}

#[test]
fn markdown_layout_split_cells_keeps_close_spans_together() {
    let l = line_with_spans(&[("Hello", 50.0), ("world", 80.0)], 100.0, 10.0);
    let cells = split_cells(&l);
    assert_eq!(cells.len(), 1);
    assert_eq!(cells[0].text, "Hello world");
}

#[test]
fn markdown_layout_detects_simple_borderless_table() {
    let lines = vec![
        line_with_spans(
            &[("Name", 50.0), ("Age", 150.0), ("City", 250.0)],
            100.0,
            10.0,
        ),
        line_with_spans(
            &[("Alice", 50.0), ("30", 150.0), ("NYC", 250.0)],
            115.0,
            10.0,
        ),
        line_with_spans(&[("Bob", 50.0), ("25", 150.0), ("LA", 250.0)], 130.0, 10.0),
    ];
    let p = page(lines);
    let pages = vec![p];
    let body = compute_body_size(&pages);
    let map = build_heading_map(&pages, body);
    let blocks = classify_page(&pages[0], &map);
    assert_eq!(blocks.len(), 1, "got: {blocks:?}");
    match &blocks[0] {
        Block::Table { header, rows } => {
            assert!(header.is_none());
            assert_eq!(rows.len(), 3);
            assert_eq!(rows[0][0], "Name");
            assert_eq!(rows[1][2], "NYC");
        }
        other => panic!("expected table, got {other:?}"),
    }
}

#[test]
fn markdown_layout_rejects_table_when_row_count_too_low() {
    let lines = vec![line_with_spans(
        &[("A", 50.0), ("B", 150.0), ("C", 250.0)],
        100.0,
        10.0,
    )];
    let runs = detect_tables(&lines);
    assert!(runs.is_empty());
}

#[test]
fn markdown_layout_rejects_table_when_column_count_too_low() {
    let lines = vec![
        line_with_spans(&[("A", 50.0), ("B", 200.0)], 100.0, 10.0),
        line_with_spans(&[("C", 50.0), ("D", 200.0)], 115.0, 10.0),
    ];
    let runs = detect_tables(&lines);
    assert!(runs.is_empty());
}

#[test]
fn renders_table_to_pipe_format() {
    let blocks = vec![Block::Table {
        header: Some(vec!["a".into(), "b".into()]),
        rows: vec![vec!["1".into(), "2".into()], vec!["3".into(), "4".into()]],
    }];
    let s = render_blocks(&blocks);
    assert_eq!(s, "| a | b |\n|---|---|\n| 1 | 2 |\n| 3 | 4 |");
}

#[test]
fn render_table_without_header_synthesizes_blank_header() {
    let blocks = vec![Block::Table {
        header: None,
        rows: vec![vec!["1".into(), "2".into()]],
    }];
    let s = render_blocks(&blocks);
    assert!(s.contains("|---|---|"));
    assert!(s.ends_with("| 1 | 2 |"));
}

#[test]
fn normalize_collapses_digits_and_case() {
    assert_eq!(normalize_for_repetition("Page 1 of 6"), "page # of #");
    assert_eq!(normalize_for_repetition("PAGE 12 OF 6"), "page # of #");
    assert_eq!(normalize_for_repetition("Confidential"), "confidential");
}

#[test]
fn detects_repeating_header_and_footer() {
    let pages = vec![
        header_footer_page(1, "Acme Confidential", "Page 1 of 3", "Body one."),
        header_footer_page(2, "Acme Confidential", "Page 2 of 3", "Body two."),
        header_footer_page(3, "Acme Confidential", "Page 3 of 3", "Body three."),
    ];
    let set = compute_header_footer_set(&pages);
    assert!(set.iter().any(|s| s == "acme confidential"));
    assert!(set.iter().any(|s| s == "page # of #"));
}

#[test]
fn skips_repetition_check_on_single_page() {
    let pages = vec![header_footer_page(1, "Solo", "footer", "body")];
    let set = compute_header_footer_set(&pages);
    assert!(set.is_empty());
}

#[test]
fn body_text_not_classified_as_header() {
    let mut pages = Vec::new();
    for n in 1..=3 {
        let mut p = header_footer_page(n, "unique header", "unique footer", "shared body text");
        p.projected_lines[0].text = format!("unique header {n}");
        p.projected_lines[2].text = format!("unique footer {n}");
        pages.push(p);
    }
    let set = compute_header_footer_set(&pages);
    assert!(!set.iter().any(|s| s == "shared body text"));
}

#[test]
fn markdown_layout_full_format_strips_header_footer() {
    let pages = vec![
        header_footer_page(1, "Acme Confidential", "Page 1 of 2", "First page body."),
        header_footer_page(2, "Acme Confidential", "Page 2 of 2", "Second page body."),
    ];
    let body = compute_body_size(&pages);
    let map = build_heading_map(&pages, body);
    let set = compute_header_footer_set(&pages);
    let blocks = classify_page_with_filters(&pages[0], &map, &set);
    let s = render_blocks(&blocks);
    assert!(!s.contains("Acme Confidential"), "got: {s}");
    assert!(!s.contains("Page 1 of 2"), "got: {s}");
    assert!(s.contains("First page body."));
}

#[test]
fn markdown_layout_escapes_pipe_inside_cell() {
    assert_eq!(escape_table_cell("a|b"), "a\\|b");
}

#[test]
fn dehyphenation_only_for_lowercase_followups() {
    let mut s = String::from("co-");
    append_paragraph_line(&mut s, "operate");
    assert_eq!(s, "cooperate");

    let mut s = String::from("Vitamin-");
    append_paragraph_line(&mut s, "A");
    assert_eq!(s, "Vitamin- A");
}

#[test]
fn render_line_inline_mid_line_bold() {
    let l = styled_line(
        &[
            ("regular text with", 50.0, Some("Arial")),
            ("bold word", 200.0, Some("Arial-Bold")),
        ],
        100.0,
        10.0,
    );
    let out = render_line_inline(&l);
    assert!(out.contains("regular text with"), "got: {out}");
    assert!(out.contains("**bold word**"), "got: {out}");
    assert!(
        !out.starts_with("**"),
        "mid-line shouldn't open with bold: {out}"
    );
}

#[test]
fn render_line_inline_uniform_bold_uses_shortcut() {
    let l = styled_line(
        &[
            ("first", 50.0, Some("Arial-Bold")),
            ("second", 100.0, Some("Arial-Bold")),
        ],
        100.0,
        10.0,
    );
    let out = render_line_inline(&l);
    assert!(out.starts_with("**") && out.ends_with("**"), "got: {out}");
    assert_eq!(out.matches("**").count(), 2, "got: {out}");
}

#[test]
fn render_line_inline_escapes_emphasis_chars() {
    let l = styled_line(&[("5*4=20", 50.0, Some("Arial"))], 100.0, 10.0);
    let out = render_line_inline(&l);
    assert_eq!(out, "5\\*4=20");
}

#[test]
fn render_line_inline_italic_then_bold() {
    let l = styled_line(
        &[
            ("italic", 50.0, Some("Arial-Italic")),
            ("plain", 100.0, Some("Arial")),
            ("bold", 150.0, Some("Arial-Bold")),
        ],
        100.0,
        10.0,
    );
    let out = render_line_inline(&l);
    assert!(out.contains("*italic*"), "got: {out}");
    assert!(out.contains("plain"), "got: {out}");
    assert!(out.contains("**bold**"), "got: {out}");
}

#[test]
fn render_line_inline_mono_span() {
    let l = styled_line(
        &[
            ("call", 50.0, Some("Arial")),
            ("foo()", 100.0, Some("Courier")),
            ("on it", 150.0, Some("Arial")),
        ],
        100.0,
        10.0,
    );
    let out = render_line_inline(&l);
    assert!(out.contains("`foo()`"), "got: {out}");
    assert!(out.contains("call"));
    assert!(out.contains("on it"));
}

#[test]
fn markdown_layout_classify_paragraph_with_mid_line_bold() {
    let a = styled_line(
        &[
            ("a sentence with a", 50.0, Some("Arial")),
            ("bold", 180.0, Some("Arial-Bold")),
            ("word in it.", 230.0, Some("Arial")),
        ],
        50.0,
        10.0,
    );
    let p = page(vec![a]);
    let pages = vec![p];
    let body = compute_body_size(&pages);
    let map = build_heading_map(&pages, body);
    let blocks = classify_page(&pages[0], &map);
    assert_eq!(blocks.len(), 1, "got: {blocks:?}");
    match &blocks[0] {
        Block::Paragraph { text, bold, italic } => {
            assert!(!*bold, "mixed-style paragraph shouldn't set block bold");
            assert!(!*italic);
            assert!(text.contains("**bold**"), "got: {text}");
        }
        other => panic!("expected paragraph, got {other:?}"),
    }
}

#[test]
fn markdown_layout_classify_list_item_strips_marker_under_emphasis() {
    let l = styled_line(
        &[
            ("•", 60.0, Some("Arial-Bold")),
            ("important item", 80.0, Some("Arial-Bold")),
        ],
        50.0,
        10.0,
    );
    let p = page(vec![l]);
    let pages = vec![p];
    let body = compute_body_size(&pages);
    let map = build_heading_map(&pages, body);
    let blocks = classify_page(&pages[0], &map);
    assert_eq!(blocks.len(), 1);
    match &blocks[0] {
        Block::ListItem { text, .. } => {
            assert_eq!(text, "**important item**");
        }
        other => panic!("expected list item, got {other:?}"),
    }
}

#[test]
fn hr_long_thin_horizontal_stroke_detected() {
    let p = page_with_graphics(vec![], vec![stroke(50.0, 200.0, 450.0, 200.5, 0.5)]);
    let ys = detect_horizontal_rules(&p);
    assert_eq!(ys, vec![200_250]);
}

#[test]
fn hr_short_stroke_rejected() {
    let p = page_with_graphics(vec![], vec![stroke(50.0, 200.0, 100.0, 200.0, 0.5)]);
    assert!(detect_horizontal_rules(&p).is_empty());
}

#[test]
fn hr_vertical_stroke_rejected() {
    let p = page_with_graphics(vec![], vec![stroke(50.0, 50.0, 50.0, 500.0, 0.5)]);
    assert!(detect_horizontal_rules(&p).is_empty());
}

#[test]
fn hr_thick_stroke_rejected() {
    let p = page_with_graphics(vec![], vec![stroke(50.0, 200.0, 450.0, 200.0, 4.0)]);
    assert!(detect_horizontal_rules(&p).is_empty());
}

#[test]
fn hr_underline_at_text_baseline_dropped() {
    let text_line = line(
        "Some underlined heading text on the page",
        50.0,
        100.0,
        10.0,
        10.0,
    );
    let bottom = (text_line.bbox.y + text_line.bbox.height) as f32 / 1000.0;
    let p = page_with_graphics(
        vec![text_line.clone()],
        vec![stroke(
            50.0,
            bottom + 1.0,
            50.0 + text_line.bbox.width as f32 / 1000.0,
            bottom + 1.0,
            0.5,
        )],
    );
    assert!(detect_horizontal_rules(&p).is_empty());
}

#[test]
fn markdown_layout_ruled_table_2x2_detected() {
    let mut graphics = Vec::new();
    for y in [100.0_f32, 140.0, 180.0] {
        graphics.push(stroke(50.0, y, 250.0, y, 0.5));
    }
    for x in [50.0_f32, 150.0, 250.0] {
        graphics.push(stroke(x, 100.0, x, 180.0, 0.5));
    }

    let lines = vec![
        line("a", 90.0, 115.0, 10.0, 10.0),
        line("b", 190.0, 115.0, 10.0, 10.0),
        line("c", 90.0, 155.0, 10.0, 10.0),
        line("d", 190.0, 155.0, 10.0, 10.0),
    ];

    let runs = detect_ruled_tables(&lines, &graphics, fix(612.0), fix(792.0));
    assert_eq!(runs.len(), 1, "expected 1 ruled table, got {runs:?}");
    match &runs[0].block {
        Block::Table { header, rows } => {
            assert!(header.is_none(), "no bold first row → no header");
            assert_eq!(rows.len(), 2);
            assert_eq!(rows[0], vec!["a", "b"]);
            assert_eq!(rows[1], vec!["c", "d"]);
        }
        other => panic!("expected Block::Table, got {other:?}"),
    }
}

#[test]
fn markdown_layout_ruled_table_rect_borders_detected() {
    let mut graphics = Vec::new();
    graphics.extend(rect_borders(50.0, 100.0, 100.0, 40.0));
    graphics.extend(rect_borders(150.0, 100.0, 100.0, 40.0));
    graphics.extend(rect_borders(50.0, 140.0, 100.0, 40.0));
    graphics.extend(rect_borders(150.0, 140.0, 100.0, 40.0));

    let lines = vec![
        line("a", 90.0, 115.0, 10.0, 10.0),
        line("b", 190.0, 115.0, 10.0, 10.0),
        line("c", 90.0, 155.0, 10.0, 10.0),
        line("d", 190.0, 155.0, 10.0, 10.0),
    ];
    let runs = detect_ruled_tables(&lines, &graphics, fix(612.0), fix(792.0));
    assert_eq!(runs.len(), 1);
}

#[test]
fn markdown_layout_ruled_table_page_border_rejected() {
    let graphics = rect_borders(10.0, 10.0, 590.0, 770.0);
    let lines = vec![line("body text", 50.0, 400.0, 10.0, 10.0)];
    let runs = detect_ruled_tables(&lines, &graphics, fix(612.0), fix(792.0));
    assert!(
        runs.is_empty(),
        "page-border rect should not become a table, got {runs:?}"
    );
}

#[test]
fn markdown_layout_ruled_table_mostly_empty_rejected() {
    let mut graphics = Vec::new();
    for y in [100.0_f32, 130.0, 160.0, 190.0] {
        graphics.push(stroke(50.0, y, 350.0, y, 0.5));
    }
    for x in [50.0_f32, 150.0, 250.0, 350.0] {
        graphics.push(stroke(x, 100.0, x, 190.0, 0.5));
    }
    let lines = vec![line("only", 90.0, 115.0, 10.0, 10.0)];
    let runs = detect_ruled_tables(&lines, &graphics, fix(612.0), fix(792.0));
    assert!(runs.is_empty());
}

#[test]
fn markdown_layout_ruled_table_first_row_bold_becomes_header() {
    let mut graphics = Vec::new();
    for y in [100.0_f32, 140.0, 180.0] {
        graphics.push(stroke(50.0, y, 250.0, y, 0.5));
    }
    for x in [50.0_f32, 150.0, 250.0] {
        graphics.push(stroke(x, 100.0, x, 180.0, 0.5));
    }
    let mut a = line("Name", 90.0, 115.0, 10.0, 10.0);
    let mut b = line("Score", 190.0, 115.0, 10.0, 10.0);
    a.all_bold = true;
    b.all_bold = true;
    let lines = vec![
        a,
        b,
        line("alice", 90.0, 155.0, 10.0, 10.0),
        line("99", 190.0, 155.0, 10.0, 10.0),
    ];
    let runs = detect_ruled_tables(&lines, &graphics, fix(612.0), fix(792.0));
    assert_eq!(runs.len(), 1);
    match &runs[0].block {
        Block::Table { header, rows } => {
            assert_eq!(
                header.as_deref(),
                Some(&["Name".into(), "Score".into()][..])
            );
            assert_eq!(rows.len(), 1);
            assert_eq!(rows[0], vec!["alice", "99"]);
        }
        other => panic!("expected Block::Table, got {other:?}"),
    }
}

#[test]
fn markdown_layout_merge_prefers_ruled_when_overlapping() {
    let ruled = vec![TableRun {
        start: 5,
        end: 10,
        block: Block::Table {
            header: None,
            rows: vec![vec!["ruled".into()]],
        },
    }];
    let borderless = vec![TableRun {
        start: 6,
        end: 11,
        block: Block::GridFallback {
            lines: vec!["bl".into()],
        },
    }];
    let merged = merge_table_runs(ruled, &borderless);
    assert_eq!(merged.len(), 1);
    assert!(matches!(&merged[0].block, Block::Table { .. }));
}

#[test]
fn markdown_layout_hr_emitted_between_lines_by_y_order() {
    let lines = vec![
        line("before the rule", 50.0, 100.0, 10.0, 10.0),
        line("after the rule", 50.0, 300.0, 10.0, 10.0),
    ];
    let p = page_with_graphics(lines, vec![stroke(50.0, 200.0, 450.0, 200.0, 0.5)]);
    let blocks = classify_page(&p, &vec![]);
    let has_hr = blocks
        .iter()
        .position(|b| matches!(b, Block::HorizontalRule));
    assert!(has_hr.is_some(), "expected an HR block, got {blocks:?}");
    let pos = has_hr.unwrap();
    assert!(pos > 0 && pos < blocks.len() - 1);
}
