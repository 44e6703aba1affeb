use std::sync::Arc;

use liteparse::config::{parse_target_pages, ImageMode};
use liteparse::font_db::load_shard;
use liteparse::font_sizes::{assign_levels, clamp_level};
use liteparse::heading_text::is_section_number_prefix;
use liteparse::headings::{compute_body_size, looks_like_bold_heading};
use liteparse::inferred::infer_tracks_from_raw_items;
use liteparse::label_text::is_label_like;
use liteparse::markdown::format_markdown;
use liteparse::page_classify::classify_page;
use liteparse::page_ruled::merge_table_runs;
use liteparse::region_classify::{classify_page_with_filters, stitch_regions};
use liteparse::region_tables::detect_tables;
use liteparse::repetition::normalize_for_repetition;
use liteparse::render::{escape_table_cell, render_blocks};
use liteparse::rows::TableRun;
use liteparse::span_text::escape_inline;
use liteparse::text::{collapse_whitespace, trim};
use liteparse::types::{
    Anchor, Block, GraphicPrimitive, ImageRef, OutlineTarget, ParsedPage, ProjectedLine, Rect, TextItem,
};

fn fix(v: f32) -> i32 {
    (v * 1000.0).round() as i32
}

fn item(text: &str, x: f32, y: f32, width: f32, size: f32) -> TextItem {
    TextItem {
        text: text.to_string(),
        x: fix(x),
        y: fix(y),
        width: fix(width),
        height: fix(size),
        font_size: Some(fix(size)),
        ..Default::default()
    }
}

fn line(text: &str, x: f32, y: f32, size: f32) -> ProjectedLine {
    let width = text.chars().count() as f32 * (size * 0.5);
    ProjectedLine {
        text: text.to_string(),
        bbox: Rect { x: fix(x), y: fix(y), width: fix(width), height: fix(size) },
        anchor: Anchor::Left,
        indent_x: fix(x),
        dominant_font_size: fix(size),
        font_size_is_estimated: false,
        dominant_font_name: Some("Arial".to_string()),
        all_bold: false,
        all_italic: false,
        all_mono: false,
        all_strike: false,
        spans: Arc::new(vec![item(text, x, y, width, size)]),
        region_path: Arc::new(vec![]),
        mcid: None,
    }
}

fn row(cells: &[(&str, f32)], y: f32) -> ProjectedLine {
    let spans: Vec<TextItem> = cells
        .iter()
        .map(|(t, x)| item(t, *x, y, t.chars().count() as f32 * 5.0, 10.0))
        .collect();
    let mut l = line("", cells[0].1, y, 10.0);
    l.text = cells.iter().map(|(t, _)| *t).collect::<Vec<_>>().join("   ");
    l.bbox.width = spans.iter().map(|s| s.x + s.width).max().unwrap() - l.bbox.x;
    l.spans = Arc::new(spans);
    l
}

fn page(lines: Vec<ProjectedLine>) -> ParsedPage {
    ParsedPage {
        page_number: 1,
        page_width: fix(612.0),
        page_height: fix(792.0),
        text: String::new(),
        text_items: vec![],
        projected_lines: lines,
        graphics: vec![],
        struct_nodes: vec![],
        image_refs: vec![],
    }
}

fn unescape(s: &str) -> String {
    let mut out = String::new();
    let mut open = false;
    for c in s.chars() {
        if !open && c == '\\' {
            open = true;
        } else {
            out.push(c);
            open = false;
        }
    }
    out
}

fn bare_bars(s: &str) -> usize {
    let mut open = false;
    let mut n = 0;
    for c in s.chars() {
        if !open && c == '\\' {
            open = true;
        } else {
            if c == '|' && !open {
                n += 1;
            }
            open = false;
        }
    }
    n
}

fn paragraph(t: &str) -> Block {
    Block::Paragraph { text: t.to_string(), bold: false, italic: false }
}

#[test]
fn escaped_cells_read_back_on_one_line() {
    let s = "a|b\\c\nd\\|";
    let e = escape_table_cell(s);
    assert_eq!(e, "a\\|b\\\\c d\\\\\\|");
    assert_eq!(unescape(&e), "a|b\\c d\\|");
    assert_eq!(bare_bars(&e), 0);
}

#[test]
fn escaped_text_reads_back() {
    let s = "*a* [b](c) \\ `d`";
    assert_ne!(escape_inline(s), s);
    assert_eq!(unescape(&escape_inline(s)), s);
}

#[test]
fn table_rows_have_one_bar_more_than_cells() {
    let cells = |v: &[&str]| v.iter().map(|s| s.to_string()).collect::<Vec<String>>();
    let out = render_blocks(&vec![Block::Table {
        header: Some(cells(&["h|1", "h2", "\\"])),
        rows: vec![cells(&["|", "||", "x"]), cells(&["", "\\|", "y"])],
    }]);
    let lines: Vec<&str> = out.lines().collect();
    assert_eq!(lines.len(), 4);
    for l in lines {
        assert_eq!(bare_bars(l), 4);
    }
}

#[test]
fn fences_are_not_in_the_code() {
    let code = |v: &[&str]| Block::CodeBlock { lines: v.iter().map(|s| s.to_string()).collect() };
    assert_eq!(render_blocks(&vec![code(&["a", "~~~"])]), "```\na\n~~~\n```");
    assert_eq!(render_blocks(&vec![code(&["```", "b"])]), "~~~\n```\nb\n~~~");
}

#[test]
fn pages_come_in_order_and_none_is_dropped() {
    let mut a = page(vec![]);
    a.text = "first text".to_string();
    let mut b = page(vec![line("Some words of the second page", 50.0, 100.0, 10.0)]);
    b.page_number = 2;
    let mut c = page(vec![]);
    c.page_number = 3;
    c.text = "third text\n".to_string();
    let one = format_markdown(&vec![a.clone()]);
    let all = format_markdown(&vec![a, b, c]);
    assert!(all.starts_with(&one));
    let x = all.find("first text").unwrap();
    let y = all.find("Some words of the second page").unwrap();
    let z = all.find("third text").unwrap();
    assert!(x < y && y < z);
}

#[test]
fn larger_sizes_have_smaller_levels() {
    let v = assign_levels(&vec![12_000, 24_000, 14_000, 18_000, 13_000, 30_000, 16_000]);
    assert_eq!(
        v,
        vec![(30_000, 1), (24_000, 2), (18_000, 3), (16_000, 4), (14_000, 5), (13_000, 6)]
    );
    assert_eq!(clamp_level(0), 1);
    assert_eq!(clamp_level(9), 6);
}

#[test]
fn selections_are_limited() {
    assert_eq!(parse_target_pages("1-100000").unwrap().len(), 100_000);
    assert!(parse_target_pages("1-100001").unwrap_err().contains("exceeds the limit"));
    assert!(parse_target_pages("1-4294967295").unwrap_err().contains("exceeds the limit"));
}

#[test]
fn stitching_leaves_other_blocks_alone() {
    let blocks = vec![
        paragraph("a broken sen-"),
        paragraph("tence goes on"),
        Block::HorizontalRule,
        paragraph("next"),
    ];
    let out = stitch_regions(blocks, &vec![0, 1, 3]);
    assert_eq!(out.len(), 3);
    assert!(matches!(&out[0], Block::Paragraph { text, .. } if text == "a broken sentence goes on"));
    assert!(matches!(out[1], Block::HorizontalRule));
    assert!(matches!(&out[2], Block::Paragraph { text, .. } if text == "next"));
}

#[test]
fn collapsing_is_final_and_keeps_characters() {
    let s = " \t a  b\n\nc ";
    let once = collapse_whitespace(s);
    assert_eq!(once, "a b c");
    assert_eq!(collapse_whitespace(&once), once);
    assert_eq!(trim(s), "a  b\n\nc");
}

#[test]
fn merged_tables_follow_each_other() {
    let run = |start: usize, end: usize| TableRun { start, end, block: Block::Blank };
    let merged = merge_table_runs(
        vec![run(6, 9), run(2, 4)],
        &vec![run(0, 2), run(3, 6), run(8, 10), run(9, 11), run(10, 12)],
    );
    let got: Vec<(usize, usize)> = merged.iter().map(|r| (r.start, r.end)).collect();
    assert_eq!(got, vec![(0, 2), (2, 4), (6, 9), (9, 11)]);
}

#[test]
fn tables_have_rows_of_one_length() {
    let lines = vec![
        row(&[("Name", 50.0), ("Count", 200.0), ("Price", 350.0)], 100.0),
        row(&[("apple", 50.0), ("1", 200.0), ("2.00", 350.0)], 114.0),
        row(&[("pear", 50.0), ("3", 200.0)], 128.0),
        row(&[("plum", 50.0), ("4", 200.0), ("5.00", 350.0)], 142.0),
    ];
    let runs = detect_tables(&lines);
    assert_eq!(runs.len(), 1);
    match &runs[0].block {
        Block::Table { header, rows } => {
            if let Some(h) = header {
                assert_eq!(h.len(), 3);
            }
            assert!(rows.iter().all(|r| r.len() == 3));
        }
        _ => panic!("expected a table"),
    }
}

#[test]
fn rules_and_figures_are_shown_once_in_order() {
    let mut p = page(vec![
        line("Text above everything else here", 50.0, 100.0, 10.0),
        line("Text in the middle of the page", 50.0, 300.0, 10.0),
    ]);
    p.graphics = vec![GraphicPrimitive::Stroke {
        x1: fix(50.0),
        y1: fix(200.0),
        x2: fix(560.0),
        y2: fix(200.0),
        color: None,
        width: fix(0.5),
    }];
    p.image_refs = vec![ImageRef {
        id: "p1_0".to_string(),
        bbox: Rect { x: fix(50.0), y: fix(400.0), width: fix(100.0), height: fix(100.0) },
        obj_index: 0,
    }];
    let kinds = |v: &Vec<Block>| -> Vec<&'static str> {
        v.iter()
            .map(|b| match b {
                Block::HorizontalRule => "rule",
                Block::Figure { .. } => "figure",
                _ => "text",
            })
            .collect()
    };
    let whole = classify_page(&p, &vec![]);
    assert_eq!(kinds(&whole), vec!["text", "rule", "text"]);
    let by_regions = classify_page_with_filters(
        &p,
        &vec![],
        &vec![],
        &vec![],
        liteparse::config::ImageMode::Placeholder,
        &vec![],
    );
    assert_eq!(kinds(&by_regions), vec!["text", "rule", "text", "figure"]);
}

#[test]
fn captions_and_attributions_are_no_headings() {
    for t in ["Figure 7", "Table 3. Results", "Source: own data", "Note: rounded"] {
        let mut l = line(t, 50.0, 100.0, 20.0);
        l.all_bold = true;
        let mut span = item(t, 50.0, 100.0, 80.0, 20.0);
        span.bold = true;
        l.spans = Arc::new(vec![span]);
        assert!(!looks_like_bold_heading(&l, None, None));
        let blocks = classify_page_with_filters(
            &page(vec![l]),
            &vec![(20_000, 1)],
            &vec![],
            &vec![],
            liteparse::config::ImageMode::Placeholder,
            &vec![],
        );
        assert!(blocks.iter().all(|b| !matches!(b, Block::Heading { .. })));
    }
}

#[test]
fn shards_give_back_the_later_of_two_records() {
    let mut bytes: Vec<u8> = vec![];
    for (key, code) in [([7u8; 16], vec![0x41u8]), ([8; 16], vec![0xCD, 0x26, 0x3A]), ([7; 16], vec![0xCC, 0xE9])] {
        bytes.extend([0x92, 0xC4, 16]);
        bytes.extend(key);
        bytes.extend(code);
    }
    let found = load_shard(&bytes);
    assert_eq!(found.len(), 2);
    assert_eq!(found[&u128::from_be_bytes([7; 16])], 0xE9);
    assert_eq!(found[&u128::from_be_bytes([8; 16])], 0x263A);
}

#[test]
fn words_are_mended_before_ascii_letters_only() {
    let joined = |a: &str, b: &str| {
        let out = stitch_regions(vec![paragraph(a), paragraph(b)], &vec![0, 1]);
        out.iter()
            .map(|b| match b {
                Block::Paragraph { text, .. } => text.clone(),
                other => panic!("expected a paragraph, got {other:?}"),
            })
            .collect::<Vec<_>>()
    };
    assert_eq!(joined("caf-", "eine"), vec!["cafeine"]);
    assert_eq!(joined("caf-", "\u{E9}ine"), vec!["caf- \u{E9}ine"]);
    assert_eq!(joined("the end.", "then"), vec!["the end.", "then"]);
}

#[test]
fn entries_for_other_pages_are_ignored() {
    let p = page(vec![
        line("Introduction", 50.0, 100.0, 10.0),
        line("Body text that goes on for a while and says something.", 50.0, 140.0, 10.0),
    ]);
    let entry = |page_index: usize| OutlineTarget {
        level: 2,
        title: "Introduction".to_string(),
        page_index,
        y_pdf: None,
    };
    let read = |outline: &Vec<OutlineTarget>| {
        let none: Vec<String> = vec![];
        let blocks =
            classify_page_with_filters(&p, &vec![], &none, outline, ImageMode::Placeholder, &vec![]);
        render_blocks(&blocks)
    };
    assert!(read(&vec![entry(0)]).starts_with("## Introduction"));
    assert_eq!(read(&vec![entry(1)]), read(&vec![]));
    assert!(!read(&vec![entry(1)]).contains('#'));
    assert_eq!(read(&vec![entry(3), entry(0)]), read(&vec![entry(0)]));
}

#[test]
fn section_numbers_have_many_forms() {
    for s in ["1", "1.5", "1.5.2", "A.2", "IV", "Sec. 2", "Ch. 3", "Chapter 3", "Chap. 4", "\u{A7}4"] {
        assert!(is_section_number_prefix(s), "{s}");
    }
    for s in ["", "A", "1A", "Chapter three", "iv", "MMXXVIII", "1..2"] {
        assert!(!is_section_number_prefix(s), "{s}");
    }
}

#[test]
fn selections_do_not_depend_on_their_order_or_form() {
    let v = parse_target_pages("7, 1-3,2").unwrap();
    assert_eq!(v, vec![1, 2, 3, 7]);
    assert_eq!(parse_target_pages("2,7, 1-3").unwrap(), v);
    let written = v.iter().map(|n| n.to_string()).collect::<Vec<_>>().join(",");
    assert_eq!(parse_target_pages(&written).unwrap(), v);
}

#[test]
fn normalizing_is_final_and_masks_numbers() {
    let n = normalize_for_repetition("  Page 12\tof  600 ");
    assert_eq!(n, "page # of #");
    assert_eq!(normalize_for_repetition(&n), n);
    assert_eq!(normalize_for_repetition("Page 7 of 6"), n);
    let m = normalize_for_repetition(" \u{c9}TUDE  12\u{3a3} 3");
    assert_eq!(m, "\u{e9}tude #\u{3c3} #");
    assert_eq!(normalize_for_repetition(&m), m);
    assert_eq!(normalize_for_repetition("\u{c9}tude 7\u{3a3} 456"), m);
}

#[test]
fn labels_are_no_questions() {
    for t in ["Item.", "Note:", "Total cost", " Name "] {
        assert!(is_label_like(t), "{}", t);
    }
    for t in ["Why?", "Stop!", "Done. Next", "one two three four five", "1.", ""] {
        assert!(!is_label_like(t), "{}", t);
    }
}

#[test]
fn columns_are_chains_of_near_edges() {
    let lines = vec![
        row(&[("a", 50.0), ("b", 200.0)], 100.0),
        row(&[("a", 55.0), ("b", 206.0)], 112.0),
        row(&[("a", 60.0), ("b", 213.0)], 124.0),
    ];
    assert_eq!(infer_tracks_from_raw_items(&lines, 0), vec![55_000, 203_000, 213_000]);
}

#[test]
fn half_the_weight_makes_a_size_dominant() {
    let of = |large: &str| {
        compute_body_size(&vec![page(vec![
            line("small1234", 50.0, 50.0, 8.0),
            line(large, 50.0, 80.0, 10.0),
        ])])
    };
    assert_eq!(of("five5"), 10_000);
    assert_eq!(of("four"), 8_000);
}
