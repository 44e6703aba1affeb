use std::sync::Arc;

use liteparse::cells::{recover_merged_cell, split_cells, TableCell};
use liteparse::grid::find_bucket;
use liteparse::column_tables::try_detect_table;
use liteparse::join_tables::{merge_consecutive_table_runs, try_merge_pair};
use liteparse::label_text::is_page_ref;
use liteparse::region_ruled::{detect_ruled_tables, merge_table_runs};
use liteparse::region_tables::detect_tables;
use liteparse::render::escape_table_cell;
use liteparse::rows::TableRun;
use liteparse::types::{
    Anchor, Block, GraphicPrimitive, ProjectedLine, Rect, TextItem,
};

fn fix(v: f32) -> i32 {
    (v * 1000.0).round() as i32
}

/// A run of text in a font, with the style that the name of the font tells.
fn item(text: &str, x: f32, y: f32, width: f32, size: f32, font: Option<&str>) -> TextItem {
    let name = font.unwrap_or("").to_ascii_lowercase();
    TextItem {
        text: text.to_string(),
        x: fix(x),
        y: fix(y),
        width: fix(width),
        height: fix(size),
        font_size: Some(fix(size)),
        font_name: font.map(|f| f.to_string()),
        bold: name.contains("bold"),
        italic: name.contains("italic"),
        mono: name.contains("courier"),
        ..Default::default()
    }
}

fn line(text: &str, x: f32, y: f32, h: f32, size: f32) -> ProjectedLine {
    ProjectedLine {
        text: text.to_string(),
        bbox: Rect {
            x: fix(x),
            y: fix(y),
            width: fix(text.chars().count() as f32 * (size * 0.5)),
            height: fix(h),
        },
        anchor: Anchor::Left,
        indent_x: fix(x),
        dominant_font_size: fix(size),
        font_size_is_estimated: false,
        dominant_font_name: Some("Arial".to_string()),
        all_bold: false,
        all_italic: false,
        all_mono: false,
        all_strike: false,
        spans: Arc::new(vec![TextItem::default()]),
        region_path: Arc::new(vec![]),
        mcid: None,
    }
}

fn line_of_items(text: String, items: Vec<TextItem>, y: f32, size: f32) -> ProjectedLine {
    let min_x = items.iter().map(|s| s.x).min().unwrap();
    let max_x = items.iter().map(|s| s.x + s.width).max().unwrap();
    let mut l = line("", 0.0, y, size, size);
    l.text = text;
    l.bbox.x = min_x;
    l.bbox.width = (max_x - min_x).max(0);
    l.indent_x = min_x;
    l.spans = Arc::new(items);
    l
}

/// A line whose runs are at the given places.
fn line_with_spans(cells: &[(&str, f32)], y: f32, size: f32) -> ProjectedLine {
    let items: Vec<TextItem> = cells
        .iter()
        .map(|(t, x)| item(t, *x, y, t.chars().count() as f32 * size * 0.5, size, Some("Arial")))
        .collect();
    let text = cells.iter().map(|(t, _)| *t).collect::<Vec<_>>().join("   ");
    line_of_items(text, items, y, size)
}

fn stroke(x1: f32, y1: f32, x2: f32, y2: f32, width: f32) -> GraphicPrimitive {
    GraphicPrimitive::Stroke {
        x1: fix(x1),
        y1: fix(y1),
        x2: fix(x2),
        y2: fix(y2),
        width: fix(width),
        color: None,
    }
}

/// The four borders of a rectangle as strokes.
fn rect_borders(x: f32, y: f32, w: f32, h: f32) -> Vec<GraphicPrimitive> {
    vec![
        stroke(x, y, x + w, y, 0.5),
        stroke(x, y + h, x + w, y + h, 0.5),
        stroke(x, y, x, y + h, 0.5),
        stroke(x + w, y, x + w, y + h, 0.5),
    ]
}

fn three_col_line(label: &str, y: f32) -> ProjectedLine {
    line_with_spans(&[(label, 50.0), (label, 150.0), (label, 250.0)], y, 10.0)
}

fn four_col_line(label: &str, y: f32) -> ProjectedLine {
    line_with_spans(
        &[(label, 50.0), (label, 150.0), (label, 250.0), (label, 350.0)],
        y,
        10.0,
    )
}

fn three_col_subset_line(label: &str, y: f32) -> ProjectedLine {
    line_with_spans(&[(label, 150.0), (label, 250.0), (label, 350.0)], y, 10.0)
}

#[test]
fn tables_split_cells_splits_on_wide_gaps() {
    let l = line_with_spans(&[("A", 50.0), ("B", 150.0), ("C", 250.0)], 100.0, 10.0);
    let cells = split_cells(&l);
    assert_eq!(cells.len(), 3);
    assert_eq!(cells[0].text, "A");
    assert_eq!(cells[1].text, "B");
    assert_eq!(cells[2].text, "C");
}

#[test]
fn tables_recover_merged_cell_splits_off_by_one() {
    let row = vec![
        TableCell {
            start_x: fix(50.0) as i64,
            end_x: fix(160.0) as i64,
            text: "MEMORYBANK 5.00".into(),
            bold: false,
        },
        TableCell {
            start_x: fix(250.0) as i64,
            end_x: fix(280.0) as i64,
            text: "4.77".into(),
            bold: false,
        },
    ];
    let tracks: Vec<i64> = vec![50_000, 150_000, 250_000];
    let out = recover_merged_cell(row, &tracks).expect("recovery should succeed");
    assert_eq!(out.len(), 3);
    assert_eq!(out[0].text, "MEMORYBANK");
    assert_eq!(out[1].text, "5.00");
    assert_eq!(out[2].text, "4.77");
}

#[test]
fn tables_recover_merged_cell_splits_off_by_two() {
    let row = vec![
        TableCell {
            start_x: fix(50.0) as i64,
            end_x: fix(260.0) as i64,
            text: "MEMORYBANK 13.18 10.03".into(),
            bold: false,
        },
        TableCell {
            start_x: fix(350.0) as i64,
            end_x: fix(380.0) as i64,
            text: "7.61".into(),
            bold: false,
        },
    ];
    let tracks: Vec<i64> = vec![50_000, 150_000, 250_000, 350_000];
    let out = recover_merged_cell(row, &tracks).expect("recovery should succeed");
    assert_eq!(out.len(), 4);
    assert_eq!(out[0].text, "MEMORYBANK");
    assert_eq!(out[1].text, "13.18");
    assert_eq!(out[2].text, "10.03");
    assert_eq!(out[3].text, "7.61");
}

#[test]
fn tables_recover_merged_cell_bails_without_enough_whitespace() {
    let row = vec![TableCell {
        start_x: fix(50.0) as i64,
        end_x: fix(200.0) as i64,
        text: "ABC-DEF-GHI".into(),
        bold: false,
    }];
    let tracks: Vec<i64> = vec![50_000, 150_000];
    assert!(recover_merged_cell(row, &tracks).is_none());
}

#[test]
fn tables_split_cells_keeps_close_spans_together() {
    let l = line_with_spans(&[("Hello", 50.0), ("world", 80.0)], 100.0, 10.0);
    let cells = split_cells(&l);
    assert_eq!(cells.len(), 1);
    assert_eq!(cells[0].text, "Hello world");
}

#[test]
fn absorbs_partial_header_line_above_body() {
    let lines = vec![
        line_with_spans(&[("Name", 50.0), ("Scores", 150.0)], 100.0, 10.0),
        line_with_spans(&[("A", 50.0), ("1", 150.0), ("2", 250.0)], 115.0, 10.0),
        line_with_spans(&[("B", 50.0), ("3", 150.0), ("4", 250.0)], 130.0, 10.0),
        line_with_spans(&[("C", 50.0), ("5", 150.0), ("6", 250.0)], 145.0, 10.0),
    ];
    let runs = detect_tables(&lines);
    assert_eq!(runs.len(), 1);
    let run = &runs[0];
    assert_eq!(run.start, 0, "header line should be absorbed into the run");
    assert_eq!(run.end, 4);
    match &run.block {
        Block::Table { header, rows } => {
            let header = header.as_ref().expect("header should be present");
            assert_eq!(
                header,
                &vec!["Name".to_string(), "Scores".to_string(), String::new()]
            );
            assert_eq!(rows.len(), 3);
        }
        other => panic!("expected Block::Table, got {other:?}"),
    }
}

#[test]
fn does_not_absorb_single_cell_title_above_body() {
    let lines = vec![
        line_with_spans(&[("Results", 50.0)], 100.0, 10.0),
        line_with_spans(&[("A", 50.0), ("1", 150.0), ("2", 250.0)], 115.0, 10.0),
        line_with_spans(&[("B", 50.0), ("3", 150.0), ("4", 250.0)], 130.0, 10.0),
        line_with_spans(&[("C", 50.0), ("5", 150.0), ("6", 250.0)], 145.0, 10.0),
    ];
    let runs = detect_tables(&lines);
    assert_eq!(runs.len(), 1);
    assert_eq!(
        runs[0].start, 1,
        "single-cell title must stay out of the run"
    );
}

#[test]
fn tables_rejects_table_when_row_count_too_low() {
    let lines = vec![line_with_spans(
        &[("A", 50.0), ("B", 150.0), ("C", 250.0)],
        100.0,
        10.0,
    )];
    let runs = detect_tables(&lines);
    assert!(runs.is_empty());
}

#[test]
fn tables_rejects_table_when_column_count_too_low() {
    let lines = vec![
        line_with_spans(&[("A", 50.0), ("B", 200.0)], 100.0, 10.0),
        line_with_spans(&[("C", 50.0), ("D", 200.0)], 115.0, 10.0),
    ];
    let runs = detect_tables(&lines);
    assert!(runs.is_empty());
}

#[test]
fn tables_escapes_pipe_inside_cell() {
    assert_eq!(escape_table_cell("a|b"), "a\\|b");
}

#[test]
fn tables_ruled_table_2x2_detected() {
    let mut graphics = Vec::new();
    for y in [100.0_f32, 140.0, 180.0] {
        graphics.push(stroke(50.0, y, 250.0, y, 0.5));
    }
    for x in [50.0_f32, 150.0, 250.0] {
        graphics.push(stroke(x, 100.0, x, 180.0, 0.5));
    }

    let lines = vec![
        line("a", 90.0, 115.0, 10.0, 10.0),
        line("b", 190.0, 115.0, 10.0, 10.0),
        line("c", 90.0, 155.0, 10.0, 10.0),
        line("d", 190.0, 155.0, 10.0, 10.0),
    ];

    let runs = detect_ruled_tables(&lines, &graphics, fix(612.0), fix(792.0));
    assert_eq!(runs.len(), 1, "expected 1 ruled table, got {runs:?}");
    match &runs[0].block {
        Block::Table { header, rows } => {
            assert!(header.is_none(), "no bold first row → no header");
            assert_eq!(rows.len(), 2);
            assert_eq!(rows[0], vec!["a", "b"]);
            assert_eq!(rows[1], vec!["c", "d"]);
        }
        other => panic!("expected Block::Table, got {other:?}"),
    }
}

#[test]
fn tables_ruled_table_rect_borders_detected() {
    let mut graphics = Vec::new();
    graphics.extend(rect_borders(50.0, 100.0, 100.0, 40.0));
    graphics.extend(rect_borders(150.0, 100.0, 100.0, 40.0));
    graphics.extend(rect_borders(50.0, 140.0, 100.0, 40.0));
    graphics.extend(rect_borders(150.0, 140.0, 100.0, 40.0));

    let lines = vec![
        line("a", 90.0, 115.0, 10.0, 10.0),
        line("b", 190.0, 115.0, 10.0, 10.0),
        line("c", 90.0, 155.0, 10.0, 10.0),
        line("d", 190.0, 155.0, 10.0, 10.0),
    ];
    let runs = detect_ruled_tables(&lines, &graphics, fix(612.0), fix(792.0));
    assert_eq!(runs.len(), 1);
}

#[test]
fn tables_ruled_table_page_border_rejected() {
    let graphics = rect_borders(10.0, 10.0, 590.0, 770.0);
    let lines = vec![line("body text", 50.0, 400.0, 10.0, 10.0)];
    let runs = detect_ruled_tables(&lines, &graphics, fix(612.0), fix(792.0));
    assert!(
        runs.is_empty(),
        "page-border rect should not become a table, got {runs:?}"
    );
}

#[test]
fn tables_ruled_table_mostly_empty_rejected() {
    let mut graphics = Vec::new();
    for y in [100.0_f32, 130.0, 160.0, 190.0] {
        graphics.push(stroke(50.0, y, 350.0, y, 0.5));
    }
    for x in [50.0_f32, 150.0, 250.0, 350.0] {
        graphics.push(stroke(x, 100.0, x, 190.0, 0.5));
    }
    let lines = vec![line("only", 90.0, 115.0, 10.0, 10.0)];
    let runs = detect_ruled_tables(&lines, &graphics, fix(612.0), fix(792.0));
    assert!(runs.is_empty());
}

#[test]
fn tables_ruled_table_first_row_bold_becomes_header() {
    let mut graphics = Vec::new();
    for y in [100.0_f32, 140.0, 180.0] {
        graphics.push(stroke(50.0, y, 250.0, y, 0.5));
    }
    for x in [50.0_f32, 150.0, 250.0] {
        graphics.push(stroke(x, 100.0, x, 180.0, 0.5));
    }
    let mut a = line("Name", 90.0, 115.0, 10.0, 10.0);
    let mut b = line("Score", 190.0, 115.0, 10.0, 10.0);
    a.all_bold = true;
    b.all_bold = true;
    let lines = vec![
        a,
        b,
        line("alice", 90.0, 155.0, 10.0, 10.0),
        line("99", 190.0, 155.0, 10.0, 10.0),
    ];
    let runs = detect_ruled_tables(&lines, &graphics, fix(612.0), fix(792.0));
    assert_eq!(runs.len(), 1);
    match &runs[0].block {
        Block::Table { header, rows } => {
            assert_eq!(
                header.as_deref(),
                Some(&["Name".into(), "Score".into()][..])
            );
            assert_eq!(rows.len(), 1);
            assert_eq!(rows[0], vec!["alice", "99"]);
        }
        other => panic!("expected Block::Table, got {other:?}"),
    }
}

#[test]
fn tables_merge_prefers_ruled_when_overlapping() {
    let ruled = vec![TableRun {
        start: 5,
        end: 10,
        block: Block::Table {
            header: None,
            rows: vec![vec!["ruled".into()]],
        },
    }];
    let borderless = vec![TableRun {
        start: 6,
        end: 11,
        block: Block::GridFallback {
            lines: vec!["bl".into()],
        },
    }];
    let merged = merge_table_runs(&ruled, &borderless);
    assert_eq!(merged.len(), 1);
    assert!(matches!(&merged[0].block, Block::Table { .. }));
}

#[test]
fn merge_same_column_count_concatenates_rows() {
    let lines = vec![
        three_col_line("h1", 10.0),
        three_col_line("h2", 25.0),
        three_col_line("b1", 40.0),
        three_col_line("b2", 55.0),
        three_col_line("b3", 70.0),
    ];
    let a = TableRun {
        start: 0,
        end: 2,
        block: Block::Table {
            header: Some(vec!["A".into(), "B".into(), "C".into()]),
            rows: vec![vec!["1".into(), "2".into(), "3".into()]],
        },
    };
    let b = TableRun {
        start: 2,
        end: 5,
        block: Block::Table {
            header: None,
            rows: vec![
                vec!["x".into(), "y".into(), "z".into()],
                vec!["p".into(), "q".into(), "r".into()],
                vec!["m".into(), "n".into(), "o".into()],
            ],
        },
    };
    let merged = merge_consecutive_table_runs(&vec![a, b], &lines);
    assert_eq!(merged.len(), 1, "expected single merged run");
    match &merged[0].block {
        Block::Table { header, rows } => {
            assert_eq!(header.as_deref().map(|h| h.len()), Some(3));
            assert_eq!(rows.len(), 4);
            assert_eq!(rows[0], vec!["1", "2", "3"]);
            assert_eq!(rows[3], vec!["m", "n", "o"]);
        }
        other => panic!("expected Block::Table, got {other:?}"),
    }
}

#[test]
fn merge_subset_columns_folds_into_header() {
    let lines = vec![
        three_col_subset_line("2011", 10.0),
        three_col_subset_line("(pct)", 25.0),
        four_col_line("body", 40.0),
        four_col_line("body", 55.0),
        four_col_line("body", 70.0),
    ];
    let a = TableRun {
        start: 0,
        end: 2,
        block: Block::Table {
            header: None,
            rows: vec![
                vec!["2011".into(), "2010".into(), "Avg".into()],
                vec!["(pct)".into(), "(pct)".into(), "(pct)".into()],
            ],
        },
    };
    let b = TableRun {
        start: 2,
        end: 5,
        block: Block::Table {
            header: None,
            rows: vec![
                vec!["Q3".into(), "10".into(), "20".into(), "30".into()],
                vec!["Q4".into(), "11".into(), "21".into(), "31".into()],
                vec!["YR".into(), "12".into(), "22".into(), "32".into()],
            ],
        },
    };
    let merged = merge_consecutive_table_runs(&vec![a, b], &lines);
    assert_eq!(merged.len(), 1);
    match &merged[0].block {
        Block::Table { header, rows } => {
            let h = header.as_deref().expect("expected header");
            assert_eq!(h.len(), 4);
            assert_eq!(h[0], "");
            assert_eq!(h[1], "2011 (pct)");
            assert_eq!(h[2], "2010 (pct)");
            assert_eq!(h[3], "Avg (pct)");
            assert_eq!(rows.len(), 3);
            assert_eq!(rows[0], vec!["Q3", "10", "20", "30"]);
        }
        other => panic!("expected Block::Table, got {other:?}"),
    }
}

#[test]
fn merge_skips_distant_runs() {
    let lines = vec![
        three_col_line("h1", 10.0),
        three_col_line("h2", 25.0),
        three_col_line("b1", 200.0),
        three_col_line("b2", 215.0),
    ];
    let a = TableRun {
        start: 0,
        end: 2,
        block: Block::Table {
            header: Some(vec!["A".into(), "B".into(), "C".into()]),
            rows: vec![vec!["1".into(), "2".into(), "3".into()]],
        },
    };
    let b = TableRun {
        start: 2,
        end: 4,
        block: Block::Table {
            header: None,
            rows: vec![
                vec!["x".into(), "y".into(), "z".into()],
                vec!["p".into(), "q".into(), "r".into()],
            ],
        },
    };
    let merged = merge_consecutive_table_runs(&vec![a, b], &lines);
    assert_eq!(merged.len(), 2, "distant runs should not merge");
}

#[test]
fn merge_skips_large_prior_run() {
    let lines: Vec<ProjectedLine> = (0..10)
        .map(|i| three_col_subset_line("x", 10.0 + i as f32 * 15.0))
        .chain((0..3).map(|i| four_col_line("y", 160.0 + i as f32 * 15.0)))
        .collect();
    let a = TableRun {
        start: 0,
        end: 10,
        block: Block::Table {
            header: None,
            rows: (0..10)
                .map(|_| vec!["a".into(), "b".into(), "c".into()])
                .collect(),
        },
    };
    let b = TableRun {
        start: 10,
        end: 13,
        block: Block::Table {
            header: None,
            rows: (0..3)
                .map(|_| vec!["1".into(), "2".into(), "3".into(), "4".into()])
                .collect(),
        },
    };
    let merged = merge_consecutive_table_runs(&vec![a, b], &lines);
    assert_eq!(merged.len(), 2, "large prior run should not be absorbed");
}

#[test]
fn merge_skips_two_col_diff() {
    let lines = vec![
        three_col_subset_line("x", 10.0),
        three_col_subset_line("y", 25.0),
        line_with_spans(
            &[
                ("a", 50.0),
                ("b", 150.0),
                ("c", 250.0),
                ("d", 350.0),
                ("e", 450.0),
            ],
            40.0,
            10.0,
        ),
        line_with_spans(
            &[
                ("a", 50.0),
                ("b", 150.0),
                ("c", 250.0),
                ("d", 350.0),
                ("e", 450.0),
            ],
            55.0,
            10.0,
        ),
    ];
    let a = TableRun {
        start: 0,
        end: 2,
        block: Block::Table {
            header: None,
            rows: vec![
                vec!["x".into(), "y".into(), "z".into()],
                vec!["x".into(), "y".into(), "z".into()],
            ],
        },
    };
    let b = TableRun {
        start: 2,
        end: 4,
        block: Block::Table {
            header: None,
            rows: vec![
                vec!["1".into(), "2".into(), "3".into(), "4".into(), "5".into()],
                vec!["1".into(), "2".into(), "3".into(), "4".into(), "5".into()],
            ],
        },
    };
    let merged = merge_consecutive_table_runs(&vec![a, b], &lines);
    assert_eq!(merged.len(), 2, "2-col difference should not merge");
}

#[test]
fn merge_grid_fallback_left_alone() {
    let lines = vec![
        three_col_line("a", 10.0),
        three_col_line("b", 25.0),
        three_col_line("c", 40.0),
    ];
    let a = TableRun {
        start: 0,
        end: 2,
        block: Block::Table {
            header: None,
            rows: vec![
                vec!["a".into(), "b".into(), "c".into()],
                vec!["a".into(), "b".into(), "c".into()],
            ],
        },
    };
    let b = TableRun {
        start: 2,
        end: 3,
        block: Block::GridFallback {
            lines: vec!["fallback".into()],
        },
    };
    let merged = merge_consecutive_table_runs(&vec![a, b], &lines);
    assert_eq!(merged.len(), 2, "grid fallback should not be merged");
}

#[test]
fn merge_rejects_long_prose_interstitial() {
    let lines = vec![
        three_col_line("h", 10.0),
        three_col_line("h", 25.0),
        line_with_spans(
            &[
                ("This", 50.0),
                ("is", 150.0),
                ("real", 250.0),
                ("content", 350.0),
            ],
            40.0,
            10.0,
        ),
        three_col_line("b", 55.0),
        three_col_line("b", 70.0),
    ];
    let a = TableRun {
        start: 0,
        end: 2,
        block: Block::Table {
            header: Some(vec!["A".into(), "B".into(), "C".into()]),
            rows: vec![vec!["1".into(), "2".into(), "3".into()]],
        },
    };
    let b = TableRun {
        start: 3,
        end: 5,
        block: Block::Table {
            header: None,
            rows: vec![
                vec!["x".into(), "y".into(), "z".into()],
                vec!["p".into(), "q".into(), "r".into()],
            ],
        },
    };
    let merged = merge_consecutive_table_runs(&vec![a, b], &lines);
    assert_eq!(merged.len(), 2, "multi-cell interstitial should not merge");
}

#[test]
fn merge_absorbs_single_cell_interstitial_as_body_row() {
    let lines = vec![
        three_col_subset_line("h", 10.0),
        three_col_subset_line("h", 25.0),
        line_with_spans(&[("Topsoil", 50.0)], 40.0, 10.0),
        four_col_line("body", 55.0),
        four_col_line("body", 70.0),
        four_col_line("body", 85.0),
    ];
    let a = TableRun {
        start: 0,
        end: 2,
        block: Block::Table {
            header: None,
            rows: vec![
                vec!["2011".into(), "2010".into(), "Avg".into()],
                vec!["(pct)".into(), "(pct)".into(), "(pct)".into()],
            ],
        },
    };
    let b = TableRun {
        start: 3,
        end: 6,
        block: Block::Table {
            header: None,
            rows: vec![
                vec!["Q3".into(), "10".into(), "20".into(), "30".into()],
                vec!["Q4".into(), "11".into(), "21".into(), "31".into()],
                vec!["YR".into(), "12".into(), "22".into(), "32".into()],
            ],
        },
    };
    let merged = merge_consecutive_table_runs(&vec![a, b], &lines);
    assert_eq!(merged.len(), 1);
    match &merged[0].block {
        Block::Table { header, rows } => {
            assert!(header.is_some());
            assert_eq!(rows.len(), 4, "interstitial + 3 body rows");
            assert_eq!(rows[0][0], "Topsoil");
            assert_eq!(rows[1], vec!["Q3", "10", "20", "30"]);
        }
        other => panic!("expected Block::Table, got {other:?}"),
    }
}

/// The number of rows of a ruled table whose second row is empty and has a height.
fn rows_with_empty_row(height: f32) -> usize {
    let bottoms = [100.0, 140.0, 140.0 + height, 180.0 + height, 220.0 + height];
    let mut graphics = Vec::new();
    for y in bottoms {
        graphics.push(stroke(50.0, y, 250.0, y, 0.5));
    }
    for x in [50.0_f32, 150.0, 250.0] {
        graphics.push(stroke(x, 100.0, x, 220.0 + height, 0.5));
    }
    let mut lines = Vec::new();
    for y in [115.0, 155.0 + height, 195.0 + height] {
        lines.push(line("a", 90.0, y, 10.0, 10.0));
        lines.push(line("b", 190.0, y, 10.0, 10.0));
    }
    let runs = detect_ruled_tables(&lines, &graphics, fix(612.0), fix(792.0));
    assert_eq!(runs.len(), 1);
    match &runs[0].block {
        Block::Table { rows, .. } => rows.len(),
        other => panic!("expected a table, got {other:?}"),
    }
}

#[test]
fn empty_rows_count_from_half_the_usual_height_on() {
    assert_eq!(rows_with_empty_row(16.0), 3);
    assert_eq!(rows_with_empty_row(20.0), 4);
    assert_eq!(rows_with_empty_row(24.0), 4);
}

#[test]
fn values_on_a_boundary_belong_to_the_interval_behind_it() {
    let bounds = vec![0, 10, 20];
    assert_eq!(find_bucket(&bounds, 2 * 9), Some(0));
    assert_eq!(find_bucket(&bounds, 2 * 10), Some(1));
    assert_eq!(find_bucket(&bounds, 2 * 19), Some(1));
    assert_eq!(find_bucket(&bounds, 0), Some(0));
    assert_eq!(find_bucket(&bounds, 2 * 20), None);
    assert_eq!(find_bucket(&bounds, -1), None);
    assert_eq!(find_bucket(&vec![0], 0), None);
}

#[test]
fn page_references_are_numbers() {
    for s in ["7", "12", "7.", "12,", " 3) ", "iv", "XII"] {
        assert!(is_page_ref(s), "{s}");
    }
    for s in ["", ".", "7a", "7.5", "a7", "seven", "lxxxviii"] {
        assert!(!is_page_ref(s), "{s}");
    }
}

fn run(start: usize, end: usize) -> TableRun {
    TableRun {
        start,
        end,
        block: Block::Table { header: None, rows: vec![vec!["1".into(), "2".into(), "3".into()]] },
    }
}

#[test]
fn runs_are_cut_off_where_the_lines_end() {
    let lines = vec![three_col_subset_line("a", 10.0), three_col_subset_line("b", 25.0)];
    let joined = try_merge_pair(&run(0, 1), &run(1, 9), &lines).expect("one table");
    assert_eq!((joined.start, joined.end), (0, 9));
    assert!(try_merge_pair(&run(0, 5), &run(1, 2), &lines).is_none());
    assert!(try_merge_pair(&run(0, 2), &run(2, 2), &lines).is_none());
    assert!(try_merge_pair(&run(0, 1), &run(7, 9), &lines).is_none());
}

#[test]
fn no_header_is_taken_from_below_the_floor() {
    let lines: Vec<ProjectedLine> = (0..4)
        .map(|i| four_col_line("row", 10.0 + 15.0 * i as f32))
        .collect();
    let free = try_detect_table(&lines, 1, 0).expect("a table");
    assert_eq!((free.start, free.end), (0, 4));
    let bound = try_detect_table(&lines, 1, 3).expect("a table");
    assert_eq!((bound.start, bound.end), (1, 4));
}
