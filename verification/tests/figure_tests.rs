use liteparse::figure_cluster::{close_enough, detect_figure_rects, text_coverage};
use liteparse::types::{Bounds, GraphicPrimitive, Rect, TextItem};

fn fix(v: f32) -> i32 {
    (v * 1000.0).round() as i32
}

fn stroke(x1: f32, y1: f32, x2: f32, y2: f32) -> GraphicPrimitive {
    GraphicPrimitive::Stroke {
        x1: fix(x1),
        y1: fix(y1),
        x2: fix(x2),
        y2: fix(y2),
        color: None,
        width: fix(0.5),
    }
}

fn rect(x: f32, y: f32, w: f32, h: f32) -> GraphicPrimitive {
    GraphicPrimitive::Rect {
        bbox: Rect { x: fix(x), y: fix(y), width: fix(w), height: fix(h) },
        fill: None,
        stroke: None,
    }
}

fn figures(g: Vec<GraphicPrimitive>, text: Vec<TextItem>) -> Vec<Bounds> {
    detect_figure_rects(&g, &text, fix(612.0), fix(792.0))
}

#[test]
fn empty_input_returns_no_figures() {
    assert!(figures(vec![], vec![]).is_empty());
}

#[test]
fn long_thin_hr_is_not_a_figure() {
    let figs = figures(vec![stroke(100.0, 400.0, 500.0, 400.0)], vec![]);
    assert!(figs.is_empty(), "HR should not be classified as figure");
}

#[test]
fn dense_stroke_cluster_becomes_a_figure() {
    let mut g = Vec::new();
    for i in 0..6 {
        for j in 0..5 {
            let x = 100.0 + i as f32 * 30.0;
            let y = 200.0 + j as f32 * 25.0;
            g.push(stroke(x, y, x + 20.0, y + 15.0));
        }
    }
    let figs = figures(g, vec![]);
    assert_eq!(figs.len(), 1, "expected one figure cluster");
    let f = &figs[0];
    assert!(f.right - f.left >= 100_000 && f.bottom - f.top >= 100_000);
    assert!(f.left >= 90_000 && f.left <= 110_000);
}

#[test]
fn large_solo_rect_qualifies_as_figure() {
    let figs = figures(vec![rect(100.0, 300.0, 200.0, 100.0)], vec![]);
    assert_eq!(figs.len(), 1);
}

#[test]
fn full_page_background_rect_is_skipped() {
    let figs = figures(vec![rect(0.0, 0.0, 612.0, 792.0)], vec![]);
    assert!(figs.is_empty(), "full-page rect should not be a figure");
}

fn filled_with_text() -> Vec<TextItem> {
    let mut text = Vec::new();
    for row in 0..8 {
        text.push(TextItem {
            text: "lorem ipsum dolor".into(),
            x: fix(105.0),
            y: fix(105.0 + row as f32 * 12.0),
            width: fix(190.0),
            height: fix(10.0),
            ..Default::default()
        });
    }
    text
}

#[test]
fn text_heavy_rect_is_treated_as_background_not_figure() {
    let figs = figures(vec![rect(100.0, 100.0, 200.0, 100.0)], filled_with_text());
    assert!(
        figs.is_empty(),
        "text-covered rect should not be classified as a figure"
    );
}

#[test]
fn distant_strokes_do_not_merge() {
    let mut g = Vec::new();
    for i in 0..6 {
        for j in 0..5 {
            let x = 50.0 + i as f32 * 25.0;
            let y = 100.0 + j as f32 * 20.0;
            g.push(stroke(x, y, x + 18.0, y + 12.0));
        }
    }
    for i in 0..6 {
        for j in 0..5 {
            let x = 400.0 + i as f32 * 25.0;
            let y = 500.0 + j as f32 * 20.0;
            g.push(stroke(x, y, x + 18.0, y + 12.0));
        }
    }
    let figs = figures(g, vec![]);
    assert_eq!(figs.len(), 2, "expected two separate figure clusters");
}

#[test]
fn figures_come_from_top_to_bottom() {
    let figs = figures(
        vec![rect(300.0, 500.0, 200.0, 100.0), rect(320.0, 50.0, 200.0, 100.0), rect(20.0, 50.0, 200.0, 100.0)],
        vec![],
    );
    let at: Vec<(i64, i64)> = figs.iter().map(|b| (b.top, b.left)).collect();
    assert_eq!(at, vec![(50_000, 20_000), (50_000, 320_000), (500_000, 300_000)]);
}

#[test]
fn covered_area_counts_lines() {
    let b = Bounds { left: 100_000, top: 100_000, right: 300_000, bottom: 200_000 };
    let covered = text_coverage(&b, &filled_with_text());
    assert_eq!(covered, 8 * 190_000 * 10_000);
    assert_eq!(text_coverage(&b, &vec![]), 0);
}

#[test]
fn boxes_ten_points_apart_are_close() {
    let a = Bounds { left: 0, top: 0, right: 10_000, bottom: 10_000 };
    let b = Bounds { left: 20_000, top: 0, right: 30_000, bottom: 10_000 };
    let c = Bounds { left: 20_001, top: 0, right: 30_000, bottom: 10_000 };
    assert!(close_enough(&a, &b));
    assert!(!close_enough(&a, &c));
}
