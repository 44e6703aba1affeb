use liteparse::code_points::{
    color_to_argb_hex, is_buggy_codepoint, is_buggy_font, normalize_punct, text_of_glyph, Color,
    FontType,
};
use liteparse::glyph_decoder::{
    detect_garbage_unicode_fonts, should_skip_invisible, CharGlance, FontTraits, GlyphDecoder,
    GlyphFacts,
};
use liteparse::item_marks::{
    assign_links, assign_strikethrough, dedup_overlapping_items, EdgeBox, PageLink,
};
use liteparse::page_parts::{
    extract_outline, extract_page_graphics, extract_page_image_refs, extract_page_struct_nodes,
    pages_to_read, OutlineEntry, PathObject, PathSegment, RawStructNode, SegmentKind,
};
use liteparse::png::{encode_png, encode_rgb_png, image_file};
use liteparse::segments::{adjust_angle_for_rotation, CharFacts, FontMeasures, Placement};
use liteparse::text_reader::{extract_page_text_items, TextReader};
use liteparse::types::{GraphicPrimitive, ImageRef, Rect, TextItem};

const FULL_TURN: i32 = 360_000;

fn fix(v: f32) -> i32 {
    (v * 1000.0).round() as i32
}

/// Radians in thousandths of a degree.
fn angle(rad: f32) -> i32 {
    (rad.to_degrees() * 1000.0).round() as i32
}

fn strike_item() -> TextItem {
    ti("word", 100.0, 100.0, 40.0, 10.0)
}

fn h_stroke(x1: f32, x2: f32, y: f32) -> GraphicPrimitive {
    GraphicPrimitive::Stroke {
        x1: fix(x1),
        y1: fix(y),
        x2: fix(x2),
        y2: fix(y),
        color: None,
        width: fix(0.5),
    }
}

#[test]
fn strike_midline_stroke_detected() {
    let mut items = vec![strike_item()];
    assign_strikethrough(&mut items, &vec![h_stroke(100.0, 140.0, 105.0)]);
    assert!(items[0].strike);
}

#[test]
fn strike_underline_not_detected() {
    let mut items = vec![strike_item()];
    assign_strikethrough(&mut items, &vec![h_stroke(100.0, 140.0, 110.0)]);
    assert!(!items[0].strike);
}

#[test]
fn strike_short_line_not_detected() {
    let mut items = vec![strike_item()];
    assign_strikethrough(&mut items, &vec![h_stroke(100.0, 110.0, 105.0)]);
    assert!(!items[0].strike);
}

#[test]
fn strike_thin_rect_detected() {
    let mut items = vec![strike_item()];
    let bar = GraphicPrimitive::Rect {
        bbox: Rect { x: fix(100.0), y: fix(104.0), width: fix(40.0), height: fix(1.0) },
        fill: None,
        stroke: None,
    };
    assign_strikethrough(&mut items, &vec![bar]);
    assert!(items[0].strike);
}

fn ti(text: &str, x: f32, y: f32, w: f32, h: f32) -> TextItem {
    TextItem {
        text: text.to_string(),
        x: fix(x),
        y: fix(y),
        width: fix(w),
        height: fix(h),
        ..Default::default()
    }
}

#[test]
fn dedup_drops_earlier_exact_duplicate() {
    let mut items = vec![
        ti("hello", 0.0, 0.0, 10.0, 5.0),
        ti("hello", 1.0, 0.0, 10.0, 5.0),
    ];
    dedup_overlapping_items(&mut items);
    assert_eq!(items.len(), 1);
    assert_eq!(items[0].x, fix(1.0));
}

#[test]
fn dedup_keeps_non_overlapping() {
    let mut items = vec![ti("a", 0.0, 0.0, 5.0, 5.0), ti("b", 100.0, 100.0, 5.0, 5.0)];
    dedup_overlapping_items(&mut items);
    assert_eq!(items.len(), 2);
}

#[test]
fn dedup_drops_earlier_when_different_text_overlaps_heavily() {
    let mut items = vec![
        ti("old", 0.0, 0.0, 10.0, 5.0),
        ti("new", 0.0, 0.0, 10.0, 5.0),
    ];
    dedup_overlapping_items(&mut items);
    assert_eq!(items.len(), 1);
    assert_eq!(items[0].text, "new");
}

#[test]
fn dedup_keeps_both_when_different_text_overlaps_lightly() {
    let mut items = vec![
        ti("aaa", 0.0, 0.0, 10.0, 5.0),
        ti("bbb", 9.0, 0.0, 10.0, 5.0),
    ];
    dedup_overlapping_items(&mut items);
    assert_eq!(items.len(), 2);
}

#[test]
fn dedup_noop_for_empty_or_single() {
    let mut empty: Vec<TextItem> = vec![];
    dedup_overlapping_items(&mut empty);
    assert!(empty.is_empty());
    let mut one = vec![ti("x", 0.0, 0.0, 1.0, 1.0)];
    dedup_overlapping_items(&mut one);
    assert_eq!(one.len(), 1);
}

#[test]
fn dedup_drops_equal_text_with_any_overlap() {
    let mut items = vec![ti("a", 0.0, 0.0, 10.0, 5.0), ti("a", 9.0, 0.0, 10.0, 5.0)];
    dedup_overlapping_items(&mut items);
    assert_eq!(items.len(), 1);
    assert_eq!(items[0].x, fix(9.0));
    let mut apart = vec![ti("a", 0.0, 0.0, 10.0, 5.0), ti("a", 10.0, 0.0, 10.0, 5.0)];
    dedup_overlapping_items(&mut apart);
    assert_eq!(apart.len(), 2);
}

#[test]
fn dedup_keeps_small_text_inside_a_wide_item() {
    let mut items = vec![
        ti("7", 2.0, 0.0, 5.0, 5.0),
        ti("..........", 0.0, 0.0, 100.0, 5.0),
    ];
    dedup_overlapping_items(&mut items);
    assert_eq!(items.len(), 2);
    dedup_overlapping_items(&mut items);
    assert_eq!(items.len(), 2);
}

#[test]
fn adjust_angle_no_rotation() {
    assert_eq!(adjust_angle_for_rotation(angle(0.5), 0), angle(0.5));
}

#[test]
fn adjust_angle_180() {
    let r = adjust_angle_for_rotation(angle(std::f32::consts::PI), 2);
    assert!(r == 0 || r == FULL_TURN);
}

#[test]
fn adjust_angle_wraps_into_0_2pi() {
    let r = adjust_angle_for_rotation(0, 1);
    assert!((0..FULL_TURN).contains(&r));
    assert_eq!(r, 90_000);
}

#[test]
fn buggy_font_truetype_subset_prefix() {
    assert!(is_buggy_font("TTFoo", FontType::TrueType));
    assert!(is_buggy_font("ABCDEF+TTBar", FontType::TrueType));
    assert!(!is_buggy_font("Arial", FontType::TrueType));
}

#[test]
fn buggy_font_type1_underscore() {
    assert!(is_buggy_font("ABCDEF_Foo", FontType::Type1));
    assert!(!is_buggy_font("ABCDEF_Foo", FontType::TrueType));
    assert!(!is_buggy_font("Short", FontType::Type1));
}

#[test]
fn buggy_codepoint_ranges() {
    assert!(is_buggy_codepoint(0x00));
    assert!(is_buggy_codepoint(0x1F));
    assert!(!is_buggy_codepoint(0x20));
    assert!(is_buggy_codepoint(0xE001));
    assert!(is_buggy_codepoint(0xF8FF));
    assert!(!is_buggy_codepoint(0xE000));
    assert!(!is_buggy_codepoint(0xF900));
    assert!(is_buggy_codepoint(0x7F));
    assert!(is_buggy_codepoint(0x80));
    assert!(is_buggy_codepoint(0x9F));
    assert!(!is_buggy_codepoint(0xA0));
}

#[test]
fn color_to_argb_hex_formats() {
    let c = Color { r: 0xAB, g: 0xCD, b: 0xEF, a: 0x12 };
    assert_eq!(color_to_argb_hex(&c), "12abcdef");
    let z = Color { r: 0, g: 0, b: 0, a: 0 };
    assert_eq!(color_to_argb_hex(&z), "00000000");
}

#[test]
fn punctuation_is_folded() {
    assert_eq!(normalize_punct('\u{2019}'), '\'');
    assert_eq!(normalize_punct('\u{201C}'), '"');
    assert_eq!(normalize_punct('\u{2014}'), '-');
    assert_eq!(normalize_punct('\u{2212}'), '-');
    assert_eq!(normalize_punct('x'), 'x');
}

#[test]
fn ligatures_are_spelled_out() {
    assert_eq!(text_of_glyph(0xFB01).as_deref(), Some("fi"));
    assert_eq!(text_of_glyph(0x41).as_deref(), Some("A"));
    assert_eq!(text_of_glyph(0x07), None);
    assert_eq!(text_of_glyph(0xD800), None);
}

fn link(l: f32, t: f32, r: f32, b: f32, uri: &str) -> PageLink {
    PageLink {
        rect: EdgeBox { left: fix(l), top: fix(t), right: fix(r), bottom: fix(b) },
        uri: uri.to_string(),
    }
}

#[test]
fn first_link_over_an_item_counts() {
    let mut items = vec![ti("here", 10.0, 10.0, 20.0, 10.0), ti("there", 50.0, 10.0, 20.0, 10.0)];
    assign_links(
        &mut items,
        &vec![link(8.0, 8.0, 32.0, 22.0, "a"), link(0.0, 8.0, 80.0, 22.0, "b")],
    );
    assert_eq!(items[0].link.as_deref(), Some("a"));
    assert_eq!(items[1].link.as_deref(), Some("b"));
}

#[test]
fn links_over_several_lines_are_left_out() {
    let mut items = vec![ti("one", 10.0, 10.0, 20.0, 10.0), ti("two", 10.0, 22.0, 20.0, 10.0)];
    assign_links(&mut items, &vec![link(8.0, 8.0, 80.0, 34.0, "a")]);
    assert!(items[0].link.is_none());
    assert!(items[1].link.is_none());
}

fn glance(unicode: u32, invisible: bool, font: usize) -> CharGlance {
    CharGlance { unicode, generated: false, invisible, font: Some(font) }
}

#[test]
fn invisible_text_is_left_out_where_visible_text_dominates() {
    let mut chars: Vec<CharGlance> = vec![];
    for _ in 0..8 {
        chars.push(glance(0x41, false, 1));
    }
    for _ in 0..2 {
        chars.push(glance(0x42, true, 1));
    }
    assert!(should_skip_invisible(&chars));
    for _ in 0..8 {
        chars.push(glance(0x42, true, 1));
    }
    assert!(!should_skip_invisible(&chars));
    assert!(!should_skip_invisible(&vec![glance(0x42, true, 1)]));
    assert!(!should_skip_invisible(&vec![glance(0x42, false, 1)]));
}

#[test]
fn fonts_with_many_private_code_points_are_garbage() {
    let mut chars: Vec<CharGlance> = vec![];
    for _ in 0..18 {
        chars.push(glance(0x41, false, 5));
        chars.push(glance(0x41, false, 6));
    }
    for _ in 0..2 {
        chars.push(glance(0xE123, false, 5));
        chars.push(glance(0x41, false, 6));
    }
    assert_eq!(detect_garbage_unicode_fonts(&chars), vec![5]);
}

fn plain_font() -> FontTraits {
    FontTraits {
        base_name: Some("Arial".to_string()),
        font_type: FontType::TrueType,
        embedded: true,
        has_to_unicode: true,
        encoding: None,
        garbage: false,
    }
}

fn glyph(unicode: u32, named: Option<&str>) -> GlyphFacts {
    GlyphFacts {
        char_code: 2,
        unicode,
        map_error: false,
        named: named.map(|s| s.to_string()),
        mapped: None,
        drawn: None,
    }
}

#[test]
fn trusted_characters_stay() {
    let mut d = GlyphDecoder::new();
    assert_eq!(d.decode(1, &glyph(0x41, Some("B")), &plain_font()), None);
    assert_eq!(d.decode(1, &glyph(0xE000, Some("B")), &plain_font()).as_deref(), Some("B"));
}

#[test]
fn glyphs_are_remembered_by_font_and_code() {
    let mut d = GlyphDecoder::new();
    assert!(d.wants(1, &glyph(0, None), &plain_font()));
    assert_eq!(d.decode(1, &glyph(0, Some("fi")), &plain_font()).as_deref(), Some("fi"));
    assert!(!d.wants(1, &glyph(0, None), &plain_font()));
    assert_eq!(d.decode(1, &glyph(0, None), &plain_font()).as_deref(), Some("fi"));
    assert_eq!(d.decode(2, &glyph(0, None), &plain_font()), None);
}

#[test]
fn ligatures_that_were_split_already_are_not_expanded_again() {
    let mut d = GlyphDecoder::new();
    let mut font = plain_font();
    font.has_to_unicode = false;
    assert_eq!(d.decode(1, &glyph(0x66, Some("fi")), &font), None);
    assert_eq!(d.decode(1, &glyph(0, Some("fi")), &font).as_deref(), Some("fi"));
}

#[test]
fn fonts_that_lie_are_read_by_program_or_outline() {
    let mut font = plain_font();
    font.base_name = Some("ABCDEF+TTx".to_string());
    let mut d = GlyphDecoder::new();
    let mut g = glyph(0x53, Some("S"));
    g.mapped = Some(0x52);
    assert_eq!(d.decode(1, &g, &font).as_deref(), Some("R"));
    let mut h = glyph(0x53, Some("S"));
    h.char_code = 9;
    h.mapped = Some(9);
    h.drawn = Some("Q".to_string());
    assert_eq!(d.decode(1, &h, &font).as_deref(), Some("Q"));
}

/// A character of a font 10 points high on a line that begins at `top`.
fn ch(c: char, left: f32, width: f32, top: f32) -> CharFacts {
    let b = EdgeBox { left: fix(left), top: fix(top), right: fix(left + width), bottom: fix(top + 10.0) };
    CharFacts {
        unicode: c as u32,
        generated: false,
        invisible: false,
        map_error: false,
        decoded: None,
        loose: Some(b),
        strict: Some(b),
        space_width: None,
        font_info: Some(("Arial".to_string(), 32)),
        font_size: fix(10.0),
        font_weight: 400,
        angle: 0,
        font: Some(FontMeasures {
            base_name: Some("Arial-Bold".to_string()),
            font_type: FontType::TrueType,
            embedded: true,
            ascent: Some(fix(9.0)),
            descent: Some(fix(-2.0)),
        }),
        scale_y: Some(2_000_000),
        stroke_color: None,
        fill_color: Some(Color { r: 1, g: 2, b: 3, a: 255 }),
        mcid: Some(4),
    }
}

fn word(s: &str, left: f32, top: f32) -> Vec<CharFacts> {
    let mut out = vec![];
    let mut x = left;
    for c in s.chars() {
        out.push(ch(c, x, 5.0, top));
        x += 5.0;
    }
    out
}

fn read(chars: Vec<CharFacts>) -> Vec<TextItem> {
    let widths: Vec<Option<i32>> = chars.iter().map(|_| Some(fix(5.0))).collect();
    extract_page_text_items(&chars, &widths, false, 0, fix(612.0), fix(792.0))
}

#[test]
fn characters_of_a_line_become_one_item() {
    let mut chars = word("Two", 50.0, 100.0);
    chars.push(ch(' ', 65.0, 3.0, 100.0));
    chars.extend(word("words", 68.0, 100.0));
    let items = read(chars);
    assert_eq!(items.len(), 1);
    assert_eq!(items[0].text, "Two words");
    assert_eq!(items[0].x, fix(50.0));
    assert_eq!(items[0].width, fix(43.0));
    assert_eq!(items[0].font_name.as_deref(), Some("Arial-Bold"));
    assert_eq!(items[0].font_size, Some(fix(10.0)));
    assert_eq!(items[0].font_height, Some(fix(20.0)));
    assert_eq!(items[0].font_weight, Some(400));
    assert_eq!(items[0].font_flags, Some(32));
    assert_eq!(items[0].text_width, Some(fix(40.0)));
    assert_eq!(items[0].fill_color.as_deref(), Some("ff010203"));
    assert_eq!(items[0].mcid, Some(4));
    assert!(!items[0].has_unicode_map_error);
}

#[test]
fn lines_columns_and_line_ends_split_items() {
    let mut chars = word("one", 50.0, 100.0);
    chars.extend(word("two", 50.0, 115.0));
    chars.extend(word("three", 90.0, 115.0));
    chars.push(ch('\n', 0.0, 0.0, 0.0));
    chars.extend(word("four", 115.0, 115.0));
    let texts: Vec<String> = read(chars).into_iter().map(|t| t.text).collect();
    assert_eq!(texts, vec!["one", "two", "three", "four"]);
}

#[test]
fn missing_spaces_are_put_back() {
    let mut chars = word("of", 50.0, 100.0);
    chars.extend(word("the", 64.0, 100.0));
    assert_eq!(read(chars)[0].text, "of the");
    let mut close = word("of", 50.0, 100.0);
    close.extend(word("the", 62.0, 100.0));
    assert_eq!(read(close)[0].text, "ofthe");
    let mut narrow = word("of", 50.0, 100.0);
    for mut c in word("the", 62.0, 100.0) {
        c.space_width = Some(200_000);
        narrow.push(c);
    }
    assert_eq!(read(narrow)[0].text, "of the");
}

#[test]
fn leaders_of_dots_are_split_off() {
    let mut chars = word("Total", 50.0, 100.0);
    let mut x = 78.0;
    for _ in 0..3 {
        chars.push(ch(' ', x, 2.0, 100.0));
        chars.push(ch('.', x + 2.0, 2.0, 100.0));
        x += 4.0;
    }
    chars.push(ch(' ', x, 2.0, 100.0));
    chars.extend(word("330", x + 3.0, 100.0));
    let texts: Vec<String> = read(chars).into_iter().map(|t| t.text).collect();
    assert_eq!(texts, vec!["Total", ". . .", "330"]);
}

#[test]
fn ligatures_stored_as_controls_are_spelled_out() {
    let mut chars = word("of", 50.0, 100.0);
    let mut lig = ch('\u{1C}', 60.0, 5.0, 100.0);
    lig.map_error = true;
    chars.push(lig);
    let mut dec = ch('?', 65.0, 5.0, 100.0);
    dec.decoded = Some("\u{2019}s".to_string());
    chars.push(dec);
    let items = read(chars);
    assert_eq!(items[0].text, "offi's");
    assert!(items[0].font_is_buggy);
    assert!(!items[0].has_unicode_map_error);
}

#[test]
fn unreadable_and_invisible_characters_are_skipped() {
    let mut flat = ch('x', 70.0, 5.0, 100.0);
    flat.loose = Some(EdgeBox { left: 0, top: 0, right: 1000, bottom: 400 });
    let mut generated = ch('y', 70.0, 5.0, 100.0);
    generated.generated = true;
    let mut hidden = ch('z', 70.0, 5.0, 100.0);
    hidden.invisible = true;
    let mut reader = TextReader::new(true, 0);
    assert_eq!(reader.place(&flat), Placement::Skip);
    assert_eq!(reader.place(&generated), Placement::Skip);
    assert_eq!(reader.place(&hidden), Placement::Skip);
    assert_eq!(reader.place(&ch('\u{0}', 1.0, 1.0, 1.0)), Placement::Skip);
    assert_eq!(reader.place(&ch('a', 1.0, 1.0, 1.0)), Placement::Begin);
    reader.take(&ch('a', 1.0, 1.0, 1.0), None);
    assert_eq!(reader.place(&ch('b', 2.0, 1.0, 1.0)), Placement::Join);
    assert_eq!(reader.place(&ch(' ', 2.0, 1.0, 1.0)), Placement::Blank);
    let visible = TextReader::new(false, 0);
    assert_eq!(visible.place(&hidden), Placement::Begin);
}

#[test]
fn text_outside_the_page_is_dropped() {
    let mut chars = word("in", 600.0, 100.0);
    chars.push(ch('\n', 0.0, 0.0, 0.0));
    chars.extend(word("out", 700.0, 100.0));
    let items = read(chars);
    assert_eq!(items.len(), 1);
    assert_eq!(items[0].text, "in");
}

fn seg(kind: SegmentKind, x: f32, y: f32, close: bool) -> PathSegment {
    PathSegment { kind, x: fix(x), y: fix(y), close }
}

#[test]
fn paths_become_boxes_and_strokes() {
    let path = PathObject {
        bbox: EdgeBox { left: 0, top: 0, right: fix(30.0), bottom: fix(20.0) },
        is_filled: true,
        is_stroked: true,
        fill_color: Some(Color { r: 0, g: 0, b: 0, a: 255 }),
        stroke_color: None,
        stroke_width: fix(0.5),
        segments: vec![
            seg(SegmentKind::MoveTo, 0.0, 0.0, false),
            seg(SegmentKind::LineTo, 30.0, 0.0, false),
            seg(SegmentKind::BezierTo, 30.0, 20.0, false),
            seg(SegmentKind::LineTo, 0.0, 20.0, true),
        ],
    };
    let g = extract_page_graphics(&vec![path]);
    assert_eq!(g.len(), 4);
    match &g[0] {
        GraphicPrimitive::Rect { bbox, fill, stroke } => {
            assert_eq!(bbox.width, fix(30.0));
            assert_eq!(fill.as_deref(), Some("ff000000"));
            assert!(stroke.is_none());
        }
        _ => panic!("expected a rectangle"),
    }
    match &g[3] {
        GraphicPrimitive::Stroke { x1, y1, x2, y2, .. } => {
            assert_eq!((*x1, *y1, *x2, *y2), (0, fix(20.0), 0, 0));
        }
        _ => panic!("expected a stroke"),
    }
}

#[test]
fn images_are_named_by_page_and_index() {
    let b = Rect { x: 1, y: 2, width: 3, height: 4 };
    let refs = extract_page_image_refs(&vec![b, b], 12);
    assert_eq!(refs[0].id, "p12_0");
    assert_eq!(refs[1].id, "p12_1");
    assert_eq!(refs[1].bbox, b);
    assert_eq!(refs[1].obj_index, 1);
}

#[test]
fn outline_entries_without_a_page_are_dropped() {
    let e = |title: &str, page: Option<usize>| OutlineEntry {
        level: 1,
        title: title.to_string(),
        page_index: page,
        y: None,
    };
    let t = extract_outline(&vec![e("a", Some(3)), e("b", None)]);
    assert_eq!(t.len(), 1);
    assert_eq!(t[0].title, "a");
    assert_eq!(t[0].page_index, 3);
}

#[test]
fn structure_nodes_get_sizes() {
    let n = RawStructNode {
        role: "H1".to_string(),
        mcids: vec![1, 2],
        bbox: Some(EdgeBox { left: 10, top: 20, right: 40, bottom: 60 }),
        alt_text: None,
    };
    let nodes = extract_page_struct_nodes(&vec![n]);
    assert_eq!(nodes[0].role, "H1");
    assert_eq!(nodes[0].mcids, vec![1, 2]);
    assert_eq!(nodes[0].bbox, Some(Rect { x: 10, y: 20, width: 30, height: 40 }));
}

#[test]
fn pages_are_selected_and_limited() {
    assert_eq!(pages_to_read(5, None, 3), vec![1, 2, 3]);
    assert_eq!(pages_to_read(5, Some(&vec![4, 2, 9]), 10), vec![2, 4]);
    assert_eq!(pages_to_read(5, Some(&vec![4, 2, 9]), 1), vec![2]);
}

#[test]
fn pixels_become_png_files() {
    let rgba = vec![255u8, 0, 0, 255, 0, 255, 0, 255];
    let png = encode_png(&rgba, 2, 1).unwrap();
    assert_eq!(&png[1..4], b"PNG");
    let back = image::load_from_memory(&png).unwrap().to_rgba8();
    assert_eq!(back.into_raw(), rgba);
    let rgb = vec![9u8, 8, 7, 1];
    let png = encode_rgb_png(rgb, 1, 1).unwrap();
    let back = image::load_from_memory(&png).unwrap().to_rgb8();
    assert_eq!(back.into_raw(), vec![9u8, 8, 7]);
}

#[test]
fn too_few_pixels_are_an_error() {
    let e = encode_rgb_png(vec![1u8, 2], 1, 1).unwrap_err();
    assert_eq!(e.message(), "failed to create image buffer from raw RGB data");
    let e = encode_rgb_png(vec![], 0, 0).unwrap_err();
    assert!(!e.message().is_empty());
}

#[test]
fn images_of_a_page_become_files() {
    let r = ImageRef {
        id: "p1_0".to_string(),
        bbox: Rect { x: 1, y: 2, width: 3, height: 4 },
        obj_index: 0,
    };
    let f = image_file(&r, 7, &vec![1u8, 2, 3, 4], 1, 1).unwrap();
    assert_eq!(f.id, "p1_0");
    assert_eq!(f.page, 7);
    assert_eq!(f.format, "png");
    assert_eq!(f.bbox, r.bbox);
    assert!(image_file(&r, 7, &vec![], 0, 1).is_none());
    assert!(image_file(&r, 7, &vec![1u8], 1, 1).is_none());
}

#[test]
fn runs_keep_all_visible_characters() {
    let mut chars = word("Hello", 50.0, 100.0);
    chars.push(ch(' ', 75.0, 5.0, 100.0));
    chars.extend(word("world", 80.0, 100.0));
    chars.push(ch('\n', 105.0, 5.0, 100.0));
    chars.extend(word("again.", 300.0, 200.0));
    let shown: String = chars
        .iter()
        .filter_map(|c| char::from_u32(c.unicode))
        .filter(|c| !c.is_whitespace())
        .collect();
    let found: String = read(chars)
        .iter()
        .flat_map(|i| i.text.chars().filter(|c| !c.is_whitespace()).collect::<Vec<char>>())
        .collect();
    assert_eq!(found, shown);
}
