//! The parts of a page other than text: graphics, images, structure and outline; and
//! which pages are read.

use vstd::prelude::*;
use vstd::string::*;
use crate::code_points;
use crate::code_points::Color;
use crate::item_marks::EdgeBox;
use crate::numbers;
use crate::segments;
use crate::text;
use crate::types;
use crate::types::{GraphicPrimitive, ImageRef, OutlineTarget, Rect, StructNode};

verus! {

// ---------------------------------------------------------------------------
// Boxes
// ---------------------------------------------------------------------------

/// A box by its corner and its size, from its edges.
pub open spec fn rect_of(b: EdgeBox) -> Rect {
    Rect {
        x: b.left,
        y: b.top,
        width: types::clamped(b.right - b.left) as i32,
        height: types::clamped(b.bottom - b.top) as i32,
    }
}

/// A box by its corner and its size, from its edges.
pub fn rectf_to_rect(b: &EdgeBox) -> (r: Rect)
    ensures
        r == rect_of(*b),
{
    Rect {
        x: b.left,
        y: b.top,
        width: types::clamp32(b.right as i128 - b.left as i128),
        height: types::clamp32(b.bottom as i128 - b.top as i128),
    }
}

// ---------------------------------------------------------------------------
// Graphics
// ---------------------------------------------------------------------------

/// The kind of a segment of a path.
#[derive(Clone, Copy, Debug, PartialEq, Eq, Structural)]
pub enum SegmentKind {
    MoveTo,
    LineTo,
    BezierTo,
}

/// A segment of a path: where it leads, and whether it closes the part of the path that
/// it is in.
#[derive(Clone, Copy, Debug, PartialEq, Eq, Structural)]
pub struct PathSegment {
    pub kind: SegmentKind,
    pub x: i32,
    pub y: i32,
    pub close: bool,
}

/// A path that is painted on a page.
#[derive(Clone, Debug)]
pub struct PathObject {
    pub bbox: EdgeBox,
    pub is_filled: bool,
    pub is_stroked: bool,
    pub fill_color: Option<Color>,
    pub stroke_color: Option<Color>,
    pub stroke_width: i32,
    pub segments: Vec<PathSegment>,
}

/// The contents of a `GraphicPrimitive`.
#[verifier::ext_equal]
pub enum GraphicView {
    Stroke { x1: int, y1: int, x2: int, y2: int, color: Option<Seq<char>>, width: int },
    Rect { bbox: Rect, fill: Option<Seq<char>>, stroke: Option<Seq<char>> },
}

impl View for GraphicPrimitive {
    type V = GraphicView;

    open spec fn view(&self) -> GraphicView {
        match *self {
            GraphicPrimitive::Stroke { x1, y1, x2, y2, color, width } => GraphicView::Stroke {
                x1: x1 as int,
                y1: y1 as int,
                x2: x2 as int,
                y2: y2 as int,
                color: types::option_text(color),
                width: width as int,
            },
            GraphicPrimitive::Rect { bbox, fill, stroke } => GraphicView::Rect {
                bbox,
                fill: types::option_text(fill),
                stroke: types::option_text(stroke),
            },
        }
    }
}

/// The contents of graphics.
pub open spec fn graphic_views(v: Seq<GraphicPrimitive>) -> Seq<GraphicView> {
    Seq::new(v.len(), |i: int| v[i]@)
}

/// How far the walk along a path has come: the strokes so far, where it is, and where the
/// part of the path that it is in began.
#[verifier::ext_equal]
pub struct Walk {
    pub strokes: Seq<GraphicView>,
    pub at: Option<(i32, i32)>,
    pub start: Option<(i32, i32)>,
}

/// Whether two points are more than a hundredth of a point apart.
pub open spec fn are_apart(a: (i32, i32), b: (i32, i32)) -> bool {
    (a.0 - b.0) * (a.0 - b.0) + (a.1 - b.1) * (a.1 - b.1) > 100
}

/// A stroke between two points in the color and the width of a path.
pub open spec fn stroke_between(p: PathObject, a: (i32, i32), b: (i32, i32)) -> GraphicView {
    GraphicView::Stroke {
        x1: a.0 as int,
        y1: a.1 as int,
        x2: b.0 as int,
        y2: b.1 as int,
        color: segments::color_text(p.stroke_color),
        width: p.stroke_width as int,
    }
}

/// The walk after one more segment. A line gives a stroke, and another one where it
/// closes a part of the path; a curve gives none.
pub open spec fn walked(p: PathObject, w: Walk, s: PathSegment) -> Walk {
    let here = (s.x, s.y);
    match s.kind {
        SegmentKind::MoveTo => Walk { at: Some(here), start: Some(here), ..w },
        SegmentKind::LineTo => {
            let line = match w.at {
                Some(from) => w.strokes.push(stroke_between(p, from, here)),
                None => w.strokes,
            };
            let closed = match w.start {
                Some(start) => if s.close && are_apart(here, start) {
                    line.push(stroke_between(p, here, start))
                } else {
                    line
                },
                None => line,
            };
            Walk { strokes: closed, at: Some(here), ..w }
        },
        SegmentKind::BezierTo => Walk { at: Some(here), ..w },
    }
}

/// The walk along the first `n` segments of a path, behind the given graphics.
pub open spec fn walk_upto(p: PathObject, before: Seq<GraphicView>, n: int) -> Walk
    decreases n,
{
    if n <= 0 {
        Walk { strokes: before, at: None, start: None }
    } else {
        walked(p, walk_upto(p, before, n - 1), p.segments@[n - 1])
    }
}

/// The graphics with those of a path behind them: the box around it where it is filled,
/// then its strokes.
pub open spec fn with_path(before: Seq<GraphicView>, p: PathObject) -> Seq<GraphicView> {
    let filled = if p.is_filled {
        before.push(
            GraphicView::Rect {
                bbox: rect_of(p.bbox),
                fill: segments::color_text(p.fill_color),
                stroke: segments::color_text(p.stroke_color),
            },
        )
    } else {
        before
    };
    if p.is_stroked {
        walk_upto(p, filled, p.segments@.len() as int).strokes
    } else {
        filled
    }
}

/// The graphics of the first `n` paths.
pub open spec fn graphics_upto(paths: Seq<PathObject>, n: int) -> Seq<GraphicView>
    decreases n,
{
    if n <= 0 {
        seq![]
    } else {
        with_path(graphics_upto(paths, n - 1), paths[n - 1])
    }
}

fn color_string(c: &Option<Color>) -> (r: Option<String>)
    ensures
        types::option_text(r) == segments::color_text(*c),
{
    match c {
        Some(v) => Some(code_points::color_to_argb_hex(v)),
        None => None,
    }
}

fn points_apart(a: (i32, i32), b: (i32, i32)) -> (r: bool)
    ensures
        r == are_apart(a, b),
{
    let dx: i128 = a.0 as i128 - b.0 as i128;
    let dy: i128 = a.1 as i128 - b.1 as i128;
    proof {
        let x = dx as int;
        let y = dy as int;
        assert(0 <= x * x <= 0x1_0000_0000_0000_0000) by (nonlinear_arith)
            requires
                -0x1_0000_0000 <= x <= 0x1_0000_0000,
        ;
        assert(0 <= y * y <= 0x1_0000_0000_0000_0000) by (nonlinear_arith)
            requires
                -0x1_0000_0000 <= y <= 0x1_0000_0000,
        ;
    }
    dx * dx + dy * dy > 100
}

fn push_stroke(out: &mut Vec<GraphicPrimitive>, p: &PathObject, a: (i32, i32), b: (i32, i32))
    ensures
        graphic_views(final(out)@) == graphic_views(old(out)@).push(stroke_between(*p, a, b)),
{
    let g = GraphicPrimitive::Stroke {
        x1: a.0,
        y1: a.1,
        x2: b.0,
        y2: b.1,
        color: color_string(&p.stroke_color),
        width: p.stroke_width,
    };
    let ghost before = graphic_views(out@);
    proof {
        assert(graphic_views(out@.push(g)) =~= before.push(g@));
    }
    out.push(g);
}

fn push_path(out: &mut Vec<GraphicPrimitive>, p: &PathObject)
    ensures
        graphic_views(final(out)@) == with_path(graphic_views(old(out)@), *p),
{
    if p.is_filled {
        let g = GraphicPrimitive::Rect {
            bbox: rectf_to_rect(&p.bbox),
            fill: color_string(&p.fill_color),
            stroke: color_string(&p.stroke_color),
        };
        let ghost before = graphic_views(out@);
        proof {
            assert(graphic_views(out@.push(g)) =~= before.push(g@));
        }
        out.push(g);
    }
    if !p.is_stroked {
        return;
    }
    let ghost filled = graphic_views(out@);
    let mut at: Option<(i32, i32)> = None;
    let mut start: Option<(i32, i32)> = None;
    let mut i: usize = 0;
    while i < p.segments.len()
        invariant
            i <= p.segments@.len(),
            (Walk { strokes: graphic_views(out@), at, start }) == walk_upto(*p, filled, i as int),
        decreases p.segments.len() - i,
    {
        let s: PathSegment = p.segments[i];
        let here: (i32, i32) = (s.x, s.y);
        match s.kind {
            SegmentKind::MoveTo => {
                at = Some(here);
                start = Some(here);
            },
            SegmentKind::LineTo => {
                match at {
                    Some(from) => {
                        push_stroke(out, p, from, here);
                    },
                    None => {},
                }
                match start {
                    Some(from) => {
                        if s.close && points_apart(here, from) {
                            push_stroke(out, p, here, from);
                        }
                    },
                    None => {},
                }
                at = Some(here);
            },
            SegmentKind::BezierTo => {
                at = Some(here);
            },
        }
        i = i + 1;
    }
}

/// The graphics of a page, simplified: a box for a filled path, and a stroke for every
/// line of a stroked one.
pub fn extract_page_graphics(paths: &Vec<PathObject>) -> (r: Vec<GraphicPrimitive>)
    ensures
        graphic_views(r@) == graphics_upto(paths@, paths@.len() as int),
{
    let mut out: Vec<GraphicPrimitive> = Vec::new();
    let mut i: usize = 0;
    proof {
        assert(graphic_views(out@) =~= seq![]);
    }
    while i < paths.len()
        invariant
            i <= paths@.len(),
            graphic_views(out@) == graphics_upto(paths@, i as int),
        decreases paths.len() - i,
    {
        push_path(&mut out, &paths[i]);
        i = i + 1;
    }
    out
}

// ---------------------------------------------------------------------------
// Images
// ---------------------------------------------------------------------------

/// The smallest extent of an image that counts.
pub const IMAGE_MIN_SIZE: i32 = 25_000;

/// How much of a page an image can cover in either direction and still count, in
/// thousandths.
pub const IMAGE_MAX_COVERAGE: i32 = 900;

/// The name of an image of a page.
pub open spec fn image_id(page: u32, index: int) -> Seq<char> {
    "p"@ + numbers::decimal(page as nat) + "_"@ + numbers::decimal(index as nat)
}

/// The images of a page, from the boxes that they take up.
pub fn extract_page_image_refs(bounds: &Vec<Rect>, page_number: u32) -> (r: Vec<ImageRef>)
    ensures
        r@.len() == bounds@.len(),
        forall|i: int|
            0 <= i < r@.len() ==> (#[trigger] r@[i]).id@ == image_id(page_number, i) && r@[i].bbox
                == bounds@[i] && r@[i].obj_index == i,
{
    let mut out: Vec<ImageRef> = Vec::new();
    let mut i: usize = 0;
    while i < bounds.len()
        invariant
            i <= bounds@.len(),
            out@.len() == i,
            forall|k: int|
                0 <= k < i ==> (#[trigger] out@[k]).id@ == image_id(page_number, k) && out@[k].bbox
                    == bounds@[k] && out@[k].obj_index == k,
        decreases bounds.len() - i,
    {
        let mut id: String = text::to_string("p");
        id.append(numbers::decimal_of(page_number as u64).as_str());
        id.append("_");
        id.append(numbers::decimal_of(i as u64).as_str());
        out.push(ImageRef { id, bbox: bounds[i], obj_index: i });
        i = i + 1;
    }
    out
}

// ---------------------------------------------------------------------------
// Structure and outline
// ---------------------------------------------------------------------------

/// A node of the structure tree as it is read, with the edges of its box.
#[derive(Clone, Debug)]
pub struct RawStructNode {
    pub role: String,
    pub mcids: Vec<i32>,
    pub bbox: Option<EdgeBox>,
    pub alt_text: Option<String>,
}

/// Whether a node of the structure tree is the given one.
pub open spec fn is_node_of(n: StructNode, raw: RawStructNode) -> bool {
    n.role@ == raw.role@ && n.mcids@ == raw.mcids@ && n.bbox == (match raw.bbox {
        Some(b) => Some(rect_of(b)),
        None => None,
    }) && types::option_text(n.alt_text) == types::option_text(raw.alt_text)
}

/// The nodes of the structure tree of a page.
pub fn extract_page_struct_nodes(nodes: &Vec<RawStructNode>) -> (r: Vec<StructNode>)
    ensures
        r@.len() == nodes@.len(),
        forall|i: int| 0 <= i < r@.len() ==> is_node_of(#[trigger] r@[i], nodes@[i]),
{
    let mut out: Vec<StructNode> = Vec::new();
    let mut i: usize = 0;
    while i < nodes.len()
        invariant
            i <= nodes@.len(),
            out@.len() == i,
            forall|k: int| 0 <= k < i ==> is_node_of(#[trigger] out@[k], nodes@[k]),
        decreases nodes.len() - i,
    {
        let n = &nodes[i];
        let mut mcids: Vec<i32> = Vec::new();
        let mut k: usize = 0;
        while k < n.mcids.len()
            invariant
                k <= n.mcids@.len(),
                mcids@ == n.mcids@.take(k as int),
            decreases n.mcids.len() - k,
        {
            proof {
                assert(n.mcids@.take(k + 1) =~= n.mcids@.take(k as int).push(n.mcids@[k as int]));
            }
            mcids.push(n.mcids[k]);
            k = k + 1;
        }
        proof {
            assert(mcids@ =~= n.mcids@);
        }
        let bbox: Option<Rect> = match &n.bbox {
            Some(b) => Some(rectf_to_rect(b)),
            None => None,
        };
        out.push(
            StructNode {
                role: n.role.clone(),
                mcids,
                bbox,
                alt_text: types::clone_option(&n.alt_text),
            },
        );
        i = i + 1;
    }
    out
}

/// An entry of the outline of a document as it is read. It may point at no page.
#[derive(Clone, Debug)]
pub struct OutlineEntry {
    pub level: u8,
    pub title: String,
    pub page_index: Option<usize>,
    pub y: Option<i32>,
}

/// The contents of an `OutlineTarget`.
#[verifier::ext_equal]
pub struct TargetView {
    pub level: u8,
    pub title: Seq<char>,
    pub page_index: usize,
    pub y_pdf: Option<i32>,
}

/// The contents of outline targets.
pub open spec fn target_views(v: Seq<OutlineTarget>) -> Seq<TargetView> {
    Seq::new(
        v.len(),
        |i: int|
            TargetView {
                level: v[i].level,
                title: v[i].title@,
                page_index: v[i].page_index,
                y_pdf: v[i].y_pdf,
            },
    )
}

/// The targets of those of the first `n` entries of an outline that point at a page.
pub open spec fn targets_upto(entries: Seq<OutlineEntry>, n: int) -> Seq<TargetView>
    decreases n,
{
    if n <= 0 {
        seq![]
    } else {
        let e = entries[n - 1];
        match e.page_index {
            Some(p) => targets_upto(entries, n - 1).push(
                TargetView { level: e.level, title: e.title@, page_index: p, y_pdf: e.y },
            ),
            None => targets_upto(entries, n - 1),
        }
    }
}

/// The targets of the entries of an outline that point at a page.
pub fn extract_outline(entries: &Vec<OutlineEntry>) -> (r: Vec<OutlineTarget>)
    ensures
        target_views(r@) == targets_upto(entries@, entries@.len() as int),
{
    let mut out: Vec<OutlineTarget> = Vec::new();
    let mut i: usize = 0;
    proof {
        assert(target_views(out@) =~= seq![]);
    }
    while i < entries.len()
        invariant
            i <= entries@.len(),
            target_views(out@) == targets_upto(entries@, i as int),
        decreases entries.len() - i,
    {
        let e = &entries[i];
        match e.page_index {
            Some(p) => {
                let t = OutlineTarget {
                    level: e.level,
                    title: e.title.clone(),
                    page_index: p,
                    y_pdf: e.y,
                };
                let ghost before = target_views(out@);
                proof {
                    assert(target_views(out@.push(t)) =~= before.push(
                        TargetView {
                            level: t.level,
                            title: t.title@,
                            page_index: t.page_index,
                            y_pdf: t.y_pdf,
                        },
                    ));
                }
                out.push(t);
            },
            None => {},
        }
        i = i + 1;
    }
    out
}

// ---------------------------------------------------------------------------
// Pages
// ---------------------------------------------------------------------------

/// Whether a page was asked for.
pub open spec fn is_wanted(targets: Option<Seq<u32>>, page: u32) -> bool {
    match targets {
        Some(t) => t.contains(page),
        None => true,
    }
}

/// The pages to read among the first `n`, counted from one: those that were asked for,
/// and at most `max` of them.
pub open spec fn selected_upto(targets: Option<Seq<u32>>, max: int, n: int) -> Seq<u32>
    decreases n,
{
    if n <= 0 {
        seq![]
    } else {
        let before = selected_upto(targets, max, n - 1);
        if is_wanted(targets, n as u32) && before.len() < max {
            before.push(n as u32)
        } else {
            before
        }
    }
}

/// The numbers of a list of pages.
pub open spec fn page_list(targets: Option<&Vec<u32>>) -> Option<Seq<u32>> {
    match targets {
        Some(t) => Some(t@),
        None => None,
    }
}

fn lists(v: &Vec<u32>, x: u32) -> (r: bool)
    ensures
        r == v@.contains(x),
{
    let mut i: usize = 0;
    while i < v.len()
        invariant
            i <= v@.len(),
            forall|k: int| 0 <= k < i ==> v@[k] != x,
        decreases v.len() - i,
    {
        if v[i] == x {
            return true;
        }
        i = i + 1;
    }
    false
}

/// The pages to read of a document with `page_count` pages, counted from one: those that
/// were asked for, and at most `max_pages` of them.
pub fn pages_to_read(page_count: u32, targets: Option<&Vec<u32>>, max_pages: usize) -> (r: Vec<u32>)
    ensures
        r@ == selected_upto(page_list(targets), max_pages as int, page_count as int),
{
    let mut out: Vec<u32> = Vec::new();
    let mut n: u32 = 0;
    while n < page_count
        invariant
            n <= page_count,
            out@ == selected_upto(page_list(targets), max_pages as int, n as int),
        decreases page_count - n,
    {
        n = n + 1;
        let wanted: bool = match targets {
            Some(t) => lists(t, n),
            None => true,
        };
        if wanted && out.len() < max_pages {
            out.push(n);
        }
    }
    out
}

/// The pages to read are in ascending order, all were asked for, and there are no more
/// of them than allowed.
pub proof fn law_selected_pages(targets: Option<Seq<u32>>, max: int, n: int)
    requires
        0 <= n <= u32::MAX,
        max >= 0,
    ensures
        selected_upto(targets, max, n).len() <= max,
        forall|i: int|
            #![trigger selected_upto(targets, max, n)[i]]
            0 <= i < selected_upto(targets, max, n).len() ==> {
                let p = selected_upto(targets, max, n)[i];
                1 <= p <= n && is_wanted(targets, p)
            },
        forall|i: int, j: int|
            0 <= i < j < selected_upto(targets, max, n).len() ==> selected_upto(
                targets,
                max,
                n,
            )[i] < selected_upto(targets, max, n)[j],
    decreases n,
{
    if n > 0 {
        law_selected_pages(targets, max, n - 1);
    }
}

/// A page that was asked for is left out only where as many smaller ones are read as allowed.
pub proof fn law_wanted_pages_are_read(targets: Option<Seq<u32>>, max: int, n: int, p: u32)
    requires
        1 <= p <= n <= u32::MAX,
        max >= 0,
        match targets {
            Some(t) => t.contains(p),
            None => true,
        },
    ensures
        ({
            let v = selected_upto(targets, max, n);
            v.contains(p) || v.len() == max && forall|i: int|
                0 <= i < v.len() ==> (#[trigger] v[i]) < p
        }),
    decreases n,
{
    let v = selected_upto(targets, max, n);
    let before = selected_upto(targets, max, n - 1);
    law_selected_pages(targets, max, n - 1);
    if p < n {
        law_wanted_pages_are_read(targets, max, n - 1, p);
        if before.contains(p) {
            let i = choose|i: int| 0 <= i < before.len() && before[i] == p;
            assert(v[i] == p);
        }
    } else if before.len() < max {
        assert(v[before.len() as int] == p);
    }
}

} // verus!
