//! Figures: clusters of vector graphics that are no rules, no tables and no
//! backgrounds of text.

use vstd::prelude::*;
use crate::sort;
use crate::types;
use crate::types::{Bounds, GraphicPrimitive, TextItem};
use crate::union_find;

verus! {

/// The smallest extent of a figure in either direction.
pub const MIN_EXTENT: i64 = 30_000;

/// The smallest area of a figure.
pub const MIN_AREA: i128 = 1_500_000_000;

/// The smallest area of a figure made of one graphic.
pub const SOLO_AREA: i128 = 5_000_000_000;

/// How far apart two graphics of one figure can lie.
pub const CLUSTER_GAP: i64 = 10_000;

/// How thick a rule can be.
pub const RULE_THICKNESS: i64 = 2_000;

/// Whether the edges of a box lie in reach.
pub open spec fn box_in_reach(b: Bounds) -> bool {
    &&& -0x1_0000_0000 <= b.left <= 0x1_0000_0000
    &&& -0x1_0000_0000 <= b.top <= 0x1_0000_0000
    &&& -0x1_0000_0000 <= b.right <= 0x1_0000_0000
    &&& -0x1_0000_0000 <= b.bottom <= 0x1_0000_0000
}

/// The box around a graphic.
pub open spec fn box_of(g: GraphicPrimitive) -> Bounds {
    match g {
        GraphicPrimitive::Stroke { x1, y1, x2, y2, color, width } => Bounds {
            left: types::min_of(x1 as int, x2 as int) as i64,
            top: types::min_of(y1 as int, y2 as int) as i64,
            right: types::max_of(x1 as int, x2 as int) as i64,
            bottom: types::max_of(y1 as int, y2 as int) as i64,
        },
        GraphicPrimitive::Rect { bbox, fill, stroke } => Bounds {
            left: bbox.x as i64,
            top: bbox.y as i64,
            right: bbox.right_edge() as i64,
            bottom: bbox.bottom_edge() as i64,
        },
    }
}

/// Whether a box covers 95 percent of the page in both directions.
pub open spec fn fills_page(b: Bounds, page_width: int, page_height: int) -> bool {
    100 * (b.right - b.left) >= 95 * page_width && 100 * (b.bottom - b.top) >= 95 * page_height
}

/// Whether a graphic can be a part of a figure: it is no background of the page,
/// no long thin rule and not tiny.
pub open spec fn counts(g: GraphicPrimitive, page_width: int, page_height: int) -> bool {
    let b = box_of(g);
    let w = b.right - b.left;
    let h = b.bottom - b.top;
    !fills_page(b, page_width, page_height) && match g {
        GraphicPrimitive::Stroke { x1, y1, x2, y2, color, width } => !(h <= RULE_THICKNESS && width
            <= RULE_THICKNESS && 10 * w >= 3 * page_width) && !(w < 4_000 && h < 4_000),
        GraphicPrimitive::Rect { bbox, fill, stroke } => !(w < 2_000 && h < 2_000),
    }
}

/// The boxes around those of the first `n` graphics that count.
pub open spec fn boxes_upto(
    graphics: Seq<GraphicPrimitive>,
    page_width: int,
    page_height: int,
    n: int,
) -> Seq<Bounds>
    decreases n,
{
    if n <= 0 {
        seq![]
    } else {
        let before = boxes_upto(graphics, page_width, page_height, n - 1);
        if counts(graphics[n - 1], page_width, page_height) {
            before.push(box_of(graphics[n - 1]))
        } else {
            before
        }
    }
}

/// Whether two boxes overlap or lie close in both directions.
pub open spec fn close(a: Bounds, b: Bounds) -> bool {
    types::max_of(a.left - b.right, b.left - a.right) <= CLUSTER_GAP && types::max_of(
        a.top - b.bottom,
        b.top - a.bottom,
    ) <= CLUSTER_GAP
}

/// The cluster of every box after the first `i` boxes were compared with all
/// behind them, and the next with those behind it up to `j`.
pub open spec fn clusters_at(boxes: Seq<Bounds>, i: int, j: int) -> Seq<int>
    decreases i, j,
{
    if i >= 0 && j > i + 1 {
        let before = clusters_at(boxes, i, j - 1);
        if close(boxes[i], boxes[j - 1]) {
            union_find::joined(before, i, j - 1)
        } else {
            before
        }
    } else if i > 0 {
        clusters_at(boxes, i - 1, boxes.len() as int)
    } else {
        Seq::new(boxes.len(), |k: int| k)
    }
}

/// The cluster of every box.
pub open spec fn clusters(boxes: Seq<Bounds>) -> Seq<int> {
    clusters_at(boxes, boxes.len() as int, 0)
}

/// The box around two boxes.
pub open spec fn around(a: Bounds, b: Bounds) -> Bounds {
    Bounds {
        left: types::min_of(a.left as int, b.left as int) as i64,
        top: types::min_of(a.top as int, b.top as int) as i64,
        right: types::max_of(a.right as int, b.right as int) as i64,
        bottom: types::max_of(a.bottom as int, b.bottom as int) as i64,
    }
}

/// The box around the members of cluster `g` among the first `n` boxes, and how
/// many they are.
pub open spec fn members_upto(boxes: Seq<Bounds>, g: int, n: int) -> Option<(Bounds, int)>
    decreases n,
{
    if n <= 0 {
        None
    } else {
        let before = members_upto(boxes, g, n - 1);
        if clusters(boxes)[n - 1] == g {
            match before {
                Some(m) => Some((around(m.0, boxes[n - 1]), m.1 + 1)),
                None => Some((boxes[n - 1], 1)),
            }
        } else {
            before
        }
    }
}

// ---------------------------------------------------------------------------
// Text in a box
// ---------------------------------------------------------------------------

/// The part of a text item that lies in a box, if any.
pub open spec fn clip(t: TextItem, b: Bounds) -> Option<Bounds> {
    let c = Bounds {
        left: types::max_of(t.x as int, b.left as int) as i64,
        top: types::max_of(t.y as int, b.top as int) as i64,
        right: types::min_of(t.x + t.width, b.right as int) as i64,
        bottom: types::min_of(t.y + t.height, b.bottom as int) as i64,
    };
    if c.right <= c.left || c.bottom <= c.top {
        None
    } else {
        Some(c)
    }
}

/// The parts of the first `n` items that lie in a box.
pub open spec fn clips_upto(items: Seq<TextItem>, b: Bounds, n: int) -> Seq<Bounds>
    decreases n,
{
    if n <= 0 {
        seq![]
    } else {
        match clip(items[n - 1], b) {
            Some(c) => clips_upto(items, b, n - 1).push(c),
            None => clips_upto(items, b, n - 1),
        }
    }
}

/// The heights above half a point of those of the first `n` items that lie in a
/// box in part.
pub open spec fn heights_upto(items: Seq<TextItem>, b: Bounds, n: int) -> Seq<int>
    decreases n,
{
    if n <= 0 {
        seq![]
    } else {
        let before = heights_upto(items, b, n - 1);
        match clip(items[n - 1], b) {
            Some(c) => {
                let h = types::max_of(items[n - 1].height as int, c.bottom - c.top);
                if h > 500 {
                    before.push(h)
                } else {
                    before
                }
            },
            None => before,
        }
    }
}

/// The median of heights, at least four points; eight points where there are no
/// heights.
pub open spec fn line_height(heights: Seq<int>) -> int {
    if heights.len() == 0 {
        8_000
    } else {
        types::max_of(sort::sorted(heights)[heights.len() as int / 2], 4_000)
    }
}

/// Twice the heights of the middles of boxes.
pub open spec fn middles(v: Seq<Bounds>) -> Seq<int> {
    Seq::new(v.len(), |i: int| v[i].top + v[i].bottom)
}

/// The boxes from the topmost middle to the lowest.
pub open spec fn top_down(v: Seq<Bounds>) -> Seq<Bounds> {
    sort::pick(v, sort::stable_order(middles(v)))
}

/// Whether a box has its edges in reach and in order.
pub open spec fn is_proper(b: Bounds) -> bool {
    box_in_reach(b) && b.left <= b.right && b.top <= b.bottom
}

/// The area of a box.
pub open spec fn area_of(b: Bounds) -> int {
    (b.right - b.left) * (b.bottom - b.top)
}

/// The area that lines of text cover, at most `most`: `covered` by the lines
/// before, then the line `cur` with the boxes from `i` on. A box belongs to the
/// line where their middles are at most half of `height` apart.
pub open spec fn covered_from(
    v: Seq<Bounds>,
    height: int,
    most: int,
    covered: int,
    cur: Bounds,
    i: int,
) -> int
    decreases v.len() - i,
{
    if i < 0 || i >= v.len() {
        types::min_of(covered + area_of(cur), most)
    } else {
        let d = (v[i].top + v[i].bottom) - (cur.top + cur.bottom);
        if -height <= d <= height {
            covered_from(v, height, most, covered, around(cur, v[i]), i + 1)
        } else {
            covered_from(
                v,
                height,
                most,
                types::min_of(covered + area_of(cur), most),
                v[i],
                i + 1,
            )
        }
    }
}

/// The area of a box that lines of text cover, at most its whole area.
pub open spec fn text_area(b: Bounds, items: Seq<TextItem>) -> int {
    let n = items.len() as int;
    let v = top_down(clips_upto(items, b, n));
    if area_of(b) <= 0 || v.len() == 0 {
        0
    } else {
        covered_from(v, line_height(heights_upto(items, b, n)), area_of(b), 0, v[0], 1)
    }
}

/// Whether a cluster is a figure: large enough in both directions, not the whole
/// page, not drawn out, more than one graphic or a large one, and with text on at
/// most 55 percent of it.
pub open spec fn is_figure(
    b: Bounds,
    count: int,
    page_width: int,
    page_height: int,
    items: Seq<TextItem>,
) -> bool {
    let w = b.right - b.left;
    let h = b.bottom - b.top;
    &&& w >= MIN_EXTENT && h >= MIN_EXTENT
    &&& area_of(b) >= MIN_AREA
    &&& !fills_page(b, page_width, page_height)
    &&& w <= 15 * h && h <= 15 * w
    &&& count >= 2 || area_of(b) >= SOLO_AREA
    &&& 100 * text_area(b, items) <= 55 * area_of(b)
}

/// Whether box `i` is the first of its cluster.
pub open spec fn leads(boxes: Seq<Bounds>, i: int) -> bool {
    forall|k: int| 0 <= k < i ==> #[trigger] clusters(boxes)[k] != clusters(boxes)[i]
}

/// The figures whose first graphic is among the first `n` boxes, in the order of
/// those graphics.
pub open spec fn figures_upto(
    boxes: Seq<Bounds>,
    page_width: int,
    page_height: int,
    items: Seq<TextItem>,
    n: int,
) -> Seq<Bounds>
    decreases n,
{
    if n <= 0 {
        seq![]
    } else {
        let before = figures_upto(boxes, page_width, page_height, items, n - 1);
        match members_upto(boxes, clusters(boxes)[n - 1], boxes.len() as int) {
            Some(m) => if leads(boxes, n - 1) && is_figure(
                m.0,
                m.1,
                page_width,
                page_height,
                items,
            ) {
                before.push(m.0)
            } else {
                before
            },
            None => before,
        }
    }
}

/// Numbers that order boxes from top to bottom, and from left to right where the
/// tops are equal.
pub open spec fn reading_keys(v: Seq<Bounds>) -> Seq<int> {
    Seq::new(v.len(), |i: int| 0x4_0000_0000 * v[i].top + v[i].left)
}

/// The figures of a page from top to bottom, and from left to right where the tops
/// are equal.
pub open spec fn figures(
    graphics: Seq<GraphicPrimitive>,
    items: Seq<TextItem>,
    page_width: int,
    page_height: int,
) -> Seq<Bounds> {
    if page_width <= 0 || page_height <= 0 {
        seq![]
    } else {
        let boxes = boxes_upto(graphics, page_width, page_height, graphics.len() as int);
        let v = figures_upto(boxes, page_width, page_height, items, boxes.len() as int);
        sort::pick(v, sort::stable_order(reading_keys(v)))
    }
}

/// Numbers that order two boxes as their tops do, and as their left edges do where
/// the tops are equal.
pub proof fn law_reading_keys(v: Seq<Bounds>, i: int, j: int)
    requires
        0 <= i < v.len(),
        0 <= j < v.len(),
        box_in_reach(v[i]),
        box_in_reach(v[j]),
    ensures
        (reading_keys(v)[i] <= reading_keys(v)[j]) == (v[i].top < v[j].top || v[i].top == v[j].top
            && v[i].left <= v[j].left),
{
}

// ---------------------------------------------------------------------------
// The code
// ---------------------------------------------------------------------------

/// The box around a graphic.
pub fn graphic_box(g: &GraphicPrimitive) -> (r: Bounds)
    ensures
        r == box_of(*g),
        box_in_reach(r),
{
    match g {
        GraphicPrimitive::Stroke { x1, y1, x2, y2, color: _, width: _ } => Bounds {
            left: types::min64(*x1 as i64, *x2 as i64),
            top: types::min64(*y1 as i64, *y2 as i64),
            right: types::max64(*x1 as i64, *x2 as i64),
            bottom: types::max64(*y1 as i64, *y2 as i64),
        },
        GraphicPrimitive::Rect { bbox, fill: _, stroke: _ } => Bounds {
            left: bbox.x as i64,
            top: bbox.y as i64,
            right: bbox.right(),
            bottom: bbox.bottom(),
        },
    }
}

fn box_fills_page(b: &Bounds, page_width: i32, page_height: i32) -> (r: bool)
    requires
        box_in_reach(*b),
    ensures
        r == fills_page(*b, page_width as int, page_height as int),
{
    100 * (b.right - b.left) >= 95 * (page_width as i64) && 100 * (b.bottom - b.top) >= 95 * (
    page_height as i64)
}

fn graphic_counts(g: &GraphicPrimitive, b: &Bounds, page_width: i32, page_height: i32) -> (r: bool)
    requires
        *b == box_of(*g),
        box_in_reach(*b),
    ensures
        r == counts(*g, page_width as int, page_height as int),
{
    if box_fills_page(b, page_width, page_height) {
        return false;
    }
    let w: i64 = b.right - b.left;
    let h: i64 = b.bottom - b.top;
    match g {
        GraphicPrimitive::Stroke { x1: _, y1: _, x2: _, y2: _, color: _, width } => !(h
            <= RULE_THICKNESS && *width as i64 <= RULE_THICKNESS && 10 * w >= 3 * (
        page_width as i64)) && !(w < 4_000 && h < 4_000),
        GraphicPrimitive::Rect { bbox: _, fill: _, stroke: _ } => !(w < 2_000 && h < 2_000),
    }
}

/// Whether two boxes overlap or lie close in both directions.
pub fn close_enough(a: &Bounds, b: &Bounds) -> (r: bool)
    requires
        box_in_reach(*a),
        box_in_reach(*b),
    ensures
        r == close(*a, *b),
{
    types::max64(a.left - b.right, b.left - a.right) <= CLUSTER_GAP && types::max64(
        a.top - b.bottom,
        b.top - a.bottom,
    ) <= CLUSTER_GAP
}

/// The box around two boxes.
pub fn union_rect(a: &Bounds, b: &Bounds) -> (r: Bounds)
    ensures
        r == around(*a, *b),
        box_in_reach(*a) && box_in_reach(*b) ==> box_in_reach(r),
{
    Bounds {
        left: types::min64(a.left, b.left),
        top: types::min64(a.top, b.top),
        right: types::max64(a.right, b.right),
        bottom: types::max64(a.bottom, b.bottom),
    }
}

fn clip_item(t: &TextItem, b: &Bounds) -> (r: Option<Bounds>)
    requires
        box_in_reach(*b),
    ensures
        r == clip(*t, *b),
        r is Some ==> is_proper(r->0),
{
    let c = Bounds {
        left: types::max64(t.x as i64, b.left),
        top: types::max64(t.y as i64, b.top),
        right: types::min64(t.x as i64 + t.width as i64, b.right),
        bottom: types::min64(t.y as i64 + t.height as i64, b.bottom),
    };
    if c.right <= c.left || c.bottom <= c.top {
        None
    } else {
        Some(c)
    }
}

fn median_height(heights: &Vec<i64>) -> (r: i64)
    requires
        forall|k: int| 0 <= k < heights@.len() ==> 0 <= #[trigger] heights@[k] <= 0x2_0000_0000,
    ensures
        r == line_height(sort::ints(heights@)),
        0 <= r <= 0x2_0000_0000,
{
    proof {
        assert(sort::ints(heights@).len() == heights@.len());
    }
    if heights.len() == 0 {
        return 8_000;
    }
    let v: Vec<i64> = sort::sort_values(heights);
    let m: usize = v.len() / 2;
    proof {
        assert(sort::ints(v@)[m as int] == v@[m as int]);
        assert(heights@.contains(v@[m as int]));
    }
    types::max64(v[m], 4_000)
}

proof fn lemma_area(b: Bounds)
    requires
        box_in_reach(b),
    ensures
        -0x10_0000_0000_0000_0000 <= area_of(b) <= 0x10_0000_0000_0000_0000,
        is_proper(b) ==> area_of(b) >= 0,
{
    let w = b.right - b.left;
    let h = b.bottom - b.top;
    assert(-0x10_0000_0000_0000_0000 <= w * h <= 0x10_0000_0000_0000_0000) by (nonlinear_arith)
        requires
            -0x2_0000_0000 <= w <= 0x2_0000_0000,
            -0x2_0000_0000 <= h <= 0x2_0000_0000,
    ;
    if is_proper(b) {
        assert(w * h >= 0) by (nonlinear_arith)
            requires
                w >= 0,
                h >= 0,
        ;
    }
}

fn box_area(b: &Bounds) -> (r: i128)
    requires
        box_in_reach(*b),
    ensures
        r == area_of(*b),
        -0x10_0000_0000_0000_0000 <= r <= 0x10_0000_0000_0000_0000,
        is_proper(*b) ==> r >= 0,
{
    proof {
        lemma_area(*b);
    }
    let w: i128 = b.right as i128 - b.left as i128;
    let h: i128 = b.bottom as i128 - b.top as i128;
    w * h
}

fn capped(a: i128, most: i128) -> (r: i128)
    ensures
        r == types::min_of(a as int, most as int),
{
    if a <= most {
        a
    } else {
        most
    }
}

fn order_top_down(v: &Vec<Bounds>) -> (r: Vec<Bounds>)
    requires
        forall|k: int| 0 <= k < v@.len() ==> box_in_reach(#[trigger] v@[k]),
    ensures
        r@ == top_down(v@),
        r@.len() == v@.len(),
        forall|k: int| 0 <= k < r@.len() ==> v@.contains(#[trigger] r@[k]),
{
    let mut keys: Vec<i128> = Vec::new();
    let mut k: usize = 0;
    while k < v.len()
        invariant
            k <= v@.len(),
            forall|j: int| 0 <= j < v@.len() ==> box_in_reach(#[trigger] v@[j]),
            keys@.len() == k,
            forall|j: int| 0 <= j < k ==> #[trigger] keys@[j] == v@[j].top + v@[j].bottom,
        decreases v.len() - k,
    {
        proof {
            assert(box_in_reach(v@[k as int]));
        }
        keys.push(v[k].top as i128 + v[k].bottom as i128);
        k = k + 1;
    }
    proof {
        assert(sort::wide(keys@) =~= middles(v@));
    }
    take_in_order(v, &keys)
}

/// The boxes in the order of their keys.
fn take_in_order(v: &Vec<Bounds>, keys: &Vec<i128>) -> (r: Vec<Bounds>)
    requires
        keys@.len() == v@.len(),
    ensures
        r@ == sort::pick(v@, sort::stable_order(sort::wide(keys@))),
        r@.len() == v@.len(),
        forall|k: int| 0 <= k < r@.len() ==> v@.contains(#[trigger] r@[k]),
{
    let order: Vec<usize> = sort::order_by(keys);
    let mut out: Vec<Bounds> = Vec::new();
    let mut i: usize = 0;
    while i < order.len()
        invariant
            i <= order@.len() == v@.len(),
            forall|k: int| 0 <= k < order@.len() ==> #[trigger] order@[k] < v@.len(),
            out@.len() == i,
            forall|k: int| 0 <= k < i ==> #[trigger] out@[k] == v@[order@[k] as int],
        decreases order.len() - i,
    {
        out.push(v[order[i]]);
        i = i + 1;
    }
    proof {
        let want = sort::pick(v@, sort::stable_order(sort::wide(keys@)));
        assert forall|k: int| 0 <= k < out@.len() implies #[trigger] out@[k] == want[k] by {
            assert(sort::indices(order@)[k] == order@[k]);
        }
        assert(out@ =~= want);
    }
    out
}

/// The area of a box that lines of text cover, at most its whole area. Text is
/// gathered into lines first, so that the gaps between words count as covered.
pub fn text_coverage(b: &Bounds, items: &Vec<TextItem>) -> (r: i128)
    requires
        box_in_reach(*b),
    ensures
        r == text_area(*b, items@),
        0 <= r <= 0x10_0000_0000_0000_0000,
{
    let whole: i128 = box_area(b);
    let mut clips: Vec<Bounds> = Vec::new();
    let mut heights: Vec<i64> = Vec::new();
    let mut i: usize = 0;
    proof {
        assert(sort::ints(heights@) =~= seq![]);
    }
    while i < items.len()
        invariant
            i <= items@.len(),
            box_in_reach(*b),
            clips@ == clips_upto(items@, *b, i as int),
            sort::ints(heights@) == heights_upto(items@, *b, i as int),
            forall|k: int| 0 <= k < clips@.len() ==> is_proper(#[trigger] clips@[k]),
            forall|k: int| 0 <= k < heights@.len() ==> 0 <= #[trigger] heights@[k] <= 0x2_0000_0000,
        decreases items.len() - i,
    {
        match clip_item(&items[i], b) {
            Some(c) => {
                let h: i64 = types::max64(items[i].height as i64, c.bottom - c.top);
                clips.push(c);
                if h > 500 {
                    proof {
                        assert(sort::ints(heights@.push(h)) =~= sort::ints(heights@).push(
                            h as int,
                        ));
                    }
                    heights.push(h);
                }
            },
            None => {},
        }
        i = i + 1;
    }
    let v: Vec<Bounds> = order_top_down(&clips);
    proof {
        assert forall|k: int| 0 <= k < v@.len() implies is_proper(#[trigger] v@[k]) by {
            assert(clips@.contains(v@[k]));
        }
    }
    if whole <= 0 || v.len() == 0 {
        return 0;
    }
    let height: i64 = median_height(&heights);
    let mut covered: i128 = 0;
    let mut cur: Bounds = v[0];
    let mut k: usize = 1;
    while k < v.len()
        invariant
            1 <= k <= v@.len(),
            0 < whole <= 0x10_0000_0000_0000_0000,
            0 <= covered <= 0x10_0000_0000_0000_0000,
            0 <= height <= 0x2_0000_0000,
            is_proper(cur),
            forall|j: int| 0 <= j < v@.len() ==> is_proper(#[trigger] v@[j]),
            covered_from(v@, height as int, whole as int, 0, v@[0], 1) == covered_from(
                v@,
                height as int,
                whole as int,
                covered as int,
                cur,
                k as int,
            ),
        decreases v.len() - k,
    {
        let d: i64 = (v[k].top + v[k].bottom) - (cur.top + cur.bottom);
        if -height <= d && d <= height {
            cur = union_rect(&cur, &v[k]);
        } else {
            covered = capped(covered + box_area(&cur), whole);
            cur = v[k];
        }
        k = k + 1;
    }
    capped(covered + box_area(&cur), whole)
}

/// Whether a cluster is a figure.
pub fn is_figure_cluster(
    b: &Bounds,
    count: usize,
    page_width: i32,
    page_height: i32,
    items: &Vec<TextItem>,
) -> (r: bool)
    requires
        box_in_reach(*b),
    ensures
        r == is_figure(*b, count as int, page_width as int, page_height as int, items@),
{
    let w: i64 = b.right - b.left;
    let h: i64 = b.bottom - b.top;
    if w < MIN_EXTENT || h < MIN_EXTENT {
        return false;
    }
    let area: i128 = box_area(b);
    if area < MIN_AREA || box_fills_page(b, page_width, page_height) {
        return false;
    }
    if w > 15 * h || h > 15 * w {
        return false;
    }
    if count < 2 && area < SOLO_AREA {
        return false;
    }
    100 * text_coverage(b, items) <= 55 * area
}

fn collect_boxes(graphics: &Vec<GraphicPrimitive>, page_width: i32, page_height: i32) -> (r: Vec<
    Bounds,
>)
    ensures
        r@ == boxes_upto(
            graphics@,
            page_width as int,
            page_height as int,
            graphics@.len() as int,
        ),
        forall|k: int| 0 <= k < r@.len() ==> box_in_reach(#[trigger] r@[k]),
{
    let mut out: Vec<Bounds> = Vec::new();
    let mut i: usize = 0;
    while i < graphics.len()
        invariant
            i <= graphics@.len(),
            out@ == boxes_upto(graphics@, page_width as int, page_height as int, i as int),
            forall|k: int| 0 <= k < out@.len() ==> box_in_reach(#[trigger] out@[k]),
        decreases graphics.len() - i,
    {
        let b: Bounds = graphic_box(&graphics[i]);
        if graphic_counts(&graphics[i], &b, page_width, page_height) {
            out.push(b);
        }
        i = i + 1;
    }
    out
}

/// The cluster of every box: the root of its set.
fn cluster_boxes(boxes: &Vec<Bounds>) -> (r: Vec<usize>)
    requires
        forall|k: int| 0 <= k < boxes@.len() ==> box_in_reach(#[trigger] boxes@[k]),
    ensures
        sort::indices(r@) == clusters(boxes@),
        r@.len() == boxes@.len(),
{
    let n: usize = boxes.len();
    let mut parent: Vec<usize> = union_find::singletons(n);
    let mut i: usize = 0;
    proof {
        assert(union_find::roots_of(parent@) =~= clusters_at(boxes@, 0, 0));
    }
    while i < n
        invariant
            i <= n == boxes@.len(),
            forall|k: int| 0 <= k < boxes@.len() ==> box_in_reach(#[trigger] boxes@[k]),
            parent@.len() == n,
            union_find::is_forest(parent@),
            union_find::roots_of(parent@) == clusters_at(boxes@, i as int, 0),
        decreases n - i,
    {
        let mut j: usize = i + 1;
        proof {
            assert(clusters_at(boxes@, i as int, i + 1) == clusters_at(boxes@, i as int, 0));
        }
        while j < n
            invariant
                i < j <= n == boxes@.len(),
                forall|k: int| 0 <= k < boxes@.len() ==> box_in_reach(#[trigger] boxes@[k]),
                parent@.len() == n,
                union_find::is_forest(parent@),
                union_find::roots_of(parent@) == clusters_at(boxes@, i as int, j as int),
            decreases n - j,
        {
            if close_enough(&boxes[i], &boxes[j]) {
                union_find::uf_union(&mut parent, i, j);
            }
            j = j + 1;
        }
        i = i + 1;
    }
    let ghost roots = clusters(boxes@);
    let mut out: Vec<usize> = Vec::new();
    let mut k: usize = 0;
    while k < n
        invariant
            k <= n,
            parent@.len() == n,
            union_find::is_forest(parent@),
            union_find::roots_of(parent@) == roots,
            out@.len() == k,
            forall|j: int| 0 <= j < k ==> #[trigger] out@[j] == roots[j],
        decreases n - k,
    {
        proof {
            union_find::lemma_roots(parent@, k as int);
        }
        let root: usize = union_find::uf_find(&mut parent, k);
        out.push(root);
        k = k + 1;
    }
    proof {
        if n > 0 {
            union_find::lemma_roots(parent@, 0);
        } else {
            lemma_clusters_len(boxes@, n as int, 0);
        }
        assert(sort::indices(out@) =~= roots);
    }
    out
}

proof fn lemma_clusters_len(boxes: Seq<Bounds>, i: int, j: int)
    ensures
        clusters_at(boxes, i, j).len() == boxes.len(),
    decreases i, j,
{
    if i >= 0 && j > i + 1 {
        lemma_clusters_len(boxes, i, j - 1);
    } else if i > 0 {
        lemma_clusters_len(boxes, i - 1, boxes.len() as int);
    }
}

fn leads_cluster(boxes: &Vec<Bounds>, label: &Vec<usize>, i: usize) -> (r: bool)
    requires
        i < boxes@.len(),
        label@.len() == boxes@.len(),
        sort::indices(label@) == clusters(boxes@),
    ensures
        r == leads(boxes@, i as int),
{
    let ghost gs = clusters(boxes@);
    proof {
        assert(gs[i as int] == label@[i as int]);
    }
    let mut k: usize = 0;
    while k < i
        invariant
            k <= i < label@.len(),
            gs == clusters(boxes@),
            sort::indices(label@) == gs,
            gs[i as int] == label@[i as int],
            forall|j: int| 0 <= j < k ==> #[trigger] gs[j] != gs[i as int],
        decreases i - k,
    {
        proof {
            assert(gs[k as int] == label@[k as int]);
        }
        if label[k] == label[i] {
            proof {
                assert(clusters(boxes@)[k as int] == clusters(boxes@)[i as int]);
            }
            return false;
        }
        k = k + 1;
    }
    true
}

fn cluster_members(boxes: &Vec<Bounds>, label: &Vec<usize>, g: usize) -> (r: Option<
    (Bounds, usize),
>)
    requires
        label@.len() == boxes@.len(),
        sort::indices(label@) == clusters(boxes@),
        forall|k: int| 0 <= k < boxes@.len() ==> box_in_reach(#[trigger] boxes@[k]),
    ensures
        match r {
            Some(m) => members_upto(boxes@, g as int, boxes@.len() as int) == Some(
                (m.0, m.1 as int),
            ) && box_in_reach(m.0),
            None => members_upto(boxes@, g as int, boxes@.len() as int) is None,
        },
{
    let mut out: Option<(Bounds, usize)> = None;
    let mut i: usize = 0;
    while i < boxes.len()
        invariant
            i <= boxes@.len() == label@.len(),
            sort::indices(label@) == clusters(boxes@),
            forall|k: int| 0 <= k < boxes@.len() ==> box_in_reach(#[trigger] boxes@[k]),
            match out {
                Some(m) => members_upto(boxes@, g as int, i as int) == Some((m.0, m.1 as int))
                    && box_in_reach(m.0) && m.1 <= i,
                None => members_upto(boxes@, g as int, i as int) is None,
            },
        decreases boxes.len() - i,
    {
        proof {
            assert(clusters(boxes@)[i as int] == label@[i as int]);
        }
        if label[i] == g {
            out = match out {
                Some(m) => Some((union_rect(&m.0, &boxes[i]), m.1 + 1)),
                None => Some((boxes[i], 1)),
            };
        }
        i = i + 1;
    }
    out
}

/// The figures of a page: the boxes around clusters of graphics.
pub fn detect_figure_rects(
    graphics: &Vec<GraphicPrimitive>,
    items: &Vec<TextItem>,
    page_width: i32,
    page_height: i32,
) -> (r: Vec<Bounds>)
    ensures
        r@ == figures(graphics@, items@, page_width as int, page_height as int),
{
    if page_width <= 0 || page_height <= 0 {
        return Vec::new();
    }
    let boxes: Vec<Bounds> = collect_boxes(graphics, page_width, page_height);
    let label: Vec<usize> = cluster_boxes(&boxes);
    let mut found: Vec<Bounds> = Vec::new();
    let mut keys: Vec<i128> = Vec::new();
    let mut i: usize = 0;
    while i < boxes.len()
        invariant
            i <= boxes@.len() == label@.len(),
            sort::indices(label@) == clusters(boxes@),
            forall|k: int| 0 <= k < boxes@.len() ==> box_in_reach(#[trigger] boxes@[k]),
            found@ == figures_upto(
                boxes@,
                page_width as int,
                page_height as int,
                items@,
                i as int,
            ),
            keys@.len() == found@.len(),
            forall|k: int|
                0 <= k < keys@.len() ==> #[trigger] keys@[k] == 0x4_0000_0000 * found@[k].top
                    + found@[k].left,
        decreases boxes.len() - i,
    {
        proof {
            assert(clusters(boxes@)[i as int] == label@[i as int]);
        }
        match cluster_members(&boxes, &label, label[i]) {
            Some(m) => {
                if leads_cluster(&boxes, &label, i) && is_figure_cluster(
                    &m.0,
                    m.1,
                    page_width,
                    page_height,
                    items,
                ) {
                    found.push(m.0);
                    keys.push(0x4_0000_0000 * (m.0.top as i128) + m.0.left as i128);
                }
            },
            None => {},
        }
        i = i + 1;
    }
    proof {
        assert(sort::wide(keys@) =~= reading_keys(found@));
    }
    take_in_order(&found, &keys)
}

/// Whether a box meets the test for figures for some number of graphics.
pub open spec fn can_be_figure(
    b: Bounds,
    page_width: int,
    page_height: int,
    items: Seq<TextItem>,
) -> bool {
    exists|count: int| is_figure(b, count, page_width, page_height, items)
}

proof fn lemma_in_order(found: Seq<Bounds>)
    ensures
        ({
            let v = sort::pick(found, sort::stable_order(reading_keys(found)));
            &&& v.len() == found.len()
            &&& forall|i: int| 0 <= i < v.len() ==> found.contains(#[trigger] v[i])
            &&& forall|i: int, j: int|
                0 <= i <= j < v.len() ==> reading_keys(v)[i] <= reading_keys(v)[j]
        }),
{
    let keys = reading_keys(found);
    let order = sort::stable_order(keys);
    let v = sort::pick(found, order);
    sort::law_stable_order(keys);
    assert forall|i: int| 0 <= i < v.len() implies found.contains(#[trigger] v[i]) by {
        assert(0 <= order[i] < found.len());
        assert(found[order[i]] == v[i]);
    }
    assert forall|i: int, j: int| 0 <= i <= j < v.len() implies reading_keys(v)[i]
        <= reading_keys(v)[j] by {
        assert(0 <= order[i] < found.len() && 0 <= order[j] < found.len());
        assert(keys[order[i]] == reading_keys(v)[i]);
        assert(keys[order[j]] == reading_keys(v)[j]);
    }
}

/// Every figure meets the test for figures, and figures come from top to bottom, and from
/// left to right where their tops are equal.
pub proof fn law_figures_in_order(
    graphics: Seq<GraphicPrimitive>,
    items: Seq<TextItem>,
    page_width: int,
    page_height: int,
)
    ensures
        ({
            let v = figures(graphics, items, page_width, page_height);
            &&& forall|i: int|
                0 <= i < v.len() ==> can_be_figure(#[trigger] v[i], page_width, page_height, items)
            &&& forall|i: int, j: int|
                0 <= i <= j < v.len() ==> reading_keys(v)[i] <= reading_keys(v)[j]
        }),
{
    let v = figures(graphics, items, page_width, page_height);
    if page_width > 0 && page_height > 0 {
        let boxes = boxes_upto(graphics, page_width, page_height, graphics.len() as int);
        let found = figures_upto(boxes, page_width, page_height, items, boxes.len() as int);
        lemma_in_order(found);
        lemma_found(boxes, page_width, page_height, items, boxes.len() as int);
        assert forall|i: int| 0 <= i < v.len() implies can_be_figure(
            #[trigger] v[i],
            page_width,
            page_height,
            items,
        ) by {
            assert(found.contains(v[i]));
            let k = choose|k: int| 0 <= k < found.len() && found[k] == v[i];
            assert(can_be_figure(found[k], page_width, page_height, items));
        }
    }
}

proof fn lemma_found(
    boxes: Seq<Bounds>,
    page_width: int,
    page_height: int,
    items: Seq<TextItem>,
    n: int,
)
    ensures
        forall|i: int|
            0 <= i < figures_upto(boxes, page_width, page_height, items, n).len()
                ==> can_be_figure(
                #[trigger] figures_upto(boxes, page_width, page_height, items, n)[i],
                page_width,
                page_height,
                items,
            ),
    decreases n,
{
    if n > 0 {
        lemma_found(boxes, page_width, page_height, items, n - 1);
        let before = figures_upto(boxes, page_width, page_height, items, n - 1);
        let after = figures_upto(boxes, page_width, page_height, items, n);
        assert forall|i: int| 0 <= i < after.len() implies can_be_figure(
            #[trigger] after[i],
            page_width,
            page_height,
            items,
        ) by {
            if i < before.len() {
                assert(after[i] == before[i]);
            } else {
                let m = members_upto(boxes, clusters(boxes)[n - 1], boxes.len() as int)->0;
                assert(after[i] == m.0);
                assert(is_figure(m.0, m.1, page_width, page_height, items));
            }
        }
    }
}

} // verus!
