//! What the figures of a page are made of.

use crate::figure_cluster;
use crate::sort;
use crate::types::{Bounds, GraphicPrimitive, TextItem};
use crate::union_find;
use vstd::prelude::*;

verus! {

/// The box that a graphic takes up.
pub open spec fn extent(g: GraphicPrimitive) -> Bounds {
    match g {
        GraphicPrimitive::Stroke { x1, y1, x2, y2, .. } => Bounds {
            left: if x1 <= x2 {
                x1 as i64
            } else {
                x2 as i64
            },
            top: if y1 <= y2 {
                y1 as i64
            } else {
                y2 as i64
            },
            right: if x1 <= x2 {
                x2 as i64
            } else {
                x1 as i64
            },
            bottom: if y1 <= y2 {
                y2 as i64
            } else {
                y1 as i64
            },
        },
        GraphicPrimitive::Rect { bbox, .. } => Bounds {
            left: bbox.x as i64,
            top: bbox.y as i64,
            right: (bbox.x + bbox.width) as i64,
            bottom: (bbox.y + bbox.height) as i64,
        },
    }
}

/// Whether a box is 95 percent of the page or more in both directions.
pub open spec fn is_backdrop(b: Bounds, page_width: int, page_height: int) -> bool {
    100 * (b.right - b.left) >= 95 * page_width && 100 * (b.bottom - b.top) >= 95 * page_height
}

/// Whether a graphic can be part of a figure. A backdrop cannot, nor a dividing rule, two
/// points thick and 30 percent of the page long, nor a stroke under four points or a box
/// under two points in both directions.
pub open spec fn takes_part(g: GraphicPrimitive, page_width: int, page_height: int) -> bool {
    let b = extent(g);
    let wide = b.right - b.left;
    let tall = b.bottom - b.top;
    &&& !is_backdrop(b, page_width, page_height)
    &&& match g {
        GraphicPrimitive::Stroke { width, .. } => {
            &&& wide >= 4_000 || tall >= 4_000
            &&& tall <= 2_000 && width <= 2_000 ==> 100 * wide < 30 * page_width
        },
        GraphicPrimitive::Rect { .. } => wide >= 2_000 || tall >= 2_000,
    }
}

/// The boxes of the graphics that can be part of a figure.
pub open spec fn parts(
    graphics: Seq<GraphicPrimitive>,
    page_width: int,
    page_height: int,
) -> Seq<Bounds> {
    figure_cluster::boxes_upto(graphics, page_width, page_height, graphics.len() as int)
}

proof fn lemma_parts(graphics: Seq<GraphicPrimitive>, page_width: int, page_height: int, n: int)
    requires
        0 <= n <= graphics.len(),
    ensures
        figure_cluster::boxes_upto(graphics, page_width, page_height, n) == graphics.take(n).filter(
            |g: GraphicPrimitive| takes_part(g, page_width, page_height),
        ).map_values(|g: GraphicPrimitive| extent(g)),
    decreases n,
{
    reveal(Seq::filter);
    let f = |g: GraphicPrimitive| takes_part(g, page_width, page_height);
    let e = |g: GraphicPrimitive| extent(g);
    let all = graphics.take(n).filter(f).map_values(e);
    if n > 0 {
        lemma_parts(graphics, page_width, page_height, n - 1);
        assert(graphics.take(n).drop_last() =~= graphics.take(n - 1));
        assert(graphics.take(n).last() == graphics[n - 1]);
        let before = graphics.take(n - 1).filter(f);
        if f(graphics[n - 1]) {
            assert(all =~= before.map_values(e).push(extent(graphics[n - 1])));
        }
    } else {
        assert(all =~= seq![]);
    }
}

/// The graphics that can be part of a figure are all but backdrops, dividing rules and tiny
/// ones, and each takes up the box from its least to its greatest coordinates.
pub proof fn law_parts(graphics: Seq<GraphicPrimitive>, page_width: int, page_height: int)
    ensures
        parts(graphics, page_width, page_height) == graphics.filter(
            |g: GraphicPrimitive| takes_part(g, page_width, page_height),
        ).map_values(|g: GraphicPrimitive| extent(g)),
{
    lemma_parts(graphics, page_width, page_height, graphics.len() as int);
    assert(graphics.take(graphics.len() as int) =~= graphics);
}

/// Whether two boxes are at most ten points apart in both directions.
pub open spec fn are_close(a: Bounds, b: Bounds) -> bool {
    &&& a.left - b.right <= 10_000 && b.left - a.right <= 10_000
    &&& a.top - b.bottom <= 10_000 && b.top - a.bottom <= 10_000
}

/// Whether close boxes have the same label.
pub open spec fn is_coloring(boxes: Seq<Bounds>, label: Seq<int>) -> bool {
    forall|i: int, j: int|
        0 <= i < j < boxes.len() && are_close(#[trigger] boxes[i], #[trigger] boxes[j])
            ==> label[i] == label[j]
}

proof fn lemma_clusters(boxes: Seq<Bounds>, label: Seq<int>, i: int, j: int)
    requires
        is_coloring(boxes, label),
        0 <= i <= boxes.len(),
        j <= boxes.len(),
    ensures
        ({
            let c = figure_cluster::clusters_at(boxes, i, j);
            &&& c.len() == boxes.len()
            &&& forall|a: int, b: int|
                0 <= a < boxes.len() && 0 <= b < boxes.len() && #[trigger] c[a] == #[trigger] c[b]
                    ==> label[a] == label[b]
            &&& forall|a: int, b: int|
                0 <= a < b < boxes.len() && (a < i || a == i && b < j) && are_close(
                    #[trigger] boxes[a],
                    #[trigger] boxes[b],
                ) ==> c[a] == c[b]
        }),
    decreases i, j,
{
    let c = figure_cluster::clusters_at(boxes, i, j);
    if j > i + 1 {
        lemma_clusters(boxes, label, i, j - 1);
        let before = figure_cluster::clusters_at(boxes, i, j - 1);
        if figure_cluster::close(boxes[i], boxes[j - 1]) {
            assert(are_close(boxes[i], boxes[j - 1]));
            assert(c == union_find::joined(before, i, j - 1));
            assert forall|a: int, b: int|
                0 <= a < boxes.len() && 0 <= b < boxes.len() && #[trigger] c[a]
                    == #[trigger] c[b] implies label[a] == label[b] by {
                assert(before[a] == before[a] && before[b] == before[b]);
                assert(before[i] == before[i] && before[j - 1] == before[j - 1]);
            }
            assert forall|a: int, b: int|
                0 <= a < b < boxes.len() && (a < i || a == i && b < j) && are_close(
                    #[trigger] boxes[a],
                    #[trigger] boxes[b],
                ) implies c[a] == c[b] by {
                if !(a == i && b == j - 1) {
                    assert(before[a] == before[b]);
                }
            }
        } else {
            assert(!are_close(boxes[i], boxes[j - 1]));
        }
    } else if i > 0 {
        lemma_clusters(boxes, label, i - 1, boxes.len() as int);
    }
}

/// Boxes that are close belong to one cluster, and boxes of one cluster are linked by close
/// ones: whatever is the same for all close boxes is the same for a whole cluster.
pub proof fn law_clusters(boxes: Seq<Bounds>, label: Seq<int>)
    requires
        is_coloring(boxes, label),
    ensures
        ({
            let c = figure_cluster::clusters(boxes);
            &&& c.len() == boxes.len()
            &&& is_coloring(boxes, c)
            &&& forall|a: int, b: int|
                0 <= a < boxes.len() && 0 <= b < boxes.len() && #[trigger] c[a] == #[trigger] c[b]
                    ==> label[a] == label[b]
        }),
{
    lemma_clusters(boxes, label, boxes.len() as int, 0);
}

/// Whether a box lies within another.
pub open spec fn is_within(a: Bounds, b: Bounds) -> bool {
    b.left <= a.left && b.top <= a.top && a.right <= b.right && a.bottom <= b.bottom
}

/// Whether `b` is the smallest box around the boxes of a cluster.
pub open spec fn is_hull(boxes: Seq<Bounds>, g: int, b: Bounds, n: int) -> bool {
    let c = figure_cluster::clusters(boxes);
    &&& forall|k: int| 0 <= k < n && #[trigger] c[k] == g ==> is_within(boxes[k], b)
    &&& exists|k: int| 0 <= k < n && #[trigger] c[k] == g && boxes[k].left == b.left
    &&& exists|k: int| 0 <= k < n && #[trigger] c[k] == g && boxes[k].top == b.top
    &&& exists|k: int| 0 <= k < n && #[trigger] c[k] == g && boxes[k].right == b.right
    &&& exists|k: int| 0 <= k < n && #[trigger] c[k] == g && boxes[k].bottom == b.bottom
}

/// Whether one box of a cluster is all of it.
pub open spec fn is_alone(boxes: Seq<Bounds>, g: int, n: int) -> bool {
    let c = figure_cluster::clusters(boxes);
    forall|a: int, b: int|
        0 <= a < n && 0 <= b < n && #[trigger] c[a] == g && #[trigger] c[b] == g ==> a == b
}

/// Whether a box is large enough for a figure, and no text: 30 points or more and 1,500
/// square points, no backdrop, at most fifteen times as long as wide, 5,000 square points if
/// it is one graphic, and at most 55 percent of it text.
pub open spec fn is_picture(
    b: Bounds,
    alone: bool,
    page_width: int,
    page_height: int,
    items: Seq<TextItem>,
) -> bool {
    let wide = b.right - b.left;
    let tall = b.bottom - b.top;
    &&& wide >= 30_000 && tall >= 30_000
    &&& wide * tall >= 1_500_000_000
    &&& !is_backdrop(b, page_width, page_height)
    &&& wide <= 15 * tall && tall <= 15 * wide
    &&& alone ==> wide * tall >= 5_000_000_000
    &&& 100 * figure_cluster::text_area(b, items) <= 55 * (wide * tall)
}

proof fn lemma_members(boxes: Seq<Bounds>, g: int, n: int)
    requires
        0 <= n <= boxes.len(),
    ensures
        match figure_cluster::members_upto(boxes, g, n) {
            Some(m) => is_hull(boxes, g, m.0, n) && m.1 >= 1 && (m.1 == 1 <==> is_alone(
                boxes,
                g,
                n,
            )),
            None => forall|k: int|
                0 <= k < n ==> #[trigger] figure_cluster::clusters(boxes)[k] != g,
        },
    decreases n,
{
    let c = figure_cluster::clusters(boxes);
    if n > 0 {
        lemma_members(boxes, g, n - 1);
        let before = figure_cluster::members_upto(boxes, g, n - 1);
        if c[n - 1] == g {
            match before {
                Some(m) => {
                    let b = figure_cluster::around(m.0, boxes[n - 1]);
                    let k1 = choose|k: int|
                        0 <= k < n - 1 && #[trigger] c[k] == g && boxes[k].left == m.0.left;
                    let k2 = choose|k: int|
                        0 <= k < n - 1 && #[trigger] c[k] == g && boxes[k].top == m.0.top;
                    let k3 = choose|k: int|
                        0 <= k < n - 1 && #[trigger] c[k] == g && boxes[k].right == m.0.right;
                    let k4 = choose|k: int|
                        0 <= k < n - 1 && #[trigger] c[k] == g && boxes[k].bottom == m.0.bottom;
                    assert(c[k1] == g && c[k2] == g && c[k3] == g && c[k4] == g);
                    assert(is_hull(boxes, g, b, n));
                    assert(c[k1] == g && c[n - 1] == g && k1 != n - 1);
                    assert(!is_alone(boxes, g, n));
                },
                None => {
                    assert(is_hull(boxes, g, boxes[n - 1], n));
                },
            }
        } else {
            match before {
                Some(m) => {
                    let k1 = choose|k: int|
                        0 <= k < n - 1 && #[trigger] c[k] == g && boxes[k].left == m.0.left;
                    let k2 = choose|k: int|
                        0 <= k < n - 1 && #[trigger] c[k] == g && boxes[k].top == m.0.top;
                    let k3 = choose|k: int|
                        0 <= k < n - 1 && #[trigger] c[k] == g && boxes[k].right == m.0.right;
                    let k4 = choose|k: int|
                        0 <= k < n - 1 && #[trigger] c[k] == g && boxes[k].bottom == m.0.bottom;
                    assert(c[k1] == g && c[k2] == g && c[k3] == g && c[k4] == g);
                    assert(is_hull(boxes, g, m.0, n));
                    assert(is_alone(boxes, g, n - 1) ==> is_alone(boxes, g, n));
                    assert(is_alone(boxes, g, n) ==> is_alone(boxes, g, n - 1));
                },
                None => {},
            }
        }
    }
}

/// Whether a box is the figure that the cluster of box `i` makes.
pub open spec fn is_figure_of(
    boxes: Seq<Bounds>,
    i: int,
    b: Bounds,
    page_width: int,
    page_height: int,
    items: Seq<TextItem>,
) -> bool {
    let n = boxes.len() as int;
    let g = figure_cluster::clusters(boxes)[i];
    is_hull(boxes, g, b, n) && is_picture(
        b,
        is_alone(boxes, g, n),
        page_width,
        page_height,
        items,
    )
}

proof fn lemma_figures_upto(
    boxes: Seq<Bounds>,
    page_width: int,
    page_height: int,
    items: Seq<TextItem>,
    n: int,
)
    requires
        0 <= n <= boxes.len(),
    ensures
        ({
            let v = figure_cluster::figures_upto(boxes, page_width, page_height, items, n);
            &&& forall|k: int|
                0 <= k < v.len() ==> is_some_figure(
                    boxes,
                    #[trigger] v[k],
                    page_width,
                    page_height,
                    items,
                )
            &&& forall|i: int, b: Bounds|
                0 <= i < n && #[trigger] is_figure_of(
                    boxes,
                    i,
                    b,
                    page_width,
                    page_height,
                    items,
                ) ==> v.contains(b)
        }),
    decreases n,
{
    if n > 0 {
        lemma_figures_upto(boxes, page_width, page_height, items, n - 1);
        let before = figure_cluster::figures_upto(boxes, page_width, page_height, items, n - 1);
        let v = figure_cluster::figures_upto(boxes, page_width, page_height, items, n);
        let c = figure_cluster::clusters(boxes);
        let g = c[n - 1];
        lemma_members(boxes, g, boxes.len() as int);
        assert(figure_cluster::members_upto(boxes, g, boxes.len() as int) is Some);
        let m = figure_cluster::members_upto(boxes, g, boxes.len() as int)->0;
        assert(figure_cluster::is_figure(m.0, m.1, page_width, page_height, items)
            ==> is_figure_of(boxes, n - 1, m.0, page_width, page_height, items));
        assert(is_figure_of(boxes, n - 1, m.0, page_width, page_height, items)
            ==> figure_cluster::is_figure(m.0, m.1, page_width, page_height, items));
        assert forall|i: int, b: Bounds|
            0 <= i < n && #[trigger] is_figure_of(
                boxes,
                i,
                b,
                page_width,
                page_height,
                items,
            ) implies v.contains(b) by {
            if i < n - 1 {
                assert(before.contains(b));
                let k = choose|k: int| 0 <= k < before.len() && before[k] == b;
                assert(v[k] == b);
            } else {
                lemma_one_hull(boxes, g, b, m.0, boxes.len() as int);
                if figure_cluster::leads(boxes, n - 1) {
                    assert(v[before.len() as int] == b);
                } else {
                    let k = choose|k: int| 0 <= k < n - 1 && #[trigger] c[k] == g;
                    assert(is_figure_of(boxes, k, b, page_width, page_height, items));
                    assert(before.contains(b));
                    let q = choose|q: int| 0 <= q < before.len() && before[q] == b;
                    assert(v[q] == b);
                }
            }
        }
    }
}

proof fn lemma_one_hull(boxes: Seq<Bounds>, g: int, a: Bounds, b: Bounds, n: int)
    requires
        is_hull(boxes, g, a, n),
        is_hull(boxes, g, b, n),
    ensures
        a == b,
{
}

/// Whether a box is the figure that some cluster makes.
pub open spec fn is_some_figure(
    boxes: Seq<Bounds>,
    b: Bounds,
    page_width: int,
    page_height: int,
    items: Seq<TextItem>,
) -> bool {
    exists|i: int|
        0 <= i < boxes.len() && #[trigger] is_figure_of(
            boxes,
            i,
            b,
            page_width,
            page_height,
            items,
        )
}

/// The figures of a page are the smallest boxes around the clusters of its graphics that are
/// large enough and hold little enough text, each of them and no other.
pub proof fn law_figures(
    graphics: Seq<GraphicPrimitive>,
    items: Seq<TextItem>,
    page_width: int,
    page_height: int,
)
    requires
        page_width > 0,
        page_height > 0,
    ensures
        ({
            let boxes = parts(graphics, page_width, page_height);
            forall|b: Bounds| #[trigger]
                figure_cluster::figures(graphics, items, page_width, page_height).contains(b)
                    <==> is_some_figure(boxes, b, page_width, page_height, items)
        }),
{
    let boxes = parts(graphics, page_width, page_height);
    let n = boxes.len() as int;
    let found = figure_cluster::figures_upto(boxes, page_width, page_height, items, n);
    let v = figure_cluster::figures(graphics, items, page_width, page_height);
    let keys = figure_cluster::reading_keys(found);
    let order = sort::stable_order(keys);
    lemma_figures_upto(boxes, page_width, page_height, items, n);
    sort::law_stable_order(keys);
    assert(v == sort::pick(found, order));
    assert forall|b: Bounds| #[trigger] v.contains(b) <==> is_some_figure(
        boxes,
        b,
        page_width,
        page_height,
        items,
    ) by {
        if v.contains(b) {
            let k = choose|k: int| 0 <= k < v.len() && v[k] == b;
            assert(0 <= order[k] < found.len());
            assert(found[order[k]] == b);
        }
        if is_some_figure(boxes, b, page_width, page_height, items) {
            assert(found.contains(b));
            let q = choose|q: int| 0 <= q < found.len() && found[q] == b;
            assert(order.contains(q));
            let k = choose|k: int| 0 <= k < order.len() && order[k] == q;
            assert(v[k] == b);
        }
    }
}

/// The length that two stretches have in common, negative if they are apart.
pub open spec fn shared(a: int, b: int, c: int, d: int) -> int {
    let left = if a >= c {
        a
    } else {
        c
    };
    let right = if b <= d {
        b
    } else {
        d
    };
    right - left
}

/// Whether a text item lies in a box in part.
pub open spec fn is_inside(t: TextItem, b: Bounds) -> bool {
    shared(t.x as int, t.x + t.width, b.left as int, b.right as int) > 0 && shared(
        t.y as int,
        t.y + t.height,
        b.top as int,
        b.bottom as int,
    ) > 0
}

/// The area of the part of a text item that lies in a box.
pub open spec fn area_inside(t: TextItem, b: Bounds) -> int {
    shared(t.x as int, t.x + t.width, b.left as int, b.right as int) * shared(
        t.y as int,
        t.y + t.height,
        b.top as int,
        b.bottom as int,
    )
}

proof fn lemma_area(a: Bounds, b: Bounds)
    requires
        is_within(a, b),
        a.left <= a.right,
        a.top <= a.bottom,
    ensures
        0 <= figure_cluster::area_of(a) <= figure_cluster::area_of(b),
{
    let w = a.right - a.left;
    let h = a.bottom - a.top;
    let ww = b.right - b.left;
    let hh = b.bottom - b.top;
    assert(0 <= w * h <= ww * hh) by (nonlinear_arith)
        requires
            0 <= w <= ww,
            0 <= h <= hh,
    ;
}

proof fn lemma_covered(
    v: Seq<Bounds>,
    height: int,
    most: int,
    covered: int,
    cur: Bounds,
    i: int,
)
    requires
        0 <= i <= v.len(),
        0 <= covered <= most,
        cur.left <= cur.right,
        cur.top <= cur.bottom,
        forall|k: int|
            0 <= k < v.len() ==> (#[trigger] v[k]).left <= v[k].right && v[k].top <= v[k].bottom
                && figure_cluster::area_of(v[k]) <= most,
    ensures
        ({
            let all = figure_cluster::covered_from(v, height, most, covered, cur, i);
            &&& covered <= all <= most
            &&& all >= figure_cluster::area_of(cur) || all == most
            &&& forall|k: int|
                i <= k < v.len() ==> figure_cluster::area_of(#[trigger] v[k]) <= all
        }),
    decreases v.len() - i,
{
    lemma_area(cur, cur);
    if i < v.len() {
        assert(v[i].left <= v[i].right);
        let joint = figure_cluster::around(cur, v[i]);
        lemma_area(cur, joint);
        lemma_area(v[i], joint);
        let d = (v[i].top + v[i].bottom) - (cur.top + cur.bottom);
        if -height <= d <= height {
            lemma_covered(v, height, most, covered, joint, i + 1);
        } else {
            let sum = covered + figure_cluster::area_of(cur);
            let more = if sum <= most {
                sum
            } else {
                most
            };
            lemma_covered(v, height, most, more, v[i], i + 1);
        }
    }
}

proof fn lemma_clips(items: Seq<TextItem>, b: Bounds, n: int)
    requires
        0 <= n <= items.len(),
    ensures
        ({
            let v = figure_cluster::clips_upto(items, b, n);
            &&& forall|k: int|
                0 <= k < v.len() ==> is_within(#[trigger] v[k], b) && v[k].left < v[k].right
                    && v[k].top < v[k].bottom
            &&& forall|i: int|
                0 <= i < n && is_inside(#[trigger] items[i], b) ==> has_area(
                    v,
                    area_inside(items[i], b),
                )
            &&& v.len() > 0 ==> exists|i: int| 0 <= i < n && is_inside(#[trigger] items[i], b)
        }),
    decreases n,
{
    let v = figure_cluster::clips_upto(items, b, n);
    if n > 0 {
        lemma_clips(items, b, n - 1);
        let before = figure_cluster::clips_upto(items, b, n - 1);
        let t = items[n - 1];
        match figure_cluster::clip(t, b) {
            Some(c) => {
                assert(is_inside(items[n - 1], b));
                assert forall|i: int| 0 <= i < n && is_inside(#[trigger] items[i], b) implies has_area(
                    v,
                    area_inside(items[i], b),
                ) by {
                    if i < n - 1 {
                        assert(has_area(before, area_inside(items[i], b)));
                        let k = choose|k: int|
                            0 <= k < before.len() && figure_cluster::area_of(#[trigger] before[k])
                                == area_inside(items[i], b);
                        assert(figure_cluster::area_of(v[k]) == area_inside(items[i], b));
                    } else {
                        assert(figure_cluster::area_of(v[before.len() as int]) == area_inside(
                            items[i],
                            b,
                        ));
                    }
                }
            },
            None => {
                assert(!is_inside(t, b));
                if before.len() > 0 {
                    let i = choose|i: int| 0 <= i < n - 1 && is_inside(#[trigger] items[i], b);
                    assert(is_inside(items[i], b));
                }
            },
        }
    }
}

/// Whether one of the boxes has an area.
pub open spec fn has_area(v: Seq<Bounds>, area: int) -> bool {
    exists|k: int| 0 <= k < v.len() && figure_cluster::area_of(#[trigger] v[k]) == area
}

/// The text in a box takes up at least the area of each text item in it, at most the whole
/// box, and nothing where no item lies in it.
pub proof fn law_text_area(b: Bounds, items: Seq<TextItem>)
    requires
        b.left < b.right,
        b.top < b.bottom,
    ensures
        0 <= figure_cluster::text_area(b, items) <= (b.right - b.left) * (b.bottom - b.top),
        forall|i: int|
            0 <= i < items.len() && is_inside(#[trigger] items[i], b) ==> area_inside(items[i], b)
                <= figure_cluster::text_area(b, items),
        (forall|i: int| 0 <= i < items.len() ==> !is_inside(#[trigger] items[i], b))
            ==> figure_cluster::text_area(b, items) == 0,
{
    let n = items.len() as int;
    let clips = figure_cluster::clips_upto(items, b, n);
    let keys = figure_cluster::middles(clips);
    let order = sort::stable_order(keys);
    let v = figure_cluster::top_down(clips);
    let most = figure_cluster::area_of(b);
    assert(most > 0) by (nonlinear_arith)
        requires
            most == (b.right - b.left) * (b.bottom - b.top),
            b.left < b.right,
            b.top < b.bottom,
    ;
    lemma_clips(items, b, n);
    sort::law_stable_order(keys);
    assert forall|k: int| 0 <= k < v.len() implies (#[trigger] v[k]).left <= v[k].right && v[k].top
        <= v[k].bottom && figure_cluster::area_of(v[k]) <= most by {
        assert(0 <= order[k] < clips.len());
        assert(v[k] == clips[order[k]]);
        lemma_area(v[k], b);
    }
    if v.len() > 0 {
        let height = figure_cluster::line_height(figure_cluster::heights_upto(items, b, n));
        assert(v[0].left <= v[0].right);
        lemma_covered(v, height, most, 0, v[0], 1);
        let all = figure_cluster::covered_from(v, height, most, 0, v[0], 1);
        assert forall|i: int| 0 <= i < items.len() && is_inside(#[trigger] items[i], b) implies area_inside(
            items[i],
            b,
        ) <= all by {
            assert(has_area(clips, area_inside(items[i], b)));
            let q = choose|q: int|
                0 <= q < clips.len() && figure_cluster::area_of(#[trigger] clips[q])
                    == area_inside(items[i], b);
            assert(order.contains(q));
            let k = choose|k: int| 0 <= k < order.len() && order[k] == q;
            assert(v[k] == clips[q]);
        }
    } else {
        assert forall|i: int| 0 <= i < items.len() implies !is_inside(#[trigger] items[i], b) by {
            if is_inside(items[i], b) {
                assert(has_area(clips, area_inside(items[i], b)));
            }
        }
    }
}

} // verus!
