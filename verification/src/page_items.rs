//! What holds of the items of a page after duplicates and text outside the page are left
//! out, and after links and strikethrough are assigned.

use vstd::prelude::*;
use crate::item_marks;
use crate::item_marks::{EdgeBox, PageLink};
use crate::sort;
use crate::text;
use crate::types::{GraphicPrimitive, ItemView};

verus! {

/// How much two stretches, each given by its beginning and its length, have in common;
/// negative where they are apart.
pub open spec fn in_common(a: int, a_len: int, b: int, b_len: int) -> int {
    (if a + a_len <= b + b_len {
        a + a_len
    } else {
        b + b_len
    }) - (if a <= b {
        b
    } else {
        a
    })
}

/// Whether an item is covered by a later one: their boxes overlap, and their texts are the
/// same, or more than half of the smaller box is shared and neither is more than five times
/// as large as the other.
pub open spec fn is_covered(a: ItemView, b: ItemView) -> bool {
    let w = in_common(a.x, a.width, b.x, b.width);
    let h = in_common(a.y, a.height, b.y, b.height);
    let area_a = a.width * a.height;
    let area_b = b.width * b.height;
    &&& w > 0
    &&& h > 0
    &&& {
        ||| a.text == b.text
        ||| area_a > 0 && area_b > 0 && area_a <= 5 * area_b && area_b <= 5 * area_a && (2 * (w
            * h) > area_a || 2 * (w * h) > area_b)
    }
}

/// Whether a part of an item is on the page; an item without width or height counts as a
/// tenth of a point wide and high.
pub open spec fn is_inside(it: ItemView, width: int, height: int) -> bool {
    &&& it.x < width && it.y < height
    &&& it.x > -100 || it.x + it.width > 0
    &&& it.y > -100 || it.y + it.height > 0
}

/// Whether `at` lists the positions of the items that stay, in order: those that no later
/// item covers.
pub open spec fn lists_uncovered(items: Seq<ItemView>, at: Seq<int>, left: Seq<ItemView>) -> bool {
    &&& at.len() == left.len()
    &&& forall|k: int|
        0 <= k < at.len() ==> 0 <= #[trigger] at[k] < items.len() && left[k] == items[at[k]]
    &&& forall|k: int, l: int| 0 <= k < l < at.len() ==> #[trigger] at[k] < #[trigger] at[l]
    &&& forall|i: int|
        0 <= i < items.len() ==> (at.contains(i) <==> forall|j: int|
            i < j < items.len() ==> !is_covered(#[trigger] items[i], #[trigger] items[j]))
}

proof fn lemma_covered(a: ItemView, b: ItemView)
    ensures
        item_marks::supersedes(a, b) == is_covered(a, b),
{
    let w = in_common(a.x, a.width, b.x, b.width);
    let h = in_common(a.y, a.height, b.y, b.height);
    if w > 0 && h > 0 {
        assert(w * h > 0) by (nonlinear_arith)
            requires
                w > 0,
                h > 0,
        ;
        assert(item_marks::shared_area(a, b) == w * h);
    }
}

proof fn lemma_uncovered(items: Seq<ItemView>, n: int) -> (at: Seq<int>)
    requires
        0 <= n <= items.len(),
    ensures
        at.len() == item_marks::distinct_upto(items, n).len(),
        forall|k: int|
            0 <= k < at.len() ==> 0 <= #[trigger] at[k] < n && item_marks::distinct_upto(
                items,
                n,
            )[k] == items[at[k]],
        forall|k: int, l: int| 0 <= k < l < at.len() ==> #[trigger] at[k] < #[trigger] at[l],
        forall|i: int|
            0 <= i < n ==> (at.contains(i) <==> !#[trigger] item_marks::is_superseded(items, i)),
    decreases n,
{
    if n <= 0 {
        seq![]
    } else {
        let before = lemma_uncovered(items, n - 1);
        if item_marks::is_superseded(items, n - 1) {
            assert(!before.contains(n - 1));
            before
        } else {
            let at = before.push(n - 1);
            assert forall|i: int| 0 <= i < n implies (at.contains(i)
                <==> !#[trigger] item_marks::is_superseded(items, i)) by {
                if i < n - 1 {
                    if before.contains(i) {
                        let k = choose|k: int| 0 <= k < before.len() && before[k] == i;
                        assert(at[k] == i);
                    }
                    if at.contains(i) {
                        let k = choose|k: int| 0 <= k < at.len() && at[k] == i;
                        assert(before[k] == i);
                    }
                } else {
                    assert(at[before.len() as int] == i);
                }
            }
            at
        }
    }
}

/// An item goes exactly where a later one covers it; the others stay in their order.
pub proof fn law_covered_items_go(items: Seq<ItemView>)
    ensures
        exists|at: Seq<int>| #[trigger]
            lists_uncovered(
                items,
                at,
                item_marks::distinct_upto(items, items.len() as int),
            ),
{
    let left = item_marks::distinct_upto(items, items.len() as int);
    let at = lemma_uncovered(items, items.len() as int);
    assert forall|i: int| 0 <= i < items.len() implies (at.contains(i) <==> forall|j: int|
        i < j < items.len() ==> !is_covered(#[trigger] items[i], #[trigger] items[j])) by {
        assert(at.contains(i) <==> !item_marks::is_superseded(items, i));
        if item_marks::is_superseded(items, i) {
            let j = choose|j: int|
                i < j < items.len() && item_marks::supersedes(items[i], #[trigger] items[j]);
            lemma_covered(items[i], items[j]);
        } else {
            assert forall|j: int| i < j < items.len() implies !is_covered(
                #[trigger] items[i],
                #[trigger] items[j],
            ) by {
                lemma_covered(items[i], items[j]);
                assert(!item_marks::supersedes(items[i], items[j]));
            }
        }
    }
    assert(lists_uncovered(items, at, left));
}

/// Items that are on the page at least in part stay, in their order, and no others.
pub proof fn law_items_on_the_page_stay(
    items: Seq<ItemView>,
    width: int,
    height: int,
    n: int,
)
    requires
        0 <= n <= items.len(),
    ensures
        ({
            let r = item_marks::on_page_upto(items, width, height, n);
            &&& forall|k: int|
                0 <= k < r.len() ==> is_inside(#[trigger] r[k], width, height) && items.contains(
                    r[k],
                )
            &&& forall|i: int|
                0 <= i < n && is_inside(#[trigger] items[i], width, height) ==> r.contains(
                    items[i],
                )
        }),
    decreases n,
{
    if n > 0 {
        law_items_on_the_page_stay(items, width, height, n - 1);
        let b = item_marks::on_page_upto(items, width, height, n - 1);
        let r = item_marks::on_page_upto(items, width, height, n);
        assert forall|k: int| 0 <= k < r.len() implies is_inside(#[trigger] r[k], width, height)
            && items.contains(r[k]) by {
            if k < b.len() {
                assert(r[k] == b[k]);
            }
        }
        assert forall|i: int| 0 <= i < n && is_inside(#[trigger] items[i], width, height) implies r.contains(
            items[i],
        ) by {
            if i < n - 1 {
                let k = choose|k: int| 0 <= k < b.len() && b[k] == items[i];
                assert(r[k] == items[i]);
            } else {
                assert(r[b.len() as int] == items[i]);
            }
        }
    }
}

// ---------------------------------------------------------------------------
// Links
// ---------------------------------------------------------------------------

/// Whether the middle of an item is in a box, its edges included.
pub open spec fn has_middle_in(it: ItemView, b: EdgeBox) -> bool {
    &&& it.x + it.width - b.left >= b.left - it.x
    &&& it.x + it.width - b.right <= b.right - it.x
    &&& it.y + it.height - b.top >= b.top - it.y
    &&& it.y + it.height - b.bottom <= b.bottom - it.y
}

/// Whether a link is at most 1.8 times as high as all items whose middles it covers.
pub open spec fn fits_all(items: Seq<ItemView>, link: PageLink) -> bool {
    forall|j: int|
        0 <= j < items.len() && has_middle_in(#[trigger] items[j], link.rect) ==> 10 * (
        link.rect.bottom - link.rect.top) <= 18 * items[j].height
}

/// Whether a link is at most 1.8 times as high as one of the items whose middles it covers,
/// or covers one without height.
pub open spec fn fits_some(items: Seq<ItemView>, link: PageLink) -> bool {
    exists|j: int|
        0 <= j < items.len() && has_middle_in(#[trigger] items[j], link.rect) && (
        items[j].height <= 0 || 10 * (link.rect.bottom - link.rect.top) <= 18 * items[j].height)
}

/// Whether one of the first `n` items has its middle in a box and the given height.
spec fn has_height(items: Seq<ItemView>, b: EdgeBox, n: int, h: int) -> bool {
    exists|j: int| 0 <= j < n && has_middle_in(#[trigger] items[j], b) && items[j].height == h
}

proof fn lemma_heights(items: Seq<ItemView>, b: EdgeBox, n: int)
    requires
        0 <= n <= items.len(),
    ensures
        forall|k: int|
            0 <= k < item_marks::heights_in(items, b, n).len() ==> has_height(
                items,
                b,
                n,
                #[trigger] item_marks::heights_in(items, b, n)[k],
            ),
        forall|j: int|
            0 <= j < n && has_middle_in(#[trigger] items[j], b) ==> item_marks::heights_in(
                items,
                b,
                n,
            ).len() > 0,
    decreases n,
{
    if n > 0 {
        lemma_heights(items, b, n - 1);
        let v = item_marks::heights_in(items, b, n - 1);
        let w = item_marks::heights_in(items, b, n);
        assert(item_marks::centered_in(items[n - 1], b) == has_middle_in(items[n - 1], b));
        assert forall|k: int| 0 <= k < w.len() implies has_height(items, b, n, #[trigger] w[k]) by {
            if k < v.len() {
                assert(w[k] == v[k]);
                let j = choose|j: int|
                    0 <= j < n - 1 && has_middle_in(#[trigger] items[j], b) && items[j].height
                        == v[k];
                assert(has_middle_in(items[j], b));
            } else {
                assert(has_middle_in(items[n - 1], b));
            }
        }
    }
}

proof fn lemma_applies(items: Seq<ItemView>, link: PageLink)
    ensures
        item_marks::applies(items, link) ==> fits_some(items, link),
        fits_all(items, link) && (exists|j: int|
            0 <= j < items.len() && has_middle_in(#[trigger] items[j], link.rect))
            ==> item_marks::applies(items, link),
{
    let n = items.len() as int;
    let v = item_marks::heights_in(items, link.rect, n);
    lemma_heights(items, link.rect, n);
    if v.len() > 0 {
        sort::law_sorted(v);
        let s = sort::sorted(v);
        let m = s[v.len() as int / 2];
        assert(s.contains(m));
        assert(v.contains(m));
        let k = choose|k: int| 0 <= k < v.len() && v[k] == m;
        assert(has_height(items, link.rect, n, v[k]));
        let j = choose|j: int|
            0 <= j < n && has_middle_in(#[trigger] items[j], link.rect) && items[j].height == v[k];
        assert(has_middle_in(items[j], link.rect) && items[j].height == m);
    }
}

/// Whether two items differ at most in their links.
pub open spec fn same_but_link(a: ItemView, b: ItemView) -> bool {
    a == (ItemView { link: a.link, ..b })
}

proof fn lemma_middles_stay(items: Seq<ItemView>, other: Seq<ItemView>, link: PageLink)
    requires
        items.len() == other.len(),
        forall|i: int| 0 <= i < items.len() ==> same_but_link(#[trigger] other[i], items[i]),
    ensures
        fits_all(items, link) == fits_all(other, link),
        fits_some(items, link) == fits_some(other, link),
        item_marks::applies(items, link) == item_marks::applies(other, link),
{
    assert forall|i: int| 0 <= i < items.len() implies #[trigger] other[i].height
        == items[i].height && has_middle_in(other[i], link.rect) == has_middle_in(
        items[i],
        link.rect,
    ) by {
        assert(same_but_link(other[i], items[i]));
    }
    if fits_some(items, link) {
        let j = choose|j: int|
            0 <= j < items.len() && has_middle_in(#[trigger] items[j], link.rect) && (
            items[j].height <= 0 || 10 * (link.rect.bottom - link.rect.top) <= 18
                * items[j].height);
        assert(has_middle_in(other[j], link.rect));
    }
    if fits_some(other, link) {
        let j = choose|j: int|
            0 <= j < other.len() && has_middle_in(#[trigger] other[j], link.rect) && (
            other[j].height <= 0 || 10 * (link.rect.bottom - link.rect.top) <= 18
                * other[j].height);
        assert(has_middle_in(items[j], link.rect));
    }
    if fits_all(items, link) {
        assert forall|j: int|
            0 <= j < other.len() && has_middle_in(#[trigger] other[j], link.rect) implies 10 * (
        link.rect.bottom - link.rect.top) <= 18 * other[j].height by {
            assert(has_middle_in(items[j], link.rect));
        }
    }
    if fits_all(other, link) {
        assert forall|j: int|
            0 <= j < items.len() && has_middle_in(#[trigger] items[j], link.rect) implies 10 * (
        link.rect.bottom - link.rect.top) <= 18 * items[j].height by {
            assert(has_middle_in(other[j], link.rect));
        }
    }
    lemma_same_heights(items, other, link.rect, items.len() as int);
}

proof fn lemma_same_heights(items: Seq<ItemView>, other: Seq<ItemView>, b: EdgeBox, n: int)
    requires
        0 <= n <= items.len() == other.len(),
        forall|i: int| 0 <= i < items.len() ==> same_but_link(#[trigger] other[i], items[i]),
    ensures
        item_marks::heights_in(items, b, n) == item_marks::heights_in(other, b, n),
    decreases n,
{
    if n > 0 {
        lemma_same_heights(items, other, b, n - 1);
        assert(same_but_link(other[n - 1], items[n - 1]));
    }
}

/// Whether an item got a link, among the first `n`, that belongs to it: one whose box covers
/// its middle and is not too high for all it covers, where no earlier one fits all it covers.
pub open spec fn is_linked_by(
    items: Seq<ItemView>,
    links: Seq<PageLink>,
    n: int,
    i: int,
    uri: Seq<char>,
) -> bool {
    exists|k: int|
        0 <= k < n && (#[trigger] links[k]).uri@ == uri && has_middle_in(items[i], links[k].rect)
            && fits_some(items, links[k]) && forall|l: int|
            0 <= l < k && has_middle_in(items[i], (#[trigger] links[l]).rect) ==> !fits_all(
                items,
                links[l],
            )
}

/// Assigning links changes nothing but links. An item without a link gets the first one that
/// covers its middle, unless that is so high that it covers several lines; a link that fits
/// all it covers is always assigned.
pub proof fn law_links_reach_their_text(
    items: Seq<ItemView>,
    links: Seq<PageLink>,
    n: int,
    i: int,
)
    requires
        0 <= n <= links.len(),
        0 <= i < items.len(),
    ensures
        ({
            let r = item_marks::linked_upto(items, links, n);
            &&& r.len() == items.len()
            &&& same_but_link(r[i], items[i])
            &&& items[i].link is Some ==> r[i].link == items[i].link
            &&& items[i].link is None && r[i].link is Some ==> is_linked_by(
                items,
                links,
                n,
                i,
                r[i].link->0,
            )
            &&& forall|k: int|
                0 <= k < n && has_middle_in(items[i], (#[trigger] links[k]).rect) && fits_all(
                    items,
                    links[k],
                ) ==> r[i].link is Some
        }),
    decreases n,
{
    if n > 0 {
        law_links_reach_their_text(items, links, n - 1, i);
        let b = item_marks::linked_upto(items, links, n - 1);
        let r = item_marks::linked_upto(items, links, n);
        let link = links[n - 1];
        assert forall|j: int| 0 <= j < items.len() implies same_but_link(
            #[trigger] b[j],
            items[j],
        ) by {
            law_links_reach_their_text(items, links, n - 1, j);
        }
        lemma_middles_stay(items, b, link);
        lemma_applies(items, link);
        assert(has_middle_in(b[i], link.rect) == has_middle_in(items[i], link.rect));
        assert(item_marks::centered_in(b[i], link.rect) == has_middle_in(b[i], link.rect));
        if items[i].link is None && r[i].link is Some {
            if b[i].link is Some {
                let k = choose|k: int|
                    0 <= k < n - 1 && (#[trigger] links[k]).uri@ == b[i].link->0 && has_middle_in(
                        items[i],
                        links[k].rect,
                    ) && fits_some(items, links[k]) && forall|l: int|
                        0 <= l < k && has_middle_in(items[i], (#[trigger] links[l]).rect)
                            ==> !fits_all(items, links[l]);
                assert(r[i].link == b[i].link);
                assert(links[k].uri@ == r[i].link->0);
            } else {
                assert(link.uri@ == r[i].link->0);
                assert(is_linked_by(items, links, n, i, r[i].link->0));
            }
        }
    }
}

// ---------------------------------------------------------------------------
// Strikethrough
// ---------------------------------------------------------------------------

/// Whether a level stretch at half of `twice_y` strikes an item through: it passes the item
/// between 20 and 65 percent of its height, and covers 60 percent of its width or more.
pub open spec fn passes_through(it: ItemView, left: int, right: int, twice_y: int) -> bool {
    let depth = twice_y - 2 * it.y;
    &&& 40 * it.height <= 100 * depth <= 130 * it.height
    &&& 100 * in_common(it.x, it.width, left, right - left) >= 60 * it.width
}

/// Whether a graphic strikes an item through: a level stroke, or a bar, that is at most two
/// points thick.
pub open spec fn strikes_out(g: GraphicPrimitive, it: ItemView) -> bool {
    match g {
        GraphicPrimitive::Stroke { x1, y1, x2, y2, width, .. } => {
            let rise = if y1 <= y2 {
                y2 - y1
            } else {
                y1 - y2
            };
            let left = if x1 <= x2 {
                x1 as int
            } else {
                x2 as int
            };
            let right = if x1 <= x2 {
                x2 as int
            } else {
                x1 as int
            };
            width <= 2_000 && rise <= 2_000 && right - left > rise && passes_through(
                it,
                left,
                right,
                y1 + y2,
            )
        },
        GraphicPrimitive::Rect { bbox, .. } => bbox.height <= 2_000 && bbox.width > bbox.height
            && passes_through(it, bbox.x as int, bbox.x + bbox.width, 2 * bbox.y + bbox.height),
    }
}

/// An item is struck through exactly where it was, or where it is visible text that a graphic
/// strikes out; nothing else of it changes.
pub proof fn law_struck_text(items: Seq<ItemView>, graphics: Seq<GraphicPrimitive>, i: int)
    requires
        0 <= i < items.len(),
    ensures
        ({
            let r = item_marks::with_strikes(items, graphics);
            let it = items[i];
            &&& r.len() == items.len()
            &&& r[i] == (ItemView { strike: r[i].strike, ..it })
            &&& r[i].strike <==> it.strike || (it.width > 0 && it.height > 0 && !text::is_blank(
                it.text,
            ) && exists|k: int|
                0 <= k < graphics.len() && strikes_out(#[trigger] graphics[k], it))
        }),
{
    let it = items[i];
    if it.width > 0 && it.height > 0 {
        assert forall|k: int| 0 <= k < graphics.len() implies item_marks::struck_by(
            graphics,
            it,
            k,
        ) == strikes_out(#[trigger] graphics[k], it) by {}
        if item_marks::is_struck(graphics, it) {
            let k = choose|k: int|
                0 <= k < graphics.len() && #[trigger] item_marks::struck_by(graphics, it, k);
            assert(strikes_out(graphics[k], it));
        }
        if !text::is_blank(it.text) && exists|k: int|
            0 <= k < graphics.len() && strikes_out(#[trigger] graphics[k], it) {
            let k = choose|k: int|
                0 <= k < graphics.len() && strikes_out(#[trigger] graphics[k], it);
            assert(item_marks::struck_by(graphics, it, k));
        }
    }
}

} // verus!
