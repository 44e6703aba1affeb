//! What is done with the text items of a page after they are read: links,
//! strikethrough, duplicates, and text outside the page.

use vstd::prelude::*;
use vstd::string::*;
use crate::sort;
use crate::text;
use crate::types;
use crate::types::{GraphicPrimitive, ItemView, TextItem};

verus! {

/// A box on the page, by its edges.
#[derive(Clone, Copy, Debug, PartialEq, Eq, Structural)]
pub struct EdgeBox {
    pub left: i32,
    pub top: i32,
    pub right: i32,
    pub bottom: i32,
}

// ---------------------------------------------------------------------------
// Links
// ---------------------------------------------------------------------------

/// A link on the page.
#[derive(Clone, Debug)]
pub struct PageLink {
    pub rect: EdgeBox,
    pub uri: String,
}

/// Whether the middle of an item lies in a box.
pub open spec fn centered_in(it: ItemView, b: EdgeBox) -> bool {
    2 * b.left <= 2 * it.x + it.width <= 2 * b.right && 2 * b.top <= 2 * it.y + it.height <= 2
        * b.bottom
}

/// The heights of those of the first `n` items whose middles lie in a box.
pub open spec fn heights_in(items: Seq<ItemView>, b: EdgeBox, n: int) -> Seq<int>
    decreases n,
{
    if n <= 0 {
        seq![]
    } else if centered_in(items[n - 1], b) {
        heights_in(items, b, n - 1).push(items[n - 1].height)
    } else {
        heights_in(items, b, n - 1)
    }
}

/// Whether a link applies: it covers an item, and it is not so much taller than the
/// items that it covers several lines.
pub open spec fn applies(items: Seq<ItemView>, link: PageLink) -> bool {
    let heights = heights_in(items, link.rect, items.len() as int);
    let median = sort::sorted(heights)[heights.len() as int / 2];
    heights.len() > 0 && !(median > 0 && 10 * (link.rect.bottom - link.rect.top) > 18 * median)
}

/// The items after one link is assigned: those it covers that have none yet get it.
pub open spec fn with_link(items: Seq<ItemView>, link: PageLink) -> Seq<ItemView> {
    if !applies(items, link) {
        items
    } else {
        Seq::new(
            items.len(),
            |i: int|
                if centered_in(items[i], link.rect) && items[i].link is None {
                    ItemView { link: Some(link.uri@), ..items[i] }
                } else {
                    items[i]
                },
        )
    }
}

/// The items after the first `n` links are assigned.
pub open spec fn linked_upto(items: Seq<ItemView>, links: Seq<PageLink>, n: int) -> Seq<ItemView>
    decreases n,
{
    if n <= 0 {
        items
    } else {
        with_link(linked_upto(items, links, n - 1), links[n - 1])
    }
}

fn is_centered_in(it: &TextItem, b: &EdgeBox) -> (r: bool)
    ensures
        r == centered_in(it@, *b),
{
    let cx: i64 = 2 * (it.x as i64) + it.width as i64;
    let cy: i64 = 2 * (it.y as i64) + it.height as i64;
    cx >= 2 * (b.left as i64) && cx <= 2 * (b.right as i64) && cy >= 2 * (b.top as i64) && cy <= 2
        * (b.bottom as i64)
}

fn link_applies(items: &Vec<TextItem>, link: &PageLink) -> (r: bool)
    ensures
        r == applies(types::item_views(items@), *link),
{
    let ghost iv = types::item_views(items@);
    let mut heights: Vec<i64> = Vec::new();
    let mut i: usize = 0;
    proof {
        assert(sort::ints(heights@) =~= seq![]);
    }
    while i < items.len()
        invariant
            i <= items@.len(),
            iv == types::item_views(items@),
            sort::ints(heights@) == heights_in(iv, link.rect, i as int),
            forall|k: int|
                0 <= k < heights@.len() ==> -0x8000_0000 <= #[trigger] heights@[k] <= 0x7FFF_FFFF,
        decreases items.len() - i,
    {
        proof {
            assert(iv[i as int] == items@[i as int]@);
        }
        if is_centered_in(&items[i], &link.rect) {
            let h: i64 = items[i].height as i64;
            proof {
                assert(sort::ints(heights@.push(h)) =~= sort::ints(heights@).push(h as int));
            }
            heights.push(h);
        }
        i = i + 1;
    }
    proof {
        assert(sort::ints(heights@).len() == heights@.len());
    }
    if heights.len() == 0 {
        return false;
    }
    let v: Vec<i64> = sort::sort_values(&heights);
    let m: usize = v.len() / 2;
    proof {
        assert(sort::ints(v@)[m as int] == v@[m as int]);
        assert(heights@.contains(v@[m as int]));
    }
    let median: i64 = v[m];
    !(median > 0 && 10 * (link.rect.bottom as i64 - link.rect.top as i64) > 18 * median)
}

/// Assign links to the items whose middles they cover. The first link that covers an
/// item counts. Links over several lines are left out, since which words they belong
/// to is not known.
pub fn assign_links(items: &mut Vec<TextItem>, links: &Vec<PageLink>)
    ensures
        types::item_views(final(items)@) == linked_upto(
            types::item_views(old(items)@),
            links@,
            links@.len() as int,
        ),
{
    let ghost start = types::item_views(items@);
    let mut k: usize = 0;
    while k < links.len()
        invariant
            k <= links@.len(),
            types::item_views(items@) == linked_upto(start, links@, k as int),
        decreases links.len() - k,
    {
        let ghost before = types::item_views(items@);
        let ghost want = with_link(before, links@[k as int]);
        if link_applies(items, &links[k]) {
            let mut i: usize = 0;
            proof {
                assert(types::item_views(items@) =~= want.take(0) + before.skip(0));
            }
            while i < items.len()
                invariant
                    i <= items@.len() == before.len(),
                    k < links@.len(),
                    applies(before, links@[k as int]),
                    want == with_link(before, links@[k as int]),
                    types::item_views(items@) == want.take(i as int) + before.skip(i as int),
                decreases items.len() - i,
            {
                let ghost held = types::item_views(items@);
                proof {
                    assert(held[i as int] == items@[i as int]@);
                    assert(held[i as int] == before[i as int]);
                }
                if is_centered_in(&items[i], &links[k].rect) && items[i].link.is_none() {
                    let item: &mut TextItem = &mut items[i];
                    item.link = Some(links[k].uri.clone());
                }
                proof {
                    let now = types::item_views(items@);
                    assert(now =~= held.update(i as int, want[i as int]));
                    assert(now =~= want.take(i + 1) + before.skip(i + 1));
                }
                i = i + 1;
            }
            proof {
                assert(types::item_views(items@) =~= want);
            }
        }
        k = k + 1;
    }
}

/// An item that has a link keeps it.
pub proof fn law_links_stay(items: Seq<ItemView>, links: Seq<PageLink>, n: int, i: int)
    requires
        0 <= n <= links.len(),
        0 <= i < items.len(),
        items[i].link is Some,
    ensures
        linked_upto(items, links, n).len() == items.len(),
        linked_upto(items, links, n)[i] == items[i],
    decreases n,
{
    if n > 0 {
        law_links_stay(items, links, n - 1, i);
    }
}

// ---------------------------------------------------------------------------
// Strikethrough
// ---------------------------------------------------------------------------

/// The thickest line that strikes text through.
pub const STRIKE_THICKNESS: i32 = 2_000;

/// A horizontal line: its ends, and twice its height.
#[derive(Clone, Copy, Debug, PartialEq, Eq, Structural)]
pub struct StrikeLine {
    pub left: i64,
    pub right: i64,
    pub twice_y: i64,
}

/// The distance of two numbers.
pub open spec fn distance(a: int, b: int) -> int {
    if a >= b {
        a - b
    } else {
        b - a
    }
}

/// A graphic as a horizontal line, if it is thin and wide.
pub open spec fn line_of(g: GraphicPrimitive) -> Option<StrikeLine> {
    match g {
        GraphicPrimitive::Stroke { x1, y1, x2, y2, color, width } => {
            let dy = distance(y1 as int, y2 as int);
            let dx = distance(x1 as int, x2 as int);
            if dy <= STRIKE_THICKNESS && width <= STRIKE_THICKNESS && dx > dy {
                Some(
                    StrikeLine {
                        left: types::min_of(x1 as int, x2 as int) as i64,
                        right: types::max_of(x1 as int, x2 as int) as i64,
                        twice_y: (y1 + y2) as i64,
                    },
                )
            } else {
                None
            }
        },
        GraphicPrimitive::Rect { bbox, fill, stroke } => if bbox.height <= STRIKE_THICKNESS
            && bbox.width > bbox.height {
            Some(
                StrikeLine {
                    left: bbox.x as i64,
                    right: bbox.right_edge() as i64,
                    twice_y: (2 * bbox.y + bbox.height) as i64,
                },
            )
        } else {
            None
        },
    }
}

/// Whether a line strikes an item through: it passes between 20 and 65 percent of the
/// height of the item, and it covers 60 percent of the width.
pub open spec fn strikes(l: StrikeLine, it: ItemView) -> bool {
    let overlap = types::max_of(
        types::min_of(it.x + it.width, l.right as int) - types::max_of(it.x, l.left as int),
        0,
    );
    5 * l.twice_y >= 10 * it.y + 2 * it.height && 10 * l.twice_y <= 20 * it.y + 13 * it.height && 10
        * overlap >= 6 * it.width
}

/// Whether graphic `i` strikes an item through.
pub open spec fn struck_by(graphics: Seq<GraphicPrimitive>, it: ItemView, i: int) -> bool {
    line_of(graphics[i]) is Some && strikes(line_of(graphics[i])->0, it)
}

/// Whether an item is visible text that a graphic strikes through.
pub open spec fn is_struck(graphics: Seq<GraphicPrimitive>, it: ItemView) -> bool {
    it.width > 0 && it.height > 0 && !text::is_blank(it.text) && exists|i: int|
        0 <= i < graphics.len() && #[trigger] struck_by(graphics, it, i)
}

/// The items, marked where graphics strike them through.
pub open spec fn with_strikes(items: Seq<ItemView>, graphics: Seq<GraphicPrimitive>) -> Seq<
    ItemView,
> {
    Seq::new(
        items.len(),
        |i: int|
            ItemView { strike: items[i].strike || is_struck(graphics, items[i]), ..items[i] },
    )
}

fn apart(a: i32, b: i32) -> (r: i64)
    ensures
        r == distance(a as int, b as int),
{
    if a >= b {
        a as i64 - b as i64
    } else {
        b as i64 - a as i64
    }
}

/// Whether the edges of a line lie in reach.
pub open spec fn line_in_reach(l: StrikeLine) -> bool {
    &&& -0x2_0000_0000 <= l.left <= 0x2_0000_0000
    &&& -0x2_0000_0000 <= l.right <= 0x2_0000_0000
    &&& -0x2_0000_0000 <= l.twice_y <= 0x2_0000_0000
}

fn graphic_line(g: &GraphicPrimitive) -> (r: Option<StrikeLine>)
    ensures
        r == line_of(*g),
        r is Some ==> line_in_reach(r->0),
{
    match g {
        GraphicPrimitive::Stroke { x1, y1, x2, y2, color: _, width } => {
            let dy: i64 = apart(*y1, *y2);
            let dx: i64 = apart(*x1, *x2);
            if dy <= STRIKE_THICKNESS as i64 && *width <= STRIKE_THICKNESS && dx > dy {
                Some(
                    StrikeLine {
                        left: types::min64(*x1 as i64, *x2 as i64),
                        right: types::max64(*x1 as i64, *x2 as i64),
                        twice_y: *y1 as i64 + *y2 as i64,
                    },
                )
            } else {
                None
            }
        },
        GraphicPrimitive::Rect { bbox, fill: _, stroke: _ } => {
            if bbox.height <= STRIKE_THICKNESS && bbox.width > bbox.height {
                Some(
                    StrikeLine {
                        left: bbox.x as i64,
                        right: bbox.right(),
                        twice_y: 2 * (bbox.y as i64) + bbox.height as i64,
                    },
                )
            } else {
                None
            }
        },
    }
}

fn line_strikes(l: &StrikeLine, it: &TextItem) -> (r: bool)
    requires
        line_in_reach(*l),
    ensures
        r == strikes(*l, it@),
{
    let x: i64 = it.x as i64;
    let y: i64 = it.y as i64;
    let w: i64 = it.width as i64;
    let h: i64 = it.height as i64;
    let overlap: i64 = types::max64(
        types::min64(x + w, l.right) - types::max64(x, l.left),
        0,
    );
    5 * l.twice_y >= 10 * y + 2 * h && 10 * l.twice_y <= 20 * y + 13 * h && 10 * overlap >= 6 * w
}

fn item_struck(graphics: &Vec<GraphicPrimitive>, it: &TextItem) -> (r: bool)
    ensures
        r == is_struck(graphics@, it@),
{
    if it.width <= 0 || it.height <= 0 || text::blank(it.text.as_str()) {
        return false;
    }
    let mut i: usize = 0;
    while i < graphics.len()
        invariant
            i <= graphics@.len(),
            it@.width > 0 && it@.height > 0 && !text::is_blank(it@.text),
            forall|k: int| 0 <= k < i ==> !#[trigger] struck_by(graphics@, it@, k),
        decreases graphics.len() - i,
    {
        match graphic_line(&graphics[i]) {
            Some(l) => {
                if line_strikes(&l, it) {
                    proof {
                        assert(struck_by(graphics@, it@, i as int));
                    }
                    return true;
                }
            },
            None => {},
        }
        i = i + 1;
    }
    false
}

/// Mark the items that thin horizontal graphics strike through. Lines near the top
/// and near the baseline do not count.
pub fn assign_strikethrough(items: &mut Vec<TextItem>, graphics: &Vec<GraphicPrimitive>)
    ensures
        types::item_views(final(items)@) == with_strikes(
            types::item_views(old(items)@),
            graphics@,
        ),
{
    let ghost before = types::item_views(items@);
    let ghost want = with_strikes(before, graphics@);
    let mut i: usize = 0;
    proof {
        assert(types::item_views(items@) =~= want.take(0) + before.skip(0));
    }
    while i < items.len()
        invariant
            i <= items@.len() == before.len(),
            want == with_strikes(before, graphics@),
            types::item_views(items@) == want.take(i as int) + before.skip(i as int),
        decreases items.len() - i,
    {
        let ghost held = types::item_views(items@);
        proof {
            assert(held[i as int] == items@[i as int]@);
            assert(held[i as int] == before[i as int]);
        }
        if item_struck(graphics, &items[i]) {
            let item: &mut TextItem = &mut items[i];
            item.strike = true;
        }
        proof {
            let now = types::item_views(items@);
            assert(now[i as int] =~= want[i as int]);
            assert(now =~= held.update(i as int, want[i as int]));
            assert(now =~= want.take(i + 1) + before.skip(i + 1));
        }
        i = i + 1;
    }
    proof {
        assert(types::item_views(items@) =~= want);
    }
}

// ---------------------------------------------------------------------------
// Duplicates
// ---------------------------------------------------------------------------

/// The area that two items share.
pub open spec fn shared_area(a: ItemView, b: ItemView) -> int {
    let left = types::max_of(a.x, b.x);
    let right = types::min_of(a.x + a.width, b.x + b.width);
    let top = types::max_of(a.y, b.y);
    let bottom = types::min_of(a.y + a.height, b.y + b.height);
    if left >= right || top >= bottom {
        0
    } else {
        (right - left) * (bottom - top)
    }
}

/// Whether a later item takes the place of an earlier one: they overlap, and they have
/// the same text, or they share more than half of the smaller one and have areas that
/// differ by at most a factor of five.
pub open spec fn supersedes(a: ItemView, b: ItemView) -> bool {
    let area_a = a.width * a.height;
    let area_b = b.width * b.height;
    let small = types::min_of(area_a, area_b);
    let large = types::max_of(area_a, area_b);
    shared_area(a, b) > 0 && (a.text == b.text || (small > 0 && 2 * shared_area(a, b) > small
        && large <= 5 * small))
}

/// Whether a later item takes the place of item `i`.
pub open spec fn is_superseded(items: Seq<ItemView>, i: int) -> bool {
    exists|j: int| i < j < items.len() && supersedes(items[i], #[trigger] items[j])
}

/// Those of the first `n` items whose place no later item takes.
pub open spec fn distinct_upto(items: Seq<ItemView>, n: int) -> Seq<ItemView>
    decreases n,
{
    if n <= 0 {
        seq![]
    } else if is_superseded(items, n - 1) {
        distinct_upto(items, n - 1)
    } else {
        distinct_upto(items, n - 1).push(items[n - 1])
    }
}

proof fn lemma_product(w: int, h: int)
    requires
        -0x1_0000_0000 <= w <= 0x1_0000_0000,
        -0x1_0000_0000 <= h <= 0x1_0000_0000,
    ensures
        -0x1_0000_0000_0000_0000 <= w * h <= 0x1_0000_0000_0000_0000,
        w > 0 && h > 0 ==> w * h > 0,
{
    assert(-0x1_0000_0000_0000_0000 <= w * h <= 0x1_0000_0000_0000_0000) by (nonlinear_arith)
        requires
            -0x1_0000_0000 <= w <= 0x1_0000_0000,
            -0x1_0000_0000 <= h <= 0x1_0000_0000,
    ;
    if w > 0 && h > 0 {
        assert(w * h > 0) by (nonlinear_arith)
            requires
                w > 0,
                h > 0,
        ;
    }
}

fn takes_place(a: &TextItem, b: &TextItem) -> (r: bool)
    ensures
        r == supersedes(a@, b@),
{
    let left: i64 = types::max64(a.x as i64, b.x as i64);
    let right: i64 = types::min64(a.x as i64 + a.width as i64, b.x as i64 + b.width as i64);
    let top: i64 = types::max64(a.y as i64, b.y as i64);
    let bottom: i64 = types::min64(a.y as i64 + a.height as i64, b.y as i64 + b.height as i64);
    if left >= right || top >= bottom {
        return false;
    }
    let w: i128 = right as i128 - left as i128;
    let h: i128 = bottom as i128 - top as i128;
    proof {
        lemma_product(a.width as int, a.height as int);
        lemma_product(b.width as int, b.height as int);
        lemma_product(w as int, h as int);
    }
    if text::str_eq(a.text.as_str(), b.text.as_str()) {
        return true;
    }
    let area_a: i128 = (a.width as i128) * (a.height as i128);
    let area_b: i128 = (b.width as i128) * (b.height as i128);
    let small: i128 = if area_a <= area_b {
        area_a
    } else {
        area_b
    };
    let large: i128 = if area_a <= area_b {
        area_b
    } else {
        area_a
    };
    small > 0 && 2 * (w * h) > small && large <= 5 * small
}

fn superseded(items: &Vec<TextItem>, i: usize) -> (r: bool)
    requires
        i < items@.len(),
    ensures
        r == is_superseded(types::item_views(items@), i as int),
{
    let ghost iv = types::item_views(items@);
    let total: usize = items.len();
    let mut j: usize = i + 1;
    while j < total
        invariant
            i < j <= total == items@.len(),
            iv == types::item_views(items@),
            forall|k: int| i < k < j ==> !supersedes(iv[i as int], #[trigger] iv[k]),
        decreases total - j,
    {
        proof {
            assert(iv[i as int] == items@[i as int]@);
            assert(iv[j as int] == items@[j as int]@);
        }
        if takes_place(&items[i], &items[j]) {
            return true;
        }
        j = j + 1;
    }
    false
}

/// Remove the items whose place a later one takes: repeated text, and text that was
/// painted over.
pub fn dedup_overlapping_items(items: &mut Vec<TextItem>)
    ensures
        types::item_views(final(items)@) == distinct_upto(
            types::item_views(old(items)@),
            old(items)@.len() as int,
        ),
{
    let ghost iv = types::item_views(items@);
    let mut out: Vec<TextItem> = Vec::new();
    let mut i: usize = 0;
    proof {
        assert(types::item_views(out@) =~= seq![]);
    }
    while i < items.len()
        invariant
            i <= items@.len(),
            iv == types::item_views(items@),
            types::item_views(out@) == distinct_upto(iv, i as int),
        decreases items.len() - i,
    {
        if !superseded(items, i) {
            let c: TextItem = types::clone_item(&items[i]);
            proof {
                assert(iv[i as int] == items@[i as int]@);
                assert(types::item_views(out@.push(c)) =~= types::item_views(out@).push(c@));
            }
            out.push(c);
        }
        i = i + 1;
    }
    *items = out;
}

/// The last item always stays.
pub proof fn law_last_item_stays(items: Seq<ItemView>)
    requires
        items.len() > 0,
    ensures
        distinct_upto(items, items.len() as int).len() > 0,
        distinct_upto(items, items.len() as int).last() == items.last(),
{
}

/// The items that stay, by their positions.
pub proof fn lemma_distinct_from(items: Seq<ItemView>, n: int) -> (at: Seq<int>)
    requires
        0 <= n <= items.len(),
    ensures
        at.len() == distinct_upto(items, n).len(),
        forall|i: int|
            0 <= i < at.len() ==> 0 <= #[trigger] at[i] < n && distinct_upto(items, n)[i]
                == items[at[i]],
        forall|i: int, j: int| 0 <= i < j < at.len() ==> #[trigger] at[i] < #[trigger] at[j],
        forall|i: int| 0 <= i < at.len() ==> !is_superseded(items, #[trigger] at[i]),
    decreases n,
{
    if n <= 0 {
        seq![]
    } else {
        let before = lemma_distinct_from(items, n - 1);
        if is_superseded(items, n - 1) {
            before
        } else {
            before.push(n - 1)
        }
    }
}

/// Removing duplicates twice removes no more.
pub proof fn law_no_duplicates_left(items: Seq<ItemView>)
    ensures
        ({
            let once = distinct_upto(items, items.len() as int);
            distinct_upto(once, once.len() as int) == once
        }),
{
    let once = distinct_upto(items, items.len() as int);
    let at = lemma_distinct_from(items, items.len() as int);
    assert forall|i: int| 0 <= i < once.len() implies !is_superseded(once, i) by {
        if is_superseded(once, i) {
            let j = choose|j: int| i < j < once.len() && supersedes(once[i], #[trigger] once[j]);
            assert(at[i] < at[j]);
            assert(supersedes(items[at[i]], items[at[j]]));
            assert(is_superseded(items, at[i]));
        }
    }
    lemma_all_distinct(once, once.len() as int);
    assert(once.take(once.len() as int) =~= once);
}

proof fn lemma_all_distinct(items: Seq<ItemView>, n: int)
    requires
        0 <= n <= items.len(),
        forall|i: int| 0 <= i < items.len() ==> !is_superseded(items, i),
    ensures
        distinct_upto(items, n) == items.take(n),
    decreases n,
{
    if n > 0 {
        lemma_all_distinct(items, n - 1);
        assert(!is_superseded(items, n - 1));
        assert(items.take(n) =~= items.take(n - 1).push(items[n - 1]));
    } else {
        assert(items.take(0) =~= seq![]);
    }
}

// ---------------------------------------------------------------------------
// Text outside the page
// ---------------------------------------------------------------------------

/// Whether an item lies on a page of the given size at least in part.
pub open spec fn is_on_page(it: ItemView, width: int, height: int) -> bool {
    it.x < width && it.x + types::max_of(it.width, 100) > 0 && it.y < height && it.y
        + types::max_of(it.height, 100) > 0
}

/// Those of the first `n` items that lie on the page at least in part.
pub open spec fn on_page_upto(items: Seq<ItemView>, width: int, height: int, n: int) -> Seq<
    ItemView,
>
    decreases n,
{
    if n <= 0 {
        seq![]
    } else if is_on_page(items[n - 1], width, height) {
        on_page_upto(items, width, height, n - 1).push(items[n - 1])
    } else {
        on_page_upto(items, width, height, n - 1)
    }
}

/// Remove the items that lie outside a page of the given size.
pub fn drop_off_page_items(items: &mut Vec<TextItem>, width: i32, height: i32)
    ensures
        types::item_views(final(items)@) == on_page_upto(
            types::item_views(old(items)@),
            width as int,
            height as int,
            old(items)@.len() as int,
        ),
{
    let ghost iv = types::item_views(items@);
    let mut out: Vec<TextItem> = Vec::new();
    let mut i: usize = 0;
    proof {
        assert(types::item_views(out@) =~= seq![]);
    }
    while i < items.len()
        invariant
            i <= items@.len(),
            iv == types::item_views(items@),
            types::item_views(out@) == on_page_upto(iv, width as int, height as int, i as int),
        decreases items.len() - i,
    {
        let it = &items[i];
        proof {
            assert(iv[i as int] == items@[i as int]@);
        }
        if it.x < width && it.x as i64 + types::max64(it.width as i64, 100) > 0 && it.y < height
            && it.y as i64 + types::max64(it.height as i64, 100) > 0 {
            let c: TextItem = types::clone_item(it);
            proof {
                assert(types::item_views(out@.push(c)) =~= types::item_views(out@).push(c@));
            }
            out.push(c);
        }
        i = i + 1;
    }
    *items = out;
}

} // verus!
