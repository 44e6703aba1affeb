//! What holds of recognized text that is merged into a page: where it lies, and which of it
//! is taken.

use vstd::prelude::*;
use crate::ocr_merge;
use crate::ocr_merge::{Corner, OcrResult, Outcome, PageText, Quad};
use crate::number_text;
use crate::ocr_text;
use crate::text;
use crate::types::ItemView;

verus! {

// ---------------------------------------------------------------------------
// Lengths
// ---------------------------------------------------------------------------

/// Whether a length on the page is that of a number of pixels at a resolution of `dpi`, all
/// in thousandths: a pixel is 72 points over the resolution, to the nearest unit. Lengths
/// that no coordinate can hold are cut.
pub open spec fn keeps_share(pixels: int, dpi: int, length: int) -> bool {
    if 72_000 * pixels > i32::MAX * dpi {
        length == i32::MAX
    } else if 72_000 * pixels < i32::MIN * dpi {
        length == i32::MIN
    } else {
        -dpi <= 2 * (length * dpi) - 144_000 * pixels <= dpi
    }
}

/// A distance in pixels keeps its share of the page at every resolution.
pub proof fn law_lengths_keep_their_share(pixels: int, dpi: int)
    requires
        dpi > 0,
    ensures
        keeps_share(pixels, dpi, ocr_merge::on_page(pixels, dpi)),
{
    let q = (144_000 * pixels + dpi) / (2 * dpi);
    let m = (144_000 * pixels + dpi) % (2 * dpi);
    vstd::arithmetic::div_mod::lemma_fundamental_div_mod(144_000 * pixels + dpi, 2 * dpi);
    vstd::arithmetic::div_mod::lemma_mod_bound(144_000 * pixels + dpi, 2 * dpi);
    assert(144_000 * pixels + dpi == 2 * (q * dpi) + m) by (nonlinear_arith)
        requires
            144_000 * pixels + dpi == 2 * dpi * q + m,
    ;
    let high = i32::MAX as int;
    let low = i32::MIN as int;
    if 72_000 * pixels > high * dpi {
        assert(q >= high) by (nonlinear_arith)
            requires
                144_000 * pixels + dpi == 2 * (q * dpi) + m,
                0 <= m < 2 * dpi,
                72_000 * pixels > high * dpi,
                dpi > 0,
        ;
    } else if 72_000 * pixels < low * dpi {
        assert(q <= low) by (nonlinear_arith)
            requires
                144_000 * pixels + dpi == 2 * (q * dpi) + m,
                0 <= m < 2 * dpi,
                72_000 * pixels < low * dpi,
                dpi > 0,
        ;
    } else {
        assert(low <= q <= high) by (nonlinear_arith)
            requires
                144_000 * pixels + dpi == 2 * (q * dpi) + m,
                0 <= m < 2 * dpi,
                low * dpi <= 72_000 * pixels <= high * dpi,
                dpi > 0,
        ;
    }
}

/// A distance that covers the whole bitmap of a page covers the whole page and no more.
pub proof fn law_whole_bitmap_is_whole_page(pixels: int, dpi: int, side: int)
    requires
        dpi > 0,
        i32::MIN <= side <= i32::MAX,
        72_000 * pixels == side * dpi,
    ensures
        ocr_merge::on_page(pixels, dpi) == side,
{
    law_lengths_keep_their_share(pixels, dpi);
    let q = ocr_merge::on_page(pixels, dpi);
    let high = i32::MAX as int;
    let low = i32::MIN as int;
    assert(low * dpi <= side * dpi <= high * dpi) by (nonlinear_arith)
        requires
            low <= side <= high,
            dpi > 0,
    ;
    assert(q == side) by (nonlinear_arith)
        requires
            -dpi <= 2 * (q * dpi) - 2 * (side * dpi) <= dpi,
            dpi > 0,
    ;
}

// ---------------------------------------------------------------------------
// Boxes
// ---------------------------------------------------------------------------

/// Whether a number is the least of four.
pub open spec fn is_least(m: int, a: int, b: int, c: int, d: int) -> bool {
    m <= a && m <= b && m <= c && m <= d && (m == a || m == b || m == c || m == d)
}

/// Whether a number is the greatest of four.
pub open spec fn is_greatest(m: int, a: int, b: int, c: int, d: int) -> bool {
    m >= a && m >= b && m >= c && m >= d && (m == a || m == b || m == c || m == d)
}

/// Whether the edges are those of a detected text: of the box around its corners, where it
/// has corners, else of its box.
pub open spec fn has_edges(r: OcrResult, left: int, top: int, right: int, bottom: int) -> bool {
    match r.polygon {
        Some(q) => {
            &&& is_least(left, q.a.x as int, q.b.x as int, q.c.x as int, q.d.x as int)
            &&& is_least(top, q.a.y as int, q.b.y as int, q.c.y as int, q.d.y as int)
            &&& is_greatest(right, q.a.x as int, q.b.x as int, q.c.x as int, q.d.x as int)
            &&& is_greatest(bottom, q.a.y as int, q.b.y as int, q.c.y as int, q.d.y as int)
        },
        None => left == r.bbox.left && top == r.bbox.top && right == r.bbox.right && bottom
            == r.bbox.bottom,
    }
}

/// Whether a box on the page is that of a detected text at a resolution of `dpi`.
pub open spec fn lies_at(r: OcrResult, dpi: int, x: int, y: int, w: int, h: int) -> bool {
    exists|left: int, top: int, right: int, bottom: int|
        #[trigger] has_edges(r, left, top, right, bottom) && keeps_share(left, dpi, x)
            && keeps_share(top, dpi, y) && keeps_share(right - left, dpi, w) && keeps_share(
            bottom - top,
            dpi,
            h,
        )
}

/// Whether two boxes are less than two points apart in both directions.
pub open spec fn are_close(it: ItemView, x: int, y: int, w: int, h: int) -> bool {
    &&& x - (it.x + it.width) < 2_000
    &&& it.x - (x + w) < 2_000
    &&& y - (it.y + it.height) < 2_000
    &&& it.y - (y + h) < 2_000
}

/// Whether an item is that of a detected text: it has its cleaned text, lies where it lies,
/// is far from all native text, and tells how sure the engine was.
pub open spec fn is_recognized(
    native: Seq<ItemView>,
    r: OcrResult,
    dpi: int,
    it: ItemView,
) -> bool {
    &&& r.confidence > 100_000
    &&& it.text == ocr_text::cleaned(r.text@)
    &&& it.text.len() > 0
    &&& lies_at(r, dpi, it.x, it.y, it.width, it.height)
    &&& forall|k: int|
        0 <= k < native.len() ==> !are_close(
            #[trigger] native[k],
            it.x,
            it.y,
            it.width,
            it.height,
        )
    &&& match r.polygon {
        Some(q) => it.rotation == 1_000 * ocr_merge::rotation_of(q),
        None => it.rotation == 0,
    }
    &&& it.font_size is Some
    &&& if it.rotation == 90_000 || it.rotation == 270_000 {
        it.font_size->0 >= 1_000 && it.font_size->0 >= it.width && (it.font_size->0 == 1_000
            || it.font_size->0 == it.width)
    } else {
        it.font_size->0 == it.height
    }
    &&& it.font_name == Some("OCR"@)
    &&& it.confidence is Some
    &&& -500 <= 1000 * it.confidence->0 - r.confidence <= 500
}

/// Whether a detected text is left out for a reason: the engine was not sure, nothing is left
/// of it, or it lies close to native text.
pub open spec fn is_left_out(native: Seq<ItemView>, r: OcrResult, dpi: int) -> bool {
    ||| r.confidence <= 100_000
    ||| ocr_text::cleaned(r.text@).len() == 0
    ||| exists|x: int, y: int, w: int, h: int, k: int|
        0 <= k < native.len() && #[trigger] lies_at(r, dpi, x, y, w, h) && are_close(
            #[trigger] native[k],
            x,
            y,
            w,
            h,
        )
}

/// Whether `at` tells which of the first `n` detected texts the items are made of, in order,
/// and the others are left out for a reason.
pub open spec fn are_recognized(
    native: Seq<ItemView>,
    results: Seq<OcrResult>,
    dpi: int,
    n: int,
    items: Seq<ItemView>,
    at: Seq<int>,
) -> bool {
    &&& at.len() == items.len()
    &&& forall|i: int|
        0 <= i < at.len() ==> 0 <= #[trigger] at[i] < n && is_recognized(
            native,
            results[at[i]],
            dpi,
            items[i],
        )
    &&& forall|i: int, j: int| 0 <= i < j < at.len() ==> #[trigger] at[i] < #[trigger] at[j]
    &&& forall|k: int|
        0 <= k < n && !at.contains(k) ==> is_left_out(native, #[trigger] results[k], dpi)
}

proof fn lemma_item_recognized(native: Seq<ItemView>, r: OcrResult, dpi: int)
    requires
        dpi > 0,
    ensures
        match ocr_merge::item_for(native, r, dpi) {
            Some(it) => is_recognized(native, r, dpi, it),
            None => is_left_out(native, r, dpi),
        },
{
    let e = ocr_merge::edges_of(r);
    let x = ocr_merge::on_page(e.left as int, dpi);
    let y = ocr_merge::on_page(e.top as int, dpi);
    let w = ocr_merge::on_page(e.right - e.left, dpi);
    let h = ocr_merge::on_page(e.bottom - e.top, dpi);
    law_lengths_keep_their_share(e.left as int, dpi);
    law_lengths_keep_their_share(e.top as int, dpi);
    law_lengths_keep_their_share(e.right - e.left, dpi);
    law_lengths_keep_their_share(e.bottom - e.top, dpi);
    assert(has_edges(r, e.left as int, e.top as int, e.right as int, e.bottom as int));
    assert(lies_at(r, dpi, x, y, w, h));
    if r.confidence > 100_000 && ocr_text::cleaned(r.text@).len() > 0 {
        let t = ocr_merge::OVERLAP_TOLERANCE as int;
        if ocr_merge::touches_any(native, x, y, w, h, t) {
            let k = choose|k: int|
                0 <= k < native.len() && ocr_merge::touches(#[trigger] native[k], x, y, w, h, t);
            assert(are_close(native[k], x, y, w, h));
        } else {
            assert forall|k: int| 0 <= k < native.len() implies !are_close(
                #[trigger] native[k],
                x,
                y,
                w,
                h,
            ) by {
                assert(!ocr_merge::touches(native[k], x, y, w, h, t));
            }
        }
    }
}

proof fn lemma_items_recognized(
    native: Seq<ItemView>,
    results: Seq<OcrResult>,
    dpi: int,
    n: int,
) -> (at: Seq<int>)
    requires
        dpi > 0,
        0 <= n <= results.len(),
    ensures
        are_recognized(
            native,
            results,
            dpi,
            n,
            ocr_merge::items_upto(native, results, dpi, n),
            at,
        ),
    decreases n,
{
    if n <= 0 {
        seq![]
    } else {
        let before = lemma_items_recognized(native, results, dpi, n - 1);
        let items = ocr_merge::items_upto(native, results, dpi, n);
        lemma_item_recognized(native, results[n - 1], dpi);
        if ocr_merge::item_for(native, results[n - 1], dpi) is Some {
            let at = before.push(n - 1);
            assert forall|i: int| 0 <= i < at.len() implies 0 <= #[trigger] at[i] < n
                && is_recognized(native, results[at[i]], dpi, items[i]) by {
                if i < before.len() {
                    assert(at[i] == before[i]);
                }
            }
            assert forall|i: int, j: int| 0 <= i < j < at.len() implies #[trigger] at[i]
                < #[trigger] at[j] by {
                assert(at[i] == before[i]);
                if j < before.len() {
                    assert(at[j] == before[j]);
                }
            }
            assert forall|k: int| 0 <= k < n && !at.contains(k) implies is_left_out(
                native,
                #[trigger] results[k],
                dpi,
            ) by {
                assert(at[before.len() as int] == n - 1);
                if before.contains(k) {
                    let i = choose|i: int| 0 <= i < before.len() && before[i] == k;
                    assert(at[i] == k);
                }
            }
            at
        } else {
            before
        }
    }
}

/// Merging keeps the native text that is readable, and puts the detected texts behind it, in
/// their order, each at its place on the page. A detected text is left out only where the
/// engine was not sure, where nothing is left of it, or where native text is.
pub proof fn law_recognized_text_is_placed(
    items: Seq<ItemView>,
    results: Seq<OcrResult>,
    dpi: int,
)
    requires
        dpi > 0,
        results.len() > 0,
    ensures
        ({
            let native = ocr_merge::native_items(items);
            let merged = ocr_merge::merged_items(items, results, dpi);
            &&& native.is_prefix_of(merged)
            &&& exists|at: Seq<int>| #[trigger]
                are_recognized(
                    native,
                    results,
                    dpi,
                    results.len() as int,
                    merged.skip(native.len() as int),
                    at,
                )
        }),
{
    let native = ocr_merge::native_items(items);
    let merged = ocr_merge::merged_items(items, results, dpi);
    let n = results.len() as int;
    let at = lemma_items_recognized(native, results, dpi, n);
    assert(merged.skip(native.len() as int) =~= ocr_merge::items_upto(native, results, dpi, n));
    assert(are_recognized(native, results, dpi, n, merged.skip(native.len() as int), at));
}

proof fn lemma_readable_from(items: Seq<ItemView>, n: int) -> (at: Seq<int>)
    requires
        0 <= n <= items.len(),
    ensures
        at.len() == ocr_merge::readable_upto(items, n).len(),
        forall|i: int|
            0 <= i < at.len() ==> 0 <= #[trigger] at[i] < n && ocr_merge::readable_upto(
                items,
                n,
            )[i] == items[at[i]] && !ocr_text::is_garbled(items[at[i]].text),
        forall|i: int, j: int| 0 <= i < j < at.len() ==> #[trigger] at[i] < #[trigger] at[j],
        forall|k: int|
            0 <= k < n && !ocr_text::is_garbled((#[trigger] items[k]).text) ==> at.contains(k),
    decreases n,
{
    if n <= 0 {
        seq![]
    } else {
        let before = lemma_readable_from(items, n - 1);
        if ocr_text::is_garbled(items[n - 1].text) {
            before
        } else {
            let at = before.push(n - 1);
            assert forall|k: int|
                0 <= k < n && !ocr_text::is_garbled((#[trigger] items[k]).text) implies at.contains(
                k,
            ) by {
                if k < n - 1 {
                    let i = choose|i: int| 0 <= i < before.len() && before[i] == k;
                    assert(at[i] == k);
                } else {
                    assert(at[before.len() as int] == k);
                }
            }
            at
        }
    }
}

/// Native text is dropped only where it is garbled, by itself or with the whole page.
pub proof fn law_readable_text_is_native(items: Seq<ItemView>, k: int)
    requires
        0 <= k < items.len(),
        !ocr_merge::is_garbled_page(items),
        !ocr_text::is_garbled(items[k].text),
    ensures
        ocr_merge::native_items(items).contains(items[k]),
{
    let at = lemma_readable_from(items, items.len() as int);
    assert(at.contains(k));
    let i = choose|i: int| 0 <= i < at.len() && at[i] == k;
    assert(ocr_merge::native_items(items)[i] == items[k]);
}

/// Recognition changes the text of the page that it was made for, and of no other.
pub proof fn law_other_pages_stay(
    pages: Seq<PageText>,
    outcomes: Seq<(usize, Outcome)>,
    dpi: int,
    n: int,
    k: int,
)
    requires
        0 <= n <= outcomes.len(),
        0 <= k < pages.len(),
        forall|i: int| 0 <= i < outcomes.len() ==> (#[trigger] outcomes[i]).0 < pages.len(),
        forall|i: int| 0 <= i < outcomes.len() ==> (#[trigger] outcomes[i]).0 != k,
    ensures
        ocr_merge::progress_upto(pages, outcomes, dpi, n).pages.len() == pages.len(),
        ocr_merge::progress_upto(pages, outcomes, dpi, n).pages[k] == pages[k],
    decreases n,
{
    if n > 0 {
        law_other_pages_stay(pages, outcomes, dpi, n - 1, k);
        assert(outcomes[n - 1].0 != k);
    }
}

/// A page whose text was recognized has its text merged with what was detected.
pub proof fn law_each_page_gets_its_text(
    pages: Seq<PageText>,
    outcomes: Seq<(usize, Outcome)>,
    dpi: int,
    i: int,
)
    requires
        0 <= i < outcomes.len(),
        forall|j: int| 0 <= j < outcomes.len() ==> (#[trigger] outcomes[j]).0 < pages.len(),
        forall|j: int|
            0 <= j < outcomes.len() && j != i ==> (#[trigger] outcomes[j]).0 != outcomes[i].0,
        outcomes[i].1 is Read,
    ensures
        ({
            let k = outcomes[i].0 as int;
            let p = ocr_merge::progress_upto(pages, outcomes, dpi, outcomes.len() as int).pages[k];
            &&& p.items == ocr_merge::merged_items(pages[k].items, outcomes[i].1->Read_0@, dpi)
            &&& p.width == pages[k].width
            &&& p.height == pages[k].height
        }),
{
    lemma_each_page(pages, outcomes, dpi, i, outcomes.len() as int);
}

proof fn lemma_each_page(
    pages: Seq<PageText>,
    outcomes: Seq<(usize, Outcome)>,
    dpi: int,
    i: int,
    n: int,
)
    requires
        0 <= i < outcomes.len(),
        0 <= n <= outcomes.len(),
        forall|j: int| 0 <= j < outcomes.len() ==> (#[trigger] outcomes[j]).0 < pages.len(),
        forall|j: int|
            0 <= j < outcomes.len() && j != i ==> (#[trigger] outcomes[j]).0 != outcomes[i].0,
        outcomes[i].1 is Read,
    ensures
        ({
            let k = outcomes[i].0 as int;
            let all = ocr_merge::progress_upto(pages, outcomes, dpi, n).pages;
            &&& all.len() == pages.len()
            &&& n <= i ==> all[k] == pages[k]
            &&& n > i ==> all[k] == (PageText {
                items: ocr_merge::merged_items(pages[k].items, outcomes[i].1->Read_0@, dpi),
                ..pages[k]
            })
        }),
    decreases n,
{
    if n > 0 {
        lemma_each_page(pages, outcomes, dpi, i, n - 1);
        assert(outcomes[n - 1].0 < pages.len());
        if n - 1 != i {
            assert(outcomes[n - 1].0 != outcomes[i].0);
        }
    }
}

// ---------------------------------------------------------------------------
// Rotation
// ---------------------------------------------------------------------------

/// A corner, turned by a quarter counterclockwise on a page whose y axis points down.
pub open spec fn corner_turned(from: Corner, to: Corner) -> bool {
    to.x == from.y && to.y == -from.x
}

/// Whether one quadrangle is the other, turned by a quarter counterclockwise.
pub open spec fn quad_turned(from: Quad, to: Quad) -> bool {
    corner_turned(from.a, to.a) && corner_turned(from.b, to.b) && corner_turned(from.c, to.c)
        && corner_turned(from.d, to.d)
}

/// The square of the distance of two corners.
pub open spec fn distance_squared(p: Corner, q: Corner) -> int {
    (q.x - p.x) * (q.x - p.x) + (q.y - p.y) * (q.y - p.y)
}

/// Whether a text is longer in one direction: one of two adjacent edges is a pixel or more,
/// and 1.3 times the other or more.
pub open spec fn is_oblong(q: Quad) -> bool {
    let l0 = distance_squared(q.a, q.b);
    let l1 = distance_squared(q.b, q.c);
    ||| l0 >= 1_000_000 && 100 * l0 >= 169 * l1
    ||| l1 >= 1_000_000 && 100 * l1 >= 169 * l0
}

/// Turning an oblong text by a quarter counterclockwise adds a quarter to its rotation, and a
/// text that is about as high as wide, or smaller than a pixel, counts as upright.
pub proof fn law_rotation_turns_along(from: Quad, to: Quad)
    requires
        quad_turned(from, to),
    ensures
        is_oblong(from) ==> ocr_merge::rotation_of(to) == (ocr_merge::rotation_of(from) + 90)
            % 360,
        !is_oblong(from) ==> ocr_merge::rotation_of(from) == 0 && ocr_merge::rotation_of(to) == 0,
{
    let x0 = from.b.x - from.a.x;
    let y0 = from.b.y - from.a.y;
    let x1 = from.c.x - from.b.x;
    let y1 = from.c.y - from.b.y;
    assert(to.b.x - to.a.x == y0 && to.b.y - to.a.y == -x0);
    assert(to.c.x - to.b.x == y1 && to.c.y - to.b.y == -x1);
    assert(x0 * x0 >= 0 && y0 * y0 >= 0 && x1 * x1 >= 0 && y1 * y1 >= 0) by (nonlinear_arith);
    assert((-x0) * (-x0) == x0 * x0 && (-x1) * (-x1) == x1 * x1) by (nonlinear_arith);
    let l0 = x0 * x0 + y0 * y0;
    let l1 = x1 * x1 + y1 * y1;
    assert(ocr_merge::length_squared(x0, y0) == l0);
    assert(ocr_merge::length_squared(y0, -x0) == l0);
    assert(ocr_merge::length_squared(x1, y1) == l1);
    assert(ocr_merge::length_squared(y1, -x1) == l1);
    if x0 == 0 && y0 == 0 {
        assert(l0 == 0) by (nonlinear_arith)
            requires
                x0 == 0,
                y0 == 0,
                l0 == x0 * x0 + y0 * y0,
        ;
    }
    if x1 == 0 && y1 == 0 {
        assert(l1 == 0) by (nonlinear_arith)
            requires
                x1 == 0,
                y1 == 0,
                l1 == x1 * x1 + y1 * y1,
        ;
    }
}

/// An oblong text whose longer edge runs more to the right than up or down is upright.
pub proof fn law_upright_text(q: Quad)
    requires
        is_oblong(q),
        ({
            let long = if distance_squared(q.a, q.b) >= distance_squared(q.b, q.c) {
                (q.b.x - q.a.x, q.b.y - q.a.y)
            } else {
                (q.c.x - q.b.x, q.c.y - q.b.y)
            };
            long.0 > long.1 && long.0 > -long.1
        }),
    ensures
        ocr_merge::rotation_of(q) == 0,
{
}

// ---------------------------------------------------------------------------
// Pages that need recognition
// ---------------------------------------------------------------------------

/// The texts of the first `n` items, one behind the other.
pub open spec fn joined_text(items: Seq<ItemView>, n: int) -> Seq<char>
    decreases n,
{
    if n <= 0 {
        seq![]
    } else {
        joined_text(items, n - 1) + items[n - 1].text
    }
}

proof fn lemma_page_counts(items: Seq<ItemView>, n: int)
    requires
        0 <= n <= items.len(),
    ensures
        ocr_merge::page_letters(items, n) == joined_text(items, n).filter(
            |c: char| number_text::is_latin(c),
        ).len(),
        ocr_merge::page_vowels(items, n) == joined_text(items, n).filter(
            |c: char| number_text::is_latin_vowel(c),
        ).len(),
    decreases n,
{
    reveal(Seq::filter);
    if n > 0 {
        lemma_page_counts(items, n - 1);
        let a = joined_text(items, n - 1);
        let b = items[n - 1].text;
        number_text::law_letters_are_counted(b);
        Seq::filter_distributes_over_add(a, b, |c: char| number_text::is_latin(c));
        Seq::filter_distributes_over_add(a, b, |c: char| number_text::is_latin_vowel(c));
    }
}

/// A page is taken as garbled if its text has thirty letters or more, and fewer than one
/// vowel to five letters.
pub proof fn law_garbled_page_lacks_vowels(items: Seq<ItemView>)
    ensures
        ocr_merge::is_garbled_page(items) <==> ({
            let all = joined_text(items, items.len() as int);
            let letters = all.filter(|c: char| number_text::is_latin(c)).len();
            let vowels = all.filter(|c: char| number_text::is_latin_vowel(c)).len();
            letters >= 30 && 5 * vowels < letters
        }),
{
    lemma_page_counts(items, items.len() as int);
}

/// The sum of the areas of items.
pub open spec fn sum_of_areas(v: Seq<ItemView>) -> int
    decreases v.len(),
{
    if v.len() == 0 {
        0
    } else {
        sum_of_areas(v.drop_last()) + v.last().width * v.last().height
    }
}

/// The sum of the lengths of texts, in bytes.
pub open spec fn sum_of_bytes(v: Seq<ItemView>) -> int
    decreases v.len(),
{
    if v.len() == 0 {
        0
    } else {
        sum_of_bytes(v.drop_last()) + text::utf8_len(v.last().text, v.last().text.len() as int)
    }
}

proof fn lemma_sums(items: Seq<ItemView>, n: int)
    requires
        0 <= n <= items.len(),
    ensures
        ({
            let v = items.take(n).filter(|it: ItemView| !ocr_text::is_garbled(it.text));
            &&& ocr_merge::readable_bytes(items, n) == sum_of_bytes(v)
            &&& ocr_merge::readable_area(items, n) == sum_of_areas(v)
        }),
    decreases n,
{
    reveal(Seq::filter);
    let f = |it: ItemView| !ocr_text::is_garbled(it.text);
    let v = items.take(n).filter(f);
    if n > 0 {
        lemma_sums(items, n - 1);
        assert(items.take(n).drop_last() =~= items.take(n - 1));
        assert(items.take(n).last() == items[n - 1]);
        let before = items.take(n - 1).filter(f);
        if f(items[n - 1]) {
            assert(v == before.push(items[n - 1]));
            assert(v.drop_last() =~= before);
        }
    } else {
        assert(v =~= seq![]);
    }
}

/// A page needs recognition if it has images, if its text is garbled, or if what is readable
/// of it is short of twenty bytes or of 15 percent of the page.
pub proof fn law_sparse_page_needs_recognition(p: PageText, has_images: bool)
    ensures
        ocr_merge::needs_ocr(p, has_images) <==> ({
            let v = p.items.filter(|it: ItemView| !ocr_text::is_garbled(it.text));
            ||| has_images
            ||| ocr_merge::is_garbled_page(p.items)
            ||| sum_of_bytes(v) < 20
            ||| p.width * p.height <= 0
            ||| 100 * sum_of_areas(v) < 15 * (p.width * p.height)
        }),
{
    lemma_sums(p.items, p.items.len() as int);
    assert(p.items.take(p.items.len() as int) =~= p.items);
}

} // verus!
