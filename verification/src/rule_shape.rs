//! What the dividing rules of a page are.

use crate::grid;
use crate::hr;
use crate::sort;
use crate::types;
use crate::types::{GraphicPrimitive, ParsedPage, ProjectedLine};
use vstd::prelude::*;

verus! {

/// Whether a stroke from `left` to `right` at height `y` lies under a line of text: within
/// three points of its bottom, and at most two points beyond its ends.
pub open spec fn is_under(line: ProjectedLine, y: int, left: int, right: int) -> bool {
    &&& -3_000 < y - (line.bbox.y + line.bbox.height) < 3_000
    &&& line.bbox.x - left <= 2_000
    &&& right - (line.bbox.x + line.bbox.width) <= 2_000
}

/// Whether a stroke divides a page at height `y`: it is level and thin to within two points,
/// as long as 30 percent of the page is wide, and under no line of text.
pub open spec fn divides(page: ParsedPage, g: GraphicPrimitive, y: int) -> bool {
    match g {
        GraphicPrimitive::Stroke { x1, y1, x2, y2, width, .. } => {
            let left = if x1 <= x2 {
                x1
            } else {
                x2
            };
            let right = if x1 <= x2 {
                x2
            } else {
                x1
            };
            &&& 2 * y <= y1 + y2 <= 2 * y + 1
            &&& -2_000 <= y1 - y2 <= 2_000
            &&& width <= 2_000
            &&& 100 * (right - left) >= 30 * page.page_width
            &&& forall|i: int|
                0 <= i < page.projected_lines@.len() ==> !is_under(
                    #[trigger] page.projected_lines@[i],
                    y,
                    left as int,
                    right as int,
                )
        },
        GraphicPrimitive::Rect { .. } => false,
    }
}

proof fn lemma_rule(page: ParsedPage, g: GraphicPrimitive)
    ensures
        match hr::rule_of(page, g) {
            Some(y) => divides(page, g, y),
            None => forall|y: int| !divides(page, g, y),
        },
{
    match g {
        GraphicPrimitive::Stroke { x1, y1, x2, y2, width, .. } => {
            let y = types::midpoint(y1 as int, y2 as int);
            let left = types::min_of(x1 as int, x2 as int);
            let right = types::max_of(x1 as int, x2 as int);
            assert forall|i: int| 0 <= i < page.projected_lines@.len() implies hr::underlines(
                #[trigger] page.projected_lines@[i],
                y,
                left,
                right,
            ) == is_under(page.projected_lines@[i], y, left, right) by {}
            if hr::rule_of(page, g) is None {
                assert forall|z: int| !divides(page, g, z) by {
                    if divides(page, g, z) {
                        assert(z == y);
                        assert forall|i: int| 0 <= i < page.projected_lines@.len() implies !hr::underlines(
                            #[trigger] page.projected_lines@[i],
                            y,
                            left,
                            right,
                        ) by {
                            assert(!is_under(page.projected_lines@[i], z, left, right));
                        }
                    }
                }
            }
        },
        GraphicPrimitive::Rect { .. } => {},
    }
}

proof fn lemma_rules_upto(page: ParsedPage, n: int)
    requires
        0 <= n <= page.graphics@.len(),
    ensures
        forall|y: int|
            hr::rules_upto(page, n).contains(y) <==> exists|k: int|
                0 <= k < n && divides(page, #[trigger] page.graphics@[k], y),
    decreases n,
{
    if n > 0 {
        lemma_rules_upto(page, n - 1);
        let g = page.graphics@[n - 1];
        lemma_rule(page, g);
        let before = hr::rules_upto(page, n - 1);
        let all = hr::rules_upto(page, n);
        assert forall|y: int| all.contains(y) <==> exists|k: int|
            0 <= k < n && divides(page, #[trigger] page.graphics@[k], y) by {
            if all.contains(y) {
                let i = choose|i: int| 0 <= i < all.len() && all[i] == y;
                if i < before.len() {
                    assert(before[i] == y);
                    assert(before.contains(y));
                } else {
                    assert(divides(page, page.graphics@[n - 1], y));
                }
            }
            if exists|k: int| 0 <= k < n && divides(page, #[trigger] page.graphics@[k], y) {
                let k = choose|k: int| 0 <= k < n && divides(page, #[trigger] page.graphics@[k], y);
                if k < n - 1 {
                    assert(before.contains(y));
                    let i = choose|i: int| 0 <= i < before.len() && before[i] == y;
                    assert(all[i] == y);
                } else {
                    assert(divides_one(page, g, y, hr::rule_of(page, g)->0));
                    assert(all[before.len() as int] == y);
                }
            }
        }
    } else {
        assert(hr::rules_upto(page, n) =~= seq![]);
    }
}

/// A stroke divides a page at one height only.
spec fn divides_one(page: ParsedPage, g: GraphicPrimitive, y: int, z: int) -> bool {
    divides(page, g, y) && divides(page, g, z) ==> y == z
}

/// Whether a value is one that is kept, or at most `tol` above it.
#[verifier::opaque]
pub open spec fn is_behind(kept: Seq<int>, x: int, tol: int) -> bool {
    exists|k: int| 0 <= k < kept.len() && 0 <= x - (#[trigger] kept[k]) <= tol
}

proof fn lemma_behind(kept: Seq<int>, x: int, tol: int, k: int)
    requires
        0 <= k < kept.len(),
        0 <= x - kept[k] <= tol,
    ensures
        is_behind(kept, x, tol),
{
    reveal(is_behind);
}

proof fn lemma_still_behind(kept: Seq<int>, y: int, x: int, tol: int)
    requires
        is_behind(kept, x, tol),
    ensures
        is_behind(kept.push(y), x, tol),
{
    reveal(is_behind);
    let k = choose|k: int| 0 <= k < kept.len() && 0 <= x - (#[trigger] kept[k]) <= tol;
    assert(kept.push(y)[k] == kept[k]);
}

/// Values of an ascending sequence that are kept stay more than `tol` apart, come from it,
/// and have each value of it close behind one of them.
pub open spec fn is_thinned(v: Seq<int>, kept: Seq<int>, tol: int, n: int) -> bool {
    &&& forall|i: int| 0 <= i < kept.len() ==> v.contains(#[trigger] kept[i])
    &&& forall|i: int, j: int|
        0 <= i < j < kept.len() ==> #[trigger] kept[j] - #[trigger] kept[i] > tol
    &&& forall|i: int| 0 <= i < n ==> is_behind(kept, #[trigger] v[i], tol)
    &&& n > 0 ==> kept.len() > 0 && kept.last() <= v[n - 1]
}

/// Thinning out an ascending sequence.
pub proof fn law_thinned(v: Seq<int>, tol: int, n: int)
    requires
        0 <= n <= v.len(),
        tol >= 0,
        forall|i: int, j: int| 0 <= i <= j < v.len() ==> v[i] <= v[j],
    ensures
        is_thinned(v, grid::dedup_upto(v, tol, n), tol, n),
    decreases n,
{
    let kept = grid::dedup_upto(v, tol, n);
    if n > 0 {
        law_thinned(v, tol, n - 1);
        let before = grid::dedup_upto(v, tol, n - 1);
        if n > 1 {
            assert(v[n - 2] <= v[n - 1]);
        }
        assert(v.contains(v[n - 1]));
        assert forall|i: int| 0 <= i < n implies is_behind(kept, #[trigger] v[i], tol) by {
            if i < n - 1 {
                if kept.len() > before.len() {
                    lemma_still_behind(before, v[n - 1], v[i], tol);
                }
            } else {
                lemma_behind(kept, v[i], tol, kept.len() - 1);
            }
        }
        if kept.len() > before.len() {
            assert forall|i: int, j: int| 0 <= i < j < kept.len() implies #[trigger] kept[j]
                - #[trigger] kept[i] > tol by {
                if j < before.len() {
                    assert(before[j] - before[i] > tol);
                } else if i < before.len() - 1 {
                    assert(before[before.len() - 1] - before[i] > tol);
                    assert(v[n - 1] > before[before.len() - 1]);
                }
            }
        }
    }
}

/// The dividing rules of a page are at the heights of its dividing strokes, from top to
/// bottom, one point or more apart, and no dividing stroke is a point or more below the
/// nearest rule above it.
pub proof fn law_rules_divide(page: ParsedPage)
    requires
        page.page_width > 0,
    ensures
        forall|i: int|
            0 <= i < hr::rules(page).len() ==> is_drawn(page, #[trigger] hr::rules(page)[i]),
        forall|i: int, j: int|
            0 <= i < j < hr::rules(page).len() ==> #[trigger] hr::rules(page)[j]
                - #[trigger] hr::rules(page)[i] >= 1_000,
        forall|y: int| #[trigger] is_drawn(page, y) ==> has_rule(hr::rules(page), y),
{
    let n = page.graphics@.len() as int;
    let v = hr::rules_upto(page, n);
    let all = sort::sorted(v);
    lemma_rules_upto(page, n);
    sort::law_sorted(v);
    law_thinned(all, 999, all.len() as int);
    let r = hr::rules(page);
    assert(r == grid::dedup_upto(all, 999, all.len() as int));
    assert forall|i: int| 0 <= i < r.len() implies is_drawn(page, #[trigger] r[i]) by {
        assert(all.contains(r[i]));
        assert(v.contains(r[i]));
    }
    assert forall|y: int| #[trigger] is_drawn(page, y) implies has_rule(r, y) by {
        assert(v.contains(y));
        assert(all.contains(y));
        let i = choose|i: int| 0 <= i < all.len() && all[i] == y;
        assert(0 <= i < all.len());
        assert(is_behind(r, all[i], 999));
        reveal(is_behind);
        let k = choose|k: int| 0 <= k < r.len() && 0 <= all[i] - (#[trigger] r[k]) <= 999;
        assert(0 <= y - r[k] < 1_000);
    }
}

/// Whether a dividing stroke is drawn at a height.
pub open spec fn is_drawn(page: ParsedPage, y: int) -> bool {
    exists|k: int| 0 <= k < page.graphics@.len() && divides(page, #[trigger] page.graphics@[k], y)
}

/// Whether a rule is at a height, or less than a point above it.
pub open spec fn has_rule(rules: Seq<int>, y: int) -> bool {
    exists|k: int| 0 <= k < rules.len() && 0 <= y - (#[trigger] rules[k]) < 1_000
}

} // verus!
