//! Horizontal rules of a page that divide its text.

use vstd::prelude::*;
use crate::cells;
use crate::grid;
use crate::sort;
use crate::types;
use crate::types::{GraphicPrimitive, ParsedPage, ProjectedLine};

verus! {

/// The largest thickness, and the largest slope, of a dividing rule.
pub const HR_MAX_THICKNESS: i64 = 2_000;

/// A rule this close to the bottom of a line underlines it.
pub const HR_UNDERLINE_PROXIMITY: i64 = 3_000;

/// How far an underline may stick out of the line on either side.
pub const HR_UNDERLINE_SLACK: i64 = 2_000;

/// Whether a rule at height `y` from `left` to `right` underlines a line.
pub open spec fn underlines(line: ProjectedLine, y: int, left: int, right: int) -> bool {
    &&& types::dist(y, line.bbox.bottom_edge()) < HR_UNDERLINE_PROXIMITY
    &&& left >= line.bbox.x - HR_UNDERLINE_SLACK
    &&& right <= line.bbox.right_edge() + HR_UNDERLINE_SLACK
}

/// The height of the dividing rule that a graphic draws, if it draws one: a thin
/// level stroke over at least 30 percent of the page width that underlines no
/// line.
pub open spec fn rule_of(page: ParsedPage, g: GraphicPrimitive) -> Option<int> {
    match g {
        GraphicPrimitive::Stroke { x1, y1, x2, y2, width, .. } => {
            let y = types::midpoint(y1 as int, y2 as int);
            let left = types::min_of(x1 as int, x2 as int);
            let right = types::max_of(x1 as int, x2 as int);
            if types::dist(y1 as int, y2 as int) <= HR_MAX_THICKNESS && width <= HR_MAX_THICKNESS
                && 10 * types::dist(x1 as int, x2 as int) >= 3 * page.page_width && !exists|i: int|
                0 <= i < page.projected_lines@.len() && underlines(
                    #[trigger] page.projected_lines@[i],
                    y,
                    left,
                    right,
                ) {
                Some(y)
            } else {
                None
            }
        },
        GraphicPrimitive::Rect { .. } => None,
    }
}

/// The heights of the dividing rules among the first `n` graphics.
pub open spec fn rules_upto(page: ParsedPage, n: int) -> Seq<int>
    decreases n,
{
    if n <= 0 {
        seq![]
    } else {
        match rule_of(page, page.graphics@[n - 1]) {
            Some(y) => rules_upto(page, n - 1).push(y),
            None => rules_upto(page, n - 1),
        }
    }
}

/// The heights of the dividing rules of a page, from top to bottom. Of rules
/// less than a point apart only the first counts.
pub open spec fn rules(page: ParsedPage) -> Seq<int> {
    if page.page_width <= 0 {
        seq![]
    } else {
        let all = sort::sorted(rules_upto(page, page.graphics@.len() as int));
        grid::dedup_upto(all, types::PT - 1, all.len() as int)
    }
}

fn is_underline(lines: &Vec<ProjectedLine>, y: i64, left: i64, right: i64) -> (r: bool)
    requires
        cells::in_reach(y as int),
        cells::in_reach(left as int),
        cells::in_reach(right as int),
    ensures
        r == exists|i: int|
            0 <= i < lines@.len() && underlines(
                #[trigger] lines@[i],
                y as int,
                left as int,
                right as int,
            ),
{
    let mut i: usize = 0;
    while i < lines.len()
        invariant
            i <= lines@.len(),
            cells::in_reach(y as int),
            cells::in_reach(left as int),
            cells::in_reach(right as int),
            forall|k: int|
                0 <= k < i ==> !underlines(
                    #[trigger] lines@[k],
                    y as int,
                    left as int,
                    right as int,
                ),
        decreases lines.len() - i,
    {
        let bbox = &lines[i].bbox;
        if types::dist64(y, bbox.bottom()) < HR_UNDERLINE_PROXIMITY && left >= bbox.x as i64
            - HR_UNDERLINE_SLACK && right <= bbox.right() + HR_UNDERLINE_SLACK {
            return true;
        }
        i = i + 1;
    }
    false
}

fn rule_height(page: &ParsedPage, g: &GraphicPrimitive) -> (r: Option<i64>)
    ensures
        match r {
            Some(y) => rule_of(*page, *g) == Some(y as int) && cells::in_reach(y as int),
            None => rule_of(*page, *g) is None,
        },
{
    match g {
        GraphicPrimitive::Stroke { x1, y1, x2, y2, color: _, width } => {
            let dy: i64 = types::dist64(*y1 as i64, *y2 as i64);
            let dx: i64 = types::dist64(*x1 as i64, *x2 as i64);
            if dy > HR_MAX_THICKNESS || *width as i64 > HR_MAX_THICKNESS || 10 * dx < 3 * (
            page.page_width as i64) {
                return None;
            }
            let y: i64 = types::mid64(*y1 as i64, *y2 as i64);
            let left: i64 = types::min64(*x1 as i64, *x2 as i64);
            let right: i64 = types::max64(*x1 as i64, *x2 as i64);
            if is_underline(&page.projected_lines, y, left, right) {
                None
            } else {
                Some(y)
            }
        },
        GraphicPrimitive::Rect { bbox: _, fill: _, stroke: _ } => None,
    }
}

/// The heights of the dividing rules of a page, from top to bottom.
pub fn detect_horizontal_rules(page: &ParsedPage) -> (r: Vec<i64>)
    ensures
        sort::ints(r@) == rules(*page),
        forall|i: int| 0 <= i < r@.len() ==> cells::in_reach(#[trigger] r@[i] as int),
{
    let mut ys: Vec<i64> = Vec::new();
    if page.page_width <= 0 {
        proof {
            assert(sort::ints(ys@) =~= seq![]);
        }
        return ys;
    }
    let mut i: usize = 0;
    proof {
        assert(sort::ints(ys@) =~= seq![]);
    }
    while i < page.graphics.len()
        invariant
            i <= page.graphics@.len(),
            sort::ints(ys@) == rules_upto(*page, i as int),
            forall|k: int| 0 <= k < ys@.len() ==> cells::in_reach(#[trigger] ys@[k] as int),
        decreases page.graphics.len() - i,
    {
        match rule_height(page, &page.graphics[i]) {
            Some(y) => {
                proof {
                    assert(sort::ints(ys@.push(y)) =~= sort::ints(ys@).push(y as int));
                }
                ys.push(y);
            },
            None => {},
        }
        i = i + 1;
    }
    let ordered: Vec<i64> = sort::sort_values(&ys);
    proof {
        assert forall|k: int| 0 <= k < ordered@.len() implies cells::in_reach(
            #[trigger] ordered@[k] as int,
        ) by {
            assert(ys@.contains(ordered@[k]));
        }
    }
    grid::dedup_close(&ordered, types::PT - 1)
}

} // verus!
