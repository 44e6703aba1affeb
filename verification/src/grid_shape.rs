//! What the rules of a page are, how they make grids, and what tables drawn with rules show.

use crate::grid;
use crate::grid::{GroupView, SegView};
use crate::page_ruled;
use crate::region_ruled;
use crate::rule_shape;
use crate::ruled_grid;
use crate::ruled_grid::GridCellView;
use crate::sort;
use crate::table_text;
use crate::text;
use crate::types::{GraphicPrimitive, ProjectedLine, Rect};
use crate::union_find;
use vstd::prelude::*;

verus! {

// ---------------------------------------------------------------------------
// Rules
// ---------------------------------------------------------------------------

/// Whether a graphic draws a level rule: a stroke longer than a point that leans by at most a
/// point, or the upper or the lower edge of a stroked box wider than a point.
pub open spec fn draws_level(g: GraphicPrimitive, s: SegView) -> bool {
    match g {
        GraphicPrimitive::Stroke { x1, y1, x2, y2, .. } => {
            &&& -1_000 <= y1 - y2 <= 1_000
            &&& s.hi - s.lo > 1_000
            &&& (s.lo == x1 && s.hi == x2) || (s.lo == x2 && s.hi == x1)
            &&& 2 * s.pos <= y1 + y2 <= 2 * s.pos + 1
        },
        GraphicPrimitive::Rect { bbox, stroke, .. } => {
            &&& stroke is Some
            &&& bbox.width > 1_000
            &&& s.lo == bbox.x
            &&& s.hi == bbox.x + bbox.width
            &&& s.pos == bbox.y || s.pos == bbox.y + bbox.height
        },
    }
}

/// The level rules of a graphic are those that it draws.
pub proof fn law_level_rules(g: GraphicPrimitive, s: SegView)
    ensures
        grid::horizontal_of(g).contains(s) <==> draws_level(g, s),
{
    let v = grid::horizontal_of(g);
    if v.contains(s) {
        let i = choose|i: int| 0 <= i < v.len() && v[i] == s;
        assert(v[i] == s);
    }
    if draws_level(g, s) {
        match g {
            GraphicPrimitive::Stroke { x1, y1, x2, y2, .. } => {
                assert(v[0] == s);
            },
            GraphicPrimitive::Rect { bbox, .. } => {
                if s.pos == bbox.y {
                    assert(v[0] == s);
                } else {
                    assert(v[1] == s);
                }
            },
        }
    }
}

/// A graphic with its axes exchanged.
pub open spec fn transposed(g: GraphicPrimitive) -> GraphicPrimitive {
    match g {
        GraphicPrimitive::Stroke { x1, y1, x2, y2, color, width } => GraphicPrimitive::Stroke {
            x1: y1,
            y1: x1,
            x2: y2,
            y2: x2,
            color,
            width,
        },
        GraphicPrimitive::Rect { bbox, fill, stroke } => GraphicPrimitive::Rect {
            bbox: Rect { x: bbox.y, y: bbox.x, width: bbox.height, height: bbox.width },
            fill,
            stroke,
        },
    }
}

/// The upright rules of a graphic are its level rules with the axes exchanged.
pub proof fn law_upright_rules(g: GraphicPrimitive)
    ensures
        grid::vertical_of(transposed(g)) == grid::horizontal_of(g),
{
    assert(grid::vertical_of(transposed(g)) =~= grid::horizontal_of(g));
}

// ---------------------------------------------------------------------------
// Rules that are one
// ---------------------------------------------------------------------------

/// Whether a rule runs along another: at most two points behind it, and within its ends.
pub open spec fn runs_along(s: SegView, c: SegView) -> bool {
    0 <= s.pos - c.pos <= 2_000 && c.lo <= s.lo && s.hi <= c.hi
}

/// Whether one of the rules has the given position, and they reach out to the given ends.
#[verifier::opaque]
pub open spec fn is_made_of(c: SegView, v: Seq<SegView>) -> bool {
    &&& exists|i: int| 0 <= i < v.len() && (#[trigger] v[i]).pos == c.pos
    &&& exists|i: int| 0 <= i < v.len() && (#[trigger] v[i]).lo == c.lo && runs_along(v[i], c)
    &&& exists|i: int| 0 <= i < v.len() && (#[trigger] v[i]).hi == c.hi && runs_along(v[i], c)
}

/// Whether a rule runs along one of others.
#[verifier::opaque]
pub open spec fn has_rule(out: Seq<SegView>, s: SegView) -> bool {
    exists|k: int| 0 <= k < out.len() && runs_along(s, #[trigger] out[k])
}

spec fn is_clustered(v: Seq<SegView>, out: Seq<SegView>, n: int) -> bool {
    &&& forall|i: int| 0 <= i < n ==> has_rule(out, #[trigger] v[i])
    &&& forall|k: int| 0 <= k < out.len() ==> is_made_of(#[trigger] out[k], v)
    &&& forall|i: int, k: int|
        0 <= i < k < out.len() ==> (#[trigger] out[k]).pos - (#[trigger] out[i]).pos > 2_000
    &&& n > 0 ==> out.len() > 0 && out.last().pos <= v[n - 1].pos
}

proof fn lemma_made_grows(b: SegView, c: SegView, v: Seq<SegView>, n: int)
    requires
        is_made_of(b, v),
        0 <= n < v.len(),
        runs_along(v[n], c),
        c.pos == b.pos,
        c.lo == b.lo && b.lo <= v[n].lo || c.lo == v[n].lo && v[n].lo <= b.lo,
        c.hi == b.hi && b.hi >= v[n].hi || c.hi == v[n].hi && v[n].hi >= b.hi,
    ensures
        is_made_of(c, v),
{
    reveal(is_made_of);
    let p = choose|i: int| 0 <= i < v.len() && (#[trigger] v[i]).pos == b.pos;
    let l = choose|i: int| 0 <= i < v.len() && (#[trigger] v[i]).lo == b.lo && runs_along(v[i], b);
    let h = choose|i: int| 0 <= i < v.len() && (#[trigger] v[i]).hi == b.hi && runs_along(v[i], b);
    assert(v[p].pos == c.pos);
    assert(runs_along(v[l], c) && runs_along(v[h], c));
}

proof fn lemma_made_single(v: Seq<SegView>, n: int)
    requires
        0 <= n < v.len(),
        v[n].lo <= v[n].hi,
    ensures
        is_made_of(v[n], v),
{
    reveal(is_made_of);
    assert(runs_along(v[n], v[n]));
}

proof fn lemma_rule_kept(before: Seq<SegView>, out: Seq<SegView>, s: SegView)
    requires
        has_rule(before, s),
        before.len() <= out.len(),
        forall|k: int|
            0 <= k < before.len() ==> (#[trigger] out[k]).pos == before[k].pos && out[k].lo
                <= before[k].lo && before[k].hi <= out[k].hi,
    ensures
        has_rule(out, s),
{
    reveal(has_rule);
    let k = choose|k: int| 0 <= k < before.len() && runs_along(s, #[trigger] before[k]);
    assert(runs_along(s, out[k]));
}

proof fn lemma_rule_at(out: Seq<SegView>, s: SegView, k: int)
    requires
        0 <= k < out.len(),
        runs_along(s, out[k]),
    ensures
        has_rule(out, s),
{
    reveal(has_rule);
}

proof fn lemma_merged(v: Seq<SegView>, n: int, before: Seq<SegView>, c: SegView)
    requires
        0 < n <= v.len(),
        is_clustered(v, before, n - 1),
        before.len() > 0,
        v[n - 1].lo <= v[n - 1].hi,
        0 <= v[n - 1].pos - before.last().pos <= 2_000,
        c.pos == before.last().pos,
        c.lo == if before.last().lo <= v[n - 1].lo {
            before.last().lo
        } else {
            v[n - 1].lo
        },
        c.hi == if before.last().hi >= v[n - 1].hi {
            before.last().hi
        } else {
            v[n - 1].hi
        },
    ensures
        is_clustered(v, before.drop_last().push(c), n),
{
    let m = before.len() - 1;
    let out = before.drop_last().push(c);
    assert(out[m] == c);
    assert forall|k: int| 0 <= k < before.len() implies (#[trigger] out[k]).pos == before[k].pos
        && out[k].lo <= before[k].lo && before[k].hi <= out[k].hi by {
        if k < m {
            assert(out[k] == before[k]);
        }
    }
    assert forall|i: int| 0 <= i < n implies has_rule(out, #[trigger] v[i]) by {
        if i < n - 1 {
            lemma_rule_kept(before, out, v[i]);
        } else {
            lemma_rule_at(out, v[i], m);
        }
    }
    assert forall|k: int| 0 <= k < out.len() implies is_made_of(#[trigger] out[k], v) by {
        assert(is_made_of(before[k], v));
        if k < m {
            assert(out[k] == before[k]);
        } else {
            lemma_made_grows(before[m], c, v, n - 1);
        }
    }
    assert forall|i: int, k: int| 0 <= i < k < out.len() implies (#[trigger] out[k]).pos - (
    #[trigger] out[i]).pos > 2_000 by {
        assert(before[k].pos - before[i].pos > 2_000);
    }
}

proof fn lemma_appended(v: Seq<SegView>, n: int, before: Seq<SegView>)
    requires
        0 < n <= v.len(),
        is_clustered(v, before, n - 1),
        v[n - 1].lo <= v[n - 1].hi,
        before.len() > 0 ==> v[n - 1].pos - before.last().pos > 2_000,
        n == 1 ==> before.len() == 0,
    ensures
        is_clustered(v, before.push(v[n - 1]), n),
{
    let m = before.len() as int;
    let out = before.push(v[n - 1]);
    assert forall|i: int| 0 <= i < n implies has_rule(out, #[trigger] v[i]) by {
        if i < n - 1 {
            lemma_rule_kept(before, out, v[i]);
        } else {
            lemma_rule_at(out, v[i], m);
        }
    }
    assert forall|k: int| 0 <= k < out.len() implies is_made_of(#[trigger] out[k], v) by {
        if k < m {
            assert(is_made_of(before[k], v));
        } else {
            lemma_made_single(v, n - 1);
        }
    }
    assert forall|i: int, k: int| 0 <= i < k < out.len() implies (#[trigger] out[k]).pos - (
    #[trigger] out[i]).pos > 2_000 by {
        if k < m {
            assert(before[k].pos - before[i].pos > 2_000);
        } else if i < m - 1 {
            assert(before[m - 1].pos - before[i].pos > 2_000);
        }
    }
}

proof fn lemma_clustered(v: Seq<SegView>, n: int)
    requires
        0 <= n <= v.len(),
        forall|i: int, j: int|
            0 <= i <= j < v.len() ==> (#[trigger] v[i]).pos <= (#[trigger] v[j]).pos,
        forall|i: int| 0 <= i < v.len() ==> (#[trigger] v[i]).lo <= v[i].hi,
    ensures
        is_clustered(v, grid::cluster_upto(v, n), n),
    decreases n,
{
    let out = grid::cluster_upto(v, n);
    if n > 0 {
        lemma_clustered(v, n - 1);
        let before = grid::cluster_upto(v, n - 1);
        if n > 1 {
            assert(v[n - 2].pos <= v[n - 1].pos);
        } else {
            assert(before =~= seq![]);
        }
        if before.len() > 0 && v[n - 1].pos - before.last().pos <= 2_000 {
            lemma_merged(v, n, before, out.last());
            assert(out =~= before.drop_last().push(out.last()));
        } else {
            lemma_appended(v, n, before);
        }
    } else {
        assert(out =~= seq![]);
    }
}

/// Rules that are close to each other make one: those that are left are more than two points
/// apart, each rule runs along one of them, and each of them is made of rules.
pub proof fn law_close_rules_are_one(v: Seq<SegView>)
    requires
        forall|i: int| 0 <= i < v.len() ==> (#[trigger] v[i]).lo <= v[i].hi,
    ensures
        ({
            let out = grid::clustered(v);
            &&& forall|i: int| 0 <= i < v.len() ==> has_rule(out, #[trigger] v[i])
            &&& forall|k: int| 0 <= k < out.len() ==> is_made_of(#[trigger] out[k], v)
            &&& forall|i: int, k: int|
                0 <= i < k < out.len() ==> (#[trigger] out[k]).pos - (#[trigger] out[i]).pos > 2_000
        }),
{
    let keys = grid::positions(v);
    let order = sort::stable_order(keys);
    let s = sort::pick(v, order);
    let out = grid::clustered(v);
    sort::law_stable_order(keys);
    assert forall|i: int, j: int| 0 <= i <= j < s.len() implies (#[trigger] s[i]).pos
        <= (#[trigger] s[j]).pos by {
        assert(0 <= order[i] < v.len() && 0 <= order[j] < v.len());
        assert(keys[order[i]] == s[i].pos && keys[order[j]] == s[j].pos);
    }
    assert forall|i: int| 0 <= i < s.len() implies (#[trigger] s[i]).lo <= s[i].hi by {
        assert(0 <= order[i] < v.len());
        assert(s[i] == v[order[i]]);
    }
    lemma_clustered(s, s.len() as int);
    assert forall|i: int| 0 <= i < v.len() implies has_rule(out, #[trigger] v[i]) by {
        assert(order.contains(i));
        let k = choose|k: int| 0 <= k < order.len() && order[k] == i;
        assert(s[k] == v[i]);
    }
    assert forall|k: int| 0 <= k < out.len() implies is_made_of(#[trigger] out[k], v) by {
        let c = out[k];
        assert(is_made_of(c, s));
        reveal(is_made_of);
        let p = choose|i: int| 0 <= i < s.len() && (#[trigger] s[i]).pos == c.pos;
        let l = choose|i: int|
            0 <= i < s.len() && (#[trigger] s[i]).lo == c.lo && runs_along(s[i], c);
        let h = choose|i: int|
            0 <= i < s.len() && (#[trigger] s[i]).hi == c.hi && runs_along(s[i], c);
        assert(s[p] == v[order[p]] && s[l] == v[order[l]] && s[h] == v[order[h]]);
    }
}

// ---------------------------------------------------------------------------
// Groups of rules
// ---------------------------------------------------------------------------

/// Whether a level and an upright rule cross, or miss each other by three points at most.
pub open spec fn do_cross(h: SegView, v: SegView) -> bool {
    &&& h.lo - v.pos <= 3_000 && v.pos - h.hi <= 3_000
    &&& v.lo - h.pos <= 3_000 && h.pos - v.hi <= 3_000
}

/// Whether rules that cross have the same label. The upright rules come behind the level
/// ones.
pub open spec fn is_coloring(hs: Seq<SegView>, vs: Seq<SegView>, label: Seq<int>) -> bool {
    forall|i: int, j: int|
        0 <= i < hs.len() && 0 <= j < vs.len() && do_cross(#[trigger] hs[i], #[trigger] vs[j])
            ==> label[i] == label[hs.len() + j]
}

proof fn lemma_groups(hs: Seq<SegView>, vs: Seq<SegView>, label: Seq<int>, i: int, j: int)
    requires
        is_coloring(hs, vs, label),
        0 <= i <= hs.len(),
        0 <= j <= vs.len(),
        i == hs.len() ==> j == 0,
    ensures
        ({
            let c = grid::groups_at(hs, vs, i, j);
            let n = hs.len() + vs.len();
            &&& c.len() == n
            &&& forall|a: int, b: int|
                0 <= a < n && 0 <= b < n && #[trigger] c[a] == #[trigger] c[b] ==> label[a]
                    == label[b]
            &&& forall|a: int, b: int|
                0 <= a < hs.len() && 0 <= b < vs.len() && (a < i || a == i && b < j) && do_cross(
                    #[trigger] hs[a],
                    #[trigger] vs[b],
                ) ==> c[a] == c[hs.len() + b]
        }),
    decreases i, j,
{
    let c = grid::groups_at(hs, vs, i, j);
    let n = hs.len() + vs.len();
    if j > 0 {
        lemma_groups(hs, vs, label, i, j - 1);
        let before = grid::groups_at(hs, vs, i, j - 1);
        if grid::crosses(hs[i], vs[j - 1]) {
            let q = hs.len() + j - 1;
            assert(do_cross(hs[i], vs[j - 1]));
            assert(c == union_find::joined(before, i, q));
            assert forall|a: int, b: int|
                0 <= a < n && 0 <= b < n && #[trigger] c[a] == #[trigger] c[b] implies label[a]
                == label[b] by {
                assert(before[a] == before[a] && before[b] == before[b]);
                assert(before[i] == before[i] && before[q] == before[q]);
            }
            assert forall|a: int, b: int|
                0 <= a < hs.len() && 0 <= b < vs.len() && (a < i || a == i && b < j) && do_cross(
                    #[trigger] hs[a],
                    #[trigger] vs[b],
                ) implies c[a] == c[hs.len() + b] by {
                if !(a == i && b == j - 1) {
                    assert(before[a] == before[hs.len() + b]);
                }
            }
        } else {
            assert(!do_cross(hs[i], vs[j - 1]));
        }
    } else if i > 0 {
        lemma_last_row(hs, vs, label, i - 1, vs.len() as int);
    }
}

proof fn lemma_last_row(hs: Seq<SegView>, vs: Seq<SegView>, label: Seq<int>, i: int, j: int)
    requires
        is_coloring(hs, vs, label),
        0 <= i < hs.len(),
        0 <= j <= vs.len(),
    ensures
        ({
            let c = grid::groups_at(hs, vs, i, j);
            let n = hs.len() + vs.len();
            &&& c.len() == n
            &&& forall|a: int, b: int|
                0 <= a < n && 0 <= b < n && #[trigger] c[a] == #[trigger] c[b] ==> label[a]
                    == label[b]
            &&& forall|a: int, b: int|
                0 <= a < hs.len() && 0 <= b < vs.len() && (a < i || a == i && b < j) && do_cross(
                    #[trigger] hs[a],
                    #[trigger] vs[b],
                ) ==> c[a] == c[hs.len() + b]
        }),
    decreases i, j + 1,
{
    lemma_groups(hs, vs, label, i, j);
}

/// Rules that cross belong to one group, and rules of one group are linked by crossings:
/// whatever is the same for all rules that cross is the same for a whole group.
pub proof fn law_groups_of_rules(hs: Seq<SegView>, vs: Seq<SegView>, label: Seq<int>)
    requires
        is_coloring(hs, vs, label),
    ensures
        ({
            let c = grid::groups(hs, vs);
            let n = hs.len() + vs.len();
            &&& c.len() == n
            &&& is_coloring(hs, vs, c)
            &&& forall|a: int, b: int|
                0 <= a < n && 0 <= b < n && #[trigger] c[a] == #[trigger] c[b] ==> label[a]
                    == label[b]
        }),
{
    lemma_groups(hs, vs, label, hs.len() as int, 0);
}

// ---------------------------------------------------------------------------
// Tables
// ---------------------------------------------------------------------------

/// Whether a coordinate, given twice, lies between two neighbouring boundaries.
pub open spec fn lies_between(bounds: Seq<int>, twice: int, i: int) -> bool {
    0 <= i < bounds.len() - 1 && 2 * bounds[i] <= twice < 2 * bounds[i + 1]
}

/// Whether the middle of a line lies in a cell of a grid.
pub open spec fn lies_in_cell(
    ys: Seq<int>,
    xs: Seq<int>,
    line: ProjectedLine,
    r: int,
    c: int,
) -> bool {
    &&& lies_between(ys, 2 * line.bbox.y + line.bbox.height, r)
    &&& lies_between(xs, 2 * line.bbox.x + line.bbox.width, c)
    &&& !text::is_blank(line.text@)
}

/// Whether boundaries ascend by more than two points.
#[verifier::opaque]
pub open spec fn ascends(bounds: Seq<int>) -> bool {
    forall|i: int, j: int|
        0 <= i < j < bounds.len() ==> #[trigger] bounds[j] - #[trigger] bounds[i] > 2_000
}

/// The boundaries of a grid are positions of its rules, more than two points apart, and no
/// rule of it is more than two points below a boundary.
pub proof fn law_boundaries(segs: Seq<SegView>, at: Seq<int>)
    ensures
        ascends(ruled_grid::boundaries(segs, at)),
        rule_shape::is_thinned(
            sort::sorted(ruled_grid::positions_at(segs, at)),
            ruled_grid::boundaries(segs, at),
            2_000,
            at.len() as int,
        ),
{
    reveal(ascends);
    let v = ruled_grid::positions_at(segs, at);
    sort::law_sorted(v);
    rule_shape::law_thinned(sort::sorted(v), 2_000, at.len() as int);
}

proof fn lemma_ascends(segs: Seq<SegView>, at: Seq<int>)
    ensures
        ascends(ruled_grid::boundaries(segs, at)),
{
    law_boundaries(segs, at);
}

proof fn lemma_one_bucket(bounds: Seq<int>, twice: int, i: int, j: int)
    requires
        ascends(bounds),
        lies_between(bounds, twice, i),
        grid::is_bucket(bounds, twice, j),
    ensures
        i == j,
{
    reveal(ascends);
    if j + 1 < i {
        assert(bounds[i] - bounds[j + 1] > 2_000);
    } else if i + 1 < j {
        assert(bounds[j] - bounds[i + 1] > 2_000);
    }
}

proof fn lemma_in_bucket(bounds: Seq<int>, twice: int, i: int)
    requires
        ascends(bounds),
        lies_between(bounds, twice, i),
    ensures
        grid::is_bucket(bounds, twice, i),
{
    reveal(ascends);
    let n = bounds.len() as int;
    if i > 0 {
        assert(bounds[i] - bounds[0] > 2_000);
    }
    if i + 1 < n - 1 {
        assert(bounds[n - 1] - bounds[i + 1] > 2_000);
    }
}

proof fn lemma_bucket(bounds: Seq<int>, twice: int, i: int)
    requires
        ascends(bounds),
        lies_between(bounds, twice, i),
    ensures
        grid::bucket_of(bounds, twice) == Some(i),
{
    lemma_in_bucket(bounds, twice, i);
    assert forall|j: int| 0 <= j < i implies !grid::is_bucket(bounds, twice, j) by {
        if grid::is_bucket(bounds, twice, j) {
            lemma_one_bucket(bounds, twice, i, j);
        }
    }
    let k = choose|k: int|
        grid::is_bucket(bounds, twice, k) && forall|j: int|
            0 <= j < k ==> !grid::is_bucket(bounds, twice, j);
    lemma_one_bucket(bounds, twice, i, k);
}

proof fn lemma_text_in_cell(
    lines: Seq<ProjectedLine>,
    at: Seq<Option<(int, int)>>,
    r: int,
    c: int,
    i: int,
    n: int,
)
    requires
        0 <= i < n <= lines.len(),
        at[i] == Some((r, c)),
    ensures
        table_text::is_part_of(
            text::trim_of(lines[i].text@),
            ruled_grid::text_in_cell(lines, at, r, c, n),
        ),
    decreases n,
{
    let all = ruled_grid::text_in_cell(lines, at, r, c, n);
    let head = ruled_grid::text_in_cell(lines, at, r, c, n - 1);
    let s = text::trim_of(lines[i].text@);
    if i < n - 1 {
        lemma_text_in_cell(lines, at, r, c, i, n - 1);
        assert(all.subrange(0, 0 + head.len() as int) =~= head);
        assert(table_text::is_part_of(head, all));
        table_text::lemma_part_through(s, head, all);
    } else {
        let k = all.len() - s.len();
        assert(all.subrange(k, k + s.len()) =~= s);
    }
}

proof fn lemma_placed(at: Seq<Option<(int, int)>>, i: int, n: int)
    requires
        0 <= i < n <= at.len(),
        at[i] is Some,
    ensures
        ruled_grid::first_placed(at, n) is Some,
        ruled_grid::first_placed(at, n)->0 <= i,
        ruled_grid::last_placed(at, n) is Some,
        ruled_grid::last_placed(at, n)->0 >= i,
    decreases n,
{
    if i < n - 1 {
        lemma_placed(at, i, n - 1);
    } else {
        lemma_first_within(at, n - 1);
    }
}

proof fn lemma_first_within(at: Seq<Option<(int, int)>>, n: int)
    ensures
        ruled_grid::first_placed(at, n) matches Some(k) ==> 0 <= k < n,
    decreases n,
{
    if n > 0 {
        lemma_first_within(at, n - 1);
    }
}

proof fn lemma_grid_of(g: Seq<Seq<GridCellView>>)
    requires
        g.len() > 0,
    ensures
        table_text::grid_of(ruled_grid::grid_table(g)) == ruled_grid::texts_in_grid(g),
{
    let all = ruled_grid::texts_in_grid(g);
    assert(seq![ruled_grid::texts_in_row(g[0])] + all.skip(1) =~= all);
}

proof fn lemma_place(ys: Seq<int>, xs: Seq<int>, line: ProjectedLine, r: int, c: int)
    requires
        ascends(ys),
        ascends(xs),
        lies_in_cell(ys, xs, line, r, c),
    ensures
        ruled_grid::place(ys, xs, line) == Some((r, c)),
{
    lemma_bucket(ys, 2 * line.bbox.y + line.bbox.height, r);
    lemma_bucket(xs, 2 * line.bbox.x + line.bbox.width, c);
}

/// Whether a line is in a cell of a filled grid, and between the first and the last line that
/// is in any.
spec fn is_filled_in(
    lines: Seq<ProjectedLine>,
    at: Seq<Option<(int, int)>>,
    full: Seq<Seq<GridCellView>>,
    i: int,
    r: int,
    c: int,
) -> bool {
    let n = lines.len() as int;
    &&& 0 <= r < full.len()
    &&& 0 <= c < full[r].len()
    &&& full[r][c].text.len() > 0
    &&& table_text::is_part_of(text::trim_of(lines[i].text@), full[r][c].text)
    &&& ruled_grid::first_placed(at, n) is Some
    &&& ruled_grid::first_placed(at, n)->0 <= i
    &&& ruled_grid::last_placed(at, n) is Some
    &&& ruled_grid::last_placed(at, n)->0 >= i
}

proof fn lemma_filled(
    ys: Seq<int>,
    xs: Seq<int>,
    lines: Seq<ProjectedLine>,
    i: int,
    r: int,
    c: int,
)
    requires
        ascends(ys),
        ascends(xs),
        0 <= i < lines.len(),
        lies_in_cell(ys, xs, lines[i], r, c),
    ensures
        is_filled_in(
            lines,
            ruled_grid::places(ys, xs, lines),
            ruled_grid::filled_grid(
                lines,
                ruled_grid::places(ys, xs, lines),
                ys.len() - 1,
                xs.len() - 1,
            ),
            i,
            r,
            c,
        ),
{
    let at = ruled_grid::places(ys, xs, lines);
    let n = lines.len() as int;
    lemma_place(ys, xs, lines[i], r, c);
    assert(at[i] == Some((r, c)));
    lemma_text_in_cell(lines, at, r, c, i, n);
    lemma_placed(at, i, n);
    let full = ruled_grid::filled_grid(lines, at, ys.len() - 1, xs.len() - 1);
    assert(full[r][c].text == ruled_grid::text_in_cell(lines, at, r, c, n));
}

proof fn lemma_picked(
    full: Seq<Seq<GridCellView>>,
    row_sizes: Seq<int>,
    col_sizes: Seq<int>,
    r: int,
    c: int,
    s: Seq<char>,
)
    requires
        0 <= r < full.len() == row_sizes.len(),
        0 <= c < full[r].len() == col_sizes.len(),
        full[r][c].text.len() > 0,
        table_text::is_part_of(s, full[r][c].text),
    ensures
        ({
            let kept_rows = region_ruled::kept_bands(
                row_sizes,
                region_ruled::row_marks(full),
                1,
                2,
            );
            let kept_cols = region_ruled::kept_bands(
                col_sizes,
                region_ruled::column_marks(full, kept_rows, col_sizes.len()),
                3,
                10,
            );
            table_text::is_shown_in(
                ruled_grid::texts_in_grid(region_ruled::picked(full, kept_rows, kept_cols)),
                s,
            )
        }),
{
    let row_marks = region_ruled::row_marks(full);
    assert(region_ruled::row_has_text(full[r]));
    assert(row_marks[r]);
    let kept_rows = region_ruled::kept_bands(row_sizes, row_marks, 1, 2);
    lemma_kept(
        row_sizes,
        row_marks,
        region_ruled::median_of(row_sizes, row_marks),
        1,
        2,
        r,
        row_sizes.len() as int,
    );
    let rr = choose|k: int| 0 <= k < kept_rows.len() && kept_rows[k] == r;
    let col_marks = region_ruled::column_marks(full, kept_rows, col_sizes.len());
    assert(full[kept_rows[rr]][c].text.len() > 0);
    assert(region_ruled::column_has_text(full, kept_rows, c));
    assert(col_marks[c]);
    let kept_cols = region_ruled::kept_bands(col_sizes, col_marks, 3, 10);
    lemma_kept(
        col_sizes,
        col_marks,
        region_ruled::median_of(col_sizes, col_marks),
        3,
        10,
        c,
        col_sizes.len() as int,
    );
    let cc = choose|k: int| 0 <= k < kept_cols.len() && kept_cols[k] == c;
    let table = ruled_grid::texts_in_grid(region_ruled::picked(full, kept_rows, kept_cols));
    assert(table[rr][cc] == full[r][c].text);
    assert(table_text::is_part_of(s, table[rr][cc]));
}

/// A table drawn with rules shows each line of text in the cell in which its middle lies, and
/// begins and ends with such lines. It has two rows and two columns or more.
pub proof fn law_ruled_table_shows_its_lines(
    hs: Seq<SegView>,
    vs: Seq<SegView>,
    group: GroupView,
    lines: Seq<ProjectedLine>,
    page_width: int,
    page_height: int,
    i: int,
    r: int,
    c: int,
)
    requires
        page_ruled::ruled_table(hs, vs, group, lines, page_width, page_height) is Some,
        0 <= i < lines.len(),
        lies_in_cell(
            ruled_grid::boundaries(hs, group.hs),
            ruled_grid::boundaries(vs, group.vs),
            lines[i],
            r,
            c,
        ),
    ensures
        ({
            let run = page_ruled::ruled_table(
                hs,
                vs,
                group,
                lines,
                page_width,
                page_height,
            )->0;
            let table = table_text::grid_of(run.block);
            &&& run.start <= i < run.end
            &&& table.len() == ruled_grid::boundaries(hs, group.hs).len() - 1 >= 2
            &&& table[r].len() == ruled_grid::boundaries(vs, group.vs).len() - 1 >= 2
            &&& table_text::is_part_of(text::trim_of(lines[i].text@), table[r][c])
        }),
{
    let ys = ruled_grid::boundaries(hs, group.hs);
    let xs = ruled_grid::boundaries(vs, group.vs);
    lemma_ascends(hs, group.hs);
    lemma_ascends(vs, group.vs);
    lemma_filled(ys, xs, lines, i, r, c);
    let at = ruled_grid::places(ys, xs, lines);
    let g = ruled_grid::filled_grid(lines, at, ys.len() - 1, xs.len() - 1);
    lemma_grid_of(g);
    assert(ruled_grid::texts_in_grid(g)[r][c] == g[r][c].text);
}

proof fn lemma_kept(
    sizes: Seq<int>,
    marks: Seq<bool>,
    middle: int,
    num: int,
    den: int,
    k: int,
    n: int,
)
    requires
        0 <= k < n,
        marks[k] || den * sizes[k] >= num * middle,
    ensures
        region_ruled::kept_upto(sizes, marks, middle, num, den, n).contains(k),
    decreases n,
{
    let v = region_ruled::kept_upto(sizes, marks, middle, num, den, n);
    let before = region_ruled::kept_upto(sizes, marks, middle, num, den, n - 1);
    if k < n - 1 {
        lemma_kept(sizes, marks, middle, num, den, k, n - 1);
        let i = choose|i: int| 0 <= i < before.len() && before[i] == k;
        assert(v[i] == k);
    } else {
        assert(v[before.len() as int] == k);
    }
}

/// A table of a region that is drawn with rules shows each line of text whose middle lies in
/// a cell of its grid, and begins and ends with such lines; only rows and columns without
/// text are left out.
pub proof fn law_ruled_region_shows_its_lines(
    hs: Seq<SegView>,
    vs: Seq<SegView>,
    group: GroupView,
    lines: Seq<ProjectedLine>,
    page_width: int,
    page_height: int,
    i: int,
    r: int,
    c: int,
)
    requires
        region_ruled::ruled_table(hs, vs, group, lines, page_width, page_height) is Some,
        0 <= i < lines.len(),
        lies_in_cell(
            ruled_grid::boundaries(hs, group.hs),
            ruled_grid::boundaries(vs, group.vs),
            lines[i],
            r,
            c,
        ),
    ensures
        ({
            let run = region_ruled::ruled_table(
                hs,
                vs,
                group,
                lines,
                page_width,
                page_height,
            )->0;
            &&& run.start <= i < run.end
            &&& table_text::is_shown_in(
                table_text::grid_of(run.block),
                text::trim_of(lines[i].text@),
            )
        }),
{
    let ys = ruled_grid::boundaries(hs, group.hs);
    let xs = ruled_grid::boundaries(vs, group.vs);
    lemma_ascends(hs, group.hs);
    lemma_ascends(vs, group.vs);
    lemma_filled(ys, xs, lines, i, r, c);
    let at = ruled_grid::places(ys, xs, lines);
    let full = ruled_grid::filled_grid(lines, at, ys.len() - 1, xs.len() - 1);
    let row_sizes = region_ruled::gaps(ys);
    let col_sizes = region_ruled::gaps(xs);
    lemma_picked(full, row_sizes, col_sizes, r, c, text::trim_of(lines[i].text@));
    let kept_rows = region_ruled::kept_bands(row_sizes, region_ruled::row_marks(full), 1, 2);
    let kept_cols = region_ruled::kept_bands(
        col_sizes,
        region_ruled::column_marks(full, kept_rows, (xs.len() - 1) as nat),
        3,
        10,
    );
    lemma_grid_of(region_ruled::picked(full, kept_rows, kept_cols));
}

} // verus!
