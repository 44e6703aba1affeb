//! Grids drawn with rules: horizontal and vertical rules, the groups of rules
//! that cross each other, and the cells between them.

use vstd::prelude::*;
use vstd::string::*;
use crate::cells;
use crate::sort;
use crate::types;
use crate::types::GraphicPrimitive;
use crate::union_find;

verus! {

/// How much a rule may lean and still count as horizontal or vertical.
pub const AXIS_TOLERANCE: i64 = 1_000;

/// Rules this close to each other are one rule.
pub const GRID_CLUSTER: i64 = 2_000;

/// How far two rules may miss each other and still cross.
pub const CROSS_TOLERANCE: i64 = 3_000;

/// A rule: where it lies across its direction, and from where to where it
/// reaches along it.
#[derive(Clone, Copy, Debug, PartialEq, Eq, Structural)]
pub struct Seg {
    pub pos: i64,
    pub lo: i64,
    pub hi: i64,
}

/// The contents of a `Seg`.
#[verifier::ext_equal]
pub struct SegView {
    pub pos: int,
    pub lo: int,
    pub hi: int,
}

impl View for Seg {
    type V = SegView;

    open spec fn view(&self) -> SegView {
        SegView { pos: self.pos as int, lo: self.lo as int, hi: self.hi as int }
    }
}

/// The contents of every rule of `v`.
pub open spec fn seg_views(v: Seq<Seg>) -> Seq<SegView> {
    Seq::new(v.len(), |i: int| v[i]@)
}

/// Whether the rule lies in reach.
pub open spec fn seg_in_reach(s: SegView) -> bool {
    cells::in_reach(s.pos) && cells::in_reach(s.lo) && cells::in_reach(s.hi)
}

/// Whether all rules lie in reach.
pub open spec fn segs_in_reach(v: Seq<SegView>) -> bool {
    forall|i: int| 0 <= i < v.len() ==> seg_in_reach(#[trigger] v[i])
}

// ---------------------------------------------------------------------------
// Rules of a page
// ---------------------------------------------------------------------------

/// The horizontal rules of one graphic: a level stroke, or the top and bottom
/// edges of a stroked box.
pub open spec fn horizontal_of(g: GraphicPrimitive) -> Seq<SegView> {
    match g {
        GraphicPrimitive::Stroke { x1, y1, x2, y2, .. } => if types::dist(y1 as int, y2 as int)
            <= AXIS_TOLERANCE && types::dist(x1 as int, x2 as int) > types::PT {
            seq![
                SegView {
                    pos: types::midpoint(y1 as int, y2 as int),
                    lo: types::min_of(x1 as int, x2 as int),
                    hi: types::max_of(x1 as int, x2 as int),
                },
            ]
        } else {
            seq![]
        },
        GraphicPrimitive::Rect { bbox, stroke, .. } => if stroke is Some && bbox.width
            > types::PT {
            seq![
                SegView { pos: bbox.y as int, lo: bbox.x as int, hi: bbox.right_edge() },
                SegView { pos: bbox.bottom_edge(), lo: bbox.x as int, hi: bbox.right_edge() },
            ]
        } else {
            seq![]
        },
    }
}

/// The vertical rules of one graphic: an upright stroke, or the left and right
/// edges of a stroked box.
pub open spec fn vertical_of(g: GraphicPrimitive) -> Seq<SegView> {
    match g {
        GraphicPrimitive::Stroke { x1, y1, x2, y2, .. } => if !(types::dist(y1 as int, y2 as int)
            <= AXIS_TOLERANCE && types::dist(x1 as int, x2 as int) > types::PT) && types::dist(
            x1 as int,
            x2 as int,
        ) <= AXIS_TOLERANCE && types::dist(y1 as int, y2 as int) > types::PT {
            seq![
                SegView {
                    pos: types::midpoint(x1 as int, x2 as int),
                    lo: types::min_of(y1 as int, y2 as int),
                    hi: types::max_of(y1 as int, y2 as int),
                },
            ]
        } else {
            seq![]
        },
        GraphicPrimitive::Rect { bbox, stroke, .. } => if stroke is Some && bbox.height
            > types::PT {
            seq![
                SegView { pos: bbox.x as int, lo: bbox.y as int, hi: bbox.bottom_edge() },
                SegView { pos: bbox.right_edge(), lo: bbox.y as int, hi: bbox.bottom_edge() },
            ]
        } else {
            seq![]
        },
    }
}

/// The horizontal rules of the first `n` graphics.
pub open spec fn horizontal_upto(graphics: Seq<GraphicPrimitive>, n: int) -> Seq<SegView>
    decreases n,
{
    if n <= 0 {
        seq![]
    } else {
        horizontal_upto(graphics, n - 1) + horizontal_of(graphics[n - 1])
    }
}

/// The vertical rules of the first `n` graphics.
pub open spec fn vertical_upto(graphics: Seq<GraphicPrimitive>, n: int) -> Seq<SegView>
    decreases n,
{
    if n <= 0 {
        seq![]
    } else {
        vertical_upto(graphics, n - 1) + vertical_of(graphics[n - 1])
    }
}

/// Appends a rule.
fn push_seg(out: &mut Vec<Seg>, pos: i64, lo: i64, hi: i64)
    requires
        cells::in_reach(pos as int),
        cells::in_reach(lo as int),
        cells::in_reach(hi as int),
        segs_in_reach(seg_views(old(out)@)),
    ensures
        seg_views(final(out)@) == seg_views(old(out)@).push(
            SegView { pos: pos as int, lo: lo as int, hi: hi as int },
        ),
        segs_in_reach(seg_views(final(out)@)),
        final(out)@.len() == old(out)@.len() + 1,
{
    let s = Seg { pos, lo, hi };
    proof {
        assert(seg_views(out@.push(s)) =~= seg_views(out@).push(s@));
    }
    out.push(s);
}

/// Whether the rules of a page can be counted: a graphic has four of them at most.
pub open spec fn rules_fit(graphics: Seq<GraphicPrimitive>) -> bool {
    4 * graphics.len() <= usize::MAX
}

/// The horizontal and the vertical rules of a page.
pub fn extract_h_v_segments(graphics: &Vec<GraphicPrimitive>) -> (r: (Vec<Seg>, Vec<Seg>))
    ensures
        r.0@.len() <= 2 * graphics@.len(),
        r.1@.len() <= 2 * graphics@.len(),
        seg_views(r.0@) == horizontal_upto(graphics@, graphics@.len() as int),
        seg_views(r.1@) == vertical_upto(graphics@, graphics@.len() as int),
        segs_in_reach(seg_views(r.0@)),
        segs_in_reach(seg_views(r.1@)),
{
    let mut hs: Vec<Seg> = Vec::new();
    let mut vs: Vec<Seg> = Vec::new();
    let mut i: usize = 0;
    proof {
        assert(seg_views(hs@) =~= seq![]);
        assert(seg_views(vs@) =~= seq![]);
    }
    while i < graphics.len()
        invariant
            i <= graphics@.len(),
            seg_views(hs@) == horizontal_upto(graphics@, i as int),
            seg_views(vs@) == vertical_upto(graphics@, i as int),
            segs_in_reach(seg_views(hs@)),
            segs_in_reach(seg_views(vs@)),
            hs@.len() <= 2 * i,
            vs@.len() <= 2 * i,
        decreases graphics.len() - i,
    {
        let ghost h0 = seg_views(hs@);
        let ghost v0 = seg_views(vs@);
        let ghost g0 = graphics@[i as int];
        match &graphics[i] {
            GraphicPrimitive::Stroke { x1, y1, x2, y2, color: _, width: _ } => {
                let ax: i64 = *x1 as i64;
                let ay: i64 = *y1 as i64;
                let bx: i64 = *x2 as i64;
                let by: i64 = *y2 as i64;
                let dy: i64 = types::dist64(ay, by);
                let dx: i64 = types::dist64(ax, bx);
                if dy <= AXIS_TOLERANCE && dx > types::PT {
                    push_seg(
                        &mut hs,
                        types::mid64(ay, by),
                        types::min64(ax, bx),
                        types::max64(ax, bx),
                    );
                } else if dx <= AXIS_TOLERANCE && dy > types::PT {
                    push_seg(
                        &mut vs,
                        types::mid64(ax, bx),
                        types::min64(ay, by),
                        types::max64(ay, by),
                    );
                }
            },
            GraphicPrimitive::Rect { bbox, fill: _, stroke } => {
                if stroke.is_some() {
                    let top: i64 = bbox.y as i64;
                    let bottom: i64 = bbox.bottom();
                    let left: i64 = bbox.x as i64;
                    let right: i64 = bbox.right();
                    if bbox.width as i64 > types::PT {
                        push_seg(&mut hs, top, left, right);
                        push_seg(&mut hs, bottom, left, right);
                    }
                    if bbox.height as i64 > types::PT {
                        push_seg(&mut vs, left, top, bottom);
                        push_seg(&mut vs, right, top, bottom);
                    }
                }
            },
        }
        proof {
            assert(seg_views(hs@) =~= h0 + horizontal_of(g0));
            assert(seg_views(vs@) =~= v0 + vertical_of(g0));
        }
        i = i + 1;
    }
    (hs, vs)
}

/// The positions of the rules.
pub open spec fn positions(v: Seq<SegView>) -> Seq<int> {
    Seq::new(v.len(), |i: int| v[i].pos)
}

/// The first `n` rules, for rules in the order of their positions, with rules
/// that lie close to the one before them merged into it.
pub open spec fn cluster_upto(v: Seq<SegView>, n: int) -> Seq<SegView>
    decreases n,
{
    if n <= 0 {
        seq![]
    } else {
        let out = cluster_upto(v, n - 1);
        let s = v[n - 1];
        if out.len() > 0 && types::dist(out.last().pos, s.pos) <= GRID_CLUSTER {
            out.drop_last().push(
                SegView {
                    pos: out.last().pos,
                    lo: types::min_of(out.last().lo, s.lo),
                    hi: types::max_of(out.last().hi, s.hi),
                },
            )
        } else {
            out.push(s)
        }
    }
}

/// The rules in the order of their positions, close ones merged into one.
pub open spec fn clustered(v: Seq<SegView>) -> Seq<SegView> {
    let s = sort::pick(v, sort::stable_order(positions(v)));
    cluster_upto(s, s.len() as int)
}

/// Merge the rules that lie close to each other.
pub fn cluster_segments(segs: &Vec<Seg>) -> (r: Vec<Seg>)
    requires
        segs_in_reach(seg_views(segs@)),
    ensures
        seg_views(r@) == clustered(seg_views(segs@)),
        segs_in_reach(seg_views(r@)),
        r@.len() <= segs@.len(),
{
    let ghost sv = seg_views(segs@);
    let mut keys: Vec<i128> = Vec::new();
    let mut k: usize = 0;
    while k < segs.len()
        invariant
            k <= segs@.len(),
            keys@.len() == k,
            forall|i: int| 0 <= i < k ==> #[trigger] keys@[i] == segs@[i].pos,
        decreases segs.len() - k,
    {
        keys.push(segs[k].pos as i128);
        k = k + 1;
    }
    proof {
        assert(sort::wide(keys@) =~= positions(sv));
    }
    let order: Vec<usize> = sort::order_by(&keys);
    let ghost s = sort::pick(sv, sort::stable_order(positions(sv)));
    let mut out: Vec<Seg> = Vec::new();
    let mut i: usize = 0;
    proof {
        assert(seg_views(out@) =~= seq![]);
    }
    while i < order.len()
        invariant
            i <= order@.len() == segs@.len(),
            sv == seg_views(segs@),
            segs_in_reach(sv),
            forall|j: int| 0 <= j < order@.len() ==> #[trigger] order@[j] < segs@.len(),
            s == sort::pick(sv, sort::indices(order@)),
            seg_views(out@) == cluster_upto(s, i as int),
            segs_in_reach(seg_views(out@)),
            out@.len() <= i,
        decreases order.len() - i,
    {
        let seg: Seg = segs[order[i]];
        proof {
            assert(s[i as int] == sv[sort::indices(order@)[i as int]]);
            assert(sv[order@[i as int] as int] == seg@);
            assert(seg_in_reach(sv[order@[i as int] as int]));
        }
        let n: usize = out.len();
        if n > 0 {
            let last: Seg = out[n - 1];
            proof {
                assert(seg_views(out@).last() == last@);
                assert(seg_in_reach(seg_views(out@)[n - 1]));
            }
            if types::dist64(last.pos, seg.pos) <= GRID_CLUSTER {
                let merged = Seg {
                    pos: last.pos,
                    lo: types::min64(last.lo, seg.lo),
                    hi: types::max64(last.hi, seg.hi),
                };
                let ghost ov = seg_views(out@);
                out.set(n - 1, merged);
                proof {
                    assert(seg_views(out@) =~= ov.drop_last().push(merged@));
                }
            } else {
                push_seg(&mut out, seg.pos, seg.lo, seg.hi);
            }
        } else {
            push_seg(&mut out, seg.pos, seg.lo, seg.hi);
        }
        i = i + 1;
    }
    out
}

// ---------------------------------------------------------------------------
// Groups of rules that cross
// ---------------------------------------------------------------------------

/// Whether a horizontal and a vertical rule cross, or nearly so.
pub open spec fn crosses(h: SegView, v: SegView) -> bool {
    h.lo - CROSS_TOLERANCE <= v.pos <= h.hi + CROSS_TOLERANCE && v.lo - CROSS_TOLERANCE <= h.pos
        <= v.hi + CROSS_TOLERANCE
}

/// The group of every rule, horizontal rules before vertical ones, after the
/// crossings of the first `i` horizontal rules and of the next one with the
/// first `j` vertical rules are taken into account.
pub open spec fn groups_at(hs: Seq<SegView>, vs: Seq<SegView>, i: int, j: int) -> Seq<int>
    decreases i, j,
{
    if j > 0 {
        let before = groups_at(hs, vs, i, j - 1);
        if crosses(hs[i], vs[j - 1]) {
            union_find::joined(before, i, hs.len() + j - 1)
        } else {
            before
        }
    } else if i > 0 {
        groups_at(hs, vs, i - 1, vs.len() as int)
    } else {
        Seq::new(hs.len() + vs.len(), |k: int| k)
    }
}

/// The group of every rule.
pub open spec fn groups(hs: Seq<SegView>, vs: Seq<SegView>) -> Seq<int> {
    groups_at(hs, vs, hs.len() as int, 0)
}

/// Whether a horizontal rule crosses any vertical one.
pub open spec fn h_crossed(hs: Seq<SegView>, vs: Seq<SegView>, i: int) -> bool {
    exists|j: int| 0 <= j < vs.len() && crosses(hs[i], #[trigger] vs[j])
}

/// Whether a vertical rule crosses any horizontal one.
pub open spec fn v_crossed(hs: Seq<SegView>, vs: Seq<SegView>, j: int) -> bool {
    exists|i: int| 0 <= i < hs.len() && crosses(#[trigger] hs[i], vs[j])
}

/// Among the first `n` horizontal rules, those that cross and are in group `g`.
pub open spec fn h_members(hs: Seq<SegView>, vs: Seq<SegView>, g: int, n: int) -> Seq<int>
    decreases n,
{
    if n <= 0 {
        seq![]
    } else if h_crossed(hs, vs, n - 1) && groups(hs, vs)[n - 1] == g {
        h_members(hs, vs, g, n - 1).push(n - 1)
    } else {
        h_members(hs, vs, g, n - 1)
    }
}

/// Among the first `n` vertical rules, those that cross and are in group `g`.
pub open spec fn v_members(hs: Seq<SegView>, vs: Seq<SegView>, g: int, n: int) -> Seq<int>
    decreases n,
{
    if n <= 0 {
        seq![]
    } else if v_crossed(hs, vs, n - 1) && groups(hs, vs)[hs.len() + n - 1] == g {
        v_members(hs, vs, g, n - 1).push(n - 1)
    } else {
        v_members(hs, vs, g, n - 1)
    }
}

/// A group of crossing rules: its horizontal and its vertical members.
#[verifier::ext_equal]
pub struct GroupView {
    pub hs: Seq<int>,
    pub vs: Seq<int>,
}

/// Whether horizontal rule `i` crosses and is the first of its group to do so.
pub open spec fn leads_group(hs: Seq<SegView>, vs: Seq<SegView>, i: int) -> bool {
    h_crossed(hs, vs, i) && forall|k: int|
        0 <= k < i ==> !(#[trigger] h_crossed(hs, vs, k) && groups(hs, vs)[k] == groups(hs, vs)[i])
}

/// The groups with two or more rules in both directions whose first horizontal
/// rule is among the first `n`, in the order of those rules.
pub open spec fn components_upto(hs: Seq<SegView>, vs: Seq<SegView>, n: int) -> Seq<GroupView>
    decreases n,
{
    if n <= 0 {
        seq![]
    } else {
        let out = components_upto(hs, vs, n - 1);
        let g = groups(hs, vs)[n - 1];
        let group = GroupView {
            hs: h_members(hs, vs, g, hs.len() as int),
            vs: v_members(hs, vs, g, vs.len() as int),
        };
        if leads_group(hs, vs, n - 1) && group.hs.len() >= 2 && group.vs.len() >= 2 {
            out.push(group)
        } else {
            out
        }
    }
}

/// The groups of crossing rules with two or more rules in both directions.
pub open spec fn components(hs: Seq<SegView>, vs: Seq<SegView>) -> Seq<GroupView> {
    if hs.len() < 2 || vs.len() < 2 {
        seq![]
    } else {
        components_upto(hs, vs, hs.len() as int)
    }
}

/// A group of crossing rules: its horizontal and its vertical members.
pub struct RuleGroup {
    pub hs: Vec<usize>,
    pub vs: Vec<usize>,
}

impl View for RuleGroup {
    type V = GroupView;

    open spec fn view(&self) -> GroupView {
        GroupView { hs: sort::indices(self.hs@), vs: sort::indices(self.vs@) }
    }
}

/// The contents of every group of `v`.
pub open spec fn group_views(v: Seq<RuleGroup>) -> Seq<GroupView> {
    Seq::new(v.len(), |i: int| v[i]@)
}

/// Whether the members of a group are rules of the page, two or more in both
/// directions.
pub open spec fn group_valid(g: GroupView, n_h: int, n_v: int) -> bool {
    &&& g.hs.len() >= 2
    &&& g.vs.len() >= 2
    &&& forall|i: int| 0 <= i < g.hs.len() ==> 0 <= #[trigger] g.hs[i] < n_h
    &&& forall|i: int| 0 <= i < g.vs.len() ==> 0 <= #[trigger] g.vs[i] < n_v
}

fn rules_cross(h: &Seg, v: &Seg) -> (r: bool)
    requires
        seg_in_reach(h@),
        seg_in_reach(v@),
    ensures
        r == crosses(h@, v@),
{
    v.pos >= h.lo - CROSS_TOLERANCE && v.pos <= h.hi + CROSS_TOLERANCE && h.pos >= v.lo
        - CROSS_TOLERANCE && h.pos <= v.hi + CROSS_TOLERANCE
}

proof fn lemma_groups_len(hs: Seq<SegView>, vs: Seq<SegView>, i: int, j: int)
    ensures
        groups_at(hs, vs, i, j).len() == hs.len() + vs.len(),
    decreases i, j,
{
    if j > 0 {
        lemma_groups_len(hs, vs, i, j - 1);
    } else if i > 0 {
        lemma_groups_len(hs, vs, i - 1, vs.len() as int);
    }
}

/// Joins the rules that cross; returns the forest of their groups.
fn join_crossings(hs: &Vec<Seg>, vs: &Vec<Seg>) -> (parent: Vec<usize>)
    requires
        hs@.len() + vs@.len() <= usize::MAX,
        segs_in_reach(seg_views(hs@)),
        segs_in_reach(seg_views(vs@)),
    ensures
        parent@.len() == hs@.len() + vs@.len(),
        union_find::is_forest(parent@),
        union_find::roots_of(parent@) == groups(seg_views(hs@), seg_views(vs@)),
{
    let ghost hv = seg_views(hs@);
    let ghost vv = seg_views(vs@);
    let n_h: usize = hs.len();
    let n_v: usize = vs.len();
    let mut parent: Vec<usize> = union_find::singletons(n_h + n_v);
    let mut i: usize = 0;
    proof {
        assert(union_find::roots_of(parent@) =~= groups_at(hv, vv, 0, 0));
    }
    while i < n_h
        invariant
            i <= n_h == hs@.len(),
            n_v == vs@.len(),
            n_h + n_v <= usize::MAX,
            hv == seg_views(hs@),
            vv == seg_views(vs@),
            segs_in_reach(hv),
            segs_in_reach(vv),
            parent@.len() == n_h + n_v,
            union_find::is_forest(parent@),
            union_find::roots_of(parent@) == groups_at(hv, vv, i as int, 0),
        decreases n_h - i,
    {
        let mut j: usize = 0;
        while j < n_v
            invariant
                i < n_h == hs@.len(),
                j <= n_v == vs@.len(),
                n_h + n_v <= usize::MAX,
                hv == seg_views(hs@),
                vv == seg_views(vs@),
                segs_in_reach(hv),
                segs_in_reach(vv),
                parent@.len() == n_h + n_v,
                union_find::is_forest(parent@),
                union_find::roots_of(parent@) == groups_at(hv, vv, i as int, j as int),
            decreases n_v - j,
        {
            proof {
                assert(hv[i as int] == hs@[i as int]@);
                assert(vv[j as int] == vs@[j as int]@);
                assert(seg_in_reach(hv[i as int]) && seg_in_reach(vv[j as int]));
            }
            if rules_cross(&hs[i], &vs[j]) {
                union_find::uf_union(&mut parent, i, n_h + j);
            }
            j = j + 1;
        }
        i = i + 1;
    }
    parent
}

fn h_rule_crossed(hs: &Vec<Seg>, vs: &Vec<Seg>, i: usize) -> (r: bool)
    requires
        i < hs@.len(),
        segs_in_reach(seg_views(hs@)),
        segs_in_reach(seg_views(vs@)),
    ensures
        r == h_crossed(seg_views(hs@), seg_views(vs@), i as int),
{
    let ghost hv = seg_views(hs@);
    let ghost vv = seg_views(vs@);
    let mut j: usize = 0;
    while j < vs.len()
        invariant
            i < hs@.len(),
            j <= vs@.len(),
            hv == seg_views(hs@),
            vv == seg_views(vs@),
            segs_in_reach(hv),
            segs_in_reach(vv),
            forall|k: int| 0 <= k < j ==> !crosses(hv[i as int], #[trigger] vv[k]),
        decreases vs.len() - j,
    {
        proof {
            assert(hv[i as int] == hs@[i as int]@);
            assert(vv[j as int] == vs@[j as int]@);
            assert(seg_in_reach(hv[i as int]) && seg_in_reach(vv[j as int]));
        }
        if rules_cross(&hs[i], &vs[j]) {
            return true;
        }
        j = j + 1;
    }
    false
}

fn v_rule_crossed(hs: &Vec<Seg>, vs: &Vec<Seg>, j: usize) -> (r: bool)
    requires
        j < vs@.len(),
        segs_in_reach(seg_views(hs@)),
        segs_in_reach(seg_views(vs@)),
    ensures
        r == v_crossed(seg_views(hs@), seg_views(vs@), j as int),
{
    let ghost hv = seg_views(hs@);
    let ghost vv = seg_views(vs@);
    let mut i: usize = 0;
    while i < hs.len()
        invariant
            j < vs@.len(),
            i <= hs@.len(),
            hv == seg_views(hs@),
            vv == seg_views(vs@),
            segs_in_reach(hv),
            segs_in_reach(vv),
            forall|k: int| 0 <= k < i ==> !crosses(#[trigger] hv[k], vv[j as int]),
        decreases hs.len() - i,
    {
        proof {
            assert(hv[i as int] == hs@[i as int]@);
            assert(vv[j as int] == vs@[j as int]@);
            assert(seg_in_reach(hv[i as int]) && seg_in_reach(vv[j as int]));
        }
        if rules_cross(&hs[i], &vs[j]) {
            return true;
        }
        i = i + 1;
    }
    false
}

/// Group the rules that cross each other. Groups come in the order of their
/// first horizontal rule.
pub fn find_grid_components(hs: &Vec<Seg>, vs: &Vec<Seg>) -> (r: Vec<RuleGroup>)
    requires
        hs@.len() + vs@.len() <= usize::MAX,
        segs_in_reach(seg_views(hs@)),
        segs_in_reach(seg_views(vs@)),
    ensures
        group_views(r@) == components(seg_views(hs@), seg_views(vs@)),
        forall|i: int|
            0 <= i < r@.len() ==> group_valid(
                (#[trigger] r@[i])@,
                hs@.len() as int,
                vs@.len() as int,
            ),
{
    let ghost hv = seg_views(hs@);
    let ghost vv = seg_views(vs@);
    let n_h: usize = hs.len();
    let n_v: usize = vs.len();
    let mut out: Vec<RuleGroup> = Vec::new();
    proof {
        assert(group_views(out@) =~= seq![]);
    }
    if n_h < 2 || n_v < 2 {
        return out;
    }
    let mut parent: Vec<usize> = join_crossings(hs, vs);
    let ghost gs = groups(hv, vv);
    // The group of every rule, and whether the rule crosses any other.
    let mut label: Vec<usize> = Vec::new();
    let mut crossed: Vec<bool> = Vec::new();
    let mut k: usize = 0;
    while k < n_h + n_v
        invariant
            k <= n_h + n_v <= usize::MAX,
            n_h == hs@.len(),
            n_v == vs@.len(),
            hv == seg_views(hs@),
            vv == seg_views(vs@),
            segs_in_reach(hv),
            segs_in_reach(vv),
            gs == groups(hv, vv),
            parent@.len() == n_h + n_v,
            union_find::is_forest(parent@),
            union_find::roots_of(parent@) == gs,
            label@.len() == k,
            crossed@.len() == k,
            forall|i: int| 0 <= i < k ==> #[trigger] label@[i] == gs[i],
            forall|i: int|
                0 <= i < k ==> #[trigger] crossed@[i] == (if i < n_h {
                    h_crossed(hv, vv, i)
                } else {
                    v_crossed(hv, vv, i - n_h)
                }),
        decreases n_h + n_v - k,
    {
        let root: usize = union_find::uf_find(&mut parent, k);
        label.push(root);
        if k < n_h {
            crossed.push(h_rule_crossed(hs, vs, k));
        } else {
            crossed.push(v_rule_crossed(hs, vs, k - n_h));
        }
        k = k + 1;
    }
    let mut i: usize = 0;
    while i < n_h
        invariant
            i <= n_h,
            n_h + n_v <= usize::MAX,
            n_h == hs@.len() == hv.len(),
            n_v == vs@.len() == vv.len(),
            gs == groups(hv, vv),
            label@.len() == n_h + n_v,
            crossed@.len() == n_h + n_v,
            forall|x: int| 0 <= x < n_h + n_v ==> #[trigger] label@[x] == gs[x],
            forall|x: int| 0 <= x < n_h ==> #[trigger] crossed@[x] == h_crossed(hv, vv, x),
            forall|x: int| 0 <= x < n_v ==> crossed@[n_h + x] == #[trigger] v_crossed(hv, vv, x),
            group_views(out@) == components_upto(hv, vv, i as int),
            forall|x: int|
                0 <= x < out@.len() ==> group_valid((#[trigger] out@[x])@, n_h as int, n_v as int),
        decreases n_h - i,
    {
        if crossed[i] && is_first_of_group(&label, &crossed, i, Ghost(hv), Ghost(vv)) {
            let g: usize = label[i];
            let group: RuleGroup = members_of(&label, &crossed, n_h, g, Ghost(hv), Ghost(vv));
            if group.hs.len() >= 2 && group.vs.len() >= 2 {
                proof {
                    assert(group_views(out@.push(group)) =~= group_views(out@).push(group@));
                }
                out.push(group);
            }
        }
        i = i + 1;
    }
    out
}

proof fn lemma_members_len(hs: Seq<SegView>, vs: Seq<SegView>, g: int, n: int)
    requires
        0 <= n,
    ensures
        h_members(hs, vs, g, n).len() <= n,
        v_members(hs, vs, g, n).len() <= n,
    decreases n,
{
    if n > 0 {
        lemma_members_len(hs, vs, g, n - 1);
    }
}

proof fn lemma_components_upto(hs: Seq<SegView>, vs: Seq<SegView>, n: int, k: int)
    requires
        0 <= k < components_upto(hs, vs, n).len(),
    ensures
        components_upto(hs, vs, n)[k].hs.len() <= hs.len(),
        components_upto(hs, vs, n)[k].vs.len() <= vs.len(),
    decreases n,
{
    if n > 0 {
        let g = groups(hs, vs)[n - 1];
        lemma_members_len(hs, vs, g, hs.len() as int);
        lemma_members_len(hs, vs, g, vs.len() as int);
        if k < components_upto(hs, vs, n - 1).len() {
            lemma_components_upto(hs, vs, n - 1, k);
        }
    }
}

/// A group has no more members than there are rules.
pub proof fn lemma_component_sizes(hs: Seq<SegView>, vs: Seq<SegView>, k: int)
    requires
        0 <= k < components(hs, vs).len(),
    ensures
        components(hs, vs)[k].hs.len() <= hs.len(),
        components(hs, vs)[k].vs.len() <= vs.len(),
{
    lemma_components_upto(hs, vs, hs.len() as int, k);
}

fn is_first_of_group(
    label: &Vec<usize>,
    crossed: &Vec<bool>,
    i: usize,
    Ghost(hv): Ghost<Seq<SegView>>,
    Ghost(vv): Ghost<Seq<SegView>>,
) -> (r: bool)
    requires
        i < hv.len() <= label@.len() == crossed@.len(),
        crossed@[i as int],
        forall|x: int| 0 <= x < hv.len() ==> #[trigger] label@[x] == groups(hv, vv)[x],
        forall|x: int| 0 <= x < hv.len() ==> #[trigger] crossed@[x] == h_crossed(hv, vv, x),
    ensures
        r == leads_group(hv, vv, i as int),
{
    let mut k: usize = 0;
    while k < i
        invariant
            k <= i < hv.len() <= label@.len() == crossed@.len(),
            forall|x: int| 0 <= x < hv.len() ==> #[trigger] label@[x] == groups(hv, vv)[x],
            forall|x: int| 0 <= x < hv.len() ==> #[trigger] crossed@[x] == h_crossed(hv, vv, x),
            forall|x: int|
                0 <= x < k ==> !(#[trigger] h_crossed(hv, vv, x) && groups(hv, vv)[x] == groups(
                    hv,
                    vv,
                )[i as int]),
        decreases i - k,
    {
        proof {
            assert(label@[k as int] == groups(hv, vv)[k as int]);
            assert(label@[i as int] == groups(hv, vv)[i as int]);
            assert(crossed@[k as int] == h_crossed(hv, vv, k as int));
        }
        if crossed[k] && label[k] == label[i] {
            return false;
        }
        k = k + 1;
    }
    proof {
        assert(crossed@[i as int] == h_crossed(hv, vv, i as int));
    }
    true
}

fn members_of(
    label: &Vec<usize>,
    crossed: &Vec<bool>,
    n_h: usize,
    g: usize,
    Ghost(hv): Ghost<Seq<SegView>>,
    Ghost(vv): Ghost<Seq<SegView>>,
) -> (r: RuleGroup)
    requires
        n_h == hv.len(),
        hv.len() + vv.len() == label@.len() == crossed@.len(),
        forall|x: int| 0 <= x < label@.len() ==> #[trigger] label@[x] == groups(hv, vv)[x],
        forall|x: int| 0 <= x < n_h ==> #[trigger] crossed@[x] == h_crossed(hv, vv, x),
        forall|x: int|
            0 <= x < vv.len() ==> crossed@[n_h + x] == #[trigger] v_crossed(hv, vv, x),
    ensures
        r@.hs == h_members(hv, vv, g as int, hv.len() as int),
        r@.vs == v_members(hv, vv, g as int, vv.len() as int),
        forall|i: int| 0 <= i < r@.hs.len() ==> 0 <= #[trigger] r@.hs[i] < hv.len(),
        forall|i: int| 0 <= i < r@.vs.len() ==> 0 <= #[trigger] r@.vs[i] < vv.len(),
{
    let mut h_idx: Vec<usize> = Vec::new();
    let mut i: usize = 0;
    proof {
        assert(sort::indices(h_idx@) =~= seq![]);
    }
    while i < n_h
        invariant
            i <= n_h == hv.len() <= label@.len() == crossed@.len(),
            forall|x: int| 0 <= x < label@.len() ==> #[trigger] label@[x] == groups(hv, vv)[x],
            forall|x: int| 0 <= x < n_h ==> #[trigger] crossed@[x] == h_crossed(hv, vv, x),
            sort::indices(h_idx@) == h_members(hv, vv, g as int, i as int),
            forall|x: int| 0 <= x < h_idx@.len() ==> #[trigger] h_idx@[x] < i,
        decreases n_h - i,
    {
        if crossed[i] && label[i] == g {
            proof {
                assert(sort::indices(h_idx@.push(i)) =~= sort::indices(h_idx@).push(i as int));
            }
            h_idx.push(i);
        }
        i = i + 1;
    }
    let mut v_idx: Vec<usize> = Vec::new();
    let n_v: usize = label.len() - n_h;
    let mut j: usize = 0;
    proof {
        assert(sort::indices(v_idx@) =~= seq![]);
    }
    while j < n_v
        invariant
            n_h == hv.len(),
            j <= n_v == vv.len(),
            n_h + n_v == label@.len() == crossed@.len(),
            label@.len() <= usize::MAX,
            forall|x: int| 0 <= x < label@.len() ==> #[trigger] label@[x] == groups(hv, vv)[x],
            forall|x: int|
                0 <= x < vv.len() ==> crossed@[n_h + x] == #[trigger] v_crossed(hv, vv, x),
            sort::indices(v_idx@) == v_members(hv, vv, g as int, j as int),
            forall|x: int| 0 <= x < v_idx@.len() ==> #[trigger] v_idx@[x] < j,
        decreases n_v - j,
    {
        proof {
            assert(label@[n_h + j] == groups(hv, vv)[n_h + j]);
            assert(crossed@[n_h + j] == v_crossed(hv, vv, j as int));
        }
        if crossed[n_h + j] && label[n_h + j] == g {
            proof {
                assert(sort::indices(v_idx@.push(j)) =~= sort::indices(v_idx@).push(j as int));
            }
            v_idx.push(j);
        }
        j = j + 1;
    }
    RuleGroup { hs: h_idx, vs: v_idx }
}

// ---------------------------------------------------------------------------
// Boundaries
// ---------------------------------------------------------------------------

/// The first `n` values of an ascending sequence, without those that lie within
/// `tol` of the one kept before them.
pub open spec fn dedup_upto(v: Seq<int>, tol: int, n: int) -> Seq<int>
    decreases n,
{
    if n <= 0 {
        seq![]
    } else {
        let out = dedup_upto(v, tol, n - 1);
        if out.len() > 0 && types::dist(v[n - 1], out.last()) <= tol {
            out
        } else {
            out.push(v[n - 1])
        }
    }
}

/// Drop the values that lie within `tol` of the one kept before them.
pub fn dedup_close(v: &Vec<i64>, tol: i64) -> (r: Vec<i64>)
    requires
        forall|i: int| 0 <= i < v@.len() ==> cells::in_reach(#[trigger] v@[i] as int),
    ensures
        sort::ints(r@) == dedup_upto(sort::ints(v@), tol as int, v@.len() as int),
        r@.len() <= v@.len(),
        forall|i: int| 0 <= i < r@.len() ==> cells::in_reach(#[trigger] r@[i] as int),
        v@.len() > 0 ==> r@.len() > 0,
{
    let ghost vi = sort::ints(v@);
    let mut out: Vec<i64> = Vec::new();
    let mut i: usize = 0;
    proof {
        assert(sort::ints(out@) =~= seq![]);
    }
    while i < v.len()
        invariant
            i <= v@.len(),
            vi == sort::ints(v@),
            forall|k: int| 0 <= k < v@.len() ==> cells::in_reach(#[trigger] v@[k] as int),
            sort::ints(out@) == dedup_upto(vi, tol as int, i as int),
            out@.len() <= i,
            forall|k: int| 0 <= k < out@.len() ==> cells::in_reach(#[trigger] out@[k] as int),
            i > 0 ==> out@.len() > 0,
        decreases v.len() - i,
    {
        let x: i64 = v[i];
        let n: usize = out.len();
        let close: bool = if n > 0 {
            proof {
                assert(sort::ints(out@).last() == out@[n - 1]);
            }
            types::dist64(x, out[n - 1]) <= tol
        } else {
            false
        };
        if !close {
            proof {
                assert(sort::ints(out@.push(x)) =~= sort::ints(out@).push(x as int));
            }
            out.push(x);
        }
        i = i + 1;
    }
    out
}

/// The interval between neighbouring boundaries that holds half of `twice`; the
/// first one, where boundaries are out of order.
pub open spec fn bucket_of(bounds: Seq<int>, twice: int) -> Option<int> {
    if exists|i: int| is_bucket(bounds, twice, i) {
        Some(choose|i: int| is_bucket(bounds, twice, i) && forall|j: int|
            0 <= j < i ==> !is_bucket(bounds, twice, j))
    } else {
        None
    }
}

/// Whether half of `twice` lies between the boundaries `i` and `i + 1`, the second
/// of them excluded, and between the outermost boundaries.
pub open spec fn is_bucket(bounds: Seq<int>, twice: int, i: int) -> bool {
    &&& 0 <= i < bounds.len() - 1
    &&& 2 * bounds[0] <= twice <= 2 * bounds.last()
    &&& 2 * bounds[i] <= twice < 2 * bounds[i + 1]
}

/// The interval between neighbouring boundaries that holds half of `twice`, its lower
/// end included and its upper end excluded.
pub fn find_bucket(bounds: &Vec<i64>, twice: i64) -> (r: Option<usize>)
    requires
        forall|i: int| 0 <= i < bounds@.len() ==> cells::in_reach(#[trigger] bounds@[i] as int),
    ensures
        match r {
            Some(i) => bucket_of(sort::ints(bounds@), twice as int) == Some(i as int) && i + 1
                < bounds@.len(),
            None => bucket_of(sort::ints(bounds@), twice as int) is None,
        },
{
    let ghost b = sort::ints(bounds@);
    let n: usize = bounds.len();
    if n < 2 {
        return None;
    }
    if twice < 2 * bounds[0] || twice > 2 * bounds[n - 1] {
        return None;
    }
    let mut i: usize = 0;
    while i < n - 1
        invariant
            n == bounds@.len() >= 2,
            i <= n - 1,
            forall|k: int| 0 <= k < bounds@.len() ==> cells::in_reach(#[trigger] bounds@[k] as int),
            b == sort::ints(bounds@),
            2 * b[0] <= twice <= 2 * b.last(),
            forall|j: int| 0 <= j < i ==> !is_bucket(b, twice as int, j),
        decreases n - i,
    {
        if 2 * bounds[i] <= twice && twice < 2 * bounds[i + 1] {
            proof {
                assert(is_bucket(b, twice as int, i as int));
                let c = choose|k: int| is_bucket(b, twice as int, k) && forall|j: int|
                    0 <= j < k ==> !is_bucket(b, twice as int, j);
                assert(is_bucket(b, twice as int, c));
                assert(c == i);
            }
            return Some(i);
        }
        i = i + 1;
    }
    proof {
        assert forall|j: int| !is_bucket(b, twice as int, j) by {}
    }
    None
}

} // verus!
