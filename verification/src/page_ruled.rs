//! Tables drawn with rules, found on a whole page, and their union with the
//! tables without rules.

use vstd::prelude::*;
use crate::grid;
use crate::grid::{GroupView, RuleGroup, Seg, SegView};
use crate::rows;
use crate::rows::{RunView, TableRun};
use crate::ruled_grid;
use crate::ruled_grid::GridCell;
use crate::sort;
use crate::types::{GraphicPrimitive, ProjectedLine};

verus! {

/// The table that a group of crossing rules draws around lines of text, if it
/// draws one: with two or more rows and columns, not around the whole page, and
/// with at most 30 percent of its cells empty.
pub open spec fn ruled_table(
    hs: Seq<SegView>,
    vs: Seq<SegView>,
    group: GroupView,
    lines: Seq<ProjectedLine>,
    page_width: int,
    page_height: int,
) -> Option<RunView> {
    let ys = ruled_grid::boundaries(hs, group.hs);
    let xs = ruled_grid::boundaries(vs, group.vs);
    let at = ruled_grid::places(ys, xs, lines);
    let n_rows = ys.len() - 1;
    let n_cols = xs.len() - 1;
    let cells = ruled_grid::filled_grid(lines, at, n_rows, n_cols);
    let first = ruled_grid::first_placed(at, lines.len() as int);
    let last = ruled_grid::last_placed(at, lines.len() as int);
    if n_rows < 2 || n_cols < 2 || ruled_grid::fills_page(ys, xs, page_width, page_height) {
        None
    } else if first is None || 10 * ruled_grid::empty_upto(cells, n_rows) > 3 * (n_rows * n_cols) {
        None
    } else {
        Some(
            RunView {
                start: first->0,
                end: last->0 + 1,
                block: ruled_grid::grid_table(cells),
            },
        )
    }
}

/// The tables that the first `n` groups draw.
pub open spec fn ruled_upto(
    hs: Seq<SegView>,
    vs: Seq<SegView>,
    groups: Seq<GroupView>,
    lines: Seq<ProjectedLine>,
    page_width: int,
    page_height: int,
    n: int,
) -> Seq<RunView>
    decreases n,
{
    if n <= 0 {
        seq![]
    } else {
        let out = ruled_upto(hs, vs, groups, lines, page_width, page_height, n - 1);
        match ruled_table(hs, vs, groups[n - 1], lines, page_width, page_height) {
            Some(run) => out.push(run),
            None => out,
        }
    }
}

/// The tables drawn with rules, in the order in which they begin.
pub open spec fn ruled_tables(
    lines: Seq<ProjectedLine>,
    graphics: Seq<GraphicPrimitive>,
    page_width: int,
    page_height: int,
) -> Seq<RunView> {
    let hs = grid::clustered(grid::horizontal_upto(graphics, graphics.len() as int));
    let vs = grid::clustered(grid::vertical_upto(graphics, graphics.len() as int));
    let groups = grid::components(hs, vs);
    rows::in_order(
        ruled_upto(hs, vs, groups, lines, page_width, page_height, groups.len() as int),
    )
}

/// The table that a group of crossing rules draws around lines of text, if it
/// draws one.
pub fn build_ruled_table(
    hs: &Vec<Seg>,
    vs: &Vec<Seg>,
    group: &RuleGroup,
    lines: &Vec<ProjectedLine>,
    page_width: i32,
    page_height: i32,
) -> (r: Option<TableRun>)
    requires
        grid::segs_in_reach(grid::seg_views(hs@)),
        grid::segs_in_reach(grid::seg_views(vs@)),
        grid::group_valid(group@, hs@.len() as int, vs@.len() as int),
    ensures
        match r {
            Some(run) => ruled_table(
                grid::seg_views(hs@),
                grid::seg_views(vs@),
                group@,
                lines@,
                page_width as int,
                page_height as int,
            ) == Some(run@) && rows::run_fits(run@, lines@.len() as int),
            None => ruled_table(
                grid::seg_views(hs@),
                grid::seg_views(vs@),
                group@,
                lines@,
                page_width as int,
                page_height as int,
            ) is None,
        },
{
    proof {
        assert forall|i: int| 0 <= i < group.hs@.len() implies #[trigger] group.hs@[i]
            < hs@.len() by {
            assert(group@.hs[i] == group.hs@[i]);
        }
        assert forall|i: int| 0 <= i < group.vs@.len() implies #[trigger] group.vs@[i]
            < vs@.len() by {
            assert(group@.vs[i] == group.vs@[i]);
        }
    }
    let ys: Vec<i64> = ruled_grid::boundaries_of(hs, &group.hs);
    let xs: Vec<i64> = ruled_grid::boundaries_of(vs, &group.vs);
    proof {
        assert(sort::ints(ys@).len() == ys@.len());
        assert(sort::ints(xs@).len() == xs@.len());
    }
    if ys.len() < 3 || xs.len() < 3 {
        return None;
    }
    let n_rows: usize = ys.len() - 1;
    let n_cols: usize = xs.len() - 1;
    if ruled_grid::grid_fills_page(&ys, &xs, page_width, page_height) {
        return None;
    }
    let at: Vec<Option<(usize, usize)>> = ruled_grid::place_lines(&ys, &xs, lines);
    match ruled_grid::placed_range(&at) {
        None => None,
        Some(range) => {
            let cells: Vec<Vec<GridCell>> = ruled_grid::fill_grid(lines, &at, n_rows, n_cols);
            let empty: u128 = ruled_grid::count_empty(&cells, n_cols);
            let sparse: bool = ruled_grid::emptier_than(empty, 3, 10, n_rows, n_cols);
            proof {
                assert(sparse == (10 * empty > 3 * (n_rows * n_cols)));
            }
            if sparse {
                return None;
            }
            Some(
                TableRun {
                    start: range.0,
                    end: range.1,
                    block: ruled_grid::table_from_grid(&cells),
                },
            )
        },
    }
}

/// All tables drawn with rules, in the order in which they begin.
pub fn detect_ruled_tables(
    lines: &Vec<ProjectedLine>,
    graphics: &Vec<GraphicPrimitive>,
    page_width: i32,
    page_height: i32,
) -> (r: Vec<TableRun>)
    requires
        grid::rules_fit(graphics@),
    ensures
        rows::run_views(r@) == ruled_tables(
            lines@,
            graphics@,
            page_width as int,
            page_height as int,
        ),
        rows::runs_fit(rows::run_views(r@), lines@.len() as int),
{
    let segs = grid::extract_h_v_segments(graphics);
    let hs: Vec<Seg> = grid::cluster_segments(&segs.0);
    let vs: Vec<Seg> = grid::cluster_segments(&segs.1);
    let ghost hv = grid::seg_views(hs@);
    let ghost vv = grid::seg_views(vs@);
    let groups: Vec<RuleGroup> = grid::find_grid_components(&hs, &vs);
    let ghost gv = grid::group_views(groups@);
    let mut out: Vec<TableRun> = Vec::new();
    let mut i: usize = 0;
    proof {
        assert(rows::run_views(out@) =~= seq![]);
    }
    while i < groups.len()
        invariant
            i <= groups@.len(),
            hv == grid::seg_views(hs@),
            vv == grid::seg_views(vs@),
            gv == grid::group_views(groups@),
            gv == grid::components(hv, vv),
            grid::segs_in_reach(hv),
            grid::segs_in_reach(vv),
            forall|k: int|
                0 <= k < groups@.len() ==> grid::group_valid(
                    (#[trigger] groups@[k])@,
                    hs@.len() as int,
                    vs@.len() as int,
                ),
            rows::run_views(out@) == ruled_upto(
                hv,
                vv,
                gv,
                lines@,
                page_width as int,
                page_height as int,
                i as int,
            ),
            rows::runs_fit(rows::run_views(out@), lines@.len() as int),
        decreases groups.len() - i,
    {
        proof {
            assert(gv[i as int] == groups@[i as int]@);
            grid::lemma_component_sizes(hv, vv, i as int);
        }
        match build_ruled_table(&hs, &vs, &groups[i], lines, page_width, page_height) {
            Some(run) => {
                proof {
                    assert(rows::run_views(out@.push(run)) =~= rows::run_views(out@).push(run@));
                }
                out.push(run);
            },
            None => {},
        }
        i = i + 1;
    }
    rows::sort_runs(&out)
}

/// The tables drawn with rules and the tables without, in the order in which
/// they begin. A table without rules that shares a line with one drawn with
/// rules is left out.
pub open spec fn merged_runs(ruled: Seq<RunView>, borderless: Seq<RunView>) -> Seq<RunView> {
    rows::in_order(rows::with_disjoint(ruled, borderless, borderless.len() as int))
}

/// Merge the tables drawn with rules and those without.
pub fn merge_table_runs(ruled: Vec<TableRun>, borderless: &Vec<TableRun>) -> (r: Vec<TableRun>)
    ensures
        rows::run_views(r@) == merged_runs(
            rows::run_views(ruled@),
            rows::run_views(borderless@),
        ),
        forall|n: int|
            rows::runs_fit(rows::run_views(ruled@), n) && rows::runs_fit(
                rows::run_views(borderless@),
                n,
            ) ==> #[trigger] rows::runs_fit(rows::run_views(r@), n),
{
    rows::add_disjoint(ruled, borderless)
}

/// Every table drawn with rules is among the merged tables, and the merged tables follow
/// each other without sharing a line, if those with rules share none.
pub proof fn law_merged_tables_follow(
    ruled: Seq<RunView>,
    borderless: Seq<RunView>,
    n: int,
)
    requires
        rows::runs_fit(ruled, n),
        rows::runs_fit(borderless, n),
        rows::are_apart(ruled),
    ensures
        rows::runs_in_sequence(merged_runs(ruled, borderless)),
        forall|i: int|
            0 <= i < ruled.len() ==> merged_runs(ruled, borderless).contains(#[trigger] ruled[i]),
{
    let all = rows::with_disjoint(ruled, borderless, borderless.len() as int);
    rows::law_disjoint_runs(ruled, borderless, borderless.len() as int);
    rows::lemma_disjoint_runs_fit(ruled, borderless, borderless.len() as int, n);
    rows::law_ordered_runs(all, n);
    assert forall|i: int| 0 <= i < ruled.len() implies merged_runs(ruled, borderless).contains(
        #[trigger] ruled[i],
    ) by {
        assert(all[i] == ruled[i]);
        assert(all.contains(ruled[i]));
    }
}

} // verus!
