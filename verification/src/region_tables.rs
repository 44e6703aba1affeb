//! All tables without rules within a region.

use vstd::prelude::*;
use crate::column_tables;
use crate::entries;
use crate::join_tables;
use crate::rows;
use crate::rows::{RunView, TableRun};
use crate::types::ProjectedLine;

verus! {

/// The table that begins with line `i`, if one does: with inferred columns, else
/// with the columns of the line, else with two columns of entries. A header may
/// reach up to line `floor`.
pub open spec fn found_at(lines: Seq<ProjectedLine>, i: int, floor: int) -> Option<RunView> {
    match column_tables::inferred_table_at(lines, i, floor) {
        Some(run) => Some(run),
        None => match column_tables::table_at(lines, i, floor) {
            Some(run) => Some(run),
            None => entries::entry_table_at(lines, i),
        },
    }
}

/// `out` followed by the tables that begin at line `i` or later, each as early
/// as possible.
pub open spec fn tables_from(
    lines: Seq<ProjectedLine>,
    i: int,
    floor: int,
    out: Seq<RunView>,
) -> Seq<RunView>
    decreases lines.len() - i,
{
    if i < 0 || i >= lines.len() {
        out
    } else {
        match found_at(lines, i, floor) {
            Some(run) => if i < run.end <= lines.len() {
                tables_from(lines, run.end, run.end, out.push(run))
            } else {
                out
            },
            None => tables_from(lines, i + 1, floor, out),
        }
    }
}

/// The tables without rules, from top to bottom, with those joined that belong
/// together.
pub open spec fn tables_in(lines: Seq<ProjectedLine>) -> Seq<RunView> {
    let found = tables_from(lines, 0, 0, seq![]);
    join_tables::joined_upto(lines, found, found.len() as int)
}

fn find_table(lines: &Vec<ProjectedLine>, i: usize, floor: usize) -> (r: Option<TableRun>)
    requires
        floor <= i < lines@.len(),
    ensures
        match r {
            Some(run) => found_at(lines@, i as int, floor as int) == Some(run@) && floor
                <= run.start <= i < run.end <= lines@.len(),
            None => found_at(lines@, i as int, floor as int) is None,
        },
{
    match column_tables::try_detect_table_inferred(lines, i, floor) {
        Some(run) => Some(run),
        None => match column_tables::try_detect_table(lines, i, floor) {
            Some(run) => Some(run),
            None => entries::try_detect_description_list(lines, i),
        },
    }
}

/// All tables without rules, from top to bottom. They share no line.
pub fn detect_tables(lines: &Vec<ProjectedLine>) -> (r: Vec<TableRun>)
    ensures
        rows::run_views(r@) == tables_in(lines@),
        rows::runs_fit(rows::run_views(r@), lines@.len() as int),
        rows::runs_in_sequence(rows::run_views(r@)),
{
    let ghost n = lines@.len() as int;
    let mut out: Vec<TableRun> = Vec::new();
    let mut i: usize = 0;
    let mut floor: usize = 0;
    proof {
        assert(rows::run_views(out@) =~= seq![]);
    }
    while i < lines.len()
        invariant
            floor <= i <= lines@.len() == n,
            tables_from(lines@, 0, 0, seq![]) == tables_from(
                lines@,
                i as int,
                floor as int,
                rows::run_views(out@),
            ),
            join_tables::runs_valid(rows::run_views(out@), n),
            forall|k: int|
                0 <= k < out@.len() ==> (#[trigger] rows::run_views(out@)[k]).end <= floor,
        decreases lines.len() - i,
    {
        match find_table(lines, i, floor) {
            Some(run) => {
                let end: usize = run.end;
                let ghost before = rows::run_views(out@);
                proof {
                    assert(rows::run_views(out@.push(run)) =~= before.push(run@));
                    assert forall|k: int| 0 <= k < before.push(run@).len() implies rows::run_fits(
                        #[trigger] before.push(run@)[k],
                        n,
                    ) by {
                        if k < before.len() {
                            assert(rows::run_fits(before[k], n));
                        }
                    }
                }
                out.push(run);
                i = end;
                floor = end;
            },
            None => {
                i = i + 1;
            },
        }
    }
    join_tables::merge_consecutive_table_runs(&out, lines)
}

} // verus!
