//! The dependency and sorting operations that editing a sheet interactively
//! uses: moving a cell's dependents, recalculating after a change, and
//! sorting a rectangle with the lines written back in their own direction.
use vstd::prelude::*;
use vstd::std_specs::iter::IteratorSpec;
use crate::sheet_functions::{
    Cell, CellInfo, CellView, Sheet, dep_key, spec_data_key, recalculated_only, references_moved,
    dependency_dropped, dependent_redirected, redirected, recalculated_in_order, dependency_order, dependents_of,
    formula_holds, refs_redirected, graph_conditions, RangeTargets,
};
use crate::entry_lists::{is_listing, listed_values};
use crate::sorting::{sort_ok, sort_of, write_block, permuted, rect_lines};

verus! {

/// After the cell at `(old_cell_row, old_cell_col)` moved to
/// `(new_cell_row, new_cell_col)`: goes through the cells that depend on the
/// new position in topological order; a range formula among them is
/// recalculated, any other formula has its references to the old position
/// redirected to the new one.
pub fn update_dependencies(
    old_cell_row: i16,
    old_cell_col: i16,
    new_cell_row: i16,
    new_cell_col: i16,
    sheet: &mut Sheet,
)
    requires
        old(sheet).wf(),
        old(sheet).valid_pos(new_cell_row as int, new_cell_col as int),
        old(sheet).data@.contains_key(spec_data_key(new_cell_row as int, new_cell_col as int) as i32),
    ensures
        final(sheet).wf(),
        references_moved(
            *old(sheet),
            dep_key(new_cell_row as int, new_cell_col as int),
            CellInfo { row: old_cell_row, col: old_cell_col },
            CellInfo { row: new_cell_row, col: new_cell_col },
            old(sheet).cells(),
            final(sheet).cells(),
        ),
        final(sheet).rows == old(sheet).rows,
        final(sheet).cols == old(sheet).cols,
        final(sheet).buul == old(sheet).buul,
        final(sheet).tuup == old(sheet).tuup,
        exists|order: Seq<i32>|
            #[trigger] refs_redirected(
                order,
                dep_key(new_cell_row as int, new_cell_col as int),
                CellInfo { row: old_cell_row, col: old_cell_col },
                CellInfo { row: new_cell_row, col: new_cell_col },
                old(sheet).cells(),
                final(sheet).cells(),
            ) && dependency_order(
                *old(sheet),
                dep_key(new_cell_row as int, new_cell_col as int),
                order,
                crate::sheet_functions::entry_values(vstd::std_specs::hash::spec_hash_map_iter(&old(sheet).tuup).remaining()),
            ) && crate::sheet_functions::moved_in_order(
                old(sheet).cells(),
                final(sheet).cells(),
                order,
                dep_key(new_cell_row as int, new_cell_col as int),
                CellInfo { row: old_cell_row, col: old_cell_col },
                CellInfo { row: new_cell_row, col: new_cell_col },
            ),
{
    crate::sheet_functions::update_dependencies(old_cell_row, old_cell_col, new_cell_row, new_cell_col, sheet);
}

/// Drops from the dependency set of `new_cell` its range dependents (when
/// `del_range_dependencies`) or its other dependents (otherwise), counting
/// only dependents stored in the sheet; each other dependent dropped has its
/// references to `(current_row, current_col)` redirected to
/// `(change_to_row, change_to_col)`.
pub fn change_dependecy_set(
    new_cell: &mut Cell,
    sheet: &mut Sheet,
    del_range_dependencies: bool,
    change_to_row: i16,
    change_to_col: i16,
    current_row: i16,
    current_col: i16,
)
    requires
        old(sheet).wf(),
    ensures
        final(sheet).wf(),
        final(new_cell)@ == (CellView {
            dependencies: old(new_cell)@.dependencies.filter(
                |d: i32| !dependency_dropped(old(sheet).cells(), d, del_range_dependencies),
            ),
            ..old(new_cell)@
        }),
        final(sheet).cells().dom() == old(sheet).cells().dom(),
        forall|q: i32|
            #[trigger] final(sheet).cells().contains_key(q) ==> final(sheet).cells()[q] == if dependent_redirected(
                old(sheet).cells(),
                old(new_cell)@.dependencies,
                q,
                del_range_dependencies,
            ) {
                CellView {
                    cell1: redirected(
                        old(sheet).cells()[q].cell1,
                        CellInfo { row: current_row, col: current_col },
                        CellInfo { row: change_to_row, col: change_to_col },
                    ),
                    cell2: redirected(
                        old(sheet).cells()[q].cell2,
                        CellInfo { row: current_row, col: current_col },
                        CellInfo { row: change_to_row, col: change_to_col },
                    ),
                    ..old(sheet).cells()[q]
                }
            } else {
                old(sheet).cells()[q]
            },
        final(sheet).rows == old(sheet).rows,
        final(sheet).cols == old(sheet).cols,
        final(sheet).buul == old(sheet).buul,
        final(sheet).tuup == old(sheet).tuup,
{
    crate::sheet_functions::change_dependecy_set(
        new_cell,
        sheet,
        del_range_dependencies,
        change_to_row,
        change_to_col,
        current_row,
        current_col,
    );
}

/// Recalculates, in topological order, every cell that depends (directly or
/// transitively) on `curr_cell`. Under the conditions on the dependency
/// graph, each of them then holds what its formula gives.
pub fn recalculate_dependecy(curr_cell: CellInfo, sheet: &mut Sheet)
    requires
        old(sheet).wf(),
        old(sheet).valid_pos(curr_cell.row as int, curr_cell.col as int),
        old(sheet).data@.contains_key(spec_data_key(curr_cell.row as int, curr_cell.col as int) as i32),
    ensures
        final(sheet).wf(),
        recalculated_only(
            *old(sheet),
            dep_key(curr_cell.row as int, curr_cell.col as int),
            old(sheet).cells(),
            final(sheet).cells(),
        ),
        final(sheet).cells()[spec_data_key(curr_cell.row as int, curr_cell.col as int) as i32]
            == old(sheet).cells()[spec_data_key(curr_cell.row as int, curr_cell.col as int) as i32],
        final(sheet).rows == old(sheet).rows,
        final(sheet).cols == old(sheet).cols,
        final(sheet).buul == old(sheet).buul,
        final(sheet).tuup == old(sheet).tuup,
        exists|order: Seq<i32>, t: i32|
            #[trigger] recalculated_in_order(
                old(sheet).cells(),
                final(sheet).cells(),
                order,
                dep_key(curr_cell.row as int, curr_cell.col as int),
                0,
                t,
            ) && dependency_order(
                *old(sheet),
                dep_key(curr_cell.row as int, curr_cell.col as int),
                order,
                crate::sheet_functions::entry_values(vstd::std_specs::hash::spec_hash_map_iter(&old(sheet).tuup).remaining()),
            ),
        forall|w: Seq<(i64, RangeTargets)>|
            #[trigger] is_listing(w, old(sheet).tuup@) && graph_conditions(
                *old(sheet),
                dep_key(curr_cell.row as int, curr_cell.col as int),
                listed_values(w),
            ) ==> forall|v: i32|
                #[trigger] dependents_of(*old(sheet), dep_key(curr_cell.row as int, curr_cell.col as int)).contains(v)
                    && v != dep_key(curr_cell.row as int, curr_cell.col as int) ==> formula_holds(
                    final(sheet).cells(),
                    v as int,
                ),
{
    crate::sheet_functions::recalculate_dependecy(curr_cell, sheet);
}

/// Sorts the rectangle `(row1, col1) ..= (row2, col2)`: its rows by the value
/// in column `sort_key` (when `is_column`), or its columns by the value in
/// row number `sort_key`; ascending when `sort_order` is "asc", descending
/// otherwise, equal lines keeping their order. Sorted rows are written back
/// as rows and sorted columns as columns.
pub fn sort_sheet(
    sheet: &mut Sheet,
    col1: i32,
    row1: i32,
    col2: i32,
    row2: i32,
    sort_key: &str,
    is_column: bool,
    sort_order: &str,
)
    requires
        old(sheet).wf(),
        sort_ok(sort_key@, is_column, row1 as int, col1 as int, row2 as int, col2 as int),
    ensures
        final(sheet).wf(),
        old(sheet).settled() ==> final(sheet).settled(),
        final(sheet).rows == old(sheet).rows,
        final(sheet).cols == old(sheet).cols,
        final(sheet).buul == old(sheet).buul,
        final(sheet).tuup == old(sheet).tuup,
        exists|order: Seq<usize>|
            {
                &&& sort_of(
                    *old(sheet),
                    row1 as int,
                    col1 as int,
                    row2 as int,
                    col2 as int,
                    sort_key@,
                    is_column,
                    sort_order@ == seq!['a', 's', 'c'],
                    order,
                )
                &&& final(sheet).cells() == if is_column {
                    write_block(
                        old(sheet).cells(),
                        permuted(
                            rect_lines(old(sheet).cells(), row1 as int, col1 as int, row2 as int, col2 as int, true),
                            order,
                        ),
                        row1 as int,
                        row2 + 1,
                        col1 as int,
                        col2 as int,
                        false,
                    )
                } else {
                    write_block(
                        old(sheet).cells(),
                        permuted(
                            rect_lines(old(sheet).cells(), row1 as int, col1 as int, row2 as int, col2 as int, false),
                            order,
                        ),
                        col1 as int,
                        col2 + 1,
                        row1 as int,
                        row2 as int,
                        true,
                    )
                }
            },
{
    let (lines, order) = crate::sorting::sort_lines(
        sheet,
        col1,
        row1,
        col2,
        row2,
        sort_key,
        is_column,
        sort_order,
    );
    proof {
        assert forall|a: int| 0 <= a < order@.len() implies order@[a] < lines@.len() by {
            assert(crate::sorting::lines_view(lines@).len() == lines@.len());
        }
    }
    if is_column {
        crate::sorting::write_lines(sheet, &lines, &order, row1, row2, col1, col2, false);
    } else {
        crate::sorting::write_lines(sheet, &lines, &order, col1, col2, row1, row2, true);
    }
}

} // verus!
