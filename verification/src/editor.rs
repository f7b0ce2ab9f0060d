//! The interactive editor's state machine over its sheets: selecting,
//! cutting, copying and pasting cells, and undoing and redoing edits.
use vstd::prelude::*;
use crate::sheet_functions::{
    Cell, CellInfo, CellView, OpCode, Sheet, add_dependent, dep_key, get_or_create_cell, no_cell, removal_post,
    remove_dependency, spec_data_key, with_dependent, recalculate_dependecy, recalculated_only, lemma_removal_frame,
    lemma_dep_key_decode,
};
use crate::sorting::{
    cell_fits, copy_cell, lemma_fitting_wf, lemma_cells_fit, sort_key_ok, sort_of, write_block, permuted, rect_lines,
};
use crate::ui::app_impl::{Action, CutCopy, Sheets};
use crate::entry_lists::{is_listing, listed_values};
use crate::parser::{Command, CommandEffect, cleaned, command_post, parse_command, read_command, spec_command};
use crate::ui::utils::{decimal_text, push_decimal};
use crate::text::push_text;

verus! {

/// The editor: its sheets (the current one by index), the status line, the
/// selected cell, the undo and redo histories, the clipboard (a cell, how it
/// was taken, and where from) and the cell marked as cut or copied.
pub struct Editor {
    pub sheets: Vec<Sheets>,
    pub current_sheet_index: usize,
    pub status: String,
    pub selected_cell: Option<(usize, usize)>,
    pub undo_stack: Vec<Action>,
    pub redo_stack: Vec<Action>,
    pub clipboard: Option<(Cell, CutCopy, i16, i16)>,
    pub cut_copied_cell: Option<(i16, i16)>,
}

/// A sheet the editor can work on: well-formed, every range formula reading
/// a rectangle that fits.
pub open spec fn sheet_ok(s: Sheet) -> bool {
    s.wf() && s.settled()
}

/// An edit recorded in a history refers to an existing sheet, to positions
/// inside it, and to cells that fit it.
pub open spec fn action_fits(a: Action, sheets: Seq<Sheets>) -> bool {
    match a {
        Action::Inserted { sheet_index, row, col, previous_cell } => {
            &&& sheet_index < sheets.len()
            &&& sheets[sheet_index as int].sheet.valid_pos(row as int, col as int)
            &&& cell_fits(sheets[sheet_index as int].sheet, previous_cell@)
        },
        Action::CutAction { sheet_index, row1, col1, previous_cell1, row2, col2, previous_cell2 } => {
            &&& sheet_index < sheets.len()
            &&& sheets[sheet_index as int].sheet.valid_pos(row1 as int, col1 as int)
            &&& sheets[sheet_index as int].sheet.valid_pos(row2 as int, col2 as int)
            &&& cell_fits(sheets[sheet_index as int].sheet, previous_cell1@)
            &&& cell_fits(sheets[sheet_index as int].sheet, previous_cell2@)
        },
        Action::FindAndReplace { sheet_index, changes } => {
            &&& sheet_index < sheets.len()
            &&& forall|i: int|
                0 <= i < changes@.len() ==> sheets[sheet_index as int].sheet.valid_pos(
                    (#[trigger] changes@[i]).0 as int,
                    changes@[i].1 as int,
                )
        },
    }
}

impl Editor {
    /// The sheet being edited.
    pub open spec fn current(&self) -> Sheet {
        self.sheets@[self.current_sheet_index as int].sheet
    }

    /// The editor's invariant: the current sheet exists, every sheet can be
    /// worked on, the selection and the clipboard lie in the current sheet,
    /// and every recorded edit fits the sheets.
    pub open spec fn wf(&self) -> bool {
        &&& self.current_sheet_index < self.sheets@.len()
        &&& forall|i: int| 0 <= i < self.sheets@.len() ==> sheet_ok(#[trigger] self.sheets@[i].sheet)
        &&& match self.selected_cell {
            Some((r, c)) => self.current().valid_pos(r as int, c as int),
            None => true,
        }
        &&& match self.clipboard {
            Some((cell, how, r, c)) => self.current().valid_pos(r as int, c as int) && (how == CutCopy::Copied
                ==> cell@ == content_only(cell@)),
            None => true,
        }
        &&& forall|i: int| 0 <= i < self.undo_stack@.len() ==> action_fits(#[trigger] self.undo_stack@[i], self.sheets@)
        &&& forall|i: int| 0 <= i < self.redo_stack@.len() ==> action_fits(#[trigger] self.redo_stack@[i], self.sheets@)
    }
}

/// A cell that fits a settled sheet fits every sheet of the same size that
/// keeps its stored cells.
proof fn lemma_fits_grow(s: Sheet, t: Sheet, v: CellView)
    requires
        s.settled(),
        cell_fits(s, v),
        t.rows == s.rows,
        t.cols == s.cols,
        forall|q: i32| s.data@.contains_key(q) ==> t.data@.contains_key(q),
    ensures
        cell_fits(t, v),
{
}

/// Replacing sheet `i` by one of the same size that keeps its stored cells
/// keeps every recorded edit fitting.
proof fn lemma_actions_kept(a: Action, old: Seq<Sheets>, new: Seq<Sheets>, i: int)
    requires
        action_fits(a, old),
        new.len() == old.len(),
        0 <= i < old.len(),
        sheet_ok(old[i].sheet),
        new[i].sheet.rows == old[i].sheet.rows,
        new[i].sheet.cols == old[i].sheet.cols,
        forall|q: i32| old[i].sheet.data@.contains_key(q) ==> new[i].sheet.data@.contains_key(q),
        forall|j: int| 0 <= j < old.len() && j != i ==> new[j] == old[j],
    ensures
        action_fits(a, new),
{
    match a {
        Action::Inserted { sheet_index, row, col, previous_cell } => {
            if sheet_index == i {
                lemma_fits_grow(old[i].sheet, new[i].sheet, previous_cell@);
            }
        },
        Action::CutAction { sheet_index, row1, col1, previous_cell1, row2, col2, previous_cell2 } => {
            if sheet_index == i {
                lemma_fits_grow(old[i].sheet, new[i].sheet, previous_cell1@);
                lemma_fits_grow(old[i].sheet, new[i].sheet, previous_cell2@);
            }
        },
        Action::FindAndReplace { .. } => {},
    }
}

/// Every stored cell of a well-formed sheet fits it.
proof fn lemma_stored_fits(s: Sheet, q: i32)
    requires
        s.wf(),
        s.data@.contains_key(q),
    ensures
        cell_fits(s, s.data@[q]@),
{
    assert forall|d: i32| #[trigger] s.data@[q]@.dependencies.contains(d) implies s.valid_node(d as int)
        && s.data@.contains_key(spec_data_key(d as int % 1000, d as int / 1000) as i32) by {
        assert(s.data@[q].dependencies@.contains(d));
    }
}

/// Stores cell `c` at `(row, col)`, replacing what was there.
fn put_cell(sheet: &mut Sheet, row: i16, col: i16, c: Cell)
    requires
        old(sheet).wf(),
        cell_fits(*old(sheet), c@),
    ensures
        final(sheet).wf(),
        final(sheet).cells() == old(sheet).cells().insert(spec_data_key(row as int, col as int) as i32, c@),
        final(sheet).rows == old(sheet).rows,
        final(sheet).cols == old(sheet).cols,
        final(sheet).buul == old(sheet).buul,
        final(sheet).tuup == old(sheet).tuup,
        forall|q: i32| old(sheet).data@.contains_key(q) ==> final(sheet).data@.contains_key(q),
        final(sheet).data@.contains_key(spec_data_key(row as int, col as int) as i32),
        old(sheet).settled() ==> final(sheet).settled(),
{
    let ghost s0 = *sheet;
    let r = get_or_create_cell(sheet, row as i32, col as i32);
    *r = c;
    proof {
        let k = spec_data_key(row as int, col as int) as i32;
        assert(sheet.cells() =~= s0.cells().insert(k, c@));
        assert forall|q: i32| #[trigger] sheet.data@.contains_key(q) implies cell_fits(s0, sheet.data@[q]@) by {
            if q != k {
                assert(s0.data@.contains_key(q));
                lemma_stored_fits(s0, q);
            }
        }
        lemma_fitting_wf(s0, *sheet);
    }
}

impl Editor {
    /// An editor over `sheets`, on the first one, with status "ok", nothing
    /// selected, empty histories and an empty clipboard.
    pub fn new(sheets: Vec<Sheets>) -> (e: Self)
        requires
            sheets@.len() > 0,
            forall|i: int| 0 <= i < sheets@.len() ==> sheet_ok(#[trigger] sheets@[i].sheet),
        ensures
            e.wf(),
            e.sheets@ == sheets@,
            e.current_sheet_index == 0,
            e.status@ == "ok"@,
            e.selected_cell is None,
            e.undo_stack@.len() == 0,
            e.redo_stack@.len() == 0,
            e.clipboard is None,
            e.cut_copied_cell is None,
    {
        Editor {
            sheets,
            current_sheet_index: 0,
            status: "ok".to_owned(),
            selected_cell: None,
            undo_stack: Vec::new(),
            redo_stack: Vec::new(),
            clipboard: None,
            cut_copied_cell: None,
        }
    }

    /// Empties the clipboard and forgets the cell marked as cut or copied.
    pub fn clear_clipboard(&mut self)
        requires
            old(self).wf(),
        ensures
            final(self).wf(),
            final(self).clipboard is None,
            final(self).cut_copied_cell is None,
            final(self).sheets@ == old(self).sheets@,
            final(self).current_sheet_index == old(self).current_sheet_index,
            final(self).status == old(self).status,
            final(self).selected_cell == old(self).selected_cell,
            final(self).undo_stack@ == old(self).undo_stack@,
            final(self).redo_stack@ == old(self).redo_stack@,
    {
        self.clipboard = None;
        self.cut_copied_cell = None;
    }

    /// Adds a new empty sheet of `rows` x `cols` named `name` and switches to
    /// it; the redo history is emptied and the status becomes "Sheet created
    /// successfully". The selected cell and the clipboard's cell stay, so
    /// they must lie inside the new sheet, where they are used next.
    pub fn create_new_sheet(&mut self, rows: i32, cols: i32, name: String)
        requires
            old(self).wf(),
            0 <= rows <= 1000,
            0 <= cols <= 32767,
            old(self).sheets@.len() < usize::MAX,
            match old(self).selected_cell {
                Some((r, c)) => r < rows && c < cols,
                None => true,
            },
            match old(self).clipboard {
                Some((_cell, _how, r, c)) => r < rows && c < cols,
                None => true,
            },
        ensures
            final(self).wf(),
            final(self).sheets@.len() == old(self).sheets@.len() + 1,
            final(self).sheets@.take(old(self).sheets@.len() as int) == old(self).sheets@,
            final(self).sheets@.last().name@ == name@,
            final(self).sheets@.last().sheet.rows == rows,
            final(self).sheets@.last().sheet.cols == cols,
            final(self).sheets@.last().sheet.data@ == Map::<i32, Cell>::empty(),
            final(self).sheets@.last().sheet.tuup@ == Map::<i64, crate::sheet_functions::RangeTargets>::empty(),
            final(self).sheets@.last().sheet.buul@.len() == rows,
            forall|i: int| 0 <= i < rows ==> (#[trigger] final(self).sheets@.last().sheet.buul@[i])@.len() == cols,
            forall|i: int, j: int|
                0 <= i < rows && 0 <= j < cols ==> !(#[trigger] final(self).sheets@.last().sheet.buul@[i]@[j]),
            final(self).selected_cell == old(self).selected_cell,
            final(self).clipboard == old(self).clipboard,
            final(self).cut_copied_cell == old(self).cut_copied_cell,
            final(self).current_sheet_index == old(self).sheets@.len(),
            final(self).redo_stack@.len() == 0,
            final(self).undo_stack@ == old(self).undo_stack@,
            final(self).status@ == "Sheet created successfully"@,
    {
        let new_sheet = Sheet::new(rows, cols);
        let ghost old_sheets = self.sheets@;
        self.sheets.push(Sheets { sheet: new_sheet, name });
        self.current_sheet_index = self.sheets.len() - 1;
        self.redo_stack.clear();
        self.status = "Sheet created successfully".to_owned();
        proof {
            assert(self.sheets@.take(old_sheets.len() as int) =~= old_sheets);
            assert forall|i: int| 0 <= i < self.undo_stack@.len() implies action_fits(
                #[trigger] self.undo_stack@[i],
                self.sheets@,
            ) by {
                lemma_action_extended(self.undo_stack@[i], old_sheets, self.sheets@);
            }
        }
    }

    /// `cut` (when `is_cut`) or `copy`.
    fn take_selected(&mut self, is_cut: bool)
        requires
            old(self).wf(),
        ensures
            final(self).wf(),
            final(self).current_sheet_index == old(self).current_sheet_index,
            final(self).undo_stack@ == old(self).undo_stack@,
            final(self).redo_stack@ == old(self).redo_stack@,
            final(self).selected_cell == old(self).selected_cell,
            match old(self).selected_cell {
                Some((r, c)) => {
                    &&& final(self).sheets@ == old(self).sheets@.update(
                        old(self).current_sheet_index as int,
                        Sheets { sheet: final(self).current(), ..old(self).sheets@[old(self).current_sheet_index as int] },
                    )
                    &&& final(self).current().cells() == crate::sheet_functions::ensure_cell(
                        old(self).current().cells(),
                        r as int,
                        c as int,
                    )
                    &&& final(self).clipboard matches Some((cell, how, cr, cc)) && cell@ == (if is_cut {
                        old(self).current().cell_at(r as int, c as int)
                    } else {
                        content_only(old(self).current().cell_at(r as int, c as int))
                    }) && how == (if is_cut {
                        CutCopy::Cut
                    } else {
                        CutCopy::Copied
                    }) && cr == r && cc == c
                    &&& final(self).cut_copied_cell == Some((r as i16, c as i16))
                    &&& final(self).status@ == (if is_cut {
                        "Cut"@
                    } else {
                        "Copied"@
                    })
                },
                None => {
                    &&& final(self).sheets@ == old(self).sheets@
                    &&& final(self).clipboard == old(self).clipboard
                    &&& final(self).cut_copied_cell == old(self).cut_copied_cell
                    &&& final(self).status@ == "No cell selected"@
                },
            },
    {
        match self.selected_cell {
            Some((row, col)) => {
                let i = self.current_sheet_index;
                let ghost old_sheets = self.sheets@;
                let mut sh = self.sheets.remove(i);
                let ghost s0 = sh.sheet;
                let r = get_or_create_cell(&mut sh.sheet, row as i32, col as i32);
                let mut cell = copy_cell(r);
                if !is_cut {
                    cell.dependencies = std::collections::HashSet::new();
                    cell.cell1 = CellInfo { row: -1, col: -1 };
                    cell.cell2 = CellInfo { row: -1, col: -1 };
                    cell.op_code = OpCode::NoConstraint;
                }
                let ghost s1 = sh.sheet;
                self.sheets.insert(i, sh);
                proof {
                    let k = spec_data_key(row as int, col as int) as i32;
                    assert(s1.cells() =~= crate::sheet_functions::ensure_cell(s0.cells(), row as int, col as int));
                    assert(s1.data@.dom() =~= s0.data@.dom().insert(k));
                    assert forall|q: i32| #[trigger] s1.data@.contains_key(q) implies cell_fits(s0, s1.data@[q]@) by {
                        if q != k {
                            lemma_stored_fits(s0, q);
                        }
                    }
                    lemma_fitting_wf(s0, s1);
                    assert(self.sheets@ =~= old_sheets.update(i as int, Sheets { sheet: s1, ..old_sheets[i as int] }));
                    lemma_stored_fits(s1, k);
                    assert(cell_fits(s1, cell@));
                    assert forall|j: int| 0 <= j < self.undo_stack@.len() implies action_fits(
                        #[trigger] self.undo_stack@[j],
                        self.sheets@,
                    ) by {
                        lemma_actions_kept(self.undo_stack@[j], old_sheets, self.sheets@, i as int);
                    }
                    assert forall|j: int| 0 <= j < self.redo_stack@.len() implies action_fits(
                        #[trigger] self.redo_stack@[j],
                        self.sheets@,
                    ) by {
                        lemma_actions_kept(self.redo_stack@[j], old_sheets, self.sheets@, i as int);
                    }
                }
                self.clipboard = Some((cell, if is_cut { CutCopy::Cut } else { CutCopy::Copied }, row as i16, col as i16));
                self.cut_copied_cell = Some((row as i16, col as i16));
                self.status = if is_cut { "Cut".to_owned() } else { "Copied".to_owned() };
            },
            None => {
                self.status = "No cell selected".to_owned();
            },
        }
    }
}

/// The content of `c` alone: no formula, no references, no dependents.
pub open spec fn content_only(c: CellView) -> CellView {
    CellView { op_code: OpCode::NoConstraint, cell1: no_cell(), cell2: no_cell(), dependencies: Set::empty(), ..c }
}

/// Adding a sheet keeps every recorded edit fitting.
proof fn lemma_action_extended(a: Action, old: Seq<Sheets>, new: Seq<Sheets>)
    requires
        action_fits(a, old),
        new.len() > old.len(),
        forall|j: int| 0 <= j < old.len() ==> new[j] == old[j],
    ensures
        action_fits(a, new),
{
}

/// Whether reference `c` names a cell (neither coordinate is -1).
pub open spec fn names_cell(c: CellInfo) -> bool {
    c.row != -1 && c.col != -1
}

/// Whether the second reference of a formula with op code `op` names a cell
/// that it reads (for a formula between a cell and a constant it holds the
/// constant instead).
fn second_ref_is_cell(op: OpCode) -> (b: bool)
    ensures
        b == !crate::sheet_functions::is_cell_constant_op(op),
{
    match op {
        OpCode::CellPlusConstant | OpCode::CellMinusConstant | OpCode::CellTimesConstant
        | OpCode::CellDivideConstant | OpCode::ConstantDividesCell | OpCode::ConstantMinusCell => false,
        _ => true,
    }
}

/// `m` with `d` added to the dependents of the cells that `prev` refers to
/// (its second reference only where it names a cell rather than a
/// constant).
pub open spec fn linked_back(m: Map<i32, CellView>, prev: CellView, d: i32) -> Map<i32, CellView> {
    let m1 = if names_cell(prev.cell1) {
        with_dependent(m, prev.cell1, d)
    } else {
        m
    };
    if names_cell(prev.cell2) && !crate::sheet_functions::is_cell_constant_op(prev.op_code) {
        with_dependent(m1, prev.cell2, d)
    } else {
        m1
    }
}

/// Under the conditions on the dependency graph of `m` around `root` (for
/// any listing of its range entries), every cell that depends on `root`
/// holds in `fin` what its formula gives.
pub open spec fn dependents_hold(m: Sheet, root: int, fin: Map<i32, CellView>) -> bool {
    forall|w: Seq<(i64, crate::sheet_functions::RangeTargets)>|
        #[trigger] is_listing(w, m.tuup@) && crate::sheet_functions::graph_conditions(m, root, listed_values(w))
            ==> forall|v: i32|
            #[trigger] crate::sheet_functions::dependents_of(m, root).contains(v) && v != root
                ==> crate::sheet_functions::formula_holds(fin, v as int)
}

/// `mid` is the content of `s0` after the cell at `(row, col)` (stored as a
/// default cell first, if none is) had its formula's dependencies removed,
/// was added back to the dependents of the cells `prev` refers to, and was
/// replaced by `prev`.
pub open spec fn restored(s0: Sheet, mid: Map<i32, CellView>, row: i16, col: i16, prev: CellView) -> bool {
    exists|s1: Sheet, r: Sheet|
        {
            &&& s1.cells() == crate::sheet_functions::ensure_cell(s0.cells(), row as int, col as int)
            &&& s1.buul == s0.buul
            &&& s1.tuup == s0.tuup
            &&& s1.rows == s0.rows
            &&& s1.cols == s0.cols
            &&& #[trigger] removal_post(s1, s1.buul@, r, CellInfo { row, col })
            &&& mid == linked_back(r.cells(), prev, dep_key(row as int, col as int) as i32).insert(
                spec_data_key(row as int, col as int) as i32,
                prev,
            )
        }
}

/// Puts `prev` back at `(row, col)`: the cell's formula's dependencies are
/// removed, the cell is added back to the dependents of the cells `prev`
/// refers to, `prev` is stored there, and the cell's dependents are
/// recalculated. Returns the cell that was there (a default cell if none
/// was).
fn restore_cell(sheet: &mut Sheet, row: i16, col: i16, prev: Cell) -> (curr: Cell)
    requires
        sheet_ok(*old(sheet)),
        old(sheet).valid_pos(row as int, col as int),
        cell_fits(*old(sheet), prev@),
    ensures
        sheet_ok(*final(sheet)),
        final(sheet).rows == old(sheet).rows,
        final(sheet).cols == old(sheet).cols,
        forall|q: i32| old(sheet).data@.contains_key(q) ==> final(sheet).data@.contains_key(q),
        curr@ == old(sheet).cell_at(row as int, col as int),
        cell_fits(*final(sheet), curr@),
        final(sheet).cells()[spec_data_key(row as int, col as int) as i32] == prev@,
        exists|m: Sheet|
            #[trigger] restored(*old(sheet), m.cells(), row, col, prev@) && recalculated_only(
                m,
                dep_key(row as int, col as int),
                m.cells(),
                final(sheet).cells(),
            ) && dependents_hold(m, dep_key(row as int, col as int), final(sheet).cells()),
{
    let ghost s0 = *sheet;
    let ghost k = spec_data_key(row as int, col as int) as i32;
    let ghost d = dep_key(row as int, col as int) as i32;
    let r = get_or_create_cell(sheet, row as i32, col as i32);
    let curr = copy_cell(r);
    let ghost s1 = *sheet;
    proof {
        assert(s1.cells() =~= crate::sheet_functions::ensure_cell(s0.cells(), row as int, col as int));
        assert(s1.data@.dom() =~= s0.data@.dom().insert(k));
        assert forall|q: i32| #[trigger] s1.data@.contains_key(q) implies cell_fits(s0, s1.data@[q]@) by {
            if q != k {
                lemma_stored_fits(s0, q);
            }
        }
        lemma_fitting_wf(s0, s1);
        lemma_stored_fits(s1, k);
        lemma_dep_key_decode(row as int, col as int);
    }
    let cell = CellInfo { row, col };
    remove_dependency(&cell, sheet);
    let ghost s2 = *sheet;
    proof {
        lemma_removal_frame(s1, s1.buul@, s2, cell);
        assert(s2.cells().dom() =~= s2.data@.dom());
        assert(s1.cells().dom() =~= s1.data@.dom());
        assert(s2.data@.contains_key(k));
        assert(s2.node_stored(d as int));
    }
    let c1 = prev.cell1;
    let c2 = prev.cell2;
    let link2 = second_ref_is_cell(prev.op_code);
    let key = col as i32 * 1000 + row as i32;
    if c1.row != -1 && c1.col != -1 {
        add_dependent(sheet, c1, key);
    }
    let ghost s3a = *sheet;
    if c2.row != -1 && c2.col != -1 && link2 {
        proof {
            assert(sheet.data@.contains_key(k));
        }
        add_dependent(sheet, c2, key);
    }
    let ghost s3 = *sheet;
    proof {
        assert(s3.cells() == linked_back(s2.cells(), prev@, d));
        lemma_fits_grow(s0, s3, prev@);
    }
    put_cell(sheet, row, col, prev);
    let ghost s4 = *sheet;
    proof {
        assert(s4.cells() == linked_back(s2.cells(), prev@, d).insert(k, prev@));
        assert(restored(s0, s4.cells(), row, col, prev@));
        assert(s4.data@.dom() =~= s4.cells().dom());
        assert forall|q: i32|
            #![trigger s4.data@[q]]
            s4.data@.contains_key(q) && crate::calculate_functions::is_range_op(s4.data@[q].op_code) implies s4.rect_fits(
            s4.data@[q].cell1.row as int,
            s4.data@[q].cell1.col as int,
            s4.data@[q].cell2.row as int,
            s4.data@[q].cell2.col as int,
        ) by {
            assert(s4.cells().contains_key(q));
            assert(s4.cells()[q] == s4.data@[q]@);
            if q != k {
                assert(s2.cells().contains_key(q));
                assert(s1.cells().contains_key(q));
                assert(s1.data@.contains_key(q));
                assert(s1.cells()[q] == s1.data@[q]@);
            }
        }
        assert(s4.settled());
        assert(s4.data@.contains_key(k));
    }
    recalculate_dependecy(cell, sheet);
    proof {
        let s5 = *sheet;
        assert(s5.cells()[k] == prev@);
        crate::sheet_functions::lemma_settled_kept(s4, s5);
        assert forall|q: i32| s0.data@.contains_key(q) implies s5.data@.contains_key(q) by {
            assert(s4.cells().contains_key(q));
            assert(s5.cells().contains_key(q));
        }
        lemma_fits_grow(s1, s5, curr@);
    }
    curr
}


/// Stores a default cell at `(row, col)` if none is stored there, and returns
/// a copy of the cell there.
fn stored_copy(sheet: &mut Sheet, row: i16, col: i16) -> (c: Cell)
    requires
        sheet_ok(*old(sheet)),
        old(sheet).valid_pos(row as int, col as int),
    ensures
        sheet_ok(*final(sheet)),
        final(sheet).cells() == crate::sheet_functions::ensure_cell(old(sheet).cells(), row as int, col as int),
        final(sheet).data@.dom() == old(sheet).data@.dom().insert(spec_data_key(row as int, col as int) as i32),
        final(sheet).rows == old(sheet).rows,
        final(sheet).cols == old(sheet).cols,
        final(sheet).buul == old(sheet).buul,
        final(sheet).tuup == old(sheet).tuup,
        c@ == old(sheet).cell_at(row as int, col as int),
        c@ == final(sheet).cells()[spec_data_key(row as int, col as int) as i32],
        cell_fits(*final(sheet), c@),
{
    let ghost s0 = *sheet;
    let ghost k = spec_data_key(row as int, col as int) as i32;
    let r = get_or_create_cell(sheet, row as i32, col as i32);
    let c = copy_cell(r);
    proof {
        let s1 = *sheet;
        assert(s1.cells() =~= crate::sheet_functions::ensure_cell(s0.cells(), row as int, col as int));
        assert(s1.data@.dom() =~= s0.data@.dom().insert(k));
        assert forall|q: i32| #[trigger] s1.data@.contains_key(q) implies cell_fits(s0, s1.data@[q]@) by {
            if q != k {
                lemma_stored_fits(s0, q);
            }
        }
        lemma_fitting_wf(s0, s1);
        lemma_stored_fits(s1, k);
    }
    c
}

/// `m` after each of the cells under the data keys of `(r1, c1)` and
/// `(r2, c2)` was added back to the dependents of the cells it refers to
/// (both read from `m`).
pub open spec fn pair_linked(m: Map<i32, CellView>, r1: i16, c1: i16, r2: i16, c2: i16) -> Map<i32, CellView> {
    let a = m[spec_data_key(r1 as int, c1 as int) as i32];
    let b = m[spec_data_key(r2 as int, c2 as int) as i32];
    linked_back(
        linked_back(m, a, dep_key(r1 as int, c1 as int) as i32),
        b,
        dep_key(r2 as int, c2 as int) as i32,
    )
}

/// `mid` is the content of `s0` after the cells at `(r1, c1)` and `(r2, c2)`
/// (stored as default cells first, where none is) had their formulas'
/// dependencies removed (once, when both are the same cell), were replaced
/// by `p1` and `p2` in that order, and were added back to the dependents of
/// the cells they now refer to.
pub open spec fn pair_restored(
    s0: Sheet,
    mid: Map<i32, CellView>,
    r1: i16,
    c1: i16,
    p1: CellView,
    r2: i16,
    c2: i16,
    p2: CellView,
) -> bool {
    exists|s1: Sheet, t1: Sheet, t2: Sheet|
        #![trigger removal_post(s1, s1.buul@, t1, CellInfo { row: r1, col: c1 }), t2.cells()]
        {
            &&& s1.cells() == crate::sheet_functions::ensure_cell(
                crate::sheet_functions::ensure_cell(s0.cells(), r1 as int, c1 as int),
                r2 as int,
                c2 as int,
            )
            &&& s1.buul == s0.buul
            &&& s1.tuup == s0.tuup
            &&& s1.rows == s0.rows
            &&& s1.cols == s0.cols
            &&& removal_post(s1, s1.buul@, t1, CellInfo { row: r1, col: c1 })
            &&& if r1 == r2 && c1 == c2 {
                t2 == t1
            } else {
                removal_post(t1, t1.buul@, t2, CellInfo { row: r2, col: c2 })
            }
            &&& mid == pair_linked(
                t2.cells().insert(spec_data_key(r1 as int, c1 as int) as i32, p1).insert(
                    spec_data_key(r2 as int, c2 as int) as i32,
                    p2,
                ),
                r1,
                c1,
                r2,
                c2,
            )
        }
}

/// Every range formula stored in `s`, but under keys `k1` and `k2`, reads a
/// rectangle that fits.
pub open spec fn settled_but(s: Sheet, k1: i32, k2: i32) -> bool {
    forall|q: i32|
        #![trigger s.data@[q]]
        s.data@.contains_key(q) && q != k1 && q != k2 && crate::calculate_functions::is_range_op(
            s.data@[q].op_code,
        ) ==> s.rect_fits(
            s.data@[q].cell1.row as int,
            s.data@[q].cell1.col as int,
            s.data@[q].cell2.row as int,
            s.data@[q].cell2.col as int,
        )
}

/// The removal steps of `restore_pair`: stores default cells where needed,
/// copies both cells and removes their formulas' dependencies (once, when
/// both are the same cell).
fn take_pair(sheet: &mut Sheet, row1: i16, col1: i16, row2: i16, col2: i16) -> (res: (Cell, Cell))
    requires
        sheet_ok(*old(sheet)),
        old(sheet).valid_pos(row1 as int, col1 as int),
        old(sheet).valid_pos(row2 as int, col2 as int),
    ensures
        final(sheet).wf(),
        settled_but(
            *final(sheet),
            spec_data_key(row1 as int, col1 as int) as i32,
            spec_data_key(row2 as int, col2 as int) as i32,
        ),
        final(sheet).rows == old(sheet).rows,
        final(sheet).cols == old(sheet).cols,
        forall|q: i32| old(sheet).data@.contains_key(q) ==> final(sheet).data@.contains_key(q),
        final(sheet).data@.contains_key(spec_data_key(row1 as int, col1 as int) as i32),
        final(sheet).data@.contains_key(spec_data_key(row2 as int, col2 as int) as i32),
        res.0@ == old(sheet).cell_at(row1 as int, col1 as int),
        res.1@ == old(sheet).cell_at(row2 as int, col2 as int),
        exists|s1: Sheet, t1: Sheet|
            #![trigger removal_post(s1, s1.buul@, t1, CellInfo { row: row1, col: col1 })]
            {
                &&& s1.cells() == crate::sheet_functions::ensure_cell(
                    crate::sheet_functions::ensure_cell(old(sheet).cells(), row1 as int, col1 as int),
                    row2 as int,
                    col2 as int,
                )
                &&& s1.buul == old(sheet).buul
                &&& s1.tuup == old(sheet).tuup
                &&& s1.rows == old(sheet).rows
                &&& s1.cols == old(sheet).cols
                &&& removal_post(s1, s1.buul@, t1, CellInfo { row: row1, col: col1 })
                &&& if row1 == row2 && col1 == col2 {
                    *final(sheet) == t1
                } else {
                    removal_post(t1, t1.buul@, *final(sheet), CellInfo { row: row2, col: col2 })
                }
            },
{
    let ghost s0 = *sheet;
    let ghost k1 = spec_data_key(row1 as int, col1 as int) as i32;
    let ghost k2 = spec_data_key(row2 as int, col2 as int) as i32;
    let curr1 = stored_copy(sheet, row1, col1);
    let curr2 = stored_copy(sheet, row2, col2);
    let ghost s1 = *sheet;
    proof {
        assert(s1.data@.contains_key(k1));
        assert(s1.data@.contains_key(k2));
    }
    let cell1 = CellInfo { row: row1, col: col1 };
    let cell2 = CellInfo { row: row2, col: col2 };
    remove_dependency(&cell1, sheet);
    let ghost t1 = *sheet;
    proof {
        lemma_removal_frame(s1, s1.buul@, t1, cell1);
        assert(t1.cells().dom() =~= t1.data@.dom());
        assert(s1.cells().dom() =~= s1.data@.dom());
        assert(t1.data@.contains_key(k1));
    }
    // When both positions are the same cell, its references were cleared by
    // the first removal, so there is nothing left to remove.
    let same = row1 == row2 && col1 == col2;
    if !same {
        proof {
            assert(t1.cells().contains_key(k2));
            assert(s1.cells().contains_key(k2));
        }
        remove_dependency(&cell2, sheet);
    }
    proof {
        let t2 = *sheet;
        if !same {
            lemma_removal_frame(t1, t1.buul@, t2, cell2);
        }
        assert(t2.cells().dom() =~= t2.data@.dom());
        assert forall|q: i32| s0.data@.contains_key(q) implies t2.data@.contains_key(q) by {
            assert(s1.cells().contains_key(q));
            assert(t1.cells().contains_key(q));
            assert(t2.cells().contains_key(q));
        }
        assert(t2.cells().contains_key(k1));
        assert(t2.cells().contains_key(k2));
        assert forall|q: i32|
            #![trigger t2.data@[q]]
            t2.data@.contains_key(q) && q != k1 && q != k2 && crate::calculate_functions::is_range_op(
                t2.data@[q].op_code,
            ) implies t2.rect_fits(
            t2.data@[q].cell1.row as int,
            t2.data@[q].cell1.col as int,
            t2.data@[q].cell2.row as int,
            t2.data@[q].cell2.col as int,
        ) by {
            assert(t2.cells().contains_key(q));
            assert(t2.cells()[q] == t2.data@[q]@);
            assert(t1.cells().contains_key(q));
            assert(s1.cells().contains_key(q));
            assert(s1.data@.contains_key(q));
            assert(s1.cells()[q] == s1.data@[q]@);
        }
    }
    (curr1, curr2)
}

/// Adds `d` to the dependents of the cells that a cell `v` with references
/// `c1`, `c2` and op code `op` refers to (see `linked_back`).
fn link_back(sheet: &mut Sheet, c1: CellInfo, c2: CellInfo, op: OpCode, d: i32, Ghost(v): Ghost<CellView>)
    requires
        sheet_ok(*old(sheet)),
        old(sheet).node_stored(d as int),
        v.cell1 == c1,
        v.cell2 == c2,
        v.op_code == op,
    ensures
        sheet_ok(*final(sheet)),
        final(sheet).cells() == linked_back(old(sheet).cells(), v, d),
        final(sheet).rows == old(sheet).rows,
        final(sheet).cols == old(sheet).cols,
        forall|q: i32| old(sheet).data@.contains_key(q) ==> final(sheet).data@.contains_key(q),
{
    let ghost s0 = *sheet;
    if c1.row != -1 && c1.col != -1 {
        add_dependent(sheet, c1, d);
    }
    if c2.row != -1 && c2.col != -1 && second_ref_is_cell(op) {
        add_dependent(sheet, c2, d);
    }
    proof {
        let s1 = *sheet;
        assert(s1.cells().dom() =~= s1.data@.dom());
        assert(s0.cells().dom() =~= s0.data@.dom());
        crate::sheet_functions::lemma_settled_kept(s0, s1);
    }
}

/// Stores `prev1` at `(row1, col1)` and then `prev2` at `(row2, col2)`.
fn put_both(sheet: &mut Sheet, row1: i16, col1: i16, prev1: Cell, row2: i16, col2: i16, prev2: Cell)
    requires
        old(sheet).wf(),
        settled_but(
            *old(sheet),
            spec_data_key(row1 as int, col1 as int) as i32,
            spec_data_key(row2 as int, col2 as int) as i32,
        ),
        old(sheet).valid_pos(row1 as int, col1 as int),
        old(sheet).valid_pos(row2 as int, col2 as int),
        cell_fits(*old(sheet), prev1@),
        cell_fits(*old(sheet), prev2@),
        old(sheet).data@.contains_key(spec_data_key(row1 as int, col1 as int) as i32),
        old(sheet).data@.contains_key(spec_data_key(row2 as int, col2 as int) as i32),
        crate::calculate_functions::is_range_op(prev1@.op_code) ==> old(sheet).rect_fits(
            prev1@.cell1.row as int,
            prev1@.cell1.col as int,
            prev1@.cell2.row as int,
            prev1@.cell2.col as int,
        ),
        crate::calculate_functions::is_range_op(prev2@.op_code) ==> old(sheet).rect_fits(
            prev2@.cell1.row as int,
            prev2@.cell1.col as int,
            prev2@.cell2.row as int,
            prev2@.cell2.col as int,
        ),
    ensures
        sheet_ok(*final(sheet)),
        final(sheet).rows == old(sheet).rows,
        final(sheet).cols == old(sheet).cols,
        forall|q: i32| old(sheet).data@.contains_key(q) ==> final(sheet).data@.contains_key(q),
        final(sheet).cells() == old(sheet).cells().insert(spec_data_key(row1 as int, col1 as int) as i32, prev1@).insert(
            spec_data_key(row2 as int, col2 as int) as i32,
            prev2@,
        ),
{
    let ghost t2 = *sheet;
    let ghost k1 = spec_data_key(row1 as int, col1 as int) as i32;
    let ghost k2 = spec_data_key(row2 as int, col2 as int) as i32;
    let same = row1 == row2 && col1 == col2;
    put_cell(sheet, row1, col1, prev1);
    proof {
        let t3 = *sheet;
        assert forall|d: i32| #[trigger] prev2@.dependencies.contains(d) implies t3.valid_node(d as int)
            && t3.data@.contains_key(spec_data_key(d as int % 1000, d as int / 1000) as i32) by {
            assert(t2.data@.contains_key(spec_data_key(d as int % 1000, d as int / 1000) as i32));
        }
    }
    put_cell(sheet, row2, col2, prev2);
    let ghost s3 = *sheet;
    proof {
        assert(s3.cells() == t2.cells().insert(k1, prev1@).insert(k2, prev2@));
        assert(s3.data@.dom() =~= s3.cells().dom());
        assert forall|q: i32|
            #![trigger s3.data@[q]]
            s3.data@.contains_key(q) && crate::calculate_functions::is_range_op(s3.data@[q].op_code) implies s3.rect_fits(
            s3.data@[q].cell1.row as int,
            s3.data@[q].cell1.col as int,
            s3.data@[q].cell2.row as int,
            s3.data@[q].cell2.col as int,
        ) by {
            assert(s3.cells().contains_key(q));
            assert(s3.cells()[q] == s3.data@[q]@);
            if q != k1 && q != k2 {
                assert(t2.cells().contains_key(q));
                assert(t2.cells()[q] == t2.data@[q]@);
            }
        }
        assert(s3.settled());
        assert(s3.cells()[k1] == (if same { prev2@ } else { prev1@ }));
    }
}

/// The storing steps of `restore_pair`: stores `prev1` and then `prev2`, and
/// adds each cell back to the dependents of the cells it now refers to.
#[verifier::spinoff_prover]
#[verifier::rlimit(50)]
fn put_pair(sheet: &mut Sheet, row1: i16, col1: i16, prev1: Cell, row2: i16, col2: i16, prev2: Cell)
    requires
        old(sheet).wf(),
        settled_but(
            *old(sheet),
            spec_data_key(row1 as int, col1 as int) as i32,
            spec_data_key(row2 as int, col2 as int) as i32,
        ),
        old(sheet).valid_pos(row1 as int, col1 as int),
        old(sheet).valid_pos(row2 as int, col2 as int),
        cell_fits(*old(sheet), prev1@),
        cell_fits(*old(sheet), prev2@),
        old(sheet).data@.contains_key(spec_data_key(row1 as int, col1 as int) as i32),
        old(sheet).data@.contains_key(spec_data_key(row2 as int, col2 as int) as i32),
        crate::calculate_functions::is_range_op(prev1@.op_code) ==> old(sheet).rect_fits(
            prev1@.cell1.row as int,
            prev1@.cell1.col as int,
            prev1@.cell2.row as int,
            prev1@.cell2.col as int,
        ),
        crate::calculate_functions::is_range_op(prev2@.op_code) ==> old(sheet).rect_fits(
            prev2@.cell1.row as int,
            prev2@.cell1.col as int,
            prev2@.cell2.row as int,
            prev2@.cell2.col as int,
        ),
    ensures
        sheet_ok(*final(sheet)),
        final(sheet).rows == old(sheet).rows,
        final(sheet).cols == old(sheet).cols,
        forall|q: i32| old(sheet).data@.contains_key(q) ==> final(sheet).data@.contains_key(q),
        final(sheet).cells() == pair_linked(
            old(sheet).cells().insert(spec_data_key(row1 as int, col1 as int) as i32, prev1@).insert(
                spec_data_key(row2 as int, col2 as int) as i32,
                prev2@,
            ),
            row1,
            col1,
            row2,
            col2,
        ),
{
    let ghost t2 = *sheet;
    let ghost k1 = spec_data_key(row1 as int, col1 as int) as i32;
    let ghost k2 = spec_data_key(row2 as int, col2 as int) as i32;
    proof {
        lemma_dep_key_decode(row1 as int, col1 as int);
        lemma_dep_key_decode(row2 as int, col2 as int);
    }
    let same = row1 == row2 && col1 == col2;
    let a1 = if same { prev2.cell1 } else { prev1.cell1 };
    let a2 = if same { prev2.cell2 } else { prev1.cell2 };
    let b1 = prev2.cell1;
    let b2 = prev2.cell2;
    let a_op = if same { prev2.op_code } else { prev1.op_code };
    let prev2_op = prev2.op_code;
    put_both(sheet, row1, col1, prev1, row2, col2, prev2);
    let ghost s3 = *sheet;
    proof {
        assert(s3.cells().contains_key(k1));
        assert(s3.cells().contains_key(k2));
        assert(s3.cells()[k1] == (if same { prev2@ } else { prev1@ }));
        assert(s3.cells()[k2] == prev2@);
        assert(s3.data@.contains_key(k1));
    }
    let key1 = col1 as i32 * 1000 + row1 as i32;
    let key2 = col2 as i32 * 1000 + row2 as i32;
    link_back(sheet, a1, a2, a_op, key1, Ghost(s3.cells()[k1]));
    proof {
        assert(sheet.data@.contains_key(k2));
    }
    link_back(sheet, b1, b2, prev2_op, key2, Ghost(s3.cells()[k2]));
    proof {
        let s4 = *sheet;
        assert(s4.cells() == pair_linked(s3.cells(), row1, col1, row2, col2));
    }
}

/// Puts `prev1` back at `(row1, col1)` and `prev2` at `(row2, col2)`: both
/// cells' formulas' dependencies are removed, `prev1` and then `prev2` are
/// stored, each cell is added back to the dependents of the cells it now
/// refers to, and the dependents of the first and then of the second cell
/// are recalculated. Returns the cells that were there (default cells where
/// none was).
fn restore_pair(sheet: &mut Sheet, row1: i16, col1: i16, prev1: Cell, row2: i16, col2: i16, prev2: Cell) -> (res: (
    Cell,
    Cell,
))
    requires
        sheet_ok(*old(sheet)),
        old(sheet).valid_pos(row1 as int, col1 as int),
        old(sheet).valid_pos(row2 as int, col2 as int),
        cell_fits(*old(sheet), prev1@),
        cell_fits(*old(sheet), prev2@),
    ensures
        sheet_ok(*final(sheet)),
        final(sheet).rows == old(sheet).rows,
        final(sheet).cols == old(sheet).cols,
        forall|q: i32| old(sheet).data@.contains_key(q) ==> final(sheet).data@.contains_key(q),
        res.0@ == old(sheet).cell_at(row1 as int, col1 as int),
        res.1@ == old(sheet).cell_at(row2 as int, col2 as int),
        cell_fits(*final(sheet), res.0@),
        cell_fits(*final(sheet), res.1@),
        exists|m1: Sheet, m2: Sheet|
            #![trigger pair_restored(*old(sheet), m1.cells(), row1, col1, prev1@, row2, col2, prev2@), m2.cells()]
            pair_restored(*old(sheet), m1.cells(), row1, col1, prev1@, row2, col2, prev2@) && recalculated_only(
                m1,
                dep_key(row1 as int, col1 as int),
                m1.cells(),
                m2.cells(),
            ) && recalculated_only(m2, dep_key(row2 as int, col2 as int), m2.cells(), final(sheet).cells())
                && dependents_hold(m2, dep_key(row2 as int, col2 as int), final(sheet).cells()),
{
    let ghost s0 = *sheet;
    let ghost k1 = spec_data_key(row1 as int, col1 as int) as i32;
    let ghost k2 = spec_data_key(row2 as int, col2 as int) as i32;
    let (curr1, curr2) = take_pair(sheet, row1, col1, row2, col2);
    let ghost t2 = *sheet;
    proof {
        lemma_fits_grow(s0, t2, prev1@);
        lemma_fits_grow(s0, t2, prev2@);
        lemma_fits_grow(s0, t2, curr1@);
        lemma_fits_grow(s0, t2, curr2@);
    }
    put_pair(sheet, row1, col1, prev1, row2, col2, prev2);
    let ghost s4 = *sheet;
    proof {
        assert(pair_restored(s0, s4.cells(), row1, col1, prev1@, row2, col2, prev2@));
        assert(s4.cells().contains_key(k1));
        assert(s4.data@.dom() =~= s4.cells().dom());
    }
    recalculate_dependecy(CellInfo { row: row1, col: col1 }, sheet);
    let ghost s5 = *sheet;
    proof {
        crate::sheet_functions::lemma_settled_kept(s4, s5);
        assert(s4.cells().contains_key(k2));
        assert(s5.cells().contains_key(k2));
        assert(s5.data@.dom() =~= s5.cells().dom());
    }
    recalculate_dependecy(CellInfo { row: row2, col: col2 }, sheet);
    proof {
        let s6 = *sheet;
        crate::sheet_functions::lemma_settled_kept(s5, s6);
        assert forall|q: i32| s0.data@.contains_key(q) implies s6.data@.contains_key(q) by {
            assert(s4.cells().contains_key(q));
            assert(s5.cells().contains_key(q));
            assert(s6.cells().contains_key(q));
        }
        lemma_fits_grow(s0, s6, curr1@);
        lemma_fits_grow(s0, s6, curr2@);
    }
    (curr1, curr2)
}


/// Replacing sheet `i` by a sheet that can be worked on, of the same size and
/// keeping its stored cells, keeps the editor's invariant, when every
/// recorded edit fits the old or the new sheets.
proof fn lemma_replaced_wf(e0: Editor, e1: Editor, i: int)
    requires
        e0.wf(),
        0 <= i < e0.sheets@.len(),
        e1.sheets@.len() == e0.sheets@.len(),
        forall|j: int| 0 <= j < e0.sheets@.len() && j != i ==> e1.sheets@[j] == e0.sheets@[j],
        sheet_ok(e1.sheets@[i].sheet),
        e1.sheets@[i].sheet.rows == e0.sheets@[i].sheet.rows,
        e1.sheets@[i].sheet.cols == e0.sheets@[i].sheet.cols,
        forall|q: i32| e0.sheets@[i].sheet.data@.contains_key(q) ==> e1.sheets@[i].sheet.data@.contains_key(q),
        e1.current_sheet_index == e0.current_sheet_index,
        e1.selected_cell == e0.selected_cell,
        e1.clipboard == e0.clipboard,
        forall|k: int|
            0 <= k < e1.undo_stack@.len() ==> action_fits(#[trigger] e1.undo_stack@[k], e0.sheets@)
                || action_fits(e1.undo_stack@[k], e1.sheets@),
        forall|k: int|
            0 <= k < e1.redo_stack@.len() ==> action_fits(#[trigger] e1.redo_stack@[k], e0.sheets@)
                || action_fits(e1.redo_stack@[k], e1.sheets@),
    ensures
        e1.wf(),
{
    assert forall|j: int| 0 <= j < e1.sheets@.len() implies sheet_ok(#[trigger] e1.sheets@[j].sheet) by {
        if j != i {
            assert(sheet_ok(e0.sheets@[j].sheet));
        }
    }
    assert forall|k: int| 0 <= k < e1.undo_stack@.len() implies action_fits(
        #[trigger] e1.undo_stack@[k],
        e1.sheets@,
    ) by {
        if action_fits(e1.undo_stack@[k], e0.sheets@) {
            lemma_actions_kept(e1.undo_stack@[k], e0.sheets@, e1.sheets@, i);
        }
    }
    assert forall|k: int| 0 <= k < e1.redo_stack@.len() implies action_fits(
        #[trigger] e1.redo_stack@[k],
        e1.sheets@,
    ) by {
        if action_fits(e1.redo_stack@[k], e0.sheets@) {
            lemma_actions_kept(e1.redo_stack@[k], e0.sheets@, e1.sheets@, i);
        }
    }
}

/// `new` is `old` with sheet `i` replaced by one of the same name.
pub open spec fn sheet_replaced(old: Seq<Sheets>, new: Seq<Sheets>, i: int) -> bool {
    &&& new.len() == old.len()
    &&& forall|j: int| 0 <= j < old.len() && j != i ==> new[j] == old[j]
    &&& new[i].name == old[i].name
}

/// `new` is `old` with one more entry at the end.
pub open spec fn pushed_one(old: Seq<Action>, new: Seq<Action>) -> bool {
    new.len() == old.len() + 1 && new.drop_last() == old
}

/// `a` records that the cell at `(row, col)` of sheet `sheet_index` held `prev`.
pub open spec fn inserted_record(a: Action, sheet_index: usize, row: i16, col: i16, prev: CellView) -> bool {
    a matches Action::Inserted { sheet_index: si, row: r, col: c, previous_cell }
        && si == sheet_index && r == row && c == col && previous_cell@ == prev
}

/// `a` records that the cells at `(row1, col1)` and `(row2, col2)` of sheet
/// `sheet_index` held `prev1` and `prev2`.
pub open spec fn cut_record(
    a: Action,
    sheet_index: usize,
    row1: i16,
    col1: i16,
    prev1: CellView,
    row2: i16,
    col2: i16,
    prev2: CellView,
) -> bool {
    a matches Action::CutAction { sheet_index: si, row1: r1, col1: c1, previous_cell1, row2: r2, col2: c2, previous_cell2 }
        && si == sheet_index && r1 == row1 && c1 == col1 && previous_cell1@ == prev1 && r2 == row2 && c2 == col2
        && previous_cell2@ == prev2
}

/// Undoes (`redo` false) or redoes (`redo` true) the edit of one cell: puts
/// `previous_cell` back at `(row, col)` of sheet `sheet_index` (removing the
/// dependencies of the formula there, adding the cell back to the dependents
/// of the cells `previous_cell` refers to, and recalculating the cell's
/// dependents), and records the cell that was there on the redo history (or,
/// when redoing, on the undo history).
pub fn insert_undo_redo(sheet_index: usize, row: i16, col: i16, previous_cell: Cell, app: &mut Editor, redo: bool)
    requires
        old(app).wf(),
        sheet_index < old(app).sheets@.len(),
        old(app).sheets@[sheet_index as int].sheet.valid_pos(row as int, col as int),
        cell_fits(old(app).sheets@[sheet_index as int].sheet, previous_cell@),
    ensures
        final(app).wf(),
        sheet_replaced(old(app).sheets@, final(app).sheets@, sheet_index as int),
        final(app).sheets@[sheet_index as int].sheet.cells()[spec_data_key(row as int, col as int) as i32]
            == previous_cell@,
        exists|m: Sheet|
            #[trigger] restored(old(app).sheets@[sheet_index as int].sheet, m.cells(), row, col, previous_cell@)
                && recalculated_only(
                m,
                dep_key(row as int, col as int),
                m.cells(),
                final(app).sheets@[sheet_index as int].sheet.cells(),
            ) && dependents_hold(m, dep_key(row as int, col as int), final(app).sheets@[sheet_index as int].sheet.cells()),
        if redo {
            &&& pushed_one(old(app).undo_stack@, final(app).undo_stack@)
            &&& inserted_record(
                final(app).undo_stack@.last(),
                sheet_index,
                row,
                col,
                old(app).sheets@[sheet_index as int].sheet.cell_at(row as int, col as int),
            )
            &&& final(app).redo_stack@ == old(app).redo_stack@
        } else {
            &&& pushed_one(old(app).redo_stack@, final(app).redo_stack@)
            &&& inserted_record(
                final(app).redo_stack@.last(),
                sheet_index,
                row,
                col,
                old(app).sheets@[sheet_index as int].sheet.cell_at(row as int, col as int),
            )
            &&& final(app).undo_stack@ == old(app).undo_stack@
        },
        final(app).current_sheet_index == old(app).current_sheet_index,
        final(app).status == old(app).status,
        final(app).selected_cell == old(app).selected_cell,
        final(app).clipboard == old(app).clipboard,
        final(app).cut_copied_cell == old(app).cut_copied_cell,
{
    let ghost e0 = *app;
    let mut sh = app.sheets.remove(sheet_index);
    let curr = restore_cell(&mut sh.sheet, row, col, previous_cell);
    app.sheets.insert(sheet_index, sh);
    proof {
        assert(app.sheets@ =~= e0.sheets@.update(sheet_index as int, app.sheets@[sheet_index as int]));
    }
    let action = Action::Inserted { sheet_index, row, col, previous_cell: curr };
    if redo {
        app.undo_stack.push(action);
    } else {
        app.redo_stack.push(action);
    }
    proof {
        let e1 = *app;
        assert(action_fits(action, e1.sheets@));
        assert forall|k: int| 0 <= k < e1.undo_stack@.len() implies action_fits(
            #[trigger] e1.undo_stack@[k],
            e0.sheets@,
        ) || action_fits(e1.undo_stack@[k], e1.sheets@) by {
            if k < e0.undo_stack@.len() {
                assert(e1.undo_stack@[k] == e0.undo_stack@[k]);
            }
        }
        assert forall|k: int| 0 <= k < e1.redo_stack@.len() implies action_fits(
            #[trigger] e1.redo_stack@[k],
            e0.sheets@,
        ) || action_fits(e1.redo_stack@[k], e1.sheets@) by {
            if k < e0.redo_stack@.len() {
                assert(e1.redo_stack@[k] == e0.redo_stack@[k]);
            }
        }
        lemma_replaced_wf(e0, e1, sheet_index as int);
        assert(e1.undo_stack@.drop_last() =~= e0.undo_stack@ || !redo);
        assert(e1.redo_stack@.drop_last() =~= e0.redo_stack@ || redo);
    }
}

/// Undoes (`redo` false) or redoes (`redo` true) a cut and paste: puts
/// `previous_cell1` back at `(row1, col1)` and `previous_cell2` at
/// `(row2, col2)` of sheet `sheet_index` (removing the dependencies of the
/// formulas there, adding each cell back to the dependents of the cells it
/// now refers to, and recalculating the dependents of both cells), and
/// records the cells that were there on the redo history (or, when redoing,
/// on the undo history).
pub fn cut_undo_redo(
    sheet_index: usize,
    row1: i16,
    col1: i16,
    previous_cell1: Cell,
    row2: i16,
    col2: i16,
    previous_cell2: Cell,
    app: &mut Editor,
    redo: bool,
)
    requires
        old(app).wf(),
        sheet_index < old(app).sheets@.len(),
        old(app).sheets@[sheet_index as int].sheet.valid_pos(row1 as int, col1 as int),
        old(app).sheets@[sheet_index as int].sheet.valid_pos(row2 as int, col2 as int),
        cell_fits(old(app).sheets@[sheet_index as int].sheet, previous_cell1@),
        cell_fits(old(app).sheets@[sheet_index as int].sheet, previous_cell2@),
    ensures
        final(app).wf(),
        sheet_replaced(old(app).sheets@, final(app).sheets@, sheet_index as int),
        exists|m1: Sheet, m2: Sheet|
            #![trigger pair_restored(old(app).sheets@[sheet_index as int].sheet, m1.cells(), row1, col1, previous_cell1@, row2, col2, previous_cell2@), m2.cells()]
            pair_restored(
                old(app).sheets@[sheet_index as int].sheet,
                m1.cells(),
                row1,
                col1,
                previous_cell1@,
                row2,
                col2,
                previous_cell2@,
            ) && recalculated_only(m1, dep_key(row1 as int, col1 as int), m1.cells(), m2.cells())
                && recalculated_only(
                m2,
                dep_key(row2 as int, col2 as int),
                m2.cells(),
                final(app).sheets@[sheet_index as int].sheet.cells(),
            ) && dependents_hold(m2, dep_key(row2 as int, col2 as int), final(app).sheets@[sheet_index as int].sheet.cells()),
        if redo {
            &&& pushed_one(old(app).undo_stack@, final(app).undo_stack@)
            &&& cut_record(
                final(app).undo_stack@.last(),
                sheet_index,
                row1,
                col1,
                old(app).sheets@[sheet_index as int].sheet.cell_at(row1 as int, col1 as int),
                row2,
                col2,
                old(app).sheets@[sheet_index as int].sheet.cell_at(row2 as int, col2 as int),
            )
            &&& final(app).redo_stack@ == old(app).redo_stack@
        } else {
            &&& pushed_one(old(app).redo_stack@, final(app).redo_stack@)
            &&& cut_record(
                final(app).redo_stack@.last(),
                sheet_index,
                row1,
                col1,
                old(app).sheets@[sheet_index as int].sheet.cell_at(row1 as int, col1 as int),
                row2,
                col2,
                old(app).sheets@[sheet_index as int].sheet.cell_at(row2 as int, col2 as int),
            )
            &&& final(app).undo_stack@ == old(app).undo_stack@
        },
        final(app).current_sheet_index == old(app).current_sheet_index,
        final(app).status == old(app).status,
        final(app).selected_cell == old(app).selected_cell,
        final(app).clipboard == old(app).clipboard,
        final(app).cut_copied_cell == old(app).cut_copied_cell,
{
    let ghost e0 = *app;
    let mut sh = app.sheets.remove(sheet_index);
    let (curr1, curr2) = restore_pair(&mut sh.sheet, row1, col1, previous_cell1, row2, col2, previous_cell2);
    app.sheets.insert(sheet_index, sh);
    proof {
        assert(app.sheets@ =~= e0.sheets@.update(sheet_index as int, app.sheets@[sheet_index as int]));
    }
    let action = Action::CutAction {
        sheet_index,
        row1,
        col1,
        previous_cell1: curr1,
        row2,
        col2,
        previous_cell2: curr2,
    };
    if redo {
        app.undo_stack.push(action);
    } else {
        app.redo_stack.push(action);
    }
    proof {
        let e1 = *app;
        assert(action_fits(action, e1.sheets@));
        assert forall|k: int| 0 <= k < e1.undo_stack@.len() implies action_fits(
            #[trigger] e1.undo_stack@[k],
            e0.sheets@,
        ) || action_fits(e1.undo_stack@[k], e1.sheets@) by {
            if k < e0.undo_stack@.len() {
                assert(e1.undo_stack@[k] == e0.undo_stack@[k]);
            }
        }
        assert forall|k: int| 0 <= k < e1.redo_stack@.len() implies action_fits(
            #[trigger] e1.redo_stack@[k],
            e0.sheets@,
        ) || action_fits(e1.redo_stack@[k], e1.sheets@) by {
            if k < e0.redo_stack@.len() {
                assert(e1.redo_stack@[k] == e0.redo_stack@[k]);
            }
        }
        lemma_replaced_wf(e0, e1, sheet_index as int);
        assert(e1.undo_stack@.drop_last() =~= e0.undo_stack@ || !redo);
        assert(e1.redo_stack@.drop_last() =~= e0.redo_stack@ || redo);
    }
}


/// A sheet that, but for the cell under `k`, has every range formula read a
/// rectangle that fits, keeps that when every cell other than `k` keeps its
/// formula and references or is not a range formula.
proof fn lemma_settled_but_kept(s: Sheet, t: Sheet, k: i32)
    requires
        settled_but(s, k, k),
        t.rows == s.rows,
        t.cols == s.cols,
        forall|q: i32|
            #[trigger] t.cells().contains_key(q) && q != k ==> (s.cells().contains_key(q) && t.cells()[q].op_code
                == s.cells()[q].op_code && t.cells()[q].cell1 == s.cells()[q].cell1 && t.cells()[q].cell2
                == s.cells()[q].cell2) || !crate::calculate_functions::is_range_op(t.cells()[q].op_code),
    ensures
        settled_but(t, k, k),
{
    assert forall|q: i32|
        #![trigger t.data@[q]]
        t.data@.contains_key(q) && q != k && crate::calculate_functions::is_range_op(t.data@[q].op_code) implies t.rect_fits(
        t.data@[q].cell1.row as int,
        t.data@[q].cell1.col as int,
        t.data@[q].cell2.row as int,
        t.data@[q].cell2.col as int,
    ) by {
        assert(t.cells().contains_key(q));
        assert(t.cells()[q] == t.data@[q]@);
        if s.cells().contains_key(q) {
            assert(s.data@.contains_key(q));
            assert(s.cells()[q] == s.data@[q]@);
        }
    }
}

/// Marks the cell at `(r, c)` (a default cell first, if none is stored) as
/// an error with value 0, no string and no formula, and removes its (now
/// empty) formula's dependencies.
fn error_out(sheet: &mut Sheet, r: i16, c: i16, Ghost(k): Ghost<i32>)
    requires
        old(sheet).wf(),
        settled_but(*old(sheet), k, k),
    ensures
        final(sheet).wf(),
        settled_but(*final(sheet), k, k),
        final(sheet).rows == old(sheet).rows,
        final(sheet).cols == old(sheet).cols,
        final(sheet).data@.dom() == old(sheet).data@.dom().insert(spec_data_key(r as int, c as int) as i32),
        final(sheet).cells()[spec_data_key(r as int, c as int) as i32] == (CellView {
            value: 0,
            is_error: true,
            string: None,
            op_code: OpCode::NoConstraint,
            cell1: no_cell(),
            cell2: no_cell(),
            ..old(sheet).cell_at(r as int, c as int)
        }),
        forall|q: i32|
            q != spec_data_key(r as int, c as int) as i32 && #[trigger] old(sheet).cells().contains_key(q)
                ==> final(sheet).cells()[q] == old(sheet).cells()[q],
{
    let ghost s0 = *sheet;
    let ghost kk = spec_data_key(r as int, c as int) as i32;
    let cell = get_or_create_cell(sheet, r as i32, c as i32);
    cell.value = 0;
    cell.is_error = true;
    cell.string = None;
    cell.op_code = OpCode::NoConstraint;
    cell.cell1 = CellInfo { row: -1, col: -1 };
    cell.cell2 = CellInfo { row: -1, col: -1 };
    let ghost s1 = *sheet;
    proof {
        assert forall|q: i32| #[trigger] s1.data@.contains_key(q) implies cell_fits(s0, s1.data@[q]@) by {
            if q != kk {
                lemma_stored_fits(s0, q);
            } else if s0.data@.contains_key(kk) {
                lemma_stored_fits(s0, kk);
            }
        }
        lemma_fitting_wf(s0, s1);
        assert(s1.cells() =~= s0.cells().insert(kk, s1.data@[kk]@));
        lemma_settled_but_kept(s0, s1, k);
    }
    remove_dependency(&CellInfo { row: r, col: c }, sheet);
    proof {
        let s2 = *sheet;
        assert(s2.cells() == s1.cells());
        assert(s2.cells().dom() =~= s2.data@.dom());
        assert(s1.cells().dom() =~= s1.data@.dom());
        lemma_settled_but_kept(s1, s2, k);
    }
}

/// Every cell of `m0` is in `m1` with the same content, but for its
/// dependents.
pub open spec fn contents_kept(m0: Map<i32, CellView>, m1: Map<i32, CellView>) -> bool {
    forall|q: i32|
        #[trigger] m0.contains_key(q) ==> m1.contains_key(q) && m1[q] == (CellView {
            dependencies: m1[q].dependencies,
            ..m0[q]
        })
}

proof fn lemma_kept_refl(m: Map<i32, CellView>)
    ensures
        contents_kept(m, m),
{
}

proof fn lemma_kept_trans(a: Map<i32, CellView>, b: Map<i32, CellView>, c: Map<i32, CellView>)
    requires
        contents_kept(a, b),
        contents_kept(b, c),
    ensures
        contents_kept(a, c),
{
    assert forall|q: i32| #[trigger] a.contains_key(q) implies c.contains_key(q) && c[q] == (CellView {
        dependencies: c[q].dependencies,
        ..a[q]
    }) by {
        assert(b.contains_key(q));
    }
}

proof fn lemma_kept_without(m: Map<i32, CellView>, p: CellInfo, d: i32)
    ensures
        contents_kept(m, crate::sheet_functions::without_dependent(m, p, d)),
{
}

proof fn lemma_kept_with(m: Map<i32, CellView>, p: CellInfo, d: i32)
    ensures
        contents_kept(m, crate::sheet_functions::with_dependent(m, p, d)),
{
}

/// Moves the dependent key `okey` to `nkey` in the dependents of the cells
/// `c1` and (when `link2`) `c2`, those naming a cell, storing default cells
/// there first where none is.
fn relink(sheet: &mut Sheet, c1: CellInfo, c2: CellInfo, link2: bool, okey: i32, nkey: i32)
    requires
        sheet_ok(*old(sheet)),
        old(sheet).node_stored(nkey as int),
    ensures
        sheet_ok(*final(sheet)),
        final(sheet).rows == old(sheet).rows,
        final(sheet).cols == old(sheet).cols,
        forall|q: i32| old(sheet).data@.contains_key(q) ==> final(sheet).data@.contains_key(q),
        forall|q: i32|
            #[trigger] final(sheet).cells().contains_key(q) ==> if old(sheet).cells().contains_key(q) {
                &&& final(sheet).cells()[q].op_code == old(sheet).cells()[q].op_code
                &&& final(sheet).cells()[q].cell1 == old(sheet).cells()[q].cell1
                &&& final(sheet).cells()[q].cell2 == old(sheet).cells()[q].cell2
            } else {
                !crate::calculate_functions::is_range_op(final(sheet).cells()[q].op_code)
            },
        contents_kept(old(sheet).cells(), final(sheet).cells()),
{
    let ghost s0 = *sheet;
    if c1.row != -1 && c1.col != -1 {
        let ghost a0 = *sheet;
        crate::sheet_functions::drop_dependent(sheet, c1, okey);
        let ghost a1 = *sheet;
        add_dependent(sheet, c1, nkey);
        proof {
            lemma_kept_without(a0.cells(), c1, okey);
            lemma_kept_with(a1.cells(), c1, nkey);
            lemma_kept_trans(a0.cells(), a1.cells(), sheet.cells());
        }
    }
    let ghost s_mid = *sheet;
    proof {
        if !(c1.row != -1 && c1.col != -1) {
            lemma_kept_refl(s0.cells());
        }
    }
    if c2.row != -1 && c2.col != -1 && link2 {
        let ghost a0 = *sheet;
        crate::sheet_functions::drop_dependent(sheet, c2, okey);
        let ghost a1 = *sheet;
        proof {
            assert(sheet.data@.contains_key(spec_data_key(nkey as int % 1000, nkey as int / 1000) as i32));
        }
        add_dependent(sheet, c2, nkey);
        proof {
            lemma_kept_without(a0.cells(), c2, okey);
            lemma_kept_with(a1.cells(), c2, nkey);
            lemma_kept_trans(a0.cells(), a1.cells(), sheet.cells());
            lemma_kept_trans(s0.cells(), s_mid.cells(), sheet.cells());
        }
    }
    proof {
        let s1 = *sheet;
        assert(s1.cells().dom() =~= s1.data@.dom());
        assert(s0.cells().dom() =~= s0.data@.dom());
        crate::sheet_functions::lemma_settled_kept(s0, s1);
    }
}

/// `m` with default cells stored at `(r1, c1)` and `(r2, c2)` where none is.
pub open spec fn both_stored(m: Map<i32, CellView>, r1: int, c1: int, r2: int, c2: int) -> Map<i32, CellView> {
    crate::sheet_functions::ensure_cell(crate::sheet_functions::ensure_cell(m, r1, c1), r2, c2)
}

/// `m` (with default cells stored at both positions) after `v` was pasted at
/// `(row, col)`, keeping the dependents of the cell that was there.
pub open spec fn copy_pasted(m: Map<i32, CellView>, orow: int, ocol: int, row: int, col: int, v: CellView) -> Map<
    i32,
    CellView,
> {
    let m1 = both_stored(m, orow, ocol, row, col);
    let k = spec_data_key(row, col) as i32;
    m1.insert(k, CellView { dependencies: m1[k].dependencies, ..v })
}

/// Pastes the copied cell `clip` at `(row, col)`: it replaces the cell
/// there, keeping that cell's dependents, which are then recalculated.
/// Returns the cell that was there (a default cell if none was).
fn paste_copy_sheet(sheet: &mut Sheet, orow: i16, ocol: i16, row: i16, col: i16, clip: &Cell) -> (prev: Cell)
    requires
        sheet_ok(*old(sheet)),
        old(sheet).valid_pos(orow as int, ocol as int),
        old(sheet).valid_pos(row as int, col as int),
        cell_fits(*old(sheet), clip@),
    ensures
        sheet_ok(*final(sheet)),
        final(sheet).rows == old(sheet).rows,
        final(sheet).cols == old(sheet).cols,
        forall|q: i32| old(sheet).data@.contains_key(q) ==> final(sheet).data@.contains_key(q),
        prev@ == old(sheet).cell_at(row as int, col as int),
        cell_fits(*final(sheet), prev@),
        exists|m: Sheet|
            #[trigger] m.cells() == copy_pasted(
                old(sheet).cells(),
                orow as int,
                ocol as int,
                row as int,
                col as int,
                clip@,
            ) && recalculated_only(m, dep_key(row as int, col as int), m.cells(), final(sheet).cells())
                && dependents_hold(m, dep_key(row as int, col as int), final(sheet).cells()),
{
    let ghost s0 = *sheet;
    let _source = stored_copy(sheet, orow, ocol);
    let prev = stored_copy(sheet, row, col);
    let ghost s1 = *sheet;
    let mut new_cell = copy_cell(clip);
    let deps = copy_cell(&prev);
    new_cell.dependencies = deps.dependencies;
    proof {
        lemma_fits_grow(s0, s1, clip@);
        assert(cell_fits(s1, new_cell@));
    }
    put_cell(sheet, row, col, new_cell);
    let ghost s2 = *sheet;
    proof {
        assert(s2.cells() =~= copy_pasted(s0.cells(), orow as int, ocol as int, row as int, col as int, clip@));
        assert(s2.data@.contains_key(spec_data_key(row as int, col as int) as i32));
    }
    crate::ui_sheet_functions::recalculate_dependecy(CellInfo { row, col }, sheet);
    proof {
        let s3 = *sheet;
        crate::sheet_functions::lemma_settled_kept(s2, s3);
        assert forall|q: i32| s1.data@.contains_key(q) implies s3.data@.contains_key(q) by {
            assert(s2.cells().contains_key(q));
            assert(s3.cells().contains_key(q));
        }
        lemma_fits_grow(s1, s3, prev@);
    }
    prev
}


/// `v` is cell `c` cleared by a cut: value 0, no error, no string, no
/// formula, and dependents among those of `c`.
pub open spec fn cut_cleared(v: CellView, c: CellView) -> bool {
    &&& v.value == 0
    &&& !v.is_error
    &&& v.string is None
    &&& v.op_code == OpCode::NoConstraint
    &&& v.cell1 == no_cell()
    &&& v.cell2 == no_cell()
    &&& v.dependencies.subset_of(c.dependencies)
}

/// `v` carries the formula and references of cell `c`, and dependents among
/// those of `c`.
pub open spec fn cut_moved(v: CellView, c: CellView) -> bool {
    &&& v.op_code == c.op_code
    &&& v.cell1 == c.cell1
    &&& v.cell2 == c.cell2
    &&& v.dependencies.subset_of(c.dependencies)
}

/// Whether the cell under `q` of `s` is a dependent of the cut cell `src`
/// whose references a cut and paste moves: it is neither the source `k1` nor
/// the target `k2`, holds no range function, and is listed among the
/// source's dependents.
pub open spec fn direct_dependent(s: Sheet, src: CellView, q: i32, k1: i32, k2: i32) -> bool {
    &&& q != k1
    &&& q != k2
    &&& !crate::calculate_functions::is_range_op(s.cells()[q].op_code)
    &&& exists|d: i32|
        #[trigger] src.dependencies.contains(d) && crate::sheet_functions::dependency_data_key(d as int) == q
}

/// Content `b` of a cell that held `a` before a cut cell moved from `from`
/// to `to`: the same formula; a range formula reads the same rectangle;
/// another formula keeps its value, error flag and string, and each of its
/// references stays or moves from `from` to `to`.
pub open spec fn kept_or_moved(a: CellView, b: CellView, from: CellInfo, to: CellInfo) -> bool {
    &&& b.op_code == a.op_code
    &&& if crate::calculate_functions::is_range_op(a.op_code) {
        b.cell1 == a.cell1 && b.cell2 == a.cell2
    } else {
        &&& b.value == a.value
        &&& b.is_error == a.is_error
        &&& b.string == a.string
        &&& (b.cell1 == a.cell1 || b.cell1 == crate::sheet_functions::redirected(a.cell1, from, to))
        &&& (b.cell2 == a.cell2 || b.cell2 == crate::sheet_functions::redirected(a.cell2, from, to))
    }
}

/// The first steps of pasting a cut cell from `(orow, ocol)` to `(row, col)`:
/// the cells that the cut cell reads get the target as dependent in place of
/// the source, the target's formula's dependencies are removed, the source
/// is cleared, its other dependents have their references moved to the
/// target, and the dependents of the target are updated. Returns the two
/// cells as they were and the cells to store at the source and the target.
fn paste_cut_prepare(sheet: &mut Sheet, orow: i16, ocol: i16, row: i16, col: i16) -> (res: (Cell, Cell, Cell, Cell))
    requires
        sheet_ok(*old(sheet)),
        old(sheet).valid_pos(orow as int, ocol as int),
        old(sheet).valid_pos(row as int, col as int),
    ensures
        final(sheet).wf(),
        settled_but(
            *final(sheet),
            spec_data_key(row as int, col as int) as i32,
            spec_data_key(row as int, col as int) as i32,
        ),
        final(sheet).rows == old(sheet).rows,
        final(sheet).cols == old(sheet).cols,
        forall|q: i32| old(sheet).data@.contains_key(q) ==> final(sheet).data@.contains_key(q),
        final(sheet).data@.contains_key(spec_data_key(orow as int, ocol as int) as i32),
        final(sheet).data@.contains_key(spec_data_key(row as int, col as int) as i32),
        res.0@ == old(sheet).cell_at(orow as int, ocol as int),
        res.1@ == old(sheet).cell_at(row as int, col as int),
        cut_cleared(res.2@, res.0@),
        cut_moved(res.3@, res.0@),
        res.3@ == (CellView { dependencies: res.3@.dependencies, ..res.0@ }),
        forall|q: i32|
            #[trigger] old(sheet).cells().contains_key(q) && direct_dependent(
                *old(sheet),
                res.0@,
                q,
                spec_data_key(orow as int, ocol as int) as i32,
                spec_data_key(row as int, col as int) as i32,
            ) ==> final(sheet).cells().contains_key(q) && final(sheet).cells()[q].op_code == old(
                sheet,
            ).cells()[q].op_code && final(sheet).cells()[q].cell1 == crate::sheet_functions::redirected(
                old(sheet).cells()[q].cell1,
                CellInfo { row: orow, col: ocol },
                CellInfo { row, col },
            ) && final(sheet).cells()[q].cell2 == crate::sheet_functions::redirected(
                old(sheet).cells()[q].cell2,
                CellInfo { row: orow, col: ocol },
                CellInfo { row, col },
            ),
        forall|q: i32|
            #[trigger] old(sheet).cells().contains_key(q) && q != spec_data_key(orow as int, ocol as int) as i32
                && q != spec_data_key(row as int, col as int) as i32 ==> final(sheet).cells().contains_key(q)
                && kept_or_moved(
                old(sheet).cells()[q],
                final(sheet).cells()[q],
                CellInfo { row: orow, col: ocol },
                CellInfo { row, col },
            ),
{
    let ghost s0 = *sheet;
    let ghost k1 = spec_data_key(orow as int, ocol as int) as i32;
    let ghost k2 = spec_data_key(row as int, col as int) as i32;
    let oc1 = stored_copy(sheet, orow, ocol);
    let oc2 = stored_copy(sheet, row, col);
    let ghost s1 = *sheet;
    let okey = ocol as i32 * 1000 + orow as i32;
    let nkey = col as i32 * 1000 + row as i32;
    proof {
        lemma_dep_key_decode(row as int, col as int);
        lemma_dep_key_decode(orow as int, ocol as int);
        assert(s1.data@.contains_key(k2));
    }
    relink(sheet, oc1.cell1, oc1.cell2, second_ref_is_cell(oc1.op_code), okey, nkey);
    let ghost s2 = *sheet;
    let target = CellInfo { row, col };
    proof {
        assert(s2.data@.contains_key(k2));
    }
    remove_dependency(&target, sheet);
    let ghost s3 = *sheet;
    proof {
        lemma_removal_frame(s2, s2.buul@, s3, target);
        assert(s3.cells().dom() =~= s3.data@.dom());
        assert(s2.cells().dom() =~= s2.data@.dom());
        assert(s3.data@.contains_key(k2));
        assert(s3.data@.contains_key(k1));
        lemma_settled_but_kept(s2, s3, k2);
    }
    let mut new_cell1 = copy_cell(&oc1);
    new_cell1.value = 0;
    new_cell1.string = None;
    new_cell1.is_error = false;
    new_cell1.op_code = OpCode::NoConstraint;
    new_cell1.cell1 = CellInfo { row: -1, col: -1 };
    new_cell1.cell2 = CellInfo { row: -1, col: -1 };
    proof {
        assert forall|d: i32| #[trigger] new_cell1@.dependencies.contains(d) implies s3.valid_node(d as int)
            && s3.data@.contains_key(spec_data_key(d as int % 1000, d as int / 1000) as i32) by {
            assert(oc1@.dependencies.contains(d));
            assert(s1.data@.contains_key(spec_data_key(d as int % 1000, d as int / 1000) as i32));
        }
    }
    let first = copy_cell(&new_cell1);
    put_cell(sheet, orow, ocol, first);
    let ghost s4 = *sheet;
    proof {
        assert(s4.cells().dom() =~= s4.data@.dom());
        lemma_settled_but_kept(s3, s4, k2);
    }
    crate::ui_sheet_functions::change_dependecy_set(&mut new_cell1, sheet, false, row, col, orow, ocol);
    let ghost s5 = *sheet;
    proof {
        lemma_settled_but_kept(s4, s5, k2);
    }
    let mut new_cell2 = copy_cell(&oc1);
    crate::ui_sheet_functions::change_dependecy_set(&mut new_cell2, sheet, true, row, col, orow, ocol);
    let ghost s6 = *sheet;
    proof {
        lemma_settled_but_kept(s5, s6, k2);
        assert(s6.cells().dom() =~= s6.data@.dom());
        assert(s4.cells().dom() =~= s4.data@.dom());
        assert(s6.data@.contains_key(k2));
    }
    crate::ui_sheet_functions::update_dependencies(orow, ocol, row, col, sheet);
    let ghost s7 = *sheet;
    proof {
        lemma_settled_but_kept(s6, s7, k2);
        assert(s7.cells().dom() =~= s7.data@.dom());
        assert forall|q: i32| s0.data@.contains_key(q) implies s7.data@.contains_key(q) by {
            assert(s1.data@.contains_key(q));
            assert(s2.data@.contains_key(q));
            assert(s2.cells().contains_key(q));
            assert(s3.cells().contains_key(q));
            assert(s4.cells().contains_key(q));
            assert(s6.cells().contains_key(q));
        }
        assert(s4.cells().contains_key(k1));
        assert(new_cell1@.dependencies.subset_of(oc1@.dependencies));
        assert(new_cell2@.dependencies.subset_of(oc1@.dependencies));
        let src = CellInfo { row: orow, col: ocol };
        let tgt = CellInfo { row, col };
        assert forall|q: i32|
            #[trigger] s0.cells().contains_key(q) && direct_dependent(s0, oc1@, q, k1, k2) implies s7.cells().contains_key(q)
                && s7.cells()[q].op_code == s0.cells()[q].op_code && s7.cells()[q].cell1
                == crate::sheet_functions::redirected(s0.cells()[q].cell1, src, tgt) && s7.cells()[q].cell2
                == crate::sheet_functions::redirected(s0.cells()[q].cell2, src, tgt) by {
            assert(s0.data@.contains_key(q));
            assert(s1.cells().contains_key(q));
            assert(s1.cells()[q] == s0.cells()[q]);
            assert(s2.cells().contains_key(q));
            assert(s3.cells().contains_key(q));
            assert(s4.cells()[q] == s3.cells()[q]);
            assert(crate::sheet_functions::dependent_redirected(s4.cells(), oc1@.dependencies, q, false));
            assert(s6.cells()[q] == s5.cells()[q]);
        }
        assert forall|q: i32|
            #[trigger] s0.cells().contains_key(q) && q != k1 && q != k2 implies s7.cells().contains_key(q)
                && kept_or_moved(s0.cells()[q], s7.cells()[q], src, tgt) by {
            assert(s1.cells().contains_key(q));
            assert(s1.cells()[q] == s0.cells()[q]);
            assert(s2.cells().contains_key(q));
            assert(s2.cells()[q] == (CellView { dependencies: s2.cells()[q].dependencies, ..s1.cells()[q] }));
            assert(s3.cells().contains_key(q));
            assert(s3.cells()[q] == (CellView { dependencies: s3.cells()[q].dependencies, ..s2.cells()[q] }));
            assert(s4.cells()[q] == s3.cells()[q]);
            assert(s5.cells().contains_key(q));
            assert(s6.cells().contains_key(q));
            assert(s6.cells()[q] == s5.cells()[q]);
            assert(s7.cells().contains_key(q));
        }
    }
    (oc1, oc2, new_cell1, new_cell2)
}


/// The data key of the cell that pasting over a cell with dependent `d`
/// marks as an error.
pub open spec fn error_key(d: i32) -> i32 {
    spec_data_key(((d % 1000) as i16) as int, ((d / 1000) as i16) as int) as i32
}

/// Whether pasting a cut cell over cell `v` marks the cell under `q` as an
/// error (it is one of `v`'s dependents).
pub open spec fn errored_by(v: CellView, q: i32) -> bool {
    exists|d: i32| #[trigger] v.dependencies.contains(d) && error_key(d) == q
}

/// Pastes the cut cell from `(orow, ocol)` at `(row, col)`: after the steps
/// of `paste_cut_prepare`, the dependents of the cell that was at the target
/// are marked as errors without formula, the moved cell is stored at the
/// target, the cleared cell at the source, and the source's dependents are
/// recalculated. Returns the two cells as they were.
fn paste_cut_sheet(sheet: &mut Sheet, orow: i16, ocol: i16, row: i16, col: i16) -> (res: (Cell, Cell))
    requires
        sheet_ok(*old(sheet)),
        old(sheet).valid_pos(orow as int, ocol as int),
        old(sheet).valid_pos(row as int, col as int),
    ensures
        sheet_ok(*final(sheet)),
        final(sheet).rows == old(sheet).rows,
        final(sheet).cols == old(sheet).cols,
        forall|q: i32| old(sheet).data@.contains_key(q) ==> final(sheet).data@.contains_key(q),
        res.0@ == old(sheet).cell_at(orow as int, ocol as int),
        res.1@ == old(sheet).cell_at(row as int, col as int),
        cell_fits(*final(sheet), res.0@),
        cell_fits(*final(sheet), res.1@),
        cut_cleared(final(sheet).cells()[spec_data_key(orow as int, ocol as int) as i32], res.0@),
        !(orow == row && ocol == col) ==> cut_moved(
            final(sheet).cells()[spec_data_key(row as int, col as int) as i32],
            res.0@,
        ),
        !(orow == row && ocol == col) ==> exists|m: Sheet|
            #[trigger] recalculated_only(m, dep_key(orow as int, ocol as int), m.cells(), final(sheet).cells())
                && dependents_hold(m, dep_key(orow as int, ocol as int), final(sheet).cells())
                && m.cells().contains_key(spec_data_key(row as int, col as int) as i32) && m.cells()[spec_data_key(
                row as int,
                col as int,
            ) as i32] == (CellView {
                dependencies: m.cells()[spec_data_key(row as int, col as int) as i32].dependencies,
                ..res.0@
            }) && (forall|q: i32|
                #[trigger] old(sheet).cells().contains_key(q) && q != spec_data_key(orow as int, ocol as int) as i32
                    && q != spec_data_key(row as int, col as int) as i32 && !errored_by(res.1@, q)
                    ==> m.cells().contains_key(q) && kept_or_moved(
                    old(sheet).cells()[q],
                    m.cells()[q],
                    CellInfo { row: orow, col: ocol },
                    CellInfo { row, col },
                )),
        forall|q: i32|
            #[trigger] old(sheet).cells().contains_key(q) && direct_dependent(
                *old(sheet),
                res.0@,
                q,
                spec_data_key(orow as int, ocol as int) as i32,
                spec_data_key(row as int, col as int) as i32,
            ) && !errored_by(res.1@, q) ==> final(sheet).cells().contains_key(q) && final(sheet).cells()[q].op_code
                == old(sheet).cells()[q].op_code && final(sheet).cells()[q].cell1
                == crate::sheet_functions::redirected(
                old(sheet).cells()[q].cell1,
                CellInfo { row: orow, col: ocol },
                CellInfo { row, col },
            ) && final(sheet).cells()[q].cell2 == crate::sheet_functions::redirected(
                old(sheet).cells()[q].cell2,
                CellInfo { row: orow, col: ocol },
                CellInfo { row, col },
            ),
{
    let ghost s0 = *sheet;
    let ghost k1 = spec_data_key(orow as int, ocol as int) as i32;
    let ghost k2 = spec_data_key(row as int, col as int) as i32;
    let (oc1, oc2, new_cell1, new_cell2) = paste_cut_prepare(sheet, orow, ocol, row, col);
    let ghost s7 = *sheet;
    let deps = crate::sheet_functions::set_elements(&oc2.dependencies);
    proof {
        lemma_cells_fit(s0, row as int, col as int);
        assert forall|j: int| 0 <= j < deps@.len() implies deps@[j] >= 0 by {
            assert(deps@.contains(deps@[j]));
            assert(oc2@.dependencies.contains(deps@[j]));
        }
    }
    let mut i: usize = 0;
    while i < deps.len()
        invariant
            forall|j: int| 0 <= j < deps@.len() ==> deps@[j] >= 0,
            sheet.wf(),
            settled_but(*sheet, k2, k2),
            sheet.rows == s0.rows,
            sheet.cols == s0.cols,
            forall|q: i32| s7.data@.contains_key(q) ==> sheet.data@.contains_key(q),
            i <= deps@.len(),
            forall|q: i32|
                #[trigger] s7.cells().contains_key(q) && (forall|j: int| 0 <= j < i ==> error_key(deps@[j]) != q)
                    ==> sheet.cells().contains_key(q) && sheet.cells()[q] == s7.cells()[q],
        decreases deps@.len() - i,
    {
        let d = deps[i];
        let ghost sb = *sheet;
        let er = (d % 1000) as i16;
        let ec = (d / 1000) as i16;
        proof {
            assert(d >= 0);
            assert(er == ((d % 1000) as i16));
        }
        error_out(sheet, er, ec, Ghost(k2));
        proof {
            let sa = *sheet;
            assert(spec_data_key(er as int, ec as int) as i32 == error_key(d));
            assert forall|q: i32|
                #[trigger] s7.cells().contains_key(q) && (forall|j: int| 0 <= j < i + 1 ==> error_key(deps@[j]) != q)
                    implies sa.cells().contains_key(q) && sa.cells()[q] == s7.cells()[q] by {
                assert(error_key(deps@[i as int]) != q);
                assert(sb.cells().contains_key(q));
                assert(sa.data@.dom() == sb.data@.dom().insert(error_key(d)));
                assert(sb.cells().dom() =~= sb.data@.dom());
                assert(sa.cells().dom() =~= sa.data@.dom());
            }
        }
        i = i + 1;
    }
    let ghost s8 = *sheet;
    proof {
        lemma_cells_fit(s0, orow as int, ocol as int);
        lemma_cells_fit(s0, row as int, col as int);
        assert forall|q: i32| s0.data@.contains_key(q) implies s8.data@.contains_key(q) by {
            assert(s7.data@.contains_key(q));
        }
        assert forall|d: i32| #[trigger] new_cell2@.dependencies.contains(d) implies s8.valid_node(d as int)
            && s8.data@.contains_key(spec_data_key(d as int % 1000, d as int / 1000) as i32) by {
            assert(oc1@.dependencies.contains(d));
            assert(s0.data@.contains_key(spec_data_key(d as int % 1000, d as int / 1000) as i32));
        }
        assert forall|d: i32| #[trigger] new_cell1@.dependencies.contains(d) implies s8.valid_node(d as int)
            && s8.data@.contains_key(spec_data_key(d as int % 1000, d as int / 1000) as i32) by {
            assert(oc1@.dependencies.contains(d));
            assert(s0.data@.contains_key(spec_data_key(d as int % 1000, d as int / 1000) as i32));
        }
    }
    put_cell(sheet, row, col, new_cell2);
    let ghost s9 = *sheet;
    proof {
        assert forall|q: i32|
            #![trigger s9.data@[q]]
            s9.data@.contains_key(q) && crate::calculate_functions::is_range_op(s9.data@[q].op_code) implies s9.rect_fits(
            s9.data@[q].cell1.row as int,
            s9.data@[q].cell1.col as int,
            s9.data@[q].cell2.row as int,
            s9.data@[q].cell2.col as int,
        ) by {
            assert(s9.cells().contains_key(q));
            assert(s9.cells()[q] == s9.data@[q]@);
            if q != k2 {
                assert(s8.cells().contains_key(q));
                assert(s8.data@.contains_key(q));
                assert(s8.cells()[q] == s8.data@[q]@);
            }
        }
        assert(s9.settled());
    }
    put_cell(sheet, orow, ocol, new_cell1);
    let ghost s10 = *sheet;
    proof {
        assert(s10.data@.contains_key(k1));
        assert(s10.cells()[k1] == new_cell1@);
        assert(!(orow == row && ocol == col) ==> s10.cells()[k2] == new_cell2@);
    }
    crate::ui_sheet_functions::recalculate_dependecy(CellInfo { row: orow, col: ocol }, sheet);
    proof {
        let s11 = *sheet;
        crate::sheet_functions::lemma_settled_kept(s10, s11);
        assert forall|q: i32| s0.data@.contains_key(q) implies s11.data@.contains_key(q) by {
            assert(s10.cells().contains_key(q));
            assert(s11.cells().contains_key(q));
        }
        lemma_fits_grow(s0, s11, oc1@);
        lemma_fits_grow(s0, s11, oc2@);
        assert(s10.cells().contains_key(k2));
        assert forall|q: i32|
            #[trigger] s0.cells().contains_key(q) && q != k1 && q != k2 && !errored_by(oc2@, q) implies s10.cells().contains_key(q)
                && kept_or_moved(s0.cells()[q], s10.cells()[q], CellInfo { row: orow, col: ocol }, CellInfo { row, col }) by {
            assert(s7.cells().contains_key(q));
            assert forall|j: int| 0 <= j < deps@.len() implies error_key(deps@[j]) != q by {
                assert(oc2@.dependencies.contains(deps@[j]));
            }
            assert(s8.cells()[q] == s7.cells()[q]);
            assert(s9.cells()[q] == s8.cells()[q]);
            assert(s10.cells()[q] == s9.cells()[q]);
        }
        if !(orow == row && ocol == col) {
            assert(s10.cells()[k2] == new_cell2@);
            assert(recalculated_only(s10, dep_key(orow as int, ocol as int), s10.cells(), s11.cells()));
        }
        assert forall|q: i32|
            #[trigger] s0.cells().contains_key(q) && direct_dependent(s0, oc1@, q, k1, k2) && !errored_by(oc2@, q)
                implies s11.cells().contains_key(q) && s11.cells()[q].op_code == s0.cells()[q].op_code
                && s11.cells()[q].cell1 == crate::sheet_functions::redirected(
                s0.cells()[q].cell1,
                CellInfo { row: orow, col: ocol },
                CellInfo { row, col },
            ) && s11.cells()[q].cell2 == crate::sheet_functions::redirected(
                s0.cells()[q].cell2,
                CellInfo { row: orow, col: ocol },
                CellInfo { row, col },
            ) by {
            assert(s7.cells().contains_key(q));
            assert forall|j: int| 0 <= j < deps@.len() implies error_key(deps@[j]) != q by {
                assert(oc2@.dependencies.contains(deps@[j]));
            }
            assert(s8.cells()[q] == s7.cells()[q]);
            assert(s9.cells()[q] == s8.cells()[q]);
            assert(s10.cells()[q] == s9.cells()[q]);
            assert(s10.cells().contains_key(q));
        }
    }
    (oc1, oc2)
}

/// Takes the selected cell (stored as a default cell first, if none is)
/// into the clipboard as cut; status "Cut". With no cell selected the
/// status becomes "No cell selected".
pub fn cut(app: &mut Editor)
    requires
        old(app).wf(),
    ensures
        final(app).wf(),
        final(app).current_sheet_index == old(app).current_sheet_index,
        final(app).undo_stack@ == old(app).undo_stack@,
        final(app).redo_stack@ == old(app).redo_stack@,
        final(app).selected_cell == old(app).selected_cell,
        match old(app).selected_cell {
            Some((r, c)) => {
                &&& final(app).sheets@ == old(app).sheets@.update(
                    old(app).current_sheet_index as int,
                    Sheets { sheet: final(app).current(), ..old(app).sheets@[old(app).current_sheet_index as int] },
                )
                &&& final(app).current().cells() == crate::sheet_functions::ensure_cell(
                    old(app).current().cells(),
                    r as int,
                    c as int,
                )
                &&& final(app).clipboard matches Some((cell, how, cr, cc)) && cell@ == old(app).current().cell_at(
                    r as int,
                    c as int,
                ) && how == CutCopy::Cut && cr == r && cc == c
                &&& final(app).cut_copied_cell == Some((r as i16, c as i16))
                &&& final(app).status@ == "Cut"@
            },
            None => {
                &&& final(app).sheets@ == old(app).sheets@
                &&& final(app).clipboard == old(app).clipboard
                &&& final(app).cut_copied_cell == old(app).cut_copied_cell
                &&& final(app).status@ == "No cell selected"@
            },
        },
{
    app.take_selected(true);
}

/// Takes a copy of the selected cell's content (stored as a default cell
/// first, if none is) into the clipboard, without its formula or
/// dependents; status "Copied". With no cell selected the status becomes
/// "No cell selected".
pub fn copy(app: &mut Editor)
    requires
        old(app).wf(),
    ensures
        final(app).wf(),
        final(app).current_sheet_index == old(app).current_sheet_index,
        final(app).undo_stack@ == old(app).undo_stack@,
        final(app).redo_stack@ == old(app).redo_stack@,
        final(app).selected_cell == old(app).selected_cell,
        match old(app).selected_cell {
            Some((r, c)) => {
                &&& final(app).sheets@ == old(app).sheets@.update(
                    old(app).current_sheet_index as int,
                    Sheets { sheet: final(app).current(), ..old(app).sheets@[old(app).current_sheet_index as int] },
                )
                &&& final(app).current().cells() == crate::sheet_functions::ensure_cell(
                    old(app).current().cells(),
                    r as int,
                    c as int,
                )
                &&& final(app).clipboard matches Some((cell, how, cr, cc)) && cell@ == content_only(
                    old(app).current().cell_at(r as int, c as int),
                ) && how == CutCopy::Copied && cr == r && cc == c
                &&& final(app).cut_copied_cell == Some((r as i16, c as i16))
                &&& final(app).status@ == "Copied"@
            },
            None => {
                &&& final(app).sheets@ == old(app).sheets@
                &&& final(app).clipboard == old(app).clipboard
                &&& final(app).cut_copied_cell == old(app).cut_copied_cell
                &&& final(app).status@ == "No cell selected"@
            },
        },
{
    app.take_selected(false);
}


/// The editor is `old` but for its status.
pub open spec fn only_status_changed(old: Editor, new: Editor) -> bool {
    &&& new.sheets@ == old.sheets@
    &&& new.current_sheet_index == old.current_sheet_index
    &&& new.selected_cell == old.selected_cell
    &&& new.undo_stack@ == old.undo_stack@
    &&& new.redo_stack@ == old.redo_stack@
    &&& new.clipboard == old.clipboard
    &&& new.cut_copied_cell == old.cut_copied_cell
}

/// What `paste` does, from editor `old` to `new` (see `paste`).
pub open spec fn pasted(old: Editor, new: Editor) -> bool {
    match old.selected_cell {
        None => only_status_changed(old, new) && new.status@ == "No cell selected"@,
        Some((row, col)) => match old.clipboard {
            None => only_status_changed(old, new) && new.status@ == "Nothing to paste"@,
            Some((cell, how, orow, ocol)) => {
                &&& sheet_replaced(old.sheets@, new.sheets@, old.current_sheet_index as int)
                &&& new.status@ == "Pasted"@
                &&& new.cut_copied_cell is None
                &&& new.redo_stack@.len() == 0
                &&& pushed_one(old.undo_stack@, new.undo_stack@)
                &&& if how == CutCopy::Cut {
                    &&& new.clipboard is None
                    &&& cut_record(
                        new.undo_stack@.last(),
                        old.current_sheet_index,
                        orow,
                        ocol,
                        old.current().cell_at(orow as int, ocol as int),
                        row as i16,
                        col as i16,
                        old.current().cell_at(row as int, col as int),
                    )
                    &&& cut_cleared(
                        new.current().cells()[spec_data_key(orow as int, ocol as int) as i32],
                        old.current().cell_at(orow as int, ocol as int),
                    )
                    &&& !(orow == row && ocol == col) ==> cut_moved(
                        new.current().cells()[spec_data_key(row as int, col as int) as i32],
                        old.current().cell_at(orow as int, ocol as int),
                    )
                    &&& !(orow == row && ocol == col) ==> exists|m: Sheet|
                        #[trigger] recalculated_only(
                            m,
                            dep_key(orow as int, ocol as int),
                            m.cells(),
                            new.current().cells(),
                        ) && dependents_hold(m, dep_key(orow as int, ocol as int), new.current().cells())
                            && m.cells().contains_key(spec_data_key(row as int, col as int) as i32)
                            && m.cells()[spec_data_key(row as int, col as int) as i32] == (CellView {
                            dependencies: m.cells()[spec_data_key(row as int, col as int) as i32].dependencies,
                            ..old.current().cell_at(orow as int, ocol as int)
                        }) && (forall|q: i32|
                            #[trigger] old.current().cells().contains_key(q) && q != spec_data_key(
                                orow as int,
                                ocol as int,
                            ) as i32 && q != spec_data_key(row as int, col as int) as i32 && !errored_by(
                                old.current().cell_at(row as int, col as int),
                                q,
                            ) ==> m.cells().contains_key(q) && kept_or_moved(
                                old.current().cells()[q],
                                m.cells()[q],
                                CellInfo { row: orow, col: ocol },
                                CellInfo { row: row as i16, col: col as i16 },
                            ))
                    &&& forall|q: i32|
                        #[trigger] old.current().cells().contains_key(q) && direct_dependent(
                            old.current(),
                            old.current().cell_at(orow as int, ocol as int),
                            q,
                            spec_data_key(orow as int, ocol as int) as i32,
                            spec_data_key(row as int, col as int) as i32,
                        ) && !errored_by(old.current().cell_at(row as int, col as int), q)
                            ==> new.current().cells().contains_key(q) && new.current().cells()[q].op_code
                            == old.current().cells()[q].op_code && new.current().cells()[q].cell1
                            == crate::sheet_functions::redirected(
                            old.current().cells()[q].cell1,
                            CellInfo { row: orow, col: ocol },
                            CellInfo { row: row as i16, col: col as i16 },
                        ) && new.current().cells()[q].cell2 == crate::sheet_functions::redirected(
                            old.current().cells()[q].cell2,
                            CellInfo { row: orow, col: ocol },
                            CellInfo { row: row as i16, col: col as i16 },
                        )
                } else {
                    &&& new.clipboard == old.clipboard
                    &&& inserted_record(
                        new.undo_stack@.last(),
                        old.current_sheet_index,
                        row as i16,
                        col as i16,
                        old.current().cell_at(row as int, col as int),
                    )
                    &&& exists|m: Sheet|
                        #[trigger] m.cells() == copy_pasted(
                            old.current().cells(),
                            orow as int,
                            ocol as int,
                            row as int,
                            col as int,
                            cell@,
                        ) && recalculated_only(
                            m,
                            dep_key(row as int, col as int),
                            m.cells(),
                            new.current().cells(),
                        ) && dependents_hold(m, dep_key(row as int, col as int), new.current().cells())
                }
            },
        },
    }
}

/// Pastes the clipboard at the selected cell of the current sheet. A copied
/// cell replaces the cell there (keeping its dependents, which are
/// recalculated) and stays in the clipboard. A cut cell moves there with its
/// formula: the cells it reads take the target as dependent, the target's
/// formula's dependencies are removed, the source is cleared, the source's
/// other dependents read the target instead, the dependents of the cell that
/// was at the target become errors without formula, every other cell keeps
/// its formula (and, but for a range formula, its value, error flag, string
/// and references, but those moved from the source to the target), the
/// source's dependents are recalculated, and the clipboard is emptied.
/// Either way the edit is recorded for undo, the redo history is
/// emptied, no cell stays marked and the status becomes "Pasted". With no
/// cell selected the status becomes "No cell selected"; with an empty
/// clipboard, "Nothing to paste".
pub fn paste(app: &mut Editor)
    requires
        old(app).wf(),
    ensures
        final(app).wf(),
        final(app).current_sheet_index == old(app).current_sheet_index,
        final(app).selected_cell == old(app).selected_cell,
        pasted(*old(app), *final(app)),
{
    match app.selected_cell {
        None => {
            app.status = "No cell selected".to_owned();
        },
        Some((row, col)) => {
            let info: Option<(Cell, CutCopy, i16, i16)> = match &app.clipboard {
                Some((c, how, r, cc)) => Some((copy_cell(c), *how, *r, *cc)),
                None => None,
            };
            match info {
                None => {
                    app.status = "Nothing to paste".to_owned();
                },
                Some((cell, how, orow, ocol)) => {
                    let ghost e0 = *app;
                    let ci = app.current_sheet_index;
                    let r = row as i16;
                    let c = col as i16;
                    let mut sh = app.sheets.remove(ci);
                    let ghost old_name = sh.name;
                    if how == CutCopy::Cut {
                        let (oc1, oc2) = paste_cut_sheet(&mut sh.sheet, orow, ocol, r, c);
                        app.sheets.insert(ci, sh);
                        app.redo_stack.clear();
                        let action = Action::CutAction {
                            sheet_index: ci,
                            row1: orow,
                            col1: ocol,
                            previous_cell1: oc1,
                            row2: r,
                            col2: c,
                            previous_cell2: oc2,
                        };
                        app.undo_stack.push(action);
                        proof {
                            let e1 = *app;
                            assert(e1.sheets@ =~= e0.sheets@.update(ci as int, e1.sheets@[ci as int]));
                            assert(action_fits(action, e1.sheets@));
                            assert forall|k: int| 0 <= k < e1.undo_stack@.len() implies action_fits(
                                #[trigger] e1.undo_stack@[k],
                                e0.sheets@,
                            ) || action_fits(e1.undo_stack@[k], e1.sheets@) by {
                                if k < e0.undo_stack@.len() {
                                    assert(e1.undo_stack@[k] == e0.undo_stack@[k]);
                                }
                            }
                            lemma_replaced_wf(e0, e1, ci as int);
                            assert(e1.undo_stack@.drop_last() =~= e0.undo_stack@);
                        }
                        app.clipboard = None;
                    } else {
                        proof {
                            assert(cell_fits(sh.sheet, cell@));
                        }
                        let prev = paste_copy_sheet(&mut sh.sheet, orow, ocol, r, c, &cell);
                        app.sheets.insert(ci, sh);
                        app.redo_stack.clear();
                        let action = Action::Inserted { sheet_index: ci, row: r, col: c, previous_cell: prev };
                        app.undo_stack.push(action);
                        proof {
                            let e1 = *app;
                            assert(e1.sheets@ =~= e0.sheets@.update(ci as int, e1.sheets@[ci as int]));
                            assert(action_fits(action, e1.sheets@));
                            assert forall|k: int| 0 <= k < e1.undo_stack@.len() implies action_fits(
                                #[trigger] e1.undo_stack@[k],
                                e0.sheets@,
                            ) || action_fits(e1.undo_stack@[k], e1.sheets@) by {
                                if k < e0.undo_stack@.len() {
                                    assert(e1.undo_stack@[k] == e0.undo_stack@[k]);
                                }
                            }
                            lemma_replaced_wf(e0, e1, ci as int);
                            assert(e1.undo_stack@.drop_last() =~= e0.undo_stack@);
                        }
                    }
                    app.cut_copied_cell = None;
                    app.status = "Pasted".to_owned();
                },
            }
        },
    }
}


/// The text a find-and-replace matches a cell on: its string, else "Err"
/// when it is in error, else its value in decimal.
pub open spec fn content_text(c: CellView) -> Seq<char> {
    match c.string {
        Some(t) => t,
        None => if c.is_error {
            "Err"@
        } else {
            decimal_text(c.value as int)
        },
    }
}

/// The text of `c` that a find-and-replace matches on.
fn cell_content(c: &Cell) -> (t: String)
    ensures
        t@ == content_text(c@),
{
    let mut t = String::new();
    match &c.string {
        Some(x) => {
            push_text(&mut t, x.as_str());
        },
        None => {
            if c.is_error {
                push_text(&mut t, "Err");
                proof {
                    reveal_strlit("Err");
                }
            } else {
                push_decimal(&mut t, c.value as i64);
            }
        },
    }
    proof {
        assert(t@ =~= content_text(c@));
    }
    t
}

/// The command that writes `text` into the cell at `(row, col)`: the
/// column's name, the row's number (from 1), "=" and `text`.
pub open spec fn assign_command(row: int, col: int, text: Seq<char>) -> Seq<char> {
    crate::sheet_functions::col_name(col) + decimal_text(row + 1) + "="@ + text
}

/// The command that writes `text` into the cell at `(row, col)`.
fn build_assign(row: usize, col: usize, text: &str) -> (cmd: String)
    requires
        row < 1000,
        col < 32767,
    ensures
        cmd@ == assign_command(row as int, col as int, text@),
{
    let mut cmd = crate::sheet_functions::col_num_to_col_name(col as i32);
    push_decimal(&mut cmd, row as i64 + 1);
    push_text(&mut cmd, "=");
    push_text(&mut cmd, text);
    proof {
        reveal_strlit("=");
    }
    cmd
}

/// `t` is `mid` after the formula of the cell under `k` was dropped when
/// that cell held a range function in `s`, and is `mid` otherwise.
pub open spec fn range_dropped(s: Sheet, mid: Sheet, t: Sheet, k: i32) -> bool {
    if s.data@.contains_key(k) && crate::calculate_functions::is_range_op(s.data@[k].op_code) {
        &&& t.cells() == mid.cells().insert(k, CellView { op_code: OpCode::NoConstraint, ..mid.cells()[k] })
        &&& t.rows == mid.rows
        &&& t.cols == mid.cols
        &&& t.buul == mid.buul
        &&& t.tuup == mid.tuup
    } else {
        t == mid
    }
}

/// `t` is `s` after the dependencies of the formula at `(row, col)` were
/// removed (a range function's cell then keeping no formula) and command
/// `cmd` was run on it (on a sheet of `s`'s size, with printing on).
#[verifier::opaque]
pub open spec fn command_replayed(s: Sheet, t: Sheet, row: int, col: int, cmd: Seq<char>) -> bool {
    exists|mid: Sheet, mid2: Sheet, rs: i32, cs: i32, st0: Seq<char>, st1: Seq<char>, pe1: bool, eff: CommandEffect|
        #![trigger removal_post(s, s.buul@, mid, CellInfo { row: row as i16, col: col as i16 }), command_post(spec_command(cleaned(cmd)), cleaned(cmd), s.rows, s.cols, mid2, t, 0, 0, rs, cs, st0, st1, true, pe1, eff)]
        removal_post(s, s.buul@, mid, CellInfo { row: row as i16, col: col as i16 }) && range_dropped(
            s,
            mid,
            mid2,
            spec_data_key(row, col) as i32,
        ) && command_post(
            spec_command(cleaned(cmd)),
            cleaned(cmd),
            s.rows,
            s.cols,
            mid2,
            t,
            0,
            0,
            rs,
            cs,
            st0,
            st1,
            true,
            pe1,
            eff,
        )
}

/// Whether command `cmd` cannot be run: a row, column or number in it does
/// not fit an `i32`.
pub open spec fn cannot_run(cmd: Seq<char>) -> bool {
    spec_command(cleaned(cmd)) is Overflow
}

/// Leaves the stored cell at `(row, col)` without formula.
fn drop_formula(sheet: &mut Sheet, row: i16, col: i16)
    requires
        old(sheet).wf(),
        old(sheet).data@.contains_key(spec_data_key(row as int, col as int) as i32),
    ensures
        final(sheet).wf(),
        final(sheet).cells() == old(sheet).cells().insert(
            spec_data_key(row as int, col as int) as i32,
            CellView {
                op_code: OpCode::NoConstraint,
                ..old(sheet).cells()[spec_data_key(row as int, col as int) as i32]
            },
        ),
        final(sheet).rows == old(sheet).rows,
        final(sheet).cols == old(sheet).cols,
        final(sheet).buul == old(sheet).buul,
        final(sheet).tuup == old(sheet).tuup,
        final(sheet).data@.dom() == old(sheet).data@.dom(),
{
    let ghost s0 = *sheet;
    let ghost k = spec_data_key(row as int, col as int) as i32;
    let c = get_or_create_cell(sheet, row as i32, col as i32);
    c.op_code = OpCode::NoConstraint;
    proof {
        let s1 = *sheet;
        assert forall|q: i32| #[trigger] s1.data@.contains_key(q) implies cell_fits(s0, s1.data@[q]@) by {
            lemma_stored_fits(s0, q);
        }
        lemma_fitting_wf(s0, s1);
        assert(s1.cells() =~= s0.cells().insert(k, CellView { op_code: OpCode::NoConstraint, ..s0.cells()[k] }));
        assert(s1.data@.dom() =~= s0.data@.dom());
    }
}

/// Removes the dependencies of the formula at `(row, col)` (a range
/// function's cell then keeps no formula, so that setting the new content
/// does not remove them twice) and runs command `cmd` on the sheet, as a
/// find-and-replace does for each cell it changes; returns whether it did.
/// It does not when `cmd` cannot run, and then leaves the sheet as it is.
fn run_on_cell(sheet: &mut Sheet, row: usize, col: usize, cmd: &String) -> (ran: bool)
    requires
        sheet_ok(*old(sheet)),
        old(sheet).valid_pos(row as int, col as int),
    ensures
        sheet_ok(*final(sheet)),
        final(sheet).rows == old(sheet).rows,
        final(sheet).cols == old(sheet).cols,
        forall|q: i32| old(sheet).data@.contains_key(q) ==> final(sheet).data@.contains_key(q),
        ran == !cannot_run(cmd@),
        ran ==> command_replayed(*old(sheet), *final(sheet), row as int, col as int, cmd@),
        !ran ==> *final(sheet) == *old(sheet),
{
    let ghost s0 = *sheet;
    let (_text, parsed) = read_command(cmd.as_str());
    let overflow = match parsed {
        Command::Overflow => true,
        _ => false,
    };
    if overflow {
        return false;
    }
    let is_range = match sheet.get_cell(row as i16, col as i16) {
        Some(c) => match c.op_code {
            OpCode::Sum | OpCode::Min | OpCode::Max | OpCode::Avg | OpCode::Stdev => true,
            _ => false,
        },
        None => false,
    };
    let ghost k = spec_data_key(row as int, col as int) as i32;
    let cell = CellInfo { row: row as i16, col: col as i16 };
    remove_dependency(&cell, sheet);
    let ghost s1a = *sheet;
    proof {
        lemma_removal_frame(s0, s0.buul@, s1a, cell);
        assert(s1a.cells().dom() =~= s1a.data@.dom());
        assert(s0.cells().dom() =~= s0.data@.dom());
    }
    if is_range {
        proof {
            assert(s1a.cells().contains_key(k));
        }
        drop_formula(sheet, row as i16, col as i16);
    }
    let ghost s1 = *sheet;
    proof {
        assert(s1.cells().dom() =~= s1.data@.dom());
        assert(range_dropped(s0, s1a, s1, k));
        assert forall|q: i32| #[trigger] s1.cells().contains_key(q) implies (s0.cells().contains_key(q)
            && s1.cells()[q].op_code == s0.cells()[q].op_code && s1.cells()[q].cell1 == s0.cells()[q].cell1
            && s1.cells()[q].cell2 == s0.cells()[q].cell2) || !crate::calculate_functions::is_range_op(
            s1.cells()[q].op_code,
        ) by {
            if q == k {
                assert(s1a.cells()[q].op_code == s0.cells()[q].op_code);
                if s0.data@.contains_key(k) {
                    assert(s0.cells()[k] == s0.data@[k]@);
                }
            }
        }
        crate::sheet_functions::lemma_settled_kept(s0, s1);
    }
    let mut row_start: i32 = 0;
    let mut col_start: i32 = 0;
    let mut status = String::new();
    let mut print_enabled = true;
    let total_rows = sheet.rows;
    let total_cols = sheet.cols;
    let _effect = parse_command(
        cmd.as_str(),
        &mut row_start,
        &mut col_start,
        &mut status,
        &total_rows,
        &total_cols,
        sheet,
        &mut print_enabled,
    );
    proof {
        let s2 = *sheet;
        assert forall|q: i32| s0.data@.contains_key(q) implies s2.data@.contains_key(q) by {
            assert(s0.cells().contains_key(q));
            assert(s1a.cells().contains_key(q));
            assert(s1.cells().contains_key(q));
        }
        reveal(command_replayed);
        assert(removal_post(s0, s0.buul@, s1a, cell));
        assert(command_replayed(s0, s2, row as int, col as int, cmd@));
    }
    true
}


/// Commands `cmds` (each a row, a column and a command's text) were run one
/// after another from `s0` to `s1`, each on its cell as `run_on_cell` runs
/// it: the first `afters.len()` of them ran, with `befores[i]` and
/// `afters[i]` the cell of command `i` before and after it ran, and the run
/// stopped before all of them only on a command that cannot run.
#[verifier::opaque]
pub open spec fn replay_ok(
    s0: Sheet,
    s1: Sheet,
    cmds: Seq<(usize, usize, Seq<char>)>,
    befores: Seq<CellView>,
    afters: Seq<CellView>,
) -> bool {
    &&& afters.len() <= cmds.len()
    &&& befores.len() == afters.len()
    &&& exists|states: Seq<Sheet>|
        #![trigger states.last()]
        {
            &&& states.len() == afters.len() + 1
            &&& states[0] == s0
            &&& states.last() == s1
            &&& forall|i: int|
                0 <= i < afters.len() ==> {
                    &&& command_replayed(
                        #[trigger] states[i],
                        states[i + 1],
                        cmds[i].0 as int,
                        cmds[i].1 as int,
                        cmds[i].2,
                    )
                    &&& befores[i] == states[i].cell_at(cmds[i].0 as int, cmds[i].1 as int)
                    &&& afters[i] == states[i + 1].cell_at(cmds[i].0 as int, cmds[i].1 as int)
                }
        }
    &&& afters.len() < cmds.len() ==> cannot_run(cmds[afters.len() as int].2)
}

/// The commands of `cmds` with their texts viewed.
pub open spec fn cmd_views(cmds: Seq<(usize, usize, String)>) -> Seq<(usize, usize, Seq<char>)> {
    cmds.map_values(|c: (usize, usize, String)| (c.0, c.1, c.2@))
}

/// The cell of `at` at `(row, col)`: a copy of the stored one, or a default
/// cell.
fn cell_copy_at(sheet: &Sheet, row: usize, col: usize) -> (c: Cell)
    requires
        row < 1000,
        col < 32767,
    ensures
        c@ == sheet.cell_at(row as int, col as int),
{
    match sheet.get_cell(row as i16, col as i16) {
        Some(x) => copy_cell(x),
        None => crate::sheet_functions::new_cell(),
    }
}

/// Runs the commands of `cmds` one after another, each on its cell as
/// `run_on_cell` does, stopping at the first one that cannot run. Returns,
/// for each command that ran, its cell before and after.
#[verifier::spinoff_prover]
#[verifier::rlimit(80)]
fn replay_commands(sheet: &mut Sheet, cmds: &Vec<(usize, usize, String)>) -> (res: Vec<(Cell, Cell)>)
    requires
        sheet_ok(*old(sheet)),
        forall|i: int| 0 <= i < cmds@.len() ==> old(sheet).valid_pos((#[trigger] cmds@[i]).0 as int, cmds@[i].1 as int),
    ensures
        sheet_ok(*final(sheet)),
        final(sheet).rows == old(sheet).rows,
        final(sheet).cols == old(sheet).cols,
        forall|q: i32| old(sheet).data@.contains_key(q) ==> final(sheet).data@.contains_key(q),
        res@.len() <= cmds@.len(),
        replay_ok(
            *old(sheet),
            *final(sheet),
            cmd_views(cmds@),
            res@.map_values(|c: (Cell, Cell)| c.0@),
            res@.map_values(|c: (Cell, Cell)| c.1@),
        ),
{
    let ghost s0 = *sheet;
    let ghost cv = cmd_views(cmds@);
    let mut res: Vec<(Cell, Cell)> = Vec::new();
    let mut i: usize = 0;
    let mut stopped = false;
    let ghost mut states: Seq<Sheet> = seq![*sheet];
    while i < cmds.len() && !stopped
        invariant
            sheet_ok(*sheet),
            sheet.rows == s0.rows,
            sheet.cols == s0.cols,
            forall|q: i32| s0.data@.contains_key(q) ==> sheet.data@.contains_key(q),
            i <= cmds@.len(),
            cv == cmd_views(cmds@),
            forall|k: int| 0 <= k < cmds@.len() ==> s0.valid_pos((#[trigger] cmds@[k]).0 as int, cmds@[k].1 as int),
            res@.len() == i,
            states.len() == i + 1,
            states[0] == s0,
            states.last() == *sheet,
            forall|k: int|
                0 <= k < i ==> {
                    &&& command_replayed(#[trigger] states[k], states[k + 1], cv[k].0 as int, cv[k].1 as int, cv[k].2)
                    &&& res@[k].0@ == states[k].cell_at(cv[k].0 as int, cv[k].1 as int)
                    &&& res@[k].1@ == states[k + 1].cell_at(cv[k].0 as int, cv[k].1 as int)
                },
            stopped ==> i < cmds@.len() && cannot_run(cv[i as int].2),
        decreases cmds@.len() - i, if stopped { 0int } else { 1int },
    {
        let row = cmds[i].0;
        let col = cmds[i].1;
        proof {
            assert(s0.valid_pos(cmds@[i as int].0 as int, cmds@[i as int].1 as int));
        }
        let before = cell_copy_at(sheet, row, col);
        let ghost sb = *sheet;
        let ran = run_on_cell(sheet, row, col, &cmds[i].2);
        if ran {
            let after = cell_copy_at(sheet, row, col);
            res.push((before, after));
            proof {
                states = states.push(*sheet);
            }
            i = i + 1;
        } else {
            stopped = true;
        }
    }
    proof {
        let bs = res@.map_values(|c: (Cell, Cell)| c.0@);
        let as_ = res@.map_values(|c: (Cell, Cell)| c.1@);
        assert(states.last() == *sheet);
        assert forall|k: int| 0 <= k < as_.len() implies {
            &&& command_replayed(#[trigger] states[k], states[k + 1], cv[k].0 as int, cv[k].1 as int, cv[k].2)
            &&& bs[k] == states[k].cell_at(cv[k].0 as int, cv[k].1 as int)
            &&& as_[k] == states[k + 1].cell_at(cv[k].0 as int, cv[k].1 as int)
        } by {}
        reveal(replay_ok);
        assert(replay_ok(s0, *sheet, cv, bs, as_));
    }
    res
}


/// The commands that undo a find-and-replace's `changes`: each writes back
/// the text of the cell as it was.
pub open spec fn undo_cmds(changes: Seq<(usize, usize, Cell, Cell, String)>) -> Seq<(usize, usize, Seq<char>)> {
    changes.map_values(
        |c: (usize, usize, Cell, Cell, String)|
            (c.0, c.1, assign_command(c.0 as int, c.1 as int, content_text(c.2@))),
    )
}

/// The commands that redo a find-and-replace's `changes`: the commands it
/// ran.
pub open spec fn redo_cmds(changes: Seq<(usize, usize, Cell, Cell, String)>) -> Seq<(usize, usize, Seq<char>)> {
    changes.map_values(|c: (usize, usize, Cell, Cell, String)| (c.0, c.1, c.4@))
}

/// The commands that undo (when `undo`) or redo `changes`.
pub open spec fn far_cmds(changes: Seq<(usize, usize, Cell, Cell, String)>, undo: bool) -> Seq<(usize, usize, Seq<char>)> {
    if undo {
        undo_cmds(changes)
    } else {
        redo_cmds(changes)
    }
}

/// Every change of `changes` lies inside the sheet `s`.
pub open spec fn changes_fit(s: Sheet, changes: Seq<(usize, usize, Cell, Cell, String)>) -> bool {
    forall|i: int| 0 <= i < changes.len() ==> s.valid_pos((#[trigger] changes[i]).0 as int, changes[i].1 as int)
}

/// `a` records a find-and-replace on sheet `sheet_index` whose changes are
/// the first ones of `changes`, at the same cells and with the same
/// commands, after the cells `befores` and `afters` (for an undo the cells
/// before are those of `changes` instead).
pub open spec fn far_record(
    a: Action,
    sheet_index: usize,
    changes: Seq<(usize, usize, Cell, Cell, String)>,
    befores: Seq<CellView>,
    afters: Seq<CellView>,
    keep_old: bool,
) -> bool {
    a matches Action::FindAndReplace { sheet_index: si, changes: nc } && si == sheet_index && nc@.len()
        == afters.len() && forall|j: int|
        0 <= j < nc@.len() ==> {
            &&& (#[trigger] nc@[j]).0 == changes[j].0
            &&& nc@[j].1 == changes[j].1
            &&& nc@[j].4@ == changes[j].4@
            &&& nc@[j].3@ == afters[j]
            &&& nc@[j].2@ == (if keep_old {
                changes[j].2@
            } else {
                befores[j]
            })
        }
}

/// The commands for the changes of a find-and-replace: those that undo them
/// (when `undo`) or those that redo them.
fn far_commands(changes: &Vec<(usize, usize, Cell, Cell, String)>, undo: bool) -> (cmds: Vec<(usize, usize, String)>)
    requires
        forall|i: int| 0 <= i < changes@.len() ==> (#[trigger] changes@[i]).0 < 1000 && changes@[i].1 < 32767,
    ensures
        cmd_views(cmds@) == far_cmds(changes@, undo),
{
    let mut cmds: Vec<(usize, usize, String)> = Vec::new();
    let mut i: usize = 0;
    while i < changes.len()
        invariant
            i <= changes@.len(),
            forall|k: int| 0 <= k < changes@.len() ==> (#[trigger] changes@[k]).0 < 1000 && changes@[k].1 < 32767,
            cmd_views(cmds@) == far_cmds(changes@, undo).take(i as int),
        decreases changes@.len() - i,
    {
        let row = changes[i].0;
        let col = changes[i].1;
        let text = if undo {
            let t = cell_content(&changes[i].2);
            build_assign(row, col, t.as_str())
        } else {
            changes[i].4.clone()
        };
        let ghost before = cmds@;
        cmds.push((row, col, text));
        proof {
            let want = far_cmds(changes@, undo);
            assert(want[i as int] == (row, col, text@));
            assert(cmd_views(cmds@) =~= cmd_views(before).push((row, col, text@)));
            assert(want.take(i + 1) =~= want.take(i as int).push(want[i as int]));
        }
        i = i + 1;
    }
    proof {
        let want = far_cmds(changes@, undo);
        assert(want.take(i as int) =~= want);
    }
    cmds
}

/// The changes a find-and-replace undo (when `undo`) or redo records: for
/// each command that ran, the cell and command of `changes`, the cell as it
/// was (for an undo, the one `changes` recorded) and as it became.
fn far_entries(
    changes: &Vec<(usize, usize, Cell, Cell, String)>,
    res: &Vec<(Cell, Cell)>,
    undo: bool,
) -> (nc: Vec<(usize, usize, Cell, Cell, String)>)
    requires
        res@.len() <= changes@.len(),
    ensures
        nc@.len() == res@.len(),
        forall|k: int|
            0 <= k < nc@.len() ==> {
                &&& (#[trigger] nc@[k]).0 == changes@[k].0
                &&& nc@[k].1 == changes@[k].1
                &&& nc@[k].4@ == changes@[k].4@
                &&& nc@[k].3@ == res@[k].1@
                &&& nc@[k].2@ == (if undo {
                    changes@[k].2@
                } else {
                    res@[k].0@
                })
            },
{
    let mut nc: Vec<(usize, usize, Cell, Cell, String)> = Vec::new();
    let mut j: usize = 0;
    while j < res.len()
        invariant
            j <= res@.len(),
            res@.len() <= changes@.len(),
            nc@.len() == j,
            forall|k: int|
                0 <= k < j ==> {
                    &&& (#[trigger] nc@[k]).0 == changes@[k].0
                    &&& nc@[k].1 == changes@[k].1
                    &&& nc@[k].4@ == changes@[k].4@
                    &&& nc@[k].3@ == res@[k].1@
                    &&& nc@[k].2@ == (if undo {
                        changes@[k].2@
                    } else {
                        res@[k].0@
                    })
                },
        decreases res@.len() - j,
    {
        let old_cell = if undo {
            copy_cell(&changes[j].2)
        } else {
            copy_cell(&res[j].0)
        };
        let entry = (changes[j].0, changes[j].1, old_cell, copy_cell(&res[j].1), changes[j].4.clone());
        nc.push(entry);
        j = j + 1;
    }
    nc
}

/// Undoes (`undo`) or redoes the changes of a find-and-replace on sheet
/// `sheet_index`: runs their commands one after another (stopping at one
/// that cannot run) and records the changes made on the other history.
fn far_undo_redo(
    app: &mut Editor,
    sheet_index: usize,
    changes: Vec<(usize, usize, Cell, Cell, String)>,
    undo: bool,
)
    requires
        old(app).wf(),
        sheet_index < old(app).sheets@.len(),
        changes_fit(old(app).sheets@[sheet_index as int].sheet, changes@),
    ensures
        final(app).wf(),
        sheet_replaced(old(app).sheets@, final(app).sheets@, sheet_index as int),
        exists|bs: Seq<CellView>, afs: Seq<CellView>|
            #![trigger replay_ok(old(app).sheets@[sheet_index as int].sheet, final(app).sheets@[sheet_index as int].sheet, far_cmds(changes@, undo), bs, afs)]
            replay_ok(
                old(app).sheets@[sheet_index as int].sheet,
                final(app).sheets@[sheet_index as int].sheet,
                far_cmds(changes@, undo),
                bs,
                afs,
            ) && if undo {
                pushed_one(old(app).redo_stack@, final(app).redo_stack@) && far_record(
                    final(app).redo_stack@.last(),
                    sheet_index,
                    changes@,
                    bs,
                    afs,
                    true,
                ) && final(app).undo_stack@ == old(app).undo_stack@
            } else {
                pushed_one(old(app).undo_stack@, final(app).undo_stack@) && far_record(
                    final(app).undo_stack@.last(),
                    sheet_index,
                    changes@,
                    bs,
                    afs,
                    false,
                ) && final(app).redo_stack@ == old(app).redo_stack@
            },
        final(app).current_sheet_index == old(app).current_sheet_index,
        final(app).status == old(app).status,
        final(app).selected_cell == old(app).selected_cell,
        final(app).clipboard == old(app).clipboard,
        final(app).cut_copied_cell == old(app).cut_copied_cell,
{
    let ghost e0 = *app;
    let cmds = far_commands(&changes, undo);
    let mut sh = app.sheets.remove(sheet_index);
    let ghost s0 = sh.sheet;
    proof {
        assert forall|i: int| 0 <= i < cmds@.len() implies s0.valid_pos(
            (#[trigger] cmds@[i]).0 as int,
            cmds@[i].1 as int,
        ) by {
            assert(cmd_views(cmds@).len() == cmds@.len());
            assert(far_cmds(changes@, undo).len() == changes@.len());
            assert(cmd_views(cmds@)[i].0 == cmds@[i].0);
            assert(far_cmds(changes@, undo)[i].0 == changes@[i].0);
            assert(far_cmds(changes@, undo)[i].1 == changes@[i].1);
            assert(s0.valid_pos(changes@[i].0 as int, changes@[i].1 as int));
        }
    }
    let res = replay_commands(&mut sh.sheet, &cmds);
    app.sheets.insert(sheet_index, sh);
    proof {
        assert(cmd_views(cmds@).len() == cmds@.len());
        assert(far_cmds(changes@, undo).len() == changes@.len());
    }
    let nc = far_entries(&changes, &res, undo);
    let action = Action::FindAndReplace { sheet_index, changes: nc };
    if undo {
        app.redo_stack.push(action);
    } else {
        app.undo_stack.push(action);
    }
    proof {
        let e1 = *app;
        let bs = res@.map_values(|c: (Cell, Cell)| c.0@);
        let afs = res@.map_values(|c: (Cell, Cell)| c.1@);
        assert(e1.sheets@ =~= e0.sheets@.update(sheet_index as int, e1.sheets@[sheet_index as int]));
        assert forall|i: int| 0 <= i < nc@.len() implies e1.sheets@[sheet_index as int].sheet.valid_pos(
            (#[trigger] nc@[i]).0 as int,
            nc@[i].1 as int,
        ) by {
            assert(s0.valid_pos(changes@[i].0 as int, changes@[i].1 as int));
        }
        assert(action_fits(action, e1.sheets@));
        assert forall|k: int| 0 <= k < e1.undo_stack@.len() implies action_fits(
            #[trigger] e1.undo_stack@[k],
            e0.sheets@,
        ) || action_fits(e1.undo_stack@[k], e1.sheets@) by {
            if k < e0.undo_stack@.len() {
                assert(e1.undo_stack@[k] == e0.undo_stack@[k]);
            }
        }
        assert forall|k: int| 0 <= k < e1.redo_stack@.len() implies action_fits(
            #[trigger] e1.redo_stack@[k],
            e0.sheets@,
        ) || action_fits(e1.redo_stack@[k], e1.sheets@) by {
            if k < e0.redo_stack@.len() {
                assert(e1.redo_stack@[k] == e0.redo_stack@[k]);
            }
        }
        lemma_replaced_wf(e0, e1, sheet_index as int);
        if undo {
            assert(e1.redo_stack@.drop_last() =~= e0.redo_stack@);
        } else {
            assert(e1.undo_stack@.drop_last() =~= e0.undo_stack@);
        }
        assert(far_record(action, sheet_index, changes@, bs, afs, undo));
        assert(replay_ok(s0, e1.sheets@[sheet_index as int].sheet, far_cmds(changes@, undo), bs, afs));
    }
}


/// What undoing (`undo`) or redoing action `a` does to the sheets (from
/// `sheets0` to `sheets1`), to the other history (from `other0` to `other1`)
/// and to the status `status`.
pub open spec fn history_step(
    a: Action,
    sheets0: Seq<Sheets>,
    sheets1: Seq<Sheets>,
    other0: Seq<Action>,
    other1: Seq<Action>,
    status: Seq<char>,
    undo: bool,
) -> bool {
    match a {
        Action::Inserted { sheet_index, row, col, previous_cell } => {
            &&& sheet_replaced(sheets0, sheets1, sheet_index as int)
            &&& sheets1[sheet_index as int].sheet.cells()[spec_data_key(row as int, col as int) as i32]
                == previous_cell@
            &&& exists|m: Sheet|
                #[trigger] restored(sheets0[sheet_index as int].sheet, m.cells(), row, col, previous_cell@)
                    && recalculated_only(
                    m,
                    dep_key(row as int, col as int),
                    m.cells(),
                    sheets1[sheet_index as int].sheet.cells(),
                ) && dependents_hold(m, dep_key(row as int, col as int), sheets1[sheet_index as int].sheet.cells())
            &&& pushed_one(other0, other1)
            &&& inserted_record(
                other1.last(),
                sheet_index,
                row,
                col,
                sheets0[sheet_index as int].sheet.cell_at(row as int, col as int),
            )
            &&& status == if undo {
                "Undone cell edit"@
            } else {
                "Redone cell edit"@
            }
        },
        Action::CutAction { sheet_index, row1, col1, previous_cell1, row2, col2, previous_cell2 } => {
            &&& sheet_replaced(sheets0, sheets1, sheet_index as int)
            &&& exists|m1: Sheet, m2: Sheet|
                #![trigger pair_restored(sheets0[sheet_index as int].sheet, m1.cells(), row1, col1, previous_cell1@, row2, col2, previous_cell2@), m2.cells()]
                pair_restored(
                    sheets0[sheet_index as int].sheet,
                    m1.cells(),
                    row1,
                    col1,
                    previous_cell1@,
                    row2,
                    col2,
                    previous_cell2@,
                ) && recalculated_only(m1, dep_key(row1 as int, col1 as int), m1.cells(), m2.cells())
                    && recalculated_only(
                    m2,
                    dep_key(row2 as int, col2 as int),
                    m2.cells(),
                    sheets1[sheet_index as int].sheet.cells(),
                ) && dependents_hold(m2, dep_key(row2 as int, col2 as int), sheets1[sheet_index as int].sheet.cells())
            &&& pushed_one(other0, other1)
            &&& cut_record(
                other1.last(),
                sheet_index,
                row1,
                col1,
                sheets0[sheet_index as int].sheet.cell_at(row1 as int, col1 as int),
                row2,
                col2,
                sheets0[sheet_index as int].sheet.cell_at(row2 as int, col2 as int),
            )
            &&& status == if undo {
                "Undone cut"@
            } else {
                "Redone cut"@
            }
        },
        Action::FindAndReplace { sheet_index, changes } => {
            &&& sheet_replaced(sheets0, sheets1, sheet_index as int)
            &&& exists|bs: Seq<CellView>, afs: Seq<CellView>|
                #![trigger replay_ok(sheets0[sheet_index as int].sheet, sheets1[sheet_index as int].sheet, far_cmds(changes@, undo), bs, afs)]
                replay_ok(
                    sheets0[sheet_index as int].sheet,
                    sheets1[sheet_index as int].sheet,
                    far_cmds(changes@, undo),
                    bs,
                    afs,
                ) && far_record(other1.last(), sheet_index, changes@, bs, afs, undo)
            &&& pushed_one(other0, other1)
            &&& status == if undo {
                "Undone find and replace"@
            } else {
                "Redone find and replace"@
            }
        },
    }
}

/// Undoes (`undo`) or redoes `action`, recording its inverse on the other
/// history, and sets the status.
fn apply_history(app: &mut Editor, action: Action, undo: bool)
    requires
        old(app).wf(),
        action_fits(action, old(app).sheets@),
    ensures
        final(app).wf(),
        history_step(
            action,
            old(app).sheets@,
            final(app).sheets@,
            if undo {
                old(app).redo_stack@
            } else {
                old(app).undo_stack@
            },
            if undo {
                final(app).redo_stack@
            } else {
                final(app).undo_stack@
            },
            final(app).status@,
            undo,
        ),
        undo ==> final(app).undo_stack@ == old(app).undo_stack@,
        !undo ==> final(app).redo_stack@ == old(app).redo_stack@,
        final(app).current_sheet_index == old(app).current_sheet_index,
        final(app).selected_cell == old(app).selected_cell,
        final(app).clipboard == old(app).clipboard,
        final(app).cut_copied_cell == old(app).cut_copied_cell,
{
    match action {
        Action::Inserted { sheet_index, row, col, previous_cell } => {
            insert_undo_redo(sheet_index, row, col, previous_cell, app, !undo);
            app.status = if undo {
                "Undone cell edit".to_owned()
            } else {
                "Redone cell edit".to_owned()
            };
        },
        Action::CutAction { sheet_index, row1, col1, previous_cell1, row2, col2, previous_cell2 } => {
            cut_undo_redo(sheet_index, row1, col1, previous_cell1, row2, col2, previous_cell2, app, !undo);
            app.status = if undo {
                "Undone cut".to_owned()
            } else {
                "Redone cut".to_owned()
            };
        },
        Action::FindAndReplace { sheet_index, changes } => {
            far_undo_redo(app, sheet_index, changes, undo);
            app.status = if undo {
                "Undone find and replace".to_owned()
            } else {
                "Redone find and replace".to_owned()
            };
        },
    }
}

/// What `undo` does, from editor `old` to `new` (see `Editor::undo`).
pub open spec fn undone(old: Editor, new: Editor) -> bool {
    &&& new.current_sheet_index == old.current_sheet_index
    &&& new.selected_cell == old.selected_cell
    &&& if old.undo_stack@.len() == 0 {
        only_status_changed(old, new) && new.status@ == "Nothing to undo"@
    } else {
        &&& new.clipboard is None
        &&& new.cut_copied_cell is None
        &&& new.undo_stack@ == old.undo_stack@.drop_last()
        &&& history_step(
            old.undo_stack@.last(),
            old.sheets@,
            new.sheets@,
            old.redo_stack@,
            new.redo_stack@,
            new.status@,
            true,
        )
    }
}

/// What `redo` does, from editor `old` to `new` (see `Editor::redo`).
pub open spec fn redone(old: Editor, new: Editor) -> bool {
    &&& new.current_sheet_index == old.current_sheet_index
    &&& new.selected_cell == old.selected_cell
    &&& if old.redo_stack@.len() == 0 {
        only_status_changed(old, new) && new.status@ == "Nothing to redo"@
    } else {
        &&& new.clipboard is None
        &&& new.cut_copied_cell is None
        &&& new.redo_stack@ == old.redo_stack@.drop_last()
        &&& history_step(
            old.redo_stack@.last(),
            old.sheets@,
            new.sheets@,
            old.undo_stack@,
            new.undo_stack@,
            new.status@,
            false,
        )
    }
}

/// Undoing a paste of a copied cell gives the target cell back what it held
/// before the paste.
pub proof fn lemma_undo_restores_pasted_copy(e0: Editor, e1: Editor, e2: Editor)
    requires
        e0.wf(),
        e0.selected_cell is Some,
        e0.clipboard matches Some((_cell, how, _r, _c)) && how == CutCopy::Copied,
        pasted(e0, e1),
        undone(e1, e2),
    ensures
        ({
            let (row, col) = e0.selected_cell.unwrap();
            e2.sheets@[e0.current_sheet_index as int].sheet.cells()[spec_data_key(row as int, col as int) as i32]
                == e0.current().cell_at(row as int, col as int)
        }),
{
    let (row, col) = e0.selected_cell.unwrap();
    assert(e1.undo_stack@.len() > 0);
    let a = e1.undo_stack@.last();
    assert(inserted_record(a, e0.current_sheet_index, row as i16, col as i16, e0.current().cell_at(row as int, col as int)));
    assert(row as i16 as int == row as int && col as i16 as int == col as int);
}

/// Redoing an undone cell edit gives the cell back what it held before the
/// undo.
pub proof fn lemma_redo_restores_undone_edit(e0: Editor, e1: Editor, e2: Editor)
    requires
        e0.wf(),
        e0.undo_stack@.len() > 0,
        e0.undo_stack@.last() is Inserted,
        undone(e0, e1),
        redone(e1, e2),
    ensures
        ({
            let a = e0.undo_stack@.last();
            e2.sheets@[a->Inserted_sheet_index as int].sheet.cells()[spec_data_key(
                a->Inserted_row as int,
                a->Inserted_col as int,
            ) as i32] == e0.sheets@[a->Inserted_sheet_index as int].sheet.cell_at(
                a->Inserted_row as int,
                a->Inserted_col as int,
            )
        }),
{
    assert(e1.redo_stack@.len() > 0);
}

impl Editor {
    /// Undoes the last recorded edit: empties the clipboard, takes the edit
    /// off the undo history, undoes it (see `insert_undo_redo`,
    /// `cut_undo_redo` and the find-and-replace undo), records its inverse on
    /// the redo history and sets the status to say what was undone. With
    /// nothing to undo the status becomes "Nothing to undo".
    pub fn undo(&mut self)
        requires
            old(self).wf(),
        ensures
            final(self).wf(),
            undone(*old(self), *final(self)),
    {
        if self.undo_stack.len() == 0 {
            self.status = "Nothing to undo".to_owned();
            return;
        }
        self.clear_clipboard();
        let ghost e0 = *self;
        let action = self.undo_stack.pop().unwrap();
        proof {
            assert(self.undo_stack@ =~= e0.undo_stack@.drop_last());
            assert(action == e0.undo_stack@.last());
            assert(action_fits(e0.undo_stack@[e0.undo_stack@.len() - 1], e0.sheets@));
            assert forall|i: int| 0 <= i < self.undo_stack@.len() implies action_fits(
                #[trigger] self.undo_stack@[i],
                self.sheets@,
            ) by {
                assert(self.undo_stack@[i] == e0.undo_stack@[i]);
            }
        }
        apply_history(self, action, true);
    }

    /// Redoes the last undone edit: empties the clipboard, takes the edit
    /// off the redo history, redoes it, records its inverse on the undo
    /// history and sets the status to say what was redone. With nothing to
    /// redo the status becomes "Nothing to redo".
    pub fn redo(&mut self)
        requires
            old(self).wf(),
        ensures
            final(self).wf(),
            redone(*old(self), *final(self)),
    {
        if self.redo_stack.len() == 0 {
            self.status = "Nothing to redo".to_owned();
            return;
        }
        self.clear_clipboard();
        let ghost e0 = *self;
        let action = self.redo_stack.pop().unwrap();
        proof {
            assert(self.redo_stack@ =~= e0.redo_stack@.drop_last());
            assert(action == e0.redo_stack@.last());
            assert(action_fits(e0.redo_stack@[e0.redo_stack@.len() - 1], e0.sheets@));
            assert forall|i: int| 0 <= i < self.redo_stack@.len() implies action_fits(
                #[trigger] self.redo_stack@[i],
                self.sheets@,
            ) by {
                assert(self.redo_stack@[i] == e0.redo_stack@[i]);
            }
        }
        apply_history(self, action, false);
    }
}


/// One step of a find-and-replace over sheet `s`, at `(r, c)`, giving `t`: a
/// cell whose text is `find` has the command writing `replace` run on it;
/// any other is passed over.
pub open spec fn scan_step(s: Sheet, t: Sheet, r: int, c: int, find: Seq<char>, replace: Seq<char>) -> bool {
    if content_text(s.cell_at(r, c)) == find {
        command_replayed(s, t, r, c, assign_command(r, c, replace))
    } else {
        t == s
    }
}

/// The sheets `states` are those a find-and-replace of `find` by `replace`
/// goes through, cell by cell in row-major order over `cols` columns.
pub open spec fn scanned(states: Seq<Sheet>, cols: int, find: Seq<char>, replace: Seq<char>) -> bool {
    forall|p: int|
        0 <= p < states.len() - 1 ==> #[trigger] scan_step(states[p], states[p + 1], p / cols, p % cols, find, replace)
}

/// A change recorded by a find-and-replace of `find` by `replace` in sheet
/// `s`: a cell inside it that showed `find`, and the command that wrote
/// `replace` there.
pub open spec fn replace_change(s: Sheet, ch: (usize, usize, Cell, Cell, String), find: Seq<char>, replace: Seq<char>) -> bool {
    &&& s.valid_pos(ch.0 as int, ch.1 as int)
    &&& content_text(ch.2@) == find
    &&& ch.4@ == assign_command(ch.0 as int, ch.1 as int, replace)
}

/// The status of a find-and-replace that changed `n` cells.
pub open spec fn replace_status(n: nat) -> Seq<char> {
    if n == 0 {
        "No matches found"@
    } else {
        "Replaced "@ + decimal_text(n as int) + " instances"@
    }
}

/// Whether the cell visited at step `p` of a scan through `states` (row
/// by row over `cols` columns) showed `find` when it was visited.
pub open spec fn matched_at(states: Seq<Sheet>, p: int, cols: int, find: Seq<char>) -> bool {
    content_text(states[p].cell_at(p / cols, p % cols)) == find
}

/// Find and replace compares a cell holding a string on that string: the
/// cell is a match exactly when its string is the text searched for,
/// whatever number or error flag it also holds.
pub proof fn lemma_string_cells_match_on_string(states: Seq<Sheet>, p: int, cols: int, find: Seq<char>)
    requires
        states[p].cell_at(p / cols, p % cols).string is Some,
    ensures
        matched_at(states, p, cols, find) <==> states[p].cell_at(p / cols, p % cols).string->0 == find,
{
}

/// A cell in error that holds no string is a match exactly for the text
/// "Err".
pub proof fn lemma_error_cells_match_err(states: Seq<Sheet>, p: int, cols: int, find: Seq<char>)
    requires
        states[p].cell_at(p / cols, p % cols).string is None,
        states[p].cell_at(p / cols, p % cols).is_error,
    ensures
        matched_at(states, p, cols, find) <==> find == seq!['E', 'r', 'r'],
{
    reveal_strlit("Err");
    assert("Err"@ =~= seq!['E', 'r', 'r']);
}

/// A cell holding a plain number (no string, not in error) is a match only
/// for a text that reads as that number, and always for the number written
/// out in decimal.
pub proof fn lemma_number_cells_match_their_value(states: Seq<Sheet>, p: int, cols: int, find: Seq<char>)
    requires
        states[p].cell_at(p / cols, p % cols).string is None,
        !states[p].cell_at(p / cols, p % cols).is_error,
    ensures
        matched_at(states, p, cols, find) ==> crate::parser::parse_i32(find) == Some(
            states[p].cell_at(p / cols, p % cols).value,
        ),
        matched_at(
            states,
            p,
            cols,
            decimal_text(states[p].cell_at(p / cols, p % cols).value as int),
        ),
{
    crate::ui::utils::lemma_decimal_text_parses(states[p].cell_at(p / cols, p % cols).value);
}

/// The changes `changes` are those of the steps `steps` of a scan through
/// `states` over `cols` columns: one per step at which the cell showed
/// `find`, in the order of the scan, each recording the cell's position, the
/// cell before and after, and the command that wrote `replace` there.
pub open spec fn scan_changes(
    states: Seq<Sheet>,
    cols: int,
    find: Seq<char>,
    replace: Seq<char>,
    changes: Seq<(usize, usize, Cell, Cell, String)>,
    steps: Seq<int>,
    visited: int,
) -> bool {
    &&& steps.len() == changes.len()
    &&& forall|i: int, j: int| 0 <= i < j < steps.len() ==> steps[i] < steps[j]
    &&& forall|i: int|
        0 <= i < steps.len() ==> {
            let p = #[trigger] steps[i];
            &&& 0 <= p < visited
            &&& matched_at(states, p, cols, find)
            &&& changes[i].0 == p / cols
            &&& changes[i].1 == p % cols
            &&& changes[i].2@ == states[p].cell_at(p / cols, p % cols)
            &&& changes[i].3@ == states[p + 1].cell_at(p / cols, p % cols)
            &&& changes[i].4@ == assign_command(p / cols, p % cols, replace)
        }
    &&& forall|q: int| 0 <= q < visited && #[trigger] matched_at(states, q, cols, find) ==> steps.contains(q)
}

/// `s1` is `s0` after the find-and-replace of `find` by `replace` went over
/// every cell (see `scanned`), making the changes `changes` (see
/// `scan_changes`).
pub open spec fn replaced_in(
    s0: Sheet,
    s1: Sheet,
    find: Seq<char>,
    replace: Seq<char>,
    changes: Seq<(usize, usize, Cell, Cell, String)>,
) -> bool {
    exists|states: Seq<Sheet>, steps: Seq<int>|
        #![trigger scan_changes(states, s0.cols as int, find, replace, changes, steps, s0.rows * s0.cols)]
        {
            &&& states.len() == s0.rows * s0.cols + 1
            &&& states[0] == s0
            &&& states.last() == s1
            &&& scanned(states, s0.cols as int, find, replace)
            &&& scan_changes(states, s0.cols as int, find, replace, changes, steps, s0.rows * s0.cols)
        }
}

/// Whether the command writing `replace` into any cell of `s` can run (no
/// row, column or number in it is too large for an `i32`).
pub open spec fn replace_fits(s: Sheet, replace: Seq<char>) -> bool {
    forall|r: int, c: int| s.valid_pos(r, c) ==> !cannot_run(#[trigger] assign_command(r, c, replace))
}

/// Runs the find-and-replace scan over the whole of `sheet` (see
/// `scanned`). Returns the changes it made.
#[verifier::rlimit(80)]
fn replace_scan(sheet: &mut Sheet, find: &String, replace: &str) -> (changes: Vec<(usize, usize, Cell, Cell, String)>)
    requires
        sheet_ok(*old(sheet)),
        replace_fits(*old(sheet), replace@),
    ensures
        sheet_ok(*final(sheet)),
        final(sheet).rows == old(sheet).rows,
        final(sheet).cols == old(sheet).cols,
        forall|q: i32| old(sheet).data@.contains_key(q) ==> final(sheet).data@.contains_key(q),
        forall|i: int|
            0 <= i < changes@.len() ==> replace_change(*old(sheet), #[trigger] changes@[i], find@, replace@),
        replaced_in(*old(sheet), *final(sheet), find@, replace@, changes@),
        changes@.len() <= old(sheet).rows * old(sheet).cols,
{
    let ghost s0 = *sheet;
    let rows = sheet.rows as usize;
    let cols = sheet.cols as usize;
    proof {
        assert(rows * cols <= 1000 * 32767) by (nonlinear_arith)
            requires
                rows <= 1000,
                cols <= 32767,
        ;
    }
    let total = rows * cols;
    let mut changes: Vec<(usize, usize, Cell, Cell, String)> = Vec::new();
    let mut p: usize = 0;
    let ghost mut states: Seq<Sheet> = seq![*sheet];
    let ghost mut steps: Seq<int> = Seq::empty();
    while p < total
        invariant
            sheet_ok(*sheet),
            sheet.rows == s0.rows,
            sheet.cols == s0.cols,
            rows == s0.rows,
            cols == s0.cols,
            total == rows * cols,
            total <= 1000 * 32767,
            replace_fits(s0, replace@),
            forall|q: i32| s0.data@.contains_key(q) ==> sheet.data@.contains_key(q),
            forall|i: int| 0 <= i < changes@.len() ==> replace_change(s0, #[trigger] changes@[i], find@, replace@),
            p <= total,
            changes@.len() <= p,
            states.len() == p + 1,
            states[0] == s0,
            states.last() == *sheet,
            scanned(states, cols as int, find@, replace@),
            scan_changes(states, cols as int, find@, replace@, changes@, steps, p as int),
        decreases total - p,
    {
        let row = p / cols;
        let col = p % cols;
        proof {
            assert(cols > 0) by (nonlinear_arith)
                requires
                    p < rows * cols,
            ;
            assert(0 <= row < rows) by (nonlinear_arith)
                requires
                    p < rows * cols,
                    row == p / cols,
                    cols > 0,
            ;
        }
        let cell = cell_copy_at(sheet, row, col);
        let content = cell_content(&cell);
        let ghost sb = *sheet;
        let ghost old_states = states;
        let ghost old_changes = changes@;
        let ghost old_steps = steps;
        if content == *find {
            let cmd = build_assign(row, col, replace);
            proof {
                assert(s0.valid_pos(row as int, col as int));
                assert(!cannot_run(assign_command(row as int, col as int, replace@)));
            }
            let ran = run_on_cell(sheet, row, col, &cmd);
            let new_cell = cell_copy_at(sheet, row, col);
            proof {
                assert(replace_change(s0, (row, col, cell, new_cell, cmd), find@, replace@));
            }
            changes.push((row, col, cell, new_cell, cmd));
            proof {
                states = states.push(*sheet);
                steps = steps.push(p as int);
                assert(scan_step(sb, *sheet, row as int, col as int, find@, replace@));
            }
        } else {
            proof {
                states = states.push(*sheet);
                assert(scan_step(sb, sb, row as int, col as int, find@, replace@));
            }
        }
        proof {
            assert forall|q: int| 0 <= q < states.len() - 1 implies #[trigger] scan_step(
                states[q],
                states[q + 1],
                q / cols as int,
                q % cols as int,
                find@,
                replace@,
            ) by {
                if q < p {
                    assert(states[q] == old_states[q]);
                    assert(states[q + 1] == old_states[q + 1]);
                }
            }
            assert forall|q: int| 0 <= q <= p implies #[trigger] states[q] == old_states[q] by {}
            assert(matched_at(states, p as int, cols as int, find@) == (content@ == find@));
            assert forall|q: int| 0 <= q < p + 1 && #[trigger] matched_at(states, q, cols as int, find@) implies steps.contains(q) by {
                if q < p {
                    assert(matched_at(old_states, q, cols as int, find@));
                    assert(old_steps.contains(q));
                    let i = choose|i: int| 0 <= i < old_steps.len() && old_steps[i] == q;
                    assert(steps[i] == q);
                } else {
                    assert(steps[steps.len() - 1] == q);
                }
            }
            assert forall|i: int| 0 <= i < steps.len() implies {
                let pp = #[trigger] steps[i];
                &&& 0 <= pp < p + 1
                &&& matched_at(states, pp, cols as int, find@)
                &&& changes@[i].0 == pp / cols as int
                &&& changes@[i].1 == pp % cols as int
                &&& changes@[i].2@ == states[pp].cell_at(pp / cols as int, pp % cols as int)
                &&& changes@[i].3@ == states[pp + 1].cell_at(pp / cols as int, pp % cols as int)
                &&& changes@[i].4@ == assign_command(pp / cols as int, pp % cols as int, replace@)
            } by {
                if i < old_changes.len() {
                    assert(changes@[i] == old_changes[i]);
                    assert(matched_at(old_states, steps[i], cols as int, find@));
                }
            }
            assert(scan_changes(states, cols as int, find@, replace@, changes@, steps, p + 1));
        }
        p = p + 1;
    }
    proof {
        assert(replaced_in(s0, *sheet, find@, replace@, changes@));
    }
    changes
}

impl Editor {
    /// Replaces, in the current sheet, every cell whose text (its string,
    /// else "Err" when in error, else its value) is `find_text`: going
    /// through the cells row by row, each such cell has its formula's
    /// dependencies removed and the command writing `replace_text` into it
    /// run. The clipboard is emptied first. When cells were replaced, the
    /// changes are recorded for undo, the redo history is emptied and the
    /// status becomes "Replaced <n> instances"; otherwise it becomes "No
    /// matches found". A replacement text that makes a command with a
    /// number too large for an `i32` is not accepted.
    pub fn find_and_replace(&mut self, find_text: &str, replace_text: &str)
        requires
            old(self).wf(),
            replace_fits(old(self).current(), replace_text@),
        ensures
            final(self).wf(),
            final(self).clipboard is None,
            final(self).cut_copied_cell is None,
            final(self).current_sheet_index == old(self).current_sheet_index,
            final(self).selected_cell == old(self).selected_cell,
            sheet_replaced(old(self).sheets@, final(self).sheets@, old(self).current_sheet_index as int),
            if final(self).undo_stack@ == old(self).undo_stack@ {
                &&& replaced_in(old(self).current(), final(self).current(), find_text@, replace_text@, Seq::empty())
                &&& final(self).redo_stack@ == old(self).redo_stack@
                &&& final(self).status@ == replace_status(0)
            } else {
                &&& pushed_one(old(self).undo_stack@, final(self).undo_stack@)
                &&& final(self).undo_stack@.last() matches Action::FindAndReplace { sheet_index, changes }
                    && sheet_index == old(self).current_sheet_index && changes@.len() > 0 && replaced_in(
                    old(self).current(),
                    final(self).current(),
                    find_text@,
                    replace_text@,
                    changes@,
                ) && final(self).status@ == replace_status(changes@.len())
                &&& final(self).redo_stack@.len() == 0
            },
    {
        self.clear_clipboard();
        let ghost e0 = *self;
        let ci = self.current_sheet_index;
        let find = find_text.to_owned();
        let mut sh = self.sheets.remove(ci);
        let changes = replace_scan(&mut sh.sheet, &find, replace_text);
        self.sheets.insert(ci, sh);
        proof {
            let e1 = *self;
            assert(e1.sheets@ =~= e0.sheets@.update(ci as int, e1.sheets@[ci as int]));
            lemma_replaced_wf(e0, e1, ci as int);
        }
        // The dependency tree the scan would order here is empty, so no
        // further recalculation follows.
        if changes.len() > 0 {
            let n = changes.len();
            proof {
                let r = e0.current().rows;
                let c = e0.current().cols;
                assert(n <= 1000 * 32767) by (nonlinear_arith)
                    requires
                        n <= r * c,
                        0 <= r <= 1000,
                        0 <= c <= 32767,
                ;
            }
            let ghost e1 = *self;
            let ghost ch = changes@;
            let action = Action::FindAndReplace { sheet_index: ci, changes };
            self.undo_stack.push(action);
            self.redo_stack.clear();
            let mut status = String::new();
            push_text(&mut status, "Replaced ");
            push_decimal(&mut status, n as i64);
            push_text(&mut status, " instances");
            proof {
                reveal_strlit("Replaced ");
                reveal_strlit(" instances");
                assert(status@ =~= replace_status(n as nat));
                let e2 = *self;
                assert forall|i: int| 0 <= i < ch.len() implies e1.current().valid_pos(
                    (#[trigger] ch[i]).0 as int,
                    ch[i].1 as int,
                ) by {
                    assert(replace_change(e0.current(), ch[i], find_text@, replace_text@));
                }
                assert(action_fits(action, e2.sheets@));
                assert forall|k: int| 0 <= k < e2.undo_stack@.len() implies action_fits(
                    #[trigger] e2.undo_stack@[k],
                    e2.sheets@,
                ) by {
                    if k < e1.undo_stack@.len() {
                        assert(e2.undo_stack@[k] == e1.undo_stack@[k]);
                    }
                }
                assert(e2.undo_stack@.drop_last() =~= e0.undo_stack@);
                assert(e2.undo_stack@ != e0.undo_stack@);
            }
            self.status = status;
        } else {
            self.status = "No matches found".to_owned();
            proof {
                reveal_strlit("No matches found");
                assert(changes@ =~= Seq::<(usize, usize, Cell, Cell, String)>::empty());
            }
        }
    }
}


/// Writing a line back keeps every stored key.
proof fn lemma_write_line_keeps(
    m: Map<i32, CellView>,
    src: Seq<Seq<CellView>>,
    o: int,
    o1: int,
    i1: int,
    j_end: int,
    t: bool,
)
    ensures
        forall|q: i32|
            m.contains_key(q) ==> #[trigger] crate::sorting::write_line(m, src, o, o1, i1, j_end, t).contains_key(q),
    decreases j_end - i1,
{
    if j_end > i1 {
        lemma_write_line_keeps(m, src, o, o1, i1, j_end - 1, t);
        let m0 = crate::sorting::write_line(m, src, o, o1, i1, j_end - 1, t);
        assert forall|q: i32| m.contains_key(q) implies #[trigger] crate::sorting::write_line(
            m,
            src,
            o,
            o1,
            i1,
            j_end,
            t,
        ).contains_key(q) by {
            assert(m0.contains_key(q));
        }
    }
}

/// Writing a block of lines back keeps every stored key.
proof fn lemma_write_block_keeps(
    m: Map<i32, CellView>,
    src: Seq<Seq<CellView>>,
    o1: int,
    o_end: int,
    i1: int,
    i2: int,
    t: bool,
)
    ensures
        forall|q: i32|
            m.contains_key(q) ==> #[trigger] crate::sorting::write_block(m, src, o1, o_end, i1, i2, t).contains_key(q),
    decreases o_end - o1,
{
    if o_end > o1 {
        lemma_write_block_keeps(m, src, o1, o_end - 1, i1, i2, t);
        lemma_write_line_keeps(
            crate::sorting::write_block(m, src, o1, o_end - 1, i1, i2, t),
            src,
            o_end - 1,
            o1,
            i1,
            i2 + 1,
            t,
        );
    }
}

/// Whether the cell at `(r, c)` of `s` holds a string.
pub open spec fn has_string_at(s: Sheet, r: int, c: int) -> bool {
    s.cell_at(r, c).string is Some
}

/// Whether the cell at position `i` of line `c` of `s` holds a string: the
/// cell at row `c`, column `i` when `by_row`, else at row `i`, column `c`.
pub open spec fn string_on_line(s: Sheet, by_row: bool, c: int, i: int) -> bool {
    if by_row {
        has_string_at(s, c, i)
    } else {
        has_string_at(s, i, c)
    }
}

/// Whether the cell at `(r, c)` of `s` holds a formula.
pub open spec fn has_formula_at(s: Sheet, r: int, c: int) -> bool {
    !(s.cell_at(r, c).op_code is NoConstraint || s.cell_at(r, c).op_code is String)
}

/// The status with which `sort_extension` refuses to sort the rectangle
/// `(row1, col1) ..= (row2, col2)` of `s` by `key`, if it does: a rectangle
/// with its corners out of order, a key outside it, a string in the key's
/// line, or a formula in the rectangle (each check reaching one row and one
/// column past the rectangle).
pub open spec fn sort_refusal(
    s: Sheet,
    col1: int,
    row1: int,
    col2: int,
    row2: int,
    key: Seq<char>,
    is_column: bool,
) -> Option<Seq<char>> {
    if col2 < col1 || row2 < row1 {
        Some("wrong range"@)
    } else if is_column && (crate::sheet_functions::col_value(key) > col2 || crate::sheet_functions::col_value(key)
        < col1) {
        Some("sorted column out of range"@)
    } else if !is_column && (crate::parser::parse_i32(key).unwrap() - 1 > row2 || crate::parser::parse_i32(
        key,
    ).unwrap() - 1 < row1) {
        Some("sorted row out of range"@)
    } else if is_column && exists|i: int|
        row1 <= i <= row2 + 1 && #[trigger] string_on_line(s, false, crate::sheet_functions::col_value(key), i) {
        Some("sorted column has string"@)
    } else if !is_column && exists|i: int|
        col1 <= i <= col2 + 1 && #[trigger] string_on_line(s, true, crate::parser::parse_i32(key).unwrap() - 1, i) {
        Some("sorted row has string"@)
    } else if exists|i: int, j: int| row1 <= i <= row2 + 1 && col1 <= j <= col2 + 1 && #[trigger] has_formula_at(s, i, j) {
        Some("range has constraints"@)
    } else {
        None
    }
}

/// Whether a cell of `s` at a row `r1 ..= r2` and column `c` (or, when
/// `by_row`, at row `c` and a column `r1 ..= r2`) holds a string.
fn string_in_line(s: &Sheet, r1: i32, r2: i32, c: i32, by_row: bool) -> (b: bool)
    requires
        r1 <= r2 + 1,
        i16::MIN <= r1,
        r2 < i16::MAX,
        i16::MIN <= c <= i16::MAX,
    ensures
        b == exists|i: int| r1 <= i <= r2 + 1 && #[trigger] string_on_line(*s, by_row, c as int, i),
{
    let mut i = r1;
    while i <= r2 + 1
        invariant
            r1 <= i <= r2 + 2,
            r2 < i16::MAX,
            i16::MIN <= r1,
            i16::MIN <= c <= i16::MAX,
            forall|k: int| r1 <= k < i ==> !#[trigger] string_on_line(*s, by_row, c as int, k),
        decreases r2 + 2 - i,
    {
        let found = if by_row {
            match s.get_cell(c as i16, i as i16) {
                Some(x) => x.string.is_some(),
                None => false,
            }
        } else {
            match s.get_cell(i as i16, c as i16) {
                Some(x) => x.string.is_some(),
                None => false,
            }
        };
        if found {
            proof {
                assert(string_on_line(*s, by_row, c as int, i as int));
            }
            return true;
        }
        i = i + 1;
    }
    false
}

/// Whether a cell of `s` in rows `r1 ..= r2 + 1` and columns `c1 ..= c2 + 1`
/// holds a formula.
fn formula_in_block(s: &Sheet, r1: i32, r2: i32, c1: i32, c2: i32) -> (b: bool)
    requires
        r1 <= r2 + 1,
        c1 <= c2 + 1,
        i16::MIN <= r1,
        r2 < i16::MAX,
        i16::MIN <= c1,
        c2 < i16::MAX,
    ensures
        b == exists|i: int, j: int| r1 <= i <= r2 + 1 && c1 <= j <= c2 + 1 && #[trigger] has_formula_at(*s, i, j),
{
    let mut i = r1;
    while i <= r2 + 1
        invariant
            r1 <= i <= r2 + 2,
            r2 < i16::MAX,
            i16::MIN <= r1,
            i16::MIN <= c1,
            c1 <= c2 + 1,
            c2 < i16::MAX,
            forall|k: int, l: int| r1 <= k < i && c1 <= l <= c2 + 1 ==> !#[trigger] has_formula_at(*s, k, l),
        decreases r2 + 2 - i,
    {
        let mut j = c1;
        while j <= c2 + 1
            invariant
                r1 <= i <= r2 + 1,
                c1 <= j <= c2 + 2,
                r2 < i16::MAX,
                i16::MIN <= r1,
                i16::MIN <= c1,
                c2 < i16::MAX,
                forall|k: int, l: int| r1 <= k < i && c1 <= l <= c2 + 1 ==> !#[trigger] has_formula_at(*s, k, l),
                forall|l: int| c1 <= l < j ==> !#[trigger] has_formula_at(*s, i as int, l),
            decreases c2 + 2 - j,
        {
            let f = match s.get_cell(i as i16, j as i16) {
                Some(x) => match x.op_code {
                    OpCode::NoConstraint | OpCode::String => false,
                    _ => true,
                },
                None => false,
            };
            if f {
                proof {
                    assert(has_formula_at(*s, i as int, j as int));
                }
                return true;
            }
            j = j + 1;
        }
        i = i + 1;
    }
    false
}


/// `t` is `s` with the rectangle `(row1, col1) ..= (row2, col2)` sorted as
/// `sort_sheet` sorts it.
pub open spec fn block_sorted(
    s: Sheet,
    t: Sheet,
    col1: int,
    row1: int,
    col2: int,
    row2: int,
    key: Seq<char>,
    is_column: bool,
    asc: bool,
) -> bool {
    exists|order: Seq<usize>|
        {
            &&& #[trigger] sort_of(s, row1, col1, row2, col2, key, is_column, asc, order)
            &&& t.cells() == if is_column {
                write_block(s.cells(), permuted(rect_lines(s.cells(), row1, col1, row2, col2, true), order), row1, row2 + 1, col1, col2, false)
            } else {
                write_block(s.cells(), permuted(rect_lines(s.cells(), row1, col1, row2, col2, false), order), col1, col2 + 1, row1, row2, true)
            }
        }
}

/// Sorts the rectangle `(row1, col1) ..= (row2, col2)` of the current sheet
/// (see `sort_sheet`) unless `sort_refusal` gives a status to refuse it
/// with, which then becomes the status. A key that names no column (when
/// sorting rows) or no row number (when sorting columns) is not accepted.
pub fn sort_extension(
    col1: i32,
    row1: i32,
    col2: i32,
    row2: i32,
    sort_key: &str,
    is_column: bool,
    sort_order: &str,
    app: &mut Editor,
)
    requires
        old(app).wf(),
        !(col2 < col1 || row2 < row1) ==> sort_key_ok(sort_key@, is_column),
        i16::MIN <= row1,
        row2 < i16::MAX,
        i16::MIN <= col1,
        col2 < i16::MAX,
    ensures
        final(app).wf(),
        final(app).current_sheet_index == old(app).current_sheet_index,
        final(app).selected_cell == old(app).selected_cell,
        final(app).clipboard == old(app).clipboard,
        final(app).cut_copied_cell == old(app).cut_copied_cell,
        final(app).undo_stack@ == old(app).undo_stack@,
        final(app).redo_stack@ == old(app).redo_stack@,
        match sort_refusal(
            old(app).current(),
            col1 as int,
            row1 as int,
            col2 as int,
            row2 as int,
            sort_key@,
            is_column,
        ) {
            Some(msg) => final(app).sheets@ == old(app).sheets@ && final(app).status@ == msg,
            None => {
                &&& final(app).status == old(app).status
                &&& sheet_replaced(old(app).sheets@, final(app).sheets@, old(app).current_sheet_index as int)
                &&& block_sorted(
                    old(app).current(),
                    final(app).current(),
                    col1 as int,
                    row1 as int,
                    col2 as int,
                    row2 as int,
                    sort_key@,
                    is_column,
                    sort_order@ == seq!['a', 's', 'c'],
                )
            },
        },
{
    let ghost e0 = *app;
    if col2 < col1 || row2 < row1 {
        app.status = "wrong range".to_owned();
        return;
    }
    let ci = app.current_sheet_index;
    if is_column {
        let sort_col = crate::sheet_functions::col_name_to_col_num(sort_key);
        if sort_col > col2 || sort_col < col1 {
            app.status = "sorted column out of range".to_owned();
            return;
        }
        if string_in_line(&app.sheets[ci].sheet, row1, row2, sort_col, false) {
            app.status = "sorted column has string".to_owned();
            return;
        }
    } else {
        let sort_row = crate::parser::parse_i32_text(sort_key).unwrap() - 1;
        if sort_row > row2 || sort_row < row1 {
            app.status = "sorted row out of range".to_owned();
            return;
        }
        if string_in_line(&app.sheets[ci].sheet, col1, col2, sort_row, true) {
            app.status = "sorted row has string".to_owned();
            return;
        }
    }
    if formula_in_block(&app.sheets[ci].sheet, row1, row2, col1, col2) {
        app.status = "range has constraints".to_owned();
        return;
    }
    // The edit is not recorded: the histories hold no sort.
    let mut sh = app.sheets.remove(ci);
    let ghost s0 = sh.sheet;
    crate::ui_sheet_functions::sort_sheet(&mut sh.sheet, col1, row1, col2, row2, sort_key, is_column, sort_order);
    let ghost s1 = sh.sheet;
    app.sheets.insert(ci, sh);
    proof {
        let e1 = *app;
        assert(e1.sheets@ =~= e0.sheets@.update(ci as int, e1.sheets@[ci as int]));
        let order = choose|order: Seq<usize>|
            {
                &&& sort_of(s0, row1 as int, col1 as int, row2 as int, col2 as int, sort_key@, is_column, sort_order@ == seq!['a', 's', 'c'], order)
                &&& s1.cells() == if is_column {
                    write_block(s0.cells(), permuted(rect_lines(s0.cells(), row1 as int, col1 as int, row2 as int, col2 as int, true), order), row1 as int, row2 + 1, col1 as int, col2 as int, false)
                } else {
                    write_block(s0.cells(), permuted(rect_lines(s0.cells(), row1 as int, col1 as int, row2 as int, col2 as int, false), order), col1 as int, col2 + 1, row1 as int, row2 as int, true)
                }
            };
        if is_column {
            lemma_write_block_keeps(s0.cells(), permuted(rect_lines(s0.cells(), row1 as int, col1 as int, row2 as int, col2 as int, true), order), row1 as int, row2 + 1, col1 as int, col2 as int, false);
        } else {
            lemma_write_block_keeps(s0.cells(), permuted(rect_lines(s0.cells(), row1 as int, col1 as int, row2 as int, col2 as int, false), order), col1 as int, col2 + 1, row1 as int, row2 as int, true);
        }
        assert forall|q: i32| s0.data@.contains_key(q) implies s1.data@.contains_key(q) by {
            assert(s0.cells().contains_key(q));
            assert(s1.cells().contains_key(q));
        }
        lemma_replaced_wf(e0, e1, ci as int);
        assert(block_sorted(s0, s1, col1 as int, row1 as int, col2 as int, row2 as int, sort_key@, is_column, sort_order@ == seq!['a', 's', 'c']));
    }
}


/// The cell that `t` names, when it is a cell name (capital letters, then
/// digits, and nothing else): its column number and its row as written.
pub open spec fn cell_name(t: Seq<char>) -> Option<(int, int)> {
    let r = crate::parser::ref_at(t, 0);
    if r.0 && r.3 == t.len() {
        Some((r.1, r.2))
    } else {
        None
    }
}

/// Whether every character of `t` is an ASCII letter.
pub open spec fn all_letters(t: Seq<char>) -> bool {
    forall|i: int|
        0 <= i < t.len() ==> (('A' <= #[trigger] t[i] && t[i] <= 'Z') || ('a' <= t[i] && t[i] <= 'z'))
}

/// Whether every character of `t` is an ASCII letter.
fn letters_only(t: &Vec<char>) -> (b: bool)
    ensures
        b == all_letters(t@),
{
    let mut i: usize = 0;
    while i < t.len()
        invariant
            i <= t@.len(),
            forall|k: int| 0 <= k < i ==> (('A' <= #[trigger] t@[k] && t@[k] <= 'Z') || ('a' <= t@[k] && t@[k] <= 'z')),
        decreases t@.len() - i,
    {
        let c = t[i];
        if !(('A' <= c && c <= 'Z') || ('a' <= c && c <= 'z')) {
            proof {
                assert(t@[i as int] == c);
            }
            return false;
        }
        i = i + 1;
    }
    true
}

/// The inputs of the sort dialog that `sort_button_parser` can run on: the
/// cells named fit an `i32` and the positions of cells (at most 32766 for the
/// last row and column), and, when the rectangle's corners are in order, the
/// key names a column (all letters) or a row number.
pub open spec fn sort_inputs_ok(key: Seq<char>, start: Seq<char>, end: Seq<char>) -> bool {
    &&& cell_name(start) is Some ==> crate::parser::fit(cell_name(start).unwrap().0) is Some
        && crate::parser::fit(cell_name(start).unwrap().1) is Some
    &&& cell_name(end) is Some ==> crate::parser::fit(cell_name(end).unwrap().0) is Some
        && crate::parser::fit(cell_name(end).unwrap().1) is Some && cell_name(end).unwrap().0 < i16::MAX
        && cell_name(end).unwrap().1 - 1 < i16::MAX
    &&& (cell_name(start) is Some && cell_name(end) is Some && cell_name(start).unwrap().0 <= cell_name(
        end,
    ).unwrap().0 && cell_name(start).unwrap().1 <= cell_name(end).unwrap().1) ==> crate::sorting::sort_key_ok(
        key,
        all_letters(key),
    )
}

/// Runs the sort dialog: with the key `sort_col_row` (a column name sorts
/// rows, anything else is a row number and sorts columns) and the corners
/// `range_start` and `range_end` given as cell names, sorts the rectangle
/// (see `sort_extension`, rows counted from 1) in ascending order when
/// `sort_asc`, else descending, and sets the status to "Sorting completed".
/// An empty input gives "Please enter required data"; a corner that is not a
/// cell name gives "Invalid range start" or "Invalid range end".
pub fn sort_button_parser(app: &mut Editor, sort_col_row: &str, range_start: &str, range_end: &str, sort_asc: bool)
    requires
        old(app).wf(),
        sort_inputs_ok(sort_col_row@, range_start@, range_end@),
    ensures
        final(app).wf(),
        final(app).current_sheet_index == old(app).current_sheet_index,
        final(app).selected_cell == old(app).selected_cell,
        final(app).undo_stack@ == old(app).undo_stack@,
        final(app).redo_stack@ == old(app).redo_stack@,
        if sort_col_row@.len() == 0 || range_start@.len() == 0 || range_end@.len() == 0 {
            final(app).sheets@ == old(app).sheets@ && final(app).status@ == "Please enter required data"@
        } else if cell_name(range_start@) is None {
            final(app).sheets@ == old(app).sheets@ && final(app).status@ == "Invalid range start"@
        } else if cell_name(range_end@) is None {
            final(app).sheets@ == old(app).sheets@ && final(app).status@ == "Invalid range end"@
        } else {
            let (c1, r1) = cell_name(range_start@).unwrap();
            let (c2, r2) = cell_name(range_end@).unwrap();
            &&& final(app).status@ == "Sorting completed"@
            &&& match sort_refusal(old(app).current(), c1, r1 - 1, c2, r2 - 1, sort_col_row@, all_letters(sort_col_row@)) {
                Some(_) => final(app).sheets@ == old(app).sheets@,
                None => {
                    &&& sheet_replaced(old(app).sheets@, final(app).sheets@, old(app).current_sheet_index as int)
                    &&& block_sorted(
                        old(app).current(),
                        final(app).current(),
                        c1,
                        r1 - 1,
                        c2,
                        r2 - 1,
                        sort_col_row@,
                        all_letters(sort_col_row@),
                        sort_asc,
                    )
                },
            }
        },
{
    let key = crate::parser::chars_of(sort_col_row);
    let start = crate::parser::chars_of(range_start);
    let end = crate::parser::chars_of(range_end);
    if key.len() == 0 || start.len() == 0 || end.len() == 0 {
        app.status = "Please enter required data".to_owned();
        return;
    }
    let (ok1, col1, row1, e1) = crate::parser::ref_parse(&start, 0);
    if !(ok1 && e1 == start.len()) {
        app.status = "Invalid range start".to_owned();
        return;
    }
    let (ok2, col2, row2, e2) = crate::parser::ref_parse(&end, 0);
    if !(ok2 && e2 == end.len()) {
        app.status = "Invalid range end".to_owned();
        return;
    }
    let col1 = col1.unwrap();
    let row1 = row1.unwrap();
    let col2 = col2.unwrap();
    let row2 = row2.unwrap();
    let is_column = letters_only(&key);
    proof {
        crate::parser::lemma_ref_nonneg(start@, 0);
        crate::parser::lemma_ref_nonneg(end@, 0);
    }
    let order = if sort_asc { "asc" } else { "desc" };
    proof {
        reveal_strlit("asc");
        reveal_strlit("desc");
        assert(sort_asc ==> order@ =~= seq!['a', 's', 'c']);
        assert(!sort_asc ==> order@.len() == 4);
        assert((order@ == seq!['a', 's', 'c']) == sort_asc);
        assert(cell_name(start@) == Some((col1 as int, row1 as int)));
        assert(cell_name(end@) == Some((col2 as int, row2 as int)));
    }
    let ghost e0 = *app;
    sort_extension(col1, row1 - 1, col2, row2 - 1, sort_col_row, is_column, order, app);
    app.status = "Sorting completed".to_owned();
    proof {
        assert(app.status@ == "Sorting completed"@);
    }
}


/// `t` (and status `st1`) is `s` (with status `st0`) after command `cmd`
/// ran on it, on a sheet of `s`'s size with printing on (see
/// `command_post`).
#[verifier::opaque]
pub open spec fn command_run(s: Sheet, t: Sheet, cmd: Seq<char>, st0: Seq<char>, st1: Seq<char>) -> bool {
    exists|rs: i32, cs: i32, pe: bool, eff: CommandEffect|
        #[trigger] command_post(
            spec_command(cleaned(cmd)),
            cleaned(cmd),
            s.rows,
            s.cols,
            s,
            t,
            0,
            0,
            rs,
            cs,
            st0,
            st1,
            true,
            pe,
            eff,
        )
}

/// Runs command `cmd` on `sheet`, with the sheet's own size and printing
/// on.
fn run_command(sheet: &mut Sheet, cmd: &String, status: &mut String)
    requires
        sheet_ok(*old(sheet)),
        !cannot_run(cmd@),
    ensures
        sheet_ok(*final(sheet)),
        final(sheet).rows == old(sheet).rows,
        final(sheet).cols == old(sheet).cols,
        forall|q: i32| old(sheet).data@.contains_key(q) ==> final(sheet).data@.contains_key(q),
        command_run(*old(sheet), *final(sheet), cmd@, old(status)@, final(status)@),
{
    let mut row_start: i32 = 0;
    let mut col_start: i32 = 0;
    let mut print_enabled = true;
    let total_rows = sheet.rows;
    let total_cols = sheet.cols;
    let effect = parse_command(
        cmd.as_str(),
        &mut row_start,
        &mut col_start,
        status,
        &total_rows,
        &total_cols,
        sheet,
        &mut print_enabled,
    );
    proof {
        reveal(command_run);
        assert(command_post(
            spec_command(cleaned(cmd@)),
            cleaned(cmd@),
            old(sheet).rows,
            old(sheet).cols,
            *old(sheet),
            *sheet,
            0,
            0,
            row_start,
            col_start,
            old(status)@,
            status@,
            true,
            print_enabled,
            effect,
        ));
    }
}

impl Editor {
    /// Writes `text` into the cell at `(row, col)` of the current sheet, as
    /// the command "<column name><row + 1>=<text>" does (see
    /// `parse_command`, whose status becomes the editor's), after emptying
    /// the clipboard; the edit is recorded for undo with the cell as it was,
    /// and the redo history is emptied. A text that makes a command with a
    /// number too large for an `i32` is not accepted.
    pub fn edit_cell(&mut self, row: usize, col: usize, text: &str)
        requires
            old(self).wf(),
            old(self).current().valid_pos(row as int, col as int),
            !cannot_run(assign_command(row as int, col as int, text@)),
        ensures
            final(self).wf(),
            final(self).clipboard is None,
            final(self).cut_copied_cell is None,
            final(self).current_sheet_index == old(self).current_sheet_index,
            final(self).selected_cell == old(self).selected_cell,
            sheet_replaced(old(self).sheets@, final(self).sheets@, old(self).current_sheet_index as int),
            command_run(
                old(self).current(),
                final(self).current(),
                assign_command(row as int, col as int, text@),
                old(self).status@,
                final(self).status@,
            ),
            pushed_one(old(self).undo_stack@, final(self).undo_stack@),
            inserted_record(
                final(self).undo_stack@.last(),
                old(self).current_sheet_index,
                row as i16,
                col as i16,
                old(self).current().cell_at(row as int, col as int),
            ),
            final(self).redo_stack@.len() == 0,
    {
        self.clear_clipboard();
        let ghost e0 = *self;
        let ci = self.current_sheet_index;
        let cmd = build_assign(row, col, text);
        let prev = cell_copy_at(&self.sheets[ci].sheet, row, col);
        let mut sh = self.sheets.remove(ci);
        let ghost s0 = sh.sheet;
        run_command(&mut sh.sheet, &cmd, &mut self.status);
        let ghost s1 = sh.sheet;
        self.sheets.insert(ci, sh);
        proof {
            let e1 = *self;
            assert(e1.sheets@ =~= e0.sheets@.update(ci as int, e1.sheets@[ci as int]));
            lemma_replaced_wf(e0, e1, ci as int);
            lemma_cells_fit(s0, row as int, col as int);
            lemma_fits_grow(s0, s1, prev@);
        }
        let action = Action::Inserted { sheet_index: ci, row: row as i16, col: col as i16, previous_cell: prev };
        let ghost e1 = *self;
        self.undo_stack.push(action);
        self.redo_stack.clear();
        proof {
            let e2 = *self;
            assert(action_fits(action, e2.sheets@));
            assert forall|k: int| 0 <= k < e2.undo_stack@.len() implies action_fits(
                #[trigger] e2.undo_stack@[k],
                e2.sheets@,
            ) by {
                if k < e1.undo_stack@.len() {
                    assert(e2.undo_stack@[k] == e1.undo_stack@[k]);
                }
            }
            assert(e2.undo_stack@.drop_last() =~= e0.undo_stack@);
        }
    }
}

} // verus!
