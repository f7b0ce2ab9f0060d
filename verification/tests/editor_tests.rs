use lib::editor::{copy, cut, insert_undo_redo, paste, sort_button_parser, sort_extension, Editor};
use lib::parser::parse_command;
use lib::sheet_functions::{get_or_create_cell, new_cell, Sheet};
use lib::ui::app_impl::{Action, CutCopy, Sheets};

fn run(sheet: &mut Sheet, command: &str) {
    let mut row_start = 0;
    let mut col_start = 0;
    let mut status = String::new();
    let rows = sheet.rows;
    let cols = sheet.cols;
    let mut print_enabled = true;
    parse_command(command, &mut row_start, &mut col_start, &mut status, &rows, &cols, sheet, &mut print_enabled);
}

fn editor_with(commands: &[&str]) -> Editor {
    let mut sheet = Sheet::new(10, 10);
    for c in commands {
        run(&mut sheet, c);
    }
    Editor::new(vec![Sheets { sheet, name: "Sheet1".to_string() }])
}

fn value(e: &Editor, row: i16, col: i16) -> i32 {
    match e.sheets[e.current_sheet_index].sheet.get_cell(row, col) {
        Some(c) => c.value,
        None => 0,
    }
}

fn is_error(e: &Editor, row: i16, col: i16) -> bool {
    match e.sheets[e.current_sheet_index].sheet.get_cell(row, col) {
        Some(c) => c.is_error,
        None => false,
    }
}

#[test]
fn test_paste_without_selection() {
    let mut e = editor_with(&["A1=5"]);
    paste(&mut e);
    assert_eq!(e.status, "No cell selected");
    assert!(e.undo_stack.is_empty());
}

#[test]
fn test_paste_with_empty_clipboard() {
    let mut e = editor_with(&["A1=5"]);
    e.selected_cell = Some((0, 0));
    paste(&mut e);
    assert_eq!(e.status, "Nothing to paste");
    assert!(e.undo_stack.is_empty());
}

#[test]
fn test_copy_paste_keeps_value_and_dependents() {
    // A1 = 7, B1 = 2, C1 = B1*3; copy A1 onto B1: C1 follows.
    let mut e = editor_with(&["A1=7", "B1=2", "C1=B1*3"]);
    assert_eq!(value(&e, 0, 2), 6);
    e.selected_cell = Some((0, 0));
    copy(&mut e);
    assert_eq!(e.status, "Copied");
    assert!(matches!(e.clipboard, Some((_, CutCopy::Copied, 0, 0))));
    e.selected_cell = Some((0, 1));
    paste(&mut e);
    assert_eq!(e.status, "Pasted");
    assert_eq!(value(&e, 0, 1), 7);
    assert_eq!(value(&e, 0, 2), 21);
    assert!(e.clipboard.is_some());
    assert!(e.cut_copied_cell.is_none());
    assert_eq!(e.undo_stack.len(), 1);
    match &e.undo_stack[0] {
        Action::Inserted { sheet_index, row, col, previous_cell } => {
            assert_eq!((*sheet_index, *row, *col), (0, 0, 1));
            assert_eq!(previous_cell.value, 2);
        },
        _ => panic!("expected an insertion"),
    }
}

#[test]
fn test_undo_redo_copy_paste() {
    let mut e = editor_with(&["A1=7", "B1=2", "C1=B1*3"]);
    e.selected_cell = Some((0, 0));
    copy(&mut e);
    e.selected_cell = Some((0, 1));
    paste(&mut e);
    e.undo();
    assert_eq!(e.status, "Undone cell edit");
    assert_eq!(value(&e, 0, 1), 2);
    assert_eq!(value(&e, 0, 2), 6);
    assert!(e.clipboard.is_none());
    assert_eq!(e.undo_stack.len(), 0);
    assert_eq!(e.redo_stack.len(), 1);
    e.redo();
    assert_eq!(e.status, "Redone cell edit");
    assert_eq!(value(&e, 0, 1), 7);
    assert_eq!(value(&e, 0, 2), 21);
    assert_eq!(e.undo_stack.len(), 1);
    assert_eq!(e.redo_stack.len(), 0);
}

#[test]
fn test_nothing_to_undo_or_redo() {
    let mut e = editor_with(&["A1=1"]);
    e.undo();
    assert_eq!(e.status, "Nothing to undo");
    e.redo();
    assert_eq!(e.status, "Nothing to redo");
    assert_eq!(value(&e, 0, 0), 1);
}

#[test]
fn test_cut_paste_moves_formula() {
    // B1 = A1+1 is cut and pasted at B3; C1 = B1*2 then reads B3.
    let mut e = editor_with(&["A1=4", "B1=A1+1", "C1=B1*2"]);
    assert_eq!(value(&e, 0, 1), 5);
    assert_eq!(value(&e, 0, 2), 10);
    e.selected_cell = Some((0, 1));
    cut(&mut e);
    assert_eq!(e.status, "Cut");
    assert_eq!(e.cut_copied_cell, Some((0, 1)));
    e.selected_cell = Some((2, 1));
    paste(&mut e);
    assert_eq!(e.status, "Pasted");
    assert!(e.clipboard.is_none());
    // The source is cleared, the target holds the formula.
    assert_eq!(value(&e, 0, 1), 0);
    assert_eq!(value(&e, 2, 1), 5);
    let b3 = e.sheets[0].sheet.get_cell(2, 1).unwrap();
    assert_eq!((b3.cell1.row, b3.cell1.col), (0, 0));
    // C1 now reads B3.
    let c1 = e.sheets[0].sheet.get_cell(0, 2).unwrap();
    assert_eq!((c1.cell1.row, c1.cell1.col), (2, 1));
    // A change of A1 reaches B3 and C1.
    run(&mut e.sheets[0].sheet, "A1=10");
    assert_eq!(value(&e, 2, 1), 11);
    assert_eq!(value(&e, 0, 2), 22);
    assert!(matches!(e.undo_stack[0], Action::CutAction { row1: 0, col1: 1, row2: 2, col2: 1, .. }));
}

#[test]
fn test_cut_paste_errors_dependents_of_target() {
    // D1 reads A2; pasting a cut cell over A2 makes D1 an error.
    let mut e = editor_with(&["A1=3", "A2=9", "D1=A2+1"]);
    assert_eq!(value(&e, 0, 3), 10);
    e.selected_cell = Some((0, 0));
    cut(&mut e);
    e.selected_cell = Some((1, 0));
    paste(&mut e);
    assert_eq!(value(&e, 1, 0), 3);
    assert!(is_error(&e, 0, 3));
}

#[test]
fn test_cut_paste_keeps_other_cells() {
    // Cells unrelated to the moved cell keep their content.
    let mut e = editor_with(&["A1=4", "B1=A1+1", "E5=7", "F5=E5*3", "G1=SUM(E5:F5)"]);
    assert_eq!(value(&e, 0, 6), 28);
    e.selected_cell = Some((0, 1));
    cut(&mut e);
    e.selected_cell = Some((2, 1));
    paste(&mut e);
    assert_eq!(value(&e, 4, 4), 7);
    assert_eq!(value(&e, 4, 5), 21);
    assert_eq!(value(&e, 0, 6), 28);
    assert_eq!(value(&e, 0, 0), 4);
    let f5 = e.sheets[0].sheet.get_cell(4, 5).unwrap();
    assert_eq!((f5.cell1.row, f5.cell1.col), (4, 4));
}

#[test]
fn test_undo_redo_cut_paste() {
    let mut e = editor_with(&["A1=4", "B1=A1+1"]);
    e.selected_cell = Some((0, 1));
    cut(&mut e);
    e.selected_cell = Some((2, 1));
    paste(&mut e);
    assert_eq!(value(&e, 2, 1), 5);
    e.undo();
    assert_eq!(e.status, "Undone cut");
    assert_eq!(value(&e, 0, 1), 5);
    assert_eq!(value(&e, 2, 1), 0);
    let b1 = e.sheets[0].sheet.get_cell(0, 1).unwrap();
    assert_eq!((b1.cell1.row, b1.cell1.col), (0, 0));
    // B1 reads A1 again.
    run(&mut e.sheets[0].sheet, "A1=6");
    assert_eq!(value(&e, 0, 1), 7);
    e.redo();
    assert_eq!(e.status, "Redone cut");
    assert_eq!(e.undo_stack.len(), 1);
}

#[test]
fn test_insert_undo_redo_records_current_cell() {
    let mut e = editor_with(&["A1=1", "A2=A1*5"]);
    let mut prev = new_cell();
    prev.value = 42;
    // A2 (key 0 * 1000 + 1) still reads A1.
    prev.dependencies.insert(1);
    insert_undo_redo(0, 0, 0, prev, &mut e, false);
    assert_eq!(value(&e, 0, 0), 42);
    assert_eq!(value(&e, 1, 0), 210);
    match &e.redo_stack[0] {
        Action::Inserted { previous_cell, .. } => assert_eq!(previous_cell.value, 1),
        _ => panic!("expected an insertion"),
    }
}

#[test]
fn test_find_and_replace_and_undo() {
    let mut e = editor_with(&["A1=3", "B2=3", "C3=4", "D1=A1+1"]);
    e.find_and_replace("3", "8");
    assert_eq!(e.status, "Replaced 2 instances");
    assert_eq!(value(&e, 0, 0), 8);
    assert_eq!(value(&e, 1, 1), 8);
    assert_eq!(value(&e, 2, 2), 4);
    assert_eq!(value(&e, 0, 3), 9);
    match &e.undo_stack[0] {
        Action::FindAndReplace { changes, .. } => {
            assert_eq!(changes.len(), 2);
            assert_eq!(changes[0].4, "A1=8");
            assert_eq!(changes[1].4, "B2=8");
        },
        _ => panic!("expected a find and replace"),
    }
    e.undo();
    assert_eq!(e.status, "Undone find and replace");
    assert_eq!(value(&e, 0, 0), 3);
    assert_eq!(value(&e, 1, 1), 3);
    assert_eq!(value(&e, 0, 3), 4);
    e.redo();
    assert_eq!(e.status, "Redone find and replace");
    assert_eq!(value(&e, 0, 0), 8);
    assert_eq!(value(&e, 1, 1), 8);
}

#[test]
fn test_find_and_replace_no_match() {
    let mut e = editor_with(&["A1=3"]);
    e.find_and_replace("hello", "8");
    assert_eq!(e.status, "No matches found");
    assert!(e.undo_stack.is_empty());
    assert_eq!(value(&e, 0, 0), 3);
}

#[test]
fn test_create_new_sheet() {
    let mut e = editor_with(&["A1=3"]);
    e.create_new_sheet(5, 4, "Second".to_string());
    assert_eq!(e.status, "Sheet created successfully");
    assert_eq!(e.sheets.len(), 2);
    assert_eq!(e.current_sheet_index, 1);
    assert_eq!(e.sheets[1].name, "Second");
    assert_eq!(e.sheets[1].sheet.rows, 5);
    assert_eq!(e.sheets[1].sheet.cols, 4);
}

#[test]
fn test_clear_clipboard() {
    let mut e = editor_with(&["A1=3"]);
    e.selected_cell = Some((0, 0));
    copy(&mut e);
    e.clear_clipboard();
    assert!(e.clipboard.is_none());
    assert!(e.cut_copied_cell.is_none());
}

#[test]
fn test_sort_extension_sorts_rows() {
    let mut e = editor_with(&["A1=3", "A2=1", "A3=2", "B1=30", "B2=10", "B3=20"]);
    e.status = "ok".to_string();
    sort_extension(0, 0, 1, 2, "A", true, "asc", &mut e);
    assert_eq!(e.status, "ok");
    assert_eq!((value(&e, 0, 0), value(&e, 1, 0), value(&e, 2, 0)), (1, 2, 3));
    assert_eq!((value(&e, 0, 1), value(&e, 1, 1), value(&e, 2, 1)), (10, 20, 30));
}

#[test]
fn test_sort_extension_refusals() {
    let mut e = editor_with(&["A1=3", "A2=1", "C1=A1+1"]);
    sort_extension(1, 1, 0, 0, "A", true, "asc", &mut e);
    assert_eq!(e.status, "wrong range");
    sort_extension(0, 0, 0, 1, "B", true, "asc", &mut e);
    assert_eq!(e.status, "sorted column out of range");
    sort_extension(0, 0, 0, 1, "5", false, "asc", &mut e);
    assert_eq!(e.status, "sorted row out of range");
    sort_extension(0, 0, 2, 1, "A", true, "asc", &mut e);
    assert_eq!(e.status, "range has constraints");
    assert_eq!(value(&e, 0, 0), 3);
    assert_eq!(value(&e, 1, 0), 1);
}

#[test]
fn test_sort_button_parser() {
    let mut e = editor_with(&["A1=3", "A2=1", "A3=2", "B1=30", "B2=10", "B3=20"]);
    sort_button_parser(&mut e, "", "A1", "B3", true);
    assert_eq!(e.status, "Please enter required data");
    sort_button_parser(&mut e, "A", "a1", "B3", true);
    assert_eq!(e.status, "Invalid range start");
    sort_button_parser(&mut e, "A", "A1", "B", true);
    assert_eq!(e.status, "Invalid range end");
    sort_button_parser(&mut e, "A", "A1", "B3", false);
    assert_eq!(e.status, "Sorting completed");
    assert_eq!((value(&e, 0, 0), value(&e, 1, 0), value(&e, 2, 0)), (3, 2, 1));
    assert_eq!((value(&e, 0, 1), value(&e, 1, 1), value(&e, 2, 1)), (30, 20, 10));
    // Sorting the columns of row 1 in ascending order.
    sort_button_parser(&mut e, "1", "A1", "B1", true);
    assert_eq!(e.status, "Sorting completed");
    assert_eq!((value(&e, 0, 0), value(&e, 0, 1)), (3, 30));
}

#[test]
fn test_find_and_replace_replaces_range_formula() {
    // B1 = SUM(A1:A2) shows 10 and comes first in the scan: it is replaced too.
    let mut e = editor_with(&["A1=4", "A2=6", "B1=SUM(A1:A2)", "C3=10"]);
    assert_eq!(value(&e, 0, 1), 10);
    e.find_and_replace("10", "7");
    assert_eq!(e.status, "Replaced 2 instances");
    assert_eq!(value(&e, 0, 1), 7);
    assert_eq!(value(&e, 2, 2), 7);
    let b1 = e.sheets[0].sheet.get_cell(0, 1).unwrap();
    assert_eq!((b1.cell1.row, b1.cell1.col), (-1, -1));
    // A1 no longer feeds B1.
    e.edit_cell(0, 0, "100");
    assert_eq!(value(&e, 0, 1), 7);
}

#[test]
fn test_edit_cell_and_undo() {
    let mut e = editor_with(&["A1=2", "B1=A1*10"]);
    e.edit_cell(0, 0, "5");
    assert_eq!(e.status, "ok");
    assert_eq!(value(&e, 0, 0), 5);
    assert_eq!(value(&e, 0, 1), 50);
    assert_eq!(e.undo_stack.len(), 1);
    assert!(e.redo_stack.is_empty());
    match &e.undo_stack[0] {
        Action::Inserted { row, col, previous_cell, .. } => {
            assert_eq!((*row, *col), (0, 0));
            assert_eq!(previous_cell.value, 2);
        },
        _ => panic!("expected an insertion"),
    }
    e.undo();
    assert_eq!(value(&e, 0, 0), 2);
    assert_eq!(value(&e, 0, 1), 20);
    e.redo();
    assert_eq!(value(&e, 0, 0), 5);
    assert_eq!(value(&e, 0, 1), 50);
}

#[test]
fn test_edit_cell_formula_and_undo() {
    let mut e = editor_with(&["A1=2", "A2=3"]);
    e.edit_cell(2, 0, "A1+A2");
    assert_eq!(value(&e, 2, 0), 5);
    e.edit_cell(0, 0, "10");
    assert_eq!(value(&e, 2, 0), 13);
    e.undo();
    assert_eq!(value(&e, 0, 0), 2);
    assert_eq!(value(&e, 2, 0), 5);
}

#[test]
fn test_create_new_sheet_keeps_selection() {
    let mut e = editor_with(&["A1=3"]);
    e.selected_cell = Some((1, 1));
    copy(&mut e);
    e.create_new_sheet(4, 4, "Other".to_string());
    assert_eq!(e.selected_cell, Some((1, 1)));
    assert!(e.clipboard.is_some());
    let s = &e.sheets[1].sheet;
    assert!(s.tuup.is_empty());
    assert_eq!(s.buul.len(), 4);
    assert!(s.buul.iter().all(|r| r.len() == 4 && r.iter().all(|b| !*b)));
}
