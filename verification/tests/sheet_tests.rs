use lib::sheet_functions::{
    Sheet, CellInfo, OpCode, get_or_create_cell, is_valid_cell, col_num_to_col_name,
    col_name_to_col_num, add_constraints, remove_dependency, check_cycle,
    check_cycle_range_funcs, topological_sort,
};
use std::collections::HashMap;

fn create_test_sheet() -> Sheet {
    Sheet::new(10, 10)
}

#[test]
fn test_sheet_creation() {
    let sheet = create_test_sheet();
    assert_eq!(sheet.rows, 10);
    assert_eq!(sheet.cols, 10);
    assert_eq!(sheet.data.len(), 0);
}

#[test]
fn test_column_name_conversion() {
    assert_eq!(col_name_to_col_num("A"), 0);
    assert_eq!(col_name_to_col_num("Z"), 25);
    assert_eq!(col_name_to_col_num("AA"), 26);
    assert_eq!(col_name_to_col_num("AB"), 27);

    assert_eq!(col_num_to_col_name(0), "A");
    assert_eq!(col_num_to_col_name(25), "Z");
    assert_eq!(col_num_to_col_name(26), "AA");
    assert_eq!(col_num_to_col_name(27), "AB");
}

#[test]
fn test_cell_validity() {
    assert!(is_valid_cell(0, 0, 10, 10));
    assert!(is_valid_cell(9, 9, 10, 10));
    assert!(!is_valid_cell(10, 9, 10, 10));
    assert!(!is_valid_cell(9, 10, 10, 10));
    assert!(!is_valid_cell(-1, 0, 10, 10));
}

#[test]
fn test_get_or_create_cell() {
    let mut sheet = create_test_sheet();

    let cell = get_or_create_cell(&mut sheet, 1, 1);
    assert_eq!(cell.value, 0);
    assert!(!cell.is_error);
    assert_eq!(cell.string, None);
    assert_eq!(cell.op_code, OpCode::NoConstraint);

    cell.value = 42;

    let cell2 = get_or_create_cell(&mut sheet, 1, 1);
    assert_eq!(cell2.value, 42);
}

#[test]
fn test_add_constraints_simple() {
    let mut sheet = create_test_sheet();
    let mut status = String::new();
    let mut sleep_timer = 0;

    let cell = CellInfo { row: 0, col: 0 };
    let cell1 = CellInfo { row: -1, col: -1 };
    let cell2 = CellInfo { row: -1, col: -1 };

    get_or_create_cell(&mut sheet, 0, 0).value = 10;
    add_constraints(cell, cell1, cell2, OpCode::NoConstraint, &mut sheet, &mut status, &mut sleep_timer);

    assert_eq!(sheet.get_cell(0, 0).unwrap().value, 10);
    assert_eq!(status, "ok");
}

#[test]
fn test_add_constraints_cell_equals_cell() {
    let mut sheet = create_test_sheet();
    let mut status = String::new();
    let mut sleep_timer = 0;

    get_or_create_cell(&mut sheet, 0, 1).value = 20;

    let cell = CellInfo { row: 0, col: 0 };
    let cell1 = CellInfo { row: 0, col: 1 };
    let cell2 = CellInfo { row: -1, col: -1 };

    add_constraints(cell, cell1, cell2, OpCode::CellEqualsCell, &mut sheet, &mut status, &mut sleep_timer);

    assert_eq!(sheet.get_cell(0, 0).unwrap().value, 20);
    assert_eq!(status, "ok");
    assert!(sheet.get_cell(0, 1).unwrap().dependencies.contains(&(0 * 1000 + 0)));
}

#[test]
fn test_circular_dependency() {
    let mut sheet = create_test_sheet();
    let mut status = String::new();
    let mut sleep_timer = 0;

    let cell_a1 = CellInfo { row: 0, col: 0 };
    let cell_b1 = CellInfo { row: 0, col: 1 };
    let empty = CellInfo { row: -1, col: -1 };

    add_constraints(cell_a1, cell_b1, empty, OpCode::CellEqualsCell, &mut sheet, &mut status, &mut sleep_timer);

    status = String::new();
    let cell_b1 = CellInfo { row: 0, col: 1 };
    let cell_a1 = CellInfo { row: 0, col: 0 };
    let empty = CellInfo { row: -1, col: -1 };
    add_constraints(cell_b1, cell_a1, empty, OpCode::CellEqualsCell, &mut sheet, &mut status, &mut sleep_timer);

    assert_eq!(status, "circular error");
}

#[test]
fn test_remove_dependency() {
    let mut sheet = create_test_sheet();
    let mut status = String::new();
    let mut sleep_timer = 0;

    get_or_create_cell(&mut sheet, 0, 1).value = 20;

    let cell_a1 = CellInfo { row: 0, col: 0 };
    let cell_b1 = CellInfo { row: 0, col: 1 };
    let empty = CellInfo { row: -1, col: -1 };

    add_constraints(cell_a1, cell_b1, empty, OpCode::CellEqualsCell, &mut sheet, &mut status, &mut sleep_timer);

    assert!(sheet.get_cell(0, 1).unwrap().dependencies.contains(&(0 * 1000 + 0)));

    let cell_a1 = CellInfo { row: 0, col: 0 };
    remove_dependency(&cell_a1, &mut sheet);

    assert!(!sheet.get_cell(0, 1).unwrap().dependencies.contains(&(0 * 1000 + 0)));
}

#[test]
fn test_check_cycle() {
    let mut avl_tree = HashMap::new();
    avl_tree.insert(1000, 0);

    let cell1 = CellInfo { row: 0, col: 1 };
    let cell2 = CellInfo { row: 1, col: 1 };
    assert!(check_cycle(&avl_tree, &cell1, &cell2));

    let cell1 = CellInfo { row: 2, col: 2 };
    let cell2 = CellInfo { row: 1, col: 1 };
    assert!(!check_cycle(&avl_tree, &cell1, &cell2));

    avl_tree.insert(1001, 0);
    assert!(check_cycle(&avl_tree, &cell1, &cell2));

    let cell1 = CellInfo { row: 2, col: 2 };
    let cell2 = CellInfo { row: -1, col: -1 };
    assert!(!check_cycle(&avl_tree, &cell1, &cell2));
}

#[test]
fn test_check_cycle_range_funcs() {
    let mut avl_tree = HashMap::new();
    avl_tree.insert(1001, 0);

    let cell1 = CellInfo { row: 0, col: 0 };
    let cell2 = CellInfo { row: 2, col: 2 };
    assert!(check_cycle_range_funcs(&avl_tree, &cell1, &cell2));

    let cell1 = CellInfo { row: 3, col: 3 };
    let cell2 = CellInfo { row: 4, col: 4 };
    assert!(!check_cycle_range_funcs(&avl_tree, &cell1, &cell2));
}

#[test]
fn test_topological_sort() {
    let mut sheet = create_test_sheet();

    get_or_create_cell(&mut sheet, 0, 0);
    get_or_create_cell(&mut sheet, 0, 1);

    get_or_create_cell(&mut sheet, 0, 0).dependencies.insert(1000);

    let mut avl_tree = HashMap::new();
    avl_tree.insert(0, 0);
    avl_tree.insert(1000, 1);

    let sorted = topological_sort(&mut avl_tree, &sheet);

    assert_eq!(sorted.len(), 2);
    assert_eq!(sorted[0], 0);
    assert_eq!(sorted[1], 1000);
}
