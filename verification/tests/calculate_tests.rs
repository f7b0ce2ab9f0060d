use lib::sheet_functions::{Sheet, OpCode, get_or_create_cell};
use lib::calculate_functions::{sum, min, max, avg, stdev, compute_cell, compute_range_func};

fn create_test_sheet() -> Sheet {
    Sheet::new(10, 10)
}

#[test]
fn test_sum_function() {
    let mut sheet = create_test_sheet();
    get_or_create_cell(&mut sheet, 0, 0).value = 10;
    get_or_create_cell(&mut sheet, 0, 1).value = 20;
    get_or_create_cell(&mut sheet, 1, 0).value = 30;
    get_or_create_cell(&mut sheet, 1, 1).value = 40;
    let result = sum(&sheet, 0, 0, 1, 1);
    assert_eq!(result, 100);
}

#[test]
fn test_min_function() {
    let mut sheet = create_test_sheet();
    get_or_create_cell(&mut sheet, 0, 0).value = 10;
    get_or_create_cell(&mut sheet, 0, 1).value = 5;
    get_or_create_cell(&mut sheet, 1, 0).value = 30;
    get_or_create_cell(&mut sheet, 1, 1).value = 15;
    let result = min(&sheet, 0, 0, 1, 1);
    assert_eq!(result, 5);
}

#[test]
fn test_max_function() {
    let mut sheet = create_test_sheet();
    get_or_create_cell(&mut sheet, 0, 0).value = 10;
    get_or_create_cell(&mut sheet, 0, 1).value = 20;
    get_or_create_cell(&mut sheet, 1, 0).value = 30;
    get_or_create_cell(&mut sheet, 1, 1).value = 15;
    let result = max(&sheet, 0, 0, 1, 1);
    assert_eq!(result, 30);
}

#[test]
fn test_avg_function() {
    let mut sheet = create_test_sheet();
    get_or_create_cell(&mut sheet, 0, 0).value = 10;
    get_or_create_cell(&mut sheet, 0, 1).value = 20;
    get_or_create_cell(&mut sheet, 1, 0).value = 30;
    get_or_create_cell(&mut sheet, 1, 1).value = 40;
    let result = avg(&sheet, 0, 0, 1, 1);
    assert_eq!(result, 25);
}

#[test]
fn test_stdev_function() {
    let mut sheet = create_test_sheet();
    get_or_create_cell(&mut sheet, 0, 0).value = 10;
    get_or_create_cell(&mut sheet, 0, 1).value = 10;
    get_or_create_cell(&mut sheet, 1, 0).value = 10;
    get_or_create_cell(&mut sheet, 1, 1).value = 10;
    let result = stdev(&sheet, 0, 0, 1, 1);
    assert_eq!(result, 0);

    get_or_create_cell(&mut sheet, 0, 0).value = 10;
    get_or_create_cell(&mut sheet, 0, 1).value = 20;
    get_or_create_cell(&mut sheet, 1, 0).value = 30;
    get_or_create_cell(&mut sheet, 1, 1).value = 40;
    let result = stdev(&sheet, 0, 0, 1, 1);
    assert_eq!(result, 11);
}

#[test]
fn test_stdev_counts_absent_cells() {
    // One stored 10 over a two-cell range: mean 5, deviations 5 and 5.
    let mut sheet = create_test_sheet();
    get_or_create_cell(&mut sheet, 0, 0).value = 10;
    assert_eq!(stdev(&sheet, 0, 0, 0, 1), 5);
    // Cells stored elsewhere change nothing.
    for r in 3..9 {
        get_or_create_cell(&mut sheet, r, 3).value = 100;
    }
    assert_eq!(stdev(&sheet, 0, 0, 0, 1), 5);
}

#[test]
fn test_compute_cell() {
    let mut status = String::new();

    let (result, error) = compute_cell(OpCode::CellPlusCell, 10, 20, &mut status);
    assert_eq!(result, 30);
    assert!(!error);

    let (result, error) = compute_cell(OpCode::CellMinusCell, 30, 10, &mut status);
    assert_eq!(result, 20);
    assert!(!error);

    let (result, error) = compute_cell(OpCode::CellTimesCell, 5, 4, &mut status);
    assert_eq!(result, 20);
    assert!(!error);

    let (result, error) = compute_cell(OpCode::CellDivideCell, 20, 5, &mut status);
    assert_eq!(result, 4);
    assert!(!error);

    let (result, error) = compute_cell(OpCode::CellDivideCell, 20, 0, &mut status);
    assert_eq!(result, -1);
    assert!(error);

    let (result, error) = compute_cell(OpCode::ConstantDividesCell, 0, 20, &mut status);
    assert_eq!(result, -1);
    assert!(error);

    let (result, error) = compute_cell(OpCode::ConstantDividesCell, 20, 20, &mut status);
    assert_eq!(result, 1);
    assert!(!error);

    let (result, error) = compute_cell(OpCode::String, 20, 0, &mut status);
    assert_eq!(result, 20);
    assert!(!error);

    let (result, error) = compute_cell(OpCode::Sleep, 20, 0, &mut status);
    assert_eq!(result, -1);
    assert!(error);
}

#[test]
fn test_compute_range_func() {
    let mut sheet = create_test_sheet();
    let mut status = String::new();

    get_or_create_cell(&mut sheet, 0, 0).value = 10;
    get_or_create_cell(&mut sheet, 0, 1).value = 20;
    get_or_create_cell(&mut sheet, 1, 0).value = 30;
    get_or_create_cell(&mut sheet, 1, 1).value = 40;

    assert_eq!(compute_range_func(&sheet, OpCode::Sum, 0, 0, 1, 1, &mut status), 100);
    assert_eq!(compute_range_func(&sheet, OpCode::Min, 0, 0, 1, 1, &mut status), 10);
    assert_eq!(compute_range_func(&sheet, OpCode::Max, 0, 0, 1, 1, &mut status), 40);
    assert_eq!(compute_range_func(&sheet, OpCode::Avg, 0, 0, 1, 1, &mut status), 25);
    assert_eq!(compute_range_func(&sheet, OpCode::Stdev, 0, 0, 1, 1, &mut status), 11);

    assert_eq!(compute_range_func(&sheet, OpCode::Sum, 1, 0, 0, 1, &mut status), -1);
    assert_eq!(status, "err");

    status = String::new();
    assert_eq!(compute_range_func(&sheet, OpCode::NoConstraint, 0, 0, 1, 1, &mut status), -1);
}
