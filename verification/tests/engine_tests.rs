use lib::sheet_functions::{
    Sheet, CellInfo, OpCode, get_or_create_cell, col_num_to_col_name, col_name_to_col_num,
    add_constraints, remove_dependency, add_to_tree, set_content, recalculate,
};
use lib::parser::{parse_command, parse_i32_text, read_command, remove_space, Command};
use lib::ui::utils::get_cell_formula;
use lib::display::{cell_text, window_end};
use std::collections::HashMap;

struct Console {
    sheet: Sheet,
    row_start: i32,
    col_start: i32,
    status: String,
    rows: i32,
    cols: i32,
    print_enabled: bool,
    last_sleep: i32,
    quit: bool,
}

impl Console {
    fn new(rows: i32, cols: i32) -> Console {
        Console {
            sheet: Sheet::new(rows, cols),
            row_start: 0,
            col_start: 0,
            status: String::new(),
            rows,
            cols,
            print_enabled: true,
            last_sleep: 0,
            quit: false,
        }
    }

    fn run(&mut self, command: &str) -> Vec<i64> {
        let effect = parse_command(
            command,
            &mut self.row_start,
            &mut self.col_start,
            &mut self.status,
            &self.rows,
            &self.cols,
            &mut self.sheet,
            &mut self.print_enabled,
        );
        self.last_sleep = effect.sleep_seconds;
        self.quit = effect.quit;
        effect.sort_corners
    }

    fn value(&self, row: i16, col: i16) -> i32 {
        match self.sheet.get_cell(row, col) {
            Some(c) => c.value,
            None => 0,
        }
    }
}

#[test]
fn test_column_name_round_trip() {
    for name in ["A", "Z", "AA", "AZ", "BA", "ZZ", "AAA", "XFD"] {
        assert_eq!(col_num_to_col_name(col_name_to_col_num(name)), name);
    }
    for n in 0..2000 {
        assert_eq!(col_name_to_col_num(&col_num_to_col_name(n)), n);
    }
    assert_eq!(col_num_to_col_name(-1), "");
    assert_eq!(col_name_to_col_num(""), -1);
    assert_eq!(col_name_to_col_num("XFD"), 16383);
    // Letters are counted by their byte above 'A': lowercase names are read too.
    assert_eq!(col_name_to_col_num("a"), 32);
    assert_eq!(col_name_to_col_num("Ab"), 59);
}

#[test]
fn test_decimal_text_parses_back() {
    for n in [0, 7, -7, 42, -1000, 123456, i32::MAX, i32::MIN] {
        assert_eq!(parse_i32_text(&format!("{}", n)), Some(n));
    }
    assert_eq!(parse_i32_text("+15"), Some(15));
    assert_eq!(parse_i32_text("2147483648"), None);
    assert_eq!(parse_i32_text("-"), None);
    assert_eq!(parse_i32_text(""), None);
    assert_eq!(parse_i32_text("1a"), None);
}

#[test]
fn test_formula_text_round_trip() {
    let mut c = Console::new(10, 10);
    c.run("A1=-42");
    let text = get_cell_formula(0, 0, c.sheet.get_cell(0, 0).unwrap());
    assert_eq!(text, "A1=-42");
    c.run("A1=0");
    c.run(&text);
    assert_eq!(c.value(0, 0), -42);

    c.run("B2=A1*3");
    let text = get_cell_formula(1, 1, c.sheet.get_cell(1, 1).unwrap());
    assert_eq!(text, "B2=A1*3");

    c.run("C3=SUM(A1:B2)");
    let text = get_cell_formula(2, 2, c.sheet.get_cell(2, 2).unwrap());
    assert_eq!(text, "C3=SUM(A1:B2)");

    c.run("D4=7-B2");
    let text = get_cell_formula(3, 3, c.sheet.get_cell(3, 3).unwrap());
    assert_eq!(text, "D4=7-B2");
    assert_eq!(c.value(3, 3), 133);
}

#[test]
fn test_constant_round_trip() {
    let mut c = Console::new(10, 10);
    c.run("A1=B1+1000");
    assert_eq!(c.value(0, 0), 1000);
    c.run("B1=5");
    assert_eq!(c.value(0, 0), 1005);

    // Bit 15 set and high bits clear: read back unchanged when the formula
    // is set and when it is recalculated.
    c.run("C1=D1+40000");
    assert_eq!(c.value(0, 2), 40000);
    c.run("D1=1");
    assert_eq!(c.value(0, 2), 40001);
    c.run("D1=2");
    assert_eq!(c.value(0, 2), 40002);

    c.run("E1=F1+-3");
    assert_eq!(c.status, "err");
    c.run("E1=F1-3");
    c.run("F1=10");
    assert_eq!(c.value(0, 4), 7);
}

#[test]
fn test_dependents_follow_a_write() {
    let mut c = Console::new(10, 10);
    c.run("A1=1");
    c.run("B1=A1+1");
    c.run("C1=B1*2");
    assert_eq!(c.value(0, 2), 4);
    c.run("A1=5");
    assert_eq!(c.value(0, 1), 6);
    assert_eq!(c.value(0, 2), 12);

    c.run("A2=1");
    c.run("A3=2");
    c.run("A4=3");
    c.run("B2=SUM(A2:A4)");
    assert_eq!(c.value(1, 1), 6);
    c.run("A3=10");
    assert_eq!(c.value(1, 1), 14);
    c.run("B3=MAX(A2:A4)");
    c.run("B4=MIN(A2:A4)");
    c.run("B5=AVG(A2:A4)");
    assert_eq!(c.value(2, 1), 10);
    assert_eq!(c.value(3, 1), 1);
    assert_eq!(c.value(4, 1), 4);
}

#[test]
fn test_refused_write_leaves_sheet() {
    let mut c = Console::new(10, 10);
    c.run("A1=2");
    c.run("B1=A1+1");
    c.run("A1=B1");
    assert_eq!(c.status, "circular error");
    assert_eq!(c.value(0, 0), 2);
    assert_eq!(c.sheet.get_cell(0, 0).unwrap().op_code, OpCode::NoConstraint);
    c.run("A1=SUM(A1:A3)");
    assert_eq!(c.status, "circular error");
    c.run("C1=C1+1");
    assert_eq!(c.status, "circular error");
}

#[test]
fn test_error_propagates() {
    let mut c = Console::new(10, 10);
    c.run("A1=0");
    c.run("B1=10/A1");
    assert!(c.sheet.get_cell(0, 1).unwrap().is_error);
    c.run("C1=B1+1");
    assert!(c.sheet.get_cell(0, 2).unwrap().is_error);
    c.run("A1=2");
    assert!(!c.sheet.get_cell(0, 1).unwrap().is_error);
    assert_eq!(c.value(0, 1), 5);
    assert_eq!(c.value(0, 2), 6);
}

#[test]
fn test_stdev_exact() {
    let mut c = Console::new(10, 10);
    c.run("A1=2");
    c.run("A2=4");
    c.run("A3=4");
    c.run("A4=4");
    c.run("A5=5");
    c.run("A6=5");
    c.run("A7=7");
    c.run("A8=9");
    c.run("B1=STDEV(A1:A8)");
    assert_eq!(c.value(0, 1), 2);
    c.run("B2=SUM(A1:A8)");
    assert_eq!(c.value(1, 1), 40);
}

#[test]
fn test_scroll_and_output_commands() {
    let mut c = Console::new(30, 30);
    c.run("w");
    assert_eq!(c.row_start, 0);
    c.run("s");
    c.run("s");
    assert_eq!(c.row_start, 20);
    c.run("s");
    assert_eq!(c.row_start, 20);
    c.run("disable_output");
    assert!(!c.print_enabled);
    c.run("enable_output");
    assert!(c.print_enabled);
    c.run("q");
    assert!(c.quit);
}

#[test]
fn test_sleep_seconds() {
    let mut c = Console::new(10, 10);
    c.run("A1=SLEEP(2)");
    assert_eq!(c.last_sleep, 2);
    assert_eq!(c.value(0, 0), 2);
    c.run("B1=3");
    c.run("B2=SLEEP(B1)");
    assert_eq!(c.last_sleep, 3);
    c.run("A2=SLEEP(-4)");
    assert_eq!(c.status, "err");
    assert_eq!(c.last_sleep, 0);
    assert_eq!(c.value(1, 0), 0);
}

#[test]
fn test_sort_command() {
    let mut c = Console::new(10, 10);
    c.run("A1=3");
    c.run("A2=1");
    c.run("A3=2");
    c.run("B1=30");
    c.run("B2=10");
    c.run("B3=20");
    let corners = c.run("SORT(A1:B3;A1:A3;asc)");
    assert_eq!(corners, vec![0, 0, 1, 2, 0, 0, 0, 2]);
    assert_eq!(c.value(0, 0), 3);
    assert_eq!(c.value(1, 0), 1);
    assert_eq!(c.value(2, 0), 2);
}

#[test]
fn test_read_command_forms() {
    let (text, cmd) = read_command("  A1 = 5 ");
    assert_eq!(text.iter().collect::<String>(), "A1=5");
    assert!(matches!(cmd, Command::SetInt { col: 0, row: 1, number: Some(5) }));
    let (_, cmd) = read_command("A1=99999999999");
    assert!(matches!(cmd, Command::SetInt { number: None, .. }));
    let (_, cmd) = read_command("B2=A1+C3");
    assert!(matches!(cmd, Command::CellOpCell { col: 1, row: 2, col1: 0, row1: 1, op: '+', col2: 2, row2: 3 }));
    let (_, cmd) = read_command("w");
    assert!(matches!(cmd, Command::ScrollUp));
    let mut s = String::from(" a b\tc ");
    remove_space(&mut s);
    assert_eq!(s, "ab\tc");
}

#[test]
fn test_set_content_and_recalculate() {
    let mut sheet = Sheet::new(10, 10);
    let mut status = String::new();
    let mut timer = 0;
    add_constraints(
        CellInfo { row: 0, col: 1 },
        CellInfo { row: 0, col: 0 },
        CellInfo { row: 0, col: 3 },
        OpCode::CellPlusConstant,
        &mut sheet,
        &mut status,
        &mut timer,
    );
    assert_eq!(status, "ok");
    assert_eq!(sheet.get_cell(0, 1).unwrap().value, 3);
    set_content(&mut sheet, 0, 0, 10, false, None);
    assert_eq!(sheet.get_cell(0, 0).unwrap().value, 10);
    assert_eq!(sheet.get_cell(0, 1).unwrap().value, 3);
    recalculate(&mut sheet, 0, 1, &mut timer);
    assert_eq!(sheet.get_cell(0, 1).unwrap().value, 13);
}

#[test]
fn test_dependents_tree() {
    let mut c = Console::new(10, 10);
    c.run("A1=1");
    c.run("B1=A1+1");
    c.run("C1=A1+B1");
    let mut tree: HashMap<i32, i32> = HashMap::new();
    tree.insert(0, 0);
    add_to_tree(&mut tree, CellInfo { row: 0, col: 0 }, &c.sheet);
    assert_eq!(tree.len(), 3);
    assert_eq!(tree[&1000], 1);
    assert_eq!(tree[&2000], 2);
}

#[test]
fn test_remove_range_dependency() {
    let mut c = Console::new(10, 10);
    c.run("A1=1");
    c.run("A2=2");
    c.run("B1=SUM(A1:A2)");
    assert_eq!(c.sheet.tuup.len(), 1);
    assert!(c.sheet.buul[0][0] && c.sheet.buul[1][0]);
    remove_dependency(&CellInfo { row: 0, col: 1 }, &mut c.sheet);
    assert_eq!(c.sheet.tuup.len(), 0);
    assert!(!c.sheet.buul[0][0] && !c.sheet.buul[1][0]);
    let b1 = c.sheet.get_cell(0, 1).unwrap();
    assert_eq!(b1.op_code, OpCode::Sum);
    assert_eq!(b1.cell1, CellInfo { row: -1, col: -1 });
}

#[test]
fn test_cell_references_after_cut() {
    let mut c = Console::new(10, 10);
    c.run("A1=1");
    c.run("B1=C3+A1");
    lib::sheet_functions::update_dependencies(2, 2, 0, 0, &mut c.sheet);
    let b1 = c.sheet.get_cell(0, 1).unwrap();
    assert_eq!(b1.cell1, CellInfo { row: 0, col: 0 });
    assert_eq!(b1.cell2, CellInfo { row: 0, col: 0 });

    let mut d = Console::new(10, 10);
    d.run("A1=1");
    d.run("B1=A1+1");
    let mut moved = lib::sorting::copy_cell(get_or_create_cell(&mut d.sheet, 0, 0));
    lib::ui_sheet_functions::change_dependecy_set(&mut moved, &mut d.sheet, false, 2, 0, 0, 0);
    assert!(moved.dependencies.is_empty());
    assert_eq!(d.sheet.get_cell(0, 1).unwrap().cell1, CellInfo { row: 2, col: 0 });
}

#[test]
fn test_recalculate_after_direct_write() {
    let mut c = Console::new(10, 10);
    c.run("A1=1");
    c.run("B1=A1+1");
    c.run("C1=B1+1");
    set_content(&mut c.sheet, 0, 0, 10, false, None);
    lib::ui_sheet_functions::recalculate_dependecy(CellInfo { row: 0, col: 0 }, &mut c.sheet);
    assert_eq!(c.value(0, 1), 11);
    assert_eq!(c.value(0, 2), 12);
}

#[test]
fn test_sort_sheet_both_directions() {
    let mut c = Console::new(10, 10);
    c.run("B1=3");
    c.run("C1=1");
    c.run("D1=2");
    lib::ui_sheet_functions::sort_sheet(&mut c.sheet, 1, 0, 3, 0, "1", false, "asc");
    assert_eq!(c.value(0, 1), 1);
    assert_eq!(c.value(0, 2), 2);
    assert_eq!(c.value(0, 3), 3);

    let mut d = Console::new(10, 10);
    d.run("B1=3");
    d.run("C1=1");
    d.run("D1=2");
    lib::sheet_functions::sort_sheet(&mut d.sheet, 1, 0, 3, 0, "1", false, "asc");
    assert_eq!(d.value(0, 1), 1);
    assert_eq!(d.value(0, 2), 2);
    assert_eq!(d.value(0, 3), 3);

    let mut e = Console::new(10, 10);
    e.run("A1=1");
    e.run("A2=3");
    e.run("A3=2");
    lib::sheet_functions::sort_sheet(&mut e.sheet, 0, 0, 0, 2, "A", true, "desc");
    assert_eq!(e.value(0, 0), 3);
    assert_eq!(e.value(1, 0), 2);
    assert_eq!(e.value(2, 0), 1);
}

#[test]
fn test_shown_window_and_text() {
    assert_eq!(window_end(0, 20), 10);
    assert_eq!(window_end(15, 20), 20);
    assert_eq!(window_end(-5, 5), 5);
    let mut c = Console::new(10, 10);
    c.run("A1=-12");
    c.run("B1=\"hi\"");
    c.run("C1=0");
    c.run("D1=5/C1");
    assert_eq!(cell_text(&c.sheet, 0, 0), "-12");
    assert_eq!(cell_text(&c.sheet, 0, 1), "hi");
    assert_eq!(cell_text(&c.sheet, 0, 3), "Err");
    assert_eq!(cell_text(&c.sheet, 5, 5), "0");
}

#[test]
fn test_diamond_in_dependency_order() {
    let mut c = Console::new(10, 10);
    c.run("A1=1");
    c.run("B1=A1+1");
    c.run("C1=A1*3");
    c.run("D1=B1+C1");
    c.run("E1=SUM(B1:D1)");
    assert_eq!(c.value(0, 3), 5);
    assert_eq!(c.value(0, 4), 10);

    let mut tree: HashMap<i32, i32> = HashMap::new();
    tree.insert(0, 0);
    add_to_tree(&mut tree, CellInfo { row: 0, col: 0 }, &c.sheet);
    assert_eq!(tree.len(), 5);
    assert_eq!(tree[&0], 0);
    assert_eq!(tree[&1000], 1);
    assert_eq!(tree[&2000], 1);
    assert_eq!(tree[&3000], 2);
    assert_eq!(tree[&4000], 3);

    let sorted = lib::sheet_functions::topological_sort(&mut tree, &c.sheet);
    assert_eq!(sorted.len(), 5);
    let pos = |k: i32| sorted.iter().position(|&x| x == k).unwrap();
    assert_eq!(pos(0), 0);
    assert!(pos(1000) < pos(3000));
    assert!(pos(2000) < pos(3000));
    assert!(pos(3000) < pos(4000));
    assert_eq!(pos(4000), 4);

    set_content(&mut c.sheet, 0, 0, 10, false, None);
    lib::sheet_functions::recalculate_dependecy(CellInfo { row: 0, col: 0 }, &mut c.sheet);
    assert_eq!(c.value(0, 1), 11);
    assert_eq!(c.value(0, 2), 30);
    assert_eq!(c.value(0, 3), 41);
    assert_eq!(c.value(0, 4), 82);

    c.run("A1=2");
    assert_eq!(c.value(0, 3), 9);
    assert_eq!(c.value(0, 4), 18);
}

#[test]
fn test_new_formula_updates_dependents() {
    let mut c = Console::new(10, 10);
    c.run("A1=1");
    c.run("A2=7");
    c.run("B1=A1+1");
    c.run("C1=B1*2");
    c.run("D1=SUM(B1:C1)");
    assert_eq!(c.value(0, 3), 6);
    c.run("A1=A2-3");
    assert_eq!(c.value(0, 0), 4);
    assert_eq!(c.value(0, 1), 5);
    assert_eq!(c.value(0, 2), 10);
    assert_eq!(c.value(0, 3), 15);
    c.run("A1=A2*A2");
    assert_eq!(c.value(0, 0), 49);
    assert_eq!(c.value(0, 1), 50);
    assert_eq!(c.value(0, 2), 100);
    assert_eq!(c.value(0, 3), 150);
    c.run("A1=MAX(A2:A3)");
    assert_eq!(c.value(0, 0), 7);
    assert_eq!(c.value(0, 1), 8);
    assert_eq!(c.value(0, 2), 16);
    assert_eq!(c.value(0, 3), 24);
    c.run("A1=B1+1");
    assert_eq!(c.status, "circular error");
    assert_eq!(c.value(0, 0), 7);
}

#[test]
fn test_range_formula_narrowed_in_place() {
    let mut c = Console::new(10, 10);
    c.run("A1=1");
    c.run("A2=1");
    c.run("A3=1");
    c.run("B1=SUM(A1:A3)");
    assert_eq!(c.value(0, 1), 3);
    c.run("B1=SUM(A1:A2)");
    assert_eq!(c.value(0, 1), 2);
    // Narrowing recomputes the marks of the old rectangle after the new one
    // was marked, so its positions are left unmarked and a later write there
    // does not reach B1.
    c.run("A1=5");
    assert_eq!(c.value(0, 0), 5);
    assert_eq!(c.value(0, 1), 2);
    assert!(!c.sheet.buul[0][0]);
}

#[test]
fn test_moved_cell_recalculates_range_dependents() {
    let mut c = Console::new(10, 10);
    c.run("A1=1");
    c.run("A2=2");
    c.run("B1=SUM(A1:A2)");
    c.run("C1=A1+100");
    assert_eq!(c.value(0, 1), 3);
    set_content(&mut c.sheet, 0, 0, 10, false, None);
    assert_eq!(c.value(0, 1), 3);
    lib::sheet_functions::update_dependencies(5, 5, 0, 0, &mut c.sheet);
    assert_eq!(c.value(0, 1), 12);
    let b1 = c.sheet.get_cell(0, 1).unwrap();
    assert_eq!(b1.cell1, CellInfo { row: 0, col: 0 });
    assert_eq!(b1.cell2, CellInfo { row: 1, col: 0 });
    let c1 = c.sheet.get_cell(0, 2).unwrap();
    assert_eq!(c1.value, 101);
    assert_eq!(c1.cell1, CellInfo { row: 0, col: 0 });
}

#[test]
fn test_range_formula_replaced_where_another_reads() {
    let mut c = Console::new(10, 10);
    c.run("A1=1");
    c.run("A2=1");
    c.run("A3=1");
    c.run("B1=SUM(A1:A3)");
    c.run("C1=SUM(A1:A3)");
    c.run("B1=SUM(A1:A2)");
    assert_eq!(c.value(0, 1), 2);
    assert!(c.sheet.buul[0][0] && c.sheet.buul[1][0] && c.sheet.buul[2][0]);
    c.run("A1=5");
    assert_eq!(c.value(0, 1), 6);
    assert_eq!(c.value(0, 2), 7);
}

#[test]
fn test_parse_command_smaller_totals() {
    // A 10 x 10 sheet shown as 5 x 5: a cell outside the totals is refused.
    let mut sheet = Sheet::new(10, 10);
    let mut row_start = 0;
    let mut col_start = 0;
    let mut status = String::new();
    let mut print_enabled = true;
    parse_command("F1=3", &mut row_start, &mut col_start, &mut status, &5, &5, &mut sheet, &mut print_enabled);
    assert_eq!(status, "Invalid cmd");
    assert!(sheet.get_cell(0, 5).is_none());
    parse_command("B2=3", &mut row_start, &mut col_start, &mut status, &5, &5, &mut sheet, &mut print_enabled);
    assert_eq!(status, "ok");
    assert_eq!(sheet.get_cell(1, 1).unwrap().value, 3);
}
