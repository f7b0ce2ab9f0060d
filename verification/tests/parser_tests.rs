use lib::sheet_functions::{Sheet, OpCode, get_or_create_cell};
use lib::parser::{get_op_code, get_op_code2, func_to_op_code, parse_command};
use lib::display::{cell_text, window_end};

fn create_test_sheet() -> Sheet {
    Sheet::new(10, 10)
}

#[test]
fn test_get_op_code() {
    assert_eq!(get_op_code('+', false), OpCode::CellPlusConstant);
    assert_eq!(get_op_code('-', false), OpCode::CellMinusConstant);
    assert_eq!(get_op_code('*', false), OpCode::CellTimesConstant);
    assert_eq!(get_op_code('/', false), OpCode::CellDivideConstant);
    assert_eq!(get_op_code('/', true), OpCode::ConstantDividesCell);
    assert_eq!(get_op_code('x', false), OpCode::NoConstraint);
}

#[test]
fn test_get_op_code2() {
    assert_eq!(get_op_code2('+'), OpCode::CellPlusCell);
    assert_eq!(get_op_code2('-'), OpCode::CellMinusCell);
    assert_eq!(get_op_code2('*'), OpCode::CellTimesCell);
    assert_eq!(get_op_code2('/'), OpCode::CellDivideCell);
    assert_eq!(get_op_code2('x'), OpCode::NoConstraint);
}

#[test]
fn test_func_to_op_code() {
    assert_eq!(func_to_op_code("SUM"), OpCode::Sum);
    assert_eq!(func_to_op_code("MIN"), OpCode::Min);
    assert_eq!(func_to_op_code("MAX"), OpCode::Max);
    assert_eq!(func_to_op_code("AVG"), OpCode::Avg);
    assert_eq!(func_to_op_code("STDEV"), OpCode::Stdev);
    assert_eq!(func_to_op_code("UNKNOWN"), OpCode::NoConstraint);
}

struct Session {
    sheet: Sheet,
    row_start: i32,
    col_start: i32,
    status: String,
    total_rows: i32,
    total_cols: i32,
    print_enabled: bool,
    time: f32,
}

impl Session {
    fn new(total_rows: i32, total_cols: i32) -> Session {
        Session {
            sheet: create_test_sheet(),
            row_start: 0,
            col_start: 0,
            status: String::new(),
            total_rows,
            total_cols,
            print_enabled: true,
            time: 0.0,
        }
    }

    fn run(&mut self, command: &str) {
        let effect = parse_command(
            command,
            &mut self.row_start,
            &mut self.col_start,
            &mut self.status,
            &self.total_rows,
            &self.total_cols,
            &mut self.sheet,
            &mut self.print_enabled,
        );
        if effect.timed {
            self.time = effect.sleep_seconds as f32;
        }
    }

    fn value(&self, row: i16, col: i16) -> i32 {
        self.sheet.get_cell(row, col).unwrap().value
    }
}

#[test]
fn test_parse_command_simple_assignment() {
    let mut s = Session::new(10, 10);
    s.status = String::from("ok");
    s.run("A1=42");
    assert_eq!(s.value(0, 0), 42);
    assert_eq!(s.status, "ok");
}

#[test]
fn test_parse_command_cell_operations() {
    let mut s = Session::new(10, 10);
    s.run("A1=10");
    s.run("B1=20");

    s.run("C1=A1+B1");
    assert_eq!(s.value(0, 2), 30);
    s.run("D1=B1-A1");
    assert_eq!(s.value(0, 3), 10);
    s.run("E1=A1*B1");
    assert_eq!(s.value(0, 4), 200);
    s.run("F1=B1/A1");
    assert_eq!(s.value(0, 5), 2);

    s.run("ZZZ9991=B1/A1");
    assert_eq!(s.status, "Invalid cmd");

    s.run("F1=1+1");
    assert_eq!(s.value(0, 5), 2);
    s.run("F1=1-1");
    assert_eq!(s.value(0, 5), 0);
    s.run("F1=1*1");
    assert_eq!(s.value(0, 5), 1);
    s.run("F1=1/1");
    assert_eq!(s.value(0, 5), 1);
    s.run("F1=1/0");
    assert_eq!(s.sheet.get_cell(0, 5).unwrap().is_error, true);
    s.run("ZZZ9991=1/0");
    assert_eq!(s.status, "Invalid cmd");

    s.run("F1=1+A1");
    assert_eq!(s.value(0, 5), 11);
    s.run("F1=1-A1");
    assert_eq!(s.value(0, 5), -9);
    s.run("F1=1*A1");
    assert_eq!(s.value(0, 5), 10);
    s.run("F1=1/A1");
    assert_eq!(s.value(0, 5), 0);
    s.run("ZZZ9991=1/A1");
    assert_eq!(s.status, "Invalid cmd");

    s.run("F1=A1+1");
    assert_eq!(s.value(0, 5), 11);
    s.run("F1=A1-1");
    assert_eq!(s.value(0, 5), 9);
    s.run("F1=A1*1");
    assert_eq!(s.value(0, 5), 10);
    s.run("F1=A1/1");
    assert_eq!(s.value(0, 5), 10);
    s.run("ZZZ9991=A1/1");
    assert_eq!(s.status, "Invalid cmd");

    s.run("B1=1");
    assert_eq!(s.value(0, 1), 1);
    s.run("B2=2");
    assert_eq!(s.value(1, 1), 2);
    s.run("A1=MAX(B1:B2)");
    assert_eq!(s.value(0, 0), 2);
    s.run("A2=MAX(B1:B2)");
    assert_eq!(s.value(1, 0), 2);

    s.run("A2=A1+1");
    assert_eq!(s.value(1, 0), 3);

    s.run("B1=21");
    assert_eq!(s.value(0, 1), 21);
}

#[test]
fn test_parse_command_functions() {
    let mut s = Session::new(10, 10);
    s.run("A1=10");
    s.run("A2=20");
    s.run("B1=30");
    s.run("B2=40");

    s.run("C1=SUM(A1:B2)");
    assert_eq!(s.value(0, 2), 100);
    s.run("C2=MIN(A1:B2)");
    assert_eq!(s.value(1, 2), 10);
    s.run("C3=MAX(A1:B2)");
    assert_eq!(s.value(2, 2), 40);
    s.run("C4=AVG(A1:B2)");
    assert_eq!(s.value(3, 2), 25);
    s.run("C5=STDEV(A1:B2)");
    assert_eq!(s.value(4, 2), 11);

    get_or_create_cell(&mut s.sheet, 0, 0).string = Some("Hello".to_string());
    s.run("B2=A1");
    assert_eq!(s.sheet.get_cell(1, 1).unwrap().string, Some("Hello".to_string()));
}

#[test]
fn test_parse_command_string_cells() {
    let mut s = Session::new(10, 10);
    s.run("A1=\"Hello\"");
    assert_eq!(s.sheet.get_cell(0, 0).unwrap().string, Some("Hello".to_string()));
    assert_eq!(s.status, "ok");
}

#[test]
fn test_navigation_commands() {
    let mut s = Session::new(20, 20);

    s.run("s");
    assert_eq!(s.row_start, 10);
    s.run("w");
    assert_eq!(s.row_start, 0);
    s.run("d");
    assert_eq!(s.col_start, 10);
    s.run("a");
    assert_eq!(s.col_start, 0);

    s.run("scroll_toB5");
    assert_eq!(s.row_start, 4);
    assert_eq!(s.col_start, 1);

    s.run("scroll_toZZZ9991");
    assert_eq!(s.status, "err");
}

#[test]
fn test_division_by_zero() {
    let mut s = Session::new(10, 10);
    s.run("A1=10");
    s.run("B1=0");
    s.run("C1=A1/B1");
    assert!(s.sheet.get_cell(0, 2).unwrap().is_error);
}

#[test]
fn test_string_cells_and_operations() {
    let mut s = Session::new(10, 10);
    s.run("A1=\"Hello\"");
    s.run("B1=\"World\"");

    assert_eq!(s.sheet.get_cell(0, 0).unwrap().string, Some("Hello".to_string()));
    assert_eq!(s.sheet.get_cell(0, 1).unwrap().string, Some("World".to_string()));

    s.run("C1=A1+B1");
    assert!(s.sheet.get_cell(0, 2).unwrap().is_error);

    s.run("ZZZ9991=\"World\"");
    assert_eq!(s.status, "Invalid cmd");
}

#[test]
fn test_sleep_commands() {
    let mut s = Session::new(10, 10);
    s.run("A1=SLEEP(1)");
    assert_eq!(s.value(0, 0), 1);
    assert_eq!(s.time, 1.0);

    s.run("B1=1");
    s.run("A2=SLEEP(B1)");
    assert_eq!(s.sheet.get_cell(1, 0).unwrap().op_code, OpCode::Sleep);
    assert_eq!(s.time, 1.0);
}

#[test]
fn test_error_handling() {
    let mut s = Session::new(10, 10);
    s.run("Z99=10");
    assert_eq!(s.status, "Invalid cmd");

    s.run("A1=B1");
    s.status = String::new();
    s.run("B1=A1");
    assert_eq!(s.status, "circular error");

    s.run("C1=SUM(B2:A1)");
    assert_eq!(s.status, "Invalid cmd");
}

#[test]
fn test_print_sheet() {
    let mut sheet = create_test_sheet();

    get_or_create_cell(&mut sheet, 0, 0).value = 10;
    get_or_create_cell(&mut sheet, 0, 1).value = 20;
    let cell = get_or_create_cell(&mut sheet, 1, 0);
    cell.string = Some("Hello".to_string());

    // What the terminal shows of the window from (0, 0) on a 3 x 3 sheet.
    assert_eq!(window_end(0, 3), 3);
    let mut shown: Vec<String> = Vec::new();
    for i in 0..window_end(0, 3) {
        for j in 0..window_end(0, 3) {
            shown.push(cell_text(&sheet, i, j));
        }
    }
    assert_eq!(shown, vec!["10", "20", "0", "Hello", "0", "0", "0", "0", "0"]);
}
