//! What the terminal shows of a sheet: the window of at most ten rows and
//! ten columns from the scroll position, and the text of each cell in it.
use vstd::prelude::*;
use crate::sheet_functions::{CellView, Sheet};
use crate::text::push_text;
use crate::ui::utils::{decimal_text, push_decimal};

verus! {

/// The end (exclusive) of the shown part of an axis of `total` positions
/// scrolled to `start`: at most ten positions are shown.
pub open spec fn spec_window_end(start: int, total: int) -> int {
    start + if total - start < 10 {
        total - start
    } else {
        10
    }
}

/// The end (exclusive) of the rows or columns shown from `start` on an axis
/// of `total` positions.
pub fn window_end(start: i32, total: i32) -> (end: i32)
    requires
        -1_000_000_000 <= start <= 1_000_000_000,
        -1_000_000_000 <= total <= 1_000_000_000,
    ensures
        end == spec_window_end(start as int, total as int),
{
    let rest = total - start;
    start + if rest < 10 {
        rest
    } else {
        10
    }
}

/// The text shown for a cell: "Err" when it is in error, else its string,
/// else its value in decimal.
pub open spec fn shown_text(c: CellView) -> Seq<char> {
    if c.is_error {
        "Err"@
    } else {
        match c.string {
            Some(t) => t,
            None => decimal_text(c.value as int),
        }
    }
}

/// The text shown at `(row as i16, col as i16)`; a position where nothing is
/// stored shows 0.
pub fn cell_text(sheet: &Sheet, row: i32, col: i32) -> (text: String)
    ensures
        text@ == shown_text(sheet.cell_at(row as i16 as int, col as i16 as int)),
{
    let mut text = String::new();
    match sheet.get_cell(row as i16, col as i16) {
        Some(c) => {
            if c.is_error {
                push_text(&mut text, "Err");
                proof {
                    reveal_strlit("Err");
                }
            } else {
                match &c.string {
                    Some(t) => {
                        push_text(&mut text, t.as_str());
                    },
                    None => {
                        push_decimal(&mut text, c.value as i64);
                    },
                }
            }
        },
        None => {
            push_decimal(&mut text, 0);
        },
    }
    proof {
        assert(text@ =~= shown_text(sheet.cell_at(row as i16 as int, col as i16 as int)));
    }
    text
}

} // verus!
