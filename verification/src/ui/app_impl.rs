//! The editor's state types.
use vstd::prelude::*;
use crate::sheet_functions::{Cell, Sheet};

verus! {

/// A sheet with the name its tab shows.
pub struct Sheets {
    pub sheet: Sheet,
    pub name: String,
}

/// An edit that can be undone or redone.
#[derive(Debug)]
pub enum Action {
    /// A cell was written; `previous_cell` is what it held before.
    Inserted { sheet_index: usize, row: i16, col: i16, previous_cell: Cell },
    /// A cell was cut from `(row1, col1)` and pasted at `(row2, col2)`.
    CutAction {
        sheet_index: usize,
        row1: i16,
        col1: i16,
        previous_cell1: Cell,
        row2: i16,
        col2: i16,
        previous_cell2: Cell,
    },
    /// A find-and-replace: for each changed cell its row, column, old and
    /// new cell, and the command that was run.
    FindAndReplace { sheet_index: usize, changes: Vec<(usize, usize, Cell, Cell, String)> },
}

/// How the clipboard's cell was taken.
#[derive(Clone, Copy, Debug, PartialEq, Eq, Structural)]
pub enum CutCopy {
    Cut,
    Copied,
}

/// Whether the selected cell is being edited.
#[derive(Clone, Copy, Debug, PartialEq, Eq, Structural)]
pub enum Mode {
    Normal,
    Insert,
}

/// The menu dialog that is open.
#[derive(Clone, Copy, Debug, PartialEq, Eq, Structural)]
pub enum Menu {
    Save,
    Open,
    Theme,
    NewSheet,
    DeleteSheet,
    FindAndReplace,
    PlotGraph,
    /// No dialog is open.
    NoMenu,
}

} // verus!
