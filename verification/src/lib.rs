//! A spreadsheet engine: cells holding integers, strings or formulas, range
//! functions, dependency tracking with cycle detection, recalculation in
//! dependency order, sorting of ranges, the textual command language and the
//! editing operations of the interactive editor.
pub mod sheet_functions;
pub mod calculate_functions;
pub mod parser;
pub mod sorting;
pub mod ui_sheet_functions;
pub mod ui;
pub mod display;
pub mod entry_lists;
pub mod editor;

mod text;
