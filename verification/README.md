# Spreadsheet engine, verified

A spreadsheet engine whose behaviour is stated in Verus contracts and proved:
integer cells, string cells and formulas, range functions (SUM, MIN, MAX,
AVG, STDEV), dependency tracking with cycle detection, recalculation of the
dependents of a cell in topological order, sorting of rectangles, and the
textual command language of the terminal front end, and the editing
operations of the interactive editor (cut, copy, paste, find-and-replace,
undo and redo).

Layout:

- `src/sheet_functions.rs`: the sheet, its cells and range entries, the
  dependency graph (collecting dependents, counting in-degrees, topological
  sort), setting formulas, recalculation, moving references, and the laws
  that tie them together: a refused formula leaves the sheet unchanged, an
  acyclic sheet stays acyclic, and recalculated dependents hold what their
  formulas give.
- `src/entry_lists.rs`: listings of the range entries; what a position
  reaches through them does not depend on the order of the walk.
- `src/calculate_functions.rs`: arithmetic of formulas and the range
  functions.
- `src/parser.rs`: the command language, as a grammar over characters, and
  what each command does to the sheet and the view.
- `src/sorting.rs`: stable sorting of the lines of a rectangle.
- `src/display.rs`, `src/ui/utils.rs`: the text shown for cells and
  formulas.
- `src/ui.rs` and `src/ui/`: the state the interactive editor keeps beside
  the sheets.
- `src/ui_sheet_functions.rs`: the dependency and sorting operations that
  interactive editing uses.
- `src/editor.rs`: the interactive editor's state machine: cut, copy and
  paste, find-and-replace, new sheets, and undo/redo of cell edits, cut and
  paste, and find-and-replace, with the laws that undoing a paste gives the
  cell back and redoing an undone edit gives the edit back.
- `app/main.rs`: the terminal program (input, timing, printing).
- `tests/`: tests on concrete sheets and commands.
