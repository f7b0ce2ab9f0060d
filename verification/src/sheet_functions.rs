//! The sheet: cells, formulas (op codes), the dependency graph between cells,
//! and the operations that keep values and dependencies up to date.
use vstd::prelude::*;
use std::collections::HashMap;
use std::collections::HashSet;
use crate::text::push_char;
use vstd::std_specs::iter::IteratorSpec;
use vstd::multiset::Multiset;
use crate::entry_lists::{is_listing, listed_keys, listed_values, lemma_listing_found, lemma_listing_uncovered, lemma_range_counts};

verus! {

broadcast use vstd::std_specs::hash::group_hash_axioms;

/// What a cell holds: a plain value, a string, or a formula over other cells.
#[derive(Clone, Copy, Debug, PartialEq, Eq, Structural)]
pub enum OpCode {
    NoConstraint,
    CellEqualsCell,
    CellPlusCell,
    CellMinusCell,
    CellTimesCell,
    CellDivideCell,
    CellPlusConstant,
    CellMinusConstant,
    CellTimesConstant,
    CellDivideConstant,
    ConstantDividesCell,
    ConstantMinusCell,
    Sum,
    Min,
    Max,
    Avg,
    Stdev,
    Sleep,
    String,
}

/// A cell position (0-based row and column); `(-1, -1)` marks "no cell".
#[derive(Clone, Copy, Debug, PartialEq, Eq, Structural)]
pub struct CellInfo {
    pub row: i16,
    pub col: i16,
}

/// One cell of the sheet.
///
/// `dependencies` holds the keys (`col * 1000 + row`) of the cells whose
/// formula refers to this cell directly.
#[derive(Debug)]
pub struct Cell {
    pub value: i32,
    pub is_error: bool,
    pub string: Option<String>,
    pub op_code: OpCode,
    pub cell1: CellInfo,
    pub cell2: CellInfo,
    pub dependencies: HashSet<i32>,
}

/// The mathematical content of a cell.
pub struct CellView {
    pub value: i32,
    pub is_error: bool,
    pub string: Option<Seq<char>>,
    pub op_code: OpCode,
    pub cell1: CellInfo,
    pub cell2: CellInfo,
    pub dependencies: Set<i32>,
}

pub open spec fn string_view(s: Option<String>) -> Option<Seq<char>> {
    match s {
        Some(t) => Some(t@),
        None => None,
    }
}

impl View for Cell {
    type V = CellView;

    open spec fn view(&self) -> CellView {
        CellView {
            value: self.value,
            is_error: self.is_error,
            string: string_view(self.string),
            op_code: self.op_code,
            cell1: self.cell1,
            cell2: self.cell2,
            dependencies: self.dependencies@,
        }
    }
}

/// The position that marks "no cell".
pub open spec fn no_cell() -> CellInfo {
    CellInfo { row: -1i16, col: -1i16 }
}

/// The cell that stands wherever nothing was ever written.
pub open spec fn default_cell() -> CellView {
    CellView {
        value: 0,
        is_error: false,
        string: None,
        op_code: OpCode::NoConstraint,
        cell1: no_cell(),
        cell2: no_cell(),
        dependencies: Set::empty(),
    }
}

/// A fresh cell with no content, no formula and no dependents.
pub fn new_cell() -> (c: Cell)
    ensures
        c@ == default_cell(),
{
    Cell {
        value: 0,
        is_error: false,
        string: None,
        op_code: OpCode::NoConstraint,
        cell1: CellInfo { row: -1, col: -1 },
        cell2: CellInfo { row: -1, col: -1 },
        dependencies: HashSet::new(),
    }
}

/// The targets of range formulas over one rectangle: the cells
/// `(col, row)` whose formula reads the rectangle from
/// `(start_row, start_col)` to `(end_row, end_col)`.
#[derive(Debug)]
pub struct RangeTargets {
    pub start_col: i16,
    pub start_row: i16,
    pub end_col: i16,
    pub end_row: i16,
    pub targets: Vec<(i16, i16)>,
}

/// A sheet of `rows` x `cols` cells.
///
/// `data` maps `data_key(row, col)` to the cell stored there (cells never
/// written are absent and read as the default cell). `buul[row][col]` marks
/// the cells read by some range formula. `tuup` maps `range_key` of a
/// rectangle to the cells whose range formula reads that rectangle.
pub struct Sheet {
    pub rows: i32,
    pub cols: i32,
    pub buul: Vec<Vec<bool>>,
    pub data: HashMap<i32, Cell>,
    pub tuup: HashMap<i64, RangeTargets>,
}

/// The key of position `(row, col)` in `Sheet::data`.
pub open spec fn spec_data_key(row: int, col: int) -> int {
    row * 65536 + col + 32768
}

/// The key of position `(row, col)` in `Sheet::data`; distinct positions
/// have distinct keys.
pub fn data_key(row: i16, col: i16) -> (k: i32)
    ensures
        k == spec_data_key(row as int, col as int),
{
    row as i32 * 65536 + (col as i32 + 32768)
}

/// The key of a rectangle in `Sheet::tuup`.
pub open spec fn spec_range_key(start_col: int, start_row: int, end_col: int, end_row: int) -> int {
    start_col * 0x1_0000_0000_0000 + (start_row + 32768) * 0x1_0000_0000 + (end_col + 32768)
        * 0x1_0000 + (end_row + 32768)
}

/// The key of a rectangle in `Sheet::tuup`.
pub fn range_key(start_col: i16, start_row: i16, end_col: i16, end_row: i16) -> (k: i64)
    ensures
        k == spec_range_key(start_col as int, start_row as int, end_col as int, end_row as int),
{
    start_col as i64 * 0x1_0000_0000_0000 + (start_row as i64 + 32768) * 0x1_0000_0000 + (
    end_col as i64 + 32768) * 0x1_0000 + (end_row as i64 + 32768)
}

/// The key that the dependency graph uses for the cell at `(row, col)`.
pub open spec fn dep_key(row: int, col: int) -> int {
    col * 1000 + row
}

impl Sheet {
    /// The content of position `(row, col)`: the stored cell, or the default.
    pub open spec fn cell_at(self, row: int, col: int) -> CellView {
        let k = spec_data_key(row, col) as i32;
        if self.data@.contains_key(k) {
            self.data@[k]@
        } else {
            default_cell()
        }
    }

    /// The stored cell at `(row, col)`, if any.
    pub fn get_cell(&self, row: i16, col: i16) -> (r: Option<&Cell>)
        ensures
            match r {
                Some(c) => self.data@.contains_key(spec_data_key(row as int, col as int) as i32)
                    && *c == self.data@[spec_data_key(row as int, col as int) as i32],
                None => !self.data@.contains_key(spec_data_key(row as int, col as int) as i32),
            },
    {
        self.data.get(&data_key(row, col))
    }
}

/// Returns the cell at `(row as i16, col as i16)`, storing a default cell
/// there first if none is stored.
pub fn get_or_create_cell(sheet: &mut Sheet, row: i32, col: i32) -> (r: &mut Cell)
    ensures
        (*r)@ == old(sheet).cell_at(row as i16 as int, col as i16 as int),
        old(sheet).data@.contains_key(spec_data_key(row as i16 as int, col as i16 as int) as i32)
            ==> *r == old(sheet).data@[spec_data_key(row as i16 as int, col as i16 as int) as i32],
        final(sheet).data@ == old(sheet).data@.insert(
            spec_data_key(row as i16 as int, col as i16 as int) as i32,
            *final(r),
        ),
        final(sheet).rows == old(sheet).rows,
        final(sheet).cols == old(sheet).cols,
        final(sheet).buul == old(sheet).buul,
        final(sheet).tuup == old(sheet).tuup,
{
    let k = data_key(row as i16, col as i16);
    sheet.data.entry(k).or_insert(new_cell())
}


/// Whether `(row, col)` lies inside a sheet of `total_rows` x `total_cols`.
pub open spec fn spec_is_valid_cell(row: int, col: int, total_rows: int, total_cols: int) -> bool {
    0 <= row < total_rows && 0 <= col < total_cols
}

/// Whether `(row, col)` lies inside a sheet of `total_rows` x `total_cols`.
pub fn is_valid_cell(row: i32, col: i32, total_rows: i32, total_cols: i32) -> (r: bool)
    ensures
        r == spec_is_valid_cell(row as int, col as int, total_rows as int, total_cols as int),
{
    row >= 0 && row < total_rows && col >= 0 && col < total_cols
}

impl Sheet {
    /// An empty sheet of `rows` x `cols` cells: nothing stored, no range
    /// formula, every range mark cleared.
    pub fn new(rows: i32, cols: i32) -> (s: Self)
        requires
            0 <= rows,
            rows == 0 || 0 <= cols,
        ensures
            s.rows == rows,
            s.cols == cols,
            s.data@ == Map::<i32, Cell>::empty(),
            s.tuup@ == Map::<i64, RangeTargets>::empty(),
            s.buul@.len() == rows,
            forall|i: int| 0 <= i < rows ==> (#[trigger] s.buul@[i])@.len() == cols,
            forall|i: int, j: int| 0 <= i < rows && 0 <= j < cols ==> !(#[trigger] s.buul@[i]@[j]),
            rows <= 1000 && 0 <= cols <= 32767 ==> s.wf() && s.settled(),
            acyclic(s),
            marks_cover(s),
    {
        let mut buul: Vec<Vec<bool>> = Vec::new();
        let mut i: i32 = 0;
        while i < rows
            invariant
                0 <= i <= rows,
                rows > 0 ==> 0 <= cols,
                buul@.len() == i,
                forall|a: int| 0 <= a < i ==> (#[trigger] buul@[a])@.len() == cols,
                forall|a: int, b: int| 0 <= a < i && 0 <= b < cols ==> !(#[trigger] buul@[a]@[b]),
            decreases rows - i,
        {
            let mut row: Vec<bool> = Vec::new();
            let mut j: i32 = 0;
            while j < cols
                invariant
                    0 <= j <= cols,
                    row@.len() == j,
                    forall|b: int| 0 <= b < j ==> !(#[trigger] row@[b]),
                decreases cols - j,
            {
                row.push(false);
                j = j + 1;
            }
            buul.push(row);
            i = i + 1;
        }
        let s = Sheet { rows, cols, buul, data: HashMap::new(), tuup: HashMap::new() };
        proof {
            assert forall|u: int, w: int| #![trigger s.edge(u, w)] s.valid_node(u) && s.edge(u, w) implies !s.reachable(
                w,
                u,
            ) by {
                assert(!s.data@.contains_key(spec_data_key(u % 1000, u / 1000) as i32));
            }
        }
        s
    }
}

/// The letter for digit `d` (0 is 'A', 25 is 'Z').
pub open spec fn letter(d: int) -> char {
    (65 + d) as char
}

/// The column name of column `n` in bijective base 26: 0 is "A", 25 is "Z",
/// 26 is "AA"; negative numbers have the empty name.
pub open spec fn col_name(n: int) -> Seq<char>
    decreases n + 1,
{
    if n < 0 {
        Seq::empty()
    } else {
        col_name(n / 26 - 1).push(letter(n % 26))
    }
}

/// The column name of column `col_num` ("A", ..., "Z", "AA", ...).
pub fn col_num_to_col_name(col_num: i32) -> (name: String)
    ensures
        name@ == col_name(col_num as int),
{
    let mut rev: Vec<char> = Vec::new();
    let mut n = col_num;
    while n >= 0
        invariant
            col_name(col_num as int) =~= col_name(n as int) + rev@.reverse(),
            n >= -1 || n == col_num,
        decreases n + 1,
    {
        let d = n % 26;
        let c = (65 + d) as u8 as char;
        proof {
            assert(col_name(n as int) == col_name(n as int / 26 - 1).push(letter((n % 26) as int)));
            assert(rev@.push(c).reverse() =~= seq![c] + rev@.reverse());
        }
        rev.push(c);
        n = n / 26 - 1;
    }
    let mut name = String::new();
    let mut i = rev.len();
    while i > 0
        invariant
            i <= rev@.len(),
            name@ =~= rev@.subrange(i as int, rev@.len() as int).reverse(),
            col_name(col_num as int) =~= rev@.reverse(),
        decreases i,
    {
        i = i - 1;
        proof {
            assert(rev@.subrange(i as int, rev@.len() as int) =~= seq![rev@[i as int]]
                + rev@.subrange(i + 1, rev@.len() as int));
        }
        push_char(&mut name, rev[i]);
    }
    name
}

/// The value of a character as a column letter: its code truncated to a
/// byte, minus the code of 'A'.
pub open spec fn letter_value(c: char) -> int {
    (c as u8) as int - 65
}

/// The column number of a column name: the inverse of `col_name`; the empty
/// name gives -1.
pub open spec fn col_value(s: Seq<char>) -> int
    decreases s.len(),
{
    if s.len() == 0 {
        -1
    } else {
        (col_value(s.drop_last()) + 1) * 26 + letter_value(s.last())
    }
}

/// A name whose letters are all at least 'A' (as bytes) and whose column
/// number fits in an `i32`: the names that `col_name_to_col_num` accepts.
pub open spec fn col_name_ok(s: Seq<char>) -> bool {
    &&& forall|i: int| 0 <= i < s.len() ==> letter_value(#[trigger] s[i]) >= 0
    &&& col_value(s) <= i32::MAX
}

pub(crate) proof fn lemma_col_value_lower(s: Seq<char>)
    requires
        forall|i: int| 0 <= i < s.len() ==> letter_value(#[trigger] s[i]) >= 0,
    ensures
        col_value(s) >= -1,
    decreases s.len(),
{
    if s.len() > 0 {
        lemma_col_value_lower(s.drop_last());
        assert(letter_value(s[s.len() - 1]) >= 0);
    }
}

pub(crate) proof fn lemma_col_value_prefix(s: Seq<char>, k: int)
    requires
        0 <= k <= s.len(),
        forall|i: int| 0 <= i < s.len() ==> letter_value(#[trigger] s[i]) >= 0,
    ensures
        col_value(s.take(k)) <= col_value(s),
    decreases s.len() - k,
{
    if k < s.len() {
        lemma_col_value_prefix(s, k + 1);
        let t = s.take(k + 1);
        assert(t.drop_last() =~= s.take(k));
        assert(t.last() == s[k]);
        assert(forall|i: int| 0 <= i < s.take(k).len() ==> s.take(k)[i] == s[i]);
        lemma_col_value_lower(s.take(k));
    } else {
        assert(s.take(k) =~= s);
    }
}

/// The column number of a column name ("A" is 0, "AA" is 26).
pub fn col_name_to_col_num(col_name: &str) -> (n: i32)
    requires
        col_name_ok(col_name@),
    ensures
        n == col_value(col_name@),
{
    let mut col: i32 = -1;
    let ghost s = col_name@;
    for c in it: col_name.chars()
        invariant
            it.seq() == s,
            s == col_name@,
            col_name_ok(s),
            col == col_value(s.take(it.index())),
    {
        proof {
            lemma_col_value_prefix(s, it.index() + 1);
            assert(s.take(it.index() + 1).drop_last() =~= s.take(it.index()));
            assert(s.take(it.index() + 1).last() == c);
            assert(forall|i: int| 0 <= i < s.take(it.index()).len() ==> s.take(it.index())[i] == s[i]);
            lemma_col_value_lower(s.take(it.index()));
            assert(letter_value(s[it.index()]) >= 0);
        }
        col = (col + 1) * 26;
        col = col + (c as u8 as i32 - 65);
    }
    proof {
        assert(s.take(s.len() as int) =~= s);
    }
    col
}


/// Converting column `n` to its name and back gives `n` (and -1 for every
/// negative column, whose name is empty).
pub proof fn lemma_col_name_round_trip(n: int)
    ensures
        col_value(col_name(n)) == if n < 0 { -1 } else { n },
    decreases n + 1,
{
    if n >= 0 {
        lemma_col_name_round_trip(n / 26 - 1);
        let t = col_name(n);
        assert(t.drop_last() =~= col_name(n / 26 - 1));
        assert(t.last() == letter(n % 26));
        assert(((65 + n % 26) as char) as u8 == (65 + n % 26) as u8);
    }
}

/// Converting a non-empty name of upper-case letters to its column number
/// and back gives the name.
pub proof fn lemma_name_round_trip(s: Seq<char>)
    requires
        s.len() > 0,
        forall|i: int| 0 <= i < s.len() ==> 65 <= (#[trigger] s[i]) as int <= 90,
    ensures
        col_value(s) >= 0,
        col_name(col_value(s)) == s,
    decreases s.len(),
{
    let p = s.drop_last();
    let c = s.last();
    let k: int = c as int;
    assert(65 <= k <= 90);
    assert(c as u8 == k as u8);
    assert(k as u8 == k);
    let d = letter_value(c);
    assert(0 <= d < 26);
    if p.len() > 0 {
        lemma_name_round_trip(p);
    } else {
        assert(col_value(p) == -1);
    }
    let n = col_value(s);
    assert(n == (col_value(p) + 1) * 26 + d);
    assert(n % 26 == d && n / 26 - 1 == col_value(p));
    assert(letter(d) == c);
    assert(col_name(n) == col_name(col_value(p)).push(letter(d)));
    if p.len() == 0 {
        assert(col_name(-1) =~= Seq::<char>::empty());
    }
    assert(col_name(col_value(p)) =~= p);
    assert(p.push(c) =~= s);
}


/// Whether position `(r, c)` lies in the rectangle of `e`.
pub open spec fn in_rect(e: RangeTargets, r: int, c: int) -> bool {
    e.start_col <= c <= e.end_col && e.start_row <= r <= e.end_row
}

/// The dependency key of the `t`-th target of `e`.
pub open spec fn target_key(e: RangeTargets, t: int) -> int {
    dep_key(e.targets@[t].1 as int, e.targets@[t].0 as int)
}

impl Sheet {
    /// Whether `(r, c)` lies inside the sheet.
    pub open spec fn valid_pos(self, r: int, c: int) -> bool {
        0 <= r < self.rows && 0 <= c < self.cols
    }

    /// Whether `k` is the dependency key of a position inside the sheet.
    pub open spec fn valid_node(self, k: int) -> bool {
        0 <= k && self.valid_pos(k % 1000, k / 1000)
    }

    /// Whether `k` is a valid node whose cell is stored.
    pub open spec fn node_stored(self, k: int) -> bool {
        self.valid_node(k) && self.data@.contains_key(spec_data_key(k % 1000, k / 1000) as i32)
    }

    /// Whether a rectangle is fit to be read by a range function: either
    /// empty (corners out of order) or inside the sheet.
    pub open spec fn rect_fits(self, r1: int, c1: int, r2: int, c2: int) -> bool {
        (r1 <= r2 && c1 <= c2) ==> (self.valid_pos(r1, c1) && self.valid_pos(r2, c2))
    }

    /// The rectangle `c1 ..= c2` of a range formula: one that fits, or both
    /// corners cleared to "no cell" (as removing the formula's dependencies
    /// leaves them).
    pub open spec fn range_refs_ok(self, c1: CellInfo, c2: CellInfo) -> bool {
        ||| self.rect_fits(c1.row as int, c1.col as int, c2.row as int, c2.col as int)
        ||| (c1 == no_cell() && c2 == no_cell())
    }

    /// The content of every stored cell.
    pub open spec fn cells(self) -> Map<i32, CellView> {
        self.data@.map_values(|c: Cell| c@)
    }

    /// `v` depends directly on `u` through a range formula whose rectangle
    /// holds `u` (only seen when `u` is marked in `buul`).
    pub open spec fn range_dep(self, u: int, v: int) -> bool {
        &&& self.buul@[u % 1000]@[u / 1000]
        &&& exists|k: i64, t: int|
            #![trigger self.tuup@[k].targets@[t]]
            self.tuup@.contains_key(k) && in_rect(self.tuup@[k], u % 1000, u / 1000) && 0 <= t
                < self.tuup@[k].targets@.len() && v == target_key(self.tuup@[k], t)
    }

    /// `v` depends directly on `u`: `v` is in the dependency set of `u`'s
    /// cell, or reads `u` through a range formula.
    pub open spec fn edge(self, u: int, v: int) -> bool {
        ||| (i32::MIN <= v <= i32::MAX && self.cell_at(u % 1000, u / 1000).dependencies.contains(
            v as i32,
        ))
        ||| self.range_dep(u, v)
    }

    /// `v` is reached from `u` in at most `n` dependency steps.
    pub open spec fn reach(self, u: int, v: int, n: nat) -> bool
        decreases n,
    {
        ||| u == v
        ||| (n > 0 && exists|w: int| #[trigger] self.edge(u, w) && self.reach(w, v, (n - 1) as nat))
    }

    /// `v` depends on `u`, directly or transitively (or is `u`).
    pub open spec fn reachable(self, u: int, v: int) -> bool {
        exists|n: nat| self.reach(u, v, n)
    }

    /// Every stored range formula reads a rectangle that fits the sheet (its
    /// references were not left cleared by a removal of its dependencies).
    pub open spec fn settled(self) -> bool {
        forall|k: i32|
            #![trigger self.data@[k]]
            self.data@.contains_key(k) && crate::calculate_functions::is_range_op(
                self.data@[k].op_code,
            ) ==> self.rect_fits(
                self.data@[k].cell1.row as int,
                self.data@[k].cell1.col as int,
                self.data@[k].cell2.row as int,
                self.data@[k].cell2.col as int,
            )
    }

    /// The well-formedness of a sheet: its size fits the dependency keys,
    /// `buul` covers it, every dependency and range target is a stored cell
    /// inside the sheet, range formulas read rectangles that fit, and each
    /// range entry is stored under the key of its rectangle.
    pub open spec fn wf(self) -> bool {
        &&& 0 <= self.rows <= 1000
        &&& 0 <= self.cols <= 32767
        &&& self.buul@.len() == self.rows
        &&& forall|i: int| 0 <= i < self.rows ==> (#[trigger] self.buul@[i])@.len() == self.cols
        &&& forall|k: i32, d: i32|
            #![trigger self.data@[k].dependencies@.contains(d)]
            self.data@.contains_key(k) && self.data@[k].dependencies@.contains(d) ==> self.valid_node(
                d as int,
            ) && self.data@.contains_key(spec_data_key(d as int % 1000, d as int / 1000) as i32)
        &&& forall|k: i32|
            #![trigger self.data@[k]]
            self.data@.contains_key(k) && crate::calculate_functions::is_range_op(
                self.data@[k].op_code,
            ) ==> self.range_refs_ok(self.data@[k].cell1, self.data@[k].cell2)
        &&& forall|k: i64|
            #![trigger self.tuup@[k]]
            self.tuup@.contains_key(k) ==> {
                let e = self.tuup@[k];
                &&& k == spec_range_key(
                    e.start_col as int,
                    e.start_row as int,
                    e.end_col as int,
                    e.end_row as int,
                )
                &&& self.rect_fits(
                    e.start_row as int,
                    e.start_col as int,
                    e.end_row as int,
                    e.end_col as int,
                )
            }
        &&& forall|k: i64, t: int|
            #![trigger self.tuup@[k].targets@[t]]
            self.tuup@.contains_key(k) && 0 <= t < self.tuup@[k].targets@.len() ==> {
                let p = self.tuup@[k].targets@[t];
                self.valid_pos(p.1 as int, p.0 as int) && self.data@.contains_key(
                    spec_data_key(p.1 as int, p.0 as int) as i32,
                )
            }
    }
}

/// Decoding a dependency key gives back row and column.
pub proof fn lemma_dep_key_decode(r: int, c: int)
    requires
        0 <= r < 1000,
        0 <= c,
    ensures
        dep_key(r, c) % 1000 == r,
        dep_key(r, c) / 1000 == c,
{
    assert((c * 1000 + r) % 1000 == r && (c * 1000 + r) / 1000 == c) by (nonlinear_arith)
        requires
            0 <= r < 1000,
            0 <= c,
    ;
}

/// In a well-formed sheet, whatever depends directly on a cell is a cell
/// inside the sheet, and is stored.
pub proof fn lemma_edge_valid(s: Sheet, u: int, v: int)
    requires
        s.wf(),
        s.valid_node(u),
        s.edge(u, v),
    ensures
        s.valid_node(v),
        s.data@.contains_key(spec_data_key(v % 1000, v / 1000) as i32),
{
    if i32::MIN <= v <= i32::MAX && s.cell_at(u % 1000, u / 1000).dependencies.contains(v as i32) {
        let k = spec_data_key(u % 1000, u / 1000) as i32;
        assert(s.data@.contains_key(k));
        assert(s.data@[k].dependencies@.contains(v as i32));
    } else {
        let (k, t) = choose|k: i64, t: int|
            #![trigger s.tuup@[k].targets@[t]]
            s.tuup@.contains_key(k) && in_rect(s.tuup@[k], u % 1000, u / 1000) && 0 <= t
                < s.tuup@[k].targets@.len() && v == target_key(s.tuup@[k], t);
        let p = s.tuup@[k].targets@[t];
        lemma_dep_key_decode(p.1 as int, p.0 as int);
    }
}

/// Every cell reached from a member of a set closed under dependency steps
/// belongs to the set.
pub proof fn lemma_closed_reach(s: Sheet, dom: Set<i32>, u: int, v: int, n: nat)
    requires
        dom.contains(u as i32),
        u == u as i32,
        s.reach(u, v, n),
        forall|a: i32, b: int| dom.contains(a) && #[trigger] s.edge(a as int, b) ==> dom.contains(
            b as i32,
        ) && b == b as i32,
    ensures
        dom.contains(v as i32),
    decreases n,
{
    if u != v {
        let w = choose|w: int| #[trigger] s.edge(u, w) && s.reach(w, v, (n - 1) as nat);
        assert(s.edge((u as i32) as int, w));
        lemma_closed_reach(s, dom, w, v, (n - 1) as nat);
    }
}

/// A dependency step followed by a path is a path.
pub proof fn lemma_reach_step(s: Sheet, u: int, w: int, v: int)
    requires
        s.edge(u, w),
        s.reachable(w, v),
    ensures
        s.reachable(u, v),
{
    let n = choose|n: nat| s.reach(w, v, n);
    assert(s.reach(u, v, n + 1));
}

/// A valid dependency key is below `cols * 1000`.
proof fn lemma_node_below(s: Sheet, k: int)
    requires
        s.valid_node(k),
    ensures
        0 <= k < s.cols * 1000,
{
    assert(k < s.cols * 1000) by (nonlinear_arith)
        requires
            0 <= k,
            k / 1000 < s.cols,
    ;
}

/// The keys of a tree of valid nodes are fewer than `cols * 1000`.
proof fn lemma_tree_bounded(s: Sheet, tree: Map<i32, i32>)
    requires
        s.wf(),
        tree.dom().finite(),
        forall|k: i32| tree.contains_key(k) ==> s.valid_node(k as int),
    ensures
        tree.len() <= s.cols * 1000,
{
    assert forall|k: i32| tree.dom().contains(k) implies 0 <= k < (s.cols * 1000) as i32 by {
        lemma_node_below(s, k as int);
    }
    lemma_keys_bounded(tree.dom(), (s.cols * 1000) as i32);
}

/// A tree that keeps every key of a smaller one is at least as large.
proof fn lemma_tree_grows(a: Map<i32, i32>, b: Map<i32, i32>)
    requires
        b.dom().finite(),
        forall|k: i32| a.contains_key(k) ==> b.contains_key(k),
    ensures
        a.len() <= b.len(),
{
    vstd::set_lib::lemma_len_subset(a.dom(), b.dom());
}

/// The size of a set of keys in `0 .. n`.
proof fn lemma_keys_bounded(dom: Set<i32>, n: i32)
    requires
        dom.finite(),
        n >= 0,
        forall|k: i32| dom.contains(k) ==> 0 <= k < n,
    ensures
        dom.len() <= n,
{
    let r = Set::<i32>::range(0, n);
    vstd::set_lib::range_set_properties::<i32>(0, n);
    vstd::set_lib::lemma_len_subset(dom, r);
}


/// Every cell that depends directly on `u` is a key of `tree`.
pub open spec fn closed_at(s: Sheet, tree: Map<i32, i32>, u: int) -> bool {
    forall|v: int| #[trigger] s.edge(u, v) ==> tree.contains_key(v as i32)
}

/// What `add_to_tree` keeps and adds: the keys of `old` stay; every key is a
/// cell inside the sheet; everything that depends directly on `root` is a
/// key; and every key added was reached from `root` and has all its direct
/// dependents among the keys.
pub open spec fn tree_grown(s: Sheet, old: Map<i32, i32>, new: Map<i32, i32>, root: int) -> bool {
    &&& forall|k: i32| old.contains_key(k) ==> new.contains_key(k)
    &&& forall|k: i32| new.contains_key(k) ==> s.valid_node(k as int)
    &&& closed_at(s, new, root)
    &&& forall|u: i32|
        #![trigger new.contains_key(u)]
        new.contains_key(u) && !old.contains_key(u) ==> closed_at(s, new, u as int) && s.reachable(
            root,
            u as int,
        )
}

/// The keys of the targets of range entry `e` when its rectangle holds
/// `(row, col)`, in the order they are stored; none otherwise.
pub open spec fn entry_keys(e: RangeTargets, row: int, col: int) -> Seq<i32> {
    if in_rect(e, row, col) {
        Seq::new(e.targets@.len(), |t: int| target_key(e, t) as i32)
    } else {
        Seq::empty()
    }
}

/// The first `t` keys of `entry_keys(e, row, col)`.
pub open spec fn entry_prefix(e: RangeTargets, row: int, col: int, t: int) -> Seq<i32> {
    if in_rect(e, row, col) {
        Seq::new(t as nat, |x: int| target_key(e, x) as i32)
    } else {
        Seq::empty()
    }
}

/// The keys of `entry_keys` over the entries `es`, one entry after another.
pub open spec fn range_keys(es: Seq<RangeTargets>, row: int, col: int) -> Seq<i32>
    decreases es.len(),
{
    if es.len() == 0 {
        Seq::empty()
    } else {
        range_keys(es.drop_last(), row, col) + entry_keys(es.last(), row, col)
    }
}

/// The range entries of an iteration over `Sheet::tuup`, in its order.
pub open spec fn entry_values(sq: Seq<(&i64, &RangeTargets)>) -> Seq<RangeTargets> {
    sq.map_values(|p: (&i64, &RangeTargets)| *p.1)
}

/// The edges out of node `u`, each counted as often as it is walked: one
/// to each direct dependent of its cell; then, when its cell is marked, one
/// to each target of each range entry (taken in the order `es`) whose
/// rectangle holds it.
pub open spec fn out_ms(s: Sheet, u: int, es: Seq<RangeTargets>) -> Multiset<i32> {
    let row = u % 1000;
    let col = u / 1000;
    Multiset::from_set(s.cell_at(row, col).dependencies).add(
        if s.buul@[row]@[col] {
            range_keys(es, row, col).to_multiset()
        } else {
            Multiset::empty()
        },
    )
}

/// The edges out of the nodes `us`, each counted as often as it is walked.
pub open spec fn keys_ms(s: Sheet, us: Seq<i32>, es: Seq<RangeTargets>) -> Multiset<i32>
    decreases us.len(),
{
    if us.len() == 0 {
        Multiset::empty()
    } else {
        keys_ms(s, us.drop_last(), es).add(out_ms(s, us.last() as int, es))
    }
}

/// The counter of `v` in `m` (0 when `v` is not a key).
pub open spec fn count_in(m: Map<i32, i32>, v: i32) -> int {
    if m.contains_key(v) {
        m[v] as int
    } else {
        0
    }
}

/// `new` is `old` after the keys of `base` were visited and the nodes `ex`
/// expanded: the keys of `old` stay; the keys added are exactly the nodes of
/// `ex`, each once; every key visited is present; and each counter grew
/// (wrapping around) by the number of visits to its key: those of `base`
/// and one per edge out of a node of `ex`.
pub open spec fn tree_counted(
    s: Sheet,
    old: Map<i32, i32>,
    new: Map<i32, i32>,
    base: Multiset<i32>,
    ex: Seq<i32>,
    es: Seq<RangeTargets>,
) -> bool {
    &&& ex.no_duplicates()
    &&& forall|u: i32| old.contains_key(u) ==> new.contains_key(u)
    &&& forall|u: i32| #[trigger] ex.contains(u) <==> new.contains_key(u) && !old.contains_key(u)
    &&& forall|v: i32| #[trigger] base.add(keys_ms(s, ex, es)).count(v) > 0 ==> new.contains_key(v)
    &&& forall|v: i32|
        #![trigger new[v]]
        new.contains_key(v) ==> new[v] == crate::calculate_functions::wrap_i32(
            count_in(old, v) + base.add(keys_ms(s, ex, es)).count(v),
        )
}

proof fn lemma_wrap_id(x: int)
    requires
        i32::MIN <= x <= i32::MAX,
    ensures
        crate::calculate_functions::wrap_i32(x) == x,
{
}

proof fn lemma_wrap_add(x: int, y: int)
    ensures
        crate::calculate_functions::wrap_i32(crate::calculate_functions::wrap_i32(x) + y)
            == crate::calculate_functions::wrap_i32(x + y),
{
    let m: int = 0x1_0000_0000;
    let r = x % m;
    let q = x / m;
    vstd::arithmetic::div_mod::lemma_fundamental_div_mod(x, m);
    assert(x == m * q + r);
    let w = crate::calculate_functions::wrap_i32(x) as int;
    let c: int = if r > 0x7fff_ffff { 1 } else { 0 };
    assert(w == r - c * m);
    vstd::arithmetic::div_mod::lemma_mod_multiples_vanish(q, r + y, m);
    vstd::arithmetic::div_mod::lemma_mod_multiples_vanish(-c, r + y, m);
    assert(x + y == m * q + (r + y)) by (nonlinear_arith)
        requires
            x == m * q + r,
    ;
    assert(w + y == m * (-c) + (r + y)) by (nonlinear_arith)
        requires
            w == r - c * m,
    ;
}

proof fn lemma_keys_ms_concat(s: Sheet, a: Seq<i32>, b: Seq<i32>, es: Seq<RangeTargets>)
    ensures
        keys_ms(s, a + b, es) =~= keys_ms(s, a, es).add(keys_ms(s, b, es)),
    decreases b.len(),
{
    if b.len() > 0 {
        lemma_keys_ms_concat(s, a, b.drop_last(), es);
        assert((a + b).drop_last() =~= a + b.drop_last());
        assert((a + b).last() == b.last());
    } else {
        assert(a + b =~= a);
    }
}

/// Visiting `base1` and then `base2` counts as visiting both.
proof fn lemma_counted_compose(
    s: Sheet,
    a: Map<i32, i32>,
    b: Map<i32, i32>,
    c: Map<i32, i32>,
    base1: Multiset<i32>,
    ex1: Seq<i32>,
    base2: Multiset<i32>,
    ex2: Seq<i32>,
    es: Seq<RangeTargets>,
)
    requires
        tree_counted(s, a, b, base1, ex1, es),
        tree_counted(s, b, c, base2, ex2, es),
    ensures
        tree_counted(s, a, c, base1.add(base2), ex1 + ex2, es),
{
    lemma_keys_ms_concat(s, ex1, ex2, es);
    let m1 = base1.add(keys_ms(s, ex1, es));
    let m2 = base2.add(keys_ms(s, ex2, es));
    assert(base1.add(base2).add(keys_ms(s, ex1 + ex2, es)) =~= m1.add(m2));
    let e = ex1 + ex2;
    assert forall|u: i32| #[trigger] e.contains(u) <==> c.contains_key(u) && !a.contains_key(u) by {
        if e.contains(u) {
            let i = choose|i: int| 0 <= i < e.len() && e[i] == u;
            if i < ex1.len() {
                assert(ex1.contains(u));
            } else {
                assert(ex2[i - ex1.len()] == u);
                assert(ex2.contains(u));
            }
        }
        if c.contains_key(u) && !a.contains_key(u) {
            if b.contains_key(u) {
                assert(ex1.contains(u));
                let i = choose|i: int| 0 <= i < ex1.len() && ex1[i] == u;
                assert(e[i] == u);
            } else {
                assert(ex2.contains(u));
                let i = choose|i: int| 0 <= i < ex2.len() && ex2[i] == u;
                assert(e[ex1.len() + i] == u);
            }
        }
    }
    assert forall|i: int, j: int| 0 <= i < e.len() && 0 <= j < e.len() && i != j implies e[i] != e[j] by {
        if i < ex1.len() && j >= ex1.len() {
            assert(ex1.contains(e[i]));
            assert(ex2.contains(e[j]));
        } else if j < ex1.len() && i >= ex1.len() {
            assert(ex1.contains(e[j]));
            assert(ex2.contains(e[i]));
        }
    }
    assert forall|v: i32| #![trigger c[v]] c.contains_key(v) implies c[v] == crate::calculate_functions::wrap_i32(
        count_in(a, v) + m1.add(m2).count(v),
    ) by {
        if b.contains_key(v) {
            lemma_wrap_add(count_in(a, v) + m1.count(v), m2.count(v) as int);
        } else {
            assert(!a.contains_key(v));
            assert(m1.count(v) == 0);
        }
    }
}

/// Visiting nothing counts nothing.
proof fn lemma_counted_none(s: Sheet, a: Map<i32, i32>, es: Seq<RangeTargets>)
    ensures
        tree_counted(s, a, a, Multiset::empty(), Seq::empty(), es),
{
    assert(Multiset::<i32>::empty().add(keys_ms(s, Seq::empty(), es)) =~= Multiset::empty());
    assert forall|v: i32| #![trigger a[v]] a.contains_key(v) implies a[v] == crate::calculate_functions::wrap_i32(
        count_in(a, v) + Multiset::<i32>::empty().add(keys_ms(s, Seq::empty(), es)).count(v),
    ) by {
        lemma_wrap_id(a[v] as int);
    }
}

/// A finite set seen as a multiset holds each of its elements once.
proof fn lemma_from_set_count(set: Set<i32>)
    requires
        set.finite(),
    ensures
        forall|v: i32| #[trigger] Multiset::from_set(set).count(v) == if set.contains(v) { 1nat } else { 0nat },
{
    broadcast use vstd::multiset::group_multiset_axioms;

    let m = Map::new(|k: i32| set.contains(k), |k: i32| 1nat);
    assert(m.dom() =~= set);
    assert forall|v: i32| #[trigger] Multiset::from_set(set).count(v) == if set.contains(v) { 1nat } else { 0nat } by {
        assert(Multiset::from_set(set) == Multiset::from_map(m));
        if set.contains(v) {
            assert(m.dom().contains(v));
        }
    }
}

/// A sequence listing each element of `set` once holds each of them once.
proof fn lemma_nodup_ms(q: Seq<i32>, set: Set<i32>)
    requires
        q.no_duplicates(),
        q.to_set() == set,
    ensures
        q.to_multiset() =~= Multiset::from_set(set),
    decreases q.len(),
{
    broadcast use vstd::multiset::group_multiset_axioms, vstd::seq_lib::group_to_multiset_ensures;

    vstd::seq_lib::seq_to_set_is_finite(q);
    assert(set.finite());
    lemma_from_set_count(set);
    if q.len() == 0 {
        assert(q.to_multiset() =~= Multiset::empty());
        assert forall|v: i32| Multiset::<i32>::from_set(set).count(v) == 0 by {
            assert(!q.to_set().contains(v));
        }
    } else {
        let p = q.drop_last();
        let x = q.last();
        assert(p.no_duplicates());
        assert(!p.contains(x));
        let pset = p.to_set();
        assert(pset =~= set.remove(x)) by {
            assert forall|v: i32| pset.contains(v) <==> set.remove(x).contains(v) by {
                if p.contains(v) {
                    let i = choose|i: int| 0 <= i < p.len() && p[i] == v;
                    assert(q[i] == v);
                }
                if set.remove(x).contains(v) {
                    assert(q.to_set().contains(v));
                    let i = choose|i: int| 0 <= i < q.len() && q[i] == v;
                    assert(i != q.len() - 1);
                    assert(p[i] == v);
                }
            }
        }
        lemma_nodup_ms(p, pset);
        assert(p.push(x) =~= q);
        vstd::seq_lib::to_multiset_build(p, x);
        vstd::seq_lib::seq_to_set_is_finite(p);
        lemma_from_set_count(pset);
        assert forall|v: i32| q.to_multiset().count(v) == Multiset::<i32>::from_set(set).count(v) by {
            assert(q.to_set().contains(x));
            if v == x {
                assert(set.contains(v));
            } else {
                assert(set.contains(v) == pset.contains(v));
            }
        }
    }
}

/// Visiting a key `v` not yet in the tree: it is inserted with 1 (`mid`)
/// and expanded (`new`).
proof fn lemma_visit_new(
    s: Sheet,
    old: Map<i32, i32>,
    mid: Map<i32, i32>,
    new: Map<i32, i32>,
    v: i32,
    ex_i: Seq<i32>,
    es: Seq<RangeTargets>,
)
    requires
        !old.contains_key(v),
        mid == old.insert(v, 1),
        tree_counted(s, mid, new, out_ms(s, v as int, es), ex_i, es),
    ensures
        tree_counted(s, old, new, Multiset::singleton(v), seq![v] + ex_i, es),
{
    let ex = seq![v] + ex_i;
    lemma_keys_ms_concat(s, seq![v], ex_i, es);
    assert(seq![v].drop_last() =~= Seq::<i32>::empty());
    assert(keys_ms(s, Seq::<i32>::empty(), es) == Multiset::<i32>::empty());
    assert(keys_ms(s, seq![v], es) =~= out_ms(s, v as int, es));
    let inner = out_ms(s, v as int, es).add(keys_ms(s, ex_i, es));
    let total = Multiset::singleton(v).add(keys_ms(s, ex, es));
    assert(total =~= Multiset::singleton(v).add(inner));
    assert forall|u: i32| #[trigger] ex.contains(u) <==> new.contains_key(u) && !old.contains_key(u) by {
        if ex.contains(u) && u != v {
            let i = choose|i: int| 0 <= i < ex.len() && ex[i] == u;
            assert(ex_i[i - 1] == u);
            assert(ex_i.contains(u));
        }
        if new.contains_key(u) && !old.contains_key(u) {
            if u == v {
                assert(ex[0] == u);
            } else {
                assert(ex_i.contains(u));
                let i = choose|i: int| 0 <= i < ex_i.len() && ex_i[i] == u;
                assert(ex[i + 1] == u);
            }
        }
    }
    assert forall|i: int, j: int| 0 <= i < ex.len() && 0 <= j < ex.len() && i != j implies ex[i] != ex[j] by {
        if i == 0 {
            assert(ex_i.contains(ex[j]));
        } else if j == 0 {
            assert(ex_i.contains(ex[i]));
        } else {
            assert(ex[i] == ex_i[i - 1] && ex[j] == ex_i[j - 1]);
        }
    }
    assert forall|w: i32| #![trigger new[w]] new.contains_key(w) implies new[w] == crate::calculate_functions::wrap_i32(
        count_in(old, w) + total.count(w),
    ) by {
        assert(count_in(mid, w) == count_in(old, w) + Multiset::singleton(v).count(w));
    }
}

/// Visiting a key `v` already in the tree raises its counter by one.
proof fn lemma_visit_seen(s: Sheet, old: Map<i32, i32>, new: Map<i32, i32>, v: i32, es: Seq<RangeTargets>)
    requires
        old.contains_key(v),
        new == old.insert(v, vstd::wrapping::i32_specs::wrapping_add(old[v], 1)),
    ensures
        tree_counted(s, old, new, Multiset::singleton(v), Seq::empty(), es),
{
    let total = Multiset::singleton(v).add(keys_ms(s, Seq::empty(), es));
    assert(total =~= Multiset::singleton(v));
    assert forall|w: i32| #![trigger new[w]] new.contains_key(w) implies new[w] == crate::calculate_functions::wrap_i32(
        count_in(old, w) + total.count(w),
    ) by {
        if w == v {
            let x = old[v] as int;
            assert(new[v] == crate::calculate_functions::wrap_i32(x + 1));
        } else {
            lemma_wrap_id(old[w] as int);
        }
    }
}

/// Visits `v`, a direct dependent of the cell being expanded: a key seen
/// for the first time gets in-degree 1 and is expanded in turn; a key seen
/// before gets its in-degree raised by one.
fn visit_dependent(avl_tree: &mut HashMap<i32, i32>, v: i32, sheet: &Sheet, Ghost(root): Ghost<int>)
    requires
        sheet.wf(),
        sheet.valid_node(v as int),
        sheet.valid_node(root),
        sheet.edge(root, v as int),
        forall|k: i32| old(avl_tree)@.contains_key(k) ==> sheet.valid_node(k as int),
    ensures
        forall|k: i32| old(avl_tree)@.contains_key(k) ==> final(avl_tree)@.contains_key(k),
        forall|k: i32| final(avl_tree)@.contains_key(k) ==> sheet.valid_node(k as int),
        final(avl_tree)@.contains_key(v),
        forall|u: i32|
            #![trigger final(avl_tree)@.contains_key(u)]
            final(avl_tree)@.contains_key(u) && !old(avl_tree)@.contains_key(u) ==> closed_at(
                *sheet,
                final(avl_tree)@,
                u as int,
            ) && sheet.reachable(root, u as int),
        exists|ex: Seq<i32>|
            #[trigger] tree_counted(
                *sheet,
                old(avl_tree)@,
                final(avl_tree)@,
                Multiset::singleton(v),
                ex,
                entry_values(vstd::std_specs::hash::spec_hash_map_iter(&sheet.tuup).remaining()),
            ),
    decreases sheet.cols * 1000 - old(avl_tree)@.len(), 0int,
{
    let ghost es = entry_values(vstd::std_specs::hash::spec_hash_map_iter(&sheet.tuup).remaining());
    proof {
        lemma_tree_bounded(*sheet, avl_tree@);
    }
    if !avl_tree.contains_key(&v) {
        let ghost before = avl_tree@;
        avl_tree.insert(v, 1);
        proof {
            assert(avl_tree@.dom() =~= before.dom().insert(v));
            lemma_tree_bounded(*sheet, avl_tree@);
        }
        let temp = CellInfo { row: (v % 1000) as i16, col: (v / 1000) as i16 };
        proof {
            lemma_dep_key_decode(temp.row as int, temp.col as int);
        }
        let ghost mid = avl_tree@;
        add_to_tree(avl_tree, temp, sheet);
        proof {
            let ex_i = choose|ex_i: Seq<i32>| #[trigger] tree_counted(*sheet, mid, avl_tree@, out_ms(*sheet, v as int, es), ex_i, es);
            lemma_visit_new(*sheet, old(avl_tree)@, mid, avl_tree@, v, ex_i, es);
        }
        proof {
            assert forall|u: i32|
                #![trigger avl_tree@.contains_key(u)]
                avl_tree@.contains_key(u) && !old(avl_tree)@.contains_key(u) implies closed_at(
                *sheet,
                avl_tree@,
                u as int,
            ) && sheet.reachable(root, u as int) by {
                if u == v {
                    assert(sheet.reach(v as int, v as int, 0));
                    lemma_reach_step(*sheet, root, v as int, v as int);
                } else {
                    assert(!mid.contains_key(u));
                    lemma_reach_step(*sheet, root, v as int, u as int);
                }
            }
        }
    } else {
        let d = *avl_tree.get(&v).unwrap();
        let ghost before = avl_tree@;
        avl_tree.insert(v, d.wrapping_add(1));
        proof {
            lemma_visit_seen(*sheet, before, avl_tree@, v, es);
        }
    }
}

/// Collects into `avl_tree` the cells that depend, directly or transitively,
/// on `cell`, with their in-degrees: a key reached for the first time is
/// inserted with 1 and expanded; each further edge into it adds 1.
pub fn add_to_tree(avl_tree: &mut HashMap<i32, i32>, cell: CellInfo, sheet: &Sheet)
    requires
        sheet.wf(),
        sheet.valid_pos(cell.row as int, cell.col as int),
        forall|k: i32| old(avl_tree)@.contains_key(k) ==> sheet.valid_node(k as int),
    ensures
        tree_grown(*sheet, old(avl_tree)@, final(avl_tree)@, dep_key(cell.row as int, cell.col as int)),
        exists|ex: Seq<i32>|
            #[trigger] tree_counted(
                *sheet,
                old(avl_tree)@,
                final(avl_tree)@,
                out_ms(*sheet, dep_key(cell.row as int, cell.col as int), entry_values(vstd::std_specs::hash::spec_hash_map_iter(&sheet.tuup).remaining())),
                ex,
                entry_values(vstd::std_specs::hash::spec_hash_map_iter(&sheet.tuup).remaining()),
            ),
    decreases sheet.cols * 1000 - old(avl_tree)@.len(), 1int,
{
    let ghost root = dep_key(cell.row as int, cell.col as int);
    let ghost start = avl_tree@;
    let ghost es = entry_values(vstd::std_specs::hash::spec_hash_map_iter(&sheet.tuup).remaining());
    let ghost mut done: Multiset<i32> = Multiset::empty();
    proof {
        broadcast use vstd::multiset::group_multiset_axioms, vstd::seq_lib::group_to_multiset_ensures;

        lemma_dep_key_decode(cell.row as int, cell.col as int);
        lemma_counted_none(*sheet, start, es);
        assert(Seq::<i32>::empty().to_multiset() =~= Multiset::<i32>::empty());
    }
    match sheet.data.get(&data_key(cell.row, cell.col)) {
        Some(curr_cell) => {
            let ghost deps = curr_cell.dependencies@;
            for d in it: curr_cell.dependencies.iter()
                invariant
                    sheet.wf(),
                    sheet.valid_node(root),
                    root == dep_key(cell.row as int, cell.col as int),
                    deps == curr_cell.dependencies@,
                    deps == sheet.cell_at(cell.row as int, cell.col as int).dependencies,
                    root % 1000 == cell.row,
                    root / 1000 == cell.col,
                    avl_tree@.len() >= start.len(),
                    start == old(avl_tree)@,
                    it.seq() == vstd::std_specs::hash::spec_hash_keys_iter(
                        &curr_cell.dependencies,
                    ).remaining(),
                    forall|k: i32| start.contains_key(k) ==> avl_tree@.contains_key(k),
                    forall|k: i32| avl_tree@.contains_key(k) ==> sheet.valid_node(k as int),
                    forall|j: int| 0 <= j < it.index() ==> avl_tree@.contains_key(*it.seq()[j]),
                    es == entry_values(vstd::std_specs::hash::spec_hash_map_iter(&sheet.tuup).remaining()),
                    exists|ex: Seq<i32>| #[trigger] tree_counted(*sheet, start, avl_tree@, done, ex, es),
                    done =~= it.seq().take(it.index()).unref().to_multiset(),
                    forall|u: i32|
                        #![trigger avl_tree@.contains_key(u)]
                        avl_tree@.contains_key(u) && !start.contains_key(u) ==> closed_at(
                            *sheet,
                            avl_tree@,
                            u as int,
                        ) && sheet.reachable(root, u as int),
            {
                let v = *d;
                proof {
                    let sq = vstd::std_specs::hash::spec_hash_keys_iter(&curr_cell.dependencies).remaining();
                    assert(sq.unref().to_set().contains(*sq[it.index()]));
                    assert(deps.contains(v));
                    assert(sheet.edge(root, v as int));
                    lemma_edge_valid(*sheet, root, v as int);
                }
                let ghost before = avl_tree@;
                proof {
                    lemma_tree_bounded(*sheet, avl_tree@);
                }
                visit_dependent(avl_tree, v, sheet, Ghost(root));
                proof {
                    let ex0 = choose|ex0: Seq<i32>| #[trigger] tree_counted(*sheet, start, before, done, ex0, es);
                    let ex_v = choose|ex_v: Seq<i32>| #[trigger] tree_counted(*sheet, before, avl_tree@, Multiset::singleton(v), ex_v, es);
                    lemma_counted_compose(*sheet, start, before, avl_tree@, done, ex0, Multiset::singleton(v), ex_v, es);
                    broadcast use vstd::multiset::group_multiset_axioms, vstd::seq_lib::group_to_multiset_ensures;

                    let sq = it.seq();
                    assert(sq.take(it.index() + 1).unref() =~= sq.take(it.index()).unref().push(v));
                    assert(done.add(Multiset::singleton(v)) =~= done.insert(v));
                    done = done.add(Multiset::singleton(v));
                    lemma_tree_grows(before, avl_tree@);
                    assert forall|u: i32|
                        #![trigger avl_tree@.contains_key(u)]
                        avl_tree@.contains_key(u) && !start.contains_key(u) implies closed_at(
                        *sheet,
                        avl_tree@,
                        u as int,
                    ) && sheet.reachable(root, u as int) by {
                        if before.contains_key(u) {
                            assert(closed_at(*sheet, before, u as int));
                        }
                    }
                }
            }
            proof {
                let sq = vstd::std_specs::hash::spec_hash_keys_iter(&curr_cell.dependencies).remaining();
                assert forall|v: i32| deps.contains(v) implies avl_tree@.contains_key(v) by {
                    assert(sq.unref().to_set().contains(v));
                    let j = choose|j: int| 0 <= j < sq.unref().len() && sq.unref()[j] == v;
                    assert(*sq[j] == v);
                }
                assert(sq.take(sq.len() as int) =~= sq);
                lemma_nodup_ms(sq.unref(), deps);
                assert(deps == sheet.cell_at(cell.row as int, cell.col as int).dependencies);
            }
        },
        None => {
            proof {
                assert(sheet.cell_at(cell.row as int, cell.col as int).dependencies == Set::<i32>::empty());
                assert(Seq::<i32>::empty().to_set() =~= Set::<i32>::empty());
                lemma_nodup_ms(Seq::<i32>::empty(), Set::<i32>::empty());
            }
        },
    }
    let ghost direct = done;
    proof {
        assert(direct =~= Multiset::from_set(sheet.cell_at(cell.row as int, cell.col as int).dependencies));
    }
    let ghost after_deps = avl_tree@;
    if sheet.buul[cell.row as usize][cell.col as usize] {
        for (k, e) in it: sheet.tuup.iter()
            invariant
                sheet.wf(),
                sheet.valid_node(root),
                root == dep_key(cell.row as int, cell.col as int),
                it.seq() == vstd::std_specs::hash::spec_hash_map_iter(&sheet.tuup).remaining(),
                sheet.valid_pos(cell.row as int, cell.col as int),
                sheet.buul@[cell.row as int]@[cell.col as int],
                root % 1000 == cell.row,
                root / 1000 == cell.col,
                avl_tree@.len() >= start.len(),
                    start == old(avl_tree)@,
                forall|k: i32| after_deps.contains_key(k) ==> avl_tree@.contains_key(k),
                forall|k: i32| start.contains_key(k) ==> avl_tree@.contains_key(k),
                forall|k: i32| avl_tree@.contains_key(k) ==> sheet.valid_node(k as int),
                forall|j: int, t: int|
                    0 <= j < it.index() && in_rect(*it.seq()[j].1, cell.row as int, cell.col as int)
                        && 0 <= t < (*it.seq()[j].1).targets@.len() ==> avl_tree@.contains_key(
                        target_key(*it.seq()[j].1, t) as i32,
                    ),
                forall|u: i32|
                    #![trigger avl_tree@.contains_key(u)]
                    avl_tree@.contains_key(u) && !start.contains_key(u) ==> closed_at(
                        *sheet,
                        avl_tree@,
                        u as int,
                    ) && sheet.reachable(root, u as int),
                es == entry_values(it.seq()),
                exists|ex: Seq<i32>| #[trigger] tree_counted(*sheet, start, avl_tree@, done, ex, es),
                done =~= direct.add(range_keys(es.take(it.index() as int), cell.row as int, cell.col as int).to_multiset()),
        {
            let ghost idx = it.index();
            proof {
                let sq = vstd::std_specs::hash::spec_hash_map_iter(&sheet.tuup).remaining();
                assert(sheet.tuup@.contains_key(*sq[idx].0));
                assert(sheet.tuup@[*sq[idx].0] == *sq[idx].1);
                assert(es[idx] == *e);
                broadcast use vstd::multiset::group_multiset_axioms, vstd::seq_lib::group_to_multiset_ensures;

                assert(entry_prefix(*e, cell.row as int, cell.col as int, 0) =~= Seq::<i32>::empty());
                assert(done =~= done.add(Seq::<i32>::empty().to_multiset()));
            }
            let ghost before_e = avl_tree@;
            let mut t: usize = 0;
            while t < e.targets.len()
                invariant
                    forall|k: i32| before_e.contains_key(k) ==> avl_tree@.contains_key(k),
                    avl_tree@.len() >= start.len(),
                    start == old(avl_tree)@,
                    root % 1000 == cell.row,
                    root / 1000 == cell.col,
                    sheet.wf(),
                    sheet.valid_node(root),
                    root == dep_key(cell.row as int, cell.col as int),
                    sheet.tuup@.contains_key(*k),
                    sheet.tuup@[*k] == *e,
                    sheet.buul@[cell.row as int]@[cell.col as int],
                    0 <= t <= e.targets@.len(),
                    forall|k: i32| after_deps.contains_key(k) ==> avl_tree@.contains_key(k),
                    forall|k: i32| start.contains_key(k) ==> avl_tree@.contains_key(k),
                    forall|k: i32| avl_tree@.contains_key(k) ==> sheet.valid_node(k as int),
                    in_rect(*e, cell.row as int, cell.col as int) ==> forall|t2: int|
                        0 <= t2 < t ==> avl_tree@.contains_key(target_key(*e, t2) as i32),
                    forall|u: i32|
                        #![trigger avl_tree@.contains_key(u)]
                        avl_tree@.contains_key(u) && !start.contains_key(u) ==> closed_at(
                            *sheet,
                            avl_tree@,
                            u as int,
                        ) && sheet.reachable(root, u as int),
                    es[idx] == *e,
                    es == entry_values(vstd::std_specs::hash::spec_hash_map_iter(&sheet.tuup).remaining()),
                    exists|ex: Seq<i32>| #[trigger] tree_counted(*sheet, start, avl_tree@, done, ex, es),
                    done =~= direct.add(range_keys(es.take(idx), cell.row as int, cell.col as int).to_multiset()).add(
                        entry_prefix(*e, cell.row as int, cell.col as int, t as int).to_multiset(),
                    ),
                decreases e.targets@.len() - t,
            {
                let (target_col, target_row) = e.targets[t];
                if cell.col >= e.start_col && cell.col <= e.end_col && cell.row >= e.start_row
                    && cell.row <= e.end_row {
                    let v: i32 = target_col as i32 * 1000 + target_row as i32;
                    proof {
                        assert(v == target_key(sheet.tuup@[*k], t as int));
                        assert(sheet.tuup@[*k].targets@[t as int] == (target_col, target_row));
                        assert(sheet.range_dep(root, v as int));
                        assert(sheet.edge(root, v as int));
                        lemma_edge_valid(*sheet, root, v as int);
                    }
                    let ghost before = avl_tree@;
                    proof {
                        lemma_tree_bounded(*sheet, avl_tree@);
                    }
                    visit_dependent(avl_tree, v, sheet, Ghost(root));
                    proof {
                        broadcast use vstd::multiset::group_multiset_axioms, vstd::seq_lib::group_to_multiset_ensures;

                        let ex0 = choose|ex0: Seq<i32>| #[trigger] tree_counted(*sheet, start, before, done, ex0, es);
                        let ex_v = choose|ex_v: Seq<i32>| #[trigger] tree_counted(*sheet, before, avl_tree@, Multiset::singleton(v), ex_v, es);
                        lemma_counted_compose(*sheet, start, before, avl_tree@, done, ex0, Multiset::singleton(v), ex_v, es);
                        let pre = entry_prefix(*e, cell.row as int, cell.col as int, t as int);
                        assert(entry_prefix(*e, cell.row as int, cell.col as int, t + 1) =~= pre.push(v));
                        assert(done.add(Multiset::singleton(v)) =~= done.insert(v));
                        done = done.add(Multiset::singleton(v));
                        lemma_tree_grows(before, avl_tree@);
                        assert forall|u: i32|
                            #![trigger avl_tree@.contains_key(u)]
                            avl_tree@.contains_key(u) && !start.contains_key(u) implies closed_at(
                            *sheet,
                            avl_tree@,
                            u as int,
                        ) && sheet.reachable(root, u as int) by {
                            if before.contains_key(u) {
                                assert(closed_at(*sheet, before, u as int));
                            }
                        }
                    }
                } else {
                    proof {
                        assert(entry_prefix(*e, cell.row as int, cell.col as int, t + 1) =~= entry_prefix(
                            *e,
                            cell.row as int,
                            cell.col as int,
                            t as int,
                        ));
                    }
                }
                t = t + 1;
            }
            proof {
                broadcast use vstd::seq_lib::lemma_multiset_commutative;

                let row = cell.row as int;
                let col = cell.col as int;
                assert(entry_prefix(*e, row, col, e.targets@.len() as int) =~= entry_keys(*e, row, col));
                assert(es.take(idx + 1).drop_last() =~= es.take(idx));
                assert(range_keys(es.take(idx + 1), row, col) == range_keys(es.take(idx), row, col) + entry_keys(*e, row, col));
                assert(done =~= direct.add(range_keys(es.take(idx + 1), row, col).to_multiset()));
            }
        }
        proof {
            assert(es.take(es.len() as int) =~= es);
        }
        proof {
            let sq = vstd::std_specs::hash::spec_hash_map_iter(&sheet.tuup).remaining();
            assert forall|v: int| sheet.range_dep(root, v) implies avl_tree@.contains_key(v as i32) by {
                let (k, t) = choose|k: i64, t: int|
                    #![trigger sheet.tuup@[k].targets@[t]]
                    sheet.tuup@.contains_key(k) && in_rect(sheet.tuup@[k], root % 1000, root / 1000)
                        && 0 <= t < sheet.tuup@[k].targets@.len() && v == target_key(sheet.tuup@[k], t);
                assert(sheet.tuup@.contains_key(k));
                assert(sq.contains((&k, &sheet.tuup@[k])));
                let j = choose|j: int| 0 <= j < sq.len() && sq[j] == (&k, &sheet.tuup@[k]);
                assert(*sq[j].1 == sheet.tuup@[k]);
            }
        }
    }
    proof {
        broadcast use vstd::multiset::group_multiset_axioms;

        assert(done =~= out_ms(*sheet, root, es));
        assert forall|v: int| #[trigger] sheet.edge(root, v) implies avl_tree@.contains_key(v as i32) by {
            if i32::MIN <= v <= i32::MAX && sheet.cell_at(root % 1000, root / 1000).dependencies.contains(v as i32) {
                assert(after_deps.contains_key(v as i32));
            }
        }
    }
}


/// The law of `add_to_tree`: started from a tree holding only `root`, it
/// collects exactly the cells that depend on `root`, directly or
/// transitively (and `root` itself).
pub proof fn lemma_tree_is_dependents(s: Sheet, old: Map<i32, i32>, new: Map<i32, i32>, root: i32)
    requires
        s.wf(),
        s.valid_node(root as int),
        old.dom() == set![root],
        tree_grown(s, old, new, root as int),
    ensures
        forall|v: i32| new.contains_key(v) <==> s.reachable(root as int, v as int),
        forall|v: int| s.reachable(root as int, v) ==> i32::MIN <= v <= i32::MAX,
{
    assert(old.contains_key(root));
    assert forall|a: i32, b: int| new.contains_key(a) && #[trigger] s.edge(a as int, b) implies new.contains_key(
        b as i32,
    ) && b == b as i32 by {
        lemma_edge_valid(s, a as int, b);
        lemma_node_below(s, b);
        if a == root {
        } else {
            assert(!old.contains_key(a));
            assert(closed_at(s, new, a as int));
        }
    }
    assert forall|v: i32| new.contains_key(v) <==> s.reachable(root as int, v as int) by {
        if new.contains_key(v) {
            if v == root {
                assert(s.reach(root as int, v as int, 0));
            } else {
                assert(!old.contains_key(v));
            }
        }
        if s.reachable(root as int, v as int) {
            let n = choose|n: nat| s.reach(root as int, v as int, n);
            lemma_closed_reach(s, new.dom(), root as int, v as int, n);
        }
    }
    assert forall|v: int| s.reachable(root as int, v) implies i32::MIN <= v <= i32::MAX by {
        let n = choose|n: nat| s.reach(root as int, v, n);
        lemma_reach_in_range(s, new.dom(), root as int, v, n);
    }
}

proof fn lemma_reach_in_range(s: Sheet, dom: Set<i32>, u: int, v: int, n: nat)
    requires
        dom.contains(u as i32),
        u == u as i32,
        s.reach(u, v, n),
        forall|a: i32, b: int| dom.contains(a) && #[trigger] s.edge(a as int, b) ==> dom.contains(
            b as i32,
        ) && b == b as i32,
    ensures
        v == v as i32,
    decreases n,
{
    if u != v {
        let w = choose|w: int| #[trigger] s.edge(u, w) && s.reach(w, v, (n - 1) as nat);
        assert(s.edge((u as i32) as int, w));
        lemma_reach_in_range(s, dom, w, v, (n - 1) as nat);
    }
}

/// Whether a formula reading `cell1` (and `cell2`, unless it is `(-1, -1)`)
/// would read a cell of `avl_tree`.
pub fn check_cycle(avl_tree: &HashMap<i32, i32>, cell1: &CellInfo, cell2: &CellInfo) -> (r: bool)
    ensures
        r == (avl_tree@.contains_key(dep_key(cell1.row as int, cell1.col as int) as i32) || (!(
        cell2.col == -1 && cell2.row == -1) && avl_tree@.contains_key(
            dep_key(cell2.row as int, cell2.col as int) as i32,
        ))),
{
    let key1 = cell1.col as i32 * 1000 + cell1.row as i32;
    if avl_tree.contains_key(&key1) {
        return true;
    }
    if cell2.col == -1 && cell2.row == -1 {
        return false;
    }
    let key2 = cell2.col as i32 * 1000 + cell2.row as i32;
    if avl_tree.contains_key(&key2) {
        return true;
    }
    false
}

/// The column of key `k`, as Rust's `k / 1000` gives it.
pub open spec fn key_col_trunc(k: int) -> int {
    if k >= 0 { k / 1000 } else { -((-k) / 1000) }
}

/// The row of key `k`, as Rust's `k % 1000` gives it.
pub open spec fn key_row_trunc(k: int) -> int {
    if k >= 0 { k % 1000 } else { -((-k) % 1000) }
}

/// Whether key `k` stands for a position of the rectangle `cell1 ..= cell2`.
pub open spec fn key_in_rect(k: int, cell1: CellInfo, cell2: CellInfo) -> bool {
    cell1.col <= key_col_trunc(k) <= cell2.col && cell1.row <= key_row_trunc(k) <= cell2.row
}

/// Whether some key of `avl_tree` stands for a position of the rectangle
/// `cell1 ..= cell2`.
pub fn check_cycle_range_funcs(avl_tree: &HashMap<i32, i32>, cell1: &CellInfo, cell2: &CellInfo) -> (r: bool)
    ensures
        r == exists|k: i32| avl_tree@.contains_key(k) && key_in_rect(k as int, *cell1, *cell2),
{
    for (key, v) in it: avl_tree.iter()
        invariant
            it.seq() == vstd::std_specs::hash::spec_hash_map_iter(avl_tree).remaining(),
            forall|j: int| 0 <= j < it.index() ==> !key_in_rect(*(#[trigger] it.seq()[j]).0 as int, *cell1, *cell2),
    {
        let col = *key / 1000;
        let row = *key % 1000;
        if col >= cell1.col as i32 && col <= cell2.col as i32 && row >= cell1.row as i32 && row
            <= cell2.row as i32 {
            proof {
                let sq = vstd::std_specs::hash::spec_hash_map_iter(avl_tree).remaining();
                assert(avl_tree@.contains_key(*sq[it.index()].0));
                assert(*key == *sq[it.index()].0);
                assert(col == key_col_trunc(*key as int));
                assert(row == key_row_trunc(*key as int));
                assert(avl_tree@.contains_key(*key) && key_in_rect(*key as int, *cell1, *cell2));
            }
            return true;
        }
    }
    proof {
        let sq = vstd::std_specs::hash::spec_hash_map_iter(avl_tree).remaining();
        assert forall|k: i32| avl_tree@.contains_key(k) implies !key_in_rect(k as int, *cell1, *cell2) by {
            assert(sq.contains((&k, &avl_tree@[k])));
            let j = choose|j: int| 0 <= j < sq.len() && sq[j] == (&k, &avl_tree@[k]);
            assert(*sq[j].0 == k);
        }
    }
    false
}


/// The counters of `tree` are the in-degrees of its keys among themselves:
/// with `all` listing each key once, the counter of a key is the number of
/// edges (counted as they are walked) from keys of the tree into it.
pub open spec fn kahn_counts(s: Sheet, tree: Map<i32, i32>, all: Seq<i32>, es: Seq<RangeTargets>) -> bool {
    &&& all.no_duplicates()
    &&& all.to_set() == tree.dom()
    &&& forall|v: i32| #![trigger tree[v]] tree.contains_key(v) ==> tree[v] == keys_ms(s, all, es).count(v)
}

/// The key at `i` in `c` has an edge to the next one.
pub open spec fn linked(s: Sheet, es: Seq<RangeTargets>, c: Seq<i32>, i: int) -> bool {
    out_ms(s, c[i] as int, es).count(c[i + 1]) > 0
}

/// The key at `i + 1` in `c` has an edge to the one at `i`.
pub open spec fn back_linked(s: Sheet, es: Seq<RangeTargets>, c: Seq<i32>, i: int) -> bool {
    out_ms(s, c[i + 1] as int, es).count(c[i]) > 0
}

/// `c` is a path of at least one edge: each key has an edge to the next.
pub open spec fn dep_path(s: Sheet, es: Seq<RangeTargets>, c: Seq<i32>) -> bool {
    &&& c.len() >= 2
    &&& forall|i: int| 0 <= i < c.len() - 1 ==> #[trigger] linked(s, es, c, i)
}

/// No path through keys of `dom` comes back to the key it started from.
pub open spec fn acyclic_on(s: Sheet, es: Seq<RangeTargets>, dom: Set<i32>) -> bool {
    forall|c: Seq<i32>|
        #[trigger] dep_path(s, es, c) && (forall|i: int| 0 <= i < c.len() ==> dom.contains(c[i])) ==> c[0]
            != c.last()
}

/// The keys of the cells that depend on `root` in `s` (and `root`).
pub open spec fn dependents_of(s: Sheet, root: int) -> Set<i32> {
    Set::new(|v: i32| s.reachable(root, v as int))
}

/// No key is reached by more than `i32::MAX` edges from the keys `keys`,
/// however they are listed: the in-degrees fit an `i32`.
pub open spec fn edges_fit(s: Sheet, keys: Set<i32>, es: Seq<RangeTargets>) -> bool {
    forall|all: Seq<i32>, v: i32|
        all.no_duplicates() && all.to_set() == keys ==> #[trigger] keys_ms(s, all, es).count(v) <= i32::MAX
}

/// `order` lists cells that depend on `root` in `s` in dependency order:
/// when the in-degrees fit an `i32`, each key comes once and none comes
/// after a key that has an edge into it; and, when no path through the
/// dependents is a cycle, every one of them comes.
pub open spec fn dependency_order(s: Sheet, root: int, order: Seq<i32>, es: Seq<RangeTargets>) -> bool {
    let keys = dependents_of(s, root);
    &&& forall|i: int| 0 <= i < order.len() ==> keys.contains(#[trigger] order[i])
    &&& edges_fit(s, keys, es) ==> {
        &&& order.no_duplicates()
        &&& forall|i: int, j: int|
            #![trigger order[i], order[j]]
            0 <= i < j < order.len() ==> out_ms(s, order[j] as int, es).count(order[i]) == 0
        &&& acyclic_on(s, es, keys) ==> order.to_set() == keys
    }
}

/// The counters that `add_to_tree` leaves, started from `key` alone with
/// counter 0, are the in-degrees among the keys collected, when these fit.
proof fn lemma_counts_from_tree(
    fits: bool,
    s: Sheet,
    key: i32,
    t0: Map<i32, i32>,
    tree: Map<i32, i32>,
    ex: Seq<i32>,
    es: Seq<RangeTargets>,
)
    requires
        t0.dom() == set![key],
        t0[key] == 0,
        tree_counted(s, t0, tree, out_ms(s, key as int, es), ex, es),
        fits ==> edges_fit(s, tree.dom(), es),
    ensures
        fits ==> kahn_counts(s, tree, seq![key] + ex, es),
{
    broadcast use vstd::multiset::group_multiset_axioms;

    let all = seq![key] + ex;
    lemma_keys_ms_concat(s, seq![key], ex, es);
    lemma_keys_ms_single(s, key, es);
    assert(!ex.contains(key));
    assert forall|i: int, j: int| 0 <= i < all.len() && 0 <= j < all.len() && i != j implies all[i] != all[j] by {
        if i == 0 {
            assert(ex.contains(all[j]));
        } else if j == 0 {
            assert(ex.contains(all[i]));
        } else {
            assert(all[i] == ex[i - 1] && all[j] == ex[j - 1]);
        }
    }
    assert forall|u: i32| all.to_set().contains(u) <==> tree.dom().contains(u) by {
        if all.contains(u) && u != key {
            let i = choose|i: int| 0 <= i < all.len() && all[i] == u;
            assert(ex[i - 1] == u);
            assert(ex.contains(u));
        }
        if tree.contains_key(u) {
            if u == key {
                assert(all[0] == u);
            } else {
                assert(ex.contains(u));
                let i = choose|i: int| 0 <= i < ex.len() && ex[i] == u;
                assert(all[i + 1] == u);
            }
        }
    }
    assert(all.to_set() =~= tree.dom());
    assert forall|v: i32| #![trigger tree[v]] fits && tree.contains_key(v) implies tree[v] == keys_ms(s, all, es).count(v) by {
        assert(keys_ms(s, all, es).count(v) <= i32::MAX);
        assert(count_in(t0, v) == 0);
        lemma_wrap_id(keys_ms(s, all, es).count(v) as int);
    }
}

proof fn lemma_keys_ms_single(s: Sheet, x: i32, es: Seq<RangeTargets>)
    ensures
        keys_ms(s, seq![x], es) =~= out_ms(s, x as int, es),
{
    broadcast use vstd::multiset::group_multiset_axioms;

    assert(seq![x].drop_last() =~= Seq::<i32>::empty());
    assert(keys_ms(s, Seq::<i32>::empty(), es) == Multiset::<i32>::empty());
    assert(keys_ms(s, seq![x], es) == keys_ms(s, Seq::<i32>::empty(), es).add(out_ms(s, x as int, es)));
}

/// Taking the key at `idx` out of `a` takes its edges out of the count.
proof fn lemma_keys_ms_remove(s: Sheet, a: Seq<i32>, idx: int, es: Seq<RangeTargets>)
    requires
        0 <= idx < a.len(),
    ensures
        keys_ms(s, a, es) =~= keys_ms(s, a.remove(idx), es).add(out_ms(s, a[idx] as int, es)),
{
    broadcast use vstd::multiset::group_multiset_axioms;

    let l = a.subrange(0, idx);
    let r = a.subrange(idx + 1, a.len() as int);
    assert(a =~= l + seq![a[idx]] + r);
    assert(a.remove(idx) =~= l + r);
    lemma_keys_ms_concat(s, l + seq![a[idx]], r, es);
    lemma_keys_ms_concat(s, l, seq![a[idx]], es);
    lemma_keys_ms_concat(s, l, r, es);
    lemma_keys_ms_single(s, a[idx], es);
}

/// Fewer keys walk fewer edges: when every key of `a` is one of `b` (each
/// listed once), no key is reached more often from `a` than from `b`; and
/// where it is reached less often, some key of `b` outside `a` has an edge
/// into it.
proof fn lemma_keys_ms_mono(s: Sheet, a: Seq<i32>, b: Seq<i32>, es: Seq<RangeTargets>, v: i32)
    requires
        a.no_duplicates(),
        b.no_duplicates(),
        forall|x: i32| a.contains(x) ==> b.contains(x),
    ensures
        keys_ms(s, a, es).count(v) <= keys_ms(s, b, es).count(v),
        keys_ms(s, a, es).count(v) < keys_ms(s, b, es).count(v) ==> exists|u: i32|
            #![trigger out_ms(s, u as int, es)]
            b.contains(u) && !a.contains(u) && out_ms(s, u as int, es).count(v) > 0,
    decreases b.len(),
{
    broadcast use vstd::multiset::group_multiset_axioms;

    if b.len() == 0 {
        if a.len() > 0 {
            assert(a.contains(a[0]));
        }
        assert(a =~= Seq::<i32>::empty());
    } else {
        let x = b.last();
        let b1 = b.drop_last();
        assert(b1.no_duplicates());
        assert(keys_ms(s, b, es) == keys_ms(s, b1, es).add(out_ms(s, x as int, es)));
        assert(!b1.contains(x));
        if a.contains(x) {
            let idx = choose|i: int| 0 <= i < a.len() && a[i] == x;
            let a1 = a.remove(idx);
            lemma_keys_ms_remove(s, a, idx, es);
            assert(a1.no_duplicates());
            assert forall|y: i32| a1.contains(y) implies b1.contains(y) by {
                let j = choose|j: int| 0 <= j < a1.len() && a1[j] == y;
                if j < idx {
                    assert(a[j] == y);
                } else {
                    assert(a[j + 1] == y);
                }
                assert(a.contains(y));
                assert(y != x);
                let k = choose|k: int| 0 <= k < b.len() && b[k] == y;
                assert(k != b.len() - 1);
                assert(b1[k] == y);
            }
            lemma_keys_ms_mono(s, a1, b1, es, v);
            if keys_ms(s, a, es).count(v) < keys_ms(s, b, es).count(v) {
                let u = choose|u: i32|
                    #![trigger out_ms(s, u as int, es)]
                    b1.contains(u) && !a1.contains(u) && out_ms(s, u as int, es).count(v) > 0;
                let k = choose|k: int| 0 <= k < b1.len() && b1[k] == u;
                assert(b[k] == u);
                assert(u != x);
                if a.contains(u) {
                    let j = choose|j: int| 0 <= j < a.len() && a[j] == u;
                    assert(j != idx);
                    if j < idx {
                        assert(a1[j] == u);
                    } else {
                        assert(a1[j - 1] == u);
                    }
                }
            }
        } else {
            assert forall|y: i32| a.contains(y) implies b1.contains(y) by {
                let k = choose|k: int| 0 <= k < b.len() && b[k] == y;
                assert(k != b.len() - 1);
                assert(b1[k] == y);
            }
            lemma_keys_ms_mono(s, a, b1, es, v);
            if keys_ms(s, a, es).count(v) < keys_ms(s, b, es).count(v) {
                if out_ms(s, x as int, es).count(v) > 0 {
                    assert(b.contains(x));
                } else {
                    let u = choose|u: i32|
                        #![trigger out_ms(s, u as int, es)]
                        b1.contains(u) && !a.contains(u) && out_ms(s, u as int, es).count(v) > 0;
                    let k = choose|k: int| 0 <= k < b1.len() && b1[k] == u;
                    assert(b[k] == u);
                }
            }
        }
    }
}

/// Some key of `dom` outside `done` has an edge into `w`.
pub open spec fn has_pred(s: Sheet, es: Seq<RangeTargets>, dom: Set<i32>, done: Set<i32>, w: i32) -> bool {
    exists|u: i32|
        #![trigger out_ms(s, u as int, es)]
        dom.contains(u) && !done.contains(u) && out_ms(s, u as int, es).count(w) > 0
}

/// Following edges backwards from `v` for `n` steps, staying among keys of
/// `dom` outside `done`, where each such key has such a predecessor.
proof fn lemma_back_chain(s: Sheet, es: Seq<RangeTargets>, dom: Set<i32>, done: Set<i32>, v: i32, n: nat) -> (c: Seq<i32>)
    requires
        dom.contains(v),
        !done.contains(v),
        forall|w: i32| dom.contains(w) && !done.contains(w) ==> #[trigger] has_pred(s, es, dom, done, w),
    ensures
        c.len() == n + 1,
        c[0] == v,
        forall|i: int| 0 <= i < c.len() ==> dom.contains(#[trigger] c[i]) && !done.contains(c[i]),
        forall|i: int| 0 <= i < n ==> #[trigger] back_linked(s, es, c, i),
    decreases n,
{
    if n == 0 {
        seq![v]
    } else {
        let c0 = lemma_back_chain(s, es, dom, done, v, (n - 1) as nat);
        let w = c0[n - 1];
        assert(dom.contains(w));
        assert(has_pred(s, es, dom, done, w));
        let u = choose|u: i32|
            #![trigger out_ms(s, u as int, es)]
            dom.contains(u) && !done.contains(u) && out_ms(s, u as int, es).count(w) > 0;
        let c = c0.push(u);
        assert forall|i: int| 0 <= i < n implies #[trigger] back_linked(s, es, c, i) by {
            if i < n - 1 {
                assert(back_linked(s, es, c0, i));
                assert(c[i] == c0[i] && c[i + 1] == c0[i + 1]);
            }
        }
        c
    }
}

/// When the keys of a finite `dom` outside `done` (there is one, `v`) all
/// have a predecessor outside `done`, some path through `dom` is a cycle.
proof fn lemma_acyclic_source(s: Sheet, es: Seq<RangeTargets>, dom: Set<i32>, done: Set<i32>, v: i32)
    requires
        dom.finite(),
        dom.contains(v),
        !done.contains(v),
        forall|w: i32| dom.contains(w) && !done.contains(w) ==> #[trigger] has_pred(s, es, dom, done, w),
    ensures
        !acyclic_on(s, es, dom),
{
    let n = dom.len();
    let c = lemma_back_chain(s, es, dom, done, v, n);
    let (lo, hi) = lemma_repeat(c, dom);
    let p = Seq::new((hi - lo + 1) as nat, |k: int| c[hi - k]);
    assert forall|k: int| 0 <= k < p.len() - 1 implies #[trigger] linked(s, es, p, k) by {
        let m = hi - k - 1;
        assert(0 <= m < n);
        assert(back_linked(s, es, c, m));
        assert(c[m + 1] == p[k]);
        assert(c[m] == p[k + 1]);
    }
    assert(dep_path(s, es, p));
    assert(p[0] == p.last());
    assert forall|k: int| 0 <= k < p.len() implies dom.contains(p[k]) by {
        assert(p[k] == c[hi - k]);
    }
}

/// A sequence longer than a finite set it lies in repeats an element.
proof fn lemma_repeat(c: Seq<i32>, dom: Set<i32>) -> (r: (int, int))
    requires
        dom.finite(),
        c.len() > dom.len(),
        forall|i: int| 0 <= i < c.len() ==> dom.contains(#[trigger] c[i]),
    ensures
        0 <= r.0 < r.1 < c.len(),
        c[r.0] == c[r.1],
{
    assert(c.to_set().subset_of(dom));
    vstd::set_lib::lemma_len_subset(c.to_set(), dom);
    if c.no_duplicates() {
        c.unique_seq_to_set();
    }
    let (i, j) = choose|i: int, j: int| 0 <= i < c.len() && 0 <= j < c.len() && i != j && c[i] == c[j];
    if i < j {
        (i, j)
    } else {
        (j, i)
    }
}

/// The keys of `range_keys` over `a + b` are those over `a`, then over `b`.
pub(crate) proof fn lemma_range_keys_concat(a: Seq<RangeTargets>, b: Seq<RangeTargets>, row: int, col: int)
    ensures
        range_keys(a + b, row, col) =~= range_keys(a, row, col) + range_keys(b, row, col),
    decreases b.len(),
{
    if b.len() == 0 {
        assert(a + b =~= a);
    } else {
        lemma_range_keys_concat(a, b.drop_last(), row, col);
        assert((a + b).drop_last() =~= a + b.drop_last());
    }
}

/// The range keys met up to target `t` of entry `idx` are among the range
/// keys of all entries.
proof fn lemma_range_prefix_bound(es: Seq<RangeTargets>, idx: int, row: int, col: int, t: int)
    requires
        0 <= idx < es.len(),
        0 <= t < es[idx].targets@.len(),
    ensures
        forall|v: i32|
            #[trigger] range_keys(es.take(idx), row, col).to_multiset().add(
                entry_prefix(es[idx], row, col, t + 1).to_multiset(),
            ).count(v) <= range_keys(es, row, col).to_multiset().count(v),
{
    broadcast use vstd::multiset::group_multiset_axioms, vstd::seq_lib::lemma_multiset_commutative;

    let e = es[idx];
    assert(es =~= es.take(idx + 1) + es.skip(idx + 1));
    lemma_range_keys_concat(es.take(idx + 1), es.skip(idx + 1), row, col);
    assert(es.take(idx + 1).drop_last() =~= es.take(idx));
    let ek = entry_keys(e, row, col);
    let pre = entry_prefix(e, row, col, t + 1);
    if in_rect(e, row, col) {
        assert(ek =~= pre + ek.skip(t + 1));
    } else {
        assert(pre =~= Seq::<i32>::empty());
        assert(ek =~= pre + ek);
    }
}

/// Taking the next key `queue[head]` keeps the order topological: no key
/// taken later has an edge into one taken before.
proof fn lemma_kahn_step(
    counted: bool,
    s: Sheet,
    all: Seq<i32>,
    es: Seq<RangeTargets>,
    queue: Seq<i32>,
    head: int,
    tree: Map<i32, i32>,
    dom: Set<i32>,
)
    requires
        counted ==> {
            &&& 0 <= head < queue.len()
            &&& queue.no_duplicates()
            &&& all.no_duplicates()
            &&& all.to_set() == dom
            &&& forall|i: int| 0 <= i < queue.len() ==> dom.contains(#[trigger] queue[i])
            &&& forall|v: i32|
                #![trigger tree[v]]
                dom.contains(v) ==> tree[v] == keys_ms(s, all, es).count(v) - keys_ms(s, queue.take(head), es).count(v)
            &&& forall|v: i32| dom.contains(v) ==> (#[trigger] queue.contains(v) <==> tree[v] == 0)
            &&& forall|i: int, j: int|
                #![trigger queue.take(head)[i], queue.take(head)[j]]
                0 <= i < j < head ==> out_ms(s, queue.take(head)[j] as int, es).count(queue.take(head)[i]) == 0
        },
    ensures
        counted ==> {
            &&& !queue.take(head).contains(queue[head])
            &&& forall|v: i32|
                #[trigger] keys_ms(s, queue.take(head), es).count(v) + out_ms(s, queue[head] as int, es).count(v)
                    <= keys_ms(s, all, es).count(v)
            &&& forall|i: int, j: int|
                #![trigger queue.take(head + 1)[i], queue.take(head + 1)[j]]
                0 <= i < j < head + 1 ==> out_ms(s, queue.take(head + 1)[j] as int, es).count(queue.take(head + 1)[i]) == 0
        },
{
    if counted {
        broadcast use vstd::multiset::group_multiset_axioms;

        let p = queue.take(head);
        let n = queue[head];
        let q = queue.take(head + 1);
        assert(q =~= p.push(n));
        assert(!p.contains(n)) by {
            if p.contains(n) {
                let i = choose|i: int| 0 <= i < p.len() && p[i] == n;
                assert(queue[i] == queue[head]);
            }
        }
        assert(q.no_duplicates());
        assert(q.drop_last() =~= p);
        assert forall|x: i32| q.contains(x) implies all.contains(x) by {
            let i = choose|i: int| 0 <= i < q.len() && q[i] == x;
            assert(queue[i] == x);
            assert(dom.contains(x));
            assert(all.to_set().contains(x));
        }
        assert forall|v: i32|
            #[trigger] keys_ms(s, p, es).count(v) + out_ms(s, n as int, es).count(v) <= keys_ms(s, all, es).count(v) by {
            lemma_keys_ms_mono(s, q, all, es, v);
        }
        assert forall|i: int, j: int|
            #![trigger q[i], q[j]]
            0 <= i < j < head + 1 implies out_ms(s, q[j] as int, es).count(q[i]) == 0 by {
            if j == head {
                let x = q[i];
                assert(p[i] == x);
                assert(queue[i] == x);
                assert(queue.contains(x));
                assert(tree[x] == 0);
                lemma_keys_ms_mono(s, q, all, es, x);
            } else {
                assert(q[i] == p[i] && q[j] == p[j]);
            }
        }
    }
}

/// `release` of key `k` (whose counter, when `k` is a key of the tree, is
/// at least one) keeps the queue free of repeats and holding exactly the
/// keys whose counter is zero.
proof fn lemma_release_kept(
    counted: bool,
    old_tree: Map<i32, i32>,
    new_tree: Map<i32, i32>,
    old_queue: Seq<i32>,
    new_queue: Seq<i32>,
    k: i32,
    dom: Set<i32>,
)
    requires
        counted ==> {
            &&& old_tree.dom() == dom
            &&& old_queue.no_duplicates()
            &&& forall|v: i32| dom.contains(v) ==> (#[trigger] old_queue.contains(v) <==> old_tree[v] == 0)
            &&& dom.contains(k) ==> old_tree[k] >= 1
            &&& new_tree.dom() == old_tree.dom()
            &&& old_tree.contains_key(k) ==> new_tree == old_tree.insert(k, (old_tree[k] - 1) as i32) || (
            old_tree[k] == i32::MIN && new_tree == old_tree.insert(k, i32::MAX))
            &&& !old_tree.contains_key(k) ==> new_tree == old_tree
            &&& new_queue == if old_tree.contains_key(k) && old_tree[k] == 1 {
                old_queue.push(k)
            } else {
                old_queue
            }
        },
    ensures
        counted ==> {
            &&& new_queue.no_duplicates()
            &&& forall|v: i32| dom.contains(v) ==> (#[trigger] new_queue.contains(v) <==> new_tree[v] == 0)
            &&& dom.contains(k) ==> new_tree == old_tree.insert(k, (old_tree[k] - 1) as i32)
            &&& !dom.contains(k) ==> new_tree == old_tree
        },
{
    if counted {
        if dom.contains(k) && old_tree[k] == 1 {
            assert(!old_queue.contains(k));
            assert forall|v: i32| dom.contains(v) implies (#[trigger] new_queue.contains(v) <==> new_tree[v] == 0) by {
                if new_queue.contains(v) && v != k {
                    let i = choose|i: int| 0 <= i < new_queue.len() && new_queue[i] == v;
                    assert(old_queue[i] == v);
                }
                if old_queue.contains(v) {
                    let i = choose|i: int| 0 <= i < old_queue.len() && old_queue[i] == v;
                    assert(new_queue[i] == v);
                }
                if v == k {
                    assert(new_queue[new_queue.len() - 1] == k);
                }
            }
        }
    }
}

/// When the loop of `topological_sort` stops, the keys taken are distinct,
/// and all of them when no path through the tree is a cycle.
proof fn lemma_kahn_done(
    counted: bool,
    s: Sheet,
    all: Seq<i32>,
    es: Seq<RangeTargets>,
    queue: Seq<i32>,
    head: int,
    result: Seq<i32>,
    tree: Map<i32, i32>,
    dom: Set<i32>,
    budget: int,
)
    requires
        counted ==> {
            &&& 0 <= head <= queue.len()
            &&& result == queue.take(head)
            &&& queue.no_duplicates()
            &&& all.no_duplicates()
            &&& all.to_set() == dom
            &&& dom.finite()
            &&& budget == dom.len()
            &&& head == queue.len() || result.len() >= budget
            &&& forall|i: int| 0 <= i < queue.len() ==> dom.contains(#[trigger] queue[i])
            &&& forall|v: i32|
                #![trigger tree[v]]
                dom.contains(v) ==> tree[v] == keys_ms(s, all, es).count(v) - keys_ms(s, result, es).count(v)
            &&& forall|v: i32| dom.contains(v) ==> (#[trigger] queue.contains(v) <==> tree[v] == 0)
        },
    ensures
        counted ==> {
            &&& result.no_duplicates()
            &&& acyclic_on(s, es, dom) ==> result.to_set() == dom
            &&& acyclic_on(s, es, dom) ==> forall|v: i32| #[trigger] dom.contains(v) ==> tree[v] == 0
        },
{
    if counted {
        assert(result.no_duplicates());
        assert forall|x: i32| result.contains(x) implies dom.contains(x) && all.contains(x) by {
            let i = choose|i: int| 0 <= i < result.len() && result[i] == x;
            assert(queue[i] == x);
            assert(all.to_set().contains(x));
        }
        if acyclic_on(s, es, dom) {
            let done = result.to_set();
            assert forall|v: i32| dom.contains(v) implies done.contains(v) by {
                if !done.contains(v) {
                    if result.len() >= budget {
                        result.unique_seq_to_set();
                        assert(done.subset_of(dom.remove(v)));
                        vstd::set_lib::lemma_len_subset(done, dom.remove(v));
                    } else {
                        assert(result =~= queue);
                        assert forall|w: i32| dom.contains(w) && !done.contains(w) implies #[trigger] has_pred(
                            s,
                            es,
                            dom,
                            done,
                            w,
                        ) by {
                            assert(!queue.contains(w));
                            lemma_keys_ms_mono(s, result, all, es, w);
                            let u = choose|u: i32|
                                #![trigger out_ms(s, u as int, es)]
                                all.contains(u) && !result.contains(u) && out_ms(s, u as int, es).count(w) > 0;
                            assert(all.to_set().contains(u));
                        }
                        lemma_acyclic_source(s, es, dom, done, v);
                    }
                }
            }
            assert(done =~= dom);
            lemma_keys_ms_same_set(s, all, result, es);
        }
    }
}

/// Two node lists without repeats that hold the same nodes have the same
/// edges out of them.
proof fn lemma_keys_ms_same_set(s: Sheet, a: Seq<i32>, b: Seq<i32>, es: Seq<RangeTargets>)
    requires
        a.no_duplicates(),
        b.no_duplicates(),
        a.to_set() == b.to_set(),
    ensures
        keys_ms(s, a, es) == keys_ms(s, b, es),
    decreases b.len(),
{
    broadcast use vstd::multiset::group_multiset_axioms;

    if b.len() == 0 {
        if a.len() > 0 {
            assert(a.to_set().contains(a[0]));
        }
        assert(a.len() == 0);
    } else {
        let x = b.last();
        assert(b.to_set().contains(x));
        assert(a.to_set().contains(x));
        let i = choose|i: int| 0 <= i < a.len() && a[i] == x;
        lemma_keys_ms_remove(s, a, i, es);
        let a2 = a.remove(i);
        let b2 = b.drop_last();
        assert forall|y: i32| a2.to_set().contains(y) <==> b2.to_set().contains(y) by {
            if a2.to_set().contains(y) {
                let j = choose|j: int| 0 <= j < a2.len() && a2[j] == y;
                if j < i {
                    assert(a[j] == y);
                } else {
                    assert(a[j + 1] == y);
                }
                assert(a.to_set().contains(y));
                assert(y != x);
                let k = choose|k: int| 0 <= k < b.len() && b[k] == y;
                assert(k != b.len() - 1);
                assert(b2[k] == y);
            }
            if b2.to_set().contains(y) {
                let k = choose|k: int| 0 <= k < b2.len() && b2[k] == y;
                assert(b[k] == y);
                assert(y != x);
                assert(b.to_set().contains(y));
                let j = choose|j: int| 0 <= j < a.len() && a[j] == y;
                assert(j != i);
                if j < i {
                    assert(a2[j] == y);
                } else {
                    assert(a2[j - 1] == y);
                }
            }
        }
        assert(a2.to_set() =~= b2.to_set());
        assert(a2.no_duplicates()) by {
            assert forall|p: int, q: int| 0 <= p < a2.len() && 0 <= q < a2.len() && p != q implies a2[p] != a2[q] by {
                let pp = if p < i { p } else { p + 1 };
                let qq = if q < i { q } else { q + 1 };
                assert(a2[p] == a[pp] && a2[q] == a[qq]);
            }
        }
        lemma_keys_ms_same_set(s, a2, b2, es);
    }
}

/// Lowers the in-degree of `key` by one when `key` is in `avl_tree`, and
/// queues it when the in-degree reaches zero.
fn release(avl_tree: &mut HashMap<i32, i32>, key: i32, queue: &mut Vec<i32>)
    ensures
        final(avl_tree)@.dom() == old(avl_tree)@.dom(),
        old(avl_tree)@.contains_key(key) ==> final(avl_tree)@ == old(avl_tree)@.insert(
            key,
            (old(avl_tree)@[key] - 1) as i32,
        ) || (old(avl_tree)@[key] == i32::MIN && final(avl_tree)@ == old(avl_tree)@.insert(
            key,
            i32::MAX,
        )),
        !old(avl_tree)@.contains_key(key) ==> final(avl_tree)@ == old(avl_tree)@,
        final(queue)@ == if old(avl_tree)@.contains_key(key) && old(avl_tree)@[key] == 1 {
            old(queue)@.push(key)
        } else {
            old(queue)@
        },
{
    match avl_tree.get(&key) {
        Some(d) => {
            let nd = d.wrapping_sub(1);
            avl_tree.insert(key, nd);
            if nd == 0 {
                queue.push(key);
            }
        },
        None => {},
    }
}

/// Orders the keys of `avl_tree` (Kahn's algorithm): keys of in-degree zero
/// are queued first; taking a key from the queue appends it to the result
/// and lowers the in-degree of each of its direct dependents in the tree,
/// queueing those that reach zero. At most as many keys are taken as the
/// tree holds.
///
/// When the counters are the in-degrees of the keys among themselves (as
/// `add_to_tree` leaves them), each key comes out at most once and never
/// after a key that has an edge into it, and every key comes out when no
/// path through the keys is a cycle.
pub fn topological_sort(avl_tree: &mut HashMap<i32, i32>, sheet: &Sheet) -> (result: Vec<i32>)
    requires
        sheet.wf(),
        forall|k: i32| #[trigger] old(avl_tree)@.contains_key(k) ==> sheet.node_stored(k as int),
    ensures
        final(avl_tree)@.dom() == old(avl_tree)@.dom(),
        forall|i: int| 0 <= i < result@.len() ==> old(avl_tree)@.contains_key(#[trigger] result@[i]),
        result@.len() <= old(avl_tree)@.len(),
        (exists|all: Seq<i32>| kahn_counts(*sheet, old(avl_tree)@, all, entry_values(vstd::std_specs::hash::spec_hash_map_iter(&sheet.tuup).remaining()))) ==> {
            &&& result@.no_duplicates()
            &&& forall|i: int, j: int|
                #![trigger result@[i], result@[j]]
                0 <= i < j < result@.len() ==> out_ms(*sheet, result@[j] as int, entry_values(vstd::std_specs::hash::spec_hash_map_iter(&sheet.tuup).remaining())).count(result@[i]) == 0
            &&& acyclic_on(*sheet, entry_values(vstd::std_specs::hash::spec_hash_map_iter(&sheet.tuup).remaining()), old(avl_tree)@.dom()) ==> result@.to_set() == old(avl_tree)@.dom()
            &&& acyclic_on(*sheet, entry_values(vstd::std_specs::hash::spec_hash_map_iter(&sheet.tuup).remaining()), old(avl_tree)@.dom()) ==> forall|k: i32|
                #[trigger] final(avl_tree)@.contains_key(k) ==> final(avl_tree)@[k] == 0
        },
{
    let ghost dom = avl_tree@.dom();
    let ghost tree0 = avl_tree@;
    let ghost es = entry_values(vstd::std_specs::hash::spec_hash_map_iter(&sheet.tuup).remaining());
    let ghost counted = exists|all: Seq<i32>| kahn_counts(*sheet, tree0, all, es);
    let ghost all = choose|all: Seq<i32>| kahn_counts(*sheet, tree0, all, es);
    proof {
        broadcast use vstd::seq_lib::group_to_multiset_ensures, vstd::multiset::group_multiset_axioms;

    }
    let mut queue: Vec<i32> = Vec::new();
    let mut result: Vec<i32> = Vec::new();
    let iter = avl_tree.iter();
    proof {
        assert(iter.remaining().no_duplicates());
    }
    for (key, value) in it: iter
        invariant
            it.seq() == vstd::std_specs::hash::spec_hash_map_iter(&*avl_tree).remaining(),
            it.seq().no_duplicates(),
            forall|i: int| 0 <= i < queue@.len() ==> dom.contains(#[trigger] queue@[i]),
            dom == avl_tree@.dom(),
            avl_tree@ == tree0,
            queue@.no_duplicates(),
            forall|x: i32|
                #[trigger] queue@.contains(x) ==> tree0[x] == 0 && exists|j: int|
                    0 <= j < it.index() && *it.seq()[j].0 == x,
            forall|j: int| 0 <= j < it.index() && *it.seq()[j].1 == 0 ==> queue@.contains(#[trigger] *it.seq()[j].0),
    {
        let ghost idx = it.index();
        let ghost old_q = queue@;
        proof {
            assert(*key == *it.seq()[idx].0 && *value == *it.seq()[idx].1);
            assert(avl_tree@.contains_key(*it.seq()[idx].0));
            assert(tree0[*key] == *value);
        }
        if *value == 0 {
            proof {
                let sq = it.seq();
                if queue@.contains(*key) {
                    let j = choose|j: int| 0 <= j < idx && *sq[j].0 == *key;
                    assert(avl_tree@[*sq[j].0] == *sq[j].1);
                    assert(sq[j] == sq[idx]);
                }
            }
            queue.push(*key);
        }
        proof {
            let sq = it.seq();
            assert forall|x: i32| #[trigger] queue@.contains(x) implies tree0[x] == 0 && exists|j: int|
                0 <= j < idx + 1 && *sq[j].0 == x by {
                let i = choose|i: int| 0 <= i < queue@.len() && queue@[i] == x;
                if i < old_q.len() {
                    assert(old_q[i] == x);
                    assert(old_q.contains(x));
                } else {
                    assert(x == *key);
                    assert(*sq[idx].0 == x);
                }
            }
            assert forall|j: int| 0 <= j < idx + 1 && *sq[j].1 == 0 implies queue@.contains(#[trigger] *sq[j].0) by {
                if j < idx {
                    assert(old_q.contains(*sq[j].0));
                    let i = choose|i: int| 0 <= i < old_q.len() && old_q[i] == *sq[j].0;
                    assert(queue@[i] == *sq[j].0);
                } else {
                    assert(queue@[queue@.len() - 1] == *key);
                }
            }
        }
    }
    proof {
        let sq = vstd::std_specs::hash::spec_hash_map_iter(&*avl_tree).remaining();
        assert forall|x: i32| dom.contains(x) implies (#[trigger] queue@.contains(x) <==> tree0[x] == 0) by {
            if tree0[x] == 0 {
                assert(sq.contains((&x, &tree0[x])));
                let j = choose|j: int| 0 <= j < sq.len() && sq[j] == (&x, &tree0[x]);
                assert(*sq[j].0 == x);
            }
        }
        assert(keys_ms(*sheet, Seq::<i32>::empty(), es) == Multiset::<i32>::empty());
        assert(result@ =~= queue@.take(0));
    }
    let budget: usize = avl_tree.len();
    let mut head: usize = 0;
    while head < queue.len() && result.len() < budget
        invariant
            sheet.wf(),
            dom == avl_tree@.dom(),
            dom.finite(),
            budget == dom.len(),
            forall|k: i32| #[trigger] dom.contains(k) ==> sheet.node_stored(k as int),
            forall|i: int| 0 <= i < queue@.len() ==> dom.contains(#[trigger] queue@[i]),
            forall|i: int| 0 <= i < result@.len() ==> dom.contains(#[trigger] result@[i]),
            result@.len() <= budget,
            head <= queue@.len(),
            es == entry_values(vstd::std_specs::hash::spec_hash_map_iter(&sheet.tuup).remaining()),
            result@ == queue@.take(head as int),
            tree0.dom() == dom,
            counted ==> kahn_counts(*sheet, tree0, all, es),
            counted ==> queue@.no_duplicates(),
            counted ==> forall|v: i32|
                #![trigger avl_tree@[v]]
                dom.contains(v) ==> avl_tree@[v] == keys_ms(*sheet, all, es).count(v) - keys_ms(
                    *sheet,
                    result@,
                    es,
                ).count(v),
            counted ==> forall|v: i32| dom.contains(v) ==> (#[trigger] queue@.contains(v) <==> avl_tree@[v] == 0),
            counted ==> forall|i: int, j: int|
                #![trigger result@[i], result@[j]]
                0 <= i < j < result@.len() ==> out_ms(*sheet, result@[j] as int, es).count(result@[i]) == 0,
        decreases budget - result@.len(),
    {
        let node = queue[head];
        let ghost before = result@;
        proof {
            lemma_kahn_step(counted, *sheet, all, es, queue@, head as int, avl_tree@, dom);
        }
        head = head + 1;
        result.push(node);
        proof {
            assert(result@ =~= queue@.take(head as int));
        }
        let row = node % 1000;
        let col = node / 1000;
        proof {
            assert(dom.contains(node));
            lemma_dep_key_decode(row as int, col as int);
        }
        let c = sheet.data.get(&data_key(row as i16, col as i16)).unwrap();
        let ghost deps = c.dependencies@;
        let ghost mut done: Multiset<i32> = Multiset::empty();
        proof {
            assert(sheet.cell_at(row as int, col as int).dependencies == deps);
            assert(row as int == node as int % 1000 && col as int == node as int / 1000);
            assert(Seq::<i32>::empty().to_multiset() =~= Multiset::<i32>::empty()) by {
                broadcast use vstd::seq_lib::group_to_multiset_ensures;
            }
        }
        proof {
            broadcast use vstd::seq_lib::group_to_multiset_ensures, vstd::multiset::group_multiset_axioms;

            let sq0 = vstd::std_specs::hash::spec_hash_keys_iter(&c.dependencies).remaining();
            assert(sq0.take(0).unref() =~= Seq::<i32>::empty());
            assert(done =~= sq0.take(0).unref().to_multiset());
        }
        for d in dit: c.dependencies.iter()
            invariant
                dom == avl_tree@.dom(),
                head <= queue@.len(),
                forall|i: int| 0 <= i < queue@.len() ==> dom.contains(#[trigger] queue@[i]),
                dit.seq() == vstd::std_specs::hash::spec_hash_keys_iter(&c.dependencies).remaining(),
                deps == c.dependencies@,
                deps == sheet.cell_at(node as int % 1000, node as int / 1000).dependencies,
                result@ == before.push(node),
                result@ == queue@.take(head as int),
                done =~= dit.seq().take(dit.index()).unref().to_multiset(),
                counted ==> kahn_counts(*sheet, tree0, all, es),
                counted ==> queue@.no_duplicates(),
                counted ==> forall|v: i32|
                    #![trigger avl_tree@[v]]
                    dom.contains(v) ==> avl_tree@[v] == keys_ms(*sheet, all, es).count(v) - keys_ms(
                        *sheet,
                        before,
                        es,
                    ).count(v) - done.count(v),
                counted ==> forall|v: i32| dom.contains(v) ==> (#[trigger] queue@.contains(v) <==> avl_tree@[v] == 0),
                counted ==> forall|v: i32|
                    #[trigger] keys_ms(*sheet, before, es).count(v) + out_ms(*sheet, node as int, es).count(v)
                        <= keys_ms(*sheet, all, es).count(v),
        {
            let ghost k = *d;
            let ghost old_tree = avl_tree@;
            let ghost old_queue = queue@;
            proof {
                broadcast use vstd::multiset::group_multiset_axioms, vstd::seq_lib::group_to_multiset_ensures;

                let sq = dit.seq().unref();
                let ix = dit.index();
                assert(sq.to_set() == deps);
                assert(sq[ix] == k);
                assert(sq.to_set().contains(k));
                assert(!sq.take(ix).contains(k)) by {
                    if sq.take(ix).contains(k) {
                        let i = choose|i: int| 0 <= i < ix && sq.take(ix)[i] == k;
                        assert(sq[i] == sq[ix]);
                    }
                }
                assert(done.count(k) == 0);
                vstd::seq_lib::seq_to_set_is_finite(sq);
                lemma_from_set_count(deps);
                assert(out_ms(*sheet, node as int, es).count(k) >= 1);
                assert(counted && dom.contains(k) ==> keys_ms(*sheet, before, es).count(k) + out_ms(
                    *sheet,
                    node as int,
                    es,
                ).count(k) <= keys_ms(*sheet, all, es).count(k));
                assert(counted && dom.contains(k) ==> avl_tree@[k] >= 1);
            }
            release(avl_tree, *d, &mut queue);
            proof {
                broadcast use vstd::multiset::group_multiset_axioms, vstd::seq_lib::group_to_multiset_ensures;

                let sq = dit.seq();
                assert(sq.take(dit.index() + 1).unref() =~= sq.take(dit.index()).unref().push(k));
                done = done.insert(k);
                lemma_release_kept(counted, old_tree, avl_tree@, old_queue, queue@, k, dom);
                assert(result@ =~= queue@.take(head as int));
            }
        }
        proof {
            broadcast use vstd::multiset::group_multiset_axioms;

            let sq = vstd::std_specs::hash::spec_hash_keys_iter(&c.dependencies).remaining();
            assert(sq.take(sq.len() as int) =~= sq);
            lemma_nodup_ms(sq.unref(), deps);
        }
        let ghost direct = done;
        if sheet.buul[row as usize][col as usize] {
            for (k, e) in eit: sheet.tuup.iter()
                invariant
                    dom == avl_tree@.dom(),
                    head <= queue@.len(),
                    forall|i: int| 0 <= i < queue@.len() ==> dom.contains(#[trigger] queue@[i]),
                    eit.seq() == vstd::std_specs::hash::spec_hash_map_iter(&sheet.tuup).remaining(),
                    es == entry_values(eit.seq()),
                    result@ == before.push(node),
                    result@ == queue@.take(head as int),
                    row == node % 1000,
                    col == node / 1000,
                    sheet.buul@[node as int % 1000]@[node as int / 1000],
                    direct == Multiset::from_set(deps),
                    deps == sheet.cell_at(node as int % 1000, node as int / 1000).dependencies,
                    done =~= direct.add(range_keys(es.take(eit.index() as int), row as int, col as int).to_multiset()),
                    counted ==> kahn_counts(*sheet, tree0, all, es),
                    counted ==> queue@.no_duplicates(),
                    counted ==> forall|v: i32|
                        #![trigger avl_tree@[v]]
                        dom.contains(v) ==> avl_tree@[v] == keys_ms(*sheet, all, es).count(v) - keys_ms(
                            *sheet,
                            before,
                            es,
                        ).count(v) - done.count(v),
                    counted ==> forall|v: i32| dom.contains(v) ==> (#[trigger] queue@.contains(v) <==> avl_tree@[v] == 0),
                    counted ==> forall|v: i32|
                        #[trigger] keys_ms(*sheet, before, es).count(v) + out_ms(*sheet, node as int, es).count(v)
                            <= keys_ms(*sheet, all, es).count(v),
            {
                let ghost idx = eit.index();
                proof {
                    let sq = vstd::std_specs::hash::spec_hash_map_iter(&sheet.tuup).remaining();
                    assert(es[idx] == *e);
                    broadcast use vstd::multiset::group_multiset_axioms, vstd::seq_lib::group_to_multiset_ensures;

                    assert(entry_prefix(*e, row as int, col as int, 0) =~= Seq::<i32>::empty());
                    assert(done =~= done.add(Seq::<i32>::empty().to_multiset()));
                }
                let ghost before_e = done;
                let mut t: usize = 0;
                while t < e.targets.len()
                    invariant
                        dom == avl_tree@.dom(),
                        head <= queue@.len(),
                        forall|i: int| 0 <= i < queue@.len() ==> dom.contains(#[trigger] queue@[i]),
                        es == entry_values(vstd::std_specs::hash::spec_hash_map_iter(&sheet.tuup).remaining()),
                        0 <= idx < es.len(),
                        es[idx] == *e,
                        result@ == before.push(node),
                        result@ == queue@.take(head as int),
                        row == node % 1000,
                        col == node / 1000,
                        sheet.buul@[node as int % 1000]@[node as int / 1000],
                        direct == Multiset::from_set(deps),
                        deps == sheet.cell_at(node as int % 1000, node as int / 1000).dependencies,
                        0 <= t <= e.targets@.len(),
                        before_e =~= direct.add(range_keys(es.take(idx), row as int, col as int).to_multiset()),
                        done =~= before_e.add(entry_prefix(*e, row as int, col as int, t as int).to_multiset()),
                        counted ==> kahn_counts(*sheet, tree0, all, es),
                        counted ==> queue@.no_duplicates(),
                        counted ==> forall|v: i32|
                            #![trigger avl_tree@[v]]
                            dom.contains(v) ==> avl_tree@[v] == keys_ms(*sheet, all, es).count(v) - keys_ms(
                                *sheet,
                                before,
                                es,
                            ).count(v) - done.count(v),
                        counted ==> forall|v: i32| dom.contains(v) ==> (#[trigger] queue@.contains(v) <==> avl_tree@[v] == 0),
                        counted ==> forall|v: i32|
                            #[trigger] keys_ms(*sheet, before, es).count(v) + out_ms(*sheet, node as int, es).count(v)
                                <= keys_ms(*sheet, all, es).count(v),
                    decreases e.targets@.len() - t,
                {
                    let (target_col, target_row) = e.targets[t];
                    if col >= e.start_col as i32 && col <= e.end_col as i32 && row >= e.start_row as i32
                        && row <= e.end_row as i32 {
                        let key = target_col as i32 * 1000 + target_row as i32;
                        let ghost old_tree = avl_tree@;
                        let ghost old_queue = queue@;
                        proof {
                            broadcast use vstd::multiset::group_multiset_axioms, vstd::seq_lib::group_to_multiset_ensures;

                            assert(key == target_key(*e, t as int));
                            let pre = entry_prefix(*e, row as int, col as int, t as int);
                            assert(entry_prefix(*e, row as int, col as int, t + 1) =~= pre.push(key));
                            lemma_range_prefix_bound(es, idx, row as int, col as int, t as int);
                            assert(out_ms(*sheet, node as int, es) == direct.add(range_keys(es, row as int, col as int).to_multiset()));
                            let rk = range_keys(es.take(idx), row as int, col as int).to_multiset();
                            assert(rk.add(entry_prefix(es[idx], row as int, col as int, t + 1).to_multiset()).count(key)
                                <= range_keys(es, row as int, col as int).to_multiset().count(key));
                            assert(pre.push(key).to_multiset().count(key) == pre.to_multiset().count(key) + 1);
                            assert(done.count(key) == direct.count(key) + rk.count(key) + pre.to_multiset().count(key));
                            assert(done.count(key) + 1 <= out_ms(*sheet, node as int, es).count(key));
                            assert(counted && dom.contains(key) ==> keys_ms(*sheet, before, es).count(key)
                                + out_ms(*sheet, node as int, es).count(key) <= keys_ms(*sheet, all, es).count(key));
                            assert(counted && dom.contains(key) ==> avl_tree@[key] >= 1);
                        }
                        release(avl_tree, key, &mut queue);
                        proof {
                            broadcast use vstd::multiset::group_multiset_axioms, vstd::seq_lib::group_to_multiset_ensures;

                            done = done.insert(key);
                            lemma_release_kept(counted, old_tree, avl_tree@, old_queue, queue@, key, dom);
                            assert(result@ =~= queue@.take(head as int));
                        }
                    } else {
                        proof {
                            assert(entry_prefix(*e, row as int, col as int, t + 1) =~= entry_prefix(
                                *e,
                                row as int,
                                col as int,
                                t as int,
                            ));
                        }
                    }
                    t = t + 1;
                }
                proof {
                    broadcast use vstd::seq_lib::lemma_multiset_commutative;

                    assert(entry_prefix(*e, row as int, col as int, e.targets@.len() as int) =~= entry_keys(*e, row as int, col as int));
                    assert(es.take(idx + 1).drop_last() =~= es.take(idx));
                    assert(range_keys(es.take(idx + 1), row as int, col as int) == range_keys(es.take(idx), row as int, col as int) + entry_keys(*e, row as int, col as int));
                    assert(done =~= direct.add(range_keys(es.take(idx + 1), row as int, col as int).to_multiset()));
                }
            }
            proof {
                assert(es.take(es.len() as int) =~= es);
            }
        }
        proof {
            broadcast use vstd::multiset::group_multiset_axioms;

            assert(done =~= out_ms(*sheet, node as int, es));
            assert(result@.drop_last() =~= before);
            assert(keys_ms(*sheet, result@, es) == keys_ms(*sheet, before, es).add(out_ms(*sheet, node as int, es)));
        }
    }
    proof {
        lemma_kahn_done(counted, *sheet, all, es, queue@, head as int, result@, avl_tree@, dom, budget as int);
    }
    result
}


/// `m` with a default cell stored at `(r, c)` if none is stored there.
pub open spec fn ensure_cell(m: Map<i32, CellView>, r: int, c: int) -> Map<i32, CellView> {
    let k = spec_data_key(r, c) as i32;
    if m.contains_key(k) {
        m
    } else {
        m.insert(k, default_cell())
    }
}

/// The content of position `(r, c)` in `m` (the default cell if absent).
pub open spec fn view_at(m: Map<i32, CellView>, r: int, c: int) -> CellView {
    let k = spec_data_key(r, c) as i32;
    if m.contains_key(k) {
        m[k]
    } else {
        default_cell()
    }
}

/// `c` in error: the error flag set, value 0, no string.
pub open spec fn with_error(c: CellView) -> CellView {
    CellView { is_error: true, value: 0, string: None, ..c }
}

/// `c` holding the number `v`.
pub open spec fn with_value(c: CellView, v: i32) -> CellView {
    CellView { is_error: false, value: v, string: None, ..c }
}

/// `c` holding the string `t` (its number left as it was).
pub open spec fn with_string(c: CellView, t: Seq<char>) -> CellView {
    CellView { is_error: false, string: Some(t), ..c }
}

/// `c` after a binary formula gave `spec_compute_cell(op, x, y)`: a value,
/// or the error flag (value and string left as they were).
pub open spec fn binary_outcome(c: CellView, op: OpCode, x: i32, y: i32) -> CellView {
    let (v, e) = crate::calculate_functions::spec_compute_cell(op, x, y);
    if e {
        CellView { is_error: true, ..c }
    } else {
        with_value(c, v)
    }
}

/// Whether `op` is a formula between two cells.
pub open spec fn is_cell_cell_op(op: OpCode) -> bool {
    op is CellPlusCell || op is CellMinusCell || op is CellTimesCell || op is CellDivideCell
}

/// Whether `op` is a formula between a cell and a constant.
pub open spec fn is_cell_constant_op(op: OpCode) -> bool {
    op is CellPlusConstant || op is CellMinusConstant || op is CellTimesConstant
        || op is CellDivideConstant || op is ConstantDividesCell || op is ConstantMinusCell
}

/// Whether the rectangle `c1 ..= c2` holds a stored cell in error or
/// holding a string.
pub open spec fn range_has_bad(m: Map<i32, CellView>, c1: CellInfo, c2: CellInfo) -> bool {
    exists|r: int, c: int|
        c1.row <= r <= c2.row && c1.col <= c <= c2.col && #[trigger] m.contains_key(
            spec_data_key(r, c) as i32,
        ) && (m[spec_data_key(r, c) as i32].is_error || m[spec_data_key(
            r,
            c,
        ) as i32].string is Some)
}

/// `v` is what `compute_range_func` gives for `op` over `c1 ..= c2`.
pub open spec fn range_value(m: Map<i32, CellView>, op: OpCode, c1: CellInfo, c2: CellInfo, v: i32) -> bool {
    if c1.col > c2.col || c1.row > c2.row {
        v == -1
    } else {
        crate::calculate_functions::is_range_value(
            m,
            op,
            c1.row as int,
            c1.col as int,
            c2.row as int,
            c2.col as int,
            v,
        )
    }
}

/// What recalculating the cell at `(row, col)` of a sheet whose content is
/// `m` does: `cells` is the new content and `t1` the new sleep timer (from
/// `t0`).
///
/// The cell's formula is evaluated on the current content of the cells it
/// reads (those read one by one are stored as default cells first if
/// absent); an operand in error or holding a string puts the cell in error.
pub open spec fn recalc_step(m: Map<i32, CellView>, row: int, col: int, cells: Map<i32, CellView>, t0: i32, t1: i32) -> bool {
    let k = spec_data_key(row, col) as i32;
    let c = m[k];
    let op = c.op_code;
    let c1 = c.cell1;
    let c2 = c.cell2;
    if op is NoConstraint || op is String {
        cells == m && t1 == t0
    } else if op is CellEqualsCell {
        let a = view_at(m, c1.row as int, c1.col as int);
        let nc = if a.is_error {
            with_error(c)
        } else {
            match a.string {
                Some(t) => if t.len() > 0 {
                    with_string(c, t)
                } else {
                    with_value(c, 0)
                },
                None => with_value(c, a.value),
            }
        };
        cells == ensure_cell(m, c1.row as int, c1.col as int).insert(k, nc) && t1 == t0
    } else if is_cell_cell_op(op) {
        let a = view_at(m, c1.row as int, c1.col as int);
        let b = view_at(m, c2.row as int, c2.col as int);
        let nc = if a.is_error || b.is_error || a.string is Some || b.string is Some {
            with_error(c)
        } else {
            binary_outcome(c, op, a.value, b.value)
        };
        cells == ensure_cell(
            ensure_cell(m, c1.row as int, c1.col as int),
            c2.row as int,
            c2.col as int,
        ).insert(k, nc) && t1 == t0
    } else if is_cell_constant_op(op) {
        let a = view_at(m, c1.row as int, c1.col as int);
        let nc = if a.is_error || a.string is Some {
            with_error(c)
        } else {
            binary_outcome(c, op, a.value, entry_constant(c2))
        };
        cells == ensure_cell(m, c1.row as int, c1.col as int).insert(k, nc) && t1 == t0
    } else if op is Sleep {
        let a = view_at(m, c1.row as int, c1.col as int);
        if a.is_error || a.string is Some {
            cells == ensure_cell(m, c1.row as int, c1.col as int).insert(k, with_error(c)) && t1
                == t0
        } else {
            cells == ensure_cell(m, c1.row as int, c1.col as int).insert(k, with_value(c, a.value))
                && t1 == crate::calculate_functions::wrap_i32(t0 + a.value)
        }
    } else {
        let bad = range_has_bad(m, c1, c2);
        let nc = cells[k];
        &&& t1 == t0
        &&& cells == m.insert(k, nc)
        &&& nc == CellView { is_error: bad, value: nc.value, string: None, ..c }
        &&& bad ==> nc.value == 0
        &&& !bad ==> range_value(m, op, c1, c2, nc.value)
    }
}

/// What recalculating the cell at `(row, col)` of `s` does (see
/// `recalc_step`).
pub open spec fn recalc_post(s: Sheet, row: int, col: int, cells: Map<i32, CellView>, t0: i32, t1: i32) -> bool {
    recalc_step(s.cells(), row, col, cells, t0, t1)
}

/// `states` and `timers` are the contents and sleep timers met while the
/// cells with dependency keys `order` are recalculated one after another,
/// `root` itself being passed over: each state comes from the one before by
/// recalculating the next key.
pub open spec fn recalc_chain(states: Seq<Map<i32, CellView>>, timers: Seq<i32>, order: Seq<i32>, root: int) -> bool {
    &&& states.len() == order.len() + 1
    &&& timers.len() == order.len() + 1
    &&& forall|i: int|
        #![trigger order[i]]
        0 <= i < order.len() ==> if order[i] == root {
            states[i + 1] == states[i] && timers[i + 1] == timers[i]
        } else {
            recalc_step(
                states[i],
                order[i] as int % 1000,
                order[i] as int / 1000,
                states[i + 1],
                timers[i],
                timers[i + 1],
            )
        }
}

/// `fin` (sleep timer `t1`) is `m` (sleep timer `t0`) after cells that
/// depend on `root` in `s` were recalculated one after another, in some
/// order (`root` itself being passed over).
pub open spec fn dependents_recalculated(
    s: Sheet,
    root: int,
    m: Map<i32, CellView>,
    fin: Map<i32, CellView>,
    t0: i32,
    t1: i32,
) -> bool {
    exists|order: Seq<i32>|
        (#[trigger] recalculated_in_order(m, fin, order, root, t0, t1)) && forall|i: int|
            0 <= i < order.len() ==> #[trigger] order[i] == root || s.reachable(root, order[i] as int)
}

/// `fin` (sleep timer `t1`) is `m` (sleep timer `t0`) after the cells with
/// dependency keys `order` other than `root` were recalculated in that order.
pub open spec fn recalculated_in_order(
    m: Map<i32, CellView>,
    fin: Map<i32, CellView>,
    order: Seq<i32>,
    root: int,
    t0: i32,
    t1: i32,
) -> bool {
    exists|states: Seq<Map<i32, CellView>>, timers: Seq<i32>|
        (#[trigger] recalc_chain(states, timers, order, root)) && states[0] == m && states.last() == fin
            && timers[0] == t0 && timers.last() == t1
}

/// The stored cell under key `k`, for update.
fn stored_cell_mut(sheet: &mut Sheet, k: i32) -> (r: &mut Cell)
    requires
        old(sheet).data@.contains_key(k),
    ensures
        *r == old(sheet).data@[k],
        final(sheet).data@ == old(sheet).data@.insert(k, *final(r)),
        final(sheet).rows == old(sheet).rows,
        final(sheet).cols == old(sheet).cols,
        final(sheet).buul == old(sheet).buul,
        final(sheet).tuup == old(sheet).tuup,
{
    sheet.data.entry(k).or_insert(new_cell())
}

/// The content of position `(r, c)` after storing a default cell there if
/// none is stored: `(value, is_error, string)`.
fn read_operand(sheet: &mut Sheet, r: i16, c: i16) -> (res: (i32, bool, Option<String>))
    ensures
        final(sheet).cells() == ensure_cell(old(sheet).cells(), r as int, c as int),
        res.0 == view_at(old(sheet).cells(), r as int, c as int).value,
        res.1 == view_at(old(sheet).cells(), r as int, c as int).is_error,
        string_view(res.2) == view_at(old(sheet).cells(), r as int, c as int).string,
        final(sheet).rows == old(sheet).rows,
        final(sheet).cols == old(sheet).cols,
        final(sheet).buul == old(sheet).buul,
        final(sheet).tuup == old(sheet).tuup,
        forall|k: i32| #[trigger] old(sheet).data@.contains_key(k) ==> final(sheet).data@.contains_key(k) && final(sheet).data@[k] == old(sheet).data@[k],
        final(sheet).data@.contains_key(spec_data_key(r as int, c as int) as i32),
        forall|q: i32| #[trigger] final(sheet).data@.contains_key(q) && !old(sheet).data@.contains_key(q)
            ==> final(sheet).data@[q]@ == default_cell(),
{
    let ghost m = sheet.cells();
    let cell = get_or_create_cell(sheet, r as i32, c as i32);
    let s = match &cell.string {
        Some(t) => Some(t.clone()),
        None => None,
    };
    let res = (cell.value, cell.is_error, s);
    proof {
        assert(sheet.cells() =~= ensure_cell(m, r as int, c as int));
    }
    res
}


/// Whether the rectangle `cell1 ..= cell2` holds a stored cell in error or
/// holding a string.
fn find_bad_in_range(sheet: &Sheet, cell1: CellInfo, cell2: CellInfo) -> (r: bool)
    ensures
        r == range_has_bad(sheet.cells(), cell1, cell2),
{
    let mut i: i32 = cell1.row as i32;
    while i <= cell2.row as i32
        invariant
            cell1.row <= i,
            i <= cell2.row + 1 || i == cell1.row,
            forall|r: int, c: int|
                cell1.row <= r < i && cell1.col <= c <= cell2.col && #[trigger] sheet.cells().contains_key(
                    spec_data_key(r, c) as i32,
                ) ==> !(sheet.cells()[spec_data_key(r, c) as i32].is_error || sheet.cells()[spec_data_key(
                    r,
                    c,
                ) as i32].string is Some),
        decreases cell2.row + 1 - i,
    {
        let mut j: i32 = cell1.col as i32;
        while j <= cell2.col as i32
            invariant
                cell1.row <= i <= cell2.row,
                cell1.col <= j,
                j <= cell2.col + 1 || j == cell1.col,
                forall|r: int, c: int|
                    cell1.row <= r < i && cell1.col <= c <= cell2.col && #[trigger] sheet.cells().contains_key(
                        spec_data_key(r, c) as i32,
                    ) ==> !(sheet.cells()[spec_data_key(r, c) as i32].is_error || sheet.cells()[spec_data_key(
                        r,
                        c,
                    ) as i32].string is Some),
                forall|c: int|
                    cell1.col <= c < j && #[trigger] sheet.cells().contains_key(
                        spec_data_key(i as int, c) as i32,
                    ) ==> !(sheet.cells()[spec_data_key(i as int, c) as i32].is_error || sheet.cells()[spec_data_key(
                        i as int,
                        c,
                    ) as i32].string is Some),
            decreases cell2.col + 1 - j,
        {
            match sheet.data.get(&data_key(i as i16, j as i16)) {
                Some(c) => {
                    if c.is_error || c.string.is_some() {
                        proof {
                            let k = spec_data_key(i as int, j as int) as i32;
                            assert(sheet.cells().contains_key(k));
                            assert(sheet.cells()[k] == sheet.data@[k]@);
                        }
                        return true;
                    }
                },
                None => {},
            }
            j = j + 1;
        }
        i = i + 1;
    }
    false
}

/// The content a recalculated cell `c` gets written: the error flag
/// `err` (or set by `err1`, which leaves value and string alone), then
/// either the string `t` (for CELL = CELL with a non-empty string) or the
/// number `v`.
pub open spec fn written(c: CellView, err: bool, err1: bool, is_eq: bool, t: Seq<char>, v: i32) -> CellView {
    if err1 {
        CellView { is_error: true, ..c }
    } else if is_eq && t.len() > 0 {
        CellView { is_error: err, string: Some(t), ..c }
    } else {
        CellView { is_error: err, value: v, string: None, ..c }
    }
}

/// Writes a recalculated result into the stored cell under `k`.
fn write_result(sheet: &mut Sheet, k: i32, err: bool, err1: bool, is_eq: bool, strval: String, val: i32)
    requires
        old(sheet).data@.contains_key(k),
    ensures
        final(sheet).cells() == old(sheet).cells().insert(
            k,
            written(old(sheet).cells()[k], err, err1, is_eq, strval@, val),
        ),
        final(sheet).data@.dom() == old(sheet).data@.dom(),
        forall|q: i32| q != k && #[trigger] old(sheet).data@.contains_key(q) ==> final(sheet).data@[q] == old(sheet).data@[q],
        final(sheet).data@[k].dependencies == old(sheet).data@[k].dependencies,
        final(sheet).data@[k].op_code == old(sheet).data@[k].op_code,
        final(sheet).data@[k].cell1 == old(sheet).data@[k].cell1,
        final(sheet).data@[k].cell2 == old(sheet).data@[k].cell2,
        final(sheet).rows == old(sheet).rows,
        final(sheet).cols == old(sheet).cols,
        final(sheet).buul == old(sheet).buul,
        final(sheet).tuup == old(sheet).tuup,
{
    let ghost m = sheet.cells();
    let c = stored_cell_mut(sheet, k);
    c.is_error = err;
    if err1 {
        c.is_error = true;
    } else {
        if is_eq && !strval.as_str().is_empty() {
            c.string = Some(strval);
        } else {
            c.value = val;
            c.string = None;
        }
    }
    proof {
        assert(sheet.cells() =~= m.insert(k, sheet.data@[k]@));
    }
}

/// Only cell content changed: every stored cell keeps its formula and
/// dependents, and newly stored cells are default cells.
pub open spec fn content_only(old: Sheet, new: Sheet) -> bool {
    &&& new.rows == old.rows
    &&& new.cols == old.cols
    &&& new.buul == old.buul
    &&& new.tuup == old.tuup
    &&& forall|k: i32| old.data@.contains_key(k) ==> new.data@.contains_key(k)
    &&& forall|k: i32|
        #![trigger new.data@[k]]
        new.data@.contains_key(k) ==> if old.data@.contains_key(k) {
            new.data@[k].dependencies@ == old.data@[k].dependencies@ && new.data@[k].op_code
                == old.data@[k].op_code && new.data@[k].cell1 == old.data@[k].cell1
                && new.data@[k].cell2 == old.data@[k].cell2
        } else {
            new.data@[k]@ == default_cell()
        }
}

proof fn lemma_content_only_wf(old: Sheet, new: Sheet)
    requires
        old.wf(),
        content_only(old, new),
    ensures
        new.wf(),
{
    assert forall|k: i32, d: i32|
        #![trigger new.data@[k].dependencies@.contains(d)]
        new.data@.contains_key(k) && new.data@[k].dependencies@.contains(d) implies new.valid_node(
        d as int,
    ) && new.data@.contains_key(spec_data_key(d as int % 1000, d as int / 1000) as i32) by {
        if old.data@.contains_key(k) {
            assert(old.data@[k].dependencies@.contains(d));
        } else {
            assert(new.data@[k]@ == default_cell());
            assert(new.data@[k].dependencies@ == Set::<i32>::empty());
        }
    }
    assert forall|k: i32|
        #![trigger new.data@[k]]
        new.data@.contains_key(k) && crate::calculate_functions::is_range_op(new.data@[k].op_code)
            implies new.range_refs_ok(new.data@[k].cell1, new.data@[k].cell2) by {
        if old.data@.contains_key(k) {
            assert(old.data@[k].op_code == new.data@[k].op_code);
        } else {
            assert(new.data@[k]@ == default_cell());
        }
    }
    assert forall|k: i64, t: int|
        #![trigger new.tuup@[k].targets@[t]]
        new.tuup@.contains_key(k) && 0 <= t < new.tuup@[k].targets@.len() implies {
            let p = new.tuup@[k].targets@[t];
            new.valid_pos(p.1 as int, p.0 as int) && new.data@.contains_key(
                spec_data_key(p.1 as int, p.0 as int) as i32,
            )
        } by {
        assert(old.tuup@[k].targets@[t] == new.tuup@[k].targets@[t]);
    }
}

/// Recomputes the cell under `k`, whose formula reads one cell through `f`:
/// CELL = CELL.
fn recalc_equals(sheet: &mut Sheet, k: i32, cell1: CellInfo)
    requires
        old(sheet).data@.contains_key(k),
        old(sheet).data@[k].op_code is CellEqualsCell,
        old(sheet).data@[k].cell1 == cell1,
    ensures
        ({
            let m = old(sheet).cells();
            let c = m[k];
            let a = view_at(m, cell1.row as int, cell1.col as int);
            let nc = if a.is_error {
                with_error(c)
            } else {
                match a.string {
                    Some(t) => if t.len() > 0 {
                        with_string(c, t)
                    } else {
                        with_value(c, 0)
                    },
                    None => with_value(c, a.value),
                }
            };
            final(sheet).cells() == ensure_cell(m, cell1.row as int, cell1.col as int).insert(k, nc)
        }),
        content_only(*old(sheet), *final(sheet)),
{
    let ghost m = sheet.cells();
    let ghost s0 = *sheet;
    let mut err = false;
    let mut val: i32 = 0;
    let mut strval = String::new();
    let (v, e, st) = read_operand(sheet, cell1.row, cell1.col);
    if e {
        err = true;
    } else {
        match st {
            Some(t) => {
                strval = t;
            },
            None => {
                val = v;
            },
        }
    }
    let ghost s1 = *sheet;
    proof {
        assert(sheet.cells()[k] == m[k]);
    }
    write_result(sheet, k, err, false, true, strval, val);
    proof {
        lemma_content_only_two_steps(s0, s1, *sheet, k);
    }
}

/// Reading operands (which only adds default cells) and then writing a
/// result into the stored cell under `k` changes only cell content.
proof fn lemma_content_only_two_steps(s0: Sheet, s1: Sheet, s2: Sheet, k: i32)
    requires
        s0.data@.contains_key(k),
        s1.rows == s0.rows && s1.cols == s0.cols && s1.buul == s0.buul && s1.tuup == s0.tuup,
        forall|q: i32| #[trigger] s0.data@.contains_key(q) ==> s1.data@.contains_key(q) && s1.data@[q] == s0.data@[q],
        forall|q: i32| #[trigger] s1.data@.contains_key(q) && !s0.data@.contains_key(q)
            ==> s1.data@[q]@ == default_cell(),
        s2.rows == s1.rows && s2.cols == s1.cols && s2.buul == s1.buul && s2.tuup == s1.tuup,
        s2.data@.dom() == s1.data@.dom(),
        forall|q: i32| q != k && #[trigger] s1.data@.contains_key(q) ==> s2.data@[q] == s1.data@[q],
        s2.data@[k].dependencies == s1.data@[k].dependencies,
        s2.data@[k].op_code == s1.data@[k].op_code,
        s2.data@[k].cell1 == s1.data@[k].cell1,
        s2.data@[k].cell2 == s1.data@[k].cell2,
    ensures
        content_only(s0, s2),
{
    assert forall|q: i32| s0.data@.contains_key(q) implies s2.data@.contains_key(q) by {
        assert(s1.data@.contains_key(q));
    }
    assert forall|q: i32| #[trigger] s2.data@.contains_key(q) implies if s0.data@.contains_key(q) {
        s2.data@[q].dependencies@ == s0.data@[q].dependencies@ && s2.data@[q].op_code
            == s0.data@[q].op_code && s2.data@[q].cell1 == s0.data@[q].cell1
            && s2.data@[q].cell2 == s0.data@[q].cell2
    } else {
        s2.data@[q]@ == default_cell()
    } by {
        assert(s1.data@.contains_key(q));
        if q != k {
            assert(s2.data@[q] == s1.data@[q]);
        }
    }
}


/// Going from `s0` to `s1` only added default cells and kept every stored
/// cell.
pub open spec fn only_defaults_added(s0: Sheet, s1: Sheet) -> bool {
    &&& s1.rows == s0.rows && s1.cols == s0.cols && s1.buul == s0.buul && s1.tuup == s0.tuup
    &&& forall|q: i32| #[trigger] s0.data@.contains_key(q) ==> s1.data@.contains_key(q) && s1.data@[q] == s0.data@[q]
    &&& forall|q: i32| #[trigger] s1.data@.contains_key(q) && !s0.data@.contains_key(q)
            ==> s1.data@[q]@ == default_cell()
}

proof fn lemma_defaults_compose(s0: Sheet, s1: Sheet, s2: Sheet)
    requires
        only_defaults_added(s0, s1),
        only_defaults_added(s1, s2),
    ensures
        only_defaults_added(s0, s2),
{
    assert forall|q: i32| #[trigger] s2.data@.contains_key(q) && !s0.data@.contains_key(q)
        implies s2.data@[q]@ == default_cell() by {
        if s1.data@.contains_key(q) {
            assert(s2.data@[q] == s1.data@[q]);
        }
    }
}

/// Recomputes the cell under `k`, whose formula combines two cells.
fn recalc_cell_cell(sheet: &mut Sheet, k: i32, op: OpCode, cell1: CellInfo, cell2: CellInfo)
    requires
        old(sheet).data@.contains_key(k),
        old(sheet).data@[k].op_code == op,
        is_cell_cell_op(op),
        old(sheet).data@[k].cell1 == cell1,
        old(sheet).data@[k].cell2 == cell2,
    ensures
        ({
            let m = old(sheet).cells();
            let c = m[k];
            let a = view_at(m, cell1.row as int, cell1.col as int);
            let b = view_at(m, cell2.row as int, cell2.col as int);
            let nc = if a.is_error || b.is_error || a.string is Some || b.string is Some {
                with_error(c)
            } else {
                binary_outcome(c, op, a.value, b.value)
            };
            final(sheet).cells() == ensure_cell(
                ensure_cell(m, cell1.row as int, cell1.col as int),
                cell2.row as int,
                cell2.col as int,
            ).insert(k, nc)
        }),
        content_only(*old(sheet), *final(sheet)),
{
    let ghost m = sheet.cells();
    let ghost s0 = *sheet;
    let mut err = false;
    let mut val: i32 = 0;
    let mut err1 = false;
    let (av, ae, ast) = read_operand(sheet, cell1.row, cell1.col);
    let ghost sa = *sheet;
    let (bv, be, bst) = read_operand(sheet, cell2.row, cell2.col);
    let ghost s1 = *sheet;
    proof {
        lemma_defaults_compose(s0, sa, s1);
    }
    if ae || be || ast.is_some() || bst.is_some() {
        err = true;
    } else {
        let mut tmp = String::new();
        let (v, e) = crate::calculate_functions::compute_cell(op, av, bv, &mut tmp);
        val = v;
        err1 = e;
    }
    proof {
        assert(sheet.cells()[k] == m[k]);
    }
    write_result(sheet, k, err, err1, false, String::new(), val);
    proof {
        lemma_content_only_two_steps(s0, s1, *sheet, k);
    }
}

/// Recomputes the cell under `k`, whose formula combines a cell and a
/// constant.
fn recalc_cell_constant(sheet: &mut Sheet, k: i32, op: OpCode, cell1: CellInfo, cell2: CellInfo)
    requires
        old(sheet).data@.contains_key(k),
        old(sheet).data@[k].op_code == op,
        is_cell_constant_op(op),
        old(sheet).data@[k].cell1 == cell1,
        old(sheet).data@[k].cell2 == cell2,
    ensures
        ({
            let m = old(sheet).cells();
            let c = m[k];
            let a = view_at(m, cell1.row as int, cell1.col as int);
            let nc = if a.is_error || a.string is Some {
                with_error(c)
            } else {
                binary_outcome(c, op, a.value, entry_constant(cell2))
            };
            final(sheet).cells() == ensure_cell(m, cell1.row as int, cell1.col as int).insert(k, nc)
        }),
        content_only(*old(sheet), *final(sheet)),
{
    let ghost m = sheet.cells();
    let ghost s0 = *sheet;
    let mut err = false;
    let mut val: i32 = 0;
    let mut err1 = false;
    let (av, ae, ast) = read_operand(sheet, cell1.row, cell1.col);
    let ghost s1 = *sheet;
    if ae || ast.is_some() {
        err = true;
    } else {
        let mut tmp = String::new();
        let (v, e) = crate::calculate_functions::compute_cell(
            op,
            av,
            (cell2.row as i32) << 16u32 | (cell2.col as i32 & 0xFFFF),
            &mut tmp,
        );
        val = v;
        err1 = e;
    }
    proof {
        assert(sheet.cells()[k] == m[k]);
    }
    write_result(sheet, k, err, err1, false, String::new(), val);
    proof {
        lemma_content_only_two_steps(s0, s1, *sheet, k);
    }
}

/// Recomputes the cell under `k`, whose formula is SLEEP(cell): the cell
/// takes the value read, which is added to `sleep_timer`.
fn recalc_sleep(sheet: &mut Sheet, k: i32, cell1: CellInfo, sleep_timer: &mut i32)
    requires
        old(sheet).data@.contains_key(k),
        old(sheet).data@[k].op_code is Sleep,
        old(sheet).data@[k].cell1 == cell1,
    ensures
        ({
            let m = old(sheet).cells();
            let c = m[k];
            let a = view_at(m, cell1.row as int, cell1.col as int);
            if a.is_error || a.string is Some {
                final(sheet).cells() == ensure_cell(m, cell1.row as int, cell1.col as int).insert(
                    k,
                    with_error(c),
                ) && *final(sleep_timer) == *old(sleep_timer)
            } else {
                final(sheet).cells() == ensure_cell(m, cell1.row as int, cell1.col as int).insert(
                    k,
                    with_value(c, a.value),
                ) && *final(sleep_timer) == crate::calculate_functions::wrap_i32(
                    *old(sleep_timer) + a.value,
                )
            }
        }),
        content_only(*old(sheet), *final(sheet)),
{
    let ghost m = sheet.cells();
    let ghost s0 = *sheet;
    let mut err = false;
    let mut val: i32 = 0;
    let (av, ae, ast) = read_operand(sheet, cell1.row, cell1.col);
    let ghost s1 = *sheet;
    if ae || ast.is_some() {
        err = true;
    } else {
        val = av;
        *sleep_timer = crate::calculate_functions::add_wrapping(*sleep_timer, val);
    }
    proof {
        assert(sheet.cells()[k] == m[k]);
    }
    write_result(sheet, k, err, false, false, String::new(), val);
    proof {
        lemma_content_only_two_steps(s0, s1, *sheet, k);
    }
}

/// Recomputes the cell under `k`, whose formula is a range function.
fn recalc_range(sheet: &mut Sheet, k: i32, op: OpCode, cell1: CellInfo, cell2: CellInfo)
    requires
        old(sheet).wf(),
        old(sheet).data@.contains_key(k),
        old(sheet).data@[k].op_code == op,
        crate::calculate_functions::is_range_op(op),
        old(sheet).data@[k].cell1 == cell1,
        old(sheet).data@[k].cell2 == cell2,
    ensures
        ({
            let m = old(sheet).cells();
            let c = m[k];
            let bad = range_has_bad(m, cell1, cell2);
            let nc = final(sheet).cells()[k];
            &&& final(sheet).cells() == m.insert(k, nc)
            &&& nc == CellView { is_error: bad, value: nc.value, string: None, ..c }
            &&& bad ==> nc.value == 0
            &&& !bad ==> range_value(m, op, cell1, cell2, nc.value)
        }),
        content_only(*old(sheet), *final(sheet)),
{
    let ghost m = sheet.cells();
    let ghost s0 = *sheet;
    let mut val: i32 = 0;
    proof {
        assert(s0.data@[k].op_code == op);
        assert(crate::calculate_functions::is_range_op(s0.data@[k].op_code));
        assert(s0.range_refs_ok(cell1, cell2));
    }
    let err = find_bad_in_range(sheet, cell1, cell2);
    if !err {
        let mut tmp = String::new();
        val = crate::calculate_functions::compute_range_func(
            sheet,
            op,
            cell1.row,
            cell1.col,
            cell2.row,
            cell2.col,
            &mut tmp,
        );
    }
    proof {
        assert(sheet.cells()[k] == m[k]);
    }
    write_result(sheet, k, err, false, false, String::new(), val);
    proof {
        lemma_content_only_two_steps(s0, s0, *sheet, k);
        assert(sheet.cells() == m.insert(k, CellView { is_error: err, value: val, string: None, ..m[k] }));
        assert(err == range_has_bad(m, cell1, cell2));
        assert(!err ==> range_value(m, op, cell1, cell2, val));
    }
}


/// Recomputes the cell at `(row, col)` from the cells its formula reads
/// (see `recalc_post`); a SLEEP formula adds the value it reads to
/// `sleep_timer`. A cell holding no formula is left as it is.
pub fn recalculate(sheet: &mut Sheet, row: usize, col: usize, sleep_timer: &mut i32)
    requires
        old(sheet).wf(),
        old(sheet).data@.contains_key(spec_data_key(row as i16 as int, col as i16 as int) as i32),
    ensures
        recalc_post(
            *old(sheet),
            row as i16 as int,
            col as i16 as int,
            final(sheet).cells(),
            *old(sleep_timer),
            *final(sleep_timer),
        ),
        content_only(*old(sheet), *final(sheet)),
        final(sheet).wf(),
{
    let ghost s0 = *sheet;
    let k = data_key(row as i16, col as i16);
    let (op_code, cell1, cell2) = {
        let c = sheet.data.get(&k).unwrap();
        (c.op_code, c.cell1, c.cell2)
    };
    proof {
        assert(s0.cells()[k] == sheet.data@[k]@);
    }
    match op_code {
        OpCode::NoConstraint | OpCode::String => {
            assert(content_only(s0, *sheet));
            return ;
        },
        OpCode::CellEqualsCell => {
            recalc_equals(sheet, k, cell1);
            assert(recalc_post(s0, row as i16 as int, col as i16 as int, sheet.cells(), *old(sleep_timer), *sleep_timer));
        },
        OpCode::CellPlusCell | OpCode::CellMinusCell | OpCode::CellTimesCell
        | OpCode::CellDivideCell => {
            recalc_cell_cell(sheet, k, op_code, cell1, cell2);
            assert(recalc_post(s0, row as i16 as int, col as i16 as int, sheet.cells(), *old(sleep_timer), *sleep_timer));
        },
        OpCode::CellPlusConstant | OpCode::CellMinusConstant | OpCode::CellTimesConstant
        | OpCode::CellDivideConstant | OpCode::ConstantDividesCell | OpCode::ConstantMinusCell => {
            recalc_cell_constant(sheet, k, op_code, cell1, cell2);
            assert(recalc_post(s0, row as i16 as int, col as i16 as int, sheet.cells(), *old(sleep_timer), *sleep_timer));
        },
        OpCode::Sleep => {
            recalc_sleep(sheet, k, cell1, sleep_timer);
            assert(recalc_post(s0, row as i16 as int, col as i16 as int, sheet.cells(), *old(sleep_timer), *sleep_timer));
        },
        _ => {
            recalc_range(sheet, k, op_code, cell1, cell2);
        },
    }
    proof {
        lemma_content_only_wf(s0, *sheet);
    }
}


/// `m` with `d` removed from the dependents of the cell stored at `p`, if
/// one is stored there.
pub open spec fn without_dependent(m: Map<i32, CellView>, p: CellInfo, d: i32) -> Map<i32, CellView> {
    let k = spec_data_key(p.row as int, p.col as int) as i32;
    if m.contains_key(k) {
        m.insert(k, CellView { dependencies: m[k].dependencies.remove(d), ..m[k] })
    } else {
        m
    }
}

/// Removes `d` from the dependents of the cell stored at `p`, if any.
pub(crate) fn drop_dependent(sheet: &mut Sheet, p: CellInfo, d: i32)
    requires
        old(sheet).wf(),
    ensures
        final(sheet).wf(),
        final(sheet).cells() == without_dependent(old(sheet).cells(), p, d),
        final(sheet).rows == old(sheet).rows,
        final(sheet).cols == old(sheet).cols,
        final(sheet).buul == old(sheet).buul,
        final(sheet).tuup == old(sheet).tuup,
        final(sheet).data@.dom() == old(sheet).data@.dom(),
{
    let k = data_key(p.row, p.col);
    if sheet.data.contains_key(&k) {
        let ghost s0 = *sheet;
        let c = stored_cell_mut(sheet, k);
        c.dependencies.remove(&d);
        proof {
            assert(sheet.cells() =~= without_dependent(s0.cells(), p, d));
            assert(sheet.data@.dom() =~= s0.data@.dom());
            assert forall|q: i32, e: i32|
                #![trigger sheet.data@[q].dependencies@.contains(e)]
                sheet.data@.contains_key(q) && sheet.data@[q].dependencies@.contains(e) implies sheet.valid_node(
                e as int,
            ) && sheet.data@.contains_key(spec_data_key(e as int % 1000, e as int / 1000) as i32) by {
                assert(s0.data@[q].dependencies@.contains(e));
            }
            assert forall|q: i32|
                #![trigger sheet.data@[q]]
                sheet.data@.contains_key(q) && crate::calculate_functions::is_range_op(sheet.data@[q].op_code)
                    implies sheet.range_refs_ok(sheet.data@[q].cell1, sheet.data@[q].cell2) by {
                assert(s0.data@[q].op_code == sheet.data@[q].op_code);
            }
            assert forall|q: i64, t: int|
                #![trigger sheet.tuup@[q].targets@[t]]
                sheet.tuup@.contains_key(q) && 0 <= t < sheet.tuup@[q].targets@.len() implies {
                    let e = sheet.tuup@[q].targets@[t];
                    sheet.valid_pos(e.1 as int, e.0 as int) && sheet.data@.contains_key(
                        spec_data_key(e.1 as int, e.0 as int) as i32,
                    )
                } by {
                assert(s0.tuup@[q].targets@[t] == sheet.tuup@[q].targets@[t]);
            }
        }
    } else {
        proof {
            assert(sheet.cells() =~= without_dependent(sheet.cells(), p, d));
        }
    }
}


/// The test that keeps every range target but `t`.
pub open spec fn other_than(t: (i16, i16)) -> spec_fn((i16, i16)) -> bool {
    |p: (i16, i16)| p != t
}

/// `new` is `old` with target `t` dropped from the entry under `rk`; the
/// entry is removed when no target is left.
pub open spec fn target_dropped(
    old: Map<i64, RangeTargets>,
    new: Map<i64, RangeTargets>,
    rk: i64,
    t: (i16, i16),
) -> bool {
    if old.contains_key(rk) {
        let e = old[rk];
        let kept = e.targets@.filter(other_than(t));
        if kept.len() == 0 {
            new == old.remove(rk)
        } else {
            &&& new.dom() == old.dom()
            &&& forall|q: i64| #[trigger] new.contains_key(q) && q != rk ==> new[q] == old[q]
            &&& new[rk].start_col == e.start_col
            &&& new[rk].start_row == e.start_row
            &&& new[rk].end_col == e.end_col
            &&& new[rk].end_row == e.end_row
            &&& new[rk].targets@ == kept
        }
    } else {
        new == old
    }
}

/// Drops target `t` from the range entry under `rk`, removing the entry
/// when no target is left.
fn drop_target(sheet: &mut Sheet, rk: i64, t: (i16, i16))
    requires
        old(sheet).wf(),
    ensures
        final(sheet).wf(),
        target_dropped(old(sheet).tuup@, final(sheet).tuup@, rk, t),
        final(sheet).data == old(sheet).data,
        final(sheet).rows == old(sheet).rows,
        final(sheet).cols == old(sheet).cols,
        final(sheet).buul == old(sheet).buul,
{
    let ghost s0 = *sheet;
    let (sc, sr, ec, er, kept) = match sheet.tuup.get(&rk) {
        Some(e) => {
            let mut kept: Vec<(i16, i16)> = Vec::new();
            let mut i: usize = 0;
            while i < e.targets.len()
                invariant
                    sheet.wf(),
                    sheet.tuup@.contains_key(rk),
                    sheet.tuup@[rk] == *e,
                    0 <= i <= e.targets@.len(),
                    kept@ == e.targets@.take(i as int).filter(other_than(t)),
                    forall|j: int|
                        0 <= j < kept@.len() ==> sheet.valid_pos(
                            (#[trigger] kept@[j]).1 as int,
                            kept@[j].0 as int,
                        ) && sheet.data@.contains_key(
                            spec_data_key(kept@[j].1 as int, kept@[j].0 as int) as i32,
                        ),
                decreases e.targets@.len() - i,
            {
                let p = e.targets[i];
                proof {
                    reveal(Seq::filter);
                    assert(e.targets@.take(i + 1).drop_last() =~= e.targets@.take(i as int));
                    assert(e.targets@.take(i + 1).last() == p);
                    assert(sheet.tuup@[rk].targets@[i as int] == p);
                }
                if p.0 != t.0 || p.1 != t.1 {
                    kept.push(p);
                }
                i = i + 1;
            }
            proof {
                assert(e.targets@.take(e.targets@.len() as int) =~= e.targets@);
            }
            (e.start_col, e.start_row, e.end_col, e.end_row, kept)
        },
        None => {
            return ;
        },
    };
    if kept.len() == 0 {
        sheet.tuup.remove(&rk);
        proof {
            assert forall|q: i64| #[trigger] sheet.tuup@.contains_key(q) implies {
                let e = sheet.tuup@[q];
                &&& q == spec_range_key(
                    e.start_col as int,
                    e.start_row as int,
                    e.end_col as int,
                    e.end_row as int,
                )
                &&& sheet.rect_fits(
                    e.start_row as int,
                    e.start_col as int,
                    e.end_row as int,
                    e.end_col as int,
                )
            } by {
                assert(s0.tuup@.contains_key(q));
            }
            assert forall|q: i64, j: int|
                #![trigger sheet.tuup@[q].targets@[j]]
                sheet.tuup@.contains_key(q) && 0 <= j < sheet.tuup@[q].targets@.len() implies {
                    let e = sheet.tuup@[q].targets@[j];
                    sheet.valid_pos(e.1 as int, e.0 as int) && sheet.data@.contains_key(
                        spec_data_key(e.1 as int, e.0 as int) as i32,
                    )
                } by {
                assert(s0.tuup@[q].targets@[j] == sheet.tuup@[q].targets@[j]);
            }
        }
    } else {
        sheet.tuup.insert(
            rk,
            RangeTargets { start_col: sc, start_row: sr, end_col: ec, end_row: er, targets: kept },
        );
        proof {
            assert(sheet.tuup@.dom() =~= s0.tuup@.dom());
            assert forall|q: i64| #[trigger] sheet.tuup@.contains_key(q) implies {
                let e = sheet.tuup@[q];
                &&& q == spec_range_key(
                    e.start_col as int,
                    e.start_row as int,
                    e.end_col as int,
                    e.end_row as int,
                )
                &&& sheet.rect_fits(
                    e.start_row as int,
                    e.start_col as int,
                    e.end_row as int,
                    e.end_col as int,
                )
            } by {
                assert(s0.tuup@.contains_key(q));
            }
            assert forall|q: i64, j: int|
                #![trigger sheet.tuup@[q].targets@[j]]
                sheet.tuup@.contains_key(q) && 0 <= j < sheet.tuup@[q].targets@.len() implies {
                    let e = sheet.tuup@[q].targets@[j];
                    sheet.valid_pos(e.1 as int, e.0 as int) && sheet.data@.contains_key(
                        spec_data_key(e.1 as int, e.0 as int) as i32,
                    )
                } by {
                if q != rk {
                    assert(s0.tuup@[q].targets@[j] == sheet.tuup@[q].targets@[j]);
                }
            }
        }
    }
}


/// Whether some range formula of `tuup` reads position `(r, c)`.
pub open spec fn covered(tuup: Map<i64, RangeTargets>, r: int, c: int) -> bool {
    exists|k: i64| #[trigger] tuup.contains_key(k) && in_rect(tuup[k], r, c)
}

/// Whether some range formula of the sheet reads position `(r, c)`.
fn is_covered(sheet: &Sheet, r: i32, c: i32) -> (b: bool)
    ensures
        b == covered(sheet.tuup@, r as int, c as int),
{
    let mut flag = false;
    for (k, e) in it: sheet.tuup.iter()
        invariant
            it.seq() == vstd::std_specs::hash::spec_hash_map_iter(&sheet.tuup).remaining(),
            flag == exists|j: int| 0 <= j < it.index() && in_rect(*(#[trigger] it.seq()[j]).1, r as int, c as int),
    {
        if c >= e.start_col as i32 && c <= e.end_col as i32 && r >= e.start_row as i32 && r
            <= e.end_row as i32 {
            flag = true;
        }
    }
    proof {
        let sq = vstd::std_specs::hash::spec_hash_map_iter(&sheet.tuup).remaining();
        if flag {
            let j = choose|j: int| 0 <= j < sq.len() && in_rect(*(#[trigger] sq[j]).1, r as int, c as int);
            assert(sheet.tuup@.contains_key(*sq[j].0));
            assert(sheet.tuup@[*sq[j].0] == *sq[j].1);
        }
        if covered(sheet.tuup@, r as int, c as int) {
            let k = choose|k: i64| #[trigger] sheet.tuup@.contains_key(k) && in_rect(sheet.tuup@[k], r as int, c as int);
            assert(sq.contains((&k, &sheet.tuup@[k])));
            let j = choose|j: int| 0 <= j < sq.len() && sq[j] == (&k, &sheet.tuup@[k]);
            assert(in_rect(*sq[j].1, r as int, c as int));
        }
    }
    flag
}

/// `new_b` is `old_b` with each mark of the rectangle `c1 ..= c2` set to
/// whether some range formula of `tuup` reads that position.
pub open spec fn marks_recomputed(
    old_b: Seq<Vec<bool>>,
    new_b: Seq<Vec<bool>>,
    tuup: Map<i64, RangeTargets>,
    c1: CellInfo,
    c2: CellInfo,
) -> bool {
    &&& new_b.len() == old_b.len()
    &&& forall|i: int| 0 <= i < old_b.len() ==> (#[trigger] new_b[i])@.len() == old_b[i]@.len()
    &&& forall|i: int, j: int|
        0 <= i < old_b.len() && 0 <= j < old_b[i]@.len() ==> (#[trigger] new_b[i]@[j]) == if c1.row
            <= i <= c2.row && c1.col <= j <= c2.col {
            covered(tuup, i, j)
        } else {
            old_b[i]@[j]
        }
}

/// Sets each mark of the rectangle `c1 ..= c2` to whether some range
/// formula reads that position.
fn recompute_marks(sheet: &mut Sheet, c1: CellInfo, c2: CellInfo)
    requires
        old(sheet).wf(),
        old(sheet).rect_fits(c1.row as int, c1.col as int, c2.row as int, c2.col as int),
    ensures
        final(sheet).wf(),
        marks_recomputed(old(sheet).buul@, final(sheet).buul@, final(sheet).tuup@, c1, c2),
        final(sheet).data == old(sheet).data,
        final(sheet).tuup == old(sheet).tuup,
        final(sheet).rows == old(sheet).rows,
        final(sheet).cols == old(sheet).cols,
{
    let ghost b0 = sheet.buul@;
    let mut i: i32 = c1.row as i32;
    while i <= c2.row as i32
        invariant
            old(sheet).wf(),
            old(sheet).rect_fits(c1.row as int, c1.col as int, c2.row as int, c2.col as int),
            b0 == old(sheet).buul@,
            sheet.data == old(sheet).data,
            sheet.tuup == old(sheet).tuup,
            sheet.rows == old(sheet).rows,
            sheet.cols == old(sheet).cols,
            c1.row <= i,
            i <= c2.row + 1 || i == c1.row,
            sheet.buul@.len() == b0.len(),
            forall|a: int| 0 <= a < b0.len() ==> (#[trigger] sheet.buul@[a])@.len() == b0[a]@.len(),
            forall|a: int, b: int|
                0 <= a < b0.len() && 0 <= b < b0[a]@.len() ==> (#[trigger] sheet.buul@[a]@[b]) == if c1.row
                    <= a < i && c1.col <= b <= c2.col {
                    covered(sheet.tuup@, a, b)
                } else {
                    b0[a]@[b]
                },
        decreases c2.row + 1 - i,
    {
        let mut j: i32 = c1.col as i32;
        while j <= c2.col as i32
            invariant
                old(sheet).wf(),
                old(sheet).rect_fits(c1.row as int, c1.col as int, c2.row as int, c2.col as int),
                b0 == old(sheet).buul@,
                sheet.data == old(sheet).data,
                sheet.tuup == old(sheet).tuup,
                sheet.rows == old(sheet).rows,
                sheet.cols == old(sheet).cols,
                c1.row <= i <= c2.row,
                c1.col <= j,
                j <= c2.col + 1 || j == c1.col,
                sheet.buul@.len() == b0.len(),
                forall|a: int| 0 <= a < b0.len() ==> (#[trigger] sheet.buul@[a])@.len() == b0[a]@.len(),
                forall|a: int, b: int|
                    0 <= a < b0.len() && 0 <= b < b0[a]@.len() ==> (#[trigger] sheet.buul@[a]@[b]) == if (
                    c1.row <= a < i && c1.col <= b <= c2.col) || (a == i && c1.col <= b < j) {
                        covered(sheet.tuup@, a, b)
                    } else {
                        b0[a]@[b]
                    },
            decreases c2.col + 1 - j,
        {
            let flag = is_covered(sheet, i, j);
            sheet.buul[i as usize].set(j as usize, flag);
            j = j + 1;
        }
        i = i + 1;
    }
}


/// `m` with the references of the cell under `k` cleared to "no cell".
pub open spec fn refs_cleared(m: Map<i32, CellView>, k: i32) -> Map<i32, CellView> {
    m.insert(k, CellView { cell1: no_cell(), cell2: no_cell(), ..m[k] })
}

/// Whether `op` is a formula that reads exactly one cell (through `cell1`).
pub open spec fn is_single_ref_op(op: OpCode) -> bool {
    op is CellEqualsCell || is_cell_constant_op(op) || op is Sleep
}

/// Whether the dependencies of the cell at `cell` can be removed: a stored
/// range formula must read a rectangle that fits the sheet.
pub open spec fn removable(s: Sheet, cell: CellInfo) -> bool {
    let k = spec_data_key(cell.row as int, cell.col as int) as i32;
    s.data@.contains_key(k) && crate::calculate_functions::is_range_op(s.data@[k].op_code)
        ==> s.rect_fits(
        s.data@[k].cell1.row as int,
        s.data@[k].cell1.col as int,
        s.data@[k].cell2.row as int,
        s.data@[k].cell2.col as int,
    )
}

/// What removing the dependencies of the cell at `cell` does to sheet `s`,
/// whose marks are `b`, giving `t`: nothing when no cell is stored there;
/// otherwise the cell's
/// key leaves the dependents of the cells its formula reads (for a range
/// formula: the cell leaves the targets of its rectangle, and the marks of
/// the rectangle are recomputed), and the cell's references are cleared.
pub open spec fn removal_post(s: Sheet, b: Seq<Vec<bool>>, t: Sheet, cell: CellInfo) -> bool {
    let k = spec_data_key(cell.row as int, cell.col as int) as i32;
    let d = dep_key(cell.row as int, cell.col as int) as i32;
    let m = s.cells();
    &&& t.rows == s.rows
    &&& t.cols == s.cols
    &&& if !m.contains_key(k) {
        t.cells() == m && t.tuup@ == s.tuup@ && t.buul@ == b
    } else {
        let op = m[k].op_code;
        let c1 = m[k].cell1;
        let c2 = m[k].cell2;
        if is_single_ref_op(op) {
            t.cells() == refs_cleared(without_dependent(m, c1, d), k) && t.tuup@ == s.tuup@
                && t.buul@ == b
        } else if is_cell_cell_op(op) {
            t.cells() == refs_cleared(without_dependent(without_dependent(m, c1, d), c2, d), k)
                && t.tuup@ == s.tuup@ && t.buul@ == b
        } else if crate::calculate_functions::is_range_op(op) {
            &&& t.cells() == refs_cleared(m, k)
            &&& target_dropped(
                s.tuup@,
                t.tuup@,
                spec_range_key(c1.col as int, c1.row as int, c2.col as int, c2.row as int) as i64,
                (cell.col, cell.row),
            )
            &&& marks_recomputed(b, t.buul@, t.tuup@, c1, c2)
        } else {
            t.cells() == refs_cleared(m, k) && t.tuup@ == s.tuup@ && t.buul@ == b
        }
    }
}

/// Clears the references of the stored cell under `k`.
fn clear_refs(sheet: &mut Sheet, k: i32)
    requires
        old(sheet).wf(),
        old(sheet).data@.contains_key(k),
    ensures
        final(sheet).wf(),
        final(sheet).cells() == refs_cleared(old(sheet).cells(), k),
        final(sheet).rows == old(sheet).rows,
        final(sheet).cols == old(sheet).cols,
        final(sheet).buul == old(sheet).buul,
        final(sheet).tuup == old(sheet).tuup,
        final(sheet).data@.dom() == old(sheet).data@.dom(),
{
    let ghost s0 = *sheet;
    let c = stored_cell_mut(sheet, k);
    c.cell1 = CellInfo { row: -1, col: -1 };
    c.cell2 = CellInfo { row: -1, col: -1 };
    proof {
        assert(sheet.cells() =~= refs_cleared(s0.cells(), k));
        assert(sheet.data@.dom() =~= s0.data@.dom());
        assert forall|q: i32, e: i32|
            #![trigger sheet.data@[q].dependencies@.contains(e)]
            sheet.data@.contains_key(q) && sheet.data@[q].dependencies@.contains(e) implies sheet.valid_node(
            e as int,
        ) && sheet.data@.contains_key(spec_data_key(e as int % 1000, e as int / 1000) as i32) by {
            assert(s0.data@[q].dependencies@.contains(e));
        }
        assert forall|q: i32|
            #![trigger sheet.data@[q]]
            sheet.data@.contains_key(q) && crate::calculate_functions::is_range_op(sheet.data@[q].op_code)
                implies sheet.range_refs_ok(sheet.data@[q].cell1, sheet.data@[q].cell2) by {
            if q != k {
                assert(s0.data@[q] == sheet.data@[q]);
            }
        }
        assert forall|q: i64, t: int|
            #![trigger sheet.tuup@[q].targets@[t]]
            sheet.tuup@.contains_key(q) && 0 <= t < sheet.tuup@[q].targets@.len() implies {
                let e = sheet.tuup@[q].targets@[t];
                sheet.valid_pos(e.1 as int, e.0 as int) && sheet.data@.contains_key(
                    spec_data_key(e.1 as int, e.0 as int) as i32,
                )
            } by {
            assert(s0.tuup@[q].targets@[t] == sheet.tuup@[q].targets@[t]);
        }
    }
}

/// Removes the dependencies of the formula of the cell at `cell`: its key
/// leaves the dependents of the cells the formula reads (for a range
/// formula the cell leaves the targets of its rectangle and the marks of the
/// rectangle are recomputed), and the cell's references are cleared. The
/// op code stays. Nothing happens when no cell is stored there.
pub fn remove_dependency(cell: &CellInfo, sheet: &mut Sheet)
    requires
        old(sheet).wf(),
        removable(*old(sheet), *cell),
    ensures
        final(sheet).wf(),
        removal_post(*old(sheet), old(sheet).buul@, *final(sheet), *cell),
        !(old(sheet).data@.contains_key(spec_data_key(cell.row as int, cell.col as int) as i32)
            && crate::calculate_functions::is_range_op(
            old(sheet).data@[spec_data_key(cell.row as int, cell.col as int) as i32].op_code,
        )) ==> final(sheet).tuup == old(sheet).tuup && final(sheet).buul == old(sheet).buul,
{
    let row = cell.row as i32;
    let col = cell.col as i32;
    let key = data_key(cell.row, cell.col);
    let ghost s0 = *sheet;
    let (op_code, cell1, cell2) = match sheet.data.get(&key) {
        Some(c) => (c.op_code, c.cell1, c.cell2),
        None => {
            return ;
        },
    };
    proof {
        assert(s0.cells()[key] == s0.data@[key]@);
    }
    let d = col * 1000 + row;
    match op_code {
        OpCode::NoConstraint => {},
        OpCode::CellEqualsCell | OpCode::CellPlusConstant | OpCode::CellTimesConstant
        | OpCode::CellMinusConstant | OpCode::CellDivideConstant | OpCode::ConstantDividesCell
        | OpCode::ConstantMinusCell
        | OpCode::Sleep => {
            drop_dependent(sheet, cell1, d);
        },
        OpCode::Sum | OpCode::Min | OpCode::Max | OpCode::Avg | OpCode::Stdev => {
            let rk = range_key(cell1.col, cell1.row, cell2.col, cell2.row);
            drop_target(sheet, rk, (cell.col, cell.row));
            recompute_marks(sheet, cell1, cell2);
        },
        OpCode::CellPlusCell | OpCode::CellMinusCell | OpCode::CellTimesCell
        | OpCode::CellDivideCell => {
            drop_dependent(sheet, cell1, d);
            drop_dependent(sheet, cell2, d);
        },
        OpCode::String => {},
    }
    proof {
        assert(sheet.data@.contains_key(key));
    }
    clear_refs(sheet, key);
}


/// `b` with every mark of the rectangle `c1 ..= c2` set.
pub open spec fn marks_set(b: Seq<Vec<bool>>, new_b: Seq<Vec<bool>>, c1: CellInfo, c2: CellInfo) -> bool {
    &&& new_b.len() == b.len()
    &&& forall|i: int| 0 <= i < b.len() ==> (#[trigger] new_b[i])@.len() == b[i]@.len()
    &&& forall|i: int, j: int|
        0 <= i < b.len() && 0 <= j < b[i]@.len() ==> (#[trigger] new_b[i]@[j]) == ((c1.row <= i
            <= c2.row && c1.col <= j <= c2.col) || b[i]@[j])
}

/// Marks every position of the rectangle `c1 ..= c2` as read by a range
/// formula.
fn mark_rect(sheet: &mut Sheet, c1: CellInfo, c2: CellInfo)
    requires
        old(sheet).wf(),
        old(sheet).rect_fits(c1.row as int, c1.col as int, c2.row as int, c2.col as int),
    ensures
        final(sheet).wf(),
        marks_set(old(sheet).buul@, final(sheet).buul@, c1, c2),
        final(sheet).data == old(sheet).data,
        final(sheet).tuup == old(sheet).tuup,
        final(sheet).rows == old(sheet).rows,
        final(sheet).cols == old(sheet).cols,
{
    let ghost b0 = sheet.buul@;
    let mut i: i32 = c1.row as i32;
    while i <= c2.row as i32
        invariant
            old(sheet).wf(),
            old(sheet).rect_fits(c1.row as int, c1.col as int, c2.row as int, c2.col as int),
            b0 == old(sheet).buul@,
            sheet.data == old(sheet).data,
            sheet.tuup == old(sheet).tuup,
            sheet.rows == old(sheet).rows,
            sheet.cols == old(sheet).cols,
            c1.row <= i,
            i <= c2.row + 1 || i == c1.row,
            sheet.buul@.len() == b0.len(),
            forall|a: int| 0 <= a < b0.len() ==> (#[trigger] sheet.buul@[a])@.len() == b0[a]@.len(),
            forall|a: int, b: int|
                0 <= a < b0.len() && 0 <= b < b0[a]@.len() ==> (#[trigger] sheet.buul@[a]@[b]) == ((c1.row
                    <= a < i && c1.col <= b <= c2.col) || b0[a]@[b]),
        decreases c2.row + 1 - i,
    {
        let mut j: i32 = c1.col as i32;
        while j <= c2.col as i32
            invariant
                old(sheet).wf(),
                old(sheet).rect_fits(c1.row as int, c1.col as int, c2.row as int, c2.col as int),
                b0 == old(sheet).buul@,
                sheet.data == old(sheet).data,
                sheet.tuup == old(sheet).tuup,
                sheet.rows == old(sheet).rows,
                sheet.cols == old(sheet).cols,
                c1.row <= i <= c2.row,
                c1.col <= j,
                j <= c2.col + 1 || j == c1.col,
                sheet.buul@.len() == b0.len(),
                forall|a: int| 0 <= a < b0.len() ==> (#[trigger] sheet.buul@[a])@.len() == b0[a]@.len(),
                forall|a: int, b: int|
                    0 <= a < b0.len() && 0 <= b < b0[a]@.len() ==> (#[trigger] sheet.buul@[a]@[b])
                        == ((c1.row <= a < i && c1.col <= b <= c2.col) || (a == i && c1.col <= b < j)
                        || b0[a]@[b]),
            decreases c2.col + 1 - j,
        {
            sheet.buul[i as usize].set(j as usize, true);
            j = j + 1;
        }
        i = i + 1;
    }
}

/// The references a cell stores for formula `op` over `c1` and `c2`.
pub open spec fn refs_for(op: OpCode, c1: CellInfo, c2: CellInfo) -> (CellInfo, CellInfo) {
    if op is NoConstraint || op is String {
        (no_cell(), no_cell())
    } else if op is CellEqualsCell || op is Sleep {
        (c1, no_cell())
    } else {
        (c1, c2)
    }
}

/// `m` with the cell at `p` (a default cell first, if none is stored) given
/// formula `op` over `c1` and `c2`.
pub open spec fn formula_set(m: Map<i32, CellView>, p: CellInfo, op: OpCode, c1: CellInfo, c2: CellInfo) -> Map<i32, CellView> {
    let k = spec_data_key(p.row as int, p.col as int) as i32;
    let m1 = ensure_cell(m, p.row as int, p.col as int);
    let r = refs_for(op, c1, c2);
    m1.insert(k, CellView { op_code: op, cell1: r.0, cell2: r.1, ..m1[k] })
}

/// Gives the cell at `p` (a default cell first, if none is stored) formula
/// `op` over `c1` and `c2`; its content and dependents stay.
fn set_formula(sheet: &mut Sheet, p: CellInfo, op: OpCode, c1: CellInfo, c2: CellInfo)
    requires
        old(sheet).wf(),
        crate::calculate_functions::is_range_op(op) ==> old(sheet).rect_fits(
            c1.row as int,
            c1.col as int,
            c2.row as int,
            c2.col as int,
        ),
    ensures
        final(sheet).wf(),
        final(sheet).cells() == formula_set(old(sheet).cells(), p, op, c1, c2),
        final(sheet).data@.dom() == old(sheet).data@.dom().insert(
            spec_data_key(p.row as int, p.col as int) as i32,
        ),
        final(sheet).rows == old(sheet).rows,
        final(sheet).cols == old(sheet).cols,
        final(sheet).buul == old(sheet).buul,
        final(sheet).tuup == old(sheet).tuup,
{
    let ghost s0 = *sheet;
    let ghost k = spec_data_key(p.row as int, p.col as int) as i32;
    let c = get_or_create_cell(sheet, p.row as i32, p.col as i32);
    c.op_code = op;
    match op {
        OpCode::NoConstraint | OpCode::String => {
            c.cell1 = CellInfo { row: -1, col: -1 };
            c.cell2 = CellInfo { row: -1, col: -1 };
        },
        OpCode::CellEqualsCell | OpCode::Sleep => {
            c.cell1 = c1;
            c.cell2 = CellInfo { row: -1, col: -1 };
        },
        _ => {
            c.cell1 = c1;
            c.cell2 = c2;
        },
    }
    proof {
        assert(sheet.cells() =~= formula_set(s0.cells(), p, op, c1, c2));
        assert(sheet.data@.dom() =~= s0.data@.dom().insert(k));
        assert forall|q: i32, e: i32|
            #![trigger sheet.data@[q].dependencies@.contains(e)]
            sheet.data@.contains_key(q) && sheet.data@[q].dependencies@.contains(e) implies sheet.valid_node(
            e as int,
        ) && sheet.data@.contains_key(spec_data_key(e as int % 1000, e as int / 1000) as i32) by {
            if s0.data@.contains_key(q) {
                assert(s0.data@[q].dependencies@.contains(e));
            }
        }
        assert forall|q: i32|
            #![trigger sheet.data@[q]]
            sheet.data@.contains_key(q) && crate::calculate_functions::is_range_op(sheet.data@[q].op_code)
                implies sheet.range_refs_ok(sheet.data@[q].cell1, sheet.data@[q].cell2) by {
            if q != k {
                assert(s0.data@[q] == sheet.data@[q]);
            }
        }
        assert forall|q: i64, t: int|
            #![trigger sheet.tuup@[q].targets@[t]]
            sheet.tuup@.contains_key(q) && 0 <= t < sheet.tuup@[q].targets@.len() implies {
                let e = sheet.tuup@[q].targets@[t];
                sheet.valid_pos(e.1 as int, e.0 as int) && sheet.data@.contains_key(
                    spec_data_key(e.1 as int, e.0 as int) as i32,
                )
            } by {
            assert(s0.tuup@[q].targets@[t] == sheet.tuup@[q].targets@[t]);
        }
    }
}


/// `m` with `d` added to the dependents of the cell at `p` (a default cell
/// first, if none is stored).
pub open spec fn with_dependent(m: Map<i32, CellView>, p: CellInfo, d: i32) -> Map<i32, CellView> {
    let k = spec_data_key(p.row as int, p.col as int) as i32;
    let m1 = ensure_cell(m, p.row as int, p.col as int);
    m1.insert(k, CellView { dependencies: m1[k].dependencies.insert(d), ..m1[k] })
}

/// Adds `d`, the key of a stored cell of the sheet, to the dependents of the
/// cell at `p` (storing a default cell there first, if none is stored).
pub(crate) fn add_dependent(sheet: &mut Sheet, p: CellInfo, d: i32)
    requires
        old(sheet).wf(),
        old(sheet).node_stored(d as int),
    ensures
        final(sheet).wf(),
        final(sheet).cells() == with_dependent(old(sheet).cells(), p, d),
        final(sheet).data@.dom() == old(sheet).data@.dom().insert(
            spec_data_key(p.row as int, p.col as int) as i32,
        ),
        final(sheet).rows == old(sheet).rows,
        final(sheet).cols == old(sheet).cols,
        final(sheet).buul == old(sheet).buul,
        final(sheet).tuup == old(sheet).tuup,
{
    let ghost s0 = *sheet;
    let ghost k = spec_data_key(p.row as int, p.col as int) as i32;
    let c = get_or_create_cell(sheet, p.row as i32, p.col as i32);
    c.dependencies.insert(d);
    proof {
        assert(sheet.cells() =~= with_dependent(s0.cells(), p, d));
        assert(sheet.data@.dom() =~= s0.data@.dom().insert(k));
        assert forall|q: i32, e: i32|
            #![trigger sheet.data@[q].dependencies@.contains(e)]
            sheet.data@.contains_key(q) && sheet.data@[q].dependencies@.contains(e) implies sheet.valid_node(
            e as int,
        ) && sheet.data@.contains_key(spec_data_key(e as int % 1000, e as int / 1000) as i32) by {
            if s0.data@.contains_key(q) && e != d {
                assert(s0.data@[q].dependencies@.contains(e));
            }
        }
        assert forall|q: i32|
            #![trigger sheet.data@[q]]
            sheet.data@.contains_key(q) && crate::calculate_functions::is_range_op(sheet.data@[q].op_code)
                implies sheet.range_refs_ok(sheet.data@[q].cell1, sheet.data@[q].cell2) by {
            if s0.data@.contains_key(q) {
                assert(s0.data@[q].op_code == sheet.data@[q].op_code);
            }
        }
        assert forall|q: i64, t: int|
            #![trigger sheet.tuup@[q].targets@[t]]
            sheet.tuup@.contains_key(q) && 0 <= t < sheet.tuup@[q].targets@.len() implies {
                let e = sheet.tuup@[q].targets@[t];
                sheet.valid_pos(e.1 as int, e.0 as int) && sheet.data@.contains_key(
                    spec_data_key(e.1 as int, e.0 as int) as i32,
                )
            } by {
            assert(s0.tuup@[q].targets@[t] == sheet.tuup@[q].targets@[t]);
        }
    }
}

/// `new` is `old` with target `t` appended to the entry under `rk`, or with
/// a new entry for the rectangle `c1 ..= c2` holding only `t`.
pub open spec fn target_added(
    old: Map<i64, RangeTargets>,
    new: Map<i64, RangeTargets>,
    rk: i64,
    t: (i16, i16),
    c1: CellInfo,
    c2: CellInfo,
) -> bool {
    &&& new.dom() == old.dom().insert(rk)
    &&& forall|q: i64| #[trigger] new.contains_key(q) && q != rk ==> new[q] == old[q]
    &&& if old.contains_key(rk) {
        &&& new[rk].start_col == old[rk].start_col
        &&& new[rk].start_row == old[rk].start_row
        &&& new[rk].end_col == old[rk].end_col
        &&& new[rk].end_row == old[rk].end_row
        &&& new[rk].targets@ == old[rk].targets@.push(t)
    } else {
        &&& new[rk].start_col == c1.col
        &&& new[rk].start_row == c1.row
        &&& new[rk].end_col == c2.col
        &&& new[rk].end_row == c2.row
        &&& new[rk].targets@ == seq![t]
    }
}

/// Records the cell `t = (col, row)` as a target of the range formulas over
/// the rectangle `c1 ..= c2`.
fn add_target(sheet: &mut Sheet, c1: CellInfo, c2: CellInfo, t: (i16, i16))
    requires
        old(sheet).wf(),
        old(sheet).rect_fits(c1.row as int, c1.col as int, c2.row as int, c2.col as int),
        old(sheet).valid_pos(t.1 as int, t.0 as int),
        old(sheet).data@.contains_key(spec_data_key(t.1 as int, t.0 as int) as i32),
    ensures
        final(sheet).wf(),
        target_added(
            old(sheet).tuup@,
            final(sheet).tuup@,
            spec_range_key(c1.col as int, c1.row as int, c2.col as int, c2.row as int) as i64,
            t,
            c1,
            c2,
        ),
        final(sheet).data == old(sheet).data,
        final(sheet).rows == old(sheet).rows,
        final(sheet).cols == old(sheet).cols,
        final(sheet).buul == old(sheet).buul,
{
    let ghost s0 = *sheet;
    let rk = range_key(c1.col, c1.row, c2.col, c2.row);
    let entry = match sheet.tuup.get(&rk) {
        Some(e) => {
            let mut targets: Vec<(i16, i16)> = Vec::new();
            let mut i: usize = 0;
            while i < e.targets.len()
                invariant
                    0 <= i <= e.targets@.len(),
                    targets@ == e.targets@.take(i as int),
                decreases e.targets@.len() - i,
            {
                proof {
                    assert(e.targets@.take(i + 1) =~= e.targets@.take(i as int).push(e.targets@[i as int]));
                }
                targets.push(e.targets[i]);
                i = i + 1;
            }
            proof {
                assert(e.targets@.take(e.targets@.len() as int) =~= e.targets@);
            }
            targets.push(t);
            RangeTargets {
                start_col: e.start_col,
                start_row: e.start_row,
                end_col: e.end_col,
                end_row: e.end_row,
                targets,
            }
        },
        None => {
            let mut targets: Vec<(i16, i16)> = Vec::new();
            targets.push(t);
            RangeTargets {
                start_col: c1.col,
                start_row: c1.row,
                end_col: c2.col,
                end_row: c2.row,
                targets,
            }
        },
    };
    sheet.tuup.insert(rk, entry);
    proof {
        assert(sheet.tuup@.dom() =~= s0.tuup@.dom().insert(rk));
        if s0.tuup@.contains_key(rk) {
            assert(s0.tuup@[rk].targets@.push(t) =~= sheet.tuup@[rk].targets@);
        } else {
            assert(seq![t] =~= sheet.tuup@[rk].targets@);
        }
        assert forall|q: i64| #[trigger] sheet.tuup@.contains_key(q) implies {
            let e = sheet.tuup@[q];
            &&& q == spec_range_key(
                e.start_col as int,
                e.start_row as int,
                e.end_col as int,
                e.end_row as int,
            )
            &&& sheet.rect_fits(
                e.start_row as int,
                e.start_col as int,
                e.end_row as int,
                e.end_col as int,
            )
        } by {
            if q != rk {
                assert(s0.tuup@.contains_key(q));
            } else if s0.tuup@.contains_key(rk) {
                assert(s0.tuup@.contains_key(q));
            }
        }
        assert forall|q: i64, j: int|
            #![trigger sheet.tuup@[q].targets@[j]]
            sheet.tuup@.contains_key(q) && 0 <= j < sheet.tuup@[q].targets@.len() implies {
                let e = sheet.tuup@[q].targets@[j];
                sheet.valid_pos(e.1 as int, e.0 as int) && sheet.data@.contains_key(
                    spec_data_key(e.1 as int, e.0 as int) as i32,
                )
            } by {
            if q != rk {
                assert(s0.tuup@[q].targets@[j] == sheet.tuup@[q].targets@[j]);
            } else if s0.tuup@.contains_key(rk) && j < s0.tuup@[rk].targets@.len() {
                assert(s0.tuup@[q].targets@[j] == sheet.tuup@[q].targets@[j]);
            }
        }
    }
}


/// The constant of a formula over a cell and a constant, as it is stored in
/// `cell2` and first read back: `row << 16 | (col & 0xFFFF)`.
pub open spec fn entry_constant(c2: CellInfo) -> i32 {
    ((c2.row as i32) << 16u32) | ((c2.col as i32) & 0xFFFFi32)
}

/// The first evaluation of formula `op` at `p` on content `m` (where the
/// formula has just been set): whether the cell is in error, the number it
/// gets, and the string it gets (CELL = CELL reading a string). `bad` tells
/// whether a range holds a cell in error or holding a string, and `range_v`
/// is the value computed for a range formula.
pub open spec fn first_outcome(
    m: Map<i32, CellView>,
    p: CellInfo,
    op: OpCode,
    c1: CellInfo,
    c2: CellInfo,
    bad: bool,
    range_v: i32,
) -> (bool, i32, Seq<char>) {
    let c = m[spec_data_key(p.row as int, p.col as int) as i32];
    let a = view_at(m, c1.row as int, c1.col as int);
    let b = view_at(m, c2.row as int, c2.col as int);
    if op is NoConstraint || op is String {
        (c.is_error, c.value, Seq::empty())
    } else if op is CellEqualsCell {
        if a.is_error {
            (true, 0, Seq::empty())
        } else {
            match a.string {
                Some(t) => (false, 0, t),
                None => (false, a.value, Seq::empty()),
            }
        }
    } else if op is Sleep {
        let e = a.is_error || a.string is Some;
        (e, if e { 0 } else { a.value }, Seq::empty())
    } else if is_cell_constant_op(op) {
        if a.is_error || a.string is Some {
            (true, 0, Seq::empty())
        } else {
            let (v, e) = crate::calculate_functions::spec_compute_cell(op, a.value, entry_constant(c2));
            (e, v, Seq::empty())
        }
    } else if is_cell_cell_op(op) {
        if a.is_error || b.is_error || a.string is Some || b.string is Some {
            (true, 0, Seq::empty())
        } else {
            let (v, e) = crate::calculate_functions::spec_compute_cell(op, a.value, b.value);
            (e, v, Seq::empty())
        }
    } else {
        (bad, range_v, Seq::empty())
    }
}

/// Cell `c` after writing the outcome `out` of its formula `op`: the error
/// flag; unless in error (or a string cell), the number and no string; for
/// CELL = CELL a non-empty string read is taken as the cell's string.
pub open spec fn first_written(c: CellView, op: OpCode, out: (bool, i32, Seq<char>)) -> CellView {
    let c1 = CellView { is_error: out.0, ..c };
    let c2 = if !out.0 && !(op is String) {
        CellView { value: out.1, string: None, ..c1 }
    } else {
        c1
    };
    if op is CellEqualsCell && out.2.len() > 0 {
        CellView { string: Some(out.2), ..c2 }
    } else {
        c2
    }
}

/// Content `m` after the cell at `p`, with formula `op`, is registered as a
/// dependent of the cells its formula reads one by one (each stored as a
/// default cell first if absent).
pub open spec fn registered(m: Map<i32, CellView>, p: CellInfo, op: OpCode, c1: CellInfo, c2: CellInfo) -> Map<i32, CellView> {
    let d = dep_key(p.row as int, p.col as int) as i32;
    if op is NoConstraint || op is String || crate::calculate_functions::is_range_op(op) {
        m
    } else if is_cell_cell_op(op) {
        with_dependent(
            with_dependent(
                ensure_cell(ensure_cell(m, c1.row as int, c1.col as int), c2.row as int, c2.col as int),
                c1,
                d,
            ),
            c2,
            d,
        )
    } else {
        with_dependent(m, c1, d)
    }
}

/// The content right after a new formula is set at `p`, starting from the
/// content `m` left by removing the old formula's dependencies: the formula
/// is set, the cell registered with what it reads, and its first outcome
/// written.
pub open spec fn constraint_cells(
    m: Map<i32, CellView>,
    p: CellInfo,
    op: OpCode,
    c1: CellInfo,
    c2: CellInfo,
    bad: bool,
    range_v: i32,
) -> Map<i32, CellView> {
    let k = spec_data_key(p.row as int, p.col as int) as i32;
    let m2 = formula_set(m, p, op, c1, c2);
    registered(m2, p, op, c1, c2).insert(
        k,
        first_written(m2[k], op, first_outcome(m2, p, op, c1, c2, bad, range_v)),
    )
}

/// Whether `q` is the data key of a cell that depends, directly or
/// transitively, on the cell with dependency key `root` in sheet `s`.
pub open spec fn dependent_key(s: Sheet, root: int, q: i32) -> bool {
    exists|v: int|
        #[trigger] s.reachable(root, v) && v != root && q == spec_data_key(v % 1000, v / 1000) as i32
}

/// Content `fin` differs from `mid` only by recalculation of dependents of
/// `root` (in `s`): every stored cell stays stored with its formula and
/// dependents; only dependents change content; newly stored cells are
/// default cells.
pub open spec fn recalculated_only(s: Sheet, root: int, mid: Map<i32, CellView>, fin: Map<i32, CellView>) -> bool {
    &&& forall|q: i32| #[trigger] mid.contains_key(q) ==> fin.contains_key(q)
    &&& forall|q: i32|
        #[trigger] fin.contains_key(q) ==> if mid.contains_key(q) {
            &&& fin[q].op_code == mid[q].op_code
            &&& fin[q].cell1 == mid[q].cell1
            &&& fin[q].cell2 == mid[q].cell2
            &&& fin[q].dependencies == mid[q].dependencies
            &&& (fin[q] == mid[q] || dependent_key(s, root, q))
        } else {
            fin[q] == default_cell()
        }
}

/// Whether no other cell depends, directly or transitively, on the cell at
/// `p` in `s`.
pub open spec fn no_dependents(s: Sheet, p: CellInfo) -> bool {
    forall|v: int|
        #[trigger] s.reachable(dep_key(p.row as int, p.col as int), v) ==> v == dep_key(p.row as int, p.col as int)
}

/// Sleep timer `t` after a SLEEP over the cell at `c1` of `m` adds the value
/// it reads (nothing when that cell is in error or holds a string).
pub open spec fn sleep_added(m: Map<i32, CellView>, c1: CellInfo, t: i32) -> i32 {
    let a = view_at(m, c1.row as int, c1.col as int);
    if a.is_error || a.string is Some {
        t
    } else {
        crate::calculate_functions::wrap_i32(t + a.value)
    }
}

/// A recalculation that passes over only `root` keeps the sleep timer.
proof fn lemma_root_only_timer(states: Seq<Map<i32, CellView>>, timers: Seq<i32>, order: Seq<i32>, root: int, j: int)
    requires
        recalc_chain(states, timers, order, root),
        forall|i: int| 0 <= i < order.len() ==> #[trigger] order[i] == root,
        0 <= j <= order.len(),
    ensures
        timers[j] == timers[0],
    decreases j,
{
    if j > 0 {
        lemma_root_only_timer(states, timers, order, root, j - 1);
        assert(order[j - 1] == root);
    }
}

/// A recalculation in an order that holds only `root` and cells reached
/// from it, when no other cell is reached from it, keeps the sleep timer.
proof fn lemma_root_only_recalc(
    s: Sheet,
    order: Seq<i32>,
    m: Map<i32, CellView>,
    fin: Map<i32, CellView>,
    root: int,
    t0: i32,
    t1: i32,
)
    requires
        recalculated_in_order(m, fin, order, root, t0, t1),
        forall|i: int| 0 <= i < order.len() ==> #[trigger] order[i] == root || s.reachable(root, order[i] as int),
        forall|v: int| #[trigger] s.reachable(root, v) ==> v == root,
    ensures
        t1 == t0,
{
    let (states, timers) = choose|states: Seq<Map<i32, CellView>>, timers: Seq<i32>|
        (#[trigger] recalc_chain(states, timers, order, root)) && states[0] == m && states.last() == fin
            && timers[0] == t0 && timers.last() == t1;
    assert forall|i: int| 0 <= i < order.len() implies #[trigger] order[i] == root by {
        assert(order[i] == root || s.reachable(root, order[i] as int));
    }
    lemma_root_only_timer(states, timers, order, root, order.len() as int);
}

/// Setting a formula at `p` (after removing the old one's dependencies)
/// leaves the content of another cell `c1` as it was.
proof fn lemma_sleep_operand_kept(
    s0: Sheet,
    b: Seq<Vec<bool>>,
    r: Sheet,
    m2: Map<i32, CellView>,
    p: CellInfo,
    c1: CellInfo,
    c2: CellInfo,
    op: OpCode,
)
    requires
        removal_post(s0, b, r, p),
        m2 == formula_set(r.cells(), p, op, c1, c2),
        c1.row != p.row || c1.col != p.col,
    ensures
        view_at(m2, c1.row as int, c1.col as int).value == view_at(s0.cells(), c1.row as int, c1.col as int).value,
        view_at(m2, c1.row as int, c1.col as int).is_error == view_at(
            s0.cells(),
            c1.row as int,
            c1.col as int,
        ).is_error,
        view_at(m2, c1.row as int, c1.col as int).string == view_at(
            s0.cells(),
            c1.row as int,
            c1.col as int,
        ).string,
{
    lemma_data_key_injective(c1.row as int, c1.col as int, p.row as int, p.col as int);
}

/// A sheet with the marks, range entries and size of `s1`, in which every
/// stored cell keeps its dependents and cells stored anew have none, has no
/// dependents of `p` when `s1` has none.
pub(crate) proof fn lemma_no_dependents_kept(s1: Sheet, s2: Sheet, p: CellInfo)
    requires
        no_dependents(s1, p),
        s2.rows == s1.rows,
        s2.cols == s1.cols,
        s2.buul == s1.buul,
        s2.tuup == s1.tuup,
        forall|q: i32|
            #![trigger s2.data@[q]]
            s1.data@.contains_key(q) ==> s2.data@.contains_key(q) && s2.data@[q].dependencies@
                == s1.data@[q].dependencies@,
        forall|q: i32|
            #![trigger s2.data@[q]]
            s2.data@.contains_key(q) && !s1.data@.contains_key(q) ==> s2.data@[q].dependencies@ == Set::<
                i32,
            >::empty(),
    ensures
        no_dependents(s2, p),
{
    assert forall|u: int, w: int| #![trigger s2.edge(u, w)] s2.edge(u, w) == s1.edge(u, w) by {
        let q = spec_data_key(u % 1000, u / 1000) as i32;
        if s1.data@.contains_key(q) {
            assert(s2.data@[q].dependencies@ == s1.data@[q].dependencies@);
        } else if s2.data@.contains_key(q) {
            assert(s2.data@[q].dependencies@ == Set::<i32>::empty());
        }
        assert(s2.cell_at(u % 1000, u / 1000).dependencies == s1.cell_at(u % 1000, u / 1000).dependencies);
    }
    let root = dep_key(p.row as int, p.col as int);
    assert forall|v: int| #[trigger] s2.reachable(root, v) implies v == root by {
        let n = choose|n: nat| s2.reach(root, v, n);
        lemma_reach_eq(s1, s2, root, v, n);
        assert(s1.reachable(root, v));
    }
}

/// Whether setting formula `op` over `c1` (and `c2`) at `p` would make a
/// cell depend on itself: a cell it reads is `p` or depends on `p`.
pub open spec fn creates_cycle(s: Sheet, p: CellInfo, c1: CellInfo, c2: CellInfo, op: OpCode) -> bool {
    let root = dep_key(p.row as int, p.col as int);
    if op is NoConstraint || op is String {
        false
    } else if crate::calculate_functions::is_range_op(op) {
        exists|v: int| #[trigger] s.reachable(root, v) && key_in_rect(v, c1, c2)
    } else if is_cell_cell_op(op) {
        ||| s.reachable(root, dep_key(c1.row as int, c1.col as int))
        ||| (!(c2.col == -1 && c2.row == -1) && s.reachable(root, dep_key(c2.row as int, c2.col as int)))
    } else {
        s.reachable(root, dep_key(c1.row as int, c1.col as int))
    }
}

/// What `add_constraints` does to sheet `s` when it accepts the formula,
/// giving `t`: with `b` the marks after a range formula marks its rectangle
/// and `r` the sheet after the cell's old dependencies are removed, the new
/// formula is set and registered (a range formula's cell becomes a target of
/// its rectangle), its first outcome written, and then only dependents of
/// the cell are recalculated.
pub open spec fn constraint_added(s: Sheet, t: Sheet, p: CellInfo, c1: CellInfo, c2: CellInfo, op: OpCode) -> bool {
    exists|r: Sheet, b: Seq<Vec<bool>>, t0: i32, t1: i32|
        #[trigger] constraint_witness(s, t, p, c1, c2, op, r, b, t0, t1)
}

/// `r` (the sheet right after the old formula's dependencies were removed,
/// starting from marks `b`) and the sleep timers `t0` and `t1` (before and
/// after the dependents were recalculated) show that `t` is `s` after
/// formula `op` over `c1` (and `c2`) was set at `p` (see
/// `constraint_added`).
pub open spec fn constraint_witness(
    s: Sheet,
    t: Sheet,
    p: CellInfo,
    c1: CellInfo,
    c2: CellInfo,
    op: OpCode,
    r: Sheet,
    b: Seq<Vec<bool>>,
    t0: i32,
    t1: i32,
) -> bool {
    let k = spec_data_key(p.row as int, p.col as int) as i32;
    let root = dep_key(p.row as int, p.col as int);
    let is_range = crate::calculate_functions::is_range_op(op);
    let bad = is_range && range_has_bad(s.cells(), c1, c2);
    let cc = constraint_cells(r.cells(), p, op, c1, c2, bad, t.cells()[k].value);
    &&& (if is_range {
        marks_set(s.buul@, b, c1, c2)
    } else {
        b == s.buul@
    })
    &&& removal_post(s, b, r, p)
    &&& t.rows == s.rows
    &&& t.cols == s.cols
    &&& t.buul@ == r.buul@
    &&& (if is_range {
        target_added(
            r.tuup@,
            t.tuup@,
            spec_range_key(c1.col as int, c1.row as int, c2.col as int, c2.row as int) as i64,
            (p.col, p.row),
            c1,
            c2,
        )
    } else {
        t.tuup@ == r.tuup@
    })
    &&& (is_range && !bad) ==> range_value(formula_set(r.cells(), p, op, c1, c2), op, c1, c2, t.cells()[k].value)
    &&& t.cells().contains_key(k)
    &&& t.cells()[k] == cc[k]
    &&& recalculated_only(s, root, cc, t.cells())
    &&& dependents_recalculated(s, root, cc, t.cells(), t0, t1)
}


/// Writes the first outcome `(err, ans, text)` of formula `op` into the
/// stored cell under `k`.
fn write_first(sheet: &mut Sheet, k: i32, op: OpCode, err: bool, ans: i32, text: String)
    requires
        old(sheet).wf(),
        old(sheet).data@.contains_key(k),
    ensures
        final(sheet).wf(),
        final(sheet).cells() == old(sheet).cells().insert(
            k,
            first_written(old(sheet).cells()[k], op, (err, ans, text@)),
        ),
        final(sheet).data@.dom() == old(sheet).data@.dom(),
        final(sheet).rows == old(sheet).rows,
        final(sheet).cols == old(sheet).cols,
        final(sheet).buul == old(sheet).buul,
        final(sheet).tuup == old(sheet).tuup,
{
    let ghost s0 = *sheet;
    let c = stored_cell_mut(sheet, k);
    c.is_error = err;
    if !c.is_error && op != OpCode::String {
        c.value = ans;
        c.string = None;
    }
    if op == OpCode::CellEqualsCell && !text.as_str().is_empty() {
        c.string = Some(text);
    }
    proof {
        assert(sheet.cells() =~= s0.cells().insert(
            k,
            first_written(s0.cells()[k], op, (err, ans, text@)),
        ));
        assert(sheet.data@.dom() =~= s0.data@.dom());
        assert forall|q: i32, e: i32|
            #![trigger sheet.data@[q].dependencies@.contains(e)]
            sheet.data@.contains_key(q) && sheet.data@[q].dependencies@.contains(e) implies sheet.valid_node(
            e as int,
        ) && sheet.data@.contains_key(spec_data_key(e as int % 1000, e as int / 1000) as i32) by {
            assert(s0.data@[q].dependencies@.contains(e));
        }
        assert forall|q: i32|
            #![trigger sheet.data@[q]]
            sheet.data@.contains_key(q) && crate::calculate_functions::is_range_op(sheet.data@[q].op_code)
                implies sheet.range_refs_ok(sheet.data@[q].cell1, sheet.data@[q].cell2) by {
            assert(s0.data@[q].op_code == sheet.data@[q].op_code);
        }
        assert forall|q: i64, t: int|
            #![trigger sheet.tuup@[q].targets@[t]]
            sheet.tuup@.contains_key(q) && 0 <= t < sheet.tuup@[q].targets@.len() implies {
                let e = sheet.tuup@[q].targets@[t];
                sheet.valid_pos(e.1 as int, e.0 as int) && sheet.data@.contains_key(
                    spec_data_key(e.1 as int, e.0 as int) as i32,
                )
            } by {
            assert(s0.tuup@[q].targets@[t] == sheet.tuup@[q].targets@[t]);
        }
    }
}

/// A cell reached from a valid cell by at least one dependency step is a
/// stored cell inside the sheet.
proof fn lemma_reach_stored(s: Sheet, u: int, v: int, n: nat)
    requires
        s.wf(),
        s.valid_node(u),
        s.reach(u, v, n),
        u != v,
    ensures
        s.node_stored(v),
    decreases n,
{
    let w = choose|w: int| #[trigger] s.edge(u, w) && s.reach(w, v, (n - 1) as nat);
    lemma_edge_valid(s, u, w);
    if w != v {
        lemma_reach_stored(s, w, v, (n - 1) as nat);
    }
}

/// Distinct positions have distinct data keys, and every data key fits an
/// `i32`.
proof fn lemma_data_key_injective(r1: int, c1: int, r2: int, c2: int)
    requires
        i16::MIN <= r1 <= i16::MAX,
        i16::MIN <= c1 <= i16::MAX,
        i16::MIN <= r2 <= i16::MAX,
        i16::MIN <= c2 <= i16::MAX,
    ensures
        i32::MIN <= spec_data_key(r1, c1) <= i32::MAX,
        (spec_data_key(r1, c1) as i32 == spec_data_key(r2, c2) as i32) ==> (r1 == r2 && c1 == c2),
{
}

/// Recalculating one cell leaves every other stored cell as it was.
proof fn lemma_recalc_frame(s: Sheet, row: int, col: int, cells: Map<i32, CellView>, t0: i32, t1: i32)
    requires
        recalc_post(s, row, col, cells, t0, t1),
        s.cells().contains_key(spec_data_key(row, col) as i32),
    ensures
        forall|q: i32|
            q != spec_data_key(row, col) as i32 && #[trigger] s.cells().contains_key(q) ==> cells.contains_key(q)
                && cells[q] == s.cells()[q],
{
}

/// Recalculates, in the order of `sorted`, every cell listed there but the
/// cell at `p` itself.
fn recalculate_dependents(
    sheet: &mut Sheet,
    sorted: &Vec<i32>,
    p: CellInfo,
    sleep_timer: &mut i32,
    Ghost(s0): Ghost<Sheet>,
)
    requires
        old(sheet).wf(),
        s0.wf(),
        s0.valid_pos(p.row as int, p.col as int),
        old(sheet).data@.contains_key(spec_data_key(p.row as int, p.col as int) as i32),
        forall|q: i32| s0.data@.contains_key(q) ==> old(sheet).data@.contains_key(q),
        old(sheet).rows == s0.rows,
        old(sheet).cols == s0.cols,
        forall|i: int|
            0 <= i < sorted@.len() ==> s0.valid_node((#[trigger] sorted@[i]) as int) && (sorted@[i]
                == dep_key(p.row as int, p.col as int) || s0.reachable(
                dep_key(p.row as int, p.col as int),
                sorted@[i] as int,
            )),
    ensures
        final(sheet).wf(),
        recalculated_only(s0, dep_key(p.row as int, p.col as int), old(sheet).cells(), final(sheet).cells()),
        final(sheet).cells()[spec_data_key(p.row as int, p.col as int) as i32] == old(sheet).cells()[spec_data_key(
            p.row as int,
            p.col as int,
        ) as i32],
        final(sheet).rows == old(sheet).rows,
        final(sheet).cols == old(sheet).cols,
        final(sheet).buul == old(sheet).buul,
        final(sheet).tuup == old(sheet).tuup,
        old(sheet).settled() ==> final(sheet).settled(),
        dependents_recalculated(
            s0,
            dep_key(p.row as int, p.col as int),
            old(sheet).cells(),
            final(sheet).cells(),
            *old(sleep_timer),
            *final(sleep_timer),
        ),
        recalculated_in_order(
            old(sheet).cells(),
            final(sheet).cells(),
            sorted@,
            dep_key(p.row as int, p.col as int),
            *old(sleep_timer),
            *final(sleep_timer),
        ),
{
    let ghost root = dep_key(p.row as int, p.col as int);
    let ghost t_start = *sleep_timer;
    let ghost mut states: Seq<Map<i32, CellView>> = seq![sheet.cells()];
    let ghost mut timers: Seq<i32> = seq![*sleep_timer];
    let ghost k = spec_data_key(p.row as int, p.col as int) as i32;
    let ghost start = sheet.cells();
    proof {
        lemma_dep_key_decode(p.row as int, p.col as int);
        assert(start.dom() =~= old(sheet).data@.dom());
    }
    let mut idx: usize = 0;
    while idx < sorted.len()
        invariant
            sheet.wf(),
            s0.wf(),
            s0.valid_pos(p.row as int, p.col as int),
            root == dep_key(p.row as int, p.col as int),
            root % 1000 == p.row,
            root / 1000 == p.col,
            k == spec_data_key(p.row as int, p.col as int) as i32,
            start == old(sheet).cells(),
            start.contains_key(k),
            forall|q: i32| s0.data@.contains_key(q) ==> start.contains_key(q),
            forall|q: i32| #[trigger] start.contains_key(q) ==> sheet.data@.contains_key(q),
            sheet.rows == s0.rows,
            sheet.cols == s0.cols,
            sheet.rows == old(sheet).rows,
            sheet.cols == old(sheet).cols,
            sheet.buul == old(sheet).buul,
            sheet.tuup == old(sheet).tuup,
            forall|i: int|
                0 <= i < sorted@.len() ==> s0.valid_node((#[trigger] sorted@[i]) as int) && (sorted@[i]
                    == root || s0.reachable(root, sorted@[i] as int)),
            recalculated_only(s0, root, start, sheet.cells()),
            sheet.cells()[k] == start[k],
            old(sheet).settled() ==> sheet.settled(),
            0 <= idx <= sorted@.len(),
            recalc_chain(states, timers, sorted@.take(idx as int), root),
            states[0] == start,
            states.last() == sheet.cells(),
            timers[0] == t_start,
            timers.last() == *sleep_timer,
        decreases sorted@.len() - idx,
    {
        let node = sorted[idx];
        let row = node % 1000;
        let col = node / 1000;
        let ghost states_before = states;
        let ghost timers_before = timers;
        proof {
            assert(node >= 0) by {
                assert(s0.valid_node(sorted@[idx as int] as int));
            }
        }
        if !(row == p.row as i32 && col == p.col as i32) {
            let ghost cur = *sheet;
            let ghost t_before = *sleep_timer;
            let ghost kn = spec_data_key(row as int, col as int) as i32;
            proof {
                assert(s0.valid_node(node as int));
                assert(node != root) by {
                    if node == root {
                        assert(row == p.row && col == p.col);
                    }
                }
                assert(s0.reachable(root, node as int));
                let n = choose|n: nat| s0.reach(root, node as int, n);
                lemma_reach_stored(s0, root, node as int, n);
                assert(s0.data@.contains_key(kn));
                assert(start.contains_key(kn));
                assert(sheet.data@.contains_key(kn));
                lemma_data_key_injective(row as int, col as int, p.row as int, p.col as int);
                assert(kn != k);
                assert(cur.cells().dom() =~= cur.data@.dom());
            }
            recalculate(sheet, row as usize, col as usize, sleep_timer);
            proof {
                assert(row as usize as i16 == row && col as usize as i16 == col);
                lemma_recalc_frame(
                    cur,
                    row as int,
                    col as int,
                    sheet.cells(),
                    t_before,
                    *sleep_timer,
                );
                assert(sheet.cells().dom() =~= sheet.data@.dom());
                assert forall|q: i32| #[trigger] start.contains_key(q) implies sheet.cells().contains_key(q) by {
                    assert(cur.data@.contains_key(q));
                }
                assert forall|q: i32| #[trigger] sheet.cells().contains_key(q) implies if start.contains_key(q) {
                    &&& sheet.cells()[q].op_code == start[q].op_code
                    &&& sheet.cells()[q].cell1 == start[q].cell1
                    &&& sheet.cells()[q].cell2 == start[q].cell2
                    &&& sheet.cells()[q].dependencies == start[q].dependencies
                    &&& (sheet.cells()[q] == start[q] || dependent_key(s0, root, q))
                } else {
                    sheet.cells()[q] == default_cell()
                } by {
                    assert(sheet.data@.contains_key(q));
                    assert(sheet.cells()[q] == sheet.data@[q]@);
                    if cur.data@.contains_key(q) {
                        assert(cur.cells().contains_key(q));
                        assert(cur.cells()[q] == cur.data@[q]@);
                        if q == kn {
                            assert(s0.reachable(root, node as int));
                            assert(dependent_key(s0, root, q));
                        }
                    }
                }
                if old(sheet).settled() {
                    assert forall|q: i32|
                        #![trigger sheet.data@[q]]
                        sheet.data@.contains_key(q) && crate::calculate_functions::is_range_op(
                            sheet.data@[q].op_code,
                        ) implies sheet.rect_fits(
                        sheet.data@[q].cell1.row as int,
                        sheet.data@[q].cell1.col as int,
                        sheet.data@[q].cell2.row as int,
                        sheet.data@[q].cell2.col as int,
                    ) by {
                        if cur.data@.contains_key(q) {
                            assert(cur.data@[q].op_code == sheet.data@[q].op_code);
                        }
                    }
                }
            }
        }
        proof {
            let o = sorted@.take(idx as int);
            let o2 = sorted@.take(idx + 1);
            assert(o2 =~= o.push(node));
            if row == p.row as i32 && col == p.col as i32 {
                assert(node as int == root);
                states = states.push(sheet.cells());
                timers = timers.push(*sleep_timer);
            } else {
                assert(node as int != root);
                states = states.push(sheet.cells());
                timers = timers.push(*sleep_timer);
            }
            assert forall|i: int| #![trigger o2[i]] 0 <= i < o2.len() implies if o2[i] == root {
                states[i + 1] == states[i] && timers[i + 1] == timers[i]
            } else {
                recalc_step(states[i], o2[i] as int % 1000, o2[i] as int / 1000, states[i + 1], timers[i], timers[i + 1])
            } by {
                if i < o.len() {
                    assert(o2[i] == o[i]);
                    assert(states[i] == states_before[i] && states[i + 1] == states_before[i + 1]);
                    assert(timers[i] == timers_before[i] && timers[i + 1] == timers_before[i + 1]);
                }
            }
        }
        idx = idx + 1;
    }
    proof {
        assert(sorted@.take(sorted@.len() as int) =~= sorted@);
        assert(recalc_chain(states, timers, sorted@, root));
        assert(recalculated_in_order(start, sheet.cells(), sorted@, root, t_start, *sleep_timer));
    }
}


/// Removing the dependencies of a cell leaves every other cell's formula
/// as it was.
pub(crate) proof fn lemma_removal_frame(s: Sheet, b: Seq<Vec<bool>>, t: Sheet, cell: CellInfo)
    requires
        removal_post(s, b, t, cell),
    ensures
        forall|q: i32|
            q != spec_data_key(cell.row as int, cell.col as int) as i32 ==> (#[trigger] t.cells().contains_key(q)
                <==> s.cells().contains_key(q)),
        forall|q: i32|
            q != spec_data_key(cell.row as int, cell.col as int) as i32 && #[trigger] t.cells().contains_key(q)
                ==> t.cells()[q].op_code == s.cells()[q].op_code && t.cells()[q].cell1 == s.cells()[q].cell1
                && t.cells()[q].cell2 == s.cells()[q].cell2,
        forall|q: i32|
            q != spec_data_key(cell.row as int, cell.col as int) as i32 && #[trigger] t.cells().contains_key(q)
                ==> t.cells()[q] == (CellView { dependencies: t.cells()[q].dependencies, ..s.cells()[q] }),
{
}

/// Prepares the cell at `curr` for formula `op` over `c1` and `c2`: a range
/// formula marks its rectangle (and tells whether the rectangle holds a cell
/// in error or holding a string), the old formula's dependencies are
/// removed, the new formula is set and a range formula's cell becomes a
/// target of its rectangle. Returns that flag, the sheet right after the
/// removal and the marks it started from.
fn install_formula(sheet: &mut Sheet, curr: CellInfo, c1: CellInfo, c2: CellInfo, op: OpCode) -> (res: (
    bool,
    Ghost<Sheet>,
    Ghost<Seq<Vec<bool>>>,
))
    requires
        old(sheet).wf(),
        old(sheet).valid_pos(curr.row as int, curr.col as int),
        removable(*old(sheet), curr),
        crate::calculate_functions::is_range_op(op) ==> old(sheet).rect_fits(
            c1.row as int,
            c1.col as int,
            c2.row as int,
            c2.col as int,
        ),
    ensures
        final(sheet).wf(),
        res.0 == (crate::calculate_functions::is_range_op(op) && range_has_bad(
            old(sheet).cells(),
            c1,
            c2,
        )),
        if crate::calculate_functions::is_range_op(op) {
            marks_set(old(sheet).buul@, res.2@, c1, c2)
        } else {
            res.2@ == old(sheet).buul@
        },
        removal_post(*old(sheet), res.2@, res.1@, curr),
        final(sheet).cells() == formula_set(res.1@.cells(), curr, op, c1, c2),
        final(sheet).buul@ == res.1@.buul@,
        if crate::calculate_functions::is_range_op(op) {
            target_added(
                res.1@.tuup@,
                final(sheet).tuup@,
                spec_range_key(c1.col as int, c1.row as int, c2.col as int, c2.row as int) as i64,
                (curr.col, curr.row),
                c1,
                c2,
            )
        } else {
            final(sheet).tuup@ == res.1@.tuup@
        },
        final(sheet).rows == old(sheet).rows,
        final(sheet).cols == old(sheet).cols,
        forall|q: i32| old(sheet).data@.contains_key(q) ==> final(sheet).data@.contains_key(q),
        final(sheet).data@.contains_key(spec_data_key(curr.row as int, curr.col as int) as i32),
        old(sheet).settled() ==> final(sheet).settled(),
        !crate::calculate_functions::is_range_op(op) && !(old(sheet).data@.contains_key(
            spec_data_key(curr.row as int, curr.col as int) as i32,
        ) && crate::calculate_functions::is_range_op(
            old(sheet).data@[spec_data_key(curr.row as int, curr.col as int) as i32].op_code,
        )) ==> final(sheet).tuup == old(sheet).tuup && final(sheet).buul == old(sheet).buul,
{
    let ghost s0 = *sheet;
    let is_range = match op {
        OpCode::Sum | OpCode::Min | OpCode::Max | OpCode::Avg | OpCode::Stdev => true,
        _ => false,
    };
    let mut bad = false;
    if is_range {
        mark_rect(sheet, c1, c2);
        bad = find_bad_in_range(sheet, c1, c2);
    }
    let ghost b = sheet.buul@;
    let ghost ps = *sheet;
    proof {
        assert(ps.cells() == s0.cells());
    }
    remove_dependency(&curr, sheet);
    let ghost r = *sheet;
    proof {
        assert(removal_post(s0, b, r, curr));
        assert(r.cells().dom() =~= r.data@.dom());
        assert(s0.cells().dom() =~= s0.data@.dom());
        assert forall|q: i32| s0.data@.contains_key(q) implies r.data@.contains_key(q) by {
            assert(s0.cells().contains_key(q));
        }
    }
    set_formula(sheet, curr, op, c1, c2);
    if is_range {
        add_target(sheet, c1, c2, (curr.col, curr.row));
    }
    proof {
        let kd = spec_data_key(curr.row as int, curr.col as int) as i32;
        if s0.settled() {
            lemma_removal_frame(s0, b, r, curr);
            assert forall|q: i32|
                #![trigger sheet.data@[q]]
                sheet.data@.contains_key(q) && crate::calculate_functions::is_range_op(sheet.data@[q].op_code)
                    implies sheet.rect_fits(
                    sheet.data@[q].cell1.row as int,
                    sheet.data@[q].cell1.col as int,
                    sheet.data@[q].cell2.row as int,
                    sheet.data@[q].cell2.col as int,
                ) by {
                assert(sheet.cells().contains_key(q));
                assert(sheet.cells()[q] == sheet.data@[q]@);
                if q != kd && r.cells().contains_key(q) {
                    assert(s0.cells().contains_key(q));
                    assert(s0.cells()[q] == s0.data@[q]@);
                }
            }
        }
    }
    (bad, Ghost(r), Ghost(b))
}

/// A sheet whose stored cells keep the formulas they had in a settled
/// sheet (or hold no range formula) is settled.
pub(crate) proof fn lemma_settled_kept(s0: Sheet, s1: Sheet)
    requires
        s0.settled(),
        s1.rows == s0.rows,
        s1.cols == s0.cols,
        forall|q: i32|
            #[trigger] s1.cells().contains_key(q) ==> (s0.cells().contains_key(q) && s1.cells()[q].op_code
                == s0.cells()[q].op_code && s1.cells()[q].cell1 == s0.cells()[q].cell1
                && s1.cells()[q].cell2 == s0.cells()[q].cell2) || !crate::calculate_functions::is_range_op(
                s1.cells()[q].op_code,
            ),
    ensures
        s1.settled(),
{
    assert forall|q: i32|
        #![trigger s1.data@[q]]
        s1.data@.contains_key(q) && crate::calculate_functions::is_range_op(s1.data@[q].op_code)
            implies s1.rect_fits(
            s1.data@[q].cell1.row as int,
            s1.data@[q].cell1.col as int,
            s1.data@[q].cell2.row as int,
            s1.data@[q].cell2.col as int,
        ) by {
        assert(s1.cells().contains_key(q));
        assert(s1.cells()[q] == s1.data@[q]@);
        if s0.cells().contains_key(q) {
            assert(s0.cells()[q] == s0.data@[q]@);
        }
    }
}

/// Registering a cell with what it reads and writing its outcome keeps
/// every formula; cells stored anew hold none.
proof fn lemma_registration_keeps_formulas(
    m: Map<i32, CellView>,
    p: CellInfo,
    op: OpCode,
    c1: CellInfo,
    c2: CellInfo,
    out: (bool, i32, Seq<char>),
)
    requires
        m.contains_key(spec_data_key(p.row as int, p.col as int) as i32),
    ensures
        ({
            let k = spec_data_key(p.row as int, p.col as int) as i32;
            let r = registered(m, p, op, c1, c2).insert(k, first_written(m[k], op, out));
            forall|q: i32|
                #[trigger] r.contains_key(q) ==> (m.contains_key(q) && r[q].op_code == m[q].op_code
                    && r[q].cell1 == m[q].cell1 && r[q].cell2 == m[q].cell2) || r[q].op_code is NoConstraint
        }),
{
}

/// Computes the first outcome of the formula `op` just set at `curr` (on the
/// current content), registers `curr` as a dependent of the cells the
/// formula reads one by one, and writes the outcome into the cell. A SLEEP
/// adds the value it reads to `sleep_timer`. Returns the value computed for
/// a range formula.
fn evaluate_formula(
    sheet: &mut Sheet,
    curr: CellInfo,
    c1: CellInfo,
    c2: CellInfo,
    op: OpCode,
    bad: bool,
    status: &mut String,
    sleep_timer: &mut i32,
) -> (v: i32)
    requires
        old(sheet).wf(),
        old(sheet).valid_pos(curr.row as int, curr.col as int),
        old(sheet).data@.contains_key(spec_data_key(curr.row as int, curr.col as int) as i32),
        !(op is NoConstraint || op is String || crate::calculate_functions::is_range_op(op)) ==> (c1.row
            != curr.row || c1.col != curr.col),
        is_cell_cell_op(op) ==> (c2.row != curr.row || c2.col != curr.col),
        crate::calculate_functions::is_range_op(op) ==> old(sheet).rect_fits(
            c1.row as int,
            c1.col as int,
            c2.row as int,
            c2.col as int,
        ),
    ensures
        final(sheet).wf(),
        final(sheet).cells() == registered(old(sheet).cells(), curr, op, c1, c2).insert(
            spec_data_key(curr.row as int, curr.col as int) as i32,
            first_written(
                old(sheet).cells()[spec_data_key(curr.row as int, curr.col as int) as i32],
                op,
                first_outcome(old(sheet).cells(), curr, op, c1, c2, bad, v),
            ),
        ),
        crate::calculate_functions::is_range_op(op) ==> range_value(old(sheet).cells(), op, c1, c2, v),
        old(sheet).settled() ==> final(sheet).settled(),
        final(sheet).rows == old(sheet).rows,
        final(sheet).cols == old(sheet).cols,
        final(sheet).buul == old(sheet).buul,
        final(sheet).tuup == old(sheet).tuup,
        forall|q: i32| old(sheet).data@.contains_key(q) ==> final(sheet).data@.contains_key(q),
        *final(sleep_timer) == if op is Sleep {
            sleep_added(old(sheet).cells(), c1, *old(sleep_timer))
        } else {
            *old(sleep_timer)
        },
{
    let ghost m2 = sheet.cells();
    let key = curr.col as i32 * 1000 + curr.row as i32;
    let kd = data_key(curr.row, curr.col);
    proof {
        lemma_dep_key_decode(curr.row as int, curr.col as int);
        assert(sheet.node_stored(key as int));
        lemma_data_key_injective(c1.row as int, c1.col as int, curr.row as int, curr.col as int);
        lemma_data_key_injective(c2.row as int, c2.col as int, curr.row as int, curr.col as int);
        assert(m2.dom() =~= sheet.data@.dom());
    }
    let mut err = false;
    let mut ans: i32 = 0;
    let mut text = String::new();
    match op {
        OpCode::NoConstraint | OpCode::String => {
            let c = sheet.data.get(&kd).unwrap();
            err = c.is_error;
            ans = c.value;
        },
        OpCode::CellEqualsCell => {
            let (v, e, st) = read_operand(sheet, c1.row, c1.col);
            if e {
                err = true;
            } else {
                match st {
                    Some(t) => {
                        text = t;
                    },
                    None => {
                        ans = v;
                    },
                }
            }
            add_dependent(sheet, c1, key);
        },
        OpCode::Sleep => {
            let (v, e, st) = read_operand(sheet, c1.row, c1.col);
            err = e || st.is_some();
            if !err {
                ans = v;
                *sleep_timer = crate::calculate_functions::add_wrapping(*sleep_timer, v);
            }
            add_dependent(sheet, c1, key);
        },
        OpCode::CellPlusConstant | OpCode::CellMinusConstant | OpCode::CellTimesConstant
        | OpCode::CellDivideConstant | OpCode::ConstantDividesCell | OpCode::ConstantMinusCell => {
            let (v, e, st) = read_operand(sheet, c1.row, c1.col);
            if e || st.is_some() {
                err = true;
            } else {
                let value: i32 = (c2.row as i32) << 16u32 | (c2.col as i32 & 0xFFFF);
                let (a, e1) = crate::calculate_functions::compute_cell(op, v, value, status);
                ans = a;
                err = e1;
            }
            add_dependent(sheet, c1, key);
        },
        OpCode::CellPlusCell | OpCode::CellMinusCell | OpCode::CellTimesCell
        | OpCode::CellDivideCell => {
            let (av, ae, ast) = read_operand(sheet, c1.row, c1.col);
            let (bv, be, bst) = read_operand(sheet, c2.row, c2.col);
            if ae || be || ast.is_some() || bst.is_some() {
                err = true;
            } else {
                let (a, e1) = crate::calculate_functions::compute_cell(op, av, bv, status);
                ans = a;
                err = e1;
            }
            add_dependent(sheet, c1, key);
            add_dependent(sheet, c2, key);
        },
        OpCode::Sum | OpCode::Min | OpCode::Max | OpCode::Avg | OpCode::Stdev => {
            ans = crate::calculate_functions::compute_range_func(
                sheet,
                op,
                c1.row,
                c1.col,
                c2.row,
                c2.col,
                status,
            );
            err = bad;
        },
    }
    proof {
        assert(sheet.cells() =~= registered(m2, curr, op, c1, c2));
        assert(sheet.cells()[kd] == m2[kd]);
        assert((err, ans, text@) == first_outcome(m2, curr, op, c1, c2, bad, ans));
    }
    write_first(sheet, kd, op, err, ans, text);
    proof {
        if old(sheet).settled() {
            lemma_registration_keeps_formulas(
                m2,
                curr,
                op,
                c1,
                c2,
                first_outcome(m2, curr, op, c1, c2, bad, ans),
            );
            lemma_settled_kept(*old(sheet), *sheet);
        }
    }
    ans
}


/// The cycle test of `add_constraints`, on the tree of the cells that depend
/// on `curr`: whether the new formula would read one of them.
fn reads_dependent(
    avl_tree: &HashMap<i32, i32>,
    curr: CellInfo,
    c1: CellInfo,
    c2: CellInfo,
    op: OpCode,
    Ghost(s): Ghost<Sheet>,
) -> (r: bool)
    requires
        s.wf(),
        s.valid_pos(curr.row as int, curr.col as int),
        forall|v: i32| avl_tree@.contains_key(v) <==> s.reachable(
            dep_key(curr.row as int, curr.col as int),
            v as int,
        ),
        forall|v: int| s.reachable(dep_key(curr.row as int, curr.col as int), v) ==> i32::MIN <= v <= i32::MAX,
    ensures
        r == creates_cycle(s, curr, c1, c2, op),
{
    let ghost root = dep_key(curr.row as int, curr.col as int);
    let no_cell_info = CellInfo { row: -1, col: -1 };
    let r = match op {
        OpCode::NoConstraint | OpCode::String => false,
        OpCode::Sum | OpCode::Min | OpCode::Max | OpCode::Avg | OpCode::Stdev => {
            check_cycle_range_funcs(avl_tree, &c1, &c2)
        },
        OpCode::CellPlusCell | OpCode::CellMinusCell | OpCode::CellTimesCell
        | OpCode::CellDivideCell => check_cycle(avl_tree, &c1, &c2),
        _ => check_cycle(avl_tree, &c1, &no_cell_info),
    };
    proof {
        if crate::calculate_functions::is_range_op(op) {
            if r {
                let k = choose|k: i32| avl_tree@.contains_key(k) && key_in_rect(k as int, c1, c2);
                assert(s.reachable(root, k as int));
            }
            if creates_cycle(s, curr, c1, c2, op) {
                let v = choose|v: int| #[trigger] s.reachable(root, v) && key_in_rect(v, c1, c2);
                assert(avl_tree@.contains_key(v as i32));
            }
        }
    }
    r
}

/// Collects the key facts of an accepted `add_constraints` into its
/// contract.
proof fn lemma_constraint_added(
    s0: Sheet,
    b: Seq<Vec<bool>>,
    r: Sheet,
    mid: Map<i32, CellView>,
    fin: Sheet,
    p: CellInfo,
    c1: CellInfo,
    c2: CellInfo,
    op: OpCode,
    bad: bool,
    ans: i32,
    t0: i32,
    t1: i32,
)
    requires
        bad == (crate::calculate_functions::is_range_op(op) && range_has_bad(s0.cells(), c1, c2)),
        dependents_recalculated(s0, dep_key(p.row as int, p.col as int), mid, fin.cells(), t0, t1),
        if crate::calculate_functions::is_range_op(op) {
            marks_set(s0.buul@, b, c1, c2)
        } else {
            b == s0.buul@
        },
        removal_post(s0, b, r, p),
        fin.rows == s0.rows,
        fin.cols == s0.cols,
        fin.buul@ == r.buul@,
        if crate::calculate_functions::is_range_op(op) {
            target_added(
                r.tuup@,
                fin.tuup@,
                spec_range_key(c1.col as int, c1.row as int, c2.col as int, c2.row as int) as i64,
                (p.col, p.row),
                c1,
                c2,
            )
        } else {
            fin.tuup@ == r.tuup@
        },
        mid == constraint_cells(r.cells(), p, op, c1, c2, bad, ans),
        crate::calculate_functions::is_range_op(op) ==> range_value(
            formula_set(r.cells(), p, op, c1, c2),
            op,
            c1,
            c2,
            ans,
        ),
        recalculated_only(s0, dep_key(p.row as int, p.col as int), mid, fin.cells()),
        fin.cells()[spec_data_key(p.row as int, p.col as int) as i32] == mid[spec_data_key(
            p.row as int,
            p.col as int,
        ) as i32],
    ensures
        constraint_added(s0, fin, p, c1, c2, op),
{
    let k = spec_data_key(p.row as int, p.col as int) as i32;
    let v = fin.cells()[k].value;
    assert(mid.contains_key(k));
    assert(fin.cells().contains_key(k));
    if crate::calculate_functions::is_range_op(op) && !bad {
        assert(v == ans);
    }
    assert(mid =~= constraint_cells(r.cells(), p, op, c1, c2, bad, v));
    assert(constraint_witness(s0, fin, p, c1, c2, op, r, b, t0, t1));
}

/// No cell of the sheet depends, directly or transitively, on itself: no
/// path leads back from a direct dependent of a cell to the cell.
pub open spec fn acyclic(s: Sheet) -> bool {
    forall|u: int, w: int| #![trigger s.edge(u, w)] s.valid_node(u) && s.edge(u, w) ==> !s.reachable(w, u)
}

/// Paths compose.
proof fn lemma_reach_trans(s: Sheet, a: int, b: int, c: int, n: nat)
    requires
        s.reach(a, b, n),
        s.reachable(b, c),
    ensures
        s.reachable(a, c),
    decreases n,
{
    if a != b {
        let w = choose|w: int| #[trigger] s.edge(a, w) && s.reach(w, b, (n - 1) as nat);
        lemma_reach_trans(s, w, b, c, (n - 1) as nat);
        lemma_reach_step(s, a, w, c);
    }
}

/// A path in `s1`, whose edges are those of `s0` or new edges into `root`
/// from cells that do not depend on `root` in `s0`, is a path in `s0`, or
/// it ends at a cell that depends on `root` in `s0` and starts at a cell
/// from which `s0` reaches the source of a new edge.
proof fn lemma_path_back(s0: Sheet, s1: Sheet, root: int, a: int, b: int, n: nat)
    requires
        s1.wf(),
        s1.valid_node(a),
        s1.reach(a, b, n),
        forall|u: int, w: int|
            #![trigger s1.edge(u, w)]
            s1.valid_node(u) && s1.edge(u, w) ==> s0.edge(u, w) || (w == root && !s0.reachable(root, u)),
    ensures
        s0.reachable(a, b) || (s0.reachable(root, b) && exists|x: int|
            #[trigger] s0.reachable(a, x) && !s0.reachable(root, x)),
    decreases n,
{
    if a == b {
        assert(s0.reach(a, b, 0));
    } else {
        let w = choose|w: int| #[trigger] s1.edge(a, w) && s1.reach(w, b, (n - 1) as nat);
        lemma_edge_valid(s1, a, w);
        lemma_path_back(s0, s1, root, w, b, (n - 1) as nat);
        if s0.edge(a, w) {
            if s0.reachable(w, b) {
                lemma_reach_step(s0, a, w, b);
            } else {
                let x = choose|x: int| #[trigger] s0.reachable(w, x) && !s0.reachable(root, x);
                lemma_reach_step(s0, a, w, x);
            }
        } else {
            assert(w == root && !s0.reachable(root, a));
            assert(s0.reach(a, a, 0));
            assert(s0.reachable(a, a));
            assert(s0.reachable(root, b));
            assert(s0.reachable(a, a) && !s0.reachable(root, a));
        }
    }
}

/// A sheet whose edges are those of an acyclic sheet `s0`, or new edges
/// into `root` from cells that do not depend on `root` in `s0`, is acyclic.
proof fn lemma_acyclic_kept(s0: Sheet, s1: Sheet, root: int)
    requires
        s1.wf(),
        acyclic(s0),
        s1.rows == s0.rows,
        s1.cols == s0.cols,
        forall|u: int, w: int|
            #![trigger s1.edge(u, w)]
            s1.valid_node(u) && s1.edge(u, w) ==> s0.edge(u, w) || (w == root && !s0.reachable(root, u)),
    ensures
        acyclic(s1),
{
    assert forall|u: int, w: int| #![trigger s1.edge(u, w)] s1.valid_node(u) && s1.edge(u, w) implies !s1.reachable(w, u) by {
        if s1.reachable(w, u) {
            let n = choose|n: nat| s1.reach(w, u, n);
            lemma_edge_valid(s1, u, w);
            lemma_path_back(s0, s1, root, w, u, n);
            if s0.edge(u, w) {
                assert(s0.valid_node(u));
                if s0.reachable(w, u) {
                    assert(!s0.reachable(w, u));
                } else {
                    let x = choose|x: int| #[trigger] s0.reachable(w, x) && !s0.reachable(root, x);
                    lemma_reach_step(s0, u, w, x);
                    let m = choose|m: nat| s0.reach(root, u, m);
                    lemma_reach_trans(s0, root, u, x, m);
                }
            } else {
                assert(w == root && !s0.reachable(root, u));
            }
        }
    }
}

/// The edges of the sheet `s1` left right after `add_constraints` replaced
/// the formula at `p` (see `lemma_formula_transfer`) without making a cell
/// depend on itself: every edge out of a cell of the sheet is one of `s0`,
/// or a new edge into `p` from a cell that does not depend on `p` in `s0`
/// (when every position a range entry holds is marked, where a range
/// formula is replaced or set).
#[verifier::rlimit(60)]
proof fn lemma_new_edges(
    s0: Sheet,
    b: Seq<Vec<bool>>,
    r: Sheet,
    s1: Sheet,
    p: CellInfo,
    op: OpCode,
    c1: CellInfo,
    c2: CellInfo,
    out: (bool, i32, Seq<char>),
)
    requires
        s0.wf(),
        s1.wf(),
        s0.valid_pos(p.row as int, p.col as int),
        s1.rows == s0.rows,
        s1.cols == s0.cols,
        removal_post(s0, b, r, p),
        if crate::calculate_functions::is_range_op(op) {
            marks_set(s0.buul@, b, c1, c2)
        } else {
            b == s0.buul@
        },
        s1.cells() == registered(formula_set(r.cells(), p, op, c1, c2), p, op, c1, c2).insert(
            spec_data_key(p.row as int, p.col as int) as i32,
            first_written(
                formula_set(r.cells(), p, op, c1, c2)[spec_data_key(p.row as int, p.col as int) as i32],
                op,
                out,
            ),
        ),
        s1.buul@ == r.buul@,
        if crate::calculate_functions::is_range_op(op) {
            target_added(
                r.tuup@,
                s1.tuup@,
                spec_range_key(c1.col as int, c1.row as int, c2.col as int, c2.row as int) as i64,
                (p.col, p.row),
                c1,
                c2,
            )
        } else {
            s1.tuup@ == r.tuup@
        },
        !creates_cycle(s0, p, c1, c2, op),
        crate::calculate_functions::is_range_op(op) || (s0.cells().contains_key(
            spec_data_key(p.row as int, p.col as int) as i32,
        ) && crate::calculate_functions::is_range_op(
            s0.cells()[spec_data_key(p.row as int, p.col as int) as i32].op_code,
        )) ==> marks_cover(s0),
    ensures
        forall|u: int, w: int|
            #![trigger s1.edge(u, w)]
            s1.valid_node(u) && s1.edge(u, w) ==> s0.edge(u, w) || (w == dep_key(p.row as int, p.col as int)
                && !s0.reachable(dep_key(p.row as int, p.col as int), u)),
{
    broadcast use vstd::seq_lib::group_filter_ensures;

    let root = dep_key(p.row as int, p.col as int);
    let d = root as i32;
    let k = spec_data_key(p.row as int, p.col as int) as i32;
    let m0 = s0.cells();
    let rm = r.cells();
    let m1 = s1.cells();
    let pt = (p.col, p.row);
    lemma_dep_key_decode(p.row as int, p.col as int);
    lemma_node_below(s0, root);
    lemma_removal_deps(s0, b, r, p);
    lemma_registration_deps(rm, m1, p, op, c1, c2, out);
    assert(m0.dom() =~= s0.data@.dom());
    assert(m1.dom() =~= s1.data@.dom());
    let old_range = m0.contains_key(k) && crate::calculate_functions::is_range_op(m0[k].op_code);
    let oc1 = m0[k].cell1;
    let oc2 = m0[k].cell2;
    let k_old = spec_range_key(oc1.col as int, oc1.row as int, oc2.col as int, oc2.row as int) as i64;
    let new_range = crate::calculate_functions::is_range_op(op);
    let k_new = spec_range_key(c1.col as int, c1.row as int, c2.col as int, c2.row as int) as i64;
    let t0 = s0.tuup@;
    let tr = r.tuup@;
    let t1 = s1.tuup@;
    assert(if old_range {
        target_dropped(t0, tr, k_old, pt) && marks_recomputed(b, s1.buul@, tr, oc1, oc2)
    } else {
        tr == t0 && s1.buul@ == b
    });
    if new_range {
        let e = t1[k_new];
        assert(t1.contains_key(k_new));
        assert(k_new == spec_range_key(e.start_col as int, e.start_row as int, e.end_col as int, e.end_row as int));
        lemma_range_key_injective(
            e.start_col as int,
            e.start_row as int,
            e.end_col as int,
            e.end_row as int,
            c1.col as int,
            c1.row as int,
            c2.col as int,
            c2.row as int,
        );
    }
    assert forall|u: int, w: int| #![trigger s1.edge(u, w)] s1.valid_node(u) && s1.edge(u, w) implies s0.edge(u, w) || (
    w == root && !s0.reachable(root, u)) by {
        let row = u % 1000;
        let col = u / 1000;
        let q = spec_data_key(row, col) as i32;
        if i32::MIN <= w <= i32::MAX && s1.cell_at(row, col).dependencies.contains(w as i32) {
            assert(s1.data@.contains_key(q));
            assert(m1[q] == s1.data@[q]@);
            if m0.contains_key(q) {
                assert(m0[q] == s0.data@[q]@);
            }
            if !(m0.contains_key(q) && m0[q].dependencies.contains(w as i32)) {
                if w as i32 != d {
                    if m0.contains_key(q) {
                        assert(m1[q].dependencies.remove(d).contains(w as i32));
                    }
                    assert(false);
                }
                assert(!(rm.contains_key(q) && rm[q].dependencies.contains(d)));
                if q == spec_data_key(c1.row as int, c1.col as int) as i32 && !(op is NoConstraint || op is String
                    || crate::calculate_functions::is_range_op(op)) {
                    lemma_data_key_injective(row, col, c1.row as int, c1.col as int);
                    assert(dep_key(c1.row as int, c1.col as int) == u);
                } else {
                    assert(is_cell_cell_op(op) && q == spec_data_key(c2.row as int, c2.col as int) as i32);
                    lemma_data_key_injective(row, col, c2.row as int, c2.col as int);
                    assert(dep_key(c2.row as int, c2.col as int) == u);
                }
            }
        } else {
            assert(s1.range_dep(u, w));
            let (kk, t) = choose|kk: i64, t: int|
                #![trigger t1[kk].targets@[t]]
                t1.contains_key(kk) && in_rect(t1[kk], row, col) && 0 <= t < t1[kk].targets@.len() && w
                    == target_key(t1[kk], t);
            let tg = t1[kk].targets@[t];
            if !old_range && !new_range {
                assert(s0.range_dep(u, w));
            } else {
                let in_new = new_range && c1.row <= row <= c2.row && c1.col <= col <= c2.col;
                if in_new {
                    assert(!s0.reachable(root, u)) by {
                        if s0.reachable(root, u) {
                            assert(key_in_rect(u, c1, c2));
                        }
                    }
                }
                if tg == pt {
                    assert(w == root);
                    if !in_new {
                        if new_range && kk == k_new {
                            assert(false);
                        }
                        if old_range && kk == k_old {
                            assert(tr.contains_key(k_old));
                            let kept = t0[k_old].targets@.filter(other_than(pt));
                            assert(tr[k_old].targets@ == kept);
                            assert(t1[kk] == tr[kk]);
                            assert(!other_than(pt)(kept[t]));
                            assert(false);
                        }
                        assert(t1[kk] == tr[kk]);
                        assert(tr[kk] == t0[kk]);
                        assert(t0.contains_key(kk));
                        assert(b.len() == s0.rows && b[row]@.len() == s0.cols);
                        if !s0.buul@[row]@[col] {
                            assert(covered(t0, row, col));
                        }
                        assert(t0[kk].targets@[t] == tg);
                        assert(s0.range_dep(u, w));
                    }
                } else {
                    let e1 = t1[kk];
                    let er = if new_range && kk == k_new && tr.contains_key(k_new) {
                        tr[k_new]
                    } else {
                        tr[kk]
                    };
                    if new_range && kk == k_new {
                        if !tr.contains_key(k_new) {
                            assert(e1.targets@ == seq![pt]);
                            assert(false);
                        }
                        assert(e1.targets@ == er.targets@.push(pt));
                        assert(t < er.targets@.len());
                        assert(er.targets@[t] == tg);
                    } else {
                        assert(t1[kk] == tr[kk]);
                    }
                    assert(tr.contains_key(kk));
                    assert(in_rect(tr[kk], row, col));
                    assert(tr[kk].targets@.contains(tg)) by {
                        assert(tr[kk].targets@[t] == tg);
                    }
                    let e0 = t0[kk];
                    assert(t0.contains_key(kk));
                    if old_range && kk == k_old {
                        let kept = e0.targets@.filter(other_than(pt));
                        assert(tr[kk].targets@ == kept);
                        e0.targets@.lemma_filter_contains_rev(other_than(pt), tg);
                    } else {
                        assert(tr[kk] == e0);
                    }
                    assert(e0.targets@.contains(tg));
                    let t2 = choose|t2: int| 0 <= t2 < e0.targets@.len() && e0.targets@[t2] == tg;
                    assert(in_rect(e0, row, col));
                    assert(b.len() == s0.rows && b[row]@.len() == s0.cols);
                    if !s0.buul@[row]@[col] {
                        assert(covered(t0, row, col));
                    }
                    assert(t0[kk].targets@[t2] == tg);
                    assert(w == target_key(t0[kk], t2));
                    assert(s0.range_dep(u, w));
                }
            }
        }
    }
}

/// Sheets with the same edges reach the same cells.
proof fn lemma_reach_eq(s1: Sheet, s2: Sheet, a: int, b: int, n: nat)
    requires
        forall|u: int, w: int| #![trigger s2.edge(u, w)] s2.edge(u, w) == s1.edge(u, w),
    ensures
        s2.reach(a, b, n) == s1.reach(a, b, n),
    decreases n,
{
    if a != b && n > 0 {
        if s1.reach(a, b, n) {
            let w = choose|w: int| #[trigger] s1.edge(a, w) && s1.reach(w, b, (n - 1) as nat);
            assert(s2.edge(a, w));
            lemma_reach_eq(s1, s2, w, b, (n - 1) as nat);
        }
        if s2.reach(a, b, n) {
            let w = choose|w: int| #[trigger] s2.edge(a, w) && s2.reach(w, b, (n - 1) as nat);
            lemma_reach_eq(s1, s2, w, b, (n - 1) as nat);
        }
    }
}

/// A sheet with the marks, range entries and size of an acyclic sheet, in
/// which every stored cell keeps its dependents and cells stored anew have
/// none, is acyclic.
pub proof fn lemma_deps_kept_acyclic(s1: Sheet, s2: Sheet)
    requires
        acyclic(s1),
        s2.rows == s1.rows,
        s2.cols == s1.cols,
        s2.buul == s1.buul,
        s2.tuup == s1.tuup,
        forall|q: i32|
            #![trigger s2.data@[q]]
            s1.data@.contains_key(q) ==> s2.data@.contains_key(q) && s2.data@[q].dependencies@
                == s1.data@[q].dependencies@,
        forall|q: i32|
            #![trigger s2.data@[q]]
            s2.data@.contains_key(q) && !s1.data@.contains_key(q) ==> s2.data@[q].dependencies@ == Set::<
                i32,
            >::empty(),
    ensures
        acyclic(s2),
{
    assert forall|u: int, w: int| #![trigger s2.edge(u, w)] s2.edge(u, w) == s1.edge(u, w) by {
        let q = spec_data_key(u % 1000, u / 1000) as i32;
        if s1.data@.contains_key(q) {
            assert(s2.data@[q].dependencies@ == s1.data@[q].dependencies@);
        } else if s2.data@.contains_key(q) {
            assert(s2.data@[q].dependencies@ == Set::<i32>::empty());
        }
        assert(s2.cell_at(u % 1000, u / 1000).dependencies == s1.cell_at(u % 1000, u / 1000).dependencies);
    }
    assert forall|u: int, w: int| #![trigger s2.edge(u, w)] s2.valid_node(u) && s2.edge(u, w) implies !s2.reachable(w, u) by {
        assert(s1.edge(u, w));
        if s2.reachable(w, u) {
            let n = choose|n: nat| s2.reach(w, u, n);
            lemma_reach_eq(s1, s2, w, u, n);
        }
    }
}

/// Recalculation changes no edge: a sheet recalculated from an acyclic one
/// is acyclic.
proof fn lemma_recalculated_acyclic(s: Sheet, root: int, s1: Sheet, s2: Sheet)
    requires
        acyclic(s1),
        recalculated_only(s, root, s1.cells(), s2.cells()),
        s2.rows == s1.rows,
        s2.cols == s1.cols,
        s2.buul == s1.buul,
        s2.tuup == s1.tuup,
    ensures
        acyclic(s2),
{
    assert forall|q: i32| #![trigger s2.data@[q]] s1.data@.contains_key(q) implies s2.data@.contains_key(q)
        && s2.data@[q].dependencies@ == s1.data@[q].dependencies@ by {
        assert(s1.cells().contains_key(q));
        assert(s2.cells().contains_key(q));
        assert(s2.cells()[q] == s2.data@[q]@);
        assert(s1.cells()[q] == s1.data@[q]@);
    }
    assert forall|q: i32| #![trigger s2.data@[q]] s2.data@.contains_key(q) && !s1.data@.contains_key(q) implies s2.data@[
        q].dependencies@ == Set::<i32>::empty() by {
        assert(s2.cells().contains_key(q));
        assert(!s1.cells().contains_key(q));
        assert(s2.cells()[q] == s2.data@[q]@);
    }
    lemma_deps_kept_acyclic(s1, s2);
}

/// The key `c[j]` reaches the last key of a path `c`.
proof fn lemma_path_reaches(s: Sheet, w: Seq<(i64, RangeTargets)>, c: Seq<i32>, j: int)
    requires
        s.wf(),
        is_listing(w, s.tuup@),
        dep_path(s, listed_values(w), c),
        forall|i: int| 0 <= i < c.len() ==> s.valid_node(#[trigger] c[i] as int),
        0 <= j < c.len(),
    ensures
        s.reachable(c[j] as int, c.last() as int),
    decreases c.len() - j,
{
    if j == c.len() - 1 {
        assert(s.reach(c[j] as int, c.last() as int, 0));
    } else {
        lemma_path_reaches(s, w, c, j + 1);
        assert(linked(s, listed_values(w), c, j));
        lemma_edge_iff(s, w, c[j] as int, c[j + 1] as int);
        lemma_reach_step(s, c[j] as int, c[j + 1] as int, c.last() as int);
    }
}

/// In an acyclic sheet no path through the cells that depend on `root`
/// comes back to where it started, however the range entries are listed.
pub proof fn lemma_acyclic_on(s: Sheet, w: Seq<(i64, RangeTargets)>, root: int)
    requires
        s.wf(),
        acyclic(s),
        s.valid_node(root),
        is_listing(w, s.tuup@),
    ensures
        acyclic_on(s, listed_values(w), dependents_of(s, root)),
{
    let es = listed_values(w);
    let keys = dependents_of(s, root);
    assert forall|c: Seq<i32>|
        #[trigger] dep_path(s, es, c) && (forall|i: int| 0 <= i < c.len() ==> keys.contains(c[i])) implies c[0]
            != c.last() by {
        assert forall|i: int| 0 <= i < c.len() implies s.valid_node(#[trigger] c[i] as int) by {
            assert(keys.contains(c[i]));
            if c[i] as int != root {
                let n = choose|n: nat| s.reach(root, c[i] as int, n);
                lemma_reach_stored(s, root, c[i] as int, n);
            }
        }
        lemma_path_reaches(s, w, c, 1);
        assert(linked(s, es, c, 0));
        lemma_edge_iff(s, w, c[0] as int, c[1] as int);
        assert(s.edge(c[0] as int, c[1] as int));
    }
}

/// Whether setting formula `op` at `p` in `s` sets a range formula or
/// replaces one.
pub open spec fn range_involved(s: Sheet, p: CellInfo, op: OpCode) -> bool {
    let kd = spec_data_key(p.row as int, p.col as int) as i32;
    crate::calculate_functions::is_range_op(op) || (s.data@.contains_key(kd) && crate::calculate_functions::is_range_op(
        s.data@[kd].op_code,
    ))
}

/// Position `(r, c)` is held by an entry of `t` other than the entry under
/// `k`, or by that entry when it keeps a target other than `pt`: it stays
/// held once `pt` is dropped from the entry under `k`.
pub open spec fn held_without(t: Map<i64, RangeTargets>, k: i64, pt: (i16, i16), r: int, c: int) -> bool {
    exists|q: i64|
        #[trigger] t.contains_key(q) && in_rect(t[q], r, c) && (q != k || t[q].targets@.filter(other_than(pt)).len()
            > 0)
}

/// Setting formula `op` over `c1` (and `c2`) at `p` in `s` keeps the marks
/// covering the range entries: unless a range formula replaces a range
/// formula, and a position of the new rectangle inside the old one is held
/// by no other range entry.
pub open spec fn marks_kept(s: Sheet, p: CellInfo, c1: CellInfo, c2: CellInfo, op: OpCode) -> bool {
    let kd = spec_data_key(p.row as int, p.col as int) as i32;
    let old = s.data@[kd];
    let k_old = spec_range_key(old.cell1.col as int, old.cell1.row as int, old.cell2.col as int, old.cell2.row as int) as i64;
    s.data@.contains_key(kd) && crate::calculate_functions::is_range_op(old.op_code)
        && crate::calculate_functions::is_range_op(op) ==> forall|r: int, c: int|
        c1.row <= r <= c2.row && c1.col <= c <= c2.col && old.cell1.row <= r <= old.cell2.row && old.cell1.col <= c
            <= old.cell2.col ==> #[trigger] held_without(s.tuup@, k_old, (p.col, p.row), r, c)
}

/// Dropping target `pt` from the entry under `k` leaves a position held
/// exactly when it is held without that target.
proof fn lemma_dropped_held(t0: Map<i64, RangeTargets>, tr: Map<i64, RangeTargets>, k: i64, pt: (i16, i16), r: int, c: int)
    requires
        target_dropped(t0, tr, k, pt),
    ensures
        covered(tr, r, c) == held_without(t0, k, pt, r, c),
{
    if covered(tr, r, c) {
        let q = choose|q: i64| #[trigger] tr.contains_key(q) && in_rect(tr[q], r, c);
        assert(t0.contains_key(q));
        assert(in_rect(t0[q], r, c));
        if q == k {
            assert(tr[k].targets@ == t0[k].targets@.filter(other_than(pt)));
        }
    }
    if held_without(t0, k, pt, r, c) {
        let q = choose|q: i64|
            #[trigger] t0.contains_key(q) && in_rect(t0[q], r, c) && (q != k || t0[q].targets@.filter(
                other_than(pt),
            ).len() > 0);
        assert(tr.contains_key(q));
        assert(in_rect(tr[q], r, c));
    }
}

/// From `s0` to `s1` as in `lemma_marks_keys`: when the marks of `s0` cover
/// its range entries and a range formula replacing a range formula leaves
/// every position of its rectangle inside the old one held, the marks of
/// `s1` cover its range entries.
proof fn lemma_marks_cover_kept(
    s0: Sheet,
    s1: Sheet,
    tr: Map<i64, RangeTargets>,
    b: Seq<Vec<bool>>,
    old_range: bool,
    k_old: i64,
    oc1: CellInfo,
    oc2: CellInfo,
    new_range: bool,
    k_new: i64,
    pt: (i16, i16),
    c1: CellInfo,
    c2: CellInfo,
)
    requires
        s0.wf(),
        s1.wf(),
        s1.rows == s0.rows,
        s1.cols == s0.cols,
        marks_cover(s0),
        if old_range {
            target_dropped(s0.tuup@, tr, k_old, pt) && marks_recomputed(b, s1.buul@, tr, oc1, oc2)
        } else {
            tr == s0.tuup@ && s1.buul@ == b
        },
        if new_range {
            &&& target_added(tr, s1.tuup@, k_new, pt, c1, c2)
            &&& marks_set(s0.buul@, b, c1, c2)
            &&& s1.tuup@[k_new].start_row == c1.row
            &&& s1.tuup@[k_new].start_col == c1.col
            &&& s1.tuup@[k_new].end_row == c2.row
            &&& s1.tuup@[k_new].end_col == c2.col
        } else {
            s1.tuup@ == tr && b == s0.buul@
        },
        old_range && new_range ==> forall|r: int, c: int|
            c1.row <= r <= c2.row && c1.col <= c <= c2.col && oc1.row <= r <= oc2.row && oc1.col <= c <= oc2.col
                ==> #[trigger] held_without(s0.tuup@, k_old, pt, r, c),
    ensures
        marks_cover(s1),
{
    let t0 = s0.tuup@;
    let t1 = s1.tuup@;
    assert forall|r: int, c: int| #![trigger covered(t1, r, c)] covered(t1, r, c) implies s1.buul@[r]@[c] by {
        lemma_covered_valid(s1, r, c);
        let in_new = new_range && c1.row <= r <= c2.row && c1.col <= c <= c2.col;
        let in_old = old_range && oc1.row <= r <= oc2.row && oc1.col <= c <= oc2.col;
        assert(b.len() == s0.rows && b[r]@.len() == s0.cols);
        assert(s1.buul@[r]@[c] == if in_old {
            covered(tr, r, c)
        } else {
            in_new || s0.buul@[r]@[c]
        });
        if old_range {
            lemma_dropped_held(t0, tr, k_old, pt, r, c);
        }
        let held_r = covered(tr, r, c);
        if !in_new {
            if new_range {
                lemma_added_covered(tr, t1, k_new, pt, c1, c2, r, c);
            }
            assert(held_r);
            if old_range {
                lemma_dropped_covered(t0, tr, k_old, pt, r, c);
            }
            assert(covered(t0, r, c));
        } else if in_old {
            assert(held_without(t0, k_old, pt, r, c));
        }
    }
}

/// The marks of the sheet `s1` left right after `add_constraints` replaced
/// the formula at `p` (see `lemma_formula_transfer`) cover its range entries
/// when those of `s0` did and the marks are kept.
proof fn lemma_constraint_marks(
    s0: Sheet,
    b: Seq<Vec<bool>>,
    r: Sheet,
    s1: Sheet,
    p: CellInfo,
    op: OpCode,
    c1: CellInfo,
    c2: CellInfo,
)
    requires
        s0.wf(),
        s1.wf(),
        s1.rows == s0.rows,
        s1.cols == s0.cols,
        removal_post(s0, b, r, p),
        if crate::calculate_functions::is_range_op(op) {
            marks_set(s0.buul@, b, c1, c2)
        } else {
            b == s0.buul@
        },
        s1.buul@ == r.buul@,
        if crate::calculate_functions::is_range_op(op) {
            target_added(
                r.tuup@,
                s1.tuup@,
                spec_range_key(c1.col as int, c1.row as int, c2.col as int, c2.row as int) as i64,
                (p.col, p.row),
                c1,
                c2,
            )
        } else {
            s1.tuup@ == r.tuup@
        },
        marks_cover(s0),
        marks_kept(s0, p, c1, c2, op),
    ensures
        marks_cover(s1),
{
    let k = spec_data_key(p.row as int, p.col as int) as i32;
    let m0 = s0.cells();
    assert(m0.dom() =~= s0.data@.dom());
    if s0.data@.contains_key(k) {
        assert(m0[k] == s0.data@[k]@);
    }
    let old_range = m0.contains_key(k) && crate::calculate_functions::is_range_op(m0[k].op_code);
    let oc1 = m0[k].cell1;
    let oc2 = m0[k].cell2;
    let k_old = spec_range_key(oc1.col as int, oc1.row as int, oc2.col as int, oc2.row as int) as i64;
    let new_range = crate::calculate_functions::is_range_op(op);
    let k_new = spec_range_key(c1.col as int, c1.row as int, c2.col as int, c2.row as int) as i64;
    let pt = (p.col, p.row);
    assert(if old_range {
        target_dropped(s0.tuup@, r.tuup@, k_old, pt) && marks_recomputed(b, s1.buul@, r.tuup@, oc1, oc2)
    } else {
        r.tuup@ == s0.tuup@ && s1.buul@ == b
    });
    if new_range {
        let e = s1.tuup@[k_new];
        assert(s1.tuup@.contains_key(k_new));
        assert(k_new == spec_range_key(e.start_col as int, e.start_row as int, e.end_col as int, e.end_row as int));
        lemma_range_key_injective(
            e.start_col as int,
            e.start_row as int,
            e.end_col as int,
            e.end_row as int,
            c1.col as int,
            c1.row as int,
            c2.col as int,
            c2.row as int,
        );
    }
    lemma_marks_cover_kept(s0, s1, r.tuup@, b, old_range, k_old, oc1, oc2, new_range, k_new, pt, c1, c2);
}

/// The conditions on the dependency graph of `s` under which the cells
/// that depend on `root` are recalculated consistently, the range entries
/// taken in the order `es`: the in-degrees among the dependents fit an
/// `i32`, no path through them is a cycle, and their formulas are
/// registered.
pub open spec fn graph_conditions(s: Sheet, root: int, es: Seq<RangeTargets>) -> bool {
    let keys = dependents_of(s, root);
    &&& edges_fit(s, keys, es)
    &&& acyclic_on(s, es, keys)
    &&& dependents_registered(s, root, es)
}

/// The conditions under which the dependents of `p` are recalculated
/// consistently when formula `op` over `c1` (and `c2`) is set at `p` in `s`,
/// the range entries of `s` taken in the order `es`: the formula makes no
/// cell depend on itself, the in-degrees among the dependents fit an `i32`,
/// no path through them is a cycle, their formulas are registered, and,
/// where a range formula is replaced or set, every position a range entry
/// holds is marked.
pub open spec fn consistency_conditions(
    s: Sheet,
    p: CellInfo,
    c1: CellInfo,
    c2: CellInfo,
    op: OpCode,
    es: Seq<RangeTargets>,
) -> bool {
    &&& !creates_cycle(s, p, c1, c2, op)
    &&& graph_conditions(s, dep_key(p.row as int, p.col as int), es)
    &&& range_involved(s, p, op) ==> marks_cover(s)
}

/// After formula `op` over `c1` (and `c2`) was set at `p`, turning `s0`
/// into `s1`: under the consistency conditions (for any listing of the
/// range entries of `s0`), every cell that depends on `p` holds what its
/// formula gives on the content of `s1`.
pub open spec fn dependents_hold_after(s0: Sheet, s1: Sheet, p: CellInfo, c1: CellInfo, c2: CellInfo, op: OpCode) -> bool {
    forall|w: Seq<(i64, RangeTargets)>|
        #[trigger] is_listing(w, s0.tuup@) && consistency_conditions(s0, p, c1, c2, op, listed_values(w))
            ==> forall|v: i32|
            #[trigger] dependents_of(s0, dep_key(p.row as int, p.col as int)).contains(v) && v != dep_key(
                p.row as int,
                p.col as int,
            ) ==> formula_holds(s1.cells(), v as int)
}

/// Two listings of the range entries of a sheet count the same edges out
/// of every node, so the conditions on the graph hold for both or neither.
proof fn lemma_conditions_any_listing(s: Sheet, root: int, w: Seq<(i64, RangeTargets)>, w2: Seq<(i64, RangeTargets)>)
    requires
        is_listing(w, s.tuup@),
        is_listing(w2, s.tuup@),
        graph_conditions(s, root, listed_values(w)),
    ensures
        graph_conditions(s, root, listed_values(w2)),
{
    let es = listed_values(w);
    let es2 = listed_values(w2);
    let keys = dependents_of(s, root);
    assert forall|u: int| #[trigger] out_ms(s, u, es2) == out_ms(s, u, es) by {
        crate::entry_lists::lemma_listings_agree(w, w2, s.tuup@, u % 1000, u / 1000);
        assert(out_ms(s, u, es2) =~= out_ms(s, u, es));
    }
    assert forall|all: Seq<i32>, v: i32|
        all.no_duplicates() && all.to_set() == keys implies #[trigger] keys_ms(s, all, es2).count(v) <= i32::MAX by {
        assert forall|i: int| 0 <= i < all.len() implies out_ms(s, #[trigger] all[i] as int, es2).count(v) == out_ms(
            s,
            all[i] as int,
            es,
        ).count(v) by {
            assert(out_ms(s, all[i] as int, es2) == out_ms(s, all[i] as int, es));
        }
        lemma_keys_ms_count_eq(s, s, all, es, es2, v);
    }
    assert forall|c: Seq<i32>|
        #[trigger] dep_path(s, es2, c) && (forall|i: int| 0 <= i < c.len() ==> keys.contains(c[i])) implies c[0]
            != c.last() by {
        assert forall|i: int| 0 <= i < c.len() - 1 implies #[trigger] linked(s, es, c, i) by {
            assert(linked(s, es2, c, i));
            assert(out_ms(s, c[i] as int, es2) == out_ms(s, c[i] as int, es));
        }
        assert(dep_path(s, es, c));
    }
    assert forall|v: i32, r: int, c: int|
        keys.contains(v) && v != root && #[trigger] reads(cell_of(s, v as int), r, c) implies out_ms(
        s,
        dep_key(r, c),
        es2,
    ).count(v) > 0 by {
        assert(out_ms(s, dep_key(r, c), es2) == out_ms(s, dep_key(r, c), es));
    }
}

/// Sets the formula `op` over `cell1` (and `cell2`) at `curr_cell`.
///
/// The cells that depend on `curr_cell` are collected first; a formula that
/// would read one of them (or `curr_cell` itself) is refused: `status`
/// becomes "circular error" and nothing changes. Otherwise a range formula
/// marks its rectangle, the old formula's dependencies are removed, the new
/// formula is set and registered with the cells it reads, its value is
/// computed (a SLEEP adds the value it reads to `sleep_timer`), `status`
/// becomes "ok", and the dependent cells are recalculated in topological
/// order. For formulas over a cell and a constant, `cell2` holds the
/// constant: its high 16 bits in `row`, its low 16 bits in `col`.
///
/// Under the consistency conditions every dependent then holds what its
/// formula gives on the new content; an acyclic sheet stays acyclic (where
/// a range formula is set or replaced: when every position a range entry
/// holds is marked); and marks covering the range entries keep covering
/// them, unless a range formula replaces one over a rectangle it shares
/// positions with that no other entry holds.
pub fn add_constraints(
    curr_cell: CellInfo,
    cell1: CellInfo,
    cell2: CellInfo,
    op_code: OpCode,
    sheet: &mut Sheet,
    status: &mut String,
    sleep_timer: &mut i32,
)
    requires
        old(sheet).wf(),
        old(sheet).valid_pos(curr_cell.row as int, curr_cell.col as int),
        removable(*old(sheet), curr_cell),
        crate::calculate_functions::is_range_op(op_code) ==> old(sheet).rect_fits(
            cell1.row as int,
            cell1.col as int,
            cell2.row as int,
            cell2.col as int,
        ),
    ensures
        final(sheet).wf(),
        creates_cycle(*old(sheet), curr_cell, cell1, cell2, op_code) ==> {
            &&& *final(sheet) == *old(sheet)
            &&& final(status)@ == "circular error"@
            &&& *final(sleep_timer) == *old(sleep_timer)
        },
        !creates_cycle(*old(sheet), curr_cell, cell1, cell2, op_code) ==> {
            &&& final(status)@ == "ok"@
            &&& constraint_added(*old(sheet), *final(sheet), curr_cell, cell1, cell2, op_code)
        },
        old(sheet).settled() ==> final(sheet).settled(),
        dependents_hold_after(*old(sheet), *final(sheet), curr_cell, cell1, cell2, op_code),
        acyclic(*old(sheet)) && (range_involved(*old(sheet), curr_cell, op_code) ==> marks_cover(*old(sheet)))
            ==> acyclic(*final(sheet)),
        marks_cover(*old(sheet)) && marks_kept(*old(sheet), curr_cell, cell1, cell2, op_code) ==> marks_cover(
            *final(sheet),
        ),
        forall|q: i32| old(sheet).data@.contains_key(q) ==> final(sheet).data@.contains_key(q),
        no_dependents(*old(sheet), curr_cell) && !creates_cycle(*old(sheet), curr_cell, cell1, cell2, op_code)
            ==> *final(sleep_timer) == if op_code is Sleep {
            sleep_added(old(sheet).cells(), cell1, *old(sleep_timer))
        } else {
            *old(sleep_timer)
        },
{
    let ghost s0 = *sheet;
    let ghost root = dep_key(curr_cell.row as int, curr_cell.col as int);
    let ghost es0 = entry_values(vstd::std_specs::hash::spec_hash_map_iter(&sheet.tuup).remaining());
    let key = curr_cell.col as i32 * 1000 + curr_cell.row as i32;
    let mut avl_tree: HashMap<i32, i32> = HashMap::new();
    avl_tree.insert(key, 0);
    let ghost t0 = avl_tree@;
    proof {
        lemma_dep_key_decode(curr_cell.row as int, curr_cell.col as int);
        assert(t0.dom() =~= set![key]);
    }
    add_to_tree(&mut avl_tree, curr_cell, sheet);
    proof {
        lemma_tree_is_dependents(s0, t0, avl_tree@, key);
    }
    if reads_dependent(&avl_tree, curr_cell, cell1, cell2, op_code, Ghost(s0)) {
        *status = "circular error".to_owned();
        return ;
    }
    proof {
        assert(s0.reach(root, root, 0));
        if !(op_code is NoConstraint || op_code is String
            || crate::calculate_functions::is_range_op(op_code)) {
            assert(cell1.row != curr_cell.row || cell1.col != curr_cell.col);
        }
        if is_cell_cell_op(op_code) && cell2.row == curr_cell.row && cell2.col == curr_cell.col {
            assert(!(cell2.col == -1 && cell2.row == -1));
            assert(false);
        }
    }
    let (bad, Ghost(r), Ghost(b)) = install_formula(sheet, curr_cell, cell1, cell2, op_code);
    let ghost m2 = sheet.cells();
    let ghost s_set = *sheet;
    let ans = evaluate_formula(sheet, curr_cell, cell1, cell2, op_code, bad, status, sleep_timer);
    let ghost mid = sheet.cells();
    let ghost after = *sheet;
    let ghost kd = spec_data_key(curr_cell.row as int, curr_cell.col as int) as i32;
    proof {
        assert(mid.contains_key(kd));
        assert forall|k: i32| #[trigger] avl_tree@.contains_key(k) implies after.node_stored(k as int) by {
            if k as int != root {
                assert(s0.reachable(root, k as int));
                let n = choose|n: nat| s0.reach(root, k as int, n);
                lemma_reach_stored(s0, root, k as int, n);
            }
        }
    }
    let ghost tree = avl_tree@;
    let ghost es1 = entry_values(vstd::std_specs::hash::spec_hash_map_iter(&sheet.tuup).remaining());
    let sorted = topological_sort(&mut avl_tree, sheet);
    *status = "ok".to_owned();
    let ghost t_mid = *sleep_timer;
    let ghost before_recalc = sheet.cells();
    recalculate_dependents(sheet, &sorted, curr_cell, sleep_timer, Ghost(s0));
    proof {
        if no_dependents(s0, curr_cell) {
            lemma_root_only_recalc(s0, sorted@, before_recalc, sheet.cells(), root, t_mid, *sleep_timer);
            if op_code is Sleep {
                lemma_sleep_operand_kept(s0, b, r, m2, curr_cell, cell1, cell2, op_code);
            }
        }
    }
    proof {
        assert forall|q: i32| s0.data@.contains_key(q) implies sheet.data@.contains_key(q) by {
            assert(mid.contains_key(q));
            assert(sheet.cells().contains_key(q));
        }
        lemma_constraint_added(s0, b, r, mid, *sheet, curr_cell, cell1, cell2, op_code, bad, ans, t_mid, *sleep_timer);
        assert(s0.cells().contains_key(kd) == s0.data@.contains_key(kd));
        assert(s0.data@.contains_key(kd) ==> s0.cells()[kd] == s0.data@[kd]@);
        assert(after.buul == s_set.buul && after.tuup == s_set.tuup);
        crate::entry_lists::lemma_walk_listing(s0.tuup);
        crate::entry_lists::lemma_walk_listing(after.tuup);
        let w0 = vstd::std_specs::hash::spec_hash_map_iter(&s0.tuup).remaining().unref();
        let w1 = vstd::std_specs::hash::spec_hash_map_iter(&after.tuup).remaining().unref();
        assert(tree.dom() =~= dependents_of(s0, root));
        let keys = dependents_of(s0, root);
        let hyp = consistency_conditions(s0, curr_cell, cell1, cell2, op_code, es0);
        if !creates_cycle(s0, curr_cell, cell1, cell2, op_code) {
            lemma_constraint_consistent(
                hyp,
                s0,
                b,
                r,
                after,
                curr_cell,
                op_code,
                cell1,
                cell2,
                first_outcome(m2, curr_cell, op_code, cell1, cell2, bad, ans),
                t0,
                tree,
                sorted@,
                sheet.cells(),
                t_mid,
                *sleep_timer,
                w0,
                w1,
                es0,
                es1,
            );
        }
        assert forall|w: Seq<(i64, RangeTargets)>|
            #[trigger] is_listing(w, s0.tuup@) && consistency_conditions(s0, curr_cell, cell1, cell2, op_code, listed_values(w))
                implies forall|v: i32|
                #[trigger] dependents_of(s0, root).contains(v) && v != root ==> formula_holds(sheet.cells(), v as int) by {
            lemma_conditions_any_listing(s0, root, w, w0);
        }
        if acyclic(s0) && (crate::calculate_functions::is_range_op(op_code) || (s0.data@.contains_key(kd)
            && crate::calculate_functions::is_range_op(s0.data@[kd].op_code)) ==> marks_cover(s0)) {
            lemma_new_edges(
                s0,
                b,
                r,
                after,
                curr_cell,
                op_code,
                cell1,
                cell2,
                first_outcome(m2, curr_cell, op_code, cell1, cell2, bad, ans),
            );
            lemma_acyclic_kept(s0, after, root);
            lemma_recalculated_acyclic(s0, root, after, *sheet);
        }
        if marks_cover(s0) && marks_kept(s0, curr_cell, cell1, cell2, op_code) {
            lemma_constraint_marks(s0, b, r, after, curr_cell, op_code, cell1, cell2);
            assert(sheet.buul == after.buul && sheet.tuup == after.tuup);
        }
    }
}


/// The cell with dependency key `v` in `s`.
pub open spec fn cell_of(s: Sheet, v: int) -> CellView {
    s.cell_at(v % 1000, v / 1000)
}

/// The data key of the cell with dependency key `v`.
pub open spec fn key_of(v: int) -> i32 {
    spec_data_key(v % 1000, v / 1000) as i32
}

/// The positions that the formula of `c` reads: `cell1` (and `cell2` for a
/// formula between two cells), or the rectangle `cell1 ..= cell2` of a
/// range formula; none for a number or a string.
pub open spec fn reads(c: CellView, r: int, col: int) -> bool {
    let op = c.op_code;
    if op is NoConstraint || op is String {
        false
    } else if crate::calculate_functions::is_range_op(op) {
        c.cell1.row <= r <= c.cell2.row && c.cell1.col <= col <= c.cell2.col
    } else if is_cell_cell_op(op) {
        (r == c.cell1.row && col == c.cell1.col) || (r == c.cell2.row && col == c.cell2.col)
    } else {
        r == c.cell1.row && col == c.cell1.col
    }
}

/// The cell with dependency key `v` holds in `m` what recalculating it on
/// `m` gives it.
pub open spec fn formula_holds(m: Map<i32, CellView>, v: int) -> bool {
    exists|m2: Map<i32, CellView>, t0: i32, t1: i32|
        #[trigger] recalc_step(m, v % 1000, v / 1000, m2, t0, t1) && m2[key_of(v)] == m[key_of(v)]
}

/// Every cell that a dependent of `root` reads has an edge to it, and every
/// cell that a dependent reads one by one (not through a range) is stored.
pub open spec fn dependents_registered(s: Sheet, root: int, es: Seq<RangeTargets>) -> bool {
    let keys = dependents_of(s, root);
    &&& forall|v: i32, r: int, c: int|
        keys.contains(v) && v != root && #[trigger] reads(cell_of(s, v as int), r, c) ==> out_ms(
            s,
            dep_key(r, c),
            es,
        ).count(v) > 0
    &&& forall|v: i32, r: int, c: int|
        keys.contains(v) && v != root && #[trigger] reads(cell_of(s, v as int), r, c)
            && !crate::calculate_functions::is_range_op(cell_of(s, v as int).op_code) ==> s.cells().contains_key(
            spec_data_key(r, c) as i32,
        )
}

/// Recalculating one stored cell whose operands are stored changes that
/// cell only (and keeps its formula).
proof fn lemma_step_frame(m: Map<i32, CellView>, v: int, m2: Map<i32, CellView>, t0: i32, t1: i32)
    requires
        recalc_step(m, v % 1000, v / 1000, m2, t0, t1),
        m.contains_key(key_of(v)),
        forall|r: int, c: int|
            #[trigger] reads(m[key_of(v)], r, c) && !crate::calculate_functions::is_range_op(m[key_of(v)].op_code)
                ==> m.contains_key(spec_data_key(r, c) as i32),
    ensures
        m2.dom() == m.dom(),
        forall|q: i32| #![trigger m2[q]] q != key_of(v) && m.contains_key(q) ==> m2[q] == m[q],
        m2[key_of(v)].op_code == m[key_of(v)].op_code,
        m2[key_of(v)].cell1 == m[key_of(v)].cell1,
        m2[key_of(v)].cell2 == m[key_of(v)].cell2,
        m2[key_of(v)].dependencies == m[key_of(v)].dependencies,
{
    let k = key_of(v);
    let c = m[k];
    let c1 = c.cell1;
    let c2 = c.cell2;
    if !(c.op_code is NoConstraint || c.op_code is String || crate::calculate_functions::is_range_op(c.op_code)) {
        assert(reads(c, c1.row as int, c1.col as int));
        assert(ensure_cell(m, c1.row as int, c1.col as int) == m);
        if is_cell_cell_op(c.op_code) {
            assert(reads(c, c2.row as int, c2.col as int));
            assert(ensure_cell(m, c2.row as int, c2.col as int) == m);
        }
    }
    assert(m2.dom() =~= m.dom());
}

/// Along a chain of recalculations of stored cells whose operands are
/// stored, the stored cells stay the same and keep their formulas.
proof fn lemma_chain_dom(states: Seq<Map<i32, CellView>>, timers: Seq<i32>, order: Seq<i32>, root: int, j: int)
    requires
        recalc_chain(states, timers, order, root),
        0 <= j <= order.len(),
        forall|k: int|
            #![trigger order[k]]
            0 <= k < order.len() && order[k] != root ==> states[0].contains_key(key_of(order[k] as int)) && forall|
                r: int,
                c: int,
            |
                #[trigger] reads(states[0][key_of(order[k] as int)], r, c)
                    && !crate::calculate_functions::is_range_op(states[0][key_of(order[k] as int)].op_code)
                    ==> states[0].contains_key(spec_data_key(r, c) as i32),
    ensures
        states[j].dom() == states[0].dom(),
        forall|q: i32|
            #![trigger states[j][q]]
            states[0].contains_key(q) ==> states[j][q].op_code == states[0][q].op_code && states[j][q].cell1
                == states[0][q].cell1 && states[j][q].cell2 == states[0][q].cell2,
    decreases j,
{
    if j > 0 {
        let k = j - 1;
        lemma_chain_dom(states, timers, order, root, k);
        let w = order[k];
        if w != root {
            let kw = key_of(w as int);
            assert(states[k][kw].op_code == states[0][kw].op_code);
            assert forall|r: int, c: int|
                #[trigger] reads(states[k][kw], r, c) && !crate::calculate_functions::is_range_op(states[k][kw].op_code)
                    implies states[k].contains_key(spec_data_key(r, c) as i32) by {
                assert(reads(states[0][kw], r, c));
            }
            lemma_step_frame(states[k], w as int, states[k + 1], timers[k], timers[k + 1]);
            assert forall|q: i32| #![trigger states[j][q]] states[0].contains_key(q) implies states[j][q].op_code
                == states[0][q].op_code && states[j][q].cell1 == states[0][q].cell1 && states[j][q].cell2
                == states[0][q].cell2 by {
                assert(states[k][q].op_code == states[0][q].op_code);
            }
        } else {
            assert(states[j] == states[k]);
        }
    }
}

/// Along the chain, a stored cell that none of the recalculations at
/// indices `i .. j` rewrites stays as it was.
proof fn lemma_chain_keep(
    states: Seq<Map<i32, CellView>>,
    timers: Seq<i32>,
    order: Seq<i32>,
    root: int,
    i: int,
    j: int,
    q: i32,
)
    requires
        recalc_chain(states, timers, order, root),
        0 <= i <= j <= order.len(),
        states[i].contains_key(q),
        forall|k: int| 0 <= k <= order.len() ==> (#[trigger] states[k]).dom() == states[0].dom(),
        forall|k: int|
            #![trigger order[k]]
            0 <= k < order.len() && order[k] != root ==> states[0].contains_key(key_of(order[k] as int)) && forall|
                r: int,
                c: int,
            |
                #[trigger] reads(states[k][key_of(order[k] as int)], r, c)
                    && !crate::calculate_functions::is_range_op(states[k][key_of(order[k] as int)].op_code)
                    ==> states[k].contains_key(spec_data_key(r, c) as i32),
        forall|k: int| #![trigger order[k]] i <= k < j && order[k] != root ==> q != key_of(order[k] as int),
    ensures
        states[j][q] == states[i][q],
    decreases j - i,
{
    if j > i {
        lemma_chain_keep(states, timers, order, root, i, j - 1, q);
        let k = j - 1;
        let w = order[k];
        if w != root {
            lemma_step_frame(states[k], w as int, states[k + 1], timers[k], timers[k + 1]);
        }
    }
}

/// Maps that agree on a rectangle find a cell in error or holding a string
/// in it alike.
proof fn lemma_bad_agree(m1: Map<i32, CellView>, m2: Map<i32, CellView>, c1: CellInfo, c2: CellInfo)
    requires
        crate::calculate_functions::agree_on(m1, m2, c1.row as int, c2.row + 1, c1.col as int, c2.col + 1),
    ensures
        range_has_bad(m1, c1, c2) == range_has_bad(m2, c1, c2),
{
    if range_has_bad(m1, c1, c2) {
        let (r, c) = choose|r: int, c: int|
            c1.row <= r <= c2.row && c1.col <= c <= c2.col && #[trigger] m1.contains_key(spec_data_key(r, c) as i32)
                && (m1[spec_data_key(r, c) as i32].is_error || m1[spec_data_key(r, c) as i32].string is Some);
        assert(m2.contains_key(spec_data_key(r, c) as i32));
    }
    if range_has_bad(m2, c1, c2) {
        let (r, c) = choose|r: int, c: int|
            c1.row <= r <= c2.row && c1.col <= c <= c2.col && #[trigger] m2.contains_key(spec_data_key(r, c) as i32)
                && (m2[spec_data_key(r, c) as i32].is_error || m2[spec_data_key(r, c) as i32].string is Some);
        assert(m1.contains_key(spec_data_key(r, c) as i32));
    }
}

/// The data keys of two valid nodes are equal only for equal nodes.
proof fn lemma_key_of_injective(s: Sheet, u: int, w: int)
    requires
        s.wf(),
        s.valid_node(u),
        s.valid_node(w),
        key_of(u) == key_of(w),
    ensures
        u == w,
{
    lemma_data_key_injective(u % 1000, u / 1000, w % 1000, w / 1000);
}

/// The facts about a chain of recalculations in dependency order that
/// `lemma_dependents_consistent` works with.
pub open spec fn ordered_chain(
    s: Sheet,
    root: int,
    order: Seq<i32>,
    states: Seq<Map<i32, CellView>>,
    timers: Seq<i32>,
    es: Seq<RangeTargets>,
) -> bool {
    &&& s.wf()
    &&& s.valid_node(root)
    &&& recalc_chain(states, timers, order, root)
    &&& states[0] == s.cells()
    &&& order.no_duplicates()
    &&& forall|k: int| 0 <= k < order.len() ==> dependents_of(s, root).contains(#[trigger] order[k])
    &&& forall|i: int, j: int|
        #![trigger order[i], order[j]]
        0 <= i < j < order.len() ==> out_ms(s, order[j] as int, es).count(order[i]) == 0
    &&& acyclic_on(s, es, dependents_of(s, root))
    &&& dependents_registered(s, root, es)
    &&& forall|k: int| 0 <= k <= order.len() ==> (#[trigger] states[k]).dom() == states[0].dom()
    &&& forall|k: int|
        #![trigger order[k]]
        0 <= k < order.len() && order[k] != root ==> states[0].contains_key(key_of(order[k] as int)) && forall|
            r: int,
            c: int,
        |
            #[trigger] reads(states[k][key_of(order[k] as int)], r, c)
                && !crate::calculate_functions::is_range_op(states[k][key_of(order[k] as int)].op_code)
                ==> states[k].contains_key(spec_data_key(r, c) as i32)
    &&& forall|k: int, q: i32|
        #![trigger states[k][q]]
        0 <= k <= order.len() && states[0].contains_key(q) ==> states[k][q].op_code == states[0][q].op_code
            && states[k][q].cell1 == states[0][q].cell1 && states[k][q].cell2 == states[0][q].cell2
}

/// A cell that the dependent at index `i` reads is, at the end of the chain,
/// as it was when that dependent was recalculated.
proof fn lemma_read_kept(
    s: Sheet,
    root: int,
    order: Seq<i32>,
    states: Seq<Map<i32, CellView>>,
    timers: Seq<i32>,
    es: Seq<RangeTargets>,
    i: int,
    r: int,
    c: int,
)
    requires
        ordered_chain(s, root, order, states, timers, es),
        0 <= i < order.len(),
        order[i] != root,
        reads(states[i][key_of(order[i] as int)], r, c),
        i16::MIN <= r <= i16::MAX,
        i16::MIN <= c <= i16::MAX,
    ensures
        states[order.len() as int].contains_key(spec_data_key(r, c) as i32) == states[i].contains_key(
            spec_data_key(r, c) as i32,
        ),
        states[i].contains_key(spec_data_key(r, c) as i32) ==> states[order.len() as int][spec_data_key(r, c) as i32]
            == states[i][spec_data_key(r, c) as i32],
{
    let n = order.len() as int;
    let v = order[i];
    let q = spec_data_key(r, c) as i32;
    let keys = dependents_of(s, root);
    assert(keys.contains(v));
    let kv = key_of(v as int);
    assert(states[0].contains_key(kv));
    assert(s.valid_node(v as int)) by {
        assert(s.reachable(root, v as int));
        let m = choose|m: nat| s.reach(root, v as int, m);
        if v as int != root {
            lemma_reach_stored(s, root, v as int, m);
        }
    }
    assert(states[i][kv].op_code == states[0][kv].op_code && states[i][kv].cell1 == states[0][kv].cell1
        && states[i][kv].cell2 == states[0][kv].cell2);
    assert(s.cells()[kv] == cell_of(s, v as int));
    assert(reads(cell_of(s, v as int), r, c));
    assert(out_ms(s, dep_key(r, c), es).count(v) > 0);
    if states[i].contains_key(q) {
        assert(states[0].contains_key(q));
        assert(s.data@.contains_key(q));
        lemma_data_key_injective(r, c, r, c);
        assert(q != kv) by {
            if q == kv {
                lemma_data_key_injective(r, c, v as int % 1000, v as int / 1000);
                assert(dep_key(r, c) == v as int);
                let p = seq![v, v];
                assert(linked(s, es, p, 0));
                assert(dep_path(s, es, p));
                assert(forall|x: int| 0 <= x < p.len() ==> keys.contains(p[x]));
            }
        }
        assert forall|k: int| #![trigger order[k]] i <= k < n && order[k] != root implies q != key_of(order[k] as int) by {
            if k > i && q == key_of(order[k] as int) {
                let w = order[k];
                assert(keys.contains(w));
                assert(s.valid_node(w as int)) by {
                    assert(s.reachable(root, w as int));
                    let m = choose|m: nat| s.reach(root, w as int, m);
                    lemma_reach_stored(s, root, w as int, m);
                }
                lemma_data_key_injective(r, c, w as int % 1000, w as int / 1000);
                assert(dep_key(r, c) == w as int);
                assert(out_ms(s, order[k] as int, es).count(order[i]) == 0);
            }
        }
        lemma_chain_keep(states, timers, order, root, i, n, q);
    }
}

/// The dependent at index `i` of the chain holds, at its end, what its
/// formula gives there.
proof fn lemma_holds_at(
    s: Sheet,
    root: int,
    order: Seq<i32>,
    states: Seq<Map<i32, CellView>>,
    timers: Seq<i32>,
    es: Seq<RangeTargets>,
    i: int,
)
    requires
        ordered_chain(s, root, order, states, timers, es),
        0 <= i < order.len(),
        order[i] != root,
    ensures
        formula_holds(states[order.len() as int], order[i] as int),
{
    let n = order.len() as int;
    let v = order[i];
    let kv = key_of(v as int);
    let m = states[i];
    let fin = states[n];
    let keys = dependents_of(s, root);
    assert(keys.contains(v));
    assert(states[0].contains_key(kv));
    assert(m.dom() == states[0].dom() && fin.dom() == states[0].dom());
    lemma_step_frame(m, v as int, states[i + 1], timers[i], timers[i + 1]);
    assert forall|k: int| #![trigger order[k]] i + 1 <= k < n && order[k] != root implies kv != key_of(order[k] as int) by {
        let w = order[k];
        if kv == key_of(w as int) {
            assert(keys.contains(w));
            assert(s.valid_node(v as int)) by {
                let m0 = choose|m0: nat| s.reach(root, v as int, m0);
                lemma_reach_stored(s, root, v as int, m0);
            }
            assert(s.valid_node(w as int)) by {
                let m0 = choose|m0: nat| s.reach(root, w as int, m0);
                if w as int != root {
                    lemma_reach_stored(s, root, w as int, m0);
                }
            }
            lemma_key_of_injective(s, v as int, w as int);
            assert(order[i] == order[k]);
        }
    }
    lemma_chain_keep(states, timers, order, root, i + 1, n, kv);
    let c = m[kv];
    let c1 = c.cell1;
    let c2 = c.cell2;
    let op = c.op_code;
    assert(fin[kv].op_code == op && fin[kv].cell1 == c1 && fin[kv].cell2 == c2);
    if !(op is NoConstraint || op is String || crate::calculate_functions::is_range_op(op)) {
        assert(reads(c, c1.row as int, c1.col as int));
        lemma_read_kept(s, root, order, states, timers, es, i, c1.row as int, c1.col as int);
        assert(view_at(fin, c1.row as int, c1.col as int) == view_at(m, c1.row as int, c1.col as int));
        assert(m.contains_key(spec_data_key(c1.row as int, c1.col as int) as i32));
        assert(ensure_cell(fin, c1.row as int, c1.col as int) == fin);
        if is_cell_cell_op(op) {
            assert(reads(c, c2.row as int, c2.col as int));
            lemma_read_kept(s, root, order, states, timers, es, i, c2.row as int, c2.col as int);
            assert(view_at(fin, c2.row as int, c2.col as int) == view_at(m, c2.row as int, c2.col as int));
            assert(m.contains_key(spec_data_key(c2.row as int, c2.col as int) as i32));
            assert(ensure_cell(fin, c2.row as int, c2.col as int) == fin);
        }
        assert(fin.insert(kv, fin[kv]) =~= fin);
        if op is Sleep {
            let a = view_at(m, c1.row as int, c1.col as int);
            let t1 = if a.is_error || a.string is Some {
                0i32
            } else {
                crate::calculate_functions::wrap_i32(0 + a.value)
            };
            assert(recalc_step(fin, v as int % 1000, v as int / 1000, fin, 0, t1));
        } else {
            assert(recalc_step(fin, v as int % 1000, v as int / 1000, fin, 0, 0));
        }
    } else if crate::calculate_functions::is_range_op(op) {
        assert forall|x: int, y: int|
            #![trigger spec_data_key(x, y)]
            c1.row <= x < c2.row + 1 && c1.col <= y < c2.col + 1 implies {
            let q = spec_data_key(x, y) as i32;
            &&& fin.contains_key(q) == m.contains_key(q)
            &&& fin.contains_key(q) ==> fin[q] == m[q]
        } by {
            assert(reads(c, x, y));
            lemma_read_kept(s, root, order, states, timers, es, i, x, y);
        }
        lemma_bad_agree(fin, m, c1, c2);
        assert(fin.dom() =~= m.dom());
        assert(fin.len() == m.len());
        let nc = fin[kv];
        crate::calculate_functions::lemma_range_value_agree(fin, m, op, c1.row as int, c1.col as int, c2.row as int, c2.col as int, nc.value);
        assert(fin.insert(kv, nc) =~= fin);
        assert(recalc_step(fin, v as int % 1000, v as int / 1000, fin, 0, 0));
    } else {
        assert(recalc_step(fin, v as int % 1000, v as int / 1000, fin, 0, 0));
    }
}

/// The dependency graph of `s`, its range entries listed in the order `es`,
/// is consistent: no cell depends on itself, every cell that a stored
/// formula reads has that formula's cell among its dependents (through its
/// dependents or a range entry), every cell that a formula other than a
/// range function reads is stored, and no cell is reached from the
/// dependents of any cell by more edges than an `i32` counts.
pub open spec fn consistent_graph(s: Sheet, es: Seq<RangeTargets>) -> bool {
    &&& acyclic(s)
    &&& forall|v: i32, r: int, c: int|
        s.node_stored(v as int) && #[trigger] reads(cell_of(s, v as int), r, c) ==> out_ms(s, dep_key(r, c), es).count(v)
            > 0
    &&& forall|v: i32, r: int, c: int|
        s.node_stored(v as int) && #[trigger] reads(cell_of(s, v as int), r, c)
            && !crate::calculate_functions::is_range_op(cell_of(s, v as int).op_code) ==> s.cells().contains_key(
            spec_data_key(r, c) as i32,
        )
    &&& forall|root: int| s.valid_node(root) ==> edges_fit(s, #[trigger] dependents_of(s, root), es)
}

/// Setting formula `op` over `c1` (and `c2`) at `p` on a sheet whose
/// dependency graph is consistent, when the formula makes no cell depend on
/// itself (and, where a range formula is replaced or set, every position a
/// range entry holds is marked), leaves every cell that depended on `p`
/// holding what its formula gives on the new content.
pub proof fn lemma_formula_keeps_dependents(
    s0: Sheet,
    s1: Sheet,
    p: CellInfo,
    c1: CellInfo,
    c2: CellInfo,
    op: OpCode,
    w: Seq<(i64, RangeTargets)>,
)
    requires
        s0.wf(),
        s0.valid_pos(p.row as int, p.col as int),
        is_listing(w, s0.tuup@),
        consistent_graph(s0, listed_values(w)),
        !creates_cycle(s0, p, c1, c2, op),
        range_involved(s0, p, op) ==> marks_cover(s0),
        dependents_hold_after(s0, s1, p, c1, c2, op),
    ensures
        forall|v: i32|
            #[trigger] dependents_of(s0, dep_key(p.row as int, p.col as int)).contains(v) && v != dep_key(
                p.row as int,
                p.col as int,
            ) ==> formula_holds(s1.cells(), v as int),
{
    let root = dep_key(p.row as int, p.col as int);
    let es = listed_values(w);
    lemma_dep_key_decode(p.row as int, p.col as int);
    lemma_acyclic_on(s0, w, root);
    let keys = dependents_of(s0, root);
    assert forall|v: i32| keys.contains(v) && v != root implies s0.node_stored(v as int) by {
        let n = choose|n: nat| s0.reach(root, v as int, n);
        lemma_reach_stored(s0, root, v as int, n);
    }
    assert(dependents_registered(s0, root, es));
    assert(graph_conditions(s0, root, es));
    assert(consistency_conditions(s0, p, c1, c2, op, es));
}

/// After the cells that depend on `root` were recalculated one after
/// another in dependency order (as `recalculate_dependecy` does), each of
/// them holds what its formula gives on the final content: when the
/// in-degrees among them fit an `i32`, no path through them is a cycle,
/// every cell a dependent reads has an edge to it, and every cell a
/// dependent reads one by one (not through a range) is stored.
pub proof fn lemma_dependents_consistent(
    s: Sheet,
    root: int,
    order: Seq<i32>,
    fin: Map<i32, CellView>,
    t0: i32,
    t1: i32,
    es: Seq<RangeTargets>,
)
    requires
        s.wf(),
        s.valid_node(root),
        recalculated_in_order(s.cells(), fin, order, root, t0, t1),
        dependency_order(s, root, order, es),
        edges_fit(s, dependents_of(s, root), es),
        acyclic_on(s, es, dependents_of(s, root)),
        dependents_registered(s, root, es),
    ensures
        forall|v: i32| #[trigger] dependents_of(s, root).contains(v) && v != root ==> formula_holds(fin, v as int),
{
    let keys = dependents_of(s, root);
    let (states, timers) = choose|states: Seq<Map<i32, CellView>>, timers: Seq<i32>|
        #[trigger] recalc_chain(states, timers, order, root) && states[0] == s.cells() && states.last() == fin
            && timers[0] == t0 && timers.last() == t1;
    assert(order.to_set() == keys);
    assert forall|k: int|
        #![trigger order[k]]
        0 <= k < order.len() && order[k] != root implies states[0].contains_key(key_of(order[k] as int)) && forall|
            r: int,
            c: int,
        |
            #[trigger] reads(states[0][key_of(order[k] as int)], r, c)
                && !crate::calculate_functions::is_range_op(states[0][key_of(order[k] as int)].op_code)
                ==> states[0].contains_key(spec_data_key(r, c) as i32) by {
        let w = order[k];
        assert(keys.contains(w));
        let m0 = choose|m0: nat| s.reach(root, w as int, m0);
        lemma_reach_stored(s, root, w as int, m0);
        assert(s.cells()[key_of(w as int)] == cell_of(s, w as int));
    }
    assert forall|j: int| 0 <= j <= order.len() implies (#[trigger] states[j]).dom() == states[0].dom() by {
        lemma_chain_dom(states, timers, order, root, j);
    }
    assert forall|k: int, q: i32|
        #![trigger states[k][q]]
        0 <= k <= order.len() && states[0].contains_key(q) implies states[k][q].op_code == states[0][q].op_code
            && states[k][q].cell1 == states[0][q].cell1 && states[k][q].cell2 == states[0][q].cell2 by {
        lemma_chain_dom(states, timers, order, root, k);
    }
    assert forall|k: int|
        #![trigger order[k]]
        0 <= k < order.len() && order[k] != root implies states[0].contains_key(key_of(order[k] as int)) && forall|
            r: int,
            c: int,
        |
            #[trigger] reads(states[k][key_of(order[k] as int)], r, c)
                && !crate::calculate_functions::is_range_op(states[k][key_of(order[k] as int)].op_code)
                ==> states[k].contains_key(spec_data_key(r, c) as i32) by {
        let kw = key_of(order[k] as int);
        lemma_chain_dom(states, timers, order, root, k);
        assert forall|r: int, c: int|
            #[trigger] reads(states[k][kw], r, c) && !crate::calculate_functions::is_range_op(states[k][kw].op_code)
                implies states[k].contains_key(spec_data_key(r, c) as i32) by {
            assert(states[k][kw].op_code == states[0][kw].op_code);
            assert(reads(states[0][kw], r, c));
        }
    }
    assert(ordered_chain(s, root, order, states, timers, es));
    assert forall|v: i32| #[trigger] keys.contains(v) && v != root implies formula_holds(fin, v as int) by {
        assert(order.to_set().contains(v));
        let i = choose|i: int| 0 <= i < order.len() && order[i] == v;
        lemma_holds_at(s, root, order, states, timers, es, i);
    }
}

/// `lemma_dependents_consistent` where `hyp` stands for its conditions on
/// the sheet.
proof fn lemma_consistent_if(
    hyp: bool,
    s: Sheet,
    root: int,
    order: Seq<i32>,
    fin: Map<i32, CellView>,
    t0: i32,
    t1: i32,
    es: Seq<RangeTargets>,
)
    requires
        s.wf(),
        s.valid_node(root),
        recalculated_in_order(s.cells(), fin, order, root, t0, t1),
        dependency_order(s, root, order, es),
        hyp == graph_conditions(s, root, es),
    ensures
        hyp ==> forall|v: i32| #[trigger] dependents_of(s, root).contains(v) && v != root ==> formula_holds(fin, v as int),
{
    if hyp {
        lemma_dependents_consistent(s, root, order, fin, t0, t1, es);
    }
}

/// The dependents of a stored cell form a finite set.
proof fn lemma_deps_finite(c: Cell)
    ensures
        c.dependencies@.finite(),
{
    let q = vstd::std_specs::hash::spec_hash_keys_iter(&c.dependencies).remaining();
    vstd::seq_lib::seq_to_set_is_finite(q.unref());
}

/// Each entry of the map `m` is listed in `es`.
pub open spec fn entries_listed(m: Map<i64, RangeTargets>, es: Seq<RangeTargets>) -> bool {
    forall|k: i64| #[trigger] m.contains_key(k) ==> exists|j: int| 0 <= j < es.len() && es[j] == m[k]
}

/// The targets of an entry listed in `es` whose rectangle holds the
/// position are among its range keys.
proof fn lemma_range_keys_has(es: Seq<RangeTargets>, j: int, row: int, col: int, t: int)
    requires
        0 <= j < es.len(),
        in_rect(es[j], row, col),
        0 <= t < es[j].targets@.len(),
    ensures
        range_keys(es, row, col).contains(target_key(es[j], t) as i32),
    decreases es.len(),
{
    let rk = range_keys(es, row, col);
    let prev = range_keys(es.drop_last(), row, col);
    let ek = entry_keys(es.last(), row, col);
    assert(rk == prev + ek);
    if j == es.len() - 1 {
        assert(ek[t] == target_key(es[j], t) as i32);
        assert(rk[prev.len() + t] == ek[t]);
    } else {
        lemma_range_keys_has(es.drop_last(), j, row, col, t);
        let i = choose|i: int| 0 <= i < prev.len() && prev[i] == target_key(es[j], t) as i32;
        assert(rk[i] == prev[i]);
    }
}

/// An edge of the dependency graph is counted among the edges out of its
/// source.
proof fn lemma_edge_out(s: Sheet, es: Seq<RangeTargets>, u: int, v: int)
    requires
        s.wf(),
        s.valid_node(u),
        s.edge(u, v),
        entries_listed(s.tuup@, es),
    ensures
        i32::MIN <= v <= i32::MAX,
        out_ms(s, u, es).count(v as i32) > 0,
{
    broadcast use vstd::multiset::group_multiset_axioms;

    lemma_edge_valid(s, u, v);
    assert(v < s.cols * 1000) by {
        lemma_node_below(s, v);
    }
    let row = u % 1000;
    let col = u / 1000;
    let deps = s.cell_at(row, col).dependencies;
    let k = spec_data_key(row, col) as i32;
    if s.data@.contains_key(k) {
        lemma_deps_finite(s.data@[k]);
        lemma_from_set_count(deps);
    } else {
        assert(deps == Set::<i32>::empty());
        assert(deps.finite());
        lemma_from_set_count(deps);
    }
    if !deps.contains(v as i32) {
        let (kk, t) = choose|kk: i64, t: int|
            #![trigger s.tuup@[kk].targets@[t]]
            s.tuup@.contains_key(kk) && in_rect(s.tuup@[kk], row, col) && 0 <= t < s.tuup@[kk].targets@.len()
                && v == target_key(s.tuup@[kk], t);
        assert(s.tuup@.contains_key(kk));
        let j = choose|j: int| 0 <= j < es.len() && es[j] == s.tuup@[kk];
        lemma_range_keys_has(es, j, row, col, t);
        vstd::seq_lib::to_multiset_contains(range_keys(es, row, col), v as i32);
    }
}

/// A chain of dependency steps from `a` to another key `b` is a path of
/// edges, each key of which is reached from `a`.
proof fn lemma_reach_path(s: Sheet, es: Seq<RangeTargets>, a: int, b: int, n: nat) -> (c: Seq<i32>)
    requires
        s.wf(),
        s.valid_node(a),
        s.reach(a, b, n),
        a != b,
        entries_listed(s.tuup@, es),
    ensures
        dep_path(s, es, c),
        c[0] == a,
        c.last() == b,
        forall|i: int| 0 <= i < c.len() ==> #[trigger] s.reachable(a, c[i] as int),
    decreases n,
{
    lemma_node_below(s, a);
    let w = choose|w: int| #[trigger] s.edge(a, w) && s.reach(w, b, (n - 1) as nat);
    lemma_edge_out(s, es, a, w);
    lemma_edge_valid(s, a, w);
    assert(s.reach(a, a, 0));
    assert(s.reach(a, w, 1)) by {
        assert(s.reach(w, w, 0));
    }
    if w == b {
        let c = seq![a as i32, b as i32];
        assert(linked(s, es, c, 0));
        assert(s.reachable(a, c[0] as int) && s.reachable(a, c[1] as int));
        c
    } else {
        let c0 = lemma_reach_path(s, es, w, b, (n - 1) as nat);
        let c = seq![a as i32] + c0;
        assert forall|i: int| 0 <= i < c.len() - 1 implies #[trigger] linked(s, es, c, i) by {
            if i == 0 {
                assert(c[1] == c0[0]);
            } else {
                assert(linked(s, es, c0, i - 1));
                assert(c[i] == c0[i - 1] && c[i + 1] == c0[i]);
            }
        }
        assert forall|i: int| 0 <= i < c.len() implies #[trigger] s.reachable(a, c[i] as int) by {
            if i > 0 {
                assert(c[i] == c0[i - 1]);
                assert(s.reachable(w, c0[i - 1] as int));
                lemma_reach_step(s, a, w, c0[i - 1] as int);
            }
        }
        c
    }
}

/// When no path through the dependents of `root` is a cycle, none of them
/// has an edge into `root`.
proof fn lemma_no_edge_into_root(s: Sheet, es: Seq<RangeTargets>, root: int, u: int)
    requires
        s.wf(),
        s.valid_node(root),
        entries_listed(s.tuup@, es),
        acyclic_on(s, es, dependents_of(s, root)),
        s.reachable(root, u),
    ensures
        out_ms(s, u, es).count(root as i32) == 0,
{
    let keys = dependents_of(s, root);
    lemma_node_below(s, root);
    if out_ms(s, u, es).count(root as i32) > 0 {
        let n = choose|n: nat| s.reach(root, u, n);
        if u == root {
            let p = seq![root as i32, root as i32];
            assert(linked(s, es, p, 0));
            assert(dep_path(s, es, p));
            assert(s.reach(root, root, 0));
            assert(forall|i: int| 0 <= i < p.len() ==> keys.contains(p[i]));
        } else {
            let c = lemma_reach_path(s, es, root, u, n);
            let p = c.push(root as i32);
            assert forall|i: int| 0 <= i < p.len() - 1 implies #[trigger] linked(s, es, p, i) by {
                if i < c.len() - 1 {
                    assert(linked(s, es, c, i));
                    assert(p[i] == c[i] && p[i + 1] == c[i + 1]);
                } else {
                    assert(p[i] == c.last() && p[i + 1] == root as i32);
                }
            }
            assert(dep_path(s, es, p));
            assert(s.reach(root, root, 0));
            assert forall|i: int| 0 <= i < p.len() implies keys.contains(p[i]) by {
                if i < c.len() {
                    assert(s.reachable(root, c[i] as int));
                    assert(p[i] == c[i]);
                }
            }
            assert(p[0] == p.last());
        }
    }
}

/// The dependents of the cells of `s1` differ from those in `s0` by `d`
/// only (a cell stored in `s1` alone has no dependent but `d`), and every
/// cell stored in `s0` stays stored.
pub open spec fn dependents_differ_by(s0: Sheet, s1: Sheet, d: i32) -> bool {
    &&& forall|q: i32|
        #![trigger s1.data@[q]]
        s0.data@.contains_key(q) ==> s1.data@.contains_key(q) && s1.data@[q].dependencies@.remove(d)
            == s0.data@[q].dependencies@.remove(d)
    &&& forall|q: i32|
        #![trigger s1.data@[q]]
        s1.data@.contains_key(q) && !s0.data@.contains_key(q) ==> s1.data@[q].dependencies@.subset_of(set![d])
}

/// Direct dependents other than `d` are counted alike in `s0` and `s1`.
proof fn lemma_deps_count(s0: Sheet, s1: Sheet, d: i32, x: int, v: i32)
    requires
        dependents_differ_by(s0, s1, d),
        v != d,
    ensures
        Multiset::from_set(s1.cell_at(x % 1000, x / 1000).dependencies).count(v) == Multiset::from_set(
            s0.cell_at(x % 1000, x / 1000).dependencies,
        ).count(v),
{
    let row = x % 1000;
    let col = x / 1000;
    let k = spec_data_key(row, col) as i32;
    let a = s0.cell_at(row, col).dependencies;
    let b = s1.cell_at(row, col).dependencies;
    if s0.data@.contains_key(k) {
        lemma_deps_finite(s0.data@[k]);
        lemma_deps_finite(s1.data@[k]);
        assert(a.remove(d).contains(v) == b.remove(d).contains(v));
    } else if s1.data@.contains_key(k) {
        lemma_deps_finite(s1.data@[k]);
        assert(!b.contains(v));
        assert(a == Set::<i32>::empty());
    } else {
        assert(a == Set::<i32>::empty() && b == Set::<i32>::empty());
    }
    assert(a.finite() && b.finite());
    lemma_from_set_count(a);
    lemma_from_set_count(b);
}

/// When every key of `all` has as many edges into `v` in `s0` as in `s1`,
/// so have all of them together.
proof fn lemma_keys_ms_count_eq(
    s0: Sheet,
    s1: Sheet,
    all: Seq<i32>,
    es0: Seq<RangeTargets>,
    es1: Seq<RangeTargets>,
    v: i32,
)
    requires
        forall|i: int| 0 <= i < all.len() ==> out_ms(s1, #[trigger] all[i] as int, es1).count(v) == out_ms(
            s0,
            all[i] as int,
            es0,
        ).count(v),
    ensures
        keys_ms(s1, all, es1).count(v) == keys_ms(s0, all, es0).count(v),
    decreases all.len(),
{
    broadcast use vstd::multiset::group_multiset_axioms;

    if all.len() > 0 {
        let p = all.drop_last();
        assert forall|i: int| 0 <= i < p.len() implies out_ms(s1, #[trigger] p[i] as int, es1).count(v) == out_ms(
            s0,
            p[i] as int,
            es0,
        ).count(v) by {
            assert(p[i] == all[i]);
        }
        lemma_keys_ms_count_eq(s0, s1, p, es0, es1, v);
        assert(out_ms(s1, all[all.len() - 1] as int, es1).count(v) == out_ms(s0, all[all.len() - 1] as int, es0).count(v));
    }
}

/// A path followed by a dependency step is a path.
proof fn lemma_reach_append(s: Sheet, root: int, a: int, w: int)
    requires
        s.reachable(root, a),
        s.edge(a, w),
    ensures
        s.reachable(root, w),
{
    let n = choose|n: nat| s.reach(root, a, n);
    lemma_reach_append_n(s, root, a, w, n);
}

proof fn lemma_reach_append_n(s: Sheet, root: int, a: int, w: int, n: nat)
    requires
        s.reach(root, a, n),
        s.edge(a, w),
    ensures
        s.reachable(root, w),
    decreases n,
{
    if root == a {
        assert(s.reach(w, w, 0));
        assert(s.reach(root, w, 1));
    } else {
        let x = choose|x: int| #[trigger] s.edge(root, x) && s.reach(x, a, (n - 1) as nat);
        lemma_reach_append_n(s, x, a, w, (n - 1) as nat);
        lemma_reach_step(s, root, x, w);
    }
}

/// Two sheets with the same edges out of every key reached from `root` in
/// `s0` reach the same keys from there.
proof fn lemma_reach_same(s0: Sheet, s1: Sheet, root: int, a: int, v: int, n: nat)
    requires
        s0.reachable(root, a),
        forall|u: int, w: int| #![trigger s1.edge(u, w)] s0.reachable(root, u) ==> (s1.edge(u, w) == s0.edge(u, w)),
    ensures
        s0.reach(a, v, n) == s1.reach(a, v, n),
    decreases n,
{
    if a != v && n > 0 {
        if s0.reach(a, v, n) {
            let w = choose|w: int| #[trigger] s0.edge(a, w) && s0.reach(w, v, (n - 1) as nat);
            assert(s1.edge(a, w));
            assert(s0.reach(w, w, 0));
            assert(s0.reach(a, w, 1));
            lemma_reach_append(s0, root, a, w);
            lemma_reach_same(s0, s1, root, w, v, (n - 1) as nat);
        }
        if s1.reach(a, v, n) {
            let w = choose|w: int| #[trigger] s1.edge(a, w) && s1.reach(w, v, (n - 1) as nat);
            assert(s0.edge(a, w));
            lemma_reach_append(s0, root, a, w);
            lemma_reach_same(s0, s1, root, w, v, (n - 1) as nat);
        }
    }
}

/// From `s0` to a sheet `s1` with the same edges out of every cell that
/// depends on `root` (counted with the entries `es0` and `es1`), where every
/// stored cell stays stored and every other cell keeps its formula: when no
/// path through the dependents in `s0` is a cycle, the dependents, the
/// absence of cycles, the fitting of in-degrees and the registration of
/// their formulas stay.
proof fn lemma_transfer_core(s0: Sheet, s1: Sheet, root: int, es0: Seq<RangeTargets>, es1: Seq<RangeTargets>)
    requires
        s0.wf(),
        s1.wf(),
        s0.valid_node(root),
        acyclic_on(s0, es0, dependents_of(s0, root)),
        forall|u: int, w: int| #![trigger s1.edge(u, w)] s0.reachable(root, u) ==> (s1.edge(u, w) == s0.edge(u, w)),
        forall|u: int, v: i32|
            s0.reachable(root, u) ==> #[trigger] out_ms(s1, u, es1).count(v) == out_ms(s0, u, es0).count(v),
        forall|x: int, v: i32|
            s0.reachable(root, v as int) && v != root ==> #[trigger] out_ms(s1, x, es1).count(v) >= out_ms(
                s0,
                x,
                es0,
            ).count(v),
        forall|q: i32| #![trigger s1.data@.contains_key(q)] s0.data@.contains_key(q) ==> s1.data@.contains_key(q),
        forall|q: i32|
            #![trigger s1.data@[q]]
            s0.data@.contains_key(q) && q != key_of(root) ==> s1.data@[q].op_code == s0.data@[q].op_code
                && s1.data@[q].cell1 == s0.data@[q].cell1 && s1.data@[q].cell2 == s0.data@[q].cell2,
    ensures
        dependents_of(s1, root) == dependents_of(s0, root),
        acyclic_on(s1, es1, dependents_of(s0, root)),
        edges_fit(s0, dependents_of(s0, root), es0) ==> edges_fit(s1, dependents_of(s0, root), es1),
        dependents_registered(s0, root, es0) ==> dependents_registered(s1, root, es1),
{
    broadcast use vstd::multiset::group_multiset_axioms;

    let keys = dependents_of(s0, root);
    assert forall|v: i32| dependents_of(s1, root).contains(v) <==> keys.contains(v) by {
        assert(s0.reach(root, root, 0));
        if keys.contains(v) {
            let n = choose|n: nat| s0.reach(root, v as int, n);
            lemma_reach_same(s0, s1, root, root, v as int, n);
        }
        if dependents_of(s1, root).contains(v) {
            let n = choose|n: nat| s1.reach(root, v as int, n);
            lemma_reach_same(s0, s1, root, root, v as int, n);
        }
    }
    assert(dependents_of(s1, root) =~= keys);
    assert forall|c: Seq<i32>|
        #[trigger] dep_path(s1, es1, c) && (forall|i: int| 0 <= i < c.len() ==> keys.contains(c[i])) implies c[0]
            != c.last() by {
        assert forall|i: int| 0 <= i < c.len() - 1 implies #[trigger] linked(s0, es0, c, i) by {
            assert(linked(s1, es1, c, i));
            assert(keys.contains(c[i]));
            assert(out_ms(s1, c[i] as int, es1).count(c[i + 1]) == out_ms(s0, c[i] as int, es0).count(c[i + 1]));
        }
        assert(dep_path(s0, es0, c));
    }
    if edges_fit(s0, keys, es0) {
        assert forall|all: Seq<i32>, v: i32|
            all.no_duplicates() && all.to_set() == keys implies #[trigger] keys_ms(s1, all, es1).count(v) <= i32::MAX by {
            assert forall|i: int| 0 <= i < all.len() implies out_ms(s1, #[trigger] all[i] as int, es1).count(v)
                == out_ms(s0, all[i] as int, es0).count(v) by {
                assert(all.to_set().contains(all[i]));
            }
            lemma_keys_ms_count_eq(s0, s1, all, es0, es1, v);
            assert(keys_ms(s0, all, es0).count(v) <= i32::MAX);
        }
    }
    if dependents_registered(s0, root, es0) {
        assert forall|v: i32, r: int, c: int|
            keys.contains(v) && v != root && #[trigger] reads(cell_of(s1, v as int), r, c) implies out_ms(
            s1,
            dep_key(r, c),
            es1,
        ).count(v) > 0 by {
            let kv = key_of(v as int);
            let n = choose|n: nat| s0.reach(root, v as int, n);
            lemma_reach_stored(s0, root, v as int, n);
            if kv == key_of(root) {
                lemma_key_of_injective(s0, v as int, root);
            }
            assert(s1.data@[kv].op_code == s0.data@[kv].op_code);
            assert(cell_of(s1, v as int).op_code == cell_of(s0, v as int).op_code);
            assert(reads(cell_of(s0, v as int), r, c));
            assert(out_ms(s0, dep_key(r, c), es0).count(v) > 0);
            assert(out_ms(s1, dep_key(r, c), es1).count(v) >= out_ms(s0, dep_key(r, c), es0).count(v));
        }
        assert forall|v: i32, r: int, c: int|
            keys.contains(v) && v != root && #[trigger] reads(cell_of(s1, v as int), r, c)
                && !crate::calculate_functions::is_range_op(cell_of(s1, v as int).op_code) implies s1.cells().contains_key(
            spec_data_key(r, c) as i32,
        ) by {
            let kv = key_of(v as int);
            let n = choose|n: nat| s0.reach(root, v as int, n);
            lemma_reach_stored(s0, root, v as int, n);
            if kv == key_of(root) {
                lemma_key_of_injective(s0, v as int, root);
            }
            assert(s1.data@[kv].op_code == s0.data@[kv].op_code);
            assert(cell_of(s1, v as int).op_code == cell_of(s0, v as int).op_code);
            assert(reads(cell_of(s0, v as int), r, c));
            let q = spec_data_key(r, c) as i32;
            assert(s0.cells().contains_key(q));
            assert(s0.data@.contains_key(q));
            assert(s1.data@.contains_key(q));
        }
    }
}

/// Removing the dependencies of the formula at `p` stores no new cell, only
/// takes `d` (the key of `p`) out of dependents, and keeps the formula of
/// every other stored cell.
proof fn lemma_removal_deps(s0: Sheet, b: Seq<Vec<bool>>, r: Sheet, p: CellInfo)
    requires
        removal_post(s0, b, r, p),
    ensures
        forall|q: i32| #[trigger] r.cells().contains_key(q) == s0.cells().contains_key(q),
        forall|q: i32|
            #[trigger] s0.cells().contains_key(q) ==> r.cells()[q].dependencies.remove(
                dep_key(p.row as int, p.col as int) as i32,
            ) == s0.cells()[q].dependencies.remove(dep_key(p.row as int, p.col as int) as i32)
                && r.cells()[q].dependencies.subset_of(s0.cells()[q].dependencies),
        forall|q: i32|
            #[trigger] s0.cells().contains_key(q) && q != spec_data_key(p.row as int, p.col as int) as i32
                ==> r.cells()[q].op_code == s0.cells()[q].op_code && r.cells()[q].cell1 == s0.cells()[q].cell1
                && r.cells()[q].cell2 == s0.cells()[q].cell2,
{
    let k = spec_data_key(p.row as int, p.col as int) as i32;
    let d = dep_key(p.row as int, p.col as int) as i32;
    let m = s0.cells();
    let rm = r.cells();
    if m.contains_key(k) {
        let op = m[k].op_code;
        let a = m[k].cell1;
        let c = m[k].cell2;
        let w1 = without_dependent(m, a, d);
        let w2 = without_dependent(w1, c, d);
        assert forall|q: i32| #[trigger] m.contains_key(q) implies w1[q].dependencies.remove(d)
            == m[q].dependencies.remove(d) && w1[q].dependencies.subset_of(m[q].dependencies)
            && w1.contains_key(q) by {
            assert(w1[q].dependencies.remove(d) =~= m[q].dependencies.remove(d));
        }
        assert(w1.dom() == m.dom());
        assert forall|q: i32| #[trigger] m.contains_key(q) implies w2[q].dependencies.remove(d)
            == m[q].dependencies.remove(d) && w2[q].dependencies.subset_of(m[q].dependencies)
            && w2.contains_key(q) by {
            assert(w2[q].dependencies.remove(d) =~= w1[q].dependencies.remove(d));
        }
        assert(w2.dom() == m.dom());
        if is_single_ref_op(op) {
            assert(rm.dom() =~= m.dom());
        } else if is_cell_cell_op(op) {
            assert(rm.dom() =~= m.dom());
        } else {
            assert(rm.dom() =~= m.dom());
        }
    }
}

/// Setting formula `op` at `p` over content `m`, registering it and writing
/// its first outcome keeps every stored cell, adds `d` (the key of `p`) only
/// to the dependents of the cells the formula reads, gives cells stored
/// anew no dependent but `d`, and keeps the formula of every other stored
/// cell.
proof fn lemma_registration_deps(
    m: Map<i32, CellView>,
    m1: Map<i32, CellView>,
    p: CellInfo,
    op: OpCode,
    c1: CellInfo,
    c2: CellInfo,
    out: (bool, i32, Seq<char>),
)
    requires
        m1 == registered(formula_set(m, p, op, c1, c2), p, op, c1, c2).insert(
            spec_data_key(p.row as int, p.col as int) as i32,
            first_written(
                formula_set(m, p, op, c1, c2)[spec_data_key(p.row as int, p.col as int) as i32],
                op,
                out,
            ),
        ),
    ensures
        forall|q: i32|
            #[trigger] m.contains_key(q) ==> m1.contains_key(q) && m1[q].dependencies.remove(
                dep_key(p.row as int, p.col as int) as i32,
            ) == m[q].dependencies.remove(dep_key(p.row as int, p.col as int) as i32),
        forall|q: i32|
            #[trigger] m1.contains_key(q) && !m.contains_key(q) ==> m1[q].dependencies.subset_of(
                set![dep_key(p.row as int, p.col as int) as i32],
            ),
        forall|q: i32|
            #[trigger] m1.contains_key(q) && m1[q].dependencies.contains(dep_key(p.row as int, p.col as int) as i32)
                && !(m.contains_key(q) && m[q].dependencies.contains(dep_key(p.row as int, p.col as int) as i32)) ==> (!(op is NoConstraint
                || op is String || crate::calculate_functions::is_range_op(op)) && q == spec_data_key(
                c1.row as int,
                c1.col as int,
            ) as i32) || (is_cell_cell_op(op) && q == spec_data_key(c2.row as int, c2.col as int) as i32),
        forall|q: i32|
            #[trigger] m.contains_key(q) && q != spec_data_key(p.row as int, p.col as int) as i32
                ==> m1[q].op_code == m[q].op_code && m1[q].cell1 == m[q].cell1 && m1[q].cell2 == m[q].cell2,
{
    let k = spec_data_key(p.row as int, p.col as int) as i32;
    let d = dep_key(p.row as int, p.col as int) as i32;
    let fs = formula_set(m, p, op, c1, c2);
    let ka = spec_data_key(c1.row as int, c1.col as int) as i32;
    let kb = spec_data_key(c2.row as int, c2.col as int) as i32;
    let e1 = ensure_cell(ensure_cell(fs, c1.row as int, c1.col as int), c2.row as int, c2.col as int);
    let g1 = with_dependent(e1, c1, d);
    let g2 = with_dependent(g1, c2, d);
    let h1 = with_dependent(fs, c1, d);
    assert forall|q: i32| #[trigger] m.contains_key(q) implies m1.contains_key(q) && m1[q].dependencies.remove(d)
        == m[q].dependencies.remove(d) by {
        assert(fs.contains_key(q) && fs[q].dependencies == m[q].dependencies);
        if q == k {
        } else if op is NoConstraint || op is String || crate::calculate_functions::is_range_op(op) {
        } else if is_cell_cell_op(op) {
            assert(g2[q].dependencies.remove(d) =~= m[q].dependencies.remove(d));
        } else {
            assert(h1[q].dependencies.remove(d) =~= m[q].dependencies.remove(d));
        }
    }
    assert forall|q: i32| #[trigger] m1.contains_key(q) && !m.contains_key(q) implies m1[q].dependencies.subset_of(
        set![d],
    ) by {
        if q == k {
            assert(fs[k].dependencies == Set::<i32>::empty());
        } else if op is NoConstraint || op is String || crate::calculate_functions::is_range_op(op) {
        } else if is_cell_cell_op(op) {
            assert(!fs.contains_key(q));
            assert(e1[q].dependencies == Set::<i32>::empty());
        } else {
            assert(!fs.contains_key(q));
        }
    }
}

/// After `add_constraints` accepted a formula at `p` and recalculated the
/// dependents of the cell in the order the sort gave: where `hyp` holds (the
/// in-degrees among the dependents fit, no path through them is a cycle,
/// their formulas are registered and, where a range formula is replaced or
/// set, every position a range entry holds is marked, all in the sheet
/// before), each dependent holds what its formula gives on the final
/// content.
proof fn lemma_constraint_consistent(
    hyp: bool,
    s0: Sheet,
    b: Seq<Vec<bool>>,
    r: Sheet,
    s1: Sheet,
    p: CellInfo,
    op: OpCode,
    c1: CellInfo,
    c2: CellInfo,
    out: (bool, i32, Seq<char>),
    t0: Map<i32, i32>,
    tree: Map<i32, i32>,
    order: Seq<i32>,
    fin: Map<i32, CellView>,
    tm: i32,
    t1: i32,
    w0: Seq<(i64, RangeTargets)>,
    w1: Seq<(i64, RangeTargets)>,
    es0: Seq<RangeTargets>,
    es1: Seq<RangeTargets>,
)
    requires
        s0.wf(),
        s1.wf(),
        s0.valid_pos(p.row as int, p.col as int),
        s1.rows == s0.rows,
        s1.cols == s0.cols,
        removal_post(s0, b, r, p),
        if crate::calculate_functions::is_range_op(op) {
            marks_set(s0.buul@, b, c1, c2)
        } else {
            b == s0.buul@
        },
        s1.cells() == registered(formula_set(r.cells(), p, op, c1, c2), p, op, c1, c2).insert(
            spec_data_key(p.row as int, p.col as int) as i32,
            first_written(
                formula_set(r.cells(), p, op, c1, c2)[spec_data_key(p.row as int, p.col as int) as i32],
                op,
                out,
            ),
        ),
        s1.buul@ == r.buul@,
        if crate::calculate_functions::is_range_op(op) {
            target_added(
                r.tuup@,
                s1.tuup@,
                spec_range_key(c1.col as int, c1.row as int, c2.col as int, c2.row as int) as i64,
                (p.col, p.row),
                c1,
                c2,
            )
        } else {
            s1.tuup@ == r.tuup@
        },
        !creates_cycle(s0, p, c1, c2, op),
        is_listing(w0, s0.tuup@),
        is_listing(w1, s1.tuup@),
        es0 == listed_values(w0),
        es1 == listed_values(w1),
        t0.dom() == set![dep_key(p.row as int, p.col as int) as i32],
        t0[dep_key(p.row as int, p.col as int) as i32] == 0,
        exists|ex: Seq<i32>|
            #[trigger] tree_counted(s0, t0, tree, out_ms(s0, dep_key(p.row as int, p.col as int), es0), ex, es0),
        tree.dom() == dependents_of(s0, dep_key(p.row as int, p.col as int)),
        forall|i: int| 0 <= i < order.len() ==> tree.contains_key(#[trigger] order[i]),
        (exists|all: Seq<i32>| kahn_counts(s1, tree, all, es1)) ==> {
            &&& order.no_duplicates()
            &&& forall|i: int, j: int|
                #![trigger order[i], order[j]]
                0 <= i < j < order.len() ==> out_ms(s1, order[j] as int, es1).count(order[i]) == 0
            &&& acyclic_on(s1, es1, tree.dom()) ==> order.to_set() == tree.dom()
        },
        recalculated_in_order(s1.cells(), fin, order, dep_key(p.row as int, p.col as int), tm, t1),
        hyp ==> {
            let root = dep_key(p.row as int, p.col as int);
            let keys = dependents_of(s0, root);
            &&& edges_fit(s0, keys, es0)
            &&& acyclic_on(s0, es0, keys)
            &&& dependents_registered(s0, root, es0)
            &&& crate::calculate_functions::is_range_op(op) || (s0.cells().contains_key(
                spec_data_key(p.row as int, p.col as int) as i32,
            ) && crate::calculate_functions::is_range_op(
                s0.cells()[spec_data_key(p.row as int, p.col as int) as i32].op_code,
            )) ==> marks_cover(s0)
        },
    ensures
        hyp ==> forall|v: i32|
            #[trigger] dependents_of(s0, dep_key(p.row as int, p.col as int)).contains(v) && v != dep_key(
                p.row as int,
                p.col as int,
            ) ==> formula_holds(fin, v as int),
{
    if hyp {
        broadcast use vstd::multiset::group_multiset_axioms;

        let root = dep_key(p.row as int, p.col as int);
        let key = root as i32;
        let keys = dependents_of(s0, root);
        lemma_dep_key_decode(p.row as int, p.col as int);
        lemma_formula_transfer(s0, b, r, s1, p, op, c1, c2, out, w0, w1);
        let ex = choose|ex: Seq<i32>| #[trigger] tree_counted(s0, t0, tree, out_ms(s0, root, es0), ex, es0);
        assert(out_ms(s0, key as int, es0) == out_ms(s0, root, es0));
        lemma_counts_from_tree(true, s0, key, t0, tree, ex, es0);
        let all = seq![key] + ex;
        assert forall|v: i32| #![trigger tree[v]] tree.contains_key(v) implies tree[v] == keys_ms(s1, all, es1).count(v) by {
            assert forall|i: int| 0 <= i < all.len() implies out_ms(s1, #[trigger] all[i] as int, es1).count(v)
                == out_ms(s0, all[i] as int, es0).count(v) by {
                assert(all.to_set().contains(all[i]));
                assert(keys.contains(all[i]));
            }
            lemma_keys_ms_count_eq(s0, s1, all, es0, es1, v);
        }
        assert(kahn_counts(s1, tree, all, es1));
        assert(dependency_order(s1, root, order, es1));
        assert(s1.valid_node(root));
        lemma_dependents_consistent(s1, root, order, fin, tm, t1, es1);
    }
}

/// Distinct rectangles have distinct range keys.
proof fn lemma_range_key_injective(a: int, b: int, c: int, d: int, a2: int, b2: int, c2: int, d2: int)
    requires
        i16::MIN <= a <= i16::MAX,
        i16::MIN <= b <= i16::MAX,
        i16::MIN <= c <= i16::MAX,
        i16::MIN <= d <= i16::MAX,
        i16::MIN <= a2 <= i16::MAX,
        i16::MIN <= b2 <= i16::MAX,
        i16::MIN <= c2 <= i16::MAX,
        i16::MIN <= d2 <= i16::MAX,
        spec_range_key(a, b, c, d) == spec_range_key(a2, b2, c2, d2),
    ensures
        a == a2 && b == b2 && c == c2 && d == d2,
{
    let y = (a2 - a) * 0x1_0000_0000 + (b2 - b) * 0x1_0000 + (c2 - c);
    assert(d - d2 == 0x1_0000 * y);
    assert(d == d2);
    let z = (a2 - a) * 0x1_0000 + (b2 - b);
    assert(c - c2 == 0x1_0000 * z);
    assert(c == c2);
    assert(b - b2 == 0x1_0000 * (a2 - a));
    assert(b == b2);
}

/// Every position that a range entry of the sheet holds is marked.
pub open spec fn marks_cover(s: Sheet) -> bool {
    forall|r: int, c: int| #![trigger covered(s.tuup@, r, c)] covered(s.tuup@, r, c) ==> s.buul@[r]@[c]
}

/// In a well-formed sheet only positions inside the sheet are held by a
/// range entry.
proof fn lemma_covered_valid(s: Sheet, r: int, c: int)
    requires
        s.wf(),
        covered(s.tuup@, r, c),
    ensures
        s.valid_pos(r, c),
{
    let k = choose|k: i64| #[trigger] s.tuup@.contains_key(k) && in_rect(s.tuup@[k], r, c);
    let e = s.tuup@[k];
    assert(s.rect_fits(e.start_row as int, e.start_col as int, e.end_row as int, e.end_col as int));
}

/// A listing of the entries of a map lists each of them.
proof fn lemma_listing_entries(w: Seq<(i64, RangeTargets)>, t: Map<i64, RangeTargets>)
    requires
        is_listing(w, t),
    ensures
        entries_listed(t, listed_values(w)),
{
    assert forall|k: i64| #[trigger] t.contains_key(k) implies exists|j: int|
        0 <= j < listed_values(w).len() && listed_values(w)[j] == t[k] by {
        let i = choose|i: int| 0 <= i < w.len() && (#[trigger] w[i]).0 == k;
        assert(listed_values(w)[i] == w[i].1);
    }
}

/// In a well-formed sheet whose range entries are listed by `w`, a valid
/// node has an edge to `x` exactly when the edges out of it count `x`.
proof fn lemma_edge_iff(s: Sheet, w: Seq<(i64, RangeTargets)>, u: int, x: int)
    requires
        s.wf(),
        s.valid_node(u),
        is_listing(w, s.tuup@),
    ensures
        s.edge(u, x) <==> (i32::MIN <= x <= i32::MAX && out_ms(s, u, listed_values(w)).count(x as i32) > 0),
{
    broadcast use vstd::multiset::group_multiset_axioms;

    let es = listed_values(w);
    lemma_listing_entries(w, s.tuup@);
    if s.edge(u, x) {
        lemma_edge_out(s, es, u, x);
    }
    if i32::MIN <= x <= i32::MAX && out_ms(s, u, es).count(x as i32) > 0 {
        let row = u % 1000;
        let col = u / 1000;
        let deps = s.cell_at(row, col).dependencies;
        let k = spec_data_key(row, col) as i32;
        if s.data@.contains_key(k) {
            lemma_deps_finite(s.data@[k]);
        }
        assert(deps.finite());
        lemma_from_set_count(deps);
        if !deps.contains(x as i32) {
            assert(s.buul@[row]@[col]);
            assert(range_keys(es, row, col).to_multiset() == listed_keys(w, row, col));
            lemma_listing_found(w, s.tuup@, row, col, x as i32);
            let (kk, t) = choose|kk: i64, t: int|
                #![trigger s.tuup@[kk].targets@[t]]
                s.tuup@.contains_key(kk) && in_rect(s.tuup@[kk], row, col) && 0 <= t < s.tuup@[kk].targets@.len()
                    && x as i32 == target_key(s.tuup@[kk], t) as i32;
            let pt = s.tuup@[kk].targets@[t];
            lemma_dep_key_decode(pt.1 as int, pt.0 as int);
            lemma_node_below(s, target_key(s.tuup@[kk], t));
            assert(x == target_key(s.tuup@[kk], t));
            assert(s.range_dep(u, x));
        }
    }
}

/// Dropping a target holds no position that was not held.
proof fn lemma_dropped_covered(t0: Map<i64, RangeTargets>, tr: Map<i64, RangeTargets>, k: i64, pt: (i16, i16), row: int, col: int)
    requires
        target_dropped(t0, tr, k, pt),
        covered(tr, row, col),
    ensures
        covered(t0, row, col),
{
    let q = choose|q: i64| #[trigger] tr.contains_key(q) && in_rect(tr[q], row, col);
    assert(t0.contains_key(q));
    assert(in_rect(t0[q], row, col));
}

/// Adding a target holds no new position but those of its entry.
proof fn lemma_added_covered(
    tr: Map<i64, RangeTargets>,
    t1: Map<i64, RangeTargets>,
    k: i64,
    pt: (i16, i16),
    c1: CellInfo,
    c2: CellInfo,
    row: int,
    col: int,
)
    requires
        target_added(tr, t1, k, pt, c1, c2),
        covered(t1, row, col),
    ensures
        covered(tr, row, col) || in_rect(t1[k], row, col),
{
    let q = choose|q: i64| #[trigger] t1.contains_key(q) && in_rect(t1[q], row, col);
    if q != k {
        assert(tr.contains_key(q));
        assert(in_rect(tr[q], row, col));
    }
}

/// The keys counted at `(row, col)` through range entries listed by `w`
/// when the position is marked in `s`; none otherwise.
pub open spec fn marked_count(s: Sheet, w: Seq<(i64, RangeTargets)>, row: int, col: int, v: i32) -> int {
    if s.buul@[row]@[col] {
        listed_keys(w, row, col).count(v) as int
    } else {
        0
    }
}

/// From `s0` to `s1`, whose range entries went through `tr` (target `pt`
/// dropped from the entry under `k_old` and the marks of the rectangle
/// `oc1 ..= oc2` recomputed, when `old_range`) and whose marks went through
/// `b` (the rectangle `c1 ..= c2` marked and `pt` added to the entry under
/// `k_new`, when `new_range`): when every position a range entry of `s0`
/// holds is marked, the keys but that of `pt` counted at a position
/// through marked entries do not decrease, and outside `c1 ..= c2` they
/// stay, the key of `pt` not increasing.
proof fn lemma_marks_keys(
    s0: Sheet,
    s1: Sheet,
    tr: Map<i64, RangeTargets>,
    b: Seq<Vec<bool>>,
    old_range: bool,
    k_old: i64,
    oc1: CellInfo,
    oc2: CellInfo,
    new_range: bool,
    k_new: i64,
    pt: (i16, i16),
    c1: CellInfo,
    c2: CellInfo,
    w0: Seq<(i64, RangeTargets)>,
    w1: Seq<(i64, RangeTargets)>,
    row: int,
    col: int,
    v: i32,
)
    requires
        s0.wf(),
        s1.wf(),
        s1.rows == s0.rows,
        s1.cols == s0.cols,
        is_listing(w0, s0.tuup@),
        is_listing(w1, s1.tuup@),
        old_range || new_range ==> marks_cover(s0),
        if old_range {
            target_dropped(s0.tuup@, tr, k_old, pt) && marks_recomputed(b, s1.buul@, tr, oc1, oc2)
        } else {
            tr == s0.tuup@ && s1.buul@ == b
        },
        if new_range {
            &&& target_added(tr, s1.tuup@, k_new, pt, c1, c2)
            &&& marks_set(s0.buul@, b, c1, c2)
            &&& s1.tuup@[k_new].start_row == c1.row
            &&& s1.tuup@[k_new].start_col == c1.col
            &&& s1.tuup@[k_new].end_row == c2.row
            &&& s1.tuup@[k_new].end_col == c2.col
        } else {
            s1.tuup@ == tr && b == s0.buul@
        },
    ensures
        v != dep_key(pt.1 as int, pt.0 as int) as i32 ==> marked_count(s1, w1, row, col, v) >= marked_count(
            s0,
            w0,
            row,
            col,
            v,
        ),
        !(new_range && c1.row <= row <= c2.row && c1.col <= col <= c2.col) ==> {
            &&& v != dep_key(pt.1 as int, pt.0 as int) as i32 ==> marked_count(s1, w1, row, col, v)
                == marked_count(s0, w0, row, col, v)
            &&& marked_count(s1, w1, row, col, v) <= marked_count(s0, w0, row, col, v)
        },
{
    broadcast use vstd::multiset::group_multiset_axioms;

    let d = dep_key(pt.1 as int, pt.0 as int) as i32;
    let t0 = s0.tuup@;
    let t1 = s1.tuup@;
    lemma_range_counts(t0, tr, t1, old_range, k_old, new_range, k_new, pt, c1, c2, w0, w1, row, col, v);
    let in_new = new_range && c1.row <= row <= c2.row && c1.col <= col <= c2.col;
    if new_range {
        assert(in_rect(t1[k_new], row, col) == in_new);
    }
    if !s0.valid_pos(row, col) {
        if covered(t0, row, col) {
            lemma_covered_valid(s0, row, col);
        }
        if covered(t1, row, col) {
            lemma_covered_valid(s1, row, col);
        }
        lemma_listing_uncovered(w0, t0, row, col);
        lemma_listing_uncovered(w1, t1, row, col);
    } else {
        let m0 = s0.buul@[row]@[col];
        let m1 = s1.buul@[row]@[col];
        let in_old = old_range && oc1.row <= row <= oc2.row && oc1.col <= col <= oc2.col;
        assert(b.len() == s0.rows && b[row]@.len() == s0.cols);
        assert(m1 == if in_old {
            covered(tr, row, col)
        } else {
            in_new || m0
        });
        if !m0 {
            if old_range || new_range {
                assert(!covered(t0, row, col));
                lemma_listing_uncovered(w0, t0, row, col);
                if covered(tr, row, col) && old_range {
                    lemma_dropped_covered(t0, tr, k_old, pt, row, col);
                }
                assert(!covered(tr, row, col));
                if !in_new && covered(t1, row, col) {
                    if new_range {
                        lemma_added_covered(tr, t1, k_new, pt, c1, c2, row, col);
                    }
                }
                if !in_new {
                    assert(!covered(t1, row, col));
                    lemma_listing_uncovered(w1, t1, row, col);
                }
            }
        } else if !m1 {
            assert(in_old && !covered(tr, row, col));
            if !in_new && covered(t1, row, col) {
                if new_range {
                    lemma_added_covered(tr, t1, k_new, pt, c1, c2, row, col);
                }
            }
        }
    }
}

/// From `s0` to the sheet `s1` left right after `add_constraints` replaced
/// the formula at `p` (through the removal `r`, with marks `b` before it)
/// without making a cell depend on itself, the range entries of `s0` and
/// `s1` listed by `w0` and `w1`: when no path through the dependents of `p`
/// in `s0` is a cycle (and every position a range entry holds is marked,
/// where a range formula is replaced or set), the dependents of `p`, the
/// edges out of them, the absence of cycles among them, the fitting of their
/// in-degrees and the registration of their formulas stay.
proof fn lemma_formula_transfer(
    s0: Sheet,
    b: Seq<Vec<bool>>,
    r: Sheet,
    s1: Sheet,
    p: CellInfo,
    op: OpCode,
    c1: CellInfo,
    c2: CellInfo,
    out: (bool, i32, Seq<char>),
    w0: Seq<(i64, RangeTargets)>,
    w1: Seq<(i64, RangeTargets)>,
)
    requires
        s0.wf(),
        s1.wf(),
        s0.valid_pos(p.row as int, p.col as int),
        s1.rows == s0.rows,
        s1.cols == s0.cols,
        removal_post(s0, b, r, p),
        if crate::calculate_functions::is_range_op(op) {
            marks_set(s0.buul@, b, c1, c2)
        } else {
            b == s0.buul@
        },
        s1.cells() == registered(formula_set(r.cells(), p, op, c1, c2), p, op, c1, c2).insert(
            spec_data_key(p.row as int, p.col as int) as i32,
            first_written(
                formula_set(r.cells(), p, op, c1, c2)[spec_data_key(p.row as int, p.col as int) as i32],
                op,
                out,
            ),
        ),
        s1.buul@ == r.buul@,
        if crate::calculate_functions::is_range_op(op) {
            target_added(
                r.tuup@,
                s1.tuup@,
                spec_range_key(c1.col as int, c1.row as int, c2.col as int, c2.row as int) as i64,
                (p.col, p.row),
                c1,
                c2,
            )
        } else {
            s1.tuup@ == r.tuup@
        },
        !creates_cycle(s0, p, c1, c2, op),
        is_listing(w0, s0.tuup@),
        is_listing(w1, s1.tuup@),
        acyclic_on(s0, listed_values(w0), dependents_of(s0, dep_key(p.row as int, p.col as int))),
        crate::calculate_functions::is_range_op(op) || (s0.cells().contains_key(
            spec_data_key(p.row as int, p.col as int) as i32,
        ) && crate::calculate_functions::is_range_op(
            s0.cells()[spec_data_key(p.row as int, p.col as int) as i32].op_code,
        )) ==> marks_cover(s0),
    ensures
        ({
            let root = dep_key(p.row as int, p.col as int);
            let es0 = listed_values(w0);
            let es1 = listed_values(w1);
            &&& dependents_of(s1, root) == dependents_of(s0, root)
            &&& forall|u: int, v: i32|
                s0.reachable(root, u) ==> #[trigger] out_ms(s1, u, es1).count(v) == out_ms(s0, u, es0).count(v)
            &&& acyclic_on(s1, es1, dependents_of(s0, root))
            &&& edges_fit(s0, dependents_of(s0, root), es0) ==> edges_fit(s1, dependents_of(s0, root), es1)
            &&& dependents_registered(s0, root, es0) ==> dependents_registered(s1, root, es1)
        }),
{
    broadcast use vstd::multiset::group_multiset_axioms;

    let root = dep_key(p.row as int, p.col as int);
    let d = root as i32;
    let k = spec_data_key(p.row as int, p.col as int) as i32;
    let m0 = s0.cells();
    let rm = r.cells();
    let m1 = s1.cells();
    let es0 = listed_values(w0);
    let es1 = listed_values(w1);
    lemma_dep_key_decode(p.row as int, p.col as int);
    lemma_node_below(s0, root);
    lemma_removal_deps(s0, b, r, p);
    lemma_registration_deps(rm, m1, p, op, c1, c2, out);
    lemma_listing_entries(w0, s0.tuup@);
    assert(m0.dom() =~= s0.data@.dom());
    assert(m1.dom() =~= s1.data@.dom());
    assert(key_of(root) == k);
    assert forall|q: i32|
        #![trigger s1.data@[q]]
        s0.data@.contains_key(q) implies s1.data@.contains_key(q) && s1.data@[q].dependencies@.remove(d)
            == s0.data@[q].dependencies@.remove(d) by {
        assert(m0.contains_key(q));
        assert(rm.contains_key(q));
        assert(m1[q] == s1.data@[q]@);
        assert(m0[q] == s0.data@[q]@);
    }
    assert forall|q: i32|
        #![trigger s1.data@[q]]
        s1.data@.contains_key(q) && !s0.data@.contains_key(q) implies s1.data@[q].dependencies@.subset_of(set![d]) by {
        assert(m1.contains_key(q));
        assert(!rm.contains_key(q));
        assert(m1[q] == s1.data@[q]@);
    }
    assert(dependents_differ_by(s0, s1, d));
    assert forall|q: i32|
        #![trigger s1.data@[q]]
        s0.data@.contains_key(q) && q != key_of(root) implies s1.data@[q].op_code == s0.data@[q].op_code
            && s1.data@[q].cell1 == s0.data@[q].cell1 && s1.data@[q].cell2 == s0.data@[q].cell2 by {
        assert(m0.contains_key(q));
        assert(rm.contains_key(q));
        assert(m1[q] == s1.data@[q]@);
        assert(m0[q] == s0.data@[q]@);
    }
    assert forall|q: i32| #![trigger s1.data@.contains_key(q)] s0.data@.contains_key(q) implies s1.data@.contains_key(q) by {
        assert(s1.data@.contains_key(q) && s1.data@[q].dependencies@.remove(d) == s0.data@[q].dependencies@.remove(d));
    }
    let old_range = m0.contains_key(k) && crate::calculate_functions::is_range_op(m0[k].op_code);
    let oc1 = m0[k].cell1;
    let oc2 = m0[k].cell2;
    let k_old = spec_range_key(oc1.col as int, oc1.row as int, oc2.col as int, oc2.row as int) as i64;
    let new_range = crate::calculate_functions::is_range_op(op);
    let k_new = spec_range_key(c1.col as int, c1.row as int, c2.col as int, c2.row as int) as i64;
    let pt = (p.col, p.row);
    assert(if old_range {
        target_dropped(s0.tuup@, r.tuup@, k_old, pt) && marks_recomputed(b, s1.buul@, r.tuup@, oc1, oc2)
    } else {
        r.tuup@ == s0.tuup@ && s1.buul@ == b
    });
    if new_range {
        let e = s1.tuup@[k_new];
        assert(s1.tuup@.contains_key(k_new));
        assert(k_new == spec_range_key(e.start_col as int, e.start_row as int, e.end_col as int, e.end_row as int));
        lemma_range_key_injective(
            e.start_col as int,
            e.start_row as int,
            e.end_col as int,
            e.end_row as int,
            c1.col as int,
            c1.row as int,
            c2.col as int,
            c2.row as int,
        );
    }
    assert forall|u: int, v: i32| s0.reachable(root, u) implies #[trigger] out_ms(s1, u, es1).count(v) == out_ms(
        s0,
        u,
        es0,
    ).count(v) by {
        let row = u % 1000;
        let col = u / 1000;
        if u != root {
            let n = choose|n: nat| s0.reach(root, u, n);
            lemma_reach_stored(s0, root, u, n);
        }
        assert(s0.valid_node(u));
        if new_range {
            assert(!key_in_rect(u, c1, c2));
        }
        lemma_marks_keys(s0, s1, r.tuup@, b, old_range, k_old, oc1, oc2, new_range, k_new, pt, c1, c2, w0, w1, row, col, v);
        assert(listed_keys(w0, row, col) == range_keys(es0, row, col).to_multiset());
        assert(listed_keys(w1, row, col) == range_keys(es1, row, col).to_multiset());
        assert(out_ms(s0, u, es0).count(v) == Multiset::from_set(s0.cell_at(row, col).dependencies).count(v)
            + marked_count(s0, w0, row, col, v));
        assert(out_ms(s1, u, es1).count(v) == Multiset::from_set(s1.cell_at(row, col).dependencies).count(v)
            + marked_count(s1, w1, row, col, v));
        if v != d {
            lemma_deps_count(s0, s1, d, u, v);
        } else {
            lemma_no_edge_into_root(s0, es0, root, u);
            let qk = spec_data_key(row, col) as i32;
            let a0 = s0.cell_at(row, col).dependencies;
            let a1 = s1.cell_at(row, col).dependencies;
            if s0.data@.contains_key(qk) {
                lemma_deps_finite(s0.data@[qk]);
            }
            if s1.data@.contains_key(qk) {
                lemma_deps_finite(s1.data@[qk]);
            }
            assert(a0.finite() && a1.finite());
            lemma_from_set_count(a0);
            lemma_from_set_count(a1);
            assert(!a0.contains(d));
            if a1.contains(d) {
                if !(m0.contains_key(qk) && m0[qk].dependencies.contains(d)) {
                    assert(s1.data@.contains_key(qk));
                    assert(m1[qk] == s1.data@[qk]@);
                    assert(!(rm.contains_key(qk) && rm[qk].dependencies.contains(d)));
                    assert(m1.contains_key(qk) && m1[qk].dependencies.contains(d));
                    if qk == spec_data_key(c1.row as int, c1.col as int) as i32 && !(op is NoConstraint
                        || op is String || crate::calculate_functions::is_range_op(op)) {
                        lemma_data_key_injective(row, col, c1.row as int, c1.col as int);
                        assert(dep_key(c1.row as int, c1.col as int) == u);
                    } else {
                        assert(is_cell_cell_op(op) && qk == spec_data_key(c2.row as int, c2.col as int) as i32);
                        lemma_data_key_injective(row, col, c2.row as int, c2.col as int);
                        assert(dep_key(c2.row as int, c2.col as int) == u);
                    }
                } else {
                    assert(m0[qk] == s0.data@[qk]@);
                }
            }
        }
    }
    assert forall|u: int, x: int| #![trigger s1.edge(u, x)] s0.reachable(root, u) implies (s1.edge(u, x) == s0.edge(u, x)) by {
        if u != root {
            let n = choose|n: nat| s0.reach(root, u, n);
            lemma_reach_stored(s0, root, u, n);
        }
        lemma_edge_iff(s0, w0, u, x);
        lemma_edge_iff(s1, w1, u, x);
        if i32::MIN <= x <= i32::MAX {
            assert(out_ms(s1, u, es1).count(x as i32) == out_ms(s0, u, es0).count(x as i32));
        }
    }
    assert forall|x: int, v: i32|
        s0.reachable(root, v as int) && v != root implies #[trigger] out_ms(s1, x, es1).count(v) >= out_ms(
        s0,
        x,
        es0,
    ).count(v) by {
        let row = x % 1000;
        let col = x / 1000;
        lemma_deps_count(s0, s1, d, x, v);
        lemma_marks_keys(s0, s1, r.tuup@, b, old_range, k_old, oc1, oc2, new_range, k_new, pt, c1, c2, w0, w1, row, col, v);
        assert(listed_keys(w0, row, col) == range_keys(es0, row, col).to_multiset());
        assert(listed_keys(w1, row, col) == range_keys(es1, row, col).to_multiset());
        assert(out_ms(s0, x, es0).count(v) == Multiset::from_set(s0.cell_at(row, col).dependencies).count(v)
            + marked_count(s0, w0, row, col, v));
        assert(out_ms(s1, x, es1).count(v) == Multiset::from_set(s1.cell_at(row, col).dependencies).count(v)
            + marked_count(s1, w1, row, col, v));
    }
    lemma_transfer_core(s0, s1, root, es0, es1);
}

/// Recalculates, in topological order, every cell that depends (directly or
/// transitively) on `curr_cell`; SLEEP formulas among them count on a timer
/// of their own, which is dropped. Under the conditions on the dependency
/// graph, each of them then holds what its formula gives.
pub fn recalculate_dependecy(curr_cell: CellInfo, sheet: &mut Sheet)
    requires
        old(sheet).wf(),
        old(sheet).valid_pos(curr_cell.row as int, curr_cell.col as int),
        old(sheet).data@.contains_key(spec_data_key(curr_cell.row as int, curr_cell.col as int) as i32),
    ensures
        final(sheet).wf(),
        recalculated_only(
            *old(sheet),
            dep_key(curr_cell.row as int, curr_cell.col as int),
            old(sheet).cells(),
            final(sheet).cells(),
        ),
        final(sheet).cells()[spec_data_key(curr_cell.row as int, curr_cell.col as int) as i32]
            == old(sheet).cells()[spec_data_key(curr_cell.row as int, curr_cell.col as int) as i32],
        final(sheet).rows == old(sheet).rows,
        final(sheet).cols == old(sheet).cols,
        final(sheet).buul == old(sheet).buul,
        final(sheet).tuup == old(sheet).tuup,
        exists|order: Seq<i32>, t: i32|
            #[trigger] recalculated_in_order(
                old(sheet).cells(),
                final(sheet).cells(),
                order,
                dep_key(curr_cell.row as int, curr_cell.col as int),
                0,
                t,
            ) && dependency_order(
                *old(sheet),
                dep_key(curr_cell.row as int, curr_cell.col as int),
                order,
                entry_values(vstd::std_specs::hash::spec_hash_map_iter(&old(sheet).tuup).remaining()),
            ),
        forall|w: Seq<(i64, RangeTargets)>|
            #[trigger] is_listing(w, old(sheet).tuup@) && graph_conditions(
                *old(sheet),
                dep_key(curr_cell.row as int, curr_cell.col as int),
                listed_values(w),
            ) ==> forall|v: i32|
                #[trigger] dependents_of(*old(sheet), dep_key(curr_cell.row as int, curr_cell.col as int)).contains(v)
                    && v != dep_key(curr_cell.row as int, curr_cell.col as int) ==> formula_holds(
                    final(sheet).cells(),
                    v as int,
                ),
{
    let ghost s0 = *sheet;
    let ghost root = dep_key(curr_cell.row as int, curr_cell.col as int);
    let key = curr_cell.col as i32 * 1000 + curr_cell.row as i32;
    let mut dependency_set: HashMap<i32, i32> = HashMap::new();
    dependency_set.insert(key, 0);
    let ghost t0 = dependency_set@;
    proof {
        lemma_dep_key_decode(curr_cell.row as int, curr_cell.col as int);
        assert(t0.dom() =~= set![key]);
    }
    add_to_tree(&mut dependency_set, curr_cell, sheet);
    proof {
        lemma_tree_is_dependents(s0, t0, dependency_set@, key);
        assert forall|k: i32| #[trigger] dependency_set@.contains_key(k) implies s0.node_stored(k as int) by {
            if k as int != root {
                let n = choose|n: nat| s0.reach(root, k as int, n);
                lemma_reach_stored(s0, root, k as int, n);
            }
        }
    }
    let ghost es = entry_values(vstd::std_specs::hash::spec_hash_map_iter(&sheet.tuup).remaining());
    let ghost tree = dependency_set@;
    let ghost fits = edges_fit(s0, dependents_of(s0, root), es);
    let ghost all = seq![key] + choose|ex: Seq<i32>| tree_counted(s0, t0, tree, out_ms(s0, root, es), ex, es);
    proof {
        assert(tree.dom() =~= dependents_of(s0, root));
        let ex = choose|ex: Seq<i32>| tree_counted(s0, t0, tree, out_ms(s0, root, es), ex, es);
        lemma_counts_from_tree(fits, s0, key, t0, tree, ex, es);
        assert(fits ==> kahn_counts(s0, tree, all, es));
    }
    let sorted = topological_sort(&mut dependency_set, sheet);
    let mut timer: i32 = 0;
    recalculate_dependents(sheet, &sorted, curr_cell, &mut timer, Ghost(s0));
    proof {
        assert(dependency_order(s0, root, sorted@, es));
        assert(recalculated_in_order(s0.cells(), sheet.cells(), sorted@, root, 0, timer));
        let hyp = graph_conditions(s0, root, es);
        lemma_consistent_if(hyp, s0, root, sorted@, sheet.cells(), 0, timer, es);
        crate::entry_lists::lemma_walk_listing(s0.tuup);
        let w0 = vstd::std_specs::hash::spec_hash_map_iter(&s0.tuup).remaining().unref();
        assert forall|w: Seq<(i64, RangeTargets)>|
            #[trigger] is_listing(w, s0.tuup@) && graph_conditions(s0, root, listed_values(w)) implies forall|v: i32|
                #[trigger] dependents_of(s0, root).contains(v) && v != root ==> formula_holds(sheet.cells(), v as int) by {
            lemma_conditions_any_listing(s0, root, w, w0);
        }
    }
}


/// Reference `c`, redirected to `to` if it is `from`.
pub open spec fn redirected(c: CellInfo, from: CellInfo, to: CellInfo) -> CellInfo {
    if c == from {
        to
    } else {
        c
    }
}

/// `fin` is `m` after the dependents of `root` (in `s`) had their
/// references to `from` redirected to `to` (range formulas: recalculated
/// instead): every cell keeps its formula and dependents; a range formula's
/// content may change only for a dependent; another formula's references
/// may change only for a dependent, and then to the redirected references.
pub open spec fn references_moved(
    s: Sheet,
    root: int,
    from: CellInfo,
    to: CellInfo,
    m: Map<i32, CellView>,
    fin: Map<i32, CellView>,
) -> bool {
    &&& fin.dom() == m.dom()
    &&& forall|q: i32|
        #[trigger] fin.contains_key(q) ==> {
            &&& fin[q].op_code == m[q].op_code
            &&& fin[q].dependencies == m[q].dependencies
            &&& if crate::calculate_functions::is_range_op(m[q].op_code) {
                &&& fin[q].cell1 == m[q].cell1
                &&& fin[q].cell2 == m[q].cell2
                &&& (fin[q] == m[q] || dependent_key(s, root, q))
            } else {
                &&& fin[q].value == m[q].value
                &&& fin[q].is_error == m[q].is_error
                &&& fin[q].string == m[q].string
                &&& (fin[q] == m[q] || (dependent_key(s, root, q) && fin[q].cell1 == redirected(
                    m[q].cell1,
                    from,
                    to,
                ) && fin[q].cell2 == redirected(m[q].cell2, from, to)))
            }
        }
}

/// Redirects the references of the stored cell under `k` from `from` to `to`.
fn redirect_refs(sheet: &mut Sheet, k: i32, from: CellInfo, to: CellInfo)
    requires
        old(sheet).wf(),
        old(sheet).data@.contains_key(k),
        !crate::calculate_functions::is_range_op(old(sheet).data@[k].op_code),
    ensures
        final(sheet).wf(),
        final(sheet).cells() == old(sheet).cells().insert(
            k,
            CellView {
                cell1: redirected(old(sheet).cells()[k].cell1, from, to),
                cell2: redirected(old(sheet).cells()[k].cell2, from, to),
                ..old(sheet).cells()[k]
            },
        ),
        final(sheet).data@.dom() == old(sheet).data@.dom(),
        final(sheet).rows == old(sheet).rows,
        final(sheet).cols == old(sheet).cols,
        final(sheet).buul == old(sheet).buul,
        final(sheet).tuup == old(sheet).tuup,
{
    let ghost s0 = *sheet;
    let c = stored_cell_mut(sheet, k);
    if c.cell1.row == from.row && c.cell1.col == from.col {
        c.cell1 = to;
    }
    if c.cell2.row == from.row && c.cell2.col == from.col {
        c.cell2 = to;
    }
    proof {
        assert(sheet.cells() =~= s0.cells().insert(
            k,
            CellView {
                cell1: redirected(s0.cells()[k].cell1, from, to),
                cell2: redirected(s0.cells()[k].cell2, from, to),
                ..s0.cells()[k]
            },
        ));
        assert(sheet.data@.dom() =~= s0.data@.dom());
        assert forall|q: i32, e: i32|
            #![trigger sheet.data@[q].dependencies@.contains(e)]
            sheet.data@.contains_key(q) && sheet.data@[q].dependencies@.contains(e) implies sheet.valid_node(
            e as int,
        ) && sheet.data@.contains_key(spec_data_key(e as int % 1000, e as int / 1000) as i32) by {
            assert(s0.data@[q].dependencies@.contains(e));
        }
        assert forall|q: i32|
            #![trigger sheet.data@[q]]
            sheet.data@.contains_key(q) && crate::calculate_functions::is_range_op(sheet.data@[q].op_code)
                implies sheet.range_refs_ok(sheet.data@[q].cell1, sheet.data@[q].cell2) by {
            assert(s0.data@[q].op_code == sheet.data@[q].op_code);
        }
        assert forall|q: i64, t: int|
            #![trigger sheet.tuup@[q].targets@[t]]
            sheet.tuup@.contains_key(q) && 0 <= t < sheet.tuup@[q].targets@.len() implies {
                let e = sheet.tuup@[q].targets@[t];
                sheet.valid_pos(e.1 as int, e.0 as int) && sheet.data@.contains_key(
                    spec_data_key(e.1 as int, e.0 as int) as i32,
                )
            } by {
            assert(s0.tuup@[q].targets@[t] == sheet.tuup@[q].targets@[t]);
        }
    }
}

/// `c` with its references to `from` redirected to `to`.
pub open spec fn redirect_view(c: CellView, from: CellInfo, to: CellInfo) -> CellView {
    CellView { cell1: redirected(c.cell1, from, to), cell2: redirected(c.cell2, from, to), ..c }
}

/// Some entry of `order` other than `root` is the cell stored under `q`.
pub open spec fn listed(order: Seq<i32>, root: int, q: i32) -> bool {
    exists|i: int| 0 <= i < order.len() && order[i] != root && #[trigger] key_of(order[i] as int) == q
}

/// In `fin`, every cell of `m` that is no range formula had its references
/// redirected from `from` to `to` when it is listed in `order` (other than
/// `root`), and is as it was otherwise.
pub open spec fn refs_redirected(
    order: Seq<i32>,
    root: int,
    from: CellInfo,
    to: CellInfo,
    m: Map<i32, CellView>,
    fin: Map<i32, CellView>,
) -> bool {
    forall|q: i32|
        #![trigger fin[q]]
        fin.contains_key(q) && !crate::calculate_functions::is_range_op(m[q].op_code) ==> fin[q] == if listed(
            order,
            root,
            q,
        ) {
            redirect_view(m[q], from, to)
        } else {
            m[q]
        }
}

/// One step of `update_dependencies`: the entry `order[i]` is the new
/// position itself (nothing changes), a stored cell that is no range
/// formula (its references are redirected), or anything else (no cell that
/// is no range formula changes).
proof fn lemma_redirect_step(
    order: Seq<i32>,
    i: int,
    root: int,
    from: CellInfo,
    to: CellInfo,
    start: Map<i32, CellView>,
    before: Map<i32, CellView>,
    after: Map<i32, CellView>,
)
    requires
        0 <= i < order.len(),
        refs_redirected(order.take(i), root, from, to, start, before),
        before.dom() == start.dom(),
        after.dom() == start.dom(),
        forall|q: i32| #![trigger before[q]] start.contains_key(q) ==> before[q].op_code == start[q].op_code,
        ({
            let w = order[i];
            let k = key_of(w as int);
            if w == root {
                after == before
            } else if before.contains_key(k) && !crate::calculate_functions::is_range_op(before[k].op_code) {
                after == before.insert(k, redirect_view(before[k], from, to))
            } else {
                forall|q: i32|
                    #![trigger after[q]]
                    after.contains_key(q) && !crate::calculate_functions::is_range_op(start[q].op_code) ==> after[q]
                        == before[q]
            }
        }),
    ensures
        refs_redirected(order.take(i + 1), root, from, to, start, after),
{
    let w = order[i];
    let k = key_of(w as int);
    let p = order.take(i);
    let p1 = order.take(i + 1);
    assert(p1 =~= p.push(w));
    assert forall|q: i32| #![trigger after[q]] after.contains_key(q) && !crate::calculate_functions::is_range_op(
        start[q].op_code,
    ) implies after[q] == if listed(p1, root, q) {
        redirect_view(start[q], from, to)
    } else {
        start[q]
    } by {
        assert(before[q].op_code == start[q].op_code);
        if listed(p, root, q) {
            let j = choose|j: int| 0 <= j < p.len() && p[j] != root && #[trigger] key_of(p[j] as int) == q;
            assert(p1[j] == p[j]);
        }
        if listed(p1, root, q) && !listed(p, root, q) {
            let j = choose|j: int| 0 <= j < p1.len() && p1[j] != root && #[trigger] key_of(p1[j] as int) == q;
            if j < p.len() {
                assert(p[j] == p1[j]);
            }
            assert(j == i);
        }
        if !(w != root && q == k) && listed(p1, root, q) {
            let j = choose|j: int| 0 <= j < p1.len() && p1[j] != root && #[trigger] key_of(p1[j] as int) == q;
            if j < p.len() {
                assert(p[j] == p1[j]);
                assert(listed(p, root, q));
            }
        }
        if w != root && q == k {
            assert(p1[i] == w);
            assert(listed(p1, root, q));
        }
    }
}

/// Recalculating, on content `m`, the cell with dependency key `v` gives
/// `m2` (a SLEEP counting from timer `t0` to `t1`).
pub open spec fn recalc_at(m: Map<i32, CellView>, v: int, m2: Map<i32, CellView>, t0: i32, t1: i32) -> bool {
    recalc_step(m, v % 1000, v / 1000, m2, t0, t1)
}

/// `states` holds the content after each key of `order` was handled, one
/// after another, as `update_dependencies` handles them: a stored cell other
/// than the one under `root` with a range formula is recalculated (on a
/// timer of its own, started at 0); any other stored cell has its
/// references to `from` redirected to `to`.
pub open spec fn moved_chain(
    states: Seq<Map<i32, CellView>>,
    order: Seq<i32>,
    root: int,
    from: CellInfo,
    to: CellInfo,
) -> bool {
    &&& states.len() == order.len() + 1
    &&& forall|i: int|
        #![trigger order[i]]
        0 <= i < order.len() ==> {
            let k = key_of(order[i] as int);
            if order[i] == root || !states[i].contains_key(k) {
                states[i + 1] == states[i]
            } else if crate::calculate_functions::is_range_op(states[i][k].op_code) {
                exists|t: i32| #[trigger] recalc_at(states[i], order[i] as int, states[i + 1], 0, t)
            } else {
                states[i + 1] == states[i].insert(k, redirect_view(states[i][k], from, to))
            }
        }
}

/// `fin` is `m` after the keys of `order` were handled one after another
/// (see `moved_chain`).
pub open spec fn moved_in_order(
    m: Map<i32, CellView>,
    fin: Map<i32, CellView>,
    order: Seq<i32>,
    root: int,
    from: CellInfo,
    to: CellInfo,
) -> bool {
    exists|states: Seq<Map<i32, CellView>>|
        #[trigger] moved_chain(states, order, root, from, to) && states[0] == m && states.last() == fin
}

/// After the cell at `(old_cell_row, old_cell_col)` moved to
/// `(new_cell_row, new_cell_col)`: goes through the cells that depend on the
/// new position in topological order; a range formula among them is
/// recalculated, any other formula has its references to the old position
/// redirected to the new one.
pub fn update_dependencies(
    old_cell_row: i16,
    old_cell_col: i16,
    new_cell_row: i16,
    new_cell_col: i16,
    sheet: &mut Sheet,
)
    requires
        old(sheet).wf(),
        old(sheet).valid_pos(new_cell_row as int, new_cell_col as int),
        old(sheet).data@.contains_key(spec_data_key(new_cell_row as int, new_cell_col as int) as i32),
    ensures
        final(sheet).wf(),
        references_moved(
            *old(sheet),
            dep_key(new_cell_row as int, new_cell_col as int),
            CellInfo { row: old_cell_row, col: old_cell_col },
            CellInfo { row: new_cell_row, col: new_cell_col },
            old(sheet).cells(),
            final(sheet).cells(),
        ),
        final(sheet).rows == old(sheet).rows,
        final(sheet).cols == old(sheet).cols,
        final(sheet).buul == old(sheet).buul,
        final(sheet).tuup == old(sheet).tuup,
        exists|order: Seq<i32>|
            #[trigger] refs_redirected(
                order,
                dep_key(new_cell_row as int, new_cell_col as int),
                CellInfo { row: old_cell_row, col: old_cell_col },
                CellInfo { row: new_cell_row, col: new_cell_col },
                old(sheet).cells(),
                final(sheet).cells(),
            ) && dependency_order(
                *old(sheet),
                dep_key(new_cell_row as int, new_cell_col as int),
                order,
                entry_values(vstd::std_specs::hash::spec_hash_map_iter(&old(sheet).tuup).remaining()),
            ) && moved_in_order(
                old(sheet).cells(),
                final(sheet).cells(),
                order,
                dep_key(new_cell_row as int, new_cell_col as int),
                CellInfo { row: old_cell_row, col: old_cell_col },
                CellInfo { row: new_cell_row, col: new_cell_col },
            ),
{
    let ghost s0 = *sheet;
    let ghost root = dep_key(new_cell_row as int, new_cell_col as int);
    let from = CellInfo { row: old_cell_row, col: old_cell_col };
    let to = CellInfo { row: new_cell_row, col: new_cell_col };
    let key = new_cell_col as i32 * 1000 + new_cell_row as i32;
    let mut avl_tree: HashMap<i32, i32> = HashMap::new();
    avl_tree.insert(key, 0);
    let ghost t0 = avl_tree@;
    proof {
        lemma_dep_key_decode(new_cell_row as int, new_cell_col as int);
        assert(t0.dom() =~= set![key]);
    }
    add_to_tree(&mut avl_tree, to, sheet);
    proof {
        lemma_tree_is_dependents(s0, t0, avl_tree@, key);
        assert forall|k: i32| #[trigger] avl_tree@.contains_key(k) implies s0.node_stored(k as int) by {
            if k as int != root {
                let n = choose|n: nat| s0.reach(root, k as int, n);
                lemma_reach_stored(s0, root, k as int, n);
            }
        }
    }
    let ghost es = entry_values(vstd::std_specs::hash::spec_hash_map_iter(&sheet.tuup).remaining());
    let ghost tree = avl_tree@;
    let ghost fits = edges_fit(s0, dependents_of(s0, root), es);
    let ghost all = seq![key] + choose|ex: Seq<i32>| tree_counted(s0, t0, tree, out_ms(s0, root, es), ex, es);
    proof {
        assert(tree.dom() =~= dependents_of(s0, root));
        let ex = choose|ex: Seq<i32>| tree_counted(s0, t0, tree, out_ms(s0, root, es), ex, es);
        lemma_counts_from_tree(fits, s0, key, t0, tree, ex, es);
        assert(fits ==> kahn_counts(s0, tree, all, es));
    }
    let sorted = topological_sort(&mut avl_tree, sheet);
    let ghost start = sheet.cells();
    proof {
        assert(start.dom() =~= s0.data@.dom());
        assert(dependency_order(s0, root, sorted@, es));
        assert(sorted@.take(0) =~= Seq::<i32>::empty());
        assert(refs_redirected(sorted@.take(0), root, from, to, start, sheet.cells()));
    }
    let ghost mut states: Seq<Map<i32, CellView>> = seq![sheet.cells()];
    let mut idx: usize = 0;
    while idx < sorted.len()
        invariant
            moved_chain(states, sorted@.take(idx as int), root, from, to),
            states[0] == start,
            states.last() == sheet.cells(),
            sheet.wf(),
            s0.wf(),
            s0.valid_pos(new_cell_row as int, new_cell_col as int),
            root == dep_key(new_cell_row as int, new_cell_col as int),
            root % 1000 == new_cell_row,
            root / 1000 == new_cell_col,
            from == (CellInfo { row: old_cell_row, col: old_cell_col }),
            to == (CellInfo { row: new_cell_row, col: new_cell_col }),
            start == s0.cells(),
            sheet.rows == s0.rows,
            sheet.cols == s0.cols,
            sheet.buul == s0.buul,
            sheet.tuup == s0.tuup,
            sheet.data@.dom() == s0.data@.dom(),
            forall|i: int|
                0 <= i < sorted@.len() ==> s0.valid_node((#[trigger] sorted@[i]) as int) && s0.reachable(
                    root,
                    sorted@[i] as int,
                ),
            references_moved(s0, root, from, to, start, sheet.cells()),
            idx <= sorted@.len(),
            refs_redirected(sorted@.take(idx as int), root, from, to, start, sheet.cells()),
        decreases sorted@.len() - idx,
    {
        let node = sorted[idx];
        let row = node % 1000;
        let col = node / 1000;
        let ghost before = sheet.cells();
        let ghost states_before = states;
        let ghost mut t_used: i32 = 0;
        proof {
            assert(s0.valid_node(node as int));
            lemma_dep_key_decode(row as int, col as int);
        }
        if !(row == new_cell_row as i32 && col == new_cell_col as i32) {
            let k = data_key(row as i16, col as i16);
            let ghost cur = *sheet;
            proof {
                assert(s0.valid_node(node as int));
                assert(node != root) by {
                    if node == root {
                        assert(row == new_cell_row && col == new_cell_col);
                    }
                }
                assert(dependent_key(s0, root, k));
                assert(cur.cells().dom() =~= cur.data@.dom());
            }
            match sheet.data.get(&k) {
                Some(c) => {
                    let op = c.op_code;
                    proof {
                        assert(cur.cells()[k] == cur.data@[k]@);
                    }
                    match op {
                        OpCode::Sum | OpCode::Min | OpCode::Max | OpCode::Avg | OpCode::Stdev => {
                            let mut timer: i32 = 0;
                            let ghost t_before = timer;
                            proof {
                                assert(row as usize as i16 == row && col as usize as i16 == col);
                            }
                            recalculate(sheet, row as usize, col as usize, &mut timer);
                            proof {
                                t_used = timer;
                                lemma_recalc_frame(cur, row as int, col as int, sheet.cells(), t_before, timer);
                                assert(sheet.cells().dom() =~= sheet.data@.dom());
                                assert(sheet.data@.dom() =~= s0.data@.dom());
                            }
                        },
                        _ => {
                            redirect_refs(sheet, k, from, to);
                        },
                    }
                },
                None => {},
            }
        }
        proof {
            lemma_redirect_step(sorted@, idx as int, root, from, to, start, before, sheet.cells());
            let o = sorted@.take(idx as int);
            let o2 = sorted@.take(idx + 1);
            assert(o2 =~= o.push(node));
            let kn = key_of(node as int);
            assert(kn == spec_data_key(row as int, col as int) as i32);
            assert(before.dom() =~= s0.data@.dom());
            states = states.push(sheet.cells());
            if node as int != root && before.contains_key(kn) && crate::calculate_functions::is_range_op(
                before[kn].op_code,
            ) {
                assert(recalc_at(before, node as int, states[idx + 1], 0, t_used));
            }
            assert forall|i: int| #![trigger o2[i]] 0 <= i < o2.len() implies {
                let k = key_of(o2[i] as int);
                if o2[i] == root || !states[i].contains_key(k) {
                    states[i + 1] == states[i]
                } else if crate::calculate_functions::is_range_op(states[i][k].op_code) {
                    exists|t: i32| #[trigger] recalc_at(states[i], o2[i] as int, states[i + 1], 0, t)
                } else {
                    states[i + 1] == states[i].insert(k, redirect_view(states[i][k], from, to))
                }
            } by {
                if i < o.len() {
                    assert(o2[i] == o[i]);
                    assert(states[i] == states_before[i] && states[i + 1] == states_before[i + 1]);
                } else {
                    assert(o2[i] == node);
                    assert(states[i] == before);
                }
            }
        }
        idx = idx + 1;
    }
    proof {
        assert(sorted@.take(sorted@.len() as int) =~= sorted@);
        assert(moved_in_order(start, sheet.cells(), sorted@, root, from, to));
    }
}


/// The elements of a set of keys, in the set's iteration order.
pub(crate) fn set_elements(set: &HashSet<i32>) -> (v: Vec<i32>)
    ensures
        forall|x: i32| v@.contains(x) <==> set@.contains(x),
{
    let mut v: Vec<i32> = Vec::new();
    for d in it: set.iter()
        invariant
            it.seq() == vstd::std_specs::hash::spec_hash_keys_iter(set).remaining(),
            v@ == it.seq().take(it.index()).map_values(|r: &i32| *r),
    {
        proof {
            assert(it.seq().take(it.index() + 1).map_values(|r: &i32| *r) =~= v@.push(*d));
        }
        v.push(*d);
    }
    proof {
        let sq = vstd::std_specs::hash::spec_hash_keys_iter(set).remaining();
        assert(sq.take(sq.len() as int) =~= sq);
        assert forall|x: i32| v@.contains(x) <==> set@.contains(x) by {
            if v@.contains(x) {
                let j = choose|j: int| 0 <= j < v@.len() && v@[j] == x;
                assert(sq.unref()[j] == x);
                assert(sq.unref().contains(x));
            }
            if set@.contains(x) {
                assert(sq.unref().to_set().contains(x));
                let j = choose|j: int| 0 <= j < sq.unref().len() && sq.unref()[j] == x;
                assert(v@[j] == x);
            }
        }
    }
    v
}

/// The data key of the cell whose dependency key is `d` (decoded as Rust's
/// `%` and `/` do, then narrowed to `i16`).
pub open spec fn dependency_data_key(d: int) -> i32 {
    spec_data_key(key_row_trunc(d) as i16 as int, key_col_trunc(d) as i16 as int) as i32
}

/// Whether dependent `d` leaves the dependency set in `change_dependecy_set`:
/// its cell is stored in `m` and is a range formula exactly when range
/// dependencies are the ones to drop.
pub open spec fn dependency_dropped(m: Map<i32, CellView>, d: i32, del_range: bool) -> bool {
    m.contains_key(dependency_data_key(d as int))
        && crate::calculate_functions::is_range_op(m[dependency_data_key(d as int)].op_code) == del_range
}

/// Whether the cell under `q` in `m` is one of the dependents in `deps`
/// whose references get redirected: not a range formula, and only when
/// non-range dependencies are the ones to drop.
pub open spec fn dependent_redirected(m: Map<i32, CellView>, deps: Set<i32>, q: i32, del_range: bool) -> bool {
    &&& !del_range
    &&& m.contains_key(q)
    &&& !crate::calculate_functions::is_range_op(m[q].op_code)
    &&& exists|d: i32| #[trigger] deps.contains(d) && dependency_data_key(d as int) == q
}

/// Drops from the dependency set of `new_cell` its range dependents (when
/// `del_range_dependencies`) or its other dependents (otherwise), counting
/// only dependents stored in the sheet; each other dependent dropped has its
/// references to `(current_row, current_col)` redirected to
/// `(change_to_row, change_to_col)`.
pub fn change_dependecy_set(
    new_cell: &mut Cell,
    sheet: &mut Sheet,
    del_range_dependencies: bool,
    change_to_row: i16,
    change_to_col: i16,
    current_row: i16,
    current_col: i16,
)
    requires
        old(sheet).wf(),
    ensures
        final(sheet).wf(),
        final(new_cell)@ == (CellView {
            dependencies: old(new_cell)@.dependencies.filter(
                |d: i32| !dependency_dropped(old(sheet).cells(), d, del_range_dependencies),
            ),
            ..old(new_cell)@
        }),
        final(sheet).cells().dom() == old(sheet).cells().dom(),
        forall|q: i32|
            #[trigger] final(sheet).cells().contains_key(q) ==> final(sheet).cells()[q] == if dependent_redirected(
                old(sheet).cells(),
                old(new_cell)@.dependencies,
                q,
                del_range_dependencies,
            ) {
                CellView {
                    cell1: redirected(
                        old(sheet).cells()[q].cell1,
                        CellInfo { row: current_row, col: current_col },
                        CellInfo { row: change_to_row, col: change_to_col },
                    ),
                    cell2: redirected(
                        old(sheet).cells()[q].cell2,
                        CellInfo { row: current_row, col: current_col },
                        CellInfo { row: change_to_row, col: change_to_col },
                    ),
                    ..old(sheet).cells()[q]
                }
            } else {
                old(sheet).cells()[q]
            },
        final(sheet).rows == old(sheet).rows,
        final(sheet).cols == old(sheet).cols,
        final(sheet).buul == old(sheet).buul,
        final(sheet).tuup == old(sheet).tuup,
{
    let ghost m = sheet.cells();
    let ghost d0 = new_cell.dependencies@;
    let ghost c0 = new_cell@;
    let ghost del = del_range_dependencies;
    let from = CellInfo { row: current_row, col: current_col };
    let to = CellInfo { row: change_to_row, col: change_to_col };
    let deps = set_elements(&new_cell.dependencies);
    proof {
        assert(m.dom() =~= sheet.data@.dom());
    }
    let mut i: usize = 0;
    while i < deps.len()
        invariant
            sheet.wf(),
            0 <= i <= deps@.len(),
            forall|x: i32| deps@.contains(x) <==> d0.contains(x),
            m == old(sheet).cells(),
            d0 == old(new_cell)@.dependencies,
            c0 == old(new_cell)@,
            del == del_range_dependencies,
            from == (CellInfo { row: current_row, col: current_col }),
            to == (CellInfo { row: change_to_row, col: change_to_col }),
            new_cell@ == (CellView {
                dependencies: new_cell@.dependencies,
                ..c0
            }),
            forall|x: i32|
                new_cell@.dependencies.contains(x) <==> (d0.contains(x) && !(deps@.take(i as int).contains(x)
                    && dependency_dropped(m, x, del))),
            sheet.cells().dom() == m.dom(),
            sheet.data@.dom() == m.dom(),
            forall|q: i32|
                #[trigger] sheet.cells().contains_key(q) ==> sheet.cells()[q] == if dependent_redirected(
                    m,
                    deps@.take(i as int).to_set(),
                    q,
                    del,
                ) {
                    CellView {
                        cell1: redirected(m[q].cell1, from, to),
                        cell2: redirected(m[q].cell2, from, to),
                        ..m[q]
                    }
                } else {
                    m[q]
                },
            sheet.rows == old(sheet).rows,
            sheet.cols == old(sheet).cols,
            sheet.buul == old(sheet).buul,
            sheet.tuup == old(sheet).tuup,
        decreases deps@.len() - i,
    {
        let d = deps[i];
        let row = d % 1000;
        let col = d / 1000;
        let k = data_key(row as i16, col as i16);
        let ghost before = sheet.cells();
        let ghost nd_before = new_cell@.dependencies;
        proof {
            assert(row == key_row_trunc(d as int));
            assert(col == key_col_trunc(d as int));
            assert(k == dependency_data_key(d as int));
            assert(col * 1000 + row == d) by (nonlinear_arith)
                requires
                    row == key_row_trunc(d as int),
                    col == key_col_trunc(d as int),
            ;
            assert(deps@.take(i + 1) =~= deps@.take(i as int).push(d));
        }
        match sheet.data.get(&k) {
            Some(c) => {
                let is_range = match c.op_code {
                    OpCode::Sum | OpCode::Min | OpCode::Max | OpCode::Avg | OpCode::Stdev => true,
                    _ => false,
                };
                proof {
                    assert(before[k] == sheet.data@[k]@);
                    assert(is_range == crate::calculate_functions::is_range_op(m[k].op_code));
                }
                if is_range && del_range_dependencies {
                    new_cell.dependencies.remove(&(col * 1000 + row));
                } else if !del_range_dependencies && !is_range {
                    new_cell.dependencies.remove(&(col * 1000 + row));
                    redirect_refs(sheet, k, from, to);
                }
            },
            None => {},
        }
        proof {
            let tk = deps@.take(i as int);
            let tk1 = deps@.take(i + 1);
            assert forall|x: i32| tk1.contains(x) <==> (tk.contains(x) || x == d) by {
                if tk1.contains(x) {
                    let j = choose|j: int| 0 <= j < tk1.len() && tk1[j] == x;
                    if j < i {
                        assert(tk[j] == x);
                    }
                }
                if tk.contains(x) {
                    let j = choose|j: int| 0 <= j < tk.len() && tk[j] == x;
                    assert(tk1[j] == x);
                }
                if x == d {
                    assert(tk1[i as int] == x);
                }
            }
            assert(tk1.to_set() =~= tk.to_set().insert(d));
            assert(sheet.cells().dom() =~= sheet.data@.dom());
            assert forall|q: i32| #[trigger] sheet.cells().contains_key(q) implies sheet.cells()[q] == if dependent_redirected(
                m,
                deps@.take(i + 1).to_set(),
                q,
                del,
            ) {
                CellView {
                    cell1: redirected(m[q].cell1, from, to),
                    cell2: redirected(m[q].cell2, from, to),
                    ..m[q]
                }
            } else {
                m[q]
            } by {
                if dependent_redirected(m, deps@.take(i + 1).to_set(), q, del) {
                    let w = choose|w: i32| #[trigger] deps@.take(i + 1).to_set().contains(w) && dependency_data_key(w as int) == q;
                    if w != d {
                        assert(deps@.take(i as int).to_set().contains(w));
                    }
                }
                if dependent_redirected(m, deps@.take(i as int).to_set(), q, del) {
                    let w = choose|w: i32| #[trigger] deps@.take(i as int).to_set().contains(w) && dependency_data_key(w as int) == q;
                    assert(deps@.take(i + 1).to_set().contains(w));
                }
                if q == k && !del && m.contains_key(k) && !crate::calculate_functions::is_range_op(m[k].op_code) {
                    assert(deps@.take(i + 1).to_set().contains(d));
                }
            }
        }
        i = i + 1;
    }
    proof {
        assert(deps@.take(deps@.len() as int) =~= deps@);
        assert(deps@.to_set() =~= d0);
        assert forall|x: i32| new_cell@.dependencies.contains(x) <==> d0.filter(
            |d: i32| !dependency_dropped(m, d, del),
        ).contains(x) by {
            assert(deps@.take(deps@.len() as int).contains(x) <==> deps@.contains(x));
        }
        assert(new_cell@.dependencies =~= d0.filter(|d: i32| !dependency_dropped(m, d, del)));
        assert forall|q: i32| #[trigger] sheet.cells().contains_key(q) implies (dependent_redirected(
            m,
            deps@.take(deps@.len() as int).to_set(),
            q,
            del,
        ) <==> dependent_redirected(m, d0, q, del)) by {
            if dependent_redirected(m, d0, q, del) {
                let w = choose|w: i32| #[trigger] d0.contains(w) && dependency_data_key(w as int) == q;
                assert(deps@.to_set().contains(w));
            }
        }
    }
}


/// `m` with the cell at `(r, c)` (a default cell first, if none is stored)
/// holding `value`, `is_error` and `string`.
pub open spec fn content_set(
    m: Map<i32, CellView>,
    r: int,
    c: int,
    value: i32,
    is_error: bool,
    string: Option<Seq<char>>,
) -> Map<i32, CellView> {
    let k = spec_data_key(r, c) as i32;
    let m1 = ensure_cell(m, r, c);
    m1.insert(k, CellView { value, is_error, string, ..m1[k] })
}

/// Stores `value`, `is_error` and `string` in the cell at `(r, c)` (a default
/// cell first, if none is stored); its formula and dependents stay.
pub fn set_content(sheet: &mut Sheet, r: i16, c: i16, value: i32, is_error: bool, string: Option<String>)
    requires
        old(sheet).wf(),
    ensures
        final(sheet).wf(),
        final(sheet).cells() == content_set(
            old(sheet).cells(),
            r as int,
            c as int,
            value,
            is_error,
            string_view(string),
        ),
        final(sheet).rows == old(sheet).rows,
        final(sheet).cols == old(sheet).cols,
        final(sheet).buul == old(sheet).buul,
        final(sheet).tuup == old(sheet).tuup,
        old(sheet).settled() ==> final(sheet).settled(),
        acyclic(*old(sheet)) ==> acyclic(*final(sheet)),
{
    let ghost s0 = *sheet;
    let ghost k = spec_data_key(r as int, c as int) as i32;
    let ghost sv = string_view(string);
    let cell = get_or_create_cell(sheet, r as i32, c as i32);
    cell.value = value;
    cell.is_error = is_error;
    cell.string = string;
    proof {
        assert(sheet.cells() =~= content_set(s0.cells(), r as int, c as int, value, is_error, sv));
        assert forall|q: i32, e: i32|
            #![trigger sheet.data@[q].dependencies@.contains(e)]
            sheet.data@.contains_key(q) && sheet.data@[q].dependencies@.contains(e) implies sheet.valid_node(
            e as int,
        ) && sheet.data@.contains_key(spec_data_key(e as int % 1000, e as int / 1000) as i32) by {
            if s0.data@.contains_key(q) {
                assert(s0.data@[q].dependencies@.contains(e));
            }
        }
        assert forall|q: i32|
            #![trigger sheet.data@[q]]
            sheet.data@.contains_key(q) && crate::calculate_functions::is_range_op(sheet.data@[q].op_code)
                implies sheet.range_refs_ok(sheet.data@[q].cell1, sheet.data@[q].cell2) by {
            if s0.data@.contains_key(q) {
                assert(s0.data@[q].op_code == sheet.data@[q].op_code);
            }
        }
        assert forall|q: i64, t: int|
            #![trigger sheet.tuup@[q].targets@[t]]
            sheet.tuup@.contains_key(q) && 0 <= t < sheet.tuup@[q].targets@.len() implies {
                let e = sheet.tuup@[q].targets@[t];
                sheet.valid_pos(e.1 as int, e.0 as int) && sheet.data@.contains_key(
                    spec_data_key(e.1 as int, e.0 as int) as i32,
                )
            } by {
            assert(s0.tuup@[q].targets@[t] == sheet.tuup@[q].targets@[t]);
        }
        if s0.settled() {
            assert forall|q: i32|
                #![trigger sheet.data@[q]]
                sheet.data@.contains_key(q) && crate::calculate_functions::is_range_op(
                    sheet.data@[q].op_code,
                ) implies sheet.rect_fits(
                sheet.data@[q].cell1.row as int,
                sheet.data@[q].cell1.col as int,
                sheet.data@[q].cell2.row as int,
                sheet.data@[q].cell2.col as int,
            ) by {
                if s0.data@.contains_key(q) {
                    assert(s0.data@[q].op_code == sheet.data@[q].op_code);
                }
            }
        }
        if acyclic(s0) {
            assert forall|q: i32| #![trigger sheet.data@[q]] s0.data@.contains_key(q) implies sheet.data@.contains_key(q)
                && sheet.data@[q].dependencies@ == s0.data@[q].dependencies@ by {
                assert(s0.cells().contains_key(q));
                assert(sheet.cells().contains_key(q));
                assert(sheet.cells()[q] == sheet.data@[q]@);
                assert(s0.cells()[q] == s0.data@[q]@);
            }
            assert forall|q: i32| #![trigger sheet.data@[q]] sheet.data@.contains_key(q) && !s0.data@.contains_key(q) implies sheet.data@[
                q].dependencies@ == Set::<i32>::empty() by {
                assert(sheet.cells().contains_key(q));
                assert(sheet.cells()[q] == sheet.data@[q]@);
            }
            lemma_deps_kept_acyclic(s0, *sheet);
        }
    }
}


/// Sorts the rectangle `(row1, col1) ..= (row2, col2)`: its rows by the value
/// in column `sort_key` (when `is_column`), or its columns by the value in
/// row number `sort_key`; ascending when `sort_order` is "asc", descending
/// otherwise, equal lines keeping their order. Sorted rows are written back
/// as rows and sorted columns as columns.
pub fn sort_sheet(
    sheet: &mut Sheet,
    col1: i32,
    row1: i32,
    col2: i32,
    row2: i32,
    sort_key: &str,
    is_column: bool,
    sort_order: &str,
)
    requires
        old(sheet).wf(),
        crate::sorting::sort_ok(sort_key@, is_column, row1 as int, col1 as int, row2 as int, col2 as int),
    ensures
        final(sheet).wf(),
        old(sheet).settled() ==> final(sheet).settled(),
        final(sheet).rows == old(sheet).rows,
        final(sheet).cols == old(sheet).cols,
        final(sheet).buul == old(sheet).buul,
        final(sheet).tuup == old(sheet).tuup,
        exists|order: Seq<usize>|
            {
                &&& crate::sorting::sort_of(
                    *old(sheet),
                    row1 as int,
                    col1 as int,
                    row2 as int,
                    col2 as int,
                    sort_key@,
                    is_column,
                    sort_order@ == seq!['a', 's', 'c'],
                    order,
                )
                &&& final(sheet).cells() == if is_column {
                    crate::sorting::write_block(
                        old(sheet).cells(),
                        crate::sorting::permuted(
                            crate::sorting::rect_lines(old(sheet).cells(), row1 as int, col1 as int, row2 as int, col2 as int, true),
                            order,
                        ),
                        row1 as int,
                        row2 + 1,
                        col1 as int,
                        col2 as int,
                        false,
                    )
                } else {
                    crate::sorting::write_block(
                        old(sheet).cells(),
                        crate::sorting::permuted(
                            crate::sorting::rect_lines(old(sheet).cells(), row1 as int, col1 as int, row2 as int, col2 as int, false),
                            order,
                        ),
                        col1 as int,
                        col2 + 1,
                        row1 as int,
                        row2 as int,
                        true,
                    )
                }
            },
{
    let (lines, order) = crate::sorting::sort_lines(
        sheet,
        col1,
        row1,
        col2,
        row2,
        sort_key,
        is_column,
        sort_order,
    );
    proof {
        assert forall|a: int| 0 <= a < order@.len() implies order@[a] < lines@.len() by {
            assert(crate::sorting::lines_view(lines@).len() == lines@.len());
        }
    }
    if is_column {
        crate::sorting::write_lines(sheet, &lines, &order, row1, row2, col1, col2, false);
    } else {
        crate::sorting::write_lines(sheet, &lines, &order, col1, col2, row1, row2, true);
    }
}

} // verus!
