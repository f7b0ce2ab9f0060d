//! Sorting the lines (rows or columns) of a rectangle of cells by the value
//! each holds at one position, equal lines keeping their order.
use vstd::prelude::*;
use std::collections::HashSet;
use crate::sheet_functions::{
    Cell, CellView, Sheet, new_cell, data_key, spec_data_key, view_at, default_cell, col_value,
    col_name_ok, col_name_to_col_num,
};
use crate::parser::{parse_i32, parse_i32_text, chars_of};
use vstd::std_specs::iter::IteratorSpec;

verus! {

broadcast use vstd::std_specs::hash::group_hash_axioms;

/// Whether line `i` comes before line `j` when lines are ordered by `keys`,
/// ascending when `asc` (else descending), equal keys keeping the order of
/// the lines.
pub open spec fn comes_before(keys: Seq<i32>, asc: bool, i: int, j: int) -> bool {
    if keys[i] == keys[j] {
        i < j
    } else if asc {
        keys[i] < keys[j]
    } else {
        keys[i] > keys[j]
    }
}

/// `order` lists the lines `0 .. keys.len()`, in the order of a stable sort
/// by `keys`.
pub open spec fn stably_sorted(keys: Seq<i32>, asc: bool, order: Seq<usize>) -> bool {
    &&& order.len() == keys.len()
    &&& forall|a: int| 0 <= a < order.len() ==> order[a] < keys.len()
    &&& forall|a: int, b: int|
        0 <= a < b < order.len() ==> comes_before(keys, asc, #[trigger] order[a] as int, #[trigger] order[b] as int)
}

proof fn lemma_before_transitive(keys: Seq<i32>, asc: bool, i: int, j: int, l: int)
    requires
        comes_before(keys, asc, i, j),
        comes_before(keys, asc, j, l),
    ensures
        comes_before(keys, asc, i, l),
{
}

/// Whether line `i` comes before line `j` (see `comes_before`).
fn before_exec(keys: &Vec<i32>, asc: bool, i: usize, j: usize) -> (b: bool)
    requires
        i < keys@.len(),
        j < keys@.len(),
    ensures
        b == comes_before(keys@, asc, i as int, j as int),
{
    let (a, c) = (keys[i], keys[j]);
    if a == c {
        i < j
    } else if asc {
        a < c
    } else {
        a > c
    }
}

/// The order of the lines `0 .. keys.len()` after a stable sort by `keys`,
/// ascending when `asc`, descending otherwise.
pub fn stable_order(keys: &Vec<i32>, asc: bool) -> (order: Vec<usize>)
    ensures
        stably_sorted(keys@, asc, order@),
{
    let mut order: Vec<usize> = Vec::new();
    let mut k: usize = 0;
    while k < keys.len()
        invariant
            k <= keys@.len(),
            order@.len() == k,
            forall|a: int| 0 <= a < order@.len() ==> order@[a] < k,
            forall|a: int, b: int|
                0 <= a < b < order@.len() ==> comes_before(keys@, asc, #[trigger] order@[a] as int, #[trigger] order@[b] as int),
        decreases keys@.len() - k,
    {
        let mut p: usize = 0;
        while p < order.len() && !before_exec(keys, asc, k, order[p])
            invariant
                k < keys@.len(),
                order@.len() == k,
                p <= order@.len(),
                forall|a: int| 0 <= a < order@.len() ==> order@[a] < k,
                forall|q: int| 0 <= q < p ==> comes_before(keys@, asc, #[trigger] order@[q] as int, k as int),
            decreases order@.len() - p,
        {
            p = p + 1;
        }
        let ghost old_order = order@;
        order.insert(p, k);
        proof {
            assert forall|a: int, b: int| 0 <= a < b < order@.len() implies comes_before(
                keys@,
                asc,
                #[trigger] order@[a] as int,
                #[trigger] order@[b] as int,
            ) by {
                if b < p {
                } else if b == p {
                    assert(order@[a] == old_order[a]);
                } else if a < p {
                    assert(order@[a] == old_order[a]);
                    assert(order@[b] == old_order[b - 1]);
                } else if a == p {
                    assert(order@[b] == old_order[b - 1]);
                    assert(comes_before(keys@, asc, k as int, old_order[p as int] as int));
                    if b - 1 > p {
                        lemma_before_transitive(
                            keys@,
                            asc,
                            k as int,
                            old_order[p as int] as int,
                            old_order[b - 1] as int,
                        );
                    }
                } else {
                    assert(order@[a] == old_order[a - 1]);
                    assert(order@[b] == old_order[b - 1]);
                }
            }
        }
        k = k + 1;
    }
    order
}

/// A copy of cell `c`.
pub fn copy_cell(c: &Cell) -> (r: Cell)
    ensures
        r@ == c@,
{
    let mut deps: HashSet<i32> = HashSet::new();
    for d in it: c.dependencies.iter()
        invariant
            it.seq() == vstd::std_specs::hash::spec_hash_keys_iter(&c.dependencies).remaining(),
            deps@ == it.seq().take(it.index()).map_values(|r: &i32| *r).to_set(),
    {
        proof {
            assert(it.seq().take(it.index() + 1).map_values(|r: &i32| *r) =~= it.seq().take(
                it.index(),
            ).map_values(|r: &i32| *r).push(*d));
            it.seq().take(it.index()).map_values(|r: &i32| *r).lemma_push_to_set_commute(*d);
        }
        deps.insert(*d);
    }
    proof {
        let sq = vstd::std_specs::hash::spec_hash_keys_iter(&c.dependencies).remaining();
        assert(sq.take(sq.len() as int) =~= sq);
        assert(sq.map_values(|r: &i32| *r) =~= sq.unref());
    }
    let string = match &c.string {
        Some(t) => Some(t.clone()),
        None => None,
    };
    Cell {
        value: c.value,
        is_error: c.is_error,
        string,
        op_code: c.op_code,
        cell1: c.cell1,
        cell2: c.cell2,
        dependencies: deps,
    }
}


/// The number of indices from `a` to `b` (inclusive).
pub open spec fn span(a: int, b: int) -> nat {
    if a <= b {
        (b - a + 1) as nat
    } else {
        0
    }
}

/// The cells of the rectangle `(r1, c1) ..= (r2, c2)` of content `m`, line by
/// line: its rows when `by_rows`, else its columns. Positions are narrowed
/// to `i16`.
pub open spec fn rect_lines(m: Map<i32, CellView>, r1: int, c1: int, r2: int, c2: int, by_rows: bool) -> Seq<Seq<CellView>> {
    if by_rows {
        Seq::new(
            span(r1, r2),
            |a: int|
                Seq::new(span(c1, c2), |b: int| view_at(m, (r1 + a) as i16 as int, (c1 + b) as i16 as int)),
        )
    } else {
        Seq::new(
            span(c1, c2),
            |a: int|
                Seq::new(span(r1, r2), |b: int| view_at(m, (r1 + b) as i16 as int, (c1 + a) as i16 as int)),
        )
    }
}

/// The contents of lines of cells.
pub open spec fn lines_view(v: Seq<Vec<Cell>>) -> Seq<Seq<CellView>> {
    v.map_values(|l: Vec<Cell>| l@.map_values(|c: Cell| c@))
}

/// Copies the cells of the rectangle `(r1, c1) ..= (r2, c2)`, line by line
/// (rows when `by_rows`, else columns); an absent cell is a default cell.
pub fn collect_lines(sheet: &Sheet, r1: i32, c1: i32, r2: i32, c2: i32, by_rows: bool) -> (v: Vec<Vec<Cell>>)
    ensures
        lines_view(v@) == rect_lines(sheet.cells(), r1 as int, c1 as int, r2 as int, c2 as int, by_rows),
{
    let ghost expect = rect_lines(sheet.cells(), r1 as int, c1 as int, r2 as int, c2 as int, by_rows);
    let (olo, ohi, ilo, ihi) = if by_rows {
        (r1 as i64, r2 as i64, c1 as i64, c2 as i64)
    } else {
        (c1 as i64, c2 as i64, r1 as i64, r2 as i64)
    };
    let mut v: Vec<Vec<Cell>> = Vec::new();
    let mut a: i64 = olo;
    while a <= ohi
        invariant
            expect == rect_lines(sheet.cells(), r1 as int, c1 as int, r2 as int, c2 as int, by_rows),
            by_rows ==> olo == r1 && ohi == r2 && ilo == c1 && ihi == c2,
            !by_rows ==> olo == c1 && ohi == c2 && ilo == r1 && ihi == r2,
            olo <= a,
            a <= ohi + 1 || a == olo,
            v@.len() == a - olo,
            forall|x: int| 0 <= x < v@.len() ==> lines_view(v@)[x] == expect[x],
        decreases ohi + 1 - a,
    {
        let mut line: Vec<Cell> = Vec::new();
        let mut b: i64 = ilo;
        while b <= ihi
            invariant
                expect == rect_lines(sheet.cells(), r1 as int, c1 as int, r2 as int, c2 as int, by_rows),
                by_rows ==> olo == r1 && ohi == r2 && ilo == c1 && ihi == c2,
                !by_rows ==> olo == c1 && ohi == c2 && ilo == r1 && ihi == r2,
                olo <= a <= ohi,
                ilo <= b,
                b <= ihi + 1 || b == ilo,
                line@.len() == b - ilo,
                forall|y: int| 0 <= y < line@.len() ==> (#[trigger] line@[y])@ == expect[a - olo][y],
            decreases ihi + 1 - b,
        {
            let (r, c) = if by_rows {
                (a, b)
            } else {
                (b, a)
            };
            let k = data_key(r as i16, c as i16);
            let cell = match sheet.data.get(&k) {
                Some(x) => copy_cell(x),
                None => new_cell(),
            };
            proof {
                if sheet.data@.contains_key(k) {
                    assert(sheet.cells()[k] == sheet.data@[k]@);
                }
                assert(cell@ == view_at(sheet.cells(), r as i16 as int, c as i16 as int));
            }
            line.push(cell);
            b = b + 1;
        }
        proof {
            assert(line@.map_values(|c: Cell| c@) =~= expect[a - olo]);
        }
        v.push(line);
        proof {
            assert forall|x: int| 0 <= x < v@.len() implies lines_view(v@)[x] == expect[x] by {
                if x == v@.len() - 1 {
                    assert(lines_view(v@)[x] == v@[x]@.map_values(|c: Cell| c@));
                }
            }
        }
        a = a + 1;
    }
    proof {
        assert(lines_view(v@) =~= expect);
    }
    v
}


/// The keys of the lines: the value at position `idx` of each line (0 where
/// a line is too short).
pub open spec fn line_keys(lines: Seq<Seq<CellView>>, idx: int) -> Seq<i32> {
    Seq::new(
        lines.len(),
        |l: int|
            if 0 <= idx < lines[l].len() {
                lines[l][idx].value
            } else {
                0
            },
    )
}

/// The keys of the lines (see `line_keys`).
fn keys_of(lines: &Vec<Vec<Cell>>, idx: i64) -> (keys: Vec<i32>)
    ensures
        keys@ == line_keys(lines_view(lines@), idx as int),
{
    let mut keys: Vec<i32> = Vec::new();
    let mut l: usize = 0;
    while l < lines.len()
        invariant
            l <= lines@.len(),
            keys@.len() == l,
            forall|x: int| 0 <= x < l ==> keys@[x] == line_keys(lines_view(lines@), idx as int)[x],
        decreases lines@.len() - l,
    {
        let line = &lines[l];
        let k: i32 = if 0 <= idx && (idx as u64) < (line.len() as u64) {
            line[idx as usize].value
        } else {
            0
        };
        proof {
            assert(lines_view(lines@)[l as int] == line@.map_values(|c: Cell| c@));
        }
        keys.push(k);
        l = l + 1;
    }
    proof {
        assert(keys@ =~= line_keys(lines_view(lines@), idx as int));
    }
    keys
}

/// The lines taken in `order`.
pub open spec fn permuted(lines: Seq<Seq<CellView>>, order: Seq<usize>) -> Seq<Seq<CellView>> {
    Seq::new(order.len(), |a: int| lines[order[a] as int])
}

/// `m` after line `o` is written back: for each inner index `j` from `i1`
/// up to `j_end` (exclusive), the cell `src[o - o1][j - i1]` (if there is
/// one) is stored at position `(o, j)`, or `(j, o)` when `transpose`,
/// narrowed to `i16`.
pub open spec fn write_line(
    m: Map<i32, CellView>,
    src: Seq<Seq<CellView>>,
    o: int,
    o1: int,
    i1: int,
    j_end: int,
    transpose: bool,
) -> Map<i32, CellView>
    decreases j_end - i1,
{
    if j_end <= i1 {
        m
    } else {
        let m0 = write_line(m, src, o, o1, i1, j_end - 1, transpose);
        let li = o - o1;
        let ej = j_end - 1 - i1;
        if 0 <= li < src.len() && 0 <= ej < src[li].len() {
            let k = if transpose {
                spec_data_key((j_end - 1) as i16 as int, o as i16 as int) as i32
            } else {
                spec_data_key(o as i16 as int, (j_end - 1) as i16 as int) as i32
            };
            m0.insert(k, src[li][ej])
        } else {
            m0
        }
    }
}

/// `m` after the lines `o1 .. o_end` (exclusive) are written back, each over
/// the inner indices `i1 ..= i2` (see `write_line`).
pub open spec fn write_block(
    m: Map<i32, CellView>,
    src: Seq<Seq<CellView>>,
    o1: int,
    o_end: int,
    i1: int,
    i2: int,
    transpose: bool,
) -> Map<i32, CellView>
    decreases o_end - o1,
{
    if o_end <= o1 {
        m
    } else {
        write_line(write_block(m, src, o1, o_end - 1, i1, i2, transpose), src, o_end - 1, o1, i1, i2 + 1, transpose)
    }
}

/// A cell that may be stored in a sheet like `s`: its dependents are stored
/// cells of `s`, and a range formula reads a rectangle that `s` accepts.
pub open spec fn cell_fits(s: Sheet, v: CellView) -> bool {
    &&& forall|d: i32|
        #[trigger] v.dependencies.contains(d) ==> s.valid_node(d as int) && s.data@.contains_key(
            spec_data_key(d as int % 1000, d as int / 1000) as i32,
        )
    &&& crate::calculate_functions::is_range_op(v.op_code) ==> s.range_refs_ok(v.cell1, v.cell2)
    &&& (s.settled() && crate::calculate_functions::is_range_op(v.op_code)) ==> s.rect_fits(
        v.cell1.row as int,
        v.cell1.col as int,
        v.cell2.row as int,
        v.cell2.col as int,
    )
}

/// Every cell of a well-formed sheet (and the default cell) fits it.
pub(crate) proof fn lemma_cells_fit(s: Sheet, r: int, c: int)
    requires
        s.wf(),
    ensures
        cell_fits(s, view_at(s.cells(), r, c)),
{
    let k = spec_data_key(r, c) as i32;
    if s.data@.contains_key(k) {
        assert(s.cells()[k] == s.data@[k]@);
        assert forall|d: i32| #[trigger] s.data@[k]@.dependencies.contains(d) implies s.valid_node(d as int)
            && s.data@.contains_key(spec_data_key(d as int % 1000, d as int / 1000) as i32) by {
            assert(s.data@[k].dependencies@.contains(d));
        }
    }
}

/// A sheet like well-formed `s` (same size, marks and range entries, the
/// same cells stored or more) all of whose cells fit `s` is well-formed,
/// and settled when `s` is.
pub(crate) proof fn lemma_fitting_wf(s: Sheet, t: Sheet)
    requires
        s.wf(),
        t.rows == s.rows,
        t.cols == s.cols,
        t.buul == s.buul,
        t.tuup == s.tuup,
        forall|q: i32| s.data@.contains_key(q) ==> t.data@.contains_key(q),
        forall|q: i32| #[trigger] t.data@.contains_key(q) ==> cell_fits(s, t.data@[q]@),
    ensures
        t.wf(),
        s.settled() ==> t.settled(),
{
    assert forall|k: i32, d: i32|
        #![trigger t.data@[k].dependencies@.contains(d)]
        t.data@.contains_key(k) && t.data@[k].dependencies@.contains(d) implies t.valid_node(d as int)
            && t.data@.contains_key(spec_data_key(d as int % 1000, d as int / 1000) as i32) by {
        assert(cell_fits(s, t.data@[k]@));
        assert(t.data@[k]@.dependencies.contains(d));
    }
    assert forall|k: i32|
        #![trigger t.data@[k]]
        t.data@.contains_key(k) && crate::calculate_functions::is_range_op(t.data@[k].op_code)
            implies t.range_refs_ok(t.data@[k].cell1, t.data@[k].cell2) by {
        assert(cell_fits(s, t.data@[k]@));
    }
    assert forall|k: i64, j: int|
        #![trigger t.tuup@[k].targets@[j]]
        t.tuup@.contains_key(k) && 0 <= j < t.tuup@[k].targets@.len() implies {
            let p = t.tuup@[k].targets@[j];
            t.valid_pos(p.1 as int, p.0 as int) && t.data@.contains_key(
                spec_data_key(p.1 as int, p.0 as int) as i32,
            )
        } by {
        assert(s.tuup@[k].targets@[j] == t.tuup@[k].targets@[j]);
    }
    if s.settled() {
        assert forall|k: i32|
            #![trigger t.data@[k]]
            t.data@.contains_key(k) && crate::calculate_functions::is_range_op(t.data@[k].op_code)
                implies t.rect_fits(
                t.data@[k].cell1.row as int,
                t.data@[k].cell1.col as int,
                t.data@[k].cell2.row as int,
                t.data@[k].cell2.col as int,
            ) by {
            assert(cell_fits(s, t.data@[k]@));
        }
    }
}


/// Writes the lines, taken in `order`, back into the sheet: line `o` for
/// `o` in `o1 ..= o2`, over the inner indices `i1 ..= i2` (see
/// `write_block`).
pub fn write_lines(
    sheet: &mut Sheet,
    lines: &Vec<Vec<Cell>>,
    order: &Vec<usize>,
    o1: i32,
    o2: i32,
    i1: i32,
    i2: i32,
    transpose: bool,
)
    requires
        old(sheet).wf(),
        forall|a: int| 0 <= a < order@.len() ==> order@[a] < lines@.len(),
        forall|l: int, e: int|
            0 <= l < lines@.len() && 0 <= e < lines@[l]@.len() ==> cell_fits(
                *old(sheet),
                (#[trigger] lines@[l]@[e])@,
            ),
    ensures
        final(sheet).wf(),
        old(sheet).settled() ==> final(sheet).settled(),
        final(sheet).cells() == write_block(
            old(sheet).cells(),
            permuted(lines_view(lines@), order@),
            o1 as int,
            o2 + 1,
            i1 as int,
            i2 as int,
            transpose,
        ),
        final(sheet).rows == old(sheet).rows,
        final(sheet).cols == old(sheet).cols,
        final(sheet).buul == old(sheet).buul,
        final(sheet).tuup == old(sheet).tuup,
{
    let ghost s0 = *sheet;
    let ghost m0 = sheet.cells();
    let ghost src = permuted(lines_view(lines@), order@);
    let mut o: i64 = o1 as i64;
    while o <= o2 as i64
        invariant
            s0 == *old(sheet),
            s0.wf(),
            m0 == s0.cells(),
            src == permuted(lines_view(lines@), order@),
            forall|a: int| 0 <= a < order@.len() ==> order@[a] < lines@.len(),
            forall|l: int, e: int|
                0 <= l < lines@.len() && 0 <= e < lines@[l]@.len() ==> cell_fits(
                    s0,
                    (#[trigger] lines@[l]@[e])@,
                ),
            o1 <= o,
            o <= o2 + 1 || o == o1,
            sheet.cells() == write_block(m0, src, o1 as int, o as int, i1 as int, i2 as int, transpose),
            sheet.rows == s0.rows,
            sheet.cols == s0.cols,
            sheet.buul == s0.buul,
            sheet.tuup == s0.tuup,
            forall|q: i32| s0.data@.contains_key(q) ==> sheet.data@.contains_key(q),
            forall|q: i32| #[trigger] sheet.data@.contains_key(q) ==> cell_fits(s0, sheet.data@[q]@),
        decreases o2 + 1 - o,
    {
        let ghost before = sheet.cells();
        let mut j: i64 = i1 as i64;
        while j <= i2 as i64
            invariant
                s0 == *old(sheet),
                s0.wf(),
                m0 == s0.cells(),
                src == permuted(lines_view(lines@), order@),
                forall|a: int| 0 <= a < order@.len() ==> order@[a] < lines@.len(),
                forall|l: int, e: int|
                    0 <= l < lines@.len() && 0 <= e < lines@[l]@.len() ==> cell_fits(
                        s0,
                        (#[trigger] lines@[l]@[e])@,
                    ),
                o1 <= o <= o2,
                i1 <= j,
                j <= i2 + 1 || j == i1,
                before == write_block(m0, src, o1 as int, o as int, i1 as int, i2 as int, transpose),
                sheet.cells() == write_line(before, src, o as int, o1 as int, i1 as int, j as int, transpose),
                sheet.rows == s0.rows,
                sheet.cols == s0.cols,
                sheet.buul == s0.buul,
                sheet.tuup == s0.tuup,
                forall|q: i32| s0.data@.contains_key(q) ==> sheet.data@.contains_key(q),
                forall|q: i32| #[trigger] sheet.data@.contains_key(q) ==> cell_fits(s0, sheet.data@[q]@),
            decreases i2 + 1 - j,
        {
            let li: i64 = o - o1 as i64;
            let ej: i64 = j - i1 as i64;
            let ghost cur = sheet.cells();
            if (li as u64) < (order.len() as u64) {
                let line = &lines[order[li as usize]];
                if (ej as u64) < (line.len() as u64) {
                    let k = if transpose {
                        data_key(j as i16, o as i16)
                    } else {
                        data_key(o as i16, j as i16)
                    };
                    let cell = copy_cell(&line[ej as usize]);
                    proof {
                        assert(src[li as int] == lines_view(lines@)[order@[li as int] as int]);
                        assert(lines_view(lines@)[order@[li as int] as int] == line@.map_values(
                            |c: Cell| c@,
                        ));
                        assert(cell@ == src[li as int][ej as int]);
                        assert(cell_fits(s0, line@[ej as int]@));
                    }
                    sheet.data.insert(k, cell);
                    proof {
                        assert(sheet.cells() =~= cur.insert(k, cell@));
                    }
                } else {
                    proof {
                        assert(src[li as int] == lines_view(lines@)[order@[li as int] as int]);
                    }
                }
            }
            j = j + 1;
        }
        o = o + 1;
    }
    proof {
        lemma_fitting_wf(s0, *sheet);
    }
}


/// Whether the key of a sort names a position: a column name (when sorting
/// rows) or a row number above `i32::MIN` (when sorting columns).
pub open spec fn sort_key_ok(key: Seq<char>, is_column: bool) -> bool {
    if is_column {
        col_name_ok(key)
    } else {
        parse_i32(key) is Some && parse_i32(key).unwrap() > i32::MIN
    }
}

/// The index within each line of the position the key names: the column
/// from `col1` (sorting rows), or the 0-based row from `row1` (sorting
/// columns).
pub open spec fn key_index(key: Seq<char>, is_column: bool, row1: int, col1: int) -> int {
    if is_column {
        col_value(key) - col1
    } else {
        parse_i32(key).unwrap() - 1 - row1
    }
}

/// The number of lines a sort reorders: the rows of the rectangle (sorting
/// rows) or its columns.
pub open spec fn line_count(row1: int, col1: int, row2: int, col2: int, is_column: bool) -> nat {
    if is_column {
        span(row1, row2)
    } else {
        span(col1, col2)
    }
}

/// The number of cells in each line.
pub open spec fn line_width(row1: int, col1: int, row2: int, col2: int, is_column: bool) -> nat {
    if is_column {
        span(col1, col2)
    } else {
        span(row1, row2)
    }
}

/// Whether a sort can be done: its key names a position, and with two lines
/// or more that position lies in every line.
pub open spec fn sort_ok(key: Seq<char>, is_column: bool, row1: int, col1: int, row2: int, col2: int) -> bool {
    &&& sort_key_ok(key, is_column)
    &&& line_count(row1, col1, row2, col2, is_column) >= 2 ==> {
        let idx = key_index(key, is_column, row1, col1);
        0 <= idx < line_width(row1, col1, row2, col2, is_column) && idx <= i32::MAX
    }
}

/// The lines of the rectangle (rows when `is_column`, else columns) of `s`,
/// and `order`, the order of a stable sort of them by the value at the key's
/// position, ascending when `asc`.
pub open spec fn sort_of(
    s: Sheet,
    row1: int,
    col1: int,
    row2: int,
    col2: int,
    key: Seq<char>,
    is_column: bool,
    asc: bool,
    order: Seq<usize>,
) -> bool {
    let lines = rect_lines(s.cells(), row1, col1, row2, col2, is_column);
    stably_sorted(line_keys(lines, key_index(key, is_column, row1, col1)), asc, order)
}

/// Copies the lines of the rectangle and finds their order after a stable
/// sort by the value at the position that `sort_key` names: ascending when
/// `sort_order` is "asc", descending otherwise.
pub fn sort_lines(
    sheet: &Sheet,
    col1: i32,
    row1: i32,
    col2: i32,
    row2: i32,
    sort_key: &str,
    is_column: bool,
    sort_order: &str,
) -> (r: (Vec<Vec<Cell>>, Vec<usize>))
    requires
        sheet.wf(),
        sort_ok(sort_key@, is_column, row1 as int, col1 as int, row2 as int, col2 as int),
    ensures
        lines_view(r.0@) == rect_lines(sheet.cells(), row1 as int, col1 as int, row2 as int, col2 as int, is_column),
        sort_of(
            *sheet,
            row1 as int,
            col1 as int,
            row2 as int,
            col2 as int,
            sort_key@,
            is_column,
            sort_order@ == seq!['a', 's', 'c'],
            r.1@,
        ),
        forall|l: int, e: int|
            0 <= l < r.0@.len() && 0 <= e < r.0@[l]@.len() ==> cell_fits(*sheet, (#[trigger] r.0@[l]@[e])@),
{
    let lines = collect_lines(sheet, row1, col1, row2, col2, is_column);
    let idx: i64 = if is_column {
        col_name_to_col_num(sort_key) as i64 - col1 as i64
    } else {
        let row_num = parse_i32_text(sort_key).unwrap() as i64 - 1;
        row_num - row1 as i64
    };
    let keys = keys_of(&lines, idx);
    let order_text = chars_of(sort_order);
    let asc = order_text.len() == 3 && order_text[0] == 'a' && order_text[1] == 's' && order_text[2]
        == 'c';
    proof {
        if order_text@.len() == 3 {
            assert(order_text@ =~= seq![order_text@[0], order_text@[1], order_text@[2]]);
        }
        assert(asc == (sort_order@ == seq!['a', 's', 'c']));
    }
    let order = stable_order(&keys, asc);
    proof {
        assert forall|l: int, e: int|
            0 <= l < lines@.len() && 0 <= e < lines@[l]@.len() implies cell_fits(*sheet, (#[trigger] lines@[l]@[e])@) by {
            let lv = lines_view(lines@);
            assert(lv[l] == lines@[l]@.map_values(|c: Cell| c@));
            assert(lv[l][e] == lines@[l]@[e]@);
            if is_column {
                lemma_cells_fit(*sheet, (row1 + l) as i16 as int, (col1 + e) as i16 as int);
            } else {
                lemma_cells_fit(*sheet, (row1 + e) as i16 as int, (col1 + l) as i16 as int);
            }
        }
    }
    (lines, order)
}

} // verus!
