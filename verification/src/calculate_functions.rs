//! Arithmetic of formulas between cells and constants, and the range
//! functions SUM, MIN, MAX, AVG and STDEV over a rectangle of cells.
//!
//! Integer arithmetic wraps around on overflow (two's complement), as Rust's
//! release builds do.
use vstd::prelude::*;
use crate::sheet_functions::{Sheet, OpCode, CellView, data_key, spec_data_key, view_at};
use crate::text::push_text;

verus! {

broadcast use vstd::std_specs::hash::group_hash_axioms;

/// The value read from position `(r, c)`: the stored value, or 0.
pub open spec fn value_at(cells: Map<i32, CellView>, r: int, c: int) -> int {
    view_at(cells, r, c).value as int
}

/// Sum of the values in row `r`, columns `c1 .. c` (exclusive).
pub open spec fn row_sum(cells: Map<i32, CellView>, r: int, c1: int, c: int) -> int
    decreases c - c1,
{
    if c <= c1 {
        0
    } else {
        row_sum(cells, r, c1, c - 1) + value_at(cells, r, c - 1)
    }
}

/// Sum of the values in rows `r1 .. r` (exclusive), columns `c1 ..= c2`.
pub open spec fn rect_sum(cells: Map<i32, CellView>, r1: int, r: int, c1: int, c2: int) -> int
    decreases r - r1,
{
    if r <= r1 {
        0
    } else {
        rect_sum(cells, r1, r - 1, c1, c2) + row_sum(cells, r - 1, c1, c2 + 1)
    }
}

/// Minimum of `i32::MAX` and the values in row `r`, columns `c1 .. c`.
pub open spec fn row_min(cells: Map<i32, CellView>, r: int, c1: int, c: int) -> int
    decreases c - c1,
{
    if c <= c1 {
        i32::MAX as int
    } else {
        let m = row_min(cells, r, c1, c - 1);
        let v = value_at(cells, r, c - 1);
        if v < m { v } else { m }
    }
}

/// Minimum of `i32::MAX` and the values in rows `r1 .. r`, columns `c1 ..= c2`.
pub open spec fn rect_min(cells: Map<i32, CellView>, r1: int, r: int, c1: int, c2: int) -> int
    decreases r - r1,
{
    if r <= r1 {
        i32::MAX as int
    } else {
        let m = rect_min(cells, r1, r - 1, c1, c2);
        let v = row_min(cells, r - 1, c1, c2 + 1);
        if v < m { v } else { m }
    }
}

/// Maximum of `i32::MIN` and the values in row `r`, columns `c1 .. c`.
pub open spec fn row_max(cells: Map<i32, CellView>, r: int, c1: int, c: int) -> int
    decreases c - c1,
{
    if c <= c1 {
        i32::MIN as int
    } else {
        let m = row_max(cells, r, c1, c - 1);
        let v = value_at(cells, r, c - 1);
        if v > m { v } else { m }
    }
}

/// Maximum of `i32::MIN` and the values in rows `r1 .. r`, columns `c1 ..= c2`.
pub open spec fn rect_max(cells: Map<i32, CellView>, r1: int, r: int, c1: int, c2: int) -> int
    decreases r - r1,
{
    if r <= r1 {
        i32::MIN as int
    } else {
        let m = rect_max(cells, r1, r - 1, c1, c2);
        let v = row_max(cells, r - 1, c1, c2 + 1);
        if v > m { v } else { m }
    }
}

/// A rectangle `(r1, c1) ..= (r2, c2)` that the range functions accept:
/// corners in order, each side shorter than `i16::MAX`.
pub open spec fn range_ok(r1: int, c1: int, r2: int, c2: int) -> bool {
    r1 <= r2 && c1 <= c2 && r2 - r1 < i16::MAX && c2 - c1 < i16::MAX
}

/// The number of positions in the rectangle.
pub open spec fn range_count(r1: int, c1: int, r2: int, c2: int) -> int {
    (r2 - r1 + 1) * (c2 - c1 + 1)
}

/// The sum of row `r`'s values over columns `c1 ..= c2`, as an exact integer.
fn row_total(sheet: &Sheet, r: i16, c1: i16, c2: i16) -> (t: i64)
    requires
        c1 <= c2,
    ensures
        t == row_sum(sheet.cells(), r as int, c1 as int, c2 + 1),
        -0x8000_0000 * (c2 - c1 + 1) <= t <= 0x7fff_ffff * (c2 - c1 + 1),
{
    let mut t: i64 = 0;
    let mut j: i32 = c1 as i32;
    while j <= c2 as i32
        invariant
            c1 <= j <= c2 + 1,
            t == row_sum(sheet.cells(), r as int, c1 as int, j as int),
            -0x8000_0000 * (j - c1) <= t <= 0x7fff_ffff * (j - c1),
        decreases c2 + 1 - j,
    {
        let v = match sheet.data.get(&data_key(r, j as i16)) {
            Some(cell) => cell.value,
            None => 0,
        };
        t = t + v as i64;
        j = j + 1;
    }
    t
}

/// The sum of the values in the rectangle, as an exact integer.
fn range_total(sheet: &Sheet, r1: i16, c1: i16, r2: i16, c2: i16) -> (t: i64)
    requires
        range_ok(r1 as int, c1 as int, r2 as int, c2 as int),
    ensures
        t == rect_sum(sheet.cells(), r1 as int, r2 + 1, c1 as int, c2 as int),
        -0x2000_0000_0000_0000 <= t <= 0x2000_0000_0000_0000,
{
    let mut t: i64 = 0;
    let mut i: i32 = r1 as i32;
    while i <= r2 as i32
        invariant
            range_ok(r1 as int, c1 as int, r2 as int, c2 as int),
            r1 <= i <= r2 + 1,
            t == rect_sum(sheet.cells(), r1 as int, i as int, c1 as int, c2 as int),
            -0x8000_0000 * (c2 - c1 + 1) * (i - r1) <= t <= 0x7fff_ffff * (c2 - c1 + 1) * (i
                - r1),
        decreases r2 + 1 - i,
    {
        let rt = row_total(sheet, i as i16, c1, c2);
        proof {
            let w = c2 - c1 + 1;
            let k = i - r1;
            assert(0 <= k < 32767 && 0 < w <= 32767);
            assert(-0x8000_0000 * w * k + -0x8000_0000 * w == -0x8000_0000 * w * (k + 1))
                by (nonlinear_arith);
            assert(0x7fff_ffff * w * k + 0x7fff_ffff * w == 0x7fff_ffff * w * (k + 1))
                by (nonlinear_arith);
            assert(0x7fff_ffff * w * (k + 1) <= 0x7fff_ffff * 32767 * 32767) by (nonlinear_arith)
                requires
                    0 < w <= 32767,
                    0 <= k + 1 <= 32767,
            ;
            assert(-0x8000_0000 * w * (k + 1) >= -0x8000_0000 * 32767 * 32767)
                by (nonlinear_arith)
                requires
                    0 < w <= 32767,
                    0 <= k + 1 <= 32767,
            ;
        }
        t = t + rt;
        i = i + 1;
    }
    proof {
        let w = c2 - c1 + 1;
        let k = r2 + 1 - r1;
        assert(0x7fff_ffff * w * k <= 0x7fff_ffff * 32767 * 32767) by (nonlinear_arith)
            requires
                0 < w <= 32767,
                0 <= k <= 32767,
        ;
        assert(-0x8000_0000 * w * k >= -0x8000_0000 * 32767 * 32767) by (nonlinear_arith)
            requires
                0 < w <= 32767,
                0 <= k <= 32767,
        ;
    }
    t
}

/// `x` wrapped around into the range of `i32` (two's complement).
pub open spec fn wrap_i32(x: int) -> i32 {
    if (x % 0x1_0000_0000) > 0x7fff_ffff {
        ((x % 0x1_0000_0000) - 0x1_0000_0000) as i32
    } else {
        (x % 0x1_0000_0000) as i32
    }
}

/// `t` wrapped around into the range of `i32`.
fn wrap_to_i32(t: i64) -> (r: i32)
    requires
        -0x2000_0000_0000_0000 <= t <= 0x2000_0000_0000_0000,
    ensures
        r == wrap_i32(t as int),
{
    let u: i64 = t + 0x4000_0000_0000_0000;
    let m: i64 = u % 0x1_0000_0000;
    proof {
        assert(m == (t as int) % 0x1_0000_0000) by (nonlinear_arith)
            requires
                u == t + 0x4000_0000_0000_0000,
                u >= 0,
                m == u % 0x1_0000_0000,
        ;
    }
    if m > 0x7fff_ffff {
        (m - 0x1_0000_0000) as i32
    } else {
        m as i32
    }
}

/// SUM over the rectangle `(val_row1, c1) ..= (val_row2, c2)`; absent cells
/// count as 0. The result wraps around on overflow.
pub fn sum(sheet: &Sheet, val_row1: i16, c1: i16, val_row2: i16, c2: i16) -> (r: i32)
    requires
        range_ok(val_row1 as int, c1 as int, val_row2 as int, c2 as int),
    ensures
        r == wrap_i32(rect_sum(sheet.cells(), val_row1 as int, val_row2 + 1, c1 as int, c2 as int)),
{
    let t = range_total(sheet, val_row1, c1, val_row2, c2);
    wrap_to_i32(t)
}

/// MIN over the rectangle; absent cells count as 0.
pub fn min(sheet: &Sheet, val_row1: i16, c1: i16, val_row2: i16, c2: i16) -> (r: i32)
    requires
        range_ok(val_row1 as int, c1 as int, val_row2 as int, c2 as int),
    ensures
        r == rect_min(sheet.cells(), val_row1 as int, val_row2 + 1, c1 as int, c2 as int),
{
    let mut a: i32 = i32::MAX;
    let mut i: i32 = val_row1 as i32;
    while i <= val_row2 as i32
        invariant
            range_ok(val_row1 as int, c1 as int, val_row2 as int, c2 as int),
            val_row1 <= i <= val_row2 + 1,
            a == rect_min(sheet.cells(), val_row1 as int, i as int, c1 as int, c2 as int),
        decreases val_row2 + 1 - i,
    {
        let mut m: i32 = i32::MAX;
        let mut j: i32 = c1 as i32;
        while j <= c2 as i32
            invariant
                range_ok(val_row1 as int, c1 as int, val_row2 as int, c2 as int),
                val_row1 <= i <= val_row2,
                c1 <= j <= c2 + 1,
                m == row_min(sheet.cells(), i as int, c1 as int, j as int),
            decreases c2 + 1 - j,
        {
            let v = match sheet.data.get(&data_key(i as i16, j as i16)) {
                Some(cell) => cell.value,
                None => 0,
            };
            if v < m {
                m = v;
            }
            j = j + 1;
        }
        if m < a {
            a = m;
        }
        i = i + 1;
    }
    a
}

/// MAX over the rectangle; absent cells count as 0.
pub fn max(sheet: &Sheet, val_row1: i16, c1: i16, val_row2: i16, c2: i16) -> (r: i32)
    requires
        range_ok(val_row1 as int, c1 as int, val_row2 as int, c2 as int),
    ensures
        r == rect_max(sheet.cells(), val_row1 as int, val_row2 + 1, c1 as int, c2 as int),
{
    let mut a: i32 = i32::MIN;
    let mut i: i32 = val_row1 as i32;
    while i <= val_row2 as i32
        invariant
            range_ok(val_row1 as int, c1 as int, val_row2 as int, c2 as int),
            val_row1 <= i <= val_row2 + 1,
            a == rect_max(sheet.cells(), val_row1 as int, i as int, c1 as int, c2 as int),
        decreases val_row2 + 1 - i,
    {
        let mut m: i32 = i32::MIN;
        let mut j: i32 = c1 as i32;
        while j <= c2 as i32
            invariant
                range_ok(val_row1 as int, c1 as int, val_row2 as int, c2 as int),
                val_row1 <= i <= val_row2,
                c1 <= j <= c2 + 1,
                m == row_max(sheet.cells(), i as int, c1 as int, j as int),
            decreases c2 + 1 - j,
        {
            let v = match sheet.data.get(&data_key(i as i16, j as i16)) {
                Some(cell) => cell.value,
                None => 0,
            };
            if v > m {
                m = v;
            }
            j = j + 1;
        }
        if m > a {
            a = m;
        }
        i = i + 1;
    }
    a
}


/// The number of positions in the rectangle, as an `i32`.
fn count_cells(r1: i16, c1: i16, r2: i16, c2: i16) -> (n: i32)
    requires
        range_ok(r1 as int, c1 as int, r2 as int, c2 as int),
    ensures
        n == range_count(r1 as int, c1 as int, r2 as int, c2 as int),
        1 <= n <= 32767 * 32767,
{
    let h: i32 = r2 as i32 - r1 as i32 + 1;
    let w: i32 = c2 as i32 - c1 as i32 + 1;
    proof {
        assert(1 <= h * w <= 32767 * 32767) by (nonlinear_arith)
            requires
                1 <= h <= 32767,
                1 <= w <= 32767,
        ;
    }
    h * w
}

/// The AVG of the rectangle: the (wrapped) SUM divided by the number of
/// positions, rounding toward zero.
pub open spec fn spec_avg(cells: Map<i32, CellView>, r1: int, c1: int, r2: int, c2: int) -> i32 {
    wrap_i32(div_trunc(wrap_i32(rect_sum(cells, r1, r2 + 1, c1, c2)) as int, range_count(r1, c1, r2, c2)))
}

/// AVG over the rectangle: SUM divided by the number of positions (absent
/// cells count as 0), rounding toward zero.
pub fn avg(sheet: &Sheet, val_row1: i16, c1: i16, val_row2: i16, c2: i16) -> (r: i32)
    requires
        range_ok(val_row1 as int, c1 as int, val_row2 as int, c2 as int),
    ensures
        r == spec_avg(sheet.cells(), val_row1 as int, c1 as int, val_row2 as int, c2 as int),
{
    let total = sum(sheet, val_row1, c1, val_row2, c2);
    let count = count_cells(val_row1, c1, val_row2, c2);
    if count > 0 {
        div_wrapping(total, count)
    } else {
        -1
    }
}

/// The contribution of position `(r, c)` to STDEV's sum of squares: the
/// squared distance of its value from `mean`, an absent cell counting 0.
pub open spec fn dev_sq(cells: Map<i32, CellView>, r: int, c: int, mean: int) -> int {
    if cells.contains_key(spec_data_key(r, c) as i32) {
        (value_at(cells, r, c) - mean) * (value_at(cells, r, c) - mean)
    } else {
        mean * mean
    }
}

/// Sum of `dev_sq` over row `r`, columns `c1 .. c`.
pub open spec fn row_dev(cells: Map<i32, CellView>, r: int, c1: int, c: int, mean: int) -> int
    decreases c - c1,
{
    if c <= c1 {
        0
    } else {
        row_dev(cells, r, c1, c - 1, mean) + dev_sq(cells, r, c - 1, mean)
    }
}

/// Sum of `dev_sq` over rows `r1 .. r`, columns `c1 ..= c2`.
pub open spec fn rect_dev(cells: Map<i32, CellView>, r1: int, r: int, c1: int, c2: int, mean: int) -> int
    decreases r - r1,
{
    if r <= r1 {
        0
    } else {
        rect_dev(cells, r1, r - 1, c1, c2, mean) + row_dev(cells, r - 1, c1, c2 + 1, mean)
    }
}

/// `n` is the square root of `t / cnt` rounded to the nearest integer
/// (halves rounded up).
pub open spec fn is_round_sqrt(n: int, t: int, cnt: int) -> bool {
    &&& n >= 0
    &&& 4 * t < (2 * n + 1) * (2 * n + 1) * cnt
    &&& (n == 0 || (2 * n - 1) * (2 * n - 1) * cnt <= 4 * t)
}

/// The STDEV of the rectangle in terms of its sum of squares `t`: the
/// rounded square root of `t / count`, capped at `i32::MAX`.
pub open spec fn is_stdev_result(r: i32, t: int, cnt: int) -> bool {
    ||| (r < i32::MAX && is_round_sqrt(r as int, t, cnt))
    ||| (r == i32::MAX && (2 * (i32::MAX as int) - 1) * (2 * (i32::MAX as int) - 1) * cnt <= 4 * t)
}

fn row_dev_total(sheet: &Sheet, r: i16, c1: i16, c2: i16, mean: i32) -> (t: i128)
    requires
        c1 <= c2,
    ensures
        t == row_dev(sheet.cells(), r as int, c1 as int, c2 + 1, mean as int),
        0 <= t <= 0x1_0000_0000_0000_0000 * (c2 - c1 + 1),
{
    let mut t: i128 = 0;
    let mut j: i32 = c1 as i32;
    while j <= c2 as i32
        invariant
            c1 <= j <= c2 + 1,
            t == row_dev(sheet.cells(), r as int, c1 as int, j as int, mean as int),
            0 <= t <= 0x1_0000_0000_0000_0000 * (j - c1),
        decreases c2 + 1 - j,
    {
        let d: i128 = match sheet.data.get(&data_key(r, j as i16)) {
            Some(cell) => {
                let x: i128 = cell.value as i128 - mean as i128;
                proof {
                    assert(0 <= x * x <= 0x1_0000_0000_0000_0000) by (nonlinear_arith)
                        requires
                            -0x1_0000_0000 <= x <= 0x1_0000_0000,
                    ;
                }
                x * x
            },
            None => {
                let x: i128 = mean as i128;
                proof {
                    assert(0 <= x * x <= 0x1_0000_0000_0000_0000) by (nonlinear_arith)
                        requires
                            -0x1_0000_0000 <= x <= 0x1_0000_0000,
                    ;
                }
                x * x
            },
        };
        t = t + d;
        j = j + 1;
    }
    t
}

fn rect_dev_total(sheet: &Sheet, r1: i16, c1: i16, r2: i16, c2: i16, mean: i32) -> (t:
    i128)
    requires
        range_ok(r1 as int, c1 as int, r2 as int, c2 as int),
    ensures
        t == rect_dev(sheet.cells(), r1 as int, r2 + 1, c1 as int, c2 as int, mean as int),
        0 <= t <= 0x1_0000_0000_0000_0000 * 32767 * 32767,
{
    let mut t: i128 = 0;
    let mut i: i32 = r1 as i32;
    while i <= r2 as i32
        invariant
            range_ok(r1 as int, c1 as int, r2 as int, c2 as int),
            r1 <= i <= r2 + 1,
            t == rect_dev(sheet.cells(), r1 as int, i as int, c1 as int, c2 as int, mean as int),
            0 <= t <= 0x1_0000_0000_0000_0000 * (c2 - c1 + 1) * (i - r1),
        decreases r2 + 1 - i,
    {
        let rt = row_dev_total(sheet, i as i16, c1, c2, mean);
        proof {
            let w = c2 - c1 + 1;
            let k = i - r1;
            assert(0x1_0000_0000_0000_0000 * w * k + 0x1_0000_0000_0000_0000 * w
                == 0x1_0000_0000_0000_0000 * w * (k + 1)) by (nonlinear_arith);
            assert(0x1_0000_0000_0000_0000 * w * (k + 1) <= 0x1_0000_0000_0000_0000 * 32767 * 32767)
                by (nonlinear_arith)
                requires
                    0 < w <= 32767,
                    0 <= k + 1 <= 32767,
            ;
        }
        t = t + rt;
        i = i + 1;
    }
    proof {
        let w = c2 - c1 + 1;
        let k = r2 + 1 - r1;
        assert(0x1_0000_0000_0000_0000 * w * k <= 0x1_0000_0000_0000_0000 * 32767 * 32767)
            by (nonlinear_arith)
            requires
                0 < w <= 32767,
                0 <= k <= 32767,
        ;
    }
    t
}

/// Whether `(2n - 1)^2 * cnt <= 4t`, i.e. whether the rounded square root of
/// `t / cnt` is at least `n` (for `n >= 1`).
fn root_at_least(n: i64, t: i128, cnt: i32) -> (b: bool)
    requires
        1 <= n <= i32::MAX,
        0 <= t <= 0x1_0000_0000_0000_0000 * 32767 * 32767,
        1 <= cnt <= 32767 * 32767,
    ensures
        b == ((2 * n - 1) * (2 * n - 1) * cnt <= 4 * t),
{
    let m: i128 = 2 * n as i128 - 1;
    proof {
        assert(0 <= m * m <= 0x1_0000_0000 * 0x1_0000_0000) by (nonlinear_arith)
            requires
                1 <= m <= 0x1_0000_0000,
        ;
        assert(0 <= m * m * cnt <= 0x1_0000_0000 * 0x1_0000_0000 * 32767 * 32767) by (nonlinear_arith)
            requires
                1 <= m <= 0x1_0000_0000,
                1 <= cnt <= 32767 * 32767,
        ;
    }
    let mm: i128 = m * m;
    mm * (cnt as i128) <= 4 * t
}

/// The rounded square root of `t / cnt`, capped at `i32::MAX`.
fn rounded_sqrt(t: i128, cnt: i32) -> (r: i32)
    requires
        0 <= t <= 0x1_0000_0000_0000_0000 * 32767 * 32767,
        1 <= cnt <= 32767 * 32767,
    ensures
        is_stdev_result(r, t as int, cnt as int),
{
    if root_at_least(i32::MAX as i64, t, cnt) {
        return i32::MAX;
    }
    let mut lo: i64 = 0;
    let mut hi: i64 = i32::MAX as i64;
    while hi - lo > 1
        invariant
            0 <= lo < hi <= i32::MAX,
            0 <= t <= 0x1_0000_0000_0000_0000 * 32767 * 32767,
            1 <= cnt <= 32767 * 32767,
            lo == 0 || (2 * lo - 1) * (2 * lo - 1) * cnt <= 4 * t,
            !((2 * hi - 1) * (2 * hi - 1) * cnt <= 4 * t),
        decreases hi - lo,
    {
        let mid = lo + (hi - lo) / 2;
        if root_at_least(mid, t, cnt) {
            lo = mid;
        } else {
            hi = mid;
        }
    }
    proof {
        assert((2 * hi - 1) == 2 * lo + 1);
        assert((2 * lo + 1) * (2 * lo + 1) * cnt > 4 * t);
    }
    lo as i32
}

/// STDEV over the rectangle: the rounded square root of the mean squared
/// distance of the values from their AVG, every position of the rectangle
/// counting, absent cells as 0.
pub fn stdev(sheet: &Sheet, val_row1: i16, c1: i16, val_row2: i16, c2: i16) -> (r: i32)
    requires
        range_ok(val_row1 as int, c1 as int, val_row2 as int, c2 as int),
    ensures
        is_stdev_result(
            r,
            rect_dev(
                sheet.cells(),
                val_row1 as int,
                val_row2 + 1,
                c1 as int,
                c2 as int,
                spec_avg(sheet.cells(), val_row1 as int, c1 as int, val_row2 as int, c2 as int) as int,
            ),
            range_count(val_row1 as int, c1 as int, val_row2 as int, c2 as int),
        ),
{
    let avg_val = avg(sheet, val_row1, c1, val_row2, c2);
    let count = count_cells(val_row1, c1, val_row2, c2);
    let total = rect_dev_total(sheet, val_row1, c1, val_row2, c2, avg_val);
    rounded_sqrt(total, count)
}

/// Integer division rounding toward zero, as Rust's `/` does.
pub open spec fn div_trunc(a: int, b: int) -> int {
    if (a >= 0) == (b > 0) || a == 0 {
        if a >= 0 { a / b } else { (-a) / (-b) }
    } else if a < 0 {
        -((-a) / b)
    } else {
        -(a / (-b))
    }
}

/// Rust's `a / b` on `i32`, wrapping `i32::MIN / -1` around to `i32::MIN`.
fn div_wrapping(a: i32, b: i32) -> (q: i32)
    requires
        b != 0,
    ensures
        q == wrap_i32(div_trunc(a as int, b as int)),
{
    if a == i32::MIN && b == -1 {
        proof {
            assert((-(a as int)) / (-(b as int)) == 0x8000_0000) by (nonlinear_arith)
                requires
                    a == -0x8000_0000,
                    b == -1,
            ;
            assert(div_trunc(a as int, b as int) == 0x8000_0000);
            assert(0x8000_0000int % 0x1_0000_0000 == 0x8000_0000);
        }
        i32::MIN
    } else {
        let q = a.checked_div(b);
        match q {
            Some(v) => v,
            None => {
                proof {
                    assert(false) by (nonlinear_arith)
                        requires
                            b != 0,
                            !(a == i32::MIN && b == -1),
                            i32::MIN <= a <= i32::MAX,
                            i32::MIN <= b <= i32::MAX,
                            a.checked_div(b) is None,
                    ;
                }
                0
            },
        }
    }
}

/// `a + b` wrapping around.
pub(crate) fn add_wrapping(a: i32, b: i32) -> (r: i32)
    ensures
        r == wrap_i32(a + b),
{
    a.wrapping_add(b)
}

/// `a - b` wrapping around.
fn sub_wrapping(a: i32, b: i32) -> (r: i32)
    ensures
        r == wrap_i32(a - b),
{
    a.wrapping_sub(b)
}

/// `a * b` wrapping around.
fn mul_wrapping(a: i32, b: i32) -> (r: i32)
    ensures
        r == wrap_i32(a * b),
{
    a.wrapping_mul(b)
}

/// The result of `compute_cell`: the value and whether the cell is in error.
pub open spec fn spec_compute_cell(op_code: OpCode, v1: i32, v2: i32) -> (i32, bool) {
    match op_code {
        OpCode::CellPlusCell | OpCode::CellPlusConstant => (wrap_i32(v1 + v2), false),
        OpCode::CellMinusCell | OpCode::CellMinusConstant => (wrap_i32(v1 - v2), false),
        OpCode::CellTimesCell | OpCode::CellTimesConstant => (wrap_i32(v1 * v2), false),
        OpCode::CellDivideCell | OpCode::CellDivideConstant => if v2 == 0 {
            (-1i32, true)
        } else {
            (wrap_i32(div_trunc(v1 as int, v2 as int)), false)
        },
        OpCode::ConstantMinusCell => (wrap_i32(v2 - v1), false),
        OpCode::ConstantDividesCell => if v1 == 0 {
            (-1i32, true)
        } else {
            (wrap_i32(div_trunc(v2 as int, v1 as int)), false)
        },
        OpCode::String => (v1, false),
        _ => (-1i32, true),
    }
}

/// Whether `compute_cell` reports "err" for this operation.
pub open spec fn compute_cell_rejects(op_code: OpCode) -> bool {
    !(op_code is CellPlusCell || op_code is CellPlusConstant || op_code is CellMinusCell
        || op_code is CellMinusConstant || op_code is CellTimesCell
        || op_code is CellTimesConstant || op_code is CellDivideCell
        || op_code is CellDivideConstant || op_code is ConstantDividesCell
        || op_code is ConstantMinusCell
        || op_code is String)
}

/// Applies a binary formula to the operand values `cell_value` and
/// `cell_value2`: `(value, is_error)`. Division by zero gives `(-1, true)`;
/// an op code that is no binary formula gives `(-1, true)` and appends
/// "err" to `status`.
pub fn compute_cell(op_code: OpCode, cell_value: i32, cell_value2: i32, status: &mut String) -> (r: (
    i32,
    bool,
))
    ensures
        r == spec_compute_cell(op_code, cell_value, cell_value2),
        final(status)@ == if compute_cell_rejects(op_code) {
            old(status)@ + "err"@
        } else {
            old(status)@
        },
{
    match op_code {
        OpCode::CellPlusCell | OpCode::CellPlusConstant => (
            add_wrapping(cell_value, cell_value2),
            false,
        ),
        OpCode::CellMinusCell | OpCode::CellMinusConstant => (
            sub_wrapping(cell_value, cell_value2),
            false,
        ),
        OpCode::CellTimesCell | OpCode::CellTimesConstant => (
            mul_wrapping(cell_value, cell_value2),
            false,
        ),
        OpCode::CellDivideCell | OpCode::CellDivideConstant => {
            if cell_value2 == 0 {
                (-1, true)
            } else {
                (div_wrapping(cell_value, cell_value2), false)
            }
        },
        OpCode::ConstantMinusCell => (sub_wrapping(cell_value2, cell_value), false),
        OpCode::ConstantDividesCell => {
            if cell_value == 0 {
                (-1, true)
            } else {
                (div_wrapping(cell_value2, cell_value), false)
            }
        },
        OpCode::String => (cell_value, false),
        _ => {
            push_text(status, "err");
            (-1, true)
        },
    }
}


/// `m1` and `m2` store the same cells at the positions of rows `r1 .. r`
/// (exclusive), columns `c1 .. c` (exclusive).
pub open spec fn agree_on(m1: Map<i32, CellView>, m2: Map<i32, CellView>, r1: int, r: int, c1: int, c: int) -> bool {
    forall|x: int, y: int|
        #![trigger spec_data_key(x, y)]
        r1 <= x < r && c1 <= y < c ==> {
            let q = spec_data_key(x, y) as i32;
            &&& m1.contains_key(q) == m2.contains_key(q)
            &&& m1.contains_key(q) ==> m1[q] == m2[q]
        }
}

/// Maps that agree on a row segment give it the same sum, minimum,
/// maximum and sum of squared deviations.
pub(crate) proof fn lemma_row_agree(
    m1: Map<i32, CellView>,
    m2: Map<i32, CellView>,
    r: int,
    c1: int,
    c: int,
    mean: int,
)
    requires
        agree_on(m1, m2, r, r + 1, c1, c),
    ensures
        row_sum(m1, r, c1, c) == row_sum(m2, r, c1, c),
        row_min(m1, r, c1, c) == row_min(m2, r, c1, c),
        row_max(m1, r, c1, c) == row_max(m2, r, c1, c),
        row_dev(m1, r, c1, c, mean) == row_dev(m2, r, c1, c, mean),
    decreases c - c1,
{
    if c > c1 {
        lemma_row_agree(m1, m2, r, c1, c - 1, mean);
        let q = spec_data_key(r, c - 1) as i32;
        assert(m1.contains_key(q) == m2.contains_key(q));
        assert(value_at(m1, r, c - 1) == value_at(m2, r, c - 1));
        assert(dev_sq(m1, r, c - 1, mean) == dev_sq(m2, r, c - 1, mean));
    }
}

/// Maps that agree on a rectangle give it the same sum, minimum, maximum
/// and sum of squared deviations.
pub(crate) proof fn lemma_rect_agree(
    m1: Map<i32, CellView>,
    m2: Map<i32, CellView>,
    r1: int,
    r: int,
    c1: int,
    c2: int,
    mean: int,
)
    requires
        agree_on(m1, m2, r1, r, c1, c2 + 1),
    ensures
        rect_sum(m1, r1, r, c1, c2) == rect_sum(m2, r1, r, c1, c2),
        rect_min(m1, r1, r, c1, c2) == rect_min(m2, r1, r, c1, c2),
        rect_max(m1, r1, r, c1, c2) == rect_max(m2, r1, r, c1, c2),
        rect_dev(m1, r1, r, c1, c2, mean) == rect_dev(m2, r1, r, c1, c2, mean),
    decreases r - r1,
{
    if r > r1 {
        lemma_rect_agree(m1, m2, r1, r - 1, c1, c2, mean);
        lemma_row_agree(m1, m2, r - 1, c1, c2 + 1, mean);
    }
}

/// Maps that agree on a rectangle give the same range values over it.
pub(crate) proof fn lemma_range_value_agree(
    m1: Map<i32, CellView>,
    m2: Map<i32, CellView>,
    op: OpCode,
    r1: int,
    c1: int,
    r2: int,
    c2: int,
    v: i32,
)
    requires
        agree_on(m1, m2, r1, r2 + 1, c1, c2 + 1),
    ensures
        is_range_value(m1, op, r1, c1, r2, c2, v) == is_range_value(m2, op, r1, c1, r2, c2, v),
{
    lemma_rect_agree(m1, m2, r1, r2 + 1, c1, c2, 0);
    let mean = spec_avg(m1, r1, c1, r2, c2) as int;
    lemma_rect_agree(m1, m2, r1, r2 + 1, c1, c2, mean);
}

/// Whether `op_code` is one of the range functions SUM, MIN, MAX, AVG, STDEV.
pub open spec fn is_range_op(op_code: OpCode) -> bool {
    op_code is Sum || op_code is Min || op_code is Max || op_code is Avg || op_code is Stdev
}

/// `r` is the value of range function `op_code` over the (ordered)
/// rectangle `(r1, c1) ..= (r2, c2)` of sheet `s`; -1 for any other op code.
pub open spec fn is_range_value(cells: Map<i32, CellView>, op_code: OpCode, r1: int, c1: int, r2: int, c2: int, r: i32) -> bool {
    match op_code {
        OpCode::Sum => r == wrap_i32(rect_sum(cells, r1, r2 + 1, c1, c2)),
        OpCode::Min => r == rect_min(cells, r1, r2 + 1, c1, c2),
        OpCode::Max => r == rect_max(cells, r1, r2 + 1, c1, c2),
        OpCode::Avg => r == spec_avg(cells, r1, c1, r2, c2),
        OpCode::Stdev => is_stdev_result(
            r,
            rect_dev(
                cells,
                r1,
                r2 + 1,
                c1,
                c2,
                spec_avg(cells, r1, c1, r2, c2) as int,
            ),
            range_count(r1, c1, r2, c2),
        ),
        _ => r == -1,
    }
}

/// Evaluates range function `op_code` over `(row1, col1) ..= (row2, col2)`.
/// A rectangle with corners out of order gives -1 and appends "err" to
/// `status`; an op code that is no range function gives -1.
pub fn compute_range_func(
    sheet: &Sheet,
    op_code: OpCode,
    row1: i16,
    col1: i16,
    row2: i16,
    col2: i16,
    status: &mut String,
) -> (r: i32)
    requires
        (row1 <= row2 && col1 <= col2 && is_range_op(op_code)) ==> range_ok(
            row1 as int,
            col1 as int,
            row2 as int,
            col2 as int,
        ),
    ensures
        (col1 > col2 || row1 > row2) ==> r == -1 && final(status)@ == old(status)@ + "err"@,
        !(col1 > col2 || row1 > row2) ==> final(status)@ == old(status)@ && is_range_value(
            sheet.cells(),
            op_code,
            row1 as int,
            col1 as int,
            row2 as int,
            col2 as int,
            r,
        ),
{
    if col1 > col2 || row1 > row2 {
        push_text(status, "err");
        return -1;
    }
    match op_code {
        OpCode::Sum => sum(sheet, row1, col1, row2, col2),
        OpCode::Min => min(sheet, row1, col1, row2, col2),
        OpCode::Max => max(sheet, row1, col1, row2, col2),
        OpCode::Avg => avg(sheet, row1, col1, row2, col2),
        OpCode::Stdev => stdev(sheet, row1, col1, row2, col2),
        _ => -1,
    }
}

} // verus!
