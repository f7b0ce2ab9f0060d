//! The command language: moving the view, assigning numbers, strings and
//! formulas to cells, SLEEP and SORT. A command is read as text, trimmed of
//! surrounding whitespace and stripped of spaces, then matched against the
//! forms of the language in a fixed order.
use vstd::prelude::*;
use crate::sheet_functions::{
    OpCode, CellInfo, Sheet, col_value, letter_value, lemma_col_value_prefix,
    lemma_col_value_lower, add_constraints, set_content, content_set, creates_cycle,
    constraint_added, no_cell, view_at, string_view, spec_is_valid_cell, is_valid_cell,
    entry_constant, dependents_hold_after, acyclic, range_involved, marks_cover,
    marks_kept, no_dependents, sleep_added,
};
use crate::text::push_char;

verus! {

/// The op code of a formula combining a cell and a constant with operator
/// `op`; `constopcell` when the constant comes first.
pub open spec fn spec_get_op_code(op: char, constopcell: bool) -> OpCode {
    if op == '+' {
        OpCode::CellPlusConstant
    } else if op == '-' {
        if constopcell {
            OpCode::ConstantMinusCell
        } else {
            OpCode::CellMinusConstant
        }
    } else if op == '*' {
        OpCode::CellTimesConstant
    } else if op == '/' {
        if constopcell {
            OpCode::ConstantDividesCell
        } else {
            OpCode::CellDivideConstant
        }
    } else {
        OpCode::NoConstraint
    }
}

/// The op code of a formula combining a cell and a constant with operator
/// `op_code`; `constopcell` when the constant comes first.
pub fn get_op_code(op_code: char, constopcell: bool) -> (r: OpCode)
    ensures
        r == spec_get_op_code(op_code, constopcell),
{
    match op_code {
        '+' => OpCode::CellPlusConstant,
        '-' => if constopcell {
            OpCode::ConstantMinusCell
        } else {
            OpCode::CellMinusConstant
        },
        '*' => OpCode::CellTimesConstant,
        '/' => if constopcell {
            OpCode::ConstantDividesCell
        } else {
            OpCode::CellDivideConstant
        },
        _ => OpCode::NoConstraint,
    }
}

/// The op code of a formula combining two cells with operator `op`.
pub open spec fn spec_get_op_code2(op: char) -> OpCode {
    if op == '+' {
        OpCode::CellPlusCell
    } else if op == '-' {
        OpCode::CellMinusCell
    } else if op == '*' {
        OpCode::CellTimesCell
    } else if op == '/' {
        OpCode::CellDivideCell
    } else {
        OpCode::NoConstraint
    }
}

/// The op code of a formula combining two cells with operator `op_code`.
pub fn get_op_code2(op_code: char) -> (r: OpCode)
    ensures
        r == spec_get_op_code2(op_code),
{
    match op_code {
        '+' => OpCode::CellPlusCell,
        '-' => OpCode::CellMinusCell,
        '*' => OpCode::CellTimesCell,
        '/' => OpCode::CellDivideCell,
        _ => OpCode::NoConstraint,
    }
}

/// The range function named `name` (SUM, MIN, MAX, AVG, STDEV), or
/// `NoConstraint` for any other name.
pub open spec fn func_op(name: Seq<char>) -> OpCode {
    if name == seq!['S', 'U', 'M'] {
        OpCode::Sum
    } else if name == seq!['M', 'I', 'N'] {
        OpCode::Min
    } else if name == seq!['M', 'A', 'X'] {
        OpCode::Max
    } else if name == seq!['A', 'V', 'G'] {
        OpCode::Avg
    } else if name == seq!['S', 'T', 'D', 'E', 'V'] {
        OpCode::Stdev
    } else {
        OpCode::NoConstraint
    }
}

/// The characters of `s`.
pub fn chars_of(s: &str) -> (v: Vec<char>)
    ensures
        v@ == s@,
{
    let mut v: Vec<char> = Vec::new();
    for c in it: s.chars()
        invariant
            it.seq() == s@,
            v@ == s@.take(it.index()),
    {
        proof {
            assert(s@.take(it.index() + 1) =~= v@.push(c));
        }
        v.push(c);
    }
    proof {
        assert(s@.take(s@.len() as int) =~= s@);
    }
    v
}

/// The range function named by the characters `v[lo .. hi]`.
fn func_op_of(v: &Vec<char>, lo: usize, hi: usize) -> (r: OpCode)
    requires
        lo <= hi <= v@.len(),
    ensures
        r == func_op(v@.subrange(lo as int, hi as int)),
{
    let ghost sub = v@.subrange(lo as int, hi as int);
    let n = hi - lo;
    if n == 3 {
        let (a, b, c) = (v[lo], v[lo + 1], v[lo + 2]);
        proof {
            assert(sub.len() == 3 && sub[0] == a && sub[1] == b && sub[2] == c);
            assert(seq![a, b, c] =~= sub);
        }
        if a == 'S' && b == 'U' && c == 'M' {
            OpCode::Sum
        } else if a == 'M' && b == 'I' && c == 'N' {
            OpCode::Min
        } else if a == 'M' && b == 'A' && c == 'X' {
            OpCode::Max
        } else if a == 'A' && b == 'V' && c == 'G' {
            OpCode::Avg
        } else {
            proof {
                assert(sub != seq!['S', 'U', 'M'] && sub != seq!['M', 'I', 'N']);
                assert(sub != seq!['M', 'A', 'X'] && sub != seq!['A', 'V', 'G']);
                assert(sub.len() != seq!['S', 'T', 'D', 'E', 'V'].len());
            }
            OpCode::NoConstraint
        }
    } else if n == 5 {
        let (a, b, c, d, e) = (v[lo], v[lo + 1], v[lo + 2], v[lo + 3], v[lo + 4]);
        proof {
            assert(seq![a, b, c, d, e] =~= sub);
        }
        if a == 'S' && b == 'T' && c == 'D' && d == 'E' && e == 'V' {
            OpCode::Stdev
        } else {
            proof {
                assert(sub.len() != seq!['S', 'U', 'M'].len());
                assert(sub != seq!['S', 'T', 'D', 'E', 'V']);
            }
            OpCode::NoConstraint
        }
    } else {
        proof {
            assert(sub.len() != seq!['S', 'U', 'M'].len());
            assert(sub.len() != seq!['S', 'T', 'D', 'E', 'V'].len());
        }
        OpCode::NoConstraint
    }
}

/// The range function named `func` (SUM, MIN, MAX, AVG, STDEV), or
/// `NoConstraint` for any other name.
pub fn func_to_op_code(func: &str) -> (r: OpCode)
    ensures
        r == func_op(func@),
{
    let v = chars_of(func);
    proof {
        assert(v@.subrange(0, v@.len() as int) =~= v@);
    }
    func_op_of(&v, 0, v.len())
}


/// Whether `c` is white space (the Unicode `White_Space` characters, as
/// Rust's `char::is_whitespace` and `str::trim` take them).
pub open spec fn is_space_char(c: char) -> bool {
    let u = c as u32;
    ||| u == 32
    ||| (9 <= u <= 13)
    ||| u == 0x85
    ||| u == 0xa0
    ||| u == 0x1680
    ||| (0x2000 <= u <= 0x200a)
    ||| u == 0x2028
    ||| u == 0x2029
    ||| u == 0x202f
    ||| u == 0x205f
    ||| u == 0x3000
}

/// Whether `c` is white space.
fn space_char(c: char) -> (b: bool)
    ensures
        b == is_space_char(c),
{
    let u = c as u32;
    u == 32 || (9 <= u && u <= 13) || u == 0x85 || u == 0xa0 || u == 0x1680 || (0x2000 <= u && u
        <= 0x200a) || u == 0x2028 || u == 0x2029 || u == 0x202f || u == 0x205f || u == 0x3000
}

/// The index of the first character of `s` from `i` on that is no white
/// space.
pub open spec fn trim_front(s: Seq<char>, i: int) -> int
    decreases s.len() - i,
{
    if 0 <= i < s.len() && is_space_char(s[i]) {
        trim_front(s, i + 1)
    } else {
        i
    }
}

/// The end of `s[lo .. j]` once trailing white space is dropped.
pub open spec fn trim_back(s: Seq<char>, lo: int, j: int) -> int
    decreases j - lo,
{
    if lo < j && is_space_char(s[j - 1]) {
        trim_back(s, lo, j - 1)
    } else {
        j
    }
}

/// `s` without leading and trailing white space.
pub open spec fn trimmed(s: Seq<char>) -> Seq<char> {
    let a = trim_front(s, 0);
    s.subrange(a, trim_back(s, a, s.len() as int))
}

/// The test that keeps every character but the space.
pub open spec fn not_blank() -> spec_fn(char) -> bool {
    |c: char| c != ' '
}

/// A command as it is matched: trimmed, with every space removed.
pub open spec fn cleaned(s: Seq<char>) -> Seq<char> {
    trimmed(s).filter(not_blank())
}

/// `command` without leading and trailing white space.
fn trim_to_string(command: &str) -> (t: String)
    ensures
        t@ == trimmed(command@),
{
    let all = chars_of(command);
    let ghost s = all@;
    let mut a: usize = 0;
    while a < all.len() && space_char(all[a])
        invariant
            s == all@,
            0 <= a <= s.len(),
            trim_front(s, 0) == trim_front(s, a as int),
        decreases s.len() - a,
    {
        a = a + 1;
    }
    let mut b: usize = all.len();
    while b > a && space_char(all[b - 1])
        invariant
            s == all@,
            0 <= a <= b <= s.len(),
            trim_front(s, 0) == a,
            trim_back(s, a as int, s.len() as int) == trim_back(s, a as int, b as int),
        decreases b,
    {
        b = b - 1;
    }
    let mut t = String::new();
    let mut i: usize = a;
    while i < b
        invariant
            s == all@,
            0 <= a <= i <= b <= s.len(),
            t@ == s.subrange(a as int, i as int),
        decreases b - i,
    {
        proof {
            assert(s.subrange(a as int, i + 1) =~= t@.push(s[i as int]));
        }
        push_char(&mut t, all[i]);
        i = i + 1;
    }
    t
}

/// `s[.. i + 1]` kept through `f` is `s[.. i]` kept through `f`, plus `s[i]`
/// if `f` keeps it.
proof fn lemma_filter_step(s: Seq<char>, i: int, f: spec_fn(char) -> bool)
    requires
        0 <= i < s.len(),
    ensures
        s.take(i + 1).filter(f) == if f(s[i]) {
            s.take(i).filter(f).push(s[i])
        } else {
            s.take(i).filter(f)
        },
{
    reveal(Seq::filter);
    assert(s.take(i + 1).drop_last() =~= s.take(i));
    assert(s.take(i + 1).last() == s[i]);
}

/// Removes every space from `command`.
pub fn remove_space(command: &mut String)
    ensures
        final(command)@ == old(command)@.filter(not_blank()),
{
    let v = chars_of(command.as_str());
    let ghost s = v@;
    let mut t = String::new();
    let mut i: usize = 0;
    while i < v.len()
        invariant
            s == v@,
            s == old(command)@,
            0 <= i <= s.len(),
            t@ == s.take(i as int).filter(not_blank()),
        decreases s.len() - i,
    {
        proof {
            lemma_filter_step(s, i as int, not_blank());
        }
        if v[i] != ' ' {
            push_char(&mut t, v[i]);
        }
        i = i + 1;
    }
    proof {
        assert(s.take(s.len() as int) =~= s);
    }
    *command = t;
}

/// Whether `c` is an upper-case ASCII letter.
pub open spec fn is_upper(c: char) -> bool {
    65 <= c as u32 <= 90
}

/// Whether `c` is an ASCII digit.
pub open spec fn is_digit(c: char) -> bool {
    48 <= c as u32 <= 57
}

/// The end of the run of upper-case letters of `c` from `i`.
pub open spec fn upper_end(c: Seq<char>, i: int) -> int
    decreases c.len() - i,
{
    if 0 <= i < c.len() && is_upper(c[i]) {
        upper_end(c, i + 1)
    } else {
        i
    }
}

/// The end of the run of digits of `c` from `i`.
pub open spec fn digit_end(c: Seq<char>, i: int) -> int
    decreases c.len() - i,
{
    if 0 <= i < c.len() && is_digit(c[i]) {
        digit_end(c, i + 1)
    } else {
        i
    }
}

/// The end of the run of white space of `c` from `i`.
pub open spec fn space_end(c: Seq<char>, i: int) -> int
    decreases c.len() - i,
{
    if 0 <= i < c.len() && is_space_char(c[i]) {
        space_end(c, i + 1)
    } else {
        i
    }
}

/// The number written in decimal by the digits `s`.
pub open spec fn decimal(s: Seq<char>) -> int
    decreases s.len(),
{
    if s.len() == 0 {
        0
    } else {
        decimal(s.drop_last()) * 10 + (s.last() as u32 - 48)
    }
}

/// The end of the run of characters of `c` from `i` that satisfy `p`.
fn run_end(c: &Vec<char>, i: usize, kind: u8) -> (e: usize)
    requires
        i <= c@.len(),
        kind <= 2,
    ensures
        kind == 0 ==> e == upper_end(c@, i as int),
        kind == 1 ==> e == digit_end(c@, i as int),
        kind == 2 ==> e == space_end(c@, i as int),
        i <= e <= c@.len(),
{
    let mut j = i;
    while j < c.len()
        invariant
            i <= j <= c@.len(),
            kind <= 2,
            kind == 0 ==> upper_end(c@, i as int) == upper_end(c@, j as int),
            kind == 1 ==> digit_end(c@, i as int) == digit_end(c@, j as int),
            kind == 2 ==> space_end(c@, i as int) == space_end(c@, j as int),
        decreases c@.len() - j,
    {
        let ch = c[j];
        let u = ch as u32;
        let inside = if kind == 0 {
            65 <= u && u <= 90
        } else if kind == 1 {
            48 <= u && u <= 57
        } else {
            space_char(ch)
        };
        if !inside {
            return j;
        }
        j = j + 1;
    }
    j
}


/// `x` as an `i32`, when it fits one.
pub open spec fn fit(x: int) -> Option<i32> {
    if i32::MIN <= x <= i32::MAX {
        Some(x as i32)
    } else {
        None
    }
}

proof fn lemma_decimal_prefix(s: Seq<char>, k: int)
    requires
        0 <= k <= s.len(),
        forall|j: int| 0 <= j < s.len() ==> is_digit(#[trigger] s[j]),
    ensures
        0 <= decimal(s.take(k)) <= decimal(s),
    decreases s.len() - k,
{
    if k < s.len() {
        lemma_decimal_prefix(s, k + 1);
        assert(s.take(k + 1).drop_last() =~= s.take(k));
        assert(s.take(k + 1).last() == s[k]);
    } else {
        assert(s.take(k) =~= s);
    }
    lemma_decimal_nonneg(s.take(k));
}

proof fn lemma_decimal_nonneg(s: Seq<char>)
    requires
        forall|j: int| 0 <= j < s.len() ==> is_digit(#[trigger] s[j]),
    ensures
        decimal(s) >= 0,
    decreases s.len(),
{
    if s.len() > 0 {
        lemma_decimal_nonneg(s.drop_last());
        assert(is_digit(s[s.len() - 1]));
    }
}

/// The number written by the digits `c[lo .. hi]`, when it fits an `i32`.
fn decimal_i32(c: &Vec<char>, lo: usize, hi: usize) -> (r: Option<i32>)
    requires
        lo <= hi <= c@.len(),
        forall|j: int| lo <= j < hi ==> is_digit(#[trigger] c@[j]),
    ensures
        r == fit(decimal(c@.subrange(lo as int, hi as int))),
        decimal(c@.subrange(lo as int, hi as int)) >= 0,
{
    let ghost s = c@.subrange(lo as int, hi as int);
    proof {
        assert forall|j: int| 0 <= j < s.len() implies is_digit(#[trigger] s[j]) by {
            assert(s[j] == c@[lo + j]);
        }
        lemma_decimal_prefix(s, s.len() as int);
    }
    let mut acc: i64 = 0;
    let mut i: usize = lo;
    while i < hi
        invariant
            lo <= i <= hi <= c@.len(),
            s == c@.subrange(lo as int, hi as int),
            forall|j: int| 0 <= j < s.len() ==> is_digit(#[trigger] s[j]),
            forall|j: int| lo <= j < hi ==> is_digit(#[trigger] c@[j]),
            acc == decimal(s.take(i - lo)),
            0 <= acc <= i32::MAX,
        decreases hi - i,
    {
        proof {
            assert(is_digit(c@[i as int]));
        }
        let d: i64 = (c[i] as u32 - 48) as i64;
        proof {
            assert(s.take(i - lo + 1).drop_last() =~= s.take(i - lo));
            assert(s.take(i - lo + 1).last() == s[i - lo]);
            assert(s[i - lo] == c@[i as int]);
        }
        let next: i64 = acc * 10 + d;
        if next > i32::MAX as i64 {
            proof {
                lemma_decimal_prefix(s, i - lo + 1);
            }
            return None;
        }
        acc = next;
        i = i + 1;
    }
    proof {
        assert(s.take(s.len() as int) =~= s);
    }
    Some(acc as i32)
}

/// An upper-case letter's code fits a byte.
proof fn lemma_upper_byte(ch: char)
    requires
        is_upper(ch),
    ensures
        (ch as u8) as int == ch as u32,
        letter_value(ch) == ch as u32 - 65,
{
    let x = ch as u32;
    assert((x as u8) as u32 == x) by (bit_vector)
        requires
            x <= 90,
    ;
    assert(ch as u8 == x as u8);
}

/// The column number named by the letters `c[lo .. hi]`, when it fits an
/// `i32`.
fn col_i32(c: &Vec<char>, lo: usize, hi: usize) -> (r: Option<i32>)
    requires
        lo <= hi <= c@.len(),
        forall|j: int| lo <= j < hi ==> is_upper(#[trigger] c@[j]),
    ensures
        r == fit(col_value(c@.subrange(lo as int, hi as int))),
{
    let ghost s = c@.subrange(lo as int, hi as int);
    proof {
        assert forall|j: int| 0 <= j < s.len() implies letter_value(#[trigger] s[j]) >= 0 by {
            assert(s[j] == c@[lo + j]);
            lemma_upper_byte(s[j]);
        }
        lemma_col_value_lower(s);
    }
    let mut acc: i64 = -1;
    let mut i: usize = lo;
    while i < hi
        invariant
            lo <= i <= hi <= c@.len(),
            s == c@.subrange(lo as int, hi as int),
            forall|j: int| 0 <= j < s.len() ==> letter_value(#[trigger] s[j]) >= 0,
            forall|j: int| lo <= j < hi ==> is_upper(#[trigger] c@[j]),
            acc == col_value(s.take(i - lo)),
            -1 <= acc <= i32::MAX,
        decreases hi - i,
    {
        let ch = c[i];
        proof {
            assert(is_upper(c@[i as int]));
            assert(s.take(i - lo + 1).drop_last() =~= s.take(i - lo));
            assert(s.take(i - lo + 1).last() == s[i - lo]);
            assert(s[i - lo] == ch);
            lemma_upper_byte(ch);
        }
        let d: i64 = (ch as u32 - 65) as i64;
        let next: i64 = (acc + 1) * 26 + d;
        if next > i32::MAX as i64 {
            proof {
                lemma_col_value_prefix(s, i - lo + 1);
            }
            return None;
        }
        acc = next;
        i = i + 1;
    }
    proof {
        assert(s.take(s.len() as int) =~= s);
    }
    Some(acc as i32)
}

/// A cell reference (letters, then digits) at `i` of `c`: whether there is
/// one, its column number, its row as written, and where it ends.
pub open spec fn ref_at(c: Seq<char>, i: int) -> (bool, int, int, int) {
    let u = upper_end(c, i);
    let d = digit_end(c, u);
    (i < u && u < d, col_value(c.subrange(i, u)), decimal(c.subrange(u, d)), d)
}

proof fn lemma_run_props(c: Seq<char>, i: int)
    requires
        0 <= i <= c.len(),
    ensures
        i <= upper_end(c, i) <= c.len(),
        forall|j: int| i <= j < upper_end(c, i) ==> is_upper(#[trigger] c[j]),
        i <= digit_end(c, i) <= c.len(),
        forall|j: int| i <= j < digit_end(c, i) ==> is_digit(#[trigger] c[j]),
    decreases c.len() - i,
{
    if i < c.len() {
        lemma_run_props(c, i + 1);
    }
}

/// The column number of a cell reference is at least -1 and its row is not
/// negative.
pub(crate) proof fn lemma_ref_nonneg(c: Seq<char>, i: int)
    requires
        0 <= i <= c.len(),
    ensures
        ref_at(c, i).1 >= -1,
        ref_at(c, i).2 >= 0,
{
    lemma_run_props(c, i);
    let u = upper_end(c, i);
    lemma_run_props(c, u);
    let d = digit_end(c, u);
    let s = c.subrange(i, u);
    assert forall|j: int| 0 <= j < s.len() implies letter_value(#[trigger] s[j]) >= 0 by {
        assert(s[j] == c[i + j]);
        lemma_upper_byte(s[j]);
    }
    lemma_col_value_lower(s);
    let t = c.subrange(u, d);
    assert forall|j: int| 0 <= j < t.len() implies is_digit(#[trigger] t[j]) by {
        assert(t[j] == c[u + j]);
    }
    lemma_decimal_nonneg(t);
}

/// The cell reference at `i` of `c`: whether there is one, its column and
/// row (when they fit an `i32`), and where it ends.
pub(crate) fn ref_parse(c: &Vec<char>, i: usize) -> (r: (bool, Option<i32>, Option<i32>, usize))
    requires
        i <= c@.len(),
    ensures
        r.0 == ref_at(c@, i as int).0,
        r.1 == fit(ref_at(c@, i as int).1),
        r.2 == fit(ref_at(c@, i as int).2),
        r.3 == ref_at(c@, i as int).3,
        i <= r.3 <= c@.len(),
{
    let u = run_end(c, i, 0);
    let d = run_end(c, u, 1);
    proof {
        lemma_run_props(c@, i as int);
        lemma_run_props(c@, u as int);
    }
    let col = col_i32(c, i, u);
    let row = decimal_i32(c, u, d);
    (i < u && u < d, col, row, d)
}


/// A command of the language, as parsed. Cells are given by column number
/// and row as written (1-based); text is given by its bounds in the cleaned
/// command.
#[derive(Clone, Copy, Debug, PartialEq, Eq, Structural)]
pub enum Command {
    /// `w`: ten rows up.
    ScrollUp,
    /// `s`: ten rows down.
    ScrollDown,
    /// `a`: ten columns left.
    ScrollLeft,
    /// `d`: ten columns right.
    ScrollRight,
    /// `q`: leave the program.
    Quit,
    /// `enable_output`: print the sheet after each command.
    EnableOutput,
    /// `disable_output`: stop printing the sheet.
    DisableOutput,
    /// `scroll_to<cell>`: show the sheet from that cell.
    ScrollTo { col: i32, row: i32 },
    /// `<cell>=<text>`: a string cell.
    SetText { col: i32, row: i32, start: usize, end: usize },
    /// `<cell>=<int><op><int>`: a number computed once.
    IntOpInt { col: i32, row: i32, lhs: i32, op: char, rhs: i32 },
    /// `<cell>=<cell><op><cell>`.
    CellOpCell { col: i32, row: i32, col1: i32, row1: i32, op: char, col2: i32, row2: i32 },
    /// `<cell>=<int><op><cell>`.
    IntOpCell { col: i32, row: i32, lhs: i32, op: char, col1: i32, row1: i32 },
    /// `<cell>=<cell><op><int>`.
    CellOpInt { col: i32, row: i32, col1: i32, row1: i32, op: char, rhs: i32 },
    /// `<cell>=<FUNC>(<cell>:<cell>)`.
    Func { col: i32, row: i32, func: OpCode, col1: i32, row1: i32, col2: i32, row2: i32 },
    /// `<cell>=<int>`; `None` when the number does not fit an `i32`.
    SetInt { col: i32, row: i32, number: Option<i32> },
    /// `<cell>=<cell>`.
    CellEq { col: i32, row: i32, col1: i32, row1: i32 },
    /// `<cell>=SLEEP(<int>)`.
    SleepInt { col: i32, row: i32, value: i32 },
    /// `<cell>=SLEEP(<cell>)`.
    SleepCell { col: i32, row: i32, col1: i32, row1: i32 },
    /// `SORT(<cell>:<cell>;<cell>:<cell>;asc|desc)`.
    Sort {
        col1: i32,
        row1: i32,
        col2: i32,
        row2: i32,
        col3: i32,
        row3: i32,
        col4: i32,
        row4: i32,
    },
    /// Anything else.
    Unknown,
    /// A command of some form whose row, column or number (other than the
    /// value of `<cell>=<int>`) is too large for an `i32`.
    Overflow,
}

/// Whether `ch` is one of the operators `+ - * /`.
pub open spec fn is_op(ch: char) -> bool {
    ch == '+' || ch == '-' || ch == '*' || ch == '/'
}

/// Whether `ch` may stand in unquoted text: lower-case letters, white space
/// and the characters `_ . , : ; - / @ # $ % ^ & ! ? ( ) [ ] { } < >`.
pub open spec fn is_text_char(ch: char) -> bool {
    ||| (97 <= ch as u32 <= 122)
    ||| is_space_char(ch)
    ||| ch == '_' || ch == '.' || ch == ',' || ch == ':' || ch == ';' || ch == '-' || ch == '/'
    ||| ch == '@' || ch == '#' || ch == '$' || ch == '%' || ch == '^' || ch == '&' || ch == '!'
    ||| ch == '?' || ch == '(' || ch == ')' || ch == '[' || ch == ']' || ch == '{' || ch == '}'
    ||| ch == '<' || ch == '>'
}

/// The target of an assignment: a cell reference at the start of `c`
/// followed by `=`; whether there is one, its column and row, and where its
/// right-hand side starts.
pub open spec fn target(c: Seq<char>) -> (bool, int, int, int) {
    let r = ref_at(c, 0);
    (r.0 && r.3 < c.len() && c[r.3] == '=', r.1, r.2, r.3 + 1)
}

/// Whether `x` and `y` fit an `i32`.
pub open spec fn fit2(x: int, y: int) -> bool {
    fit(x) is Some && fit(y) is Some
}

/// `scroll_to<cell>`.
pub open spec fn form_scroll_to(c: Seq<char>) -> Option<Command> {
    let r = ref_at(c, 9);
    if c.len() >= 9 && c.subrange(0, 9) == seq!['s', 'c', 'r', 'o', 'l', 'l', '_', 't', 'o'] && r.0
        && r.3 == c.len() {
        Some(
            if fit2(r.1, r.2) {
                Command::ScrollTo { col: r.1 as i32, row: r.2 as i32 }
            } else {
                Command::Overflow
            },
        )
    } else {
        None
    }
}

/// Whether `c[lo .. hi]` is a quoted string: `"`, characters other than
/// `"`, `"`.
pub open spec fn quoted(c: Seq<char>, lo: int, hi: int) -> bool {
    &&& hi - lo >= 2
    &&& c[lo] == '"'
    &&& c[hi - 1] == '"'
    &&& forall|j: int| lo < j < hi - 1 ==> c[j] != '"'
}

/// `<cell>="<text>"` or `<cell>=<text>` with unquoted text.
pub open spec fn form_text(c: Seq<char>) -> Option<Command> {
    let t = target(c);
    let n = c.len() as int;
    if t.0 && quoted(c, t.3, n) {
        Some(
            if fit2(t.1, t.2) {
                Command::SetText { col: t.1 as i32, row: t.2 as i32, start: (t.3 + 1) as usize, end: (n - 1) as usize }
            } else {
                Command::Overflow
            },
        )
    } else if t.0 && forall|j: int| t.3 <= j < n ==> is_text_char(#[trigger] c[j]) {
        Some(
            if fit2(t.1, t.2) {
                Command::SetText { col: t.1 as i32, row: t.2 as i32, start: t.3 as usize, end: n as usize }
            } else {
                Command::Overflow
            },
        )
    } else {
        None
    }
}

/// `<cell>=<int><op><int>`.
pub open spec fn form_int_op_int(c: Seq<char>) -> Option<Command> {
    let t = target(c);
    let d1 = digit_end(c, t.3);
    let d2 = digit_end(c, d1 + 1);
    if t.0 && t.3 < d1 && d1 < c.len() && is_op(c[d1]) && d1 + 1 < d2 && d2 == c.len() {
        let a = decimal(c.subrange(t.3, d1));
        let b = decimal(c.subrange(d1 + 1, d2));
        Some(
            if fit2(t.1, t.2) && fit2(a, b) {
                Command::IntOpInt { col: t.1 as i32, row: t.2 as i32, lhs: a as i32, op: c[d1], rhs: b as i32 }
            } else {
                Command::Overflow
            },
        )
    } else {
        None
    }
}

/// `<cell>=<cell><op><cell>`.
pub open spec fn form_cell_op_cell(c: Seq<char>) -> Option<Command> {
    let t = target(c);
    let r1 = ref_at(c, t.3);
    let r2 = ref_at(c, r1.3 + 1);
    if t.0 && r1.0 && r1.3 < c.len() && is_op(c[r1.3]) && r2.0 && r2.3 == c.len() {
        Some(
            if fit2(t.1, t.2) && fit2(r1.1, r1.2) && fit2(r2.1, r2.2) {
                Command::CellOpCell {
                    col: t.1 as i32,
                    row: t.2 as i32,
                    col1: r1.1 as i32,
                    row1: r1.2 as i32,
                    op: c[r1.3],
                    col2: r2.1 as i32,
                    row2: r2.2 as i32,
                }
            } else {
                Command::Overflow
            },
        )
    } else {
        None
    }
}

/// `<cell>=<int><op><cell>`.
pub open spec fn form_int_op_cell(c: Seq<char>) -> Option<Command> {
    let t = target(c);
    let d1 = digit_end(c, t.3);
    let r = ref_at(c, d1 + 1);
    if t.0 && t.3 < d1 && d1 < c.len() && is_op(c[d1]) && r.0 && r.3 == c.len() {
        let a = decimal(c.subrange(t.3, d1));
        Some(
            if fit2(t.1, t.2) && fit(a) is Some && fit2(r.1, r.2) {
                Command::IntOpCell {
                    col: t.1 as i32,
                    row: t.2 as i32,
                    lhs: a as i32,
                    op: c[d1],
                    col1: r.1 as i32,
                    row1: r.2 as i32,
                }
            } else {
                Command::Overflow
            },
        )
    } else {
        None
    }
}

/// `<cell>=<cell><op><int>`.
pub open spec fn form_cell_op_int(c: Seq<char>) -> Option<Command> {
    let t = target(c);
    let r = ref_at(c, t.3);
    let d2 = digit_end(c, r.3 + 1);
    if t.0 && r.0 && r.3 < c.len() && is_op(c[r.3]) && r.3 + 1 < d2 && d2 == c.len() {
        let b = decimal(c.subrange(r.3 + 1, d2));
        Some(
            if fit2(t.1, t.2) && fit2(r.1, r.2) && fit(b) is Some {
                Command::CellOpInt {
                    col: t.1 as i32,
                    row: t.2 as i32,
                    col1: r.1 as i32,
                    row1: r.2 as i32,
                    op: c[r.3],
                    rhs: b as i32,
                }
            } else {
                Command::Overflow
            },
        )
    } else {
        None
    }
}

/// `<cell>=<FUNC>(<cell>:<cell>)`.
pub open spec fn form_func(c: Seq<char>) -> Option<Command> {
    let t = target(c);
    let u = upper_end(c, t.3);
    let r1 = ref_at(c, u + 1);
    let r2 = ref_at(c, r1.3 + 1);
    if t.0 && t.3 < u && u < c.len() && c[u] == '(' && r1.0 && r1.3 < c.len() && c[r1.3] == ':'
        && r2.0 && r2.3 < c.len() && c[r2.3] == ')' && r2.3 + 1 == c.len() {
        Some(
            if fit2(t.1, t.2) && fit2(r1.1, r1.2) && fit2(r2.1, r2.2) {
                Command::Func {
                    col: t.1 as i32,
                    row: t.2 as i32,
                    func: func_op(c.subrange(t.3, u)),
                    col1: r1.1 as i32,
                    row1: r1.2 as i32,
                    col2: r2.1 as i32,
                    row2: r2.2 as i32,
                }
            } else {
                Command::Overflow
            },
        )
    } else {
        None
    }
}

/// `<cell>=<int>`, the number possibly negative.
pub open spec fn form_int(c: Seq<char>) -> Option<Command> {
    let t = target(c);
    let neg = t.3 < c.len() && c[t.3] == '-';
    let s = if neg { t.3 + 1 } else { t.3 };
    let d = digit_end(c, s);
    if t.0 && s < d && d == c.len() {
        let v = decimal(c.subrange(s, d));
        Some(
            if fit2(t.1, t.2) {
                Command::SetInt { col: t.1 as i32, row: t.2 as i32, number: fit(if neg { -v } else { v }) }
            } else {
                Command::Overflow
            },
        )
    } else {
        None
    }
}

/// `<cell>=<cell>`.
pub open spec fn form_cell(c: Seq<char>) -> Option<Command> {
    let t = target(c);
    let r = ref_at(c, t.3);
    if t.0 && r.0 && r.3 == c.len() {
        Some(
            if fit2(t.1, t.2) && fit2(r.1, r.2) {
                Command::CellEq { col: t.1 as i32, row: t.2 as i32, col1: r.1 as i32, row1: r.2 as i32 }
            } else {
                Command::Overflow
            },
        )
    } else {
        None
    }
}

/// Whether `SLEEP(` stands at `i` of `c`.
pub open spec fn sleep_at(c: Seq<char>, i: int) -> bool {
    0 <= i && i + 6 <= c.len() && c.subrange(i, i + 6) == seq!['S', 'L', 'E', 'E', 'P', '(']
}

/// `<cell>=SLEEP(<int>)`.
pub open spec fn form_sleep_int(c: Seq<char>) -> Option<Command> {
    let t = target(c);
    let d = digit_end(c, t.3 + 6);
    if t.0 && sleep_at(c, t.3) && t.3 + 6 < d && d + 1 == c.len() && c[d] == ')' {
        let v = decimal(c.subrange(t.3 + 6, d));
        Some(
            if fit2(t.1, t.2) && fit(v) is Some {
                Command::SleepInt { col: t.1 as i32, row: t.2 as i32, value: v as i32 }
            } else {
                Command::Overflow
            },
        )
    } else {
        None
    }
}

/// `<cell>=SLEEP(<cell>)`.
pub open spec fn form_sleep_cell(c: Seq<char>) -> Option<Command> {
    let t = target(c);
    let r = ref_at(c, t.3 + 6);
    if t.0 && sleep_at(c, t.3) && r.0 && r.3 + 1 == c.len() && c[r.3] == ')' {
        Some(
            if fit2(t.1, t.2) && fit2(r.1, r.2) {
                Command::SleepCell { col: t.1 as i32, row: t.2 as i32, col1: r.1 as i32, row1: r.2 as i32 }
            } else {
                Command::Overflow
            },
        )
    } else {
        None
    }
}


/// Whether `c[i ..]` starts with the characters of `w`.
pub open spec fn word_at(c: Seq<char>, i: int, w: Seq<char>) -> bool {
    0 <= i && i + w.len() <= c.len() && c.subrange(i, i + w.len()) == w
}

/// A cell reference at `i` of `c`, after white space; then white space and
/// the separator `sep`: whether all are there, the reference found, and
/// where the text after the separator starts.
pub open spec fn sort_part(c: Seq<char>, i: int, sep: char) -> (bool, (bool, int, int, int), int) {
    let r = ref_at(c, space_end(c, i));
    let b = space_end(c, r.3);
    (r.0 && b < c.len() && c[b] == sep, r, b + 1)
}

/// `SORT(<cell>:<cell>;<cell>:<cell>;asc|desc)`, white space allowed
/// around each part.
pub open spec fn form_sort(c: Seq<char>) -> Option<Command> {
    let p1 = sort_part(c, 5, ':');
    let p2 = sort_part(c, p1.2, ';');
    let p3 = sort_part(c, p2.2, ':');
    let p4 = sort_part(c, p3.2, ';');
    let a = space_end(c, p4.2);
    let e = if word_at(c, a, seq!['a', 's', 'c']) {
        a + 3
    } else {
        a + 4
    };
    let b = space_end(c, e);
    if word_at(c, 0, seq!['S', 'O', 'R', 'T', '(']) && p1.0 && p2.0 && p3.0 && p4.0 && (word_at(
        c,
        a,
        seq!['a', 's', 'c'],
    ) || word_at(c, a, seq!['d', 'e', 's', 'c'])) && b < c.len() && c[b] == ')' && b + 1
        == c.len() {
        Some(
            if fit2(p1.1.1, p1.1.2) && fit2(p2.1.1, p2.1.2) && fit2(p3.1.1, p3.1.2) && fit2(
                p4.1.1,
                p4.1.2,
            ) {
                Command::Sort {
                    col1: p1.1.1 as i32,
                    row1: p1.1.2 as i32,
                    col2: p2.1.1 as i32,
                    row2: p2.1.2 as i32,
                    col3: p3.1.1 as i32,
                    row3: p3.1.2 as i32,
                    col4: p4.1.1 as i32,
                    row4: p4.1.2 as i32,
                }
            } else {
                Command::Overflow
            },
        )
    } else {
        None
    }
}

/// The command written by the cleaned text `c`: the first form of the
/// language that matches, in the order: the keywords `w`, `s`, `a`, `d`,
/// `q`, `enable_output`, `disable_output`; `scroll_to`; text; int op int;
/// cell op cell; int op cell; cell op int; range function; int; cell;
/// SLEEP of an int; SLEEP of a cell; SORT.
pub open spec fn spec_command(c: Seq<char>) -> Command {
    if c == seq!['w'] {
        Command::ScrollUp
    } else if c == seq!['s'] {
        Command::ScrollDown
    } else if c == seq!['a'] {
        Command::ScrollLeft
    } else if c == seq!['d'] {
        Command::ScrollRight
    } else if c == seq!['q'] {
        Command::Quit
    } else if c == seq!['e', 'n', 'a', 'b', 'l', 'e', '_', 'o', 'u', 't', 'p', 'u', 't'] {
        Command::EnableOutput
    } else if c == seq!['d', 'i', 's', 'a', 'b', 'l', 'e', '_', 'o', 'u', 't', 'p', 'u', 't'] {
        Command::DisableOutput
    } else if form_scroll_to(c) is Some {
        form_scroll_to(c).unwrap()
    } else if form_text(c) is Some {
        form_text(c).unwrap()
    } else if form_int_op_int(c) is Some {
        form_int_op_int(c).unwrap()
    } else if form_cell_op_cell(c) is Some {
        form_cell_op_cell(c).unwrap()
    } else if form_int_op_cell(c) is Some {
        form_int_op_cell(c).unwrap()
    } else if form_cell_op_int(c) is Some {
        form_cell_op_int(c).unwrap()
    } else if form_func(c) is Some {
        form_func(c).unwrap()
    } else if form_int(c) is Some {
        form_int(c).unwrap()
    } else if form_cell(c) is Some {
        form_cell(c).unwrap()
    } else if form_sleep_int(c) is Some {
        form_sleep_int(c).unwrap()
    } else if form_sleep_cell(c) is Some {
        form_sleep_cell(c).unwrap()
    } else if form_sort(c) is Some {
        form_sort(c).unwrap()
    } else {
        Command::Unknown
    }
}


/// Whether `c[i ..]` starts with the characters of `w`.
fn word_at_exec(c: &Vec<char>, i: usize, w: &Vec<char>) -> (b: bool)
    ensures
        b == word_at(c@, i as int, w@),
{
    if i > c.len() || w.len() > c.len() - i {
        return false;
    }
    let n = c.len();
    let mut j: usize = 0;
    while j < w.len()
        invariant
            n == c@.len(),
            i <= c@.len(),
            i + w@.len() <= c@.len(),
            0 <= j <= w@.len(),
            forall|k: int| 0 <= k < j ==> c@[i + k] == w@[k],
        decreases w@.len() - j,
    {
        proof {
            assert(i + j < c@.len());
        }
        if c[i + j] != w[j] {
            proof {
                assert(c@.subrange(i as int, i + w@.len())[j as int] != w@[j as int]);
            }
            return false;
        }
        j = j + 1;
    }
    proof {
        assert(c@.subrange(i as int, i + w@.len()) =~= w@);
    }
    true
}

/// Whether `ch` is one of the operators `+ - * /`.
fn op_char(ch: char) -> (b: bool)
    ensures
        b == is_op(ch),
{
    ch == '+' || ch == '-' || ch == '*' || ch == '/'
}

/// Whether `ch` may stand in unquoted text.
fn text_char(ch: char) -> (b: bool)
    ensures
        b == is_text_char(ch),
{
    let u = ch as u32;
    (97 <= u && u <= 122) || space_char(ch) || ch == '_' || ch == '.' || ch == ',' || ch == ':'
        || ch == ';' || ch == '-' || ch == '/' || ch == '@' || ch == '#' || ch == '$' || ch == '%'
        || ch == '^' || ch == '&' || ch == '!' || ch == '?' || ch == '(' || ch == ')' || ch == '['
        || ch == ']' || ch == '{' || ch == '}' || ch == '<' || ch == '>'
}

/// The target of an assignment at the start of `c` (see `target`).
fn target_exec(c: &Vec<char>) -> (r: (bool, Option<i32>, Option<i32>, usize))
    ensures
        r.0 == target(c@).0,
        r.0 ==> r.1 == fit(target(c@).1) && r.2 == fit(target(c@).2) && r.3 == target(c@).3
            && r.3 <= c@.len(),
{
    let (ok, col, row, e) = ref_parse(c, 0);
    if ok && e < c.len() && c[e] == '=' {
        (true, col, row, e + 1)
    } else {
        (false, None, None, 0)
    }
}

/// `scroll_to<cell>`.
fn parse_scroll_to(c: &Vec<char>) -> (r: Option<Command>)
    ensures
        r == form_scroll_to(c@),
{
    let w = vec!['s', 'c', 'r', 'o', 'l', 'l', '_', 't', 'o'];
    proof {
        assert(w@ =~= seq!['s', 'c', 'r', 'o', 'l', 'l', '_', 't', 'o']);
    }
    if !word_at_exec(c, 0, &w) {
        return None;
    }
    let (ok, col, row, e) = ref_parse(c, 9);
    if !(ok && e == c.len()) {
        return None;
    }
    match (col, row) {
        (Some(cl), Some(rw)) => Some(Command::ScrollTo { col: cl, row: rw }),
        _ => Some(Command::Overflow),
    }
}

/// Whether `c[lo ..]` is a quoted string.
fn is_quoted_exec(c: &Vec<char>, lo: usize) -> (b: bool)
    requires
        lo <= c@.len(),
    ensures
        b == quoted(c@, lo as int, c@.len() as int),
{
    let n = c.len();
    if !(n - lo >= 2 && c[lo] == '"' && c[n - 1] == '"') {
        return false;
    }
    let mut j = lo + 1;
    while j < n - 1
        invariant
            lo + 1 <= j <= n - 1,
            n == c@.len(),
            forall|k: int| lo < k < j ==> c@[k] != '"',
        decreases n - 1 - j,
    {
        if c[j] == '"' {
            return false;
        }
        j = j + 1;
    }
    true
}

/// `<cell>="<text>"` or `<cell>=<text>`.
#[verifier::loop_isolation(false)]
fn parse_text(c: &Vec<char>) -> (r: Option<Command>)
    ensures
        r == form_text(c@),
{
    let (ok, col, row, e) = target_exec(c);
    if !ok {
        return None;
    }
    let n = c.len();
    if is_quoted_exec(c, e) {
        return match (col, row) {
            (Some(cl), Some(rw)) => Some(Command::SetText { col: cl, row: rw, start: e + 1, end: n - 1 }),
            _ => Some(Command::Overflow),
        };
    }
    let mut j = e;
    while j < n
        invariant
            e <= j <= n,
            n == c@.len(),
            !quoted(c@, e as int, n as int),
            forall|k: int| e <= k < j ==> is_text_char(#[trigger] c@[k]),
        decreases n - j,
    {
        if !text_char(c[j]) {
            proof {
                assert(!is_text_char(c@[j as int]));
                assert(!quoted(c@, e as int, n as int));
                assert(!(forall|k: int| e <= k < n ==> is_text_char(#[trigger] c@[k])));
            }
            return None;
        }
        j = j + 1;
    }
    match (col, row) {
        (Some(cl), Some(rw)) => Some(Command::SetText { col: cl, row: rw, start: e, end: n }),
        _ => Some(Command::Overflow),
    }
}


/// `<cell>=<int><op><int>`.
fn parse_int_op_int(c: &Vec<char>) -> (r: Option<Command>)
    ensures
        r == form_int_op_int(c@),
{
    let (ok, col, row, e) = target_exec(c);
    if !ok {
        return None;
    }
    let d1 = run_end(c, e, 1);
    if !(e < d1 && d1 < c.len() && op_char(c[d1])) {
        return None;
    }
    let d2 = run_end(c, d1 + 1, 1);
    if !(d1 + 1 < d2 && d2 == c.len()) {
        return None;
    }
    proof {
        lemma_run_props(c@, e as int);
        lemma_run_props(c@, d1 + 1);
    }
    let a = decimal_i32(c, e, d1);
    let b = decimal_i32(c, d1 + 1, d2);
    match (col, row, a, b) {
        (Some(cl), Some(rw), Some(x), Some(y)) => Some(
            Command::IntOpInt { col: cl, row: rw, lhs: x, op: c[d1], rhs: y },
        ),
        _ => Some(Command::Overflow),
    }
}

/// `<cell>=<cell><op><cell>`.
fn parse_cell_op_cell(c: &Vec<char>) -> (r: Option<Command>)
    ensures
        r == form_cell_op_cell(c@),
{
    let (ok, col, row, e) = target_exec(c);
    if !ok {
        return None;
    }
    let (ok1, col1, row1, e1) = ref_parse(c, e);
    if !(ok1 && e1 < c.len() && op_char(c[e1])) {
        return None;
    }
    let (ok2, col2, row2, e2) = ref_parse(c, e1 + 1);
    if !(ok2 && e2 == c.len()) {
        return None;
    }
    match (col, row, col1, row1, col2, row2) {
        (Some(cl), Some(rw), Some(c1), Some(r1), Some(c2), Some(r2)) => Some(
            Command::CellOpCell { col: cl, row: rw, col1: c1, row1: r1, op: c[e1], col2: c2, row2: r2 },
        ),
        _ => Some(Command::Overflow),
    }
}

/// `<cell>=<int><op><cell>`.
fn parse_int_op_cell(c: &Vec<char>) -> (r: Option<Command>)
    ensures
        r == form_int_op_cell(c@),
{
    let (ok, col, row, e) = target_exec(c);
    if !ok {
        return None;
    }
    let d1 = run_end(c, e, 1);
    if !(e < d1 && d1 < c.len() && op_char(c[d1])) {
        return None;
    }
    let (ok1, col1, row1, e1) = ref_parse(c, d1 + 1);
    if !(ok1 && e1 == c.len()) {
        return None;
    }
    proof {
        lemma_run_props(c@, e as int);
    }
    let a = decimal_i32(c, e, d1);
    match (col, row, a, col1, row1) {
        (Some(cl), Some(rw), Some(x), Some(c1), Some(r1)) => Some(
            Command::IntOpCell { col: cl, row: rw, lhs: x, op: c[d1], col1: c1, row1: r1 },
        ),
        _ => Some(Command::Overflow),
    }
}

/// `<cell>=<cell><op><int>`.
fn parse_cell_op_int(c: &Vec<char>) -> (r: Option<Command>)
    ensures
        r == form_cell_op_int(c@),
{
    let (ok, col, row, e) = target_exec(c);
    if !ok {
        return None;
    }
    let (ok1, col1, row1, e1) = ref_parse(c, e);
    if !(ok1 && e1 < c.len() && op_char(c[e1])) {
        return None;
    }
    let d2 = run_end(c, e1 + 1, 1);
    if !(e1 + 1 < d2 && d2 == c.len()) {
        return None;
    }
    proof {
        lemma_run_props(c@, e1 + 1);
    }
    let b = decimal_i32(c, e1 + 1, d2);
    match (col, row, col1, row1, b) {
        (Some(cl), Some(rw), Some(c1), Some(r1), Some(y)) => Some(
            Command::CellOpInt { col: cl, row: rw, col1: c1, row1: r1, op: c[e1], rhs: y },
        ),
        _ => Some(Command::Overflow),
    }
}

/// `<cell>=<FUNC>(<cell>:<cell>)`.
fn parse_func(c: &Vec<char>) -> (r: Option<Command>)
    ensures
        r == form_func(c@),
{
    let (ok, col, row, e) = target_exec(c);
    if !ok {
        return None;
    }
    let u = run_end(c, e, 0);
    if !(e < u && u < c.len() && c[u] == '(') {
        return None;
    }
    let (ok1, col1, row1, e1) = ref_parse(c, u + 1);
    if !(ok1 && e1 < c.len() && c[e1] == ':') {
        return None;
    }
    let (ok2, col2, row2, e2) = ref_parse(c, e1 + 1);
    if !(ok2 && e2 < c.len() && c[e2] == ')' && e2 + 1 == c.len()) {
        return None;
    }
    let func = func_op_of(c, e, u);
    match (col, row, col1, row1, col2, row2) {
        (Some(cl), Some(rw), Some(c1), Some(r1), Some(c2), Some(r2)) => Some(
            Command::Func { col: cl, row: rw, func, col1: c1, row1: r1, col2: c2, row2: r2 },
        ),
        _ => Some(Command::Overflow),
    }
}

/// `<cell>=<int>`.
fn parse_int(c: &Vec<char>) -> (r: Option<Command>)
    ensures
        r == form_int(c@),
{
    let (ok, col, row, e) = target_exec(c);
    if !ok {
        return None;
    }
    let neg = e < c.len() && c[e] == '-';
    let st = if neg {
        e + 1
    } else {
        e
    };
    let d = run_end(c, st, 1);
    if !(st < d && d == c.len()) {
        return None;
    }
    proof {
        lemma_run_props(c@, st as int);
    }
    let v = decimal_i32(c, st, d);
    let number: Option<i32> = match v {
        Some(x) => if neg {
            Some(-x)
        } else {
            Some(x)
        },
        None => {
            if neg && decimal_is_min(c, st, d) {
                Some(i32::MIN)
            } else {
                None
            }
        },
    };
    match (col, row) {
        (Some(cl), Some(rw)) => Some(Command::SetInt { col: cl, row: rw, number }),
        _ => Some(Command::Overflow),
    }
}

/// Whether the digits `c[lo .. hi]` write 2147483648.
fn decimal_is_min(c: &Vec<char>, lo: usize, hi: usize) -> (b: bool)
    requires
        lo <= hi <= c@.len(),
        forall|j: int| lo <= j < hi ==> is_digit(#[trigger] c@[j]),
        decimal(c@.subrange(lo as int, hi as int)) > i32::MAX,
    ensures
        b == (decimal(c@.subrange(lo as int, hi as int)) == 0x8000_0000),
{
    let ghost s = c@.subrange(lo as int, hi as int);
    proof {
        assert forall|j: int| 0 <= j < s.len() implies is_digit(#[trigger] s[j]) by {
            assert(s[j] == c@[lo + j]);
        }
    }
    let mut acc: i64 = 0;
    let mut i: usize = lo;
    while i < hi
        invariant
            lo <= i <= hi <= c@.len(),
            s == c@.subrange(lo as int, hi as int),
            forall|j: int| 0 <= j < s.len() ==> is_digit(#[trigger] s[j]),
            forall|j: int| lo <= j < hi ==> is_digit(#[trigger] c@[j]),
            acc == decimal(s.take(i - lo)),
            0 <= acc <= 0x8000_0000,
        decreases hi - i,
    {
        proof {
            assert(is_digit(c@[i as int]));
            assert(s.take(i - lo + 1).drop_last() =~= s.take(i - lo));
            assert(s.take(i - lo + 1).last() == s[i - lo]);
            assert(s[i - lo] == c@[i as int]);
        }
        let d: i64 = (c[i] as u32 - 48) as i64;
        let next: i64 = acc * 10 + d;
        if next > 0x8000_0000 {
            proof {
                lemma_decimal_prefix(s, i - lo + 1);
            }
            return false;
        }
        acc = next;
        i = i + 1;
    }
    proof {
        assert(s.take(s.len() as int) =~= s);
    }
    acc == 0x8000_0000
}

/// `<cell>=<cell>`.
fn parse_cell(c: &Vec<char>) -> (r: Option<Command>)
    ensures
        r == form_cell(c@),
{
    let (ok, col, row, e) = target_exec(c);
    if !ok {
        return None;
    }
    let (ok1, col1, row1, e1) = ref_parse(c, e);
    if !(ok1 && e1 == c.len()) {
        return None;
    }
    match (col, row, col1, row1) {
        (Some(cl), Some(rw), Some(c1), Some(r1)) => Some(
            Command::CellEq { col: cl, row: rw, col1: c1, row1: r1 },
        ),
        _ => Some(Command::Overflow),
    }
}

/// Whether `SLEEP(` stands at `i` of `c`.
fn sleep_at_exec(c: &Vec<char>, i: usize) -> (b: bool)
    ensures
        b == sleep_at(c@, i as int),
{
    let w = vec!['S', 'L', 'E', 'E', 'P', '('];
    proof {
        assert(w@ =~= seq!['S', 'L', 'E', 'E', 'P', '(']);
    }
    word_at_exec(c, i, &w)
}

/// `<cell>=SLEEP(<int>)`.
fn parse_sleep_int(c: &Vec<char>) -> (r: Option<Command>)
    ensures
        r == form_sleep_int(c@),
{
    let n = c.len();
    let (ok, col, row, e) = target_exec(c);
    if !(ok && sleep_at_exec(c, e)) {
        return None;
    }
    let d = run_end(c, e + 6, 1);
    if !(e + 6 < d && d < n && d + 1 == n && c[d] == ')') {
        return None;
    }
    proof {
        lemma_run_props(c@, e + 6);
    }
    let v = decimal_i32(c, e + 6, d);
    match (col, row, v) {
        (Some(cl), Some(rw), Some(x)) => Some(Command::SleepInt { col: cl, row: rw, value: x }),
        _ => Some(Command::Overflow),
    }
}

/// `<cell>=SLEEP(<cell>)`.
fn parse_sleep_cell(c: &Vec<char>) -> (r: Option<Command>)
    ensures
        r == form_sleep_cell(c@),
{
    let n = c.len();
    let (ok, col, row, e) = target_exec(c);
    if !(ok && sleep_at_exec(c, e)) {
        return None;
    }
    let (ok1, col1, row1, e1) = ref_parse(c, e + 6);
    if !(ok1 && e1 < n && e1 + 1 == n && c[e1] == ')') {
        return None;
    }
    match (col, row, col1, row1) {
        (Some(cl), Some(rw), Some(c1), Some(r1)) => Some(
            Command::SleepCell { col: cl, row: rw, col1: c1, row1: r1 },
        ),
        _ => Some(Command::Overflow),
    }
}


/// A part of a SORT command at `i` (see `sort_part`): whether it is there,
/// the column and row of its cell (when they fit an `i32`), and where the
/// text after its separator starts.
fn sort_part_exec(c: &Vec<char>, i: usize, sep: char) -> (r: (bool, Option<i32>, Option<i32>, usize))
    requires
        i <= c@.len(),
    ensures
        r.0 == sort_part(c@, i as int, sep).0,
        r.0 ==> r.1 == fit(sort_part(c@, i as int, sep).1.1) && r.2 == fit(
            sort_part(c@, i as int, sep).1.2,
        ) && r.3 == sort_part(c@, i as int, sep).2 && r.3 <= c@.len(),
{
    let a = run_end(c, i, 2);
    let (ok, col, row, e) = ref_parse(c, a);
    let b = run_end(c, e, 2);
    if ok && b < c.len() && c[b] == sep {
        (true, col, row, b + 1)
    } else {
        (false, None, None, 0)
    }
}

/// `SORT(<cell>:<cell>;<cell>:<cell>;asc|desc)`.
fn parse_sort(c: &Vec<char>) -> (r: Option<Command>)
    ensures
        r == form_sort(c@),
{
    let n = c.len();
    let head = vec!['S', 'O', 'R', 'T', '('];
    let asc = vec!['a', 's', 'c'];
    let desc = vec!['d', 'e', 's', 'c'];
    proof {
        assert(head@ =~= seq!['S', 'O', 'R', 'T', '(']);
        assert(asc@ =~= seq!['a', 's', 'c']);
        assert(desc@ =~= seq!['d', 'e', 's', 'c']);
    }
    if !word_at_exec(c, 0, &head) {
        return None;
    }
    let (ok1, c1, r1, n1) = sort_part_exec(c, 5, ':');
    if !ok1 {
        return None;
    }
    let (ok2, c2, r2, n2) = sort_part_exec(c, n1, ';');
    if !ok2 {
        return None;
    }
    let (ok3, c3, r3, n3) = sort_part_exec(c, n2, ':');
    if !ok3 {
        return None;
    }
    let (ok4, c4, r4, n4) = sort_part_exec(c, n3, ';');
    if !ok4 {
        return None;
    }
    let a = run_end(c, n4, 2);
    let is_asc = word_at_exec(c, a, &asc);
    let is_desc = word_at_exec(c, a, &desc);
    if !(is_asc || is_desc) {
        return None;
    }
    let e = if is_asc {
        a + 3
    } else {
        a + 4
    };
    let b = run_end(c, e, 2);
    if !(b < n && c[b] == ')' && b + 1 == n) {
        return None;
    }
    match (c1, r1, c2, r2, c3, r3, c4, r4) {
        (Some(x1), Some(y1), Some(x2), Some(y2), Some(x3), Some(y3), Some(x4), Some(y4)) => Some(
            Command::Sort {
                col1: x1,
                row1: y1,
                col2: x2,
                row2: y2,
                col3: x3,
                row3: y3,
                col4: x4,
                row4: y4,
            },
        ),
        _ => Some(Command::Overflow),
    }
}

/// Whether `c` is exactly the characters of `w`.
fn is_word(c: &Vec<char>, w: &Vec<char>) -> (b: bool)
    ensures
        b == (c@ == w@),
{
    let b = c.len() == w.len() && word_at_exec(c, 0, w);
    proof {
        if c@.len() == w@.len() {
            assert(c@.subrange(0, w@.len() as int) =~= c@);
        }
    }
    b
}

/// The command written by the cleaned text `c`.
pub fn parse_cleaned(c: &Vec<char>) -> (r: Command)
    ensures
        r == spec_command(c@),
{
    let enable = vec!['e', 'n', 'a', 'b', 'l', 'e', '_', 'o', 'u', 't', 'p', 'u', 't'];
    let disable = vec!['d', 'i', 's', 'a', 'b', 'l', 'e', '_', 'o', 'u', 't', 'p', 'u', 't'];
    proof {
        assert(enable@ =~= seq!['e', 'n', 'a', 'b', 'l', 'e', '_', 'o', 'u', 't', 'p', 'u', 't']);
        assert(disable@ =~= seq!['d', 'i', 's', 'a', 'b', 'l', 'e', '_', 'o', 'u', 't', 'p', 'u', 't']);
    }
    if c.len() == 1 {
        let ch = c[0];
        proof {
            assert(c@ =~= seq![ch]);
        }
        if ch == 'w' {
            return Command::ScrollUp;
        } else if ch == 's' {
            return Command::ScrollDown;
        } else if ch == 'a' {
            return Command::ScrollLeft;
        } else if ch == 'd' {
            return Command::ScrollRight;
        } else if ch == 'q' {
            return Command::Quit;
        }
    } else {
        proof {
            assert(c@.len() != seq!['w'].len());
        }
    }
    if is_word(c, &enable) {
        return Command::EnableOutput;
    }
    if is_word(c, &disable) {
        return Command::DisableOutput;
    }
    if let Some(x) = parse_scroll_to(c) {
        return x;
    }
    if let Some(x) = parse_text(c) {
        return x;
    }
    if let Some(x) = parse_int_op_int(c) {
        return x;
    }
    if let Some(x) = parse_cell_op_cell(c) {
        return x;
    }
    if let Some(x) = parse_int_op_cell(c) {
        return x;
    }
    if let Some(x) = parse_cell_op_int(c) {
        return x;
    }
    if let Some(x) = parse_func(c) {
        return x;
    }
    if let Some(x) = parse_int(c) {
        return x;
    }
    if let Some(x) = parse_cell(c) {
        return x;
    }
    if let Some(x) = parse_sleep_int(c) {
        return x;
    }
    if let Some(x) = parse_sleep_cell(c) {
        return x;
    }
    if let Some(x) = parse_sort(c) {
        return x;
    }
    Command::Unknown
}


/// What a command asks of the program around the sheet.
pub struct CommandEffect {
    /// Seconds to wait for, gathered from SLEEP.
    pub sleep_seconds: i32,
    /// Whether the time the command took is reported (all commands but
    /// `scroll_to` and a range function of unknown name).
    pub timed: bool,
    /// Whether the program is to stop.
    pub quit: bool,
    /// For SORT: the columns and (0-based) rows of its four cells, to be
    /// printed; empty otherwise.
    pub sort_corners: Vec<i64>,
}

/// The position of the cell at column `col` and row `row` as written
/// (1-based).
pub open spec fn at(col: i32, row: i32) -> CellInfo {
    CellInfo { row: (row - 1) as i16, col: col as i16 }
}

/// Whether the cell at column `col` and row `row` as written lies in a
/// sheet of `rows` x `cols`.
pub open spec fn in_sheet(col: i32, row: i32, rows: i32, cols: i32) -> bool {
    spec_is_valid_cell(row - 1, col as int, rows as int, cols as int)
}

/// The constant `v` as a formula over a cell and a constant stores it: its
/// high 16 bits as `row`, its low 16 bits as `col`.
pub open spec fn split_constant(v: i32) -> CellInfo {
    CellInfo { row: ((v >> 16u32) & 0xFFFFi32) as i16, col: (v & 0xFFFFi32) as i16 }
}

/// The characters `c[start .. end]` (none when the bounds do not fit).
pub open spec fn text_between(c: Seq<char>, start: usize, end: usize) -> Seq<char> {
    if start <= end <= c.len() {
        c.subrange(start as int, end as int)
    } else {
        Seq::empty()
    }
}

/// What setting formula `op` at `p` does (see `add_constraints`): refused
/// with "circular error" and no change, or accepted with "ok"; either way,
/// under the consistency conditions the cells that depend on `p` hold what
/// their formulas give, an acyclic sheet stays acyclic (where a range
/// formula is set or replaced, when every position a range entry holds is
/// marked), and marks covering the range entries keep covering them unless
/// a range formula replaces one over a rectangle it shares positions with
/// that no other entry holds.
pub open spec fn formula_effect(
    s0: Sheet,
    s1: Sheet,
    st: Seq<char>,
    p: CellInfo,
    c1: CellInfo,
    c2: CellInfo,
    op: OpCode,
) -> bool {
    &&& if creates_cycle(s0, p, c1, c2, op) {
        s1 == s0 && st == "circular error"@
    } else {
        st == "ok"@ && constraint_added(s0, s1, p, c1, c2, op)
    }
    &&& dependents_hold_after(s0, s1, p, c1, c2, op)
    &&& acyclic(s0) && (range_involved(s0, p, op) ==> marks_cover(s0)) ==> acyclic(s1)
    &&& marks_cover(s0) && marks_kept(s0, p, c1, c2, op) ==> marks_cover(s1)
}

/// `s1` (and status `st`) after the content `value`, `is_error`, `string`
/// is written at `p` and the formula `op` (with no operands) is set there.
pub open spec fn written_then(
    s0: Sheet,
    s1: Sheet,
    st: Seq<char>,
    p: CellInfo,
    value: i32,
    is_error: bool,
    string: Option<Seq<char>>,
    op: OpCode,
) -> bool {
    exists|q: Sheet|
        {
            &&& q.rows == s0.rows
            &&& q.cols == s0.cols
            &&& q.tuup == s0.tuup
            &&& q.buul == s0.buul
            &&& q.cells() == content_set(s0.cells(), p.row as int, p.col as int, value, is_error, string)
            &&& acyclic(s0) ==> acyclic(q)
            &&& formula_effect(q, s1, st, p, no_cell(), no_cell(), op)
        }
}

/// The number a SLEEP over the cell at column `col`, row `row` (as written)
/// waits for: the cell's value, or 0 for a string cell.
pub open spec fn sleep_operand(s: Sheet, col: i32, row: i32) -> int {
    let a = view_at(s.cells(), row - 1, col as int);
    if a.string is Some {
        0
    } else {
        a.value as int
    }
}

/// Writes content at `p`, then sets formula `op` (with no operands) there.
fn write_then_set(
    sheet: &mut Sheet,
    p: CellInfo,
    value: i32,
    is_error: bool,
    string: Option<String>,
    op: OpCode,
    status: &mut String,
    sleep_timer: &mut i32,
)
    requires
        old(sheet).wf(),
        old(sheet).settled(),
        old(sheet).valid_pos(p.row as int, p.col as int),
        op is NoConstraint || op is String,
    ensures
        final(sheet).wf(),
        final(sheet).settled(),
        written_then(
            *old(sheet),
            *final(sheet),
            final(status)@,
            p,
            value,
            is_error,
            string_view(string),
            op,
        ),
        forall|q: i32| old(sheet).data@.contains_key(q) ==> final(sheet).data@.contains_key(q),
        no_dependents(*old(sheet), p) ==> *final(sleep_timer) == *old(sleep_timer),
{
    let ghost s0 = *sheet;
    let ghost sv = string_view(string);
    set_content(sheet, p.row, p.col, value, is_error, string);
    let ghost q = *sheet;
    proof {
        assert forall|k: i32| s0.data@.contains_key(k) implies q.data@.contains_key(k) by {
            assert(s0.cells().contains_key(k));
            assert(q.cells().contains_key(k));
        }
        if no_dependents(s0, p) {
            assert forall|k: i32|
                #![trigger q.data@[k]]
                s0.data@.contains_key(k) implies q.data@.contains_key(k) && q.data@[k].dependencies@
                    == s0.data@[k].dependencies@ by {
                assert(s0.cells().contains_key(k));
                assert(q.cells()[k] == q.data@[k]@);
                assert(s0.cells()[k] == s0.data@[k]@);
            }
            assert forall|k: i32|
                #![trigger q.data@[k]]
                q.data@.contains_key(k) && !s0.data@.contains_key(k) implies q.data@[k].dependencies@
                    == Set::<i32>::empty() by {
                assert(q.cells().contains_key(k));
                assert(q.cells()[k] == q.data@[k]@);
            }
            crate::sheet_functions::lemma_no_dependents_kept(s0, q, p);
        }
    }
    add_constraints(p, CellInfo { row: -1, col: -1 }, CellInfo { row: -1, col: -1 }, op, sheet, status, sleep_timer);
    proof {
        assert(formula_effect(q, *sheet, status@, p, no_cell(), no_cell(), op));
    }
}

/// Sets formula `op` over `c1` and `c2` at `p`.
fn set_formula_at(
    sheet: &mut Sheet,
    p: CellInfo,
    c1: CellInfo,
    c2: CellInfo,
    op: OpCode,
    status: &mut String,
    sleep_timer: &mut i32,
)
    requires
        old(sheet).wf(),
        old(sheet).settled(),
        old(sheet).valid_pos(p.row as int, p.col as int),
        crate::calculate_functions::is_range_op(op) ==> old(sheet).rect_fits(
            c1.row as int,
            c1.col as int,
            c2.row as int,
            c2.col as int,
        ),
    ensures
        final(sheet).wf(),
        final(sheet).settled(),
        formula_effect(*old(sheet), *final(sheet), final(status)@, p, c1, c2, op),
        forall|q: i32| old(sheet).data@.contains_key(q) ==> final(sheet).data@.contains_key(q),
        creates_cycle(*old(sheet), p, c1, c2, op) ==> *final(sleep_timer) == *old(sleep_timer),
        no_dependents(*old(sheet), p) && !creates_cycle(*old(sheet), p, c1, c2, op) ==> *final(sleep_timer)
            == if op is Sleep {
            sleep_added(old(sheet).cells(), c1, *old(sleep_timer))
        } else {
            *old(sleep_timer)
        },
{
    add_constraints(p, c1, c2, op, sheet, status, sleep_timer);
}


/// What command `cmd` (written by the cleaned text `c`) does on a sheet of
/// `rows` x `cols`: from sheet `s0`, view origin `(rs0, cs0)`, status `st0`
/// and output flag `pe0` to `s1`, `(rs1, cs1)`, `st1`, `pe1`, asking `eff` of
/// the program around.
pub open spec fn command_post(
    cmd: Command,
    c: Seq<char>,
    rows: i32,
    cols: i32,
    s0: Sheet,
    s1: Sheet,
    rs0: i32,
    cs0: i32,
    rs1: i32,
    cs1: i32,
    st0: Seq<char>,
    st1: Seq<char>,
    pe0: bool,
    pe1: bool,
    eff: CommandEffect,
) -> bool {
    let same_view = rs1 == rs0 && cs1 == cs0;
    let plain = !eff.quit && eff.sort_corners@.len() == 0 && pe1 == pe0;
    let quiet = plain && eff.sleep_seconds == 0 && eff.timed;
    match cmd {
        Command::ScrollUp => s1 == s0 && quiet && cs1 == cs0 && rs1 == (if rs0 - 10 > 0 {
            rs0 - 10
        } else {
            0
        }) && st1 == "ok"@,
        Command::ScrollDown => s1 == s0 && quiet && cs1 == cs0 && rs1 == (if rs0 + 10 < rows - 10 {
            rs0 + 10
        } else {
            rows - 10
        }) && st1 == "ok"@,
        Command::ScrollLeft => s1 == s0 && quiet && rs1 == rs0 && cs1 == (if cs0 - 10 > 0 {
            cs0 - 10
        } else {
            0
        }) && st1 == "ok"@,
        Command::ScrollRight => s1 == s0 && quiet && rs1 == rs0 && cs1 == (if cs0 + 10 < cols - 10 {
            cs0 + 10
        } else {
            cols - 10
        }) && st1 == "ok"@,
        Command::Quit => s1 == s0 && same_view && st1 == st0 && pe1 == pe0 && eff.quit
            && eff.sleep_seconds == 0 && eff.sort_corners@.len() == 0,
        Command::EnableOutput => s1 == s0 && same_view && !eff.quit && eff.sort_corners@.len() == 0
            && eff.sleep_seconds == 0 && eff.timed && pe1 && st1 == "ok"@,
        Command::DisableOutput => s1 == s0 && same_view && !eff.quit && eff.sort_corners@.len() == 0
            && eff.sleep_seconds == 0 && eff.timed && !pe1 && st1 == "ok"@,
        Command::ScrollTo { col, row } => s1 == s0 && plain && eff.sleep_seconds == 0 && !eff.timed
            && if in_sheet(col, row, rows, cols) {
            cs1 == col && rs1 == row - 1 && st1 == "ok"@
        } else {
            same_view && st1 == "err"@
        },
        Command::SetText { col, row, start, end } => plain && same_view && eff.timed && if in_sheet(
            col,
            row,
            rows,
            cols,
        ) {
            written_then(
                s0,
                s1,
                st1,
                at(col, row),
                0,
                false,
                Some(text_between(c, start, end)),
                OpCode::String,
            )
        } else {
            s1 == s0 && st1 == "Invalid cmd"@ && eff.sleep_seconds == 0
        },
        Command::IntOpInt { col, row, lhs, op, rhs } => plain && same_view && eff.timed && if in_sheet(
            col,
            row,
            rows,
            cols,
        ) && is_op(op) {
            let r = crate::calculate_functions::spec_compute_cell(spec_get_op_code(op, false), lhs, rhs);
            written_then(s0, s1, st1, at(col, row), r.0, r.1, None, OpCode::NoConstraint)
        } else {
            s1 == s0 && st1 == "Invalid cmd"@ && eff.sleep_seconds == 0
        },
        Command::CellOpCell { col, row, col1, row1, op, col2, row2 } => plain && same_view
            && eff.timed && if in_sheet(col, row, rows, cols) && in_sheet(col1, row1, rows, cols)
            && in_sheet(col2, row2, rows, cols) && is_op(op) {
            formula_effect(s0, s1, st1, at(col, row), at(col1, row1), at(col2, row2), spec_get_op_code2(op))
        } else {
            s1 == s0 && st1 == "Invalid cmd"@ && eff.sleep_seconds == 0
        },
        Command::IntOpCell { col, row, lhs, op, col1, row1 } => plain && same_view && eff.timed
            && if in_sheet(col, row, rows, cols) && in_sheet(col1, row1, rows, cols) && is_op(op) {
            formula_effect(
                s0,
                s1,
                st1,
                at(col, row),
                at(col1, row1),
                split_constant(lhs),
                spec_get_op_code(op, true),
            )
        } else {
            s1 == s0 && st1 == "Invalid cmd"@ && eff.sleep_seconds == 0
        },
        Command::CellOpInt { col, row, col1, row1, op, rhs } => plain && same_view && eff.timed
            && if in_sheet(col, row, rows, cols) && in_sheet(col1, row1, rows, cols) && is_op(op) {
            formula_effect(
                s0,
                s1,
                st1,
                at(col, row),
                at(col1, row1),
                split_constant(rhs),
                spec_get_op_code(op, false),
            )
        } else {
            s1 == s0 && st1 == "Invalid cmd"@ && eff.sleep_seconds == 0
        },
        Command::Func { col, row, func, col1, row1, col2, row2 } => plain && same_view && if in_sheet(
            col,
            row,
            rows,
            cols,
        ) && in_sheet(col1, row1, rows, cols) && in_sheet(col2, row2, rows, cols) && row1 <= row2
            && col1 <= col2 {
            if func is NoConstraint {
                s1 == s0 && st1 == "Invalid cmd"@ && eff.sleep_seconds == 0 && !eff.timed
            } else {
                eff.timed && formula_effect(s0, s1, st1, at(col, row), at(col1, row1), at(col2, row2), func)
            }
        } else {
            s1 == s0 && st1 == "Invalid cmd"@ && eff.sleep_seconds == 0 && eff.timed
        },
        Command::SetInt { col, row, number } => plain && same_view && eff.timed && if in_sheet(
            col,
            row,
            rows,
            cols,
        ) {
            written_then(
                s0,
                s1,
                st1,
                at(col, row),
                match number {
                    Some(v) => v,
                    None => 0,
                },
                false,
                None,
                OpCode::NoConstraint,
            )
        } else {
            s1 == s0 && st1 == "Invalid cmd"@ && eff.sleep_seconds == 0
        },
        Command::CellEq { col, row, col1, row1 } => plain && same_view && eff.timed && if in_sheet(
            col,
            row,
            rows,
            cols,
        ) && in_sheet(col1, row1, rows, cols) {
            formula_effect(s0, s1, st1, at(col, row), at(col1, row1), no_cell(), OpCode::CellEqualsCell)
        } else {
            s1 == s0 && st1 == "Invalid cmd"@ && eff.sleep_seconds == 0
        },
        Command::SleepInt { col, row, value } => plain && same_view && eff.timed && if in_sheet(
            col,
            row,
            rows,
            cols,
        ) {
            &&& written_then(s0, s1, st1, at(col, row), value, false, None, OpCode::NoConstraint)
            &&& no_dependents(s0, at(col, row)) ==> eff.sleep_seconds == if value >= 0 {
                value
            } else {
                0
            }
        } else {
            s1 == s0 && st1 == "err"@ && eff.sleep_seconds == 0
        },
        Command::SleepCell { col, row, col1, row1 } => plain && same_view && eff.timed && if in_sheet(
            col,
            row,
            rows,
            cols,
        ) && in_sheet(col1, row1, rows, cols) {
            &&& exists|st: Seq<char>|
                formula_effect(s0, s1, st, at(col, row), at(col1, row1), no_cell(), OpCode::Sleep)
            &&& st1 == if sleep_operand(s0, col1, row1) >= 0 {
                "ok"@
            } else {
                "err"@
            }
            &&& creates_cycle(s0, at(col, row), at(col1, row1), no_cell(), OpCode::Sleep) ==> eff.sleep_seconds == 0
            &&& no_dependents(s0, at(col, row)) && !creates_cycle(
                s0,
                at(col, row),
                at(col1, row1),
                no_cell(),
                OpCode::Sleep,
            ) ==> eff.sleep_seconds == sleep_added(s0.cells(), at(col1, row1), 0)
        } else {
            s1 == s0 && st1 == "err"@ && eff.sleep_seconds == 0
        },
        Command::Sort { col1, row1, col2, row2, col3, row3, col4, row4 } => s1 == s0 && same_view
            && st1 == st0 && pe1 == pe0 && !eff.quit && eff.sleep_seconds == 0 && eff.timed
            && eff.sort_corners@ == seq![col1 as i64, (row1 - 1) as i64, col2 as i64, (row2 - 1) as i64, col3 as i64, (row3 - 1) as i64, col4 as i64, (row4 - 1) as i64],
        Command::Unknown => s1 == s0 && quiet && same_view && st1 == "err"@,
        Command::Overflow => false,
    }
}


/// Whether the cell at column `col`, row `row` as written lies in a sheet
/// of `rows` x `cols`.
fn in_sheet_exec(col: i32, row: i32, rows: i32, cols: i32) -> (b: bool)
    ensures
        b == in_sheet(col, row, rows, cols),
{
    let r: i64 = row as i64 - 1;
    r >= 0 && r < rows as i64 && col >= 0 && col < cols
}

/// The position of the cell at column `col`, row `row` as written.
fn at_exec(col: i32, row: i32) -> (p: CellInfo)
    requires
        1 <= row <= i16::MAX + 1,
        0 <= col <= i16::MAX,
    ensures
        p == at(col, row),
{
    CellInfo { row: (row - 1) as i16, col: col as i16 }
}

/// The constant `v` as stored by a formula over a cell and a constant.
fn split_constant_exec(v: i32) -> (p: CellInfo)
    ensures
        p == split_constant(v),
{
    let const1 = v & 0xFFFF;
    let const2 = (v >> 16u32) & 0xFFFF;
    CellInfo { row: const2 as i16, col: const1 as i16 }
}

/// The characters `c[start .. end]` as a string (empty when the bounds do
/// not fit).
fn text_exec(c: &Vec<char>, start: usize, end: usize) -> (t: String)
    ensures
        t@ == text_between(c@, start, end),
{
    let mut t = String::new();
    if !(start <= end && end <= c.len()) {
        return t;
    }
    let mut i = start;
    while i < end
        invariant
            start <= i <= end <= c@.len(),
            t@ == c@.subrange(start as int, i as int),
        decreases end - i,
    {
        proof {
            assert(c@.subrange(start as int, i + 1) =~= t@.push(c@[i as int]));
        }
        push_char(&mut t, c[i]);
        i = i + 1;
    }
    t
}


/// Runs a command that only moves the view, toggles output, leaves, or is
/// no command at all.
fn execute_view(
    cmd: Command,
    row_start: &mut i32,
    col_start: &mut i32,
    status: &mut String,
    total_rows: i32,
    total_cols: i32,
    print_enabled: &mut bool,
) -> (eff: CommandEffect)
    requires
        cmd is ScrollUp || cmd is ScrollDown || cmd is ScrollLeft || cmd is ScrollRight || cmd is Quit
            || cmd is EnableOutput || cmd is DisableOutput || cmd is ScrollTo || cmd is Sort
            || cmd is Unknown,
        i32::MIN + 10 <= *old(row_start) <= i32::MAX - 10,
        i32::MIN + 10 <= *old(col_start) <= i32::MAX - 10,
        i32::MIN + 10 <= total_rows,
        i32::MIN + 10 <= total_cols,
    ensures
        forall|c: Seq<char>, s: Sheet|
            #![trigger command_post(cmd, c, total_rows, total_cols, s, s, *old(row_start), *old(col_start), *final(row_start), *final(col_start), old(status)@, final(status)@, *old(print_enabled), *final(print_enabled), eff)]
            command_post(
                cmd,
                c,
                total_rows,
                total_cols,
                s,
                s,
                *old(row_start),
                *old(col_start),
                *final(row_start),
                *final(col_start),
                old(status)@,
                final(status)@,
                *old(print_enabled),
                *final(print_enabled),
                eff,
            ),
{
    let mut eff = CommandEffect { sleep_seconds: 0, timed: true, quit: false, sort_corners: Vec::new() };
    match cmd {
        Command::ScrollUp => {
            *row_start = if *row_start - 10 > 0 {
                *row_start - 10
            } else {
                0
            };
            *status = "ok".to_owned();
        },
        Command::ScrollDown => {
            *row_start = if *row_start + 10 < total_rows - 10 {
                *row_start + 10
            } else {
                total_rows - 10
            };
            *status = "ok".to_owned();
        },
        Command::ScrollLeft => {
            *col_start = if *col_start - 10 > 0 {
                *col_start - 10
            } else {
                0
            };
            *status = "ok".to_owned();
        },
        Command::ScrollRight => {
            *col_start = if *col_start + 10 < total_cols - 10 {
                *col_start + 10
            } else {
                total_cols - 10
            };
            *status = "ok".to_owned();
        },
        Command::Quit => {
            eff.quit = true;
        },
        Command::EnableOutput => {
            *print_enabled = true;
            *status = "ok".to_owned();
        },
        Command::DisableOutput => {
            *print_enabled = false;
            *status = "ok".to_owned();
        },
        Command::ScrollTo { col, row } => {
            eff.timed = false;
            if in_sheet_exec(col, row, total_rows, total_cols) {
                *col_start = col;
                *row_start = row - 1;
                *status = "ok".to_owned();
            } else {
                *status = "err".to_owned();
            }
        },
        Command::Sort { col1, row1, col2, row2, col3, row3, col4, row4 } => {
            let mut v: Vec<i64> = Vec::new();
            v.push(col1 as i64);
            v.push(row1 as i64 - 1);
            v.push(col2 as i64);
            v.push(row2 as i64 - 1);
            v.push(col3 as i64);
            v.push(row3 as i64 - 1);
            v.push(col4 as i64);
            v.push(row4 as i64 - 1);
            proof {
                assert(v@ =~= seq![col1 as i64, (row1 - 1) as i64, col2 as i64, (row2 - 1) as i64, col3 as i64, (row3 - 1) as i64, col4 as i64, (row4 - 1) as i64]);
            }
            eff.sort_corners = v;
        },
        _ => {
            *status = "err".to_owned();
        },
    }
    eff
}


/// Runs a command that changes the sheet.
fn execute_sheet(
    cmd: Command,
    c: &Vec<char>,
    row_start: i32,
    col_start: i32,
    status: &mut String,
    total_rows: i32,
    total_cols: i32,
    sheet: &mut Sheet,
    print_enabled: bool,
) -> (eff: CommandEffect)
    requires
        old(sheet).wf(),
        old(sheet).settled(),
        total_rows <= old(sheet).rows,
        total_cols <= old(sheet).cols,
        cmd is SetText || cmd is IntOpInt || cmd is CellOpCell || cmd is IntOpCell || cmd is CellOpInt
            || cmd is Func || cmd is SetInt || cmd is CellEq || cmd is SleepInt || cmd is SleepCell,
    ensures
        final(sheet).wf(),
        final(sheet).settled(),
        command_post(
            cmd,
            c@,
            total_rows,
            total_cols,
            *old(sheet),
            *final(sheet),
            row_start,
            col_start,
            row_start,
            col_start,
            old(status)@,
            final(status)@,
            print_enabled,
            print_enabled,
            eff,
        ),
        forall|q: i32| old(sheet).data@.contains_key(q) ==> final(sheet).data@.contains_key(q),
{
    let mut eff = CommandEffect { sleep_seconds: 0, timed: true, quit: false, sort_corners: Vec::new() };
    let mut timer: i32 = 0;
    let no = CellInfo { row: -1, col: -1 };
    match cmd {
        Command::SetText { col, row, start, end } => {
            if in_sheet_exec(col, row, total_rows, total_cols) {
                let p = at_exec(col, row);
                let text = text_exec(c, start, end);
                *status = "ok".to_owned();
                write_then_set(sheet, p, 0, false, Some(text), OpCode::String, status, &mut timer);
            } else {
                *status = "Invalid cmd".to_owned();
            }
        },
        Command::IntOpInt { col, row, lhs, op, rhs } => {
            if in_sheet_exec(col, row, total_rows, total_cols) && op_char(op) {
                let p = at_exec(col, row);
                let op_code = get_op_code(op, false);
                let (ans, err) = crate::calculate_functions::compute_cell(op_code, lhs, rhs, status);
                write_then_set(sheet, p, ans, err, None, OpCode::NoConstraint, status, &mut timer);
                *status = "ok".to_owned();
            } else {
                *status = "Invalid cmd".to_owned();
            }
        },
        Command::CellOpCell { col, row, col1, row1, op, col2, row2 } => {
            if in_sheet_exec(col, row, total_rows, total_cols) && in_sheet_exec(
                col1,
                row1,
                total_rows,
                total_cols,
            ) && in_sheet_exec(col2, row2, total_rows, total_cols) && op_char(op) {
                let p = at_exec(col, row);
                let c1 = at_exec(col1, row1);
                let c2 = at_exec(col2, row2);
                let op_code = get_op_code2(op);
                set_formula_at(sheet, p, c1, c2, op_code, status, &mut timer);
            } else {
                *status = "Invalid cmd".to_owned();
            }
        },
        Command::IntOpCell { col, row, lhs, op, col1, row1 } => {
            if in_sheet_exec(col, row, total_rows, total_cols) && in_sheet_exec(
                col1,
                row1,
                total_rows,
                total_cols,
            ) && op_char(op) {
                let p = at_exec(col, row);
                let c1 = at_exec(col1, row1);
                let c2 = split_constant_exec(lhs);
                let op_code = get_op_code(op, true);
                set_formula_at(sheet, p, c1, c2, op_code, status, &mut timer);
            } else {
                *status = "Invalid cmd".to_owned();
            }
        },
        Command::CellOpInt { col, row, col1, row1, op, rhs } => {
            if in_sheet_exec(col, row, total_rows, total_cols) && in_sheet_exec(
                col1,
                row1,
                total_rows,
                total_cols,
            ) && op_char(op) {
                let p = at_exec(col, row);
                let c1 = at_exec(col1, row1);
                let c2 = split_constant_exec(rhs);
                let op_code = get_op_code(op, false);
                set_formula_at(sheet, p, c1, c2, op_code, status, &mut timer);
            } else {
                *status = "Invalid cmd".to_owned();
            }
        },
        Command::Func { col, row, func, col1, row1, col2, row2 } => {
            if in_sheet_exec(col, row, total_rows, total_cols) && in_sheet_exec(
                col1,
                row1,
                total_rows,
                total_cols,
            ) && in_sheet_exec(col2, row2, total_rows, total_cols) && row1 <= row2 && col1 <= col2 {
                if func == OpCode::NoConstraint {
                    *status = "Invalid cmd".to_owned();
                    eff.timed = false;
                } else {
                    let p = at_exec(col, row);
                    let c1 = at_exec(col1, row1);
                    let c2 = at_exec(col2, row2);
                    set_formula_at(sheet, p, c1, c2, func, status, &mut timer);
                }
            } else {
                *status = "Invalid cmd".to_owned();
            }
        },
        Command::SetInt { col, row, number } => {
            let v = match number {
                Some(x) => x,
                None => {
                    *status = "Invalid cmd".to_owned();
                    0
                },
            };
            if in_sheet_exec(col, row, total_rows, total_cols) {
                let p = at_exec(col, row);
                *status = "ok".to_owned();
                write_then_set(sheet, p, v, false, None, OpCode::NoConstraint, status, &mut timer);
            } else {
                *status = "Invalid cmd".to_owned();
            }
        },
        Command::CellEq { col, row, col1, row1 } => {
            if in_sheet_exec(col, row, total_rows, total_cols) && in_sheet_exec(
                col1,
                row1,
                total_rows,
                total_cols,
            ) {
                let p = at_exec(col, row);
                let c1 = at_exec(col1, row1);
                set_formula_at(sheet, p, c1, no, OpCode::CellEqualsCell, status, &mut timer);
            } else {
                *status = "Invalid cmd".to_owned();
            }
        },
        Command::SleepInt { col, row, value } => {
            if in_sheet_exec(col, row, total_rows, total_cols) {
                let p = at_exec(col, row);
                *status = "ok".to_owned();
                write_then_set(sheet, p, value, false, None, OpCode::NoConstraint, status, &mut timer);
                if value >= 0 {
                    timer = crate::calculate_functions::add_wrapping(timer, value);
                }
            } else {
                *status = "err".to_owned();
            }
        },
        Command::SleepCell { col, row, col1, row1 } => {
            if in_sheet_exec(col, row, total_rows, total_cols) && in_sheet_exec(
                col1,
                row1,
                total_rows,
                total_cols,
            ) {
                let p = at_exec(col, row);
                let c1 = at_exec(col1, row1);
                let c1_value: i32 = match sheet.get_cell(c1.row, c1.col) {
                    Some(cell) => if cell.string.is_some() {
                        0
                    } else {
                        cell.value
                    },
                    None => 0,
                };
                proof {
                    let k = crate::sheet_functions::spec_data_key(c1.row as int, c1.col as int) as i32;
                    if sheet.data@.contains_key(k) {
                        assert(sheet.cells()[k] == sheet.data@[k]@);
                    }
                    assert(c1_value == sleep_operand(*old(sheet), col1, row1));
                }
                set_formula_at(sheet, p, c1, no, OpCode::Sleep, status, &mut timer);
                if c1_value >= 0 {
                    *status = "ok".to_owned();
                } else {
                    *status = "err".to_owned();
                }
            } else {
                *status = "err".to_owned();
            }
        },
        _ => {},
    }
    eff.sleep_seconds = timer;
    eff
}


/// Whether command `cmd` changes the sheet.
pub open spec fn touches_sheet(cmd: Command) -> bool {
    cmd is SetText || cmd is IntOpInt || cmd is CellOpCell || cmd is IntOpCell || cmd is CellOpInt
        || cmd is Func || cmd is SetInt || cmd is CellEq || cmd is SleepInt || cmd is SleepCell
}

/// The command typed as `command`: its text trimmed and stripped of spaces,
/// and the command that text writes.
pub fn read_command(command: &str) -> (r: (Vec<char>, Command))
    ensures
        r.0@ == cleaned(command@),
        r.1 == spec_command(cleaned(command@)),
{
    let mut text = trim_to_string(command);
    remove_space(&mut text);
    let c = chars_of(text.as_str());
    let cmd = parse_cleaned(&c);
    (c, cmd)
}

/// Runs one command typed by the user on a sheet of `total_rows` x
/// `total_cols` shown from `(row_start, col_start)`: see `command_post` for
/// what each form of the language does; a cell outside `total_rows` x
/// `total_cols` is answered "Invalid cmd". A command whose row, column or
/// number does not fit an `i32` is not accepted, nor, for a command that
/// writes a cell, totals larger than the sheet (whose marks the command's
/// dependency walk reads by position).
pub fn parse_command(
    command: &str,
    row_start: &mut i32,
    col_start: &mut i32,
    status: &mut String,
    total_rows: &i32,
    total_cols: &i32,
    sheet: &mut Sheet,
    print_enabled: &mut bool,
) -> (eff: CommandEffect)
    requires
        old(sheet).wf(),
        old(sheet).settled(),
        touches_sheet(spec_command(cleaned(command@))) ==> *total_rows <= old(sheet).rows
            && *total_cols <= old(sheet).cols,
        i32::MIN + 10 <= *total_rows,
        i32::MIN + 10 <= *total_cols,
        !(spec_command(cleaned(command@)) is Overflow),
        i32::MIN + 10 <= *old(row_start) <= i32::MAX - 10,
        i32::MIN + 10 <= *old(col_start) <= i32::MAX - 10,
    ensures
        final(sheet).wf(),
        final(sheet).settled(),
        command_post(
            spec_command(cleaned(command@)),
            cleaned(command@),
            *total_rows,
            *total_cols,
            *old(sheet),
            *final(sheet),
            *old(row_start),
            *old(col_start),
            *final(row_start),
            *final(col_start),
            old(status)@,
            final(status)@,
            *old(print_enabled),
            *final(print_enabled),
            eff,
        ),
        forall|q: i32| old(sheet).data@.contains_key(q) ==> final(sheet).data@.contains_key(q),
{
    let (c, cmd) = read_command(command);
    match cmd {
        Command::SetText { .. } | Command::IntOpInt { .. } | Command::CellOpCell { .. }
        | Command::IntOpCell { .. } | Command::CellOpInt { .. } | Command::Func { .. }
        | Command::SetInt { .. } | Command::CellEq { .. } | Command::SleepInt { .. }
        | Command::SleepCell { .. } => {
            execute_sheet(
                cmd,
                &c,
                *row_start,
                *col_start,
                status,
                *total_rows,
                *total_cols,
                sheet,
                *print_enabled,
            )
        },
        _ => {
            let ghost s = *sheet;
            let eff = execute_view(
                cmd,
                row_start,
                col_start,
                status,
                *total_rows,
                *total_cols,
                print_enabled,
            );
            proof {
                assert(command_post(
                    cmd,
                    c@,
                    *total_rows,
                    *total_cols,
                    s,
                    s,
                    *old(row_start),
                    *old(col_start),
                    *row_start,
                    *col_start,
                    old(status)@,
                    status@,
                    *old(print_enabled),
                    *print_enabled,
                    eff,
                ));
            }
            eff
        },
    }
}


/// What parsing `s` as an `i32` gives: an optional sign (`+` or `-`), then
/// one or more digits and nothing else, the value fitting an `i32`.
pub open spec fn parse_i32(s: Seq<char>) -> Option<i32> {
    let neg = s.len() > 0 && s[0] == '-';
    let start: int = if s.len() > 0 && (s[0] == '-' || s[0] == '+') {
        1
    } else {
        0
    };
    if start < s.len() && forall|j: int| start <= j < s.len() ==> is_digit(#[trigger] s[j]) {
        let v = decimal(s.subrange(start, s.len() as int));
        fit(
            if neg {
                -v
            } else {
                v
            },
        )
    } else {
        None
    }
}

/// `text` parsed as an `i32` (see `parse_i32`).
#[verifier::loop_isolation(false)]
pub fn parse_i32_text(text: &str) -> (r: Option<i32>)
    ensures
        r == parse_i32(text@),
{
    let c = chars_of(text);
    let n = c.len();
    let neg = n > 0 && c[0] == '-';
    let start: usize = if n > 0 && (c[0] == '-' || c[0] == '+') {
        1
    } else {
        0
    };
    if start >= n {
        return None;
    }
    let mut j = start;
    while j < n
        invariant
            start <= j <= n,
            n == c@.len(),
            c@ == text@,
            forall|k: int| start <= k < j ==> is_digit(#[trigger] c@[k]),
        decreases n - j,
    {
        let u = c[j] as u32;
        if !(48 <= u && u <= 57) {
            proof {
                assert(!is_digit(c@[j as int]));
            }
            return None;
        }
        j = j + 1;
    }
    let v = decimal_i32(&c, start, n);
    match v {
        Some(x) => if neg {
            Some(-x)
        } else {
            Some(x)
        },
        None => if neg && decimal_is_min(&c, start, n) {
            Some(i32::MIN)
        } else {
            None
        },
    }
}


/// A constant written into a formula over a cell and a constant (split into
/// `cell2`) is read back unchanged, when the formula is set and whenever it
/// is recalculated.
pub proof fn lemma_constant_round_trip(v: i32)
    ensures
        entry_constant(split_constant(v)) == v,
{
    let r: i16 = ((v >> 16u32) & 0xFFFFi32) as i16;
    let c: i16 = (v & 0xFFFFi32) as i16;
    assert((((r as i32) << 16u32) | ((c as i32) & 0xFFFFi32)) == v) by (bit_vector)
        requires
            r == ((v >> 16u32) & 0xFFFFi32) as i16,
            c == (v & 0xFFFFi32) as i16,
    ;
}


/// The command `w` shows the rows ten above: the first shown row goes up by
/// ten, but not above the first row; the columns and the sheet stay.
pub proof fn lemma_scroll_up_moves_ten_rows(
    c: Seq<char>,
    rows: i32,
    cols: i32,
    s0: Sheet,
    s1: Sheet,
    rs0: i32,
    cs0: i32,
    rs1: i32,
    cs1: i32,
    st0: Seq<char>,
    st1: Seq<char>,
    pe0: bool,
    pe1: bool,
    eff: CommandEffect,
)
    requires
        c == seq!['w'],
        command_post(spec_command(c), c, rows, cols, s0, s1, rs0, cs0, rs1, cs1, st0, st1, pe0, pe1, eff),
    ensures
        s1 == s0,
        cs1 == cs0,
        rs1 >= 0,
        rs1 <= rs0 || rs1 == 0,
        rs0 >= 10 ==> rs1 == rs0 - 10,
        rs0 <= 10 ==> rs1 == 0,
{
}

/// The command `s` shows the rows ten below: the first shown row goes down
/// by ten, but not past ten rows before the last; the columns and the sheet
/// stay.
pub proof fn lemma_scroll_down_moves_ten_rows(
    c: Seq<char>,
    rows: i32,
    cols: i32,
    s0: Sheet,
    s1: Sheet,
    rs0: i32,
    cs0: i32,
    rs1: i32,
    cs1: i32,
    st0: Seq<char>,
    st1: Seq<char>,
    pe0: bool,
    pe1: bool,
    eff: CommandEffect,
)
    requires
        c == seq!['s'],
        command_post(spec_command(c), c, rows, cols, s0, s1, rs0, cs0, rs1, cs1, st0, st1, pe0, pe1, eff),
    ensures
        s1 == s0,
        cs1 == cs0,
        rs1 <= rows - 10,
        rs0 + 10 <= rows - 10 ==> rs1 == rs0 + 10,
        rs0 + 10 >= rows - 10 ==> rs1 == rows - 10,
{
}

/// The command `a` shows the columns ten to the left: the first shown
/// column goes left by ten, but not before the first column; the rows and
/// the sheet stay.
pub proof fn lemma_scroll_left_moves_ten_columns(
    c: Seq<char>,
    rows: i32,
    cols: i32,
    s0: Sheet,
    s1: Sheet,
    rs0: i32,
    cs0: i32,
    rs1: i32,
    cs1: i32,
    st0: Seq<char>,
    st1: Seq<char>,
    pe0: bool,
    pe1: bool,
    eff: CommandEffect,
)
    requires
        c == seq!['a'],
        command_post(spec_command(c), c, rows, cols, s0, s1, rs0, cs0, rs1, cs1, st0, st1, pe0, pe1, eff),
    ensures
        s1 == s0,
        rs1 == rs0,
        cs1 >= 0,
        cs0 >= 10 ==> cs1 == cs0 - 10,
        cs0 <= 10 ==> cs1 == 0,
{
}

/// The command `d` shows the columns ten to the right: the first shown
/// column goes right by ten, but not past ten columns before the last; the
/// rows and the sheet stay.
pub proof fn lemma_scroll_right_moves_ten_columns(
    c: Seq<char>,
    rows: i32,
    cols: i32,
    s0: Sheet,
    s1: Sheet,
    rs0: i32,
    cs0: i32,
    rs1: i32,
    cs1: i32,
    st0: Seq<char>,
    st1: Seq<char>,
    pe0: bool,
    pe1: bool,
    eff: CommandEffect,
)
    requires
        c == seq!['d'],
        command_post(spec_command(c), c, rows, cols, s0, s1, rs0, cs0, rs1, cs1, st0, st1, pe0, pe1, eff),
    ensures
        s1 == s0,
        rs1 == rs0,
        cs1 <= cols - 10,
        cs0 + 10 <= cols - 10 ==> cs1 == cs0 + 10,
        cs0 + 10 >= cols - 10 ==> cs1 == cols - 10,
{
}

} // verus!
