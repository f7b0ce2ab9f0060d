//! The text of a cell's formula, as the editor's formula bar shows it.
use vstd::prelude::*;
use crate::sheet_functions::{Cell, CellView, OpCode, col_name, col_num_to_col_name, entry_constant};
use crate::text::push_char;
use crate::parser::{decimal, fit, is_digit, parse_i32};

verus! {

/// The decimal digit `d` as a character.
pub open spec fn digit_char(d: int) -> char {
    (48 + d) as char
}

/// The decimal digits of `n`, most significant first ("0" for 0).
pub open spec fn digits_text(n: nat) -> Seq<char>
    decreases n,
{
    if n < 10 {
        seq![digit_char(n as int)]
    } else {
        digits_text(n / 10).push(digit_char((n % 10) as int))
    }
}

/// `n` written in decimal, with a leading `-` when negative.
pub open spec fn decimal_text(n: int) -> Seq<char> {
    if n < 0 {
        seq!['-'] + digits_text((-n) as nat)
    } else {
        digits_text(n as nat)
    }
}

proof fn lemma_digits_text(m: nat)
    ensures
        digits_text(m).len() >= 1,
        forall|j: int| 0 <= j < digits_text(m).len() ==> is_digit(#[trigger] digits_text(m)[j]),
        decimal(digits_text(m)) == m,
    decreases m,
{
    let d: int = (m % 10) as int;
    assert(((48 + d) as char) as u32 == 48 + d);
    if m < 10 {
        let t = digits_text(m);
        assert(t.drop_last() =~= Seq::<char>::empty());
        assert(decimal(t.drop_last()) == 0);
        assert(t.last() == digit_char(d));
    } else {
        lemma_digits_text(m / 10);
        let t = digits_text(m);
        assert(t.drop_last() =~= digits_text(m / 10));
        assert(forall|j: int| 0 <= j < t.len() - 1 ==> t[j] == digits_text(m / 10)[j]);
        assert(t.last() == digit_char(d));
        assert(decimal(t) == decimal(digits_text(m / 10)) * 10 + d);
        assert((m / 10) * 10 + d == m);
    }
}

/// An integer written out in decimal (as formula text writes constants)
/// parses back to the same integer.
pub proof fn lemma_decimal_text_parses(n: i32)
    ensures
        parse_i32(decimal_text(n as int)) == Some(n),
{
    let s = decimal_text(n as int);
    if n < 0 {
        let m: nat = (-n) as nat;
        lemma_digits_text(m);
        assert(s.subrange(1, s.len() as int) =~= digits_text(m));
        assert(s[0] == '-');
        assert(forall|j: int| 1 <= j < s.len() ==> s[j] == digits_text(m)[j - 1]);
        assert(fit(-(m as int)) == Some(n));
    } else {
        let m: nat = n as nat;
        lemma_digits_text(m);
        assert(is_digit(s[0]));
        assert(('-' as u32) == 45 && ('+' as u32) == 43);
        assert(s[0] != '-' && s[0] != '+');
        assert(s.subrange(0, s.len() as int) =~= s);
        assert(fit(m as int) == Some(n));
    }
}

/// Appends `n` written in decimal.
pub(crate) fn push_decimal(s: &mut String, n: i64)
    requires
        n > i64::MIN,
    ensures
        final(s)@ == old(s)@ + decimal_text(n as int),
{
    let mut m: u64 = if n < 0 {
        push_char(s, '-');
        (-n) as u64
    } else {
        n as u64
    };
    let ghost start = s@;
    let ghost total: nat = m as nat;
    let mut rev: Vec<char> = Vec::new();
    while m >= 10
        invariant
            digits_text(total) == digits_text(m as nat) + rev@.reverse(),
        decreases m,
    {
        let d = (m % 10) as u8;
        let ch = (48 + d) as char;
        proof {
            assert(digits_text(m as nat) == digits_text((m / 10) as nat).push(digit_char((m % 10) as int)));
            assert(rev@.push(ch).reverse() =~= seq![ch] + rev@.reverse());
        }
        rev.push(ch);
        m = m / 10;
    }
    let last = (48 + m as u8) as char;
    proof {
        assert(digits_text(m as nat) == seq![digit_char(m as int)]);
        assert(rev@.push(last).reverse() =~= seq![last] + rev@.reverse());
    }
    rev.push(last);
    let mut i = rev.len();
    while i > 0
        invariant
            i <= rev@.len(),
            digits_text(total) == rev@.reverse(),
            s@ == start + rev@.subrange(i as int, rev@.len() as int).reverse(),
        decreases i,
    {
        i = i - 1;
        proof {
            assert(rev@.subrange(i as int, rev@.len() as int) =~= seq![rev@[i as int]] + rev@.subrange(
                i + 1,
                rev@.len() as int,
            ));
            assert(rev@.subrange(i as int, rev@.len() as int).reverse() =~= rev@.subrange(
                i + 1,
                rev@.len() as int,
            ).reverse().push(rev@[i as int]));
        }
        push_char(s, rev[i]);
    }
    proof {
        assert(rev@.subrange(0, rev@.len() as int) =~= rev@);
    }
}


/// The text naming the cell at `(row, col)`: its column name, then its row
/// number (1-based).
pub open spec fn ref_text(row: int, col: int) -> Seq<char> {
    col_name(col) + decimal_text(row + 1)
}

/// The operator character of a formula over two cells or a cell and a
/// constant.
pub open spec fn op_text(op: OpCode) -> char {
    if op is CellPlusCell || op is CellPlusConstant {
        '+'
    } else if op is CellMinusCell || op is CellMinusConstant || op is ConstantMinusCell {
        '-'
    } else if op is CellTimesCell || op is CellTimesConstant {
        '*'
    } else {
        '/'
    }
}

/// The name of a range function.
pub open spec fn func_text(op: OpCode) -> Seq<char> {
    if op is Sum {
        seq!['S', 'U', 'M']
    } else if op is Min {
        seq!['M', 'I', 'N']
    } else if op is Max {
        seq!['M', 'A', 'X']
    } else if op is Avg {
        seq!['A', 'V', 'G']
    } else {
        seq!['S', 'T', 'D', 'E', 'V']
    }
}

/// The formula of cell `c` at `(row, col)` as the command that sets it:
/// the cell, `=`, then its number, string, or formula (constants recovered
/// from `cell2` as `row << 16 | (col & 0xFFFF)`).
pub open spec fn formula_text(row: int, col: int, c: CellView) -> Seq<char> {
    let lhs = ref_text(row, col) + seq!['='];
    let r1 = ref_text(c.cell1.row as int, c.cell1.col as int);
    let r2 = ref_text(c.cell2.row as int, c.cell2.col as int);
    let k = decimal_text(entry_constant(c.cell2) as int);
    match c.op_code {
        OpCode::NoConstraint => lhs + decimal_text(c.value as int),
        OpCode::CellEqualsCell => lhs + r1,
        OpCode::CellPlusCell | OpCode::CellMinusCell | OpCode::CellTimesCell
        | OpCode::CellDivideCell => lhs + r1 + seq![op_text(c.op_code)] + r2,
        OpCode::CellPlusConstant | OpCode::CellMinusConstant | OpCode::CellTimesConstant
        | OpCode::CellDivideConstant => lhs + r1 + seq![op_text(c.op_code)] + k,
        OpCode::ConstantDividesCell => lhs + k + seq!['/'] + r1,
        OpCode::ConstantMinusCell => lhs + k + seq!['-'] + r1,
        OpCode::Sum | OpCode::Min | OpCode::Max | OpCode::Avg | OpCode::Stdev => lhs + func_text(
            c.op_code,
        ) + seq!['('] + r1 + seq![':'] + r2 + seq![')'],
        OpCode::Sleep => lhs + seq!['S', 'L', 'E', 'E', 'P', '('] + r1 + seq![')'],
        OpCode::String => lhs + match c.string {
            Some(t) => t,
            None => seq!['N', 'o', 'n', 'e'],
        },
    }
}

/// Appends the characters of `t`.
fn push_all(s: &mut String, t: &Vec<char>)
    ensures
        final(s)@ == old(s)@ + t@,
{
    let mut i: usize = 0;
    while i < t.len()
        invariant
            i <= t@.len(),
            s@ == old(s)@ + t@.take(i as int),
        decreases t@.len() - i,
    {
        proof {
            assert(t@.take(i + 1) =~= t@.take(i as int).push(t@[i as int]));
        }
        push_char(s, t[i]);
        i = i + 1;
    }
    proof {
        assert(t@.take(t@.len() as int) =~= t@);
    }
}

/// Appends the text naming the cell at `(row, col)`.
fn push_ref(s: &mut String, row: i16, col: i16)
    requires
        row < i16::MAX,
    ensures
        final(s)@ == old(s)@ + ref_text(row as int, col as int),
{
    let name = col_num_to_col_name(col as i32);
    let v = crate::parser::chars_of(name.as_str());
    push_all(s, &v);
    push_decimal(s, row as i64 + 1);
    proof {
        assert(s@ =~= old(s)@ + ref_text(row as int, col as int));
    }
}

/// The formula of `cell` at `(row, col)` as the command that sets it (see
/// `formula_text`).
pub fn get_cell_formula(row: i16, col: i16, cell: &Cell) -> (text: String)
    requires
        row < i16::MAX,
        !(cell.op_code is NoConstraint || cell.op_code is String) ==> cell.cell1.row < i16::MAX,
        (is_cell_cell_or_range(cell.op_code)) ==> cell.cell2.row < i16::MAX,
    ensures
        text@ == formula_text(row as int, col as int, cell@),
{
    let mut s = String::new();
    push_ref(&mut s, row, col);
    push_char(&mut s, '=');
    let ghost lhs = s@;
    match cell.op_code {
        OpCode::NoConstraint => {
            push_decimal(&mut s, cell.value as i64);
        },
        OpCode::CellEqualsCell => {
            push_ref(&mut s, cell.cell1.row, cell.cell1.col);
        },
        OpCode::CellPlusCell | OpCode::CellMinusCell | OpCode::CellTimesCell
        | OpCode::CellDivideCell => {
            let op = match cell.op_code {
                OpCode::CellPlusCell => '+',
                OpCode::CellMinusCell => '-',
                OpCode::CellTimesCell => '*',
                _ => '/',
            };
            push_ref(&mut s, cell.cell1.row, cell.cell1.col);
            push_char(&mut s, op);
            push_ref(&mut s, cell.cell2.row, cell.cell2.col);
        },
        OpCode::CellPlusConstant | OpCode::CellMinusConstant | OpCode::CellTimesConstant
        | OpCode::CellDivideConstant => {
            let op = match cell.op_code {
                OpCode::CellPlusConstant => '+',
                OpCode::CellMinusConstant => '-',
                OpCode::CellTimesConstant => '*',
                _ => '/',
            };
            let constant: i32 = (cell.cell2.row as i32) << 16u32 | (cell.cell2.col as i32 & 0xFFFF);
            push_ref(&mut s, cell.cell1.row, cell.cell1.col);
            push_char(&mut s, op);
            push_decimal(&mut s, constant as i64);
        },
        OpCode::ConstantDividesCell | OpCode::ConstantMinusCell => {
            let op = match cell.op_code {
                OpCode::ConstantDividesCell => '/',
                _ => '-',
            };
            let constant: i32 = (cell.cell2.row as i32) << 16u32 | (cell.cell2.col as i32 & 0xFFFF);
            push_decimal(&mut s, constant as i64);
            push_char(&mut s, op);
            push_ref(&mut s, cell.cell1.row, cell.cell1.col);
        },
        OpCode::Sum | OpCode::Min | OpCode::Max | OpCode::Avg | OpCode::Stdev => {
            let name: Vec<char> = match cell.op_code {
                OpCode::Sum => vec!['S', 'U', 'M'],
                OpCode::Min => vec!['M', 'I', 'N'],
                OpCode::Max => vec!['M', 'A', 'X'],
                OpCode::Avg => vec!['A', 'V', 'G'],
                _ => vec!['S', 'T', 'D', 'E', 'V'],
            };
            proof {
                assert(name@ =~= func_text(cell.op_code));
            }
            push_all(&mut s, &name);
            push_char(&mut s, '(');
            push_ref(&mut s, cell.cell1.row, cell.cell1.col);
            push_char(&mut s, ':');
            push_ref(&mut s, cell.cell2.row, cell.cell2.col);
            push_char(&mut s, ')');
        },
        OpCode::Sleep => {
            let name = vec!['S', 'L', 'E', 'E', 'P', '('];
            proof {
                assert(name@ =~= seq!['S', 'L', 'E', 'E', 'P', '(']);
            }
            push_all(&mut s, &name);
            push_ref(&mut s, cell.cell1.row, cell.cell1.col);
            push_char(&mut s, ')');
        },
        OpCode::String => {
            match &cell.string {
                Some(t) => {
                    let v = crate::parser::chars_of(t.as_str());
                    push_all(&mut s, &v);
                },
                None => {
                    let v = vec!['N', 'o', 'n', 'e'];
                    proof {
                        assert(v@ =~= seq!['N', 'o', 'n', 'e']);
                    }
                    push_all(&mut s, &v);
                },
            }
        },
    }
    proof {
        assert(s@ =~= formula_text(row as int, col as int, cell@));
    }
    s
}

/// Whether a formula `op` names a second cell (`cell2`) in its text.
pub open spec fn is_cell_cell_or_range(op: OpCode) -> bool {
    crate::sheet_functions::is_cell_cell_op(op) || crate::calculate_functions::is_range_op(op)
}


/// The formula bar shows a copy formula as the cell's name, `=`, and the
/// name of the cell it copies (its column name, then its row counted from
/// 1), whatever value the cell holds.
pub proof fn lemma_copy_formula_names_source(row: int, col: int, c: CellView)
    requires
        c.op_code is CellEqualsCell,
    ensures
        formula_text(row, col, c) == col_name(col) + decimal_text(row + 1) + seq!['='] + col_name(
            c.cell1.col as int,
        ) + decimal_text(c.cell1.row + 1),
{
}

/// The formula bar text of a cell holding a formula depends only on where
/// the cell is and on its formula (operation and references): never on the
/// value, error flag or string it holds.
pub proof fn lemma_formula_text_ignores_content(row: int, col: int, c: CellView, d: CellView)
    requires
        c.op_code == d.op_code,
        c.cell1 == d.cell1,
        c.cell2 == d.cell2,
        !(c.op_code is NoConstraint || c.op_code is String),
    ensures
        formula_text(row, col, c) == formula_text(row, col, d),
{
}

/// The formula bar text of a formula over two cells is the cell's name,
/// `=`, the first cell's name, the operator sign and the second cell's
/// name.
pub proof fn lemma_two_cell_formula_text(row: int, col: int, c: CellView)
    requires
        c.op_code is CellPlusCell || c.op_code is CellMinusCell || c.op_code is CellTimesCell
            || c.op_code is CellDivideCell,
    ensures
        formula_text(row, col, c) == col_name(col) + decimal_text(row + 1) + seq!['='] + col_name(
            c.cell1.col as int,
        ) + decimal_text(c.cell1.row + 1) + seq![
            if c.op_code is CellPlusCell {
                '+'
            } else if c.op_code is CellMinusCell {
                '-'
            } else if c.op_code is CellTimesCell {
                '*'
            } else {
                '/'
            },
        ] + col_name(c.cell2.col as int) + decimal_text(c.cell2.row + 1),
{
}

/// The formula bar text of a plain number is the cell's name, `=`, and a
/// text that reads back as the cell's value.
pub proof fn lemma_number_text_reads_back(row: int, col: int, c: CellView)
    requires
        c.op_code is NoConstraint,
    ensures
        ({
            let lhs = col_name(col) + decimal_text(row + 1) + seq!['='];
            let t = formula_text(row, col, c);
            &&& lhs.len() <= t.len()
            &&& t.subrange(0, lhs.len() as int) == lhs
            &&& parse_i32(t.subrange(lhs.len() as int, t.len() as int)) == Some(c.value)
        }),
{
    let lhs = col_name(col) + decimal_text(row + 1) + seq!['='];
    let t = formula_text(row, col, c);
    assert(t == lhs + decimal_text(c.value as int));
    assert(t.subrange(0, lhs.len() as int) =~= lhs);
    assert(t.subrange(lhs.len() as int, t.len() as int) =~= decimal_text(c.value as int));
    lemma_decimal_text_parses(c.value);
}

/// The formula bar text of a range function is the cell's name, `=`, the
/// function's name in capitals, and the range's corners, first `cell1`
/// then `cell2`, between brackets and split by a colon.
pub proof fn lemma_range_formula_text(row: int, col: int, c: CellView)
    requires
        c.op_code is Sum || c.op_code is Min || c.op_code is Max || c.op_code is Avg || c.op_code is Stdev,
    ensures
        formula_text(row, col, c) == col_name(col) + decimal_text(row + 1) + seq!['='] + (if c.op_code is Sum {
            seq!['S', 'U', 'M']
        } else if c.op_code is Min {
            seq!['M', 'I', 'N']
        } else if c.op_code is Max {
            seq!['M', 'A', 'X']
        } else if c.op_code is Avg {
            seq!['A', 'V', 'G']
        } else {
            seq!['S', 'T', 'D', 'E', 'V']
        }) + seq!['('] + col_name(c.cell1.col as int) + decimal_text(c.cell1.row + 1) + seq![':'] + col_name(
            c.cell2.col as int,
        ) + decimal_text(c.cell2.row + 1) + seq![')'],
{
}

/// The formula bar text of a formula over a cell and a constant starts with
/// the cell's name, `=`, the operand cell's name and the operator sign, and
/// the rest reads back as the formula's constant.
pub proof fn lemma_cell_constant_formula_text(row: int, col: int, c: CellView)
    requires
        c.op_code is CellPlusConstant || c.op_code is CellMinusConstant || c.op_code is CellTimesConstant
            || c.op_code is CellDivideConstant,
    ensures
        ({
            let head = col_name(col) + decimal_text(row + 1) + seq!['='] + col_name(c.cell1.col as int)
                + decimal_text(c.cell1.row + 1) + seq![
                if c.op_code is CellPlusConstant {
                    '+'
                } else if c.op_code is CellMinusConstant {
                    '-'
                } else if c.op_code is CellTimesConstant {
                    '*'
                } else {
                    '/'
                },
            ];
            let t = formula_text(row, col, c);
            &&& head.len() <= t.len()
            &&& t.subrange(0, head.len() as int) == head
            &&& parse_i32(t.subrange(head.len() as int, t.len() as int)) == Some(entry_constant(c.cell2))
        }),
{
    let k = decimal_text(entry_constant(c.cell2) as int);
    let head = col_name(col) + decimal_text(row + 1) + seq!['='] + col_name(c.cell1.col as int) + decimal_text(
        c.cell1.row + 1,
    ) + seq![op_text(c.op_code)];
    let t = formula_text(row, col, c);
    assert(t == head + k);
    assert(t.subrange(0, head.len() as int) =~= head);
    assert(t.subrange(head.len() as int, t.len() as int) =~= k);
    lemma_decimal_text_parses(entry_constant(c.cell2));
}

} // verus!
