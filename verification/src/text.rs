use vstd::prelude::*;

use crate::expression::Expression;
use crate::function::Function;

verus! {

/// The decimal digit character for one digit value.
pub open spec fn decimal_digit(d: int) -> char {
    if d == 0 {
        '0'
    } else if d == 1 {
        '1'
    } else if d == 2 {
        '2'
    } else if d == 3 {
        '3'
    } else if d == 4 {
        '4'
    } else if d == 5 {
        '5'
    } else if d == 6 {
        '6'
    } else if d == 7 {
        '7'
    } else if d == 8 {
        '8'
    } else {
        '9'
    }
}

/// The decimal rendering of a number, most significant digit first.
pub open spec fn spec_decimal(n: nat) -> Seq<char>
    decreases n,
{
    if n < 10 {
        seq![decimal_digit(n as int)]
    } else {
        spec_decimal(n / 10).push(decimal_digit((n % 10) as int))
    }
}

/// The binary rendering of a truth table: 16 bits, highest first.
pub open spec fn spec_table(t: u32) -> Seq<char> {
    Seq::new(
        16,
        |i: int|
            if (t >> ((15 - i) as u32)) & 1 == 1 {
                '1'
            } else {
                '0'
            },
    )
}

/// What a lookup renders when no chain position computes the function.
pub open spec fn spec_unknown() -> Seq<char> {
    seq!['u', 'n', 'k', 'n', 'o', 'w', 'n']
}

/// The operator sign of a binary combination.
pub open spec fn op_char(e: Expression) -> char {
    match e {
        Expression::Constant(_) => ' ',
        Expression::And(_, _) => '&',
        Expression::Or(_, _) => '|',
        Expression::Xor(_, _) => '^',
        Expression::ButNot(_, _) => '>',
        Expression::NotBut(_, _) => '<',
    }
}

/// The rendering of a bare expression: its operands' truth tables around the
/// operator sign, or just the table of a named input.
pub open spec fn spec_expression(e: Expression) -> Seq<char> {
    if e is Constant {
        spec_table(e.left().0)
    } else {
        spec_table(e.left().0) + seq![' ', op_char(e), ' '] + spec_table(e.right().0)
    }
}

/// Relies on `String::from_iter` over characters: the string holds exactly
/// the given characters, in order.
#[verifier::external_body]
pub fn chars_to_string(chars: &Vec<char>) -> (s: String)
    ensures
        s@ == chars@,
{
    chars.iter().collect()
}

/// The digit character of one digit value.
fn digit_char(d: usize) -> (c: char)
    requires
        d < 10,
    ensures
        c == decimal_digit(d as int),
{
    match d {
        0 => '0',
        1 => '1',
        2 => '2',
        3 => '3',
        4 => '4',
        5 => '5',
        6 => '6',
        7 => '7',
        8 => '8',
        _ => '9',
    }
}

/// Appends the decimal rendering of `n`.
pub fn push_decimal(out: &mut Vec<char>, n: usize)
    ensures
        final(out)@ == old(out)@ + spec_decimal(n as nat),
    decreases n,
{
    if n < 10 {
        out.push(digit_char(n));
        proof {
            assert(out@ =~= old(out)@ + spec_decimal(n as nat));
        }
    } else {
        push_decimal(out, n / 10);
        out.push(digit_char(n % 10));
        proof {
            assert(out@ =~= old(out)@ + spec_decimal(n as nat));
        }
    }
}

/// Appends the 16-bit binary rendering of a truth table.
pub fn push_table(out: &mut Vec<char>, f: Function)
    ensures
        final(out)@ == old(out)@ + spec_table(f.0),
{
    let t = f.0;
    let mut i: usize = 0;
    while i < 16
        invariant
            i <= 16,
            out@ == old(out)@ + spec_table(t).subrange(0, i as int),
        decreases 16 - i,
    {
        proof {
            assert(15 - i < 32);
        }
        let bit = (t >> ((15 - i) as u32)) & 1;
        let c = if bit == 1 {
            '1'
        } else {
            '0'
        };
        out.push(c);
        proof {
            assert(spec_table(t)[i as int] == c);
            assert(out@ =~= old(out)@ + spec_table(t).subrange(0, i + 1));
        }
        i = i + 1;
    }
    proof {
        assert(spec_table(t).subrange(0, 16) =~= spec_table(t));
    }
}

/// Renders a bare expression as its operand tables around the operator sign.
pub fn expression_to_str(e: &Expression) -> (s: String)
    ensures
        s@ == spec_expression(*e),
{
    let mut out: Vec<char> = Vec::new();
    match e {
        Expression::Constant(f) => {
            push_table(&mut out, *f);
        },
        _ => {
            let l = match e {
                Expression::Constant(f) => *f,
                Expression::And(f1, _) => *f1,
                Expression::Or(f1, _) => *f1,
                Expression::Xor(f1, _) => *f1,
                Expression::ButNot(f1, _) => *f1,
                Expression::NotBut(f1, _) => *f1,
            };
            let r = match e {
                Expression::Constant(f) => *f,
                Expression::And(_, f2) => *f2,
                Expression::Or(_, f2) => *f2,
                Expression::Xor(_, f2) => *f2,
                Expression::ButNot(_, f2) => *f2,
                Expression::NotBut(_, f2) => *f2,
            };
            let op = match e {
                Expression::Constant(_) => ' ',
                Expression::And(_, _) => '&',
                Expression::Or(_, _) => '|',
                Expression::Xor(_, _) => '^',
                Expression::ButNot(_, _) => '>',
                Expression::NotBut(_, _) => '<',
            };
            push_table(&mut out, l);
            out.push(' ');
            out.push(op);
            out.push(' ');
            push_table(&mut out, r);
            proof {
                assert(out@ =~= spec_expression(*e));
            }
        },
    }
    chars_to_string(&out)
}

} // verus!
