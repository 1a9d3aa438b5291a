use vstd::prelude::*;

use crate::function::{spec_not, Function, TAUTOLOGY};

verus! {

/// How a function is derived: either a named input (a constant of the
/// search), or a binary combination of two already-known functions under one
/// of the five operators that the searches explore. `ButNot(g, h)` is
/// `g AND NOT h`; `NotBut(g, h)` is `NOT g AND h`.
#[derive(Clone, Copy, PartialEq, Eq, Structural, Debug)]
pub enum Expression {
    Constant(Function),
    And(Function, Function),
    Or(Function, Function),
    Xor(Function, Function),
    ButNot(Function, Function),
    NotBut(Function, Function),
}

impl Expression {
    /// The truth table an expression denotes: bitwise application of its
    /// operator, masked to the valid range.
    pub open spec fn spec_eval(self) -> u32 {
        match self {
            Expression::Constant(f) => f.0,
            Expression::And(f1, f2) => f1.0 & f2.0,
            Expression::Or(f1, f2) => f1.0 | f2.0,
            Expression::Xor(f1, f2) => f1.0 ^ f2.0,
            Expression::ButNot(f1, f2) => f1.0 & spec_not(f2.0),
            Expression::NotBut(f1, f2) => spec_not(f1.0) & f2.0,
        }
    }

    /// Both operands (or the single constant) lie in the valid table range.
    pub open spec fn valid_operands(self) -> bool {
        match self {
            Expression::Constant(f) => f.valid(),
            Expression::And(f1, f2) => f1.valid() && f2.valid(),
            Expression::Or(f1, f2) => f1.valid() && f2.valid(),
            Expression::Xor(f1, f2) => f1.valid() && f2.valid(),
            Expression::ButNot(f1, f2) => f1.valid() && f2.valid(),
            Expression::NotBut(f1, f2) => f1.valid() && f2.valid(),
        }
    }

    /// The expression is a binary combination (not a named input).
    pub open spec fn is_combination(self) -> bool {
        !(self is Constant)
    }

    /// First operand (the constant itself for a named input).
    pub open spec fn left(self) -> Function {
        match self {
            Expression::Constant(f) => f,
            Expression::And(f1, _) => f1,
            Expression::Or(f1, _) => f1,
            Expression::Xor(f1, _) => f1,
            Expression::ButNot(f1, _) => f1,
            Expression::NotBut(f1, _) => f1,
        }
    }

    /// Second operand (the constant itself for a named input).
    pub open spec fn right(self) -> Function {
        match self {
            Expression::Constant(f) => f,
            Expression::And(_, f2) => f2,
            Expression::Or(_, f2) => f2,
            Expression::Xor(_, f2) => f2,
            Expression::ButNot(_, f2) => f2,
            Expression::NotBut(_, f2) => f2,
        }
    }

    /// Evaluating an expression with valid operands yields a valid table.
    pub proof fn lemma_eval_valid(self)
        requires
            self.valid_operands(),
        ensures
            self.spec_eval() <= TAUTOLOGY,
    {
        match self {
            Expression::Constant(f) => {},
            Expression::And(f1, f2) => {
                let (a, b) = (f1.0, f2.0);
                assert(a <= 0xffff && b <= 0xffff ==> (a & b) <= 0xffff) by (bit_vector);
            },
            Expression::Or(f1, f2) => {
                let (a, b) = (f1.0, f2.0);
                assert(a <= 0xffff && b <= 0xffff ==> (a | b) <= 0xffff) by (bit_vector);
            },
            Expression::Xor(f1, f2) => {
                let (a, b) = (f1.0, f2.0);
                assert(a <= 0xffff && b <= 0xffff ==> (a ^ b) <= 0xffff) by (bit_vector);
            },
            Expression::ButNot(f1, f2) => {
                let (a, b) = (f1.0, f2.0);
                assert(a <= 0xffff ==> (a & (!b & 0xffffu32)) <= 0xffff) by (bit_vector);
            },
            Expression::NotBut(f1, f2) => {
                let (a, b) = (f1.0, f2.0);
                assert(b <= 0xffff ==> ((!a & 0xffffu32) & b) <= 0xffff) by (bit_vector);
            },
        }
    }

    /// Computes the function an expression denotes. Pure and total: every
    /// expression evaluates to exactly one table.
    pub fn evaluate(&self) -> (f: Function)
        ensures
            f.0 == self.spec_eval(),
            self.valid_operands() ==> f.valid(),
    {
        proof {
            if self.valid_operands() {
                self.lemma_eval_valid();
            }
        }
        match self {
            Expression::Constant(f) => *f,
            Expression::And(f1, f2) => Function(f1.0 & f2.0),
            Expression::Or(f1, f2) => Function(f1.0 | f2.0),
            Expression::Xor(f1, f2) => Function(f1.0 ^ f2.0),
            Expression::ButNot(f1, f2) => Function(f1.0 & (!f2.0 & TAUTOLOGY)),
            Expression::NotBut(f1, f2) => Function((!f1.0 & TAUTOLOGY) & f2.0),
        }
    }
}

} // verus!
