use vstd::prelude::*;

use crate::expression::Expression;
use crate::function::Function;
use crate::text::{
    chars_to_string, op_char, push_decimal, push_table, spec_table, spec_unknown,
};

verus! {

/// One step of a chain: its position (position `i` is rendered as `x_{i+1}`),
/// the expression that defines it, and the function that expression evaluates
/// to.
pub struct ChainExpression {
    pub index: usize,
    pub function: Function,
    pub expression: Expression,
}

impl ChainExpression {
    /// Builds a step at `index`; the recorded function is the expression's
    /// evaluation.
    pub fn new(index: usize, expression: Expression) -> (ce: ChainExpression)
        ensures
            ce.index == index,
            ce.expression == expression,
            ce.function.0 == expression.spec_eval(),
            expression.valid_operands() ==> ce.function.valid(),
    {
        ChainExpression { index, function: expression.evaluate(), expression }
    }
}

/// An ordered, append-only straight-line program of expressions, together
/// with the set of target functions it is trying to realize. Lookups by
/// function value always resolve to the first position computing that value.
pub struct Chain {
    pub expressions: Vec<ChainExpression>,
    pub targets: Vec<Function>,
}

impl Chain {
    /// Every step records its own position, a valid function, and the
    /// evaluation of its own expression; every target is a valid function.
    pub open spec fn wf(self) -> bool {
        &&& forall|i: int|
            0 <= i < self.expressions@.len() ==> (#[trigger] self.expressions@[i]).index == i
        &&& forall|i: int|
            0 <= i < self.expressions@.len() ==> (
            #[trigger] self.expressions@[i]).expression.valid_operands()
        &&& forall|i: int|
            0 <= i < self.expressions@.len() ==> (#[trigger] self.expressions@[i]).function.0
                == self.expressions@[i].expression.spec_eval()
        &&& forall|i: int|
            0 <= i < self.expressions@.len() ==> (#[trigger] self.expressions@[i]).function.valid()
        &&& forall|i: int| 0 <= i < self.targets@.len() ==> (#[trigger] self.targets@[i]).valid()
    }

    /// Some step of the chain computes the table `t`.
    pub open spec fn contains_function(self, t: u32) -> bool {
        exists|i: int|
            0 <= i < self.expressions@.len() && (#[trigger] self.expressions@[i]).function.0 == t
    }

    /// Position `i` is the first step computing the table `t`.
    pub open spec fn is_first_occurrence(self, i: int, t: u32) -> bool {
        &&& 0 <= i < self.expressions@.len()
        &&& self.expressions@[i].function.0 == t
        &&& forall|j: int|
            0 <= j < i ==> (#[trigger] self.expressions@[j]).function.0 != t
    }

    /// Every target function appears somewhere in the chain.
    pub open spec fn spec_solved(self) -> bool {
        forall|k: int|
            0 <= k < self.targets@.len() ==> self.contains_function(
                (#[trigger] self.targets@[k]).0,
            )
    }

    /// Creates an empty chain aiming at the given targets.
    pub fn new(targets: &Vec<Function>) -> (chain: Chain)
        requires
            forall|k: int| 0 <= k < targets@.len() ==> (#[trigger] targets@[k]).valid(),
        ensures
            chain.wf(),
            chain.expressions@.len() == 0,
            chain.targets@ == targets@,
    {
        let mut copied: Vec<Function> = Vec::new();
        let n = targets.len();
        for k in 0..n
            invariant
                n == targets.len(),
                copied@ == targets@.subrange(0, k as int),
        {
            copied.push(targets[k]);
            proof {
                assert(copied@ =~= targets@.subrange(0, k + 1));
            }
        }
        proof {
            assert(copied@ =~= targets@);
        }
        Chain { expressions: Vec::new(), targets: copied }
    }

    /// Appends one expression; its position is the current length. A function
    /// already present keeps its earlier lookup position (the new step is a
    /// distinct position, but lookups keep resolving to the first
    /// occurrence).
    pub fn add(&mut self, expr: Expression)
        requires
            old(self).wf(),
            expr.valid_operands(),
        ensures
            final(self).wf(),
            final(self).targets@ == old(self).targets@,
            final(self).expressions@.len() == old(self).expressions@.len() + 1,
            final(self).expressions@ == old(self).expressions@.push(
                final(self).expressions@.last(),
            ),
            final(self).expressions@.last().expression == expr,
            final(self).expressions@.last().function.0 == expr.spec_eval(),
            final(self).expressions@.last().index == old(self).expressions@.len(),
    {
        let index = self.expressions.len();
        let ce = ChainExpression::new(index, expr);
        self.expressions.push(ce);
        proof {
            assert(self.expressions@ =~= old(self).expressions@.push(self.expressions@.last()));
        }
    }

    /// The first position computing `f`, if any: the reverse index from
    /// function value to chain position.
    pub fn function_lookup(&self, f: Function) -> (r: Option<usize>)
        ensures
            match r {
                Some(i) => self.is_first_occurrence(i as int, f.0),
                None => !self.contains_function(f.0),
            },
    {
        let n = self.expressions.len();
        for i in 0..n
            invariant
                n == self.expressions.len(),
                forall|j: int| 0 <= j < i ==> (#[trigger] self.expressions@[j]).function.0 != f.0,
        {
            if self.expressions[i].function.0 == f.0 {
                return Some(i);
            }
        }
        None
    }

    /// Whether `f` is one of the chain's targets.
    pub fn is_target(&self, f: Function) -> (r: bool)
        ensures
            r == exists|k: int|
                0 <= k < self.targets@.len() && (#[trigger] self.targets@[k]).0 == f.0,
    {
        let n = self.targets.len();
        for k in 0..n
            invariant
                n == self.targets.len(),
                forall|j: int| 0 <= j < k ==> (#[trigger] self.targets@[j]).0 != f.0,
        {
            if self.targets[k].0 == f.0 {
                return true;
            }
        }
        false
    }

    /// Number of the first `t` target positions whose function the chain
    /// computes.
    pub open spec fn spec_num_fulfilled(self, t: int) -> nat
        decreases t,
    {
        if t <= 0 {
            0
        } else {
            self.spec_num_fulfilled(t - 1) + if self.contains_function(self.targets@[t - 1].0) {
                1nat
            } else {
                0nat
            }
        }
    }

    /// The fulfilled count never exceeds `t`, and hits `t` exactly when every
    /// one of the first `t` targets is computed.
    pub proof fn lemma_num_fulfilled_bounds(self, t: int)
        requires
            0 <= t <= self.targets@.len(),
        ensures
            self.spec_num_fulfilled(t) <= t,
            self.spec_num_fulfilled(t) == t <==> (forall|j: int|
                0 <= j < t ==> self.contains_function((#[trigger] self.targets@[j]).0)),
        decreases t,
    {
        if t > 0 {
            self.lemma_num_fulfilled_bounds(t - 1);
        }
    }

    /// How many targets the chain already computes.
    pub fn num_fulfilled_targets(&self) -> (count: usize)
        ensures
            count == self.spec_num_fulfilled(self.targets@.len() as int),
            count <= self.targets@.len(),
            count == self.targets@.len() <==> self.spec_solved(),
    {
        let n = self.targets.len();
        let mut count: usize = 0;
        for k in 0..n
            invariant
                n == self.targets.len(),
                count == self.spec_num_fulfilled(k as int),
                count <= k,
        {
            proof {
                self.lemma_num_fulfilled_bounds(k as int);
            }
            match self.function_lookup(self.targets[k]) {
                Some(_) => {
                    count += 1;
                },
                None => {
                },
            }
        }
        proof {
            self.lemma_num_fulfilled_bounds(n as int);
        }
        count
    }

    /// Whether every target already has an entry in the chain.
    pub fn is_solved(&self) -> (solved: bool)
        ensures
            solved == self.spec_solved(),
    {
        let n = self.targets.len();
        for k in 0..n
            invariant
                n == self.targets.len(),
                forall|j: int|
                    0 <= j < k ==> self.contains_function((#[trigger] self.targets@[j]).0),
        {
            if self.function_lookup(self.targets[k]).is_none() {
                return false;
            }
        }
        true
    }
}


/// The name of chain position `index`: `x` followed by the one-based
/// position.
pub open spec fn spec_name(index: nat) -> Seq<char> {
    seq!['x'] + crate::text::spec_decimal((index + 1) as nat)
}

/// How a function value is named in a rendering: by the name of the first
/// chain position computing it, or as unknown when no position does.
pub open spec fn spec_name_for(chain: Chain, t: u32) -> Seq<char> {
    if chain.contains_function(t) {
        spec_name((choose|i: int| chain.is_first_occurrence(i, t)) as nat)
    } else {
        spec_unknown()
    }
}

/// The rendering of one chain step: `x_i = <lhs> <op> <rhs> = <table>` with a
/// target marker, or `x_i = <table>` for a named input.
pub open spec fn spec_render(chain: Chain, ce: ChainExpression) -> Seq<char> {
    let head = spec_name(ce.index as nat) + seq![' ', '=', ' '];
    if ce.expression is Constant {
        head + spec_table(ce.expression.left().0)
    } else {
        head + spec_name_for(chain, ce.expression.left().0) + seq![
            ' ',
            op_char(ce.expression),
            ' ',
        ] + spec_name_for(chain, ce.expression.right().0) + seq![' ', '=', ' '] + spec_table(
            ce.function.0,
        ) + if exists|k: int|
            0 <= k < chain.targets@.len() && (#[trigger] chain.targets@[k]).0 == ce.function.0 {
            seq![' ', '[', 't', 'a', 'r', 'g', 'e', 't', ']']
        } else {
            Seq::<char>::empty()
        }
    }
}

/// Two first occurrences of the same table are the same position.
pub proof fn lemma_first_occurrence_unique(chain: Chain, i: int, j: int, t: u32)
    requires
        chain.is_first_occurrence(i, t),
        chain.is_first_occurrence(j, t),
    ensures
        i == j,
{
}

impl Chain {
    /// The name of a chain step: `x` followed by its one-based position.
    pub fn get_name(&self, chain_expression: &ChainExpression) -> (name: String)
        requires
            chain_expression.index < usize::MAX,
        ensures
            name@ == spec_name(chain_expression.index as nat),
    {
        let mut out: Vec<char> = Vec::new();
        out.push('x');
        push_decimal(&mut out, chain_expression.index + 1);
        proof {
            assert(out@ =~= spec_name(chain_expression.index as nat));
        }
        chars_to_string(&out)
    }

    /// Appends the name of the first position computing `f`, or the unknown
    /// marker.
    fn push_name_for(&self, out: &mut Vec<char>, f: Function)
        requires
            self.wf(),
        ensures
            final(out)@ == old(out)@ + spec_name_for(*self, f.0),
    {
        match self.function_lookup(f) {
            Some(i) => {
                let n = self.expressions.len();
                let idx = self.expressions[i].index;
                proof {
                    assert(idx < n);
                }
                out.push('x');
                push_decimal(out, idx + 1);
                proof {
                    let w = choose|w: int| self.is_first_occurrence(w, f.0);
                    lemma_first_occurrence_unique(*self, w, i as int, f.0);
                    assert(idx == i);
                    assert(out@ =~= old(out)@ + spec_name_for(*self, f.0));
                }
            },
            None => {
                out.push('u');
                out.push('n');
                out.push('k');
                out.push('n');
                out.push('o');
                out.push('w');
                out.push('n');
                proof {
                    assert(out@ =~= old(out)@ + spec_unknown());
                }
            },
        }
    }

    /// The name of the first position computing `f`, or the unknown marker:
    /// the reverse index rendered for humans.
    pub fn get_name_for_function(&self, f: Function) -> (name: String)
        requires
            self.wf(),
        ensures
            name@ == spec_name_for(*self, f.0),
    {
        let mut out: Vec<char> = Vec::new();
        self.push_name_for(&mut out, f);
        chars_to_string(&out)
    }

    /// One chain step rendered for humans: its name, its derivation with both
    /// operands named by their first positions, the resulting table, and a
    /// marker when the step computes a target.
    pub fn get_expression_as_str(&self, chain_expression: &ChainExpression) -> (s: String)
        requires
            self.wf(),
            chain_expression.index < usize::MAX,
        ensures
            s@ == spec_render(*self, *chain_expression),
    {
        let mut out: Vec<char> = Vec::new();
        out.push('x');
        push_decimal(&mut out, chain_expression.index + 1);
        out.push(' ');
        out.push('=');
        out.push(' ');
        proof {
            assert(out@ =~= spec_name(chain_expression.index as nat) + seq![' ', '=', ' ']);
        }
        match chain_expression.expression {
            Expression::Constant(f1) => {
                push_table(&mut out, f1);
                proof {
                    assert(out@ =~= spec_render(*self, *chain_expression));
                }
            },
            _ => {
                let e = chain_expression.expression;
                let l = match e {
                    Expression::Constant(f) => f,
                    Expression::And(f1, _) => f1,
                    Expression::Or(f1, _) => f1,
                    Expression::Xor(f1, _) => f1,
                    Expression::ButNot(f1, _) => f1,
                    Expression::NotBut(f1, _) => f1,
                };
                let r = match e {
                    Expression::Constant(f) => f,
                    Expression::And(_, f2) => f2,
                    Expression::Or(_, f2) => f2,
                    Expression::Xor(_, f2) => f2,
                    Expression::ButNot(_, f2) => f2,
                    Expression::NotBut(_, f2) => f2,
                };
                let op = match e {
                    Expression::Constant(_) => ' ',
                    Expression::And(_, _) => '&',
                    Expression::Or(_, _) => '|',
                    Expression::Xor(_, _) => '^',
                    Expression::ButNot(_, _) => '>',
                    Expression::NotBut(_, _) => '<',
                };
                self.push_name_for(&mut out, l);
                out.push(' ');
                out.push(op);
                out.push(' ');
                self.push_name_for(&mut out, r);
                out.push(' ');
                out.push('=');
                out.push(' ');
                push_table(&mut out, chain_expression.function);
                let marked = self.is_target(chain_expression.function);
                if marked {
                    out.push(' ');
                    out.push('[');
                    out.push('t');
                    out.push('a');
                    out.push('r');
                    out.push('g');
                    out.push('e');
                    out.push('t');
                    out.push(']');
                }
                proof {
                    assert(out@ =~= spec_render(*self, *chain_expression));
                }
            },
        }
        chars_to_string(&out)
    }
}

/// Appending a step never disturbs an existing first occurrence: the lookup
/// table keeps pointing at the earliest position computing each function,
/// whatever is appended later.
pub proof fn lemma_append_keeps_first_occurrence(pre: Chain, post: Chain, i: int, t: u32)
    requires
        pre.is_first_occurrence(i, t),
        post.expressions@ == pre.expressions@.push(post.expressions@.last()),
    ensures
        post.is_first_occurrence(i, t),
{
    assert(forall|j: int|
        0 <= j < pre.expressions@.len() ==> post.expressions@[j] == pre.expressions@[j]);
}

} // verus!
