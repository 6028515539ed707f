//! The verified half of evaluation: resolving every variable leaf of a
//! tree against a table of bindings, in the evaluator's own order.
//!
//! Applying the operators to the resolved values is IEEE-754 floating
//! point and belongs to the embedder; what the library settles, with
//! proof, is which variables an evaluation reads and which unbound
//! variable it reports first.

use vstd::prelude::*;
use crate::data_structures::{exprs_view, lemma_exprs_view, ArithmeticExpression, SpecExpr};
use crate::errors::EvalError;
use crate::variables::VariableTable;

verus! {

/// The first variable of `e`, in left-to-right depth-first order (the
/// order a post-order evaluator reads leaves in), that `vars` does not
/// bind.
pub open spec fn spec_first_unbound(e: SpecExpr, vars: Map<Seq<char>, u64>) -> Option<Seq<char>>
    decreases e,
{
    match e {
        SpecExpr::Number(_) => None,
        SpecExpr::Variable(x) => if vars.contains_key(x) {
            None
        } else {
            Some(x)
        },
        SpecExpr::Apply(_, args) => spec_first_unbound_seq(args, vars),
    }
}

/// The first unbound variable over a sequence of subtrees, in order.
pub open spec fn spec_first_unbound_seq(
    es: Seq<SpecExpr>,
    vars: Map<Seq<char>, u64>,
) -> Option<Seq<char>>
    decreases es,
{
    if es.len() == 0 {
        None
    } else {
        match spec_first_unbound(es.first(), vars) {
            Some(x) => Some(x),
            None => spec_first_unbound_seq(es.drop_first(), vars),
        }
    }
}

/// Whether the variable `x` occurs in the tree.
pub open spec fn spec_mentions(e: SpecExpr, x: Seq<char>) -> bool
    decreases e,
{
    match e {
        SpecExpr::Number(_) => false,
        SpecExpr::Variable(y) => x == y,
        SpecExpr::Apply(_, args) => exists|i: int|
            0 <= i < args.len() && spec_mentions(#[trigger] args[i], x),
    }
}

/// A tree of numeric literals alone, without a variable leaf.
pub open spec fn spec_has_no_variables(e: SpecExpr) -> bool
    decreases e,
{
    match e {
        SpecExpr::Number(_) => true,
        SpecExpr::Variable(_) => false,
        SpecExpr::Apply(_, args) => forall|i: int|
            0 <= i < args.len() ==> spec_has_no_variables(#[trigger] args[i]),
    }
}

/// Subtrees that resolve completely contribute nothing to the search:
/// the first unbound variable of a sequence is that of its remainder.
proof fn lemma_first_unbound_seq_skip(es: Seq<SpecExpr>, vars: Map<Seq<char>, u64>, i: int)
    requires
        0 <= i <= es.len(),
        forall|j: int| 0 <= j < i ==> spec_first_unbound(#[trigger] es[j], vars) is None,
    ensures
        spec_first_unbound_seq(es, vars) == spec_first_unbound_seq(es.skip(i), vars),
    decreases i,
{
    if i > 0 {
        assert(es.first() == es[0]);
        assert(spec_first_unbound(es[0], vars) is None);
        let rest = es.drop_first();
        assert forall|j: int| 0 <= j < i - 1 implies spec_first_unbound(
            #[trigger] rest[j],
            vars,
        ) is None by {
            assert(rest[j] == es[j + 1]);
        }
        lemma_first_unbound_seq_skip(rest, vars, i - 1);
        assert(rest.skip(i - 1) =~= es.skip(i));
    } else {
        assert(es.skip(0) =~= es);
    }
}

impl ArithmeticExpression {
    /// Resolve every variable of the expression against the table, in
    /// the evaluator's left-to-right depth-first order, and report the
    /// first one the table does not bind.
    pub fn check_variables(&self, variables: &VariableTable) -> (r: Result<(), EvalError>)
        ensures
            r is Ok <==> spec_first_unbound(self@, variables@) is None,
            r matches Err(e) ==> (e matches EvalError::UndefinedVariable(x) && Some(x@)
                == spec_first_unbound(self@, variables@)),
        decreases self,
    {
        match self {
            ArithmeticExpression::NumberLeaf(_) => Ok(()),
            ArithmeticExpression::VariableLeaf(name) => match variables.get(name.as_str()) {
                Some(_) => Ok(()),
                None => Err(EvalError::UndefinedVariable(name.clone())),
            },
            ArithmeticExpression::Node { node: _, operands } => {
                let ghost args = exprs_view(operands@);
                proof {
                    lemma_exprs_view(operands@);
                    assert(decreases_to!(*self => *operands));
                    assert(decreases_to!(*operands => operands@));
                }
                let n = operands.len();
                let mut i: usize = 0;
                while i < n
                    invariant
                        n == operands@.len(),
                        0 <= i <= n,
                        args == exprs_view(operands@),
                        args.len() == n,
                        decreases_to!(*self => operands@),
                        spec_first_unbound(self@, variables@) == spec_first_unbound_seq(
                            args,
                            variables@,
                        ),
                        forall|j: int|
                            0 <= j < args.len() ==> #[trigger] args[j] == crate::data_structures::spec_expr_view(
                                operands@[j],
                            ),
                        forall|j: int|
                            0 <= j < i ==> spec_first_unbound(#[trigger] args[j], variables@)
                                is None,
                    decreases n - i,
                {
                    proof {
                        assert(decreases_to!(operands@ => operands@[i as int]));
                        assert(decreases_to!(*self => operands@[i as int]));
                    }
                    match operands[i].check_variables(variables) {
                        Ok(u) => {},
                        Err(e) => {
                            proof {
                                lemma_first_unbound_seq_skip(args, variables@, i as int);
                                assert(args.skip(i as int).first() == args[i as int]);
                                assert(args.skip(i as int).len() > 0);
                            }
                            return Err(e);
                        },
                    }
                    i = i + 1;
                }
                proof {
                    lemma_first_unbound_seq_skip(args, variables@, n as int);
                    assert(args.skip(n as int).len() == 0);
                }
                Ok(())
            },
        }
    }
}

} // verus!
