//! The ways a text can fail to parse, and evaluation can fail to
//! resolve, as structured values.

use vstd::prelude::*;
use crate::data_structures::Operator;

verus! {

/// Mathematical mirror of [`ParseError`].
pub enum SpecParseError {
    UnparsableToken(Seq<char>),
    UnbalancedParenthesis(int),
    InvalidArity(Operator, int),
    NotInfix(Operator),
    MalformedExpression,
    EmptyExpression,
}

/// Why a text failed to parse.
#[derive(Debug)]
pub enum ParseError {
    /// A token that is no operator, numeric literal or identifier.
    /// Carries the token.
    UnparsableToken(String),
    /// An opening parenthesis with no matching closing one, or a stray
    /// closing parenthesis. Carries the token position.
    UnbalancedParenthesis(usize),
    /// A function-form operator applied to an operand count it does not
    /// accept. Carries the operator and the count.
    InvalidArity(Operator, usize),
    /// An operator in infix position that does not accept two operands.
    NotInfix(Operator),
    /// Tokens that do not reduce to a single expression.
    MalformedExpression,
    /// An empty expression or an empty parenthesized group.
    EmptyExpression,
}

impl View for ParseError {
    type V = SpecParseError;

    open spec fn view(&self) -> SpecParseError {
        match self {
            ParseError::UnparsableToken(t) => SpecParseError::UnparsableToken(t@),
            ParseError::UnbalancedParenthesis(p) => SpecParseError::UnbalancedParenthesis(
                *p as int,
            ),
            ParseError::InvalidArity(op, n) => SpecParseError::InvalidArity(*op, *n as int),
            ParseError::NotInfix(op) => SpecParseError::NotInfix(*op),
            ParseError::MalformedExpression => SpecParseError::MalformedExpression,
            ParseError::EmptyExpression => SpecParseError::EmptyExpression,
        }
    }
}

/// Why an expression cannot be evaluated against a table of bindings.
#[derive(Debug)]
pub enum EvalError {
    /// A variable the expression references that the table does not
    /// bind. Carries the variable's name.
    UndefinedVariable(String),
}

} // verus!
