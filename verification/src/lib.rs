//! A verified parser for arithmetic expressions.
//!
//! [`ArithmeticExpression::parse`] splits a text into tokens and builds a
//! tree from them with a two-stack operator-precedence algorithm that
//! supports infix binary operators, prefix and n-ary function operators,
//! and parenthesized grouping with comma-separated argument lists. Every
//! function of the crate carries a contract against the spec-level
//! mirror of the algorithm, and `parser::spec_parse` pins the parse
//! result down completely; `laws` states and proves properties that
//! relate the pieces, such as the rejection of every text with
//! unbalanced parentheses.
//!
//! Numbers stay textual inside the crate: a `NumberLeaf` holds the
//! literal as written, in the grammar of `tokenizer::is_float_literal`,
//! and a [`VariableTable`] carries each bound value as the bit pattern
//! of an IEEE-754 double. The verifier does not model floating-point
//! arithmetic, so the numeric folding of a parsed tree belongs to the
//! embedder, which decodes literals and bit patterns itself.

use vstd::prelude::*;

pub mod data_structures;
pub mod errors;
pub mod evaluation;
pub mod laws;
pub mod parser;
pub mod tokenizer;
pub mod variables;

pub use data_structures::{ArithmeticExpression, Operator, ParsedToken, SpecExpr};
pub use data_structures::{pop_operand, pop_operator};
pub use errors::{EvalError, ParseError};
pub use variables::VariableTable;

use crate::errors::SpecParseError;
use crate::parser::spec_parse;

verus! {

impl ArithmeticExpression {
    /// Parse an arithmetic expression and return a tree representation.
    ///
    /// An arithmetic expression is made of numbers, variables, operators
    /// and special characters (parentheses and comma). Operators can be
    /// functional if their arguments follow them (e.g., `sqrt`), or infix
    /// if they are placed between their arguments (e.g., `+`). Infix
    /// operators support precedence.
    ///
    /// Variable names consist of ASCII letters and digits. Spaces can be
    /// omitted around parentheses, commas and the symbolic operators.
    /// Arguments of function operators are surrounded by parentheses and
    /// separated by commas; the parentheses can be omitted if there is
    /// only one argument.
    pub fn parse(s: &str) -> (r: Result<ArithmeticExpression, ParseError>)
        ensures
            ({
                match r {
                    Ok(e) => spec_parse(s@) == Ok::<SpecExpr, SpecParseError>(e@) && e@.wf(),
                    Err(pe) => spec_parse(s@) == Err::<SpecExpr, SpecParseError>(pe@),
                }
            }),
    {
        let tokens = tokenizer::tokenize(s);
        parser::parse_tokens(tokens.as_slice())
    }
}

} // verus!
