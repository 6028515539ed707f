//! Data model of the parser: the operator registry, the expression tree and
//! its mathematical mirror, and the parser's working stack of tokens.

use vstd::prelude::*;
use crate::tokenizer::{is_float_literal, is_identifier};

verus! {

/// Mathematical mirror of [`ArithmeticExpression`], used by all contracts.
///
/// `Apply(op, args)` stands for an operator node; `args` are the operand
/// subtrees in left-to-right order.
pub enum SpecExpr {
    Number(Seq<char>),
    Variable(Seq<char>),
    Apply(Operator, Seq<SpecExpr>),
}

/// The parse tree of an arithmetic expression.
///
/// A `NumberLeaf` keeps the numeric literal exactly as it was written; a
/// `VariableLeaf` keeps the variable's name, resolved only at evaluation
/// time; a `Node` applies an operator to one or more operand subtrees.
#[derive(Debug)]
pub enum ArithmeticExpression {
    NumberLeaf(String),
    VariableLeaf(String),
    Node { node: Operator, operands: Vec<ArithmeticExpression> },
}

/// The mirror of an expression tree.
pub open spec fn spec_expr_view(e: ArithmeticExpression) -> SpecExpr
    decreases e,
{
    match e {
        ArithmeticExpression::NumberLeaf(s) => SpecExpr::Number(s@),
        ArithmeticExpression::VariableLeaf(s) => SpecExpr::Variable(s@),
        ArithmeticExpression::Node { node, operands } => SpecExpr::Apply(
            node,
            exprs_view(operands@),
        ),
    }
}

/// The mirrors of a sequence of expression trees, in order.
pub open spec fn exprs_view(s: Seq<ArithmeticExpression>) -> Seq<SpecExpr>
    decreases s,
{
    if s.len() == 0 {
        Seq::empty()
    } else {
        seq![spec_expr_view(s.first())] + exprs_view(s.drop_first())
    }
}

/// `exprs_view` maps each tree to its mirror, position by position.
pub proof fn lemma_exprs_view(s: Seq<ArithmeticExpression>)
    ensures
        exprs_view(s).len() == s.len(),
        forall|i: int| 0 <= i < s.len() ==> #[trigger] exprs_view(s)[i] == spec_expr_view(s[i]),
    decreases s.len(),
{
    if s.len() > 0 {
        lemma_exprs_view(s.drop_first());
    }
}

impl View for ArithmeticExpression {
    type V = SpecExpr;

    open spec fn view(&self) -> SpecExpr {
        spec_expr_view(*self)
    }
}

impl SpecExpr {
    /// Every node applies its operator to an accepted number of operands,
    /// and every leaf holds lexically valid text.
    pub open spec fn wf(self) -> bool
        decreases self,
    {
        match self {
            SpecExpr::Number(s) => is_float_literal(s),
            SpecExpr::Variable(s) => is_identifier(s),
            SpecExpr::Apply(op, args) => op.spec_is_nary(args.len() as int)
                && forall|i: int| 0 <= i < args.len() ==> #[trigger] args[i].wf(),
        }
    }
}

/// The closed set of recognized operators.
#[derive(Clone, Copy, PartialEq, Eq, Structural, Debug)]
pub enum Operator {
    Plus,
    Minus,
    Star,
    Slash,
    Sqrt,
}

impl Operator {
    /// The symbol or keyword by which the operator is written.
    pub open spec fn spec_symbol(self) -> Seq<char> {
        match self {
            Operator::Plus => seq!['+'],
            Operator::Minus => seq!['-'],
            Operator::Star => seq!['*'],
            Operator::Slash => seq!['/'],
            Operator::Sqrt => seq!['s', 'q', 'r', 't'],
        }
    }

    /// Binding strength of the operator when written infix: higher binds
    /// tighter. The word-form `sqrt` shares the highest rank.
    pub open spec fn spec_priority(self) -> u8 {
        match self {
            Operator::Plus => 0u8,
            Operator::Minus => 0u8,
            Operator::Star => 1u8,
            Operator::Slash => 1u8,
            Operator::Sqrt => 1u8,
        }
    }

    /// Which operand counts the operator accepts: `Plus` is an n-ary sum,
    /// `Minus` is negation or subtraction, `Star` and `Slash` are strictly
    /// binary, `Sqrt` is strictly unary. No operator accepts zero operands.
    pub open spec fn spec_is_nary(self, n: int) -> bool {
        n > 0 && match self {
            Operator::Plus => true,
            Operator::Minus => n == 1 || n == 2,
            Operator::Star => n == 2,
            Operator::Slash => n == 2,
            Operator::Sqrt => n == 1,
        }
    }

    /// The full operator registry, in the order used for token matching.
    pub open spec fn spec_all() -> Seq<Operator> {
        seq![Operator::Plus, Operator::Minus, Operator::Star, Operator::Slash, Operator::Sqrt]
    }

    /// All registered operators.
    pub fn get_all() -> (r: Vec<Operator>)
        ensures
            r@ == Operator::spec_all(),
    {
        let mut all: Vec<Operator> = Vec::new();
        all.push(Operator::Plus);
        all.push(Operator::Minus);
        all.push(Operator::Star);
        all.push(Operator::Slash);
        all.push(Operator::Sqrt);
        proof {
            assert(all@ =~= Operator::spec_all());
        }
        all
    }

    /// The operator's infix precedence.
    pub fn get_priority(&self) -> (r: u8)
        ensures
            r == self.spec_priority(),
    {
        match self {
            Operator::Plus => 0,
            Operator::Minus => 0,
            Operator::Star => 1,
            Operator::Slash => 1,
            Operator::Sqrt => 1,
        }
    }

    /// Whether the operator accepts `n` operands.
    pub fn is_nary(&self, n: usize) -> (r: bool)
        ensures
            r == self.spec_is_nary(n as int),
    {
        if n == 0 {
            false
        } else {
            match self {
                Operator::Plus => true,
                Operator::Minus => n == 1 || n == 2,
                Operator::Star => n == 2,
                Operator::Slash => n == 2,
                Operator::Sqrt => n == 1,
            }
        }
    }

    /// The operator's textual symbol.
    pub fn as_str(&self) -> (r: &'static str)
        ensures
            r@ == self.spec_symbol(),
    {
        proof {
            reveal_strlit("+");
            reveal_strlit("-");
            reveal_strlit("*");
            reveal_strlit("/");
            reveal_strlit("sqrt");
        }
        match self {
            Operator::Plus => "+",
            Operator::Minus => "-",
            Operator::Star => "*",
            Operator::Slash => "/",
            Operator::Sqrt => "sqrt",
        }
    }
}

/// Mathematical mirror of [`ParsedToken`].
pub enum SpecParsedToken {
    Operand(SpecExpr),
    Operator(Operator),
}

/// One entry of the parser's working stack: either a finished operand
/// subtree or an operator still waiting for its operands.
#[derive(Debug)]
pub enum ParsedToken {
    Operand(ArithmeticExpression),
    Operator(Operator),
}

impl View for ParsedToken {
    type V = SpecParsedToken;

    open spec fn view(&self) -> SpecParsedToken {
        match self {
            ParsedToken::Operand(e) => SpecParsedToken::Operand(e@),
            ParsedToken::Operator(o) => SpecParsedToken::Operator(*o),
        }
    }
}

/// The mirrors of a sequence of stack entries, in order.
pub open spec fn stack_view(s: Seq<ParsedToken>) -> Seq<SpecParsedToken> {
    s.map_values(|t: ParsedToken| t@)
}

/// Every operand on the stack is a well-formed expression.
pub open spec fn stack_wf(s: Seq<SpecParsedToken>) -> bool {
    forall|i: int|
        0 <= i < s.len() ==> (#[trigger] s[i] is Operand ==> s[i]->Operand_0.wf())
}

impl ParsedToken {
    /// Whether this stack entry is a finished operand.
    pub fn is_operand(&self) -> (r: bool)
        ensures
            r == self is Operand,
    {
        match self {
            ParsedToken::Operand(_) => true,
            _ => false,
        }
    }

    /// Whether this stack entry is an operator.
    pub fn is_operator(&self) -> (r: bool)
        ensures
            r == self is Operator,
    {
        match self {
            ParsedToken::Operator(_) => true,
            _ => false,
        }
    }

    /// Whether this entry's operator accepts `n` operands. Only operators
    /// support this question.
    pub fn is_nary(&self, n: usize) -> (r: bool)
        requires
            self is Operator,
        ensures
            r == self->Operator_0.spec_is_nary(n as int),
    {
        match self {
            ParsedToken::Operator(o) => o.is_nary(n),
            _ => false,
        }
    }
}

/// Remove and return the stack's top entry if it is an operator; leave the
/// stack unchanged otherwise.
pub fn pop_operator(token_stack: &mut Vec<ParsedToken>) -> (r: Option<Operator>)
    ensures
        ({
            let s = old(token_stack)@;
            if s.len() > 0 && s.last() is Operator {
                r == Some(s.last()->Operator_0) && final(token_stack)@ == s.drop_last()
            } else {
                r is None && final(token_stack)@ == s
            }
        }),
{
    let len = token_stack.len();
    if len == 0 {
        return None;
    }
    let can_pop = match &token_stack[len - 1] {
        ParsedToken::Operator(_) => true,
        _ => false,
    };
    if can_pop {
        match token_stack.pop() {
            Some(ParsedToken::Operator(operator)) => Some(operator),
            _ => None,
        }
    } else {
        None
    }
}

/// Remove and return the stack's top entry if it is an operand; leave the
/// stack unchanged otherwise.
pub fn pop_operand(token_stack: &mut Vec<ParsedToken>) -> (r: Option<ArithmeticExpression>)
    ensures
        ({
            let s = old(token_stack)@;
            if s.len() > 0 && s.last() is Operand {
                r == Some(s.last()->Operand_0) && final(token_stack)@ == s.drop_last()
            } else {
                r is None && final(token_stack)@ == s
            }
        }),
{
    let len = token_stack.len();
    if len == 0 {
        return None;
    }
    let can_pop = match &token_stack[len - 1] {
        ParsedToken::Operand(_) => true,
        _ => false,
    };
    if can_pop {
        match token_stack.pop() {
            Some(ParsedToken::Operand(operand)) => Some(operand),
            _ => None,
        }
    } else {
        None
    }
}

} // verus!
