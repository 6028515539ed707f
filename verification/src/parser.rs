//! The expression builder: token classification, parenthesized grouping,
//! and the two-phase operator-precedence reduction over a working stack.
//!
//! Every executable function is specified against the spec-level functions
//! of this module, which state the whole algorithm mathematically: how the
//! token texts are classified, how a parenthesized group is cut out and
//! split at top-level commas, and how the working stack is reduced.

use vstd::prelude::*;
use crate::data_structures::{
    exprs_view, lemma_exprs_view, pop_operand, pop_operator, stack_view, stack_wf,
    ArithmeticExpression, Operator, ParsedToken, SpecExpr, SpecParsedToken,
};
use crate::errors::{ParseError, SpecParseError};
use crate::tokenizer::{
    is_float_literal, is_identifier, is_number_token, str_eq, tokens_view, try_parse_variable,
};

verus! {

/// The text of an opening parenthesis token.
pub open spec fn open_paren_token() -> Seq<char> {
    seq!['(']
}

/// The text of a closing parenthesis token.
pub open spec fn close_paren_token() -> Seq<char> {
    seq![')']
}

/// The text of a comma token.
pub open spec fn comma_token() -> Seq<char> {
    seq![',']
}

/// The operator whose symbol is `t`, if any, tried in registry order.
pub open spec fn spec_operator_of(t: Seq<char>) -> Option<Operator> {
    if t == Operator::Plus.spec_symbol() {
        Some(Operator::Plus)
    } else if t == Operator::Minus.spec_symbol() {
        Some(Operator::Minus)
    } else if t == Operator::Star.spec_symbol() {
        Some(Operator::Star)
    } else if t == Operator::Slash.spec_symbol() {
        Some(Operator::Slash)
    } else if t == Operator::Sqrt.spec_symbol() {
        Some(Operator::Sqrt)
    } else {
        None
    }
}

/// What a single token means: an operator by its symbol; otherwise a
/// numeric literal; otherwise a variable name; otherwise nothing.
pub open spec fn spec_classify(t: Seq<char>) -> Result<SpecParsedToken, SpecParseError> {
    match spec_operator_of(t) {
        Some(op) => Ok(SpecParsedToken::Operator(op)),
        None => if is_float_literal(t) {
            Ok(SpecParsedToken::Operand(SpecExpr::Number(t)))
        } else if is_identifier(t) {
            Ok(SpecParsedToken::Operand(SpecExpr::Variable(t)))
        } else {
            Err(SpecParseError::UnparsableToken(t))
        },
    }
}

/// The position of the closing parenthesis that matches an opening one,
/// scanning from position `i` with `depth` parenthesized levels still
/// open beyond the one being matched.
pub open spec fn spec_find_closing(tokens: Seq<Seq<char>>, i: int, depth: int) -> Option<int>
    decreases tokens.len() - i when 0 <= i <= tokens.len()
{
    if i >= tokens.len() {
        None
    } else if tokens[i] == close_paren_token() {
        if depth == 0 {
            Some(i)
        } else {
            spec_find_closing(tokens, i + 1, depth - 1)
        }
    } else if tokens[i] == open_paren_token() {
        spec_find_closing(tokens, i + 1, depth + 1)
    } else {
        spec_find_closing(tokens, i + 1, depth)
    }
}

pub proof fn lemma_find_closing_bounds(tokens: Seq<Seq<char>>, i: int, depth: int)
    requires
        0 <= i <= tokens.len(),
    ensures
        spec_find_closing(tokens, i, depth) matches Some(j) ==> i <= j < tokens.len()
            && tokens[j] == close_paren_token(),
    decreases tokens.len() - i,
{
    if i < tokens.len() {
        if tokens[i] == close_paren_token() {
            if depth != 0 {
                lemma_find_closing_bounds(tokens, i + 1, depth - 1);
            }
        } else if tokens[i] == open_paren_token() {
            lemma_find_closing_bounds(tokens, i + 1, depth + 1);
        } else {
            lemma_find_closing_bounds(tokens, i + 1, depth);
        }
    }
}

/// The position of the first comma at parenthesis depth zero, scanning
/// from position `i` at depth `depth`.
pub open spec fn spec_find_comma(tokens: Seq<Seq<char>>, i: int, depth: int) -> Option<int>
    decreases tokens.len() - i when 0 <= i <= tokens.len()
{
    if i >= tokens.len() {
        None
    } else if depth == 0 && tokens[i] == comma_token() {
        Some(i)
    } else if tokens[i] == open_paren_token() {
        spec_find_comma(tokens, i + 1, depth + 1)
    } else if tokens[i] == close_paren_token() {
        spec_find_comma(tokens, i + 1, depth - 1)
    } else {
        spec_find_comma(tokens, i + 1, depth)
    }
}

pub proof fn lemma_find_comma_bounds(tokens: Seq<Seq<char>>, i: int, depth: int)
    requires
        0 <= i <= tokens.len(),
    ensures
        spec_find_comma(tokens, i, depth) matches Some(k) ==> i <= k < tokens.len(),
    decreases tokens.len() - i,
{
    if i < tokens.len() {
        if depth == 0 && tokens[i] == comma_token() {
        } else if tokens[i] == open_paren_token() {
            lemma_find_comma_bounds(tokens, i + 1, depth + 1);
        } else if tokens[i] == close_paren_token() {
            lemma_find_comma_bounds(tokens, i + 1, depth - 1);
        } else {
            lemma_find_comma_bounds(tokens, i + 1, depth);
        }
    }
}

/// The position of the last operator on the stack, if any.
pub open spec fn spec_last_operator_pos(stack: Seq<SpecParsedToken>) -> Option<int>
    decreases stack.len(),
{
    if stack.len() == 0 {
        None
    } else if stack.last() is Operator {
        Some(stack.len() - 1)
    } else {
        spec_last_operator_pos(stack.drop_last())
    }
}

pub proof fn lemma_last_operator_pos(stack: Seq<SpecParsedToken>)
    ensures
        spec_last_operator_pos(stack) matches Some(p) ==> 0 <= p < stack.len()
            && stack[p] is Operator && (forall|i: int|
            p < i < stack.len() ==> #[trigger] stack[i] is Operand),
        spec_last_operator_pos(stack) is None ==> forall|i: int|
            0 <= i < stack.len() ==> #[trigger] stack[i] is Operand,
    decreases stack.len(),
{
    if stack.len() > 0 && !(stack.last() is Operator) {
        let prefix = stack.drop_last();
        lemma_last_operator_pos(prefix);
        assert(stack.last() is Operand);
        match spec_last_operator_pos(prefix) {
            Some(p) => {
                assert forall|i: int| p < i < stack.len() implies #[trigger] stack[i]
                    is Operand by {
                    if i < stack.len() - 1 {
                        assert(prefix[i] is Operand);
                        assert(prefix[i] == stack[i]);
                    } else {
                        assert(stack[i] == stack.last());
                    }
                }
            },
            None => {
                assert forall|i: int| 0 <= i < stack.len() implies #[trigger] stack[i]
                    is Operand by {
                    if i < stack.len() - 1 {
                        assert(prefix[i] is Operand);
                        assert(prefix[i] == stack[i]);
                    } else {
                        assert(stack[i] == stack.last());
                    }
                }
            },
        }
    }
}

/// The position of the last operator on the stack, provided it stands in
/// function position: at the bottom of the stack, or directly after
/// another operator.
pub open spec fn spec_function_operator_pos(stack: Seq<SpecParsedToken>) -> Option<int> {
    match spec_last_operator_pos(stack) {
        Some(p) => if p == 0 || stack[p - 1] is Operator {
            Some(p)
        } else {
            None
        },
        None => None,
    }
}

/// The operand subtrees held by a run of operand stack entries.
pub open spec fn spec_operands_of(s: Seq<SpecParsedToken>) -> Seq<SpecExpr> {
    s.map_values(|t: SpecParsedToken| t->Operand_0)
}

/// One function-operator reduction: if the last operator on the stack
/// stands in function position and operands follow it, they become that
/// operator's argument list, in stack order; a count the operator does
/// not accept is an arity error; an operator with nothing after it is
/// left for the enclosing expression to complete.
pub open spec fn spec_resolve_functions(stack: Seq<SpecParsedToken>) -> Result<
    Seq<SpecParsedToken>,
    SpecParseError,
> {
    match spec_function_operator_pos(stack) {
        Some(p) => {
            let n = stack.len() - p - 1;
            if n > 0 {
                let op = stack[p]->Operator_0;
                if op.spec_is_nary(n) {
                    Ok(
                        stack.subrange(0, p).push(
                            SpecParsedToken::Operand(
                                SpecExpr::Apply(
                                    op,
                                    spec_operands_of(stack.subrange(p + 1, stack.len() as int)),
                                ),
                            ),
                        ),
                    )
                } else {
                    Err(SpecParseError::InvalidArity(op, n))
                }
            } else {
                Ok(stack)
            }
        },
        None => Ok(stack),
    }
}

/// Repeated infix reduction: while the stack ends in operand, operator,
/// operand and that operator's priority reaches `minp`, the three entries
/// become one binary node; an operator there that does not accept two
/// operands is an error.
pub open spec fn spec_resolve_infix(stack: Seq<SpecParsedToken>, minp: int) -> Result<
    Seq<SpecParsedToken>,
    SpecParseError,
>
    decreases stack.len(),
{
    let n = stack.len() as int;
    if n >= 3 && stack[n - 3] is Operand && stack[n - 2] is Operator && stack[n - 1] is Operand
        && stack[n - 2]->Operator_0.spec_priority() >= minp {
        let op = stack[n - 2]->Operator_0;
        if op.spec_is_nary(2) {
            let node = SpecExpr::Apply(
                op,
                seq![stack[n - 3]->Operand_0, stack[n - 1]->Operand_0],
            );
            spec_resolve_infix(
                stack.subrange(0, n - 3).push(SpecParsedToken::Operand(node)),
                minp,
            )
        } else {
            Err(SpecParseError::NotInfix(op))
        }
    } else {
        Ok(stack)
    }
}

/// One reduction round: function-operator reduction, then infix
/// reduction under the given minimum priority.
pub open spec fn spec_resolve(stack: Seq<SpecParsedToken>, minp: int) -> Result<
    Seq<SpecParsedToken>,
    SpecParseError,
> {
    match spec_resolve_functions(stack) {
        Ok(s) => spec_resolve_infix(s, minp),
        Err(e) => Err(e),
    }
}

/// Feed the classified tokens onto the stack left to right: an operand is
/// pushed directly; before an operator is pushed, the stack is reduced
/// under that operator's priority.
pub open spec fn spec_push_tokens(
    stack: Seq<SpecParsedToken>,
    pts: Seq<SpecParsedToken>,
) -> Result<Seq<SpecParsedToken>, SpecParseError>
    decreases pts.len(),
{
    if pts.len() == 0 {
        Ok(stack)
    } else {
        match pts.first() {
            SpecParsedToken::Operand(_) => spec_push_tokens(
                stack.push(pts.first()),
                pts.drop_first(),
            ),
            SpecParsedToken::Operator(op) => match spec_resolve(
                stack,
                op.spec_priority() as int,
            ) {
                Ok(s) => spec_push_tokens(s.push(pts.first()), pts.drop_first()),
                Err(e) => Err(e),
            },
        }
    }
}

/// Build one expression from a sequence of classified tokens: feed them
/// all, reduce once more with minimum priority zero, and demand that
/// exactly one operand remains.
pub open spec fn spec_build(pts: Seq<SpecParsedToken>) -> Result<SpecExpr, SpecParseError> {
    match spec_push_tokens(Seq::empty(), pts) {
        Ok(fed) => match spec_resolve(fed, 0) {
            Ok(stack) => if stack.len() == 1 && stack[0] is Operand {
                Ok(stack[0]->Operand_0)
            } else if stack.len() == 0 {
                Err(SpecParseError::EmptyExpression)
            } else {
                Err(SpecParseError::MalformedExpression)
            },
            Err(e) => Err(e),
        },
        Err(e) => Err(e),
    }
}

/// Classify the tokens from position `pos` on: a parenthesized group is
/// cut out at its matching closing parenthesis and replaced by the
/// operands its comma-separated parts parse to; a stray closing
/// parenthesis, and an opening one without match, are unbalanced; every
/// other token stands for itself.
pub open spec fn spec_preliminary(tokens: Seq<Seq<char>>, pos: int) -> Result<
    Seq<SpecParsedToken>,
    SpecParseError,
>
    decreases tokens.len(), 2int, tokens.len() - pos
        when 0 <= pos <= tokens.len()
        via spec_preliminary_decreases
{
    if pos >= tokens.len() {
        Ok(Seq::empty())
    } else if tokens[pos] == open_paren_token() {
        match spec_find_closing(tokens, pos + 1, 0) {
            Some(close) => match spec_parse_group(tokens.subrange(pos + 1, close)) {
                Ok(exprs) => match spec_preliminary(tokens, close + 1) {
                    Ok(rest) => Ok(
                        exprs.map_values(|e: SpecExpr| SpecParsedToken::Operand(e)) + rest,
                    ),
                    Err(e) => Err(e),
                },
                Err(e) => Err(e),
            },
            None => Err(SpecParseError::UnbalancedParenthesis(pos)),
        }
    } else if tokens[pos] == close_paren_token() {
        Err(SpecParseError::UnbalancedParenthesis(pos))
    } else {
        match spec_classify(tokens[pos]) {
            Ok(pt) => match spec_preliminary(tokens, pos + 1) {
                Ok(rest) => Ok(seq![pt] + rest),
                Err(e) => Err(e),
            },
            Err(e) => Err(e),
        }
    }
}

#[via_fn]
proof fn spec_preliminary_decreases(tokens: Seq<Seq<char>>, pos: int) {
    if 0 <= pos < tokens.len() && tokens[pos] == open_paren_token() {
        lemma_find_closing_bounds(tokens, pos + 1, 0);
    }
}

/// The operands of one parenthesized group: its tokens are split at the
/// commas standing at depth zero, and each part is parsed as a full
/// expression of its own.
pub open spec fn spec_parse_group(inner: Seq<Seq<char>>) -> Result<Seq<SpecExpr>, SpecParseError>
    decreases inner.len() + 1, 0int, 0int
        via spec_parse_group_decreases
{
    match spec_find_comma(inner, 0, 0) {
        Some(k) => match spec_parse_tokens(inner.subrange(0, k)) {
            Ok(e) => match spec_parse_group(inner.subrange(k + 1, inner.len() as int)) {
                Ok(rest) => Ok(seq![e] + rest),
                Err(err) => Err(err),
            },
            Err(err) => Err(err),
        },
        None => match spec_parse_tokens(inner) {
            Ok(e) => Ok(seq![e]),
            Err(err) => Err(err),
        },
    }
}

#[via_fn]
proof fn spec_parse_group_decreases(inner: Seq<Seq<char>>) {
    lemma_find_comma_bounds(inner, 0, 0);
}

/// Parse a full token sequence to one expression: classify and group the
/// tokens, then reduce them over the working stack.
pub open spec fn spec_parse_tokens(tokens: Seq<Seq<char>>) -> Result<SpecExpr, SpecParseError>
    decreases tokens.len(), 3int, 0int,
{
    match spec_preliminary(tokens, 0) {
        Ok(pts) => spec_build(pts),
        Err(e) => Err(e),
    }
}

/// Parse a text to one expression: split it into tokens, then parse them.
pub open spec fn spec_parse(s: Seq<char>) -> Result<SpecExpr, SpecParseError> {
    spec_parse_tokens(crate::tokenizer::spec_tokens(s))
}

/// The operator written as `token`, if any, tried in registry order.
pub fn try_parse_operator(token: &str) -> (r: Option<Operator>)
    ensures
        r == spec_operator_of(token@),
{
    let all = Operator::get_all();
    let n = all.len();
    let mut j: usize = 0;
    while j < n
        invariant
            all@ == Operator::spec_all(),
            n == all@.len(),
            0 <= j <= n,
            forall|k: int| 0 <= k < j ==> token@ != (#[trigger] all@[k]).spec_symbol(),
        decreases n - j,
    {
        let op = all[j];
        if str_eq(token, op.as_str()) {
            proof {
                if j == 0 {
                    assert(op == Operator::Plus);
                } else if j == 1 {
                    assert(op == Operator::Minus);
                    assert(all@[0] == Operator::Plus);
                } else if j == 2 {
                    assert(op == Operator::Star);
                    assert(all@[0] == Operator::Plus);
                    assert(all@[1] == Operator::Minus);
                } else if j == 3 {
                    assert(op == Operator::Slash);
                    assert(all@[0] == Operator::Plus);
                    assert(all@[1] == Operator::Minus);
                    assert(all@[2] == Operator::Star);
                } else {
                    assert(op == Operator::Sqrt);
                    assert(all@[0] == Operator::Plus);
                    assert(all@[1] == Operator::Minus);
                    assert(all@[2] == Operator::Star);
                    assert(all@[3] == Operator::Slash);
                }
                assert(spec_operator_of(token@) == Some(op));
            }
            return Some(op);
        }
        j = j + 1;
    }
    proof {
        assert(token@ != Operator::Plus.spec_symbol()) by {
            assert(all@[0] == Operator::Plus);
        }
        assert(token@ != Operator::Minus.spec_symbol()) by {
            assert(all@[1] == Operator::Minus);
        }
        assert(token@ != Operator::Star.spec_symbol()) by {
            assert(all@[2] == Operator::Star);
        }
        assert(token@ != Operator::Slash.spec_symbol()) by {
            assert(all@[3] == Operator::Slash);
        }
        assert(token@ != Operator::Sqrt.spec_symbol()) by {
            assert(all@[4] == Operator::Sqrt);
        }
    }
    None
}

/// Whether the token is an opening parenthesis.
fn is_open_paren(t: &str) -> (r: bool)
    ensures
        r == (t@ == open_paren_token()),
{
    proof {
        reveal_strlit("(");
        assert("("@ =~= open_paren_token());
    }
    str_eq(t, "(")
}

/// Whether the token is a closing parenthesis.
fn is_close_paren(t: &str) -> (r: bool)
    ensures
        r == (t@ == close_paren_token()),
{
    proof {
        reveal_strlit(")");
        assert(")"@ =~= close_paren_token());
    }
    str_eq(t, ")")
}

/// Whether the token is a comma.
fn is_comma(t: &str) -> (r: bool)
    ensures
        r == (t@ == comma_token()),
{
    proof {
        reveal_strlit(",");
        assert(","@ =~= comma_token());
    }
    str_eq(t, ",")
}

/// Position of the closing parenthesis matching the opening one at
/// `pos`, found by depth counting; an unmatched depth at the end of the
/// tokens is an unbalanced-parenthesis error.
pub fn find_closing_parenthesis_pos(tokens: &[String], pos: usize) -> (r: Result<
    usize,
    ParseError,
>)
    requires
        pos < tokens@.len(),
    ensures
        ({
            let toks = tokens_view(tokens@);
            match r {
                Ok(j) => spec_find_closing(toks, pos + 1, 0) == Some(j as int) && pos < j
                    < toks.len(),
                Err(e) => spec_find_closing(toks, pos + 1, 0) is None && e@
                    == SpecParseError::UnbalancedParenthesis(pos as int),
            }
        }),
{
    let len = tokens.len();
    let mut current_pos: usize = pos + 1;
    let mut depth: usize = 0;
    while current_pos < len
        invariant
            len == tokens@.len(),
            pos + 1 <= current_pos <= len,
            depth as int <= current_pos - pos - 1,
            spec_find_closing(tokens_view(tokens@), pos + 1 as int, 0) == spec_find_closing(
                tokens_view(tokens@),
                current_pos as int,
                depth as int,
            ),
        decreases len - current_pos,
    {
        let t = vstd::slice::slice_index_get(tokens, current_pos);
        proof {
            assert(tokens_view(tokens@)[current_pos as int] == t@);
        }
        if is_close_paren(t.as_str()) {
            if depth == 0 {
                return Ok(current_pos);
            }
            depth = depth - 1;
        } else if is_open_paren(t.as_str()) {
            depth = depth + 1;
        }
        current_pos = current_pos + 1;
    }
    Err(ParseError::UnbalancedParenthesis(pos))
}

/// Position of the first comma at parenthesis depth zero among a group's
/// inner tokens.
fn find_group_comma(inner: &[String]) -> (r: Option<usize>)
    ensures
        ({
            let toks = tokens_view(inner@);
            match r {
                Some(k) => spec_find_comma(toks, 0, 0) == Some(k as int) && k < toks.len(),
                None => spec_find_comma(toks, 0, 0) is None,
            }
        }),
{
    let len = inner.len();
    let mut i: usize = 0;
    let mut depth: i128 = 0;
    while i < len
        invariant
            len == inner@.len(),
            0 <= i <= len,
            -(i as int) <= depth as int <= i as int,
            spec_find_comma(tokens_view(inner@), 0, 0) == spec_find_comma(
                tokens_view(inner@),
                i as int,
                depth as int,
            ),
        decreases len - i,
    {
        let t = vstd::slice::slice_index_get(inner, i);
        proof {
            assert(tokens_view(inner@)[i as int] == t@);
        }
        if depth == 0 && is_comma(t.as_str()) {
            return Some(i);
        }
        if is_open_paren(t.as_str()) {
            depth = depth + 1;
        } else if is_close_paren(t.as_str()) {
            depth = depth - 1;
        }
        i = i + 1;
    }
    None
}

/// Classify one token that is no parenthesis and no comma: an operator,
/// a numeric literal, or a variable name.
pub fn try_parse(token: &str) -> (r: Result<ParsedToken, ParseError>)
    ensures
        ({
            match r {
                Ok(pt) => spec_classify(token@) == Ok::<SpecParsedToken, SpecParseError>(pt@)
                    && (pt@ is Operand ==> pt@->Operand_0.wf()),
                Err(e) => spec_classify(token@) == Err::<SpecParsedToken, SpecParseError>(e@),
            }
        }),
{
    match try_parse_operator(token) {
        Some(op) => Ok(ParsedToken::Operator(op)),
        None => {
            if is_number_token(token) {
                Ok(ParsedToken::Operand(ArithmeticExpression::NumberLeaf(token.to_owned())))
            } else {
                match try_parse_variable(token) {
                    Some(name) => Ok(
                        ParsedToken::Operand(ArithmeticExpression::VariableLeaf(name)),
                    ),
                    None => Err(ParseError::UnparsableToken(token.to_owned())),
                }
            }
        },
    }
}

/// Position of the last operator on the stack, provided it is directly
/// preceded by another operator or stands at the bottom of the stack.
pub fn find_last_function_operator_pos(token_stack: &[ParsedToken]) -> (r: Option<usize>)
    ensures
        ({
            let s = stack_view(token_stack@);
            match r {
                Some(p) => spec_function_operator_pos(s) == Some(p as int) && p < s.len(),
                None => spec_function_operator_pos(s) is None,
            }
        }),
{
    let ghost s = stack_view(token_stack@);
    let len = token_stack.len();
    let mut i: usize = len;
    proof {
        assert(s.take(len as int) =~= s);
    }
    while i > 0
        invariant
            i <= len,
            len == token_stack@.len(),
            s == stack_view(token_stack@),
            spec_last_operator_pos(s) == spec_last_operator_pos(s.take(i as int)),
        decreases i,
    {
        let entry = vstd::slice::slice_index_get(token_stack, i - 1);
        proof {
            assert(s.take(i as int).last() == s[i - 1]);
            assert(s[i - 1] == entry@);
        }
        if entry.is_operator() {
            let p = i - 1;
            proof {
                assert(spec_last_operator_pos(s) == Some(p as int));
            }
            if p == 0 {
                return Some(p);
            }
            let prev = vstd::slice::slice_index_get(token_stack, p - 1);
            proof {
                assert(s[p - 1] == prev@);
            }
            if prev.is_operator() {
                return Some(p);
            }
            return None;
        }
        proof {
            assert(s.take(i as int).drop_last() =~= s.take(i - 1));
        }
        i = i - 1;
    }
    proof {
        assert(s.take(0).len() == 0);
    }
    None
}

/// One function-operator reduction on the stack, as
/// [`spec_resolve_functions`] describes it.
pub fn resolve_function_operators(token_stack: &mut Vec<ParsedToken>) -> (r: Result<
    (),
    ParseError,
>)
    ensures
        ({
            let s0 = stack_view(old(token_stack)@);
            match r {
                Ok(u) => spec_resolve_functions(s0) == Ok::<Seq<SpecParsedToken>, SpecParseError>(
                    stack_view(final(token_stack)@),
                ) && (stack_wf(s0) ==> stack_wf(stack_view(final(token_stack)@))),
                Err(e) => spec_resolve_functions(s0) == Err::<Seq<SpecParsedToken>, SpecParseError>(
                    e@,
                ) && final(token_stack)@ == old(token_stack)@,
            }
        }),
{
    let ghost s0 = stack_view(token_stack@);
    let ghost orig = token_stack@;
    let pos_opt = find_last_function_operator_pos(token_stack.as_slice());
    match pos_opt {
        None => Ok(()),
        Some(pos) => {
            proof {
                lemma_last_operator_pos(s0);
            }
            let len = token_stack.len();
            let num_operands = len - pos - 1;
            if num_operands > 0 {
                let op: Operator = match &token_stack[pos] {
                    ParsedToken::Operator(o) => *o,
                    _ => Operator::Plus,
                };
                proof {
                    assert(s0[pos as int] == orig[pos as int]@);
                    assert(s0[pos as int]->Operator_0 == op);
                }
                let nary_ok = token_stack[pos].is_nary(num_operands);
                if nary_ok {
                    let mut operands: Vec<ArithmeticExpression> = Vec::new();
                    let mut k: usize = 0;
                    proof {
                        assert(token_stack@ =~= orig.take(len - k));
                    }
                    while k < num_operands
                        invariant
                            k <= num_operands,
                            num_operands == len - pos - 1,
                            len == orig.len(),
                            pos < len,
                            s0 == stack_view(orig),
                            forall|j: int|
                                pos < j < len ==> #[trigger] s0[j] is Operand,
                            token_stack@ == orig.take(len - k),
                            operands@.len() == k,
                            forall|j: int|
                                0 <= j < k ==> orig[len - k + j] is Operand && #[trigger] operands@[j]
                                    == orig[len - k + j]->Operand_0,
                        decreases num_operands - k,
                    {
                        proof {
                            assert(token_stack@.last() == orig[len - k - 1]);
                            assert(s0[len - k - 1] == orig[len - k - 1]@);
                            assert(s0[len - k - 1] is Operand);
                            assert(orig[len - k - 1] is Operand);
                        }
                        let ghost operands_pre = operands@;
                        match pop_operand(token_stack) {
                            Some(operand) => {
                                operands.insert(0, operand);
                                proof {
                                    assert(operands@ =~= seq![operand].add(operands_pre));
                                    assert(token_stack@ =~= orig.take(len - k - 1));
                                }
                            },
                            None => {
                                proof {
                                    assert(false);
                                }
                                return Err(ParseError::MalformedExpression);
                            },
                        }
                        k = k + 1;
                    }
                    proof {
                        assert(token_stack@.last() == orig[pos as int]);
                        assert(orig[pos as int] is Operator);
                    }
                    let operator: Operator = match pop_operator(token_stack) {
                        Some(o) => o,
                        None => op,
                    };
                    proof {
                        assert(operator == op);
                        assert(token_stack@ =~= orig.take(pos as int));
                    }
                    let ghost args = exprs_view(operands@);
                    proof {
                        lemma_exprs_view(operands@);
                        assert(args =~= spec_operands_of(s0.subrange(pos + 1, len as int)));
                    }
                    token_stack.push(
                        ParsedToken::Operand(
                            ArithmeticExpression::Node { node: operator, operands },
                        ),
                    );
                    proof {
                        assert(stack_view(token_stack@) =~= s0.subrange(0, pos as int).push(
                            SpecParsedToken::Operand(SpecExpr::Apply(op, args)),
                        )) by {
                            assert(stack_view(orig.take(pos as int)) =~= s0.subrange(
                                0,
                                pos as int,
                            ));
                        }
                        if stack_wf(s0) {
                            assert forall|i: int|
                                0 <= i < stack_view(token_stack@).len() && #[trigger] stack_view(
                                    token_stack@,
                                )[i] is Operand implies stack_view(token_stack@)[i]->Operand_0.wf()
                            by {
                                if i < pos {
                                    assert(stack_view(token_stack@)[i] == s0[i]);
                                } else {
                                    assert(stack_view(token_stack@)[i]
                                        == SpecParsedToken::Operand(SpecExpr::Apply(op, args)));
                                    assert forall|j: int| 0 <= j < args.len() implies #[trigger] args[j].wf()
                                    by {
                                        assert(args[j] == spec_operands_of(
                                            s0.subrange(pos + 1, len as int),
                                        )[j]);
                                        assert(s0[pos + 1 + j] is Operand);
                                        assert(s0[pos + 1 + j]->Operand_0.wf());
                                    }
                                    assert(SpecExpr::Apply(op, args).wf());
                                }
                            }
                        }
                    }
                    Ok(())
                } else {
                    Err(ParseError::InvalidArity(op, num_operands))
                }
            } else {
                Ok(())
            }
        },
    }
}

/// Repeated infix reduction on the stack under `minimum_priority`, as
/// [`spec_resolve_infix`] describes it.
pub fn resolve_infix_operators(token_stack: &mut Vec<ParsedToken>, minimum_priority: u8) -> (r:
    Result<(), ParseError>)
    ensures
        ({
            let s0 = stack_view(old(token_stack)@);
            match r {
                Ok(u) => spec_resolve_infix(s0, minimum_priority as int) == Ok::<
                    Seq<SpecParsedToken>,
                    SpecParseError,
                >(stack_view(final(token_stack)@)) && (stack_wf(s0) ==> stack_wf(
                    stack_view(final(token_stack)@),
                )),
                Err(e) => spec_resolve_infix(s0, minimum_priority as int) == Err::<
                    Seq<SpecParsedToken>,
                    SpecParseError,
                >(e@),
            }
        }),
    decreases token_stack@.len(),
{
    let ghost s0 = stack_view(token_stack@);
    let ghost orig = token_stack@;
    let stack_length = token_stack.len();
    if stack_length >= 3 {
        let left_ok = token_stack[stack_length - 3].is_operand();
        let op_ok = token_stack[stack_length - 2].is_operator();
        let right_ok = token_stack[stack_length - 1].is_operand();
        proof {
            assert(s0[stack_length - 3] == orig[stack_length - 3]@);
            assert(s0[stack_length - 2] == orig[stack_length - 2]@);
            assert(s0[stack_length - 1] == orig[stack_length - 1]@);
        }
        if left_ok && op_ok && right_ok {
            let priority = match &token_stack[stack_length - 2] {
                ParsedToken::Operator(operator) => operator.get_priority(),
                _ => 0,
            };
            if priority >= minimum_priority {
                let right_operand = match pop_operand(token_stack) {
                    Some(e) => e,
                    None => {
                        return Err(ParseError::MalformedExpression);
                    },
                };
                let operator = match pop_operator(token_stack) {
                    Some(o) => o,
                    None => {
                        return Err(ParseError::MalformedExpression);
                    },
                };
                let left_operand = match pop_operand(token_stack) {
                    Some(e) => e,
                    None => {
                        return Err(ParseError::MalformedExpression);
                    },
                };
                if !operator.is_nary(2) {
                    return Err(ParseError::NotInfix(operator));
                }
                let ghost node = SpecExpr::Apply(
                    operator,
                    seq![s0[stack_length - 3]->Operand_0, s0[stack_length - 1]->Operand_0],
                );
                let operands_vec = vec![left_operand, right_operand];
                proof {
                    lemma_exprs_view(operands_vec@);
                    assert(exprs_view(operands_vec@) =~= seq![
                        s0[stack_length - 3]->Operand_0,
                        s0[stack_length - 1]->Operand_0,
                    ]);
                }
                token_stack.push(
                    ParsedToken::Operand(
                        ArithmeticExpression::Node { node: operator, operands: operands_vec },
                    ),
                );
                let ghost s1 = stack_view(token_stack@);
                proof {
                    assert(s1 =~= s0.subrange(0, stack_length - 3).push(
                        SpecParsedToken::Operand(node),
                    )) by {
                        assert(token_stack@ =~= orig.take(stack_length - 3).push(
                            token_stack@.last(),
                        ));
                    }
                    if stack_wf(s0) {
                        assert forall|i: int|
                            0 <= i < s1.len() && #[trigger] s1[i] is Operand implies s1[i]->Operand_0.wf()
                        by {
                            if i < stack_length - 3 {
                                assert(s1[i] == s0[i]);
                            } else {
                                assert(s1[i] == SpecParsedToken::Operand(node));
                                assert(s0[stack_length - 3]->Operand_0.wf());
                                assert(s0[stack_length - 1]->Operand_0.wf());
                                assert forall|j: int|
                                    0 <= j < node->Apply_1.len() implies #[trigger] node->Apply_1[j].wf()
                                by {
                                }
                                assert(node.wf());
                            }
                        }
                    }
                }
                resolve_infix_operators(token_stack, minimum_priority)
            } else {
                Ok(())
            }
        } else {
            Ok(())
        }
    } else {
        Ok(())
    }
}

/// The classified tokens `pre`, followed by whatever `r` yields.
pub open spec fn spec_prepend(
    pre: Seq<SpecParsedToken>,
    r: Result<Seq<SpecParsedToken>, SpecParseError>,
) -> Result<Seq<SpecParsedToken>, SpecParseError> {
    match r {
        Ok(s) => Ok(pre + s),
        Err(e) => Err(e),
    }
}

/// The operands of a group, wrapped as stack entries.
pub open spec fn spec_wrap_operands(es: Seq<SpecExpr>) -> Seq<SpecParsedToken> {
    es.map_values(|e: SpecExpr| SpecParsedToken::Operand(e))
}

/// Parse the comma-separated parts of one parenthesized group, appending
/// each part's expression to `out` as an operand entry.
pub fn parse_group(inner: &[String], out: &mut Vec<ParsedToken>) -> (r: Result<(), ParseError>)
    ensures
        ({
            let it = tokens_view(inner@);
            match r {
                Ok(u) => spec_parse_group(it) matches Ok(es) && stack_view(final(out)@)
                    == stack_view(old(out)@) + spec_wrap_operands(es) && (forall|i: int|
                    0 <= i < es.len() ==> #[trigger] es[i].wf()),
                Err(e) => spec_parse_group(it) == Err::<Seq<SpecExpr>, SpecParseError>(e@),
            }
        }),
    decreases inner@.len() + 1, 0int, 0int,
{
    let ghost it = tokens_view(inner@);
    let ghost out0 = stack_view(out@);
    match find_group_comma(inner) {
        None => {
            let e = match parse_tokens(inner) {
                Ok(e) => e,
                Err(err) => {
                    return Err(err);
                },
            };
            out.push(ParsedToken::Operand(e));
            proof {
                assert(stack_view(out@) =~= out0 + spec_wrap_operands(seq![e@]));
            }
            Ok(())
        },
        Some(k) => {
            let inner_len = inner.len();
            proof {
                assert(tokens_view(inner@).len() == inner@.len());
                assert(k < inner_len);
            }
            let seg = vstd::slice::slice_subrange(inner, 0, k);
            proof {
                assert(tokens_view(seg@) =~= it.subrange(0, k as int));
            }
            let e = match parse_tokens(seg) {
                Ok(e) => e,
                Err(err) => {
                    return Err(err);
                },
            };
            out.push(ParsedToken::Operand(e));
            let ghost out1 = stack_view(out@);
            proof {
                assert(out1 =~= out0 + spec_wrap_operands(seq![e@]));
            }
            proof {
                assert(tokens_view(inner@).len() == inner@.len());
            }
            let rest = vstd::slice::slice_subrange(inner, k + 1, inner_len);
            proof {
                assert(tokens_view(rest@) =~= it.subrange(k + 1, it.len() as int));
            }
            match parse_group(rest, out) {
                Ok(u) => {
                    proof {
                        let es_rest = spec_parse_group(tokens_view(rest@))->Ok_0;
                        let es = spec_parse_group(it)->Ok_0;
                        assert(es =~= seq![e@] + es_rest);
                        assert(spec_wrap_operands(es) =~= spec_wrap_operands(seq![e@])
                            + spec_wrap_operands(es_rest));
                        assert(stack_view(out@) =~= out0 + spec_wrap_operands(es));
                    }
                    Ok(())
                },
                Err(err) => Err(err),
            }
        },
    }
}

/// Classify the tokens left to right, replacing each parenthesized group
/// by the operands of its comma-separated parts.
pub fn preliminary_parse(tokens: &[String]) -> (r: Result<Vec<ParsedToken>, ParseError>)
    ensures
        ({
            let toks = tokens_view(tokens@);
            match r {
                Ok(pts) => spec_preliminary(toks, 0) == Ok::<Seq<SpecParsedToken>, SpecParseError>(
                    stack_view(pts@),
                ) && stack_wf(stack_view(pts@)),
                Err(e) => spec_preliminary(toks, 0) == Err::<Seq<SpecParsedToken>, SpecParseError>(
                    e@,
                ),
            }
        }),
    decreases tokens@.len(), 2int, 0int,
{
    let ghost toks = tokens_view(tokens@);
    let tokens_len = tokens.len();
    let mut current_pos: usize = 0;
    let mut result: Vec<ParsedToken> = Vec::new();
    proof {
        assert(stack_view(result@) =~= Seq::<SpecParsedToken>::empty());
        match spec_preliminary(toks, 0) {
            Ok(s) => {
                assert(Seq::<SpecParsedToken>::empty() + s =~= s);
            },
            Err(e) => {},
        }
    }
    while current_pos < tokens_len
        invariant
            toks == tokens_view(tokens@),
            tokens_len == tokens@.len(),
            0 <= current_pos <= tokens_len,
            spec_preliminary(toks, 0) == spec_prepend(
                stack_view(result@),
                spec_preliminary(toks, current_pos as int),
            ),
            stack_wf(stack_view(result@)),
        decreases tokens_len - current_pos,
    {
        let ghost result_pre = stack_view(result@);
        let t = vstd::slice::slice_index_get(tokens, current_pos);
        proof {
            assert(toks[current_pos as int] == t@);
        }
        if is_open_paren(t.as_str()) {
            let closing_parenthesis_pos = match find_closing_parenthesis_pos(tokens, current_pos) {
                Ok(c) => c,
                Err(e) => {
                    return Err(e);
                },
            };
            let inner = vstd::slice::slice_subrange(
                tokens,
                current_pos + 1,
                closing_parenthesis_pos,
            );
            proof {
                assert(tokens_view(inner@) =~= toks.subrange(
                    current_pos + 1,
                    closing_parenthesis_pos as int,
                ));
            }
            match parse_group(inner, &mut result) {
                Ok(u) => {},
                Err(e) => {
                    return Err(e);
                },
            }
            proof {
                let es = spec_parse_group(tokens_view(inner@))->Ok_0;
                match spec_preliminary(toks, closing_parenthesis_pos + 1) {
                    Ok(rest) => {
                        assert(spec_preliminary(toks, current_pos as int) == Ok::<
                            Seq<SpecParsedToken>,
                            SpecParseError,
                        >(spec_wrap_operands(es) + rest));
                        assert(result_pre + (spec_wrap_operands(es) + rest) =~= (result_pre
                            + spec_wrap_operands(es)) + rest);
                    },
                    Err(e) => {},
                }
            }
            current_pos = closing_parenthesis_pos + 1;
        } else if is_close_paren(t.as_str()) {
            return Err(ParseError::UnbalancedParenthesis(current_pos));
        } else {
            let parsed_token = match try_parse(t.as_str()) {
                Ok(pt) => pt,
                Err(e) => {
                    return Err(e);
                },
            };
            result.push(parsed_token);
            proof {
                let pt = spec_classify(toks[current_pos as int])->Ok_0;
                match spec_preliminary(toks, current_pos + 1) {
                    Ok(rest) => {
                        assert(spec_preliminary(toks, current_pos as int) == Ok::<
                            Seq<SpecParsedToken>,
                            SpecParseError,
                        >(seq![pt] + rest));
                        assert(stack_view(result@) =~= result_pre.push(pt));
                        assert(result_pre + (seq![pt] + rest) =~= (result_pre.push(pt)) + rest);
                    },
                    Err(e) => {},
                }
            }
            current_pos = current_pos + 1;
        }
    }
    proof {
        match spec_preliminary(toks, 0) {
            Ok(s) => {
                assert(stack_view(result@) + Seq::<SpecParsedToken>::empty() =~= stack_view(
                    result@,
                ));
            },
            Err(e) => {},
        }
    }
    Ok(result)
}

/// Parse a full token sequence to one expression: classify and group the
/// tokens, then feed them through the working stack and demand that one
/// operand remains.
pub fn parse_tokens(tokens: &[String]) -> (r: Result<ArithmeticExpression, ParseError>)
    ensures
        ({
            let toks = tokens_view(tokens@);
            match r {
                Ok(e) => spec_parse_tokens(toks) == Ok::<SpecExpr, SpecParseError>(e@) && e@.wf(),
                Err(pe) => spec_parse_tokens(toks) == Err::<SpecExpr, SpecParseError>(pe@),
            }
        }),
    decreases tokens@.len(), 3int, 0int,
{
    let ghost toks = tokens_view(tokens@);
    let mut parsed_tokens = match preliminary_parse(tokens) {
        Ok(v) => v,
        Err(e) => {
            return Err(e);
        },
    };
    let ghost pts0 = stack_view(parsed_tokens@);
    let mut token_stack: Vec<ParsedToken> = Vec::new();
    proof {
        assert(stack_view(token_stack@) =~= Seq::<SpecParsedToken>::empty());
        assert(spec_preliminary(toks, 0) == Ok::<Seq<SpecParsedToken>, SpecParseError>(pts0));
    }
    while parsed_tokens.len() > 0
        invariant
            toks == tokens_view(tokens@),
            spec_preliminary(toks, 0) == Ok::<Seq<SpecParsedToken>, SpecParseError>(pts0),
            spec_push_tokens(Seq::empty(), pts0) == spec_push_tokens(
                stack_view(token_stack@),
                stack_view(parsed_tokens@),
            ),
            stack_wf(stack_view(token_stack@)),
            stack_wf(stack_view(parsed_tokens@)),
        decreases parsed_tokens@.len(),
    {
        let ghost pre_remaining = stack_view(parsed_tokens@);
        let ghost pre_stack = stack_view(token_stack@);
        let parsed_token = parsed_tokens.remove(0);
        proof {
            assert(stack_view(parsed_tokens@) =~= pre_remaining.drop_first());
            assert(parsed_token@ == pre_remaining.first());
            assert forall|i: int|
                0 <= i < stack_view(parsed_tokens@).len() && #[trigger] stack_view(
                    parsed_tokens@,
                )[i] is Operand implies stack_view(parsed_tokens@)[i]->Operand_0.wf() by {
                assert(stack_view(parsed_tokens@)[i] == pre_remaining[i + 1]);
            }
        }
        match parsed_token {
            ParsedToken::Operand(e) => {
                token_stack.push(ParsedToken::Operand(e));
                proof {
                    assert(stack_view(token_stack@) =~= pre_stack.push(pre_remaining.first()));
                }
            },
            ParsedToken::Operator(operator) => {
                let ghost prio = operator.spec_priority() as int;
                proof {
                    assert(pre_remaining.first() == SpecParsedToken::Operator(operator));
                }
                match resolve_operators(&mut token_stack, operator.get_priority()) {
                    Ok(u) => {},
                    Err(e) => {
                        proof {
                            assert(spec_push_tokens(pre_stack, pre_remaining) == Err::<
                                Seq<SpecParsedToken>,
                                SpecParseError,
                            >(e@));
                            assert(spec_push_tokens(Seq::empty(), pts0) == Err::<
                                Seq<SpecParsedToken>,
                                SpecParseError,
                            >(e@));
                            assert(spec_build(pts0) == Err::<SpecExpr, SpecParseError>(e@));
                            assert(spec_parse_tokens(toks) == Err::<SpecExpr, SpecParseError>(
                                e@,
                            ));
                        }
                        return Err(e);
                    },
                }
                let ghost stack1 = stack_view(token_stack@);
                token_stack.push(ParsedToken::Operator(operator));
                proof {
                    assert(spec_resolve(pre_stack, prio) == Ok::<
                        Seq<SpecParsedToken>,
                        SpecParseError,
                    >(stack1));
                    assert(stack_view(token_stack@) =~= stack1.push(pre_remaining.first()));
                    assert(spec_push_tokens(pre_stack, pre_remaining) == spec_push_tokens(
                        stack1.push(pre_remaining.first()),
                        pre_remaining.drop_first(),
                    ));
                }
            },
        }
    }
    proof {
        assert(stack_view(parsed_tokens@).len() == 0);
        assert(stack_view(parsed_tokens@) =~= Seq::<SpecParsedToken>::empty());
    }
    match resolve_operators(&mut token_stack, 0) {
        Ok(u) => {},
        Err(e) => {
            return Err(e);
        },
    }
    let ghost final_stack = stack_view(token_stack@);
    if token_stack.len() == 1 {
        match pop_operand(&mut token_stack) {
            Some(e) => {
                proof {
                    assert(final_stack[0] == final_stack.last());
                }
                Ok(e)
            },
            None => {
                proof {
                    assert(!(final_stack[0] is Operand)) by {
                        assert(final_stack[0] == final_stack.last());
                    }
                }
                Err(ParseError::MalformedExpression)
            },
        }
    } else if token_stack.len() == 0 {
        Err(ParseError::EmptyExpression)
    } else {
        Err(ParseError::MalformedExpression)
    }
}

/// One reduction round: function-operator reduction, then infix
/// reduction under `minimum_priority`.
pub fn resolve_operators(token_stack: &mut Vec<ParsedToken>, minimum_priority: u8) -> (r: Result<
    (),
    ParseError,
>)
    ensures
        ({
            let s0 = stack_view(old(token_stack)@);
            match r {
                Ok(u) => spec_resolve(s0, minimum_priority as int) == Ok::<
                    Seq<SpecParsedToken>,
                    SpecParseError,
                >(stack_view(final(token_stack)@)) && (stack_wf(s0) ==> stack_wf(
                    stack_view(final(token_stack)@),
                )),
                Err(e) => spec_resolve(s0, minimum_priority as int) == Err::<
                    Seq<SpecParsedToken>,
                    SpecParseError,
                >(e@),
            }
        }),
{
    match resolve_function_operators(token_stack) {
        Ok(u) => {},
        Err(e) => {
            return Err(e);
        },
    }
    resolve_infix_operators(token_stack, minimum_priority)
}

} // verus!
