//! Laws of the parser, stated and proved over its spec-level functions.

use vstd::prelude::*;
use crate::data_structures::{Operator, SpecExpr, SpecParsedToken};
use crate::errors::SpecParseError;
use crate::evaluation::{
    spec_first_unbound, spec_first_unbound_seq, spec_has_no_variables, spec_mentions,
};
use crate::parser::{
    close_paren_token, lemma_find_closing_bounds, open_paren_token, spec_build,
    spec_classify, spec_find_closing, spec_last_operator_pos, spec_operator_of, spec_parse,
    spec_preliminary, spec_push_tokens, spec_resolve, spec_resolve_functions, spec_resolve_infix,
};
use crate::tokenizer::{
    digit_run_end, is_float_literal, is_identifier, is_restricted_char, is_ws_char, spec_tokenize,
    spec_tokens,
};

verus! {

/// The smaller of two integers.
pub open spec fn int_min(a: int, b: int) -> int {
    if a < b {
        a
    } else {
        b
    }
}

/// What a token contributes to the parenthesis depth: one level opened,
/// one level closed, or nothing.
pub open spec fn token_delta(t: Seq<char>) -> int {
    if t == open_paren_token() {
        1
    } else if t == close_paren_token() {
        -1
    } else {
        0
    }
}

/// The parenthesis depth after all the tokens.
pub open spec fn paren_total(toks: Seq<Seq<char>>) -> int
    decreases toks.len(),
{
    if toks.len() == 0 {
        0
    } else {
        token_delta(toks.first()) + paren_total(toks.drop_first())
    }
}

/// The least parenthesis depth reached along any prefix of the tokens.
/// It is never positive, since the empty prefix has depth zero.
pub open spec fn paren_min(toks: Seq<Seq<char>>) -> int
    decreases toks.len(),
{
    if toks.len() == 0 {
        0
    } else {
        int_min(0, token_delta(toks.first()) + paren_min(toks.drop_first()))
    }
}

/// Balanced tokens: the depth ends at zero and never drops below zero.
pub open spec fn balanced_tokens(toks: Seq<Seq<char>>) -> bool {
    paren_total(toks) == 0 && paren_min(toks) == 0
}

/// What a character contributes to the parenthesis depth.
pub open spec fn char_delta(c: char) -> int {
    if c == '(' {
        1
    } else if c == ')' {
        -1
    } else {
        0
    }
}

/// The parenthesis depth after all the characters of a text.
pub open spec fn char_total(s: Seq<char>) -> int
    decreases s.len(),
{
    if s.len() == 0 {
        0
    } else {
        char_delta(s.first()) + char_total(s.drop_first())
    }
}

/// The least parenthesis depth reached along any prefix of a text.
pub open spec fn char_min(s: Seq<char>) -> int
    decreases s.len(),
{
    if s.len() == 0 {
        0
    } else {
        int_min(0, char_delta(s.first()) + char_min(s.drop_first()))
    }
}

/// A text whose parentheses are balanced: every opening parenthesis is
/// closed, and no closing parenthesis comes before its opening one.
pub open spec fn balanced_parens(s: Seq<char>) -> bool {
    char_total(s) == 0 && char_min(s) == 0
}

proof fn lemma_paren_min_nonpos(toks: Seq<Seq<char>>)
    ensures
        paren_min(toks) <= 0,
{
}

proof fn lemma_char_min_nonpos(s: Seq<char>)
    ensures
        char_min(s) <= 0,
{
}

/// Depth totals add over concatenation, and the least depth of a
/// concatenation is the least of the first part's and of the second
/// part's shifted by the first part's total.
proof fn lemma_paren_concat(a: Seq<Seq<char>>, b: Seq<Seq<char>>)
    ensures
        paren_total(a + b) == paren_total(a) + paren_total(b),
        paren_min(a + b) == int_min(paren_min(a), paren_total(a) + paren_min(b)),
    decreases a.len(),
{
    lemma_paren_min_nonpos(b);
    if a.len() == 0 {
        assert(a + b =~= b);
    } else {
        assert((a + b).drop_first() =~= a.drop_first() + b);
        assert((a + b).first() == a.first());
        assert((a + b).len() > 0);
        lemma_paren_concat(a.drop_first(), b);
    }
}

proof fn lemma_paren_tokens_distinct()
    ensures
        open_paren_token() != close_paren_token(),
{
    if open_paren_token() == close_paren_token() {
        assert(open_paren_token()[0] == close_paren_token()[0]);
        assert(false);
    }
}

proof fn lemma_paren_singleton(t: Seq<char>)
    ensures
        paren_total(seq![t]) == token_delta(t),
        paren_min(seq![t]) == int_min(0, token_delta(t)),
{
    assert(paren_total(Seq::<Seq<char>>::empty()) == 0);
    assert(paren_min(Seq::<Seq<char>>::empty()) == 0);
    assert(seq![t].drop_first() =~= Seq::<Seq<char>>::empty());
    assert(seq![t].len() == 1);
    assert(seq![t].first() == t);
}

/// Scanning for a matching closing parenthesis with `d` levels still
/// open succeeds exactly on a span whose depth ends at `-d` and never
/// drops below `-d` before its end.
proof fn lemma_find_closing_depths(toks: Seq<Seq<char>>, i: int, d: int)
    requires
        0 <= i <= toks.len(),
        0 <= d,
    ensures
        spec_find_closing(toks, i, d) matches Some(j) ==> paren_total(toks.subrange(i, j)) == -d
            && paren_min(toks.subrange(i, j)) >= -d,
    decreases toks.len() - i,
{
    lemma_paren_tokens_distinct();
    if i < toks.len() {
        let t = toks[i];
        if t == close_paren_token() && d == 0 {
            assert(spec_find_closing(toks, i, d) == Some(i));
            assert(toks.subrange(i, i) =~= Seq::<Seq<char>>::empty());
            assert(paren_total(Seq::<Seq<char>>::empty()) == 0);
            assert(paren_min(Seq::<Seq<char>>::empty()) == 0);
        } else {
            let d2: int = if t == close_paren_token() {
                d - 1
            } else if t == open_paren_token() {
                d + 1
            } else {
                d
            };
            assert(spec_find_closing(toks, i, d) == spec_find_closing(toks, i + 1, d2));
            lemma_find_closing_depths(toks, i + 1, d2);
            match spec_find_closing(toks, i + 1, d2) {
                Some(j) => {
                    lemma_find_closing_bounds(toks, i + 1, d2);
                    assert(toks.subrange(i, j) =~= seq![t] + toks.subrange(i + 1, j));
                    lemma_paren_singleton(t);
                    lemma_paren_concat(seq![t], toks.subrange(i + 1, j));
                    assert(token_delta(t) == d2 - d);
                    assert(paren_total(toks.subrange(i, j)) == (d2 - d) + paren_total(
                        toks.subrange(i + 1, j),
                    ));
                    assert(paren_min(toks.subrange(i, j)) == int_min(
                        int_min(0, d2 - d),
                        (d2 - d) + paren_min(toks.subrange(i + 1, j)),
                    ));
                },
                None => {},
            }
        }
    }
}

/// Whenever token classification and grouping succeed from `pos` on, the
/// tokens from `pos` on are balanced.
proof fn lemma_preliminary_ok_balanced(toks: Seq<Seq<char>>, pos: int)
    requires
        0 <= pos <= toks.len(),
        spec_preliminary(toks, pos) is Ok,
    ensures
        balanced_tokens(toks.skip(pos)),
    decreases toks.len() - pos,
{
    lemma_paren_tokens_distinct();
    if pos == toks.len() {
        assert(toks.skip(pos) =~= Seq::<Seq<char>>::empty());
    } else if toks[pos] == open_paren_token() {
        match spec_find_closing(toks, pos + 1, 0) {
            Some(close) => {
                lemma_find_closing_bounds(toks, pos + 1, 0);
                lemma_find_closing_depths(toks, pos + 1, 0);
                assert(spec_preliminary(toks, close + 1) is Ok);
                lemma_preliminary_ok_balanced(toks, close + 1);
                let a = seq![toks[pos]];
                let b = toks.subrange(pos + 1, close);
                let c = seq![toks[close]];
                let d = toks.skip(close + 1);
                lemma_paren_singleton(toks[pos]);
                lemma_paren_singleton(toks[close]);
                lemma_paren_min_nonpos(b);
                lemma_paren_concat(c, d);
                lemma_paren_concat(b, c + d);
                lemma_paren_concat(a, b + (c + d));
                assert(toks.skip(pos) =~= a + (b + (c + d)));
            },
            None => {
                assert(false);
            },
        }
    } else if toks[pos] == close_paren_token() {
        assert(false);
    } else {
        assert(spec_preliminary(toks, pos + 1) is Ok);
        lemma_preliminary_ok_balanced(toks, pos + 1);
        let t = toks[pos];
        assert(token_delta(t) == 0);
        lemma_paren_singleton(t);
        lemma_paren_concat(seq![t], toks.skip(pos + 1));
        assert(toks.skip(pos) =~= seq![t] + toks.skip(pos + 1));
    }
}

/// The tokenizer neither adds, drops nor reorders parentheses: the depth
/// total and the least depth of the tokens it yields equal those of the
/// text, for any pending chunk free of restricted characters.
proof fn lemma_tokenize_balance(s: Seq<char>, cur: Seq<char>)
    requires
        forall|i: int| 0 <= i < cur.len() ==> !is_restricted_char(#[trigger] cur[i]),
    ensures
        paren_total(spec_tokenize(s, cur)) == char_total(s),
        paren_min(spec_tokenize(s, cur)) == char_min(s),
    decreases s.len(),
{
    assert(token_delta(cur) == 0) by {
        if cur == open_paren_token() {
            assert(is_restricted_char(cur[0]));
        }
        if cur == close_paren_token() {
            assert(is_restricted_char(cur[0]));
        }
    }
    if s.len() == 0 {
        if cur.len() > 0 {
            lemma_paren_singleton(cur);
        }
    } else {
        let c = s[0];
        let rest = s.drop_first();
        assert(s.first() == c);
        lemma_char_min_nonpos(rest);
        if is_ws_char(c) {
            lemma_tokenize_balance(rest, Seq::empty());
            let fl = crate::tokenizer::flush_chunk(cur);
            let r = spec_tokenize(rest, Seq::empty());
            lemma_paren_min_nonpos(r);
            if cur.len() > 0 {
                lemma_paren_singleton(cur);
            }
            lemma_paren_concat(fl, r);
            assert(char_delta(c) == 0);
        } else if is_restricted_char(c) {
            lemma_tokenize_balance(rest, Seq::empty());
            let fl = crate::tokenizer::flush_chunk(cur);
            let sing = seq![seq![c]];
            let r = spec_tokenize(rest, Seq::empty());
            lemma_paren_min_nonpos(r);
            assert(token_delta(seq![c]) == char_delta(c)) by {
                if c == '(' {
                    assert(seq![c] =~= open_paren_token());
                } else {
                    assert(seq![c] != open_paren_token()) by {
                        if seq![c] == open_paren_token() {
                            assert(seq![c][0] == '(');
                        }
                    }
                }
                if c == ')' {
                    assert(seq![c] =~= close_paren_token());
                } else {
                    assert(seq![c] != close_paren_token()) by {
                        if seq![c] == close_paren_token() {
                            assert(seq![c][0] == ')');
                        }
                    }
                }
            }
            lemma_paren_singleton(seq![c]);
            if cur.len() > 0 {
                lemma_paren_singleton(cur);
            }
            lemma_paren_concat(sing, r);
            lemma_paren_concat(fl, sing + r);
            assert(spec_tokenize(s, cur) == fl + sing + r);
            assert(fl + sing + r =~= fl + (sing + r));
        } else {
            assert(forall|i: int|
                0 <= i < cur.push(c).len() ==> !is_restricted_char(#[trigger] cur.push(c)[i]));
            lemma_tokenize_balance(rest, cur.push(c));
            assert(char_delta(c) == 0);
        }
    }
}

/// A text of characters that are neither whitespace nor restricted
/// extends the pending chunk and forms, with it, one single token.
proof fn lemma_tokenize_plain(s: Seq<char>, cur: Seq<char>)
    requires
        forall|i: int| 0 <= i < s.len() ==> !is_ws_char(#[trigger] s[i]) && !is_restricted_char(
            s[i],
        ),
    ensures
        spec_tokenize(s, cur) == crate::tokenizer::flush_chunk(cur + s),
    decreases s.len(),
{
    if s.len() == 0 {
        assert(cur + s =~= cur);
    } else {
        let c = s[0];
        assert(s.first() == c);
        lemma_tokenize_plain(s.drop_first(), cur.push(c));
        assert(cur.push(c) + s.drop_first() =~= cur + s);
    }
}

/// A single token that classifies as an operand parses to exactly that
/// operand.
proof fn lemma_single_token_parse(t: Seq<char>, e: SpecExpr)
    requires
        spec_classify(t) == Ok::<SpecParsedToken, SpecParseError>(SpecParsedToken::Operand(e)),
        t != open_paren_token(),
        t != close_paren_token(),
    ensures
        crate::parser::spec_parse_tokens(seq![t]) == Ok::<SpecExpr, SpecParseError>(e),
{
    let toks = seq![t];
    let pt = SpecParsedToken::Operand(e);
    assert(toks[0] == t);
    assert(spec_preliminary(toks, 1) == Ok::<Seq<SpecParsedToken>, SpecParseError>(Seq::empty()));
    assert(seq![pt] + Seq::<SpecParsedToken>::empty() =~= seq![pt]);
    assert(spec_preliminary(toks, 0) == Ok::<Seq<SpecParsedToken>, SpecParseError>(seq![pt]));
    let pts = seq![pt];
    assert(pts.first() == pt);
    assert(pts.drop_first() =~= Seq::<SpecParsedToken>::empty());
    assert(Seq::<SpecParsedToken>::empty().push(pt) =~= pts);
    assert(spec_push_tokens(Seq::empty(), pts) == spec_push_tokens(pts, Seq::empty()));
    assert(spec_push_tokens(pts, Seq::empty()) == Ok::<Seq<SpecParsedToken>, SpecParseError>(pts));
    assert(pts.last() == pt);
    assert(pts.drop_last() =~= Seq::<SpecParsedToken>::empty());
    assert(spec_last_operator_pos(Seq::<SpecParsedToken>::empty()) is None);
    assert(spec_last_operator_pos(pts) is None);
    assert(spec_resolve_functions(pts) == Ok::<Seq<SpecParsedToken>, SpecParseError>(pts));
    assert(spec_resolve_infix(pts, 0) == Ok::<Seq<SpecParsedToken>, SpecParseError>(pts));
    assert(spec_resolve(pts, 0) == Ok::<Seq<SpecParsedToken>, SpecParseError>(pts));
    assert(spec_build(pts) == Ok::<SpecExpr, SpecParseError>(e));
}

/// Parsing any variable name on its own yields exactly that variable
/// leaf. Together with the contract of [`crate::VariableTable::get`] this
/// is what the verifier sees of resolving a variable: a table that binds
/// the name to a value resolves the parsed leaf to exactly that value.
pub proof fn lemma_parse_identifier(s: Seq<char>)
    requires
        is_identifier(s),
        spec_operator_of(s) is None,
        !is_float_literal(s),
    ensures
        spec_parse(s) == Ok::<SpecExpr, SpecParseError>(SpecExpr::Variable(s)),
{
    assert forall|i: int| 0 <= i < s.len() implies !is_ws_char(#[trigger] s[i])
        && !is_restricted_char(s[i]) by {
        assert(crate::tokenizer::is_alnum_char(s[i]));
    }
    lemma_tokenize_plain(s, Seq::empty());
    assert(Seq::<char>::empty() + s =~= s);
    assert(s.len() > 0);
    assert(spec_tokens(s) == seq![s]);
    assert(s != open_paren_token()) by {
        assert(crate::tokenizer::is_alnum_char(s[0]));
        if s == open_paren_token() {
            assert(s[0] == '(');
        }
    }
    assert(s != close_paren_token()) by {
        assert(crate::tokenizer::is_alnum_char(s[0]));
        if s == close_paren_token() {
            assert(s[0] == ')');
        }
    }
    lemma_single_token_parse(s, SpecExpr::Variable(s));
}

/// Parsing any numeric literal free of sign characters on its own yields
/// exactly that number leaf, holding the literal as written.
pub proof fn lemma_parse_number_literal(s: Seq<char>)
    requires
        is_float_literal(s),
        forall|i: int| 0 <= i < s.len() ==> !is_ws_char(#[trigger] s[i]) && !is_restricted_char(
            s[i],
        ),
    ensures
        spec_parse(s) == Ok::<SpecExpr, SpecParseError>(SpecExpr::Number(s)),
{
    lemma_tokenize_plain(s, Seq::empty());
    assert(Seq::<char>::empty() + s =~= s);
    assert(s.len() > 0) by {
        if s.len() == 0 {
            assert(digit_run_end(s, 0) == 0);
        }
    }
    assert(spec_tokens(s) == seq![s]);
    assert(spec_operator_of(s) is None) by {
        if s == Operator::Plus.spec_symbol() {
            assert(is_restricted_char(s[0]));
        }
        if s == Operator::Minus.spec_symbol() {
            assert(is_restricted_char(s[0]));
        }
        if s == Operator::Star.spec_symbol() {
            assert(is_restricted_char(s[0]));
        }
        if s == Operator::Slash.spec_symbol() {
            assert(is_restricted_char(s[0]));
        }
        if s == Operator::Sqrt.spec_symbol() {
            assert(s.len() == 4);
            assert(s[0] == 's');
            assert(digit_run_end(s, 0) == 0);
            assert(!is_float_literal(s));
        }
    }
    assert(s != open_paren_token()) by {
        if s == open_paren_token() {
            assert(is_restricted_char(s[0]));
        }
    }
    assert(s != close_paren_token()) by {
        if s == close_paren_token() {
            assert(is_restricted_char(s[0]));
        }
    }
    lemma_single_token_parse(s, SpecExpr::Number(s));
}

/// Parsing the one-character text `x` yields the variable leaf `x`.
pub proof fn lemma_parse_single_variable()
    ensures
        spec_parse("x"@) == Ok::<SpecExpr, SpecParseError>(SpecExpr::Variable("x"@)),
{
    reveal_strlit("x");
    let s = "x"@;
    assert(s.len() == 1);
    assert(s[0] == 'x');
    assert(is_identifier(s)) by {
        assert(('x' as u32) == 120);
        assert forall|i: int| 0 <= i < s.len() implies crate::tokenizer::is_alnum_char(
            #[trigger] s[i],
        ) by {
            assert(s[i] == 'x');
        }
    }
    assert(!is_float_literal(s)) by {
        assert(digit_run_end(s, 0) == 0);
    }
    assert(spec_operator_of(s) is None) by {
        if s == Operator::Plus.spec_symbol() {
            assert(s[0] == '+');
        }
        if s == Operator::Minus.spec_symbol() {
            assert(s[0] == '-');
        }
        if s == Operator::Star.spec_symbol() {
            assert(s[0] == '*');
        }
        if s == Operator::Slash.spec_symbol() {
            assert(s[0] == '/');
        }
        if s == Operator::Sqrt.spec_symbol() {
            assert(s.len() == 4);
        }
    }
    lemma_parse_identifier(s);
}

/// Two successful parses of the same text yield the same tree: parsing
/// is a pure function of the input. (Stability of re-evaluation rests on
/// this together with the evaluator being a function of the tree and the
/// table alone.)
pub proof fn lemma_parse_stable(s: Seq<char>, e1: SpecExpr, e2: SpecExpr)
    requires
        spec_parse(s) == Ok::<SpecExpr, SpecParseError>(e1),
        spec_parse(s) == Ok::<SpecExpr, SpecParseError>(e2),
    ensures
        e1 == e2,
{
}

/// Resolving a tree's variables reads the table only at the names the
/// tree mentions: two tables that bind the same mentioned names (each
/// either in both tables or in neither) find the same first unbound
/// variable, or none.
pub proof fn lemma_first_unbound_mentions_only(
    e: SpecExpr,
    m1: Map<Seq<char>, u64>,
    m2: Map<Seq<char>, u64>,
)
    requires
        forall|x: Seq<char>| #[trigger] spec_mentions(e, x) ==> (m1.contains_key(x)
            <==> m2.contains_key(x)),
    ensures
        spec_first_unbound(e, m1) == spec_first_unbound(e, m2),
    decreases e,
{
    match e {
        SpecExpr::Number(s) => {},
        SpecExpr::Variable(y) => {
            assert(spec_mentions(e, y));
        },
        SpecExpr::Apply(op, args) => {
            assert forall|j: int, x: Seq<char>|
                0 <= j < args.len() && #[trigger] spec_mentions(args[j], x) implies (
            m1.contains_key(x) <==> m2.contains_key(x)) by {
                assert(spec_mentions(e, x));
            }
            lemma_first_unbound_seq_mentions_only(args, m1, m2);
        },
    }
}

proof fn lemma_first_unbound_seq_mentions_only(
    es: Seq<SpecExpr>,
    m1: Map<Seq<char>, u64>,
    m2: Map<Seq<char>, u64>,
)
    requires
        forall|j: int, x: Seq<char>|
            0 <= j < es.len() && #[trigger] spec_mentions(es[j], x) ==> (m1.contains_key(x)
                <==> m2.contains_key(x)),
    ensures
        spec_first_unbound_seq(es, m1) == spec_first_unbound_seq(es, m2),
    decreases es,
{
    if es.len() > 0 {
        assert(es.first() == es[0]);
        assert forall|x: Seq<char>| #[trigger] spec_mentions(es.first(), x) implies (
        m1.contains_key(x) <==> m2.contains_key(x)) by {
            assert(spec_mentions(es[0], x));
        }
        lemma_first_unbound_mentions_only(es.first(), m1, m2);
        let rest = es.drop_first();
        assert forall|j: int, x: Seq<char>|
            0 <= j < rest.len() && #[trigger] spec_mentions(rest[j], x) implies (
        m1.contains_key(x) <==> m2.contains_key(x)) by {
            assert(rest[j] == es[j + 1]);
            assert(spec_mentions(es[j + 1], x));
        }
        lemma_first_unbound_seq_mentions_only(rest, m1, m2);
    }
}

/// A tree of numeric literals alone resolves against every table: the
/// outcome of the variable check is independent of the bindings
/// supplied.
pub proof fn lemma_literal_only_ignores_table(e: SpecExpr, vars: Map<Seq<char>, u64>)
    requires
        spec_has_no_variables(e),
    ensures
        spec_first_unbound(e, vars) is None,
    decreases e,
{
    match e {
        SpecExpr::Number(s) => {},
        SpecExpr::Variable(y) => {},
        SpecExpr::Apply(op, args) => {
            lemma_literal_only_seq(args, vars);
        },
    }
}

proof fn lemma_literal_only_seq(es: Seq<SpecExpr>, vars: Map<Seq<char>, u64>)
    requires
        forall|i: int| 0 <= i < es.len() ==> spec_has_no_variables(#[trigger] es[i]),
    ensures
        spec_first_unbound_seq(es, vars) is None,
    decreases es,
{
    if es.len() > 0 {
        assert(es.first() == es[0]);
        lemma_literal_only_ignores_table(es.first(), vars);
        let rest = es.drop_first();
        assert forall|i: int| 0 <= i < rest.len() implies spec_has_no_variables(
            #[trigger] rest[i],
        ) by {
            assert(rest[i] == es[i + 1]);
        }
        lemma_literal_only_seq(rest, vars);
    }
}

/// Parsing any text whose parentheses are unbalanced yields an error,
/// whatever else the text holds.
pub proof fn lemma_unbalanced_parentheses_rejected(s: Seq<char>)
    requires
        !balanced_parens(s),
    ensures
        spec_parse(s) is Err,
{
    lemma_tokenize_balance(s, Seq::empty());
    let toks = spec_tokens(s);
    assert(!balanced_tokens(toks));
    if spec_preliminary(toks, 0) is Ok {
        lemma_preliminary_ok_balanced(toks, 0);
        assert(toks.skip(0) =~= toks);
        assert(false);
    }
}

} // verus!
