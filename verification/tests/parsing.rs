use arithmetic_parser::parser::{find_closing_parenthesis_pos, parse_tokens, try_parse_operator};
use arithmetic_parser::tokenizer::{
    find_restricted_character, is_number_token, tokenize, try_parse_variable,
};
use arithmetic_parser::{
    pop_operand, pop_operator, ArithmeticExpression, Operator, ParseError, ParsedToken,
    VariableTable,
};

fn toks(v: &[&str]) -> Vec<String> {
    v.iter().map(|s| s.to_string()).collect()
}

#[test]
fn test_closing_parenthesis() {
    let tokens = toks(&["a", "(", "(", "f", ")", "(", "b", "fer", ")", ")"]);
    assert_eq!(find_closing_parenthesis_pos(&tokens, 1).unwrap(), 9);

    let tokens = toks(&["a", "(", "(", "f", ")", "(", "b", "fer", ")"]);
    assert!(find_closing_parenthesis_pos(&tokens, 1).is_err());
}

#[test]
fn tokenize_splits_symbols_without_spaces() {
    let tokens = tokenize("1+(2, x3)*sqrt 4");
    let expected = toks(&["1", "+", "(", "2", ",", "x3", ")", "*", "sqrt", "4"]);
    assert_eq!(tokens, expected);
}

#[test]
fn tokenize_empty_and_whitespace() {
    assert!(tokenize("").is_empty());
    assert!(tokenize(" \t\n").is_empty());
}

#[test]
fn tokenize_splits_on_unicode_whitespace() {
    let tokens = tokenize("1\u{000C}+\u{00A0}2\u{2003}y");
    assert_eq!(tokens, toks(&["1", "+", "2", "y"]));
}

#[test]
fn operator_registry() {
    let all = Operator::get_all();
    assert_eq!(all.len(), 5);
    assert_eq!(all[0], Operator::Plus);
    assert_eq!(all[4], Operator::Sqrt);
    assert_eq!(Operator::Plus.get_priority(), 0);
    assert_eq!(Operator::Minus.get_priority(), 0);
    assert_eq!(Operator::Star.get_priority(), 1);
    assert_eq!(Operator::Slash.get_priority(), 1);
    assert_eq!(Operator::Sqrt.get_priority(), 1);
    assert_eq!(Operator::Plus.as_str(), "+");
    assert_eq!(Operator::Sqrt.as_str(), "sqrt");
}

#[test]
fn operator_arities() {
    assert!(!Operator::Plus.is_nary(0));
    assert!(Operator::Plus.is_nary(1));
    assert!(Operator::Plus.is_nary(7));
    assert!(Operator::Minus.is_nary(1));
    assert!(Operator::Minus.is_nary(2));
    assert!(!Operator::Minus.is_nary(3));
    assert!(Operator::Star.is_nary(2));
    assert!(!Operator::Star.is_nary(1));
    assert!(Operator::Slash.is_nary(2));
    assert!(!Operator::Slash.is_nary(3));
    assert!(Operator::Sqrt.is_nary(1));
    assert!(!Operator::Sqrt.is_nary(2));
}

#[test]
fn operator_lookup_by_symbol() {
    assert_eq!(try_parse_operator("+"), Some(Operator::Plus));
    assert_eq!(try_parse_operator("-"), Some(Operator::Minus));
    assert_eq!(try_parse_operator("*"), Some(Operator::Star));
    assert_eq!(try_parse_operator("/"), Some(Operator::Slash));
    assert_eq!(try_parse_operator("sqrt"), Some(Operator::Sqrt));
    assert_eq!(try_parse_operator("sqr"), None);
    assert_eq!(try_parse_operator(""), None);
}

#[test]
fn number_token_grammar() {
    assert!(is_number_token("0"));
    assert!(is_number_token("42"));
    assert!(is_number_token("1.5"));
    assert!(is_number_token(".5"));
    assert!(is_number_token("5."));
    assert!(is_number_token("1e5"));
    assert!(is_number_token("1.5E3"));
    assert!(is_number_token("1.e2"));
    assert!(is_number_token("inf"));
    assert!(is_number_token("Infinity"));
    assert!(is_number_token("NaN"));
    assert!(!is_number_token(""));
    assert!(!is_number_token("."));
    assert!(!is_number_token("1e"));
    assert!(!is_number_token("e5"));
    assert!(!is_number_token("1.2.3"));
    assert!(!is_number_token("x1"));
    assert!(!is_number_token("infinit"));
}

#[test]
fn number_grammar_matches_std_parse() {
    for t in [
        "0", "42", "1.5", ".5", "5.", "1e5", "1.5E3", "1.e2", "inf", "Infinity", "NaN", "", ".",
        "1e", "e5", "1.2.3", "x1", "infinit", "00.1", "9e09",
    ] {
        assert_eq!(is_number_token(t), t.parse::<f64>().is_ok(), "token {:?}", t);
    }
}

#[test]
fn variable_names_are_alphanumeric() {
    assert_eq!(try_parse_variable("x"), Some("x".to_string()));
    assert_eq!(try_parse_variable("Velocity2"), Some("Velocity2".to_string()));
    assert_eq!(try_parse_variable(""), None);
    assert_eq!(try_parse_variable("a_b"), None);
    assert_eq!(try_parse_variable("a b"), None);
}

#[test]
fn restricted_character_search() {
    let s = "ab+cd";
    assert_eq!(find_restricted_character(s, 0, 5), Some(2));
    assert_eq!(find_restricted_character(s, 3, 5), None);
    assert_eq!(find_restricted_character("xyz", 0, 3), None);
    assert_eq!(find_restricted_character("(a)", 0, 3), Some(0));
}

#[test]
fn stack_pops() {
    let mut stack = vec![
        ParsedToken::Operand(ArithmeticExpression::VariableLeaf("x".to_string())),
        ParsedToken::Operator(Operator::Plus),
    ];
    assert!(stack[0].is_operand());
    assert!(stack[1].is_operator());
    assert!(pop_operand(&mut stack).is_none());
    assert_eq!(stack.len(), 2);
    assert_eq!(pop_operator(&mut stack), Some(Operator::Plus));
    assert_eq!(stack.len(), 1);
    assert!(pop_operator(&mut stack).is_none());
    let leaf = pop_operand(&mut stack);
    assert!(matches!(
        leaf,
        Some(ArithmeticExpression::VariableLeaf(ref n)) if n == "x"
    ));
    assert!(stack.is_empty());
}

#[test]
fn parse_builds_expected_tree() {
    let expr = ArithmeticExpression::parse("2 + 3 * 4").unwrap();
    match expr {
        ArithmeticExpression::Node { node, operands } => {
            assert_eq!(node, Operator::Plus);
            assert_eq!(operands.len(), 2);
            assert!(matches!(&operands[0], ArithmeticExpression::NumberLeaf(l) if l == "2"));
            match &operands[1] {
                ArithmeticExpression::Node { node, operands } => {
                    assert_eq!(*node, Operator::Star);
                    assert_eq!(operands.len(), 2);
                    assert!(
                        matches!(&operands[0], ArithmeticExpression::NumberLeaf(l) if l == "3")
                    );
                    assert!(
                        matches!(&operands[1], ArithmeticExpression::NumberLeaf(l) if l == "4")
                    );
                },
                other => panic!("expected a product node, got {:?}", other),
            }
        },
        other => panic!("expected a sum node, got {:?}", other),
    }
}

#[test]
fn error_unparsable_token() {
    let err = ArithmeticExpression::parse("2 + $").unwrap_err();
    assert!(matches!(err, ParseError::UnparsableToken(ref t) if t == "$"));
}

#[test]
fn error_unbalanced_parenthesis() {
    let err = ArithmeticExpression::parse("(2 + 3").unwrap_err();
    assert!(matches!(err, ParseError::UnbalancedParenthesis(0)));
    let err = ArithmeticExpression::parse("2)").unwrap_err();
    assert!(matches!(err, ParseError::UnbalancedParenthesis(1)));
}

#[test]
fn error_invalid_arity() {
    let err = ArithmeticExpression::parse("sqrt(2, 3)").unwrap_err();
    assert!(matches!(err, ParseError::InvalidArity(Operator::Sqrt, 2)));
}

#[test]
fn error_not_infix() {
    let err = ArithmeticExpression::parse("2 sqrt 3").unwrap_err();
    assert!(matches!(err, ParseError::NotInfix(Operator::Sqrt)));
}

#[test]
fn error_malformed_expression() {
    let err = ArithmeticExpression::parse("2 3").unwrap_err();
    assert!(matches!(err, ParseError::MalformedExpression));
}

#[test]
fn error_empty_expression() {
    let err = ArithmeticExpression::parse("").unwrap_err();
    assert!(matches!(err, ParseError::EmptyExpression));
    let err = ArithmeticExpression::parse("()").unwrap_err();
    assert!(matches!(err, ParseError::EmptyExpression));
}

#[test]
fn parse_tokens_accepts_pretokenized_input() {
    let tokens = toks(&["(", "x", "+", "3", ")"]);
    let expr = parse_tokens(&tokens).unwrap();
    assert!(matches!(expr, ArithmeticExpression::Node { .. }));
}

#[test]
fn variable_table_bindings() {
    let mut table = VariableTable::new();
    assert_eq!(table.get("x"), None);
    table.insert("x".to_string(), 4.0f64.to_bits());
    table.insert("y".to_string(), 1.5f64.to_bits());
    assert_eq!(table.get("x"), Some(4.0f64.to_bits()));
    assert_eq!(table.get("y"), Some(1.5f64.to_bits()));
    assert_eq!(table.get("z"), None);
    table.insert("x".to_string(), 7.25f64.to_bits());
    assert_eq!(table.get("x"), Some(7.25f64.to_bits()));
}
