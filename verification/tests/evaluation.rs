use arithmetic_parser::parser::parse_tokens;
use arithmetic_parser::{ArithmeticExpression, EvalError, Operator, VariableTable};

/// Evaluate a parsed tree: the library's verified `check_variables`
/// resolves the variables; the numeric fold below supplies the IEEE-754
/// arithmetic, which the crate keeps out of its verified core.
fn eval(expr: &ArithmeticExpression, vars: &VariableTable) -> Result<f64, String> {
    match expr.check_variables(vars) {
        Ok(()) => Ok(fold(expr, vars)),
        Err(EvalError::UndefinedVariable(name)) => {
            Err(format!("Value for variable {} must be provided", name))
        },
    }
}

fn fold(expr: &ArithmeticExpression, vars: &VariableTable) -> f64 {
    match expr {
        ArithmeticExpression::NumberLeaf(lit) => lit.parse::<f64>().unwrap_or(f64::NAN),
        ArithmeticExpression::VariableLeaf(name) => match vars.get(name.as_str()) {
            Some(bits) => f64::from_bits(bits),
            None => f64::NAN,
        },
        ArithmeticExpression::Node { node, operands } => {
            let mut values = Vec::with_capacity(operands.len());
            for operand in operands {
                values.push(fold(operand, vars));
            }
            apply(node, &values)
        },
    }
}

fn apply(op: &Operator, args: &[f64]) -> f64 {
    match op {
        Operator::Plus => args.iter().sum(),
        Operator::Minus => {
            if args.len() == 1 {
                -args[0]
            } else {
                args[0] - args[1]
            }
        },
        Operator::Star => args[0] * args[1],
        Operator::Slash => args[0] / args[1],
        Operator::Sqrt => args[0].sqrt(),
    }
}

fn table(bindings: &[(&str, f64)]) -> VariableTable {
    let mut t = VariableTable::new();
    for (name, value) in bindings {
        t.insert(name.to_string(), value.to_bits());
    }
    t
}

fn toks(v: &[&str]) -> Vec<String> {
    v.iter().map(|s| s.to_string()).collect()
}

fn eval_text(s: &str, bindings: &[(&str, f64)]) -> Result<f64, String> {
    let expr = ArithmeticExpression::parse(s).map_err(|e| format!("{:?}", e))?;
    eval(&expr, &table(bindings))
}

#[test]
fn test_evaluate() {
    let tokens = toks(&["3"]);
    assert_eq!(
        3_f64,
        eval(&parse_tokens(&tokens).unwrap(), &table(&[])).unwrap()
    );

    let tokens = toks(&["x"]);
    let variables = table(&[("x", 4_f64)]);
    assert_eq!(4_f64, eval(&parse_tokens(&tokens).unwrap(), &variables).unwrap());

    let tokens = toks(&["x", "+", "3"]);
    let variables = table(&[("x", 4_f64)]);
    assert_eq!(7_f64, eval(&parse_tokens(&tokens).unwrap(), &variables).unwrap());

    let tokens = toks(&["(", "x", "+", "3", ")", "*", "4", "+", "(", "4", "+", "y", ")"]);
    let variables = table(&[("x", 4_f64), ("y", 1_f64)]);
    assert_eq!(33_f64, eval(&parse_tokens(&tokens).unwrap(), &variables).unwrap());

    let s = "3 + 4 * (2 + yy / (3-xz) * ((5)))";
    assert_eq!(-9_f64, eval_text(s, &[("xz", 4_f64), ("yy", 1_f64)]).unwrap());

    let s = "-x";
    assert_eq!(-4_f64, eval_text(s, &[("x", 4_f64)]).unwrap());

    let s = "3 * sqrt 4 - 2 * x + +(2,3)";
    assert_eq!(5_f64, eval_text(s, &[("x", 3_f64)]).unwrap());

    let s = "* (3 + x*2, sqrt y - 1)";
    assert_eq!(18_f64, eval_text(s, &[("x", 3_f64), ("y", 9_f64)]).unwrap());

    let s = "3 + sqrt 4 * 2";
    assert_eq!(7_f64, eval_text(s, &[]).unwrap());
}

#[test]
fn literal_expression_ignores_bindings() {
    let expr = ArithmeticExpression::parse("2 + 3 * 4").unwrap();
    let bare = eval(&expr, &table(&[])).unwrap();
    let bound = eval(&expr, &table(&[("x", 7.0), ("y", -2.5)])).unwrap();
    assert_eq!(bare, 14.0);
    assert_eq!(bound, 14.0);
}

#[test]
fn variable_reads_back_exactly() {
    for v in [0.0, 2.5, -4.0, 1.0e300, -1.0e-300, 0.1] {
        let got = eval_text("x", &[("x", v)]).unwrap();
        assert_eq!(got.to_bits(), v.to_bits());
    }
}

#[test]
fn unbalanced_parentheses_always_fail() {
    for s in ["(", ")", "(2 + 3", "2 + 3)", "((1)", "(1))", "a)b(", "+(2,3", "()()("] {
        assert!(ArithmeticExpression::parse(s).is_err(), "input {:?}", s);
    }
}

#[test]
fn precedence_of_product_over_sum() {
    assert_eq!(14_f64, eval_text("2 + 3 * 4", &[]).unwrap());
}

#[test]
fn equal_precedence_binds_left_to_right() {
    assert_eq!(3_f64, eval_text("8 - 3 - 2", &[]).unwrap());
}

#[test]
fn grouping_overrides_precedence() {
    assert_eq!(20_f64, eval_text("(2 + 3) * 4", &[]).unwrap());
}

#[test]
fn nary_prefix_sum() {
    assert_eq!(9_f64, eval_text("+(2,3,4)", &[]).unwrap());
}

#[test]
fn unary_forms() {
    assert_eq!(-4_f64, eval_text("-x", &[("x", 4_f64)]).unwrap());
    assert_eq!(2_f64, eval_text("sqrt 4", &[]).unwrap());
}

#[test]
fn missing_variable_is_reported() {
    let expr = ArithmeticExpression::parse("x").unwrap();
    let err = expr.check_variables(&table(&[])).unwrap_err();
    assert!(matches!(err, EvalError::UndefinedVariable(ref n) if n == "x"));
    let err = eval(&expr, &table(&[])).unwrap_err();
    assert!(err.contains("x"), "error was {:?}", err);
    assert!(table(&[]).get("x").is_none());
}

#[test]
fn first_unbound_variable_in_evaluation_order() {
    let expr = ArithmeticExpression::parse("a + b * c").unwrap();
    let err = expr.check_variables(&table(&[("a", 1.0)])).unwrap_err();
    assert!(matches!(err, EvalError::UndefinedVariable(ref n) if n == "b"));
    let err = expr.check_variables(&table(&[("a", 1.0), ("b", 2.0)])).unwrap_err();
    assert!(matches!(err, EvalError::UndefinedVariable(ref n) if n == "c"));
    let err = expr.check_variables(&table(&[("b", 2.0), ("c", 3.0)])).unwrap_err();
    assert!(matches!(err, EvalError::UndefinedVariable(ref n) if n == "a"));
    assert!(expr.check_variables(&table(&[("a", 1.0), ("b", 2.0), ("c", 3.0)])).is_ok());
}

#[test]
fn variable_check_ignores_unused_bindings() {
    let expr = ArithmeticExpression::parse("2 + 3 * 4").unwrap();
    assert!(expr.check_variables(&table(&[])).is_ok());
    assert!(expr.check_variables(&table(&[("x", 7.0)])).is_ok());
    let expr = ArithmeticExpression::parse("x + 1").unwrap();
    assert!(expr.check_variables(&table(&[("x", 1.0), ("unused", 9.0)])).is_ok());
}

#[test]
fn repeated_evaluation_is_stable() {
    let expr = ArithmeticExpression::parse("x / 3 + sqrt 2").unwrap();
    let vars = table(&[("x", 1.0)]);
    let first = eval(&expr, &vars).unwrap();
    let second = eval(&expr, &vars).unwrap();
    assert_eq!(first.to_bits(), second.to_bits());
}

#[test]
fn function_form_arguments_keep_their_order() {
    assert_eq!(5_f64, eval_text("-(8, 3)", &[]).unwrap());
    assert_eq!(4_f64, eval_text("/(8, 2)", &[]).unwrap());
}

#[test]
fn commas_split_only_at_top_level() {
    assert_eq!(9_f64, eval_text("*(+(1,2), 3)", &[]).unwrap());
}

#[test]
fn quotient_of_sum_and_difference() {
    let expr = ArithmeticExpression::parse("(x+y)/(x-y)").unwrap();
    let vars = table(&[("x", 5_f64), ("y", 1_f64)]);
    assert_eq!(1.5, eval(&expr, &vars).unwrap());
}

#[test]
fn division_by_zero_follows_ieee() {
    assert_eq!(f64::INFINITY, eval_text("1 / 0", &[]).unwrap());
    assert!(eval_text("0 / 0", &[]).unwrap().is_nan());
    assert!(eval_text("sqrt(0 - 4)", &[]).unwrap().is_nan());
}

#[test]
fn composite_expression() {
    let s = "3 + 4 * (2 + yy / (3-xz) * ((5)))";
    assert_eq!(-9_f64, eval_text(s, &[("xz", 4_f64), ("yy", 1_f64)]).unwrap());
}
