use expreval::ast::ASTNode;
use expreval::ast::get_ast;
use expreval::errors::EvalError;
use expreval::keywords::ConstantName;
use expreval::keywords::FunctionName;
use expreval::tokenize::Additive;
use expreval::tokenize::Multiplicative;
use expreval::tokenize::Operator;
use expreval::tokenize::Token;
use expreval::tokenize::parse_expression;

/// Evaluates the tree with `f64` arithmetic.  The verified crate keeps
/// numbers symbolic (literal text, constant names), so the tests supply
/// the floating-point half of the pipeline.
fn evaluate_ast(ast: &ASTNode) -> f64 {
    match &ast.token {
        Token::Number(lit) => lit.parse::<f64>().unwrap(),
        Token::Constant(ConstantName::Pi) => std::f64::consts::PI,
        Token::Constant(ConstantName::E) => std::f64::consts::E,
        Token::Function(f, _) => {
            let args: Vec<f64> = ast.children.iter().map(evaluate_ast).collect();
            match f.name {
                FunctionName::Sin => args[0].sin(),
                FunctionName::Cos => args[0].cos(),
                FunctionName::Tan => args[0].tan(),
                FunctionName::Arcsin => args[0].asin(),
                FunctionName::Arccos => args[0].acos(),
                FunctionName::Arctan => args[0].atan(),
                FunctionName::Log => args[1].log(args[0]),
                FunctionName::Ln => args[0].ln(),
                FunctionName::Sqrt => args[0].sqrt(),
            }
        }
        Token::Operator(op) => {
            let left = evaluate_ast(&ast.children[0]);
            let right = evaluate_ast(&ast.children[1]);
            match op {
                Operator::Additive(Additive::Add) => left + right,
                Operator::Additive(Additive::Subtract) => left - right,
                Operator::Multiplicative(Multiplicative::Multiply) => left * right,
                Operator::Multiplicative(Multiplicative::Divide) => left / right,
                Operator::Exponential => left.powf(right),
            }
        }
        _ => panic!("invalid tree node"),
    }
}

/// Evaluates the given expression through the verified front end.
fn evaluate_expression(expr: &str) -> Result<f64, EvalError> {
    let tokens = parse_expression(expr)?;
    let ast = get_ast(&tokens)?;
    Ok(evaluate_ast(&ast))
}

#[test]
fn test_sin_pi() {
    let expression = "sin(pi) + 2 * 3";

    let res = evaluate_expression(expression).unwrap();

    assert_eq!(res, 6.0);
}

#[test]
fn test_trig_inverse() {
    let expression = "arcsin(sin(1)) + arccos(cos(1)) + arctan(tan(1))";

    let res = evaluate_expression(expression).unwrap();

    assert_eq!(res, 3.0);
}

#[test]
fn test_log() {
    let expression = "log(10, 100)";

    let res = evaluate_expression(expression).unwrap();

    assert_eq!(res, 2.0);
}

#[test]
fn test_sqrt() {
    let expression = "sqrt(4)";

    let res = evaluate_expression(expression).unwrap();

    assert_eq!(res, 2.0);
}

#[test]
fn test_complex_expression() {
    let expression = "cos(pi) + 2 * 3 + 4 / 2";

    let res = evaluate_expression(expression).unwrap();

    assert_eq!(res, 7.0);
}

#[test]
fn test_complex_expression_2() {
    let expression = "(cos(pi) + 2)(sin(3pi/6)) + sin(e)^2 + cos(e)^2";

    let res = evaluate_expression(expression).unwrap();

    assert_eq!(res, 2.0);
}

#[test]
fn test_precedence_round_trip() {
    assert_eq!(evaluate_expression("2 + 3 * 4").unwrap(), 14.0);
    assert_eq!(evaluate_expression("(2 + 3) * 4").unwrap(), 20.0);
}

#[test]
fn test_exponent_binds_tighter() {
    assert_eq!(evaluate_expression("2 * 3 ^ 2").unwrap(), 18.0);
}

#[test]
fn test_lenient_unmatched_close() {
    let lenient = "123 + 456) * 789";
    let explicit = "(123 + 456) * 789";

    assert_eq!(
        parse_expression(lenient).unwrap(),
        parse_expression(explicit).unwrap()
    );
    assert_eq!(evaluate_expression(lenient).unwrap(), 456831.0);
    assert_eq!(
        evaluate_expression(lenient).unwrap(),
        evaluate_expression(explicit).unwrap()
    );
}

#[test]
fn test_lenient_unclosed_open() {
    let lenient = "123 * (456 + 789";
    let explicit = "123 * (456 + 789)";

    assert_eq!(
        parse_expression(lenient).unwrap(),
        parse_expression(explicit).unwrap()
    );
    assert_eq!(evaluate_expression(lenient).unwrap(), 153135.0);
    assert_eq!(
        evaluate_expression(lenient).unwrap(),
        evaluate_expression(explicit).unwrap()
    );
}

#[test]
fn test_function_dispatch_and_arity() {
    assert_eq!(evaluate_expression("log(10, 100)").unwrap(), 2.0);
    assert_eq!(evaluate_expression("sqrt(4)").unwrap(), 2.0);
    assert_eq!(
        evaluate_expression("sin()"),
        Err(EvalError::InvalidArgumentCount { expected: 1, got: 0 })
    );
}

#[test]
fn test_implicit_multiplication_and_constants() {
    assert_eq!(
        evaluate_expression("3pi").unwrap(),
        3.0 * std::f64::consts::PI
    );
    assert_eq!(evaluate_expression("(2)(3)").unwrap(), 6.0);
}

#[test]
fn test_adjacency_rejection() {
    assert!(matches!(
        evaluate_expression("2 3"),
        Err(EvalError::InvalidExpression(_))
    ));
    assert!(matches!(
        evaluate_expression("2 ++ 3"),
        Err(EvalError::InvalidExpression(_))
    ));
}

#[test]
fn test_unknown_keyword() {
    assert_eq!(
        evaluate_expression("foo(1)"),
        Err(EvalError::UnknownKeyword(String::from("foo")))
    );
}

#[test]
fn test_no_function_arguments() {
    assert_eq!(
        evaluate_expression("sin 2"),
        Err(EvalError::NoFunctionArguments(String::from("sin")))
    );
}

#[test]
fn test_empty_expression() {
    assert!(matches!(
        evaluate_expression(""),
        Err(EvalError::InvalidExpression(_))
    ));
}

#[test]
fn test_decimal_literals() {
    assert_eq!(evaluate_expression("1.5 + 2.25").unwrap(), 3.75);
}

#[test]
fn test_chained_subtraction_groups_right() {
    // Chained same-class operators associate to the right, so this is
    // 10 - (3 - 2), not (10 - 3) - 2.
    assert_eq!(evaluate_expression("10 - 3 - 2").unwrap(), 9.0);
}

#[test]
fn test_division_and_exponent() {
    assert_eq!(evaluate_expression("8 / 2").unwrap(), 4.0);
    assert_eq!(evaluate_expression("2 ^ 10").unwrap(), 1024.0);
}

#[test]
fn test_chained_exponent_groups_right() {
    assert_eq!(evaluate_expression("2 ^ 3 ^ 2").unwrap(), 512.0);
}

#[test]
fn test_unrecognized_characters_ignored() {
    assert_eq!(evaluate_expression("2@ +$ 3").unwrap(), 5.0);
}

#[test]
fn test_group_contents_resolved_first() {
    // Group contents are resolved depth first, so the unknown name
    // inside the parentheses is reported before the one outside.
    assert_eq!(
        evaluate_expression("foo(bar)"),
        Err(EvalError::UnknownKeyword(String::from("bar")))
    );
}

#[test]
fn test_wrong_argument_count_for_log() {
    assert_eq!(
        evaluate_expression("log(2)"),
        Err(EvalError::InvalidArgumentCount { expected: 2, got: 1 })
    );
}

#[test]
fn test_reevaluation_bit_identical() {
    let text = "sin(3) + 2 ^ 0.5 * pi";
    let first = evaluate_expression(text).unwrap();
    let second = evaluate_expression(text).unwrap();
    assert_eq!(first.to_bits(), second.to_bits());
}

/// Whether any unresolved keyword remains anywhere in the sequence.
fn contains_keyword(tokens: &[Token]) -> bool {
    tokens.iter().any(|t| match t {
        Token::Keyword(_) => true,
        Token::InnerExpression(inner) => contains_keyword(inner),
        Token::Function(_, args) => args.iter().any(|a| contains_keyword(a)),
        _ => false,
    })
}

#[test]
fn test_resolution_leaves_no_keyword() {
    let tokens = parse_expression("sin(pi) + e * log(2, 16) + (pi (e))").unwrap();
    assert!(!contains_keyword(&tokens));
}

#[test]
fn test_separator_outside_function() {
    assert!(matches!(
        evaluate_expression("1, 2"),
        Err(EvalError::InvalidExpression(_))
    ));
}
