use expreval::keywords::Function;
use expreval::keywords::FunctionName;
use expreval::keywords::ConstantName;
use expreval::tokenize::Additive;
use expreval::tokenize::Multiplicative;
use expreval::tokenize::Operator;
use expreval::tokenize::Token;
use expreval::tokenize::parse_expression;

#[test]
fn parse_numbers() {
    let expression_1 = "123 + 456";
    let tokens_1 = parse_expression(expression_1).unwrap();
    let expression_2 = "7 + 45193";
    let tokens_2 = parse_expression(expression_2).unwrap();

    assert_eq!(
        tokens_1,
        vec![
            Token::Number(String::from("123")),
            Token::Operator(Operator::Additive(Additive::Add)),
            Token::Number(String::from("456")),
        ]
    );
    assert_eq!(
        tokens_2,
        vec![
            Token::Number(String::from("7")),
            Token::Operator(Operator::Additive(Additive::Add)),
            Token::Number(String::from("45193")),
        ]
    );
}

#[test]
fn parse_additive() {
    let expression = "0 + 0 - 0";
    let tokens = parse_expression(expression).unwrap();

    assert_eq!(
        tokens,
        vec![
            Token::Number(String::from("0")),
            Token::Operator(Operator::Additive(Additive::Add)),
            Token::Number(String::from("0")),
            Token::Operator(Operator::Additive(Additive::Subtract)),
            Token::Number(String::from("0")),
        ]
    )
}

#[test]
fn parse_multiplicative() {
    let expression = "0 * 0 / 1";
    let tokens = parse_expression(expression).unwrap();

    assert_eq!(
        tokens,
        vec![
            Token::Number(String::from("0")),
            Token::Operator(Operator::Multiplicative(Multiplicative::Multiply)),
            Token::Number(String::from("0")),
            Token::Operator(Operator::Multiplicative(Multiplicative::Divide)),
            Token::Number(String::from("1")),
        ]
    )
}

#[test]
fn parse_parentheses() {
    let expression = "()";
    let tokens = parse_expression(expression).unwrap();

    assert_eq!(tokens, vec![Token::InnerExpression(vec![])]);
}

#[test]
fn parse_additive_compound() {
    let expression = "123 + 456 - 789";
    let tokens = parse_expression(expression).unwrap();

    assert_eq!(
        tokens,
        vec![
            Token::Number(String::from("123")),
            Token::Operator(Operator::Additive(Additive::Add)),
            Token::Number(String::from("456")),
            Token::Operator(Operator::Additive(Additive::Subtract)),
            Token::Number(String::from("789")),
        ]
    )
}

#[test]
fn parse_multiplicative_compound() {
    let expression = "123 * 456 / 789";
    let tokens = parse_expression(expression).unwrap();

    assert_eq!(
        tokens,
        vec![
            Token::Number(String::from("123")),
            Token::Operator(Operator::Multiplicative(Multiplicative::Multiply)),
            Token::Number(String::from("456")),
            Token::Operator(Operator::Multiplicative(Multiplicative::Divide)),
            Token::Number(String::from("789")),
        ]
    )
}

#[test]
fn parse_parentheses_compound() {
    let expression = "123 * (456 + 789)";
    let tokens = parse_expression(expression).unwrap();

    assert_eq!(
        tokens,
        vec![
            Token::Number(String::from("123")),
            Token::Operator(Operator::Multiplicative(Multiplicative::Multiply)),
            Token::InnerExpression(vec![
                Token::Number(String::from("456")),
                Token::Operator(Operator::Additive(Additive::Add)),
                Token::Number(String::from("789")),
            ]),
        ]
    );
}

#[test]
fn parse_parentheses_unopened() {
    let expression = "123 + 456) * 789";
    let tokens = parse_expression(expression).unwrap();

    assert_eq!(
        tokens,
        vec![
            Token::InnerExpression(vec![
                Token::Number(String::from("123")),
                Token::Operator(Operator::Additive(Additive::Add)),
                Token::Number(String::from("456")),
            ]),
            Token::Operator(Operator::Multiplicative(Multiplicative::Multiply)),
            Token::Number(String::from("789")),
        ]
    )
}

#[test]
fn parse_parentheses_unclosed() {
    let expression = "123 * (456 + 789\n";
    let tokens = parse_expression(expression).unwrap();

    assert_eq!(
        tokens,
        vec![
            Token::Number(String::from("123")),
            Token::Operator(Operator::Multiplicative(Multiplicative::Multiply)),
            Token::InnerExpression(vec![
                Token::Number(String::from("456")),
                Token::Operator(Operator::Additive(Additive::Add)),
                Token::Number(String::from("789")),
            ]),
        ]
    )
}

#[test]
fn parse_functions() {
    let expression = "sin(123) + log(2, 16)\n";
    let tokens = parse_expression(expression).unwrap();

    assert_eq!(
        tokens,
        vec![
            Token::Function(
                Function { name: FunctionName::Sin, argument_count: 1 },
                vec![vec![Token::Number(String::from("123"))]],
            ),
            Token::Operator(Operator::Additive(Additive::Add)),
            Token::Function(
                Function { name: FunctionName::Log, argument_count: 2 },
                vec![
                    vec![Token::Number(String::from("2"))],
                    vec![Token::Number(String::from("16"))],
                ],
            ),
        ]
    )
}

#[test]
fn parse_constants() {
    let expression = "pi e\n";
    let tokens = parse_expression(expression).unwrap();

    assert_eq!(
        tokens,
        vec![
            Token::Constant(ConstantName::Pi),
            Token::Constant(ConstantName::E),
        ]
    )
}
