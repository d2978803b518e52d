use expression_eval::decimal::Decimal;
use expression_eval::definition::{Literal, Operator, OperatorProperties, Parenthesis, Token};
use expression_eval::tokenizer::string_to_tokens;

fn op(o: Operator) -> Token {
    Token::Operator(OperatorProperties::of(o))
}

#[test]
fn simple_string_literal_expression() {
    let a = "\"A\"";
    let vec = string_to_tokens(a).unwrap();
    let result = vec.first().unwrap();
    assert_eq!(*result, Token::Literal(Literal::String(String::from("A"))));

    let b = "\'B\'";
    let vec = string_to_tokens(b).unwrap();
    let result = vec.first().unwrap();
    assert_eq!(*result, Token::Literal(Literal::String(String::from("B"))));

    let c = "somevar == 'C'";
    let vec = string_to_tokens(c).unwrap();
    let result = vec.get(2).unwrap();
    assert_eq!(*result, Token::Literal(Literal::String(String::from("C"))));

    let d = "somevar == 'D'";
    let vec = string_to_tokens(d).unwrap();
    let result = vec.get(2).unwrap();
    assert_eq!(*result, Token::Literal(Literal::String(String::from("D"))));
}

#[test]
fn simple_boolean_literal_expression() {
    let x = "false";
    let vec = string_to_tokens(x).unwrap();
    let result = vec.first().unwrap();
    assert_eq!(*result, Token::Literal(Literal::Boolean(false)));
}

#[test]
fn simple_integer_literal_expression() {
    let x = "3";
    let vec = string_to_tokens(x).unwrap();
    let result = vec.first().unwrap();
    assert_eq!(*result, Token::Literal(Literal::Integer(3)));
}

#[test]
fn simple_less_operator_expression() {
    let x = "<=";
    let vec = string_to_tokens(x).unwrap();
    let result = vec.get(0).unwrap();
    match result {
        Token::Operator(properties) => {
            assert_eq!(properties.operator, Operator::LessOrEqual);
        }
        _ => panic!("expected an operator, got {:?}", result),
    }
}

#[test]
fn simple_boolean() {
    let x = "true && false";
    let result = string_to_tokens(x).unwrap();
    let expected = vec![
        Token::Literal(Literal::Boolean(true)),
        op(Operator::And),
        Token::Literal(Literal::Boolean(false)),
    ];
    assert_eq!(result, expected);
}

#[test]
fn simple_parametrized_operator_expression() {
    let cases = [
        ("||", Operator::Or),
        ("&&", Operator::And),
        ("!", Operator::Not),
        ("!=", Operator::NotEqual),
        ("==", Operator::Equal),
        (">", Operator::Greater),
        (">=", Operator::GreaterOrEqual),
        ("<", Operator::Less),
        ("<=", Operator::LessOrEqual),
        ("+", Operator::Plus),
        ("-", Operator::Minus),
        ("/", Operator::Divide),
        ("*", Operator::Multiply),
        ("^", Operator::PowerOf),
    ];
    for (expression, expected) in cases {
        let vec = string_to_tokens(expression).unwrap();
        assert_eq!(vec.len(), 1, "{}", expression);
        match vec.get(0).unwrap() {
            Token::Operator(properties) => assert_eq!(properties.operator, expected),
            other => panic!("expected an operator, got {:?}", other),
        }
    }
}

#[test]
fn unicode_operator_glyphs() {
    let tokens = string_to_tokens("\u{2212}\u{d7}\u{f7}").unwrap();
    assert_eq!(tokens, vec![op(Operator::Minus), op(Operator::Multiply), op(Operator::Divide)]);
}

#[test]
fn operator_table() {
    assert_eq!(OperatorProperties::of(Operator::Or).precedence, 1);
    assert_eq!(OperatorProperties::of(Operator::And).precedence, 2);
    assert_eq!(OperatorProperties::of(Operator::Equal).precedence, 3);
    assert_eq!(OperatorProperties::of(Operator::NotEqual).precedence, 3);
    assert_eq!(OperatorProperties::of(Operator::LessOrEqual).precedence, 4);
    assert_eq!(OperatorProperties::of(Operator::Minus).precedence, 5);
    assert_eq!(OperatorProperties::of(Operator::Divide).precedence, 6);
    assert_eq!(OperatorProperties::of(Operator::PowerOf).precedence, 7);
    assert_eq!(OperatorProperties::of(Operator::Not).precedence, 8);
    assert!(!OperatorProperties::of(Operator::PowerOf).left_associative);
    assert!(OperatorProperties::of(Operator::Plus).left_associative);
    assert_eq!(OperatorProperties::of(Operator::GreaterOrEqual).symbol, ">=");
}

#[test]
fn whitespace_and_unknown_characters_are_skipped() {
    let tokens = string_to_tokens(" 1 # 2 ").unwrap();
    assert_eq!(tokens, vec![Token::Literal(Literal::Integer(1)), Token::Literal(Literal::Integer(2))]);
    assert_eq!(string_to_tokens("").unwrap(), vec![]);
}

#[test]
fn lone_doubled_operator_characters_are_skipped() {
    let tokens = string_to_tokens("1 & 2 | 3 = 4").unwrap();
    assert_eq!(
        tokens,
        vec![
            Token::Literal(Literal::Integer(1)),
            Token::Literal(Literal::Integer(2)),
            Token::Literal(Literal::Integer(3)),
            Token::Literal(Literal::Integer(4)),
        ]
    );
}

#[test]
fn tokens_without_spaces() {
    let tokens = string_to_tokens("a>=2.50||(b!=c)").unwrap();
    assert_eq!(
        tokens,
        vec![
            Token::Variable(String::from("a")),
            op(Operator::GreaterOrEqual),
            Token::Literal(Literal::Decimal(Decimal::new(250, 100))),
            op(Operator::Or),
            Token::Parenthesis(Parenthesis::LeftParenthesis),
            Token::Variable(String::from("b")),
            op(Operator::NotEqual),
            Token::Variable(String::from("c")),
            Token::Parenthesis(Parenthesis::RightParenthesis),
        ]
    );
}

#[test]
fn decimal_literal_parts() {
    let tokens = string_to_tokens("23.8").unwrap();
    match &tokens[0] {
        Token::Literal(Literal::Decimal(d)) => {
            assert_eq!(d.numerator, 238);
            assert_eq!(d.denominator, 10);
        }
        other => panic!("expected a decimal, got {:?}", other),
    }
}

#[test]
fn number_too_large_is_a_number_format_error() {
    assert_eq!(
        string_to_tokens("99999999999999999999"),
        Err(expression_eval::definition::ExpressionError::NumberFormat)
    );
    assert_eq!(
        string_to_tokens("9223372036854775807"),
        Ok(vec![Token::Literal(Literal::Integer(i64::MAX))])
    );
}

#[test]
fn literal_text_round_trip() {
    for text in ["'abc'", "true", "false", "42", "4.50", "0.05"] {
        let first = string_to_tokens(text).unwrap();
        assert_eq!(first.len(), 1, "{}", text);
    }
    assert_eq!(
        string_to_tokens("'abc'").unwrap(),
        vec![Token::Literal(Literal::String(String::from("abc")))]
    );
    assert_eq!(string_to_tokens("0.05").unwrap(), vec![Token::Literal(Literal::Decimal(Decimal::new(5, 100)))]);
    assert_eq!(string_to_tokens("42").unwrap(), vec![Token::Literal(Literal::Integer(42))]);
}
