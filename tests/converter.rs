use expression_eval::converter::convert_infix_to_postfix_notation;
use expression_eval::decimal::Decimal;
use expression_eval::definition::{Literal, Operator, OperatorProperties, Parenthesis, Token};
use expression_eval::tokenizer::string_to_tokens;

fn op(o: Operator) -> Token {
    Token::Operator(OperatorProperties::of(o))
}

fn integer(v: i64) -> Token {
    Token::Literal(Literal::Integer(v))
}

fn dec(n: i64, d: i64) -> Token {
    Token::Literal(Literal::Decimal(Decimal::new(n, d)))
}

#[test]
fn mod_simple_infix_to_postfix_conversion() {
    let input = vec![
        integer(3),
        op(Operator::LessOrEqual),
        integer(3),
        op(Operator::And),
        dec(238, 10),
        op(Operator::GreaterOrEqual),
        dec(238, 10),
    ];
    let converted_input = convert_infix_to_postfix_notation(input).unwrap();

    let expected_output = vec![
        integer(3),
        integer(3),
        op(Operator::LessOrEqual),
        dec(238, 10),
        dec(238, 10),
        op(Operator::GreaterOrEqual),
        op(Operator::And),
    ];
    assert_eq!(converted_input, expected_output);
}

#[test]
fn convert_with_parenthesis() {
    let input = string_to_tokens("3 + 4 \u{d7} 2 \u{f7} ( 1 \u{2212} 5 ) ^ 2 ^ 3").unwrap();
    let converted_tokens = convert_infix_to_postfix_notation(input).unwrap();

    let expected_output = vec![
        integer(3),
        integer(4),
        integer(2),
        op(Operator::Multiply),
        integer(1),
        integer(5),
        op(Operator::Minus),
        integer(2),
        integer(3),
        op(Operator::PowerOf),
        op(Operator::PowerOf),
        op(Operator::Divide),
        op(Operator::Plus),
    ];
    assert_eq!(expected_output, converted_tokens);
}

#[test]
fn equal_precedence_groups_from_the_left() {
    let input = string_to_tokens("1 - 2 + 3").unwrap();
    let converted = convert_infix_to_postfix_notation(input).unwrap();
    assert_eq!(converted, vec![integer(1), integer(2), op(Operator::Minus), integer(3), op(Operator::Plus)]);
}

#[test]
fn power_groups_from_the_right() {
    let input = string_to_tokens("2 ^ 3 ^ 2").unwrap();
    let converted = convert_infix_to_postfix_notation(input).unwrap();
    assert_eq!(converted, vec![integer(2), integer(3), integer(2), op(Operator::PowerOf), op(Operator::PowerOf)]);
}

#[test]
fn unclosed_parenthesis_is_flushed_at_the_end() {
    let input = string_to_tokens("( 1 + 2").unwrap();
    let converted = convert_infix_to_postfix_notation(input).unwrap();
    assert_eq!(
        converted,
        vec![integer(1), integer(2), op(Operator::Plus), Token::Parenthesis(Parenthesis::LeftParenthesis)]
    );
}

#[test]
fn empty_input_gives_empty_output() {
    assert_eq!(convert_infix_to_postfix_notation(vec![]).unwrap(), vec![]);
}
