use expression_eval::context::{replace_variables_with_values_from_context, Context};
use expression_eval::decimal::Decimal;
use expression_eval::definition::{ExpressionError, Literal, Operator, OperatorProperties, Token};
use expression_eval::tokenizer::string_to_tokens;

fn op(o: Operator) -> Token {
    Token::Operator(OperatorProperties::of(o))
}

#[test]
fn simple_replacements_of_variables() {
    let mut some_map = Context::new();
    some_map.insert("first", "4.5");
    some_map.insert("second", "3");
    some_map.insert("third", "true");

    let tokens = string_to_tokens("first > second == third").unwrap();
    let vec = replace_variables_with_values_from_context(tokens, &some_map).unwrap();

    let expected = vec![
        Token::Literal(Literal::Decimal(Decimal::new(45, 10))),
        op(Operator::Greater),
        Token::Literal(Literal::Integer(3)),
        op(Operator::Equal),
        Token::Literal(Literal::Boolean(true)),
    ];
    assert_eq!(vec, expected);
}

#[test]
fn complex_replacements_of_variables() {
    let mut some_map = Context::new();
    some_map.insert("first", "4.5 > 3");
    some_map.insert("second", "true");

    let tokens = string_to_tokens("first == second").unwrap();
    let vec = replace_variables_with_values_from_context(tokens, &some_map).unwrap();

    let expected = vec![
        Token::Literal(Literal::Decimal(Decimal::new(45, 10))),
        op(Operator::Greater),
        Token::Literal(Literal::Integer(3)),
        op(Operator::Equal),
        Token::Literal(Literal::Boolean(true)),
    ];
    assert_eq!(vec, expected);
}

#[test]
fn variables_in_replacement_text_become_texts() {
    let mut context = Context::new();
    context.insert("x", "name == other");
    let tokens = string_to_tokens("x").unwrap();
    let vec = replace_variables_with_values_from_context(tokens, &context).unwrap();
    assert_eq!(
        vec,
        vec![
            Token::Literal(Literal::String(String::from("name"))),
            op(Operator::Equal),
            Token::Literal(Literal::String(String::from("other"))),
        ]
    );
}

#[test]
fn missing_variable_fails() {
    let mut context = Context::new();
    context.insert("x", "1");
    let tokens = string_to_tokens("x + y").unwrap();
    assert_eq!(
        replace_variables_with_values_from_context(tokens, &context),
        Err(ExpressionError::MissingContextKey)
    );
}

#[test]
fn later_insert_replaces_earlier() {
    let mut context = Context::new();
    context.insert("x", "1");
    context.insert("x", "2");
    assert_eq!(context.get(&String::from("x")), Some(&String::from("2")));
    assert_eq!(context.get(&String::from("y")), None);
}

#[test]
fn replacement_text_that_does_not_tokenize_fails() {
    let mut context = Context::new();
    context.insert("x", "99999999999999999999");
    let tokens = string_to_tokens("x").unwrap();
    assert_eq!(
        replace_variables_with_values_from_context(tokens, &context),
        Err(ExpressionError::NumberFormat)
    );
}

#[test]
fn single_literal_value_takes_the_variable_place() {
    let mut context = Context::new();
    context.insert("x", "5");
    let tokens = string_to_tokens("x + 1").unwrap();
    let vec = replace_variables_with_values_from_context(tokens, &context).unwrap();
    assert_eq!(
        vec,
        vec![
            Token::Literal(Literal::Integer(5)),
            op(Operator::Plus),
            Token::Literal(Literal::Integer(1)),
        ]
    );
}
