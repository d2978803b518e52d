use expression_eval::context::Context;
use expression_eval::converter::convert_infix_to_postfix_notation;
use expression_eval::decimal::Decimal;
use expression_eval::definition::{ExpressionError, Literal, Operator};
use expression_eval::eval::evaluate_tokens;
use expression_eval::evaluation::OperatorExecutor;
use expression_eval::tokenizer::string_to_tokens;
use expression_eval::{evaluate_expression, evaluate_expression_with_context};

#[test]
fn eval_tokens() {
    let result = string_to_tokens("( 1.0 + 5 ) / 2 + 3.0 > 5 && 6 < 5")
        .and_then(convert_infix_to_postfix_notation)
        .and_then(evaluate_tokens);
    match result {
        Ok(literal) => assert_eq!(literal, Literal::Boolean(false)),
        Err(e) => panic!("unexpected failure {:?}", e),
    }
}

#[test]
fn lib_simple_infix_to_postfix_conversion() {
    let mut context = Context::new();
    context.insert("first", "4.5");
    context.insert("second", "3");

    let result = evaluate_expression_with_context("first + second", context);

    assert_eq!(Ok(Literal::Decimal(Decimal::new(75, 10))), result);
}

#[test]
fn standard_precedence_round_trip() {
    // The powers go first, right to left: 2 ^ 3 = 8, (1 - 5) ^ 8 = 65536;
    // then 4 * 2 = 8, 8 / 65536 = 0 (integer division), and 3 + 0 = 3.
    assert_eq!(evaluate_expression("3 + 4 * 2 / (1 - 5) ^ 2 ^ 3"), Ok(Literal::Integer(3)));
    // Grouped from the left the powers would give (-4) ^ 2 = 16, 16 ^ 3 = 4096.
    assert_eq!(evaluate_expression("((1 - 5) ^ 2) ^ 3"), Ok(Literal::Integer(4096)));
    assert_eq!(evaluate_expression("(1 - 5) ^ 2 ^ 3"), Ok(Literal::Integer(65536)));
    // With a base of one: 3 + 4 * 2 / 1 ^ 8 = 11.
    assert_eq!(evaluate_expression("3 + 4 * 2 / (5 - 4) ^ 2 ^ 3"), Ok(Literal::Integer(11)));
    // 2 ^ 2 ^ 3 = 2 ^ 8 = 256, then 4 * 512 / 256 = 8, then 3 + 8 = 11.
    assert_eq!(evaluate_expression("3 + 4 * 512 / 2 ^ 2 ^ 3"), Ok(Literal::Integer(11)));
}

#[test]
fn integer_sum_and_equality() {
    assert_eq!(evaluate_expression("17 + 25"), Ok(Literal::Integer(42)));
    assert_eq!(evaluate_expression("0 + 0"), Ok(Literal::Integer(0)));
    assert_eq!(evaluate_expression("17 == 25"), Ok(Literal::Boolean(false)));
    assert_eq!(evaluate_expression("25 == 25"), Ok(Literal::Boolean(true)));
    assert_eq!(
        evaluate_expression("9223372036854775806 + 1"),
        Ok(Literal::Integer(i64::MAX))
    );
}

#[test]
fn integer_promoted_to_decimal() {
    assert_eq!(evaluate_expression("3 + 4.5"), Ok(Literal::Decimal(Decimal::new(75, 10))));
    assert_eq!(evaluate_expression("4.5 + 3"), Ok(Literal::Decimal(Decimal::new(15, 2))));
}

#[test]
fn context_single_token_replacement() {
    let mut context = Context::new();
    context.insert("x", "5");
    assert_eq!(evaluate_expression_with_context("x + 1", context), Ok(Literal::Integer(6)));
}

#[test]
fn context_subexpression_replacement() {
    let mut context = Context::new();
    context.insert("first", "4.5 > 3");
    assert_eq!(
        evaluate_expression_with_context("first == true", context),
        Ok(Literal::Boolean(true))
    );
}

#[test]
fn boolean_arithmetic_is_a_type_mismatch() {
    assert_eq!(evaluate_expression("true + false"), Err(ExpressionError::TypeMismatch));
}

#[test]
fn missing_context_key() {
    assert_eq!(
        evaluate_expression_with_context("y + 1", Context::new()),
        Err(ExpressionError::MissingContextKey)
    );
}

#[test]
fn stack_underflow() {
    assert_eq!(evaluate_expression("3 +"), Err(ExpressionError::StackUnderflow));
    assert_eq!(evaluate_expression("!"), Err(ExpressionError::StackUnderflow));
}

#[test]
fn power_is_right_associative() {
    assert_eq!(evaluate_expression("2 ^ 3 ^ 2"), Ok(Literal::Integer(512)));
}

#[test]
fn other_error_kinds() {
    assert_eq!(evaluate_expression("1 2"), Err(ExpressionError::MalformedResult));
    assert_eq!(evaluate_expression(""), Err(ExpressionError::MalformedResult));
    assert_eq!(
        evaluate_expression("9223372036854775807 + 1"),
        Err(ExpressionError::Overflow)
    );
    assert_eq!(evaluate_expression("1 / 0"), Err(ExpressionError::DivisionByZero));
    assert_eq!(evaluate_expression("1.5 / 0"), Err(ExpressionError::DivisionByZero));
    assert_eq!(
        evaluate_expression("2 ^ (0 - 1)"),
        Err(ExpressionError::NegativeExponent)
    );
    assert_eq!(evaluate_expression("x + 1"), Err(ExpressionError::UnresolvedVariable));
    assert_eq!(evaluate_expression("2.0 ^ 2"), Err(ExpressionError::TypeMismatch));
    assert_eq!(evaluate_expression("1.5 && 2.5"), Err(ExpressionError::TypeMismatch));
    assert_eq!(evaluate_expression("'a' + 'b'"), Err(ExpressionError::TypeMismatch));
    assert_eq!(evaluate_expression("'a' == 1"), Err(ExpressionError::TypeMismatch));
    assert_eq!(evaluate_expression("!3"), Err(ExpressionError::TypeMismatch));
}

#[test]
fn integer_arithmetic() {
    assert_eq!(evaluate_expression("7 / 2"), Ok(Literal::Integer(3)));
    assert_eq!(evaluate_expression("(0 - 7) / 2"), Ok(Literal::Integer(-3)));
    assert_eq!(evaluate_expression("6 * 7 - 2"), Ok(Literal::Integer(40)));
    assert_eq!(evaluate_expression("2 ^ 0"), Ok(Literal::Integer(1)));
    assert_eq!(evaluate_expression("2 ^ 62"), Ok(Literal::Integer(1 << 62)));
    assert_eq!(evaluate_expression("2 ^ 63"), Err(ExpressionError::Overflow));
    assert_eq!(evaluate_expression("(0 - 2) ^ 63"), Ok(Literal::Integer(i64::MIN)));
    assert_eq!(evaluate_expression("(0 - 1) ^ 9999999999"), Ok(Literal::Integer(-1)));
    assert_eq!(evaluate_expression("0 ^ 0"), Ok(Literal::Integer(1)));
}

#[test]
fn decimal_arithmetic_and_order() {
    assert_eq!(evaluate_expression("1.5 * 2"), Ok(Literal::Decimal(Decimal::new(3, 1))));
    assert_eq!(evaluate_expression("1 / 4.0"), Ok(Literal::Decimal(Decimal::new(1, 4))));
    assert_eq!(evaluate_expression("0.1 + 0.2 == 0.3"), Ok(Literal::Boolean(true)));
    assert_eq!(evaluate_expression("2.5 - 3"), Ok(Literal::Decimal(Decimal::new(-1, 2))));
    assert_eq!(evaluate_expression("2.5 >= 2.50"), Ok(Literal::Boolean(true)));
    assert_eq!(evaluate_expression("2.49 > 2.5"), Ok(Literal::Boolean(false)));
}

#[test]
fn boolean_and_text_comparisons() {
    assert_eq!(evaluate_expression("true || false"), Ok(Literal::Boolean(true)));
    assert_eq!(evaluate_expression("true && false"), Ok(Literal::Boolean(false)));
    assert_eq!(evaluate_expression("false < true"), Ok(Literal::Boolean(true)));
    assert_eq!(evaluate_expression("true != true"), Ok(Literal::Boolean(false)));
    assert_eq!(evaluate_expression("'abc' < 'abd'"), Ok(Literal::Boolean(true)));
    assert_eq!(evaluate_expression("'ab' < 'abc'"), Ok(Literal::Boolean(true)));
    assert_eq!(evaluate_expression("'B' < 'a'"), Ok(Literal::Boolean(true)));
    assert_eq!(evaluate_expression("'abc' == 'abc'"), Ok(Literal::Boolean(true)));
    assert_eq!(evaluate_expression("!false"), Ok(Literal::Boolean(true)));
    assert_eq!(evaluate_expression("true && !false"), Ok(Literal::Boolean(true)));
}

#[test]
fn executor_applies_operators() {
    let executor = OperatorExecutor::new();
    let r = executor.execute(&Operator::Minus, &Literal::Integer(3), &Literal::Integer(10));
    assert_eq!(r, Ok(Literal::Integer(7)));
    let r = executor.execute(&Operator::Less, &Literal::Integer(3), &Literal::Integer(10));
    assert_eq!(r, Ok(Literal::Boolean(false)));
}

#[test]
fn decimal_values_compare_by_value() {
    assert_eq!(Decimal::new(1, 2), Decimal::new(50, 100));
    assert_ne!(Decimal::new(1, 2), Decimal::new(1, 3));
    assert_eq!(Decimal::new(1, 2).compare(Decimal::new(1, 3)), 1);
    assert_eq!(Decimal::from_integer(3), Decimal::new(6, 2));
}

#[test]
fn long_decimal_chains_stay_in_range() {
    let text = vec!["0.1"; 40].join(" + ");
    assert_eq!(evaluate_expression(&text), Ok(Literal::Decimal(Decimal::new(4, 1))));
    match evaluate_expression("0.25 + 0.25").unwrap() {
        Literal::Decimal(d) => {
            assert_eq!(d.numerator, 1);
            assert_eq!(d.denominator, 2);
        }
        other => panic!("expected a decimal, got {:?}", other),
    }
}
