//! Evaluation of boolean and arithmetic expressions given as text.
//!
//! The pipeline is: tokenize, substitute variables from a context (optional),
//! reorder to postfix notation (shunting-yard), and evaluate on a value stack.
use vstd::prelude::*;

pub mod context;
pub mod converter;
pub mod decimal;
pub mod definition;
pub mod eval;
pub mod evaluation;
pub mod laws;
pub mod tokenizer;

use crate::context::{replace_variables_with_values_from_context, substitute, Context};
use crate::converter::{convert_infix_to_postfix_notation, to_postfix};
use crate::definition::{literal_result_model, ExpressionError, Literal, LiteralModel};
use crate::eval::{evaluate_postfix, evaluate_tokens};
use crate::tokenizer::{string_to_tokens, tokenize};

verus! {

/// The value of the expression text `s`.
pub open spec fn evaluate_text(s: Seq<char>) -> Result<LiteralModel, ExpressionError> {
    match tokenize(s) {
        Ok(ts) => evaluate_postfix(to_postfix(ts)),
        Err(e) => Err(e),
    }
}

/// The value of the expression text `s`, its variables replaced from `ctx`.
pub open spec fn evaluate_text_with_context(s: Seq<char>, ctx: Map<Seq<char>, Seq<char>>) -> Result<
    LiteralModel,
    ExpressionError,
> {
    match tokenize(s) {
        Ok(ts) => match substitute(ts, ctx) {
            Ok(us) => evaluate_postfix(to_postfix(us)),
            Err(e) => Err(e),
        },
        Err(e) => Err(e),
    }
}

/// Tokenizes, converts and evaluates `expression_string`.
pub fn evaluate_expression(expression_string: &str) -> (r: Result<Literal, ExpressionError>)
    ensures
        literal_result_model(r) == evaluate_text(expression_string@),
{
    let tokens = match string_to_tokens(expression_string) {
        Ok(ts) => ts,
        Err(e) => {
            return Err(e);
        },
    };
    let postfix = match convert_infix_to_postfix_notation(tokens) {
        Ok(ts) => ts,
        Err(e) => {
            return Err(e);
        },
    };
    evaluate_tokens(postfix)
}

/// Tokenizes `expression_string`, replaces its variables from `context`, then
/// converts and evaluates.
pub fn evaluate_expression_with_context(expression_string: &str, context: Context) -> (r: Result<
    Literal,
    ExpressionError,
>)
    ensures
        literal_result_model(r) == evaluate_text_with_context(expression_string@, context@),
{
    let tokens = match string_to_tokens(expression_string) {
        Ok(ts) => ts,
        Err(e) => {
            return Err(e);
        },
    };
    let replaced = match replace_variables_with_values_from_context(tokens, &context) {
        Ok(ts) => ts,
        Err(e) => {
            return Err(e);
        },
    };
    let postfix = match convert_infix_to_postfix_notation(replaced) {
        Ok(ts) => ts,
        Err(e) => {
            return Err(e);
        },
    };
    evaluate_tokens(postfix)
}

} // verus!
