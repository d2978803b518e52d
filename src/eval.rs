//! Evaluation of a token sequence in postfix order on a value stack.
use vstd::prelude::*;

use crate::definition::{
    literal_result_model,
    literals_model,
    lemma_literals_model_push,
    tokens_model,
    ExpressionError,
    Literal,
    LiteralModel,
    Operator,
    Token,
    TokenModel,
};
use crate::evaluation::{apply_binary, apply_not, OperatorExecutor};

verus! {

/// The stack after one more token: a literal is pushed; `!` replaces the top
/// value; any other operator replaces the two top values (the right operand
/// on top) by its result. A parenthesis is passed over; a variable cannot be
/// evaluated.
pub open spec fn eval_step(stack: Seq<LiteralModel>, t: TokenModel) -> Result<
    Seq<LiteralModel>,
    ExpressionError,
> {
    match t {
        TokenModel::Literal(l) => Ok(stack.push(l)),
        TokenModel::Operator(p) => if p.operator == Operator::Not {
            if stack.len() < 1 {
                Err(ExpressionError::StackUnderflow)
            } else {
                match apply_not(stack.last()) {
                    Ok(v) => Ok(stack.drop_last().push(v)),
                    Err(e) => Err(e),
                }
            }
        } else {
            if stack.len() < 2 {
                Err(ExpressionError::StackUnderflow)
            } else {
                match apply_binary(p.operator, stack[stack.len() - 2], stack.last()) {
                    Ok(v) => Ok(stack.subrange(0, stack.len() - 2).push(v)),
                    Err(e) => Err(e),
                }
            }
        },
        TokenModel::Variable(_) => Err(ExpressionError::UnresolvedVariable),
        TokenModel::Parenthesis(_) => Ok(stack),
    }
}

/// The stack after all of `ts`, or the first failure.
pub open spec fn run_postfix(ts: Seq<TokenModel>) -> Result<Seq<LiteralModel>, ExpressionError>
    decreases ts.len(),
{
    if ts.len() == 0 {
        Ok(Seq::empty())
    } else {
        match run_postfix(ts.drop_last()) {
            Ok(stack) => eval_step(stack, ts.last()),
            Err(e) => Err(e),
        }
    }
}

/// The value of a postfix token sequence: the one value left on the stack.
pub open spec fn evaluate_postfix(ts: Seq<TokenModel>) -> Result<LiteralModel, ExpressionError> {
    match run_postfix(ts) {
        Ok(stack) => if stack.len() == 1 {
            Ok(stack[0])
        } else {
            Err(ExpressionError::MalformedResult)
        },
        Err(e) => Err(e),
    }
}

fn negate(operand: Literal) -> (r: Result<Literal, ExpressionError>)
    ensures
        literal_result_model(r) == apply_not(operand@),
{
    match operand {
        Literal::Boolean(b) => Ok(Literal::Boolean(!b)),
        _ => Err(ExpressionError::TypeMismatch),
    }
}

/// A failure on a prefix is the failure of the whole sequence.
proof fn lemma_run_postfix_failure(ts: Seq<TokenModel>, k: int, e: ExpressionError)
    requires
        0 <= k <= ts.len(),
        run_postfix(ts.take(k)) == Err::<Seq<LiteralModel>, ExpressionError>(e),
    ensures
        run_postfix(ts) == Err::<Seq<LiteralModel>, ExpressionError>(e),
    decreases ts.len() - k,
{
    if k < ts.len() {
        assert(ts.take(k + 1).drop_last() =~= ts.take(k));
        lemma_run_postfix_failure(ts, k + 1, e);
    } else {
        assert(ts.take(k) =~= ts);
    }
}

/// Applies one token to the stack.
fn eval_token(executor: &OperatorExecutor, stack: &mut Vec<Literal>, token: Token) -> (r: Result<
    (),
    ExpressionError,
>)
    ensures
        match eval_step(literals_model(old(stack)@), token@) {
            Ok(st) => r is Ok && literals_model(final(stack)@) == st,
            Err(e) => r == Err::<(), ExpressionError>(e),
        },
{
    let ghost before = literals_model(stack@);
    match token {
        Token::Literal(l) => {
            proof { lemma_literals_model_push(stack@, l) }
            stack.push(l);
            Ok(())
        },
        Token::Operator(p) => {
            if p.operator == Operator::Not {
                match stack.pop() {
                    Some(v) => {
                        proof {
                            assert(before.last() == v@);
                            assert(before.drop_last() =~= literals_model(stack@));
                        }
                        match negate(v) {
                            Ok(x) => {
                                proof { lemma_literals_model_push(stack@, x) }
                                stack.push(x);
                                Ok(())
                            },
                            Err(e) => Err(e),
                        }
                    },
                    None => Err(ExpressionError::StackUnderflow),
                }
            } else {
                if stack.len() < 2 {
                    return Err(ExpressionError::StackUnderflow);
                }
                let right_side = stack.pop().unwrap();
                let left_side = stack.pop().unwrap();
                proof {
                    assert(before.last() == right_side@);
                    assert(before[before.len() - 2] == left_side@);
                    assert(before.subrange(0, before.len() - 2) =~= literals_model(stack@));
                }
                match executor.execute(&p.operator, &right_side, &left_side) {
                    Ok(x) => {
                        proof { lemma_literals_model_push(stack@, x) }
                        stack.push(x);
                        Ok(())
                    },
                    Err(e) => Err(e),
                }
            }
        },
        Token::Variable(_) => Err(ExpressionError::UnresolvedVariable),
        Token::Parenthesis(_) => Ok(()),
    }
}

/// Evaluates `tokens`, taken in postfix order.
pub fn evaluate_tokens(tokens: Vec<Token>) -> (r: Result<Literal, ExpressionError>)
    ensures
        literal_result_model(r) == evaluate_postfix(tokens_model(tokens@)),
{
    let ghost all = tokens_model(tokens@);
    let executor = OperatorExecutor::new();
    let mut stack: Vec<Literal> = Vec::new();
    let mut rest = tokens;
    let n = rest.len();
    let mut i: usize = 0;
    proof {
        assert(all.take(0) =~= Seq::<TokenModel>::empty());
        assert(literals_model(stack@) =~= Seq::<LiteralModel>::empty());
    }
    while i < n
        invariant
            n == tokens@.len(),
            i <= n,
            all == tokens_model(tokens@),
            rest@ == tokens@.skip(i as int),
            run_postfix(all.take(i as int)) == Ok::<Seq<LiteralModel>, ExpressionError>(
                literals_model(stack@),
            ),
        decreases n - i,
    {
        let token = rest.remove(0);
        proof {
            assert(token == tokens@[i as int]);
            assert(all.take(i + 1).drop_last() =~= all.take(i as int));
            assert(all.take(i + 1).last() == token@);
        }
        match eval_token(&executor, &mut stack, token) {
            Ok(()) => {},
            Err(e) => {
                proof { lemma_run_postfix_failure(all, i + 1, e) }
                return Err(e);
            },
        }
        i = i + 1;
        proof {
            assert(rest@ =~= tokens@.skip(i as int));
        }
    }
    proof {
        assert(all.take(n as int) =~= all);
    }
    if stack.len() == 1 {
        let v = stack.pop().unwrap();
        Ok(v)
    } else {
        Err(ExpressionError::MalformedResult)
    }
}

} // verus!
