//! Reordering of infix tokens into postfix order (shunting-yard).
use vstd::prelude::*;

use crate::definition::{
    lemma_tokens_model_push,
    tokens_model,
    tokens_result_model,
    ExpressionError,
    OperatorProperties,
    Parenthesis,
    Token,
    TokenModel,
};

verus! {

/// Whether the operator `top`, on the stack, leaves before `incoming` is
/// pushed: it binds tighter, or as tight and `incoming` groups from the left.
pub open spec fn pops_before(top: OperatorProperties, incoming: OperatorProperties) -> bool {
    top.precedence > incoming.precedence || (top.precedence == incoming.precedence
        && incoming.left_associative)
}

/// Moves operators from the top of the stack to the output while they leave
/// before `op`; stops at anything else.
pub open spec fn pop_for_operator(
    out: Seq<TokenModel>,
    stack: Seq<TokenModel>,
    op: OperatorProperties,
) -> (Seq<TokenModel>, Seq<TokenModel>)
    decreases stack.len(),
{
    if stack.len() == 0 {
        (out, stack)
    } else {
        match stack.last() {
            TokenModel::Operator(top) => if pops_before(top, op) {
                pop_for_operator(out.push(stack.last()), stack.drop_last(), op)
            } else {
                (out, stack)
            },
            _ => (out, stack),
        }
    }
}

/// Moves tokens from the top of the stack to the output up to the nearest left
/// parenthesis, which is dropped.
pub open spec fn pop_to_left_parenthesis(out: Seq<TokenModel>, stack: Seq<TokenModel>) -> (
    Seq<TokenModel>,
    Seq<TokenModel>,
)
    decreases stack.len(),
{
    if stack.len() == 0 {
        (out, stack)
    } else if stack.last() == TokenModel::Parenthesis(Parenthesis::LeftParenthesis) {
        (out, stack.drop_last())
    } else {
        pop_to_left_parenthesis(out.push(stack.last()), stack.drop_last())
    }
}

/// Moves the whole stack, top first, to the output.
pub open spec fn flush(out: Seq<TokenModel>, stack: Seq<TokenModel>) -> Seq<TokenModel>
    decreases stack.len(),
{
    if stack.len() == 0 {
        out
    } else {
        flush(out.push(stack.last()), stack.drop_last())
    }
}

/// Output and stack after one more token.
pub open spec fn shunt_step(out: Seq<TokenModel>, stack: Seq<TokenModel>, t: TokenModel) -> (
    Seq<TokenModel>,
    Seq<TokenModel>,
) {
    match t {
        TokenModel::Operator(p) => {
            let (o, s) = pop_for_operator(out, stack, p);
            (o, s.push(t))
        },
        TokenModel::Parenthesis(Parenthesis::LeftParenthesis) => (out, stack.push(t)),
        TokenModel::Parenthesis(Parenthesis::RightParenthesis) => pop_to_left_parenthesis(
            out,
            stack,
        ),
        _ => (out.push(t), stack),
    }
}

/// Output and stack after all of `ts`.
pub open spec fn shunt(ts: Seq<TokenModel>) -> (Seq<TokenModel>, Seq<TokenModel>)
    decreases ts.len(),
{
    if ts.len() == 0 {
        (Seq::empty(), Seq::empty())
    } else {
        let (o, s) = shunt(ts.drop_last());
        shunt_step(o, s, ts.last())
    }
}

/// `ts` in postfix order.
pub open spec fn to_postfix(ts: Seq<TokenModel>) -> Seq<TokenModel> {
    let (o, s) = shunt(ts);
    flush(o, s)
}

proof fn lemma_pop_model(ts: Seq<Token>)
    requires
        ts.len() > 0,
    ensures
        tokens_model(ts.drop_last()) == tokens_model(ts).drop_last(),
        tokens_model(ts).last() == ts.last()@,
{
    assert(tokens_model(ts.drop_last()) =~= tokens_model(ts).drop_last());
}

fn pop_operators(output: &mut Vec<Token>, stack: &mut Vec<Token>, op: OperatorProperties)
    ensures
        (tokens_model(final(output)@), tokens_model(final(stack)@)) == pop_for_operator(
            tokens_model(old(output)@),
            tokens_model(old(stack)@),
            op,
        ),
{
    loop
        invariant
            pop_for_operator(tokens_model(output@), tokens_model(stack@), op) == pop_for_operator(
                tokens_model(old(output)@),
                tokens_model(old(stack)@),
                op,
            ),
        decreases stack@.len(),
    {
        if stack.len() == 0 {
            return ;
        }
        let pops = match &stack[stack.len() - 1] {
            Token::Operator(top) => top.precedence > op.precedence || (top.precedence
                == op.precedence && op.left_associative),
            _ => false,
        };
        if !pops {
            return ;
        }
        let ghost s0 = stack@;
        let top = stack.pop().unwrap();
        proof {
            lemma_pop_model(s0);
            lemma_tokens_model_push(output@, top);
        }
        output.push(top);
    }
}

fn is_left_parenthesis(t: &Token) -> (r: bool)
    ensures
        r == (t@ == TokenModel::Parenthesis(Parenthesis::LeftParenthesis)),
{
    match t {
        Token::Parenthesis(Parenthesis::LeftParenthesis) => true,
        _ => false,
    }
}

fn pop_to_left(output: &mut Vec<Token>, stack: &mut Vec<Token>)
    ensures
        (tokens_model(final(output)@), tokens_model(final(stack)@)) == pop_to_left_parenthesis(
            tokens_model(old(output)@),
            tokens_model(old(stack)@),
        ),
{
    loop
        invariant
            pop_to_left_parenthesis(tokens_model(output@), tokens_model(stack@))
                == pop_to_left_parenthesis(tokens_model(old(output)@), tokens_model(old(stack)@)),
        decreases stack@.len(),
    {
        if stack.len() == 0 {
            return ;
        }
        let ghost s0 = stack@;
        let top = stack.pop().unwrap();
        proof { lemma_pop_model(s0) }
        if is_left_parenthesis(&top) {
            return ;
        }
        proof { lemma_tokens_model_push(output@, top) }
        output.push(top);
    }
}

/// Reorders infix `tokens` into postfix order, honouring precedence,
/// associativity and parentheses. Operands keep their order; operators and
/// parentheses left on the stack at the end follow, top first.
pub fn convert_infix_to_postfix_notation(tokens: Vec<Token>) -> (r: Result<
    Vec<Token>,
    ExpressionError,
>)
    ensures
        tokens_result_model(r) == Ok::<Seq<TokenModel>, ExpressionError>(
            to_postfix(tokens_model(tokens@)),
        ),
{
    let ghost all = tokens_model(tokens@);
    let mut output: Vec<Token> = Vec::new();
    let mut stack: Vec<Token> = Vec::new();
    let mut rest = tokens;
    let n = rest.len();
    let mut i: usize = 0;
    proof {
        assert(all.take(0) =~= Seq::<TokenModel>::empty());
        assert(tokens_model(output@) =~= Seq::<TokenModel>::empty());
        assert(tokens_model(stack@) =~= Seq::<TokenModel>::empty());
    }
    while i < n
        invariant
            n == tokens@.len(),
            i <= n,
            all == tokens_model(tokens@),
            rest@ == tokens@.skip(i as int),
            shunt(all.take(i as int)) == (tokens_model(output@), tokens_model(stack@)),
        decreases n - i,
    {
        let token = rest.remove(0);
        proof {
            assert(token == tokens@[i as int]);
            assert(all.take(i + 1).drop_last() =~= all.take(i as int));
            assert(all.take(i + 1).last() == token@);
        }
        match token {
            Token::Operator(p) => {
                pop_operators(&mut output, &mut stack, p);
                proof { lemma_tokens_model_push(stack@, token) }
                stack.push(token);
            },
            Token::Parenthesis(Parenthesis::LeftParenthesis) => {
                proof { lemma_tokens_model_push(stack@, token) }
                stack.push(token);
            },
            Token::Parenthesis(Parenthesis::RightParenthesis) => {
                pop_to_left(&mut output, &mut stack);
            },
            _ => {
                proof { lemma_tokens_model_push(output@, token) }
                output.push(token);
            },
        }
        i = i + 1;
        proof {
            assert(rest@ =~= tokens@.skip(i as int));
        }
    }
    proof {
        assert(all.take(n as int) =~= all);
    }
    while stack.len() > 0
        invariant
            flush(tokens_model(output@), tokens_model(stack@)) == to_postfix(all),
        decreases stack@.len(),
    {
        let ghost s0 = stack@;
        let top = stack.pop().unwrap();
        proof {
            lemma_pop_model(s0);
            lemma_tokens_model_push(output@, top);
        }
        output.push(top);
    }
    Ok(output)
}

} // verus!
