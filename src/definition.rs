//! The vocabulary shared by every stage: literals, operators, tokens, errors.
use vstd::prelude::*;

use crate::decimal::Decimal;

verus! {

/// Why an evaluation failed.
#[derive(Debug, PartialEq, Eq, Clone, Copy, Structural)]
pub enum ExpressionError {
    /// A digit run does not denote a number of the literal's kind.
    NumberFormat,
    /// A variable has no entry in the context.
    MissingContextKey,
    /// An operator was applied to operands of a kind it does not take.
    TypeMismatch,
    /// An operator found fewer operands on the stack than it takes.
    StackUnderflow,
    /// The evaluation did not end with exactly one value.
    MalformedResult,
    /// A result leaves the 64-bit range.
    Overflow,
    /// A division by zero.
    DivisionByZero,
    /// A power with a negative exponent.
    NegativeExponent,
    /// A variable reached evaluation without having been substituted.
    UnresolvedVariable,
}

#[derive(Debug, PartialEq, Eq, Clone, Copy, Structural)]
pub enum Operator {
    Or,
    And,
    Not,
    NotEqual,
    Equal,
    Greater,
    GreaterOrEqual,
    Less,
    LessOrEqual,
    Plus,
    Minus,
    Divide,
    Multiply,
    PowerOf,
}

#[derive(Debug, PartialEq, Eq, Clone, Copy, Structural)]
pub enum Parenthesis {
    LeftParenthesis,
    RightParenthesis,
}

/// An operator with its symbol, precedence (higher binds tighter) and
/// associativity.
#[derive(Debug, PartialEq, Clone, Copy)]
pub struct OperatorProperties {
    pub precedence: i8,
    pub symbol: &'static str,
    pub left_associative: bool,
    pub operator: Operator,
}

#[derive(Debug, PartialEq)]
pub enum Literal {
    String(String),
    Boolean(bool),
    Decimal(Decimal),
    Integer(i64),
}

#[derive(Debug, PartialEq)]
pub enum Token {
    Operator(OperatorProperties),
    Literal(Literal),
    Variable(String),
    Parenthesis(Parenthesis),
}

/// What a literal holds, with its text as a sequence of characters.
pub enum LiteralModel {
    Str(Seq<char>),
    Boolean(bool),
    Decimal(Decimal),
    Integer(i64),
}

/// What a token holds, with names and texts as sequences of characters.
pub enum TokenModel {
    Operator(OperatorProperties),
    Literal(LiteralModel),
    Variable(Seq<char>),
    Parenthesis(Parenthesis),
}

impl View for Literal {
    type V = LiteralModel;

    open spec fn view(&self) -> LiteralModel {
        match self {
            Literal::String(s) => LiteralModel::Str(s@),
            Literal::Boolean(b) => LiteralModel::Boolean(*b),
            Literal::Decimal(d) => LiteralModel::Decimal(*d),
            Literal::Integer(i) => LiteralModel::Integer(*i),
        }
    }
}

impl View for Token {
    type V = TokenModel;

    open spec fn view(&self) -> TokenModel {
        match self {
            Token::Operator(p) => TokenModel::Operator(*p),
            Token::Literal(l) => TokenModel::Literal(l@),
            Token::Variable(n) => TokenModel::Variable(n@),
            Token::Parenthesis(p) => TokenModel::Parenthesis(*p),
        }
    }
}

/// The models of a sequence of tokens.
pub open spec fn tokens_model(ts: Seq<Token>) -> Seq<TokenModel> {
    ts.map_values(|t: Token| t@)
}

/// The models of a sequence of literals.
pub open spec fn literals_model(ls: Seq<Literal>) -> Seq<LiteralModel> {
    ls.map_values(|l: Literal| l@)
}

/// A token sequence as a result, seen through the models.
pub open spec fn tokens_result_model(r: Result<Vec<Token>, ExpressionError>) -> Result<
    Seq<TokenModel>,
    ExpressionError,
> {
    match r {
        Ok(v) => Ok(tokens_model(v@)),
        Err(e) => Err(e),
    }
}

/// A literal as a result, seen through its model.
pub open spec fn literal_result_model(r: Result<Literal, ExpressionError>) -> Result<
    LiteralModel,
    ExpressionError,
> {
    match r {
        Ok(l) => Ok(l@),
        Err(e) => Err(e),
    }
}

pub proof fn lemma_tokens_model_push(ts: Seq<Token>, t: Token)
    ensures
        tokens_model(ts.push(t)) == tokens_model(ts).push(t@),
{
    assert(tokens_model(ts.push(t)) =~= tokens_model(ts).push(t@));
}

pub proof fn lemma_literals_model_push(ls: Seq<Literal>, l: Literal)
    ensures
        literals_model(ls.push(l)) == literals_model(ls).push(l@),
{
    assert(literals_model(ls.push(l)) =~= literals_model(ls).push(l@));
}

impl OperatorProperties {
    /// Properties that agree with the fixed operator table.
    pub open spec fn wf(self) -> bool {
        self == properties_of(self.operator)
    }

    /// The fixed properties of `operator`.
    pub fn of(operator: Operator) -> (r: OperatorProperties)
        ensures
            r == properties_of(operator),
            r.operator == operator,
            r.wf(),
    {
        match operator {
            Operator::Or => OperatorProperties {
                symbol: "||",
                precedence: 1,
                left_associative: true,
                operator,
            },
            Operator::And => OperatorProperties {
                symbol: "&&",
                precedence: 2,
                left_associative: true,
                operator,
            },
            Operator::NotEqual => OperatorProperties {
                symbol: "!=",
                precedence: 3,
                left_associative: true,
                operator,
            },
            Operator::Equal => OperatorProperties {
                symbol: "==",
                precedence: 3,
                left_associative: true,
                operator,
            },
            Operator::Greater => OperatorProperties {
                symbol: ">",
                precedence: 4,
                left_associative: true,
                operator,
            },
            Operator::GreaterOrEqual => OperatorProperties {
                symbol: ">=",
                precedence: 4,
                left_associative: true,
                operator,
            },
            Operator::Less => OperatorProperties {
                symbol: "<",
                precedence: 4,
                left_associative: true,
                operator,
            },
            Operator::LessOrEqual => OperatorProperties {
                symbol: "<=",
                precedence: 4,
                left_associative: true,
                operator,
            },
            Operator::Plus => OperatorProperties {
                symbol: "+",
                precedence: 5,
                left_associative: true,
                operator,
            },
            Operator::Minus => OperatorProperties {
                symbol: "-",
                precedence: 5,
                left_associative: true,
                operator,
            },
            Operator::Divide => OperatorProperties {
                symbol: "/",
                precedence: 6,
                left_associative: true,
                operator,
            },
            Operator::Multiply => OperatorProperties {
                symbol: "*",
                precedence: 6,
                left_associative: true,
                operator,
            },
            Operator::PowerOf => OperatorProperties {
                symbol: "^",
                precedence: 7,
                left_associative: false,
                operator,
            },
            Operator::Not => OperatorProperties {
                symbol: "!",
                precedence: 8,
                left_associative: true,
                operator,
            },
        }
    }
}

/// The fixed operator table. Precedence: `||` 1, `&&` 2, `==` and `!=` 3,
/// the orderings 4, `+` and `-` 5, `*` and `/` 6, `^` 7, `!` 8; higher binds
/// tighter. Every operator groups from the left but `^`.
pub open spec fn properties_of(operator: Operator) -> OperatorProperties {
    match operator {
        Operator::Or => OperatorProperties {
            symbol: "||",
            precedence: 1,
            left_associative: true,
            operator,
        },
        Operator::And => OperatorProperties {
            symbol: "&&",
            precedence: 2,
            left_associative: true,
            operator,
        },
        Operator::NotEqual => OperatorProperties {
            symbol: "!=",
            precedence: 3,
            left_associative: true,
            operator,
        },
        Operator::Equal => OperatorProperties {
            symbol: "==",
            precedence: 3,
            left_associative: true,
            operator,
        },
        Operator::Greater => OperatorProperties {
            symbol: ">",
            precedence: 4,
            left_associative: true,
            operator,
        },
        Operator::GreaterOrEqual => OperatorProperties {
            symbol: ">=",
            precedence: 4,
            left_associative: true,
            operator,
        },
        Operator::Less => OperatorProperties {
            symbol: "<",
            precedence: 4,
            left_associative: true,
            operator,
        },
        Operator::LessOrEqual => OperatorProperties {
            symbol: "<=",
            precedence: 4,
            left_associative: true,
            operator,
        },
        Operator::Plus => OperatorProperties {
            symbol: "+",
            precedence: 5,
            left_associative: true,
            operator,
        },
        Operator::Minus => OperatorProperties {
            symbol: "-",
            precedence: 5,
            left_associative: true,
            operator,
        },
        Operator::Divide => OperatorProperties {
            symbol: "/",
            precedence: 6,
            left_associative: true,
            operator,
        },
        Operator::Multiply => OperatorProperties {
            symbol: "*",
            precedence: 6,
            left_associative: true,
            operator,
        },
        Operator::PowerOf => OperatorProperties {
            symbol: "^",
            precedence: 7,
            left_associative: false,
            operator,
        },
        Operator::Not => OperatorProperties {
            symbol: "!",
            precedence: 8,
            left_associative: true,
            operator,
        },
    }
}

} // verus!
