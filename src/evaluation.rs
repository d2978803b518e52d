//! What each operator does to its operands, by operand kind.
use vstd::prelude::*;

use crate::decimal::{
    add_spec,
    compare_spec,
    div_spec,
    fits_i64,
    mul_spec,
    sub_spec,
    Decimal,
};
use crate::definition::{literal_result_model, ExpressionError, Literal, LiteralModel, Operator};

verus! {

/// `a ^ e` over unbounded integers.
pub open spec fn pow(a: int, e: nat) -> int
    decreases e,
{
    if e == 0 {
        1
    } else {
        a * pow(a, (e - 1) as nat)
    }
}

/// An integer result, or `Overflow` when it leaves the 64-bit range.
pub open spec fn integer_literal(x: int) -> Result<LiteralModel, ExpressionError> {
    if fits_i64(x) {
        Ok(LiteralModel::Integer(x as i64))
    } else {
        Err(ExpressionError::Overflow)
    }
}

pub open spec fn decimal_literal(r: Result<Decimal, ExpressionError>) -> Result<
    LiteralModel,
    ExpressionError,
> {
    match r {
        Ok(d) => Ok(LiteralModel::Decimal(d)),
        Err(e) => Err(e),
    }
}

/// Division that truncates toward zero.
pub open spec fn truncating_div(a: int, b: int) -> int {
    let q = abs(a) / abs(b);
    if (a < 0) != (b < 0) {
        -q
    } else {
        q
    }
}

pub open spec fn abs(a: int) -> int {
    if a < 0 {
        -a
    } else {
        a
    }
}

pub open spec fn is_comparison(op: Operator) -> bool {
    match op {
        Operator::Equal | Operator::NotEqual | Operator::Greater | Operator::GreaterOrEqual
        | Operator::Less | Operator::LessOrEqual => true,
        _ => false,
    }
}

/// Whether the comparison `op` holds of two values whose order is `c`:
/// -1, 0 or 1 as the left one is less than, equal to or greater than the right.
pub open spec fn comparison_holds(op: Operator, c: int) -> bool {
    match op {
        Operator::Equal => c == 0,
        Operator::NotEqual => c != 0,
        Operator::Greater => c > 0,
        Operator::GreaterOrEqual => c >= 0,
        Operator::Less => c < 0,
        _ => c <= 0,
    }
}

pub open spec fn integer_order(a: int, b: int) -> int {
    if a < b {
        -1
    } else if a == b {
        0
    } else {
        1
    }
}

/// `false` orders before `true`.
pub open spec fn boolean_order(a: bool, b: bool) -> int {
    integer_order(if a { 1 } else { 0 }, if b { 1 } else { 0 })
}

/// Lexicographic order by character code, from position `i` on.
pub open spec fn text_order_from(a: Seq<char>, b: Seq<char>, i: int) -> int
    decreases a.len() - i,
{
    if i < 0 || i >= a.len() || i >= b.len() {
        integer_order(a.len() - i, b.len() - i)
    } else if a[i] != b[i] {
        integer_order(a[i] as u32 as int, b[i] as u32 as int)
    } else {
        text_order_from(a, b, i + 1)
    }
}

/// Lexicographic order of two texts by character code.
pub open spec fn text_order(a: Seq<char>, b: Seq<char>) -> int {
    text_order_from(a, b, 0)
}

pub open spec fn integer_rule(op: Operator, a: i64, b: i64) -> Result<
    LiteralModel,
    ExpressionError,
> {
    if is_comparison(op) {
        Ok(LiteralModel::Boolean(comparison_holds(op, integer_order(a as int, b as int))))
    } else {
        match op {
            Operator::Plus => integer_literal(a + b),
            Operator::Minus => integer_literal(a - b),
            Operator::Multiply => integer_literal(a * b),
            Operator::Divide => if b == 0 {
                Err(ExpressionError::DivisionByZero)
            } else {
                integer_literal(truncating_div(a as int, b as int))
            },
            Operator::PowerOf => if b < 0 {
                Err(ExpressionError::NegativeExponent)
            } else {
                integer_literal(pow(a as int, b as nat))
            },
            _ => Err(ExpressionError::TypeMismatch),
        }
    }
}

pub open spec fn decimal_rule(op: Operator, a: Decimal, b: Decimal) -> Result<
    LiteralModel,
    ExpressionError,
> {
    if is_comparison(op) {
        Ok(LiteralModel::Boolean(comparison_holds(op, compare_spec(a, b))))
    } else {
        match op {
            Operator::Plus => decimal_literal(add_spec(a, b)),
            Operator::Minus => decimal_literal(sub_spec(a, b)),
            Operator::Multiply => decimal_literal(mul_spec(a, b)),
            Operator::Divide => decimal_literal(div_spec(a, b)),
            _ => Err(ExpressionError::TypeMismatch),
        }
    }
}

pub open spec fn boolean_rule(op: Operator, a: bool, b: bool) -> Result<
    LiteralModel,
    ExpressionError,
> {
    if is_comparison(op) {
        Ok(LiteralModel::Boolean(comparison_holds(op, boolean_order(a, b))))
    } else {
        match op {
            Operator::Or => Ok(LiteralModel::Boolean(a || b)),
            Operator::And => Ok(LiteralModel::Boolean(a && b)),
            _ => Err(ExpressionError::TypeMismatch),
        }
    }
}

pub open spec fn string_rule(op: Operator, a: Seq<char>, b: Seq<char>) -> Result<
    LiteralModel,
    ExpressionError,
> {
    if is_comparison(op) {
        Ok(LiteralModel::Boolean(comparison_holds(op, text_order(a, b))))
    } else {
        Err(ExpressionError::TypeMismatch)
    }
}

/// The result of the binary operator `op` on `left` and `right`. An integer
/// paired with a decimal is taken as a decimal first.
pub open spec fn apply_binary(op: Operator, left: LiteralModel, right: LiteralModel) -> Result<
    LiteralModel,
    ExpressionError,
> {
    match (left, right) {
        (LiteralModel::Integer(a), LiteralModel::Integer(b)) => integer_rule(op, a, b),
        (LiteralModel::Decimal(a), LiteralModel::Decimal(b)) => decimal_rule(op, a, b),
        (LiteralModel::Decimal(a), LiteralModel::Integer(b)) => decimal_rule(
            op,
            a,
            Decimal { numerator: b, denominator: 1 },
        ),
        (LiteralModel::Integer(a), LiteralModel::Decimal(b)) => decimal_rule(
            op,
            Decimal { numerator: a, denominator: 1 },
            b,
        ),
        (LiteralModel::Boolean(a), LiteralModel::Boolean(b)) => boolean_rule(op, a, b),
        (LiteralModel::Str(a), LiteralModel::Str(b)) => string_rule(op, a, b),
        _ => Err(ExpressionError::TypeMismatch),
    }
}

/// The unary `!`: it takes a boolean alone.
pub open spec fn apply_not(operand: LiteralModel) -> Result<LiteralModel, ExpressionError> {
    match operand {
        LiteralModel::Boolean(b) => Ok(LiteralModel::Boolean(!b)),
        _ => Err(ExpressionError::TypeMismatch),
    }
}

/// Applies binary operators to literals.
pub struct OperatorExecutor {
    operator_command_factory: OperatorCommandFactory,
}

impl OperatorExecutor {
    pub fn new() -> (r: OperatorExecutor) {
        OperatorExecutor { operator_command_factory: OperatorCommandFactory {  } }
    }

    /// `left_side op right_side`.
    pub fn execute(&self, operator: &Operator, right_side: &Literal, left_side: &Literal) -> (r:
        Result<Literal, ExpressionError>)
        ensures
            literal_result_model(r) == apply_binary(*operator, left_side@, right_side@),
    {
        self.operator_command_factory.get_command(operator).execute_command(right_side, left_side)
    }
}

/// Hands out the command that carries out an operator.
pub struct OperatorCommandFactory {}

impl OperatorCommandFactory {
    pub fn get_command(&self, operator: &Operator) -> (r: OperatorCommand)
        ensures
            r.operator == *operator,
    {
        OperatorCommand { operator: *operator }
    }
}

/// One binary operator, ready to be applied.
pub struct OperatorCommand {
    pub operator: Operator,
}

impl OperatorCommand {
    /// `left_side op right_side`, dispatched on the kinds of the operands.
    pub fn execute_command(&self, right_side: &Literal, left_side: &Literal) -> (r: Result<
        Literal,
        ExpressionError,
    >)
        ensures
            literal_result_model(r) == apply_binary(self.operator, left_side@, right_side@),
    {
        match (left_side, right_side) {
            (Literal::Integer(a), Literal::Integer(b)) => self.eval_integer_literals(*a, *b),
            (Literal::Decimal(a), Literal::Decimal(b)) => self.eval_decimal_literals(*a, *b),
            (Literal::Decimal(a), Literal::Integer(b)) => self.eval_decimal_literals(
                *a,
                Decimal::from_integer(*b),
            ),
            (Literal::Integer(a), Literal::Decimal(b)) => self.eval_decimal_literals(
                Decimal::from_integer(*a),
                *b,
            ),
            (Literal::Boolean(a), Literal::Boolean(b)) => self.eval_boolean_literals(*a, *b),
            (Literal::String(a), Literal::String(b)) => self.eval_string_literals(a, b),
            _ => Err(ExpressionError::TypeMismatch),
        }
    }

    fn eval_integer_literals(&self, left: i64, right: i64) -> (r: Result<Literal, ExpressionError>)
        ensures
            literal_result_model(r) == integer_rule(self.operator, left, right),
    {
        if is_comparison_op(self.operator) {
            let c = if left < right {
                -1
            } else if left == right {
                0
            } else {
                1
            };
            return Ok(Literal::Boolean(order_holds(self.operator, c)));
        }
        match self.operator {
            Operator::Plus => match left.checked_add(right) {
                Some(v) => Ok(Literal::Integer(v)),
                None => Err(ExpressionError::Overflow),
            },
            Operator::Minus => match left.checked_sub(right) {
                Some(v) => Ok(Literal::Integer(v)),
                None => Err(ExpressionError::Overflow),
            },
            Operator::Multiply => match left.checked_mul(right) {
                Some(v) => Ok(Literal::Integer(v)),
                None => Err(ExpressionError::Overflow),
            },
            Operator::Divide => integer_divide(left, right),
            Operator::PowerOf => if right < 0 {
                Err(ExpressionError::NegativeExponent)
            } else {
                integer_power(left, right)
            },
            _ => Err(ExpressionError::TypeMismatch),
        }
    }

    fn eval_decimal_literals(&self, left: Decimal, right: Decimal) -> (r: Result<
        Literal,
        ExpressionError,
    >)
        ensures
            literal_result_model(r) == decimal_rule(self.operator, left, right),
    {
        if is_comparison_op(self.operator) {
            return Ok(Literal::Boolean(order_holds(self.operator, left.compare(right))));
        }
        let r = match self.operator {
            Operator::Plus => left.add(right),
            Operator::Minus => left.sub(right),
            Operator::Multiply => left.mul(right),
            Operator::Divide => left.div(right),
            _ => {
                return Err(ExpressionError::TypeMismatch);
            },
        };
        match r {
            Ok(d) => Ok(Literal::Decimal(d)),
            Err(e) => Err(e),
        }
    }

    fn eval_boolean_literals(&self, left: bool, right: bool) -> (r: Result<Literal, ExpressionError>)
        ensures
            literal_result_model(r) == boolean_rule(self.operator, left, right),
    {
        if is_comparison_op(self.operator) {
            let c = if left == right {
                0
            } else if right {
                -1
            } else {
                1
            };
            return Ok(Literal::Boolean(order_holds(self.operator, c)));
        }
        match self.operator {
            Operator::Or => Ok(Literal::Boolean(left || right)),
            Operator::And => Ok(Literal::Boolean(left && right)),
            _ => Err(ExpressionError::TypeMismatch),
        }
    }

    fn eval_string_literals(&self, left: &String, right: &String) -> (r: Result<
        Literal,
        ExpressionError,
    >)
        ensures
            literal_result_model(r) == string_rule(self.operator, left@, right@),
    {
        if is_comparison_op(self.operator) {
            Ok(Literal::Boolean(order_holds(self.operator, compare_texts(left, right))))
        } else {
            Err(ExpressionError::TypeMismatch)
        }
    }
}

fn is_comparison_op(op: Operator) -> (r: bool)
    ensures
        r == is_comparison(op),
{
    match op {
        Operator::Equal | Operator::NotEqual | Operator::Greater | Operator::GreaterOrEqual
        | Operator::Less | Operator::LessOrEqual => true,
        _ => false,
    }
}

fn order_holds(op: Operator, c: i8) -> (r: bool)
    ensures
        r == comparison_holds(op, c as int),
{
    match op {
        Operator::Equal => c == 0,
        Operator::NotEqual => c != 0,
        Operator::Greater => c > 0,
        Operator::GreaterOrEqual => c >= 0,
        Operator::Less => c < 0,
        _ => c <= 0,
    }
}

/// Lexicographic comparison by character code: -1, 0 or 1.
fn compare_texts(left: &String, right: &String) -> (r: i8)
    ensures
        r as int == text_order(left@, right@),
{
    let a = left.as_str();
    let b = right.as_str();
    let la = a.unicode_len();
    let lb = b.unicode_len();
    let mut i: usize = 0;
    while i < la && i < lb
        invariant
            a@ == left@,
            b@ == right@,
            la == a@.len(),
            lb == b@.len(),
            i <= la,
            i <= lb,
            text_order(a@, b@) == text_order_from(a@, b@, i as int),
        decreases la - i,
    {
        let x = a.get_char(i);
        let y = b.get_char(i);
        if x != y {
            return if (x as u32) < (y as u32) {
                -1
            } else {
                1
            };
        }
        i = i + 1;
    }
    if la - i < lb - i {
        -1
    } else if la - i == lb - i {
        0
    } else {
        1
    }
}

/// Integer division truncating toward zero.
fn integer_divide(a: i64, b: i64) -> (r: Result<Literal, ExpressionError>)
    ensures
        literal_result_model(r) == (if b == 0 {
            Err(ExpressionError::DivisionByZero)
        } else {
            integer_literal(truncating_div(a as int, b as int))
        }),
{
    if b == 0 {
        return Err(ExpressionError::DivisionByZero);
    }
    let wa: i128 = if a < 0 {
        -(a as i128)
    } else {
        a as i128
    };
    let wb: i128 = if b < 0 {
        -(b as i128)
    } else {
        b as i128
    };
    let q: i128 = wa / wb;
    proof {
        assert(0 <= q <= wa) by (nonlinear_arith)
            requires
                q == wa / wb,
                wa >= 0,
                wb > 0,
        ;
    }
    let v: i128 = if (a < 0) != (b < 0) {
        -q
    } else {
        q
    };
    if v < i64::MIN as i128 || v > i64::MAX as i128 {
        Err(ExpressionError::Overflow)
    } else {
        Ok(Literal::Integer(v as i64))
    }
}

proof fn lemma_pow_unit(a: int, e: nat)
    requires
        -1 <= a <= 1,
    ensures
        a == 0 ==> pow(a, e) == if e == 0 {
            1int
        } else {
            0int
        },
        a == 1 ==> pow(a, e) == 1,
        a == -1 ==> pow(a, e) == if e % 2 == 0 {
            1int
        } else {
            -1int
        },
    decreases e,
{
    if e > 0 {
        lemma_pow_unit(a, (e - 1) as nat);
    }
}

/// For a base of magnitude at least two, each step at least doubles the
/// magnitude.
proof fn lemma_pow_grows(a: int, e: nat)
    requires
        abs(a) >= 2,
    ensures
        abs(pow(a, e + 1)) >= 2 * abs(pow(a, e)),
        abs(pow(a, e)) >= 1,
    decreases e,
{
    let p = pow(a, e);
    assert(pow(a, e + 1) == a * p);
    assert(abs(a * p) == abs(a) * abs(p)) by (nonlinear_arith);
    assert(abs(a) * abs(p) >= 2 * abs(p)) by (nonlinear_arith)
        requires
            abs(a) >= 2,
            abs(p) >= 0,
    ;
    if e > 0 {
        lemma_pow_grows(a, (e - 1) as nat);
    }
}

proof fn lemma_pow_monotone(a: int, k: nat, e: nat)
    requires
        abs(a) >= 2,
        k <= e,
    ensures
        abs(pow(a, e)) >= abs(pow(a, k)),
    decreases e - k,
{
    if k < e {
        lemma_pow_monotone(a, k, (e - 1) as nat);
        lemma_pow_grows(a, (e - 1) as nat);
    }
}

/// `a ^ e` in 64 bits, or `Overflow`.
fn integer_power(a: i64, e: i64) -> (r: Result<Literal, ExpressionError>)
    requires
        e >= 0,
    ensures
        literal_result_model(r) == integer_literal(pow(a as int, e as nat)),
{
    if -1 <= a && a <= 1 {
        proof { lemma_pow_unit(a as int, e as nat) }
        if a == 0 {
            return Ok(Literal::Integer(if e == 0 { 1 } else { 0 }));
        } else if a == 1 {
            return Ok(Literal::Integer(1));
        } else {
            return Ok(Literal::Integer(if e % 2 == 0 { 1 } else { -1 }));
        }
    }
    let mut acc: i64 = 1;
    let mut i: i64 = 0;
    while i < e
        invariant
            0 <= i <= e,
            acc as int == pow(a as int, i as nat),
            abs(a as int) >= 2,
        decreases e - i,
    {
        match acc.checked_mul(a) {
            Some(v) => {
                acc = v;
            },
            None => {
                proof {
                    let j = (i + 1) as nat;
                    assert(pow(a as int, j) == a * pow(a as int, i as nat));
                    if (e as nat) > j {
                        lemma_pow_monotone(a as int, (j + 1) as nat, e as nat);
                        lemma_pow_grows(a as int, j);
                    }
                }
                return Err(ExpressionError::Overflow);
            },
        }
        i = i + 1;
    }
    Ok(Literal::Integer(acc))
}

} // verus!
