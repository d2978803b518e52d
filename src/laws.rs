//! Laws that relate the stages of the pipeline.
use vstd::prelude::*;

use crate::context::{as_text_literal, substitute};
use crate::converter::{flush, pop_for_operator, shunt, to_postfix};
use crate::decimal::fits_i64;
use crate::definition::{properties_of, ExpressionError, LiteralModel, Operator, TokenModel};
use crate::eval::{evaluate_postfix, run_postfix};
use crate::{evaluate_text, evaluate_text_with_context};
use crate::evaluation::pow;
use crate::tokenizer::{
    digit_value,
    digits_end,
    digits_value,
    is_digit,
    has_point,
    is_letter,
    lemma_digits_end,
    lemma_digits_value_grows,
    lemma_letters_end,
    letters_end,
    word_token,
    operator_token,
    scan,
    tokenize,
    tokens_from,
};

verus! {

/// The character of a decimal digit `d`, `0 <= d <= 9`.
pub open spec fn digit_char(d: int) -> char {
    if d == 0 {
        '0'
    } else if d == 1 {
        '1'
    } else if d == 2 {
        '2'
    } else if d == 3 {
        '3'
    } else if d == 4 {
        '4'
    } else if d == 5 {
        '5'
    } else if d == 6 {
        '6'
    } else if d == 7 {
        '7'
    } else if d == 8 {
        '8'
    } else {
        '9'
    }
}

/// The decimal text of `n`, without leading zeros.
pub open spec fn decimal_text(n: nat) -> Seq<char>
    decreases n,
{
    if n < 10 {
        seq![digit_char(n as int)]
    } else {
        decimal_text(n / 10).push(digit_char((n % 10) as int))
    }
}

proof fn lemma_digit_char(d: int)
    requires
        0 <= d <= 9,
    ensures
        is_digit(digit_char(d)),
        digit_value(digit_char(d)) == d,
{
}

/// The decimal text of `n` is a non-empty run of digits that denotes `n`.
proof fn lemma_decimal_text(n: nat)
    ensures
        decimal_text(n).len() >= 1,
        forall|k: int| 0 <= k < decimal_text(n).len() ==> is_digit(#[trigger] decimal_text(n)[k]),
        digits_value(decimal_text(n)) == n,
    decreases n,
{
    let t = decimal_text(n);
    if n < 10 {
        lemma_digit_char(n as int);
        assert(t.drop_last() =~= Seq::<char>::empty());
        assert(digits_value(Seq::<char>::empty()) == 0);
    } else {
        lemma_decimal_text(n / 10);
        lemma_digit_char((n % 10) as int);
        assert(t.drop_last() =~= decimal_text(n / 10));
        assert(n == (n / 10) * 10 + n % 10) by (nonlinear_arith);
    }
}

proof fn lemma_digits_end_of_run(s: Seq<char>, i: int, e: int)
    requires
        0 <= i <= e <= s.len(),
        forall|k: int| i <= k < e ==> is_digit(#[trigger] s[k]),
        e < s.len() ==> !is_digit(s[e]),
    ensures
        digits_end(s, i) == e,
    decreases e - i,
{
    if i < e {
        lemma_digits_end_of_run(s, i + 1, e);
    }
}

/// A run of digits `s[i..e]` not followed by a digit or a point scans as
/// one integer.
proof fn lemma_integer_scan(s: Seq<char>, i: int, e: int)
    requires
        0 <= i < e <= s.len(),
        forall|k: int| i <= k < e ==> is_digit(#[trigger] s[k]),
        e < s.len() ==> !is_digit(s[e]) && s[e] != '.',
        fits_i64(digits_value(s.subrange(i, e))),
    ensures
        scan(s, i) == (
            Ok::<Option<TokenModel>, ExpressionError>(
                Some(
                    TokenModel::Literal(
                        LiteralModel::Integer(digits_value(s.subrange(i, e)) as i64),
                    ),
                ),
            ),
            e,
        ),
{
    lemma_digits_end_of_run(s, i, e);
    assert(is_digit(s[i]));
}

/// The tokens of `a op b`, with one space on each side of the operator text
/// `op` (`+` or `==`).
proof fn lemma_tokenize_binary(a: nat, b: nat, op: Seq<char>, operator: Operator)
    requires
        fits_i64(a as int),
        fits_i64(b as int),
        (op == seq!['+'] && operator == Operator::Plus) || (op == seq!['=', '=']
            && operator == Operator::Equal),
    ensures
        tokenize(decimal_text(a) + (seq![' '] + op + seq![' ']) + decimal_text(b)) == Ok::<
            Seq<TokenModel>,
            ExpressionError,
        >(
            seq![
                TokenModel::Literal(LiteralModel::Integer(a as i64)),
                operator_token(operator),
                TokenModel::Literal(LiteralModel::Integer(b as i64)),
            ],
        ),
{
    let da = decimal_text(a);
    let db = decimal_text(b);
    let mid = seq![' '] + op + seq![' '];
    let s = da + mid + db;
    let p = da.len() as int;
    let q = p + mid.len();
    lemma_decimal_text(a);
    lemma_decimal_text(b);
    assert(s.subrange(0, p) =~= da);
    assert(s.subrange(q, s.len() as int) =~= db);
    assert forall|k: int| 0 <= k < p implies is_digit(#[trigger] s[k]) by {
        assert(s[k] == da[k]);
    }
    assert forall|k: int| q <= k < s.len() implies is_digit(#[trigger] s[k]) by {
        assert(s[k] == db[k - q]);
    }
    let ta = TokenModel::Literal(LiteralModel::Integer(a as i64));
    let tb = TokenModel::Literal(LiteralModel::Integer(b as i64));
    let to = operator_token(operator);
    assert(s[p] == ' ');
    lemma_integer_scan(s, 0, p);
    lemma_integer_scan(s, q, s.len() as int);
    assert(tokens_from(s, s.len() as int) == Ok::<Seq<TokenModel>, ExpressionError>(
        Seq::empty(),
    ));
    assert(tokens_from(s, q) == Ok::<Seq<TokenModel>, ExpressionError>(seq![tb])) by {
        assert(seq![tb] + Seq::<TokenModel>::empty() =~= seq![tb]);
    }
    assert(s[q - 1] == ' ');
    assert(tokens_from(s, q - 1) == tokens_from(s, q));
    if operator == Operator::Plus {
        assert(s[p + 1] == '+');
        assert(tokens_from(s, p + 1) == Ok::<Seq<TokenModel>, ExpressionError>(seq![to, tb])) by {
            assert(seq![to] + seq![tb] =~= seq![to, tb]);
        }
    } else {
        assert(s[p + 1] == '=');
        assert(s[p + 2] == '=');
        assert(tokens_from(s, p + 1) == Ok::<Seq<TokenModel>, ExpressionError>(seq![to, tb])) by {
            assert(seq![to] + seq![tb] =~= seq![to, tb]);
        }
    }
    assert(tokens_from(s, p) == tokens_from(s, p + 1));
    assert(tokens_from(s, 0) == Ok::<Seq<TokenModel>, ExpressionError>(seq![ta, to, tb])) by {
        assert(seq![ta] + seq![to, tb] =~= seq![ta, to, tb]);
    }
}

/// Two operands around a binary operator go to postfix order, and evaluate
/// by the operator's rule.
proof fn lemma_postfix_binary(x: TokenModel, y: TokenModel, operator: Operator)
    requires
        x is Literal,
        y is Literal,
        operator != Operator::Not,
    ensures
        to_postfix(seq![x, operator_token(operator), y]) == seq![x, y, operator_token(operator)],
        evaluate_postfix(seq![x, y, operator_token(operator)]) == crate::evaluation::apply_binary(
            operator,
            x->Literal_0,
            y->Literal_0,
        ),
{
    let o = operator_token(operator);
    let ts = seq![x, o, y];
    let empty = Seq::<TokenModel>::empty();
    assert(ts.drop_last() =~= seq![x, o]);
    assert(seq![x, o].drop_last() =~= seq![x]);
    assert(seq![x].drop_last() =~= empty);
    assert(shunt(empty) == (empty, empty));
    assert(empty.push(x) =~= seq![x]);
    assert(shunt(seq![x]) == (seq![x], empty));
    assert(pop_for_operator(seq![x], empty, properties_of(operator)) == (seq![x], empty));
    assert(empty.push(o) =~= seq![o]);
    assert(shunt(seq![x, o]) == (seq![x], seq![o]));
    assert(seq![x].push(y) =~= seq![x, y]);
    assert(shunt(ts) == (seq![x, y], seq![o]));
    assert(seq![o].drop_last() =~= empty);
    assert(seq![x, y].push(o) =~= seq![x, y, o]);
    assert(flush(seq![x, y, o], empty) == seq![x, y, o]);
    assert(flush(seq![x, y], seq![o]) == seq![x, y, o]);
    let ps = seq![x, y, o];
    let lx = x->Literal_0;
    let ly = y->Literal_0;
    let none = Seq::<crate::definition::LiteralModel>::empty();
    assert(ps.drop_last() =~= seq![x, y]);
    assert(seq![x, y].drop_last() =~= seq![x]);
    assert(run_postfix(empty) == Ok::<Seq<LiteralModel>, ExpressionError>(none));
    assert(none.push(lx) =~= seq![lx]);
    assert(run_postfix(seq![x]) == Ok::<Seq<LiteralModel>, ExpressionError>(seq![lx]));
    assert(seq![lx].push(ly) =~= seq![lx, ly]);
    assert(run_postfix(seq![x, y]) == Ok::<Seq<LiteralModel>, ExpressionError>(seq![lx, ly]));
    assert(seq![lx, ly].subrange(0, 0) =~= none);
    match crate::evaluation::apply_binary(operator, lx, ly) {
        Ok(v) => {
            assert(none.push(v) =~= seq![v]);
        },
        Err(_) => {},
    }
}

/// For non-negative integers `a` and `b` whose sum fits in 64 bits, the
/// expression `a + b` evaluates to the integer `a + b`.
pub proof fn law_integer_sum(a: nat, b: nat)
    requires
        a + b <= i64::MAX,
    ensures
        evaluate_text(decimal_text(a) + seq![' ', '+', ' '] + decimal_text(b)) == Ok::<
            LiteralModel,
            ExpressionError,
        >(LiteralModel::Integer((a + b) as i64)),
{
    assert(seq![' '] + seq!['+'] + seq![' '] =~= seq![' ', '+', ' ']);
    lemma_tokenize_binary(a, b, seq!['+'], Operator::Plus);
    lemma_postfix_binary(
        TokenModel::Literal(LiteralModel::Integer(a as i64)),
        TokenModel::Literal(LiteralModel::Integer(b as i64)),
        Operator::Plus,
    );
}

/// For non-negative 64-bit integers `a` and `b`, the expression `a == b`
/// evaluates to whether they are equal.
pub proof fn law_integer_equality(a: nat, b: nat)
    requires
        a <= i64::MAX,
        b <= i64::MAX,
    ensures
        evaluate_text(decimal_text(a) + seq![' ', '=', '=', ' '] + decimal_text(b)) == Ok::<
            LiteralModel,
            ExpressionError,
        >(LiteralModel::Boolean(a == b)),
{
    assert(seq![' '] + seq!['=', '='] + seq![' '] =~= seq![' ', '=', '=', ' ']);
    lemma_tokenize_binary(a, b, seq!['=', '='], Operator::Equal);
    lemma_postfix_binary(
        TokenModel::Literal(LiteralModel::Integer(a as i64)),
        TokenModel::Literal(LiteralModel::Integer(b as i64)),
        Operator::Equal,
    );
}

/// `n` zeros.
pub open spec fn zeros(n: nat) -> Seq<char>
    decreases n,
{
    if n == 0 {
        Seq::empty()
    } else {
        zeros((n - 1) as nat).push('0')
    }
}

/// The decimal text of `n`, with leading zeros up to `width` digits.
pub open spec fn padded_text(n: nat, width: nat) -> Seq<char> {
    let t = decimal_text(n);
    if t.len() < width {
        zeros((width - t.len()) as nat) + t
    } else {
        t
    }
}

/// The number of decimal places of a denominator `10 ^ k`: `k`.
pub open spec fn decimal_places(denominator: int) -> nat
    decreases denominator,
{
    if denominator < 10 {
        0
    } else {
        1 + decimal_places(denominator / 10)
    }
}

/// The text of `numerator / 10 ^ places` with exactly `places` digits after
/// the point.
pub open spec fn point_text(numerator: nat, places: nat) -> Seq<char> {
    let p = padded_text(numerator, places + 1);
    p.subrange(0, p.len() - places) + seq!['.'] + p.subrange(p.len() - places, p.len() as int)
}

/// A literal as the tokenizer reads it.
pub open spec fn literal_text(l: LiteralModel) -> Seq<char> {
    match l {
        LiteralModel::Str(t) => seq!['\''] + t + seq!['\''],
        LiteralModel::Boolean(b) => if b {
            seq!['t', 'r', 'u', 'e']
        } else {
            seq!['f', 'a', 'l', 's', 'e']
        },
        LiteralModel::Integer(i) => decimal_text(i as nat),
        LiteralModel::Decimal(d) => point_text(
            d.numerator as nat,
            decimal_places(d.denominator as int),
        ),
    }
}

/// The literals that the tokenizer yields: a text of letters, a boolean, a
/// non-negative integer, or a non-negative decimal whose denominator is a
/// power of ten.
pub open spec fn is_token_literal(l: LiteralModel) -> bool {
    match l {
        LiteralModel::Str(t) => forall|k: int| 0 <= k < t.len() ==> is_letter(#[trigger] t[k]),
        LiteralModel::Boolean(_) => true,
        LiteralModel::Integer(i) => i >= 0,
        LiteralModel::Decimal(d) => d.numerator >= 0 && d.denominator == pow(
            10,
            decimal_places(d.denominator as int),
        ),
    }
}

proof fn lemma_zeros(n: nat)
    ensures
        zeros(n).len() == n,
        forall|k: int| 0 <= k < n ==> #[trigger] zeros(n)[k] == '0',
        digits_value(zeros(n)) == 0,
    decreases n,
{
    if n > 0 {
        lemma_zeros((n - 1) as nat);
        assert(zeros(n).drop_last() =~= zeros((n - 1) as nat));
    } else {
        assert(digits_value(zeros(n)) == 0);
    }
}

proof fn lemma_digits_value_concat(a: Seq<char>, b: Seq<char>)
    ensures
        digits_value(a + b) == digits_value(a) * pow(10, b.len()) + digits_value(b),
    decreases b.len(),
{
    if b.len() == 0 {
        assert(a + b =~= a);
        assert(digits_value(b) == 0);
    } else {
        let b1 = b.drop_last();
        assert((a + b).drop_last() =~= a + b1);
        assert((a + b).last() == b.last());
        lemma_digits_value_concat(a, b1);
        let x = digits_value(a);
        let y = pow(10, b1.len());
        let v = digits_value(b1);
        let l = digit_value(b.last());
        assert(pow(10, b.len()) == 10 * y);
        assert((x * y + v) * 10 + l == x * (10 * y) + (v * 10 + l)) by (nonlinear_arith);
    }
}

/// The padded text of `n` is a run of at least `width` digits that denotes `n`.
proof fn lemma_padded_text(n: nat, width: nat)
    ensures
        padded_text(n, width).len() >= width,
        padded_text(n, width).len() >= 1,
        forall|k: int| 0 <= k < padded_text(n, width).len() ==> is_digit(
            #[trigger] padded_text(n, width)[k],
        ),
        digits_value(padded_text(n, width)) == n,
{
    let t = decimal_text(n);
    lemma_decimal_text(n);
    if t.len() < width {
        let z = zeros((width - t.len()) as nat);
        lemma_zeros((width - t.len()) as nat);
        lemma_digits_value_concat(z, t);
        let p = z + t;
        assert forall|k: int| 0 <= k < p.len() implies is_digit(#[trigger] p[k]) by {
            if k < z.len() {
                assert(p[k] == z[k]);
            } else {
                assert(p[k] == t[k - z.len()]);
            }
        }
    }
}

proof fn lemma_letters_end_of_run(s: Seq<char>, i: int, e: int)
    requires
        0 <= i <= e <= s.len(),
        forall|k: int| i <= k < e ==> is_letter(#[trigger] s[k]),
        e < s.len() ==> !is_letter(s[e]),
    ensures
        letters_end(s, i) == e,
    decreases e - i,
{
    if i < e {
        lemma_letters_end_of_run(s, i + 1, e);
    }
}

/// A scan that takes the whole text as one token tokenizes it to that token.
proof fn lemma_single_scan(s: Seq<char>, t: TokenModel)
    requires
        s.len() > 0,
        scan(s, 0) == (Ok::<Option<TokenModel>, ExpressionError>(Some(t)), s.len() as int),
    ensures
        tokenize(s) == Ok::<Seq<TokenModel>, ExpressionError>(seq![t]),
{
    assert(tokens_from(s, s.len() as int) == Ok::<Seq<TokenModel>, ExpressionError>(
        Seq::empty(),
    ));
    assert(seq![t] + Seq::<TokenModel>::empty() =~= seq![t]);
}

/// Tokenizing the text of a literal that the tokenizer yields gives back that
/// literal, alone.
pub proof fn law_literal_text_round_trip(l: LiteralModel)
    requires
        is_token_literal(l),
    ensures
        tokenize(literal_text(l)) == Ok::<Seq<TokenModel>, ExpressionError>(
            seq![TokenModel::Literal(l)],
        ),
{
    let s = literal_text(l);
    match l {
        LiteralModel::Str(t) => {
            let e = t.len() + 1int;
            assert forall|k: int| 1 <= k < e implies is_letter(#[trigger] s[k]) by {
                assert(s[k] == t[k - 1]);
            }
            assert(s[e] == '\'');
            lemma_letters_end_of_run(s, 1, e);
            assert(s.subrange(1, e) =~= t);
            assert(s[0] == '\'');
            lemma_single_scan(s, TokenModel::Literal(l));
        },
        LiteralModel::Boolean(b) => {
            if b {
                lemma_letters_end_of_run(s, 0, 4);
                assert(s.subrange(0, 4) =~= s);
            } else {
                lemma_letters_end_of_run(s, 0, 5);
                assert(s.subrange(0, 5) =~= s);
            }
            lemma_single_scan(s, TokenModel::Literal(l));
        },
        LiteralModel::Integer(i) => {
            lemma_decimal_text(i as nat);
            assert(s.subrange(0, s.len() as int) =~= s);
            lemma_integer_scan(s, 0, s.len() as int);
            lemma_single_scan(s, TokenModel::Literal(l));
        },
        LiteralModel::Decimal(d) => {
            let k = decimal_places(d.denominator as int);
            let p = padded_text(d.numerator as nat, k + 1);
            lemma_padded_text(d.numerator as nat, k + 1);
            let e1 = p.len() - k;
            let head = p.subrange(0, e1);
            let tail = p.subrange(e1, p.len() as int);
            assert(s == head + seq!['.'] + tail);
            assert forall|j: int| 0 <= j < e1 implies is_digit(#[trigger] s[j]) by {
                assert(s[j] == p[j]);
            }
            assert forall|j: int| e1 + 1 <= j < s.len() implies is_digit(#[trigger] s[j]) by {
                assert(s[j] == p[j - 1]);
            }
            assert(s[e1] == '.');
            lemma_digits_end_of_run(s, 0, e1);
            lemma_digits_end_of_run(s, e1 + 1, s.len() as int);
            assert(s.subrange(0, e1) + s.subrange(e1 + 1, s.len() as int) =~= p);
            assert(s.len() - e1 - 1 == k);
            assert(is_digit(s[0]));
            lemma_single_scan(s, TokenModel::Literal(l));
        },
    }
}

proof fn lemma_decimal_places(k: nat)
    ensures
        decimal_places(pow(10, k)) == k,
    decreases k,
{
    if k > 0 {
        let x = pow(10, (k - 1) as nat);
        lemma_pow10_positive((k - 1) as nat);
        assert(pow(10, k) == 10 * x);
        assert((10 * x) / 10 == x);
        lemma_decimal_places((k - 1) as nat);
    }
}

proof fn lemma_pow10_positive(k: nat)
    ensures
        pow(10, k) >= 1,
    decreases k,
{
    if k > 0 {
        lemma_pow10_positive((k - 1) as nat);
    }
}

/// The literal found by one scan is one whose text round-trips.
proof fn lemma_scan_literal(s: Seq<char>, i: int)
    requires
        0 <= i < s.len(),
    ensures
        match scan(s, i).0 {
            Ok(Some(TokenModel::Literal(l))) => is_token_literal(l),
            _ => true,
        },
{
    let c = s[i];
    if is_letter(c) {
        let w = s.subrange(i, letters_end(s, i));
        assert(word_token(w) is Variable || word_token(w) == TokenModel::Literal(
            LiteralModel::Boolean(true),
        ) || word_token(w) == TokenModel::Literal(LiteralModel::Boolean(false)));
    } else if is_digit(c) {
        lemma_digits_end(s, i);
        let e = digits_end(s, i);
        let head = s.subrange(i, e);
        assert forall|k: int| 0 <= k < head.len() implies is_digit(#[trigger] head[k]) by {
            assert(head[k] == s[i + k]);
        }
        if has_point(s, i) {
            lemma_digits_end(s, e + 1);
            let f = digits_end(s, e + 1);
            let tail = s.subrange(e + 1, f);
            assert forall|k: int| 0 <= k < tail.len() implies is_digit(#[trigger] tail[k]) by {
                assert(tail[k] == s[e + 1 + k]);
            }
            let m = head + tail;
            assert forall|k: int| 0 <= k < m.len() implies is_digit(#[trigger] m[k]) by {
                if k < head.len() {
                    assert(m[k] == head[k]);
                } else {
                    assert(m[k] == tail[k - head.len()]);
                }
            }
            lemma_digits_value_grows(m, Seq::empty());
            assert(m + Seq::<char>::empty() =~= m);
            lemma_decimal_places((f - e - 1) as nat);
        } else {
            lemma_digits_value_grows(head, Seq::empty());
            assert(head + Seq::<char>::empty() =~= head);
        }
    } else if c == '\'' || c == '"' {
        lemma_letters_end(s, i + 1);
        let t = s.subrange(i + 1, letters_end(s, i + 1));
        assert forall|k: int| 0 <= k < t.len() implies is_letter(#[trigger] t[k]) by {
            assert(t[k] == s[i + 1 + k]);
        }
    }
}

proof fn lemma_tokens_from_literals(s: Seq<char>, i: int)
    requires
        0 <= i,
    ensures
        match tokens_from(s, i) {
            Ok(ts) => forall|k: int|
                0 <= k < ts.len() && (#[trigger] ts[k]) is Literal ==> is_token_literal(
                    ts[k]->Literal_0,
                ),
            Err(_) => true,
        },
    decreases s.len() - i,
{
    if i < s.len() {
        crate::tokenizer::lemma_scan_advances(s, i);
        lemma_scan_literal(s, i);
        let (r, j) = scan(s, i);
        lemma_tokens_from_literals(s, j);
        match r {
            Ok(Some(t)) => match tokens_from(s, j) {
                Ok(rest) => {
                    let all = seq![t] + rest;
                    assert forall|k: int|
                        0 <= k < all.len() && (#[trigger] all[k]) is Literal implies is_token_literal(
                        all[k]->Literal_0,
                    ) by {
                        if k > 0 {
                            assert(all[k] == rest[k - 1]);
                        }
                    }
                },
                Err(_) => {},
            },
            _ => {},
        }
    }
}

/// Every literal that tokenizing a text yields is one whose text, tokenized
/// again, gives it back alone (see `law_literal_text_round_trip`).
pub proof fn law_tokenized_literals_round_trip(s: Seq<char>, k: int)
    requires
        tokenize(s) is Ok,
        0 <= k < tokenize(s)->Ok_0.len(),
        tokenize(s)->Ok_0[k] is Literal,
    ensures
        is_token_literal(tokenize(s)->Ok_0[k]->Literal_0),
        tokenize(literal_text(tokenize(s)->Ok_0[k]->Literal_0)) == Ok::<
            Seq<TokenModel>,
            ExpressionError,
        >(seq![tokenize(s)->Ok_0[k]]),
{
    lemma_tokens_from_literals(s, 0);
    law_literal_text_round_trip(tokenize(s)->Ok_0[k]->Literal_0);
}

/// Whether the text of every variable of `ts` in `ctx` is one literal.
pub open spec fn single_literal_values(ts: Seq<TokenModel>, ctx: Map<Seq<char>, Seq<char>>) -> bool {
    forall|k: int|
        0 <= k < ts.len() && (#[trigger] ts[k]) is Variable ==> {
            let n = ts[k]->Variable_0;
            &&& ctx.contains_key(n)
            &&& tokenize(ctx[n]) is Ok
            &&& tokenize(ctx[n])->Ok_0.len() == 1
            &&& tokenize(ctx[n])->Ok_0[0] is Literal
        }
}

/// A token with a variable replaced by the one literal of its text.
pub open spec fn resolved(t: TokenModel, ctx: Map<Seq<char>, Seq<char>>) -> TokenModel {
    match t {
        TokenModel::Variable(n) => tokenize(ctx[n])->Ok_0[0],
        _ => t,
    }
}

/// Where the text of each variable is one literal, substitution replaces each
/// variable by that literal and leaves every other token as it is; evaluation
/// then goes on as for those tokens written out.
pub proof fn law_single_token_substitution(ts: Seq<TokenModel>, ctx: Map<Seq<char>, Seq<char>>)
    requires
        single_literal_values(ts, ctx),
    ensures
        substitute(ts, ctx) == Ok::<Seq<TokenModel>, ExpressionError>(
            ts.map_values(|t: TokenModel| resolved(t, ctx)),
        ),
    decreases ts.len(),
{
    if ts.len() > 0 {
        let init = ts.drop_last();
        assert forall|k: int| 0 <= k < init.len() && (#[trigger] init[k]) is Variable implies {
            let n = init[k]->Variable_0;
            &&& ctx.contains_key(n)
            &&& tokenize(ctx[n]) is Ok
            &&& tokenize(ctx[n])->Ok_0.len() == 1
            &&& tokenize(ctx[n])->Ok_0[0] is Literal
        } by {
            assert(init[k] == ts[k]);
        }
        law_single_token_substitution(init, ctx);
        let t = ts.last();
        assert(t == ts[ts.len() - 1]);
        let x = seq![resolved(t, ctx)];
        match t {
            TokenModel::Variable(n) => {
                let us = tokenize(ctx[n])->Ok_0;
                assert(us.map_values(|u: TokenModel| as_text_literal(u)) =~= x);
            },
            _ => {},
        }
        assert(init.map_values(|u: TokenModel| resolved(u, ctx)) + x =~= ts.map_values(
            |u: TokenModel| resolved(u, ctx),
        ));
    } else {
        assert(ts.map_values(|t: TokenModel| resolved(t, ctx)) =~= Seq::<TokenModel>::empty());
    }
}

/// The evaluation with a context whose values are single literals is the
/// evaluation of the tokens with those literals in place of the variables.
pub proof fn law_single_token_evaluation(s: Seq<char>, ctx: Map<Seq<char>, Seq<char>>)
    requires
        tokenize(s) is Ok,
        single_literal_values(tokenize(s)->Ok_0, ctx),
    ensures
        evaluate_text_with_context(s, ctx) == evaluate_postfix(
            to_postfix(tokenize(s)->Ok_0.map_values(|t: TokenModel| resolved(t, ctx))),
        ),
{
    law_single_token_substitution(tokenize(s)->Ok_0, ctx);
}

} // verus!
