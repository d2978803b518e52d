//! Splitting of expression text into tokens.
//!
//! The text is read left to right. A run of letters is a name (`true` and
//! `false` are booleans); a run of digits with at most one `.` is a number; a
//! quote starts a text of letters, ended by the first other character, which is
//! consumed. `||`, `&&` and `==` take two characters (a lone `|`, `&` or `=` is
//! skipped); `!`, `<` and `>` take a following `=` when there is one. Any
//! character that starts no token, white space included, is skipped.
use vstd::prelude::*;

use crate::decimal::{fits_i64, Decimal};
use crate::definition::{
    lemma_tokens_model_push,
    properties_of,
    tokens_model,
    tokens_result_model,
    ExpressionError,
    Literal,
    LiteralModel,
    Operator,
    OperatorProperties,
    Parenthesis,
    Token,
    TokenModel,
};
use crate::evaluation::pow;

verus! {

pub open spec fn is_letter(c: char) -> bool {
    ('A' <= c && c <= 'Z') || ('a' <= c && c <= 'z')
}

pub open spec fn is_digit(c: char) -> bool {
    '0' <= c && c <= '9'
}

/// The end of the run of letters that starts at `i`.
pub open spec fn letters_end(s: Seq<char>, i: int) -> int
    decreases s.len() - i,
{
    if 0 <= i < s.len() && is_letter(s[i]) {
        letters_end(s, i + 1)
    } else {
        i
    }
}

/// The end of the run of digits that starts at `i`.
pub open spec fn digits_end(s: Seq<char>, i: int) -> int
    decreases s.len() - i,
{
    if 0 <= i < s.len() && is_digit(s[i]) {
        digits_end(s, i + 1)
    } else {
        i
    }
}

pub open spec fn digit_value(c: char) -> int {
    c as u32 - '0' as u32
}

/// The number that a sequence of decimal digits denotes.
pub open spec fn digits_value(d: Seq<char>) -> int
    decreases d.len(),
{
    if d.len() == 0 {
        0
    } else {
        digits_value(d.drop_last()) * 10 + digit_value(d.last())
    }
}

/// Whether the number that starts at `i` has a fraction part.
pub open spec fn has_point(s: Seq<char>, i: int) -> bool {
    let e = digits_end(s, i);
    e < s.len() && s[e] == '.'
}

/// The end of the number that starts at `i`.
pub open spec fn number_end(s: Seq<char>, i: int) -> int {
    let e = digits_end(s, i);
    if has_point(s, i) {
        digits_end(s, e + 1)
    } else {
        e
    }
}

/// The literal that the number starting at `i` denotes: a decimal when it has
/// a point, with as many decimal places as digits follow the point; else an
/// integer. Either fails when a part leaves the 64-bit range.
pub open spec fn number_literal(s: Seq<char>, i: int) -> Result<LiteralModel, ExpressionError> {
    let e = digits_end(s, i);
    if has_point(s, i) {
        let f = digits_end(s, e + 1);
        let m = digits_value(s.subrange(i, e) + s.subrange(e + 1, f));
        let d = pow(10, (f - e - 1) as nat);
        if fits_i64(m) && fits_i64(d) {
            Ok(LiteralModel::Decimal(Decimal { numerator: m as i64, denominator: d as i64 }))
        } else {
            Err(ExpressionError::NumberFormat)
        }
    } else {
        let v = digits_value(s.subrange(i, e));
        if fits_i64(v) {
            Ok(LiteralModel::Integer(v as i64))
        } else {
            Err(ExpressionError::NumberFormat)
        }
    }
}

/// A name: a boolean for `true` and `false`, else a variable.
pub open spec fn word_token(w: Seq<char>) -> TokenModel {
    if w == seq!['t', 'r', 'u', 'e'] {
        TokenModel::Literal(LiteralModel::Boolean(true))
    } else if w == seq!['f', 'a', 'l', 's', 'e'] {
        TokenModel::Literal(LiteralModel::Boolean(false))
    } else {
        TokenModel::Variable(w)
    }
}

pub open spec fn operator_token(op: Operator) -> TokenModel {
    TokenModel::Operator(properties_of(op))
}

/// The token of a character that makes one alone.
pub open spec fn single_token(c: char) -> Option<TokenModel> {
    if c == '^' {
        Some(operator_token(Operator::PowerOf))
    } else if c == '+' {
        Some(operator_token(Operator::Plus))
    } else if c == '-' || c == '\u{2212}' {
        Some(operator_token(Operator::Minus))
    } else if c == '*' || c == '\u{d7}' {
        Some(operator_token(Operator::Multiply))
    } else if c == '/' || c == '\u{f7}' {
        Some(operator_token(Operator::Divide))
    } else if c == '(' {
        Some(TokenModel::Parenthesis(Parenthesis::LeftParenthesis))
    } else if c == ')' {
        Some(TokenModel::Parenthesis(Parenthesis::RightParenthesis))
    } else {
        None
    }
}

/// The operator of a doubled character: `||`, `&&`, `==`.
pub open spec fn doubled_operator(c: char) -> Operator {
    if c == '|' {
        Operator::Or
    } else if c == '&' {
        Operator::And
    } else {
        Operator::Equal
    }
}

/// The operators of `!`, `<`, `>`, alone and followed by `=`.
pub open spec fn short_operator(c: char) -> Operator {
    if c == '!' {
        Operator::Not
    } else if c == '<' {
        Operator::Less
    } else {
        Operator::Greater
    }
}

pub open spec fn long_operator(c: char) -> Operator {
    if c == '!' {
        Operator::NotEqual
    } else if c == '<' {
        Operator::LessOrEqual
    } else {
        Operator::GreaterOrEqual
    }
}

/// One scan from `i`, with `0 <= i < s.len()`: the token found there (or none
/// for a skipped character, or the failure) and where the next scan starts.
pub open spec fn scan(s: Seq<char>, i: int) -> (Result<Option<TokenModel>, ExpressionError>, int) {
    let c = s[i];
    if is_letter(c) {
        let e = letters_end(s, i);
        (Ok(Some(word_token(s.subrange(i, e)))), e)
    } else if is_digit(c) {
        match number_literal(s, i) {
            Ok(l) => (Ok(Some(TokenModel::Literal(l))), number_end(s, i)),
            Err(e) => (Err(e), number_end(s, i)),
        }
    } else if c == '\'' || c == '"' {
        let e = letters_end(s, i + 1);
        (
            Ok(Some(TokenModel::Literal(LiteralModel::Str(s.subrange(i + 1, e))))),
            if e < s.len() {
                e + 1
            } else {
                e
            },
        )
    } else if c == '|' || c == '&' || c == '=' {
        if i + 1 < s.len() && s[i + 1] == c {
            (Ok(Some(operator_token(doubled_operator(c)))), i + 2)
        } else {
            (Ok(None), i + 1)
        }
    } else if c == '!' || c == '<' || c == '>' {
        if i + 1 < s.len() && s[i + 1] == '=' {
            (Ok(Some(operator_token(long_operator(c)))), i + 2)
        } else {
            (Ok(Some(operator_token(short_operator(c)))), i + 1)
        }
    } else {
        (Ok(single_token(c)), i + 1)
    }
}

pub(crate) proof fn lemma_letters_end(s: Seq<char>, i: int)
    requires
        0 <= i <= s.len(),
    ensures
        i <= letters_end(s, i) <= s.len(),
        forall|k: int| i <= k < letters_end(s, i) ==> is_letter(#[trigger] s[k]),
        letters_end(s, i) < s.len() ==> !is_letter(s[letters_end(s, i)]),
    decreases s.len() - i,
{
    if i < s.len() && is_letter(s[i]) {
        lemma_letters_end(s, i + 1);
    }
}

pub(crate) proof fn lemma_digits_end(s: Seq<char>, i: int)
    requires
        0 <= i <= s.len(),
    ensures
        i <= digits_end(s, i) <= s.len(),
        forall|k: int| i <= k < digits_end(s, i) ==> is_digit(#[trigger] s[k]),
        digits_end(s, i) < s.len() ==> !is_digit(s[digits_end(s, i)]),
    decreases s.len() - i,
{
    if i < s.len() && is_digit(s[i]) {
        lemma_digits_end(s, i + 1);
    }
}

/// Each scan moves forward and stays within the text.
pub proof fn lemma_scan_advances(s: Seq<char>, i: int)
    requires
        0 <= i < s.len(),
    ensures
        i < scan(s, i).1 <= s.len(),
{
    lemma_letters_end(s, i);
    lemma_letters_end(s, i + 1);
    lemma_digits_end(s, i);
    let e = digits_end(s, i);
    if has_point(s, i) {
        lemma_digits_end(s, e + 1);
    }
}

/// The tokens of `s` from position `i` on, or the first failure.
pub open spec fn tokens_from(s: Seq<char>, i: int) -> Result<Seq<TokenModel>, ExpressionError>
    decreases s.len() - i,
{
    if i < 0 || i >= s.len() {
        Ok(Seq::empty())
    } else {
        proof {
            lemma_scan_advances(s, i);
        }
        let (r, j) = scan(s, i);
        match r {
            Err(e) => Err(e),
            Ok(None) => tokens_from(s, j),
            Ok(Some(t)) => match tokens_from(s, j) {
                Ok(ts) => Ok(seq![t] + ts),
                Err(e) => Err(e),
            },
        }
    }
}

/// The tokens of the text `s`, or the first failure.
pub open spec fn tokenize(s: Seq<char>) -> Result<Seq<TokenModel>, ExpressionError> {
    tokens_from(s, 0)
}

/// A scan's token or failure, seen through the models.
pub open spec fn scanned_model(r: Result<Option<Token>, ExpressionError>) -> Result<
    Option<TokenModel>,
    ExpressionError,
> {
    match r {
        Ok(Some(t)) => Ok(Some(t@)),
        Ok(None) => Ok(None),
        Err(e) => Err(e),
    }
}

/// `prefix` followed by the tokens of `r`, or the failure of `r`.
pub open spec fn after(prefix: Seq<TokenModel>, r: Result<Seq<TokenModel>, ExpressionError>) -> Result<
    Seq<TokenModel>,
    ExpressionError,
> {
    match r {
        Ok(ts) => Ok(prefix + ts),
        Err(e) => Err(e),
    }
}

pub(crate) proof fn lemma_digits_value_grows(a: Seq<char>, b: Seq<char>)
    requires
        forall|k: int| 0 <= k < a.len() ==> is_digit(#[trigger] a[k]),
        forall|k: int| 0 <= k < b.len() ==> is_digit(#[trigger] b[k]),
    ensures
        0 <= digits_value(a) <= digits_value(a + b),
    decreases a.len() + b.len(),
{
    if b.len() > 0 {
        assert((a + b).drop_last() =~= a + b.drop_last());
        assert((a + b).last() == b.last());
        lemma_digits_value_grows(a, b.drop_last());
    } else {
        assert(a + b =~= a);
        if a.len() > 0 {
            lemma_digits_value_grows(a.drop_last(), Seq::empty());
            assert(a.drop_last() + Seq::<char>::empty() =~= a.drop_last());
        }
    }
}

proof fn lemma_pow10_grows(j: nat, k: nat)
    requires
        j <= k,
    ensures
        1 <= pow(10, j) <= pow(10, k),
    decreases k,
{
    if k > 0 {
        if j < k {
            lemma_pow10_grows(j, (k - 1) as nat);
        } else {
            lemma_pow10_grows((j - 1) as nat, (k - 1) as nat);
        }
    }
}

fn is_letter_char(c: char) -> (r: bool)
    ensures
        r == is_letter(c),
{
    ('A' <= c && c <= 'Z') || ('a' <= c && c <= 'z')
}

fn is_digit_char(c: char) -> (r: bool)
    ensures
        r == is_digit(c),
{
    '0' <= c && c <= '9'
}

fn letters_end_at(cs: &Vec<char>, i: usize) -> (e: usize)
    requires
        i <= cs@.len(),
    ensures
        e == letters_end(cs@, i as int),
{
    let mut j = i;
    while j < cs.len() && is_letter_char(cs[j])
        invariant
            i <= j <= cs@.len(),
            letters_end(cs@, j as int) == letters_end(cs@, i as int),
        decreases cs@.len() - j,
    {
        j = j + 1;
    }
    j
}

fn digits_end_at(cs: &Vec<char>, i: usize) -> (e: usize)
    requires
        i <= cs@.len(),
    ensures
        e == digits_end(cs@, i as int),
{
    let mut j = i;
    while j < cs.len() && is_digit_char(cs[j])
        invariant
            i <= j <= cs@.len(),
            digits_end(cs@, j as int) == digits_end(cs@, i as int),
        decreases cs@.len() - j,
    {
        j = j + 1;
    }
    j
}

/// Continues the value `acc` of the digits `prefix` with the digits
/// `cs[from..to]`; `None` when the value leaves the 64-bit range.
fn accumulate_digits(
    cs: &Vec<char>,
    from: usize,
    to: usize,
    acc: i64,
    Ghost(prefix): Ghost<Seq<char>>,
) -> (r: Option<i64>)
    requires
        from <= to <= cs@.len(),
        forall|k: int| from <= k < to ==> is_digit(#[trigger] cs@[k]),
        forall|k: int| 0 <= k < prefix.len() ==> is_digit(#[trigger] prefix[k]),
        acc == digits_value(prefix),
    ensures
        match r {
            Some(v) => v == digits_value(prefix + cs@.subrange(from as int, to as int)),
            None => !fits_i64(digits_value(prefix + cs@.subrange(from as int, to as int))),
        },
{
    let mut v = acc;
    let mut j = from;
    while j < to
        invariant
            from <= j <= to <= cs@.len(),
            forall|k: int| from <= k < to ==> is_digit(#[trigger] cs@[k]),
            forall|k: int| 0 <= k < prefix.len() ==> is_digit(#[trigger] prefix[k]),
            v == digits_value(prefix + cs@.subrange(from as int, j as int)),
        decreases to - j,
    {
        let ghost done = prefix + cs@.subrange(from as int, j as int);
        let ghost next = prefix + cs@.subrange(from as int, j + 1);
        let ghost whole = prefix + cs@.subrange(from as int, to as int);
        proof {
            assert(next.drop_last() =~= done);
            assert(next.last() == cs@[j as int]);
            assert(whole =~= next + cs@.subrange(j + 1, to as int));
            lemma_digits_value_grows(next, cs@.subrange(j + 1, to as int));
        }
        let d = (cs[j] as u32 - '0' as u32) as i64;
        let w = match v.checked_mul(10) {
            Some(w) => w,
            None => {
                return None;
            },
        };
        match w.checked_add(d) {
            Some(x) => {
                v = x;
            },
            None => {
                return None;
            },
        }
        j = j + 1;
    }
    proof {
        assert(cs@.subrange(from as int, j as int) =~= cs@.subrange(from as int, to as int));
    }
    Some(v)
}

/// `10 ^ k`, or `None` when it leaves the 64-bit range.
fn power_of_ten(k: usize) -> (r: Option<i64>)
    ensures
        match r {
            Some(v) => v == pow(10, k as nat),
            None => !fits_i64(pow(10, k as nat)),
        },
{
    let mut v: i64 = 1;
    let mut j: usize = 0;
    while j < k
        invariant
            j <= k,
            v == pow(10, j as nat),
        decreases k - j,
    {
        proof { lemma_pow10_grows((j + 1) as nat, k as nat) }
        match v.checked_mul(10) {
            Some(w) => {
                v = w;
            },
            None => {
                return None;
            },
        }
        j = j + 1;
    }
    Some(v)
}

/// The literal of the number that starts at `i`, and where it ends.
fn extract_number(cs: &Vec<char>, i: usize) -> (r: (Result<Literal, ExpressionError>, usize))
    requires
        i < cs@.len(),
        is_digit(cs@[i as int]),
    ensures
        r.1 == number_end(cs@, i as int),
        match (r.0, number_literal(cs@, i as int)) {
            (Ok(l), Ok(m)) => l@ == m,
            (Err(e), Err(f)) => e == f,
            _ => false,
        },
{
    let ghost s = cs@;
    let e = digits_end_at(cs, i);
    proof { lemma_digits_end(s, i as int) }
    if e < cs.len() && cs[e] == '.' {
        let f = digits_end_at(cs, e + 1);
        proof {
            lemma_digits_end(s, e + 1);
            assert(Seq::<char>::empty() + s.subrange(i as int, e as int) =~= s.subrange(
                i as int,
                e as int,
            ));
        }
        let whole = accumulate_digits(cs, i, e, 0, Ghost(Seq::empty()));
        let m = match whole {
            Some(w) => w,
            None => {
                proof {
                    lemma_digits_value_grows(
                        s.subrange(i as int, e as int),
                        s.subrange(e + 1, f as int),
                    );
                }
                return (Err(ExpressionError::NumberFormat), f);
            },
        };
        let m = match accumulate_digits(cs, e + 1, f, m, Ghost(s.subrange(i as int, e as int))) {
            Some(w) => w,
            None => {
                return (Err(ExpressionError::NumberFormat), f);
            },
        };
        match power_of_ten(f - e - 1) {
            Some(d) => {
                proof { lemma_pow10_grows(0, (f - e - 1) as nat) }
                (Ok(Literal::Decimal(Decimal::new(m, d))), f)
            },
            None => (Err(ExpressionError::NumberFormat), f),
        }
    } else {
        proof {
            assert(Seq::<char>::empty() + s.subrange(i as int, e as int) =~= s.subrange(
                i as int,
                e as int,
            ));
        }
        match accumulate_digits(cs, i, e, 0, Ghost(Seq::empty())) {
            Some(v) => (Ok(Literal::Integer(v)), e),
            None => (Err(ExpressionError::NumberFormat), e),
        }
    }
}

fn operator(op: Operator) -> (r: Token)
    ensures
        r@ == operator_token(op),
{
    Token::Operator(OperatorProperties::of(op))
}

/// A name read from `text[from..to]`.
fn extract_variable_name(text: &str, cs: &Vec<char>, from: usize, to: usize) -> (r: Token)
    requires
        cs@ == text@,
        from <= to <= cs@.len(),
    ensures
        r@ == word_token(cs@.subrange(from as int, to as int)),
{
    let ghost w = cs@.subrange(from as int, to as int);
    if to - from == 4 && cs[from] == 't' && cs[from + 1] == 'r' && cs[from + 2] == 'u' && cs[from
        + 3] == 'e' {
        assert(w =~= seq!['t', 'r', 'u', 'e']);
        return Token::Literal(Literal::Boolean(true));
    }
    if to - from == 5 && cs[from] == 'f' && cs[from + 1] == 'a' && cs[from + 2] == 'l' && cs[from
        + 3] == 's' && cs[from + 4] == 'e' {
        assert(w =~= seq!['f', 'a', 'l', 's', 'e']);
        return Token::Literal(Literal::Boolean(false));
    }
    proof {
        if w == seq!['t', 'r', 'u', 'e'] {
            assert(w[0] == 't' && w[1] == 'r' && w[2] == 'u' && w[3] == 'e');
            assert(w.len() == 4);
        }
        if w == seq!['f', 'a', 'l', 's', 'e'] {
            assert(w[0] == 'f' && w[1] == 'a' && w[2] == 'l' && w[3] == 's' && w[4] == 'e');
            assert(w.len() == 5);
        }
    }
    Token::Variable(String::from_str(text.substring_char(from, to)))
}

/// One scan of `text` from `i`: the token found there, if any, and where the
/// next scan starts.
fn next_token(text: &str, cs: &Vec<char>, i: usize) -> (r: (
    Result<Option<Token>, ExpressionError>,
    usize,
))
    requires
        cs@ == text@,
        i < cs@.len(),
    ensures
        scanned_model(r.0) == scan(cs@, i as int).0,
        r.1 == scan(cs@, i as int).1,
{
    let c = cs[i];
    let n = cs.len();
    if is_letter_char(c) {
        extract_variable(text, cs, i)
    } else if is_digit_char(c) {
        let (r, e) = extract_number(cs, i);
        match r {
            Ok(l) => (Ok(Some(Token::Literal(l))), e),
            Err(err) => (Err(err), e),
        }
    } else if c == '\'' || c == '"' {
        let (t, e) = extract_string_literal(text, cs, i);
        (Ok(Some(t)), e)
    } else if c == '|' || c == '&' || c == '=' {
        let (t, e) = extract_operator(cs, i);
        (Ok(t), e)
    } else if c == '!' || c == '<' || c == '>' {
        let (t, e) = extract_operator_simple(cs, i);
        (Ok(Some(t)), e)
    } else {
        let t = if c == '^' {
            Some(operator(Operator::PowerOf))
        } else if c == '+' {
            Some(operator(Operator::Plus))
        } else if c == '-' || c == '\u{2212}' {
            Some(operator(Operator::Minus))
        } else if c == '*' || c == '\u{d7}' {
            Some(operator(Operator::Multiply))
        } else if c == '/' || c == '\u{f7}' {
            Some(operator(Operator::Divide))
        } else if c == '(' {
            Some(Token::Parenthesis(Parenthesis::LeftParenthesis))
        } else if c == ')' {
            Some(Token::Parenthesis(Parenthesis::RightParenthesis))
        } else {
            None
        };
        (Ok(t), i + 1)
    }
}

/// The name or boolean that starts at `i`, and where it ends.
fn extract_variable(text: &str, cs: &Vec<char>, i: usize) -> (r: (
    Result<Option<Token>, ExpressionError>,
    usize,
))
    requires
        cs@ == text@,
        i < cs@.len(),
        is_letter(cs@[i as int]),
    ensures
        scanned_model(r.0) == scan(cs@, i as int).0,
        r.1 == scan(cs@, i as int).1,
{
    let e = letters_end_at(cs, i);
    proof { lemma_letters_end(cs@, i as int) }
    (Ok(Some(extract_variable_name(text, cs, i, e))), e)
}

/// The text literal whose opening quote is at `i`, and where the next scan
/// starts: past the character that ends it.
fn extract_string_literal(text: &str, cs: &Vec<char>, i: usize) -> (r: (Token, usize))
    requires
        cs@ == text@,
        i < cs@.len(),
        cs@[i as int] == '\'' || cs@[i as int] == '"',
    ensures
        Ok::<Option<TokenModel>, ExpressionError>(Some(r.0@)) == scan(cs@, i as int).0,
        r.1 == scan(cs@, i as int).1,
{
    let n = cs.len();
    let e = letters_end_at(cs, i + 1);
    proof { lemma_letters_end(cs@, i + 1) }
    let t = Token::Literal(Literal::String(String::from_str(text.substring_char(i + 1, e))));
    (t, if e < n {
        e + 1
    } else {
        e
    })
}

/// `||`, `&&` or `==` at `i`; nothing for a lone `|`, `&` or `=`.
fn extract_operator(cs: &Vec<char>, i: usize) -> (r: (Option<Token>, usize))
    requires
        i < cs@.len(),
        cs@[i as int] == '|' || cs@[i as int] == '&' || cs@[i as int] == '=',
    ensures
        scanned_model(Ok(r.0)) == scan(cs@, i as int).0,
        r.1 == scan(cs@, i as int).1,
{
    let c = cs[i];
    let n = cs.len();
    if i + 1 < n && cs[i + 1] == c {
        let op = if c == '|' {
            Operator::Or
        } else if c == '&' {
            Operator::And
        } else {
            Operator::Equal
        };
        (Some(operator(op)), i + 2)
    } else {
        (None, i + 1)
    }
}

/// `!`, `<` or `>` at `i`, taking a following `=` when there is one.
fn extract_operator_simple(cs: &Vec<char>, i: usize) -> (r: (Token, usize))
    requires
        i < cs@.len(),
        cs@[i as int] == '!' || cs@[i as int] == '<' || cs@[i as int] == '>',
    ensures
        Ok::<Option<TokenModel>, ExpressionError>(Some(r.0@)) == scan(cs@, i as int).0,
        r.1 == scan(cs@, i as int).1,
{
    let c = cs[i];
    let n = cs.len();
    if i + 1 < n && cs[i + 1] == '=' {
        let op = if c == '!' {
            Operator::NotEqual
        } else if c == '<' {
            Operator::LessOrEqual
        } else {
            Operator::GreaterOrEqual
        };
        (operator(op), i + 2)
    } else {
        let op = if c == '!' {
            Operator::Not
        } else if c == '<' {
            Operator::Less
        } else {
            Operator::Greater
        };
        (operator(op), i + 1)
    }
}

/// The characters of `text`, in order.
fn chars_of(text: &str) -> (r: Vec<char>)
    ensures
        r@ == text@,
{
    let n = text.unicode_len();
    let mut r: Vec<char> = Vec::new();
    let mut i: usize = 0;
    while i < n
        invariant
            n == text@.len(),
            i <= n,
            r@ == text@.subrange(0, i as int),
        decreases n - i,
    {
        r.push(text.get_char(i));
        i = i + 1;
        assert(r@ =~= text@.subrange(0, i as int));
    }
    assert(text@.subrange(0, n as int) =~= text@);
    r
}

/// The tokens of `expression_string`, in order, or the first failure.
pub fn string_to_tokens(expression_string: &str) -> (r: Result<Vec<Token>, ExpressionError>)
    ensures
        tokens_result_model(r) == tokenize(expression_string@),
{
    let cs = chars_of(expression_string);
    let ghost s = cs@;
    let n = cs.len();
    let mut out: Vec<Token> = Vec::new();
    let mut i: usize = 0;
    assert(after(tokens_model(out@), tokens_from(s, 0)) == tokens_from(s, 0)) by {
        assert(tokens_model(out@) =~= Seq::<TokenModel>::empty());
        match tokens_from(s, 0) {
            Ok(ts) => {
                assert(Seq::<TokenModel>::empty() + ts =~= ts);
            },
            Err(_) => {},
        }
    }
    while i < n
        invariant
            s == cs@,
            cs@ == expression_string@,
            n == s.len(),
            i <= n,
            tokenize(s) == after(tokens_model(out@), tokens_from(s, i as int)),
        decreases n - i,
    {
        proof { lemma_scan_advances(s, i as int) }
        let (r, j) = next_token(expression_string, &cs, i);
        match r {
            Ok(Some(t)) => {
                proof {
                    lemma_tokens_model_push(out@, t);
                    match tokens_from(s, j as int) {
                        Ok(ts) => {
                            assert(tokens_model(out@) + (seq![t@] + ts) =~= tokens_model(out@).push(
                                t@,
                            ) + ts);
                        },
                        Err(_) => {},
                    }
                }
                out.push(t);
            },
            Ok(None) => {},
            Err(e) => {
                return Err(e);
            },
        }
        i = j;
    }
    assert(tokens_model(out@) + Seq::<TokenModel>::empty() =~= tokens_model(out@));
    Ok(out)
}

} // verus!
