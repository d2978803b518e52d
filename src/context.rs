//! Substitution of variables by the tokens of their text in a context.
use vstd::prelude::*;

use crate::definition::{
    lemma_tokens_model_push,
    tokens_model,
    tokens_result_model,
    ExpressionError,
    Literal,
    LiteralModel,
    Token,
    TokenModel,
};
use crate::tokenizer::{string_to_tokens, tokenize};

verus! {

/// A mapping from variable names to the text that replaces them.
pub struct Context {
    entries: Vec<(String, String)>,
}

/// The mapping that a list of entries makes; a later entry for a name
/// replaces an earlier one.
pub closed spec fn entries_map(es: Seq<(String, String)>) -> Map<Seq<char>, Seq<char>>
    decreases es.len(),
{
    if es.len() == 0 {
        Map::empty()
    } else {
        entries_map(es.drop_last()).insert(es.last().0@, es.last().1@)
    }
}

impl View for Context {
    type V = Map<Seq<char>, Seq<char>>;

    closed spec fn view(&self) -> Map<Seq<char>, Seq<char>> {
        entries_map(self.entries@)
    }
}

/// Past the last entry for `name` the mapping is that of the entries before.
proof fn lemma_entries_suffix(es: Seq<(String, String)>, k: int, name: Seq<char>)
    requires
        0 <= k <= es.len(),
        forall|j: int| k <= j < es.len() ==> (#[trigger] es[j]).0@ != name,
    ensures
        entries_map(es).contains_key(name) == entries_map(es.take(k)).contains_key(name),
        entries_map(es).contains_key(name) ==> entries_map(es)[name] == entries_map(
            es.take(k),
        )[name],
    decreases es.len() - k,
{
    if k < es.len() {
        let es2 = es.drop_last();
        assert(es2.take(k) =~= es.take(k));
        assert forall|j: int| k <= j < es2.len() implies (#[trigger] es2[j]).0@ != name by {
            assert(es2[j] == es[j]);
        }
        lemma_entries_suffix(es2, k, name);
        assert(es.last() == es[es.len() - 1]);
    } else {
        assert(es.take(k) =~= es);
    }
}

impl Context {
    pub fn new() -> (r: Context)
        ensures
            r@ == Map::<Seq<char>, Seq<char>>::empty(),
    {
        Context { entries: Vec::new() }
    }

    /// Maps `name` to `text`, replacing what `name` was mapped to.
    pub fn insert(&mut self, name: &str, text: &str)
        ensures
            final(self)@ == old(self)@.insert(name@, text@),
    {
        let entry = (String::from_str(name), String::from_str(text));
        let ghost before = self.entries@;
        self.entries.push(entry);
        proof {
            assert(self.entries@.drop_last() =~= before);
        }
    }

    /// The text that `name` is mapped to.
    pub fn get(&self, name: &String) -> (r: Option<&String>)
        ensures
            match r {
                Some(v) => self@.contains_key(name@) && self@[name@] == v@,
                None => !self@.contains_key(name@),
            },
    {
        let ghost es = self.entries@;
        let mut k = self.entries.len();
        while k > 0
            invariant
                es == self.entries@,
                k <= es.len(),
                forall|j: int| k <= j < es.len() ==> (#[trigger] es[j]).0@ != name@,
            decreases k,
        {
            if self.entries[k - 1].0 == *name {
                proof {
                    lemma_entries_suffix(es, k as int, name@);
                    let t = es.take(k as int);
                    assert(t.drop_last() =~= es.take(k - 1));
                    assert(t.last() == es[k - 1]);
                }
                return Some(&self.entries[k - 1].1);
            }
            k = k - 1;
        }
        proof {
            lemma_entries_suffix(es, 0, name@);
            assert(es.take(0) =~= Seq::<(String, String)>::empty());
        }
        None
    }
}

/// A variable met in a replacement text stands for its own name, as a text.
pub open spec fn as_text_literal(t: TokenModel) -> TokenModel {
    match t {
        TokenModel::Variable(n) => TokenModel::Literal(LiteralModel::Str(n)),
        _ => t,
    }
}

/// What one token becomes: a variable, the tokens of its text in `ctx`;
/// anything else, itself.
pub open spec fn expansion(t: TokenModel, ctx: Map<Seq<char>, Seq<char>>) -> Result<
    Seq<TokenModel>,
    ExpressionError,
> {
    match t {
        TokenModel::Variable(n) => if !ctx.contains_key(n) {
            Err(ExpressionError::MissingContextKey)
        } else {
            match tokenize(ctx[n]) {
                Ok(ts) => Ok(ts.map_values(|x: TokenModel| as_text_literal(x))),
                Err(e) => Err(e),
            }
        },
        _ => Ok(seq![t]),
    }
}

/// `ts` with every variable replaced, or the first failure.
pub open spec fn substitute(ts: Seq<TokenModel>, ctx: Map<Seq<char>, Seq<char>>) -> Result<
    Seq<TokenModel>,
    ExpressionError,
>
    decreases ts.len(),
{
    if ts.len() == 0 {
        Ok(Seq::empty())
    } else {
        match substitute(ts.drop_last(), ctx) {
            Err(e) => Err(e),
            Ok(prefix) => match expansion(ts.last(), ctx) {
                Ok(x) => Ok(prefix + x),
                Err(e) => Err(e),
            },
        }
    }
}

fn map_token_to(token: Token) -> (r: Token)
    ensures
        r@ == as_text_literal(token@),
{
    match token {
        Token::Variable(variable) => Token::Literal(Literal::String(variable)),
        _ => token,
    }
}

fn find_and_replace(token: Token, context: &Context) -> (r: Result<Vec<Token>, ExpressionError>)
    ensures
        tokens_result_model(r) == expansion(token@, context@),
{
    match token {
        Token::Variable(variable) => {
            let text = match context.get(&variable) {
                Some(text) => text,
                None => {
                    return Err(ExpressionError::MissingContextKey);
                },
            };
            let mut rest = match string_to_tokens(text.as_str()) {
                Ok(ts) => ts,
                Err(e) => {
                    return Err(e);
                },
            };
            let ghost all = rest@;
            let n = rest.len();
            let mut out: Vec<Token> = Vec::new();
            let mut i: usize = 0;
            while i < n
                invariant
                    n == all.len(),
                    i <= n,
                    rest@ == all.skip(i as int),
                    tokens_model(out@) == tokens_model(all.take(i as int)).map_values(
                        |x: TokenModel| as_text_literal(x),
                    ),
                decreases n - i,
            {
                let t = rest.remove(0);
                proof {
                    assert(t == all[i as int]);
                }
                let u = map_token_to(t);
                proof {
                    lemma_tokens_model_push(out@, u);
                }
                out.push(u);
                i = i + 1;
                proof {
                    assert(rest@ =~= all.skip(i as int));
                    assert(tokens_model(out@) =~= tokens_model(all.take(i as int)).map_values(
                        |x: TokenModel| as_text_literal(x),
                    ));
                }
            }
            proof {
                assert(all.take(n as int) =~= all);
            }
            Ok(out)
        },
        _ => {
            let ghost m = token@;
            let out = vec![token];
            proof {
                assert(tokens_model(out@) =~= seq![m]);
            }
            Ok(out)
        },
    }
}

/// `tokens` with every variable replaced by the tokens of its text in
/// `context`, or the first failure: a variable missing from `context`, or a
/// text that does not tokenize.
pub fn replace_variables_with_values_from_context(tokens: Vec<Token>, context: &Context) -> (r:
    Result<Vec<Token>, ExpressionError>)
    ensures
        tokens_result_model(r) == substitute(tokens_model(tokens@), context@),
{
    let ghost all = tokens_model(tokens@);
    let mut rest = tokens;
    let n = rest.len();
    let mut out: Vec<Token> = Vec::new();
    let mut i: usize = 0;
    proof {
        assert(all.take(0) =~= Seq::<TokenModel>::empty());
        assert(tokens_model(out@) =~= Seq::<TokenModel>::empty());
    }
    while i < n
        invariant
            n == tokens@.len(),
            i <= n,
            all == tokens_model(tokens@),
            rest@ == tokens@.skip(i as int),
            substitute(all.take(i as int), context@) == Ok::<Seq<TokenModel>, ExpressionError>(
                tokens_model(out@),
            ),
        decreases n - i,
    {
        let token = rest.remove(0);
        proof {
            assert(token == tokens@[i as int]);
            assert(all.take(i + 1).drop_last() =~= all.take(i as int));
            assert(all.take(i + 1).last() == token@);
        }
        let mut replaced = match find_and_replace(token, context) {
            Ok(ts) => ts,
            Err(e) => {
                proof { lemma_substitute_failure(all, i + 1, context@, e) }
                return Err(e);
            },
        };
        let ghost before = tokens_model(out@);
        let ghost added = tokens_model(replaced@);
        out.append(&mut replaced);
        proof {
            assert(tokens_model(out@) =~= before + added);
        }
        i = i + 1;
        proof {
            assert(rest@ =~= tokens@.skip(i as int));
        }
    }
    proof {
        assert(all.take(n as int) =~= all);
    }
    Ok(out)
}

/// A failure on a prefix is the failure of the whole sequence.
proof fn lemma_substitute_failure(
    ts: Seq<TokenModel>,
    k: int,
    ctx: Map<Seq<char>, Seq<char>>,
    e: ExpressionError,
)
    requires
        0 <= k <= ts.len(),
        substitute(ts.take(k), ctx) == Err::<Seq<TokenModel>, ExpressionError>(e),
    ensures
        substitute(ts, ctx) == Err::<Seq<TokenModel>, ExpressionError>(e),
    decreases ts.len() - k,
{
    if k < ts.len() {
        assert(ts.take(k + 1).drop_last() =~= ts.take(k));
        lemma_substitute_failure(ts, k + 1, ctx, e);
    } else {
        assert(ts.take(k) =~= ts);
    }
}

} // verus!
