use vstd::prelude::*;

use crate::error::CalcError;
use crate::token::{numbers_nonnegative, numbers_separated, Token, TokenStream};

verus! {

/// What the normalizer does with a token, given what precedes it.
#[derive(Debug, Clone, Copy, PartialEq, Eq, Structural)]
pub enum Rule {
    /// The expression is invalid.
    Deny,
    /// The token is kept as it is.
    Allow,
    /// The token is a unary sign: an explicit `Number(0)` goes before it.
    Middle,
}

pub open spec fn is_add_sub(t: Token) -> bool {
    t is Add || t is Sub
}

pub open spec fn is_mul_div(t: Token) -> bool {
    t is Mul || t is Div
}

/// Whether a token may open an operand: a number or a left parenthesis.
pub open spec fn starts_operand(t: Token) -> bool {
    t is Number || t is LP
}

/// The rule for the first token of an expression.
pub open spec fn initial_rule(t: Token) -> Rule {
    if starts_operand(t) {
        Rule::Allow
    } else if is_add_sub(t) {
        Rule::Middle
    } else {
        Rule::Deny
    }
}

/// The rule for a token `next` that directly follows `prev`.
pub open spec fn transition_rule(prev: Token, next: Token) -> Rule {
    match prev {
        Token::Number(_) => if next is LP {
            Rule::Deny
        } else {
            Rule::Allow
        },
        Token::LP => if starts_operand(next) {
            Rule::Allow
        } else if is_add_sub(next) {
            Rule::Middle
        } else {
            Rule::Deny
        },
        Token::RP => if starts_operand(next) {
            Rule::Deny
        } else {
            Rule::Allow
        },
        _ => if starts_operand(next) {
            Rule::Allow
        } else {
            Rule::Deny
        },
    }
}

/// The rule that applies to the token at position `i` of `ts`.
pub open spec fn rule_at(ts: Seq<Token>, i: int) -> Rule {
    if i == 0 {
        initial_rule(ts[0])
    } else {
        transition_rule(ts[i - 1], ts[i])
    }
}

/// What the normalizer writes for the token at position `i` of `ts`.
pub open spec fn emitted(ts: Seq<Token>, i: int) -> Seq<Token> {
    if rule_at(ts, i) == Rule::Middle {
        seq![Token::Number(0), ts[i]]
    } else {
        seq![ts[i]]
    }
}

/// The normalized form of the first `n` tokens of `ts`.
pub open spec fn rewritten(ts: Seq<Token>, n: int) -> Seq<Token>
    decreases n,
{
    if n <= 0 {
        Seq::empty()
    } else {
        rewritten(ts, n - 1) + emitted(ts, n - 1)
    }
}

/// The parenthesis nesting depth after the first `n` tokens of `ts`.
pub open spec fn depth(ts: Seq<Token>, n: int) -> int
    decreases n,
{
    if n <= 0 {
        0
    } else if ts[n - 1] is LP {
        depth(ts, n - 1) + 1
    } else if ts[n - 1] is RP {
        depth(ts, n - 1) - 1
    } else {
        depth(ts, n - 1)
    }
}

/// No two neighbouring tokens, and no first token, are denied.
pub open spec fn adjacency_ok(ts: Seq<Token>) -> bool {
    forall|i: int| 0 <= i < ts.len() ==> rule_at(ts, i) != Rule::Deny
}

/// The nesting depth never drops below zero and ends at zero.
pub open spec fn balanced(ts: Seq<Token>) -> bool {
    &&& forall|n: int| 0 <= n <= ts.len() ==> depth(ts, n) >= 0
    &&& depth(ts, ts.len() as int) == 0
}

/// The result of normalizing `ts`.
pub open spec fn standardized(ts: Seq<Token>) -> Result<Seq<Token>, CalcError> {
    if adjacency_ok(ts) && balanced(ts) {
        Ok(rewritten(ts, ts.len() as int))
    } else {
        Err(CalcError::InvalidExpression)
    }
}

/// A sign at the start of the sequence or right after a left parenthesis.
pub open spec fn has_unary_sign(ts: Seq<Token>) -> bool {
    exists|i: int| 0 <= i < ts.len() && is_add_sub(ts[i]) && (i == 0 || ts[i - 1] is LP)
}

fn init_rules(token: &Token) -> (r: Rule)
    ensures
        r == initial_rule(*token),
{
    match token {
        Token::Number(_) => Rule::Allow,
        Token::Add | Token::Sub => Rule::Middle,
        Token::Mul | Token::Div => Rule::Deny,
        Token::LP => Rule::Allow,
        Token::RP => Rule::Deny,
    }
}

fn next_rule(this: &Token, next: &Token) -> (r: Rule)
    ensures
        r == transition_rule(*this, *next),
{
    match this {
        Token::Number(_) => match next {
            Token::Number(_) => Rule::Allow,
            Token::Add | Token::Sub => Rule::Allow,
            Token::Mul | Token::Div => Rule::Allow,
            Token::LP => Rule::Deny,
            Token::RP => Rule::Allow,
        },
        Token::Add | Token::Sub => match next {
            Token::Number(_) => Rule::Allow,
            Token::Add | Token::Sub => Rule::Deny,
            Token::Mul | Token::Div => Rule::Deny,
            Token::LP => Rule::Allow,
            Token::RP => Rule::Deny,
        },
        Token::Mul | Token::Div => match next {
            Token::Number(_) => Rule::Allow,
            Token::Add | Token::Sub => Rule::Deny,
            Token::Mul | Token::Div => Rule::Deny,
            Token::LP => Rule::Allow,
            Token::RP => Rule::Deny,
        },
        Token::LP => match next {
            Token::Number(_) => Rule::Allow,
            Token::Add | Token::Sub => Rule::Middle,
            Token::Mul | Token::Div => Rule::Deny,
            Token::LP => Rule::Allow,
            Token::RP => Rule::Deny,
        },
        Token::RP => match next {
            Token::Number(_) => Rule::Deny,
            Token::Add | Token::Sub => Rule::Allow,
            Token::Mul | Token::Div => Rule::Allow,
            Token::LP => Rule::Deny,
            Token::RP => Rule::Allow,
        },
    }
}

/// Makes every unary sign explicit and checks the structure of `stream`.
///
/// A `+` or `-` that starts the expression or follows a left parenthesis gets
/// a `Number(0)` in front of it. Fails with `InvalidExpression` when two
/// neighbouring tokens are not allowed together, or when the parentheses are
/// not balanced. The empty stream normalizes to itself.
pub fn standardize(stream: &TokenStream) -> (r: Result<TokenStream, CalcError>)
    ensures
        match r {
            Ok(t) => standardized(stream@) == Ok::<Seq<Token>, CalcError>(t@),
            Err(e) => standardized(stream@) == Err::<Seq<Token>, CalcError>(e),
        },
{
    let ghost ts = stream@;
    let mut res: TokenStream = Vec::new();
    let mut cnt_paren: usize = 0;
    let mut i: usize = 0;
    while i < stream.len()
        invariant
            ts == stream@,
            i <= ts.len(),
            res@ == rewritten(ts, i as int),
            cnt_paren as int == depth(ts, i as int),
            cnt_paren <= i,
            forall|j: int| 0 <= j < i ==> rule_at(ts, j) != Rule::Deny,
            forall|n: int| 0 <= n <= i ==> depth(ts, n) >= 0,
        decreases ts.len() - i,
    {
        let token = &stream[i];
        let rule = if i == 0 {
            init_rules(token)
        } else {
            next_rule(&stream[i - 1], token)
        };
        assert(rule == rule_at(ts, i as int));
        match rule {
            Rule::Deny => {
                assert(!adjacency_ok(ts));
                return Err(CalcError::InvalidExpression);
            },
            Rule::Allow => {
                res.push(*token);
            },
            Rule::Middle => {
                res.push(Token::Number(0));
                res.push(*token);
            },
        }
        assert(res@ =~= rewritten(ts, i + 1));
        match token {
            Token::LP => {
                cnt_paren = cnt_paren + 1;
            },
            Token::RP => {
                if cnt_paren == 0 {
                    assert(depth(ts, i + 1) < 0);
                    return Err(CalcError::InvalidExpression);
                }
                cnt_paren = cnt_paren - 1;
            },
            _ => {},
        }
        i = i + 1;
    }
    if cnt_paren > 0 {
        return Err(CalcError::InvalidExpression);
    }
    Ok(res)
}

/// A unary sign is the only token that gets a `Number(0)` in front of it.
proof fn lemma_middle_is_unary_sign(ts: Seq<Token>, i: int)
    requires
        0 <= i < ts.len(),
        rule_at(ts, i) == Rule::Middle,
    ensures
        is_add_sub(ts[i]),
        i == 0 || ts[i - 1] is LP,
{
}

proof fn lemma_rewritten_plain(ts: Seq<Token>, n: int)
    requires
        0 <= n <= ts.len(),
        !has_unary_sign(ts),
    ensures
        rewritten(ts, n) == ts.take(n),
    decreases n,
{
    if n > 0 {
        lemma_rewritten_plain(ts, n - 1);
        if rule_at(ts, n - 1) == Rule::Middle {
            lemma_middle_is_unary_sign(ts, n - 1);
            assert(has_unary_sign(ts));
        }
        assert(ts.take(n - 1) + seq![ts[n - 1]] =~= ts.take(n));
    }
}

/// Normalizing a valid sequence that holds no unary sign gives it back
/// unchanged.
pub proof fn lemma_standardize_plain_unchanged(ts: Seq<Token>)
    requires
        adjacency_ok(ts),
        balanced(ts),
        !has_unary_sign(ts),
    ensures
        standardized(ts) == Ok::<Seq<Token>, CalcError>(ts),
{
    lemma_rewritten_plain(ts, ts.len() as int);
    assert(ts.take(ts.len() as int) =~= ts);
}

/// Normalizing keeps numbers non-negative and apart, and the last token it
/// writes for a prefix is the last token of that prefix.
pub proof fn lemma_rewritten_shape(ts: Seq<Token>, n: int)
    requires
        0 <= n <= ts.len(),
        numbers_nonnegative(ts),
        numbers_separated(ts),
    ensures
        numbers_nonnegative(rewritten(ts, n)),
        numbers_separated(rewritten(ts, n)),
        n == 0 ==> rewritten(ts, n).len() == 0,
        n > 0 ==> rewritten(ts, n).len() > 0 && rewritten(ts, n).last() == ts[n - 1],
    decreases n,
{
    if n > 0 {
        lemma_rewritten_shape(ts, n - 1);
        let r = rewritten(ts, n - 1);
        let e = emitted(ts, n - 1);
        let w = rewritten(ts, n);
        assert(w == r + e);
        if rule_at(ts, n - 1) == Rule::Middle {
            lemma_middle_is_unary_sign(ts, n - 1);
        }
        assert forall|i: int| 0 <= i < w.len() && (#[trigger] w[i]) is Number implies w[i]->Number_0
            >= 0 by {
            if i < r.len() {
                assert(w[i] == r[i]);
            } else if e.len() == 1 || i > r.len() {
                assert(w[i] == ts[n - 1]);
            }
        }
        assert forall|i: int| 0 < i < w.len() && (#[trigger] w[i]) is Number implies w[i
            - 1] !is Number by {
            if i < r.len() {
                assert(w[i] == r[i]);
                assert(w[i - 1] == r[i - 1]);
            } else if i == r.len() {
                assert(w[i - 1] == r.last());
                if e.len() == 1 {
                    assert(w[i] == ts[n - 1]);
                    assert(ts[n - 1] is Number);
                }
            } else {
                assert(w[i] == ts[n - 1]);
            }
        }
    }
}

pub proof fn lemma_depth_concat(a: Seq<Token>, b: Seq<Token>, n: int)
    requires
        0 <= n <= a.len() + b.len(),
    ensures
        depth(a + b, n) == if n <= a.len() {
            depth(a, n)
        } else {
            depth(a, a.len() as int) + depth(b, n - a.len())
        },
    decreases n,
{
    if n > 0 {
        lemma_depth_concat(a, b, n - 1);
        assert(depth(b, 0) == 0);
        if n <= a.len() {
            assert((a + b)[n - 1] == a[n - 1]);
        } else {
            assert((a + b)[n - 1] == b[n - a.len() - 1]);
        }
    }
}

/// Every token of `ts` is allowed where it stands.
pub open spec fn all_allowed(ts: Seq<Token>) -> bool {
    forall|j: int| 0 <= j < ts.len() ==> rule_at(ts, j) == Rule::Allow
}

/// The normalized prefixes of a valid sequence hold only allowed tokens, and
/// their nesting depths never drop below zero and end where the input's do.
proof fn lemma_rewritten_valid(ts: Seq<Token>, n: int)
    requires
        0 <= n <= ts.len(),
        adjacency_ok(ts),
        forall|k: int| 0 <= k <= ts.len() ==> depth(ts, k) >= 0,
    ensures
        n == 0 ==> rewritten(ts, n).len() == 0,
        n > 0 ==> rewritten(ts, n).len() > 0 && rewritten(ts, n).last() == ts[n - 1],
        all_allowed(rewritten(ts, n)),
        forall|k: int| 0 <= k <= rewritten(ts, n).len() ==> depth(rewritten(ts, n), k) >= 0,
        depth(rewritten(ts, n), rewritten(ts, n).len() as int) == depth(ts, n),
    decreases n,
{
    if n > 0 {
        lemma_rewritten_valid(ts, n - 1);
        let w = rewritten(ts, n - 1);
        let e = emitted(ts, n - 1);
        let v = rewritten(ts, n);
        assert(v == w + e);
        let middle = rule_at(ts, n - 1) == Rule::Middle;
        if middle {
            lemma_middle_is_unary_sign(ts, n - 1);
        }
        assert(rule_at(ts, n - 1) != Rule::Deny);
        assert forall|j: int| 0 <= j < v.len() implies rule_at(v, j) == Rule::Allow by {
            if j < w.len() {
                assert(v[j] == w[j]);
                if j > 0 {
                    assert(v[j - 1] == w[j - 1]);
                }
                assert(rule_at(w, j) == Rule::Allow);
            } else if j == w.len() {
                assert(v[j] == e[0]);
                if j > 0 {
                    assert(v[j - 1] == ts[n - 2]);
                }
            } else {
                assert(v[j] == ts[n - 1]);
                assert(v[j - 1] == Token::Number(0));
            }
        }
        assert(depth(e, 0) == 0);
        assert(depth(ts, n) >= 0);
        assert forall|k: int| 0 <= k <= v.len() implies depth(v, k) >= 0 by {
            lemma_depth_concat(w, e, k);
            if k > w.len() {
                if middle {
                    assert(depth(e, 1) == 0);
                }
            }
        }
        lemma_depth_concat(w, e, v.len() as int);
        if middle {
            assert(depth(e, 1) == 0);
        }
    }
}

/// Normalizing is idempotent: normalizing the result of a successful
/// normalization gives that result back unchanged.
pub proof fn lemma_standardize_idempotent(ts: Seq<Token>, out: Seq<Token>)
    requires
        standardized(ts) == Ok::<Seq<Token>, CalcError>(out),
    ensures
        standardized(out) == Ok::<Seq<Token>, CalcError>(out),
{
    lemma_rewritten_valid(ts, ts.len() as int);
    assert(adjacency_ok(out));
    assert forall|i: int| 0 <= i < out.len() implies !(is_add_sub(out[i]) && (i == 0 || out[i
        - 1] is LP)) by {
        assert(rule_at(out, i) == Rule::Allow);
    }
    lemma_standardize_plain_unchanged(out);
}

} // verus!
