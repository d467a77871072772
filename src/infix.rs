use vstd::prelude::*;

use crate::compute::computed;
use crate::error::CalcError;
use crate::eval::{apply_op, drain, drain_all, evaluated, is_binary, run, step, stops_at, Stacks};
use crate::token::{tokenized, NumType, Token};
use crate::transform::{
    adjacency_ok, balanced, depth, has_unary_sign, is_add_sub, is_mul_div, lemma_depth_concat,
    lemma_standardize_plain_unchanged, rule_at, starts_operand, transition_rule, Rule,
};

verus! {

/// An expression tree: a number, a binary operation, or a parenthesized
/// expression.
pub enum Expr {
    Num(NumType),
    Bin(Box<Expr>, Token, Box<Expr>),
    Paren(Box<Expr>),
}

/// The binding strength of a binary operator: `*` and `/` bind tighter than
/// `+` and `-`.
pub open spec fn op_level(op: Token) -> int {
    if is_mul_div(op) {
        2
    } else {
        1
    }
}

/// The binding strength of an expression's outermost construct; numbers and
/// parenthesized expressions are atoms.
pub open spec fn level(e: Expr) -> int {
    match e {
        Expr::Bin(_, op, _) => op_level(op),
        _ => 3,
    }
}

/// The tree is the one that precedence and left associativity give to its
/// written form: a left operand binds at least as tightly as its operator, a
/// right operand strictly more tightly.
pub open spec fn well_formed(e: Expr) -> bool
    decreases e,
{
    match e {
        Expr::Num(_) => true,
        Expr::Paren(inner) => well_formed(*inner),
        Expr::Bin(l, op, r) => {
            &&& is_binary(op)
            &&& well_formed(*l)
            &&& well_formed(*r)
            &&& level(*l) >= op_level(op)
            &&& level(*r) > op_level(op)
        },
    }
}

/// The written form of an expression tree.
pub open spec fn written(e: Expr) -> Seq<Token>
    decreases e,
{
    match e {
        Expr::Num(v) => seq![Token::Number(v)],
        Expr::Paren(inner) => seq![Token::LP] + written(*inner) + seq![Token::RP],
        Expr::Bin(l, op, r) => written(*l) + seq![op] + written(*r),
    }
}

/// The value of an expression tree, evaluated bottom-up: left operand, then
/// right operand, then the operator, with the first failing operation as the
/// error.
pub open spec fn value(e: Expr) -> Result<NumType, CalcError>
    decreases e,
{
    match e {
        Expr::Num(v) => Ok(v),
        Expr::Paren(inner) => value(*inner),
        Expr::Bin(l, op, r) => match value(*l) {
            Ok(a) => match value(*r) {
                Ok(b) => apply_op(a, b, op),
                Err(x) => Err(x),
            },
            Err(x) => Err(x),
        },
    }
}

/// The stacks after reading `ts`, starting from `st`.
pub open spec fn run_from(st: Stacks, ts: Seq<Token>) -> Result<Stacks, CalcError>
    decreases ts.len(),
{
    if ts.len() == 0 {
        Ok(st)
    } else {
        match run_from(st, ts.drop_last()) {
            Ok(s) => step(s, ts.last()),
            Err(x) => Err(x),
        }
    }
}

pub open spec fn then_drain(r: Result<Stacks, CalcError>, mul_only: bool) -> Result<
    Stacks,
    CalcError,
> {
    match r {
        Ok((opd, opr)) => drain(opd, opr, mul_only),
        Err(x) => Err(x),
    }
}

/// The top of `opr` keeps an expression of binding strength `k` from being
/// drained past it.
pub open spec fn blocks(opr: Seq<Token>, k: int) -> bool {
    opr.len() == 0 || opr.last() is LP || (is_binary(opr.last()) && op_level(opr.last()) < k)
}

proof fn lemma_run_from_concat(st: Stacks, a: Seq<Token>, b: Seq<Token>)
    ensures
        run_from(st, a + b) == match run_from(st, a) {
            Ok(s) => run_from(s, b),
            Err(x) => Err(x),
        },
    decreases b.len(),
{
    if b.len() == 0 {
        assert(a + b =~= a);
    } else {
        lemma_run_from_concat(st, a, b.drop_last());
        assert((a + b).drop_last() =~= a + b.drop_last());
        assert((a + b).last() == b.last());
    }
}

proof fn lemma_run_is_run_from(ts: Seq<Token>, n: int)
    requires
        0 <= n <= ts.len(),
    ensures
        run(ts, n) == run_from((Seq::empty(), Seq::empty()), ts.take(n)),
    decreases n,
{
    if n > 0 {
        lemma_run_is_run_from(ts, n - 1);
        assert(ts.take(n).drop_last() =~= ts.take(n - 1));
    }
}

proof fn lemma_drain_all_agrees(opd: Seq<NumType>, opr: Seq<Token>)
    ensures
        drain(opd, opr, false) is Err ==> drain_all(opd, opr) == Err::<Seq<NumType>, CalcError>(
            drain(opd, opr, false)->Err_0,
        ),
        drain(opd, opr, false) is Ok && drain(opd, opr, false)->Ok_0.1.len() == 0
            ==> drain_all(opd, opr) == Ok::<Seq<NumType>, CalcError>(
            drain(opd, opr, false)->Ok_0.0,
        ),
    decreases opr.len(),
{
    if opr.len() > 0 && opr.last() !is LP {
        match crate::eval::reduce(opd, opr.last()) {
            Ok(o) => lemma_drain_all_agrees(o, opr.drop_last()),
            Err(_) => {},
        }
    }
}

/// Reading the written form of `e` and then draining at a strength that `e`
/// allows does what pushing the value of `e` and draining does.
proof fn lemma_run_written(e: Expr, opd: Seq<NumType>, opr: Seq<Token>, mul_only: bool)
    requires
        well_formed(e),
        blocks(opr, level(e)),
        mul_only ==> level(e) >= 2,
    ensures
        then_drain(run_from((opd, opr), written(e)), mul_only) == match value(e) {
            Ok(v) => drain(opd.push(v), opr, mul_only),
            Err(x) => Err(x),
        },
    decreases e,
{
    let st = (opd, opr);
    match e {
        Expr::Num(v) => {
            assert(written(e).drop_last() =~= Seq::<Token>::empty());
            assert(run_from(st, Seq::<Token>::empty()) == Ok::<Stacks, CalcError>(st));
            assert(run_from(st, written(e)) == step(st, Token::Number(v)));
        },
        Expr::Paren(inner) => {
            let lp = seq![Token::LP];
            let body = written(*inner);
            assert(lp.drop_last() =~= Seq::<Token>::empty());
            assert(run_from(st, Seq::<Token>::empty()) == Ok::<Stacks, CalcError>(st));
            assert(run_from(st, lp) == step(st, Token::LP));
            let inside = (opd, opr.push(Token::LP));
            assert(run_from(st, lp) == Ok::<Stacks, CalcError>(inside));
            lemma_run_from_concat(st, lp, body);
            lemma_run_written(*inner, opd, opr.push(Token::LP), false);
            assert(written(e).drop_last() =~= lp + body);
            assert(written(e).last() == Token::RP);
            match value(*inner) {
                Ok(v) => {
                    assert(opr.push(Token::LP).drop_last() =~= opr);
                },
                Err(_) => {},
            }
        },
        Expr::Bin(l, op, r) => {
            let wl = written(*l);
            let wr = written(*r);
            let md = is_mul_div(op);
            lemma_run_written(*l, opd, opr, md);
            assert((wl + seq![op]).drop_last() =~= wl);
            assert(written(e) =~= (wl + seq![op]) + wr);
            lemma_run_from_concat(st, wl + seq![op], wr);
            match value(*l) {
                Ok(vl) => {
                    assert(drain(opd.push(vl), opr, md) == Ok::<Stacks, CalcError>(
                        (opd.push(vl), opr),
                    ));
                    let right = (opd.push(vl), opr.push(op));
                    assert(run_from(st, wl + seq![op]) == Ok::<Stacks, CalcError>(right));
                    lemma_run_written(*r, opd.push(vl), opr.push(op), mul_only);
                    match value(*r) {
                        Ok(vr) => {
                            assert(opd.push(vl).push(vr).drop_last().drop_last().push(
                                apply_op(vl, vr, op)->Ok_0,
                            ) =~= opd.push(apply_op(vl, vr, op)->Ok_0));
                            assert(opr.push(op).drop_last() =~= opr);
                            assert(!stops_at(op, mul_only));
                        },
                        Err(_) => {},
                    }
                },
                Err(_) => {},
            }
        },
    }
}

/// The two-stack evaluation of the written form of a well-formed expression
/// tree gives the value of the tree.
pub proof fn lemma_eval_matches_tree(e: Expr)
    requires
        well_formed(e),
    ensures
        evaluated(written(e)) == value(e),
{
    let ts = written(e);
    let empty = Seq::<NumType>::empty();
    lemma_run_is_run_from(ts, ts.len() as int);
    assert(ts.take(ts.len() as int) =~= ts);
    lemma_run_written(e, empty, Seq::empty(), false);
    match run(ts, ts.len() as int) {
        Ok((opd, opr)) => {
            lemma_drain_all_agrees(opd, opr);
        },
        Err(_) => {},
    }
    match value(e) {
        Ok(v) => {
            assert(empty.push(v)[0] == v);
        },
        Err(_) => {},
    }
}

/// Every token but the first is allowed after the one before it.
#[verifier::opaque]
pub open spec fn inner_allowed(ts: Seq<Token>) -> bool {
    forall|i: int| 0 < i < ts.len() ==> transition_rule(ts[i - 1], #[trigger] ts[i]) == Rule::Allow
}

proof fn lemma_single_allowed(t: Token)
    ensures
        inner_allowed(seq![t]),
{
    reveal(inner_allowed);
}

proof fn lemma_inner_allowed_concat(a: Seq<Token>, b: Seq<Token>)
    requires
        a.len() > 0,
        b.len() > 0,
        inner_allowed(a),
        inner_allowed(b),
        transition_rule(a.last(), b[0]) == Rule::Allow,
    ensures
        inner_allowed(a + b),
{
    reveal(inner_allowed);
    let w = a + b;
    assert forall|i: int| 0 < i < w.len() implies transition_rule(w[i - 1], #[trigger] w[i])
        == Rule::Allow by {
        if i < a.len() {
            assert(w[i - 1] == a[i - 1] && w[i] == a[i]);
        } else if i == a.len() {
            assert(w[i - 1] == a.last() && w[i] == b[0]);
        } else {
            assert(w[i - 1] == b[i - a.len() - 1] && w[i] == b[i - a.len()]);
        }
    }
}

proof fn lemma_balanced_concat(a: Seq<Token>, b: Seq<Token>)
    requires
        balanced(a),
        balanced(b),
    ensures
        balanced(a + b),
{
    assert forall|n: int| 0 <= n <= (a + b).len() implies depth(a + b, n) >= 0 by {
        lemma_depth_concat(a, b, n);
    }
    lemma_depth_concat(a, b, (a + b).len() as int);
}

/// The written form of a tree starts with a number or a left parenthesis and
/// ends with a number or a right parenthesis.
proof fn lemma_written_ends(e: Expr)
    ensures
        written(e).len() > 0,
        starts_operand(written(e)[0]),
        written(e).last() is Number || written(e).last() is RP,
    decreases e,
{
    match e {
        Expr::Num(_) => {},
        Expr::Paren(inner) => {
            lemma_written_ends(*inner);
        },
        Expr::Bin(l, op, r) => {
            lemma_written_ends(*l);
            lemma_written_ends(*r);
            assert(written(e)[0] == written(*l)[0]);
            assert(written(e).last() == written(*r).last());
        },
    }
}

/// In the written form of a well-formed tree every token is allowed after the
/// one before it.
proof fn lemma_written_allowed(e: Expr)
    requires
        well_formed(e),
    ensures
        inner_allowed(written(e)),
    decreases e,
{
    match e {
        Expr::Num(v) => {
            lemma_single_allowed(Token::Number(v));
        },
        Expr::Paren(inner) => {
            lemma_written_allowed(*inner);
            lemma_written_ends(*inner);
            let body = written(*inner);
            let lp = seq![Token::LP];
            let rp = seq![Token::RP];
            lemma_single_allowed(Token::LP);
            lemma_single_allowed(Token::RP);
            assert(transition_rule(Token::LP, body[0]) == Rule::Allow);
            lemma_inner_allowed_concat(lp, body);
            assert((lp + body).last() == body.last());
            assert(transition_rule(body.last(), Token::RP) == Rule::Allow);
            lemma_inner_allowed_concat(lp + body, rp);
            assert(written(e) == lp + body + rp);
        },
        Expr::Bin(l, op, r) => {
            lemma_written_allowed(*l);
            lemma_written_allowed(*r);
            lemma_written_ends(*l);
            lemma_written_ends(*r);
            let wl = written(*l);
            let wr = written(*r);
            let o = seq![op];
            assert(o[0] == op);
            assert(transition_rule(wl.last(), op) == Rule::Allow);
            lemma_single_allowed(op);
            lemma_inner_allowed_concat(wl, o);
            assert((wl + o).last() == op);
            assert(transition_rule(op, wr[0]) == Rule::Allow);
            lemma_inner_allowed_concat(wl + o, wr);
            assert(written(e) == wl + o + wr);
        },
    }
}

proof fn lemma_single_balanced(t: Token)
    requires
        t !is LP,
        t !is RP,
    ensures
        balanced(seq![t]),
{
    let w = seq![t];
    assert(depth(w, 0) == 0);
    assert(depth(w, 1) == 0);
    assert forall|n: int| 0 <= n <= w.len() implies depth(w, n) >= 0 by {
        if n == 1 {
            assert(depth(w, 1) == 0);
        }
    }
}

/// The parentheses of the written form of a tree are balanced.
proof fn lemma_written_balanced(e: Expr)
    requires
        well_formed(e),
    ensures
        balanced(written(e)),
    decreases e,
{
    match e {
        Expr::Num(v) => {
            lemma_single_balanced(Token::Number(v));
        },
        Expr::Paren(inner) => {
            lemma_written_balanced(*inner);
            let body = written(*inner);
            let lp = seq![Token::LP];
            let rp = seq![Token::RP];
            let w = lp + body + rp;
            assert(depth(lp, 0) == 0);
            assert(depth(lp, 1) == 1);
            assert(depth(rp, 0) == 0);
            assert(depth(rp, 1) == -1);
            assert forall|n: int| 0 <= n <= w.len() implies depth(w, n) >= 0 by {
                lemma_depth_concat(lp + body, rp, n);
                if n <= (lp + body).len() {
                    lemma_depth_concat(lp, body, n);
                } else {
                    lemma_depth_concat(lp, body, (lp + body).len() as int);
                }
            }
            lemma_depth_concat(lp + body, rp, w.len() as int);
            lemma_depth_concat(lp, body, (lp + body).len() as int);
        },
        Expr::Bin(l, op, r) => {
            lemma_written_balanced(*l);
            lemma_written_balanced(*r);
            let o = seq![op];
            lemma_single_balanced(op);
            lemma_balanced_concat(written(*l), o);
            lemma_balanced_concat(written(*l) + o, written(*r));
        },
    }
}

proof fn lemma_written_adjacency(e: Expr)
    requires
        well_formed(e),
    ensures
        adjacency_ok(written(e)),
{
    let w = written(e);
    lemma_written_ends(e);
    lemma_written_allowed(e);
    reveal(inner_allowed);
    assert forall|i: int| 0 <= i < w.len() implies rule_at(w, i) != Rule::Deny by {
        if i > 0 {
            assert(transition_rule(w[i - 1], w[i]) == Rule::Allow);
        }
    }
}

proof fn lemma_written_no_sign(e: Expr)
    requires
        well_formed(e),
    ensures
        !has_unary_sign(written(e)),
{
    let w = written(e);
    lemma_written_ends(e);
    lemma_written_allowed(e);
    reveal(inner_allowed);
    assert forall|i: int| 0 <= i < w.len() implies !(is_add_sub(w[i]) && (i == 0 || w[i
        - 1] is LP)) by {
        if i > 0 {
            assert(transition_rule(w[i - 1], w[i]) == Rule::Allow);
        }
    }
}

/// The written form of a well-formed tree is a valid sequence with no unary
/// sign.
proof fn lemma_written_plain(e: Expr)
    requires
        well_formed(e),
    ensures
        adjacency_ok(written(e)),
        balanced(written(e)),
        !has_unary_sign(written(e)),
{
    lemma_written_adjacency(e);
    lemma_written_no_sign(e);
    lemma_written_balanced(e);
}

/// An expression that tokenizes to the written form of a well-formed tree
/// computes to the value of that tree: the computation agrees with infix
/// evaluation under the usual precedence, left associativity and division
/// truncating toward zero.
pub proof fn lemma_compute_matches_tree(s: Seq<char>, e: Expr)
    requires
        well_formed(e),
        tokenized(s) == Ok::<Seq<Token>, CalcError>(written(e)),
    ensures
        computed(s) == value(e),
{
    lemma_written_plain(e);
    lemma_standardize_plain_unchanged(written(e));
    lemma_eval_matches_tree(e);
}

} // verus!
