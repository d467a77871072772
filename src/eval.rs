use vstd::prelude::*;

use crate::error::CalcError;
use crate::token::{NumType, Token, TokenStream};
use crate::transform::{is_add_sub, is_mul_div};

verus! {

/// One of `+ - * /`.
pub open spec fn is_binary(t: Token) -> bool {
    is_add_sub(t) || is_mul_div(t)
}

/// What may stand on the operator stack: a binary operator or a left
/// parenthesis.
pub open spec fn is_stacked(t: Token) -> bool {
    is_binary(t) || t is LP
}

/// The absolute value of `x`.
pub open spec fn abs(x: int) -> int {
    if x < 0 {
        -x
    } else {
        x
    }
}

/// Integer division truncating toward zero.
pub open spec fn trunc_div(a: int, b: int) -> int {
    let q = abs(a) / abs(b);
    if (a < 0) == (b < 0) {
        q
    } else {
        -q
    }
}

/// `v` fits in `NumType`.
pub open spec fn fits(v: int) -> bool {
    NumType::MIN <= v <= NumType::MAX
}

/// The exact value of `a op b`, for a binary operator `op` and `b != 0` when
/// `op` divides.
pub open spec fn exact(a: int, b: int, op: Token) -> int {
    match op {
        Token::Add => a + b,
        Token::Sub => a - b,
        Token::Mul => a * b,
        _ => trunc_div(a, b),
    }
}

/// `a op b` in `NumType`, or the reason it has no value there.
pub open spec fn apply_op(a: NumType, b: NumType, op: Token) -> Result<NumType, CalcError> {
    if op is Div && b == 0 {
        Err(CalcError::DivisionByZero)
    } else if fits(exact(a as int, b as int, op)) {
        Ok(exact(a as int, b as int, op) as NumType)
    } else {
        Err(CalcError::Overflow)
    }
}

/// Replaces the two top operands by the result of `op` on them.
pub open spec fn reduce(opd: Seq<NumType>, op: Token) -> Result<Seq<NumType>, CalcError> {
    if opd.len() < 2 {
        Err(CalcError::StackUnderflow)
    } else {
        match apply_op(opd[opd.len() - 2], opd.last(), op) {
            Ok(v) => Ok(opd.drop_last().drop_last().push(v)),
            Err(e) => Err(e),
        }
    }
}

/// The operand and operator stacks of the evaluator.
pub type Stacks = (Seq<NumType>, Seq<Token>);

/// Whether draining stops at operator `top`: always at a left parenthesis,
/// and at `+` or `-` when only `*` and `/` are drained.
pub open spec fn stops_at(top: Token, mul_only: bool) -> bool {
    top is LP || (mul_only && is_add_sub(top))
}

/// Applies operators from the top of the operator stack until it is empty or
/// its top stops the draining.
pub open spec fn drain(opd: Seq<NumType>, opr: Seq<Token>, mul_only: bool) -> Result<
    Stacks,
    CalcError,
>
    decreases opr.len(),
{
    if opr.len() == 0 || stops_at(opr.last(), mul_only) {
        Ok((opd, opr))
    } else {
        match reduce(opd, opr.last()) {
            Ok(o) => drain(o, opr.drop_last(), mul_only),
            Err(e) => Err(e),
        }
    }
}

/// Applies every operator left on the operator stack; a left parenthesis
/// there has no partner.
pub open spec fn drain_all(opd: Seq<NumType>, opr: Seq<Token>) -> Result<Seq<NumType>, CalcError>
    decreases opr.len(),
{
    if opr.len() == 0 {
        Ok(opd)
    } else if opr.last() is LP {
        Err(CalcError::UnbalancedParenthesis)
    } else {
        match reduce(opd, opr.last()) {
            Ok(o) => drain_all(o, opr.drop_last()),
            Err(e) => Err(e),
        }
    }
}

/// The stacks after reading token `t`.
pub open spec fn step(st: Stacks, t: Token) -> Result<Stacks, CalcError> {
    let (opd, opr) = st;
    match t {
        Token::Number(v) => Ok((opd.push(v), opr)),
        Token::LP => Ok((opd, opr.push(t))),
        Token::RP => match drain(opd, opr, false) {
            Ok((o, p)) => if p.len() == 0 {
                Err(CalcError::UnbalancedParenthesis)
            } else {
                Ok((o, p.drop_last()))
            },
            Err(e) => Err(e),
        },
        _ => match drain(opd, opr, is_mul_div(t)) {
            Ok((o, p)) => Ok((o, p.push(t))),
            Err(e) => Err(e),
        },
    }
}

/// The stacks after reading the first `n` tokens of `ts`.
pub open spec fn run(ts: Seq<Token>, n: int) -> Result<Stacks, CalcError>
    decreases n,
{
    if n <= 0 {
        Ok((Seq::empty(), Seq::empty()))
    } else {
        match run(ts, n - 1) {
            Ok(st) => step(st, ts[n - 1]),
            Err(e) => Err(e),
        }
    }
}

/// The value of a token sequence under the two-stack evaluation.
pub open spec fn evaluated(ts: Seq<Token>) -> Result<NumType, CalcError> {
    match run(ts, ts.len() as int) {
        Ok((opd, opr)) => match drain_all(opd, opr) {
            Ok(o) => if o.len() == 1 {
                Ok(o[0])
            } else {
                Err(CalcError::StackUnderflow)
            },
            Err(e) => Err(e),
        },
        Err(e) => Err(e),
    }
}

proof fn lemma_failure_persists(ts: Seq<Token>, n: int)
    requires
        0 <= n <= ts.len(),
        run(ts, n) is Err,
    ensures
        run(ts, ts.len() as int) == run(ts, n),
    decreases ts.len() - n,
{
    if n < ts.len() {
        lemma_failure_persists(ts, n + 1);
    }
}

fn operate(opd: &mut Vec<NumType>, opr: Token) -> (r: Result<(), CalcError>)
    requires
        is_binary(opr),
    ensures
        match reduce(old(opd)@, opr) {
            Ok(o) => r is Ok && final(opd)@ == o,
            Err(e) => r == Err::<(), CalcError>(e),
        },
{
    if opd.len() < 2 {
        return Err(CalcError::StackUnderflow);
    }
    let b = opd.pop().unwrap();
    let a = opd.pop().unwrap();
    let c = match opr {
        Token::Add => a.checked_add(b),
        Token::Sub => a.checked_sub(b),
        Token::Mul => a.checked_mul(b),
        _ => {
            if b == 0 {
                return Err(CalcError::DivisionByZero);
            }
            a.checked_div(b)
        },
    };
    match c {
        Some(v) => {
            opd.push(v);
            Ok(())
        },
        None => Err(CalcError::Overflow),
    }
}

/// Whether the top of `opr` is to be applied before pushing another operator.
fn should_drain(opr: &Vec<Token>, mul_only: bool) -> (r: bool)
    ensures
        r == (opr@.len() > 0 && !stops_at(opr@.last(), mul_only)),
{
    if opr.len() == 0 {
        return false;
    }
    match opr[opr.len() - 1] {
        Token::LP => false,
        Token::Add | Token::Sub => !mul_only,
        _ => true,
    }
}

fn drain_stacks(opd: &mut Vec<NumType>, opr: &mut Vec<Token>, mul_only: bool) -> (r: Result<
    (),
    CalcError,
>)
    requires
        forall|k: int| 0 <= k < old(opr)@.len() ==> is_stacked(#[trigger] old(opr)@[k]),
    ensures
        match drain(old(opd)@, old(opr)@, mul_only) {
            Ok((o, p)) => r is Ok && final(opd)@ == o && final(opr)@ == p,
            Err(e) => r == Err::<(), CalcError>(e),
        },
        forall|k: int| 0 <= k < final(opr)@.len() ==> is_stacked(#[trigger] final(opr)@[k]),
{
    let ghost target = drain(opd@, opr@, mul_only);
    while should_drain(opr, mul_only)
        invariant
            target == drain(old(opd)@, old(opr)@, mul_only),
            drain(opd@, opr@, mul_only) == target,
            forall|k: int| 0 <= k < opr@.len() ==> is_stacked(#[trigger] opr@[k]),
        decreases opr@.len(),
    {
        let ghost before = opr@;
        let top = opr.pop().unwrap();
        assert(top == before.last() && opr@ == before.drop_last());
        match operate(opd, top) {
            Ok(()) => {},
            Err(e) => {
                return Err(e);
            },
        }
    }
    Ok(())
}

/// Evaluates a normalized token sequence with an operand stack and an
/// operator stack.
///
/// `*` and `/` bind tighter than `+` and `-`, operators of one precedence
/// associate to the left, and division truncates toward zero. Fails with
/// `StackUnderflow` when an operator lacks operands or the expression does
/// not leave exactly one value, with `UnbalancedParenthesis` when a
/// parenthesis has no partner, and with `DivisionByZero` or `Overflow` when
/// an operation has no value in `NumType`.
pub fn eval(stream: &TokenStream) -> (r: Result<NumType, CalcError>)
    ensures
        r == evaluated(stream@),
{
    let ghost ts = stream@;
    let mut operand_stack: Vec<NumType> = Vec::new();
    let mut operator_stack: Vec<Token> = Vec::new();
    let mut i: usize = 0;
    while i < stream.len()
        invariant
            ts == stream@,
            i <= ts.len(),
            run(ts, i as int) == Ok::<Stacks, CalcError>((operand_stack@, operator_stack@)),
            forall|k: int|
                0 <= k < operator_stack@.len() ==> is_stacked(#[trigger] operator_stack@[k]),
        decreases ts.len() - i,
    {
        let token = stream[i];
        match token {
            Token::Number(number) => {
                operand_stack.push(number);
            },
            Token::LP => {
                operator_stack.push(token);
            },
            Token::RP => {
                match drain_stacks(&mut operand_stack, &mut operator_stack, false) {
                    Ok(()) => {},
                    Err(e) => {
                        proof {
                            lemma_failure_persists(ts, i + 1);
                        }
                        return Err(e);
                    },
                }
                if operator_stack.len() == 0 {
                    proof {
                        lemma_failure_persists(ts, i + 1);
                    }
                    return Err(CalcError::UnbalancedParenthesis);
                }
                operator_stack.pop();
            },
            _ => {
                let mul_only = match token {
                    Token::Mul | Token::Div => true,
                    _ => false,
                };
                match drain_stacks(&mut operand_stack, &mut operator_stack, mul_only) {
                    Ok(()) => {},
                    Err(e) => {
                        proof {
                            lemma_failure_persists(ts, i + 1);
                        }
                        return Err(e);
                    },
                }
                operator_stack.push(token);
            },
        }
        i = i + 1;
    }
    let ghost target = drain_all(operand_stack@, operator_stack@);
    let ghost stacks = (operand_stack@, operator_stack@);
    while operator_stack.len() > 0
        invariant
            ts == stream@,
            run(ts, ts.len() as int) == Ok::<Stacks, CalcError>(stacks),
            target == drain_all(stacks.0, stacks.1),
            drain_all(operand_stack@, operator_stack@) == target,
            forall|k: int|
                0 <= k < operator_stack@.len() ==> is_stacked(#[trigger] operator_stack@[k]),
        decreases operator_stack@.len(),
    {
        let ghost before = operator_stack@;
        let op = operator_stack.pop().unwrap();
        assert(op == before.last() && operator_stack@ == before.drop_last());
        if op == Token::LP {
            return Err(CalcError::UnbalancedParenthesis);
        }
        match operate(&mut operand_stack, op) {
            Ok(()) => {},
            Err(e) => {
                return Err(e);
            },
        }
    }
    if operand_stack.len() != 1 {
        return Err(CalcError::StackUnderflow);
    }
    Ok(operand_stack[0])
}

} // verus!
