use vstd::prelude::*;

use crate::error::CalcError;

verus! {

/// The integer type of literals and results.
pub type NumType = i64;

/// A lexical unit of an expression.
#[derive(Debug, Clone, Copy, PartialEq, Eq, Structural)]
pub enum Token {
    Number(NumType),
    Add,
    Sub,
    Mul,
    Div,
    LP,
    RP,
}

pub type TokenStream = Vec<Token>;

pub open spec fn is_digit(c: char) -> bool {
    '0' <= c && c <= '9'
}

pub open spec fn digit_value(c: char) -> int {
    c as int - '0' as int
}

/// The operator or parenthesis that a character stands for, if any.
pub open spec fn symbol_of(c: char) -> Option<Token> {
    if c == '+' {
        Some(Token::Add)
    } else if c == '-' {
        Some(Token::Sub)
    } else if c == '*' {
        Some(Token::Mul)
    } else if c == '/' {
        Some(Token::Div)
    } else if c == '(' {
        Some(Token::LP)
    } else if c == ')' {
        Some(Token::RP)
    } else {
        None
    }
}

/// The tokens of a character sequence, or `None` when a literal does not fit
/// in `NumType`.
///
/// Digits extend the number that ends the tokens so far; an operator or a
/// parenthesis is appended; any other character is skipped, so that it
/// neither ends nor splits a literal.
pub open spec fn tokens_of(s: Seq<char>) -> Option<Seq<Token>>
    decreases s.len(),
{
    if s.len() == 0 {
        Some(Seq::empty())
    } else {
        let c = s.last();
        match tokens_of(s.drop_last()) {
            None => None,
            Some(t) => if is_digit(c) {
                if t.len() > 0 && t.last() is Number {
                    let v = 10 * t.last()->Number_0 + digit_value(c);
                    if v <= NumType::MAX {
                        Some(t.drop_last().push(Token::Number(v as NumType)))
                    } else {
                        None
                    }
                } else {
                    Some(t.push(Token::Number(digit_value(c) as NumType)))
                }
            } else {
                match symbol_of(c) {
                    Some(op) => Some(t.push(op)),
                    None => Some(t),
                }
            },
        }
    }
}

/// The result of tokenizing `s`.
pub open spec fn tokenized(s: Seq<char>) -> Result<Seq<Token>, CalcError> {
    match tokens_of(s) {
        Some(t) => Ok(t),
        None => Err(CalcError::MalformedLiteral),
    }
}

/// Every number in `ts` is at least zero.
pub open spec fn numbers_nonnegative(ts: Seq<Token>) -> bool {
    forall|i: int| 0 <= i < ts.len() && (#[trigger] ts[i]) is Number ==> ts[i]->Number_0 >= 0
}

/// No two numbers stand next to each other in `ts`.
pub open spec fn numbers_separated(ts: Seq<Token>) -> bool {
    forall|i: int| 0 < i < ts.len() && (#[trigger] ts[i]) is Number ==> ts[i - 1] !is Number
}

proof fn lemma_failure_persists(s: Seq<char>, k: int)
    requires
        0 <= k <= s.len(),
        tokens_of(s.take(k)) is None,
    ensures
        tokens_of(s) is None,
    decreases s.len() - k,
{
    if k < s.len() {
        assert(s.take(k + 1).drop_last() =~= s.take(k));
        lemma_failure_persists(s, k + 1);
    } else {
        assert(s.take(k) =~= s);
    }
}

fn symbol(c: char) -> (r: Option<Token>)
    ensures
        r == symbol_of(c),
{
    match c {
        '+' => Some(Token::Add),
        '-' => Some(Token::Sub),
        '*' => Some(Token::Mul),
        '/' => Some(Token::Div),
        '(' => Some(Token::LP),
        ')' => Some(Token::RP),
        _ => None,
    }
}

/// Splits an expression into tokens.
///
/// Runs of digits become `Number` tokens, the characters `+ - * / ( )`
/// become operator and parenthesis tokens, and every other character is
/// ignored. Fails with `MalformedLiteral` when a literal is too large.
pub fn tokenize(expr: &str) -> (r: Result<TokenStream, CalcError>)
    ensures
        match r {
            Ok(t) => tokenized(expr@) == Ok::<Seq<Token>, CalcError>(t@),
            Err(e) => tokenized(expr@) == Err::<Seq<Token>, CalcError>(e),
        },
{
    let mut res: TokenStream = Vec::new();
    let mut pending: NumType = 0;
    let mut in_number = false;
    let n = expr.unicode_len();
    let mut i: usize = 0;
    while i < n
        invariant
            n == expr@.len(),
            i <= n,
            pending >= 0,
            res@.len() == 0 || res@.last() !is Number,
            tokens_of(expr@.take(i as int)) == Some(
                if in_number {
                    res@.push(Token::Number(pending))
                } else {
                    res@
                },
            ),
        decreases n - i,
    {
        let c = expr.get_char(i);
        proof {
            assert(expr@.take(i + 1).drop_last() =~= expr@.take(i as int));
            assert(expr@.take(i + 1).last() == c);
        }
        if '0' <= c && c <= '9' {
            let d = (c as u32 - '0' as u32) as NumType;
            if in_number {
                let next = match pending.checked_mul(10) {
                    Some(m) => m.checked_add(d),
                    None => None,
                };
                match next {
                    Some(v) => {
                        pending = v;
                    },
                    None => {
                        proof {
                            lemma_failure_persists(expr@, i + 1);
                        }
                        return Err(CalcError::MalformedLiteral);
                    },
                }
            } else {
                in_number = true;
                pending = d;
            }
        } else {
            match symbol(c) {
                Some(op) => {
                    if in_number {
                        res.push(Token::Number(pending));
                        in_number = false;
                        pending = 0;
                    }
                    res.push(op);
                },
                None => {},
            }
        }
        i = i + 1;
    }
    if in_number {
        res.push(Token::Number(pending));
    }
    proof {
        assert(expr@.take(n as int) =~= expr@);
    }
    Ok(res)
}

} // verus!
