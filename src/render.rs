use vstd::prelude::*;

use crate::decimal::{decimal, digit_char, push_signed, signed_decimal};
use crate::error::CalcError;
use crate::token::{
    numbers_nonnegative, numbers_separated, tokenized, tokens_of, NumType, Token, TokenStream,
};
use crate::transform::{lemma_rewritten_shape, standardized};

verus! {

/// The text of a token: the decimal form of a number, or the character of an
/// operator or a parenthesis.
pub open spec fn token_text(t: Token) -> Seq<char> {
    match t {
        Token::Number(v) => signed_decimal(v as int),
        Token::Add => seq!['+'],
        Token::Sub => seq!['-'],
        Token::Mul => seq!['*'],
        Token::Div => seq!['/'],
        Token::LP => seq!['('],
        Token::RP => seq![')'],
    }
}

/// The printed form of a token sequence: the texts of its tokens, one after
/// the other.
pub open spec fn rendered(ts: Seq<Token>) -> Seq<char>
    decreases ts.len(),
{
    if ts.len() == 0 {
        Seq::empty()
    } else {
        rendered(ts.drop_last()) + token_text(ts.last())
    }
}

/// Appends the text of `token` to `out`.
pub fn push_token(out: &mut String, token: Token)
    ensures
        final(out)@ == old(out)@ + token_text(token),
{
    proof {
        reveal_strlit("+");
        reveal_strlit("-");
        reveal_strlit("*");
        reveal_strlit("/");
        reveal_strlit("(");
        reveal_strlit(")");
    }
    match token {
        Token::Number(v) => push_signed(out, v),
        Token::Add => out.append("+"),
        Token::Sub => out.append("-"),
        Token::Mul => out.append("*"),
        Token::Div => out.append("/"),
        Token::LP => out.append("("),
        Token::RP => out.append(")"),
    }
}

/// Prints a token sequence with no separators, as in `"0-1+(2*3)"`.
pub fn render(stream: &TokenStream) -> (r: String)
    ensures
        r@ == rendered(stream@),
{
    let mut out = String::new();
    let mut i: usize = 0;
    while i < stream.len()
        invariant
            i <= stream@.len(),
            out@ == rendered(stream@.take(i as int)),
        decreases stream@.len() - i,
    {
        push_token(&mut out, stream[i]);
        proof {
            assert(stream@.take(i + 1).drop_last() =~= stream@.take(i as int));
        }
        i = i + 1;
    }
    proof {
        assert(stream@.take(stream@.len() as int) =~= stream@);
    }
    out
}

/// Appending the digits of `n` after tokens that do not end in a number adds
/// the one token `Number(n)`.
proof fn lemma_tokens_of_decimal(a: Seq<char>, t: Seq<Token>, n: nat)
    requires
        tokens_of(a) == Some(t),
        t.len() == 0 || t.last() !is Number,
        n <= NumType::MAX,
    ensures
        tokens_of(a + decimal(n)) == Some(t.push(Token::Number(n as NumType))),
    decreases n,
{
    if n < 10 {
        let s = a + decimal(n);
        assert(s.drop_last() =~= a);
        assert(s.last() == digit_char(n as int));
    } else {
        lemma_tokens_of_decimal(a, t, n / 10);
        let s = a + decimal(n);
        assert(s.drop_last() =~= a + decimal(n / 10));
        assert(s.last() == digit_char((n % 10) as int));
        assert(t.push(Token::Number((n / 10) as NumType)).drop_last() =~= t);
    }
}

/// Tokenizing the printed form of a sequence gives the sequence back, when
/// its numbers are non-negative and never neighbours.
pub proof fn lemma_tokenize_rendered(ts: Seq<Token>)
    requires
        numbers_nonnegative(ts),
        numbers_separated(ts),
    ensures
        tokens_of(rendered(ts)) == Some(ts),
    decreases ts.len(),
{
    if ts.len() > 0 {
        let p = ts.drop_last();
        let x = ts.last();
        assert(numbers_nonnegative(p));
        assert(numbers_separated(p));
        lemma_tokenize_rendered(p);
        match x {
            Token::Number(v) => {
                assert(ts[ts.len() - 1] is Number);
                lemma_tokens_of_decimal(rendered(p), p, v as nat);
            },
            _ => {
                let s = rendered(ts);
                assert(s.drop_last() =~= rendered(p));
            },
        }
        assert(p.push(x) =~= ts);
    }
}


/// Tokenizing the printed form of a normalized sequence gives back exactly
/// that normalized sequence, explicit zeros included, when the numbers of the
/// input are non-negative and never neighbours.
pub proof fn lemma_normalized_round_trip(ts: Seq<Token>, out: Seq<Token>)
    requires
        standardized(ts) == Ok::<Seq<Token>, CalcError>(out),
        numbers_nonnegative(ts),
        numbers_separated(ts),
    ensures
        tokenized(rendered(out)) == Ok::<Seq<Token>, CalcError>(out),
{
    lemma_rewritten_shape(ts, ts.len() as int);
    lemma_tokenize_rendered(out);
}

} // verus!
