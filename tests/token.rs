use calculator::error::CalcError;
use calculator::token::tokenize;
use calculator::token::Token::{Add, Div, Mul, Number, Sub, LP, RP};

#[test]
fn test_tokenize() {
    assert_eq!(tokenize("1+1").unwrap(), vec![Number(1), Add, Number(1)]);
    assert_eq!(
        tokenize("3*6+1").unwrap(),
        vec![Number(3), Mul, Number(6), Add, Number(1)]
    );
    assert_eq!(
        tokenize("-1+( -1- 1 )").unwrap(),
        vec![Sub, Number(1), Add, LP, Sub, Number(1), Sub, Number(1), RP]
    );
}

#[test]
fn tokenize_edge_cases() {
    assert_eq!(tokenize("").unwrap(), vec![]);
    assert_eq!(tokenize("1 2").unwrap(), vec![Number(12)]);
    assert_eq!(tokenize("007").unwrap(), vec![Number(7)]);
    assert_eq!(tokenize("a/b").unwrap(), vec![Div]);
    assert_eq!(
        tokenize("9223372036854775807").unwrap(),
        vec![Number(i64::MAX)]
    );
    assert_eq!(
        tokenize("9223372036854775808"),
        Err(CalcError::MalformedLiteral)
    );
}
