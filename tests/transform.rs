use calculator::error::CalcError;
use calculator::token::Token::{Add, Mul, Number, Sub, LP, RP};
use calculator::transform::standardize;

#[test]
fn test_standardize() {
    assert_eq!(
        // -1+(-1-1)
        standardize(&vec![
            Sub,
            Number(1),
            Add,
            LP,
            Sub,
            Number(1),
            Sub,
            Number(1),
            RP
        ])
        .unwrap(),
        // 0-1+(0-1-1)
        vec![
            Number(0),
            Sub,
            Number(1),
            Add,
            LP,
            Number(0),
            Sub,
            Number(1),
            Sub,
            Number(1),
            RP,
        ]
    );
}

#[test]
fn test_invalid_expression() {
    // ((1+1)
    assert!(standardize(&vec![LP, LP, Number(1), Add, Number(1), RP]).is_err());
}

#[test]
fn standardize_keeps_plain_sequences() {
    let plain = vec![LP, Number(1), Add, Number(2), RP, Mul, Number(3)];
    assert_eq!(standardize(&plain), Ok(plain.clone()));
    assert_eq!(standardize(&vec![]), Ok(vec![]));
    let once = standardize(&vec![Add, Number(4)]).unwrap();
    assert_eq!(once, vec![Number(0), Add, Number(4)]);
    assert_eq!(standardize(&once), Ok(once.clone()));
}

#[test]
fn standardize_rejections() {
    assert_eq!(standardize(&vec![Mul, Number(1)]), Err(CalcError::InvalidExpression));
    assert_eq!(standardize(&vec![RP]), Err(CalcError::InvalidExpression));
    assert_eq!(standardize(&vec![Number(1), LP]), Err(CalcError::InvalidExpression));
    assert_eq!(standardize(&vec![RP, Number(1)]), Err(CalcError::InvalidExpression));
    assert_eq!(standardize(&vec![LP, RP]), Err(CalcError::InvalidExpression));
    assert_eq!(
        standardize(&vec![Number(1), RP, Add, LP, Number(2)]),
        Err(CalcError::InvalidExpression)
    );
    assert_eq!(
        standardize(&vec![Number(1), Add, Sub, Number(2)]),
        Err(CalcError::InvalidExpression)
    );
}
