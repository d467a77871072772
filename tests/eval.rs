use calculator::error::CalcError;
use calculator::eval::eval;
use calculator::token::Token::{Add, Div, Mul, Number, Sub, LP, RP};

#[test]
fn eval_test_eval() {
    assert_eq!(
        // 1 + 1
        eval(&vec![Number(1), Add, Number(1)]).unwrap(),
        2
    );
    assert_eq!(
        // 10 * 9
        eval(&vec![Number(10), Mul, Number(9)]).unwrap(),
        90
    );
    assert_eq!(
        // (1+2)*(3-4)
        eval(&vec![
            LP,
            Number(1),
            Add,
            Number(2),
            RP,
            Mul,
            LP,
            Number(3),
            Sub,
            Number(4),
            RP
        ])
        .unwrap(),
        -3
    )
}

#[test]
fn eval_defensive_errors() {
    assert_eq!(eval(&vec![]), Err(CalcError::StackUnderflow));
    assert_eq!(eval(&vec![Number(1), Add]), Err(CalcError::StackUnderflow));
    assert_eq!(eval(&vec![Number(1), Number(2)]), Err(CalcError::StackUnderflow));
    assert_eq!(eval(&vec![Number(1), RP]), Err(CalcError::UnbalancedParenthesis));
    assert_eq!(eval(&vec![LP, Number(1)]), Err(CalcError::UnbalancedParenthesis));
    assert_eq!(eval(&vec![Number(5), Div, Number(0)]), Err(CalcError::DivisionByZero));
    assert_eq!(
        eval(&vec![Number(i64::MIN), Div, Number(-1)]),
        Err(CalcError::Overflow)
    );
}

#[test]
fn eval_negative_operands() {
    assert_eq!(eval(&vec![Number(-7), Div, Number(2)]), Ok(-3));
    assert_eq!(eval(&vec![Number(0), Sub, Number(3), Mul, Number(4)]), Ok(-12));
}
