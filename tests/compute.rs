use calculator::compute::compute;
use calculator::error::CalcError;

#[test]
fn test_compute() {
    assert!(compute("1+1").unwrap() == 2);
    assert!(compute("(1+3)*(5-7)").unwrap() == -8);
    assert!(compute("-1+(-1-1)").unwrap() == -3);
    assert!(compute("(1)+1+2").unwrap() == 4);
}

#[test]
fn test_compute_divide() {
    assert!(compute("1/2").unwrap() == 0);
    assert!(compute("10/3").unwrap() == 3);
}

#[test]
fn test_compute_err() {
    assert!(compute("1+1+").is_err());
    assert!(compute("()").is_err());
    assert!(compute("1++1+2+3").is_err());
}

#[test]
fn compute_follows_precedence_and_left_associativity() {
    assert_eq!(compute("2+3*4"), Ok(14));
    assert_eq!(compute("2*3+4"), Ok(10));
    assert_eq!(compute("10-4-3"), Ok(3));
    assert_eq!(compute("100/10/5"), Ok(2));
    assert_eq!(compute("8-2*3+12/4"), Ok(5));
    assert_eq!(compute("2*(3+4)*5"), Ok(70));
    assert_eq!(compute("((7))"), Ok(7));
    assert_eq!(compute("7/2*2"), Ok(6));
}

#[test]
fn compute_truncates_toward_zero() {
    assert_eq!(compute("-7/2"), Ok(-3));
    assert_eq!(compute("7/(0-2)"), Ok(-3));
    assert_eq!(compute("-7/(-2)"), Ok(3));
}

#[test]
fn compute_empty_is_stack_underflow() {
    assert_eq!(compute(""), Err(CalcError::StackUnderflow));
    assert_eq!(compute("   "), Err(CalcError::StackUnderflow));
}

#[test]
fn compute_reports_each_error_kind() {
    assert_eq!(compute("99999999999999999999"), Err(CalcError::MalformedLiteral));
    assert_eq!(compute("1+*2"), Err(CalcError::InvalidExpression));
    assert_eq!(compute("(1+2"), Err(CalcError::InvalidExpression));
    assert_eq!(compute("1)+(2"), Err(CalcError::InvalidExpression));
    assert_eq!(compute("(1+1)(2+2)"), Err(CalcError::InvalidExpression));
    assert_eq!(compute("2(3)"), Err(CalcError::InvalidExpression));
    assert_eq!(compute("1/0"), Err(CalcError::DivisionByZero));
    assert_eq!(compute("1/(1-1)"), Err(CalcError::DivisionByZero));
    assert_eq!(compute("9223372036854775807+1"), Err(CalcError::Overflow));
    assert_eq!(compute("4611686018427387904*2"), Err(CalcError::Overflow));
}

#[test]
fn compute_skips_unknown_characters() {
    assert_eq!(compute(" 1 + 2 "), Ok(3));
    assert_eq!(compute("1 2+1"), Ok(13));
    assert_eq!(compute("x3a*b2"), Ok(6));
}

#[test]
fn compute_handles_largest_values() {
    assert_eq!(compute("9223372036854775807"), Ok(i64::MAX));
    assert_eq!(compute("0-9223372036854775807-1"), Ok(i64::MIN));
    assert_eq!(compute("-9223372036854775807"), Ok(-i64::MAX));
}
