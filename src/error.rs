use vstd::prelude::*;

verus! {

/// The ways in which evaluating an expression can fail.
#[derive(Debug, Clone, Copy, PartialEq, Eq, Structural)]
pub enum CalcError {
    /// A run of digits does not fit in the number type.
    MalformedLiteral,
    /// Two tokens stand next to each other where the grammar forbids it, or
    /// the parentheses are not balanced.
    InvalidExpression,
    /// An operator found fewer than two operands, or the expression did not
    /// leave exactly one value.
    StackUnderflow,
    /// A parenthesis has no partner on the operator stack.
    UnbalancedParenthesis,
    /// A division by zero.
    DivisionByZero,
    /// An intermediate result does not fit in the number type.
    Overflow,
}

} // verus!
