use vstd::prelude::*;

use crate::error::CalcError;
use crate::eval::{eval, evaluated};
use crate::token::{tokenize, tokenized, NumType};
use crate::transform::{standardize, standardized};

verus! {

/// The value of an expression string: tokenized, normalized, then
/// evaluated, with the first error of the three stages.
pub open spec fn computed(s: Seq<char>) -> Result<NumType, CalcError> {
    match tokenized(s) {
        Ok(t) => match standardized(t) {
            Ok(n) => evaluated(n),
            Err(e) => Err(e),
        },
        Err(e) => Err(e),
    }
}

/// Evaluates an arithmetic expression such as `"(1+3)*(5-7)"`.
pub fn compute(s: &str) -> (r: Result<NumType, CalcError>)
    ensures
        r == computed(s@),
{
    let token_stream = match tokenize(s) {
        Ok(t) => t,
        Err(e) => {
            return Err(e);
        },
    };
    let token_stream = match standardize(&token_stream) {
        Ok(t) => t,
        Err(e) => {
            return Err(e);
        },
    };
    eval(&token_stream)
}

} // verus!
