//! Evaluation of integer arithmetic expressions.
//!
//! An expression string goes through three stages: [`token::tokenize`] turns
//! it into tokens, [`transform::standardize`] makes unary signs explicit and
//! checks the structure, and [`eval::eval`] computes the value with an operand
//! stack and an operator stack. [`compute::compute`] chains the three.
//!
//! [`infix`] models expressions as trees and proves that the chain computes
//! the value of the tree that precedence and left associativity give to the
//! text. [`render`] prints token sequences back as text. [`frac`] holds an
//! exact rational number type, and [`decimal`] the decimal digits of
//! integers.
pub mod decimal;
pub mod error;
pub mod token;
pub mod transform;
pub mod eval;
pub mod compute;
pub mod render;
pub mod frac;
pub mod infix;
