//! How many operands an operator token consumes.

use vstd::prelude::*;

verus! {

#[derive(Debug, PartialEq, Eq, Structural, Clone, Copy)]
pub enum Arity {
    Binary,
    Unary,
    NoOp,
    NAry(usize),
}

pub trait Operator {
    fn arity(&self) -> Arity;
}

} // verus!
