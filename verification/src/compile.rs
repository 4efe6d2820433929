//! The compiling front: `compile` here trusts its caller to hand it a valid
//! pattern; `compiler::compile` reports faults instead.

pub mod compiler;

use vstd::prelude::*;

verus! {

use crate::gex::machine::{GexMachine, wf};
use crate::compile::compiler::spec_compile;

/// Compiles a pattern known to be valid. Callers that cannot promise a valid
/// pattern use `compiler::compile`, which reports the fault instead.
pub fn compile(input: &str) -> (r: GexMachine)
    requires
        4 * input@.len() <= usize::MAX,
        spec_compile(input@) is Ok,
    ensures
        spec_compile(input@) matches Ok(sm) && r@ =~~= sm,
        wf(r@),
{
    match crate::compile::compiler::compile(input) {
        Ok(m) => m,
        Err(_) => vstd::pervasive::unreached(),
    }
}

} // verus!
