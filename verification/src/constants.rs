//! Defaults of the compiler.
use vstd::prelude::*;

verus! {

/// The Solidity version of the code that fixes emit.
pub const INTERNAL_DEFAULT_SOL_VERSION: &'static str = "0.8.0";

/// The indentation, in spaces, of the code that fixes emit.
pub const INTERNAL_DEFAULT_INDENTATION: usize = 2;

} // verus!
