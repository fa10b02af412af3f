//! The rules that Solidity files must follow to match their trees.
pub mod structural_match;
