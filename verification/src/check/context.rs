//! The context in which rules are checked.
use vstd::prelude::*;

use crate::hir::hir::Hir;
use crate::sol::SolUnitPart;

verus! {

/// The context in which rule checking happens: a tree, its HIR, and the
/// Solidity file that should match it.
pub struct Context {
    /// The path to the tree file.
    pub tree: String,
    /// The HIR of the tree.
    pub hir: Hir,
    /// The path to the Solidity file.
    pub sol: String,
    /// The contents of the Solidity file.
    pub src: String,
    /// The top-level parts of the Solidity file.
    pub pt: Vec<SolUnitPart>,
    /// Whether missing modifiers go unreported.
    pub skip_modifiers: bool,
}

} // verus!
