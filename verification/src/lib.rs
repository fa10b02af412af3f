//! A test scaffolding compiler for the Branching Tree Technique.
pub mod text;
pub mod utils;
pub mod span;
pub mod syntax;
pub mod hir;
pub mod scaffold;
pub mod error;
pub mod sol;
pub mod constants;
pub mod check;
pub mod config;
