//! The `bulloak scaffold` command: scaffolds Solidity test files from
//! `.tree` specs.
use vstd::prelude::*;

use crate::config::Config;
use crate::constants::{INTERNAL_DEFAULT_INDENTATION, INTERNAL_DEFAULT_SOL_VERSION};
use crate::error::{reportable, Error, Failure};
use crate::hir::hir::{copy_strings, strings_view};
use crate::hir::{error_text_fits, translate_and_combine_trees, translation, translation_defined, trees_fit};
use emitter::{indentation, root_text, EmitOptions, Emitter};
use crate::config::Commands;
use crate::text::push_str;

pub mod emitter;
pub mod lines;
pub mod modifiers;

verus! {

/// Generate Solidity tests based on your spec.
pub struct Scaffold {
    /// The tree files to generate from; each Solidity file is named after
    /// its tree.
    pub files: Vec<String>,
    /// Whether to write to files instead of stdout.
    pub write_files: bool,
    /// With `write_files`, whether to overwrite existing files.
    pub force_write: bool,
    /// The Solidity version of the test contracts.
    pub solidity_version: String,
    /// Whether to add `vm.skip(true)` at the beginning of each test.
    pub with_vm_skip: bool,
    /// Whether to leave out the modifier definitions.
    pub skip_modifiers: bool,
}

impl Default for Scaffold {
    fn default() -> (res: Self)
        ensures
            res.files@.len() == 0,
            !res.write_files,
            !res.force_write,
            res.solidity_version@ == INTERNAL_DEFAULT_SOL_VERSION@,
            !res.with_vm_skip,
            !res.skip_modifiers,
    {
        Scaffold {
            files: Vec::new(),
            write_files: false,
            force_write: false,
            solidity_version: INTERNAL_DEFAULT_SOL_VERSION.to_string(),
            with_vm_skip: false,
            skip_modifiers: false,
        }
    }
}

impl Scaffold {
    /// A copy of these options with `with_vm_skip` set as given.
    pub fn with_vm_skip(&self, with_vm_skip: bool) -> (res: Scaffold)
        ensures
            strings_view(res.files@) == strings_view(self.files@),
            res.write_files == self.write_files,
            res.force_write == self.force_write,
            res.solidity_version@ == self.solidity_version@,
            res.with_vm_skip == with_vm_skip,
            res.skip_modifiers == self.skip_modifiers,
    {
        Scaffold {
            files: copy_strings(&self.files),
            write_files: self.write_files,
            force_write: self.force_write,
            solidity_version: self.solidity_version.clone(),
            with_vm_skip,
            skip_modifiers: self.skip_modifiers,
        }
    }
}

/// The license line at the top of scaffolded files.
pub const LICENSE_LINE: &'static str = "// SPDX-License-Identifier: UNLICENSED\n";

/// The options with which scaffolding emits code: actions as comments, the
/// default indentation, and the Solidity version, test skipping and
/// modifier skipping of the scaffold command (the defaults for other
/// commands).
pub open spec fn scaffold_options(cfg: Config) -> EmitOptions {
    match cfg.command {
        Commands::Scaffold(s) => EmitOptions {
            comments: true,
            ind: indentation(INTERNAL_DEFAULT_INDENTATION as nat),
            version: s.solidity_version@,
            vm_skip: s.with_vm_skip,
            skip_modifiers: s.skip_modifiers,
        },
        Commands::Check(_) => EmitOptions {
            comments: true,
            ind: indentation(INTERNAL_DEFAULT_INDENTATION as nat),
            version: INTERNAL_DEFAULT_SOL_VERSION@,
            vm_skip: false,
            skip_modifiers: false,
        },
    }
}

/// The Solidity code scaffolded from a `.tree` file with the options `o`:
/// the license line, then the code of its combined HIR; or the error of
/// compiling the file.
pub open spec fn scaffolded(text: Seq<char>, o: EmitOptions) -> Result<Seq<char>, Failure> {
    match translation(text) {
        Ok(h) => Ok(LICENSE_LINE@ + root_text(o, h)),
        Err(e) => Err(e),
    }
}

/// Generates Solidity code from the contents of a `.tree` file.
pub fn scaffold(text: &str, cfg: &Config) -> (res: Result<String, Error>)
    requires
        trees_fit(text@),
        translation_defined(text@),
    ensures
        match res {
            Ok(s) => scaffolded(text@, scaffold_options(*cfg)) == Ok::<Seq<char>, Failure>(s@),
            Err(e) => scaffolded(text@, scaffold_options(*cfg)) == Err::<Seq<char>, Failure>(e@)
                && reportable(e) && error_text_fits(e, text@),
        },
{
    let hir = match translate_and_combine_trees(text) {
        Ok(h) => h,
        Err(e) => return Err(e),
    };
    let scaffold = cfg.scaffold();
    let emitter = Emitter::new(true, INTERNAL_DEFAULT_INDENTATION, scaffold.solidity_version.as_str())
        .with_vm_skip(scaffold.with_vm_skip)
        .with_skip_modifiers(scaffold.skip_modifiers);
    let code = emitter.emit(&hir);
    let mut res = String::new();
    push_str(&mut res, LICENSE_LINE);
    push_str(&mut res, code.as_str());
    Ok(res)
}

} // verus!
