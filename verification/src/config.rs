//! `bulloak`'s configuration.
use vstd::prelude::*;

use crate::check::Check;
use crate::constants::INTERNAL_DEFAULT_SOL_VERSION;
use crate::hir::hir::{copy_strings, strings_view};
use crate::scaffold::Scaffold;

verus! {

/// `bulloak`'s configuration.
pub struct Config {
    /// `bulloak`'s command.
    pub command: Commands,
}

/// `bulloak`'s commands.
pub enum Commands {
    /// `bulloak scaffold`.
    Scaffold(Scaffold),
    /// `bulloak check`.
    Check(Check),
}

impl Default for Commands {
    fn default() -> (res: Self)
        ensures
            res matches Commands::Scaffold(s) && s.files@.len() == 0 && !s.write_files && !s.force_write
                && s.solidity_version@ == INTERNAL_DEFAULT_SOL_VERSION@ && !s.with_vm_skip
                && !s.skip_modifiers,
    {
        Commands::Scaffold(Scaffold::default())
    }
}

impl Default for Config {
    fn default() -> (res: Self)
        ensures
            res.command matches Commands::Scaffold(s) && s.files@.len() == 0 && !s.write_files
                && !s.force_write && s.solidity_version@ == INTERNAL_DEFAULT_SOL_VERSION@
                && !s.with_vm_skip && !s.skip_modifiers,
    {
        Config { command: Commands::default() }
    }
}

impl Config {
    /// The Solidity version that scaffolding uses: the one of the scaffold
    /// command, the default one for other commands.
    pub open spec fn solidity_version(&self) -> Seq<char> {
        match self.command {
            Commands::Scaffold(s) => s.solidity_version@,
            Commands::Check(_) => INTERNAL_DEFAULT_SOL_VERSION@,
        }
    }

    /// The options of the scaffold command: those given, or the defaults
    /// when the command is another one.
    pub fn scaffold(&self) -> (res: Scaffold)
        ensures
            res.solidity_version@ == self.solidity_version(),
            match self.command {
                Commands::Scaffold(s) => strings_view(res.files@) == strings_view(s.files@)
                    && res.write_files == s.write_files && res.force_write == s.force_write
                    && res.with_vm_skip == s.with_vm_skip && res.skip_modifiers == s.skip_modifiers,
                Commands::Check(_) => res.files@.len() == 0 && !res.write_files && !res.force_write
                    && !res.with_vm_skip && !res.skip_modifiers,
            },
    {
        match &self.command {
            Commands::Scaffold(s) => s.with_vm_skip(s.with_vm_skip),
            Commands::Check(_) => Scaffold::default(),
        }
    }

    /// A copy of this configuration with `with_vm_skip` set as given, for
    /// the scaffold command; an unchanged copy for other commands.
    pub fn with_vm_skip(&self, with_vm_skip: bool) -> (res: Config)
        ensures
            match (self.command, res.command) {
                (Commands::Scaffold(s), Commands::Scaffold(r)) => strings_view(r.files@) == strings_view(
                    s.files@,
                ) && r.write_files == s.write_files && r.force_write == s.force_write
                    && r.solidity_version@ == s.solidity_version@ && r.with_vm_skip == with_vm_skip
                    && r.skip_modifiers == s.skip_modifiers,
                (Commands::Check(c), Commands::Check(r)) => strings_view(r.files@) == strings_view(
                    c.files@,
                ) && r.fix == c.fix && r.stdout == c.stdout && r.skip_modifiers == c.skip_modifiers,
                _ => false,
            },
    {
        match &self.command {
            Commands::Scaffold(s) => Config { command: Commands::Scaffold(s.with_vm_skip(with_vm_skip)) },
            Commands::Check(c) => Config {
                command: Commands::Check(Check { files: copy_strings(&c.files), fix: c.fix, stdout: c.stdout, skip_modifiers: c.skip_modifiers }),
            },
        }
    }
}

} // verus!
