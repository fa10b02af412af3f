//! Violations of the rules that a Solidity file must follow to match its
//! tree.
use vstd::prelude::*;

use super::context::Context;
use super::location::{file_of, location_text, Location, SpecLocation};
use super::rules::structural_match::hir_contract;
use crate::constants::{INTERNAL_DEFAULT_INDENTATION, INTERNAL_DEFAULT_SOL_VERSION};
use crate::scaffold::emitter::{function_text, plain_options, root_text, Emitter};
use crate::scaffold::LICENSE_LINE;
use crate::sol::{
    SolFunction, SpecSolFunction, copy_sol_function, find_contract, find_matching_fn, first_contract_index, first_match, parts_view,
    SolContract, SolPart, SpecSolPart,
};
use crate::hir::hir::{Hir, SpecHir, ContractDefinition, hirs_view, lemma_hirs_view};
use crate::text::{
    byte_slice, char_count_at, char_index_of, chars_of, push_chars_from, slice_bytes, sliceable, take_chars,
};
use crate::utils::{joined, join_strings, repeat_str, repeated, trim_end_str, trimmed_end};
use crate::error::{Error as TreeError, Failure};
use crate::hir::combiner::mismatch_message;
use crate::hir::hir::{function_view, FunctionDefinition, SpecFunction};
use crate::syntax::parser;
use crate::text::{debug_of, push_str};
use crate::utils::{replace_str, replaced};

verus! {

/// The kind of a violation.
#[derive(Debug, PartialEq, Eq)]
pub enum ViolationKind {
    /// Found no matching Solidity contract: the contract name.
    ContractMissing(String),
    /// The contract name does not match: the tree name and the Solidity name.
    ContractNameNotMatches(String, String),
    /// The corresponding Solidity file does not exist: the file name.
    SolidityFileMissing(String),
    /// The corresponding Solidity file could not be read.
    FileUnreadable,
    /// A function is in the wrong place: the Solidity function, its index
    /// among the contract parts and the index of its HIR counterpart.
    FunctionOrderMismatch(SolFunction, usize, usize),
    /// A tree function has no matching Solidity function: the HIR function
    /// and its index among the contract children.
    MatchingFunctionMissing(FunctionDefinition, usize),
    /// The tree (with its error) or the Solidity file (without one) could
    /// not be parsed.
    ParsingFailed(Option<TreeError>),
}

/// The kind of a violation as a mathematical value.
pub enum SpecViolationKind {
    /// See `ViolationKind::ContractMissing`.
    ContractMissing(Seq<char>),
    /// See `ViolationKind::ContractNameNotMatches`.
    ContractNameNotMatches(Seq<char>, Seq<char>),
    /// See `ViolationKind::SolidityFileMissing`.
    SolidityFileMissing(Seq<char>),
    /// See `ViolationKind::FileUnreadable`.
    FileUnreadable,
    /// See `ViolationKind::FunctionOrderMismatch`.
    FunctionOrderMismatch(SpecSolFunction, usize, usize),
    /// See `ViolationKind::MatchingFunctionMissing`.
    MatchingFunctionMissing(SpecFunction, usize),
    /// See `ViolationKind::ParsingFailed`.
    ParsingFailed(Option<Failure>),
}

impl View for ViolationKind {
    type V = SpecViolationKind;

    open spec fn view(&self) -> SpecViolationKind {
        match self {
            ViolationKind::ContractMissing(c) => SpecViolationKind::ContractMissing(c@),
            ViolationKind::ContractNameNotMatches(t, s) => SpecViolationKind::ContractNameNotMatches(
                t@,
                s@,
            ),
            ViolationKind::SolidityFileMissing(f) => SpecViolationKind::SolidityFileMissing(f@),
            ViolationKind::FileUnreadable => SpecViolationKind::FileUnreadable,
            ViolationKind::FunctionOrderMismatch(f, i, j) => SpecViolationKind::FunctionOrderMismatch(
                f@,
                *i,
                *j,
            ),
            ViolationKind::MatchingFunctionMissing(f, i) => SpecViolationKind::MatchingFunctionMissing(
                function_view(*f),
                *i,
            ),
            ViolationKind::ParsingFailed(e) => SpecViolationKind::ParsingFailed(
                match e {
                    Some(e) => Some(e@),
                    None => None,
                },
            ),
        }
    }
}

/// A violation of the rules: its kind and where it occurred.
#[derive(Debug, PartialEq, Eq)]
pub struct Violation {
    /// The kind of violation.
    pub kind: ViolationKind,
    /// Where it occurred.
    pub location: Location,
}

/// A violation as a mathematical value.
pub struct SpecViolation {
    /// The kind of violation.
    pub kind: SpecViolationKind,
    /// Where it occurred.
    pub location: SpecLocation,
}

impl View for Violation {
    type V = SpecViolation;

    open spec fn view(&self) -> SpecViolation {
        SpecViolation { kind: self.kind@, location: self.location@ }
    }
}

/// The views of a sequence of violations.
pub open spec fn violations_view(v: Seq<Violation>) -> Seq<SpecViolation> {
    Seq::new(v.len(), |i: int| v[i]@)
}

/// The prefix of the message of a tree that could not be parsed.
pub open spec fn tree_error_prefix() -> Seq<char> {
    "an error occurred while parsing the tree: "@
}

/// The message of a kind of violation.
pub open spec fn kind_message(k: SpecViolationKind) -> Seq<char> {
    match k {
        SpecViolationKind::ContractMissing(c) => "contract \""@ + c + "\" is missing in .sol"@,
        SpecViolationKind::ContractNameNotMatches(t, s) => "contract \""@ + t
            + "\" is missing in .sol -- found \""@ + s + "\" instead"@,
        SpecViolationKind::SolidityFileMissing(f) =>
            "the tree is missing its matching Solidity file.\nTry running `bulloak scaffold "@ + f
            + "`"@,
        SpecViolationKind::FileUnreadable => "bulloak couldn't read the file"@,
        SpecViolationKind::FunctionOrderMismatch(f, _, _) => "incorrect position for function \""@
            + f.name->Some_0 + "\""@,
        SpecViolationKind::MatchingFunctionMissing(f, _) => "function \""@ + f.identifier
            + "\" is missing in .sol"@,
        SpecViolationKind::ParsingFailed(Some(e)) => match e {
            Failure::Tokenize(t) => tree_error_prefix() + "invalid identifier: "@ + debug_of(t.ch),
            Failure::Parse(p) => tree_error_prefix() + parser::message_of(p.kind),
            Failure::Combine(c) => tree_error_prefix() + mismatch_message(c.found, c.expected),
            Failure::Semantic(_) => "at least one semantic error occured while parsing the tree"@,
        },
        SpecViolationKind::ParsingFailed(None) => "an error occurred while parsing the solidity file"@,
    }
}

/// The help text of a kind of violation, if it has one.
pub open spec fn kind_help(k: SpecViolationKind) -> Option<Seq<char>> {
    match k {
        SpecViolationKind::ContractMissing(c) => Some(
            "consider adding a contract with name \""@ + c + "\""@,
        ),
        SpecViolationKind::ContractNameNotMatches(t, _) => Some(
            "consider renaming the contract to \""@ + t + "\""@,
        ),
        SpecViolationKind::SolidityFileMissing(f) => Some(
            "consider running `bulloak scaffold "@ + replaced(f, ".t.sol"@, ".tree"@) + "`"@,
        ),
        SpecViolationKind::FunctionOrderMismatch(..) => Some(
            "consider reordering the function in the file"@,
        ),
        _ => None,
    }
}

/// Whether a kind of violation can be fixed automatically.
pub open spec fn kind_fixable(k: SpecViolationKind) -> bool {
    match k {
        SpecViolationKind::ContractMissing(_) => true,
        SpecViolationKind::ContractNameNotMatches(..) => true,
        SpecViolationKind::FunctionOrderMismatch(..) => true,
        SpecViolationKind::MatchingFunctionMissing(..) => true,
        _ => false,
    }
}

/// Violations that can be reported: a misplaced function has a name.
pub open spec fn reportable(v: SpecViolation) -> bool {
    v.kind matches SpecViolationKind::FunctionOrderMismatch(f, _, _) ==> f.name is Some
}

/// The report of a violation: the warning, its help, how to fix it, and
/// where it occurred.
pub open spec fn violation_text(v: SpecViolation) -> Seq<char> {
    "warn: "@ + kind_message(v.kind) + "\n"@ + match kind_help(v.kind) {
        Some(h) => "     = help: "@ + h + "\n"@,
        None => Seq::empty(),
    } + if kind_fixable(v.kind) {
        "     + fix: run `bulloak check --fix "@ + file_of(v.location) + "`\n"@
    } else {
        Seq::empty()
    } + "   --> "@ + location_text(v.location) + "\n"@
}

/// `prefix`, then `middle`, then `suffix`.
fn surround(prefix: &str, middle: &str, suffix: &str) -> (res: String)
    ensures
        res@ == prefix@ + middle@ + suffix@,
{
    let mut s = String::new();
    push_str(&mut s, prefix);
    push_str(&mut s, middle);
    push_str(&mut s, suffix);
    s
}

/// `prefix`, then `rest`.
fn prefixed(prefix: &str, rest: &str) -> (res: String)
    ensures
        res@ == prefix@ + rest@,
{
    let mut s = String::new();
    push_str(&mut s, prefix);
    push_str(&mut s, rest);
    s
}

impl ViolationKind {
    /// The message of this kind of violation.
    pub fn message(&self) -> (res: String)
        requires
            self@ matches SpecViolationKind::FunctionOrderMismatch(f, _, _) ==> f.name is Some,
        ensures
            res@ == kind_message(self@),
    {
        match self {
            ViolationKind::ContractMissing(c) => surround("contract \"", c.as_str(), "\" is missing in .sol"),
            ViolationKind::ContractNameNotMatches(t, s) => {
                let mut m = surround("contract \"", t.as_str(), "\" is missing in .sol -- found \"");
                push_str(&mut m, s.as_str());
                push_str(&mut m, "\" instead");
                m
            },
            ViolationKind::SolidityFileMissing(f) => surround(
                "the tree is missing its matching Solidity file.\nTry running `bulloak scaffold ",
                f.as_str(),
                "`",
            ),
            ViolationKind::FileUnreadable => "bulloak couldn't read the file".to_string(),
            ViolationKind::FunctionOrderMismatch(f, _, _) => match &f.name {
                Some(n) => surround("incorrect position for function \"", n.as_str(), "\""),
                None => String::new(),
            },
            ViolationKind::MatchingFunctionMissing(f, _) => surround(
                "function \"",
                f.identifier.as_str(),
                "\" is missing in .sol",
            ),
            ViolationKind::ParsingFailed(Some(e)) => match e {
                TreeError::Tokenize(t) => {
                    let k = t.kind.message();
                    prefixed("an error occurred while parsing the tree: ", k.as_str())
                },
                TreeError::Parse(p) => {
                    let k = p.kind.message();
                    prefixed("an error occurred while parsing the tree: ", k.as_str())
                },
                TreeError::Combine(c) => {
                    let k = c.kind.message();
                    prefixed("an error occurred while parsing the tree: ", k.as_str())
                },
                TreeError::Semantic(_) => "at least one semantic error occured while parsing the tree".to_string(),
            },
            ViolationKind::ParsingFailed(None) => "an error occurred while parsing the solidity file".to_string(),
        }
    }
}

impl Violation {
    /// Creates a violation.
    pub fn new(kind: ViolationKind, location: Location) -> (res: Self)
        ensures
            res.kind == kind,
            res.location == location,
    {
        Violation { kind, location }
    }

    /// Whether this violation can be fixed automatically.
    pub fn is_fixable(&self) -> (res: bool)
        ensures
            res == kind_fixable(self@.kind),
    {
        match &self.kind {
            ViolationKind::ContractMissing(_) => true,
            ViolationKind::ContractNameNotMatches(_, _) => true,
            ViolationKind::FunctionOrderMismatch(_, _, _) => true,
            ViolationKind::MatchingFunctionMissing(_, _) => true,
            _ => false,
        }
    }

    /// A help text that explains how to deal with this violation, if any.
    pub fn help(&self) -> (res: Option<String>)
        ensures
            match res {
                Some(h) => kind_help(self@.kind) == Some(h@),
                None => kind_help(self@.kind) is None,
            },
    {
        match &self.kind {
            ViolationKind::ContractMissing(name) => Some(
                surround("consider adding a contract with name \"", name.as_str(), "\""),
            ),
            ViolationKind::ContractNameNotMatches(name, _) => Some(
                surround("consider renaming the contract to \"", name.as_str(), "\""),
            ),
            ViolationKind::SolidityFileMissing(filename) => {
                proof {
                    reveal_strlit(".t.sol");
                }
                let filename = replace_str(filename.as_str(), ".t.sol", ".tree");
                Some(surround("consider running `bulloak scaffold ", filename.as_str(), "`"))
            },
            ViolationKind::FunctionOrderMismatch(_, _, _) => Some(
                "consider reordering the function in the file".to_string(),
            ),
            _ => None,
        }
    }

    /// The report of this violation.
    pub fn to_string(&self) -> (res: String)
        requires
            reportable(self@),
        ensures
            res@ == violation_text(self@),
    {
        let mut s = String::new();
        push_str(&mut s, "warn: ");
        let m = self.kind.message();
        push_str(&mut s, m.as_str());
        push_str(&mut s, "\n");
        if let Some(h) = self.help() {
            push_str(&mut s, "     = help: ");
            push_str(&mut s, h.as_str());
            push_str(&mut s, "\n");
        }
        if self.is_fixable() {
            push_str(&mut s, "     + fix: run `bulloak check --fix ");
            push_str(&mut s, self.location.file());
            push_str(&mut s, "`\n");
        }
        push_str(&mut s, "   --> ");
        let l = self.location.to_string();
        push_str(&mut s, l.as_str());
        push_str(&mut s, "\n");
        s
    }
}

/// The index of the first occurrence of `c` in `t` at or after index `i`.
pub open spec fn find_char_from(t: Seq<char>, c: char, i: int) -> Option<int>
    decreases t.len() - i,
{
    if i < 0 || i >= t.len() {
        None
    } else if t[i] == c {
        Some(i)
    } else {
        find_char_from(t, c, i + 1)
    }
}

/// `src` with the code of the function `f` inserted at byte offset `offset`,
/// after a blank line.
pub open spec fn inserted_function(f: SpecFunction, src: Seq<char>, offset: int) -> Seq<char> {
    let k = char_count_at(src, offset)->Some_0;
    src.take(k) + "\n\n"@ + trimmed_end(
        function_text(plain_options(true, INTERNAL_DEFAULT_INDENTATION as nat, INTERNAL_DEFAULT_SOL_VERSION@), f),
    ) + src.skip(k)
}

/// Where the function at index `index` of a contract goes in `src`: right
/// after the opening brace of the contract when it is the first, right
/// after the function before it otherwise (none when that is no function).
pub open spec fn insertion_offset(sol: SolContract, kids: Seq<SpecHir>, index: int, src: Seq<char>) -> Option<int> {
    if index == 0 {
        Some(find_char_from(src, '{', sol.start as int)->Some_0 + 1)
    } else {
        match kids[index - 1] {
            SpecHir::Function(f) => Some(
                sol.parts@[first_match(sol.parts@, f)->Some_0]->Function_0.end as int,
            ),
            _ => None,
        }
    }
}

/// Insertion points that can be found: the contract has an opening brace,
/// or the node before is in the contract and, when it is a function, it has
/// a match.
pub open spec fn offset_findable(sol: SolContract, kids: Seq<SpecHir>, index: int, src: Seq<char>) -> bool {
    if index == 0 {
        find_char_from(src, '{', sol.start as int) is Some
    } else {
        &&& 0 < index <= kids.len()
        &&& kids[index - 1] matches SpecHir::Function(f) ==> first_match(sol.parts@, f) is Some
    }
}

/// Inserts the code of a function into `src` at byte offset `offset`, after
/// a blank line.
pub fn insert_function(function: &FunctionDefinition, src: &str, offset: usize) -> (res: String)
    requires
        char_count_at(src@, offset as int) is Some,
    ensures
        res@ == inserted_function(function_view(*function), src@, offset as int),
{
    let ind = repeat_str(" ", INTERNAL_DEFAULT_INDENTATION);
    let emitter = Emitter::new(true, INTERNAL_DEFAULT_INDENTATION, INTERNAL_DEFAULT_SOL_VERSION);
    let emitted = emitter.emit_function(ind.as_str(), function);
    let trimmed = trim_end_str(emitted.as_str());
    let v = chars_of(src);
    let k = match char_index_of(v.as_slice(), offset) {
        Some(k) => k,
        None => 0,
    };
    proof {
        crate::text::lemma_char_count_at(src@, offset as int);
    }
    let head = take_chars(v.as_slice(), k);
    let mut res = crate::text::string_from_chars(head.as_slice());
    push_str(&mut res, "\n\n");
    push_str(&mut res, trimmed.as_str());
    push_chars_from(&mut res, v.as_slice(), k);
    res
}

/// The byte offset where the function at index `index` of a contract is to
/// be inserted into `src`.
pub fn get_insertion_offset(
    contract_sol: &SolContract,
    contract_hir: &ContractDefinition,
    index: usize,
    src: &str,
) -> (res: Option<usize>)
    requires
        src@.len() < usize::MAX,
        offset_findable(*contract_sol, hirs_view(contract_hir.children@), index as int, src@),
    ensures
        match res {
            Some(o) => insertion_offset(*contract_sol, hirs_view(contract_hir.children@), index as int, src@)
                == Some(o as int),
            None => insertion_offset(*contract_sol, hirs_view(contract_hir.children@), index as int, src@)
                is None,
        },
{
    proof {
        lemma_hirs_view(contract_hir.children@);
    }
    if index == 0 {
        let v = chars_of(src);
        let mut j = contract_sol.start;
        while j < v.len() && v[j] != '{'
            invariant
                v@ == src@,
                v@.len() < usize::MAX,
                find_char_from(src@, '{', contract_sol.start as int) == find_char_from(src@, '{', j as int),
                find_char_from(src@, '{', j as int) is Some,
            decreases v@.len() - j,
        {
            j = j + 1;
        }
        if j >= v.len() {
            assert(find_char_from(src@, '{', j as int) is None);
        }
        return Some(j + 1);
    }
    if let Hir::FunctionDefinition(pre) = &contract_hir.children[index - 1] {
        match find_matching_fn(contract_sol, pre) {
            Some((_, prev)) => {
                return Some(prev.end);
            },
            None => {
                return None;
            },
        }
    }
    None
}

/// The identifiers of the function definitions among `kids`, in order.
pub open spec fn fn_names(kids: Seq<SpecHir>) -> Seq<Seq<char>>
    decreases kids.len(),
{
    if kids.len() == 0 {
        Seq::empty()
    } else {
        let r = fn_names(kids.drop_last());
        match kids.last() {
            SpecHir::Function(f) => r.push(f.identifier),
            _ => r,
        }
    }
}

/// The parts after each misplaced function of `vs`, in order, is moved from
/// its index to the index of its HIR counterpart.
pub open spec fn reordered(parts: Seq<SpecSolPart>, vs: Seq<SpecViolation>) -> Seq<SpecSolPart>
    decreases vs.len(),
{
    if vs.len() == 0 {
        parts
    } else {
        let p = reordered(parts, vs.drop_last());
        match vs.last().kind {
            SpecViolationKind::FunctionOrderMismatch(f, si, hi) => p.remove(si as int).insert(
                hi as int,
                SpecSolPart::Function(f),
            ),
            _ => p,
        }
    }
}

/// Every move of `reordered` takes a part that exists and puts it where
/// there is room.
pub open spec fn reorderable(parts: Seq<SpecSolPart>, vs: Seq<SpecViolation>) -> bool
    decreases vs.len(),
{
    if vs.len() == 0 {
        true
    } else {
        &&& reorderable(parts, vs.drop_last())
        &&& match vs.last().kind {
            SpecViolationKind::FunctionOrderMismatch(_, si, hi) => {
                let p = reordered(parts, vs.drop_last());
                si < p.len() && hi < p.len()
            },
            _ => true,
        }
    }
}

/// The functions among `parts` whose names are among `names`, in order.
pub open spec fn kept_functions(parts: Seq<SpecSolPart>, names: Seq<Seq<char>>) -> Seq<SpecSolFunction>
    decreases parts.len(),
{
    if parts.len() == 0 {
        Seq::empty()
    } else {
        let r = kept_functions(parts.drop_last(), names);
        match parts.last() {
            SpecSolPart::Function(f) => if names.contains(f.name->Some_0) {
                r.push(f)
            } else {
                r
            },
            _ => r,
        }
    }
}

/// Every function among `parts` has a name.
pub open spec fn functions_named(parts: Seq<SpecSolPart>) -> bool {
    forall|i: int| 0 <= i < parts.len() ==> (#[trigger] parts[i] matches SpecSolPart::Function(f) ==> f.name is Some)
}

/// The code of the functions `fs` in `src`.
pub open spec fn fn_texts(src: Seq<char>, fs: Seq<SpecSolFunction>) -> Seq<Seq<char>> {
    Seq::new(fs.len(), |i: int| byte_slice(src, fs[i].start as int, fs[i].end as int))
}

/// `scratch` with the code of each of the functions `fs` replaced by as many
/// spaces as it has bytes.
pub open spec fn blanked(scratch: Seq<char>, src: Seq<char>, fs: Seq<SpecSolFunction>) -> Seq<char>
    decreases fs.len(),
{
    if fs.len() == 0 {
        scratch
    } else {
        let s = blanked(scratch, src, fs.drop_last());
        let f = fs.last();
        let t = byte_slice(src, f.start as int, f.end as int);
        if t.len() == 0 {
            s
        } else {
            replaced(s, t, repeated(" "@, (f.end - f.start) as nat))
        }
    }
}

/// The separator between the functions that were put in order and the rest
/// of a contract.
pub open spec fn order_separator() -> Seq<char> {
    "\n\n  // <<<<<<<<<<<<<<<<<<<<<<<<<<<<<<<<<<<<<<<<<<<<<<<<<<<<<<<<<<<<<<<<<<<<<<<<<\n  // ==================== BULLOAK AUTOGENERATED SEPARATOR ====================\n  // >>>>>>>>>>>>>>>>>>>>>>>>>>>>>>>>>>>>>>>>>>>>>>>>>>>>>>>>>>>>>>>>>>>>>>>>>\n  //    Code below this section could not be automatically moved by bulloak\n  // =========================================================================\n        "@
}

/// The source after putting the functions of a contract in the order of
/// its tree: the source up to the first part, the functions of the tree in
/// order, then (after a separator when some parts could not be placed) the
/// rest of the contract body with those functions blanked out, and the rest
/// of the source from the closing brace on.
pub open spec fn fixed_order(vs: Seq<SpecViolation>, sol: SolContract, kids: Seq<SpecHir>, src: Seq<char>) -> Seq<char> {
    let parts = reordered(parts_view(sol.parts@), vs);
    let kept = kept_functions(parts, fn_names(kids));
    let texts = fn_texts(src, kept);
    let scratch = blanked(src, src, kept);
    let first = parts_view(sol.parts@)[0];
    let head = byte_slice(src, 0, first.start() as int);
    let middle = byte_slice(scratch, first.start() as int, sol.end - sol.start);
    let tail = src.skip(char_count_at(src, sol.end - 1)->Some_0);
    if kept.len() == sol.parts@.len() {
        head + joined(texts, "\n\n"@) + middle + tail
    } else {
        head + joined(texts, "\n\n"@) + order_separator() + middle + tail
    }
}

/// Contracts whose functions can be put in order in `src`: the moves fit,
/// the functions are named, their code and the ends of the contract body are
/// at character boundaries.
pub open spec fn orderable(vs: Seq<SpecViolation>, sol: SolContract, kids: Seq<SpecHir>, src: Seq<char>) -> bool {
    let parts = reordered(parts_view(sol.parts@), vs);
    let kept = kept_functions(parts, fn_names(kids));
    let scratch = blanked(src, src, kept);
    let first = parts_view(sol.parts@)[0];
    &&& sol.parts@.len() > 0
    &&& sol.start <= sol.end
    &&& sol.end >= 1
    &&& reorderable(parts_view(sol.parts@), vs)
    &&& functions_named(parts)
    &&& forall|i: int| 0 <= i < kept.len() ==> sliceable(src, #[trigger] kept[i].start as int, kept[i].end as int)
    &&& sliceable(src, 0, first.start() as int)
    &&& sliceable(scratch, first.start() as int, sol.end - sol.start)
    &&& char_count_at(src, sol.end - 1) is Some
}

/// A copy of a part of a contract.
fn copy_part(p: &SolPart) -> (res: SolPart)
    ensures
        res@ == p@,
{
    match p {
        SolPart::Function(f) => SolPart::Function(copy_sol_function(f)),
        SolPart::Other(a, b) => SolPart::Other(*a, *b),
    }
}

/// The identifiers of the function definitions among `kids`.
fn hir_fn_names(kids: &Vec<Hir>) -> (res: Vec<String>)
    ensures
        res.deep_view() == fn_names(hirs_view(kids@)),
{
    proof {
        lemma_hirs_view(kids@);
    }
    let ghost kv = hirs_view(kids@);
    let mut res: Vec<String> = Vec::new();
    let mut i: usize = 0;
    assert(kv.take(0) =~= Seq::<SpecHir>::empty());
    while i < kids.len()
        invariant
            kv == hirs_view(kids@),
            kv.len() == kids@.len(),
            forall|j: int| 0 <= j < kids@.len() ==> #[trigger] kv[j] == kids@[j]@,
            i <= kids@.len(),
            res.deep_view() == fn_names(kv.take(i as int)),
        decreases kids@.len() - i,
    {
        assert(kv.take(i + 1).drop_last() =~= kv.take(i as int));
        assert(kv.take(i + 1).last() == kids@[i as int]@);
        if let Hir::FunctionDefinition(f) = &kids[i] {
            let ghost before = res.deep_view();
            res.push(f.identifier.clone());
            assert(res.deep_view() =~= before.push(f.identifier@));
        }
        i = i + 1;
    }
    assert(kv.take(kids@.len() as int) =~= kv);
    res
}

/// Whether `s` is among the strings of `v`.
fn contains_str(v: &Vec<String>, s: &str) -> (res: bool)
    ensures
        res == v.deep_view().contains(s@),
{
    let mut i: usize = 0;
    while i < v.len()
        invariant
            i <= v@.len(),
            forall|j: int| 0 <= j < i ==> #[trigger] v@[j]@ != s@,
        decreases v@.len() - i,
    {
        if crate::text::str_eq(v[i].as_str(), s) {
            assert(v.deep_view()[i as int] == s@);
            return true;
        }
        i = i + 1;
    }
    assert(!v.deep_view().contains(s@)) by {
        if v.deep_view().contains(s@) {
            let j = choose|j: int| 0 <= j < v.deep_view().len() && v.deep_view()[j] == s@;
            assert(v@[j]@ == s@);
        }
    }
    false
}

/// The parts of a contract after moving its misplaced functions.
fn reorder_parts(violations: &Vec<Violation>, parts: &Vec<SolPart>) -> (res: Vec<SolPart>)
    requires
        reorderable(parts_view(parts@), violations_view(violations@)),
    ensures
        parts_view(res@) == reordered(parts_view(parts@), violations_view(violations@)),
{
    let ghost vv = violations_view(violations@);
    let ghost pv = parts_view(parts@);
    let mut fns: Vec<SolPart> = Vec::new();
    let mut i: usize = 0;
    while i < parts.len()
        invariant
            i <= parts@.len(),
            fns@.len() == i,
            forall|j: int| 0 <= j < i ==> #[trigger] fns@[j]@ == parts@[j]@,
        decreases parts@.len() - i,
    {
        fns.push(copy_part(&parts[i]));
        i = i + 1;
    }
    assert(parts_view(fns@) =~= reordered(pv, vv.take(0)));
    let mut k: usize = 0;
    while k < violations.len()
        invariant
            vv == violations_view(violations@),
            pv == parts_view(parts@),
            k <= violations@.len(),
            reorderable(pv, vv),
            parts_view(fns@) == reordered(pv, vv.take(k as int)),
        decreases violations@.len() - k,
    {
        assert(vv.take(k + 1).drop_last() =~= vv.take(k as int));
        assert(vv.take(k + 1).last() == violations@[k as int]@);
        proof {
            lemma_reorderable_prefix(pv, vv, k + 1);
        }
        if let ViolationKind::FunctionOrderMismatch(f, sol_idx, hir_idx) = &violations[k].kind {
            let ghost before = fns@;
            fns.remove(*sol_idx);
            let ghost mid = fns@;
            assert(parts_view(mid) =~= parts_view(before).remove(*sol_idx as int));
            fns.insert(*hir_idx, SolPart::Function(copy_sol_function(f)));
            assert(parts_view(fns@) =~= parts_view(mid).insert(*hir_idx as int, SpecSolPart::Function(f@)));
        }
        k = k + 1;
    }
    assert(vv.take(violations@.len() as int) =~= vv);
    fns
}

/// The moves of a prefix of the violations fit when all of them do.
proof fn lemma_reorderable_prefix(parts: Seq<SpecSolPart>, vs: Seq<SpecViolation>, n: int)
    requires
        reorderable(parts, vs),
        0 <= n <= vs.len(),
    ensures
        reorderable(parts, vs.take(n)),
    decreases vs.len() - n,
{
    if n < vs.len() {
        lemma_reorderable_prefix(parts, vs, n + 1);
        assert(vs.take(n + 1).drop_last() =~= vs.take(n));
    } else {
        assert(vs.take(n) =~= vs);
    }
}

/// The functions among `parts` whose names are among `names`.
fn keep_functions(parts: &Vec<SolPart>, names: &Vec<String>) -> (res: Vec<SolFunction>)
    requires
        functions_named(parts_view(parts@)),
    ensures
        res@.len() == kept_functions(parts_view(parts@), names.deep_view()).len(),
        forall|i: int| 0 <= i < res@.len() ==> #[trigger] res@[i]@ == kept_functions(
            parts_view(parts@),
            names.deep_view(),
        )[i],
{
    let ghost pv = parts_view(parts@);
    let mut res: Vec<SolFunction> = Vec::new();
    let mut i: usize = 0;
    assert(pv.take(0) =~= Seq::<SpecSolPart>::empty());
    while i < parts.len()
        invariant
            pv == parts_view(parts@),
            functions_named(pv),
            i <= parts@.len(),
            res@.len() == kept_functions(pv.take(i as int), names.deep_view()).len(),
            forall|j: int| 0 <= j < res@.len() ==> #[trigger] res@[j]@ == kept_functions(
                pv.take(i as int),
                names.deep_view(),
            )[j],
        decreases parts@.len() - i,
    {
        assert(pv.take(i + 1).drop_last() =~= pv.take(i as int));
        assert(pv.take(i + 1).last() == parts@[i as int]@);
        if let SolPart::Function(f) = &parts[i] {
            assert(pv[i as int] matches SpecSolPart::Function(g) ==> g.name is Some);
            let name = match &f.name {
                Some(n) => n.as_str(),
                None => "",
            };
            if contains_str(names, name) {
                res.push(copy_sol_function(f));
            }
        }
        i = i + 1;
    }
    assert(pv.take(parts@.len() as int) =~= pv);
    res
}

/// Puts the functions of a contract in the order of its tree: the new
/// source of the Solidity file. The source is not parsed here; the caller
/// parses it and fails when it does not parse (see `fixing::next_fix`).
pub fn fix_order(
    violations: &Vec<Violation>,
    contract_sol: &SolContract,
    contract_hir: &ContractDefinition,
    src: &str,
) -> (res: String)
    requires
        orderable(violations_view(violations@), *contract_sol, hirs_view(contract_hir.children@), src@),
    ensures
        res@ == fixed_order(violations_view(violations@), *contract_sol, hirs_view(contract_hir.children@), src@),
{
    let ghost vv = violations_view(violations@);
    let ghost kids = hirs_view(contract_hir.children@);
    let names = hir_fn_names(&contract_hir.children);
    let fns = reorder_parts(violations, &contract_sol.parts);
    let kept = keep_functions(&fns, &names);
    let ghost kv = kept_functions(reordered(parts_view(contract_sol.parts@), vv), fn_names(kids));
    assert(kept@.len() == kv.len());
    let mut scratch = src.to_string();
    let mut texts: Vec<String> = Vec::new();
    let mut i: usize = 0;
    assert(kv.take(0) =~= Seq::<SpecSolFunction>::empty());
    while i < kept.len()
        invariant
            kv.len() == kept@.len(),
            forall|j: int| 0 <= j < kept@.len() ==> #[trigger] kept@[j]@ == kv[j],
            forall|j: int| 0 <= j < kv.len() ==> sliceable(src@, #[trigger] kv[j].start as int, kv[j].end as int),
            i <= kept@.len(),
            scratch@ == blanked(src@, src@, kv.take(i as int)),
            texts.deep_view() == fn_texts(src@, kv.take(i as int)),
        decreases kept@.len() - i,
    {
        assert(kv.take(i + 1).drop_last() =~= kv.take(i as int));
        assert(kv.take(i + 1).last() == kv[i as int]);
        let f = &kept[i];
        assert(kept@[i as int]@ == kv[i as int]);
        assert(sliceable(src@, kv[i as int].start as int, kv[i as int].end as int));
        assert(f.start == kv[i as int].start && f.end == kv[i as int].end);
        let text = slice_bytes(src, f.start, f.end);
        let text_chars = chars_of(text.as_str());
        if text_chars.len() > 0 {
            let spaces = repeat_str(" ", f.end - f.start);
            scratch = replace_str(scratch.as_str(), text.as_str(), spaces.as_str());
        }
        let ghost before = texts.deep_view();
        let ghost tv = text@;
        texts.push(text);
        assert(texts.deep_view() =~= before.push(tv));
        assert(fn_texts(src@, kv.take(i + 1)) =~= fn_texts(src@, kv.take(i as int)).push(tv));
        i = i + 1;
    }
    assert(kv.take(kept@.len() as int) =~= kv);
    let first = &contract_sol.parts[0];
    let first_start = match first {
        SolPart::Function(f) => f.start,
        SolPart::Other(a, _) => *a,
    };
    let body_len = contract_sol.end - contract_sol.start;
    let mut res = slice_bytes(src, 0, first_start);
    let sorted = join_strings(&texts, "\n\n");
    push_str(&mut res, sorted.as_str());
    if kept.len() != contract_sol.parts.len() {
        push_str(&mut res, "\n\n  // <<<<<<<<<<<<<<<<<<<<<<<<<<<<<<<<<<<<<<<<<<<<<<<<<<<<<<<<<<<<<<<<<<<<<<<<<\n  // ==================== BULLOAK AUTOGENERATED SEPARATOR ====================\n  // >>>>>>>>>>>>>>>>>>>>>>>>>>>>>>>>>>>>>>>>>>>>>>>>>>>>>>>>>>>>>>>>>>>>>>>>>\n  //    Code below this section could not be automatically moved by bulloak\n  // =========================================================================\n        ");
    }
    let middle = slice_bytes(scratch.as_str(), first_start, body_len);
    push_str(&mut res, middle.as_str());
    let v = chars_of(src);
    let k = match char_index_of(v.as_slice(), contract_sol.end - 1) {
        Some(k) => k,
        None => 0,
    };
    proof {
        crate::text::lemma_char_count_at(src@, contract_sol.end - 1);
    }
    push_chars_from(&mut res, v.as_slice(), k);
    res
}

/// Whether `vs` holds no function order mismatch.
pub open spec fn moves_nothing(vs: Seq<SpecViolation>) -> bool {
    forall|i: int| 0 <= i < vs.len() ==> !(#[trigger] vs[i].kind is FunctionOrderMismatch)
}

/// Violations that move no function leave the parts as they are.
proof fn lemma_reordered_unmoved(parts: Seq<SpecSolPart>, vs: Seq<SpecViolation>)
    requires
        moves_nothing(vs),
    ensures
        reordered(parts, vs) == parts,
    decreases vs.len(),
{
    if vs.len() > 0 {
        assert(moves_nothing(vs.drop_last())) by {
            assert forall|i: int| 0 <= i < vs.drop_last().len() implies !(#[trigger] vs.drop_last()[i].kind is FunctionOrderMismatch) by {
                assert(vs.drop_last()[i] == vs[i]);
            }
        }
        lemma_reordered_unmoved(parts, vs.drop_last());
        assert(vs.last() == vs[vs.len() - 1]);
    }
}

/// Every kept function is a function among `parts` and is named as a
/// function of the tree.
proof fn lemma_kept_functions(parts: Seq<SpecSolPart>, names: Seq<Seq<char>>)
    ensures
        forall|i: int|
            0 <= i < kept_functions(parts, names).len() ==> {
                let f = #[trigger] kept_functions(parts, names)[i];
                &&& names.contains(f.name->Some_0)
                &&& parts.contains(SpecSolPart::Function(f))
            },
    decreases parts.len(),
{
    if parts.len() > 0 {
        lemma_kept_functions(parts.drop_last(), names);
        let r = kept_functions(parts.drop_last(), names);
        assert forall|i: int| 0 <= i < r.len() implies parts.contains(SpecSolPart::Function(#[trigger] r[i])) by {
            let j = choose|j: int| 0 <= j < parts.drop_last().len() && parts.drop_last()[j] == SpecSolPart::Function(r[i]);
            assert(parts[j] == parts.drop_last()[j]);
        }
        assert(parts.last() == parts[parts.len() - 1]);
    }
}

/// Putting a contract's functions in order keeps the source before the
/// contract's first part, then puts the code of the functions of the tree,
/// each copied whole and joined by blank lines, then (when other parts
/// remain) the separator, then the rest of the contract, and ends with the
/// source from the contract's closing brace on. Each function put first is
/// a function of the contract named as a function of the tree; when no
/// function is moved they come in the order of the source.
pub proof fn law_fix_order_layout(vs: Seq<SpecViolation>, sol: SolContract, kids: Seq<SpecHir>, src: Seq<char>)
    requires
        orderable(vs, sol, kids, src),
    ensures
        ({
            let parts = reordered(parts_view(sol.parts@), vs);
            let kept = kept_functions(parts, fn_names(kids));
            let r = fixed_order(vs, sol, kids, src);
            let head = byte_slice(src, 0, parts_view(sol.parts@)[0].start() as int);
            let sorted = joined(fn_texts(src, kept), "\n\n"@);
            let tail = src.skip(char_count_at(src, sol.end - 1)->Some_0);
            &&& r.take(head.len() as int) == head
            &&& r.subrange(head.len() as int, (head.len() + sorted.len()) as int) == sorted
            &&& kept.len() != sol.parts@.len() ==> r.subrange(
                (head.len() + sorted.len()) as int,
                (head.len() + sorted.len() + order_separator().len()) as int,
            ) == order_separator()
            &&& r.skip(r.len() - tail.len()) == tail
            &&& forall|i: int|
                0 <= i < kept.len() ==> fn_names(kids).contains((#[trigger] kept[i]).name->Some_0) && parts.contains(
                    SpecSolPart::Function(kept[i]),
                )
            &&& moves_nothing(vs) ==> kept == kept_functions(parts_view(sol.parts@), fn_names(kids))
        }),
{
    let parts = reordered(parts_view(sol.parts@), vs);
    let kept = kept_functions(parts, fn_names(kids));
    let texts = fn_texts(src, kept);
    let scratch = blanked(src, src, kept);
    let first = parts_view(sol.parts@)[0];
    let head = byte_slice(src, 0, first.start() as int);
    let sorted = joined(texts, "\n\n"@);
    let middle = byte_slice(scratch, first.start() as int, sol.end - sol.start);
    let tail = src.skip(char_count_at(src, sol.end - 1)->Some_0);
    let r = fixed_order(vs, sol, kids, src);
    let sep = order_separator();
    if kept.len() == sol.parts@.len() {
        assert(r == head + sorted + middle + tail);
        assert(r.take(head.len() as int) =~= head);
        assert(r.subrange(head.len() as int, (head.len() + sorted.len()) as int) =~= sorted);
        assert(r.skip(r.len() - tail.len()) =~= tail);
    } else {
        assert(r == head + sorted + sep + middle + tail);
        assert(r.take(head.len() as int) =~= head);
        assert(r.subrange(head.len() as int, (head.len() + sorted.len()) as int) =~= sorted);
        assert(r.subrange((head.len() + sorted.len()) as int, (head.len() + sorted.len() + sep.len()) as int) =~= sep);
        assert(r.skip(r.len() - tail.len()) =~= tail);
    }
    lemma_kept_functions(parts, fn_names(kids));
    if moves_nothing(vs) {
        lemma_reordered_unmoved(parts_view(sol.parts@), vs);
    }
}

/// The source that fixing a violation of a kind yields in a context, if it
/// changes anything: a missing contract is emitted from the tree, a
/// contract is renamed, a missing function is inserted.
pub open spec fn fixed_source(k: SpecViolationKind, ctx: Context) -> Option<Seq<char>> {
    match k {
        SpecViolationKind::ContractMissing(_) => Some(
            LICENSE_LINE@ + root_text(
                plain_options(true, INTERNAL_DEFAULT_INDENTATION as nat, INTERNAL_DEFAULT_SOL_VERSION@),
                ctx.hir@,
            ),
        ),
        SpecViolationKind::ContractNameNotMatches(new_name, old_name) => Some(
            replaced(ctx.src@, "contract "@ + old_name, "contract "@ + new_name),
        ),
        SpecViolationKind::MatchingFunctionMissing(f, index) => match hir_contract(ctx.hir@) {
            Some((_, kids)) => match first_contract_index(ctx.pt@) {
                Some(ci) => {
                    let c = ctx.pt@[ci]->Contract_0;
                    Some(
                        match insertion_offset(c, kids, index as int, ctx.src@) {
                            Some(off) => inserted_function(f, ctx.src@, off),
                            None => ctx.src@,
                        },
                    )
                },
                None => None,
            },
            None => None,
        },
        _ => None,
    }
}

/// The contexts in which a kind of violation can be fixed: a missing
/// contract is emitted from a root of contracts; a missing function goes
/// where it can be found, at a character boundary.
pub open spec fn fixable_in(k: SpecViolationKind, ctx: Context) -> bool {
    match k {
        SpecViolationKind::ContractMissing(_) => ctx.hir@ is Root && forall|i: int|
            0 <= i < ctx.hir@->Root_0.len() ==> #[trigger] ctx.hir@->Root_0[i] is Contract,
        SpecViolationKind::MatchingFunctionMissing(f, index) => {
            &&& ctx.src@.len() < usize::MAX
            &&& hir_contract(ctx.hir@) matches Some((_, kids)) ==> first_contract_index(ctx.pt@) matches Some(ci)
                ==> {
                let c = ctx.pt@[ci]->Contract_0;
                &&& offset_findable(c, kids, index as int, ctx.src@)
                &&& insertion_offset(c, kids, index as int, ctx.src@) matches Some(off) ==> char_count_at(
                    ctx.src@,
                    off,
                ) is Some
            }
        },
        _ => true,
    }
}

impl ViolationKind {
    /// Fixes this kind of violation in a context: the new source of the
    /// Solidity file, or `None` when nothing changes.
    pub fn fix(&self, ctx: &Context) -> (res: Option<String>)
        requires
            fixable_in(self@, *ctx),
        ensures
            match res {
                Some(s) => fixed_source(self@, *ctx) == Some(s@),
                None => fixed_source(self@, *ctx) is None,
            },
    {
        match self {
            ViolationKind::ContractMissing(_) => {
                let emitter = Emitter::new(true, INTERNAL_DEFAULT_INDENTATION, INTERNAL_DEFAULT_SOL_VERSION);
                let code = emitter.emit(&ctx.hir);
                let mut res = String::new();
                push_str(&mut res, LICENSE_LINE);
                push_str(&mut res, code.as_str());
                Some(res)
            },
            ViolationKind::ContractNameNotMatches(new_name, old_name) => {
                let from = surround("contract ", old_name.as_str(), "");
                let to = surround("contract ", new_name.as_str(), "");
                proof {
                    reveal_strlit("contract ");
                    reveal_strlit("");
                    assert(from@ =~= "contract "@ + old_name@);
                    assert(to@ =~= "contract "@ + new_name@);
                }
                Some(replace_str(ctx.src.as_str(), from.as_str(), to.as_str()))
            },
            ViolationKind::MatchingFunctionMissing(fn_hir, index) => {
                let contract_hir = ctx.hir.find_contract();
                match contract_hir {
                    Some(contract_hir) => match find_contract(&ctx.pt) {
                        Some(contract_sol) => {
                            let offset = get_insertion_offset(contract_sol, contract_hir, *index, ctx.src.as_str());
                            match offset {
                                Some(offset) => Some(insert_function(fn_hir, ctx.src.as_str(), offset)),
                                None => Some(ctx.src.clone()),
                            }
                        },
                        None => None,
                    },
                    None => None,
                }
            },
            _ => None,
        }
    }
}

} // verus!
