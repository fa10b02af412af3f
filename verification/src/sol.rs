//! A model of the parts of a Solidity parse tree that checking reads, and
//! the search for the functions that a tree specifies.
use vstd::prelude::*;

use crate::hir::hir::{function_view, FunctionDefinition, FunctionTy, SpecFunction};
use crate::text::str_eq;

verus! {

/// The type of a Solidity function.
#[derive(Clone, Copy, Debug, PartialEq, Eq, Structural)]
pub enum SolFunctionTy {
    /// `constructor`
    Constructor,
    /// `function`
    Function,
    /// `fallback`
    Fallback,
    /// `receive`
    Receive,
    /// `modifier`
    Modifier,
}

/// A Solidity function definition: its name, type and the byte offsets
/// where it starts and ends in the source.
#[derive(Clone, Debug, PartialEq, Eq)]
pub struct SolFunction {
    /// The name of the function, if it has one.
    pub name: Option<String>,
    /// The type of the function.
    pub ty: SolFunctionTy,
    /// The byte offset where the function starts.
    pub start: usize,
    /// The byte offset where the function ends.
    pub end: usize,
}

/// A part of a Solidity contract: a function definition, or any other
/// construct with the byte offsets where it starts and ends.
#[derive(Clone, Debug, PartialEq, Eq)]
pub enum SolPart {
    /// A function definition.
    Function(SolFunction),
    /// Any other construct.
    Other(usize, usize),
}

/// A Solidity contract: its name, the byte offsets where it starts and
/// ends, and its parts in source order.
#[derive(Clone, Debug, PartialEq, Eq)]
pub struct SolContract {
    /// The name of the contract, if it has one.
    pub name: Option<String>,
    /// The byte offset where the contract starts.
    pub start: usize,
    /// The byte offset where the contract ends.
    pub end: usize,
    /// The parts of the contract.
    pub parts: Vec<SolPart>,
}

/// A top-level part of a Solidity source unit.
#[derive(Clone, Debug, PartialEq, Eq)]
pub enum SolUnitPart {
    /// A contract definition.
    Contract(SolContract),
    /// Any other construct.
    Other,
}

/// A Solidity function definition as a mathematical value.
pub struct SpecSolFunction {
    /// The name of the function, if it has one.
    pub name: Option<Seq<char>>,
    /// The type of the function.
    pub ty: SolFunctionTy,
    /// The byte offset where the function starts.
    pub start: usize,
    /// The byte offset where the function ends.
    pub end: usize,
}

impl View for SolFunction {
    type V = SpecSolFunction;

    open spec fn view(&self) -> SpecSolFunction {
        SpecSolFunction {
            name: match self.name {
                Some(n) => Some(n@),
                None => None,
            },
            ty: self.ty,
            start: self.start,
            end: self.end,
        }
    }
}

/// A part of a Solidity contract as a mathematical value.
pub enum SpecSolPart {
    /// A function definition.
    Function(SpecSolFunction),
    /// Any other construct, with its byte offsets.
    Other(usize, usize),
}

impl View for SolPart {
    type V = SpecSolPart;

    open spec fn view(&self) -> SpecSolPart {
        match self {
            SolPart::Function(f) => SpecSolPart::Function(f@),
            SolPart::Other(s, e) => SpecSolPart::Other(*s, *e),
        }
    }
}

impl SpecSolPart {
    /// The byte offset where the part starts.
    pub open spec fn start(self) -> usize {
        match self {
            SpecSolPart::Function(f) => f.start,
            SpecSolPart::Other(s, _) => s,
        }
    }

    /// The byte offset where the part ends.
    pub open spec fn end(self) -> usize {
        match self {
            SpecSolPart::Function(f) => f.end,
            SpecSolPart::Other(_, e) => e,
        }
    }
}

/// The views of a sequence of parts.
pub open spec fn parts_view(s: Seq<SolPart>) -> Seq<SpecSolPart> {
    Seq::new(s.len(), |i: int| s[i]@)
}

/// Whether a part is a function that matches the HIR function `f`.
pub open spec fn part_fits(part: SolPart, f: SpecFunction) -> bool {
    part matches SolPart::Function(g) && g.name matches Some(n) && n@ == f.identifier && types_match(
        f.ty,
        g.ty,
    )
}

/// The index of the first part from index `i` on that matches `f`.
pub open spec fn first_match_from(parts: Seq<SolPart>, f: SpecFunction, i: int) -> Option<int>
    decreases parts.len() - i,
{
    if i < 0 || i >= parts.len() {
        None
    } else if part_fits(parts[i], f) {
        Some(i)
    } else {
        first_match_from(parts, f, i + 1)
    }
}

/// The index of the first part that matches `f`.
pub open spec fn first_match(parts: Seq<SolPart>, f: SpecFunction) -> Option<int> {
    first_match_from(parts, f, 0)
}

/// Whether a HIR function type and a Solidity function type match.
pub open spec fn types_match(ty_hir: FunctionTy, ty_sol: SolFunctionTy) -> bool {
    match ty_hir {
        FunctionTy::Function => ty_sol == SolFunctionTy::Function,
        FunctionTy::Modifier => ty_sol == SolFunctionTy::Modifier,
    }
}

/// Whether a Solidity function matches a HIR function: it has the same name
/// and a matching type.
pub open spec fn fn_matches(fn_hir: FunctionDefinition, fn_sol: SolFunction) -> bool {
    &&& fn_sol.name matches Some(n) && n@ == fn_hir.identifier@
    &&& types_match(fn_hir.ty, fn_sol.ty)
}

/// Whether the part at index `i` is a function that matches `fn_hir`.
pub open spec fn part_matches(parts: Seq<SolPart>, i: int, fn_hir: FunctionDefinition) -> bool {
    parts[i] matches SolPart::Function(f) && fn_matches(fn_hir, f)
}

/// The index of the first contract among the parts of a source unit.
pub open spec fn first_contract_index(units: Seq<SolUnitPart>) -> Option<int> {
    if exists|i: int| 0 <= i < units.len() && #[trigger] units[i] is Contract {
        Some(
            choose|i: int|
                0 <= i < units.len() && #[trigger] units[i] is Contract && forall|j: int|
                    0 <= j < i ==> !(#[trigger] units[j] is Contract),
        )
    } else {
        None
    }
}

/// A copy of a Solidity function.
pub fn copy_sol_function(f: &SolFunction) -> (res: SolFunction)
    ensures
        res@ == f@,
{
    let name = match &f.name {
        Some(n) => Some(n.clone()),
        None => None,
    };
    SolFunction { name, ty: f.ty, start: f.start, end: f.end }
}

/// Checks that the function types of a HIR function and a Solidity function
/// match.
pub fn fn_types_match(ty_hir: &FunctionTy, ty_sol: SolFunctionTy) -> (res: bool)
    ensures
        res == types_match(*ty_hir, ty_sol),
{
    match ty_hir {
        FunctionTy::Function => ty_sol == SolFunctionTy::Function,
        FunctionTy::Modifier => ty_sol == SolFunctionTy::Modifier,
    }
}

/// Checks whether a Solidity function matches its HIR counterpart: they
/// have the same name and their types match.
pub fn fns_match(fn_hir: &FunctionDefinition, fn_sol: &SolFunction) -> (res: bool)
    ensures
        res == fn_matches(*fn_hir, *fn_sol),
{
    match &fn_sol.name {
        Some(name) => str_eq(name.as_str(), fn_hir.identifier.as_str()) && fn_types_match(
            &fn_hir.ty,
            fn_sol.ty,
        ),
        None => false,
    }
}

/// Searches the parts of a contract for the first function that matches a
/// HIR function; its index and the function.
pub fn find_matching_fn<'a>(contract_sol: &'a SolContract, fn_hir: &FunctionDefinition) -> (res:
    Option<(usize, &'a SolFunction)>)
    ensures
        match res {
            Some((i, f)) => {
                &&& i < contract_sol.parts@.len()
                &&& contract_sol.parts@[i as int] == SolPart::Function(*f)
                &&& fn_matches(*fn_hir, *f)
                &&& forall|j: int| 0 <= j < i ==> !part_matches(contract_sol.parts@, j, *fn_hir)
                &&& first_match(contract_sol.parts@, function_view(*fn_hir)) == Some(i as int)
            },
            None => first_match(contract_sol.parts@, function_view(*fn_hir)) is None,
        },
{
    proof {
        lemma_first_match_from(contract_sol.parts@, *fn_hir, 0);
    }
    let parts = &contract_sol.parts;
    let mut i: usize = 0;
    while i < parts.len()
        invariant
            parts == contract_sol.parts,
            i <= parts@.len(),
            forall|j: int| 0 <= j < i ==> !part_matches(parts@, j, *fn_hir),
        decreases parts@.len() - i,
    {
        if let SolPart::Function(f) = &parts[i] {
            if fns_match(fn_hir, f) {
                proof {
                    lemma_first_match_from(parts@, *fn_hir, 0);
                    assert(part_matches(parts@, i as int, *fn_hir));
                }
                return Some((i, f));
            }
        }
        i = i + 1;
    }
    None
}

/// The first match from `i` on is the first index from `i` on whose part
/// matches.
proof fn lemma_first_match_from(parts: Seq<SolPart>, fn_hir: FunctionDefinition, i: int)
    requires
        0 <= i <= parts.len(),
    ensures
        forall|k: int| i <= k < parts.len() ==> (part_fits(parts[k], function_view(fn_hir))
            <==> part_matches(parts, k, fn_hir)),
        first_match_from(parts, function_view(fn_hir), i) matches Some(k) ==> i <= k < parts.len()
            && part_matches(parts, k, fn_hir) && forall|j: int| i <= j < k ==> !part_matches(parts, j, fn_hir),
        first_match_from(parts, function_view(fn_hir), i) is None ==> forall|j: int|
            i <= j < parts.len() ==> !part_matches(parts, j, fn_hir),
    decreases parts.len() - i,
{
    if i < parts.len() {
        lemma_first_match_from(parts, fn_hir, i + 1);
    }
}

/// The first contract among the parts of a source unit, if any.
pub fn find_contract(units: &Vec<SolUnitPart>) -> (res: Option<&SolContract>)
    ensures
        match first_contract_index(units@) {
            Some(i) => res matches Some(c) && units@[i] == SolUnitPart::Contract(*c),
            None => res is None,
        },
{
    let mut i: usize = 0;
    while i < units.len()
        invariant
            i <= units@.len(),
            forall|j: int| 0 <= j < i ==> !(#[trigger] units@[j] is Contract),
        decreases units@.len() - i,
    {
        if let SolUnitPart::Contract(c) = &units[i] {
            proof {
                let k = first_contract_index(units@)->Some_0;
                assert(units@[i as int] is Contract);
                if k < i {
                    assert(!(units@[k] is Contract));
                } else if k > i {
                    assert(!(units@[i as int] is Contract));
                }
            }
            return Some(c);
        }
        i = i + 1;
    }
    None
}

} // verus!
