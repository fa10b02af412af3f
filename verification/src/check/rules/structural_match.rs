//! Structural matching: every function and modifier that the tree
//! specifies is present in the Solidity file, in the order of the tree.
//!
//! Two functions match when their names are the same and their types are
//! the same (a function or a modifier).
use vstd::prelude::*;

use crate::check::context::Context;
use crate::check::location::{Location, SpecLocation};
use crate::check::utils::{line_column_of, offset_to_line_column};
use crate::check::violation::{
    violations_view, SpecViolation, SpecViolationKind, Violation, ViolationKind,
};
use crate::hir::hir::{
    copy_function, first_contract, hirs_view, lemma_hirs_view, ContractDefinition, FunctionTy, Hir, SpecHir,
};
use crate::sol::{copy_sol_function, find_contract, find_matching_fn, first_contract_index, first_match, SolContract, SolPart};
use crate::text::str_eq;

verus! {

/// The violations for the functions among `kids`, from index `k` on, that
/// have no matching Solidity function, but for modifiers when `skip`
/// holds: each located at its line in the tree.
pub open spec fn missing_violations(tree: Seq<char>, kids: Seq<SpecHir>, parts: Seq<SolPart>, k: int, skip: bool) -> Seq<
    SpecViolation,
>
    decreases kids.len() - k,
{
    if k < 0 || k >= kids.len() {
        Seq::empty()
    } else {
        let rest = missing_violations(tree, kids, parts, k + 1, skip);
        match kids[k] {
            SpecHir::Function(f) => if first_match(parts, f) is None && !(skip && f.ty == FunctionTy::Modifier) {
                seq![
                    SpecViolation {
                        kind: SpecViolationKind::MatchingFunctionMissing(f, k as usize),
                        location: SpecLocation::Code(tree, f.span.start.line),
                    },
                ] + rest
            } else {
                rest
            },
            _ => rest,
        }
    }
}

/// The violations for the functions among `kids`, from index `k` on, whose
/// matching Solidity function comes before that of an earlier function:
/// `max` is the greatest index matched so far. Each is located at its line
/// in the Solidity file.
pub open spec fn order_violations(
    sol: Seq<char>,
    src: Seq<char>,
    kids: Seq<SpecHir>,
    parts: Seq<SolPart>,
    k: int,
    max: int,
) -> Seq<SpecViolation>
    decreases kids.len() - k,
{
    if k < 0 || k >= kids.len() {
        Seq::empty()
    } else {
        match kids[k] {
            SpecHir::Function(f) => match first_match(parts, f) {
                Some(si) => if si < max {
                    let g = parts[si]->Function_0;
                    seq![
                        SpecViolation {
                            kind: SpecViolationKind::FunctionOrderMismatch(g@, si as usize, k as usize),
                            location: SpecLocation::Code(sol, line_column_of(src, g.start as int).0),
                        },
                    ] + order_violations(sol, src, kids, parts, k + 1, max)
                } else {
                    order_violations(sol, src, kids, parts, k + 1, si)
                },
                None => order_violations(sol, src, kids, parts, k + 1, max),
            },
            _ => order_violations(sol, src, kids, parts, k + 1, max),
        }
    }
}

/// The misplaced functions from index `k` on start early enough in `src`
/// for their line to be found.
pub open spec fn order_locatable(src: Seq<char>, kids: Seq<SpecHir>, parts: Seq<SolPart>, k: int, max: int) -> bool
    decreases kids.len() - k,
{
    if k < 0 || k >= kids.len() {
        true
    } else {
        match kids[k] {
            SpecHir::Function(f) => match first_match(parts, f) {
                Some(si) => if si < max {
                    parts[si]->Function_0.start + 1 < src.len() && order_locatable(src, kids, parts, k + 1, max)
                } else {
                    order_locatable(src, kids, parts, k + 1, si)
                },
                None => order_locatable(src, kids, parts, k + 1, max),
            },
            _ => order_locatable(src, kids, parts, k + 1, max),
        }
    }
}

/// The contract of a HIR root: the first contract among its children.
pub open spec fn hir_contract(hir: SpecHir) -> Option<(Seq<char>, Seq<SpecHir>)> {
    match hir {
        SpecHir::Root(kids) => first_contract(kids),
        SpecHir::Contract(id, kids) => Some((id, kids)),
        _ => None,
    }
}

/// The violations of structural matching in a context: a missing contract,
/// a contract name that differs, the missing functions, then the misplaced
/// ones.
pub open spec fn structural_violations(ctx: Context) -> Seq<SpecViolation> {
    match first_contract_index(ctx.pt@) {
        None => match hir_contract(ctx.hir@) {
            Some((id, _)) => seq![
                SpecViolation {
                    kind: SpecViolationKind::ContractMissing(id),
                    location: SpecLocation::File(ctx.tree@),
                },
            ],
            None => Seq::empty(),
        },
        Some(ci) => {
            let c = ctx.pt@[ci]->Contract_0;
            match hir_contract(ctx.hir@) {
                Some((id, kids)) => {
                    let name_violation = match c.name {
                        Some(n) => if n@ != id {
                            seq![
                                SpecViolation {
                                    kind: SpecViolationKind::ContractNameNotMatches(id, n@),
                                    location: SpecLocation::File(ctx.sol@),
                                },
                            ]
                        } else {
                            Seq::empty()
                        },
                        None => Seq::empty(),
                    };
                    name_violation + missing_violations(ctx.tree@, kids, c.parts@, 0, ctx.skip_modifiers)
                        + order_violations(ctx.sol@, ctx.src@, kids, c.parts@, 0, 0)
                },
                None => Seq::empty(),
            }
        },
    }
}

/// Contexts that can be checked: when the Solidity file has a contract, the
/// tree has one too, and misplaced functions can be located.
pub open spec fn checkable(ctx: Context) -> bool {
    &&& ctx.src@.len() < usize::MAX
    &&& first_contract_index(ctx.pt@) matches Some(ci) ==> {
        &&& hir_contract(ctx.hir@) matches Some((_, kids))
        &&& order_locatable(ctx.src@, kids, ctx.pt@[ci]->Contract_0.parts@, 0, 0)
    }
}

/// The functions among `kids` from index `k` on all have a match, at an
/// index no smaller than `max` and no smaller than the matches before them.
pub open spec fn matched_in_order(kids: Seq<SpecHir>, parts: Seq<SolPart>, k: int, max: int) -> bool {
    &&& forall|i: int| k <= i < kids.len() ==> (#[trigger] kids[i] matches SpecHir::Function(f) ==> first_match(parts, f) matches Some(si) && max <= si)
    &&& forall|i: int, j: int| k <= i < j < kids.len() ==> (#[trigger] kids[i] matches SpecHir::Function(f) ==> #[trigger] kids[j] matches SpecHir::Function(g) ==> first_match(parts, f)->Some_0 <= first_match(parts, g)->Some_0)
}

proof fn lemma_no_missing(tree: Seq<char>, kids: Seq<SpecHir>, parts: Seq<SolPart>, k: int, skip: bool)
    requires
        0 <= k,
        forall|i: int| k <= i < kids.len() ==> (#[trigger] kids[i] matches SpecHir::Function(f) ==> first_match(parts, f) is Some),
    ensures
        missing_violations(tree, kids, parts, k, skip) == Seq::<SpecViolation>::empty(),
    decreases kids.len() - k,
{
    if k < kids.len() {
        lemma_no_missing(tree, kids, parts, k + 1, skip);
    }
}

proof fn lemma_no_misplaced(sol: Seq<char>, src: Seq<char>, kids: Seq<SpecHir>, parts: Seq<SolPart>, k: int, max: int)
    requires
        0 <= k,
        matched_in_order(kids, parts, k, max),
    ensures
        order_violations(sol, src, kids, parts, k, max) == Seq::<SpecViolation>::empty(),
    decreases kids.len() - k,
{
    if k < kids.len() {
        match kids[k] {
            SpecHir::Function(f) => {
                let si = first_match(parts, f)->Some_0;
                assert(matched_in_order(kids, parts, k + 1, si)) by {
                    assert forall|i: int| k + 1 <= i < kids.len() implies (#[trigger] kids[i] matches SpecHir::Function(g) ==> first_match(parts, g) matches Some(sj) && si <= sj) by {
                        if kids[i] is Function {
                            assert(k < i);
                        }
                    }
                }
                lemma_no_misplaced(sol, src, kids, parts, k + 1, si);
            },
            _ => lemma_no_misplaced(sol, src, kids, parts, k + 1, max),
        }
    }
}

/// A Solidity file that follows its tree passes the check: when its first
/// contract has the tree's contract name and every function of the tree,
/// in the order of the tree, no violation is found, whatever other
/// functions it holds.
pub proof fn law_matching_contract_passes(ctx: Context)
    requires
        first_contract_index(ctx.pt@) matches Some(ci) && hir_contract(ctx.hir@) matches Some((id, kids)) && {
            let c = ctx.pt@[ci]->Contract_0;
            &&& c.name matches Some(n) ==> n@ == id
            &&& matched_in_order(kids, c.parts@, 0, 0)
        },
    ensures
        structural_violations(ctx) == Seq::<SpecViolation>::empty(),
{
    let ci = first_contract_index(ctx.pt@)->Some_0;
    let (id, kids) = hir_contract(ctx.hir@)->Some_0;
    let c = ctx.pt@[ci]->Contract_0;
    lemma_no_missing(ctx.tree@, kids, c.parts@, 0, ctx.skip_modifiers);
    lemma_no_misplaced(ctx.sol@, ctx.src@, kids, c.parts@, 0, 0);
    assert(Seq::<SpecViolation>::empty() + Seq::<SpecViolation>::empty() + Seq::<SpecViolation>::empty() =~= Seq::<SpecViolation>::empty());
}

/// An implementation of the structural matching rule.
pub struct StructuralMatcher;

impl StructuralMatcher {
    /// Checks that the Solidity file of a context matches the structure of
    /// its tree.
    pub fn check(ctx: &Context) -> (res: Vec<Violation>)
        requires
            checkable(*ctx),
        ensures
            violations_view(res@) == structural_violations(*ctx),
    {
        let contract_hir = ctx.hir.find_contract();
        match find_contract(&ctx.pt) {
            None => {
                let mut res: Vec<Violation> = Vec::new();
                if let Some(c) = contract_hir {
                    res.push(
                        Violation::new(
                            ViolationKind::ContractMissing(c.identifier.clone()),
                            Location::File(ctx.tree.clone()),
                        ),
                    );
                }
                assert(violations_view(res@) =~= structural_violations(*ctx));
                res
            },
            Some(contract_sol) => {
                let mut res: Vec<Violation> = Vec::new();
                match contract_hir {
                    Some(contract_hir) => {
                        if let Some(name) = &contract_sol.name {
                            if !str_eq(name.as_str(), contract_hir.identifier.as_str()) {
                                res.push(
                                    Violation::new(
                                        ViolationKind::ContractNameNotMatches(
                                            contract_hir.identifier.clone(),
                                            name.clone(),
                                        ),
                                        Location::File(ctx.sol.clone()),
                                    ),
                                );
                            }
                        }
                        let ghost name_v = violations_view(res@);
                        let mut missing = missing_functions(ctx.tree.as_str(), contract_hir, contract_sol, ctx.skip_modifiers);
                        let mut order = misplaced_functions(ctx.sol.as_str(), ctx.src.as_str(), contract_hir, contract_sol);
                        let ghost mv = violations_view(missing@);
                        let ghost ov = violations_view(order@);
                        res.append(&mut missing);
                        res.append(&mut order);
                        assert(violations_view(res@) =~= name_v + mv + ov);
                    },
                    None => {},
                }
                assert(violations_view(res@) =~= structural_violations(*ctx));
                res
            },
        }
    }
}

/// The violations for the functions of a contract that have no match, but
/// for modifiers when `skip` holds.
fn missing_functions(tree: &str, contract_hir: &ContractDefinition, contract_sol: &SolContract, skip: bool) -> (res: Vec<
    Violation,
>)
    ensures
        violations_view(res@) == missing_violations(
            tree@,
            hirs_view(contract_hir.children@),
            contract_sol.parts@,
            0,
            skip,
        ),
{
    let kids = &contract_hir.children;
    proof {
        lemma_hirs_view(kids@);
    }
    let ghost kv = hirs_view(kids@);
    let ghost parts = contract_sol.parts@;
    let mut res: Vec<Violation> = Vec::new();
    let mut k: usize = 0;
    while k < kids.len()
        invariant
            kids == contract_hir.children,
            kv == hirs_view(kids@),
            parts == contract_sol.parts@,
            kv.len() == kids@.len(),
            forall|j: int| 0 <= j < kids@.len() ==> #[trigger] kv[j] == kids@[j]@,
            k <= kids@.len(),
            violations_view(res@) + missing_violations(tree@, kv, parts, k as int, skip) == missing_violations(
                tree@,
                kv,
                parts,
                0,
                skip,
            ),
        decreases kids@.len() - k,
    {
        let ghost before = violations_view(res@);
        if let Hir::FunctionDefinition(f) = &kids[k] {
            if find_matching_fn(contract_sol, f).is_none() && !(skip && f.is_modifier()) {
                let v = Violation::new(
                    ViolationKind::MatchingFunctionMissing(copy_function(f), k),
                    Location::Code(tree.to_string(), f.span.start.line),
                );
                res.push(v);
                assert(violations_view(res@) =~= before.push(v@));
                assert(before.push(v@) + missing_violations(tree@, kv, parts, k + 1, skip) =~= before + (seq![v@]
                    + missing_violations(tree@, kv, parts, k + 1, skip)));
            }
        }
        k = k + 1;
    }
    res
}

/// The violations for the functions of a contract whose match comes before
/// that of an earlier function.
fn misplaced_functions(sol: &str, src: &str, contract_hir: &ContractDefinition, contract_sol: &SolContract) -> (res:
    Vec<Violation>)
    requires
        src@.len() < usize::MAX,
        order_locatable(src@, hirs_view(contract_hir.children@), contract_sol.parts@, 0, 0),
    ensures
        violations_view(res@) == order_violations(
            sol@,
            src@,
            hirs_view(contract_hir.children@),
            contract_sol.parts@,
            0,
            0,
        ),
{
    let kids = &contract_hir.children;
    proof {
        lemma_hirs_view(kids@);
    }
    let ghost kv = hirs_view(kids@);
    let ghost parts = contract_sol.parts@;
    let mut res: Vec<Violation> = Vec::new();
    let mut k: usize = 0;
    let mut max: usize = 0;
    while k < kids.len()
        invariant
            kids == contract_hir.children,
            kv == hirs_view(kids@),
            parts == contract_sol.parts@,
            src@.len() < usize::MAX,
            kv.len() == kids@.len(),
            forall|j: int| 0 <= j < kids@.len() ==> #[trigger] kv[j] == kids@[j]@,
            k <= kids@.len(),
            order_locatable(src@, kv, parts, k as int, max as int),
            violations_view(res@) + order_violations(sol@, src@, kv, parts, k as int, max as int)
                == order_violations(sol@, src@, kv, parts, 0, 0),
        decreases kids@.len() - k,
    {
        let ghost before = violations_view(res@);
        if let Hir::FunctionDefinition(f) = &kids[k] {
            if let Some((si, g)) = find_matching_fn(contract_sol, f) {
                if si < max {
                    let (line, _) = offset_to_line_column(src, g.start);
                    let v = Violation::new(
                        ViolationKind::FunctionOrderMismatch(copy_sol_function(g), si, k),
                        Location::Code(sol.to_string(), line),
                    );
                    res.push(v);
                    assert(violations_view(res@) =~= before.push(v@));
                    assert(before.push(v@) + order_violations(sol@, src@, kv, parts, k + 1, max as int)
                        =~= before + (seq![v@] + order_violations(sol@, src@, kv, parts, k + 1, max as int)));
                } else {
                    max = si;
                }
            }
        }
        k = k + 1;
    }
    res
}

} // verus!
