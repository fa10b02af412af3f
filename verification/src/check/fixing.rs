//! The order in which `bulloak check --fix` fixes the violations of one
//! Solidity file, one step at a time, and the total of the fixes.
//!
//! A step takes the context of the file as it stands and gives the new
//! source of the file, if the step changes it; the caller parses that
//! source into the context of the next step.
use vstd::prelude::*;

use super::context::Context;
use super::rules::structural_match::{checkable, hir_contract, structural_violations, StructuralMatcher};
use super::violation::{
    fix_order, fixable_in, fixed_order, fixed_source, orderable, violations_view, SpecViolation, SpecViolationKind,
    Violation, ViolationKind,
};
use crate::sol::{find_contract, first_contract_index};

verus! {

/// Where the fixing of one Solidity file stands.
#[derive(Clone, Copy, Debug, PartialEq, Eq, Structural)]
pub enum FixPhase {
    /// Fixing the violations of the first check that do not concern the
    /// order of functions, from the one at this index on.
    Fixing(usize),
    /// Putting the functions in order, after a fresh check.
    Reordering,
    /// Nothing is left to fix.
    Done,
}

/// Whether a violation is a function out of order.
pub open spec fn is_misplacement(v: SpecViolation) -> bool {
    v.kind is FunctionOrderMismatch
}

/// The index of the first violation of `vs`, from index `i` on, that is
/// not a function out of order.
pub open spec fn next_unordered(vs: Seq<SpecViolation>, i: int) -> Option<int>
    decreases vs.len() - i,
{
    if i < 0 || i >= vs.len() {
        None
    } else if !is_misplacement(vs[i]) {
        Some(i)
    } else {
        next_unordered(vs, i + 1)
    }
}

/// Whether some violation of `vs` is a function out of order.
pub open spec fn has_misplacement(vs: Seq<SpecViolation>) -> bool {
    exists|i: int| 0 <= i < vs.len() && is_misplacement(#[trigger] vs[i])
}

/// The step of fixing in `phase`, for a file in context `ctx` whose first
/// check found `first`: the next phase and the new source, if any.
///
/// First each violation of the first check that is not a function out of
/// order is fixed, in order, each in the context that the fixes before it
/// left. Then the file is checked again, and when functions are out of
/// order, those of the tree's contract are put in order.
pub open spec fn planned_fix(ctx: Context, first: Seq<SpecViolation>, phase: FixPhase) -> (FixPhase, Option<Seq<char>>) {
    match phase {
        FixPhase::Fixing(i) => match next_unordered(first, i as int) {
            Some(j) => (FixPhase::Fixing((j + 1) as usize), fixed_source(first[j].kind, ctx)),
            None => (FixPhase::Reordering, None),
        },
        FixPhase::Reordering => {
            let vs = structural_violations(ctx);
            match (first_contract_index(ctx.pt@), hir_contract(ctx.hir@)) {
                (Some(ci), Some((_, kids))) => if has_misplacement(vs) {
                    (FixPhase::Done, Some(fixed_order(vs, ctx.pt@[ci]->Contract_0, kids, ctx.src@)))
                } else {
                    (FixPhase::Done, None)
                },
                _ => (FixPhase::Done, None),
            }
        },
        FixPhase::Done => (FixPhase::Done, None),
    }
}

/// What a step of fixing asks of its context: the violation to fix can be
/// fixed there; before ordering, the file can be checked and, when
/// functions are out of order, they can be put in order.
pub open spec fn step_fixable(ctx: Context, first: Seq<SpecViolation>, phase: FixPhase) -> bool {
    match phase {
        FixPhase::Fixing(i) => next_unordered(first, i as int) matches Some(j) ==> fixable_in(first[j].kind, ctx),
        FixPhase::Reordering => {
            &&& checkable(ctx)
            &&& has_misplacement(structural_violations(ctx)) ==> (first_contract_index(ctx.pt@) matches Some(ci)
                ==> hir_contract(ctx.hir@) matches Some((_, kids)) ==> orderable(
                structural_violations(ctx),
                ctx.pt@[ci]->Contract_0,
                kids,
                ctx.src@,
            ))
        },
        FixPhase::Done => true,
    }
}

/// The index of the next violation of `first`, from index `i` on, that the
/// first pass of fixing fixes: the next one that is not a function out of
/// order.
pub fn pending_fix(first: &Vec<Violation>, i: usize) -> (res: Option<usize>)
    ensures
        match res {
            Some(j) => next_unordered(violations_view(first@), i as int) == Some(j as int),
            None => next_unordered(violations_view(first@), i as int) is None,
        },
        res matches Some(j) ==> i <= j < first@.len(),
{
    let ghost vv = violations_view(first@);
    let mut j = i;
    while j < first.len()
        invariant
            vv == violations_view(first@),
            vv.len() == first@.len(),
            i <= j,
            next_unordered(vv, i as int) == next_unordered(vv, j as int),
        decreases first@.len() - j,
    {
        assert(vv[j as int] == first@[j as int]@);
        if let ViolationKind::FunctionOrderMismatch(_, _, _) = &first[j].kind {
        } else {
            return Some(j);
        }
        j = j + 1;
    }
    None
}

/// Whether some violation is a function out of order.
fn any_misplacement(vs: &Vec<Violation>) -> (res: bool)
    ensures
        res == has_misplacement(violations_view(vs@)),
{
    let ghost vv = violations_view(vs@);
    let mut i: usize = 0;
    while i < vs.len()
        invariant
            vv == violations_view(vs@),
            vv.len() == vs@.len(),
            i <= vs@.len(),
            forall|k: int| 0 <= k < i ==> !is_misplacement(#[trigger] vv[k]),
        decreases vs@.len() - i,
    {
        assert(vv[i as int] == vs@[i as int]@);
        if let ViolationKind::FunctionOrderMismatch(_, _, _) = &vs[i].kind {
            assert(is_misplacement(vv[i as int]));
            return true;
        }
        i = i + 1;
    }
    false
}

/// Takes one step of fixing a Solidity file: in context `ctx`, for a file
/// whose first check found `first`, in phase `phase`. Gives the next phase
/// and the new source of the file, if the step changes it.
///
/// The new source is not parsed here: the caller parses it into the
/// context of the next step, and fails when it does not parse.
pub fn next_fix(ctx: &Context, first: &Vec<Violation>, phase: FixPhase) -> (res: (FixPhase, Option<String>))
    requires
        step_fixable(*ctx, violations_view(first@), phase),
    ensures
        res.0 == planned_fix(*ctx, violations_view(first@), phase).0,
        match res.1 {
            Some(s) => planned_fix(*ctx, violations_view(first@), phase).1 == Some(s@),
            None => planned_fix(*ctx, violations_view(first@), phase).1 is None,
        },
{
    match phase {
        FixPhase::Fixing(i) => match pending_fix(first, i) {
            Some(j) => {
                let n = first.len();
                assert(j < n);
                assert(violations_view(first@)[j as int] == first@[j as int]@);
                (FixPhase::Fixing(j + 1), first[j].kind.fix(ctx))
            },
            None => (FixPhase::Reordering, None),
        },
        FixPhase::Reordering => {
            let vs = StructuralMatcher::check(ctx);
            if any_misplacement(&vs) {
                match find_contract(&ctx.pt) {
                    Some(contract_sol) => match ctx.hir.find_contract() {
                        Some(contract_hir) => {
                            let src = fix_order(&vs, contract_sol, contract_hir, ctx.src.as_str());
                            (FixPhase::Done, Some(src))
                        },
                        None => (FixPhase::Done, None),
                    },
                    None => (FixPhase::Done, None),
                }
            } else {
                (FixPhase::Done, None)
            }
        },
        FixPhase::Done => (FixPhase::Done, None),
    }
}

/// The sum of `counts`.
pub open spec fn total(counts: Seq<usize>) -> int
    decreases counts.len(),
{
    if counts.len() == 0 {
        0
    } else {
        total(counts.drop_last()) + counts.last()
    }
}

proof fn lemma_total_prefix(counts: Seq<usize>, i: int)
    requires
        0 <= i <= counts.len(),
    ensures
        total(counts.take(i)) <= total(counts),
    decreases counts.len(),
{
    if i < counts.len() {
        assert(counts.drop_last().take(i) =~= counts.take(i));
        lemma_total_prefix(counts.drop_last(), i);
    } else {
        assert(counts.take(i) =~= counts);
    }
}

/// The number of issues fixed over all files: the sum of the fixable
/// violations that each file's first check found.
pub fn fixed_total(counts: &Vec<usize>) -> (res: usize)
    requires
        total(counts@) <= usize::MAX,
    ensures
        res == total(counts@),
{
    let mut res: usize = 0;
    let mut i: usize = 0;
    assert(counts@.take(0) =~= Seq::<usize>::empty());
    while i < counts.len()
        invariant
            i <= counts@.len(),
            total(counts@) <= usize::MAX,
            res == total(counts@.take(i as int)),
        decreases counts@.len() - i,
    {
        assert(counts@.take(i + 1).drop_last() =~= counts@.take(i as int));
        proof {
            lemma_total_prefix(counts@, i + 1);
        }
        res = res + counts[i];
        i = i + 1;
    }
    assert(counts@.take(counts@.len() as int) =~= counts@);
    res
}

} // verus!
