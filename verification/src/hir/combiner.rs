//! The combination of the HIRs of the trees of one file into one HIR.
use vstd::prelude::*;

use super::hir::{
    SpecFunction,
    copy_hir, copy_hirs, strings_view, first_contract, hirs_view, lemma_hirs_view, lemma_hirs_view_push, ContractDefinition, FunctionTy,
    Hir, Root, SpecHir,
};
use crate::error::{formattable, formatted, Formatter};
use crate::span::Span;
use crate::text::{push_str, str_eq};
use crate::utils::{contract_name_of, get_contract_name_from_identifier};

verus! {

/// The type of an error that occurred while combining HIRs.
#[derive(Clone, Debug, PartialEq, Eq)]
pub enum ErrorKind {
    /// The contract name of one tree (first) differs from the contract name
    /// of the trees before it (second).
    ContractNameMismatch(String, String),
}

/// An error that occurred while combining HIRs.
#[derive(Clone, Debug, PartialEq, Eq)]
pub struct Error {
    /// The kind of error.
    pub kind: ErrorKind,
    /// The root identifier of the tree whose contract name differs.
    pub text: String,
    /// The span of this error.
    pub span: Span,
}

impl Error {
    /// The type of this error.
    pub fn kind(&self) -> (res: &ErrorKind)
        ensures
            *res == self.kind,
    {
        &self.kind
    }

    /// The text in which this error occurred.
    pub fn text(&self) -> (res: &str)
        ensures
            res@ == self.text@,
    {
        self.text.as_str()
    }

    /// The span at which this error occurred.
    pub fn span(&self) -> (res: &Span)
        ensures
            *res == self.span,
    {
        &self.span
    }
}

/// The message of a contract name mismatch: the name that was expected and
/// the one that was found.
pub open spec fn mismatch_message(found: Seq<char>, expected: Seq<char>) -> Seq<char> {
    "contract name mismatch: expected '"@ + expected + "', found '"@ + found + "'"@
}

impl ErrorKind {
    /// The message that describes this kind of error.
    pub fn message(&self) -> (res: String)
        ensures
            res@ == mismatch_message(self->ContractNameMismatch_0@, self->ContractNameMismatch_1@),
    {
        match self {
            ErrorKind::ContractNameMismatch(found, expected) => {
                let mut s = String::new();
                push_str(&mut s, "contract name mismatch: expected '");
                push_str(&mut s, expected.as_str());
                push_str(&mut s, "', found '");
                push_str(&mut s, found.as_str());
                push_str(&mut s, "'");
                s
            },
        }
    }
}

impl Error {
    /// The human readable report of this error.
    pub fn to_string(&self) -> (res: String)
        requires
            formattable(self.text@, self.span),
        ensures
            res@ == formatted(
                self.text@,
                mismatch_message(self.kind->ContractNameMismatch_0@, self.kind->ContractNameMismatch_1@),
                self.span,
            ),
    {
        let m = self.kind.message();
        Formatter::new(self.text.as_str(), m.as_str(), &self.span).to_string()
    }
}

/// A combination error as a mathematical value: the root identifier of
/// the tree, its contract name and the contract name before it.
pub struct SpecError {
    /// The root identifier of the tree whose contract name differs.
    pub text: Seq<char>,
    /// Its contract name.
    pub found: Seq<char>,
    /// The contract name of the trees before it.
    pub expected: Seq<char>,
}

/// The state of a combination: the contract built so far, if any, and the
/// modifiers it defines.
pub struct CombineState {
    /// The name and children of the contract built so far.
    pub contract: Option<(Seq<char>, Seq<SpecHir>)>,
    /// The identifiers of the modifiers seen so far.
    pub added: Seq<Seq<char>>,
}

/// The identifiers of the modifier definitions among `kids`, in order.
pub open spec fn modifier_ids(kids: Seq<SpecHir>) -> Seq<Seq<char>>
    decreases kids.len(),
{
    if kids.len() == 0 {
        Seq::empty()
    } else {
        let rest = modifier_ids(kids.drop_last());
        match kids.last() {
            SpecHir::Function(f) => if f.ty == FunctionTy::Modifier {
                rest.push(f.identifier)
            } else {
                rest
            },
            _ => rest,
        }
    }
}

/// Merges the children `kids` of a later contract into `out`: function
/// definitions are appended in order, except modifiers already defined;
/// anything else is dropped.
pub open spec fn merge(kids: Seq<SpecHir>, out: Seq<SpecHir>, added: Seq<Seq<char>>) -> (
    Seq<SpecHir>,
    Seq<Seq<char>>,
)
    decreases kids.len(),
{
    if kids.len() == 0 {
        (out, added)
    } else {
        let (o, a) = merge(kids.drop_last(), out, added);
        match kids.last() {
            SpecHir::Function(f) => if f.ty == FunctionTy::Modifier {
                if a.contains(f.identifier) {
                    (o, a)
                } else {
                    (o.push(kids.last()), a.push(f.identifier))
                }
            } else {
                (o.push(kids.last()), a)
            },
            _ => (o, a),
        }
    }
}

/// Takes the contract `(id, kids)` of a tree into the combination: the
/// first contract is kept whole, named after the contract part of its
/// identifier; a later one must have the same contract name, and its
/// functions are merged.
pub open spec fn absorb(st: CombineState, id: Seq<char>, kids: Seq<SpecHir>) -> Result<
    CombineState,
    SpecError,
> {
    match st.contract {
        None => Ok(
            CombineState {
                contract: Some((contract_name_of(id)->Some_0, kids)),
                added: st.added + modifier_ids(kids),
            },
        ),
        Some((name, out)) => {
            let found = match contract_name_of(id) {
                Some(n) => n,
                None => Seq::empty(),
            };
            if found != name {
                Err(SpecError { text: id, found, expected: name })
            } else {
                let (o, a) = merge(kids, out, st.added);
                Ok(CombineState { contract: Some((name, o)), added: a })
            }
        },
    }
}

/// The combination after the children `kids` of a root: its contracts are
/// taken in, in order; anything else is ignored.
pub open spec fn combine_children(st: CombineState, kids: Seq<SpecHir>) -> Result<
    CombineState,
    SpecError,
>
    decreases kids.len(),
{
    if kids.len() == 0 {
        Ok(st)
    } else {
        match combine_children(st, kids.drop_last()) {
            Err(e) => Err(e),
            Ok(s) => match kids.last() {
                SpecHir::Contract(id, ks) => absorb(s, id, ks),
                _ => Ok(s),
            },
        }
    }
}

/// The combination after the roots `hirs`, in order.
pub open spec fn combine_roots(hirs: Seq<SpecHir>) -> Result<CombineState, SpecError>
    decreases hirs.len(),
{
    if hirs.len() == 0 {
        Ok(CombineState { contract: None, added: Seq::empty() })
    } else {
        match combine_roots(hirs.drop_last()) {
            Err(e) => Err(e),
            Ok(s) => match hirs.last() {
                SpecHir::Root(kids) => combine_children(s, kids),
                _ => Ok(s),
            },
        }
    }
}

/// The combined HIR: a root with the combined contract, if there is one.
pub open spec fn combined(hirs: Seq<SpecHir>) -> Result<SpecHir, SpecError> {
    match combine_roots(hirs) {
        Err(e) => Err(e),
        Ok(s) => Ok(
            SpecHir::Root(
                match s.contract {
                    Some((name, kids)) => seq![SpecHir::Contract(name, kids)],
                    None => Seq::empty(),
                },
            ),
        ),
    }
}

/// The identifier of the first contract among the children of the roots
/// `hirs`.
pub open spec fn first_contract_id(hirs: Seq<SpecHir>) -> Option<Seq<char>>
    decreases hirs.len(),
{
    if hirs.len() == 0 {
        None
    } else {
        match hirs[0] {
            SpecHir::Root(kids) => match super::hir::first_contract(kids) {
                Some((id, _)) => Some(id),
                None => first_contract_id(hirs.drop_first()),
            },
            _ => first_contract_id(hirs.drop_first()),
        }
    }
}

/// HIRs that can be combined: roots only, whose first contract has a
/// contract name.
pub open spec fn combinable(hirs: Seq<SpecHir>) -> bool {
    &&& forall|i: int| 0 <= i < hirs.len() ==> #[trigger] hirs[i] is Root
    &&& first_contract_id(hirs) matches Some(id) ==> contract_name_of(id) is Some
}

/// The combination state that the exec variables stand for.
pub open spec fn state_of(name: Option<String>, out: Seq<Hir>, added: Seq<String>) -> CombineState {
    CombineState {
        contract: match name {
            Some(n) => Some((n@, hirs_view(out))),
            None => None,
        },
        added: strings_view(added),
    }
}

/// The error that an exec error stands for.
pub open spec fn error_view(e: Error) -> SpecError {
    SpecError {
        text: e.text@,
        found: e.kind->ContractNameMismatch_0@,
        expected: e.kind->ContractNameMismatch_1@,
    }
}

proof fn lemma_first_contract_id_step(hv: Seq<SpecHir>, i: int)
    requires
        0 <= i < hv.len(),
    ensures
        first_contract_id(hv.skip(i)) == match hv[i] {
            SpecHir::Root(kids) => match first_contract(kids) {
                Some((id, _)) => Some(id),
                None => first_contract_id(hv.skip(i + 1)),
            },
            _ => first_contract_id(hv.skip(i + 1)),
        },
{
    assert(hv.skip(i)[0] == hv[i]);
    assert(hv.skip(i).drop_first() =~= hv.skip(i + 1));
}

proof fn lemma_first_contract_step(kv: Seq<SpecHir>, k: int)
    requires
        0 <= k < kv.len(),
    ensures
        first_contract(kv.skip(k)) == if kv[k] is Contract {
            Some((kv[k]->Contract_0, kv[k]->Contract_1))
        } else {
            first_contract(kv.skip(k + 1))
        },
{
    assert(kv.skip(k)[0] == kv[k]);
    assert(kv.skip(k).drop_first() =~= kv.skip(k + 1));
}

proof fn lemma_children_err(st: CombineState, kv: Seq<SpecHir>, j: int, e: SpecError)
    requires
        0 <= j <= kv.len(),
        combine_children(st, kv.take(j)) == Err::<CombineState, SpecError>(e),
    ensures
        combine_children(st, kv) == Err::<CombineState, SpecError>(e),
    decreases kv.len() - j,
{
    if j < kv.len() {
        assert(kv.take(j + 1).drop_last() =~= kv.take(j));
        lemma_children_err(st, kv, j + 1, e);
    } else {
        assert(kv.take(j) =~= kv);
    }
}

proof fn lemma_roots_err(hv: Seq<SpecHir>, j: int, e: SpecError)
    requires
        0 <= j <= hv.len(),
        combine_roots(hv.take(j)) == Err::<CombineState, SpecError>(e),
    ensures
        combine_roots(hv) == Err::<CombineState, SpecError>(e),
    decreases hv.len() - j,
{
    if j < hv.len() {
        assert(hv.take(j + 1).drop_last() =~= hv.take(j));
        lemma_roots_err(hv, j + 1, e);
    } else {
        assert(hv.take(j) =~= hv);
    }
}

/// Whether `v` holds a string equal to `s`.
fn contains_str(v: &Vec<String>, s: &String) -> (res: bool)
    ensures
        res == strings_view(v@).contains(s@),
{
    let mut i: usize = 0;
    while i < v.len()
        invariant
            i <= v@.len(),
            forall|j: int| 0 <= j < i ==> v@[j]@ != s@,
        decreases v@.len() - i,
    {
        if str_eq(v[i].as_str(), s.as_str()) {
            assert(strings_view(v@)[i as int] == s@);
            return true;
        }
        i = i + 1;
    }
    assert(!strings_view(v@).contains(s@)) by {
        if strings_view(v@).contains(s@) {
            let j = choose|j: int| 0 <= j < strings_view(v@).len() && strings_view(v@)[j] == s@;
            assert(v@[j]@ == s@);
        }
    }
    false
}

/// Records the identifiers of the modifier definitions among `kids`.
fn add_modifier_ids(kids: &Vec<Hir>, added: &mut Vec<String>)
    ensures
        strings_view(final(added)@) == strings_view(old(added)@) + modifier_ids(hirs_view(kids@)),
{
    proof {
        lemma_hirs_view(kids@);
    }
    let ghost kv = hirs_view(kids@);
    let mut i: usize = 0;
    assert(kv.take(0) =~= Seq::<SpecHir>::empty());
    assert(strings_view(added@) =~= strings_view(old(added)@) + modifier_ids(kv.take(0)));
    while i < kids.len()
        invariant
            kv == hirs_view(kids@),
            i <= kids@.len(),
            kv.len() == kids@.len(),
            forall|j: int| 0 <= j < kids@.len() ==> #[trigger] kv[j] == kids@[j]@,
            strings_view(added@) == strings_view(old(added)@) + modifier_ids(kv.take(i as int)),
        decreases kids@.len() - i,
    {
        assert(kv.take(i + 1).drop_last() =~= kv.take(i as int));
        assert(kv.take(i + 1).last() == kids@[i as int]@);
        if let Hir::FunctionDefinition(f) = &kids[i] {
            if f.is_modifier() {
                let ghost before = added@;
                let x = f.identifier.clone();
                added.push(x);
                assert(added@ =~= before.push(x));
                assert(strings_view(added@) =~= strings_view(before).push(x@));
            }
        }
        i = i + 1;
    }
    assert(kv.take(kids@.len() as int) =~= kv);
}

/// Merges the children `kids` of a later contract into `out`.
fn merge_children(kids: &Vec<Hir>, out: &mut Vec<Hir>, added: &mut Vec<String>)
    ensures
        (hirs_view(final(out)@), strings_view(final(added)@)) == merge(
            hirs_view(kids@),
            hirs_view(old(out)@),
            strings_view(old(added)@),
        ),
{
    proof {
        lemma_hirs_view(kids@);
    }
    let ghost kv = hirs_view(kids@);
    let mut i: usize = 0;
    assert(kv.take(0) =~= Seq::<SpecHir>::empty());
    while i < kids.len()
        invariant
            kv == hirs_view(kids@),
            i <= kids@.len(),
            kv.len() == kids@.len(),
            forall|j: int| 0 <= j < kids@.len() ==> #[trigger] kv[j] == kids@[j]@,
            (hirs_view(out@), strings_view(added@)) == merge(
                kv.take(i as int),
                hirs_view(old(out)@),
                strings_view(old(added)@),
            ),
        decreases kids@.len() - i,
    {
        assert(kv.take(i + 1).drop_last() =~= kv.take(i as int));
        assert(kv.take(i + 1).last() == kids@[i as int]@);
        if let Hir::FunctionDefinition(f) = &kids[i] {
            let keep = if f.is_modifier() {
                if contains_str(added, &f.identifier) {
                    false
                } else {
                    let ghost before = added@;
                    let x = f.identifier.clone();
                    added.push(x);
                    assert(added@ =~= before.push(x));
                    assert(strings_view(added@) =~= strings_view(before).push(x@));
                    true
                }
            } else {
                true
            };
            if keep {
                let h = copy_hir(&kids[i]);
                proof {
                    lemma_hirs_view_push(out@, h);
                }
                out.push(h);
            }
        }
        i = i + 1;
    }
    assert(kv.take(kids@.len() as int) =~= kv);
}

/// Takes the contract `c` of a tree into the combination.
fn absorb_exec(
    c: &ContractDefinition,
    name: &mut Option<String>,
    out: &mut Vec<Hir>,
    added: &mut Vec<String>,
) -> (res: Result<(), Error>)
    requires
        *old(name) is None ==> contract_name_of(c.identifier@) is Some,
    ensures
        match res {
            Ok(()) => absorb(state_of(*old(name), old(out)@, old(added)@), c.identifier@, hirs_view(c.children@))
                == Ok::<CombineState, SpecError>(state_of(*final(name), final(out)@, final(added)@)),
            Err(e) => absorb(state_of(*old(name), old(out)@, old(added)@), c.identifier@, hirs_view(c.children@))
                == Err::<CombineState, SpecError>(error_view(e)) && e.span == Span::zero_spec() && e.kind is ContractNameMismatch,
        },
        *final(name) is Some,
{
    match name {
        None => {
            let n = match get_contract_name_from_identifier(c.identifier.as_str()) {
                Some(n) => n,
                None => {
                    assert(false);
                    String::new()
                },
            };
            *name = Some(n);
            *out = copy_hirs(&c.children);
            add_modifier_ids(&c.children, added);
            Ok(())
        },
        Some(acc) => {
            let found = match get_contract_name_from_identifier(c.identifier.as_str()) {
                Some(n) => n,
                None => String::new(),
            };
            if !str_eq(found.as_str(), acc.as_str()) {
                return Err(
                    Error {
                        kind: ErrorKind::ContractNameMismatch(found, acc.clone()),
                        text: c.identifier.clone(),
                        span: Span::zero(),
                    },
                );
            }
            merge_children(&c.children, out, added);
            Ok(())
        },
    }
}

/// Takes the contracts among the children `kids` of a root into the
/// combination.
fn combine_root_children(
    kids: &Vec<Hir>,
    name: &mut Option<String>,
    out: &mut Vec<Hir>,
    added: &mut Vec<String>,
) -> (res: Result<(), Error>)
    requires
        *old(name) is None ==> (first_contract(hirs_view(kids@)) matches Some((id, _))
            ==> contract_name_of(id) is Some),
    ensures
        match res {
            Ok(()) => combine_children(state_of(*old(name), old(out)@, old(added)@), hirs_view(kids@))
                == Ok::<CombineState, SpecError>(state_of(*final(name), final(out)@, final(added)@)),
            Err(e) => combine_children(state_of(*old(name), old(out)@, old(added)@), hirs_view(kids@))
                == Err::<CombineState, SpecError>(error_view(e)) && e.span == Span::zero_spec() && e.kind is ContractNameMismatch,
        },
        (*old(name) is None && *final(name) is None) ==> first_contract(hirs_view(kids@)) is None,
        *old(name) is Some ==> *final(name) is Some,
{
    proof {
        lemma_hirs_view(kids@);
    }
    let ghost kv = hirs_view(kids@);
    let ghost st0 = state_of(*old(name), old(out)@, old(added)@);
    let ghost name0 = *old(name);
    let mut k: usize = 0;
    assert(kv.take(0) =~= Seq::<SpecHir>::empty());
    assert(kv.skip(0) =~= kv);
    while k < kids.len()
        invariant
            kv == hirs_view(kids@),
            k <= kids@.len(),
            kv.len() == kids@.len(),
            forall|j: int| 0 <= j < kids@.len() ==> #[trigger] kv[j] == kids@[j]@,
            st0 == state_of(*old(name), old(out)@, old(added)@),
            name0 == *old(name),
            combine_children(st0, kv.take(k as int)) == Ok::<CombineState, SpecError>(state_of(*name, out@, added@)),
            name0 is None ==> (first_contract(kv) matches Some((id, _)) ==> contract_name_of(id) is Some),
            (name0 is None && *name is None) ==> first_contract(kv) == first_contract(kv.skip(k as int)),
            name0 is Some ==> *name is Some,
        decreases kids@.len() - k,
    {
        assert(kv.take(k + 1).drop_last() =~= kv.take(k as int));
        assert(kv.take(k + 1).last() == kids@[k as int]@);
        proof {
            lemma_first_contract_step(kv, k as int);
        }
        if let Hir::ContractDefinition(c) = &kids[k] {
            let ghost s_before = state_of(*name, out@, added@);
            assert(kv.take(k + 1).last() == SpecHir::Contract(c.identifier@, hirs_view(c.children@)));
            match absorb_exec(c, name, out, added) {
                Err(e) => {
                    assert(combine_children(st0, kv.take(k + 1)) == absorb(s_before, c.identifier@, hirs_view(c.children@)));
                    proof {
                        lemma_children_err(st0, kv, k + 1, error_view(e));
                    }
                    return Err(e);
                },
                Ok(()) => {},
            }
        }
        k = k + 1;
    }
    assert(kv.take(kids@.len() as int) =~= kv);
    proof {
        if name0 is None && *name is None {
            assert(kv.skip(kids@.len() as int) =~= Seq::<SpecHir>::empty());
        }
    }
    Ok(())
}

/// The test functions (not modifiers) among `kids`, in order.
pub open spec fn tests_of(kids: Seq<SpecHir>) -> Seq<SpecFunction>
    decreases kids.len(),
{
    if kids.len() == 0 {
        Seq::empty()
    } else {
        let r = tests_of(kids.drop_last());
        match kids.last() {
            SpecHir::Function(f) => if f.ty == FunctionTy::Function {
                r.push(f)
            } else {
                r
            },
            _ => r,
        }
    }
}

/// The test functions of the contracts among the children of a root.
pub open spec fn contract_tests(kids: Seq<SpecHir>) -> Seq<SpecFunction>
    decreases kids.len(),
{
    if kids.len() == 0 {
        Seq::empty()
    } else {
        contract_tests(kids.drop_last()) + match kids.last() {
            SpecHir::Contract(_, ks) => tests_of(ks),
            _ => Seq::empty(),
        }
    }
}

/// The test functions of the contracts of the roots `hs`, in order.
pub open spec fn roots_tests(hs: Seq<SpecHir>) -> Seq<SpecFunction>
    decreases hs.len(),
{
    if hs.len() == 0 {
        Seq::empty()
    } else {
        roots_tests(hs.drop_last()) + match hs.last() {
            SpecHir::Root(kids) => contract_tests(kids),
            _ => Seq::empty(),
        }
    }
}

/// The test functions of the contract of a combination state.
pub open spec fn state_tests(st: CombineState) -> Seq<SpecFunction> {
    match st.contract {
        Some((_, k)) => tests_of(k),
        None => Seq::empty(),
    }
}

proof fn lemma_merge_tests(kids: Seq<SpecHir>, out: Seq<SpecHir>, added: Seq<Seq<char>>)
    ensures
        tests_of(merge(kids, out, added).0) == tests_of(out) + tests_of(kids),
    decreases kids.len(),
{
    if kids.len() == 0 {
        assert(tests_of(out) + tests_of(kids) =~= tests_of(out));
    } else {
        lemma_merge_tests(kids.drop_last(), out, added);
        let (o, a) = merge(kids.drop_last(), out, added);
        assert(o.push(kids.last()).drop_last() =~= o);
        assert(tests_of(out) + tests_of(kids.drop_last()).push(kids.last()->Function_0) =~= (tests_of(
            out,
        ) + tests_of(kids.drop_last())).push(kids.last()->Function_0));
    }
}

proof fn lemma_combine_children_tests(st: CombineState, kids: Seq<SpecHir>)
    ensures
        combine_children(st, kids) matches Ok(s) ==> state_tests(s) == state_tests(st) + contract_tests(kids),
    decreases kids.len(),
{
    if kids.len() == 0 {
        assert(state_tests(st) + contract_tests(kids) =~= state_tests(st));
    } else {
        lemma_combine_children_tests(st, kids.drop_last());
        match combine_children(st, kids.drop_last()) {
            Ok(s) => match kids.last() {
                SpecHir::Contract(id, ks) => {
                    match s.contract {
                        Some((name, out)) => lemma_merge_tests(ks, out, s.added),
                        None => {},
                    }
                    assert(state_tests(st) + contract_tests(kids.drop_last()) + tests_of(ks) =~= state_tests(st)
                        + (contract_tests(kids.drop_last()) + tests_of(ks)));
                },
                _ => {
                    assert(contract_tests(kids.drop_last()) + Seq::<SpecFunction>::empty() =~= contract_tests(
                        kids.drop_last(),
                    ));
                },
            },
            Err(_) => {},
        }
    }
}

proof fn lemma_combine_roots_tests(hs: Seq<SpecHir>)
    ensures
        combine_roots(hs) matches Ok(s) ==> state_tests(s) == roots_tests(hs),
    decreases hs.len(),
{
    if hs.len() > 0 {
        lemma_combine_roots_tests(hs.drop_last());
        match combine_roots(hs.drop_last()) {
            Ok(s) => match hs.last() {
                SpecHir::Root(kids) => lemma_combine_children_tests(s, kids),
                _ => {
                    assert(roots_tests(hs.drop_last()) + Seq::<SpecFunction>::empty() =~= roots_tests(
                        hs.drop_last(),
                    ));
                },
            },
            Err(_) => {},
        }
    } else {
        assert(state_tests(CombineState { contract: None, added: Seq::empty() }) =~= roots_tests(hs));
    }
}

/// Combining loses no test: the tests of the combined contract are the
/// tests of the contracts of all the trees, in order.
pub proof fn law_combine_keeps_tests(hs: Seq<SpecHir>)
    ensures
        combined(hs) matches Ok(SpecHir::Root(kids)) ==> contract_tests(kids) == roots_tests(hs),
{
    lemma_combine_roots_tests(hs);
    match combine_roots(hs) {
        Ok(s) => match s.contract {
            Some((name, k)) => {
                let kids = seq![SpecHir::Contract(name, k)];
                assert(kids.drop_last() =~= Seq::<SpecHir>::empty());
                assert(contract_tests(kids.drop_last()) =~= Seq::<SpecFunction>::empty());
                assert(kids.last() == SpecHir::Contract(name, k));
                assert(contract_tests(kids) =~= Seq::<SpecFunction>::empty() + tests_of(k));
                assert(contract_tests(kids) =~= tests_of(k));
            },
            None => {},
        },
        Err(_) => {},
    }
}

/// A combination state whose modifier record is that of its contract,
/// without duplicates.
pub open spec fn modifiers_tracked(st: CombineState) -> bool {
    &&& match st.contract {
        Some((_, k)) => st.added == modifier_ids(k),
        None => st.added.len() == 0,
    }
    &&& st.added.no_duplicates()
}

/// Every contract among `kids` defines each of its modifiers once.
pub open spec fn contracts_without_duplicates(kids: Seq<SpecHir>) -> bool {
    forall|i: int|
        0 <= i < kids.len() ==> (#[trigger] kids[i] matches SpecHir::Contract(_, ks) ==> modifier_ids(
            ks,
        ).no_duplicates())
}

proof fn lemma_merge_modifiers(kids: Seq<SpecHir>, out: Seq<SpecHir>, added: Seq<Seq<char>>)
    requires
        added == modifier_ids(out),
        added.no_duplicates(),
    ensures
        merge(kids, out, added).1 == modifier_ids(merge(kids, out, added).0),
        merge(kids, out, added).1.no_duplicates(),
    decreases kids.len(),
{
    if kids.len() > 0 {
        lemma_merge_modifiers(kids.drop_last(), out, added);
        let (o, a) = merge(kids.drop_last(), out, added);
        assert(o.push(kids.last()).drop_last() =~= o);
        match kids.last() {
            SpecHir::Function(f) => if f.ty == FunctionTy::Modifier && !a.contains(f.identifier) {
                assert forall|i: int, j: int|
                    0 <= i < a.push(f.identifier).len() && 0 <= j < a.push(f.identifier).len() && i != j
                        implies a.push(f.identifier)[i] != a.push(f.identifier)[j] by {
                    if i == a.len() {
                        assert(a[j] != f.identifier);
                    } else if j == a.len() {
                        assert(a[i] != f.identifier);
                    }
                }
            },
            _ => {},
        }
    }
}

proof fn lemma_combine_children_modifiers(st: CombineState, kids: Seq<SpecHir>)
    requires
        modifiers_tracked(st),
        contracts_without_duplicates(kids),
    ensures
        combine_children(st, kids) matches Ok(s) ==> modifiers_tracked(s),
    decreases kids.len(),
{
    if kids.len() > 0 {
        assert forall|i: int| 0 <= i < kids.drop_last().len() implies (#[trigger] kids.drop_last()[i] matches SpecHir::Contract(
            _,
            ks,
        ) ==> modifier_ids(ks).no_duplicates()) by {
            assert(kids.drop_last()[i] == kids[i]);
        }
        lemma_combine_children_modifiers(st, kids.drop_last());
        match combine_children(st, kids.drop_last()) {
            Ok(s) => match kids.last() {
                SpecHir::Contract(id, ks) => {
                    assert(kids[kids.len() - 1] == kids.last());
                    match s.contract {
                        Some((name, out)) => lemma_merge_modifiers(ks, out, s.added),
                        None => {
                            assert(s.added + modifier_ids(ks) =~= modifier_ids(ks));
                        },
                    }
                },
                _ => {},
            },
            Err(_) => {},
        }
    }
}

proof fn lemma_combine_roots_modifiers(hs: Seq<SpecHir>)
    requires
        forall|i: int| 0 <= i < hs.len() ==> (#[trigger] hs[i] matches SpecHir::Root(kids) ==> contracts_without_duplicates(kids)),
    ensures
        combine_roots(hs) matches Ok(s) ==> modifiers_tracked(s),
    decreases hs.len(),
{
    if hs.len() > 0 {
        assert forall|i: int| 0 <= i < hs.drop_last().len() implies (#[trigger] hs.drop_last()[i] matches SpecHir::Root(
            kids,
        ) ==> contracts_without_duplicates(kids)) by {
            assert(hs.drop_last()[i] == hs[i]);
        }
        lemma_combine_roots_modifiers(hs.drop_last());
        match combine_roots(hs.drop_last()) {
            Ok(s) => match hs.last() {
                SpecHir::Root(kids) => {
                    assert(hs[hs.len() - 1] == hs.last());
                    lemma_combine_children_modifiers(s, kids);
                },
                _ => {},
            },
            Err(_) => {},
        }
    }
}

/// Combining defines each modifier once: when no tree's contract defines a
/// modifier twice, the combined contract defines none twice, however many
/// trees share it.
pub proof fn law_combine_modifiers_unique(hs: Seq<SpecHir>)
    requires
        forall|i: int| 0 <= i < hs.len() ==> (#[trigger] hs[i] matches SpecHir::Root(kids) ==> contracts_without_duplicates(kids)),
    ensures
        combined(hs) matches Ok(SpecHir::Root(kids)) ==> forall|i: int|
            0 <= i < kids.len() ==> (#[trigger] kids[i] matches SpecHir::Contract(_, ks) ==> modifier_ids(
                ks,
            ).no_duplicates()),
{
    lemma_combine_roots_modifiers(hs);
}

/// The identifiers of the modifiers that the contracts among the children
/// of a root define, in order.
pub open spec fn contract_modifiers(kids: Seq<SpecHir>) -> Seq<Seq<char>>
    decreases kids.len(),
{
    if kids.len() == 0 {
        Seq::empty()
    } else {
        contract_modifiers(kids.drop_last()) + match kids.last() {
            SpecHir::Contract(_, ks) => modifier_ids(ks),
            _ => Seq::empty(),
        }
    }
}

/// The identifiers of the modifiers that the contracts of the roots `hs`
/// define, in order.
pub open spec fn roots_modifiers(hs: Seq<SpecHir>) -> Seq<Seq<char>>
    decreases hs.len(),
{
    if hs.len() == 0 {
        Seq::empty()
    } else {
        roots_modifiers(hs.drop_last()) + match hs.last() {
            SpecHir::Root(kids) => contract_modifiers(kids),
            _ => Seq::empty(),
        }
    }
}

/// The modifiers that the contract of a combination state defines.
pub open spec fn state_modifiers(st: CombineState) -> Seq<Seq<char>> {
    match st.contract {
        Some((_, k)) => modifier_ids(k),
        None => Seq::empty(),
    }
}

/// The modifier record of a state holds exactly the modifiers that its
/// contract defines.
pub open spec fn record_matches(st: CombineState) -> bool {
    forall|m: Seq<char>| #[trigger] st.added.contains(m) <==> state_modifiers(st).contains(m)
}

proof fn lemma_merge_defines(kids: Seq<SpecHir>, out: Seq<SpecHir>, added: Seq<Seq<char>>)
    requires
        forall|m: Seq<char>| #[trigger] added.contains(m) <==> modifier_ids(out).contains(m),
    ensures
        forall|m: Seq<char>|
            #[trigger] merge(kids, out, added).1.contains(m) <==> modifier_ids(merge(kids, out, added).0).contains(m),
        forall|m: Seq<char>|
            #[trigger] modifier_ids(merge(kids, out, added).0).contains(m) <==> modifier_ids(out).contains(m)
                || modifier_ids(kids).contains(m),
    decreases kids.len(),
{
    if kids.len() == 0 {
        assert(modifier_ids(kids) =~= Seq::<Seq<char>>::empty());
    } else {
        let dl = kids.drop_last();
        lemma_merge_defines(dl, out, added);
        let (o, a) = merge(dl, out, added);
        let x = kids.last();
        assert(o.push(x).drop_last() =~= o);
        assert(o.push(x).last() == x);
        match x {
            SpecHir::Function(f) => if f.ty == FunctionTy::Modifier {
                assert(modifier_ids(kids) == modifier_ids(dl).push(f.identifier));
                if a.contains(f.identifier) {
                    assert(modifier_ids(o).contains(f.identifier));
                    assert forall|m: Seq<char>|
                        #[trigger] modifier_ids(o).contains(m) <==> modifier_ids(out).contains(m)
                            || modifier_ids(kids).contains(m) by {
                        if modifier_ids(dl).contains(m) {
                            let k = choose|k: int| 0 <= k < modifier_ids(dl).len() && modifier_ids(dl)[k] == m;
                            assert(modifier_ids(kids)[k] == m);
                        }
                        if modifier_ids(kids).contains(m) && !modifier_ids(dl).contains(m) {
                            let k = choose|k: int| 0 <= k < modifier_ids(kids).len() && modifier_ids(kids)[k] == m;
                            if k < modifier_ids(dl).len() {
                                assert(modifier_ids(dl)[k] == m);
                            }
                        }
                    }
                } else {
                    let o2 = o.push(x);
                    assert(modifier_ids(o2) == modifier_ids(o).push(f.identifier));
                    assert forall|m: Seq<char>|
                        #[trigger] a.push(f.identifier).contains(m) <==> modifier_ids(o2).contains(m) by {
                        if a.push(f.identifier).contains(m) {
                            let k = choose|k: int| 0 <= k < a.push(f.identifier).len() && a.push(f.identifier)[k] == m;
                            if k < a.len() {
                                assert(a[k] == m);
                                assert(a.contains(m));
                                assert(merge(dl, out, added).1.contains(m));
                                assert(modifier_ids(o).contains(m));
                                let j = choose|j: int| 0 <= j < modifier_ids(o).len() && modifier_ids(o)[j] == m;
                                assert(modifier_ids(o2)[j] == m);
                            } else {
                                assert(modifier_ids(o2)[modifier_ids(o).len() as int] == m);
                            }
                        }
                        if modifier_ids(o2).contains(m) {
                            let k = choose|k: int| 0 <= k < modifier_ids(o2).len() && modifier_ids(o2)[k] == m;
                            if k < modifier_ids(o).len() {
                                assert(modifier_ids(o)[k] == m);
                                assert(modifier_ids(o).contains(m));
                                assert(merge(dl, out, added).1.contains(m));
                                let j = choose|j: int| 0 <= j < a.len() && a[j] == m;
                                assert(a.push(f.identifier)[j] == m);
                            } else {
                                assert(a.push(f.identifier)[a.len() as int] == m);
                            }
                        }
                    }
                    assert forall|m: Seq<char>|
                        #[trigger] modifier_ids(o2).contains(m) <==> modifier_ids(out).contains(m)
                            || modifier_ids(kids).contains(m) by {
                        if modifier_ids(o2).contains(m) {
                            let k = choose|k: int| 0 <= k < modifier_ids(o2).len() && modifier_ids(o2)[k] == m;
                            if k < modifier_ids(o).len() {
                                assert(modifier_ids(o)[k] == m);
                                if modifier_ids(dl).contains(m) {
                                    let j = choose|j: int| 0 <= j < modifier_ids(dl).len() && modifier_ids(dl)[j] == m;
                                    assert(modifier_ids(kids)[j] == m);
                                }
                            } else {
                                assert(modifier_ids(kids)[modifier_ids(dl).len() as int] == m);
                            }
                        }
                        if modifier_ids(out).contains(m) {
                            assert(modifier_ids(o).contains(m));
                            let j = choose|j: int| 0 <= j < modifier_ids(o).len() && modifier_ids(o)[j] == m;
                            assert(modifier_ids(o2)[j] == m);
                        }
                        if modifier_ids(kids).contains(m) {
                            let k = choose|k: int| 0 <= k < modifier_ids(kids).len() && modifier_ids(kids)[k] == m;
                            if k < modifier_ids(dl).len() {
                                assert(modifier_ids(dl)[k] == m);
                                assert(modifier_ids(o).contains(m));
                                let j = choose|j: int| 0 <= j < modifier_ids(o).len() && modifier_ids(o)[j] == m;
                                assert(modifier_ids(o2)[j] == m);
                            } else {
                                assert(modifier_ids(o2)[modifier_ids(o).len() as int] == m);
                            }
                        }
                    }
                }
            } else {
                assert(modifier_ids(o.push(x)) == modifier_ids(o));
                assert(modifier_ids(kids) == modifier_ids(dl));
            },
            _ => {
                assert(modifier_ids(kids) == modifier_ids(dl));
            },
        }
    }
}

proof fn lemma_combine_children_defines(st: CombineState, kids: Seq<SpecHir>)
    requires
        record_matches(st),
    ensures
        combine_children(st, kids) matches Ok(s) ==> record_matches(s) && forall|m: Seq<char>|
            #[trigger] state_modifiers(s).contains(m) <==> state_modifiers(st).contains(m) || contract_modifiers(
                kids,
            ).contains(m),
    decreases kids.len(),
{
    if kids.len() == 0 {
        assert(contract_modifiers(kids) =~= Seq::<Seq<char>>::empty());
    } else {
        let dl = kids.drop_last();
        lemma_combine_children_defines(st, dl);
        match combine_children(st, dl) {
            Ok(s) => {
                let cm = contract_modifiers(kids);
                let cd = contract_modifiers(dl);
                match kids.last() {
                    SpecHir::Contract(id, ks) => {
                        assert(cm == cd + modifier_ids(ks));
                        match absorb(s, id, ks) {
                            Ok(s2) => {
                                match s.contract {
                                    Some((name, out)) => {
                                        assert forall|m: Seq<char>| #[trigger] s.added.contains(m) <==> modifier_ids(out).contains(m) by {
                                            assert(s.added.contains(m) <==> state_modifiers(s).contains(m));
                                        }
                                        lemma_merge_defines(ks, out, s.added);
                                        let (o, a) = merge(ks, out, s.added);
                                        assert(s2 == CombineState { contract: Some((name, o)), added: a });
                                        assert forall|m: Seq<char>| #[trigger] s2.added.contains(m) <==> state_modifiers(s2).contains(m) by {
                                            assert(merge(ks, out, s.added).1.contains(m) <==> modifier_ids(merge(ks, out, s.added).0).contains(m));
                                        }
                                        assert forall|m: Seq<char>| #[trigger] state_modifiers(s2).contains(m) <==> state_modifiers(s).contains(m) || modifier_ids(ks).contains(m) by {
                                            assert(modifier_ids(merge(ks, out, s.added).0).contains(m) <==> modifier_ids(out).contains(m) || modifier_ids(ks).contains(m));
                                        }
                                    },
                                    None => {
                                        assert forall|m: Seq<char>| #[trigger] s2.added.contains(m) <==> state_modifiers(s2).contains(m) by {
                                            if s2.added.contains(m) {
                                                let k = choose|k: int| 0 <= k < s2.added.len() && s2.added[k] == m;
                                                if k < s.added.len() {
                                                    assert(s.added[k] == m);
                                                    assert(s.added.contains(m));
                                                } else {
                                                    assert(modifier_ids(ks)[k - s.added.len()] == m);
                                                }
                                            }
                                            if state_modifiers(s2).contains(m) {
                                                let k = choose|k: int| 0 <= k < modifier_ids(ks).len() && modifier_ids(ks)[k] == m;
                                                assert(s2.added[s.added.len() + k] == m);
                                            }
                                        }
                                        assert(state_modifiers(s) =~= Seq::<Seq<char>>::empty());
                                        assert(state_modifiers(s2) == modifier_ids(ks));
                                    },
                                }
                                assert forall|m: Seq<char>|
                                    #[trigger] state_modifiers(s2).contains(m) <==> state_modifiers(st).contains(m)
                                        || cm.contains(m) by {
                                    assert(state_modifiers(s2).contains(m) <==> state_modifiers(s).contains(m) || modifier_ids(ks).contains(m));
                                    assert(state_modifiers(s).contains(m) <==> state_modifiers(st).contains(m) || cd.contains(m));
                                    if cd.contains(m) {
                                        let k = choose|k: int| 0 <= k < cd.len() && cd[k] == m;
                                        assert(cm[k] == m);
                                    }
                                    if modifier_ids(ks).contains(m) {
                                        let k = choose|k: int| 0 <= k < modifier_ids(ks).len() && modifier_ids(ks)[k] == m;
                                        assert(cm[cd.len() + k] == m);
                                    }
                                    if cm.contains(m) {
                                        let k = choose|k: int| 0 <= k < cm.len() && cm[k] == m;
                                        if k < cd.len() {
                                            assert(cd[k] == m);
                                        } else {
                                            assert(modifier_ids(ks)[k - cd.len()] == m);
                                        }
                                    }
                                }
                            },
                            Err(_) => {},
                        }
                    },
                    _ => {
                        assert(cm =~= cd);
                    },
                }
            },
            Err(_) => {},
        }
    }
}

proof fn lemma_combine_roots_defines(hs: Seq<SpecHir>)
    ensures
        combine_roots(hs) matches Ok(s) ==> record_matches(s) && forall|m: Seq<char>|
            #[trigger] state_modifiers(s).contains(m) <==> roots_modifiers(hs).contains(m),
    decreases hs.len(),
{
    if hs.len() == 0 {
        let s = CombineState { contract: None, added: Seq::empty() };
        assert(state_modifiers(s) =~= Seq::<Seq<char>>::empty());
        assert(roots_modifiers(hs) =~= Seq::<Seq<char>>::empty());
    } else {
        let dl = hs.drop_last();
        lemma_combine_roots_defines(dl);
        match combine_roots(dl) {
            Ok(s) => {
                let rm = roots_modifiers(hs);
                let rd = roots_modifiers(dl);
                match hs.last() {
                    SpecHir::Root(kids) => {
                        lemma_combine_children_defines(s, kids);
                        assert(rm == rd + contract_modifiers(kids));
                        assert forall|m: Seq<char>| #[trigger] rm.contains(m) <==> rd.contains(m) || contract_modifiers(kids).contains(m) by {
                            let c = contract_modifiers(kids);
                            if rd.contains(m) {
                                let k = choose|k: int| 0 <= k < rd.len() && rd[k] == m;
                                assert(rm[k] == m);
                            }
                            if c.contains(m) {
                                let k = choose|k: int| 0 <= k < c.len() && c[k] == m;
                                assert(rm[rd.len() + k] == m);
                            }
                            if rm.contains(m) {
                                let k = choose|k: int| 0 <= k < rm.len() && rm[k] == m;
                                if k < rd.len() {
                                    assert(rd[k] == m);
                                } else {
                                    assert(c[k - rd.len()] == m);
                                }
                            }
                        }
                    },
                    _ => {
                        assert(rm =~= rd);
                    },
                }
            },
            Err(_) => {},
        }
    }
}

/// Combining defines every modifier that any tree defines, and no other:
/// a modifier is defined by the combined contract exactly when the
/// contract of some tree defines it.
pub proof fn law_combine_defines_all_modifiers(hs: Seq<SpecHir>)
    ensures
        combined(hs) matches Ok(SpecHir::Root(kids)) ==> forall|m: Seq<char>|
            #[trigger] contract_modifiers(kids).contains(m) <==> roots_modifiers(hs).contains(m),
{
    lemma_combine_roots_defines(hs);
    match combine_roots(hs) {
        Ok(s) => match s.contract {
            Some((name, k)) => {
                let kids = seq![SpecHir::Contract(name, k)];
                assert(kids.drop_last() =~= Seq::<SpecHir>::empty());
                assert(contract_modifiers(kids.drop_last()) =~= Seq::<Seq<char>>::empty());
                assert(kids.last() == SpecHir::Contract(name, k));
                assert(contract_modifiers(kids) =~= modifier_ids(k));
                assert(combined(hs) == Ok::<SpecHir, SpecError>(SpecHir::Root(kids)));
                assert forall|m: Seq<char>| #[trigger] contract_modifiers(kids).contains(m) <==> roots_modifiers(hs).contains(m) by {
                    assert(state_modifiers(s).contains(m) <==> roots_modifiers(hs).contains(m));
                }
            },
            None => {
                let kids = Seq::<SpecHir>::empty();
                assert(contract_modifiers(kids) =~= Seq::<Seq<char>>::empty());
                assert(combined(hs) == Ok::<SpecHir, SpecError>(SpecHir::Root(kids)));
                assert forall|m: Seq<char>| #[trigger] contract_modifiers(kids).contains(m) <==> roots_modifiers(hs).contains(m) by {
                    assert(state_modifiers(s).contains(m) <==> roots_modifiers(hs).contains(m));
                    assert(state_modifiers(s) =~= Seq::<Seq<char>>::empty());
                }
            },
        },
        Err(_) => {},
    }
}

/// The identifiers of the contracts among the children of a root.
pub open spec fn child_ids(kids: Seq<SpecHir>) -> Seq<Seq<char>>
    decreases kids.len(),
{
    if kids.len() == 0 {
        Seq::empty()
    } else {
        child_ids(kids.drop_last()) + match kids.last() {
            SpecHir::Contract(id, _) => seq![id],
            _ => Seq::empty(),
        }
    }
}

/// The identifiers of the contracts of the roots `hs`, in order.
pub open spec fn roots_ids(hs: Seq<SpecHir>) -> Seq<Seq<char>>
    decreases hs.len(),
{
    if hs.len() == 0 {
        Seq::empty()
    } else {
        roots_ids(hs.drop_last()) + match hs.last() {
            SpecHir::Root(kids) => child_ids(kids),
            _ => Seq::empty(),
        }
    }
}

/// Identifiers that all name the same contract.
pub open spec fn names_agree(ids: Seq<Seq<char>>) -> bool {
    forall|i: int, j: int|
        0 <= i < ids.len() && 0 <= j < ids.len() ==> #[trigger] contract_name_of(ids[i]) == #[trigger] contract_name_of(ids[j])
}

/// Identifiers that all have a contract name.
pub open spec fn all_named(ids: Seq<Seq<char>>) -> bool {
    forall|i: int| 0 <= i < ids.len() ==> #[trigger] contract_name_of(ids[i]) is Some
}

/// A combination state that has taken in the contracts `ids`: their common
/// name is the name of its contract.
pub open spec fn state_named(st: CombineState, ids: Seq<Seq<char>>) -> bool {
    match st.contract {
        None => ids.len() == 0,
        Some((n, _)) => ids.len() > 0 && contract_name_of(ids[0]) == Some(n) && names_agree(ids),
    }
}

proof fn lemma_children_names(st: CombineState, before: Seq<Seq<char>>, kids: Seq<SpecHir>)
    requires
        all_named(before + child_ids(kids)),
        state_named(st, before),
    ensures
        (combine_children(st, kids) is Ok) == names_agree(before + child_ids(kids)),
        combine_children(st, kids) matches Ok(s) ==> state_named(s, before + child_ids(kids)),
    decreases kids.len(),
{
    if kids.len() == 0 {
        assert(before + child_ids(kids) =~= before);
    } else {
        let l0 = before + child_ids(kids.drop_last());
        let l = before + child_ids(kids);
        assert(all_named(l0)) by {
            assert forall|i: int| 0 <= i < l0.len() implies #[trigger] contract_name_of(l0[i]) is Some by {
                assert(l0[i] == l[i]);
            }
        }
        lemma_children_names(st, before, kids.drop_last());
        match kids.last() {
            SpecHir::Contract(id, ks) => {
                assert(l =~= l0.push(id));
                assert(contract_name_of(l[l0.len() as int]) is Some);
                match combine_children(st, kids.drop_last()) {
                    Err(_) => {
                        assert(!names_agree(l)) by {
                            let (i, j) = choose|i: int, j: int|
                                0 <= i < l0.len() && 0 <= j < l0.len() && contract_name_of(l0[i]) != contract_name_of(l0[j]);
                            assert(l[i] == l0[i] && l[j] == l0[j]);
                        }
                    },
                    Ok(s) => {
                        match s.contract {
                            None => {
                                assert(l =~= seq![id]);
                            },
                            Some((n, out)) => {
                                let f = contract_name_of(id)->Some_0;
                                if f != n {
                                    assert(!names_agree(l)) by {
                                        assert(contract_name_of(l[0]) != contract_name_of(l[l0.len() as int]));
                                    }
                                } else {
                                    assert(names_agree(l)) by {
                                        assert forall|i: int, j: int| 0 <= i < l.len() && 0 <= j < l.len() implies #[trigger] contract_name_of(l[i]) == #[trigger] contract_name_of(l[j]) by {
                                            if i < l0.len() {
                                                assert(contract_name_of(l0[i]) == contract_name_of(l0[0]));
                                            }
                                            if j < l0.len() {
                                                assert(contract_name_of(l0[j]) == contract_name_of(l0[0]));
                                            }
                                        }
                                    }
                                }
                            },
                        }
                    },
                }
            },
            _ => {
                assert(l =~= l0);
            },
        }
    }
}

proof fn lemma_roots_names(hs: Seq<SpecHir>)
    requires
        all_named(roots_ids(hs)),
    ensures
        (combine_roots(hs) is Ok) == names_agree(roots_ids(hs)),
        combine_roots(hs) matches Ok(s) ==> state_named(s, roots_ids(hs)),
    decreases hs.len(),
{
    if hs.len() > 0 {
        let l0 = roots_ids(hs.drop_last());
        let l = roots_ids(hs);
        assert(all_named(l0)) by {
            assert forall|i: int| 0 <= i < l0.len() implies #[trigger] contract_name_of(l0[i]) is Some by {
                assert(l0[i] == l[i]);
            }
        }
        lemma_roots_names(hs.drop_last());
        match combine_roots(hs.drop_last()) {
            Err(_) => {
                assert(!names_agree(l)) by {
                    let (i, j) = choose|i: int, j: int|
                        0 <= i < l0.len() && 0 <= j < l0.len() && contract_name_of(l0[i]) != contract_name_of(l0[j]);
                    assert(l[i] == l0[i] && l[j] == l0[j]);
                }
            },
            Ok(s) => match hs.last() {
                SpecHir::Root(kids) => {
                    lemma_children_names(s, l0, kids);
                },
                _ => {
                    assert(l =~= l0);
                },
            },
        }
    } else {
        assert(roots_ids(hs) =~= Seq::<Seq<char>>::empty());
    }
}

/// All trees must name the same contract: when every root names a contract,
/// combining succeeds exactly when the names agree, and the combined
/// contract has that name.
pub proof fn law_combine_names_agree(hs: Seq<SpecHir>)
    requires
        all_named(roots_ids(hs)),
    ensures
        (combined(hs) is Ok) == names_agree(roots_ids(hs)),
        combined(hs) matches Ok(SpecHir::Root(kids)) ==> (kids.len() == 0) == (roots_ids(hs).len() == 0)
            && forall|k: int| 0 <= k < kids.len() ==> (#[trigger] kids[k] matches SpecHir::Contract(n, _)
            && forall|i: int| 0 <= i < roots_ids(hs).len() ==> #[trigger] contract_name_of(roots_ids(hs)[i]) == Some(n)),
{
    lemma_roots_names(hs);
    if let Ok(s) = combine_roots(hs) {
        if let Some((n, k)) = s.contract {
            let l = roots_ids(hs);
            assert forall|i: int| 0 <= i < l.len() implies #[trigger] contract_name_of(l[i]) == Some(n) by {
                assert(contract_name_of(l[i]) == contract_name_of(l[0]));
            }
        }
    }
}

/// The contract name of a root identifier, or the empty name when it has
/// none.
pub open spec fn name_or_empty(id: Seq<char>) -> Seq<char> {
    match contract_name_of(id) {
        Some(n) => n,
        None => Seq::empty(),
    }
}

/// Whether the identifier at index `k` of `ids`, after the first, names
/// another contract than the first.
pub open spec fn mismatch_at(ids: Seq<Seq<char>>, k: int) -> bool {
    0 < k < ids.len() && name_or_empty(ids[k]) != name_or_empty(ids[0])
}

/// The index of the first identifier of `ids` that names another contract
/// than the first, if any.
pub open spec fn first_mismatch(ids: Seq<Seq<char>>) -> Option<int>
    decreases ids.len(),
{
    if ids.len() == 0 {
        None
    } else {
        match first_mismatch(ids.drop_last()) {
            Some(k) => Some(k),
            None => if mismatch_at(ids, ids.len() - 1) {
                Some(ids.len() - 1)
            } else {
                None
            },
        }
    }
}

/// The error of combining at the mismatching identifier `k` of `ids`.
pub open spec fn mismatch_error(ids: Seq<Seq<char>>, k: int) -> SpecError {
    SpecError { text: ids[k], found: name_or_empty(ids[k]), expected: name_or_empty(ids[0]) }
}

/// A combination state that has taken in the contracts `ids` without a
/// mismatch.
pub open spec fn state_took(st: CombineState, ids: Seq<Seq<char>>) -> bool {
    &&& first_mismatch(ids) is None
    &&& match st.contract {
        None => ids.len() == 0,
        Some((n, _)) => ids.len() > 0 && name_or_empty(ids[0]) == n,
    }
}

proof fn lemma_first_mismatch_least(ids: Seq<Seq<char>>)
    ensures
        first_mismatch(ids) matches Some(k) ==> mismatch_at(ids, k) && forall|j: int|
            0 < j < k ==> !mismatch_at(ids, j),
        first_mismatch(ids) is None ==> forall|j: int| 0 < j < ids.len() ==> !mismatch_at(ids, j),
    decreases ids.len(),
{
    if ids.len() > 0 {
        let dl = ids.drop_last();
        lemma_first_mismatch_least(dl);
        assert forall|j: int| 0 < j < dl.len() implies mismatch_at(ids, j) == mismatch_at(dl, j) by {
            assert(dl[j] == ids[j] && dl[0] == ids[0]);
        }
    }
}

proof fn lemma_children_mismatch(st: CombineState, before: Seq<Seq<char>>, kids: Seq<SpecHir>)
    requires
        state_took(st, before),
        (before + child_ids(kids)).len() > 0 ==> contract_name_of((before + child_ids(kids))[0]) is Some,
    ensures
        match combine_children(st, kids) {
            Ok(s) => state_took(s, before + child_ids(kids)),
            Err(e) => first_mismatch(before + child_ids(kids)) matches Some(k) && e == mismatch_error(
                before + child_ids(kids),
                k,
            ),
        },
    decreases kids.len(),
{
    let l = before + child_ids(kids);
    if kids.len() == 0 {
        assert(l =~= before);
    } else {
        let l0 = before + child_ids(kids.drop_last());
        if l0.len() > 0 {
            assert(l0[0] == l[0]);
        }
        lemma_children_mismatch(st, before, kids.drop_last());
        match kids.last() {
            SpecHir::Contract(id, ks) => {
                assert(l =~= l0.push(id));
                assert(l.drop_last() =~= l0);
                if l0.len() > 0 {
                    assert(l[0] == l0[0]);
                }
                match combine_children(st, kids.drop_last()) {
                    Err(e) => {
                        lemma_first_mismatch_prefix(l0, seq![id]);
                        assert(l =~= l0 + seq![id]);
                        assert(combine_children(st, kids) == Err::<CombineState, SpecError>(e));
                    },
                    Ok(s) => {
                        assert(first_mismatch(l) == (if mismatch_at(l, l.len() - 1) {
                            Some(l.len() - 1)
                        } else {
                            None
                        }));
                        match s.contract {
                            None => {
                                assert(l0.len() == 0);
                                assert(l.len() == 1);
                                assert(l[0] == id);
                                assert(combine_children(st, kids) == absorb(s, id, ks));
                            },
                            Some((n, out)) => {
                                assert(l[l.len() - 1] == id);
                                assert(mismatch_at(l, l.len() - 1) == (name_or_empty(id) != n));
                                assert(combine_children(st, kids) == absorb(s, id, ks));
                            },
                        }
                    },
                }
            },
            _ => {
                assert(l =~= l0);
            },
        }
    }
}

proof fn lemma_roots_mismatch(hs: Seq<SpecHir>)
    requires
        roots_ids(hs).len() > 0 ==> contract_name_of(roots_ids(hs)[0]) is Some,
    ensures
        match combine_roots(hs) {
            Ok(s) => state_took(s, roots_ids(hs)),
            Err(e) => first_mismatch(roots_ids(hs)) matches Some(k) && e == mismatch_error(roots_ids(hs), k),
        },
    decreases hs.len(),
{
    if hs.len() == 0 {
        assert(first_mismatch(roots_ids(hs)) is None);
    } else {
        let dl = hs.drop_last();
        let l0 = roots_ids(dl);
        let l = roots_ids(hs);
        if l0.len() > 0 {
            assert(l[0] == l0[0]);
        }
        lemma_roots_mismatch(dl);
        match combine_roots(dl) {
            Err(e) => {
                match hs.last() {
                    SpecHir::Root(kids) => lemma_first_mismatch_prefix(l0, child_ids(kids)),
                    _ => assert(l =~= l0),
                }
            },
            Ok(s) => match hs.last() {
                SpecHir::Root(kids) => lemma_children_mismatch(s, l0, kids),
                _ => assert(l =~= l0),
            },
        }
    }
}

proof fn lemma_first_mismatch_prefix(a: Seq<Seq<char>>, b: Seq<Seq<char>>)
    requires
        first_mismatch(a) is Some,
    ensures
        first_mismatch(a + b) == first_mismatch(a),
        first_mismatch(a) matches Some(k) ==> mismatch_error(a + b, k) == mismatch_error(a, k),
    decreases b.len(),
{
    lemma_first_mismatch_least(a);
    if b.len() == 0 {
        assert(a + b =~= a);
    } else {
        lemma_first_mismatch_prefix(a, b.drop_last());
        assert((a + b).drop_last() =~= a + b.drop_last());
    }
    let k = first_mismatch(a)->Some_0;
    assert((a + b)[k] == a[k] && (a + b)[0] == a[0]);
}

/// Combining stops at the first tree whose contract name differs from
/// that of the first tree (which must have one): it succeeds exactly when
/// there is no such tree, and otherwise reports that tree's root
/// identifier and contract name (empty when it has none) with the first
/// tree's contract name as the expected one.
pub proof fn law_combine_first_mismatch(hs: Seq<SpecHir>)
    requires
        roots_ids(hs).len() > 0 ==> contract_name_of(roots_ids(hs)[0]) is Some,
    ensures
        (combined(hs) is Ok) == forall|j: int| 0 < j < roots_ids(hs).len() ==> !mismatch_at(roots_ids(hs), j),
        combined(hs) matches Err(e) ==> exists|k: int|
            #![trigger mismatch_at(roots_ids(hs), k)]
            mismatch_at(roots_ids(hs), k) && (forall|j: int| 0 < j < k ==> !mismatch_at(roots_ids(hs), j))
                && e == mismatch_error(roots_ids(hs), k),
{
    lemma_roots_mismatch(hs);
    lemma_first_mismatch_least(roots_ids(hs));
    let l = roots_ids(hs);
    if let Some(k) = first_mismatch(l) {
        assert(mismatch_at(l, k));
        assert(!(forall|j: int| 0 < j < l.len() ==> !mismatch_at(l, j)));
    }
}

/// A combiner of the HIRs of the trees of one file.
pub struct Combiner;

impl Combiner {
    /// Creates a new combiner.
    pub fn new() -> (res: Self) {
        Combiner
    }

    /// Combines the HIRs into one: a root that holds the contract of the
    /// first tree, to which the functions of the contracts of the other
    /// trees are appended, without duplicate modifiers. Every tree must
    /// name the same contract.
    #[verifier::rlimit(30)]
    pub fn combine(&self, hirs: &Vec<Hir>) -> (res: Result<Hir, Error>)
        requires
            combinable(hirs_view(hirs@)),
        ensures
            match res {
                Ok(h) => combined(hirs_view(hirs@)) == Ok::<SpecHir, SpecError>(h@),
                Err(e) => combined(hirs_view(hirs@)) == Err::<SpecHir, SpecError>(
                    SpecError {
                        text: e.text@,
                        found: e.kind->ContractNameMismatch_0@,
                        expected: e.kind->ContractNameMismatch_1@,
                    },
                ) && e.span == Span::zero_spec() && e.kind is ContractNameMismatch,
            },
    {
        proof {
            lemma_hirs_view(hirs@);
        }
        let ghost hv = hirs_view(hirs@);
        let mut name: Option<String> = None;
        let mut out: Vec<Hir> = Vec::new();
        let mut added: Vec<String> = Vec::new();
        let mut i: usize = 0;
        assert(hv.take(0) =~= Seq::<SpecHir>::empty());
        assert(hv.skip(0) =~= hv);
        assert(strings_view(added@) =~= Seq::<Seq<char>>::empty());
        while i < hirs.len()
            invariant
                hv == hirs_view(hirs@),
                combinable(hv),
                i <= hirs@.len(),
                hv.len() == hirs@.len(),
                forall|j: int| 0 <= j < hirs@.len() ==> #[trigger] hv[j] == hirs@[j]@,
                combine_roots(hv.take(i as int)) == Ok::<CombineState, SpecError>(state_of(name, out@, added@)),
                name is None ==> first_contract_id(hv) == first_contract_id(hv.skip(i as int)),
                hv.skip(0) == hv,
            decreases hirs@.len() - i,
        {
            assert(hv.take(i + 1).drop_last() =~= hv.take(i as int));
            assert(hv.take(i + 1).last() == hirs@[i as int]@);
            assert(hv[i as int] is Root);
            match &hirs[i] {
                Hir::Root(r) => {
                    proof {
                        lemma_first_contract_id_step(hv, i as int);
                    }
                    let ghost was_none = name is None;
                    match combine_root_children(&r.children, &mut name, &mut out, &mut added) {
                        Err(e) => {
                            proof {
                                lemma_roots_err(hv, i + 1, error_view(e));
                            }
                            return Err(e);
                        },
                        Ok(()) => {},
                    }
                },
                _ => {},
            }
            i = i + 1;
        }
        assert(hv.take(hirs@.len() as int) =~= hv);
        let mut children: Vec<Hir> = Vec::new();
        match name {
            Some(n) => {
                let ghost ov = hirs_view(out@);
                let c = Hir::ContractDefinition(ContractDefinition { identifier: n, children: out });
                proof {
                    lemma_hirs_view_push(children@, c);
                }
                children.push(c);
            },
            None => {},
        }
        Ok(Hir::Root(Root { children }))
    }
}

} // verus!
