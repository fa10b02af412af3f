//! The emission of Solidity code from a HIR.
use vstd::prelude::*;

use crate::hir::hir::{
    function_view, hirs_view, lemma_hirs_view, strings_view, ContractDefinition, FunctionDefinition,
    FunctionTy, Hir, SpecFunction, SpecHir,
};
use crate::text::{pop_char, push_str};
use crate::utils::{repeat_str, repeated, sanitize, sanitized};

verus! {

/// The indentation of `n` spaces.
pub open spec fn indentation(n: nat) -> Seq<char> {
    repeated(" "@, n)
}

/// The options of an emission as a mathematical value.
pub struct EmitOptions {
    /// Whether actions are emitted as comments.
    pub comments: bool,
    /// The indentation, as text.
    pub ind: Seq<char>,
    /// The Solidity version of the pragma.
    pub version: Seq<char>,
    /// Whether each test starts with `vm.skip(true);`, and the contracts
    /// import and inherit forge-std's `Test`.
    pub vm_skip: bool,
    /// Whether modifier definitions are left out.
    pub skip_modifiers: bool,
}

/// The options of an emitter made with `Emitter::new`.
pub open spec fn plain_options(comments: bool, indent: nat, version: Seq<char>) -> EmitOptions {
    EmitOptions { comments, ind: indentation(indent), version, vm_skip: false, skip_modifiers: false }
}

/// A modifier definition.
pub open spec fn modifier_text(ind: Seq<char>, m: Seq<char>) -> Seq<char> {
    ind + "modifier "@ + m + "() {\n"@ + ind + ind + "_;\n"@ + ind + "}\n"@ + "\n"@
}

/// The modifiers applied to a function, one per line.
pub open spec fn modifier_lines(ind2: Seq<char>, ms: Seq<Seq<char>>) -> Seq<char>
    decreases ms.len(),
{
    if ms.len() == 0 {
        Seq::empty()
    } else {
        modifier_lines(ind2, ms.drop_last()) + ind2 + ms.last() + "\n"@
    }
}

/// The header of a function: on one line when it has no modifiers,
/// otherwise with `external` and each modifier on lines of their own.
pub open spec fn fn_header_text(ind: Seq<char>, f: SpecFunction) -> Seq<char> {
    match f.modifiers {
        Some(ms) => ind + "function "@ + f.identifier + "()\n"@ + ind + ind + "external\n"@
            + modifier_lines(ind + ind, ms) + ind + "{\n"@,
        None => ind + "function "@ + f.identifier + "()"@ + " external"@ + " {\n"@,
    }
}

/// The comments among the children of a function, one per line, when
/// actions are emitted as comments; nothing otherwise.
pub open spec fn comments_text(comments: bool, ind: Seq<char>, kids: Seq<SpecHir>) -> Seq<char>
    decreases kids.len(),
{
    if kids.len() == 0 {
        Seq::empty()
    } else {
        comments_text(comments, ind, kids.drop_last()) + match kids.last() {
            SpecHir::Comment(l) => if comments {
                ind + ind + "// "@ + l + "\n"@
            } else {
                Seq::empty()
            },
            _ => Seq::empty(),
        }
    }
}

/// The first statement of a test when tests are skipped.
pub open spec fn skip_text(ind: Seq<char>, vm_skip: bool) -> Seq<char> {
    if vm_skip {
        ind + ind + "vm.skip(true);\n"@
    } else {
        Seq::empty()
    }
}

/// A function definition: a modifier, unless modifiers are left out, or a
/// test function with its header, the skip statement when tests are
/// skipped, its comments and its closing brace.
pub open spec fn function_text(o: EmitOptions, f: SpecFunction) -> Seq<char> {
    if f.ty == FunctionTy::Modifier {
        if o.skip_modifiers {
            Seq::empty()
        } else {
            modifier_text(o.ind, f.identifier)
        }
    } else {
        fn_header_text(o.ind, f) + skip_text(o.ind, o.vm_skip) + match f.children {
            Some(kids) => comments_text(o.comments, o.ind, kids),
            None => Seq::empty(),
        } + o.ind + "}\n\n"@
    }
}

/// The function definitions among the children of a contract, in order.
pub open spec fn functions_text(o: EmitOptions, kids: Seq<SpecHir>) -> Seq<char>
    decreases kids.len(),
{
    if kids.len() == 0 {
        Seq::empty()
    } else {
        functions_text(o, kids.drop_last()) + match kids.last() {
            SpecHir::Function(f) => function_text(o, f),
            _ => Seq::empty(),
        }
    }
}

/// The base of the contracts when tests are skipped.
pub open spec fn base_text(vm_skip: bool) -> Seq<char> {
    if vm_skip {
        " is Test"@
    } else {
        Seq::empty()
    }
}

/// A contract: its header and its functions, without the last newline, and
/// a closing brace.
pub open spec fn contract_text(o: EmitOptions, id: Seq<char>, kids: Seq<SpecHir>) -> Seq<char> {
    ("contract "@ + sanitized(id) + base_text(o.vm_skip) + " {\n"@ + functions_text(o, kids)).drop_last() + "}"@
}

/// The contracts among the children of a root, in order.
pub open spec fn contracts_text(o: EmitOptions, kids: Seq<SpecHir>) -> Seq<char>
    decreases kids.len(),
{
    if kids.len() == 0 {
        Seq::empty()
    } else {
        contracts_text(o, kids.drop_last()) + match kids.last() {
            SpecHir::Contract(id, ks) => contract_text(o, id, ks),
            _ => Seq::empty(),
        }
    }
}

/// The import of forge-std's `Test` when tests are skipped.
pub open spec fn import_text(vm_skip: bool) -> Seq<char> {
    if vm_skip {
        "import {Test} from \"forge-std/Test.sol\";\n\n"@
    } else {
        Seq::empty()
    }
}

/// The Solidity code of a HIR root: the version pragma, the import of
/// forge-std's `Test` when tests are skipped, and its contracts.
pub open spec fn root_text(o: EmitOptions, h: SpecHir) -> Seq<char> {
    match h {
        SpecHir::Root(kids) => "pragma solidity "@ + o.version + ";\n\n"@ + import_text(o.vm_skip)
            + contracts_text(o, kids),
        _ => Seq::empty(),
    }
}

/// `kids` without their comments.
pub open spec fn uncommented(kids: Seq<SpecHir>) -> Seq<SpecHir>
    decreases kids.len(),
{
    if kids.len() == 0 {
        kids
    } else {
        uncommented(kids.drop_last()) + match kids.last() {
            SpecHir::Comment(_) => Seq::empty(),
            k => seq![k],
        }
    }
}

/// A function without the comments among its children.
pub open spec fn bare_function(f: SpecFunction) -> SpecFunction {
    SpecFunction {
        children: match f.children {
            Some(k) => Some(uncommented(k)),
            None => None,
        },
        ..f
    }
}

/// The children of a contract, each function without its comments.
pub open spec fn bare_functions(kids: Seq<SpecHir>) -> Seq<SpecHir>
    decreases kids.len(),
{
    if kids.len() == 0 {
        kids
    } else {
        bare_functions(kids.drop_last()).push(
            match kids.last() {
                SpecHir::Function(f) => SpecHir::Function(bare_function(f)),
                k => k,
            },
        )
    }
}

/// The children of a root, each contract with functions without comments.
pub open spec fn bare_contracts(kids: Seq<SpecHir>) -> Seq<SpecHir>
    decreases kids.len(),
{
    if kids.len() == 0 {
        kids
    } else {
        bare_contracts(kids.drop_last()).push(
            match kids.last() {
                SpecHir::Contract(id, ks) => SpecHir::Contract(id, bare_functions(ks)),
                k => k,
            },
        )
    }
}

/// A HIR whose functions hold no comments.
pub open spec fn bare_hir(h: SpecHir) -> SpecHir {
    match h {
        SpecHir::Root(kids) => SpecHir::Root(bare_contracts(kids)),
        _ => h,
    }
}

pub(crate) proof fn lemma_comments_off(ind: Seq<char>, kids: Seq<SpecHir>)
    ensures
        comments_text(false, ind, kids) == Seq::<char>::empty(),
        comments_text(true, ind, uncommented(kids)) == Seq::<char>::empty(),
    decreases kids.len(),
{
    if kids.len() > 0 {
        lemma_comments_off(ind, kids.drop_last());
        let u = uncommented(kids);
        let u0 = uncommented(kids.drop_last());
        match kids.last() {
            SpecHir::Comment(_) => {
                assert(u =~= u0);
            },
            k => {
                assert(u =~= u0.push(k));
                assert(u.drop_last() =~= u0);
            },
        }
    }
}

proof fn lemma_functions_bare(o: EmitOptions, kids: Seq<SpecHir>)
    ensures
        functions_text(EmitOptions { comments: false, ..o }, kids) == functions_text(
            EmitOptions { comments: true, ..o },
            bare_functions(kids),
        ),
    decreases kids.len(),
{
    if kids.len() > 0 {
        lemma_functions_bare(o, kids.drop_last());
        let b = bare_functions(kids);
        assert(b.drop_last() =~= bare_functions(kids.drop_last()));
        if let SpecHir::Function(f) = kids.last() {
            if let Some(k) = f.children {
                lemma_comments_off(o.ind, k);
            }
        }
    }
}

proof fn lemma_contracts_bare(o: EmitOptions, kids: Seq<SpecHir>)
    ensures
        contracts_text(EmitOptions { comments: false, ..o }, kids) == contracts_text(
            EmitOptions { comments: true, ..o },
            bare_contracts(kids),
        ),
    decreases kids.len(),
{
    if kids.len() > 0 {
        lemma_contracts_bare(o, kids.drop_last());
        let b = bare_contracts(kids);
        assert(b.drop_last() =~= bare_contracts(kids.drop_last()));
        if let SpecHir::Contract(id, ks) = kids.last() {
            lemma_functions_bare(o, ks);
        }
    }
}

/// Action comments are the only difference that the comments option
/// makes: emitting without comments gives the code that emitting with
/// comments gives for the same HIR with the comments taken out of its
/// functions.
pub proof fn law_comments_only_difference(o: EmitOptions, h: SpecHir)
    ensures
        root_text(EmitOptions { comments: false, ..o }, h) == root_text(EmitOptions { comments: true, ..o }, bare_hir(h)),
{
    if let SpecHir::Root(kids) = h {
        lemma_contracts_bare(o, kids);
    }
}

/// Skipping tests puts `vm.skip(true);` at the start of every test
/// function, whatever its modifiers: its code with skipping is its code
/// without skipping with that line, indented twice, right after the header
/// (the function's name line, its `external` and modifier lines, and the
/// opening brace).
pub proof fn law_vm_skip_starts_every_test(o: EmitOptions, f: SpecFunction)
    requires
        f.ty == FunctionTy::Function,
    ensures
        ({
            let on = EmitOptions { vm_skip: true, ..o };
            let off = EmitOptions { vm_skip: false, ..o };
            let h = fn_header_text(o.ind, f);
            &&& function_text(off, f).take(h.len() as int) == h
            &&& function_text(on, f) == h + o.ind + o.ind + "vm.skip(true);\n"@ + function_text(off, f).skip(
                h.len() as int,
            )
        }),
        fn_header_text(o.ind, f).take(o.ind.len() + 9int) == o.ind + "function "@,
{
    reveal_strlit("function ");
    let on = EmitOptions { vm_skip: true, ..o };
    let off = EmitOptions { vm_skip: false, ..o };
    let h = fn_header_text(o.ind, f);
    let rest = match f.children {
        Some(kids) => comments_text(o.comments, o.ind, kids),
        None => Seq::empty(),
    } + o.ind + "}\n\n"@;
    assert(skip_text(o.ind, false) =~= Seq::<char>::empty());
    assert(function_text(off, f) =~= h + rest);
    assert(function_text(off, f).take(h.len() as int) =~= h);
    assert(function_text(off, f).skip(h.len() as int) =~= rest);
    assert(function_text(on, f) =~= h + o.ind + o.ind + "vm.skip(true);\n"@ + rest);
    match f.modifiers {
        Some(ms) => {
            assert(h.take(o.ind.len() + 9int) =~= o.ind + "function "@);
        },
        None => {
            assert(h.take(o.ind.len() + 9int) =~= o.ind + "function "@);
        },
    }
}

/// A Solidity code emitter.
pub struct Emitter<'s> {
    /// Whether actions are emitted as comments in the body of functions.
    with_actions_as_comments: bool,
    /// The indentation of the emitted code, in spaces.
    indent: usize,
    /// The Solidity version of the pragma directive.
    solidity_version: &'s str,
    /// Whether each test starts with `vm.skip(true);`, and the contracts
    /// import and inherit forge-std's `Test`.
    with_vm_skip: bool,
    /// Whether modifier definitions are left out.
    skip_modifiers: bool,
}

impl<'s> Emitter<'s> {
    /// The options of this emitter.
    pub closed spec fn options(&self) -> EmitOptions {
        EmitOptions {
            comments: self.with_actions_as_comments,
            ind: indentation(self.indent as nat),
            version: self.solidity_version@,
            vm_skip: self.with_vm_skip,
            skip_modifiers: self.skip_modifiers,
        }
    }

    /// Creates an emitter with the given options, which neither skips tests
    /// nor leaves out modifiers.
    pub fn new(with_actions_as_comments: bool, indent: usize, solidity_version: &'s str) -> (res: Self)
        ensures
            res.options() == plain_options(with_actions_as_comments, indent as nat, solidity_version@),
    {
        Emitter { with_actions_as_comments, indent, solidity_version, with_vm_skip: false, skip_modifiers: false }
    }

    /// This emitter, with tests that start with `vm.skip(true);` in
    /// contracts that inherit forge-std's `Test` when `with_vm_skip` holds.
    pub fn with_vm_skip(self, with_vm_skip: bool) -> (res: Self)
        ensures
            res.options() == (EmitOptions { vm_skip: with_vm_skip, ..self.options() }),
    {
        Emitter { with_vm_skip, ..self }
    }

    /// This emitter, leaving out modifier definitions when `skip_modifiers`
    /// holds.
    pub fn with_skip_modifiers(self, skip_modifiers: bool) -> (res: Self)
        ensures
            res.options() == (EmitOptions { skip_modifiers, ..self.options() }),
    {
        Emitter { skip_modifiers, ..self }
    }

    /// Emits the Solidity code of a HIR root whose children are contracts.
    pub fn emit(self, hir: &Hir) -> (res: String)
        requires
            hir@ is Root,
            forall|i: int| 0 <= i < hir@->Root_0.len() ==> #[trigger] hir@->Root_0[i] is Contract,
        ensures
            res@ == root_text(self.options(), hir@),
    {
        let ind = repeat_str(" ", self.indent);
        let mut res = String::new();
        match hir {
            Hir::Root(root) => {
                push_str(&mut res, "pragma solidity ");
                push_str(&mut res, self.solidity_version);
                push_str(&mut res, ";\n\n");
                if self.with_vm_skip {
                    push_str(&mut res, "import {Test} from \"forge-std/Test.sol\";\n\n");
                }
                let ghost before = res@;
                let kids = &root.children;
                proof {
                    lemma_hirs_view(kids@);
                }
                let ghost kv = hirs_view(kids@);
                let mut i: usize = 0;
                assert(kv.take(0) =~= Seq::<SpecHir>::empty());
                while i < kids.len()
                    invariant
                        kv == hirs_view(kids@),
                        i <= kids@.len(),
                        kv.len() == kids@.len(),
                        forall|j: int| 0 <= j < kids@.len() ==> #[trigger] kv[j] == kids@[j]@,
                        ind@ == self.options().ind,
                        res@ == before + contracts_text(self.options(), kv.take(i as int)),
                    decreases kids@.len() - i,
                {
                    assert(kv.take(i + 1).drop_last() =~= kv.take(i as int));
                    assert(kv.take(i + 1).last() == kids@[i as int]@);
                    if let Hir::ContractDefinition(c) = &kids[i] {
                        let t = self.emit_contract(ind.as_str(), c);
                        push_str(&mut res, t.as_str());
                    }
                    i = i + 1;
                }
                assert(kv.take(kids@.len() as int) =~= kv);
            },
            _ => {},
        }
        res
    }

    /// Emits a function definition.
    pub(crate) fn emit_function(&self, ind: &str, f: &FunctionDefinition) -> (res: String)
        requires
            ind@ == self.options().ind,
        ensures
            res@ == function_text(self.options(), function_view(*f)),
    {
        if f.is_modifier() {
            if self.skip_modifiers {
                String::new()
            } else {
                emit_modifier(ind, f.identifier.as_str())
            }
        } else {
            let mut res = emit_fn_header(ind, f);
            if self.with_vm_skip {
                push_str(&mut res, ind);
                push_str(&mut res, ind);
                push_str(&mut res, "vm.skip(true);\n");
            }
            if let Some(kids) = &f.children {
                let t = emit_comments(self.with_actions_as_comments, ind, kids);
                push_str(&mut res, t.as_str());
            }
            push_str(&mut res, ind);
            push_str(&mut res, "}\n\n");
            res
        }
    }

    /// Emits a contract definition.
    fn emit_contract(&self, ind: &str, c: &ContractDefinition) -> (res: String)
        requires
            ind@ == self.options().ind,
        ensures
            res@ == contract_text(self.options(), c.identifier@, hirs_view(c.children@)),
    {
        let kids = &c.children;
        proof {
            lemma_hirs_view(kids@);
        }
        let ghost kv = hirs_view(kids@);
        let mut res = String::new();
        push_str(&mut res, "contract ");
        let name = sanitize(c.identifier.as_str());
        push_str(&mut res, name.as_str());
        if self.with_vm_skip {
            push_str(&mut res, " is Test");
        }
        push_str(&mut res, " {\n");
        let ghost before = res@;
        let mut i: usize = 0;
        assert(kv.take(0) =~= Seq::<SpecHir>::empty());
        while i < kids.len()
            invariant
                kv == hirs_view(kids@),
                i <= kids@.len(),
                kv.len() == kids@.len(),
                forall|j: int| 0 <= j < kids@.len() ==> #[trigger] kv[j] == kids@[j]@,
                ind@ == self.options().ind,
                res@ == before + functions_text(self.options(), kv.take(i as int)),
            decreases kids@.len() - i,
        {
            assert(kv.take(i + 1).drop_last() =~= kv.take(i as int));
            assert(kv.take(i + 1).last() == kids@[i as int]@);
            if let Hir::FunctionDefinition(f) = &kids[i] {
                let t = self.emit_function(ind, f);
                push_str(&mut res, t.as_str());
            }
            i = i + 1;
        }
        assert(kv.take(kids@.len() as int) =~= kv);
        assert(res@ == "contract "@ + sanitized(c.identifier@) + base_text(self.with_vm_skip) + " {\n"@
            + functions_text(self.options(), kv));
        assert(res@.len() > 0) by {
            reveal_strlit("contract ");
        }
        pop_char(&mut res);
        push_str(&mut res, "}");
        res
    }
}

/// Emits a modifier definition.
fn emit_modifier(ind: &str, modifier: &str) -> (res: String)
    ensures
        res@ == modifier_text(ind@, modifier@),
{
    let mut res = String::new();
    push_str(&mut res, ind);
    push_str(&mut res, "modifier ");
    push_str(&mut res, modifier);
    push_str(&mut res, "() {\n");
    push_str(&mut res, ind);
    push_str(&mut res, ind);
    push_str(&mut res, "_;\n");
    push_str(&mut res, ind);
    push_str(&mut res, "}\n");
    push_str(&mut res, "\n");
    res
}

/// Emits the header of a function.
fn emit_fn_header(ind: &str, f: &FunctionDefinition) -> (res: String)
    ensures
        res@ == fn_header_text(ind@, function_view(*f)),
{
    let mut res = String::new();
    push_str(&mut res, ind);
    push_str(&mut res, "function ");
    push_str(&mut res, f.identifier.as_str());
    match &f.modifiers {
        Some(ms) => {
            push_str(&mut res, "()\n");
            push_str(&mut res, ind);
            push_str(&mut res, ind);
            push_str(&mut res, "external\n");
            let ghost before = res@;
            let ghost sv = strings_view(ms@);
            let mut i: usize = 0;
            assert(sv.take(0) =~= Seq::<Seq<char>>::empty());
            while i < ms.len()
                invariant
                    sv == strings_view(ms@),
                    i <= ms@.len(),
                    res@ == before + modifier_lines(ind@ + ind@, sv.take(i as int)),
                decreases ms@.len() - i,
            {
                assert(sv.take(i + 1).drop_last() =~= sv.take(i as int));
                assert(sv.take(i + 1).last() == ms@[i as int]@);
                push_str(&mut res, ind);
                push_str(&mut res, ind);
                push_str(&mut res, ms[i].as_str());
                push_str(&mut res, "\n");
                i = i + 1;
            }
            assert(sv.take(ms@.len() as int) =~= sv);
            push_str(&mut res, ind);
            push_str(&mut res, "{\n");
        },
        None => {
            push_str(&mut res, "()");
            push_str(&mut res, " external");
            push_str(&mut res, " {\n");
        },
    }
    res
}

/// Emits the comments among the children of a function.
fn emit_comments(comments: bool, ind: &str, kids: &Vec<Hir>) -> (res: String)
    ensures
        res@ == comments_text(comments, ind@, hirs_view(kids@)),
{
    proof {
        lemma_hirs_view(kids@);
    }
    let ghost kv = hirs_view(kids@);
    let mut res = String::new();
    let mut i: usize = 0;
    assert(kv.take(0) =~= Seq::<SpecHir>::empty());
    while i < kids.len()
        invariant
            kv == hirs_view(kids@),
            i <= kids@.len(),
            kv.len() == kids@.len(),
            forall|j: int| 0 <= j < kids@.len() ==> #[trigger] kv[j] == kids@[j]@,
            res@ == comments_text(comments, ind@, kv.take(i as int)),
        decreases kids@.len() - i,
    {
        assert(kv.take(i + 1).drop_last() =~= kv.take(i as int));
        assert(kv.take(i + 1).last() == kids@[i as int]@);
        if let Hir::Comment(c) = &kids[i] {
            if comments {
                push_str(&mut res, ind);
                push_str(&mut res, ind);
                push_str(&mut res, "// ");
                push_str(&mut res, c.lexeme.as_str());
                push_str(&mut res, "\n");
            }
        }
        i = i + 1;
    }
    assert(kv.take(kids@.len() as int) =~= kv);
    res
}

} // verus!
