//! A high-level intermediate representation (HIR) of the Solidity that
//! `bulloak` emits.
use vstd::prelude::*;

use crate::span::Span;

verus! {

/// A HIR node.
#[derive(Debug, PartialEq, Eq)]
pub enum Hir {
    /// The root: a file boundary. There is one root in any HIR.
    Root(Root),
    /// A contract definition.
    ContractDefinition(ContractDefinition),
    /// A function definition.
    FunctionDefinition(FunctionDefinition),
    /// A comment.
    Comment(Comment),
}

/// The root HIR node.
#[derive(Debug, Default, PartialEq, Eq)]
pub struct Root {
    /// The children of this node.
    pub children: Vec<Hir>,
}

/// A contract definition HIR node.
#[derive(Debug, Default, PartialEq, Eq)]
pub struct ContractDefinition {
    /// The contract name.
    pub identifier: String,
    /// The children of this node.
    pub children: Vec<Hir>,
}

/// A function's type: a test function or a modifier.
#[derive(Debug, Clone, Copy, PartialEq, Eq, Structural)]
pub enum FunctionTy {
    /// `function`
    Function,
    /// `modifier`
    Modifier,
}

/// A function definition HIR node.
#[derive(Debug, PartialEq, Eq)]
pub struct FunctionDefinition {
    /// The function name.
    pub identifier: String,
    /// The type of this function.
    pub ty: FunctionTy,
    /// The span of the branch that generated this function.
    pub span: Span,
    /// The modifiers applied to this function; `None` for modifiers and for
    /// functions that have none.
    pub modifiers: Option<Vec<String>>,
    /// The children of this node.
    pub children: Option<Vec<Hir>>,
}

/// A comment node.
#[derive(Debug, Clone, Default, PartialEq, Eq)]
pub struct Comment {
    /// The text of the comment.
    pub lexeme: String,
}

/// A function definition as a mathematical value.
pub struct SpecFunction {
    /// The function name.
    pub identifier: Seq<char>,
    /// The type of the function.
    pub ty: FunctionTy,
    /// The span of the branch that generated the function.
    pub span: Span,
    /// The modifiers applied to the function.
    pub modifiers: Option<Seq<Seq<char>>>,
    /// The children of the function.
    pub children: Option<Seq<SpecHir>>,
}

/// A HIR as a mathematical value.
pub enum SpecHir {
    /// The root.
    Root(Seq<SpecHir>),
    /// A contract: identifier and children.
    Contract(Seq<char>, Seq<SpecHir>),
    /// A function definition.
    Function(SpecFunction),
    /// A comment.
    Comment(Seq<char>),
}

/// The mathematical values of a sequence of strings.
pub open spec fn strings_view(s: Seq<String>) -> Seq<Seq<char>> {
    Seq::new(s.len(), |i: int| s[i]@)
}

/// The mathematical value of a function definition.
pub open spec fn function_view(f: FunctionDefinition) -> SpecFunction
    decreases f,
{
    SpecFunction {
        identifier: f.identifier@,
        ty: f.ty,
        span: f.span,
        modifiers: match f.modifiers {
            Some(m) => Some(strings_view(m@)),
            None => None,
        },
        children: match f.children {
            Some(c) => Some(hirs_view(c@)),
            None => None,
        },
    }
}

/// The mathematical value of a HIR.
pub open spec fn hir_view(h: Hir) -> SpecHir
    decreases h,
{
    match h {
        Hir::Root(r) => SpecHir::Root(hirs_view(r.children@)),
        Hir::ContractDefinition(c) => SpecHir::Contract(c.identifier@, hirs_view(c.children@)),
        Hir::FunctionDefinition(f) => SpecHir::Function(function_view(f)),
        Hir::Comment(c) => SpecHir::Comment(c.lexeme@),
    }
}

/// The mathematical values of a sequence of HIRs.
pub open spec fn hirs_view(s: Seq<Hir>) -> Seq<SpecHir>
    decreases s,
{
    if s.len() == 0 {
        Seq::empty()
    } else {
        hirs_view(s.drop_last()).push(hir_view(s.last()))
    }
}

impl View for Hir {
    type V = SpecHir;

    open spec fn view(&self) -> SpecHir {
        hir_view(*self)
    }
}

/// The views of a sequence of HIRs are those of its members.
pub proof fn lemma_hirs_view(s: Seq<Hir>)
    ensures
        hirs_view(s).len() == s.len(),
        forall|j: int| 0 <= j < s.len() ==> #[trigger] hirs_view(s)[j] == s[j]@,
    decreases s.len(),
{
    if s.len() > 0 {
        lemma_hirs_view(s.drop_last());
    }
}

/// The views of a sequence with one more HIR.
pub proof fn lemma_hirs_view_push(s: Seq<Hir>, h: Hir)
    ensures
        hirs_view(s.push(h)) == hirs_view(s).push(h@),
{
    assert(s.push(h).drop_last() =~= s);
}

/// The views of two joined sequences of HIRs.
pub proof fn lemma_hirs_view_append(a: Seq<Hir>, b: Seq<Hir>)
    ensures
        hirs_view(a + b) == hirs_view(a) + hirs_view(b),
    decreases b.len(),
{
    if b.len() == 0 {
        assert(a + b =~= a);
        assert(hirs_view(a) + hirs_view(b) =~= hirs_view(a));
    } else {
        lemma_hirs_view_append(a, b.drop_last());
        assert((a + b).drop_last() =~= a + b.drop_last());
        assert(hirs_view(a) + hirs_view(b.drop_last()).push(hir_view(b.last())) =~= (hirs_view(a)
            + hirs_view(b.drop_last())).push(hir_view(b.last())));
    }
}

/// A copy of a vector of strings.
pub fn copy_strings(v: &Vec<String>) -> (res: Vec<String>)
    ensures
        strings_view(res@) == strings_view(v@),
{
    let mut res: Vec<String> = Vec::new();
    let mut i: usize = 0;
    while i < v.len()
        invariant
            i <= v@.len(),
            res@.len() == i,
            forall|k: int| 0 <= k < i ==> #[trigger] res@[k]@ == v@[k]@,
        decreases v@.len() - i,
    {
        let ghost before = res@;
        let x = v[i].clone();
        res.push(x);
        assert(res@ =~= before.push(x));
        i = i + 1;
    }
    assert(strings_view(res@) =~= strings_view(v@));
    res
}

/// A copy of a HIR.
pub fn copy_hir(h: &Hir) -> (res: Hir)
    ensures
        res@ == h@,
    decreases h,
{
    match h {
        Hir::Root(r) => Hir::Root(Root { children: copy_hirs(&r.children) }),
        Hir::ContractDefinition(c) => Hir::ContractDefinition(
            ContractDefinition { identifier: c.identifier.clone(), children: copy_hirs(&c.children) },
        ),
        Hir::FunctionDefinition(f) => {
            let modifiers = match &f.modifiers {
                Some(m) => Some(copy_strings(m)),
                None => None,
            };
            let children = match &f.children {
                Some(c) => Some(copy_hirs(c)),
                None => None,
            };
            Hir::FunctionDefinition(
                FunctionDefinition {
                    identifier: f.identifier.clone(),
                    ty: f.ty,
                    span: f.span,
                    modifiers,
                    children,
                },
            )
        },
        Hir::Comment(c) => Hir::Comment(Comment { lexeme: c.lexeme.clone() }),
    }
}

/// A copy of a function definition.
pub fn copy_function(f: &FunctionDefinition) -> (res: FunctionDefinition)
    ensures
        function_view(res) == function_view(*f),
{
    let modifiers = match &f.modifiers {
        Some(m) => Some(copy_strings(m)),
        None => None,
    };
    let children = match &f.children {
        Some(c) => Some(copy_hirs(c)),
        None => None,
    };
    FunctionDefinition { identifier: f.identifier.clone(), ty: f.ty, span: f.span, modifiers, children }
}

/// A copy of a vector of HIRs.
pub fn copy_hirs(v: &Vec<Hir>) -> (res: Vec<Hir>)
    ensures
        hirs_view(res@) == hirs_view(v@),
    decreases v,
{
    proof {
        lemma_hirs_view(v@);
    }
    let mut res: Vec<Hir> = Vec::new();
    let mut i: usize = 0;
    assert(hirs_view(v@).take(0) =~= Seq::<SpecHir>::empty());
    while i < v.len()
        invariant
            i <= v@.len(),
            hirs_view(v@).len() == v@.len(),
            forall|j: int| 0 <= j < v@.len() ==> #[trigger] hirs_view(v@)[j] == v@[j]@,
            hirs_view(res@) == hirs_view(v@).take(i as int),
        decreases v@.len() - i,
    {
        let h = copy_hir(&v[i]);
        proof {
            lemma_hirs_view_push(res@, h);
        }
        res.push(h);
        i = i + 1;
        assert(hirs_view(res@) =~= hirs_view(v@).take(i as int));
    }
    assert(hirs_view(v@).take(v@.len() as int) =~= hirs_view(v@));
    res
}

impl Default for Hir {
    fn default() -> (res: Self)
        ensures
            res@ == SpecHir::Root(Seq::empty()),
    {
        Hir::Root(Root { children: Vec::new() })
    }
}

impl Default for FunctionTy {
    fn default() -> (res: Self)
        ensures
            res == FunctionTy::Function,
    {
        FunctionTy::Function
    }
}

impl FunctionDefinition {
    /// Whether this function is a modifier.
    pub fn is_modifier(&self) -> (res: bool)
        ensures
            res == (self.ty == FunctionTy::Modifier),
    {
        match self.ty {
            FunctionTy::Modifier => true,
            FunctionTy::Function => false,
        }
    }

    /// Whether the function's type is `Modifier`.
    pub fn is_function(&self) -> (res: bool)
        ensures
            res == (self.ty == FunctionTy::Modifier),
    {
        match self.ty {
            FunctionTy::Modifier => true,
            FunctionTy::Function => false,
        }
    }
}

/// The first contract among the children of a root.
pub open spec fn first_contract(kids: Seq<SpecHir>) -> Option<(Seq<char>, Seq<SpecHir>)>
    decreases kids.len(),
{
    if kids.len() == 0 {
        None
    } else if kids[0] is Contract {
        Some((kids[0]->Contract_0, kids[0]->Contract_1))
    } else {
        first_contract(kids.drop_first())
    }
}

impl Root {
    /// The first contract definition among the children of this root.
    pub fn find_contract(&self) -> (res: Option<&ContractDefinition>)
        ensures
            match res {
                Some(c) => first_contract(hirs_view(self.children@)) == Some(
                    (c.identifier@, hirs_view(c.children@)),
                ),
                None => first_contract(hirs_view(self.children@)) is None,
            },
    {
        proof {
            lemma_hirs_view(self.children@);
        }
        let mut i: usize = 0;
        assert(hirs_view(self.children@).skip(0) =~= hirs_view(self.children@));
        while i < self.children.len()
            invariant
                i <= self.children@.len(),
                hirs_view(self.children@).len() == self.children@.len(),
                forall|j: int| 0 <= j < self.children@.len() ==> #[trigger] hirs_view(self.children@)[j] == self.children@[j]@,
                first_contract(hirs_view(self.children@)) == first_contract(hirs_view(self.children@).skip(i as int)),
            decreases self.children@.len() - i,
        {
            let ghost v = hirs_view(self.children@);
            assert(v.skip(i as int).drop_first() =~= v.skip(i + 1));
            assert(v.skip(i as int)[0] == v[i as int]);
            if let Hir::ContractDefinition(c) = &self.children[i] {
                return Some(c);
            }
            i = i + 1;
        }
        assert(hirs_view(self.children@).skip(i as int) =~= Seq::<SpecHir>::empty());
        None
    }
}

impl Hir {
    /// The contract of this HIR: itself if it is one, the first contract of
    /// a root, `None` otherwise.
    pub fn find_contract(&self) -> (res: Option<&ContractDefinition>)
        ensures
            match self@ {
                SpecHir::Root(kids) => match res {
                    Some(c) => first_contract(kids) == Some((c.identifier@, hirs_view(c.children@))),
                    None => first_contract(kids) is None,
                },
                SpecHir::Contract(id, kids) => res matches Some(c) && c.identifier@ == id
                    && hirs_view(c.children@) == kids,
                _ => res is None,
            },
    {
        match self {
            Hir::Root(root) => root.find_contract(),
            Hir::ContractDefinition(contract) => Some(contract),
            _ => None,
        }
    }
}

} // verus!
