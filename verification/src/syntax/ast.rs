//! The abstract syntax tree of a bulloak tree.
use vstd::prelude::*;

use crate::span::Span;

verus! {

/// An abstract syntax tree (AST) that describes the structure of a bulloak
/// tree.
#[derive(Debug, PartialEq, Eq)]
pub enum Ast {
    /// The root node.
    Root(Root),
    /// A condition node: a junction of the tree.
    Condition(Condition),
    /// An action node: a leaf of the tree, up to its descriptions.
    Action(Action),
    /// A description of an action.
    ActionDescription(Description),
}

/// The root node of the AST.
#[derive(Debug, PartialEq, Eq)]
pub struct Root {
    /// The name that is used for the emitted contract.
    pub contract_name: String,
    /// The span that encompasses this node and its children.
    pub span: Span,
    /// The children of this node.
    pub children: Vec<Ast>,
}

/// A condition node of the AST.
#[derive(Debug, PartialEq, Eq)]
pub struct Condition {
    /// The title of this condition, e.g. "when stuff happens".
    pub title: String,
    /// The span that encompasses this node and its children.
    pub span: Span,
    /// The children of this node.
    pub children: Vec<Ast>,
}

/// An action node of the AST.
#[derive(Debug, PartialEq, Eq)]
pub struct Action {
    /// The title of this action, e.g. "it should revert".
    pub title: String,
    /// The span that encompasses this node and its descriptions.
    pub span: Span,
    /// The descriptions of this action.
    pub children: Vec<Ast>,
}

/// A description of an action.
#[derive(Debug, PartialEq, Eq)]
pub struct Description {
    /// The text of the description, indented relative to its action.
    pub text: String,
    /// The span that encompasses this node.
    pub span: Span,
}

/// An AST as a mathematical value.
pub enum SpecAst {
    /// The root node: contract name, span, children.
    Root { name: Seq<char>, span: Span, children: Seq<SpecAst> },
    /// A condition: title, span, children.
    Condition { title: Seq<char>, span: Span, children: Seq<SpecAst> },
    /// An action: title, span, descriptions.
    Action { title: Seq<char>, span: Span, children: Seq<SpecAst> },
    /// A description: text, span.
    Description { text: Seq<char>, span: Span },
}

impl SpecAst {
    /// The span of a node.
    pub open spec fn span(self) -> Span {
        match self {
            SpecAst::Root { span, .. } => span,
            SpecAst::Condition { span, .. } => span,
            SpecAst::Action { span, .. } => span,
            SpecAst::Description { span, .. } => span,
        }
    }
}

/// The mathematical value of an AST.
pub open spec fn ast_view(a: Ast) -> SpecAst
    decreases a,
{
    match a {
        Ast::Root(r) => SpecAst::Root {
            name: r.contract_name@,
            span: r.span,
            children: asts_view(r.children@),
        },
        Ast::Condition(c) => SpecAst::Condition {
            title: c.title@,
            span: c.span,
            children: asts_view(c.children@),
        },
        Ast::Action(c) => SpecAst::Action {
            title: c.title@,
            span: c.span,
            children: asts_view(c.children@),
        },
        Ast::ActionDescription(d) => SpecAst::Description { text: d.text@, span: d.span },
    }
}

/// The mathematical values of a sequence of ASTs.
pub open spec fn asts_view(s: Seq<Ast>) -> Seq<SpecAst>
    decreases s,
{
    if s.len() == 0 {
        Seq::empty()
    } else {
        asts_view(s.drop_last()).push(ast_view(s.last()))
    }
}

impl View for Ast {
    type V = SpecAst;

    open spec fn view(&self) -> SpecAst {
        ast_view(*self)
    }
}

impl Ast {
    /// The span of this node.
    pub fn span(&self) -> (res: &Span)
        ensures
            *res == self@.span(),
    {
        match self {
            Ast::Root(x) => &x.span,
            Ast::Condition(x) => &x.span,
            Ast::Action(x) => &x.span,
            Ast::ActionDescription(x) => &x.span,
        }
    }

    /// Whether this node is an action.
    pub fn is_action(&self) -> (res: bool)
        ensures
            res == (self@ is Action),
    {
        match self {
            Ast::Action(_) => true,
            _ => false,
        }
    }
}

/// The views of a sequence of ASTs are those of its members.
pub proof fn lemma_asts_view(s: Seq<Ast>)
    ensures
        asts_view(s).len() == s.len(),
        forall|j: int| 0 <= j < s.len() ==> #[trigger] asts_view(s)[j] == s[j]@,
    decreases s.len(),
{
    if s.len() > 0 {
        lemma_asts_view(s.drop_last());
    }
}

} // verus!
