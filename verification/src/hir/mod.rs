//! A high-level intermediate representation (HIR) and the translation of
//! trees into it.
use vstd::prelude::*;

use crate::error::{carries_text, reportable, Error, Failure};
use crate::scaffold::modifiers::{
    discover_tree, kids_mapped, law_discovered_modifiers, titles_mapped, Entries, ModifierDiscoverer,
};
use crate::syntax::ast::SpecAst;
use crate::syntax::parser::lemma_parsed_root;
use crate::syntax::tokenizer::{text_fits, tokens_of};
use crate::syntax::{parse, parse_text};
use crate::utils::{split_trees, tree_texts};
use combiner::{combinable, combined, Combiner};
use translator::{conditions_known, kids_known, translate_ast, translate_tree};

pub mod hir;

pub use hir::{Comment, ContractDefinition, FunctionDefinition, FunctionTy, Hir, Root, SpecHir};
pub mod translator;
pub mod combiner;

verus! {

/// The HIR of a tree text: its AST translated with the modifiers of its
/// conditions; or the error of parsing it.
pub open spec fn tree_hir(t: Seq<char>) -> Result<SpecHir, Failure> {
    match parse_text(t) {
        Ok(a) => Ok(translate_tree(a, discover_tree(Seq::empty(), a))),
        Err(e) => Err(e),
    }
}

/// The HIRs of tree texts, in order; or the first error.
pub open spec fn trees_hirs(ts: Seq<Seq<char>>) -> Result<Seq<SpecHir>, Failure>
    decreases ts.len(),
{
    if ts.len() == 0 {
        Ok(Seq::empty())
    } else {
        match trees_hirs(ts.drop_last()) {
            Err(e) => Err(e),
            Ok(hs) => match tree_hir(ts.last()) {
                Err(e) => Err(e),
                Ok(h) => Ok(hs.push(h)),
            },
        }
    }
}

/// The index of the first tree text of `ts` that does not compile, if any.
pub open spec fn first_failing_tree(ts: Seq<Seq<char>>) -> Option<int>
    decreases ts.len(),
{
    if ts.len() == 0 {
        None
    } else {
        match first_failing_tree(ts.drop_last()) {
            Some(i) => Some(i),
            None => if tree_hir(ts.last()) is Err {
                Some(ts.len() - 1)
            } else {
                None
            },
        }
    }
}

/// The text that an error of compiling a `.tree` file carries: the text of
/// the first tree that does not compile; for an error of combining, the
/// root identifier that the view of the error holds.
pub open spec fn error_text_fits(e: Error, text: Seq<char>) -> bool {
    match first_failing_tree(tree_texts(text)) {
        Some(i) => carries_text(e, tree_texts(text)[i]),
        None => e is Combine,
    }
}

/// The trees compile exactly when none fails.
proof fn lemma_first_failing(ts: Seq<Seq<char>>)
    ensures
        (trees_hirs(ts) is Ok) == (first_failing_tree(ts) is None),
        first_failing_tree(ts) matches Some(i) ==> 0 <= i < ts.len(),
    decreases ts.len(),
{
    if ts.len() > 0 {
        lemma_first_failing(ts.drop_last());
    }
}

/// A tree that fails in a prefix of `ts` is the first to fail in `ts`.
proof fn lemma_first_failing_prefix(ts: Seq<Seq<char>>, n: int)
    requires
        0 <= n <= ts.len(),
        first_failing_tree(ts.take(n)) is Some,
    ensures
        first_failing_tree(ts) == first_failing_tree(ts.take(n)),
    decreases ts.len() - n,
{
    if n < ts.len() {
        assert(ts.take(n + 1).drop_last() =~= ts.take(n));
        lemma_first_failing_prefix(ts, n + 1);
    } else {
        assert(ts.take(n) =~= ts);
    }
}

/// The HIR of a `.tree` file: the HIRs of its trees, combined.
pub open spec fn translation(text: Seq<char>) -> Result<SpecHir, Failure> {
    match trees_hirs(tree_texts(text)) {
        Err(e) => Err(e),
        Ok(hs) => match combined(hs) {
            Ok(h) => Ok(h),
            Err(e) => Err(Failure::Combine(e)),
        },
    }
}

/// Files whose trees, once translated, can be combined: the first tree
/// names a contract.
pub open spec fn translation_defined(text: Seq<char>) -> bool {
    match trees_hirs(tree_texts(text)) {
        Ok(hs) => combinable(hs),
        Err(_) => true,
    }
}

/// Files whose tree texts have positions that fit in machine words.
pub open spec fn trees_fit(text: Seq<char>) -> bool {
    forall|i: int| 0 <= i < tree_texts(text).len() ==> text_fits(#[trigger] tree_texts(text)[i])
}

/// Conditions whose titles are mapped to modifiers are known.
proof fn lemma_mapped_known(a: SpecAst, es: Entries)
    requires
        titles_mapped(a, es),
    ensures
        conditions_known(a, es),
    decreases a,
{
    match a {
        SpecAst::Condition { children, .. } => lemma_kids_mapped_known(children, es),
        _ => {},
    }
}

/// Conditions whose titles are mapped to modifiers are known.
proof fn lemma_kids_mapped_known(kids: Seq<SpecAst>, es: Entries)
    requires
        kids_mapped(kids, es),
    ensures
        kids_known(kids, es),
    decreases kids,
{
    if kids.len() > 0 {
        lemma_kids_mapped_known(kids.drop_last(), es);
        lemma_mapped_known(kids.last(), es);
    }
}

/// Compiles the text of one tree into its HIR.
pub fn translate_tree_to_hir(tree: &str) -> (res: Result<Hir, Error>)
    requires
        text_fits(tree@),
    ensures
        match res {
            Ok(h) => tree_hir(tree@) == Ok::<SpecHir, Failure>(h@),
            Err(e) => tree_hir(tree@) == Err::<SpecHir, Failure>(e@) && carries_text(e, tree@)
                && reportable(e),
        },
{
    let ast = match parse(tree) {
        Ok(a) => a,
        Err(e) => return Err(e),
    };
    proof {
        match tokens_of(tree@) {
            Ok(ts) => lemma_parsed_root(ts),
            Err(_) => {},
        }
        law_discovered_modifiers(ast@);
        if let SpecAst::Root { children, .. } = ast@ {
            lemma_kids_mapped_known(children, discover_tree(Seq::empty(), ast@));
        }
    }
    let mut discoverer = ModifierDiscoverer::new();
    let modifiers = discoverer.discover(&ast);
    Ok(translate_ast(&ast, modifiers))
}

/// Compiles the text of a `.tree` file into one HIR: the trees of the file
/// are translated in order and their HIRs combined.
pub fn translate_and_combine_trees(text: &str) -> (res: Result<Hir, Error>)
    requires
        trees_fit(text@),
        translation_defined(text@),
    ensures
        match res {
            Ok(h) => translation(text@) == Ok::<SpecHir, Failure>(h@),
            Err(e) => translation(text@) == Err::<SpecHir, Failure>(e@) && reportable(e) && error_text_fits(
                e,
                text@,
            ),
        },
{
    let trees = split_trees(text);
    let ghost ts = tree_texts(text@);
    let mut hirs: Vec<Hir> = Vec::new();
    let mut i: usize = 0;
    assert(ts.take(0) =~= Seq::<Seq<char>>::empty());
    while i < trees.len()
        invariant
            trees.deep_view() == ts,
            ts == tree_texts(text@),
            trees_fit(text@),
            i <= trees@.len(),
            trees_hirs(ts.take(i as int)) == Ok::<Seq<SpecHir>, Failure>(hir::hirs_view(hirs@)),
        decreases trees@.len() - i,
    {
        assert(ts.take(i + 1).drop_last() =~= ts.take(i as int));
        assert(ts.take(i + 1).last() == trees@[i as int]@);
        assert(text_fits(ts[i as int]));
        match translate_tree_to_hir(trees[i].as_str()) {
            Ok(h) => {
                proof {
                    hir::lemma_hirs_view_push(hirs@, h);
                }
                hirs.push(h);
            },
            Err(e) => {
                proof {
                    lemma_trees_hirs_err(ts, i + 1, e@);
                    lemma_first_failing(ts.take(i as int));
                    assert(first_failing_tree(ts.take(i + 1)) == Some(i as int));
                    lemma_first_failing_prefix(ts, i + 1);
                }
                return Err(e);
            },
        }
        i = i + 1;
    }
    assert(ts.take(trees@.len() as int) =~= ts);
    proof {
        lemma_first_failing(ts);
    }
    match Combiner::new().combine(&hirs) {
        Ok(h) => Ok(h),
        Err(e) => Err(Error::Combine(e)),
    }
}

/// An error in the HIRs of a prefix of tree texts is the error of all of
/// them.
proof fn lemma_trees_hirs_err(ts: Seq<Seq<char>>, n: int, e: Failure)
    requires
        0 <= n <= ts.len(),
        trees_hirs(ts.take(n)) == Err::<Seq<SpecHir>, Failure>(e),
    ensures
        trees_hirs(ts) == Err::<Seq<SpecHir>, Failure>(e),
    decreases ts.len() - n,
{
    if n < ts.len() {
        assert(ts.take(n + 1).drop_last() =~= ts.take(n));
        lemma_trees_hirs_err(ts, n + 1, e);
    } else {
        assert(ts.take(n) =~= ts);
    }
}

/// Compiles the text of a `.tree` file into one HIR.
pub fn translate(text: &str) -> (res: Result<Hir, Error>)
    requires
        trees_fit(text@),
        translation_defined(text@),
    ensures
        match res {
            Ok(h) => translation(text@) == Ok::<SpecHir, Failure>(h@),
            Err(e) => translation(text@) == Err::<SpecHir, Failure>(e@) && reportable(e) && error_text_fits(
                e,
                text@,
            ),
        },
{
    translate_and_combine_trees(text)
}

} // verus!
