//! The translation of a tree's AST into a HIR.
use indexmap::IndexMap;
use vstd::prelude::*;

use super::hir::{
    copy_strings, hirs_view, lemma_hirs_view_append, lemma_hirs_view_push, strings_view, Comment,
    ContractDefinition, FunctionDefinition, FunctionTy, Hir, Root, SpecFunction, SpecHir,
};
use super::combiner::modifier_ids;
use crate::scaffold::modifiers::{lookup, map_get, modifier_entries, Entries};
use crate::syntax::ast::{self, asts_view, lemma_asts_view, Ast, SpecAst};
use crate::text::{chars_eq, chars_of, push_str};
use crate::utils::{
    capitalize_chars, capitalized, pascal_of_words, pascal_of_words_from, sanitize, sanitized,
    seq_views, words, words_exec,
};

verus! {

/// The words after the first one.
pub open spec fn rest_words(ws: Seq<Seq<char>>) -> Seq<Seq<char>> {
    if ws.len() == 0 {
        ws
    } else {
        ws.drop_first()
    }
}

/// The comments for the descriptions among `kids`, in order.
pub open spec fn description_comments(kids: Seq<SpecAst>) -> Seq<SpecHir>
    decreases kids.len(),
{
    if kids.len() == 0 {
        Seq::empty()
    } else {
        let rest = description_comments(kids.drop_last());
        match kids.last() {
            SpecAst::Description { text, .. } => rest.push(SpecHir::Comment(text)),
            _ => rest,
        }
    }
}

/// The comments of an action: its title, then its descriptions.
pub open spec fn action_comments(a: SpecAst) -> Seq<SpecHir> {
    match a {
        SpecAst::Action { title, children, .. } => seq![SpecHir::Comment(title)]
            + description_comments(children),
        _ => Seq::empty(),
    }
}

/// The comments of the actions among `kids`, in order.
pub open spec fn kids_actions(kids: Seq<SpecAst>) -> Seq<SpecHir>
    decreases kids.len(),
{
    if kids.len() == 0 {
        Seq::empty()
    } else {
        kids_actions(kids.drop_last()) + action_comments(kids.last())
    }
}

/// Whether a condition is among `kids`.
pub open spec fn has_condition(kids: Seq<SpecAst>) -> bool {
    exists|i: int| 0 <= i < kids.len() && #[trigger] kids[i] is Condition
}

/// The name of a test for a condition whose only action is "it should
/// revert": `test_Revert`, the capitalized keyword, `_`, and the rest of
/// the title in pascal case.
pub open spec fn revert_name(title: Seq<char>) -> Seq<char> {
    let ws = words(title);
    let keyword = if ws.len() > 0 {
        capitalized(ws[0])
    } else {
        Seq::empty()
    };
    "test_Revert"@ + keyword + seq!['_'] + pascal_of_words(rest_words(ws))
}

/// Whether an action title says "it should revert": exactly that, or
/// "It should revert.".
pub open spec fn says_revert(title: Seq<char>) -> bool {
    title == "it should revert"@ || title == "It should revert."@
}

/// The titles of the actions among `kids`, in order.
pub open spec fn action_titles(kids: Seq<SpecAst>) -> Seq<Seq<char>>
    decreases kids.len(),
{
    if kids.len() == 0 {
        Seq::empty()
    } else {
        action_titles(kids.drop_last()) + match kids.last() {
            SpecAst::Action { title, .. } => seq![title],
            _ => Seq::empty(),
        }
    }
}

/// Whether the only action among the children of a condition says "it
/// should revert".
pub open spec fn is_revert(kids: Seq<SpecAst>) -> bool {
    action_titles(kids).len() == 1 && says_revert(action_titles(kids)[0])
}

/// The name of the test of a top-level action: `test_` and the words of
/// its title after the first one, capitalized, joined and sanitized.
pub open spec fn action_test_name(title: Seq<char>) -> Seq<char> {
    "test_"@ + sanitized(pascal_of_words(rest_words(words(title))))
}

/// The modifiers of a test under the conditions `stack`.
pub open spec fn stack_modifiers(stack: Seq<Seq<char>>) -> Option<Seq<Seq<char>>> {
    if stack.len() == 0 {
        None
    } else {
        Some(stack)
    }
}

/// The HIR nodes of a condition under the modifiers `stack`.
///
/// A condition with conditions below it gets a modifier, which applies to
/// its own test and to all tests below it. A condition with actions gets a
/// test that holds their comments; its name comes from the modifier, or,
/// when the only action is "it should revert", from the title. The nodes of
/// the conditions below follow, in order.
pub open spec fn condition_hirs(stack: Seq<Seq<char>>, a: SpecAst, es: Entries) -> Seq<SpecHir>
    decreases a,
{
    match a {
        SpecAst::Condition { title, span, children } => {
            let m = lookup(es, title)->Some_0;
            let leaf = !has_condition(children);
            let stack2 = if leaf {
                stack
            } else {
                stack.push(m)
            };
            let mod_def = if leaf {
                Seq::empty()
            } else {
                seq![
                    SpecHir::Function(
                        SpecFunction {
                            identifier: m,
                            ty: FunctionTy::Modifier,
                            span,
                            modifiers: None,
                            children: None,
                        },
                    ),
                ]
            };
            let acts = kids_actions(children);
            let name = if is_revert(children) {
                revert_name(title)
            } else {
                "test_"@ + capitalized(m)
            };
            let test = if acts.len() > 0 {
                seq![
                    SpecHir::Function(
                        SpecFunction {
                            identifier: name,
                            ty: FunctionTy::Function,
                            span,
                            modifiers: stack_modifiers(stack2),
                            children: Some(acts),
                        },
                    ),
                ]
            } else {
                Seq::empty()
            };
            mod_def + test + kids_conditions(stack2, children, es)
        },
        _ => Seq::empty(),
    }
}

/// The HIR nodes of the conditions among `kids`, in order.
pub open spec fn kids_conditions(stack: Seq<Seq<char>>, kids: Seq<SpecAst>, es: Entries) -> Seq<
    SpecHir,
>
    decreases kids,
{
    if kids.len() == 0 {
        Seq::empty()
    } else {
        kids_conditions(stack, kids.drop_last(), es) + condition_hirs(stack, kids.last(), es)
    }
}

/// The HIR nodes of the children of a root: a test for each top-level
/// action and the nodes of each condition, in order.
pub open spec fn root_hirs(kids: Seq<SpecAst>, es: Entries) -> Seq<SpecHir>
    decreases kids.len(),
{
    if kids.len() == 0 {
        Seq::empty()
    } else {
        let rest = root_hirs(kids.drop_last(), es);
        match kids.last() {
            SpecAst::Action { title, span, .. } => rest.push(
                SpecHir::Function(
                    SpecFunction {
                        identifier: action_test_name(title),
                        ty: FunctionTy::Function,
                        span,
                        modifiers: None,
                        children: Some(action_comments(kids.last())),
                    },
                ),
            ),
            SpecAst::Condition { .. } => rest + condition_hirs(Seq::empty(), kids.last(), es),
            _ => rest,
        }
    }
}

/// The HIR of a tree: a root that holds one contract, named after the
/// tree's root, with the nodes of its children.
pub open spec fn translate_tree(a: SpecAst, es: Entries) -> SpecHir {
    match a {
        SpecAst::Root { name, children, .. } => SpecHir::Root(
            seq![SpecHir::Contract(name, root_hirs(children, es))],
        ),
        _ => SpecHir::Root(Seq::empty()),
    }
}

/// Every condition at or below `a` has a modifier in `es` and a title with
/// at least one word.
pub open spec fn conditions_known(a: SpecAst, es: Entries) -> bool
    decreases a,
{
    match a {
        SpecAst::Condition { title, children, .. } => lookup(es, title) is Some && kids_known(
            children,
            es,
        ),
        _ => true,
    }
}

/// Every condition at or below the members of `kids` is known.
pub open spec fn kids_known(kids: Seq<SpecAst>, es: Entries) -> bool
    decreases kids,
{
    if kids.len() == 0 {
        true
    } else {
        kids_known(kids.drop_last(), es) && conditions_known(kids.last(), es)
    }
}

/// A tree that can be translated with the modifiers `es`: a root without
/// roots among its children, whose conditions are known.
pub open spec fn translatable(a: SpecAst, es: Entries) -> bool {
    match a {
        SpecAst::Root { children, .. } => kids_known(children, es) && forall|i: int|
            0 <= i < children.len() ==> !(#[trigger] children[i] is Root),
        _ => false,
    }
}

/// The modifiers of the conditions at or below `a` that have conditions
/// below them, in the order of the tree.
pub open spec fn nonleaf_modifiers(a: SpecAst, es: Entries) -> Seq<Seq<char>>
    decreases a,
{
    match a {
        SpecAst::Condition { title, children, .. } => (if has_condition(children) {
            seq![lookup(es, title)->Some_0]
        } else {
            Seq::empty()
        }) + kids_nonleaf_modifiers(children, es),
        _ => Seq::empty(),
    }
}

/// The modifiers of the non-leaf conditions at or below the members of
/// `kids`, in order.
pub open spec fn kids_nonleaf_modifiers(kids: Seq<SpecAst>, es: Entries) -> Seq<Seq<char>>
    decreases kids,
{
    if kids.len() == 0 {
        Seq::empty()
    } else {
        kids_nonleaf_modifiers(kids.drop_last(), es) + nonleaf_modifiers(kids.last(), es)
    }
}

proof fn lemma_modifier_ids_concat(a: Seq<SpecHir>, b: Seq<SpecHir>)
    ensures
        modifier_ids(a + b) == modifier_ids(a) + modifier_ids(b),
    decreases b.len(),
{
    if b.len() == 0 {
        assert(a + b =~= a);
        assert(modifier_ids(a) + modifier_ids(b) =~= modifier_ids(a));
    } else {
        lemma_modifier_ids_concat(a, b.drop_last());
        assert((a + b).drop_last() =~= a + b.drop_last());
        assert((a + b).last() == b.last());
        let ra = modifier_ids(a);
        let rb = modifier_ids(b.drop_last());
        assert((ra + rb).push(b.last()->Function_0.identifier) =~= ra + rb.push(b.last()->Function_0.identifier));
    }
}

proof fn lemma_condition_modifiers(stack: Seq<Seq<char>>, a: SpecAst, es: Entries)
    ensures
        modifier_ids(condition_hirs(stack, a, es)) == nonleaf_modifiers(a, es),
    decreases a,
{
    match a {
        SpecAst::Condition { title, span, children } => {
            let m = lookup(es, title)->Some_0;
            let leaf = !has_condition(children);
            let stack2 = if leaf {
                stack
            } else {
                stack.push(m)
            };
            let mod_def = if leaf {
                Seq::empty()
            } else {
                seq![
                    SpecHir::Function(
                        SpecFunction {
                            identifier: m,
                            ty: FunctionTy::Modifier,
                            span,
                            modifiers: None,
                            children: None,
                        },
                    ),
                ]
            };
            let acts = kids_actions(children);
            let name = if is_revert(children) {
                revert_name(title)
            } else {
                "test_"@ + capitalized(m)
            };
            let test = if acts.len() > 0 {
                seq![
                    SpecHir::Function(
                        SpecFunction {
                            identifier: name,
                            ty: FunctionTy::Function,
                            span,
                            modifiers: stack_modifiers(stack2),
                            children: Some(acts),
                        },
                    ),
                ]
            } else {
                Seq::empty()
            };
            lemma_modifier_ids_concat(mod_def, test);
            lemma_modifier_ids_concat(mod_def + test, kids_conditions(stack2, children, es));
            lemma_kids_modifiers(stack2, children, es);
            if !leaf {
                assert(mod_def.drop_last() =~= Seq::<SpecHir>::empty());
            }
            if acts.len() > 0 {
                assert(test.drop_last() =~= Seq::<SpecHir>::empty());
                assert(test.last() is Function && test.last()->Function_0.ty == FunctionTy::Function);
                assert(modifier_ids(test) == modifier_ids(test.drop_last()));
            }
            assert(modifier_ids(test) =~= Seq::<Seq<char>>::empty());
            assert(modifier_ids(mod_def) =~= if leaf {
                Seq::<Seq<char>>::empty()
            } else {
                seq![m]
            });
            assert(modifier_ids(mod_def) + modifier_ids(test) =~= modifier_ids(mod_def));
        },
        _ => {},
    }
}

proof fn lemma_kids_modifiers(stack: Seq<Seq<char>>, kids: Seq<SpecAst>, es: Entries)
    ensures
        modifier_ids(kids_conditions(stack, kids, es)) == kids_nonleaf_modifiers(kids, es),
    decreases kids,
{
    if kids.len() > 0 {
        lemma_kids_modifiers(stack, kids.drop_last(), es);
        lemma_condition_modifiers(stack, kids.last(), es);
        lemma_modifier_ids_concat(
            kids_conditions(stack, kids.drop_last(), es),
            condition_hirs(stack, kids.last(), es),
        );
    }
}

/// One modifier per condition, except for leaf conditions: the modifiers
/// that a tree's translation defines are those of its conditions that have
/// conditions below them, in the order of the tree.
pub proof fn law_one_modifier_per_nonleaf_condition(kids: Seq<SpecAst>, es: Entries)
    ensures
        modifier_ids(root_hirs(kids, es)) == kids_nonleaf_modifiers(kids, es),
    decreases kids.len(),
{
    if kids.len() > 0 {
        law_one_modifier_per_nonleaf_condition(kids.drop_last(), es);
        let rest = root_hirs(kids.drop_last(), es);
        let prev = kids_nonleaf_modifiers(kids.drop_last(), es);
        let r = root_hirs(kids, es);
        assert(kids_nonleaf_modifiers(kids, es) == prev + nonleaf_modifiers(kids.last(), es));
        match kids.last() {
            SpecAst::Action { .. } => {
                assert(r.drop_last() =~= rest);
                assert(r.last() is Function && r.last()->Function_0.ty == FunctionTy::Function);
                assert(modifier_ids(r) == modifier_ids(rest));
                assert(nonleaf_modifiers(kids.last(), es) =~= Seq::<Seq<char>>::empty());
                assert(prev + Seq::<Seq<char>>::empty() =~= prev);
            },
            SpecAst::Condition { .. } => {
                lemma_modifier_ids_concat(rest, condition_hirs(Seq::empty(), kids.last(), es));
                lemma_condition_modifiers(Seq::empty(), kids.last(), es);
            },
            _ => {
                assert(r == rest);
                assert(nonleaf_modifiers(kids.last(), es) =~= Seq::<Seq<char>>::empty());
                assert(prev + Seq::<Seq<char>>::empty() =~= prev);
            },
        }
    } else {
        assert(kids_nonleaf_modifiers(kids, es) =~= Seq::<Seq<char>>::empty());
        assert(modifier_ids(root_hirs(kids, es)) =~= Seq::<Seq<char>>::empty());
    }
}

/// The comments of the actions at or below `a`, each action followed by
/// its descriptions, in the order of the tree.
pub open spec fn tree_actions(a: SpecAst) -> Seq<SpecHir>
    decreases a,
{
    match a {
        SpecAst::Condition { children, .. } => kids_tree_actions(children),
        SpecAst::Action { .. } => action_comments(a),
        _ => Seq::empty(),
    }
}

/// The comments of the actions at or below the members of `kids`, in order.
pub open spec fn kids_tree_actions(kids: Seq<SpecAst>) -> Seq<SpecHir>
    decreases kids,
{
    if kids.len() == 0 {
        Seq::empty()
    } else {
        kids_tree_actions(kids.drop_last()) + tree_actions(kids.last())
    }
}

/// The comments of the actions below the conditions among `kids`, in order.
pub open spec fn conditions_tree_actions(kids: Seq<SpecAst>) -> Seq<SpecHir>
    decreases kids.len(),
{
    if kids.len() == 0 {
        Seq::empty()
    } else {
        conditions_tree_actions(kids.drop_last()) + if kids.last() is Condition {
            tree_actions(kids.last())
        } else {
            Seq::empty()
        }
    }
}

/// Whether no action among `kids` comes after a condition among them.
pub open spec fn actions_lead(kids: Seq<SpecAst>) -> bool {
    forall|i: int, j: int|
        0 <= i < j < kids.len() && #[trigger] kids[i] is Condition ==> !(#[trigger] kids[j] is Action)
}

/// Whether every condition at or below `a` lists its actions before its
/// conditions.
pub open spec fn actions_first(a: SpecAst) -> bool
    decreases a,
{
    match a {
        SpecAst::Condition { children, .. } => actions_lead(children) && kids_actions_first(children),
        _ => true,
    }
}

/// Whether every condition at or below the members of `kids` lists its
/// actions before its conditions.
pub open spec fn kids_actions_first(kids: Seq<SpecAst>) -> bool
    decreases kids,
{
    if kids.len() == 0 {
        true
    } else {
        kids_actions_first(kids.drop_last()) && actions_first(kids.last())
    }
}

/// The comments of the tests among `hs`, in order.
pub open spec fn test_comments(hs: Seq<SpecHir>) -> Seq<SpecHir>
    decreases hs.len(),
{
    if hs.len() == 0 {
        Seq::empty()
    } else {
        test_comments(hs.drop_last()) + match hs.last() {
            SpecHir::Function(f) => if f.ty == FunctionTy::Function {
                match f.children {
                    Some(k) => k,
                    None => Seq::empty(),
                }
            } else {
                Seq::empty()
            },
            _ => Seq::empty(),
        }
    }
}

proof fn lemma_test_comments_concat(a: Seq<SpecHir>, b: Seq<SpecHir>)
    ensures
        test_comments(a + b) == test_comments(a) + test_comments(b),
    decreases b.len(),
{
    if b.len() == 0 {
        assert(a + b =~= a);
        assert(test_comments(a) + test_comments(b) =~= test_comments(a));
    } else {
        lemma_test_comments_concat(a, b.drop_last());
        assert((a + b).drop_last() =~= a + b.drop_last());
        assert((a + b).last() == b.last());
    }
}

proof fn lemma_no_conditions(kids: Seq<SpecAst>)
    requires
        forall|i: int| 0 <= i < kids.len() ==> !(#[trigger] kids[i] is Condition),
    ensures
        conditions_tree_actions(kids) == Seq::<SpecHir>::empty(),
    decreases kids.len(),
{
    if kids.len() > 0 {
        lemma_no_conditions(kids.drop_last());
        assert(!(kids[kids.len() - 1] is Condition));
    }
}

proof fn lemma_actions_then_conditions(kids: Seq<SpecAst>)
    requires
        actions_lead(kids),
    ensures
        kids_tree_actions(kids) == kids_actions(kids) + conditions_tree_actions(kids),
    decreases kids.len(),
{
    if kids.len() == 0 {
        assert(kids_actions(kids) + conditions_tree_actions(kids) =~= Seq::<SpecHir>::empty());
    } else {
        let dl = kids.drop_last();
        assert forall|i: int, j: int|
            0 <= i < j < dl.len() && #[trigger] dl[i] is Condition implies !(#[trigger] dl[j] is Action) by {
            assert(dl[i] == kids[i] && dl[j] == kids[j]);
        }
        lemma_actions_then_conditions(dl);
        let last = kids.last();
        assert(last == kids[kids.len() - 1]);
        match last {
            SpecAst::Action { .. } => {
                assert forall|i: int| 0 <= i < dl.len() implies !(#[trigger] dl[i] is Condition) by {
                    assert(dl[i] == kids[i]);
                }
                lemma_no_conditions(dl);
                assert(conditions_tree_actions(kids) =~= conditions_tree_actions(dl));
                assert(tree_actions(last) == action_comments(last));
                assert(kids_tree_actions(kids) == kids_tree_actions(dl) + tree_actions(last));
                assert(kids_actions(kids) == kids_actions(dl) + action_comments(last));
                assert(kids_tree_actions(kids) =~= kids_actions(kids) + conditions_tree_actions(kids));
            },
            SpecAst::Condition { .. } => {
                assert(action_comments(last) =~= Seq::<SpecHir>::empty());
                assert(kids_actions(kids) =~= kids_actions(dl));
                assert(kids_tree_actions(kids) == kids_tree_actions(dl) + tree_actions(last));
                assert(conditions_tree_actions(kids) == conditions_tree_actions(dl) + tree_actions(last));
                assert(kids_tree_actions(kids) =~= kids_actions(kids) + conditions_tree_actions(kids));
            },
            _ => {
                assert(action_comments(last) =~= Seq::<SpecHir>::empty());
                assert(tree_actions(last) =~= Seq::<SpecHir>::empty());
                assert(kids_tree_actions(kids) == kids_tree_actions(dl) + tree_actions(last));
                assert(kids_actions(kids) == kids_actions(dl) + action_comments(last));
                assert(conditions_tree_actions(kids) =~= conditions_tree_actions(dl));
                assert(kids_tree_actions(kids) =~= kids_actions(kids) + conditions_tree_actions(kids));
            },
        }
    }
}

proof fn lemma_condition_tests(stack: Seq<Seq<char>>, a: SpecAst, es: Entries)
    requires
        a is Condition,
        actions_first(a),
    ensures
        test_comments(condition_hirs(stack, a, es)) == tree_actions(a),
    decreases a, 1int,
{
    match a {
        SpecAst::Condition { title, span, children } => {
            let m = lookup(es, title)->Some_0;
            let leaf = !has_condition(children);
            let stack2 = if leaf {
                stack
            } else {
                stack.push(m)
            };
            let mod_def = if leaf {
                Seq::empty()
            } else {
                seq![
                    SpecHir::Function(
                        SpecFunction {
                            identifier: m,
                            ty: FunctionTy::Modifier,
                            span,
                            modifiers: None,
                            children: None,
                        },
                    ),
                ]
            };
            let acts = kids_actions(children);
            let name = if is_revert(children) {
                revert_name(title)
            } else {
                "test_"@ + capitalized(m)
            };
            let test = if acts.len() > 0 {
                seq![
                    SpecHir::Function(
                        SpecFunction {
                            identifier: name,
                            ty: FunctionTy::Function,
                            span,
                            modifiers: stack_modifiers(stack2),
                            children: Some(acts),
                        },
                    ),
                ]
            } else {
                Seq::empty()
            };
            lemma_test_comments_concat(mod_def, test);
            lemma_test_comments_concat(mod_def + test, kids_conditions(stack2, children, es));
            lemma_kids_condition_tests(stack2, children, es);
            lemma_actions_then_conditions(children);
            if !leaf {
                assert(mod_def.drop_last() =~= Seq::<SpecHir>::empty());
                assert(mod_def.last() is Function && mod_def.last()->Function_0.ty == FunctionTy::Modifier);
                assert(test_comments(mod_def) == test_comments(mod_def.drop_last()) + Seq::<SpecHir>::empty());
            }
            assert(test_comments(mod_def) =~= Seq::<SpecHir>::empty());
            if acts.len() > 0 {
                assert(test.drop_last() =~= Seq::<SpecHir>::empty());
            }
            assert(test_comments(test) =~= acts);
            assert(test_comments(mod_def) + test_comments(test) =~= acts);
        },
        _ => {},
    }
}

proof fn lemma_kids_condition_tests(stack: Seq<Seq<char>>, kids: Seq<SpecAst>, es: Entries)
    requires
        kids_actions_first(kids),
    ensures
        test_comments(kids_conditions(stack, kids, es)) == conditions_tree_actions(kids),
    decreases kids, 0int,
{
    if kids.len() > 0 {
        lemma_kids_condition_tests(stack, kids.drop_last(), es);
        lemma_test_comments_concat(
            kids_conditions(stack, kids.drop_last(), es),
            condition_hirs(stack, kids.last(), es),
        );
        if kids.last() is Condition {
            lemma_condition_tests(stack, kids.last(), es);
        } else {
            assert(condition_hirs(stack, kids.last(), es) =~= Seq::<SpecHir>::empty());
            assert(test_comments(condition_hirs(stack, kids.last(), es)) =~= Seq::<SpecHir>::empty());
        }
    } else {
        assert(test_comments(kids_conditions(stack, kids, es)) =~= Seq::<SpecHir>::empty());
    }
}

/// Tests follow the tree: when every condition lists its actions before
/// its conditions, the comments of the tests of a tree's translation are
/// the tree's actions, each followed by its descriptions, in the order in
/// which they appear in the tree.
pub proof fn law_tests_follow_tree(kids: Seq<SpecAst>, es: Entries)
    requires
        kids_actions_first(kids),
    ensures
        test_comments(root_hirs(kids, es)) == kids_tree_actions(kids),
    decreases kids.len(),
{
    if kids.len() > 0 {
        law_tests_follow_tree(kids.drop_last(), es);
        let rest = root_hirs(kids.drop_last(), es);
        let r = root_hirs(kids, es);
        match kids.last() {
            SpecAst::Action { .. } => {
                assert(r.drop_last() =~= rest);
                assert(r.last()->Function_0.children == Some(action_comments(kids.last())));
                assert(test_comments(r) == test_comments(rest) + action_comments(kids.last()));
                assert(tree_actions(kids.last()) == action_comments(kids.last()));
                assert(kids_tree_actions(kids) == kids_tree_actions(kids.drop_last()) + tree_actions(kids.last()));
            },
            SpecAst::Condition { .. } => {
                assert(actions_first(kids.last()));
                assert(r == rest + condition_hirs(Seq::empty(), kids.last(), es));
                lemma_test_comments_concat(rest, condition_hirs(Seq::empty(), kids.last(), es));
                lemma_condition_tests(Seq::empty(), kids.last(), es);
                assert(kids_tree_actions(kids) == kids_tree_actions(kids.drop_last()) + tree_actions(kids.last()));
            },
            _ => {
                assert(r == rest);
                assert(tree_actions(kids.last()) =~= Seq::<SpecHir>::empty());
                assert(kids_tree_actions(kids) == kids_tree_actions(kids.drop_last()) + tree_actions(kids.last()));
                assert(kids_tree_actions(kids) =~= kids_tree_actions(kids.drop_last()));
            },
        }
    } else {
        assert(test_comments(root_hirs(kids, es)) =~= Seq::<SpecHir>::empty());
    }
}

/// Every condition at or below `a` whose only action is "it should revert"
/// has a title with at least one word.
pub open spec fn reverts_titled(a: SpecAst) -> bool
    decreases a,
{
    match a {
        SpecAst::Condition { title, children, .. } => (is_revert(children) ==> words(
            title,
        ).len() > 0) && kids_reverts_titled(children),
        _ => true,
    }
}

/// Every member of `kids` satisfies `reverts_titled`.
pub open spec fn kids_reverts_titled(kids: Seq<SpecAst>) -> bool
    decreases kids,
{
    if kids.len() == 0 {
        true
    } else {
        kids_reverts_titled(kids.drop_last()) && reverts_titled(kids.last())
    }
}

/// A translator from a tree's AST to a HIR.
pub struct Translator;

impl Translator {
    /// Creates a new translator.
    pub fn new() -> (res: Self) {
        Translator
    }

    /// Translates an AST to a HIR, with the modifiers in `modifiers`.
    pub fn translate(self, ast: &Ast, modifiers: &IndexMap<String, String>) -> (res: Hir)
        requires
            translatable(ast@, modifier_entries(*modifiers)),
            match ast@ {
                SpecAst::Root { children, .. } => kids_reverts_titled(children),
                _ => true,
            },
        ensures
            res@ == translate_tree(ast@, modifier_entries(*modifiers)),
    {
        translate_ast(ast, modifiers)
    }
}

/// Translates an AST to a HIR, with the modifiers in `modifiers`.
pub(crate) fn translate_ast(ast: &Ast, modifiers: &IndexMap<String, String>) -> (res: Hir)
    requires
        translatable(ast@, modifier_entries(*modifiers)),
    ensures
        res@ == translate_tree(ast@, modifier_entries(*modifiers)),
{
    match ast {
        Ast::Root(root) => {
            let kids = visit_root_children(&root.children, modifiers);
            let ghost kv = hirs_view(kids@);
            let contract = Hir::ContractDefinition(
                ContractDefinition { identifier: root.contract_name.clone(), children: kids },
            );
            let mut children: Vec<Hir> = Vec::new();
            proof {
                lemma_hirs_view_push(children@, contract);
            }
            children.push(contract);
            assert(hirs_view(children@) =~= seq![SpecHir::Contract(root.contract_name@, kv)]);
            Hir::Root(Root { children })
        },
        _ => Hir::Root(Root { children: Vec::new() }),
    }
}

/// The comments of an action: its title, then its descriptions.
fn visit_action(a: &Ast) -> (res: Vec<Hir>)
    requires
        a@ is Action,
    ensures
        hirs_view(res@) == action_comments(a@),
{
    let mut res: Vec<Hir> = Vec::new();
    match a {
        Ast::Action(action) => {
            let c = Hir::Comment(Comment { lexeme: action.title.clone() });
            proof {
                lemma_hirs_view_push(res@, c);
            }
            res.push(c);
            let kids = &action.children;
            proof {
                lemma_asts_view(kids@);
            }
            let mut i: usize = 0;
            let ghost kv = asts_view(kids@);
            assert(kv.take(0) =~= Seq::<SpecAst>::empty());
            assert(hirs_view(res@) =~= seq![SpecHir::Comment(action.title@)] + description_comments(kv.take(0)));
            while i < kids.len()
                invariant
                    kv == asts_view(kids@),
                    i <= kids@.len(),
                    kv.len() == kids@.len(),
                    forall|j: int| 0 <= j < kids@.len() ==> #[trigger] kv[j] == kids@[j]@,
                    hirs_view(res@) == seq![SpecHir::Comment(action.title@)] + description_comments(kv.take(i as int)),
                decreases kids@.len() - i,
            {
                assert(kv.take(i + 1).drop_last() =~= kv.take(i as int));
                assert(kv.take(i + 1).last() == kids@[i as int]@);
                if let Ast::ActionDescription(d) = &kids[i] {
                    let c = Hir::Comment(Comment { lexeme: d.text.clone() });
                    let ghost before = hirs_view(res@);
                    proof {
                        lemma_hirs_view_push(res@, c);
                    }
                    res.push(c);
                    assert(hirs_view(res@) =~= before.push(SpecHir::Comment(d.text@)));
                }
                i = i + 1;
            }
            assert(kv.take(kids@.len() as int) =~= kv);
        },
        _ => {},
    }
    res
}

/// The comments of the actions among `kids`, in order.
fn visit_kids_actions(kids: &Vec<Ast>) -> (res: Vec<Hir>)
    ensures
        hirs_view(res@) == kids_actions(asts_view(kids@)),
{
    proof {
        lemma_asts_view(kids@);
    }
    let ghost kv = asts_view(kids@);
    let mut res: Vec<Hir> = Vec::new();
    let mut i: usize = 0;
    assert(kv.take(0) =~= Seq::<SpecAst>::empty());
    assert(hirs_view(res@) =~= Seq::<SpecHir>::empty());
    while i < kids.len()
        invariant
            kv == asts_view(kids@),
            i <= kids@.len(),
            kv.len() == kids@.len(),
            forall|j: int| 0 <= j < kids@.len() ==> #[trigger] kv[j] == kids@[j]@,
            hirs_view(res@) == kids_actions(kv.take(i as int)),
        decreases kids@.len() - i,
    {
        assert(kv.take(i + 1).drop_last() =~= kv.take(i as int));
        assert(kv.take(i + 1).last() == kids@[i as int]@);
        if kids[i].is_action() {
            let mut acts = visit_action(&kids[i]);
            proof {
                lemma_hirs_view_append(res@, acts@);
            }
            res.append(&mut acts);
        } else {
            assert(action_comments(kv[i as int]) =~= Seq::<SpecHir>::empty());
            assert(kids_actions(kv.take(i + 1)) =~= kids_actions(kv.take(i as int)));
        }
        i = i + 1;
    }
    assert(kv.take(kids@.len() as int) =~= kv);
    res
}

/// Whether a condition is among `kids`.
fn has_condition_exec(kids: &Vec<Ast>) -> (res: bool)
    ensures
        res == has_condition(asts_view(kids@)),
{
    proof {
        lemma_asts_view(kids@);
    }
    let mut i: usize = 0;
    while i < kids.len()
        invariant
            i <= kids@.len(),
            asts_view(kids@).len() == kids@.len(),
            forall|j: int| 0 <= j < kids@.len() ==> #[trigger] asts_view(kids@)[j] == kids@[j]@,
            forall|j: int| 0 <= j < i ==> !(#[trigger] asts_view(kids@)[j] is Condition),
        decreases kids@.len() - i,
    {
        if let Ast::Condition(_) = &kids[i] {
            assert(asts_view(kids@)[i as int] is Condition);
            return true;
        }
        i = i + 1;
    }
    false
}

/// Whether the actions of a condition are just "it should revert".
fn says_revert_exec(title: &str) -> (res: bool)
    ensures
        res == says_revert(title@),
{
    let t = chars_of(title);
    let a = chars_of("it should revert");
    let b = chars_of("It should revert.");
    chars_eq(t.as_slice(), a.as_slice()) || chars_eq(t.as_slice(), b.as_slice())
}

fn is_revert_exec(kids: &Vec<Ast>) -> (res: bool)
    ensures
        res == is_revert(asts_view(kids@)),
{
    proof {
        lemma_asts_view(kids@);
    }
    let ghost kv = asts_view(kids@);
    let mut count: usize = 0;
    let mut first_reverts = false;
    let mut i: usize = 0;
    assert(kv.take(0) =~= Seq::<SpecAst>::empty());
    while i < kids.len()
        invariant
            i <= kids@.len(),
            kv == asts_view(kids@),
            kv.len() == kids@.len(),
            forall|j: int| 0 <= j < kids@.len() ==> #[trigger] kv[j] == kids@[j]@,
            count <= i,
            count == action_titles(kv.take(i as int)).len(),
            count > 0 ==> first_reverts == says_revert(action_titles(kv.take(i as int))[0]),
        decreases kids@.len() - i,
    {
        assert(kv.take(i + 1).drop_last() =~= kv.take(i as int));
        assert(kv.take(i + 1).last() == kids@[i as int]@);
        if let Ast::Action(a) = &kids[i] {
            if count == 0 {
                first_reverts = says_revert_exec(a.title.as_str());
            }
            count = count + 1;
        }
        i = i + 1;
    }
    assert(kv.take(kids@.len() as int) =~= kv);
    count == 1 && first_reverts
}

/// The test name for a condition whose only action is "it should revert".
fn revert_name_exec(title: &str) -> (res: String)
    ensures
        res@ == revert_name(title@),
{
    let v = chars_of(title);
    let ws = words_exec(v.as_slice());
    let (keyword, rest) = if ws.len() > 0 {
        assert(seq_views(ws@)[0] == ws@[0]@);
        assert(seq_views(ws@).skip(1) =~= rest_words(words(title@)));
        (capitalize_chars(ws[0].as_slice()), pascal_of_words_from(&ws, 1))
    } else {
        assert(seq_views(ws@).skip(0) =~= rest_words(words(title@)));
        (String::new(), pascal_of_words_from(&ws, 0))
    };
    let mut res = String::new();
    push_str(&mut res, "test_Revert");
    push_str(&mut res, keyword.as_str());
    push_str(&mut res, "_");
    push_str(&mut res, rest.as_str());
    proof {
        reveal_strlit("test_Revert");
        reveal_strlit("_");
        assert("_"@ =~= seq!['_']);
    }
    res
}

/// The test name of a top-level action.
fn action_test_name_exec(title: &str) -> (res: String)
    ensures
        res@ == action_test_name(title@),
{
    let v = chars_of(title);
    let ws = words_exec(v.as_slice());
    let name = if ws.len() == 0 {
        assert(seq_views(ws@).skip(0) =~= rest_words(words(title@)));
        pascal_of_words_from(&ws, 0)
    } else {
        assert(seq_views(ws@).skip(1) =~= rest_words(words(title@)));
        pascal_of_words_from(&ws, 1)
    };
    let name = sanitize(name.as_str());
    let mut res = String::new();
    push_str(&mut res, "test_");
    push_str(&mut res, name.as_str());
    proof {
        reveal_strlit("test_");
    }
    res
}

/// The HIR nodes of a condition under the modifiers `stack`.
fn visit_condition(stack: &mut Vec<String>, a: &Ast, modifiers: &IndexMap<String, String>) -> (res:
    Vec<Hir>)
    requires
        a@ is Condition,
        conditions_known(a@, modifier_entries(*modifiers)),
    ensures
        hirs_view(res@) == condition_hirs(strings_view(old(stack)@), a@, modifier_entries(*modifiers)),
        strings_view(final(stack)@) == strings_view(old(stack)@),
    decreases a,
{
    let ghost es = modifier_entries(*modifiers);
    let ghost stack0 = strings_view(stack@);
    let mut res: Vec<Hir> = Vec::new();
    match a {
        Ast::Condition(c) => {
            let m = match map_get(modifiers, c.title.as_str()) {
                Some(m) => m.clone(),
                None => {
                    assert(false);
                    String::new()
                },
            };
            let ghost kv = asts_view(c.children@);
            let leaf = !has_condition_exec(&c.children);
            if !leaf {
                stack.push(m.clone());
                let def = Hir::FunctionDefinition(
                    FunctionDefinition {
                        identifier: m.clone(),
                        ty: FunctionTy::Modifier,
                        span: c.span,
                        modifiers: None,
                        children: None,
                    },
                );
                proof {
                    lemma_hirs_view_push(res@, def);
                }
                res.push(def);
            }
            let ghost stack2 = strings_view(stack@);
            assert(stack2 =~= if leaf { stack0 } else { stack0.push(m@) });
            let ghost before_test = hirs_view(res@);
            let acts = visit_kids_actions(&c.children);
            if acts.len() > 0 {
                let name = if is_revert_exec(&c.children) {
                    revert_name_exec(c.title.as_str())
                } else {
                    let cap = crate::utils::capitalize_first_letter(m.as_str());
                    let mut n = String::new();
                    push_str(&mut n, "test_");
                    push_str(&mut n, cap.as_str());
                    proof {
                        reveal_strlit("test_");
                    }
                    n
                };
                let mods = if stack.len() == 0 {
                    None
                } else {
                    Some(copy_strings(stack))
                };
                let ghost av = hirs_view(acts@);
                let f = Hir::FunctionDefinition(
                    FunctionDefinition {
                        identifier: name,
                        ty: FunctionTy::Function,
                        span: c.span,
                        modifiers: mods,
                        children: Some(acts),
                    },
                );
                proof {
                    lemma_hirs_view_push(res@, f);
                }
                res.push(f);
            }
            let ghost before_kids = hirs_view(res@);
            let mut sub = visit_kids_conditions(stack, &c.children, modifiers);
            proof {
                lemma_hirs_view_append(res@, sub@);
            }
            res.append(&mut sub);
            if !leaf {
                let ghost before_pop = stack@;
                assert(strings_view(before_pop) == stack0.push(m@));
                stack.pop();
                assert(stack@ =~= before_pop.drop_last());
                assert(forall|k: int| 0 <= k < stack0.len() ==> #[trigger] strings_view(stack@)[k] == strings_view(before_pop)[k]);
                assert(strings_view(stack@) =~= stack0);
            }
        },
        _ => {},
    }
    res
}

/// The HIR nodes of the conditions among `kids`, in order.
fn visit_kids_conditions(stack: &mut Vec<String>, kids: &Vec<Ast>, modifiers: &IndexMap<String, String>) -> (res: Vec<Hir>)
    requires
        kids_known(asts_view(kids@), modifier_entries(*modifiers)),
    ensures
        hirs_view(res@) == kids_conditions(strings_view(old(stack)@), asts_view(kids@), modifier_entries(*modifiers)),
        strings_view(final(stack)@) == strings_view(old(stack)@),
    decreases kids,
{
    proof {
        lemma_asts_view(kids@);
    }
    let ghost kv = asts_view(kids@);
    let ghost es = modifier_entries(*modifiers);
    let ghost stack0 = strings_view(stack@);
    let mut res: Vec<Hir> = Vec::new();
    let mut i: usize = 0;
    assert(kv.take(0) =~= Seq::<SpecAst>::empty());
    assert(hirs_view(res@) =~= Seq::<SpecHir>::empty());
    while i < kids.len()
        invariant
            kv == asts_view(kids@),
            es == modifier_entries(*modifiers),
            strings_view(stack@) == stack0,
            i <= kids@.len(),
            kv.len() == kids@.len(),
            forall|j: int| 0 <= j < kids@.len() ==> #[trigger] kv[j] == kids@[j]@,
            kids_known(kv, es),
            hirs_view(res@) == kids_conditions(stack0, kv.take(i as int), es),
        decreases kids@.len() - i,
    {
        assert(kv.take(i + 1).drop_last() =~= kv.take(i as int));
        assert(kv.take(i + 1).last() == kids@[i as int]@);
        proof {
            lemma_kids_known(kv, es, i as int);
        }
        if let Ast::Condition(_) = &kids[i] {
            let mut sub = visit_condition(stack, &kids[i], modifiers);
            proof {
                lemma_hirs_view_append(res@, sub@);
            }
            res.append(&mut sub);
        } else {
            assert(condition_hirs(stack0, kv[i as int], es) =~= Seq::<SpecHir>::empty());
            assert(kids_conditions(stack0, kv.take(i + 1), es) =~= kids_conditions(stack0, kv.take(i as int), es));
        }
        i = i + 1;
    }
    assert(kv.take(kids@.len() as int) =~= kv);
    res
}

/// The members of known children are known.
proof fn lemma_kids_known(kids: Seq<SpecAst>, es: Entries, i: int)
    requires
        kids_known(kids, es),
        0 <= i < kids.len(),
    ensures
        conditions_known(kids[i], es),
    decreases kids.len(),
{
    if i < kids.len() - 1 {
        lemma_kids_known(kids.drop_last(), es, i);
    }
}

/// The HIR nodes of the children of a root.
fn visit_root_children(kids: &Vec<Ast>, modifiers: &IndexMap<String, String>) -> (res: Vec<Hir>)
    requires
        kids_known(asts_view(kids@), modifier_entries(*modifiers)),
    ensures
        hirs_view(res@) == root_hirs(asts_view(kids@), modifier_entries(*modifiers)),
{
    proof {
        lemma_asts_view(kids@);
    }
    let ghost kv = asts_view(kids@);
    let ghost es = modifier_entries(*modifiers);
    let mut stack: Vec<String> = Vec::new();
    let mut res: Vec<Hir> = Vec::new();
    let mut i: usize = 0;
    assert(kv.take(0) =~= Seq::<SpecAst>::empty());
    assert(hirs_view(res@) =~= Seq::<SpecHir>::empty());
    while i < kids.len()
        invariant
            kv == asts_view(kids@),
            es == modifier_entries(*modifiers),
            strings_view(stack@) == Seq::<Seq<char>>::empty(),
            i <= kids@.len(),
            kv.len() == kids@.len(),
            forall|j: int| 0 <= j < kids@.len() ==> #[trigger] kv[j] == kids@[j]@,
            kids_known(kv, es),
            hirs_view(res@) == root_hirs(kv.take(i as int), es),
        decreases kids@.len() - i,
    {
        assert(kv.take(i + 1).drop_last() =~= kv.take(i as int));
        assert(kv.take(i + 1).last() == kids@[i as int]@);
        proof {
            lemma_kids_known(kv, es, i as int);
        }
        match &kids[i] {
            Ast::Action(action) => {
                let name = action_test_name_exec(action.title.as_str());
                let comments = visit_action(&kids[i]);
                let f = Hir::FunctionDefinition(
                    FunctionDefinition {
                        identifier: name,
                        ty: FunctionTy::Function,
                        span: action.span,
                        modifiers: None,
                        children: Some(comments),
                    },
                );
                proof {
                    lemma_hirs_view_push(res@, f);
                }
                res.push(f);
            },
            Ast::Condition(_) => {
                let mut sub = visit_condition(&mut stack, &kids[i], modifiers);
                proof {
                    lemma_hirs_view_append(res@, sub@);
                }
                res.append(&mut sub);
            },
            _ => {},
        }
        i = i + 1;
    }
    assert(kv.take(kids@.len() as int) =~= kv);
    res
}

} // verus!
