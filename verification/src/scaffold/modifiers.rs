//! Discovery of the modifiers that the conditions of a tree stand for.
use indexmap::IndexMap;
use vstd::prelude::*;

use crate::syntax::ast::{asts_view, Ast, SpecAst};
use crate::utils::{lower_first, lower_first_letter, pascal, to_pascal_case};

verus! {

#[verifier::external_type_specification]
#[verifier::external_body]
#[verifier::reject_recursive_types(K)]
#[verifier::reject_recursive_types(V)]
#[verifier::reject_recursive_types(S)]
pub struct ExIndexMap<K, V, S>(IndexMap<K, V, S>);

/// The entries of an ordered map from condition titles to modifier names,
/// in insertion order.
pub type Entries = Seq<(Seq<char>, Seq<char>)>;

/// The entries of `m`, in the map's order.
pub uninterp spec fn modifier_entries(m: IndexMap<String, String>) -> Entries;

/// The value recorded for `k` in `es`, if any.
pub open spec fn lookup(es: Entries, k: Seq<char>) -> Option<Seq<char>>
    decreases es.len(),
{
    if es.len() == 0 {
        None
    } else if es.last().0 == k {
        Some(es.last().1)
    } else {
        lookup(es.drop_last(), k)
    }
}

/// The index of the entry for `k` in `es`, if any.
pub open spec fn entry_index(es: Entries, k: Seq<char>) -> Option<int>
    decreases es.len(),
{
    if es.len() == 0 {
        None
    } else if es.last().0 == k {
        Some(es.len() - 1)
    } else {
        entry_index(es.drop_last(), k)
    }
}

/// `es` after inserting `k` with `v`: an existing entry for `k` keeps its
/// place and gets the new value; a new key goes last.
pub open spec fn map_insert(es: Entries, k: Seq<char>, v: Seq<char>) -> Entries {
    match entry_index(es, k) {
        Some(i) => es.update(i, (k, v)),
        None => es.push((k, v)),
    }
}

/// `IndexMap::new`: an empty map.
#[verifier::external_body]
fn new_map() -> (res: IndexMap<String, String>)
    ensures
        modifier_entries(res) == Seq::<(Seq<char>, Seq<char>)>::empty(),
{
    IndexMap::new()
}

/// `IndexMap::insert`: as the crate documents it, an existing key keeps its
/// place in the order and gets the new value, a new key is inserted last.
#[verifier::external_body]
fn map_insert_exec(m: &mut IndexMap<String, String>, k: String, v: String)
    ensures
        modifier_entries(*final(m)) == map_insert(modifier_entries(*old(m)), k@, v@),
{
    m.insert(k, v);
}

/// `IndexMap::get`: the value stored for an equal key, if there is one.
#[verifier::external_body]
pub(crate) fn map_get<'a>(m: &'a IndexMap<String, String>, k: &str) -> (res: Option<&'a String>)
    ensures
        match res {
            Some(v) => lookup(modifier_entries(*m), k@) == Some(v@),
            None => lookup(modifier_entries(*m), k@) is None,
        },
{
    m.get(k)
}

/// The modifier that a condition title stands for: the title in camel case.
pub open spec fn modifier_of(title: Seq<char>) -> Seq<char> {
    lower_first(pascal(title))
}

/// The entries after discovering the modifiers of a node: a condition adds
/// its title, then the conditions below it, in order.
pub open spec fn discover_node(es: Entries, a: SpecAst) -> Entries
    decreases a,
{
    match a {
        SpecAst::Condition { title, children, .. } => discover_kids(
            map_insert(es, title, modifier_of(title)),
            children,
        ),
        _ => es,
    }
}

/// The entries after discovering the modifiers of a sequence of nodes.
pub open spec fn discover_kids(es: Entries, kids: Seq<SpecAst>) -> Entries
    decreases kids,
{
    if kids.len() == 0 {
        es
    } else {
        discover_node(discover_kids(es, kids.drop_last()), kids.last())
    }
}

/// The entries after discovering the modifiers of a tree.
pub open spec fn discover_tree(es: Entries, a: SpecAst) -> Entries {
    match a {
        SpecAst::Root { children, .. } => discover_kids(es, children),
        _ => es,
    }
}

/// The index that `entry_index` finds holds the key.
proof fn lemma_entry_index(es: Entries, k: Seq<char>)
    ensures
        entry_index(es, k) matches Some(i) ==> 0 <= i < es.len() && es[i].0 == k,
        entry_index(es, k) is None ==> lookup(es, k) is None,
    decreases es.len(),
{
    if es.len() > 0 && es.last().0 != k {
        lemma_entry_index(es.drop_last(), k);
    }
}

/// After inserting `k` with `v`, `k` maps to `v` and every other key keeps
/// its value.
pub proof fn lemma_lookup_insert(es: Entries, k: Seq<char>, v: Seq<char>, q: Seq<char>)
    ensures
        lookup(map_insert(es, k, v), q) == if q == k {
            Some(v)
        } else {
            lookup(es, q)
        },
    decreases es.len(),
{
    lemma_entry_index(es, k);
    match entry_index(es, k) {
        None => {
            assert(es.push((k, v)).drop_last() =~= es);
        },
        Some(i) => {
            if es.last().0 == k {
                assert(es.update(i, (k, v)).drop_last() =~= es.drop_last());
            } else {
                lemma_entry_index(es.drop_last(), k);
                lemma_lookup_insert(es.drop_last(), k, v, q);
                assert(es.update(i, (k, v)).drop_last() =~= es.drop_last().update(i, (k, v)));
                assert(es.update(i, (k, v)).last() == es.last());
            }
        },
    }
}

/// Every key of `es` is a key of `fs`.
pub open spec fn keys_within(es: Entries, fs: Entries) -> bool {
    forall|q: Seq<char>| #[trigger] lookup(es, q) is Some ==> lookup(fs, q) is Some
}

/// Every key of `es` maps to the modifier that it stands for.
pub open spec fn consistent(es: Entries) -> bool {
    forall|q: Seq<char>| #[trigger] lookup(es, q) is Some ==> lookup(es, q) == Some(modifier_of(q))
}

/// Every condition at or below `a` maps in `es` to the modifier that its
/// title stands for.
pub open spec fn titles_mapped(a: SpecAst, es: Entries) -> bool
    decreases a,
{
    match a {
        SpecAst::Condition { title, children, .. } => lookup(es, title) == Some(modifier_of(title))
            && kids_mapped(children, es),
        _ => true,
    }
}

/// Every member of `kids` satisfies `titles_mapped`.
pub open spec fn kids_mapped(kids: Seq<SpecAst>, es: Entries) -> bool
    decreases kids,
{
    if kids.len() == 0 {
        true
    } else {
        kids_mapped(kids.drop_last(), es) && titles_mapped(kids.last(), es)
    }
}

/// Mappings of a consistent map stay when keys are added consistently.
proof fn lemma_mapped_mono(a: SpecAst, es: Entries, fs: Entries)
    requires
        titles_mapped(a, es),
        keys_within(es, fs),
        consistent(fs),
    ensures
        titles_mapped(a, fs),
    decreases a,
{
    match a {
        SpecAst::Condition { title, children, .. } => {
            assert(lookup(es, title) is Some);
            lemma_kids_mapped_mono(children, es, fs);
        },
        _ => {},
    }
}

/// Mappings of a consistent map stay when keys are added consistently.
proof fn lemma_kids_mapped_mono(kids: Seq<SpecAst>, es: Entries, fs: Entries)
    requires
        kids_mapped(kids, es),
        keys_within(es, fs),
        consistent(fs),
    ensures
        kids_mapped(kids, fs),
    decreases kids,
{
    if kids.len() > 0 {
        lemma_kids_mapped_mono(kids.drop_last(), es, fs);
        lemma_mapped_mono(kids.last(), es, fs);
    }
}

/// Discovering a node keeps the keys and consistency, and maps every
/// condition of the node.
proof fn lemma_discover_node(es: Entries, a: SpecAst)
    requires
        consistent(es),
    ensures
        keys_within(es, discover_node(es, a)),
        consistent(discover_node(es, a)),
        titles_mapped(a, discover_node(es, a)),
    decreases a,
{
    match a {
        SpecAst::Condition { title, children, .. } => {
            let es1 = map_insert(es, title, modifier_of(title));
            assert forall|q: Seq<char>| #[trigger] lookup(es1, q) is Some implies lookup(es1, q) == Some(
                modifier_of(q),
            ) by {
                lemma_lookup_insert(es, title, modifier_of(title), q);
            }
            assert forall|q: Seq<char>| #[trigger] lookup(es, q) is Some implies lookup(es1, q) is Some by {
                lemma_lookup_insert(es, title, modifier_of(title), q);
            }
            lemma_lookup_insert(es, title, modifier_of(title), title);
            lemma_discover_kids(es1, children);
            let es2 = discover_kids(es1, children);
            assert(lookup(es1, title) is Some);
        },
        _ => {},
    }
}

/// Discovering nodes keeps the keys and consistency, and maps every
/// condition of the nodes.
proof fn lemma_discover_kids(es: Entries, kids: Seq<SpecAst>)
    requires
        consistent(es),
    ensures
        keys_within(es, discover_kids(es, kids)),
        consistent(discover_kids(es, kids)),
        kids_mapped(kids, discover_kids(es, kids)),
    decreases kids,
{
    if kids.len() > 0 {
        let es1 = discover_kids(es, kids.drop_last());
        lemma_discover_kids(es, kids.drop_last());
        lemma_discover_node(es1, kids.last());
        let es2 = discover_node(es1, kids.last());
        lemma_kids_mapped_mono(kids.drop_last(), es1, es2);
        assert forall|q: Seq<char>| #[trigger] lookup(es, q) is Some implies lookup(es2, q) is Some by {
            assert(lookup(es1, q) is Some);
        }
    }
}

/// Discovery gives every condition the modifier that its title stands for:
/// from scratch, every condition of the tree maps to its title in camel
/// case, and every key maps to its own camel case.
pub proof fn law_discovered_modifiers(a: SpecAst)
    ensures
        consistent(discover_tree(Seq::empty(), a)),
        a matches SpecAst::Root { children, .. } ==> kids_mapped(children, discover_tree(Seq::empty(), a)),
{
    let es: Entries = Seq::empty();
    assert forall|q: Seq<char>| #[trigger] lookup(es, q) is Some implies lookup(es, q) == Some(modifier_of(q)) by {}
    match a {
        SpecAst::Root { children, .. } => lemma_discover_kids(es, children),
        _ => {},
    }
}

/// An AST visitor that discovers modifiers: every condition title is
/// mapped to its camel-cased form, in the order in which titles first occur.
pub struct ModifierDiscoverer {
    modifiers: IndexMap<String, String>,
}

impl ModifierDiscoverer {
    /// The entries of the map of modifiers discovered so far.
    pub closed spec fn entries(&self) -> Entries {
        modifier_entries(self.modifiers)
    }

    /// Creates a new discoverer.
    pub fn new() -> (res: Self)
        ensures
            res.entries() == Seq::<(Seq<char>, Seq<char>)>::empty(),
    {
        ModifierDiscoverer { modifiers: new_map() }
    }

    /// Discovers the modifiers of the conditions of a tree, and returns the
    /// map of all the modifiers discovered so far.
    pub fn discover(&mut self, ast: &Ast) -> (res: &IndexMap<String, String>)
        requires
            ast@ is Root,
        ensures
            final(self).entries() == discover_tree(old(self).entries(), ast@),
            modifier_entries(*res) == final(self).entries(),
    {
        match ast {
            Ast::Root(root) => {
                self.visit_kids(&root.children);
            },
            _ => {},
        }
        &self.modifiers
    }

    /// Discovers the modifiers of a node.
    fn visit_node(&mut self, a: &Ast)
        ensures
            final(self).entries() == discover_node(old(self).entries(), a@),
        decreases a,
    {
        match a {
            Ast::Condition(c) => {
                let m = lower_first_letter(to_pascal_case(c.title.as_str()).as_str());
                map_insert_exec(&mut self.modifiers, c.title.clone(), m);
                self.visit_kids(&c.children);
            },
            _ => {},
        }
    }

    /// Discovers the modifiers of a sequence of nodes, in order.
    fn visit_kids(&mut self, kids: &Vec<Ast>)
        ensures
            final(self).entries() == discover_kids(old(self).entries(), asts_view(kids@)),
        decreases kids,
    {
        proof {
            crate::syntax::ast::lemma_asts_view(kids@);
        }
        let mut i: usize = 0;
        assert(asts_view(kids@).take(0) =~= Seq::<SpecAst>::empty());
        while i < kids.len()
            invariant
                i <= kids@.len(),
                asts_view(kids@).len() == kids@.len(),
                forall|j: int| 0 <= j < kids@.len() ==> #[trigger] asts_view(kids@)[j] == kids@[j]@,
                self.entries() == discover_kids(old(self).entries(), asts_view(kids@).take(i as int)),
            decreases kids@.len() - i,
        {
            assert(asts_view(kids@).take(i + 1).drop_last() =~= asts_view(kids@).take(i as int));
            assert(asts_view(kids@).take(i + 1).last() == kids@[i as int]@);
            self.visit_node(&kids[i]);
            i = i + 1;
        }
        assert(asts_view(kids@).take(kids@.len() as int) =~= asts_view(kids@));
    }
}

} // verus!
