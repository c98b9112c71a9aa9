//! The tree of modules of the resolver, and the declarations that each module holds.

use vstd::prelude::*;
use std::collections::HashMap;
use crate::location::{FileId, Span};
use crate::types::Symbol;

verus! {

broadcast use vstd::std_specs::hash::group_hash_axioms;

/// The identifier of a namespace (a module).
pub type NamespaceId = usize;

/// A tree of modules: the identifier of this module and its submodules by name.
#[derive(Debug)]
pub struct ModuleTree {
    pub name: NamespaceId,
    pub children: HashMap<Symbol, ModuleTree>,
}

/// The module found by following `path` from `t`.
pub open spec fn tree_find(t: ModuleTree, path: Seq<Symbol>) -> Option<NamespaceId>
    decreases path.len(),
{
    if path.len() == 0 {
        Some(t.name)
    } else if t.children@.contains_key(path[0]) {
        tree_find(t.children@[path[0]], path.drop_first())
    } else {
        None
    }
}

/// The subtree found by following `path` from `t`.
pub open spec fn tree_sub(t: ModuleTree, path: Seq<Symbol>) -> Option<ModuleTree>
    decreases path.len(),
{
    if path.len() == 0 {
        Some(t)
    } else if t.children@.contains_key(path[0]) {
        tree_sub(t.children@[path[0]], path.drop_first())
    } else {
        None
    }
}

/// `new` is `old` after inserting `id` at `path`: following `path`, the first missing
/// module is added with identifier `id` and no submodules; everything else is kept.
pub open spec fn tree_inserted(
    old: ModuleTree,
    new: ModuleTree,
    path: Seq<Symbol>,
    id: NamespaceId,
) -> bool
    decreases path.len(),
{
    if path.len() == 0 {
        new == old
    } else {
        &&& new.name == old.name
        &&& new.children@.dom() == old.children@.dom().insert(path[0])
        &&& forall|k: Symbol|
            k != path[0] && #[trigger] old.children@.contains_key(k) ==> new.children@[k]
                == old.children@[k]
        &&& if old.children@.contains_key(path[0]) {
            tree_inserted(old.children@[path[0]], new.children@[path[0]], path.drop_first(), id)
        } else {
            &&& new.children@[path[0]].name == id
            &&& new.children@[path[0]].children@ == Map::<Symbol, ModuleTree>::empty()
        }
    }
}

impl ModuleTree {
    /// A module with no submodules.
    pub fn new(name: NamespaceId) -> (t: ModuleTree)
        ensures
            t.name == name,
            t.children@ == Map::<Symbol, ModuleTree>::empty(),
    {
        ModuleTree { name, children: HashMap::new() }
    }

    /// The module at `path`, if every step of it exists.
    pub fn find(&self, path: &[Symbol]) -> (r: Option<NamespaceId>)
        ensures
            r == tree_find(*self, path@),
    {
        proof {
            assert(path@.skip(0) =~= path@);
        }
        self.find_from(path, 0)
    }

    fn find_from(&self, path: &[Symbol], start: usize) -> (r: Option<NamespaceId>)
        requires
            start <= path@.len(),
        ensures
            r == tree_find(*self, path@.skip(start as int)),
        decreases path@.len() - start,
    {
        if start >= path.len() {
            return Some(self.name);
        }
        let first = path[start];
        proof {
            assert(path@.skip(start as int)[0] == first);
            assert(path@.skip(start as int).drop_first() =~= path@.skip(start + 1));
        }
        match self.children.get(&first) {
            Some(child) => child.find_from(path, start + 1),
            None => None,
        }
    }

    /// The subtree at `path`, if every step of it exists.
    pub fn find_sub_tree(&self, path: &[Symbol]) -> (r: Option<&ModuleTree>)
        ensures
            match r {
                Some(t) => tree_sub(*self, path@) == Some(*t),
                None => tree_sub(*self, path@) is None,
            },
    {
        proof {
            assert(path@.skip(0) =~= path@);
        }
        self.find_sub_tree_from(path, 0)
    }

    fn find_sub_tree_from(&self, path: &[Symbol], start: usize) -> (r: Option<&ModuleTree>)
        requires
            start <= path@.len(),
        ensures
            match r {
                Some(t) => tree_sub(*self, path@.skip(start as int)) == Some(*t),
                None => tree_sub(*self, path@.skip(start as int)) is None,
            },
        decreases path@.len() - start,
    {
        if start >= path.len() {
            return Some(self);
        }
        let first = path[start];
        proof {
            assert(path@.skip(start as int)[0] == first);
            assert(path@.skip(start as int).drop_first() =~= path@.skip(start + 1));
        }
        match self.children.get(&first) {
            Some(child) => child.find_sub_tree_from(path, start + 1),
            None => None,
        }
    }

    /// Inserts a new module into the tree. Following `path`, the first module that does
    /// not exist is added with identifier `id`, and `None` is returned. If the whole path
    /// already exists, nothing changes and the identifier of the existing module is
    /// returned.
    pub fn insert(&mut self, path: &[Symbol], id: NamespaceId) -> (r: Option<NamespaceId>)
        ensures
            r == tree_find(*old(self), path@),
            tree_inserted(*old(self), *final(self), path@, id),
    {
        proof {
            assert(path@.skip(0) =~= path@);
        }
        self.insert_from(path, 0, id)
    }

    fn insert_from(&mut self, path: &[Symbol], start: usize, id: NamespaceId) -> (r: Option<
        NamespaceId,
    >)
        requires
            start <= path@.len(),
        ensures
            r == tree_find(*old(self), path@.skip(start as int)),
            tree_inserted(*old(self), *final(self), path@.skip(start as int), id),
        decreases path@.len() - start,
    {
        if start >= path.len() {
            return Some(self.name);
        }
        let first = path[start];
        let ghost rest = path@.skip(start as int);
        let ghost before = self.children@;
        proof {
            assert(rest[0] == first);
            assert(rest.drop_first() =~= path@.skip(start + 1));
        }
        match self.children.remove(&first) {
            Some(mut child) => {
                let r = child.insert_from(path, start + 1, id);
                self.children.insert(first, child);
                proof {
                    assert(self.children@.dom() =~= before.dom().insert(first));
                }
                r
            },
            None => {
                self.children.insert(first, ModuleTree::new(id));
                proof {
                    assert(self.children@.dom() =~= before.dom().insert(first));
                }
                None
            },
        }
    }
}

/// A name declared in a module.
#[derive(Clone, Copy, Debug, PartialEq, Eq, Structural)]
pub enum DataType {
    Constructor(Symbol),
    Type(Symbol),
    Let(Symbol),
}

/// The names declared in a module, and its path.
#[derive(Debug, PartialEq, Eq)]
pub struct Definition {
    pub path: Vec<Symbol>,
    /// The declared names, each once.
    pub decls: Vec<DataType>,
}

impl Definition {
    /// A module at `path` with no declarations.
    pub fn new(path: Vec<Symbol>) -> (d: Definition)
        ensures
            d.path@ == path@,
            d.decls@.len() == 0,
    {
        Definition { path, decls: Vec::new() }
    }

    /// Whether `item` is declared.
    pub fn contains(&self, item: &DataType) -> (r: bool)
        ensures
            r == self.decls@.contains(*item),
    {
        let mut i: usize = 0;
        while i < self.decls.len()
            invariant
                i <= self.decls@.len(),
                forall|j: int| 0 <= j < i ==> self.decls@[j] != *item,
            decreases self.decls@.len() - i,
        {
            if self.decls[i] == *item {
                return true;
            }
            i = i + 1;
        }
        false
    }

    /// Declares `item`; nothing changes when it is already declared.
    pub fn insert(&mut self, item: DataType) -> (r: bool)
        ensures
            r == !old(self).decls@.contains(item),
            final(self).decls@ == if r {
                old(self).decls@.push(item)
            } else {
                old(self).decls@
            },
            final(self).path == old(self).path,
    {
        if self.contains(&item) {
            false
        } else {
            self.decls.push(item);
            true
        }
    }
}

/// Why the resolver refused a declaration.
#[derive(Clone, Copy, Debug, PartialEq, Eq, Structural)]
pub enum ResolverErrorKind {
    /// The name is already declared in the module.
    AlreadyCaptured(Symbol),
}

/// A reported resolver error.
#[derive(Clone, Copy, Debug, PartialEq, Eq, Structural)]
pub struct ResolverError {
    pub message: ResolverErrorKind,
    pub range: Span,
    pub file: FileId,
}

/// The state of the resolver while it declares names: the module tree, the definitions
/// of the modules (indexed by their identifiers), the stack of modules being declared,
/// the path of the current module, and the errors reported.
pub struct Modules {
    pub counter: usize,
    pub tree: ModuleTree,
    pub definitions: Vec<Definition>,
    pub current: Vec<NamespaceId>,
    pub module: Vec<Symbol>,
    pub errors: Vec<ResolverError>,
    pub file_id: FileId,
}

impl Modules {
    /// The innermost module being declared has a definition.
    pub open spec fn has_current(&self) -> bool {
        &&& self.current@.len() > 0
        &&& self.current@.last() < self.definitions@.len()
    }

    /// Every module has a definition at the index of its identifier, and the stack of
    /// modules being declared is not empty and holds modules only.
    pub open spec fn wf(&self) -> bool {
        &&& self.definitions@.len() == self.counter
        &&& self.current@.len() > 0
        &&& forall|i: int| 0 <= i < self.current@.len() ==> #[trigger] self.current@[i] < self.counter
    }

    /// A resolver with only the root module: its identifier is 0, and the next one is 1.
    pub fn new(file_id: FileId) -> (m: Modules)
        ensures
            m.wf(),
            m.counter == 1,
            m.tree.name == 0,
            m.tree.children@ == Map::<Symbol, ModuleTree>::empty(),
            m.definitions@.len() == 1,
            m.definitions@[0].path@.len() == 0,
            m.definitions@[0].decls@.len() == 0,
            m.current@ == seq![0usize],
            m.module@.len() == 0,
            m.errors@.len() == 0,
            m.file_id == file_id,
    {
        let mut definitions: Vec<Definition> = Vec::new();
        definitions.push(Definition::new(Vec::new()));
        let mut current: Vec<NamespaceId> = Vec::new();
        current.push(0);
        Modules {
            counter: 1,
            tree: ModuleTree::new(0),
            definitions,
            current,
            module: Vec::new(),
            errors: Vec::new(),
            file_id,
        }
    }

    /// The module at `path`.
    pub fn find_module(&self, path: &[Symbol]) -> (r: Option<NamespaceId>)
        ensures
            r == tree_find(self.tree, path@),
    {
        self.tree.find(path)
    }

    /// Adds the module at `path` with the next identifier, makes it the current module,
    /// and gives it an empty definition. The module must not exist yet.
    pub fn add_module(&mut self, path: Vec<Symbol>) -> (r: Option<NamespaceId>)
        requires
            tree_find(old(self).tree, path@) is None,
            old(self).counter < usize::MAX,
        ensures
            r == Some(old(self).counter),
            old(self).wf() ==> final(self).wf(),
            final(self).counter == old(self).counter + 1,
            tree_inserted(old(self).tree, final(self).tree, path@, old(self).counter),
            final(self).module@ == path@,
            final(self).current@ == old(self).current@.push(old(self).counter),
            final(self).definitions@.len() == old(self).definitions@.len() + 1,
            forall|i: int|
                0 <= i < old(self).definitions@.len() ==> #[trigger] final(self).definitions@[i]
                    == old(self).definitions@[i],
            final(self).definitions@.last().path@ == path@,
            final(self).definitions@.last().decls@.len() == 0,
            final(self).errors == old(self).errors,
            final(self).file_id == old(self).file_id,
    {
        let id = self.counter;
        self.counter = self.counter + 1;
        let inserted = self.tree.insert(path.as_slice(), id);
        match inserted {
            None => {
                self.module = path.clone();
            },
            Some(_) => {
                // Excluded by the precondition: the module would already exist.
                proof {
                    assert(false);
                }
            },
        }
        self.current.push(id);
        self.definitions.push(Definition::new(path));
        Some(id)
    }
}

/// Inserting a module under an existing module that has no child of that name makes the
/// new module found at its path, with the given identifier.
pub proof fn lemma_insert_then_find(t: ModuleTree, u: ModuleTree, prefix: Seq<Symbol>, name: Symbol, id: NamespaceId)
    requires
        tree_find(t, prefix) is Some,
        tree_find(t, prefix.push(name)) is None,
        tree_inserted(t, u, prefix.push(name), id),
    ensures
        tree_find(u, prefix.push(name)) == Some(id),
        tree_find(u, prefix) == tree_find(t, prefix),
    decreases prefix.len(),
{
    let p = prefix.push(name);
    if prefix.len() == 0 {
        assert(p[0] == name);
        assert(p.drop_first() =~= Seq::<Symbol>::empty());
        if t.children@.contains_key(name) {
            assert(tree_find(t.children@[name], p.drop_first()) is Some);
        }
        assert(!t.children@.contains_key(name));
        assert(u.children@.dom().contains(name));
        assert(u.children@[name].name == id);
        assert(tree_find(u.children@[name], p.drop_first()) == Some(id));
    } else {
        assert(p[0] == prefix[0]);
        assert(p.drop_first() =~= prefix.drop_first().push(name));
        lemma_insert_then_find(
            t.children@[prefix[0]],
            u.children@[prefix[0]],
            prefix.drop_first(),
            name,
            id,
        );
    }
}

/// Inserting a module under an existing module keeps every other child of that module
/// where it was.
pub proof fn lemma_insert_keeps_other(
    t: ModuleTree,
    u: ModuleTree,
    prefix: Seq<Symbol>,
    name: Symbol,
    id: NamespaceId,
    other: Symbol,
)
    requires
        tree_find(t, prefix) is Some,
        tree_find(t, prefix.push(name)) is None,
        tree_inserted(t, u, prefix.push(name), id),
        other != name,
    ensures
        tree_find(u, prefix.push(other)) == tree_find(t, prefix.push(other)),
    decreases prefix.len(),
{
    let p = prefix.push(name);
    let q = prefix.push(other);
    if prefix.len() == 0 {
        assert(p[0] == name);
        assert(q[0] == other);
        assert(q.drop_first() =~= Seq::<Symbol>::empty());
        assert(p.drop_first() =~= Seq::<Symbol>::empty());
        if t.children@.contains_key(name) {
            assert(tree_find(t.children@[name], p.drop_first()) is Some);
        }
        if t.children@.contains_key(other) {
            assert(u.children@.contains_key(other));
        }
    } else {
        assert(p[0] == prefix[0]);
        assert(q[0] == prefix[0]);
        assert(p.drop_first() =~= prefix.drop_first().push(name));
        assert(q.drop_first() =~= prefix.drop_first().push(other));
        lemma_insert_keeps_other(
            t.children@[prefix[0]],
            u.children@[prefix[0]],
            prefix.drop_first(),
            name,
            id,
            other,
        );
    }
}

/// A module inserted under an existing module has no submodules.
pub proof fn lemma_inserted_leaf(
    t: ModuleTree,
    u: ModuleTree,
    prefix: Seq<Symbol>,
    name: Symbol,
    id: NamespaceId,
    x: Symbol,
)
    requires
        tree_find(t, prefix) is Some,
        tree_find(t, prefix.push(name)) is None,
        tree_inserted(t, u, prefix.push(name), id),
    ensures
        tree_find(u, prefix.push(name).push(x)) is None,
    decreases prefix.len(),
{
    let p = prefix.push(name);
    let q = p.push(x);
    if prefix.len() == 0 {
        assert(p[0] == name);
        assert(q[0] == name);
        assert(p.drop_first() =~= Seq::<Symbol>::empty());
        assert(q.drop_first() =~= seq![x]);
        if t.children@.contains_key(name) {
            assert(tree_find(t.children@[name], p.drop_first()) is Some);
        }
        let c = u.children@[name];
        assert(!c.children@.contains_key(x));
        assert(tree_find(c, seq![x]) is None);
    } else {
        assert(p[0] == prefix[0]);
        assert(q[0] == prefix[0]);
        assert(p.drop_first() =~= prefix.drop_first().push(name));
        assert(q.drop_first() =~= prefix.drop_first().push(name).push(x));
        lemma_inserted_leaf(
            t.children@[prefix[0]],
            u.children@[prefix[0]],
            prefix.drop_first(),
            name,
            id,
            x,
        );
    }
}

/// Inserting a module at `p` adds modules only along `p`: a path missing before and found
/// after is a prefix of `p`.
pub proof fn lemma_insert_only_prefix(
    t: ModuleTree,
    u: ModuleTree,
    p: Seq<Symbol>,
    id: NamespaceId,
    q: Seq<Symbol>,
)
    requires
        tree_inserted(t, u, p, id),
        tree_find(t, q) is None,
        tree_find(u, q) is Some,
    ensures
        q.len() <= p.len(),
        q == p.take(q.len() as int),
    decreases q.len(),
{
    if p.len() == 0 {
        assert(u == t);
    } else if q.len() == 0 {
    } else {
        let k = q[0];
        assert(u.children@.contains_key(k));
        if k != p[0] {
            assert(t.children@.contains_key(k));
            assert(u.children@[k] == t.children@[k]);
        } else if t.children@.contains_key(k) {
            lemma_insert_only_prefix(
                t.children@[k],
                u.children@[k],
                p.drop_first(),
                id,
                q.drop_first(),
            );
            assert(q =~= seq![k] + q.drop_first());
            assert(p.take(q.len() as int) =~= seq![k] + p.drop_first().take(
                q.drop_first().len() as int,
            ));
        } else {
            let leaf = u.children@[k];
            assert(leaf.children@ == Map::<Symbol, ModuleTree>::empty());
            assert(tree_find(u, q) == tree_find(leaf, q.drop_first()));
            if q.drop_first().len() > 0 {
                assert(!leaf.children@.contains_key(q.drop_first()[0]));
                assert(tree_find(leaf, q.drop_first()) is None);
            }
            assert(q.len() == 1);
            assert(q =~= seq![k]);
            assert(p.take(1) =~= seq![p[0]]);
        }
    }
}

/// Below a missing module, nothing is found.
pub proof fn lemma_missing_below(t: ModuleTree, p: Seq<Symbol>, x: Symbol)
    requires
        tree_find(t, p) is None,
    ensures
        tree_find(t, p.push(x)) is None,
    decreases p.len(),
{
    if p.len() > 0 {
        assert(p.push(x)[0] == p[0]);
        assert(p.push(x).drop_first() =~= p.drop_first().push(x));
        if t.children@.contains_key(p[0]) {
            lemma_missing_below(t.children@[p[0]], p.drop_first(), x);
        }
    }
}

} // verus!
