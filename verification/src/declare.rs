//! Declaration of the names of a program: every type becomes a module of its own, its
//! constructors are declared in it, and every `let` is declared in the current module.

use vstd::prelude::*;
use crate::location::{FileId, Span};
use crate::modules::{
    DataType, Definition, Modules, NamespaceId, ResolverError, ResolverErrorKind, ModuleTree,
    lemma_insert_only_prefix, lemma_insert_then_find, lemma_insert_keeps_other,
    lemma_missing_below, tree_find, tree_inserted,
};
use crate::types::Symbol;

verus! {

/// A constructor of an enum type.
#[derive(Clone, Copy, Debug, PartialEq, Eq)]
pub struct Variant {
    pub name: Symbol,
}

/// The definition of a type.
#[derive(Debug, PartialEq, Eq)]
pub enum TypeDef {
    Enum(Vec<Variant>),
    Record,
    Synonym,
}

/// A type declaration; `id` is the module that declaring it makes.
#[derive(Debug, PartialEq, Eq)]
pub struct TypeDecl {
    pub name: Symbol,
    pub def: TypeDef,
    pub id: Option<NamespaceId>,
}

/// A `let` declaration: its name and where the name is written.
#[derive(Clone, Copy, Debug, PartialEq, Eq)]
pub struct LetDecl {
    pub name: Symbol,
    pub range: Span,
}

/// The declarations of a program.
#[derive(Debug, PartialEq, Eq)]
pub struct Program {
    pub types: Vec<TypeDecl>,
    pub lets: Vec<LetDecl>,
}

/// `decls` after declaring each of `items` in turn, each once.
pub open spec fn insert_all(decls: Seq<DataType>, items: Seq<DataType>) -> Seq<DataType>
    decreases items.len(),
{
    if items.len() == 0 {
        decls
    } else {
        let before = insert_all(decls, items.drop_last());
        if before.contains(items.last()) {
            before
        } else {
            before.push(items.last())
        }
    }
}

/// Declaring keeps every name declared once, and declares exactly the names before and
/// the names given.
pub proof fn lemma_insert_all_once(decls: Seq<DataType>, items: Seq<DataType>)
    ensures
        decls.no_duplicates() ==> insert_all(decls, items).no_duplicates(),
        forall|x: DataType| #[trigger] insert_all(decls, items).contains(x) <==> decls.contains(x)
            || items.contains(x),
    decreases items.len(),
{
    if items.len() > 0 {
        let init = items.drop_last();
        lemma_insert_all_once(decls, init);
        let before = insert_all(decls, init);
        assert forall|x: DataType| #[trigger] insert_all(decls, items).contains(x) <==> decls.contains(x)
            || items.contains(x) by {
            if items.contains(x) && x != items.last() {
                let i = choose|i: int| 0 <= i < items.len() && items[i] == x;
                assert(init[i] == x);
            }
            if init.contains(x) {
                let i = choose|i: int| 0 <= i < init.len() && init[i] == x;
                assert(items[i] == x);
            }
            if x == items.last() {
                assert(items[items.len() - 1] == x);
            }
            if !before.contains(items.last()) {
                let after = before.push(items.last());
                if after.contains(x) && x != items.last() {
                    let i = choose|i: int| 0 <= i < after.len() && after[i] == x;
                    assert(before[i] == x);
                }
                if before.contains(x) {
                    let i = choose|i: int| 0 <= i < before.len() && before[i] == x;
                    assert(after[i] == x);
                }
                if x == items.last() {
                    assert(after[before.len() as int] == x);
                }
            }
        }
    }
}

/// The constructors of an enum, as declarations.
pub open spec fn constructors(variants: Seq<Variant>) -> Seq<DataType> {
    Seq::new(variants.len(), |i: int| DataType::Constructor(variants[i].name))
}

/// The index of the definition of the innermost module being declared.
pub open spec fn current_index(m: Modules) -> int {
    m.current@.last() as int
}

impl Modules {
    /// The definition of the innermost module being declared.
    pub fn current(&mut self) -> (d: &mut Definition)
        requires
            old(self).has_current(),
        ensures
            *d == old(self).definitions@[current_index(*old(self))],
            final(self).definitions@ == old(self).definitions@.update(
                current_index(*old(self)),
                *final(d),
            ),
            final(self).counter == old(self).counter,
            final(self).tree == old(self).tree,
            final(self).current == old(self).current,
            final(self).module == old(self).module,
            final(self).errors == old(self).errors,
            final(self).file_id == old(self).file_id,
    {
        let idx = self.current[self.current.len() - 1];
        &mut self.definitions[idx]
    }
}

impl Variant {
    /// Declares the constructor in the last definition.
    pub fn declare(&mut self, context: &mut Modules)
        requires
            old(context).definitions@.len() > 0,
        ensures
            ({
                let n = old(context).definitions@.len() - 1;
                let last = old(context).definitions@[n];
                final(context).definitions@ == old(context).definitions@.update(
                    n,
                    Definition {
                        path: last.path,
                        decls: final(context).definitions@[n].decls,
                    },
                ) && final(context).definitions@[n].decls@ == insert_all(
                    last.decls@,
                    seq![DataType::Constructor(old(self).name)],
                )
            }),
            final(context).counter == old(context).counter,
            final(context).tree == old(context).tree,
            final(context).current == old(context).current,
            final(context).module == old(context).module,
            final(context).errors == old(context).errors,
            final(context).file_id == old(context).file_id,
            *final(self) == *old(self),
    {
        let n = context.definitions.len() - 1;
        let ghost item = DataType::Constructor(self.name);
        let ghost before = context.definitions@[n as int].decls@;
        let ghost d0 = context.definitions@[n as int];
        let _ = context.definitions[n].insert(DataType::Constructor(self.name));
        proof {
            assert(seq![item].drop_last() =~= Seq::<DataType>::empty());
            assert(insert_all(before, Seq::<DataType>::empty()) == before);
            let d1 = context.definitions@[n as int];
            assert(d1.path == d0.path);
            assert(d1.decls@ == insert_all(before, seq![item]));
            assert(d1 == Definition { path: d0.path, decls: d1.decls });
        }
    }
}

/// Declares each variant in turn in the last definition.
pub fn declare_variants(variants: &mut Vec<Variant>, context: &mut Modules)
    requires
        old(context).definitions@.len() > 0,
    ensures
        ({
            let n = old(context).definitions@.len() - 1;
            let last = old(context).definitions@[n];
            final(context).definitions@ == old(context).definitions@.update(
                n,
                Definition { path: last.path, decls: final(context).definitions@[n].decls },
            ) && final(context).definitions@[n].decls@ == insert_all(
                last.decls@,
                constructors(old(variants)@),
            )
        }),
        final(context).counter == old(context).counter,
        final(context).tree == old(context).tree,
        final(context).current == old(context).current,
        final(context).module == old(context).module,
        final(context).errors == old(context).errors,
        final(context).file_id == old(context).file_id,
        final(variants)@ == old(variants)@,
{
    let ghost c0 = *context;
    let ghost vs = variants@;
    let n = context.definitions.len() - 1;
    let mut i: usize = 0;
    while i < variants.len()
        invariant
            n == c0.definitions@.len() - 1,
            variants@ == vs,
            i <= vs.len(),
            context.definitions@ == c0.definitions@.update(
                n as int,
                Definition {
                    path: c0.definitions@[n as int].path,
                    decls: context.definitions@[n as int].decls,
                },
            ),
            context.definitions@[n as int].decls@ == insert_all(
                c0.definitions@[n as int].decls@,
                constructors(vs).take(i as int),
            ),
            context.counter == c0.counter,
            context.tree == c0.tree,
            context.current == c0.current,
            context.module == c0.module,
            context.errors == c0.errors,
            context.file_id == c0.file_id,
        decreases vs.len() - i,
    {
        let ghost before = *context;
        let ghost prev = context.definitions@[n as int].decls@;
        variants[i].declare(context);
        proof {
            let items = constructors(vs).take(i + 1);
            let c = DataType::Constructor(vs[i as int].name);
            assert(seq![c].drop_last() =~= Seq::<DataType>::empty());
            assert(insert_all(prev, Seq::<DataType>::empty()) == prev);
            assert(insert_all(prev, seq![c]) == if prev.contains(c) {
                prev
            } else {
                prev.push(c)
            });
            assert(items.drop_last() =~= constructors(vs).take(i as int));
            assert(items.last() == c);
            assert(insert_all(c0.definitions@[n as int].decls@, items) == insert_all(prev, seq![c]));
            assert(variants@ =~= vs);
            assert(seq![items.last()].drop_last() =~= Seq::<DataType>::empty());
            assert(context.definitions@ =~= c0.definitions@.update(
                n as int,
                Definition {
                    path: c0.definitions@[n as int].path,
                    decls: context.definitions@[n as int].decls,
                },
            ));
        }
        i = i + 1;
    }
    proof {
        assert(constructors(vs).take(vs.len() as int) =~= constructors(vs));
    }
}

/// The declarations of a type: its constructors if it is an enum, else none.
pub open spec fn type_items(def: TypeDef) -> Seq<DataType> {
    match def {
        TypeDef::Enum(vs) => constructors(vs@),
        _ => Seq::empty(),
    }
}

impl TypeDecl {
    /// Declares the type in the current module, makes a module for it under the current
    /// module path with the next identifier, declares its constructors there, and comes
    /// back to the current module. The module of the type must not exist yet.
    pub fn declare(&mut self, context: &mut Modules)
        requires
            old(context).has_current(),
            tree_find(old(context).tree, old(context).module@.push(old(self).name)) is None,
            old(context).counter < usize::MAX,
        ensures
            final(self).id == Some(old(context).counter),
            final(self).name == old(self).name,
            type_items(final(self).def) == type_items(old(self).def),
            final(context).counter == old(context).counter + 1,
            tree_inserted(
                old(context).tree,
                final(context).tree,
                old(context).module@.push(old(self).name),
                old(context).counter,
            ),
            final(context).module@ == old(context).module@,
            final(context).current@ == old(context).current@,
            final(context).definitions@.len() == old(context).definitions@.len() + 1,
            forall|i: int|
                0 <= i < old(context).definitions@.len() && i != current_index(*old(context))
                    ==> #[trigger] final(context).definitions@[i] == old(context).definitions@[i],
            final(context).definitions@[current_index(*old(context))].path == old(
                context,
            ).definitions@[current_index(*old(context))].path,
            final(context).definitions@[current_index(*old(context))].decls@ == insert_all(
                old(context).definitions@[current_index(*old(context))].decls@,
                seq![DataType::Type(old(self).name)],
            ),
            final(context).definitions@.last().path@ == old(context).module@.push(old(self).name),
            final(context).definitions@.last().decls@ == insert_all(
                Seq::empty(),
                type_items(old(self).def),
            ),
            final(context).errors == old(context).errors,
            final(context).file_id == old(context).file_id,
    {
        let ghost c0 = *context;
        let ghost ci = current_index(c0);
        let name = self.name;
        {
            let defs = context.current();
            let _ = defs.insert(DataType::Type(name));
        }
        proof {
            let item = DataType::Type(name);
            assert(seq![item].drop_last() =~= Seq::<DataType>::empty());
            assert(insert_all(c0.definitions@[ci].decls@, Seq::<DataType>::empty())
                == c0.definitions@[ci].decls@);
        }
        let ghost c1 = *context;
        let old_path = context.module.clone();
        let mut path = context.module.clone();
        path.push(name);
        proof {
            assert(old_path@ =~= c0.module@);
            assert(path@ =~= c0.module@.push(name));
        }
        let id = context.add_module(path).unwrap();
        self.id = Some(id);
        let ghost c2 = *context;
        let ghost items0 = type_items(self.def);
        match &mut self.def {
            TypeDef::Enum(variants) => {
                let ghost vs0 = variants@;
                proof {
                    assert(items0 == constructors(vs0));
                    assert(c2.definitions@.last().decls@ =~= Seq::<DataType>::empty());
                }
                declare_variants(variants, context);
                proof {
                    assert(context.definitions@.last().decls@ == insert_all(
                        Seq::<DataType>::empty(),
                        items0,
                    ));
                }
            },
            _ => {
                proof {
                    assert(insert_all(Seq::<DataType>::empty(), Seq::<DataType>::empty())
                        == Seq::<DataType>::empty());
                }
            },
        }
        let _ = context.current.pop();
        context.module = old_path;
        proof {
            assert(context.current@ =~= c0.current@);
        }
    }
}

impl LetDecl {
    /// Declares the name in the current module; a name already declared there is
    /// reported.
    pub fn declare(&mut self, context: &mut Modules)
        requires
            old(context).has_current(),
        ensures
            ({
                let ci = current_index(*old(context));
                let decls = old(context).definitions@[ci].decls@;
                let item = DataType::Let(old(self).name);
                &&& final(context).definitions@ == old(context).definitions@.update(
                    ci,
                    Definition {
                        path: old(context).definitions@[ci].path,
                        decls: final(context).definitions@[ci].decls,
                    },
                )
                &&& final(context).definitions@[ci].decls@ == insert_all(decls, seq![item])
                &&& final(context).errors@ == if decls.contains(item) {
                    old(context).errors@.push(
                        ResolverError {
                            message: ResolverErrorKind::AlreadyCaptured(old(self).name),
                            range: old(self).range,
                            file: old(context).file_id,
                        },
                    )
                } else {
                    old(context).errors@
                }
            }),
            final(context).counter == old(context).counter,
            final(context).tree == old(context).tree,
            final(context).current == old(context).current,
            final(context).module == old(context).module,
            final(context).file_id == old(context).file_id,
            *final(self) == *old(self),
    {
        let file = context.file_id;
        let ci = context.current[context.current.len() - 1];
        let item = DataType::Let(self.name);
        let already = context.definitions[ci].contains(&item);
        if already {
            context.errors.push(
                ResolverError {
                    message: ResolverErrorKind::AlreadyCaptured(self.name),
                    range: self.range,
                    file,
                },
            );
        }
        let ghost c1 = *context;
        let defs = context.current();
        let _ = defs.insert(item);
        proof {
            assert(seq![item].drop_last() =~= Seq::<DataType>::empty());
            assert(insert_all(c1.definitions@[ci as int].decls@, Seq::<DataType>::empty())
                == c1.definitions@[ci as int].decls@);
        }
    }
}

/// The names of type declarations, as declarations.
pub open spec fn type_names(types: Seq<TypeDecl>) -> Seq<DataType> {
    Seq::new(types.len(), |i: int| DataType::Type(types[i].name))
}

/// The names of `let` declarations, as declarations.
pub open spec fn let_names(lets: Seq<LetDecl>) -> Seq<DataType> {
    Seq::new(lets.len(), |i: int| DataType::Let(lets[i].name))
}

/// The errors reported when declaring `lets` in turn in a module that holds `decls`: one
/// for each name already declared when its turn comes.
pub open spec fn let_errors(decls: Seq<DataType>, lets: Seq<LetDecl>, file: FileId) -> Seq<
    ResolverError,
>
    decreases lets.len(),
{
    if lets.len() == 0 {
        Seq::empty()
    } else {
        let prev = let_errors(decls, lets.drop_last(), file);
        let seen = insert_all(decls, let_names(lets.drop_last()));
        if seen.contains(DataType::Let(lets.last().name)) {
            prev.push(
                ResolverError {
                    message: ResolverErrorKind::AlreadyCaptured(lets.last().name),
                    range: lets.last().range,
                    file,
                },
            )
        } else {
            prev
        }
    }
}

/// Declaring two lists in turn is declaring their concatenation.
pub proof fn lemma_insert_all_append(d: Seq<DataType>, a: Seq<DataType>, b: Seq<DataType>)
    ensures
        insert_all(insert_all(d, a), b) == insert_all(d, a + b),
    decreases b.len(),
{
    if b.len() == 0 {
        assert(a + b =~= a);
    } else {
        lemma_insert_all_append(d, a, b.drop_last());
        assert((a + b).drop_last() =~= a + b.drop_last());
        assert((a + b).last() == b.last());
    }
}

/// `trees` goes from its first tree to its last one by inserting, for each type in turn,
/// the module of the type under `module`, with the next identifier from `counter`.
pub open spec fn insert_chain(
    trees: Seq<ModuleTree>,
    module: Seq<Symbol>,
    ts: Seq<TypeDecl>,
    counter: nat,
) -> bool {
    &&& trees.len() == ts.len() + 1
    &&& forall|i: int|
        0 <= i < ts.len() ==> #[trigger] tree_inserted(
            trees[i],
            trees[i + 1],
            module.push(ts[i].name),
            (counter + i) as usize,
        )
}

/// What declaring a program requires: there is a current module, no module is found
/// under the current module path with the name of one of the types, the type names are
/// distinct, and the identifiers do not run out.
pub open spec fn can_declare(context: Modules, types: Seq<TypeDecl>) -> bool {
    &&& context.has_current()
    &&& forall|i: int|
        0 <= i < types.len() ==> tree_find(
            context.tree,
            context.module@.push(#[trigger] types[i].name),
        ) is None
    &&& forall|i: int, j: int|
        0 <= i < j < types.len() ==> #[trigger] types[i].name != #[trigger] types[j].name
    &&& context.counter + types.len() < usize::MAX
}

impl Program {
    /// Declares every type, then every `let`, in the current module.
    pub fn declare(&mut self, context: &mut Modules)
        requires
            can_declare(*old(context), old(self).types@),
        ensures
            ({
                let c0 = *old(context);
                let ts = old(self).types@;
                let ci = current_index(c0);
                let n0 = c0.definitions@.len();
                let decls0 = c0.definitions@[ci].decls@;
                &&& final(context).counter == c0.counter + ts.len()
                &&& final(self).types@.len() == ts.len()
                &&& forall|i: int|
                    0 <= i < ts.len() ==> (#[trigger] final(self).types@[i]).id == Some(
                        (c0.counter + i) as usize,
                    ) && final(self).types@[i].name == ts[i].name
                &&& exists|trees: Seq<ModuleTree>|
                    #![trigger insert_chain(trees, c0.module@, ts, c0.counter as nat)]
                    insert_chain(trees, c0.module@, ts, c0.counter as nat) && trees[0] == c0.tree
                        && trees.last() == final(context).tree
                &&& tree_find(c0.tree, c0.module@) is Some ==> forall|i: int|
                    0 <= i < ts.len() ==> tree_find(
                        final(context).tree,
                        c0.module@.push(#[trigger] ts[i].name),
                    ) == Some((c0.counter + i) as usize)
                &&& tree_find(c0.tree, c0.module@) is Some ==> tree_find(
                    final(context).tree,
                    c0.module@,
                ) == tree_find(c0.tree, c0.module@)
                &&& final(context).module@ == c0.module@
                &&& final(context).current@ == c0.current@
                &&& final(context).definitions@.len() == n0 + ts.len()
                &&& forall|i: int|
                    0 <= i < n0 && i != ci ==> #[trigger] final(context).definitions@[i]
                        == c0.definitions@[i]
                &&& final(context).definitions@[ci].path == c0.definitions@[ci].path
                &&& final(context).definitions@[ci].decls@ == insert_all(
                    decls0,
                    type_names(ts) + let_names(old(self).lets@),
                )
                &&& forall|j: int|
                    0 <= j < ts.len() ==> (#[trigger] final(context).definitions@[n0 + j]).path@
                        == c0.module@.push(ts[j].name) && final(context).definitions@[n0
                        + j].decls@ == insert_all(Seq::empty(), type_items(ts[j].def))
                &&& final(context).errors@ == c0.errors@ + let_errors(
                    insert_all(decls0, type_names(ts)),
                    old(self).lets@,
                    c0.file_id,
                )
                &&& final(context).file_id == c0.file_id
                &&& final(self).lets@ == old(self).lets@
            }),
    {
        let ghost c0 = *context;
        let ghost ts = self.types@;
        let ghost ci = current_index(c0);
        let ghost n0 = c0.definitions@.len();
        let ghost decls0 = c0.definitions@[ci].decls@;
        let ghost mut trees: Seq<ModuleTree> = seq![c0.tree];
        let mut i: usize = 0;
        while i < self.types.len()
            invariant
                can_declare(c0, ts),
                trees.len() == i + 1,
                trees[0] == c0.tree,
                trees[i as int] == context.tree,
                forall|j: int|
                    0 <= j < i ==> #[trigger] tree_inserted(
                        trees[j],
                        trees[j + 1],
                        c0.module@.push(ts[j].name),
                        (c0.counter + j) as usize,
                    ),
                ci == current_index(c0),
                n0 == c0.definitions@.len(),
                decls0 == c0.definitions@[ci].decls@,
                i <= ts.len(),
                self.types@.len() == ts.len(),
                forall|j: int|
                    0 <= j < ts.len() ==> (#[trigger] self.types@[j]).name == ts[j].name,
                forall|j: int|
                    i <= j < ts.len() ==> type_items((#[trigger] self.types@[j]).def)
                        == type_items(ts[j].def),
                forall|j: int|
                    0 <= j < i ==> (#[trigger] self.types@[j]).id == Some((c0.counter + j) as usize),
                context.counter == c0.counter + i,
                context.has_current(),
                context.current@ == c0.current@,
                context.module@ == c0.module@,
                tree_find(c0.tree, c0.module@) is Some ==> tree_find(context.tree, c0.module@)
                    == tree_find(c0.tree, c0.module@),
                forall|j: int|
                    i <= j < ts.len() ==> tree_find(
                        context.tree,
                        c0.module@.push(#[trigger] ts[j].name),
                    ) is None,
                tree_find(c0.tree, c0.module@) is Some ==> forall|j: int|
                    0 <= j < i ==> tree_find(context.tree, c0.module@.push(#[trigger] ts[j].name))
                        == Some((c0.counter + j) as usize),
                context.definitions@.len() == n0 + i,
                forall|k: int|
                    0 <= k < n0 && k != ci ==> #[trigger] context.definitions@[k]
                        == c0.definitions@[k],
                context.definitions@[ci].path == c0.definitions@[ci].path,
                context.definitions@[ci].decls@ == insert_all(decls0, type_names(ts).take(i as int)),
                forall|j: int|
                    0 <= j < i ==> (#[trigger] context.definitions@[n0 + j]).path@
                        == c0.module@.push(ts[j].name) && context.definitions@[n0 + j].decls@
                        == insert_all(Seq::empty(), type_items(ts[j].def)),
                context.errors == c0.errors,
                context.file_id == c0.file_id,
                self.lets == old(self).lets,
            decreases ts.len() - i,
        {
            let ghost before = *context;
            let ghost prev_types = self.types@;
            self.types[i].declare(context);
            proof {
                let name = ts[i as int].name;
                assert(before.has_current());
                let p = c0.module@.push(name);
                assert forall|j: int| i < j < ts.len() implies tree_find(
                    context.tree,
                    c0.module@.push(#[trigger] ts[j].name),
                ) is None by {
                    let q = c0.module@.push(ts[j].name);
                    if tree_find(context.tree, q) is Some {
                        lemma_insert_only_prefix(
                            before.tree,
                            context.tree,
                            p,
                            (c0.counter + i) as usize,
                            q,
                        );
                        assert(q.take(q.len() as int) =~= q);
                        assert(p.take(q.len() as int) =~= p);
                        assert(q.last() == p.last());
                    }
                }
                if tree_find(c0.tree, c0.module@) is Some {
                    assert forall|j: int| 0 <= j < i implies tree_find(
                        context.tree,
                        c0.module@.push(#[trigger] ts[j].name),
                    ) == Some((c0.counter + j) as usize) by {
                        lemma_insert_keeps_other(
                            before.tree,
                            context.tree,
                            c0.module@,
                            name,
                            (c0.counter + i) as usize,
                            ts[j].name,
                        );
                    }
                    lemma_insert_then_find(
                        before.tree,
                        context.tree,
                        c0.module@,
                        name,
                        (c0.counter + i) as usize,
                    );
                }
                let trees2 = trees.push(context.tree);
                assert forall|j: int| 0 <= j < i + 1 implies #[trigger] tree_inserted(
                    trees2[j],
                    trees2[j + 1],
                    c0.module@.push(ts[j].name),
                    (c0.counter + j) as usize,
                ) by {
                    if j < i {
                        assert(trees2[j] == trees[j]);
                        assert(trees2[j + 1] == trees[j + 1]);
                    }
                }
                trees = trees2;
                let items = type_names(ts).take(i + 1);
                assert(items.drop_last() =~= type_names(ts).take(i as int));
                assert(items.last() == DataType::Type(name));
                lemma_insert_all_append(
                    decls0,
                    type_names(ts).take(i as int),
                    seq![DataType::Type(name)],
                );
                assert(type_names(ts).take(i as int) + seq![DataType::Type(name)] =~= items);
                assert(ci == current_index(before));
                assert forall|j: int| 0 <= j < i + 1 implies (#[trigger] context.definitions@[n0
                    + j]).path@ == c0.module@.push(ts[j].name) && context.definitions@[n0
                    + j].decls@ == insert_all(Seq::empty(), type_items(ts[j].def)) by {
                    if j < i {
                        assert(context.definitions@[n0 + j] == before.definitions@[n0 + j]);
                    }
                }
            }
            i = i + 1;
        }
        proof {
            assert(type_names(ts).take(ts.len() as int) =~= type_names(ts));
            assert(insert_chain(trees, c0.module@, ts, c0.counter as nat));
        }
        let ghost c1 = *context;
        let ghost ls = self.lets@;
        let ghost t1 = self.types@;
        let ghost decls1 = c1.definitions@[ci].decls@;
        let mut k: usize = 0;
        while k < self.lets.len()
            invariant
                ci == current_index(c0),
                ci == current_index(c1),
                c1.has_current(),
                decls1 == c1.definitions@[ci].decls@,
                k <= ls.len(),
                self.lets@ == ls,
                context.has_current(),
                context.current@ == c1.current@,
                context.counter == c1.counter,
                context.tree == c1.tree,
                context.module == c1.module,
                context.file_id == c1.file_id,
                context.definitions@ == c1.definitions@.update(
                    ci,
                    Definition {
                        path: c1.definitions@[ci].path,
                        decls: context.definitions@[ci].decls,
                    },
                ),
                context.definitions@[ci].decls@ == insert_all(decls1, let_names(ls).take(k as int)),
                context.errors@ == c1.errors@ + let_errors(decls1, ls.take(k as int), c1.file_id),
                self.types@ == t1,
            decreases ls.len() - k,
        {
            let ghost before = *context;
            self.lets[k].declare(context);
            proof {
                let l = ls[k as int];
                let lt = ls.take(k + 1);
                assert(lt.drop_last() =~= ls.take(k as int));
                assert(lt.last() == l);
                assert(let_names(lt.drop_last()) =~= let_names(ls).take(k as int));
                let items = let_names(ls).take(k + 1);
                assert(items.drop_last() =~= let_names(ls).take(k as int));
                assert(items.last() == DataType::Let(l.name));
                lemma_insert_all_append(
                    decls1,
                    let_names(ls).take(k as int),
                    seq![DataType::Let(l.name)],
                );
                assert(let_names(ls).take(k as int) + seq![DataType::Let(l.name)] =~= items);
                assert(self.lets@ =~= ls);
                assert(context.definitions@ =~= c1.definitions@.update(
                    ci,
                    Definition {
                        path: c1.definitions@[ci].path,
                        decls: context.definitions@[ci].decls,
                    },
                ));
            }
            k = k + 1;
        }
        proof {
            assert(let_names(ls).take(ls.len() as int) =~= let_names(ls));
            assert(ls.take(ls.len() as int) =~= ls);
            lemma_insert_all_append(decls0, type_names(ts), let_names(ls));
            assert(ls.take(0) =~= Seq::<LetDecl>::empty());
        }
    }
}

/// Declares `program` in a new module at `path`, and returns the identifier of that
/// module. The module must not exist yet, and the type names of the program must be
/// distinct.
pub fn declare(context: &mut Modules, program: &mut Program, path: Vec<Symbol>) -> (r: NamespaceId)
    requires
        old(context).wf(),
        tree_find(old(context).tree, path@) is None,
        forall|i: int, j: int|
            0 <= i < j < old(program).types@.len() ==> #[trigger] old(program).types@[i].name
                != #[trigger] old(program).types@[j].name,
        old(context).counter + 1 + old(program).types@.len() < usize::MAX,
    ensures
        r == old(context).counter,
        final(context).wf(),
        exists|trees: Seq<ModuleTree>|
            #![trigger insert_chain(trees, path@, old(program).types@, (r + 1) as nat)]
            insert_chain(trees, path@, old(program).types@, (r + 1) as nat) && tree_inserted(
                old(context).tree,
                trees[0],
                path@,
                r,
            ) && trees.last() == final(context).tree,
        tree_find(old(context).tree, path@.drop_last()) is Some ==> tree_find(
            final(context).tree,
            path@,
        ) == Some(r),
        tree_find(old(context).tree, path@.drop_last()) is Some ==> forall|i: int|
            0 <= i < old(program).types@.len() ==> tree_find(
                final(context).tree,
                path@.push(#[trigger] old(program).types@[i].name),
            ) == Some((old(context).counter + 1 + i) as usize),
        final(context).current@ == old(context).current@,
        final(context).module@ == path@,
        final(context).counter == old(context).counter + 1 + old(program).types@.len(),
        final(context).definitions@[r as int].path@ == path@,
        final(context).definitions@[r as int].decls@ == insert_all(
            Seq::empty(),
            type_names(old(program).types@) + let_names(old(program).lets@),
        ),
        final(context).errors@ == old(context).errors@ + let_errors(
            insert_all(Seq::empty(), type_names(old(program).types@)),
            old(program).lets@,
            old(context).file_id,
        ),
{
    let ghost c0 = *context;
    let ghost p = path@;
    let id = context.add_module(path).unwrap();
    proof {
        let ts = program.types@;
        assert forall|i: int| 0 <= i < ts.len() implies tree_find(
            context.tree,
            context.module@.push(#[trigger] ts[i].name),
        ) is None by {
            let q = p.push(ts[i].name);
            lemma_missing_below(c0.tree, p, ts[i].name);
            if tree_find(context.tree, q) is Some {
                lemma_insert_only_prefix(c0.tree, context.tree, p, id, q);
            }
        }
        if p.len() > 0 && tree_find(c0.tree, p.drop_last()) is Some {
            let prefix = p.drop_last();
            let name = p.last();
            assert(prefix.push(name) =~= p);
            lemma_insert_then_find(c0.tree, context.tree, prefix, name, id);
        }
        assert(context.definitions@[id as int].decls@ =~= Seq::<DataType>::empty());
    }
    let ghost c1 = *context;
    program.declare(context);
    let popped = context.current.pop().unwrap();
    proof {
        assert(context.current@ =~= c0.current@);
        let ts = old(program).types@;
        let trees = choose|trees: Seq<ModuleTree>|
            #![trigger insert_chain(trees, c1.module@, ts, c1.counter as nat)]
            insert_chain(trees, c1.module@, ts, c1.counter as nat) && trees[0] == c1.tree
                && trees.last() == context.tree;
        assert(insert_chain(trees, p, ts, (id + 1) as nat));
    }
    popped
}

/// Declares `program` in the current module, and returns the identifier of that module.
pub fn declare_main(context: &mut Modules, program: &mut Program) -> (r: NamespaceId)
    requires
        old(context).wf(),
        can_declare(*old(context), old(program).types@),
    ensures
        r == old(context).current@.last(),
        final(context).wf() || final(context).current@.len() == 0,
        final(context).current@ == old(context).current@.drop_last(),
        final(context).counter == old(context).counter + old(program).types@.len(),
        exists|trees: Seq<ModuleTree>|
            #![trigger insert_chain(trees, old(context).module@, old(program).types@, old(context).counter as nat)]
            insert_chain(trees, old(context).module@, old(program).types@, old(context).counter as nat)
                && trees[0] == old(context).tree && trees.last() == final(context).tree,
        tree_find(old(context).tree, old(context).module@) is Some ==> forall|i: int|
            0 <= i < old(program).types@.len() ==> tree_find(
                final(context).tree,
                old(context).module@.push(#[trigger] old(program).types@[i].name),
            ) == Some((old(context).counter + i) as usize),
        final(context).definitions@[current_index(*old(context))].decls@ == insert_all(
            old(context).definitions@[current_index(*old(context))].decls@,
            type_names(old(program).types@) + let_names(old(program).lets@),
        ),
        final(context).errors@ == old(context).errors@ + let_errors(
            insert_all(
                old(context).definitions@[current_index(*old(context))].decls@,
                type_names(old(program).types@),
            ),
            old(program).lets@,
            old(context).file_id,
        ),
{
    let ghost c0 = *context;
    program.declare(context);
    let popped = context.current.pop().unwrap();
    proof {
        assert(context.current@ =~= c0.current@.drop_last());
    }
    popped
}

} // verus!
