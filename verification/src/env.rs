//! The typing environment: the names, values and kinds of the type variables in scope
//! (innermost first), the types of the term variables, the current level, and the place
//! of the source that is being checked.
//!
//! The sequences are persistent vectors and the variables a persistent map of `im_rc`, so
//! that extending an environment is cheap.

use vstd::prelude::*;
use crate::context::Context;
use crate::level::Level;
use crate::location::Span;
use crate::types::{Label, SType, Symbol, Type, closed};

verus! {

#[verifier::external_type_specification]
#[verifier::external_body]
#[verifier::reject_recursive_types(A)]
pub struct ExVector<A>(im_rc::Vector<A>);

#[verifier::external_type_specification]
#[verifier::external_body]
#[verifier::reject_recursive_types(K)]
#[verifier::reject_recursive_types(V)]
#[verifier::reject_recursive_types(S)]
pub struct ExHashMap<K, V, S>(im_rc::HashMap<K, V, S>);

/// The map from term variables to their types.
pub type VarMap = im_rc::HashMap<Symbol, Type>;

/// The items of a vector of optional names, front first.
pub uninterp spec fn name_items(v: im_rc::Vector<Option<Symbol>>) -> Seq<Option<Symbol>>;

/// The items of a vector of types, front first, by their models.
pub uninterp spec fn type_items(v: im_rc::Vector<Type>) -> Seq<SType>;

/// The entries of a map from names to types, by the models of the types.
pub uninterp spec fn var_entries(m: VarMap) -> Map<Symbol, SType>;

/// `im_rc::Vector::new`: an empty vector.
#[verifier::external_body]
fn names_new() -> (r: im_rc::Vector<Option<Symbol>>)
    ensures
        name_items(r) == Seq::<Option<Symbol>>::empty(),
{
    im_rc::Vector::new()
}

/// `im_rc::Vector::new`: an empty vector.
#[verifier::external_body]
fn types_new() -> (r: im_rc::Vector<Type>)
    ensures
        type_items(r) == Seq::<SType>::empty(),
{
    im_rc::Vector::new()
}

/// `im_rc::Vector::len`: the number of items.
#[verifier::external_body]
fn names_len(v: &im_rc::Vector<Option<Symbol>>) -> (r: usize)
    ensures
        r == name_items(*v).len(),
{
    v.len()
}

/// `im_rc::Vector::len`: the number of items.
#[verifier::external_body]
fn types_len(v: &im_rc::Vector<Type>) -> (r: usize)
    ensures
        r == type_items(*v).len(),
{
    v.len()
}

/// `im_rc::Vector::get`: the item at `i`, if `i` is below the length.
#[verifier::external_body]
fn names_get(v: &im_rc::Vector<Option<Symbol>>, i: usize) -> (r: Option<Option<Symbol>>)
    ensures
        i < name_items(*v).len() ==> r == Some(name_items(*v)[i as int]),
        i >= name_items(*v).len() ==> r is None,
{
    v.get(i).copied()
}

/// `im_rc::Vector::get`: the item at `i`, if `i` is below the length; the item is cloned
/// by the clone of [`Type`], which keeps its model.
#[verifier::external_body]
fn types_get(v: &im_rc::Vector<Type>, i: usize) -> (r: Option<Type>)
    ensures
        i < type_items(*v).len() ==> r is Some && r->Some_0@ == type_items(*v)[i as int],
        i >= type_items(*v).len() ==> r is None,
{
    v.get(i).cloned()
}

/// `im_rc::Vector::push_front`: `x` becomes the first item.
#[verifier::external_body]
fn names_push_front(v: &mut im_rc::Vector<Option<Symbol>>, x: Option<Symbol>)
    ensures
        name_items(*final(v)) == seq![x] + name_items(*old(v)),
{
    v.push_front(x)
}

/// `im_rc::Vector::push_front`: `x` becomes the first item.
#[verifier::external_body]
fn types_push_front(v: &mut im_rc::Vector<Type>, x: Type)
    ensures
        type_items(*final(v)) == seq![x@] + type_items(*old(v)),
{
    v.push_front(x)
}

/// `im_rc::Vector::push_back`: `x` becomes the last item.
#[verifier::external_body]
fn names_push_back(v: &mut im_rc::Vector<Option<Symbol>>, x: Option<Symbol>)
    ensures
        name_items(*final(v)) == name_items(*old(v)).push(x),
{
    v.push_back(x)
}

/// `im_rc::Vector::push_back`: `x` becomes the last item.
#[verifier::external_body]
fn types_push_back(v: &mut im_rc::Vector<Type>, x: Type)
    ensures
        type_items(*final(v)) == type_items(*old(v)).push(x@),
{
    v.push_back(x)
}

/// `Clone` of `im_rc::Vector`: a vector with the same items.
#[verifier::external_body]
fn names_clone(v: &im_rc::Vector<Option<Symbol>>) -> (r: im_rc::Vector<Option<Symbol>>)
    ensures
        name_items(r) == name_items(*v),
{
    v.clone()
}

/// `Clone` of `im_rc::Vector`: a vector with the same items, each cloned by the clone of
/// [`Type`], which keeps its model.
#[verifier::external_body]
fn types_clone(v: &im_rc::Vector<Type>) -> (r: im_rc::Vector<Type>)
    ensures
        type_items(r) == type_items(*v),
{
    v.clone()
}

/// No term variables.
pub open spec fn empty_vars() -> Map<Symbol, SType> {
    Map::empty()
}

/// `im_rc::HashMap::new`: an empty map.
#[verifier::external_body]
fn vars_new() -> (r: VarMap)
    ensures
        var_entries(r) == empty_vars(),
{
    im_rc::HashMap::new()
}

/// `im_rc::HashMap::insert`: `k` now maps to `t`, the other entries are kept.
#[verifier::external_body]
fn vars_insert(m: &mut VarMap, k: Symbol, t: Type)
    ensures
        var_entries(*final(m)) == var_entries(*old(m)).insert(k, t@),
{
    m.insert(k, t);
}

/// `Clone` of `im_rc::HashMap`: a map with the same entries.
#[verifier::external_body]
fn vars_clone(m: &VarMap) -> (r: VarMap)
    ensures
        var_entries(r) == var_entries(*m),
{
    m.clone()
}

/// The typing environment.
pub struct Env {
    /// The names of the type variables in scope, innermost first.
    pub names: im_rc::Vector<Option<Symbol>>,
    /// The values of the type variables in scope, innermost first.
    pub types: im_rc::Vector<Type>,
    /// The kinds of the type variables in scope, innermost first.
    pub kinds: im_rc::Vector<Type>,
    /// The types of the term variables.
    pub vars: VarMap,
    /// The number of type variables in scope.
    pub level: Level,
    /// The place of the source being checked, for error messages.
    pub span: Span,
}

/// The first position below `n` where `names` holds `Some(name)`, if any.
pub open spec fn first_with_name(names: Seq<Option<Symbol>>, name: Symbol, n: int) -> Option<int> {
    if exists|i: int| 0 <= i < n && #[trigger] names[i] == Some(name) {
        Some(choose|i: int| 0 <= i < n && names[i] == Some(name) && forall|j: int|
            0 <= j < i ==> names[j] != Some(name))
    } else {
        None
    }
}

pub open spec fn min3(a: nat, b: nat, c: nat) -> nat {
    if a <= b && a <= c {
        a
    } else if b <= c {
        b
    } else {
        c
    }
}

/// Looking a name up right after binding it in front finds the new binding first.
pub proof fn lemma_find_after_add(names: Seq<Option<Symbol>>, name: Symbol, n: int)
    requires
        1 <= n <= names.len() + 1,
    ensures
        first_with_name(seq![Some(name)] + names, name, n) == Some(0int),
{
    let s = seq![Some(name)] + names;
    assert(s[0] == Some(name));
    let c = choose|i: int| 0 <= i < n && s[i] == Some(name) && forall|j: int| 0 <= j < i ==> s[j] != Some(name);
    assert(0 <= c < n && s[c] == Some(name) && forall|j: int| 0 <= j < c ==> s[j] != Some(name)) by {
        assert(0 <= 0 < n && s[0] == Some(name) && forall|j: int| 0 <= j < 0 ==> s[j] != Some(name));
    }
    if c > 0 {
        assert(s[0] != Some(name));
    }
}

/// When a name occurs among the first `n` names, it has a first occurrence.
pub proof fn lemma_first_occurrence(names: Seq<Option<Symbol>>, name: Symbol, n: int)
    requires
        exists|k: int| 0 <= k < n && #[trigger] names[k] == Some(name),
    ensures
        exists|i: int|
            0 <= i < n && names[i] == Some(name) && forall|j: int| 0 <= j < i ==> names[j] != Some(name),
    decreases n,
{
    if exists|k: int| 0 <= k < n - 1 && #[trigger] names[k] == Some(name) {
        lemma_first_occurrence(names, name, n - 1);
        let i = choose|i: int|
            0 <= i < n - 1 && names[i] == Some(name) && forall|j: int| 0 <= j < i ==> names[j] != Some(name);
        assert(0 <= i < n && names[i] == Some(name) && forall|j: int| 0 <= j < i ==> names[j] != Some(name));
    } else {
        let k = choose|k: int| 0 <= k < n && #[trigger] names[k] == Some(name);
        assert(k == n - 1);
        assert(forall|j: int| 0 <= j < n - 1 ==> names[j] != Some(name));
    }
}

/// Binding a name in front moves every other binding one place back: looking another
/// name up finds the same binding, one place further.
pub proof fn lemma_find_other_after_add(names: Seq<Option<Symbol>>, name: Symbol, other: Symbol, n: int)
    requires
        other != name,
        0 <= n <= names.len(),
    ensures
        first_with_name(seq![Some(name)] + names, other, n + 1) == match first_with_name(names, other, n) {
            Some(i) => Some(i + 1),
            None => None::<int>,
        },
{
    let s = seq![Some(name)] + names;
    assert forall|i: int| 0 <= i < names.len() implies #[trigger] s[i + 1] == names[i] by {}
    if exists|k: int| 0 <= k < n && #[trigger] names[k] == Some(other) {
        lemma_first_occurrence(names, other, n);
        let i = choose|i: int|
            0 <= i < n && names[i] == Some(other) && forall|j: int| 0 <= j < i ==> names[j] != Some(other);
        assert(first_with_name(names, other, n) == Some(i));
        assert(s[i + 1] == Some(other));
        assert(exists|k: int| 0 <= k < n + 1 && #[trigger] s[k] == Some(other));
        assert(0 <= i + 1 < n + 1 && s[i + 1] == Some(other) && forall|j: int|
            0 <= j < i + 1 ==> s[j] != Some(other)) by {
            assert forall|j: int| 0 <= j < i + 1 implies s[j] != Some(other) by {
                if j > 0 {
                    assert(s[j] == names[j - 1]);
                }
            }
        }
        let c = choose|k: int|
            0 <= k < n + 1 && s[k] == Some(other) && forall|j: int| 0 <= j < k ==> s[j] != Some(other);
        assert(c >= 1);
        assert(names[c - 1] == Some(other));
        if c - 1 < i {
            assert(names[c - 1] != Some(other));
        }
        if c - 1 > i {
            assert(s[i + 1] != Some(other));
        }
    } else {
        if exists|k: int| 0 <= k < n + 1 && #[trigger] s[k] == Some(other) {
            let k = choose|k: int| 0 <= k < n + 1 && #[trigger] s[k] == Some(other);
            assert(k >= 1);
            assert(names[k - 1] == Some(other));
        }
    }
}

impl Env {
    pub open spec fn names_view(&self) -> Seq<Option<Symbol>> {
        name_items(self.names)
    }

    pub open spec fn types_view(&self) -> Seq<SType> {
        type_items(self.types)
    }

    pub open spec fn kinds_view(&self) -> Seq<SType> {
        type_items(self.kinds)
    }

    pub open spec fn vars_view(&self) -> Map<Symbol, SType> {
        var_entries(self.vars)
    }

    /// An empty environment at level 0.
    pub fn new() -> (env: Env)
        ensures
            env.names_view().len() == 0,
            env.types_view().len() == 0,
            env.kinds_view().len() == 0,
            env.vars_view() == empty_vars(),
            env.level.0 == 0,
            env.span == Span::ghost_spec(),
    {
        Env {
            names: names_new(),
            types: types_new(),
            kinds: types_new(),
            vars: vars_new(),
            level: Level(0),
            span: Span::ghost(),
        }
    }

    /// A copy of the environment.
    pub fn duplicate(&self) -> (env: Env)
        ensures
            env.names_view() == self.names_view(),
            env.types_view() == self.types_view(),
            env.kinds_view() == self.kinds_view(),
            env.vars_view() == self.vars_view(),
            env.level == self.level,
            env.span == self.span,
    {
        Env {
            names: names_clone(&self.names),
            types: types_clone(&self.types),
            kinds: types_clone(&self.kinds),
            vars: vars_clone(&self.vars),
            level: self.level,
            span: self.span,
        }
    }

    /// Gives the term variable `name` the type `typ`.
    pub fn add_var(&mut self, name: Symbol, typ: Type)
        ensures
            final(self).vars_view() == old(self).vars_view().insert(name, typ@),
            final(self).names_view() == old(self).names_view(),
            final(self).types_view() == old(self).types_view(),
            final(self).kinds_view() == old(self).kinds_view(),
            final(self).level == old(self).level,
            final(self).span == old(self).span,
    {
        vars_insert(&mut self.vars, name, typ);
    }

    /// Sets the location of the environment. It is used for error reporting.
    pub fn set_current_span(&mut self, span: Span)
        ensures
            final(self).span == span,
            final(self).names_view() == old(self).names_view(),
            final(self).types_view() == old(self).types_view(),
            final(self).kinds_view() == old(self).kinds_view(),
            final(self).vars_view() == old(self).vars_view(),
            final(self).level == old(self).level,
    {
        self.span = span;
    }

    /// The innermost type variable called `name`: its position, value and kind.
    pub fn find(&self, name: &Symbol) -> (r: Option<(usize, Type, Type)>)
        ensures
            ({
                let n = min3(
                    self.names_view().len(),
                    self.types_view().len(),
                    self.kinds_view().len(),
                ) as int;
                match first_with_name(self.names_view(), *name, n) {
                    None => r is None,
                    Some(i) => r is Some && r->Some_0.0 == i && r->Some_0.1@ == self.types_view()[i]
                        && r->Some_0.2@ == self.kinds_view()[i],
                }
            }),
    {
        let ghost names = self.names_view();
        let ghost n = min3(
            self.names_view().len(),
            self.types_view().len(),
            self.kinds_view().len(),
        ) as int;
        let len_names = names_len(&self.names);
        let len_types = types_len(&self.types);
        let len_kinds = types_len(&self.kinds);
        let mut i: usize = 0;
        while i < len_names && i < len_types && i < len_kinds
            invariant
                len_names == names.len(),
                len_types == self.types_view().len(),
                len_kinds == self.kinds_view().len(),
                names == self.names_view(),
                n == min3(names.len(), len_types as nat, len_kinds as nat),
                i <= n,
                forall|j: int| 0 <= j < i ==> names[j] != Some(*name),
            decreases len_names - i,
        {
            let current = names_get(&self.names, i);
            if current == Some(Some(*name)) {
                let t = types_get(&self.types, i);
                let k = types_get(&self.kinds, i);
                match (t, k) {
                    (Some(t), Some(k)) => {
                        proof {
                            assert(names[i as int] == Some(*name));
                            let f = first_with_name(names, *name, n);
                            assert(f is Some);
                            let c = f->Some_0;
                            assert(!(c < i)) by {
                                if c < i {
                                    assert(names[c] != Some(*name));
                                }
                            }
                            assert(!(c > i as int));
                        }
                        return Some((i, t, k));
                    },
                    _ => {
                        return None;
                    },
                }
            }
            i = i + 1;
        }
        proof {
            assert(i as int == n);
            assert(!exists|j: int| 0 <= j < n && #[trigger] names[j] == Some(*name));
        }
        None
    }

    /// Adds a type variable in front, whose value is the bound variable of the current
    /// level.
    pub fn add(&self, name: Option<Symbol>, kind: Type) -> (env: Env)
        requires
            self.level.0 < usize::MAX,
        ensures
            env.names_view() == seq![name] + self.names_view(),
            env.types_view() == seq![SType::Bound(self.level.0)] + self.types_view(),
            env.kinds_view() == seq![kind@] + self.kinds_view(),
            env.vars_view() == self.vars_view(),
            env.level.0 == self.level.0 + 1,
            env.span == self.span,
    {
        let mut clone = self.duplicate();
        names_push_front(&mut clone.names, name);
        types_push_front(&mut clone.types, Type::Bound(clone.level.0));
        types_push_front(&mut clone.kinds, kind);
        clone.level = clone.level.inc();
        clone
    }

    /// Adds a type variable at the end, whose value is the bound variable of the current
    /// level.
    pub fn add_at_end(&self, name: Option<Symbol>, kind: Type) -> (env: Env)
        requires
            self.level.0 < usize::MAX,
        ensures
            env.names_view() == self.names_view().push(name),
            env.types_view() == self.types_view().push(SType::Bound(self.level.0)),
            env.kinds_view() == self.kinds_view().push(kind@),
            env.vars_view() == self.vars_view(),
            env.level.0 == self.level.0 + 1,
            env.span == self.span,
    {
        let mut clone = self.duplicate();
        names_push_back(&mut clone.names, name);
        types_push_back(&mut clone.types, Type::Bound(clone.level.0));
        types_push_back(&mut clone.kinds, kind);
        clone.level = clone.level.inc();
        clone
    }

    /// Adds a type variable in front with the given value.
    pub fn define(&self, name: Option<Symbol>, typ: Type, kind: Type) -> (env: Env)
        requires
            self.level.0 < usize::MAX,
        ensures
            env.names_view() == seq![name] + self.names_view(),
            env.types_view() == seq![typ@] + self.types_view(),
            env.kinds_view() == seq![kind@] + self.kinds_view(),
            env.vars_view() == self.vars_view(),
            env.level.0 == self.level.0 + 1,
            env.span == self.span,
    {
        let mut clone = self.duplicate();
        names_push_front(&mut clone.names, name);
        types_push_front(&mut clone.types, typ);
        types_push_front(&mut clone.kinds, kind);
        clone.level = clone.level.inc();
        clone
    }

    /// A new empty hole of the given kind and label, made at the level of the environment.
    pub fn hole(&self, ctx: &mut Context, kind: Type, label: Label) -> (r: Type)
        requires
            old(ctx).wf(),
            closed(kind@, old(ctx).size()),
            old(ctx).size() < usize::MAX,
        ensures
            final(ctx).wf(),
            r@ == SType::Hole(old(ctx).size() as usize),
            final(ctx).store() == old(ctx).store().push(
                crate::context::SHole::Empty(label, kind@, self.level.0),
            ),
            crate::context::refines(old(ctx).res@, final(ctx).res@),
            final(ctx).res@ == old(ctx).res@.push(SType::Hole(old(ctx).size() as usize)),
            crate::context::count_empty(final(ctx).store()) == crate::context::count_empty(
                old(ctx).store(),
            ) + 1,
            final(ctx).counter == old(ctx).counter,
            final(ctx).errors == old(ctx).errors,
    {
        Type::Hole(ctx.empty_hole(label, kind, self.level))
    }
}

} // verus!
