//! The type language of the type checker.
//!
//! A type is held in the *virtual* form used during checking: bound variables are de
//! Bruijn levels, and a `forall` keeps its body together with the level at which its
//! binder sits, so that applying it is a substitution of that level. Holes (unification
//! variables) are indices into the store of a [`crate::context::Context`].
//!
//! `SType` is the mathematical model of a type, used by the contracts.

use vstd::prelude::*;

verus! {

/// An interned name.
pub type Symbol = u64;

/// A name qualified by the module that defines it.
#[derive(Clone, Copy, Debug, PartialEq, Eq, Structural, Hash)]
pub struct Qualified {
    pub path: Symbol,
    pub name: Symbol,
}

/// The label of a hole: a fresh name `t_n` made by the context, or a user name.
#[derive(Clone, Copy, Debug, PartialEq, Eq, Structural)]
pub enum Label {
    Fresh(usize),
    Named(Symbol),
}

impl Label {
    /// The user name of the label, if it is one. A fresh name is never the name of
    /// anything the user wrote, so it is not looked up by name.
    pub fn symbol(&self) -> (r: Option<Symbol>)
        ensures
            r == (match *self {
                Label::Named(s) => Some(s),
                Label::Fresh(_) => None,
            }),
    {
        match self {
            Label::Named(s) => Some(*s),
            Label::Fresh(_) => None,
        }
    }
}

/// A type.
#[derive(Debug, PartialEq, Eq)]
pub enum Type {
    /// The type of types.
    Type,
    /// The type of constraints.
    Constraint,
    /// A function type: argument and result.
    Arrow(Box<Type>, Box<Type>),
    /// A polymorphic type: name and kind of the binder, the level at which the binder
    /// sits, and the body, in which the bound variable is `Bound` of that level.
    Forall(Label, Box<Type>, usize, Box<Type>),
    /// A hole: an index into the store of holes.
    Hole(usize),
    /// A type defined by the user.
    Variable(Qualified),
    /// A bound variable.
    Bound(usize),
    /// A tuple type.
    Tuple(Vec<Type>),
    /// A type application.
    Application(Box<Type>, Box<Type>),
    /// A qualified (constrained) type.
    Qualified(Box<Type>, Box<Type>),
    /// A type error.
    Error,
}

/// The mathematical model of a [`Type`].
#[verifier::ext_equal]
pub enum SType {
    Type,
    Constraint,
    Arrow(Box<SType>, Box<SType>),
    Forall(Label, Box<SType>, usize, Box<SType>),
    Hole(usize),
    Variable(Qualified),
    Bound(usize),
    Tuple(Seq<SType>),
    Application(Box<SType>, Box<SType>),
    Qualified(Box<SType>, Box<SType>),
    Error,
}

/// The model of a type.
pub open spec fn type_view(t: Type) -> SType
    decreases t,
{
    match t {
        Type::Type => SType::Type,
        Type::Constraint => SType::Constraint,
        Type::Arrow(a, b) => SType::Arrow(Box::new(type_view(*a)), Box::new(type_view(*b))),
        Type::Forall(n, k, l, b) => SType::Forall(
            n,
            Box::new(type_view(*k)),
            l,
            Box::new(type_view(*b)),
        ),
        Type::Hole(h) => SType::Hole(h),
        Type::Variable(q) => SType::Variable(q),
        Type::Bound(l) => SType::Bound(l),
        Type::Tuple(v) => SType::Tuple(
            Seq::new(
                v@.len(),
                |i: int|
                    if 0 <= i < v@.len() {
                        type_view(v@[i])
                    } else {
                        SType::Error
                    },
            ),
        ),
        Type::Application(a, b) => SType::Application(
            Box::new(type_view(*a)),
            Box::new(type_view(*b)),
        ),
        Type::Qualified(a, b) => SType::Qualified(
            Box::new(type_view(*a)),
            Box::new(type_view(*b)),
        ),
        Type::Error => SType::Error,
    }
}

impl View for Type {
    type V = SType;

    open spec fn view(&self) -> SType {
        type_view(*self)
    }
}

impl Clone for Type {
    /// A deep copy of the type.
    fn clone(&self) -> (r: Type)
        ensures
            r@ == self@,
        decreases self,
    {
        match self {
            Type::Type => Type::Type,
            Type::Constraint => Type::Constraint,
            Type::Arrow(a, b) => Type::Arrow(Box::new((**a).clone()), Box::new((**b).clone())),
            Type::Forall(n, k, l, b) => Type::Forall(
                *n,
                Box::new((**k).clone()),
                *l,
                Box::new((**b).clone()),
            ),
            Type::Hole(h) => Type::Hole(*h),
            Type::Variable(q) => Type::Variable(*q),
            Type::Bound(l) => Type::Bound(*l),
            Type::Tuple(v) => {
                let mut out: Vec<Type> = Vec::new();
                let mut i: usize = 0;
                while i < v.len()
                    invariant
                        i <= v.len(),
                        out@.len() == i,
                        forall|j: int| 0 <= j < i ==> (#[trigger] out@[j])@ == v@[j]@,
                        *self == Type::Tuple(*v),
                    decreases v.len() - i,
                {
                    proof {
                        assert(decreases_to!(*self => (*self)->Tuple_0));
                        vstd::std_specs::vec::axiom_vec_index_decreases(*v, i as int);
                    }
                    out.push(v[i].clone());
                    i += 1;
                }
                proof {
                    assert(type_view(Type::Tuple(out))->Tuple_0 =~= type_view(
                        Type::Tuple(*v),
                    )->Tuple_0);
                }
                Type::Tuple(out)
            },
            Type::Application(a, b) => Type::Application(
                Box::new((**a).clone()),
                Box::new((**b).clone()),
            ),
            Type::Qualified(a, b) => Type::Qualified(
                Box::new((**a).clone()),
                Box::new((**b).clone()),
            ),
            Type::Error => Type::Error,
        }
    }
}

impl Type {
    /// The type with the bound variable of level `lvl` replaced by `arg`.
    pub fn substitute_bound(&self, lvl: usize, arg: &Type) -> (r: Type)
        ensures
            r@ == subst_bound(self@, lvl, arg@),
        decreases self,
    {
        match self {
            Type::Arrow(a, b) => Type::Arrow(
                Box::new((**a).substitute_bound(lvl, arg)),
                Box::new((**b).substitute_bound(lvl, arg)),
            ),
            Type::Forall(n, k, l, b) => Type::Forall(
                *n,
                Box::new((**k).substitute_bound(lvl, arg)),
                *l,
                Box::new((**b).substitute_bound(lvl, arg)),
            ),
            Type::Bound(k) => if *k == lvl {
                arg.clone()
            } else {
                Type::Bound(*k)
            },
            Type::Tuple(v) => {
                let mut out: Vec<Type> = Vec::new();
                let mut i: usize = 0;
                while i < v.len()
                    invariant
                        i <= v.len(),
                        out@.len() == i,
                        forall|j: int|
                            0 <= j < i ==> (#[trigger] out@[j])@ == subst_bound(v@[j]@, lvl, arg@),
                        *self == Type::Tuple(*v),
                    decreases v.len() - i,
                {
                    proof {
                        assert(decreases_to!(*self => (*self)->Tuple_0));
                        vstd::std_specs::vec::axiom_vec_index_decreases(*v, i as int);
                    }
                    out.push(v[i].substitute_bound(lvl, arg));
                    i += 1;
                }
                proof {
                    assert(type_view(Type::Tuple(out))->Tuple_0 =~= subst_bound(
                        self@,
                        lvl,
                        arg@,
                    )->Tuple_0);
                }
                Type::Tuple(out)
            },
            Type::Application(a, b) => Type::Application(
                Box::new((**a).substitute_bound(lvl, arg)),
                Box::new((**b).substitute_bound(lvl, arg)),
            ),
            Type::Qualified(a, b) => Type::Qualified(
                Box::new((**a).substitute_bound(lvl, arg)),
                Box::new((**b).substitute_bound(lvl, arg)),
            ),
            _ => self.clone(),
        }
    }
}

/// Applies the body of a `forall` whose binder sits at level `binder` to `arg`: the bound
/// variable takes the value `arg`.
pub fn apply(binder: usize, body: &Type, arg: &Type) -> (r: Type)
    ensures
        r@ == subst_bound(body@, binder, arg@),
{
    body.substitute_bound(binder, arg)
}

/// Opens the body of a `forall` whose binder sits at level `binder`, keeping the bound
/// variable as the variable of that level.
pub fn apply_local(binder: usize, body: &Type) -> (r: Type)
    ensures
        r@ == body@,
        r@ == subst_bound(body@, binder, SType::Bound(binder)),
{
    proof {
        lemma_subst_bound_same(body@, binder);
    }
    body.clone()
}

/// Replacing a bound variable by itself changes nothing.
pub proof fn lemma_subst_bound_same(t: SType, lvl: usize)
    ensures
        subst_bound(t, lvl, SType::Bound(lvl)) == t,
    decreases t,
{
    match t {
        SType::Arrow(a, b) => {
            lemma_subst_bound_same(*a, lvl);
            lemma_subst_bound_same(*b, lvl);
        },
        SType::Forall(_, k, _, b) => {
            lemma_subst_bound_same(*k, lvl);
            lemma_subst_bound_same(*b, lvl);
        },
        SType::Application(a, b) => {
            lemma_subst_bound_same(*a, lvl);
            lemma_subst_bound_same(*b, lvl);
        },
        SType::Qualified(a, b) => {
            lemma_subst_bound_same(*a, lvl);
            lemma_subst_bound_same(*b, lvl);
        },
        SType::Tuple(s) => {
            let u = subst_bound(t, lvl, SType::Bound(lvl))->Tuple_0;
            assert forall|i: int| 0 <= i < s.len() implies #[trigger] u[i] == s[i] by {
                lemma_subst_bound_same(s[i], lvl);
            }
            assert(u =~= s);
        },
        _ => {},
    }
}

/// The models of a sequence of types.
pub open spec fn views(s: Seq<Type>) -> Seq<SType> {
    Seq::new(s.len(), |i: int| s[i]@)
}

/// Whether hole `h` occurs in `t`.
pub open spec fn mentions(t: SType, h: usize) -> bool
    decreases t,
{
    match t {
        SType::Arrow(a, b) => mentions(*a, h) || mentions(*b, h),
        SType::Forall(_, k, _, b) => mentions(*k, h) || mentions(*b, h),
        SType::Hole(k) => k == h,
        SType::Tuple(s) => exists|i: int| 0 <= i < s.len() && mentions(#[trigger] s[i], h),
        SType::Application(a, b) => mentions(*a, h) || mentions(*b, h),
        SType::Qualified(a, b) => mentions(*a, h) || mentions(*b, h),
        _ => false,
    }
}

/// Whether some hole occurs in `t`.
pub open spec fn has_hole(t: SType) -> bool {
    exists|h: usize| mentions(t, h)
}

/// Every hole of `t` is below `n`.
pub open spec fn closed(t: SType, n: nat) -> bool {
    forall|h: usize| mentions(t, h) ==> h < n
}

/// `t` with every hole `k < res.len()` replaced by `res[k]`: with the resolutions of a
/// store, the type that `t` stands for.
pub open spec fn zonk(t: SType, res: Seq<SType>) -> SType
    decreases t,
{
    match t {
        SType::Arrow(a, b) => SType::Arrow(Box::new(zonk(*a, res)), Box::new(zonk(*b, res))),
        SType::Forall(n, k, l, b) => SType::Forall(
            n,
            Box::new(zonk(*k, res)),
            l,
            Box::new(zonk(*b, res)),
        ),
        SType::Hole(k) => if k < res.len() {
            res[k as int]
        } else {
            SType::Hole(k)
        },
        SType::Tuple(s) => SType::Tuple(
            Seq::new(
                s.len(),
                |i: int|
                    if 0 <= i < s.len() {
                        zonk(s[i], res)
                    } else {
                        SType::Error
                    },
            ),
        ),
        SType::Application(a, b) => SType::Application(
            Box::new(zonk(*a, res)),
            Box::new(zonk(*b, res)),
        ),
        SType::Qualified(a, b) => SType::Qualified(
            Box::new(zonk(*a, res)),
            Box::new(zonk(*b, res)),
        ),
        _ => t,
    }
}

/// `t` with hole `h` replaced by `z`.
pub open spec fn subst_hole(t: SType, h: usize, z: SType) -> SType
    decreases t,
{
    match t {
        SType::Arrow(a, b) => SType::Arrow(
            Box::new(subst_hole(*a, h, z)),
            Box::new(subst_hole(*b, h, z)),
        ),
        SType::Forall(n, k, l, b) => SType::Forall(
            n,
            Box::new(subst_hole(*k, h, z)),
            l,
            Box::new(subst_hole(*b, h, z)),
        ),
        SType::Hole(k) => if k == h {
            z
        } else {
            SType::Hole(k)
        },
        SType::Tuple(s) => SType::Tuple(
            Seq::new(
                s.len(),
                |i: int|
                    if 0 <= i < s.len() {
                        subst_hole(s[i], h, z)
                    } else {
                        SType::Error
                    },
            ),
        ),
        SType::Application(a, b) => SType::Application(
            Box::new(subst_hole(*a, h, z)),
            Box::new(subst_hole(*b, h, z)),
        ),
        SType::Qualified(a, b) => SType::Qualified(
            Box::new(subst_hole(*a, h, z)),
            Box::new(subst_hole(*b, h, z)),
        ),
        _ => t,
    }
}

/// `t` with the bound variable of level `lvl` replaced by `arg`. Holes are left as they
/// are: their contents live in the store and are shared.
pub open spec fn subst_bound(t: SType, lvl: usize, arg: SType) -> SType
    decreases t,
{
    match t {
        SType::Arrow(a, b) => SType::Arrow(
            Box::new(subst_bound(*a, lvl, arg)),
            Box::new(subst_bound(*b, lvl, arg)),
        ),
        SType::Forall(n, k, l, b) => SType::Forall(
            n,
            Box::new(subst_bound(*k, lvl, arg)),
            l,
            Box::new(subst_bound(*b, lvl, arg)),
        ),
        SType::Bound(k) => if k == lvl {
            arg
        } else {
            SType::Bound(k)
        },
        SType::Tuple(s) => SType::Tuple(
            Seq::new(
                s.len(),
                |i: int|
                    if 0 <= i < s.len() {
                        subst_bound(s[i], lvl, arg)
                    } else {
                        SType::Error
                    },
            ),
        ),
        SType::Application(a, b) => SType::Application(
            Box::new(subst_bound(*a, lvl, arg)),
            Box::new(subst_bound(*b, lvl, arg)),
        ),
        SType::Qualified(a, b) => SType::Qualified(
            Box::new(subst_bound(*a, lvl, arg)),
            Box::new(subst_bound(*b, lvl, arg)),
        ),
        _ => t,
    }
}

/// No hole occurs inside a qualified type or inside the kind of a `forall`: the places
/// that the occurs check does not look into.
pub open spec fn guarded(t: SType) -> bool
    decreases t,
{
    match t {
        SType::Arrow(a, b) => guarded(*a) && guarded(*b),
        SType::Forall(_, k, _, b) => !has_hole(*k) && guarded(*b),
        SType::Tuple(s) => forall|i: int| 0 <= i < s.len() ==> guarded(#[trigger] s[i]),
        SType::Application(a, b) => guarded(*a) && guarded(*b),
        SType::Qualified(a, b) => !has_hole(*a) && !has_hole(*b),
        _ => true,
    }
}

/// Whether the bound variable of level `l` occurs in `t`.
pub open spec fn mentions_bound(t: SType, l: usize) -> bool
    decreases t,
{
    match t {
        SType::Arrow(a, b) => mentions_bound(*a, l) || mentions_bound(*b, l),
        SType::Forall(_, k, _, b) => mentions_bound(*k, l) || mentions_bound(*b, l),
        SType::Bound(k) => k == l,
        SType::Tuple(s) => exists|i: int| 0 <= i < s.len() && mentions_bound(#[trigger] s[i], l),
        SType::Application(a, b) => mentions_bound(*a, l) || mentions_bound(*b, l),
        SType::Qualified(a, b) => mentions_bound(*a, l) || mentions_bound(*b, l),
        _ => false,
    }
}

/// Whether some bound variable occurs in `t`.
pub open spec fn has_bound(t: SType) -> bool {
    exists|l: usize| mentions_bound(t, l)
}

/// `t` is known: it has no holes and no `forall`s, and bound variables occur in it only
/// outside qualified types.
pub open spec fn known(t: SType) -> bool
    decreases t,
{
    match t {
        SType::Arrow(a, b) => known(*a) && known(*b),
        SType::Forall(_, _, _, _) => false,
        SType::Hole(_) => false,
        SType::Tuple(s) => forall|i: int| 0 <= i < s.len() ==> known(#[trigger] s[i]),
        SType::Application(a, b) => known(*a) && known(*b),
        SType::Qualified(a, b) => known(*a) && known(*b) && !has_bound(*a) && !has_bound(*b),
        _ => true,
    }
}

/// Two types are the same, where an `Error` stands for any type.
pub open spec fn equiv(a: SType, b: SType) -> bool
    decreases a,
{
    a == b || a is Error || b is Error || match (a, b) {
        (SType::Tuple(x), SType::Tuple(y)) => x.len() == y.len() && forall|i: int|
            0 <= i < x.len() ==> equiv(#[trigger] x[i], y[i]),
        (SType::Application(f, x), SType::Application(g, y)) => equiv(*f, *g) && equiv(*x, *y),
        (SType::Qualified(f, x), SType::Qualified(g, y)) => equiv(*f, *g) && equiv(*x, *y),
        _ => false,
    }
}


/// The number of constructors in `t`.
pub open spec fn size(t: SType) -> nat
    decreases t,
{
    match t {
        SType::Arrow(a, b) => 1 + size(*a) + size(*b),
        SType::Forall(_, k, _, b) => 1 + size(*k) + size(*b),
        SType::Tuple(s) => 1 + size_seq(s),
        SType::Application(a, b) => 1 + size(*a) + size(*b),
        SType::Qualified(a, b) => 1 + size(*a) + size(*b),
        _ => 1,
    }
}

/// The sum of the sizes of the types of `s`.
pub open spec fn size_seq(s: Seq<SType>) -> nat
    decreases s,
{
    if s.len() == 0 {
        0
    } else {
        size_seq(s.drop_last()) + size(s.last())
    }
}

} // verus!
