//! Making holes: fresh holes, instantiation of polymorphic types, and viewing a type as a
//! function type.

use vstd::prelude::*;
use crate::context::{Context, HoleInner, SHole, refines};
use crate::env::Env;
use crate::type_facts::{lemma_children_closed, lemma_zonk_subst_bound_hole_size};
use crate::types::{Label, SType, Type, apply, closed, mentions, size, subst_bound, zonk};
use crate::subsume::{inst_some, lemma_inst_zonk};
use crate::subsumption::{forall_count, lemma_inst_fc};

verus! {

/// What making holes keeps of the context: the store stays well formed and only grows,
/// the new resolution refines the old one, and the errors are kept.
pub open spec fn grows(c0: Context, c1: Context) -> bool {
    &&& c1.wf()
    &&& c0.size() <= c1.size()
    &&& refines(c0.res@, c1.res@)
    &&& c1.counter >= c0.counter
    &&& c1.errors == c0.errors
}

/// Every hole of `c0` that changed resolves in `c1` to a type without `forall`s.
pub open spec fn fills_no_forall(c0: Context, c1: Context) -> bool {
    forall|k: int|
        0 <= k < c0.size() && #[trigger] c1.store()[k] != c0.store()[k] ==> forall_count(c1.res@[k])
            == 0
}

/// `a` and `b` are the argument and the result of `t` seen as a function: the parts of an
/// arrow, or an error twice, after instantiating the `forall`s in front, some occurrences
/// of each bound variable replaced by a type without `forall`s.
pub open spec fn function_parts(a: SType, b: SType, t: SType) -> bool
    decreases forall_count(t),
{
    match t {
        SType::Arrow(x, y) => a == *x && b == *y,
        SType::Error => a == SType::Error && b == SType::Error,
        SType::Forall(_, _, l, body) => exists|z: SType, u: SType|
            #[trigger] inst_some(z, *body, l, u) && forall_count(z) == forall_count(*body)
                && function_parts(a, b, z),
        _ => false,
    }
}

/// `t` is not a function, even after instantiating the `forall`s in front, some
/// occurrences of each bound variable replaced by a type without `forall`s.
pub open spec fn not_function(t: SType) -> bool
    decreases forall_count(t),
{
    match t {
        SType::Arrow(_, _) => false,
        SType::Error => false,
        SType::Hole(_) => false,
        SType::Forall(_, _, l, body) => exists|z: SType, u: SType|
            #[trigger] inst_some(z, *body, l, u) && forall_count(z) == forall_count(*body)
                && not_function(z),
        _ => true,
    }
}

/// What the head of a type is once viewed as a function.
pub enum FunctionHead {
    /// An arrow or an error: a function as it is.
    Function,
    /// An empty hole, which is then filled with an arrow.
    Hole,
    /// Anything else: not a function.
    Other,
}

/// The head of `t` viewed as a function in `c`. Filled holes are followed and the
/// `forall`s in front are instantiated: a bound variable of `ls` is one that the
/// instantiation replaced by a new hole (only those written in the body itself, not those
/// reached through a filled hole).
pub open spec fn function_head(c: Context, t: SType, ls: Set<usize>, fuel: nat) -> FunctionHead
    decreases fuel,
{
    if fuel == 0 {
        FunctionHead::Other
    } else {
        let ls2 = if c.is_filled_hole(t) {
            Set::empty()
        } else {
            ls
        };
        match c.deref_view(t) {
            SType::Arrow(_, _) => FunctionHead::Function,
            SType::Error => FunctionHead::Function,
            SType::Hole(_) => FunctionHead::Hole,
            SType::Forall(_, _, l, b) => function_head(c, *b, ls2.insert(l), (fuel - 1) as nat),
            SType::Bound(x) => if ls2.contains(x) {
                FunctionHead::Hole
            } else {
                FunctionHead::Other
            },
            _ => FunctionHead::Other,
        }
    }
}

/// `c1` keeps every hole of `c0` as it is.
pub open spec fn extends(c0: Context, c1: Context) -> bool {
    &&& c0.size() <= c1.size()
    &&& forall|k: int| 0 <= k < c0.size() ==> #[trigger] c1.store()[k] == c0.store()[k]
}

/// Following filled holes ends at a type that stands for the same type, and stays among
/// the holes of the store.
pub proof fn lemma_deref_view(c: Context, t: SType)
    requires
        c.wf(),
        closed(t, c.size()),
    ensures
        c.resolve(c.deref_view(t)) == c.resolve(t),
        closed(c.deref_view(t), c.size()),
        !c.is_filled_hole(c.deref_view(t)),
    decreases c.hole_depth(t),
{
    if c.is_filled_hole(t) {
        let h = t->Hole_0;
        assert(mentions(t, h));
        assert(c.cell_ok(h as int));
        let content = c.store()[h as int]->Filled_0;
        assert(c.hole_depth(content) < c.depth@[h as int]) by {
            if c.is_filled_hole(content) {
                assert(mentions(content, content->Hole_0));
            }
        }
        crate::context::lemma_deref_fuel_stable(
            c,
            content,
            c.hole_depth(content),
            (c.depth@[h as int] - 1) as nat,
        );
        lemma_deref_view(c, content);
    }
}

/// Following filled holes from a type of `c0` is the same in a context that extends it.
pub proof fn lemma_deref_view_extends(c0: Context, c1: Context, t: SType)
    requires
        c0.wf(),
        c1.wf(),
        extends(c0, c1),
        closed(t, c0.size()),
    ensures
        c1.deref_view(t) == c0.deref_view(t),
        c1.is_filled_hole(t) == c0.is_filled_hole(t),
{
    if t is Hole {
        assert(mentions(t, t->Hole_0));
    }
    let f0 = c0.hole_depth(t);
    let f1 = c1.hole_depth(t);
    let big = f0 + f1;
    crate::context::lemma_deref_fuel_stable(c0, t, f0, big);
    crate::context::lemma_deref_fuel_stable(c1, t, f1, big);
    lemma_deref_fuel_extends(c0, c1, t, big);
}

/// Following filled holes with the same fuel is the same in a context that extends.
proof fn lemma_deref_fuel_extends(c0: Context, c1: Context, t: SType, f: nat)
    requires
        c0.wf(),
        extends(c0, c1),
        closed(t, c0.size()),
    ensures
        crate::context::deref_fuel(c1.store(), t, f) == crate::context::deref_fuel(c0.store(), t, f),
    decreases f,
{
    if f > 0 && t is Hole {
        let h = t->Hole_0;
        assert(mentions(t, h));
        assert(c0.cell_ok(h as int));
        assert(c1.store()[h as int] == c0.store()[h as int]);
        if c0.store()[h as int] is Filled {
            lemma_deref_fuel_extends(c0, c1, c0.store()[h as int]->Filled_0, (f - 1) as nat);
        }
    }
}

/// The head of a type of `c0` viewed as a function is the same in a context that extends
/// `c0`.
pub proof fn lemma_function_head_extends(c0: Context, c1: Context, t: SType, ls: Set<usize>, f: nat)
    requires
        c0.wf(),
        c1.wf(),
        extends(c0, c1),
        closed(t, c0.size()),
    ensures
        function_head(c1, t, ls, f) == function_head(c0, t, ls, f),
    decreases f,
{
    if f > 0 {
        lemma_deref_view_extends(c0, c1, t);
        lemma_deref_view(c0, t);
        let d = c0.deref_view(t);
        lemma_children_closed(d, c0.size());
        if let SType::Forall(_, _, l, b) = d {
            let ls2 = if c0.is_filled_hole(t) {
                Set::empty()
            } else {
                ls
            };
            lemma_function_head_extends(c0, c1, *b, ls2.insert(l), (f - 1) as nat);
        }
    }
}

/// The head of a type viewed as a function does not depend on the fuel, once there is
/// more of it than the size of what the type stands for.
pub proof fn lemma_function_head_fuel(c: Context, t: SType, ls: Set<usize>, f1: nat, f2: nat)
    requires
        c.wf(),
        closed(t, c.size()),
        f1 > size(c.resolve(t)),
        f2 > size(c.resolve(t)),
    ensures
        function_head(c, t, ls, f1) == function_head(c, t, ls, f2),
    decreases f1,
{
    lemma_deref_view(c, t);
    let d = c.deref_view(t);
    lemma_children_closed(d, c.size());
    if let SType::Forall(_, _, l, b) = d {
        assert(c.resolve(d) == SType::Forall(
            d->Forall_0,
            Box::new(c.resolve(*d->Forall_1)),
            l,
            Box::new(c.resolve(*b)),
        ));
        let ls2 = if c.is_filled_hole(t) {
            Set::empty()
        } else {
            ls
        };
        lemma_function_head_fuel(c, *b, ls2.insert(l), (f1 - 1) as nat, (f2 - 1) as nat);
    }
}

/// Replacing a bound variable by a new empty hole, written in the type, is viewing the
/// variable as replaced.
pub proof fn lemma_function_head_inst(
    c0: Context,
    c1: Context,
    b: SType,
    l: usize,
    n: usize,
    ls: Set<usize>,
    f: nat,
)
    requires
        c0.wf(),
        c1.wf(),
        extends(c0, c1),
        n == c0.size(),
        n < c1.size(),
        c1.store()[n as int] is Empty,
        closed(b, c0.size()),
    ensures
        function_head(c1, subst_bound(b, l, SType::Hole(n)), ls, f) == function_head(
            c0,
            b,
            ls.insert(l),
            f,
        ),
    decreases f,
{
    let bi = subst_bound(b, l, SType::Hole(n));
    if f > 0 {
        if c0.is_filled_hole(b) {
            lemma_function_head_extends(c0, c1, b, ls, f);
            lemma_function_head_extends(c0, c1, b, ls.insert(l), f);
            lemma_deref_view(c0, b);
            let d = c0.deref_view(b);
            lemma_children_closed(d, c0.size());
            if let SType::Forall(_, _, l2, b2) = d {
                lemma_function_head_extends(c0, c1, *b2, Set::<usize>::empty().insert(l2), (f - 1) as nat);
            }
            assert(bi == b);
            assert(function_head(c0, b, ls, f) == function_head(c0, b, ls.insert(l), f));
        } else {
            lemma_children_closed(b, c0.size());
            if b is Hole {
                assert(mentions(b, b->Hole_0));
                assert(c1.store()[b->Hole_0 as int] == c0.store()[b->Hole_0 as int]);
                assert(bi == b);
            }
            if b == SType::Bound(l) {
                assert(bi == SType::Hole(n));
                assert(!c1.is_filled_hole(bi));
            } else if b is Hole {
                assert(!c1.is_filled_hole(bi));
            } else {
                assert(!(bi is Hole));
            }
            assert(!c1.is_filled_hole(bi));
            assert(c1.deref_view(bi) == bi);
            assert(c0.deref_view(b) == b);
            match b {
                SType::Forall(_, _, l2, b2) => {
                    lemma_function_head_inst(c0, c1, *b2, l, n, ls.insert(l2), (f - 1) as nat);
                    assert(ls.insert(l2).insert(l) =~= ls.insert(l).insert(l2));
                },
                SType::Bound(x) => {
                    if x == l {
                        assert(c1.cell_ok(n as int) || true);
                    }
                },
                _ => {},
            }
        }
    }
}

/// `r` comes from `t` by `k` instantiations in `c`: each time, what the type stands for
/// is a `forall` whose bound variable, where the body writes it, is replaced by the next
/// hole from `base` on, a hole that `c` holds empty, named after the binder and of its
/// kind, at level `lvl`.
pub open spec fn inst_steps(c: Context, t: SType, r: SType, base: int, k: int, lvl: usize) -> bool
    decreases k,
{
    if k <= 0 {
        r == t
    } else {
        let d = c.deref_view(t);
        &&& d is Forall
        &&& 0 <= base < c.size()
        &&& c.store()[base] == SHole::Empty(d->Forall_0, *d->Forall_1, lvl)
        &&& inst_steps(c, subst_bound(*d->Forall_3, d->Forall_2, SType::Hole(base as usize)), r, base + 1, k - 1, lvl)
    }
}

/// One more instantiation after `k` of them gives `k + 1` of them.
pub proof fn lemma_inst_steps_snoc(c: Context, t: SType, r: SType, r2: SType, base: int, k: int, lvl: usize)
    requires
        k >= 0,
        inst_steps(c, t, r, base, k, lvl),
        c.deref_view(r) is Forall,
        0 <= base + k < c.size(),
        c.store()[base + k] == SHole::Empty(c.deref_view(r)->Forall_0, *c.deref_view(r)->Forall_1, lvl),
        r2 == subst_bound(*c.deref_view(r)->Forall_3, c.deref_view(r)->Forall_2, SType::Hole((base + k) as usize)),
    ensures
        inst_steps(c, t, r2, base, k + 1, lvl),
    decreases k,
{
    if k == 0 {
        assert(r == t);
        let d = c.deref_view(t);
        assert(inst_steps(c, subst_bound(*d->Forall_3, d->Forall_2, SType::Hole(base as usize)), r2, base + 1, 0, lvl));
    } else {
        let d = c.deref_view(t);
        lemma_inst_steps_snoc(
            c,
            subst_bound(*d->Forall_3, d->Forall_2, SType::Hole(base as usize)),
            r,
            r2,
            base + 1,
            k - 1,
            lvl,
        );
    }
}

/// Instantiations of a type of `c0` stay so in a context that extends it.
pub proof fn lemma_inst_steps_extends(c0: Context, c1: Context, t: SType, r: SType, base: int, k: int, lvl: usize)
    requires
        c0.wf(),
        c1.wf(),
        extends(c0, c1),
        closed(t, c0.size()),
        0 <= base,
        inst_steps(c0, t, r, base, k, lvl),
    ensures
        inst_steps(c1, t, r, base, k, lvl),
    decreases k,
{
    if k > 0 {
        lemma_deref_view_extends(c0, c1, t);
        lemma_deref_view(c0, t);
        let d = c0.deref_view(t);
        lemma_children_closed(d, c0.size());
        let t2 = subst_bound(*d->Forall_3, d->Forall_2, SType::Hole(base as usize));
        assert forall|w: usize| mentions(t2, w) implies w < c0.size() by {
            crate::type_facts::lemma_subst_bound_mentions(*d->Forall_3, d->Forall_2, SType::Hole(base as usize), w);
        }
        lemma_inst_steps_extends(c0, c1, t2, r, base + 1, k - 1, lvl);
    }
}

impl Context {
    /// A new empty hole of the given kind, named by a fresh name, at the level of `env`.
    pub fn hole(&mut self, env: &Env, kind: Type) -> (r: Type)
        requires
            old(self).wf(),
            closed(kind@, old(self).size()),
            old(self).size() < usize::MAX,
            old(self).counter < usize::MAX,
        ensures
            grows(*old(self), *final(self)),
            r@ == SType::Hole(old(self).size() as usize),
            final(self).store() == old(self).store().push(
                SHole::Empty(Label::Fresh(old(self).counter), kind@, env.level.0),
            ),
            final(self).counter == old(self).counter + 1,
            final(self).res@ == old(self).res@.push(SType::Hole(old(self).size() as usize)),
    {
        let ghost c0 = *self;
        let name = self.new_name();
        proof {
            assert forall|k: int| 0 <= k < self.size() implies #[trigger] self.cell_ok(k) by {
                assert(c0.cell_ok(k));
            }
        }
        env.hole(self, kind, name)
    }

    /// Instantiates the outermost `forall` of a type: when `ty` stands for a `forall`, its
    /// bound variable becomes a new hole named after it, of its kind, at the level of
    /// `env`. Any other type is returned as it is.
    pub(crate) fn instantiate_once(&mut self, env: &Env, ty: &Type) -> (r: Type)
        requires
            old(self).wf(),
            closed(ty@, old(self).size()),
            old(self).size() < usize::MAX,
        ensures
            grows(*old(self), *final(self)),
            closed(r@, final(self).size()),
            ({
                let d = old(self).deref_view(ty@);
                match d {
                    SType::Forall(n, k, l, b) => {
                        &&& r@ == subst_bound(*b, l, SType::Hole(old(self).size() as usize))
                        &&& final(self).store() == old(self).store().push(
                            SHole::Empty(n, *k, env.level.0),
                        )
                        &&& final(self).counter == old(self).counter
                        &&& size(final(self).resolve(r@)) < size(old(self).resolve(ty@))
                    },
                    _ => r@ == ty@ && *final(self) == *old(self),
                }
            }),
    {
        let ghost c0 = *self;
        let d = self.deref(ty);
        proof {
            lemma_children_closed(d@, c0.size());
            crate::unify::lemma_unify_post_refl(c0);
        }
        match &d {
            Type::Forall(name, kind, lvl, body) => {
                let arg = env.hole(self, (**kind).clone(), *name);
                let r = apply(*lvl, body, &arg);
                proof {
                    let k = c0.size() as usize;
                    crate::context::lemma_zonk_prefix(body@, c0.res@, self.res@);
                    crate::context::lemma_zonk_prefix(d@, c0.res@, self.res@);
                    assert(self.cell_ok(k as int));
                    assert(self.res@[k as int] == SType::Hole(k));
                    lemma_zonk_subst_bound_hole_size(body@, *lvl, k, self.res@);
                }
                r
            },
            _ => ty.clone(),
        }
    }

    /// Instantiates a polymorphic type into a monotype: each `forall` in front of what
    /// `ty` stands for, one after the other, has its bound variable replaced by a new hole
    /// named after it, of its kind, at the level of `env`, until the head is no `forall`.
    /// Any other type is returned as it is.
    #[verifier::rlimit(40)]
    pub fn instantiate(&mut self, env: &Env, ty: &Type) -> (r: Type)
        requires
            old(self).wf(),
            closed(ty@, old(self).size()),
            old(self).size() + size(old(self).resolve(ty@)) < usize::MAX,
        ensures
            grows(*old(self), *final(self)),
            extends(*old(self), *final(self)),
            final(self).counter == old(self).counter,
            closed(r@, final(self).size()),
            !(final(self).deref_view(r@) is Forall),
            inst_steps(
                *final(self),
                ty@,
                r@,
                old(self).size() as int,
                final(self).size() - old(self).size(),
                env.level.0,
            ),
            !(old(self).deref_view(ty@) is Forall) ==> r@ == ty@ && *final(self) == *old(self),
    {
        let ghost c0 = *self;
        proof {
            crate::unify::lemma_unify_post_refl(c0);
            assert(extends(c0, c0));
            assert(inst_steps(c0, ty@, ty@, c0.size() as int, 0, env.level.0));
        }
        let mut cur = ty.clone();
        #[verifier::loop_isolation(false)]
        loop
            invariant
                c0.wf(),
                c0.size() + size(c0.resolve(ty@)) < usize::MAX,
                closed(ty@, c0.size()),
                grows(c0, *self),
                extends(c0, *self),
                self.counter == c0.counter,
                closed(cur@, self.size()),
                inst_steps(*self, ty@, cur@, c0.size() as int, self.size() - c0.size(), env.level.0),
                self.size() + size(self.resolve(cur@)) <= c0.size() + size(c0.resolve(ty@)),
                self.size() == c0.size() ==> cur@ == ty@ && *self == c0,
                self.size() > c0.size() ==> c0.deref_view(ty@) is Forall,
                self.size() >= c0.size(),
            decreases size(self.resolve(cur@)),
        {
            let d = self.deref(&cur);
            if let Type::Forall(_, _, _, _) = &d {
                let ghost a = *self;
                proof {
                    crate::type_facts::lemma_size_pos(a.resolve(cur@));
                }
                proof {
                    assert(a.deref_view(cur@) == d@);
                    assert(a.deref_view(cur@) is Forall);
                    assert(a.size() < usize::MAX);
                }
                let next = self.instantiate_once(env, &cur);
                proof {
                    let b = *self;
                    let dv = a.deref_view(cur@);
                    assert(b.store() == a.store().push(SHole::Empty(dv->Forall_0, *dv->Forall_1, env.level.0)));
                    assert(b.size() == a.size() + 1) by {
                        assert(b.store().len() == b.size());
                        assert(a.store().len() == a.size());
                    }
                    lemma_grows_trans(c0, a, b);
                    assert(extends(a, b)) by {
                        assert forall|k: int| 0 <= k < a.size() implies #[trigger] b.store()[k] == a.store()[k] by {}
                    }
                    assert(extends(c0, b)) by {
                        assert forall|k: int| 0 <= k < c0.size() implies #[trigger] b.store()[k] == c0.store()[k] by {
                            assert(a.store()[k] == c0.store()[k]);
                        }
                    }
                    lemma_inst_steps_extends(a, b, ty@, cur@, c0.size() as int, a.size() - c0.size(), env.level.0);
                    lemma_deref_view_extends(a, b, cur@);
                    assert(b.store()[a.size() as int] == SHole::Empty(dv->Forall_0, *dv->Forall_1, env.level.0));
                    lemma_inst_steps_snoc(b, ty@, cur@, next@, c0.size() as int, a.size() - c0.size(), env.level.0);
                    assert(b.size() - c0.size() == a.size() - c0.size() + 1);
                }
                cur = next;
            } else {
                proof {
                    assert(!(self.deref_view(cur@) is Forall));
                }
                break;
            }
        }
        cur
    }

    /// Views `typ` as a function type: its argument and its result. An arrow gives its
    /// parts; an error gives itself twice; a `forall` is instantiated first; an empty hole
    /// is filled with an arrow between two new holes of its kind; anything else is not a
    /// function.
    pub fn as_function(&mut self, env: &Env, typ: Type) -> (r: Option<(Type, Type)>)
        requires
            old(self).wf(),
            closed(typ@, old(self).size()),
            old(self).size() + size(old(self).resolve(typ@)) + 2 < usize::MAX,
            old(self).counter + 2 < usize::MAX,
        ensures
            grows(*old(self), *final(self)),
            r is Some ==> closed(r->Some_0.0@, final(self).size()) && closed(
                r->Some_0.1@,
                final(self).size(),
            ),
            ({
                let d = old(self).deref_view(typ@);
                let n = old(self).size();
                match d {
                    SType::Arrow(a, b) => r is Some && r->Some_0.0@ == *a && r->Some_0.1@ == *b
                        && *final(self) == *old(self),
                    SType::Error => r is Some && r->Some_0.0@ == typ@ && r->Some_0.1@ == typ@
                        && *final(self) == *old(self),
                    SType::Hole(h) => {
                        &&& r is Some
                        &&& r->Some_0.0@ == SType::Hole(n as usize)
                        &&& r->Some_0.1@ == SType::Hole((n + 1) as usize)
                        &&& final(self).size() == n + 2
                        &&& final(self).store()[h as int] == SHole::Filled(
                            SType::Arrow(
                                Box::new(SType::Hole(n as usize)),
                                Box::new(SType::Hole((n + 1) as usize)),
                            ),
                        )
                        &&& final(self).resolve(typ@) == final(self).resolve(
                            SType::Arrow(Box::new(r->Some_0.0@), Box::new(r->Some_0.1@)),
                        )
                        &&& final(self).store()[n as int] == SHole::Empty(
                            Label::Fresh(old(self).counter),
                            old(self).store()[h as int]->Empty_1,
                            env.level.0,
                        )
                        &&& final(self).store()[(n + 1) as int] == SHole::Empty(
                            Label::Fresh((old(self).counter + 1) as usize),
                            old(self).store()[h as int]->Empty_1,
                            env.level.0,
                        )
                        &&& final(self).counter == old(self).counter + 2
                    },
                    SType::Forall(_, _, _, _) => final(self).size() > old(self).size(),
                    _ => r is None && *final(self) == *old(self),
                }
            }),
            r is Some ==> function_parts(
                final(self).resolve(r->Some_0.0@),
                final(self).resolve(r->Some_0.1@),
                final(self).resolve(typ@),
            ),
            r is None ==> not_function(final(self).resolve(typ@)),
            r is Some <==> !(function_head(
                *old(self),
                typ@,
                Set::empty(),
                size(old(self).resolve(typ@)) + 1,
            ) is Other),
            function_head(*old(self), typ@, Set::empty(), size(old(self).resolve(typ@)) + 1) is Hole
                ==> final(self).counter == old(self).counter + 2,
            !(function_head(*old(self), typ@, Set::empty(), size(old(self).resolve(typ@)) + 1) is Hole)
                ==> final(self).counter == old(self).counter && extends(*old(self), *final(self)),
            fills_no_forall(*old(self), *final(self)),
        decreases size(old(self).resolve(typ@)),
    {
        let ghost c0 = *self;
        let d = self.deref(&typ);
        proof {
            lemma_children_closed(d@, c0.size());
            crate::unify::lemma_unify_post_refl(c0);
        }
        match d {
            Type::Arrow(a, b) => {
                proof {
                    assert(c0.resolve(typ@) == c0.resolve(d@));
                    assert(c0.resolve(d@) == SType::Arrow(
                        Box::new(c0.resolve(a@)),
                        Box::new(c0.resolve(b@)),
                    ));
                }
                Some((*a, *b))
            },
            Type::Error => {
                proof {
                    assert(c0.resolve(typ@) == c0.resolve(d@));
                }
                Some((typ.clone(), typ))
            },
            Type::Forall(_, _, _, _) => {
                proof {
                    assert(c0.deref_view(typ@) == d@);
                    assert(c0.deref_view(typ@) is Forall);
                    crate::type_facts::lemma_size_pos(c0.resolve(typ@));
                }
                let t = self.instantiate_once(env, &typ);
                proof {
                    assert(size(self.resolve(t@)) < size(c0.resolve(typ@)));
                    assert(self.store().len() == self.size());
                    assert(c0.store().len() == c0.size());
                    assert(self.size() == c0.size() + 1);
                }
                let ghost c1 = *self;
                let ghost tv = t@;
                proof {
                    let n = c0.size() as usize;
                    let d0 = c0.deref_view(typ@);
                    let f0 = size(c0.resolve(typ@));
                    lemma_deref_view(c0, typ@);
                    lemma_children_closed(d0, c0.size());
                    assert(extends(c0, c1));
                    assert(c1.store()[n as int] is Empty);
                    lemma_function_head_fuel(c1, tv, Set::empty(), size(c1.resolve(tv)) + 1, f0);
                    lemma_function_head_inst(c0, c1, *d0->Forall_3, d0->Forall_2, n, Set::empty(), f0);
                    assert(!c0.is_filled_hole(typ@) ==> c0.deref_view(typ@) == typ@);
                    assert(function_head(c0, typ@, Set::empty(), f0 + 1) == function_head(
                        c0,
                        *d0->Forall_3,
                        Set::<usize>::empty().insert(d0->Forall_2),
                        f0,
                    ));
                }
                let r = self.as_function(env, t);
                proof {
                    let c2 = *self;
                    lemma_grows_trans(c0, c1, c2);
                    let n = c0.size() as usize;
                    let d = c0.deref_view(typ@);
                    let l = d->Forall_2;
                    let body = *d->Forall_3;
                    assert(c1.cell_ok(n as int));
                    lemma_inst_zonk(body, l, n, c2.res@);
                    let z = c2.resolve(t@);
                    let zb = zonk(body, c2.res@);
                    let u = c2.res@[n as int];
                    assert(inst_some(z, zb, l, u));
                    if c2.store()[n as int] == c1.store()[n as int] {
                        assert(c2.cell_ok(n as int));
                    }
                    assert(forall_count(u) == 0);
                    lemma_inst_fc(z, zb, l, u);
                    crate::unify::lemma_resolve_after(c0, c2, typ@);
                    crate::unify::lemma_resolve_after(c0, c2, d);
                    let x = c2.resolve(typ@);
                    assert(x == zonk(d, c2.res@));
                    assert(*x->Forall_3 == zb);
                    assert(x->Forall_2 == l);
                    assert(inst_some(z, *x->Forall_3, x->Forall_2, u));
                    assert(fills_no_forall(c0, c2));
                    if r is Some {
                        assert(function_parts(
                            c2.resolve(r->Some_0.0@),
                            c2.resolve(r->Some_0.1@),
                            x,
                        ));
                    } else {
                        assert(not_function(x));
                    }
                }
                r
            },
            Type::Hole(h) => {
                proof {
                    assert(mentions(d@, h));
                    assert(c0.cell_ok(h as int));
                }
                let kind = match &self.holes[h] {
                    HoleInner::Empty(_, kind, _) => kind.clone(),
                    HoleInner::Filled(_) => Type::Error,
                };
                proof {
                    crate::type_facts::lemma_size_pos(c0.resolve(typ@));
                }
                let hole_a = self.hole(env, kind.clone());
                let ghost c1 = *self;
                proof {
                    assert(c1.store()[h as int] == c0.store()[h as int]);
                    crate::context::lemma_zonk_prefix(kind@, c0.res@, c1.res@);
                }
                let hole_b = self.hole(env, kind);
                let ghost c2 = *self;
                let arrow = Type::Arrow(Box::new(hole_a.clone()), Box::new(hole_b.clone()));
                proof {
                    assert(c2.store()[h as int] == c0.store()[h as int]);
                    let n = c0.size();
                    assert(c2.store()[n as int] is Empty);
                    assert(c2.cell_ok(n as int));
                    assert(c2.cell_ok((n + 1) as int));
                    assert(hole_a@ == SType::Hole(n as usize));
                    assert(hole_b@ == SType::Hole((n + 1) as usize));
                    assert(c2.res@[n as int] == SType::Hole(n as usize));
                    assert(c2.res@[(n + 1) as int] == SType::Hole((n + 1) as usize));
                    assert(arrow@ == SType::Arrow(Box::new(hole_a@), Box::new(hole_b@)));
                    assert(c2.res@.len() == c2.size());
                    assert(c2.size() == n + 2) by {
                        assert(c2.store().len() == c2.size());
                        assert(c1.store().len() == c1.size());
                        assert(c0.store().len() == c0.size());
                    }
                    assert((n as usize) as int == n);
                    assert(zonk(SType::Hole(n as usize), c2.res@) == SType::Hole(n as usize));
                    assert(zonk(SType::Hole((n + 1) as usize), c2.res@) == SType::Hole((n + 1) as usize));
                    assert(c2.resolve(arrow@) == arrow@);
                    assert(h < n);
                    assert(!mentions(hole_a@, h));
                    assert(!mentions(hole_b@, h));
                    assert(!mentions(arrow@, h));
                    assert forall|w: usize| mentions(arrow@, w) implies w < c2.size() by {
                        if mentions(hole_a@, w) {
                        } else {
                            assert(mentions(hole_b@, w));
                        }
                    }
                }
                self.fill(h, arrow);
                proof {
                    lemma_grows_trans(c0, c1, c2);
                    lemma_grows_fill(c2, *self);
                    lemma_grows_trans(c0, c2, *self);
                    let n = c0.size();
                    let z = c2.resolve(
                        SType::Arrow(
                            Box::new(SType::Hole(n as usize)),
                            Box::new(SType::Hole((n + 1) as usize)),
                        ),
                    );
                    assert(self.res@[n as int] == SType::Hole(n as usize));
                    assert(self.res@[(n + 1) as int] == SType::Hole((n + 1) as usize));
                    assert(c0.resolve(typ@) == c0.resolve(d@));
                    crate::unify::lemma_resolve_after(c0, *self, typ@);
                    crate::unify::lemma_resolve_after(c0, *self, d@);
                    assert(self.cell_ok(h as int));
                    assert(self.res@[h as int] == SType::Arrow(
                        Box::new(SType::Hole(n as usize)),
                        Box::new(SType::Hole((n + 1) as usize)),
                    ));
                    assert(forall_count(SType::Hole(n as usize)) == 0);
                    assert(forall_count(SType::Hole((n + 1) as usize)) == 0);
                    assert(forall_count(self.res@[h as int]) == 0);
                    assert forall|k: int|
                        0 <= k < c0.size() && #[trigger] self.store()[k] != c0.store()[k] implies k
                        == h by {
                        assert(c2.store()[k] == c0.store()[k]);
                    }
                }
                Some((hole_a, hole_b))
            },
            _ => {
                proof {
                    assert(*self == c0);
                    assert(c0.resolve(typ@) == c0.resolve(d@));
                }
                None
            },
        }
    }
}

/// Growing twice is growing.
pub proof fn lemma_grows_trans(a: Context, b: Context, c: Context)
    requires
        a.wf(),
        grows(a, b),
        grows(b, c),
    ensures
        grows(a, c),
{
    assert forall|k: int| 0 <= k < a.res@.len() implies #[trigger] c.res@[k] == zonk(
        a.res@[k],
        c.res@,
    ) by {
        assert forall|w: usize| mentions(a.res@[k], w) implies w < b.res@.len() by {}
        crate::type_facts::lemma_zonk_zonk(a.res@[k], b.res@, c.res@);
    }
}

/// A step that unification allows grows the context.
pub proof fn lemma_grows_fill(a: Context, b: Context)
    requires
        a.wf(),
        b.wf(),
        a.size() == b.size(),
        refines(a.res@, b.res@),
        a.counter == b.counter,
        a.errors == b.errors,
    ensures
        grows(a, b),
{
}

} // verus!
