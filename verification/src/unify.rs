//! Unification of types: making two types equal by filling holes.

use vstd::prelude::*;
use crate::context::{
    Context, HoleInner, SHole, TypeError, TypeErrorKind, count_empty, depth_bound,
    lemma_depth_bound_seq, refines,
};
use crate::env::Env;
use crate::level::Level;
use crate::type_facts::{
    lemma_children_closed, lemma_equiv_zonk, lemma_guarded_subst, lemma_guarded_zonk,
    lemma_size_seq_elem, lemma_subst_hole_absent, lemma_zonk_mentions, lemma_zonk_subst,
    lemma_zonk_zonk,
};
use crate::types::{
    SType, Type, apply_local, closed, equiv, known, guarded, has_hole, mentions, mentions_bound, size,
    zonk, subst_hole,
};

verus! {

/// What unification keeps of the context: the store stays well formed with the same holes,
/// the new resolution refines the old one, no hole gets emptied, the store is unchanged
/// unless some hole was filled, holes whose resolution was guarded stay so, and the
/// counter and the errors are kept.
pub open spec fn unify_post(c0: Context, c1: Context) -> bool {
    &&& unify_base(c0, c1)
    &&& keeps_guarded(c0, c1)
}

/// What filling holes keeps of the context, guardedness aside.
pub open spec fn unify_base(c0: Context, c1: Context) -> bool {
    &&& c1.wf()
    &&& c1.size() == c0.size()
    &&& refines(c0.res@, c1.res@)
    &&& count_empty(c1.store()) <= count_empty(c0.store())
    &&& count_empty(c1.store()) == count_empty(c0.store()) ==> c1 == c0
    &&& c1.counter == c0.counter
    &&& c1.errors == c0.errors
}

/// Every hole of `c0` whose resolution is guarded still has a guarded resolution in `c1`.
pub open spec fn keeps_guarded(c0: Context, c1: Context) -> bool {
    forall|k: int| 0 <= k < c0.size() && #[trigger] guarded(c0.res@[k]) ==> guarded(c1.res@[k])
}

/// Every hole of `c0` that changed resolves in `c1` to a known type.
pub open spec fn fills_with_known(c0: Context, c1: Context) -> bool {
    forall|k: int|
        0 <= k < c0.size() && #[trigger] c1.store()[k] != c0.store()[k] ==> known(c1.res@[k])
}

/// Two steps that fill holes with known types do so together.
pub proof fn lemma_fills_with_known_trans(a: Context, b: Context, c: Context)
    requires
        b.wf(),
        a.size() <= b.size(),
        refines(b.res@, c.res@),
        fills_with_known(a, b),
        fills_with_known(b, c),
    ensures
        fills_with_known(a, c),
{
    assert forall|k: int| 0 <= k < a.size() && #[trigger] c.store()[k] != a.store()[k] implies known(
        c.res@[k],
    ) by {
        if c.store()[k] == b.store()[k] {
            assert(b.store()[k] != a.store()[k]);
            crate::type_facts::lemma_known(b.res@[k], c.res@);
            assert(k < b.res@.len());
        }
    }
}

/// A type that stands for a known type keeps standing for it after a refining step.
pub proof fn lemma_known_after(c0: Context, c1: Context, t: SType)
    requires
        c0.wf(),
        refines(c0.res@, c1.res@),
        closed(t, c0.size()),
        known(c0.resolve(t)),
    ensures
        c1.resolve(t) == c0.resolve(t),
{
    lemma_resolve_after(c0, c1, t);
    crate::type_facts::lemma_known(c0.resolve(t), c1.res@);
}

/// Every hole of `c0` but `h` is as it was.
pub open spec fn unchanged_except(c0: Context, c1: Context, h: usize) -> bool {
    forall|k: int| 0 <= k < c0.size() && k != h ==> #[trigger] c1.store()[k] == c0.store()[k]
}

/// Two successive steps that keep the context as unification does, keep it so together.
pub proof fn lemma_unify_post_trans(a: Context, b: Context, c: Context)
    requires
        a.wf(),
        unify_post(a, b),
        unify_post(b, c),
    ensures
        unify_post(a, c),
{
    assert forall|k: int| 0 <= k < a.res@.len() implies #[trigger] c.res@[k] == zonk(
        a.res@[k],
        c.res@,
    ) by {
        assert forall|w: usize| mentions(a.res@[k], w) implies w < b.res@.len() by {}
        lemma_zonk_zonk(a.res@[k], b.res@, c.res@);
    }
}

/// What unification keeps of the context, keeping guarded resolutions guarded when `g`.
pub open spec fn unify_post_if(c0: Context, c1: Context, g: bool) -> bool {
    &&& unify_base(c0, c1)
    &&& g ==> keeps_guarded(c0, c1)
}

/// Two successive steps that keep the context as unification does, keep it so together.
pub proof fn lemma_unify_post_if_trans(a: Context, b: Context, c: Context, g: bool)
    requires
        a.wf(),
        unify_post_if(a, b, g),
        unify_post_if(b, c, g),
    ensures
        unify_post_if(a, c, g),
{
    assert forall|k: int| 0 <= k < a.res@.len() implies #[trigger] c.res@[k] == zonk(
        a.res@[k],
        c.res@,
    ) by {
        assert forall|w: usize| mentions(a.res@[k], w) implies w < b.res@.len() by {}
        lemma_zonk_zonk(a.res@[k], b.res@, c.res@);
    }
}

/// Unification does nothing to the context.
pub proof fn lemma_unify_post_refl(a: Context)
    requires
        a.wf(),
    ensures
        unify_post(a, a),
{
    assert forall|k: int| 0 <= k < a.res@.len() implies #[trigger] a.res@[k] == zonk(
        a.res@[k],
        a.res@,
    ) by {
        crate::context::lemma_resolved_fixed(a, k);
    }
}

/// After a step that refines the resolution, what a type stands for is what it stood for
/// with the later resolution applied.
pub proof fn lemma_resolve_after(c0: Context, c1: Context, t: SType)
    requires
        c0.wf(),
        refines(c0.res@, c1.res@),
        closed(t, c0.size()),
    ensures
        c1.resolve(t) == zonk(c0.resolve(t), c1.res@),
{
    lemma_zonk_zonk(t, c0.res@, c1.res@);
}

/// Equivalent types stay equivalent after a refining step.
pub proof fn lemma_equiv_after(c0: Context, c1: Context, a: SType, b: SType)
    requires
        c0.wf(),
        refines(c0.res@, c1.res@),
        closed(a, c0.size()),
        closed(b, c0.size()),
        equiv(c0.resolve(a), c0.resolve(b)),
    ensures
        equiv(c1.resolve(a), c1.resolve(b)),
{
    lemma_resolve_after(c0, c1, a);
    lemma_resolve_after(c0, c1, b);
    lemma_equiv_zonk(c0.resolve(a), c0.resolve(b), c1.res@);
}

/// Types that stand for the same type still do after a refining step.
pub proof fn lemma_same_after(c0: Context, c1: Context, a: SType, b: SType)
    requires
        c0.wf(),
        refines(c0.res@, c1.res@),
        closed(a, c0.size()),
        closed(b, c0.size()),
        c0.resolve(a) == c0.resolve(b),
    ensures
        c1.resolve(a) == c1.resolve(b),
{
    lemma_resolve_after(c0, c1, a);
    lemma_resolve_after(c0, c1, b);
}

/// A type whose resolution is guarded stays so after a step that keeps guarded
/// resolutions guarded.
pub proof fn lemma_guarded_after(c0: Context, c1: Context, t: SType)
    requires
        c0.wf(),
        c1.wf(),
        unify_post(c0, c1),
        closed(t, c0.size()),
        guarded(c0.resolve(t)),
    ensures
        guarded(c1.resolve(t)),
{
    let x = c0.resolve(t);
    lemma_resolve_after(c0, c1, t);
    assert forall|w: usize| mentions(x, w) implies w < c1.size() && guarded(
        #[trigger] c1.res@[w as int],
    ) by {
        lemma_zonk_mentions(t, c0.res@, w);
        let k = choose|k: usize| #[trigger] mentions(t, k) && mentions(c0.res@[k as int], w);
        assert(c0.cell_ok(w as int));
        assert(c0.res@[w as int] == SType::Hole(w));
        assert(guarded(c0.res@[w as int]));
    }
    assert forall|w: usize| mentions(x, w) implies w < c1.res@.len() by {
        lemma_zonk_mentions(t, c0.res@, w);
        let k = choose|k: usize| #[trigger] mentions(t, k) && mentions(c0.res@[k as int], w);
    }
    assert(closed(x, c1.res@.len()));
    lemma_guarded_zonk(x, c1.res@);
}

/// Equivalence is symmetric.
pub proof fn lemma_equiv_sym(a: SType, b: SType)
    requires
        equiv(a, b),
    ensures
        equiv(b, a),
    decreases a,
{
    if a == b || a is Error || b is Error {
    } else {
        match (a, b) {
            (SType::Tuple(x), SType::Tuple(y)) => {
                assert forall|i: int| 0 <= i < y.len() implies equiv(#[trigger] y[i], x[i]) by {
                    lemma_equiv_sym(x[i], y[i]);
                }
            },
            (SType::Application(f, x), SType::Application(g, y)) => {
                lemma_equiv_sym(*f, *g);
                lemma_equiv_sym(*x, *y);
            },
            (SType::Qualified(f, x), SType::Qualified(g, y)) => {
                lemma_equiv_sym(*f, *g);
                lemma_equiv_sym(*x, *y);
            },
            _ => {},
        }
    }
}

/// The holes of what a filled-in-place type stands for are empty holes of the store.
pub(crate) proof fn lemma_resolve_holes_empty(c: Context, t: SType, w: usize)
    requires
        c.wf(),
        closed(t, c.size()),
        mentions(c.resolve(t), w),
    ensures
        w < c.size(),
        c.store()[w as int] is Empty,
{
    lemma_zonk_mentions(t, c.res@, w);
    let k = choose|k: usize| #[trigger] mentions(t, k) && mentions(c.res@[k as int], w);
}

/// What the occurs check finds first.
pub enum Occurrence {
    /// Neither the hole nor an escaping bound variable.
    Clear,
    /// The hole itself.
    Itself,
    /// A bound variable at or above the scope.
    Escape,
}

/// What the occurs check of `hole` at `scope` finds first in `t`, walking every part of it
/// from left to right: arrows, the kind then the body of a `forall`, tuples, applications
/// and qualified types.
pub open spec fn occurs_walk(t: SType, hole: usize, scope: usize) -> Occurrence
    decreases t,
{
    match t {
        SType::Arrow(a, b) => match occurs_walk(*a, hole, scope) {
            Occurrence::Clear => occurs_walk(*b, hole, scope),
            x => x,
        },
        SType::Forall(_, k, _, b) => match occurs_walk(*k, hole, scope) {
            Occurrence::Clear => occurs_walk(*b, hole, scope),
            x => x,
        },
        SType::Hole(h) => if h == hole {
            Occurrence::Itself
        } else {
            Occurrence::Clear
        },
        SType::Bound(l) => if l >= scope {
            Occurrence::Escape
        } else {
            Occurrence::Clear
        },
        SType::Tuple(s) => occurs_walk_seq(s, hole, scope),
        SType::Application(a, b) => match occurs_walk(*a, hole, scope) {
            Occurrence::Clear => occurs_walk(*b, hole, scope),
            x => x,
        },
        SType::Qualified(a, b) => match occurs_walk(*a, hole, scope) {
            Occurrence::Clear => occurs_walk(*b, hole, scope),
            x => x,
        },
        _ => Occurrence::Clear,
    }
}

/// [`occurs_walk`] through the types of `s`, from the first to the last.
pub open spec fn occurs_walk_seq(s: Seq<SType>, hole: usize, scope: usize) -> Occurrence
    decreases s,
{
    if s.len() == 0 {
        Occurrence::Clear
    } else {
        match occurs_walk_seq(s.drop_last(), hole, scope) {
            Occurrence::Clear => occurs_walk(s.last(), hole, scope),
            x => x,
        }
    }
}

/// The result of the occurs check for what it finds.
pub open spec fn occurs_result(o: Occurrence, r: Result<(), TypeErrorKind>) -> bool {
    match o {
        Occurrence::Clear => r is Ok,
        Occurrence::Itself => r is Err && r->Err_0 is InfiniteType,
        Occurrence::Escape => r is Err && r->Err_0 is EscapingScope,
    }
}

/// Where `a` and `b` have an arrow against an arrow, or a `forall` against a `forall`, at
/// a place that unification compares: unification does not look into these and reports a
/// mismatch.
pub open spec fn clash(a: SType, b: SType) -> bool
    decreases a,
{
    match (a, b) {
        (SType::Arrow(_, _), SType::Arrow(_, _)) => true,
        (SType::Forall(_, _, _, _), SType::Forall(_, _, _, _)) => true,
        (SType::Tuple(x), SType::Tuple(y)) => x.len() == y.len() && exists|i: int|
            0 <= i < x.len() && clash(#[trigger] x[i], y[i]),
        (SType::Application(f, x), SType::Application(g, y)) => clash(*f, *g) || clash(*x, *y),
        (SType::Qualified(f, x), SType::Qualified(g, y)) => clash(*f, *g) || clash(*x, *y),
        _ => false,
    }
}

/// Some place that unification compares in `a` and `b` cannot be made equal as it stands:
/// two heads differ, or clash, or an empty hole faces a type in which the occurs check of
/// the hole, at its level in `store`, finds something.
pub open spec fn stuck(store: Seq<SHole>, a: SType, b: SType) -> bool
    decreases a,
{
    if a is Error || b is Error {
        false
    } else if a is Hole && a == b {
        false
    } else if a is Hole {
        !(occurs_walk(b, a->Hole_0, store[a->Hole_0 as int]->Empty_2) is Clear)
    } else if b is Hole {
        !(occurs_walk(a, b->Hole_0, store[b->Hole_0 as int]->Empty_2) is Clear)
    } else {
        match (a, b) {
            (SType::Tuple(x), SType::Tuple(y)) => x.len() != y.len() || exists|i: int|
                0 <= i < x.len() && stuck(store, #[trigger] x[i], y[i]),
            (SType::Application(f, x), SType::Application(g, y)) => stuck(store, *f, *g) || stuck(
                store,
                *x,
                *y,
            ),
            (SType::Qualified(f, x), SType::Qualified(g, y)) => stuck(store, *f, *g) || stuck(
                store,
                *x,
                *y,
            ),
            (SType::Bound(x), SType::Bound(y)) => x != y,
            (SType::Variable(x), SType::Variable(y)) => x != y,
            (SType::Type, SType::Type) => false,
            (SType::Constraint, SType::Constraint) => false,
            _ => true,
        }
    }
}

/// Tuples stuck at one of their elements are stuck.
proof fn lemma_tuple_stuck(store: Seq<SHole>, a: SType, b: SType, i: int)
    requires
        a is Tuple,
        b is Tuple,
        a->Tuple_0.len() == b->Tuple_0.len(),
        0 <= i < a->Tuple_0.len(),
        stuck(store, a->Tuple_0[i], b->Tuple_0[i]),
    ensures
        stuck(store, a, b),
{
}

/// The heads of `a` and `b` differ, neither being a hole or an `Error`: different
/// constructors (an arrow or a `forall` differs from everything), different bound or
/// named variables, or tuples of different lengths.
pub open spec fn head_mismatch(a: SType, b: SType) -> bool {
    &&& !(a is Hole) && !(b is Hole) && !(a is Error) && !(b is Error)
    &&& match (a, b) {
        (SType::Tuple(x), SType::Tuple(y)) => x.len() != y.len(),
        (SType::Application(_, _), SType::Application(_, _)) => false,
        (SType::Qualified(_, _), SType::Qualified(_, _)) => false,
        (SType::Bound(x), SType::Bound(y)) => x != y,
        (SType::Variable(x), SType::Variable(y)) => x != y,
        (SType::Type, SType::Type) => false,
        (SType::Constraint, SType::Constraint) => false,
        _ => true,
    }
}

/// The outcome of unifying `left` with `right` from `c0` to `c1`, `ok` telling whether it
/// succeeded:
/// - on success the two types stand for equivalent types; on failure they are stuck at
///   some place that unification compares;
/// - an `Error` on either side succeeds, and at most fills an empty hole on the other side
///   with `Error`;
/// - different heads fail and change nothing;
/// - a type unified with itself succeeds and changes nothing, unless it clashes with
///   itself (it holds an arrow or a `forall` where unification compares);
/// - an empty hole against another type succeeds exactly when the occurs check of the
///   hole, at its level, finds nothing in the other type; failing, it changes nothing.
pub open spec fn unify_outcome(c0: Context, c1: Context, left: SType, right: SType, ok: bool) -> bool {
    let a = c0.resolve(left);
    let b = c0.resolve(right);
    &&& ok ==> equiv(c1.resolve(left), c1.resolve(right))
    &&& !ok ==> stuck(c1.store(), c1.resolve(left), c1.resolve(right))
    &&& (a is Error || b is Error) ==> ok
    &&& (a is Error && !(b is Hole)) || (b is Error && !(a is Hole)) ==> c1 == c0
    &&& a is Error && b is Hole ==> c1.store() == c0.store().update(
        b->Hole_0 as int,
        SHole::Filled(SType::Error),
    )
    &&& b is Error && a is Hole ==> c1.store() == c0.store().update(
        a->Hole_0 as int,
        SHole::Filled(SType::Error),
    )
    &&& head_mismatch(a, b) ==> !ok && c1 == c0
    &&& a == b && !clash(a, a) ==> ok && c1 == c0
    &&& a is Hole && a != b ==> (ok <==> occurs_walk(
        b,
        a->Hole_0,
        c0.store()[a->Hole_0 as int]->Empty_2,
    ) is Clear)
    &&& b is Hole && !(a is Hole) ==> (ok <==> occurs_walk(
        a,
        b->Hole_0,
        c0.store()[b->Hole_0 as int]->Empty_2,
    ) is Clear)
    &&& !ok && (a is Hole || b is Hole) ==> c1 == c0
}

/// What the occurs check finds is there: the hole itself, or a bound variable at or above
/// the scope.
pub proof fn lemma_occurs_walk_found(t: SType, hole: usize, scope: usize)
    ensures
        occurs_walk(t, hole, scope) is Itself ==> mentions(t, hole),
        occurs_walk(t, hole, scope) is Escape ==> exists|l: usize|
            l >= scope && #[trigger] mentions_bound(t, l),
    decreases t,
{
    match t {
        SType::Arrow(a, b) => {
            lemma_occurs_walk_found(*a, hole, scope);
            lemma_occurs_walk_found(*b, hole, scope);
            if occurs_walk(t, hole, scope) is Escape {
                if occurs_walk(*a, hole, scope) is Escape {
                    let l = choose|l: usize| l >= scope && #[trigger] mentions_bound(*a, l);
                    assert(mentions_bound(t, l));
                } else {
                    let l = choose|l: usize| l >= scope && #[trigger] mentions_bound(*b, l);
                    assert(mentions_bound(t, l));
                }
            }
        },
        SType::Application(a, b) => {
            lemma_occurs_walk_found(*a, hole, scope);
            lemma_occurs_walk_found(*b, hole, scope);
            if occurs_walk(t, hole, scope) is Escape {
                if occurs_walk(*a, hole, scope) is Escape {
                    let l = choose|l: usize| l >= scope && #[trigger] mentions_bound(*a, l);
                    assert(mentions_bound(t, l));
                } else {
                    let l = choose|l: usize| l >= scope && #[trigger] mentions_bound(*b, l);
                    assert(mentions_bound(t, l));
                }
            }
        },
        SType::Forall(_, a, _, b) => {
            lemma_occurs_walk_found(*a, hole, scope);
            lemma_occurs_walk_found(*b, hole, scope);
            if occurs_walk(t, hole, scope) is Escape {
                if occurs_walk(*a, hole, scope) is Escape {
                    let l = choose|l: usize| l >= scope && #[trigger] mentions_bound(*a, l);
                    assert(mentions_bound(t, l));
                } else {
                    let l = choose|l: usize| l >= scope && #[trigger] mentions_bound(*b, l);
                    assert(mentions_bound(t, l));
                }
            }
        },
        SType::Qualified(a, b) => {
            lemma_occurs_walk_found(*a, hole, scope);
            lemma_occurs_walk_found(*b, hole, scope);
            if occurs_walk(t, hole, scope) is Escape {
                if occurs_walk(*a, hole, scope) is Escape {
                    let l = choose|l: usize| l >= scope && #[trigger] mentions_bound(*a, l);
                    assert(mentions_bound(t, l));
                } else {
                    let l = choose|l: usize| l >= scope && #[trigger] mentions_bound(*b, l);
                    assert(mentions_bound(t, l));
                }
            }
        },
        SType::Tuple(s) => {
            lemma_occurs_walk_found_seq(s, hole, scope);
            if occurs_walk(t, hole, scope) is Escape {
                let (l, i) = choose|l: usize, i: int|
                    l >= scope && 0 <= i < s.len() && #[trigger] mentions_bound(s[i], l);
                assert(mentions_bound(t, l));
            }
            if occurs_walk(t, hole, scope) is Itself {
                let i = choose|i: int| 0 <= i < s.len() && #[trigger] mentions(s[i], hole);
                assert(mentions(t, hole));
            }
        },
        SType::Bound(l) => {
            if l >= scope {
                assert(mentions_bound(t, l));
            }
        },
        _ => {},
    }
}

/// [`lemma_occurs_walk_found`] through a sequence of types.
pub proof fn lemma_occurs_walk_found_seq(s: Seq<SType>, hole: usize, scope: usize)
    ensures
        occurs_walk_seq(s, hole, scope) is Itself ==> exists|i: int|
            0 <= i < s.len() && #[trigger] mentions(s[i], hole),
        occurs_walk_seq(s, hole, scope) is Escape ==> exists|l: usize, i: int|
            l >= scope && 0 <= i < s.len() && #[trigger] mentions_bound(s[i], l),
    decreases s,
{
    if s.len() > 0 {
        let init = s.drop_last();
        lemma_occurs_walk_found_seq(init, hole, scope);
        lemma_occurs_walk_found(s.last(), hole, scope);
        if occurs_walk_seq(init, hole, scope) is Clear {
            if occurs_walk(s.last(), hole, scope) is Itself {
                assert(mentions(s[s.len() - 1], hole));
            }
            if occurs_walk(s.last(), hole, scope) is Escape {
                let l = choose|l: usize| l >= scope && #[trigger] mentions_bound(s.last(), l);
                assert(mentions_bound(s[s.len() - 1], l));
            }
        } else {
            if occurs_walk_seq(init, hole, scope) is Itself {
                let i = choose|i: int| 0 <= i < init.len() && #[trigger] mentions(init[i], hole);
                assert(mentions(s[i], hole));
            }
            if occurs_walk_seq(init, hole, scope) is Escape {
                let (l, i) = choose|l: usize, i: int|
                    l >= scope && 0 <= i < init.len() && #[trigger] mentions_bound(init[i], l);
                assert(mentions_bound(s[i], l));
            }
        }
    }
}

/// Once a prefix of a sequence finds something, the whole sequence finds the same.
proof fn lemma_occurs_walk_prefix(s: Seq<SType>, hole: usize, scope: usize, j: int)
    requires
        0 <= j <= s.len(),
        !(occurs_walk_seq(s.take(j), hole, scope) is Clear),
    ensures
        occurs_walk_seq(s, hole, scope) == occurs_walk_seq(s.take(j), hole, scope),
    decreases s.len(),
{
    if j < s.len() {
        assert(s.drop_last().take(j) =~= s.take(j));
        lemma_occurs_walk_prefix(s.drop_last(), hole, scope, j);
    } else {
        assert(s.take(j) =~= s);
    }
}

impl Context {
    /// Records an error at the current place of the environment.
    pub fn report(&mut self, env: &Env, kind: TypeErrorKind)
        ensures
            final(self).errors@ == old(self).errors@.push(TypeError { span: env.span, kind }),
            final(self).counter == old(self).counter,
            final(self).holes == old(self).holes,
            final(self).depth == old(self).depth,
            final(self).res == old(self).res,
    {
        self.errors.push(TypeError { span: env.span, kind });
    }

    /// Checks that `hole` does not occur in `typ` and that `typ` refers to no bound variable
    /// at or above `scope`. The check follows filled holes and looks into every part of
    /// the type: arrows, kinds and bodies of `forall`s, tuples, applications and
    /// qualified types.
    pub fn occurs(&self, env: &Env, scope: Level, hole: usize, typ: &Type) -> (r: Result<
        (),
        TypeErrorKind,
    >)
        requires
            self.wf(),
            closed(typ@, self.size()),
        ensures
            occurs_result(occurs_walk(self.resolve(typ@), hole, scope.0), r),
            r is Ok ==> !mentions(self.resolve(typ@), hole),
            r is Err ==> r->Err_0 is InfiniteType || r->Err_0 is EscapingScope,
            r is Err && r->Err_0 is InfiniteType ==> mentions(self.resolve(typ@), hole),
        decreases depth_bound(typ@, self.depth@), size(typ@),
    {
        let d = self.deref(typ);
        proof {
            lemma_children_closed(d@, self.size());
        }
        match &d {
            Type::Arrow(a, b) => {
                match self.occurs(env, scope, hole, a) {
                    Err(e) => {
                        return Err(e);
                    },
                    Ok(()) => {},
                }
                let r = self.occurs(env, scope, hole, b);
                proof {
                    let z = self.resolve(d@);
                    assert(z == SType::Arrow(
                        Box::new(self.resolve(a@)),
                        Box::new(self.resolve(b@)),
                    ));
                }
                r
            },
            Type::Forall(_, kind, lvl, body) => {
                proof {
                    assert(self.resolve(d@) == SType::Forall(
                        d@->Forall_0,
                        Box::new(self.resolve(kind@)),
                        *lvl,
                        Box::new(self.resolve(body@)),
                    ));
                }
                match self.occurs(env, scope, hole, kind) {
                    Err(e) => {
                        return Err(e);
                    },
                    Ok(()) => {},
                }
                let body = apply_local(*lvl, body);
                self.occurs(env, scope, hole, &body)
            },
            Type::Qualified(a, b) => {
                proof {
                    assert(self.resolve(d@) == SType::Qualified(
                        Box::new(self.resolve(a@)),
                        Box::new(self.resolve(b@)),
                    ));
                }
                match self.occurs(env, scope, hole, a) {
                    Err(e) => {
                        return Err(e);
                    },
                    Ok(()) => {},
                }
                self.occurs(env, scope, hole, b)
            },
            Type::Hole(h) => {
                proof {
                    assert(mentions(d@, *h));
                    assert(self.cell_ok(*h as int));
                    assert(self.res@[*h as int] == SType::Hole(*h));
                }
                if *h == hole {
                    Err(TypeErrorKind::InfiniteType)
                } else {
                    Ok(())
                }
            },
            Type::Bound(l) => {
                if *l >= scope.0 {
                    Err(TypeErrorKind::EscapingScope)
                } else {
                    Ok(())
                }
            },
            Type::Tuple(t) => {
                let ghost s = d@->Tuple_0;
                let mut i: usize = 0;
                while i < t.len()
                    invariant
                        self.wf(),
                        d@ == SType::Tuple(s),
                        s.len() == t@.len(),
                        forall|j: int| 0 <= j < t@.len() ==> s[j] == (#[trigger] t@[j])@,
                        forall|j: int| 0 <= j < s.len() ==> closed(#[trigger] s[j], self.size()),
                        closed(typ@, self.size()),
                        self.resolve(d@) == self.resolve(typ@),
                        !self.is_filled_hole(typ@) ==> d@ == typ@,
                        self.is_filled_hole(typ@) ==> depth_bound(d@, self.depth@) < depth_bound(
                            typ@,
                            self.depth@,
                        ),
                        i <= t@.len(),
                        forall|j: int|
                            0 <= j < i ==> !mentions(#[trigger] self.resolve(s[j]), hole),
                        occurs_walk_seq(self.resolve(d@)->Tuple_0.take(i as int), hole, scope.0) is Clear,
                    decreases t@.len() - i,
                {
                    proof {
                        assert(s[i as int] == t@[i as int]@);
                        lemma_size_seq_elem(s, i as int);
                        lemma_depth_bound_seq(s, self.depth@, i as int);
                    }
                    let ghost zs = self.resolve(d@)->Tuple_0;
                    proof {
                        assert(zs.take(i + 1).drop_last() =~= zs.take(i as int));
                        assert(zs[i as int] == self.resolve(s[i as int]));
                    }
                    match self.occurs(env, scope, hole, &t[i]) {
                        Err(e) => {
                            proof {
                                if e is InfiniteType {
                                    assert(mentions(zs[i as int], hole));
                                }
                                lemma_occurs_walk_prefix(zs, hole, scope.0, i + 1);
                            }
                            return Err(e);
                        },
                        Ok(()) => {},
                    }
                    i = i + 1;
                }
                proof {
                    assert(self.resolve(d@)->Tuple_0.take(t@.len() as int) =~= self.resolve(d@)->Tuple_0);
                    let zs = self.resolve(d@)->Tuple_0;
                    assert forall|j: int| 0 <= j < zs.len() implies !mentions(
                        #[trigger] zs[j],
                        hole,
                    ) by {
                        assert(zs[j] == self.resolve(s[j]));
                    }
                    assert(!mentions(self.resolve(typ@), hole));
                }
                Ok(())
            },
            Type::Application(f, a) => {
                match self.occurs(env, scope, hole, f) {
                    Err(e) => {
                        return Err(e);
                    },
                    Ok(()) => {},
                }
                let r = self.occurs(env, scope, hole, a);
                proof {
                    let z = self.resolve(d@);
                    assert(z == SType::Application(
                        Box::new(self.resolve(f@)),
                        Box::new(self.resolve(a@)),
                    ));
                }
                r
            },
            _ => Ok(()),
        }
    }
    /// Makes `left` and `right` equal by filling holes. A hole is filled with the other
    /// type when it does not occur in it; an `Error` is equal to anything.
    #[verifier::rlimit(60)]
    pub fn unify(&mut self, env: &Env, left: &Type, right: &Type) -> (r: Result<(), TypeErrorKind>)
        requires
            old(self).wf(),
            closed(left@, old(self).size()),
            closed(right@, old(self).size()),
        ensures
            unify_base(*old(self), *final(self)),
            guarded(old(self).resolve(left@)) && guarded(old(self).resolve(right@)) ==> keeps_guarded(
                *old(self),
                *final(self),
            ),
            r is Ok ==> equiv(final(self).resolve(left@), final(self).resolve(right@)),
            r is Err ==> r->Err_0 is TypeMismatch || r->Err_0 is InfiniteType
                || r->Err_0 is EscapingScope,
            r is Ok && (known(old(self).resolve(left@)) || known(old(self).resolve(right@)))
                ==> fills_with_known(*old(self), *final(self)),
            unify_outcome(*old(self), *final(self), left@, right@, r is Ok),
            head_mismatch(old(self).resolve(left@), old(self).resolve(right@)) ==> r is Err
                && r->Err_0 is TypeMismatch && r->Err_0->TypeMismatch_0@ == left@
                && r->Err_0->TypeMismatch_1@ == right@,
            !(old(self).resolve(left@) is Hole) && !(old(self).resolve(right@) is Hole) && (old(
                self,
            ).resolve(left@) is Arrow || old(self).resolve(left@) is Forall || old(self).resolve(
                right@,
            ) is Arrow || old(self).resolve(right@) is Forall) ==> *final(self) == *old(self),
        decreases count_empty(old(self).store()), size(old(self).resolve(left@)) + size(
            old(self).resolve(right@),
        ), 1nat,
    {
        let ghost c0 = *self;
        let ghost gd = guarded(c0.resolve(left@)) && guarded(c0.resolve(right@));
        let lt = self.deref(left);
        let rt = self.deref(right);
        proof {
            lemma_unify_post_refl(c0);
            lemma_children_closed(lt@, c0.size());
            lemma_children_closed(rt@, c0.size());
        }
        let out = match (&lt, &rt) {
            (Type::Tuple(x), Type::Tuple(y)) => {
                if x.len() != y.len() {
                    proof {
                        assert(unify_post_if(c0, *self, gd));
                    }
                    return Err(TypeErrorKind::TypeMismatch(left.clone(), right.clone()));
                }
                let ghost sx = lt@->Tuple_0;
                let ghost sy = rt@->Tuple_0;
                let ghost zx = c0.resolve(lt@)->Tuple_0;
                let ghost zy = c0.resolve(rt@)->Tuple_0;
                let mut i: usize = 0;
                #[verifier::loop_isolation(false)]
                while i < x.len()
                    invariant
                        c0.wf(),
                        c0 == *old(self),
                        unify_post_if(c0, *self, gd),
                        lt@ == SType::Tuple(sx),
                        rt@ == SType::Tuple(sy),
                        zx == c0.resolve(lt@)->Tuple_0,
                        zy == c0.resolve(rt@)->Tuple_0,
                        c0.resolve(lt@) == c0.resolve(left@),
                        c0.resolve(rt@) == c0.resolve(right@),
                        closed(lt@, c0.size()),
                        closed(rt@, c0.size()),
                        gd == (guarded(c0.resolve(lt@)) && guarded(c0.resolve(rt@))),
                        sx.len() == x@.len(),
                        sy.len() == y@.len(),
                        x@.len() == y@.len(),
                        forall|j: int| 0 <= j < x@.len() ==> sx[j] == (#[trigger] x@[j])@,
                        forall|j: int| 0 <= j < y@.len() ==> sy[j] == (#[trigger] y@[j])@,
                        forall|j: int| 0 <= j < sx.len() ==> closed(#[trigger] sx[j], c0.size()),
                        forall|j: int| 0 <= j < sy.len() ==> closed(#[trigger] sy[j], c0.size()),
                        i <= x@.len(),
                        forall|j: int|
                            0 <= j < i ==> equiv(
                                #[trigger] self.resolve(sx[j]),
                                self.resolve(sy[j]),
                            ),
                        (known(c0.resolve(lt@)) || known(c0.resolve(rt@))) ==> fills_with_known(
                            c0,
                            *self,
                        ),
                        (c0.resolve(lt@) == c0.resolve(rt@) && !clash(
                            c0.resolve(lt@),
                            c0.resolve(rt@),
                        )) ==> *self == c0,
                    decreases x@.len() - i,
                {
                    let ghost before = *self;
                    proof {
                        assert(zx[i as int] == c0.resolve(sx[i as int]));
                        assert(zy[i as int] == c0.resolve(sy[i as int]));
                        lemma_size_seq_elem(zx, i as int);
                        lemma_size_seq_elem(zy, i as int);
                        if gd {
                            lemma_guarded_after(c0, *self, sx[i as int]);
                        }
                        if gd {
                            lemma_guarded_after(c0, *self, sy[i as int]);
                        }
                        if known(c0.resolve(lt@)) {
                            assert(known(zx[i as int]));
                            lemma_known_after(c0, *self, sx[i as int]);
                        }
                        if known(c0.resolve(rt@)) {
                            assert(known(zy[i as int]));
                            lemma_known_after(c0, *self, sy[i as int]);
                        }
                        if c0.resolve(lt@) == c0.resolve(rt@) && !clash(
                            c0.resolve(lt@),
                            c0.resolve(rt@),
                        ) {
                            assert(zx[i as int] == zy[i as int]);
                            assert(!clash(zx[i as int], zy[i as int]));
                        }
                    }
                    match self.unify(env, &x[i], &y[i]) {
                        Err(e) => {
                            proof {
                                lemma_unify_post_if_trans(c0, before, *self, gd);
                                lemma_same_after(c0, *self, lt@, left@);
                                lemma_same_after(c0, *self, rt@, right@);
                                let fl = self.resolve(lt@);
                                let fr = self.resolve(rt@);
                                assert(fl->Tuple_0[i as int] == self.resolve(sx[i as int]));
                                assert(fr->Tuple_0[i as int] == self.resolve(sy[i as int]));
                                lemma_tuple_stuck(self.store(), fl, fr, i as int);
                            }
                            return Err(e);
                        },
                        Ok(()) => {},
                    }
                    proof {
                        lemma_unify_post_if_trans(c0, before, *self, gd);
                        if known(c0.resolve(lt@)) || known(c0.resolve(rt@)) {
                            lemma_fills_with_known_trans(c0, before, *self);
                        }
                        assert forall|j: int| 0 <= j < i + 1 implies equiv(
                            #[trigger] self.resolve(sx[j]),
                            self.resolve(sy[j]),
                        ) by {
                            if j < i {
                                lemma_equiv_after(before, *self, sx[j], sy[j]);
                            }
                        }
                    }
                    i = i + 1;
                }
                proof {
                    let zl = self.resolve(lt@)->Tuple_0;
                    let zr = self.resolve(rt@)->Tuple_0;
                    assert forall|j: int| 0 <= j < zl.len() implies equiv(#[trigger] zl[j], zr[j]) by {
                        assert(zl[j] == self.resolve(sx[j]));
                        assert(zr[j] == self.resolve(sy[j]));
                    }
                    assert(equiv(self.resolve(lt@), self.resolve(rt@)));
                    lemma_same_after(c0, *self, lt@, left@);
                    lemma_same_after(c0, *self, rt@, right@);
                    assert(unify_post_if(c0, *self, gd));
                    assert(equiv(self.resolve(left@), self.resolve(right@)));
                }
                Ok(())
            },
            (Type::Application(f, a), Type::Application(g, b)) => {
                proof {
                    lemma_size_pair(c0, lt@, rt@);
                }
                proof {
                    if c0.resolve(lt@) == c0.resolve(rt@) && !clash(c0.resolve(lt@), c0.resolve(rt@)) {
                        assert(c0.resolve(f@) == c0.resolve(g@));
                        assert(c0.resolve(a@) == c0.resolve(b@));
                        assert(!clash(c0.resolve(f@), c0.resolve(g@)));
                        assert(!clash(c0.resolve(a@), c0.resolve(b@)));
                    }
                }
                match self.unify(env, f, g) {
                    Err(e) => {
                        proof {
                            lemma_same_after(c0, *self, lt@, left@);
                            lemma_same_after(c0, *self, rt@, right@);
                            assert(stuck(self.store(), self.resolve(lt@), self.resolve(rt@)));
                        }
                        return Err(e);
                    },
                    Ok(()) => {},
                }
                let ghost mid = *self;
                proof {
                    if gd {
                        lemma_guarded_after(c0, mid, a@);
                    }
                    if gd {
                        lemma_guarded_after(c0, mid, b@);
                    }
                    if known(c0.resolve(lt@)) {
                        lemma_known_after(c0, mid, a@);
                    }
                    if known(c0.resolve(rt@)) {
                        lemma_known_after(c0, mid, b@);
                    }
                }
                let res = self.unify(env, a, b);
                proof {
                    lemma_unify_post_if_trans(c0, mid, *self, gd);
                    if res is Ok && (known(c0.resolve(lt@)) || known(c0.resolve(rt@))) {
                        lemma_fills_with_known_trans(c0, mid, *self);
                    }
                    if res is Ok {
                        lemma_equiv_after(mid, *self, f@, g@);
                        lemma_same_after(c0, *self, lt@, left@);
                        lemma_same_after(c0, *self, rt@, right@);
                    } else {
                        lemma_same_after(c0, *self, lt@, left@);
                        lemma_same_after(c0, *self, rt@, right@);
                        assert(stuck(self.store(), self.resolve(lt@), self.resolve(rt@)));
                    }
                    assert(unify_post_if(c0, *self, gd));
                    assert(res is Ok ==> equiv(self.resolve(left@), self.resolve(right@)));
                }
                res
            },
            (Type::Qualified(f, a), Type::Qualified(g, b)) => {
                proof {
                    lemma_size_pair(c0, lt@, rt@);
                    if gd {
                        lemma_guarded_q(c0, lt@);
                    }
                    if gd {
                        lemma_guarded_q(c0, rt@);
                    }
                }
                proof {
                    if c0.resolve(lt@) == c0.resolve(rt@) && !clash(c0.resolve(lt@), c0.resolve(rt@)) {
                        assert(c0.resolve(f@) == c0.resolve(g@));
                        assert(c0.resolve(a@) == c0.resolve(b@));
                        assert(!clash(c0.resolve(f@), c0.resolve(g@)));
                        assert(!clash(c0.resolve(a@), c0.resolve(b@)));
                    }
                }
                match self.unify(env, f, g) {
                    Err(e) => {
                        proof {
                            lemma_same_after(c0, *self, lt@, left@);
                            lemma_same_after(c0, *self, rt@, right@);
                            assert(stuck(self.store(), self.resolve(lt@), self.resolve(rt@)));
                        }
                        return Err(e);
                    },
                    Ok(()) => {},
                }
                let ghost mid = *self;
                proof {
                    if gd {
                        lemma_guarded_after(c0, mid, a@);
                    }
                    if gd {
                        lemma_guarded_after(c0, mid, b@);
                    }
                    if known(c0.resolve(lt@)) {
                        lemma_known_after(c0, mid, a@);
                    }
                    if known(c0.resolve(rt@)) {
                        lemma_known_after(c0, mid, b@);
                    }
                }
                let res = self.unify(env, a, b);
                proof {
                    lemma_unify_post_if_trans(c0, mid, *self, gd);
                    if res is Ok && (known(c0.resolve(lt@)) || known(c0.resolve(rt@))) {
                        lemma_fills_with_known_trans(c0, mid, *self);
                    }
                    if res is Ok {
                        lemma_equiv_after(mid, *self, f@, g@);
                        lemma_same_after(c0, *self, lt@, left@);
                        lemma_same_after(c0, *self, rt@, right@);
                    } else {
                        lemma_same_after(c0, *self, lt@, left@);
                        lemma_same_after(c0, *self, rt@, right@);
                        assert(stuck(self.store(), self.resolve(lt@), self.resolve(rt@)));
                    }
                    assert(unify_post_if(c0, *self, gd));
                    assert(res is Ok ==> equiv(self.resolve(left@), self.resolve(right@)));
                }
                res
            },
            (Type::Hole(m), _) => {
                if let Type::Hole(n) = &rt {
                    if *n == *m {
                        proof {
                            lemma_same_after(c0, *self, lt@, left@);
                            lemma_same_after(c0, *self, rt@, right@);
                        }
                        return Ok(());
                    }
                }
                proof {
                    assert(mentions(lt@, *m));
                    assert(c0.cell_ok(*m as int));
                    assert(c0.res@[*m as int] == SType::Hole(*m));
                }
                let hm: usize = *m;
                proof {
                    if c0.resolve(rt@) is Error {
                        if rt@ is Hole {
                            assert(mentions(rt@, rt@->Hole_0));
                            assert(c0.cell_ok(rt@->Hole_0 as int));
                        }
                        assert(rt@ == SType::Error);
                    }
                }
                let res = self.unify_hole(env, hm, &rt);
                proof {
                    if res is Ok {
                        lemma_same_after(c0, *self, lt@, left@);
                        lemma_same_after(c0, *self, rt@, right@);
                    }
                    assert(unify_post_if(c0, *self, gd));
                    assert(res is Ok ==> equiv(self.resolve(left@), self.resolve(right@)));
                }
                res
            },
            (_, Type::Hole(m)) => {
                proof {
                    assert(mentions(rt@, *m));
                    assert(c0.cell_ok(*m as int));
                    assert(c0.res@[*m as int] == SType::Hole(*m));
                }
                let hm: usize = *m;
                proof {
                    if c0.resolve(lt@) is Error {
                        if lt@ is Hole {
                            assert(mentions(lt@, lt@->Hole_0));
                            assert(c0.cell_ok(lt@->Hole_0 as int));
                        }
                        assert(lt@ == SType::Error);
                    }
                }
                let res = self.unify_hole(env, hm, &lt);
                proof {
                    if res is Ok {
                        lemma_same_after(c0, *self, lt@, left@);
                        lemma_same_after(c0, *self, rt@, right@);
                        lemma_equiv_sym(self.resolve(rt@), self.resolve(lt@));
                    }
                    assert(unify_post_if(c0, *self, gd));
                    assert(res is Ok ==> equiv(self.resolve(left@), self.resolve(right@)));
                }
                res
            },
            (Type::Bound(x), Type::Bound(y)) => {
                if *x != *y {
                    proof {
                        assert(unify_post_if(c0, *self, gd));
                    }
                    return Err(TypeErrorKind::TypeMismatch(left.clone(), right.clone()));
                }
                proof {
                    lemma_same_after(c0, *self, lt@, left@);
                    lemma_same_after(c0, *self, rt@, right@);
                    assert(unify_post_if(c0, *self, gd));
                    assert(equiv(self.resolve(left@), self.resolve(right@)));
                }
                Ok(())
            },
            (Type::Variable(x), Type::Variable(y)) => {
                if *x != *y {
                    proof {
                        assert(unify_post_if(c0, *self, gd));
                    }
                    return Err(TypeErrorKind::TypeMismatch(left.clone(), right.clone()));
                }
                proof {
                    lemma_same_after(c0, *self, lt@, left@);
                    lemma_same_after(c0, *self, rt@, right@);
                    assert(unify_post_if(c0, *self, gd));
                    assert(equiv(self.resolve(left@), self.resolve(right@)));
                }
                Ok(())
            },
            (Type::Type, Type::Type) => {
                proof {
                    lemma_same_after(c0, *self, lt@, left@);
                    lemma_same_after(c0, *self, rt@, right@);
                    assert(unify_post_if(c0, *self, gd));
                    assert(equiv(self.resolve(left@), self.resolve(right@)));
                }
                Ok(())
            },
            (Type::Constraint, Type::Constraint) => {
                proof {
                    lemma_same_after(c0, *self, lt@, left@);
                    lemma_same_after(c0, *self, rt@, right@);
                    assert(unify_post_if(c0, *self, gd));
                    assert(equiv(self.resolve(left@), self.resolve(right@)));
                }
                Ok(())
            },
            (Type::Error, _) | (_, Type::Error) => {
                proof {
                    lemma_same_after(c0, *self, lt@, left@);
                    lemma_same_after(c0, *self, rt@, right@);
                    assert(unify_post_if(c0, *self, gd));
                    assert(equiv(self.resolve(left@), self.resolve(right@)));
                }
                Ok(())
            },
            _ => {
                proof {
                    assert(unify_post_if(c0, *self, gd));
                }
                Err(TypeErrorKind::TypeMismatch(left.clone(), right.clone()))
            },
        };
        proof {
            assert(unify_post_if(c0, *self, gd));
            assert(c0 == *old(self));
        }
        out
    }

    /// Makes the hole `hole` equal to `right`. An empty hole is filled with `right` when
    /// `right` is not the hole itself and passes the occurs check at the level of the
    /// hole; a filled hole is unified through its content.
    pub(crate) fn unify_hole(&mut self, env: &Env, hole: usize, right: &Type) -> (r: Result<(), TypeErrorKind>)
        requires
            old(self).wf(),
            hole < old(self).size(),
            closed(right@, old(self).size()),
        ensures
            unify_base(*old(self), *final(self)),
            guarded(old(self).res@[hole as int]) && guarded(old(self).resolve(right@))
                ==> keeps_guarded(*old(self), *final(self)),
            r is Ok ==> equiv(
                final(self).resolve(SType::Hole(hole)),
                final(self).resolve(right@),
            ),
            r is Err ==> r->Err_0 is TypeMismatch || r->Err_0 is InfiniteType
                || r->Err_0 is EscapingScope,
            old(self).store()[hole as int] is Empty ==> unchanged_except(
                *old(self),
                *final(self),
                hole,
            ),
            old(self).store()[hole as int] is Empty && r is Ok ==> final(self).resolve(
                SType::Hole(hole),
            ) == final(self).resolve(right@),
            old(self).store()[hole as int] is Empty && r is Err ==> r->Err_0 is EscapingScope || (
            r->Err_0 is InfiniteType && mentions(old(self).resolve(right@), hole)),
            r is Ok && known(old(self).resolve(right@)) ==> fills_with_known(*old(self), *final(self)),
            old(self).store()[hole as int] is Empty && old(self).resolve(right@) == SType::Hole(hole)
                ==> r is Ok && *final(self) == *old(self),
            old(self).store()[hole as int] is Empty && old(self).resolve(right@) != SType::Hole(hole)
                ==> occurs_result(
                occurs_walk(old(self).resolve(right@), hole, old(self).store()[hole as int]->Empty_2),
                r,
            ),
            old(self).store()[hole as int] is Empty && old(self).resolve(right@) != SType::Hole(hole)
                && r is Ok ==> final(self).store() == old(self).store().update(
                hole as int,
                SHole::Filled(right@),
            ),
            old(self).store()[hole as int] is Empty && r is Err ==> *final(self) == *old(self),
        decreases count_empty(old(self).store()), size(old(self).res@[hole as int]) + size(
            old(self).resolve(right@),
        ) + if old(self).store()[hole as int] is Filled {
            1nat
        } else {
            0nat
        }, 0nat,
    {
        let ghost c0 = *self;
        proof {
            lemma_unify_post_refl(c0);
            assert(c0.cell_ok(hole as int));
            assert(mentions(SType::Hole(hole), hole));
        }
        let filled: Option<Type> = match &self.holes[hole] {
            HoleInner::Filled(f) => Some(f.clone()),
            HoleInner::Empty(_, _, _) => None,
        };
        match filled {
            Some(f) => {
                proof {
                    assert(c0.store()[hole as int] == SHole::Filled(f@));
                    assert(c0.resolve(f@) == c0.res@[hole as int]);
                }
                let res = self.unify(env, &f, right);
                proof {
                    if res is Ok {
                        lemma_resolve_after(c0, *self, SType::Hole(hole));
                        lemma_resolve_after(c0, *self, f@);
                    }
                }
                res
            },
            None => {
                let lvl = match &self.holes[hole] {
                    HoleInner::Empty(_, _, lvl) => *lvl,
                    HoleInner::Filled(_) => Level(0),
                };
                proof {
                    assert(self.holes@[hole as int]@ == c0.store()[hole as int]);
                    assert(lvl.0 == c0.store()[hole as int]->Empty_2);
                }
                let d = self.deref(right);
                match &d {
                    Type::Hole(h1) if *h1 == hole => {
                        proof {
                            assert(c0.resolve(right@) == c0.resolve(d@));
                        }
                        Ok(())
                    },
                    _ => {
                        proof {
                            assert(c0.resolve(right@) == c0.resolve(d@));
                            if d@ is Hole {
                                assert(mentions(d@, d@->Hole_0));
                                assert(c0.cell_ok(d@->Hole_0 as int));
                            }
                            assert(c0.resolve(right@) != SType::Hole(hole));
                        }
                        match self.occurs(env, lvl, hole, right) {
                            Err(e) => {
                                return Err(e);
                            },
                            Ok(()) => {},
                        }
                        let ghost z = c0.resolve(right@);
                        let t = right.clone();
                        self.fill(hole, t);
                        proof {
                            let res2 = self.res@;
                            assert(res2[hole as int] == subst_hole(SType::Hole(hole), hole, z));
                            lemma_zonk_subst(right@, c0.res@, res2, hole, z);
                            lemma_subst_hole_absent(z, hole, z);
                            assert(self.resolve(right@) == z);
                            assert(self.resolve(SType::Hole(hole)) == z);
                            if guarded(z) {
                                assert forall|k: int|
                                    0 <= k < c0.size() && #[trigger] guarded(c0.res@[k]) implies guarded(
                                    self.res@[k],
                                ) by {
                                    lemma_guarded_subst(c0.res@[k], hole, z);
                                }
                            }
                        }
                        Ok(())
                    },
                }
            },
        }
    }

    /// Unifies `left` and `right` and tells whether it succeeded: holes filled on the way
    /// stay filled.
    pub fn overlaps(&mut self, env: &Env, left: &Type, right: &Type) -> (r: bool)
        requires
            old(self).wf(),
            closed(left@, old(self).size()),
            closed(right@, old(self).size()),
        ensures
            unify_base(*old(self), *final(self)),
            guarded(old(self).resolve(left@)) && guarded(old(self).resolve(right@)) ==> keeps_guarded(
                *old(self),
                *final(self),
            ),
            r ==> equiv(final(self).resolve(left@), final(self).resolve(right@)),
            unify_outcome(*old(self), *final(self), left@, right@, r),
    {
        let result = self.unify(env, left, right);
        result.is_ok()
    }
}

/// The children of two applications or qualified types are smaller than the pair.
proof fn lemma_size_pair(c: Context, l: SType, r: SType)
    requires
        c.wf(),
        (l is Application && r is Application) || (l is Qualified && r is Qualified),
    ensures
        l is Application ==> size(c.resolve(*l->Application_0)) + size(c.resolve(*r->Application_0))
            < size(c.resolve(l)) + size(c.resolve(r)),
        l is Application ==> size(c.resolve(*l->Application_1)) + size(c.resolve(*r->Application_1))
            < size(c.resolve(l)) + size(c.resolve(r)),
        l is Qualified ==> size(c.resolve(*l->Qualified_0)) + size(c.resolve(*r->Qualified_0))
            < size(c.resolve(l)) + size(c.resolve(r)),
        l is Qualified ==> size(c.resolve(*l->Qualified_1)) + size(c.resolve(*r->Qualified_1))
            < size(c.resolve(l)) + size(c.resolve(r)),
{
}

/// The children of a qualified type with a guarded resolution have guarded, hole-free
/// resolutions.
proof fn lemma_guarded_q(c: Context, t: SType)
    requires
        c.wf(),
        t is Qualified,
        guarded(c.resolve(t)),
    ensures
        guarded(c.resolve(*t->Qualified_0)),
        guarded(c.resolve(*t->Qualified_1)),
{
    lemma_guarded_no_hole(c.resolve(*t->Qualified_0));
    lemma_guarded_no_hole(c.resolve(*t->Qualified_1));
}

/// A type without holes is guarded.
proof fn lemma_guarded_no_hole(t: SType)
    requires
        !has_hole(t),
    ensures
        guarded(t),
    decreases t,
{
    match t {
        SType::Arrow(a, b) => {
            lemma_no_hole_children(t);
            lemma_guarded_no_hole(*a);
            lemma_guarded_no_hole(*b);
        },
        SType::Forall(_, a, _, b) => {
            lemma_no_hole_children(t);
            lemma_guarded_no_hole(*b);
        },
        SType::Application(a, b) => {
            lemma_no_hole_children(t);
            lemma_guarded_no_hole(*a);
            lemma_guarded_no_hole(*b);
        },
        SType::Qualified(a, b) => {
            lemma_no_hole_children(t);
        },
        SType::Tuple(s) => {
            lemma_no_hole_children(t);
            assert forall|i: int| 0 <= i < s.len() implies guarded(#[trigger] s[i]) by {
                lemma_guarded_no_hole(s[i]);
            }
        },
        _ => {},
    }
}

/// The children of a type without holes have no holes.
proof fn lemma_no_hole_children(t: SType)
    requires
        !has_hole(t),
    ensures
        match t {
            SType::Arrow(a, b) => !has_hole(*a) && !has_hole(*b),
            SType::Forall(_, a, _, b) => !has_hole(*a) && !has_hole(*b),
            SType::Application(a, b) => !has_hole(*a) && !has_hole(*b),
            SType::Qualified(a, b) => !has_hole(*a) && !has_hole(*b),
            SType::Tuple(s) => forall|i: int| 0 <= i < s.len() ==> !has_hole(#[trigger] s[i]),
            _ => true,
        },
{
    match t {
        SType::Tuple(s) => {
            assert forall|i: int| 0 <= i < s.len() implies !has_hole(#[trigger] s[i]) by {
                if has_hole(s[i]) {
                    let h = choose|h: usize| mentions(s[i], h);
                    assert(mentions(t, h));
                }
            }
        },
        _ => {
            if t is Arrow || t is Forall || t is Application || t is Qualified {
                let (a, b) = match t {
                    SType::Arrow(a, b) => (*a, *b),
                    SType::Forall(_, a, _, b) => (*a, *b),
                    SType::Application(a, b) => (*a, *b),
                    SType::Qualified(a, b) => (*a, *b),
                    _ => (t, t),
                };
                if has_hole(a) {
                    let h = choose|h: usize| mentions(a, h);
                    assert(mentions(t, h));
                }
                if has_hole(b) {
                    let h = choose|h: usize| mentions(b, h);
                    assert(mentions(t, h));
                }
            }
        },
    }
}

} // verus!
