//! Subsumption of types: checking that one type is at least as polymorphic as another,
//! filling holes on the way.

use vstd::prelude::*;
use crate::context::{Context, TypeErrorKind, refines};
use crate::env::Env;
use crate::instantiate::{grows, lemma_grows_trans};
use crate::subsume::{
    fits_above, fits_below, inst_some, lemma_frame_resolve, lemma_inst_mentions, lemma_inst_zonk,
    sub_post,
};
use crate::type_facts::{lemma_children_closed, lemma_equiv_zonk, lemma_known, lemma_zonk_mentions};
use crate::types::{
    SType, Type, apply_local, closed, equiv, known, guarded, has_hole, mentions, mentions_bound,
    size, zonk,
};
use crate::unify::{
    clash,
    fills_with_known, lemma_fills_with_known_trans, lemma_resolve_after,
    lemma_resolve_holes_empty, lemma_same_after, unchanged_except,
};

verus! {

/// The number of `forall`s in `t`.
pub open spec fn forall_count(t: SType) -> nat
    decreases t,
{
    match t {
        SType::Arrow(a, b) => forall_count(*a) + forall_count(*b),
        SType::Forall(_, k, _, b) => 1 + forall_count(*k) + forall_count(*b),
        SType::Tuple(s) => forall_count_seq(s),
        SType::Application(a, b) => forall_count(*a) + forall_count(*b),
        SType::Qualified(a, b) => forall_count(*a) + forall_count(*b),
        _ => 0,
    }
}

/// The number of `forall`s in the types of `s`.
pub open spec fn forall_count_seq(s: Seq<SType>) -> nat
    decreases s,
{
    if s.len() == 0 {
        0
    } else {
        forall_count_seq(s.drop_last()) + forall_count(s.last())
    }
}

/// Whether the bound variable of level `l` occurs in `t` inside a qualified type or the
/// kind of a `forall`: the places where a hole would make `t` unguarded.
pub open spec fn bound_unguarded(t: SType, l: usize) -> bool
    decreases t,
{
    match t {
        SType::Arrow(a, b) => bound_unguarded(*a, l) || bound_unguarded(*b, l),
        SType::Forall(_, k, _, b) => mentions_bound(*k, l) || bound_unguarded(*b, l),
        SType::Tuple(s) => exists|i: int|
            0 <= i < s.len() && bound_unguarded(#[trigger] s[i], l),
        SType::Application(a, b) => bound_unguarded(*a, l) || bound_unguarded(*b, l),
        SType::Qualified(a, b) => mentions_bound(*a, l) || mentions_bound(*b, l),
        _ => false,
    }
}

/// The `forall`s met along arrows and `forall` bodies bind variables that a hole can
/// replace without making the type unguarded.
pub open spec fn inst_safe(t: SType) -> bool
    decreases t,
{
    match t {
        SType::Arrow(a, b) => inst_safe(*a) && inst_safe(*b),
        SType::Forall(_, _, l, b) => !bound_unguarded(*b, l) && inst_safe(*b),
        _ => true,
    }
}

/// Every hole of `t` resolves to itself in `res`.
pub open spec fn resolved_in(t: SType, res: Seq<SType>) -> bool {
    forall|w: usize| #[trigger]
        mentions(t, w) ==> w < res.len() && res[w as int] == SType::Hole(w)
}

/// Going from the resolution `r1` to `r2`, every hole that resolved to itself resolves
/// to itself or to a known type.
pub open spec fn known_or_open(r1: Seq<SType>, r2: Seq<SType>) -> bool {
    &&& r1.len() <= r2.len()
    &&& forall|w: usize|
        (w as int) < r1.len() && #[trigger] r1[w as int] == SType::Hole(w) ==> r2[w as int]
            == SType::Hole(w) || known(r2[w as int])
}

/// `x` is at least as polymorphic as `y`, as subsumption checks it: arrows are compared
/// part by part, the arguments the other way round; a `forall` of `y` is opened, its
/// bound variable kept; a `forall` of `x` is instantiated, some occurrences of its bound
/// variable replaced by a type without `forall`s whose holes resolve to themselves in
/// `res`; anything else is compared by [`equiv`].
pub open spec fn subsumed(x: SType, y: SType, res: Seq<SType>) -> bool
    decreases forall_count(x) + forall_count(y), size(x) + size(y),
{
    match (x, y) {
        (SType::Arrow(x1, x2), SType::Arrow(y1, y2)) => subsumed(*y1, *x1, res) && subsumed(
            *x2,
            *y2,
            res,
        ),
        (_, SType::Forall(_, _, _, b)) => subsumed(x, *b, res),
        (SType::Forall(_, _, l, b), _) => exists|z: SType, t: SType|
            #[trigger] inst_some(z, *b, l, t) && resolved_in(t, res) && forall_count(t) == 0
                && forall_count(z) == forall_count(*b) && subsumed(z, y, res),
        _ => equiv(x, y),
    }
}

/// A known type has no `forall`.
pub proof fn lemma_known_fc(t: SType)
    requires
        known(t),
    ensures
        forall_count(t) == 0,
    decreases t,
{
    match t {
        SType::Arrow(a, b) => {
            lemma_known_fc(*a);
            lemma_known_fc(*b);
        },
        SType::Application(a, b) => {
            lemma_known_fc(*a);
            lemma_known_fc(*b);
        },
        SType::Qualified(a, b) => {
            lemma_known_fc(*a);
            lemma_known_fc(*b);
        },
        SType::Tuple(s) => {
            assert forall|i: int| 0 <= i < s.len() implies forall_count(#[trigger] s[i]) == 0 by {
                lemma_known_fc(s[i]);
            }
            lemma_fc_seq_zero(s);
        },
        _ => {},
    }
}

/// A sequence of types without `forall`s has none.
pub proof fn lemma_fc_seq_zero(s: Seq<SType>)
    requires
        forall|i: int| 0 <= i < s.len() ==> forall_count(#[trigger] s[i]) == 0,
    ensures
        forall_count_seq(s) == 0,
    decreases s.len(),
{
    if s.len() > 0 {
        assert(forall_count(s[s.len() - 1]) == 0);
        lemma_fc_seq_zero(s.drop_last());
    }
}

/// Two sequences with pointwise equal counts of `forall`s have equal counts.
pub proof fn lemma_fc_seq_pointwise(s: Seq<SType>, u: Seq<SType>)
    requires
        s.len() == u.len(),
        forall|i: int| 0 <= i < s.len() ==> forall_count(#[trigger] s[i]) == forall_count(u[i]),
    ensures
        forall_count_seq(s) == forall_count_seq(u),
    decreases s.len(),
{
    if s.len() > 0 {
        assert(forall_count(s[s.len() - 1]) == forall_count(u[u.len() - 1]));
        lemma_fc_seq_pointwise(s.drop_last(), u.drop_last());
    }
}

/// Replacing a bound variable by something without `forall`s keeps the count of
/// `forall`s.
pub proof fn lemma_inst_fc(z: SType, b: SType, l: usize, t: SType)
    requires
        inst_some(z, b, l, t),
        forall_count(t) == 0,
    ensures
        forall_count(z) == forall_count(b),
    decreases b,
{
    if (b == SType::Bound(l) && z == t) || z == b {
    } else {
        match (z, b) {
            (SType::Arrow(z1, z2), SType::Arrow(b1, b2)) => {
                lemma_inst_fc(*z1, *b1, l, t);
                lemma_inst_fc(*z2, *b2, l, t);
            },
            (SType::Forall(_, k1, _, z2), SType::Forall(_, k2, _, b2)) => {
                lemma_inst_fc(*k1, *k2, l, t);
                lemma_inst_fc(*z2, *b2, l, t);
            },
            (SType::Application(z1, z2), SType::Application(b1, b2)) => {
                lemma_inst_fc(*z1, *b1, l, t);
                lemma_inst_fc(*z2, *b2, l, t);
            },
            (SType::Qualified(z1, z2), SType::Qualified(b1, b2)) => {
                lemma_inst_fc(*z1, *b1, l, t);
                lemma_inst_fc(*z2, *b2, l, t);
            },
            (SType::Tuple(zs), SType::Tuple(bs)) => {
                assert forall|i: int| 0 <= i < zs.len() implies forall_count(#[trigger] zs[i])
                    == forall_count(bs[i]) by {
                    lemma_inst_fc(zs[i], bs[i], l, t);
                }
                lemma_fc_seq_pointwise(zs, bs);
            },
            _ => {},
        }
    }
}

/// Resolving keeps the replaced occurrences replaced, by the resolution of the
/// replacement.
pub proof fn lemma_inst_zonk_stable(z: SType, b: SType, l: usize, t: SType, r: Seq<SType>)
    requires
        inst_some(z, b, l, t),
    ensures
        inst_some(zonk(z, r), zonk(b, r), l, zonk(t, r)),
    decreases b,
{
    if b == SType::Bound(l) && z == t {
    } else if z == b {
        lemma_inst_refl(zonk(b, r), l, zonk(t, r));
    } else {
        match (z, b) {
            (SType::Arrow(z1, z2), SType::Arrow(b1, b2)) => {
                lemma_inst_zonk_stable(*z1, *b1, l, t, r);
                lemma_inst_zonk_stable(*z2, *b2, l, t, r);
            },
            (SType::Forall(_, k1, _, z2), SType::Forall(_, k2, _, b2)) => {
                lemma_inst_zonk_stable(*k1, *k2, l, t, r);
                lemma_inst_zonk_stable(*z2, *b2, l, t, r);
            },
            (SType::Application(z1, z2), SType::Application(b1, b2)) => {
                lemma_inst_zonk_stable(*z1, *b1, l, t, r);
                lemma_inst_zonk_stable(*z2, *b2, l, t, r);
            },
            (SType::Qualified(z1, z2), SType::Qualified(b1, b2)) => {
                lemma_inst_zonk_stable(*z1, *b1, l, t, r);
                lemma_inst_zonk_stable(*z2, *b2, l, t, r);
            },
            (SType::Tuple(zs), SType::Tuple(bs)) => {
                let us = zonk(z, r)->Tuple_0;
                let vs = zonk(b, r)->Tuple_0;
                assert forall|i: int| 0 <= i < vs.len() implies inst_some(
                    #[trigger] us[i],
                    vs[i],
                    l,
                    zonk(t, r),
                ) by {
                    lemma_inst_zonk_stable(zs[i], bs[i], l, t, r);
                }
            },
            _ => {},
        }
    }
}

/// Every type is an instance of itself.
pub proof fn lemma_inst_refl(b: SType, l: usize, t: SType)
    ensures
        inst_some(b, b, l, t),
{
}

/// Without occurrences of the bound variable, the only instance is the type itself.
pub proof fn lemma_inst_no_bound(z: SType, b: SType, l: usize, t: SType)
    requires
        inst_some(z, b, l, t),
        !mentions_bound(b, l),
    ensures
        z == b,
    decreases b,
{
    if (b == SType::Bound(l) && z == t) || z == b {
    } else {
        match (z, b) {
            (SType::Arrow(z1, z2), SType::Arrow(b1, b2)) => {
                lemma_inst_no_bound(*z1, *b1, l, t);
                lemma_inst_no_bound(*z2, *b2, l, t);
            },
            (SType::Forall(_, k1, _, z2), SType::Forall(_, k2, _, b2)) => {
                lemma_inst_no_bound(*k1, *k2, l, t);
                lemma_inst_no_bound(*z2, *b2, l, t);
            },
            (SType::Application(z1, z2), SType::Application(b1, b2)) => {
                lemma_inst_no_bound(*z1, *b1, l, t);
                lemma_inst_no_bound(*z2, *b2, l, t);
            },
            (SType::Qualified(z1, z2), SType::Qualified(b1, b2)) => {
                lemma_inst_no_bound(*z1, *b1, l, t);
                lemma_inst_no_bound(*z2, *b2, l, t);
            },
            (SType::Tuple(zs), SType::Tuple(bs)) => {
                assert forall|i: int| 0 <= i < zs.len() implies #[trigger] zs[i] == bs[i] by {
                    assert(!mentions_bound(bs[i], l));
                    lemma_inst_no_bound(zs[i], bs[i], l, t);
                }
                assert(zs =~= bs);
            },
            _ => {},
        }
    }
}

/// The bound variables of an instance are those of the instantiated type and those of the
/// replacement.
pub proof fn lemma_inst_mentions_bound(z: SType, b: SType, l: usize, t: SType, l2: usize)
    requires
        inst_some(z, b, l, t),
        mentions_bound(z, l2),
    ensures
        mentions_bound(b, l2) || mentions_bound(t, l2),
    decreases b,
{
    if (b == SType::Bound(l) && z == t) || z == b {
    } else {
        match (z, b) {
            (SType::Arrow(z1, z2), SType::Arrow(b1, b2)) => {
                if mentions_bound(*z1, l2) {
                    lemma_inst_mentions_bound(*z1, *b1, l, t, l2);
                } else {
                    lemma_inst_mentions_bound(*z2, *b2, l, t, l2);
                }
            },
            (SType::Forall(_, k1, _, z2), SType::Forall(_, k2, _, b2)) => {
                if mentions_bound(*k1, l2) {
                    lemma_inst_mentions_bound(*k1, *k2, l, t, l2);
                } else {
                    lemma_inst_mentions_bound(*z2, *b2, l, t, l2);
                }
            },
            (SType::Application(z1, z2), SType::Application(b1, b2)) => {
                if mentions_bound(*z1, l2) {
                    lemma_inst_mentions_bound(*z1, *b1, l, t, l2);
                } else {
                    lemma_inst_mentions_bound(*z2, *b2, l, t, l2);
                }
            },
            (SType::Qualified(z1, z2), SType::Qualified(b1, b2)) => {
                if mentions_bound(*z1, l2) {
                    lemma_inst_mentions_bound(*z1, *b1, l, t, l2);
                } else {
                    lemma_inst_mentions_bound(*z2, *b2, l, t, l2);
                }
            },
            (SType::Tuple(zs), SType::Tuple(bs)) => {
                let i = choose|i: int| 0 <= i < zs.len() && mentions_bound(#[trigger] zs[i], l2);
                lemma_inst_mentions_bound(zs[i], bs[i], l, t, l2);
            },
            _ => {},
        }
    }
}

/// A bound variable unguarded in an instance is unguarded in the instantiated type, or occurs in
/// the replacement.
pub proof fn lemma_inst_unguarded(z: SType, b: SType, l: usize, t: SType, l2: usize)
    requires
        inst_some(z, b, l, t),
        bound_unguarded(z, l2),
        !mentions_bound(t, l2),
    ensures
        bound_unguarded(b, l2),
    decreases b,
{
    if b == SType::Bound(l) && z == t {
        lemma_unguarded_mentions(t, l2);
    } else if z == b {
    } else {
        match (z, b) {
            (SType::Arrow(z1, z2), SType::Arrow(b1, b2)) => {
                if bound_unguarded(*z1, l2) {
                    lemma_inst_unguarded(*z1, *b1, l, t, l2);
                } else {
                    lemma_inst_unguarded(*z2, *b2, l, t, l2);
                }
            },
            (SType::Forall(_, k1, _, z2), SType::Forall(_, k2, _, b2)) => {
                if mentions_bound(*k1, l2) {
                    lemma_inst_mentions_bound(*k1, *k2, l, t, l2);
                } else {
                    lemma_inst_unguarded(*z2, *b2, l, t, l2);
                }
            },
            (SType::Application(z1, z2), SType::Application(b1, b2)) => {
                if bound_unguarded(*z1, l2) {
                    lemma_inst_unguarded(*z1, *b1, l, t, l2);
                } else {
                    lemma_inst_unguarded(*z2, *b2, l, t, l2);
                }
            },
            (SType::Qualified(z1, z2), SType::Qualified(b1, b2)) => {
                if mentions_bound(*z1, l2) {
                    lemma_inst_mentions_bound(*z1, *b1, l, t, l2);
                } else {
                    lemma_inst_mentions_bound(*z2, *b2, l, t, l2);
                }
            },
            (SType::Tuple(zs), SType::Tuple(bs)) => {
                let i = choose|i: int| 0 <= i < zs.len() && bound_unguarded(#[trigger] zs[i], l2);
                lemma_inst_unguarded(zs[i], bs[i], l, t, l2);
            },
            _ => {},
        }
    }
}

/// An unguarded bound variable occurs.
pub proof fn lemma_unguarded_mentions(t: SType, l: usize)
    requires
        bound_unguarded(t, l),
    ensures
        mentions_bound(t, l),
    decreases t,
{
    match t {
        SType::Arrow(a, b) => {
            if bound_unguarded(*a, l) {
                lemma_unguarded_mentions(*a, l);
            } else {
                lemma_unguarded_mentions(*b, l);
            }
        },
        SType::Forall(_, k, _, b) => {
            if !mentions_bound(*k, l) {
                lemma_unguarded_mentions(*b, l);
            }
        },
        SType::Application(a, b) => {
            if bound_unguarded(*a, l) {
                lemma_unguarded_mentions(*a, l);
            } else {
                lemma_unguarded_mentions(*b, l);
            }
        },
        SType::Tuple(s) => {
            let i = choose|i: int| 0 <= i < s.len() && bound_unguarded(#[trigger] s[i], l);
            lemma_unguarded_mentions(s[i], l);
        },
        _ => {},
    }
}

/// Replacing a bound variable that occurs only in guarded places by a guarded type keeps
/// a type guarded.
pub proof fn lemma_inst_guarded(z: SType, b: SType, l: usize, t: SType)
    requires
        inst_some(z, b, l, t),
        guarded(b),
        !bound_unguarded(b, l),
        guarded(t),
    ensures
        guarded(z),
    decreases b,
{
    if (b == SType::Bound(l) && z == t) || z == b {
    } else {
        match (z, b) {
            (SType::Arrow(z1, z2), SType::Arrow(b1, b2)) => {
                lemma_inst_guarded(*z1, *b1, l, t);
                lemma_inst_guarded(*z2, *b2, l, t);
            },
            (SType::Forall(_, k1, _, z2), SType::Forall(_, k2, _, b2)) => {
                lemma_inst_no_bound(*k1, *k2, l, t);
                lemma_inst_guarded(*z2, *b2, l, t);
            },
            (SType::Application(z1, z2), SType::Application(b1, b2)) => {
                lemma_inst_guarded(*z1, *b1, l, t);
                lemma_inst_guarded(*z2, *b2, l, t);
            },
            (SType::Qualified(z1, z2), SType::Qualified(b1, b2)) => {
                lemma_inst_no_bound(*z1, *b1, l, t);
                lemma_inst_no_bound(*z2, *b2, l, t);
            },
            (SType::Tuple(zs), SType::Tuple(bs)) => {
                assert forall|i: int| 0 <= i < zs.len() implies guarded(#[trigger] zs[i]) by {
                    assert(guarded(bs[i]));
                    assert(!bound_unguarded(bs[i], l));
                    lemma_inst_guarded(zs[i], bs[i], l, t);
                }
            },
            _ => {},
        }
    }
}

/// Replacing a bound variable by a type without bound variables keeps the `forall`s met
/// along arrows and bodies safe to instantiate.
pub proof fn lemma_inst_inst_safe(z: SType, b: SType, l: usize, t: SType)
    requires
        inst_some(z, b, l, t),
        inst_safe(b),
        inst_safe(t),
        forall|l2: usize| !mentions_bound(t, l2),
    ensures
        inst_safe(z),
    decreases b,
{
    if (b == SType::Bound(l) && z == t) || z == b {
    } else {
        match (z, b) {
            (SType::Arrow(z1, z2), SType::Arrow(b1, b2)) => {
                lemma_inst_inst_safe(*z1, *b1, l, t);
                lemma_inst_inst_safe(*z2, *b2, l, t);
            },
            (SType::Forall(_, _, l2, z2), SType::Forall(_, _, _, b2)) => {
                if bound_unguarded(*z2, l2) {
                    lemma_inst_unguarded(*z2, *b2, l, t, l2);
                }
                lemma_inst_inst_safe(*z2, *b2, l, t);
            },
            _ => {},
        }
    }
}

/// Every hole of `x` resolves in `r` to itself or to a known type.
pub open spec fn fills_known(x: SType, r: Seq<SType>) -> bool {
    forall|w: usize| #[trigger]
        mentions(x, w) ==> w < r.len() && (r[w as int] == SType::Hole(w) || known(r[w as int]))
}

/// A known type has no bound variable inside a qualified type, and is safe to
/// instantiate.
pub proof fn lemma_known_unguarded(g: SType, l: usize)
    requires
        known(g),
    ensures
        !bound_unguarded(g, l),
        inst_safe(g),
    decreases g,
{
    match g {
        SType::Arrow(a, b) => {
            lemma_known_unguarded(*a, l);
            lemma_known_unguarded(*b, l);
        },
        SType::Application(a, b) => {
            lemma_known_unguarded(*a, l);
            lemma_known_unguarded(*b, l);
        },
        SType::Tuple(s) => {
            if bound_unguarded(g, l) {
                let i = choose|i: int| 0 <= i < s.len() && bound_unguarded(#[trigger] s[i], l);
                lemma_known_unguarded(s[i], l);
            }
        },
        _ => {},
    }
}

/// Filling the holes of a guarded type with known types makes no bound variable
/// unguarded.
pub proof fn lemma_fills_unguarded(x: SType, r: Seq<SType>, l: usize)
    requires
        fills_known(x, r),
        guarded(x),
        bound_unguarded(zonk(x, r), l),
    ensures
        bound_unguarded(x, l),
    decreases x,
{
    lemma_fills_known_children(x, r);
    match x {
        SType::Arrow(a, b) => {
            if bound_unguarded(zonk(*a, r), l) {
                lemma_fills_unguarded(*a, r, l);
            } else {
                lemma_fills_unguarded(*b, r, l);
            }
        },
        SType::Forall(_, a, _, b) => {
            crate::context::lemma_zonk_fixed(*a, r);
            if !mentions_bound(zonk(*a, r), l) {
                lemma_fills_unguarded(*b, r, l);
            }
        },
        SType::Application(a, b) => {
            if bound_unguarded(zonk(*a, r), l) {
                lemma_fills_unguarded(*a, r, l);
            } else {
                lemma_fills_unguarded(*b, r, l);
            }
        },
        SType::Qualified(a, b) => {
            crate::context::lemma_zonk_fixed(*a, r);
            crate::context::lemma_zonk_fixed(*b, r);
        },
        SType::Hole(w) => {
            assert(mentions(x, w));
            if known(r[w as int]) {
                lemma_known_unguarded(r[w as int], l);
            }
        },
        SType::Tuple(s) => {
            let u = zonk(x, r)->Tuple_0;
            let i = choose|i: int| 0 <= i < u.len() && bound_unguarded(#[trigger] u[i], l);
            assert(fills_known(s[i], r)) by {
                assert forall|w: usize| #[trigger] mentions(s[i], w) implies w < r.len() && (r[w as int]
                    == SType::Hole(w) || known(r[w as int])) by {
                    assert(mentions(x, w));
                }
            }
            lemma_fills_unguarded(s[i], r, l);
        },
        _ => {},
    }
}

/// Filling holes with known types keeps a type guarded, keeps a guarded type safe to
/// instantiate, and keeps the number of `forall`s.
pub proof fn lemma_fills_keep(x: SType, r: Seq<SType>)
    requires
        fills_known(x, r),
    ensures
        guarded(x) ==> guarded(zonk(x, r)),
        guarded(x) && inst_safe(x) ==> inst_safe(zonk(x, r)),
        forall_count(zonk(x, r)) == forall_count(x),
    decreases x,
{
    match x {
        SType::Arrow(a, b) => {
            lemma_fills_known_children(x, r);
            lemma_fills_keep(*a, r);
            lemma_fills_keep(*b, r);
        },
        SType::Forall(_, a, l, b) => {
            lemma_fills_known_children(x, r);
            lemma_fills_keep(*a, r);
            lemma_fills_keep(*b, r);
            if guarded(x) && bound_unguarded(zonk(*b, r), l) {
                lemma_fills_unguarded(*b, r, l);
            }
            if !has_hole(*a) {
                crate::context::lemma_zonk_fixed(*a, r);
            }
        },
        SType::Application(a, b) => {
            lemma_fills_known_children(x, r);
            lemma_fills_keep(*a, r);
            lemma_fills_keep(*b, r);
        },
        SType::Qualified(a, b) => {
            lemma_fills_known_children(x, r);
            lemma_fills_keep(*a, r);
            lemma_fills_keep(*b, r);
            if !has_hole(*a) {
                crate::context::lemma_zonk_fixed(*a, r);
            }
            if !has_hole(*b) {
                crate::context::lemma_zonk_fixed(*b, r);
            }
        },
        SType::Hole(w) => {
            assert(mentions(x, w));
            if known(r[w as int]) {
                lemma_known_fc(r[w as int]);
                lemma_known_unguarded(r[w as int], 0);
                lemma_known(r[w as int], r);
            }
        },
        SType::Tuple(s) => {
            let u = zonk(x, r)->Tuple_0;
            assert forall|i: int| 0 <= i < s.len() implies (guarded(s[i]) ==> guarded(
                #[trigger] u[i],
            )) && forall_count(u[i]) == forall_count(s[i]) by {
                assert(fills_known(s[i], r)) by {
                    assert forall|w: usize| #[trigger] mentions(s[i], w) implies w < r.len() && (
                    r[w as int] == SType::Hole(w) || known(r[w as int])) by {
                        assert(mentions(x, w));
                    }
                }
                lemma_fills_keep(s[i], r);
            }
            lemma_fc_seq_pointwise(u, s);
        },
        _ => {},
    }
}

/// The children of a type whose holes are filled with known types are too.
proof fn lemma_fills_known_children(x: SType, r: Seq<SType>)
    requires
        fills_known(x, r),
    ensures
        match x {
            SType::Arrow(a, b) => fills_known(*a, r) && fills_known(*b, r),
            SType::Forall(_, a, _, b) => fills_known(*a, r) && fills_known(*b, r),
            SType::Application(a, b) => fills_known(*a, r) && fills_known(*b, r),
            SType::Qualified(a, b) => fills_known(*a, r) && fills_known(*b, r),
            _ => true,
        },
{
    match x {
        SType::Arrow(a, b) => {
            assert forall|w: usize| #[trigger] mentions(*a, w) implies mentions(x, w) by {}
            assert forall|w: usize| #[trigger] mentions(*b, w) implies mentions(x, w) by {}
        },
        SType::Forall(_, a, _, b) => {
            assert forall|w: usize| #[trigger] mentions(*a, w) implies mentions(x, w) by {}
            assert forall|w: usize| #[trigger] mentions(*b, w) implies mentions(x, w) by {}
        },
        SType::Application(a, b) => {
            assert forall|w: usize| #[trigger] mentions(*a, w) implies mentions(x, w) by {}
            assert forall|w: usize| #[trigger] mentions(*b, w) implies mentions(x, w) by {}
        },
        SType::Qualified(a, b) => {
            assert forall|w: usize| #[trigger] mentions(*a, w) implies mentions(x, w) by {}
            assert forall|w: usize| #[trigger] mentions(*b, w) implies mentions(x, w) by {}
        },
        _ => {},
    }
}

/// A type whose holes resolve to themselves in `r1` has its holes filled with known
/// types in `r2`, and its resolution in `r2` resolves to itself.
pub proof fn lemma_resolved_known(t: SType, r1: Seq<SType>, r2: Seq<SType>)
    requires
        resolved_in(t, r1),
        known_or_open(r1, r2),
    ensures
        fills_known(t, r2),
        resolved_in(zonk(t, r2), r2),
{
    assert forall|w: usize| #[trigger] mentions(t, w) implies w < r2.len() && (r2[w as int]
        == SType::Hole(w) || known(r2[w as int])) by {
        assert(r1[w as int] == SType::Hole(w));
    }
    assert forall|w: usize| #[trigger] mentions(zonk(t, r2), w) implies w < r2.len() && r2[w as int]
        == SType::Hole(w) by {
        lemma_zonk_mentions(t, r2, w);
        let k = choose|k: usize| #[trigger] mentions(t, k) && mentions(r2[k as int], w);
        if known(r2[k as int]) {
            lemma_known(r2[k as int], r2);
        }
    }
}

/// A known type is at least as polymorphic as itself.
pub proof fn lemma_subsumed_refl(g: SType, res: Seq<SType>)
    requires
        known(g),
    ensures
        subsumed(g, g, res),
    decreases g,
{
    match g {
        SType::Arrow(a, b) => {
            lemma_subsumed_refl(*a, res);
            lemma_subsumed_refl(*b, res);
        },
        _ => {},
    }
}

/// Subsumption between resolved types holds still after holes that resolved to
/// themselves are filled with known types.
pub proof fn lemma_subsumed_stable(x: SType, y: SType, r1: Seq<SType>, r2: Seq<SType>)
    requires
        subsumed(x, y, r1),
        resolved_in(x, r1),
        resolved_in(y, r1),
        known_or_open(r1, r2),
    ensures
        subsumed(zonk(x, r2), zonk(y, r2), r2),
    decreases forall_count(x) + forall_count(y), size(x) + size(y),
{
    lemma_resolved_known(x, r1, r2);
    lemma_resolved_known(y, r1, r2);
    let x2 = zonk(x, r2);
    let y2 = zonk(y, r2);
    if x is Arrow && y is Arrow {
        let (x1, x3) = (*x->Arrow_0, *x->Arrow_1);
        let (y1, y3) = (*y->Arrow_0, *y->Arrow_1);
        assert forall|w: usize| #[trigger] mentions(x1, w) implies mentions(x, w) by {}
        assert forall|w: usize| #[trigger] mentions(x3, w) implies mentions(x, w) by {}
        assert forall|w: usize| #[trigger] mentions(y1, w) implies mentions(y, w) by {}
        assert forall|w: usize| #[trigger] mentions(y3, w) implies mentions(y, w) by {}
        lemma_subsumed_stable(y1, x1, r1, r2);
        lemma_subsumed_stable(x3, y3, r1, r2);
    } else if y is Forall {
        let b = *y->Forall_3;
        assert forall|w: usize| #[trigger] mentions(b, w) implies mentions(y, w) by {}
        lemma_subsumed_stable(x, b, r1, r2);
        assert(y2->Forall_3 == Box::new(zonk(b, r2)));
    } else if x is Forall {
        let l = x->Forall_2;
        let b = *x->Forall_3;
        let (z, t) = choose|z: SType, t: SType|
            #[trigger] inst_some(z, b, l, t) && resolved_in(t, r1) && forall_count(t) == 0
                && forall_count(z) == forall_count(b) && subsumed(z, y, r1);
        assert forall|w: usize| #[trigger] mentions(b, w) implies mentions(x, w) by {}
        assert(resolved_in(z, r1)) by {
            assert forall|w: usize| #[trigger] mentions(z, w) implies w < r1.len() && r1[w as int]
                == SType::Hole(w) by {
                lemma_inst_mentions(z, b, l, t, w);
            }
        }
        lemma_subsumed_stable(z, y, r1, r2);
        let z2 = zonk(z, r2);
        let t2 = zonk(t, r2);
        lemma_inst_zonk_stable(z, b, l, t, r2);
        lemma_resolved_known(t, r1, r2);
        lemma_fills_keep(t, r2);
        lemma_inst_fc(z2, zonk(b, r2), l, t2);
        lemma_resolved_known(b, r1, r2);
        lemma_fills_keep(b, r2);
        lemma_fills_keep(z, r2);
        if y is Hole {
            assert(mentions(y, y->Hole_0));
            if known(y2) {
                lemma_known(y2, r2);
            }
        }
        assert(!(y2 is Forall));
        assert(x2->Forall_2 == l);
        assert(*x2->Forall_3 == zonk(b, r2));
        assert(inst_some(z2, *x2->Forall_3, x2->Forall_2, t2));
        assert(subsumed(x2, y2, r2));
    } else {
        lemma_equiv_zonk(x, y, r2);
        if x is Hole {
            assert(mentions(x, x->Hole_0));
        }
        if y is Hole {
            assert(mentions(y, y->Hole_0));
        }
        if x2 is Arrow && y2 is Arrow {
            assert(x2 == y2);
            if x is Hole {
                assert(known(x2));
            } else {
                assert(y is Hole);
                assert(known(y2));
            }
            lemma_subsumed_refl(x2, r2);
        }
    }
}

/// `t` has no holes, and its `forall`s stand only where subsumption opens them rather
/// than instantiate them: in positive position when `pos` (the right side), in negative
/// position otherwise; what is neither an arrow nor a `forall` is known.
pub open spec fn opens(t: SType, pos: bool) -> bool
    decreases t,
{
    match t {
        SType::Forall(_, k, _, b) => pos && !has_hole(*k) && opens(*b, pos),
        SType::Arrow(a, b) => opens(*a, !pos) && opens(*b, pos),
        _ => known(t),
    }
}

/// `t` with its `forall`s dropped, where it [`opens`] them.
pub open spec fn strip(t: SType, pos: bool) -> SType
    decreases t,
{
    match t {
        SType::Forall(_, _, _, b) => strip(*b, pos),
        SType::Arrow(a, b) => SType::Arrow(Box::new(strip(*a, !pos)), Box::new(strip(*b, pos))),
        _ => t,
    }
}

/// A known type opens nothing and is its own stripped form.
pub proof fn lemma_known_opens(t: SType, pos: bool)
    requires
        known(t),
    ensures
        opens(t, pos),
        strip(t, pos) == t,
    decreases t,
{
    match t {
        SType::Arrow(a, b) => {
            lemma_known_opens(*a, !pos);
            lemma_known_opens(*b, pos);
        },
        _ => {},
    }
}

/// A type that subsumption opens has no holes, is guarded, and is its own resolution;
/// stripped, it is known.
pub proof fn lemma_opens(t: SType, pos: bool, res: Seq<SType>)
    requires
        opens(t, pos),
    ensures
        forall|w: usize| !mentions(t, w),
        guarded(t),
        zonk(t, res) == t,
        known(strip(t, pos)),
    decreases t,
{
    match t {
        SType::Forall(_, k, _, b) => {
            lemma_opens(*b, pos, res);
            crate::context::lemma_zonk_fixed(*k, res);
            assert forall|w: usize| !mentions(t, w) by {
                if mentions(*k, w) {
                    assert(has_hole(*k));
                }
                assert(!mentions(*b, w));
            }
        },
        SType::Arrow(a, b) => {
            lemma_opens(*a, !pos, res);
            lemma_opens(*b, pos, res);
            assert forall|w: usize| !mentions(t, w) by {
                assert(!mentions(*a, w));
                assert(!mentions(*b, w));
            }
        },
        _ => {
            lemma_known(t, res);
        },
    }
}

/// A hole made a subtype of a type that opens its positive `forall`s becomes it stripped;
/// made a supertype of a type that opens its negative ones, likewise.
pub proof fn lemma_fits_opens(x: SType, t: SType)
    ensures
        opens(t, true) && fits_below(x, t) ==> x == strip(t, true),
        opens(t, false) && fits_above(x, t) ==> x == strip(t, false),
    decreases t,
{
    match t {
        SType::Forall(_, _, _, b) => {
            lemma_fits_opens(x, *b);
        },
        SType::Arrow(a, b) => {
            if x is Arrow {
                lemma_fits_opens(*x->Arrow_0, *a);
                lemma_fits_opens(*x->Arrow_1, *b);
            }
        },
        _ => {},
    }
}

/// A type is at least as polymorphic as itself stripped of the `forall`s it opens on the
/// right, and itself stripped on the left is at least as polymorphic as it.
pub proof fn lemma_subsumed_strip(t: SType, res: Seq<SType>)
    ensures
        opens(t, true) ==> subsumed(strip(t, true), t, res),
        opens(t, false) ==> subsumed(t, strip(t, false), res),
    decreases t,
{
    match t {
        SType::Forall(_, _, _, b) => {
            lemma_subsumed_strip(*b, res);
            if opens(t, true) {
                let x = strip(t, true);
                assert(x == strip(*b, true));
                assert(!(t is Arrow));
                assert(subsumed(x, *b, res));
                assert(*t->Forall_3 == *b);
                assert(subsumed(x, t, res));
            }
        },
        SType::Arrow(a, b) => {
            lemma_subsumed_strip(*a, res);
            lemma_subsumed_strip(*b, res);
        },
        _ => {
            if known(t) {
                lemma_subsumed_refl(t, res);
                lemma_known_opens(t, true);
                lemma_known_opens(t, false);
            }
        },
    }
}

/// A type whose resolution subsumption opens resolves the same after a refining step.
pub proof fn lemma_opens_after(c0: Context, c1: Context, t: SType, pos: bool)
    requires
        c0.wf(),
        refines(c0.res@, c1.res@),
        closed(t, c0.size()),
        opens(c0.resolve(t), pos),
    ensures
        c1.resolve(t) == c0.resolve(t),
{
    lemma_resolve_after(c0, c1, t);
    lemma_opens(c0.resolve(t), pos, c1.res@);
}

/// Making a hole a subtype of a type that opens its positive `forall`s (or a supertype of
/// one that opens its negative ones) fills it with that type stripped, a known type, and
/// fills no other hole of before.
pub proof fn lemma_sub_opens(c0: Context, c1: Context, h: usize, t: SType, pos: bool)
    requires
        sub_post(c0, c1, h),
        h < c0.size(),
        opens(t, pos),
        pos ==> fits_below(c1.res@[h as int], t),
        !pos ==> fits_above(c1.res@[h as int], t),
    ensures
        c1.res@[h as int] == strip(t, pos),
        fills_with_known(c0, c1),
{
    lemma_fits_opens(c1.res@[h as int], t);
    lemma_opens(t, pos, c1.res@);
}

/// In a well formed context, a resolution resolves to itself, and a hole that resolves to
/// itself is empty.
pub proof fn lemma_resolved(c: Context, t: SType)
    requires
        c.wf(),
        closed(t, c.size()),
    ensures
        resolved_in(c.resolve(t), c.res@),
        forall|w: usize|
            (w as int) < c.size() && #[trigger] c.res@[w as int] == SType::Hole(w) ==> c.store()[w as int] is Empty,
{
    assert forall|w: usize| #[trigger] mentions(c.resolve(t), w) implies w < c.res@.len()
        && c.res@[w as int] == SType::Hole(w) by {
        lemma_resolve_holes_empty(c, t, w);
        assert(c.cell_ok(w as int));
    }
    assert forall|w: usize|
        (w as int) < c.size() && #[trigger] c.res@[w as int] == SType::Hole(w) implies c.store()[w as int] is Empty by {
        assert(mentions(c.res@[w as int], w));
    }
}

/// After a step that fills holes only with known types, every hole that resolved to
/// itself resolves to itself or to a known type.
pub proof fn lemma_known_or_open(c1: Context, c2: Context)
    requires
        c1.wf(),
        c2.wf(),
        c1.size() <= c2.size(),
        fills_with_known(c1, c2),
    ensures
        known_or_open(c1.res@, c2.res@),
{
    assert forall|w: usize|
        (w as int) < c1.res@.len() && #[trigger] c1.res@[w as int] == SType::Hole(w) implies c2.res@[w as int]
        == SType::Hole(w) || known(c2.res@[w as int]) by {
        lemma_resolved(c1, SType::Error);
        assert(c1.store()[w as int] is Empty);
        if c2.store()[w as int] == c1.store()[w as int] {
            assert(c2.cell_ok(w as int));
        }
    }
}

/// The types that subsumption is checked on: one side has no holes and `forall`s only
/// where the check opens them (on the right outside an even number of arrow arguments, on
/// the left inside an odd one), the other side is guarded and safe to instantiate.
pub open spec fn sub_domain(c: Context, left: SType, right: SType, d_left: bool) -> bool {
    if d_left {
        opens(c.resolve(left), false) && guarded(c.resolve(right)) && inst_safe(c.resolve(right))
    } else {
        opens(c.resolve(right), true) && guarded(c.resolve(left)) && inst_safe(c.resolve(left))
    }
}

/// `t` is checked against itself without a mismatch: its arrows are compared part by
/// part, and below them unification meets no arrow or `forall` against itself.
pub open spec fn self_subsumes(t: SType) -> bool
    decreases t,
{
    match t {
        SType::Arrow(a, b) => self_subsumes(*a) && self_subsumes(*b),
        _ => !clash(t, t),
    }
}

/// `h` stands for an empty hole whose level, and the level `lvl`, are above every bound
/// variable of what `t` stands for: making the hole fit `t` meets no scope error.
pub open spec fn hole_fits(c: Context, h: SType, t: SType, lvl: usize) -> bool {
    &&& c.resolve(h) is Hole
    &&& forall|l: usize| #[trigger]
        mentions_bound(c.resolve(t), l) ==> l < c.store()[c.resolve(h)->Hole_0 as int]->Empty_2
            && l < lvl
}

/// The side of a subsumption that may have holes.
pub open spec fn open_side(left: SType, right: SType, d_left: bool) -> SType {
    if d_left {
        right
    } else {
        left
    }
}

/// The side of a subsumption that has no holes.
pub open spec fn known_side(left: SType, right: SType, d_left: bool) -> SType {
    if d_left {
        left
    } else {
        right
    }
}

/// The number of holes that a subsumption may make: one per `forall` of the side that
/// may have holes, two per constructor of the other side.
pub open spec fn sub_budget(c: Context, left: SType, right: SType, d_left: bool) -> nat {
    forall_count(c.resolve(open_side(left, right, d_left))) + 2 * size(
        c.resolve(known_side(left, right, d_left)),
    )
}

impl Context {
    /// The recursion of [`Context::subsumes`]: checks that `left` is at least as
    /// polymorphic as `right`. An empty hole on either side is made a subtype or a
    /// supertype of the other side; arrows are compared part by part, the arguments the
    /// other way round; a `forall` on the right is opened; a `forall` on the left is
    /// instantiated; anything else is unified. `d_left` tells which side has no holes.
    #[verifier::rlimit(50)]
    fn subsume_go(&mut self, env: &Env, left: &Type, right: &Type, Ghost(d_left): Ghost<bool>) -> (r: Result<
        (),
        TypeErrorKind,
    >)
        requires
            old(self).wf(),
            closed(left@, old(self).size()),
            closed(right@, old(self).size()),
            sub_domain(*old(self), left@, right@, d_left),
            old(self).size() + sub_budget(*old(self), left@, right@, d_left) < usize::MAX,
            old(self).counter + 2 * size(old(self).resolve(known_side(left@, right@, d_left)))
                < usize::MAX,
            env.level.0 + forall_count(old(self).resolve(open_side(left@, right@, d_left))) + size(
                old(self).resolve(known_side(left@, right@, d_left)),
            ) < usize::MAX,
        ensures
            grows(*old(self), *final(self)),
            final(self).size() <= old(self).size() + sub_budget(*old(self), left@, right@, d_left),
            final(self).counter <= old(self).counter + 2 * size(
                old(self).resolve(known_side(left@, right@, d_left)),
            ),
            r is Ok ==> fills_with_known(*old(self), *final(self)),
            r is Ok ==> subsumed(final(self).resolve(left@), final(self).resolve(right@), final(self).res@),
            r is Err ==> r->Err_0 is TypeMismatch || r->Err_0 is InfiniteType
                || r->Err_0 is EscapingScope,
            old(self).resolve(left@) == old(self).resolve(right@) && known(old(self).resolve(left@))
                && self_subsumes(old(self).resolve(left@)) ==> r is Ok && *final(self) == *old(self),
            hole_fits(*old(self), left@, right@, env.level.0) ==> r is Ok,
            !(old(self).resolve(left@) is Hole) && hole_fits(*old(self), right@, left@, env.level.0)
                ==> r is Ok,
        decreases size(old(self).resolve(known_side(left@, right@, d_left))), size(
            old(self).resolve(open_side(left@, right@, d_left)),
        ),
    {
        let ghost c0 = *self;
        let l = self.deref(left);
        let r = self.deref(right);
        proof {
            lemma_children_closed(l@, c0.size());
            lemma_children_closed(r@, c0.size());
            assert(c0.resolve(l@) == c0.resolve(left@));
            assert(c0.resolve(r@) == c0.resolve(right@));
            lemma_known_fc(SType::Error);
        }
        if let Type::Hole(n) = &l {
            proof {
                assert(mentions(l@, *n));
                assert(c0.cell_ok(*n as int));
                assert(c0.resolve(left@) == SType::Hole(*n));
                assert(!d_left);
                lemma_opens(c0.resolve(r@), true, c0.res@);
            }
            let res = self.sub_hole_type(env, *n, &r);
            proof {
                let c1 = *self;
                if res is Ok {
                    lemma_sub_opens(c0, c1, *n, c0.resolve(r@), true);
                    lemma_resolve_after(c0, c1, left@);
                    lemma_opens_after(c0, c1, right@, true);
                    lemma_subsumed_strip(c0.resolve(r@), c1.res@);
                }
            }
            return res;
        }
        if let Type::Hole(n) = &r {
            proof {
                assert(mentions(r@, *n));
                assert(c0.cell_ok(*n as int));
                assert(c0.resolve(right@) == SType::Hole(*n));
                assert(d_left);
                lemma_opens(c0.resolve(l@), false, c0.res@);
            }
            let res = self.sub_type_hole(env, &l, *n);
            proof {
                let c1 = *self;
                if res is Ok {
                    lemma_sub_opens(c0, c1, *n, c0.resolve(l@), false);
                    lemma_resolve_after(c0, c1, right@);
                    lemma_opens_after(c0, c1, left@, false);
                    lemma_subsumed_strip(c0.resolve(l@), c1.res@);
                }
            }
            return res;
        }
        if let Type::Arrow(m1, m2) = &l {
            if let Type::Arrow(n1, n2) = &r {
                proof {
                    assert(c0.resolve(l@) == SType::Arrow(
                        Box::new(c0.resolve(m1@)),
                        Box::new(c0.resolve(m2@)),
                    ));
                    assert(c0.resolve(r@) == SType::Arrow(
                        Box::new(c0.resolve(n1@)),
                        Box::new(c0.resolve(n2@)),
                    ));
                }
                match self.subsume_go(env, n1, m1, Ghost(!d_left)) {
                    Err(e) => {
                        return Err(e);
                    },
                    Ok(()) => {},
                }
                let ghost c1 = *self;
                proof {
                    let o2 = open_side(m2@, n2@, d_left);
                    let k2 = known_side(m2@, n2@, d_left);
                    lemma_opens_after(c0, c1, k2, !d_left);
                    lemma_resolve_after(c0, c1, o2);
                    lemma_resolved(c0, o2);
                    lemma_known_or_open(c0, c1);
                    lemma_resolved_known(c0.resolve(o2), c0.res@, c1.res@);
                    lemma_fills_keep(c0.resolve(o2), c1.res@);
                }
                let res = self.subsume_go(env, m2, n2, Ghost(d_left));
                proof {
                    let c2 = *self;
                    lemma_grows_trans(c0, c1, c2);
                    if res is Ok {
                        lemma_fills_with_known_trans(c0, c1, c2);
                        lemma_resolved(c1, n1@);
                        lemma_resolved(c1, m1@);
                        lemma_known_or_open(c1, c2);
                        lemma_subsumed_stable(c1.resolve(n1@), c1.resolve(m1@), c1.res@, c2.res@);
                        lemma_resolve_after(c1, c2, n1@);
                        lemma_resolve_after(c1, c2, m1@);
                        lemma_same_after(c0, c2, l@, left@);
                        lemma_same_after(c0, c2, r@, right@);
                        assert(c2.resolve(l@) == SType::Arrow(
                            Box::new(c2.resolve(m1@)),
                            Box::new(c2.resolve(m2@)),
                        ));
                        assert(c2.resolve(r@) == SType::Arrow(
                            Box::new(c2.resolve(n1@)),
                            Box::new(c2.resolve(n2@)),
                        ));
                    }
                }
                return res;
            }
        }
        if let Type::Forall(_, kind, lvl, body) = &r {
            proof {
                assert(c0.resolve(r@) == SType::Forall(
                    r@->Forall_0,
                    Box::new(c0.resolve(kind@)),
                    *lvl,
                    Box::new(c0.resolve(body@)),
                ));
            }
            let lvl_ty = Type::Bound(env.level.0);
            let inner = env.add(None, lvl_ty);
            let opened = apply_local(*lvl, body);
            let res = self.subsume_go(&inner, &l, &opened, Ghost(d_left));
            proof {
                let c1 = *self;
                if res is Ok {
                    lemma_same_after(c0, c1, l@, left@);
                    lemma_same_after(c0, c1, r@, right@);
                    let x = c1.resolve(left@);
                    let y = c1.resolve(right@);
                    assert(y == SType::Forall(
                        r@->Forall_0,
                        Box::new(c1.resolve(kind@)),
                        *lvl,
                        Box::new(c1.resolve(body@)),
                    ));
                    assert(subsumed(x, c1.resolve(body@), c1.res@));
                    assert(subsumed(x, y, c1.res@));
                }
            }
            return res;
        }
        if let Type::Forall(name, kind, lvl, body) = &l {
            proof {
                assert(!d_left);
                assert(c0.deref_view(l@) == l@);
                crate::type_facts::lemma_size_pos(c0.resolve(left@));
                assert(c0.resolve(l@) == SType::Forall(
                    *name,
                    Box::new(c0.resolve(kind@)),
                    *lvl,
                    Box::new(c0.resolve(body@)),
                ));
            }
            let inst = self.instantiate_once(env, &l);
            let ghost c1 = *self;
            proof {
                let n = c0.size() as usize;
                assert(c1.store().len() == c1.size());
                assert(c0.store().len() == c0.size());
                assert(c1.size() == c0.size() + 1);
                assert(unchanged_except(c0, c1, n));
                assert(c1.cell_ok(n as int));
                assert(c1.res@[n as int] == SType::Hole(n));
                lemma_inst_zonk(body@, *lvl, n, c1.res@);
                assert(!mentions(c0.resolve(body@), n)) by {
                    if mentions(c0.resolve(body@), n) {
                        lemma_resolve_holes_empty(c0, body@, n);
                    }
                }
                lemma_frame_resolve(c0, c1, body@, n);
                lemma_opens_after(c0, c1, right@, true);
                lemma_opens_after(c0, c1, r@, true);
                let y = c1.resolve(inst@);
                let zb = c0.resolve(body@);
                lemma_inst_guarded(y, zb, *lvl, SType::Hole(n));
                lemma_inst_inst_safe(y, zb, *lvl, SType::Hole(n));
                lemma_inst_fc(y, zb, *lvl, SType::Hole(n));
                assert(fills_with_known(c0, c1));
            }
            let res = self.subsume_go(env, &inst, &r, Ghost(d_left));
            proof {
                let c2 = *self;
                let n = c0.size() as usize;
                lemma_grows_trans(c0, c1, c2);
                if res is Ok {
                    lemma_fills_with_known_trans(c0, c1, c2);
                    lemma_same_after(c0, c2, l@, left@);
                    lemma_same_after(c0, c2, r@, right@);
                    lemma_opens_after(c0, c2, right@, true);
                    let x = c2.resolve(left@);
                    let y = c2.resolve(right@);
                    let zb2 = c2.resolve(body@);
                    let z = c2.resolve(inst@);
                    let t = c2.res@[n as int];
                    lemma_inst_zonk(body@, *lvl, n, c2.res@);
                    assert(inst_some(z, zb2, *lvl, t));
                    lemma_resolved(c2, SType::Hole(n));
                    assert(resolved_in(t, c2.res@));
                    if c2.store()[n as int] == c1.store()[n as int] {
                        assert(c2.cell_ok(n as int));
                    } else {
                        lemma_known_fc(t);
                    }
                    assert(forall_count(t) == 0);
                    lemma_inst_fc(z, zb2, *lvl, t);
                    assert(x == SType::Forall(
                        *name,
                        Box::new(c2.resolve(kind@)),
                        *lvl,
                        Box::new(zb2),
                    ));
                    assert(!(y is Forall));
                    assert(!(x is Arrow));
                    assert(*x->Forall_3 == zb2);
                    assert(inst_some(z, *x->Forall_3, x->Forall_2, t));
                    assert(subsumed(x, y, c2.res@));
                }
            }
            return res;
        }
        proof {
            lemma_opens(c0.resolve(known_side(l@, r@, d_left)), !d_left, c0.res@);
        }
        let res = self.unify(env, &l, &r);
        proof {
            let c1 = *self;
            if res is Ok {
                lemma_same_after(c0, c1, l@, left@);
                lemma_same_after(c0, c1, r@, right@);
                let x = c1.resolve(left@);
                let y = c1.resolve(right@);
                assert(!(x is Forall));
                assert(!(y is Forall));
                assert(!(x is Arrow && y is Arrow));
                assert(subsumed(x, y, c1.res@));
            }
        }
        res
    }

    /// Checks that `left` is at least as polymorphic as `right`, filling holes on the
    /// way, and reports the error if it is not: a mismatch is reported between `left`
    /// and `right` themselves. One of the two types has no holes, such as a type written
    /// by hand, possibly with `forall`s where the check opens them, and the other is
    /// guarded and safe to instantiate: between two types that both have holes in arrow
    /// positions, the check may fill a hole with a type that contains it and never end.
    /// An empty hole on either side, whose level and the level of `env` are above every
    /// bound variable of the other side, passes without an error.
    pub fn subsumes(&mut self, env: &Env, left: Type, right: Type)
        requires
            old(self).wf(),
            closed(left@, old(self).size()),
            closed(right@, old(self).size()),
            sub_domain(*old(self), left@, right@, true) || sub_domain(
                *old(self),
                left@,
                right@,
                false,
            ),
            old(self).size() + forall_count(old(self).resolve(left@)) + forall_count(
                old(self).resolve(right@),
            ) + 2 * (size(old(self).resolve(left@)) + size(old(self).resolve(right@)))
                < usize::MAX,
            old(self).counter + 2 * (size(old(self).resolve(left@)) + size(
                old(self).resolve(right@),
            )) < usize::MAX,
            env.level.0 + forall_count(old(self).resolve(left@)) + forall_count(
                old(self).resolve(right@),
            ) + size(old(self).resolve(left@)) + size(old(self).resolve(right@)) < usize::MAX,
        ensures
            final(self).wf(),
            old(self).size() <= final(self).size(),
            refines(old(self).res@, final(self).res@),
            old(self).counter <= final(self).counter,
            final(self).errors@ == old(self).errors@ ==> subsumed(
                final(self).resolve(left@),
                final(self).resolve(right@),
                final(self).res@,
            ) && fills_with_known(*old(self), *final(self)),
            old(self).resolve(left@) == old(self).resolve(right@) && known(old(self).resolve(left@))
                && self_subsumes(old(self).resolve(left@)) ==> *final(self) == *old(self),
            hole_fits(*old(self), left@, right@, env.level.0) ==> final(self).errors@ == old(
                self,
            ).errors@,
            !(old(self).resolve(left@) is Hole) && hole_fits(*old(self), right@, left@, env.level.0)
                ==> final(self).errors@ == old(self).errors@,
            final(self).errors@ == old(self).errors@ || (final(self).errors@.len()
                == old(self).errors@.len() + 1 && final(self).errors@.drop_last()
                == old(self).errors@ && final(self).errors@.last().span == env.span && (
            match final(self).errors@.last().kind {
                TypeErrorKind::TypeMismatch(a, b) => a@ == left@ && b@ == right@,
                TypeErrorKind::NotAFunction(_) => false,
                _ => true,
            })),
    {
        let ghost c0 = *self;
        let ghost d_left = sub_domain(*self, left@, right@, true);
        let result = self.subsume_go(env, &left, &right, Ghost(d_left));
        match result {
            Ok(()) => {},
            Err(kind) => {
                let ghost c1 = *self;
                match kind {
                    TypeErrorKind::TypeMismatch(_, _) => {
                        self.report(env, TypeErrorKind::TypeMismatch(left, right));
                    },
                    _ => {
                        self.report(env, kind);
                    },
                }
                proof {
                    assert(self.store() == c1.store());
                    assert(self.size() == c1.size());
                    assert forall|k: int| 0 <= k < self.size() implies #[trigger] self.cell_ok(k) by {
                        assert(c1.cell_ok(k));
                    }
                    assert(self.errors@.drop_last() =~= c1.errors@);
                }
            },
        }
    }
}

} // verus!
