//! Subsumption: making a hole a subtype or a supertype of a type.
//!
//! A hole made a subtype of a type drops the `forall`s of the type that stand in
//! positive position, instantiates those in negative position with new holes, and
//! follows arrows part by part, the argument side with the roles swapped.

use vstd::prelude::*;
use crate::context::{Context, HoleInner, SHole, TypeErrorKind, refines};
use crate::env::Env;
use crate::instantiate::lemma_grows_trans;
use crate::type_facts::{lemma_children_closed, lemma_size_seq_pointwise};
use crate::types::{
    Label, SType, Type, apply_local, closed, mentions, mentions_bound, size, subst_bound, zonk,
};
use crate::unify::{lemma_resolve_after, lemma_resolve_holes_empty, unchanged_except};

verus! {

/// `y` is `b` with some of the occurrences of the bound variable `l` replaced by `t`.
pub open spec fn inst_some(y: SType, b: SType, l: usize, t: SType) -> bool
    decreases b,
{
    (b == SType::Bound(l) && y == t) || y == b || match (y, b) {
        (SType::Arrow(y1, y2), SType::Arrow(b1, b2)) => inst_some(*y1, *b1, l, t) && inst_some(
            *y2,
            *b2,
            l,
            t,
        ),
        (SType::Forall(n1, k1, l1, y2), SType::Forall(n2, k2, l2, b2)) => n1 == n2 && l1 == l2
            && inst_some(*k1, *k2, l, t) && inst_some(*y2, *b2, l, t),
        (SType::Tuple(ys), SType::Tuple(bs)) => ys.len() == bs.len() && forall|i: int|
            0 <= i < bs.len() ==> inst_some(#[trigger] ys[i], bs[i], l, t),
        (SType::Application(y1, y2), SType::Application(b1, b2)) => inst_some(*y1, *b1, l, t)
            && inst_some(*y2, *b2, l, t),
        (SType::Qualified(y1, y2), SType::Qualified(b1, b2)) => inst_some(*y1, *b1, l, t)
            && inst_some(*y2, *b2, l, t),
        _ => false,
    }
}

/// What a hole becomes when it is made a subtype of `t`: the `forall`s of `t` are
/// dropped, keeping their bound variables; an arrow becomes an arrow whose argument is
/// made a supertype of the argument of `t` and whose result is made a subtype of the
/// result of `t`; anything else is taken as it is.
pub open spec fn fits_below(x: SType, t: SType) -> bool
    decreases size(t),
{
    match t {
        SType::Forall(_, _, _, b) => fits_below(x, *b),
        SType::Arrow(a, b) => match x {
            SType::Arrow(x1, x2) => fits_above(*x1, *a) && fits_below(*x2, *b),
            _ => false,
        },
        _ => x == t,
    }
}

/// What a hole becomes when it is made a supertype of `t`: the `forall`s of `t` are
/// instantiated, their bound variables becoming holes; an arrow becomes an arrow whose
/// argument is made a subtype of the argument of `t` and whose result is made a
/// supertype of the result of `t`; anything else is taken as it is.
pub open spec fn fits_above(x: SType, t: SType) -> bool
    decreases size(t),
{
    match t {
        SType::Forall(_, _, l, b) => exists|y: SType, n: usize|
            #[trigger] inst_some(y, *b, l, SType::Hole(n)) && size(y) == size(*b) && fits_above(
                x,
                y,
            ),
        SType::Arrow(a, b) => match x {
            SType::Arrow(x1, x2) => fits_below(*x1, *a) && fits_above(*x2, *b),
            _ => false,
        },
        _ => x == t,
    }
}

/// What making a hole a subtype or a supertype keeps of the context: the store stays
/// well formed and only grows, the new resolution refines the old one, no hole but `h`
/// and the new ones changes, `h` changes only by being filled, and the errors are kept.
pub open spec fn sub_post(c0: Context, c1: Context, h: usize) -> bool {
    &&& c1.wf()
    &&& c0.size() <= c1.size()
    &&& refines(c0.res@, c1.res@)
    &&& unchanged_except(c0, c1, h)
    &&& c1.store()[h as int] != c0.store()[h as int] ==> c1.store()[h as int] is Filled
    &&& c0.counter <= c1.counter
    &&& c1.errors == c0.errors
}

/// A hole made a supertype of an instance of the body of a `forall` (its bound variable
/// replaced by a hole) is made a supertype of the `forall`.
pub proof fn lemma_fits_above_inst(
    x: SType,
    y: SType,
    b: SType,
    l: usize,
    n: usize,
    name: Label,
    kind: SType,
)
    requires
        inst_some(y, b, l, SType::Hole(n)),
        size(y) == size(b),
        fits_above(x, y),
    ensures
        fits_above(x, SType::Forall(name, Box::new(kind), l, Box::new(b))),
{
    let f = SType::Forall(name, Box::new(kind), l, Box::new(b));
    assert(*f->Forall_3 == b);
    assert(inst_some(y, *f->Forall_3, f->Forall_2, SType::Hole(n)));
}

/// Resolving after replacing a bound variable by a hole gives the resolution with some of
/// the occurrences of the bound variable replaced by the resolution of the hole: those of
/// the type itself, not those that come from the contents of holes.
pub proof fn lemma_inst_zonk(b: SType, l: usize, n: usize, res: Seq<SType>)
    requires
        closed(b, res.len()),
        n < res.len(),
    ensures
        inst_some(zonk(subst_bound(b, l, SType::Hole(n)), res), zonk(b, res), l, res[n as int]),
    decreases b,
{
    crate::type_facts::lemma_children_closed(b, res.len());
    match b {
        SType::Arrow(x, y) => {
            lemma_inst_zonk(*x, l, n, res);
            lemma_inst_zonk(*y, l, n, res);
        },
        SType::Forall(_, x, _, y) => {
            lemma_inst_zonk(*x, l, n, res);
            lemma_inst_zonk(*y, l, n, res);
        },
        SType::Application(x, y) => {
            lemma_inst_zonk(*x, l, n, res);
            lemma_inst_zonk(*y, l, n, res);
        },
        SType::Qualified(x, y) => {
            lemma_inst_zonk(*x, l, n, res);
            lemma_inst_zonk(*y, l, n, res);
        },
        SType::Tuple(s) => {
            let ys = zonk(subst_bound(b, l, SType::Hole(n)), res)->Tuple_0;
            let bs = zonk(b, res)->Tuple_0;
            assert forall|i: int| 0 <= i < bs.len() implies inst_some(
                #[trigger] ys[i],
                bs[i],
                l,
                res[n as int],
            ) by {
                lemma_inst_zonk(s[i], l, n, res);
            }
        },
        _ => {},
    }
}

/// Replacing a bound variable by something of size one keeps the size.
pub proof fn lemma_inst_size(y: SType, b: SType, l: usize, t: SType)
    requires
        inst_some(y, b, l, t),
        size(t) == 1,
    ensures
        size(y) == size(b),
    decreases b,
{
    if (b == SType::Bound(l) && y == t) || y == b {
    } else {
        match (y, b) {
            (SType::Arrow(y1, y2), SType::Arrow(b1, b2)) => {
                lemma_inst_size(*y1, *b1, l, t);
                lemma_inst_size(*y2, *b2, l, t);
            },
            (SType::Forall(_, k1, _, y2), SType::Forall(_, k2, _, b2)) => {
                lemma_inst_size(*k1, *k2, l, t);
                lemma_inst_size(*y2, *b2, l, t);
            },
            (SType::Application(y1, y2), SType::Application(b1, b2)) => {
                lemma_inst_size(*y1, *b1, l, t);
                lemma_inst_size(*y2, *b2, l, t);
            },
            (SType::Qualified(y1, y2), SType::Qualified(b1, b2)) => {
                lemma_inst_size(*y1, *b1, l, t);
                lemma_inst_size(*y2, *b2, l, t);
            },
            (SType::Tuple(ys), SType::Tuple(bs)) => {
                assert forall|i: int| 0 <= i < ys.len() implies size(#[trigger] ys[i]) == size(
                    bs[i],
                ) by {
                    lemma_inst_size(ys[i], bs[i], l, t);
                }
                lemma_size_seq_pointwise(ys, bs);
            },
            _ => {},
        }
    }
}

/// The holes of an instance are those of the instantiated type and those of what replaced the
/// bound variable.
pub proof fn lemma_inst_mentions(y: SType, b: SType, l: usize, t: SType, w: usize)
    requires
        inst_some(y, b, l, t),
        mentions(y, w),
    ensures
        mentions(b, w) || mentions(t, w),
    decreases b,
{
    if (b == SType::Bound(l) && y == t) || y == b {
    } else {
        match (y, b) {
            (SType::Arrow(y1, y2), SType::Arrow(b1, b2)) => {
                if mentions(*y1, w) {
                    lemma_inst_mentions(*y1, *b1, l, t, w);
                } else {
                    lemma_inst_mentions(*y2, *b2, l, t, w);
                }
            },
            (SType::Forall(_, k1, _, y2), SType::Forall(_, k2, _, b2)) => {
                if mentions(*k1, w) {
                    lemma_inst_mentions(*k1, *k2, l, t, w);
                } else {
                    lemma_inst_mentions(*y2, *b2, l, t, w);
                }
            },
            (SType::Application(y1, y2), SType::Application(b1, b2)) => {
                if mentions(*y1, w) {
                    lemma_inst_mentions(*y1, *b1, l, t, w);
                } else {
                    lemma_inst_mentions(*y2, *b2, l, t, w);
                }
            },
            (SType::Qualified(y1, y2), SType::Qualified(b1, b2)) => {
                if mentions(*y1, w) {
                    lemma_inst_mentions(*y1, *b1, l, t, w);
                } else {
                    lemma_inst_mentions(*y2, *b2, l, t, w);
                }
            },
            (SType::Tuple(ys), SType::Tuple(bs)) => {
                let i = choose|i: int| 0 <= i < ys.len() && mentions(#[trigger] ys[i], w);
                lemma_inst_mentions(ys[i], bs[i], l, t, w);
            },
            _ => {},
        }
    }
}

/// A type whose resolution does not refer to `h` resolves to the same type after a step
/// that changes no hole but `h` and refines the resolution.
pub proof fn lemma_frame_resolve(c0: Context, c1: Context, t: SType, h: usize)
    requires
        c0.wf(),
        c1.wf(),
        refines(c0.res@, c1.res@),
        unchanged_except(c0, c1, h),
        closed(t, c0.size()),
        !mentions(c0.resolve(t), h),
    ensures
        c1.resolve(t) == c0.resolve(t),
{
    lemma_resolve_after(c0, c1, t);
    let x = c0.resolve(t);
    assert forall|w: usize| #[trigger] mentions(x, w) implies c1.res@[w as int] == SType::Hole(
        w,
    ) by {
        lemma_resolve_holes_empty(c0, t, w);
        assert(c1.store()[w as int] == c0.store()[w as int]);
        assert(c1.cell_ok(w as int));
    }
    assert forall|w: usize| mentions(x, w) implies w < c1.res@.len() by {
        lemma_resolve_holes_empty(c0, t, w);
    }
    crate::context::lemma_zonk_fixed(x, c1.res@);
}

impl Context {
    /// Makes the empty hole `left` a subtype of `right`. A `forall` on the right is
    /// opened with its bound variable kept; an arrow on the right fills the hole with an
    /// arrow between two new holes of its kind, made a supertype of the argument and a
    /// subtype of the result; anything else is unified with the hole.
    pub fn sub_hole_type(&mut self, env: &Env, left: usize, right: &Type) -> (r: Result<
        (),
        TypeErrorKind,
    >)
        requires
            old(self).wf(),
            left < old(self).size(),
            old(self).store()[left as int] is Empty,
            closed(right@, old(self).size()),
            !mentions(old(self).resolve(right@), left),
            old(self).size() + 2 * size(old(self).resolve(right@)) < usize::MAX,
            old(self).counter + 2 * size(old(self).resolve(right@)) < usize::MAX,
            env.level.0 + size(old(self).resolve(right@)) < usize::MAX,
        ensures
            sub_post(*old(self), *final(self), left),
            final(self).size() <= old(self).size() + 2 * size(old(self).resolve(right@)),
            final(self).counter <= old(self).counter + 2 * size(old(self).resolve(right@)),
            final(self).resolve(right@) == old(self).resolve(right@),
            r is Err ==> r->Err_0 is EscapingScope,
            r is Ok ==> fits_below(final(self).res@[left as int], old(self).resolve(right@)),
            (forall|l: usize| #[trigger]
                mentions_bound(old(self).resolve(right@), l) ==> l < old(self).store()[left as int]->Empty_2
                    && l < env.level.0) ==> r is Ok,
            r is Err ==> exists|l: usize| #[trigger]
                mentions_bound(old(self).resolve(right@), l) && (l >= old(self).store()[left as int]->Empty_2
                    || l >= env.level.0),
            r is Ok ==> final(self).store()[left as int] is Filled,
            old(self).resolve(right@) is Arrow ==> {
                let n = old(self).size();
                let kind = old(self).store()[left as int]->Empty_1;
                &&& final(self).store()[n as int] is Filled || final(self).store()[n as int]
                    == SHole::Empty(Label::Fresh(old(self).counter), kind, env.level.0)
                &&& final(self).store()[(n + 1) as int] is Filled || final(self).store()[(n + 1) as int]
                    == SHole::Empty(Label::Fresh((old(self).counter + 1) as usize), kind, env.level.0)
                &&& final(self).store()[(n + 1) as int] is Filled ==> final(self).store()[n as int] is Filled
            },
            old(self).resolve(right@) is Arrow ==> final(self).store()[left as int] == SHole::Filled(
                SType::Arrow(
                    Box::new(SType::Hole(old(self).size() as usize)),
                    Box::new(SType::Hole((old(self).size() + 1) as usize)),
                ),
            ) && final(self).size() >= old(self).size() + 2 && final(self).counter
                >= old(self).counter + 2,
            r is Ok ==> forall|w: usize| #[trigger]
                mentions(final(self).res@[left as int], w) ==> mentions(
                    old(self).resolve(right@),
                    w,
                ) || old(self).size() <= w,
        decreases size(old(self).resolve(right@)),
    {
        let ghost c0 = *self;
        let d = self.deref(right);
        proof {
            lemma_children_closed(d@, c0.size());
        }
        match &d {
            Type::Forall(name, kind, lvl, body) => {
                let lvl_ty = Type::Bound(env.level.0);
                let inner = env.add(name.symbol(), lvl_ty);
                let opened = apply_local(*lvl, body);
                proof {
                    assert(c0.resolve(right@) == c0.resolve(d@));
                    assert(c0.resolve(d@) == SType::Forall(
                        *name,
                        Box::new(c0.resolve(kind@)),
                        *lvl,
                        Box::new(c0.resolve(opened@)),
                    ));
                }
                proof {
                    assert forall|l: usize| #[trigger] mentions_bound(c0.resolve(opened@), l) implies mentions_bound(
                        c0.resolve(right@),
                        l,
                    ) by {}
                }
                let r = self.sub_hole_type(&inner, left, &opened);
                proof {
                    lemma_frame_resolve(c0, *self, right@, left);
                    if r is Err {
                        let l = choose|l: usize| #[trigger] mentions_bound(c0.resolve(opened@), l) && (l
                            >= c0.store()[left as int]->Empty_2 || l >= inner.level.0);
                        assert(mentions_bound(c0.resolve(right@), l));
                    }
                }
                r
            },
            Type::Arrow(a, b) => {
                let kind = match &self.holes[left] {
                    HoleInner::Empty(_, k, _) => k.clone(),
                    HoleInner::Filled(_) => Type::Error,
                };
                proof {
                    assert(c0.cell_ok(left as int));
                }
                let hole_a = self.hole(env, kind.clone());
                let ghost c1 = *self;
                proof {
                    crate::context::lemma_zonk_prefix(kind@, c0.res@, c1.res@);
                }
                let hole_b = self.hole(env, kind);
                let ghost c2 = *self;
                let ghost n = c0.size();
                let ha: usize = match &hole_a {
                    Type::Hole(i) => *i,
                    _ => 0,
                };
                let hb: usize = match &hole_b {
                    Type::Hole(i) => *i,
                    _ => 0,
                };
                let arrow = Type::Arrow(Box::new(hole_a), Box::new(hole_b));
                proof {
                    assert(ha == n && hb == n + 1);
                    assert(c2.store().len() == c2.size());
                    assert(c1.store().len() == c1.size());
                    assert(c0.store().len() == c0.size());
                    assert(c2.size() == n + 2);
                    assert(c2.store()[left as int] == c0.store()[left as int]);
                    assert(c2.cell_ok(n as int));
                    assert(c2.cell_ok((n + 1) as int));
                    assert(c2.res@[ha as int] == SType::Hole(ha));
                    assert(c2.res@[hb as int] == SType::Hole(hb));
                    assert(c2.res@.len() == c2.size());
                    assert(zonk(SType::Hole(ha), c2.res@) == SType::Hole(ha));
                    assert(zonk(SType::Hole(hb), c2.res@) == SType::Hole(hb));
                    assert(arrow@ == SType::Arrow(Box::new(SType::Hole(ha)), Box::new(SType::Hole(hb))));
                    assert(c2.resolve(arrow@) == arrow@);
                    assert(!mentions(SType::Hole(ha), left));
                    assert(!mentions(SType::Hole(hb), left));
                    assert(!mentions(arrow@, left));
                    assert forall|w: usize| mentions(arrow@, w) implies w < c2.size() by {
                        if mentions(SType::Hole(ha), w) {
                        } else {
                            assert(mentions(SType::Hole(hb), w));
                        }
                    }
                }
                self.fill(left, arrow);
                let ghost c3 = *self;
                proof {
                    lemma_grows_trans(c0, c1, c2);
                    lemma_grows_trans(c0, c2, c3);
                    assert(unchanged_except(c0, c3, left));
                    lemma_frame_resolve(c0, c3, a@, left);
                    lemma_frame_resolve(c0, c3, b@, left);
                    lemma_frame_resolve(c0, c3, right@, left);
                    assert(c3.store()[ha as int] is Empty);
                    assert(c3.store()[hb as int] is Empty);
                    assert(c3.res@[left as int] == SType::Arrow(
                        Box::new(SType::Hole(ha)),
                        Box::new(SType::Hole(hb)),
                    ));
                    assert(c0.resolve(d@) == SType::Arrow(
                        Box::new(c0.resolve(a@)),
                        Box::new(c0.resolve(b@)),
                    ));
                    assert(!mentions(c3.resolve(a@), ha)) by {
                        if mentions(c3.resolve(a@), ha) {
                            lemma_resolve_holes_empty(c0, a@, ha);
                        }
                    }
                }
                proof {
                    assert(c3.store()[ha as int] == c2.store()[ha as int]);
                    assert(c3.store()[ha as int]->Empty_2 == env.level.0);
                    assert forall|l: usize| #[trigger] mentions_bound(c3.resolve(a@), l) implies mentions_bound(
                        c0.resolve(right@),
                        l,
                    ) by {}
                }
                match self.sub_type_hole(env, a, ha) {
                    Err(e) => {
                        proof {
                            lemma_grows_trans(c0, c3, *self);
                            lemma_frame_resolve(c0, *self, right@, left);
                            let l = choose|l: usize| #[trigger] mentions_bound(c3.resolve(a@), l) && (l
                                >= c3.store()[ha as int]->Empty_2 || l >= env.level.0);
                            assert(mentions_bound(c0.resolve(right@), l));
                            assert(self.store()[left as int] == c3.store()[left as int]);
                        }
                        return Err(e);
                    },
                    Ok(()) => {},
                }
                let ghost c4 = *self;
                proof {
                    lemma_grows_trans(c0, c3, c4);
                    assert(!mentions(c3.resolve(b@), ha)) by {
                        if mentions(c3.resolve(b@), ha) {
                            lemma_resolve_holes_empty(c0, b@, ha);
                        }
                    }
                    lemma_frame_resolve(c3, c4, b@, ha);
                    assert(c4.store()[hb as int] is Empty);
                    assert(!mentions(c4.resolve(b@), hb)) by {
                        if mentions(c4.resolve(b@), hb) {
                            lemma_resolve_holes_empty(c0, b@, hb);
                        }
                    }
                }
                proof {
                    assert(c4.store()[hb as int] == c3.store()[hb as int]);
                    assert(c3.store()[hb as int] == c2.store()[hb as int]);
                    assert(c4.store()[hb as int]->Empty_2 == env.level.0);
                    assert forall|l: usize| #[trigger] mentions_bound(c4.resolve(b@), l) implies mentions_bound(
                        c0.resolve(right@),
                        l,
                    ) by {}
                }
                let r = self.sub_hole_type(env, hb, b);
                proof {
                    let c5 = *self;
                    assert(c5.store()[left as int] == c3.store()[left as int]);
                    if r is Err {
                        let l = choose|l: usize| #[trigger] mentions_bound(c4.resolve(b@), l) && (l
                            >= c4.store()[hb as int]->Empty_2 || l >= env.level.0);
                        assert(mentions_bound(c0.resolve(right@), l));
                    }
                    lemma_grows_trans(c0, c4, c5);
                    lemma_grows_trans(c3, c4, c5);
                    assert(unchanged_except(c0, c5, left));
                    lemma_frame_resolve(c0, c5, right@, left);
                    if r is Ok {
                        let xa = c4.res@[ha as int];
                        assert(!mentions(xa, hb)) by {
                            if mentions(xa, hb) {
                                if mentions(c3.resolve(a@), hb) {
                                    lemma_resolve_holes_empty(c0, a@, hb);
                                }
                            }
                        }
                        assert(c4.resolve(SType::Hole(ha)) == xa);
                        lemma_frame_resolve(c4, c5, SType::Hole(ha), hb);
                        assert(c5.res@[ha as int] == xa);
                        assert(c5.res@[left as int] == zonk(c3.res@[left as int], c5.res@));
                        assert(c5.res@[left as int] == SType::Arrow(
                            Box::new(c5.res@[ha as int]),
                            Box::new(c5.res@[hb as int]),
                        ));
                        assert forall|w: usize| #[trigger]
                            mentions(c5.res@[left as int], w) implies mentions(
                            c0.resolve(right@),
                            w,
                        ) || c0.size() <= w by {
                            if mentions(c5.res@[ha as int], w) {
                                assert(mentions(c4.res@[ha as int], w));
                            } else {
                                assert(mentions(c5.res@[hb as int], w));
                            }
                        }
                    }
                }
                r
            },
            _ => {
                proof {
                    assert(c0.resolve(right@) == c0.resolve(d@));
                    assert(c0.cell_ok(left as int));
                    if let SType::Hole(m) = d@ {
                        assert(mentions(d@, m));
                        assert(c0.cell_ok(m as int));
                    }
                    assert(!(c0.resolve(d@) is Forall) && !(c0.resolve(d@) is Arrow));
                }
                let r = self.unify_hole(env, left, right);
                proof {
                    lemma_frame_resolve(c0, *self, right@, left);
                    assert(mentions(SType::Hole(left), left));
                    assert(c0.resolve(right@) != SType::Hole(left));
                    crate::unify::lemma_occurs_walk_found(
                        c0.resolve(right@),
                        left,
                        c0.store()[left as int]->Empty_2,
                    );
                }
                r
            },
        }
    }

    /// Makes the empty hole `right` a supertype of `left`. A `forall` on the left is
    /// instantiated; an arrow on the left fills the hole with an arrow between two new
    /// holes of its kind, made a subtype of the argument and a supertype of the result;
    /// anything else is unified with the hole.
    pub fn sub_type_hole(&mut self, env: &Env, left: &Type, right: usize) -> (r: Result<
        (),
        TypeErrorKind,
    >)
        requires
            old(self).wf(),
            right < old(self).size(),
            old(self).store()[right as int] is Empty,
            closed(left@, old(self).size()),
            !mentions(old(self).resolve(left@), right),
            old(self).size() + 2 * size(old(self).resolve(left@)) < usize::MAX,
            old(self).counter + 2 * size(old(self).resolve(left@)) < usize::MAX,
            env.level.0 + size(old(self).resolve(left@)) < usize::MAX,
        ensures
            sub_post(*old(self), *final(self), right),
            final(self).size() <= old(self).size() + 2 * size(old(self).resolve(left@)),
            final(self).counter <= old(self).counter + 2 * size(old(self).resolve(left@)),
            final(self).resolve(left@) == old(self).resolve(left@),
            r is Err ==> r->Err_0 is EscapingScope,
            r is Ok ==> fits_above(final(self).res@[right as int], old(self).resolve(left@)),
            final(self).store()[right as int] == old(self).store()[right as int]
                || !(final(self).res@[right as int] is Forall),
            (forall|l: usize| #[trigger]
                mentions_bound(old(self).resolve(left@), l) ==> l < old(self).store()[right as int]->Empty_2
                    && l < env.level.0) ==> r is Ok,
            r is Err ==> exists|l: usize| #[trigger]
                mentions_bound(old(self).resolve(left@), l) && (l >= old(self).store()[right as int]->Empty_2
                    || l >= env.level.0),
            r is Ok ==> final(self).store()[right as int] is Filled,
            old(self).resolve(left@) is Arrow ==> {
                let n = old(self).size();
                let kind = old(self).store()[right as int]->Empty_1;
                &&& final(self).store()[n as int] is Filled || final(self).store()[n as int]
                    == SHole::Empty(Label::Fresh(old(self).counter), kind, env.level.0)
                &&& final(self).store()[(n + 1) as int] is Filled || final(self).store()[(n + 1) as int]
                    == SHole::Empty(Label::Fresh((old(self).counter + 1) as usize), kind, env.level.0)
                &&& final(self).store()[(n + 1) as int] is Filled ==> final(self).store()[n as int] is Filled
            },
            old(self).resolve(left@) is Arrow ==> final(self).store()[right as int] == SHole::Filled(
                SType::Arrow(
                    Box::new(SType::Hole(old(self).size() as usize)),
                    Box::new(SType::Hole((old(self).size() + 1) as usize)),
                ),
            ) && final(self).size() >= old(self).size() + 2 && final(self).counter
                >= old(self).counter + 2,
            r is Ok ==> forall|w: usize| #[trigger]
                mentions(final(self).res@[right as int], w) ==> mentions(
                    old(self).resolve(left@),
                    w,
                ) || old(self).size() <= w,
        decreases size(old(self).resolve(left@)),
    {
        let ghost c0 = *self;
        let d = self.deref(left);
        proof {
            lemma_children_closed(d@, c0.size());
        }
        match &d {
            Type::Forall(name, kind, lvl, body) => {
                proof {
                    assert(c0.deref_view(d@) == d@);
                    crate::type_facts::lemma_size_pos(c0.resolve(left@));
                }
                let inst = self.instantiate_once(env, &d);
                let ghost c1 = *self;
                proof {
                    let n = c0.size() as usize;
                    assert(c1.store().len() == c1.size());
                    assert(c0.store().len() == c0.size());
                    assert(c1.size() == c0.size() + 1);
                    assert(unchanged_except(c0, c1, right));
                    assert(c1.cell_ok(n as int));
                    assert(c1.res@[n as int] == SType::Hole(n));
                    lemma_inst_zonk(body@, *lvl, n, c1.res@);
                    assert(c0.resolve(d@) == c0.resolve(left@));
                    assert(c0.resolve(d@) == SType::Forall(
                        *name,
                        Box::new(c0.resolve(kind@)),
                        *lvl,
                        Box::new(c0.resolve(body@)),
                    ));
                    lemma_frame_resolve(c0, c1, body@, right);
                    let y = c1.resolve(inst@);
                    let zb = c0.resolve(body@);
                    assert(inst_some(y, zb, *lvl, SType::Hole(n)));
                    assert(!mentions(y, right)) by {
                        if mentions(y, right) {
                            lemma_inst_mentions(y, zb, *lvl, SType::Hole(n), right);
                        }
                    }
                    assert(unchanged_except(c0, c1, right));
                }
                proof {
                    let n = c0.size() as usize;
                    let y = c1.resolve(inst@);
                    let zb = c0.resolve(body@);
                    assert(c1.store()[right as int] == c0.store()[right as int]);
                    assert forall|l: usize| #[trigger] mentions_bound(y, l) implies mentions_bound(
                        c0.resolve(left@),
                        l,
                    ) by {
                        crate::subsumption::lemma_inst_mentions_bound(y, zb, *lvl, SType::Hole(n), l);
                    }
                }
                let r = self.sub_type_hole(env, &inst, right);
                proof {
                    let c2 = *self;
                    let n = c0.size() as usize;
                    let y = c1.resolve(inst@);
                    let zb = c0.resolve(body@);
                    if r is Err {
                        let l = choose|l: usize| #[trigger] mentions_bound(y, l) && (l
                            >= c1.store()[right as int]->Empty_2 || l >= env.level.0);
                        assert(mentions_bound(c0.resolve(left@), l));
                    }
                    lemma_grows_trans(c0, c1, c2);
                    assert(unchanged_except(c0, c2, right));
                    lemma_frame_resolve(c0, c2, left@, right);
                    if r is Ok {
                        lemma_inst_size(y, zb, *lvl, SType::Hole(n));
                        assert(inst_some(y, zb, *lvl, SType::Hole(n)));
                        let x = c2.res@[right as int];
                        assert(fits_above(x, y));
                        assert(size(y) == size(zb));
                        lemma_fits_above_inst(x, y, zb, *lvl, n, *name, c0.resolve(kind@));
                        assert(fits_above(c2.res@[right as int], c0.resolve(left@)));
                        assert forall|w: usize| #[trigger]
                            mentions(c2.res@[right as int], w) implies mentions(
                            c0.resolve(left@),
                            w,
                        ) || c0.size() <= w by {
                            if mentions(y, w) {
                                lemma_inst_mentions(y, zb, *lvl, SType::Hole(n), w);
                            }
                        }
                    }
                }
                r
            },
            Type::Arrow(a, b) => {
                let kind = match &self.holes[right] {
                    HoleInner::Empty(_, k, _) => k.clone(),
                    HoleInner::Filled(_) => Type::Error,
                };
                proof {
                    assert(c0.cell_ok(right as int));
                }
                let hole_a = self.hole(env, kind.clone());
                let ghost c1 = *self;
                proof {
                    crate::context::lemma_zonk_prefix(kind@, c0.res@, c1.res@);
                }
                let hole_b = self.hole(env, kind);
                let ghost c2 = *self;
                let ghost n = c0.size();
                let ha: usize = match &hole_a {
                    Type::Hole(i) => *i,
                    _ => 0,
                };
                let hb: usize = match &hole_b {
                    Type::Hole(i) => *i,
                    _ => 0,
                };
                let arrow = Type::Arrow(Box::new(hole_a), Box::new(hole_b));
                proof {
                    assert(ha == n && hb == n + 1);
                    assert(c2.store().len() == c2.size());
                    assert(c1.store().len() == c1.size());
                    assert(c0.store().len() == c0.size());
                    assert(c2.size() == n + 2);
                    assert(c2.store()[right as int] == c0.store()[right as int]);
                    assert(c2.cell_ok(n as int));
                    assert(c2.cell_ok((n + 1) as int));
                    assert(c2.res@[ha as int] == SType::Hole(ha));
                    assert(c2.res@[hb as int] == SType::Hole(hb));
                    assert(c2.res@.len() == c2.size());
                    assert(zonk(SType::Hole(ha), c2.res@) == SType::Hole(ha));
                    assert(zonk(SType::Hole(hb), c2.res@) == SType::Hole(hb));
                    assert(arrow@ == SType::Arrow(Box::new(SType::Hole(ha)), Box::new(SType::Hole(hb))));
                    assert(c2.resolve(arrow@) == arrow@);
                    assert(!mentions(SType::Hole(ha), right));
                    assert(!mentions(SType::Hole(hb), right));
                    assert(!mentions(arrow@, right));
                    assert forall|w: usize| mentions(arrow@, w) implies w < c2.size() by {
                        if mentions(SType::Hole(ha), w) {
                        } else {
                            assert(mentions(SType::Hole(hb), w));
                        }
                    }
                }
                self.fill(right, arrow);
                let ghost c3 = *self;
                proof {
                    lemma_grows_trans(c0, c1, c2);
                    lemma_grows_trans(c0, c2, c3);
                    assert(unchanged_except(c0, c3, right));
                    lemma_frame_resolve(c0, c3, a@, right);
                    lemma_frame_resolve(c0, c3, b@, right);
                    lemma_frame_resolve(c0, c3, left@, right);
                    assert(c3.store()[ha as int] is Empty);
                    assert(c3.store()[hb as int] is Empty);
                    assert(c3.res@[right as int] == SType::Arrow(
                        Box::new(SType::Hole(ha)),
                        Box::new(SType::Hole(hb)),
                    ));
                    assert(c0.resolve(d@) == SType::Arrow(
                        Box::new(c0.resolve(a@)),
                        Box::new(c0.resolve(b@)),
                    ));
                    assert(!mentions(c3.resolve(a@), ha)) by {
                        if mentions(c3.resolve(a@), ha) {
                            lemma_resolve_holes_empty(c0, a@, ha);
                        }
                    }
                }
                proof {
                    assert(c3.store()[ha as int] == c2.store()[ha as int]);
                    assert(c3.store()[ha as int]->Empty_2 == env.level.0);
                    assert forall|l: usize| #[trigger] mentions_bound(c3.resolve(a@), l) implies mentions_bound(
                        c0.resolve(left@),
                        l,
                    ) by {}
                }
                match self.sub_hole_type(env, ha, a) {
                    Err(e) => {
                        proof {
                            lemma_grows_trans(c0, c3, *self);
                            lemma_frame_resolve(c0, *self, left@, right);
                            let l = choose|l: usize| #[trigger] mentions_bound(c3.resolve(a@), l) && (l
                                >= c3.store()[ha as int]->Empty_2 || l >= env.level.0);
                            assert(mentions_bound(c0.resolve(left@), l));
                            assert(self.store()[right as int] == c3.store()[right as int]);
                        }
                        return Err(e);
                    },
                    Ok(()) => {},
                }
                let ghost c4 = *self;
                proof {
                    lemma_grows_trans(c0, c3, c4);
                    assert(!mentions(c3.resolve(b@), ha)) by {
                        if mentions(c3.resolve(b@), ha) {
                            lemma_resolve_holes_empty(c0, b@, ha);
                        }
                    }
                    lemma_frame_resolve(c3, c4, b@, ha);
                    assert(c4.store()[hb as int] is Empty);
                    assert(!mentions(c4.resolve(b@), hb)) by {
                        if mentions(c4.resolve(b@), hb) {
                            lemma_resolve_holes_empty(c0, b@, hb);
                        }
                    }
                }
                proof {
                    assert(c4.store()[hb as int] == c3.store()[hb as int]);
                    assert(c3.store()[hb as int] == c2.store()[hb as int]);
                    assert(c4.store()[hb as int]->Empty_2 == env.level.0);
                    assert forall|l: usize| #[trigger] mentions_bound(c4.resolve(b@), l) implies mentions_bound(
                        c0.resolve(left@),
                        l,
                    ) by {}
                }
                let r = self.sub_type_hole(env, b, hb);
                proof {
                    let c5 = *self;
                    assert(c5.store()[right as int] == c3.store()[right as int]);
                    if r is Err {
                        let l = choose|l: usize| #[trigger] mentions_bound(c4.resolve(b@), l) && (l
                            >= c4.store()[hb as int]->Empty_2 || l >= env.level.0);
                        assert(mentions_bound(c0.resolve(left@), l));
                    }
                    lemma_grows_trans(c0, c4, c5);
                    lemma_grows_trans(c3, c4, c5);
                    assert(unchanged_except(c0, c5, right));
                    lemma_frame_resolve(c0, c5, left@, right);
                    if r is Ok {
                        let xa = c4.res@[ha as int];
                        assert(!mentions(xa, hb)) by {
                            if mentions(xa, hb) {
                                if mentions(c3.resolve(a@), hb) {
                                    lemma_resolve_holes_empty(c0, a@, hb);
                                }
                            }
                        }
                        assert(c4.resolve(SType::Hole(ha)) == xa);
                        lemma_frame_resolve(c4, c5, SType::Hole(ha), hb);
                        assert(c5.res@[ha as int] == xa);
                        assert(c5.res@[right as int] == zonk(c3.res@[right as int], c5.res@));
                        assert(c5.res@[right as int] == SType::Arrow(
                            Box::new(c5.res@[ha as int]),
                            Box::new(c5.res@[hb as int]),
                        ));
                        assert forall|w: usize| #[trigger]
                            mentions(c5.res@[right as int], w) implies mentions(
                            c0.resolve(left@),
                            w,
                        ) || c0.size() <= w by {
                            if mentions(c5.res@[ha as int], w) {
                                assert(mentions(c4.res@[ha as int], w));
                            } else {
                                assert(mentions(c5.res@[hb as int], w));
                            }
                        }
                    }
                }
                r
            },
            _ => {
                proof {
                    assert(c0.resolve(left@) == c0.resolve(d@));
                    assert(c0.cell_ok(right as int));
                    if let SType::Hole(m) = d@ {
                        assert(mentions(d@, m));
                        assert(c0.cell_ok(m as int));
                    }
                    assert(!(c0.resolve(d@) is Forall) && !(c0.resolve(d@) is Arrow));
                }
                let r = self.unify_hole(env, right, left);
                proof {
                    lemma_frame_resolve(c0, *self, left@, right);
                    assert(mentions(SType::Hole(right), right));
                    assert(c0.resolve(left@) != SType::Hole(right));
                    crate::unify::lemma_occurs_walk_found(
                        c0.resolve(left@),
                        right,
                        c0.store()[right as int]->Empty_2,
                    );
                }
                r
            },
        }
    }
}

} // verus!
