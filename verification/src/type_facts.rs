//! Facts about the model of types: sizes, occurrences of holes, and how resolving holes
//! interacts with substitution.

use vstd::prelude::*;
use crate::types::{
    SType, size, size_seq, subst_bound, subst_hole, mentions, has_hole, closed, zonk, equiv, guarded,
    known,
};

verus! {

/// Every type has a positive size, and the size of a sequence bounds the size of each
/// of its elements.
pub proof fn lemma_size_seq_elem(s: Seq<SType>, i: int)
    requires
        0 <= i < s.len(),
    ensures
        size(s[i]) <= size_seq(s),
        size(s[i]) >= 1,
    decreases s.len(),
{
    lemma_size_pos(s[i]);
    if i < s.len() - 1 {
        lemma_size_seq_elem(s.drop_last(), i);
    }
}

pub proof fn lemma_size_pos(t: SType)
    ensures
        size(t) >= 1,
{
}

/// Two sequences with pointwise equal sizes have equal total size.
pub proof fn lemma_size_seq_pointwise(s: Seq<SType>, u: Seq<SType>)
    requires
        s.len() == u.len(),
        forall|i: int| 0 <= i < s.len() ==> size(#[trigger] s[i]) == size(u[i]),
    ensures
        size_seq(s) == size_seq(u),
    decreases s.len(),
{
    if s.len() > 0 {
        assert(size(s[s.len() - 1]) == size(u[u.len() - 1]));
        lemma_size_seq_pointwise(s.drop_last(), u.drop_last());
    }
}

/// Replacing a bound variable by a bound variable or a hole keeps the size.
pub proof fn lemma_subst_bound_size(t: SType, lvl: usize, arg: SType)
    requires
        size(arg) == 1,
    ensures
        size(subst_bound(t, lvl, arg)) == size(t),
    decreases t,
{
    match t {
        SType::Arrow(a, b) => {
            lemma_subst_bound_size(*a, lvl, arg);
            lemma_subst_bound_size(*b, lvl, arg);
        },
        SType::Forall(_, k, _, b) => {
            lemma_subst_bound_size(*k, lvl, arg);
            lemma_subst_bound_size(*b, lvl, arg);
        },
        SType::Application(a, b) => {
            lemma_subst_bound_size(*a, lvl, arg);
            lemma_subst_bound_size(*b, lvl, arg);
        },
        SType::Qualified(a, b) => {
            lemma_subst_bound_size(*a, lvl, arg);
            lemma_subst_bound_size(*b, lvl, arg);
        },
        SType::Tuple(s) => {
            let u = subst_bound(t, lvl, arg)->Tuple_0;
            assert forall|i: int| 0 <= i < s.len() implies size(#[trigger] s[i]) == size(u[i]) by {
                lemma_subst_bound_size(s[i], lvl, arg);
            }
            lemma_size_seq_pointwise(s, u);
        },
        _ => {},
    }
}

/// The holes of `t` after a bound variable is replaced are those of `t`, and those of the
/// argument if the variable occurred.
pub proof fn lemma_subst_bound_mentions(t: SType, lvl: usize, arg: SType, h: usize)
    ensures
        mentions(subst_bound(t, lvl, arg), h) ==> mentions(t, h) || mentions(arg, h),
        mentions(t, h) ==> mentions(subst_bound(t, lvl, arg), h),
    decreases t,
{
    match t {
        SType::Arrow(a, b) => {
            lemma_subst_bound_mentions(*a, lvl, arg, h);
            lemma_subst_bound_mentions(*b, lvl, arg, h);
        },
        SType::Forall(_, k, _, b) => {
            lemma_subst_bound_mentions(*k, lvl, arg, h);
            lemma_subst_bound_mentions(*b, lvl, arg, h);
        },
        SType::Application(a, b) => {
            lemma_subst_bound_mentions(*a, lvl, arg, h);
            lemma_subst_bound_mentions(*b, lvl, arg, h);
        },
        SType::Qualified(a, b) => {
            lemma_subst_bound_mentions(*a, lvl, arg, h);
            lemma_subst_bound_mentions(*b, lvl, arg, h);
        },
        SType::Tuple(s) => {
            let u = subst_bound(t, lvl, arg)->Tuple_0;
            assert forall|i: int| 0 <= i < s.len() implies (mentions(#[trigger] u[i], h) ==> mentions(
                s[i],
                h,
            ) || mentions(arg, h)) && (mentions(s[i], h) ==> mentions(u[i], h)) by {
                lemma_subst_bound_mentions(s[i], lvl, arg, h);
            }
            if mentions(subst_bound(t, lvl, arg), h) {
                let i = choose|i: int| 0 <= i < u.len() && mentions(#[trigger] u[i], h);
                assert(mentions(s[i], h) || mentions(arg, h));
            }
            if mentions(t, h) {
                let i = choose|i: int| 0 <= i < s.len() && mentions(#[trigger] s[i], h);
                assert(mentions(u[i], h));
            }
        },
        _ => {},
    }
}

/// The children of a type whose holes are below `n` have their holes below `n`.
pub proof fn lemma_children_closed(t: SType, n: nat)
    requires
        closed(t, n),
    ensures
        match t {
            SType::Arrow(a, b) => closed(*a, n) && closed(*b, n),
            SType::Forall(_, k, _, b) => closed(*k, n) && closed(*b, n),
            SType::Application(a, b) => closed(*a, n) && closed(*b, n),
            SType::Qualified(a, b) => closed(*a, n) && closed(*b, n),
            SType::Tuple(s) => forall|i: int| 0 <= i < s.len() ==> closed(#[trigger] s[i], n),
            _ => true,
        },
{
    match t {
        SType::Arrow(a, b) => {
            assert forall|h: usize| mentions(*a, h) implies h < n by { assert(mentions(t, h)); }
            assert forall|h: usize| mentions(*b, h) implies h < n by { assert(mentions(t, h)); }
        },
        SType::Forall(_, a, _, b) => {
            assert forall|h: usize| mentions(*a, h) implies h < n by { assert(mentions(t, h)); }
            assert forall|h: usize| mentions(*b, h) implies h < n by { assert(mentions(t, h)); }
        },
        SType::Application(a, b) => {
            assert forall|h: usize| mentions(*a, h) implies h < n by { assert(mentions(t, h)); }
            assert forall|h: usize| mentions(*b, h) implies h < n by { assert(mentions(t, h)); }
        },
        SType::Qualified(a, b) => {
            assert forall|h: usize| mentions(*a, h) implies h < n by { assert(mentions(t, h)); }
            assert forall|h: usize| mentions(*b, h) implies h < n by { assert(mentions(t, h)); }
        },
        SType::Tuple(s) => {
            assert forall|i: int| 0 <= i < s.len() implies closed(#[trigger] s[i], n) by {
                assert forall|h: usize| mentions(s[i], h) implies h < n by { assert(mentions(t, h)); }
            }
        },
        _ => {},
    }
}

/// Replacing a hole that does not occur changes nothing.
pub proof fn lemma_subst_hole_absent(t: SType, h: usize, z: SType)
    requires
        !mentions(t, h),
    ensures
        subst_hole(t, h, z) == t,
    decreases t,
{
    match t {
        SType::Arrow(a, b) => {
            lemma_subst_hole_absent(*a, h, z);
            lemma_subst_hole_absent(*b, h, z);
        },
        SType::Forall(_, k, _, b) => {
            lemma_subst_hole_absent(*k, h, z);
            lemma_subst_hole_absent(*b, h, z);
        },
        SType::Application(a, b) => {
            lemma_subst_hole_absent(*a, h, z);
            lemma_subst_hole_absent(*b, h, z);
        },
        SType::Qualified(a, b) => {
            lemma_subst_hole_absent(*a, h, z);
            lemma_subst_hole_absent(*b, h, z);
        },
        SType::Tuple(s) => {
            let u = subst_hole(t, h, z)->Tuple_0;
            assert forall|i: int| 0 <= i < s.len() implies #[trigger] u[i] == s[i] by {
                lemma_subst_hole_absent(s[i], h, z);
            }
            assert(u =~= s);
        },
        _ => {},
    }
}

/// The holes of `t` after hole `h` is replaced by `z`.
pub proof fn lemma_subst_hole_mentions(t: SType, h: usize, z: SType, w: usize)
    ensures
        mentions(subst_hole(t, h, z), w) <==> (mentions(t, w) && w != h) || (mentions(t, h)
            && mentions(z, w)),
    decreases t,
{
    match t {
        SType::Arrow(a, b) => {
            lemma_subst_hole_mentions(*a, h, z, w);
            lemma_subst_hole_mentions(*b, h, z, w);
        },
        SType::Forall(_, k, _, b) => {
            lemma_subst_hole_mentions(*k, h, z, w);
            lemma_subst_hole_mentions(*b, h, z, w);
        },
        SType::Application(a, b) => {
            lemma_subst_hole_mentions(*a, h, z, w);
            lemma_subst_hole_mentions(*b, h, z, w);
        },
        SType::Qualified(a, b) => {
            lemma_subst_hole_mentions(*a, h, z, w);
            lemma_subst_hole_mentions(*b, h, z, w);
        },
        SType::Tuple(s) => {
            let u = subst_hole(t, h, z)->Tuple_0;
            assert forall|i: int| 0 <= i < s.len() implies (mentions(#[trigger] u[i], w) <==> (
            mentions(s[i], w) && w != h) || (mentions(s[i], h) && mentions(z, w))) by {
                lemma_subst_hole_mentions(s[i], h, z, w);
            }
            if mentions(subst_hole(t, h, z), w) {
                let i = choose|i: int| 0 <= i < u.len() && mentions(#[trigger] u[i], w);
                assert(mentions(s[i], w) || mentions(s[i], h));
            }
            if mentions(t, w) && w != h {
                let i = choose|i: int| 0 <= i < s.len() && mentions(#[trigger] s[i], w);
                assert(mentions(u[i], w));
            }
            if mentions(t, h) && mentions(z, w) {
                let i = choose|i: int| 0 <= i < s.len() && mentions(#[trigger] s[i], h);
                assert(mentions(u[i], w));
            }
        },
        _ => {},
    }
}

/// The holes of a resolved type are the holes of the resolutions of its holes.
pub proof fn lemma_zonk_mentions(t: SType, res: Seq<SType>, w: usize)
    requires
        closed(t, res.len()),
    ensures
        mentions(zonk(t, res), w) <==> exists|k: usize| #[trigger]
            mentions(t, k) && mentions(res[k as int], w),
    decreases t,
{
    lemma_children_closed(t, res.len());
    match t {
        SType::Arrow(a, b) => {
            lemma_zonk_mentions(*a, res, w);
            lemma_zonk_mentions(*b, res, w);
            lemma_zonk_mentions_pair(t, *a, *b, res, w);
        },
        SType::Forall(_, a, _, b) => {
            lemma_zonk_mentions(*a, res, w);
            lemma_zonk_mentions(*b, res, w);
            lemma_zonk_mentions_pair(t, *a, *b, res, w);
        },
        SType::Application(a, b) => {
            lemma_zonk_mentions(*a, res, w);
            lemma_zonk_mentions(*b, res, w);
            lemma_zonk_mentions_pair(t, *a, *b, res, w);
        },
        SType::Qualified(a, b) => {
            lemma_zonk_mentions(*a, res, w);
            lemma_zonk_mentions(*b, res, w);
            lemma_zonk_mentions_pair(t, *a, *b, res, w);
        },
        SType::Hole(k) => {
            if mentions(zonk(t, res), w) {
                assert(mentions(t, k) && mentions(res[k as int], w));
            }
        },
        SType::Tuple(s) => {
            let u = zonk(t, res)->Tuple_0;
            assert forall|i: int| 0 <= i < s.len() implies (mentions(#[trigger] u[i], w) <==> exists|
                k: usize,
            | #[trigger] mentions(s[i], k) && mentions(res[k as int], w)) by {
                assert(closed(s[i], res.len()));
                lemma_zonk_mentions(s[i], res, w);
            }
            if mentions(zonk(t, res), w) {
                let i = choose|i: int| 0 <= i < u.len() && mentions(#[trigger] u[i], w);
                let k = choose|k: usize| #[trigger] mentions(s[i], k) && mentions(res[k as int], w);
                assert(mentions(t, k));
            }
            if exists|k: usize| #[trigger] mentions(t, k) && mentions(res[k as int], w) {
                let k = choose|k: usize| #[trigger] mentions(t, k) && mentions(res[k as int], w);
                let i = choose|i: int| 0 <= i < s.len() && mentions(#[trigger] s[i], k);
                assert(mentions(u[i], w));
            }
        },
        _ => {},
    }
}

/// The step of [`lemma_zonk_mentions`] for a type with two children.
proof fn lemma_zonk_mentions_pair(t: SType, a: SType, b: SType, res: Seq<SType>, w: usize)
    requires
        forall|h: usize| #[trigger] mentions(t, h) <==> mentions(a, h) || mentions(b, h),
        mentions(zonk(t, res), w) <==> mentions(zonk(a, res), w) || mentions(zonk(b, res), w),
        mentions(zonk(a, res), w) <==> exists|k: usize| #[trigger]
            mentions(a, k) && mentions(res[k as int], w),
        mentions(zonk(b, res), w) <==> exists|k: usize| #[trigger]
            mentions(b, k) && mentions(res[k as int], w),
    ensures
        mentions(zonk(t, res), w) <==> exists|k: usize| #[trigger]
            mentions(t, k) && mentions(res[k as int], w),
{
    if mentions(zonk(a, res), w) {
        let k = choose|k: usize| #[trigger] mentions(a, k) && mentions(res[k as int], w);
        assert(mentions(t, k));
    }
    if mentions(zonk(b, res), w) {
        let k = choose|k: usize| #[trigger] mentions(b, k) && mentions(res[k as int], w);
        assert(mentions(t, k));
    }
    if exists|k: usize| #[trigger] mentions(t, k) && mentions(res[k as int], w) {
        let k = choose|k: usize| #[trigger] mentions(t, k) && mentions(res[k as int], w);
        if mentions(a, k) {
            assert(mentions(zonk(a, res), w));
        } else {
            assert(mentions(zonk(b, res), w));
        }
    }
}

/// Resolving with a store in which hole `h` was then replaced by `z` is resolving and then
/// replacing.
pub proof fn lemma_zonk_subst(c: SType, res: Seq<SType>, res2: Seq<SType>, h: usize, z: SType)
    requires
        closed(c, res.len()),
        res2.len() == res.len(),
        forall|k: int| 0 <= k < res.len() ==> #[trigger] res2[k] == subst_hole(res[k], h, z),
    ensures
        zonk(c, res2) == subst_hole(zonk(c, res), h, z),
    decreases c,
{
    lemma_children_closed(c, res.len());
    match c {
        SType::Arrow(a, b) => {
            lemma_zonk_subst(*a, res, res2, h, z);
            lemma_zonk_subst(*b, res, res2, h, z);
        },
        SType::Forall(_, k, _, b) => {
            lemma_zonk_subst(*k, res, res2, h, z);
            lemma_zonk_subst(*b, res, res2, h, z);
        },
        SType::Application(a, b) => {
            lemma_zonk_subst(*a, res, res2, h, z);
            lemma_zonk_subst(*b, res, res2, h, z);
        },
        SType::Qualified(a, b) => {
            lemma_zonk_subst(*a, res, res2, h, z);
            lemma_zonk_subst(*b, res, res2, h, z);
        },
        SType::Hole(k) => {
            assert(mentions(c, k));
        },
        SType::Tuple(s) => {
            let u = zonk(c, res2)->Tuple_0;
            let v = subst_hole(zonk(c, res), h, z)->Tuple_0;
            assert forall|i: int| 0 <= i < s.len() implies #[trigger] u[i] == v[i] by {
                assert(closed(s[i], res.len()));
                lemma_zonk_subst(s[i], res, res2, h, z);
            }
            assert(u =~= v);
        },
        _ => {},
    }
}

/// Resolving twice is resolving once with the later store, when the later store refines
/// the earlier one.
pub proof fn lemma_zonk_zonk(t: SType, a: Seq<SType>, b: Seq<SType>)
    requires
        closed(t, a.len()),
        a.len() <= b.len(),
        forall|k: int| 0 <= k < a.len() ==> #[trigger] b[k] == zonk(a[k], b),
    ensures
        zonk(zonk(t, a), b) == zonk(t, b),
    decreases t,
{
    lemma_children_closed(t, a.len());
    match t {
        SType::Arrow(x, y) => {
            lemma_zonk_zonk(*x, a, b);
            lemma_zonk_zonk(*y, a, b);
        },
        SType::Forall(_, k, _, y) => {
            lemma_zonk_zonk(*k, a, b);
            lemma_zonk_zonk(*y, a, b);
        },
        SType::Application(x, y) => {
            lemma_zonk_zonk(*x, a, b);
            lemma_zonk_zonk(*y, a, b);
        },
        SType::Qualified(x, y) => {
            lemma_zonk_zonk(*x, a, b);
            lemma_zonk_zonk(*y, a, b);
        },
        SType::Hole(k) => {
            assert(mentions(t, k));
        },
        SType::Tuple(s) => {
            let u = zonk(zonk(t, a), b)->Tuple_0;
            let v = zonk(t, b)->Tuple_0;
            assert forall|i: int| 0 <= i < s.len() implies #[trigger] u[i] == v[i] by {
                assert(closed(s[i], a.len()));
                lemma_zonk_zonk(s[i], a, b);
            }
            assert(u =~= v);
        },
        _ => {},
    }
}

/// Equivalent types stay equivalent when their holes are resolved.
pub proof fn lemma_equiv_zonk(x: SType, y: SType, b: Seq<SType>)
    requires
        equiv(x, y),
    ensures
        equiv(zonk(x, b), zonk(y, b)),
    decreases x,
{
    if x == y || x is Error || y is Error {
    } else {
        match (x, y) {
            (SType::Tuple(s), SType::Tuple(r)) => {
                let u = zonk(x, b)->Tuple_0;
                let v = zonk(y, b)->Tuple_0;
                assert forall|i: int| 0 <= i < u.len() implies equiv(#[trigger] u[i], v[i]) by {
                    lemma_equiv_zonk(s[i], r[i], b);
                }
            },
            (SType::Application(f, s), SType::Application(g, r)) => {
                lemma_equiv_zonk(*f, *g, b);
                lemma_equiv_zonk(*s, *r, b);
            },
            (SType::Qualified(f, s), SType::Qualified(g, r)) => {
                lemma_equiv_zonk(*f, *g, b);
                lemma_equiv_zonk(*s, *r, b);
            },
            _ => {},
        }
    }
}

/// Replacing a hole by a guarded type in a guarded type gives a guarded type.
pub proof fn lemma_guarded_subst(t: SType, h: usize, z: SType)
    requires
        guarded(t),
        guarded(z),
    ensures
        guarded(subst_hole(t, h, z)),
    decreases t,
{
    match t {
        SType::Arrow(a, b) => {
            lemma_guarded_subst(*a, h, z);
            lemma_guarded_subst(*b, h, z);
        },
        SType::Forall(_, k, _, b) => {
            lemma_subst_hole_absent(*k, h, z);
            lemma_guarded_subst(*b, h, z);
        },
        SType::Application(a, b) => {
            lemma_guarded_subst(*a, h, z);
            lemma_guarded_subst(*b, h, z);
        },
        SType::Qualified(a, b) => {
            lemma_subst_hole_absent(*a, h, z);
            lemma_subst_hole_absent(*b, h, z);
        },
        SType::Tuple(s) => {
            let u = subst_hole(t, h, z)->Tuple_0;
            assert forall|i: int| 0 <= i < u.len() implies guarded(#[trigger] u[i]) by {
                lemma_guarded_subst(s[i], h, z);
            }
        },
        _ => {},
    }
}

/// Resolving the holes of a guarded type with guarded types gives a guarded type.
pub proof fn lemma_guarded_zonk(t: SType, b: Seq<SType>)
    requires
        guarded(t),
        closed(t, b.len()),
        forall|k: usize| mentions(t, k) ==> guarded(#[trigger] b[k as int]),
    ensures
        guarded(zonk(t, b)),
    decreases t,
{
    lemma_children_closed(t, b.len());
    match t {
        SType::Arrow(x, y) => {
            lemma_guarded_zonk(*x, b);
            lemma_guarded_zonk(*y, b);
        },
        SType::Forall(_, k, _, y) => {
            lemma_zonk_no_hole(*k, b);
            lemma_guarded_zonk(*y, b);
        },
        SType::Application(x, y) => {
            lemma_guarded_zonk(*x, b);
            lemma_guarded_zonk(*y, b);
        },
        SType::Qualified(x, y) => {
            lemma_zonk_no_hole(*x, b);
            lemma_zonk_no_hole(*y, b);
        },
        SType::Hole(k) => {
            assert(mentions(t, k));
        },
        SType::Tuple(s) => {
            let u = zonk(t, b)->Tuple_0;
            assert forall|i: int| 0 <= i < u.len() implies guarded(#[trigger] u[i]) by {
                assert forall|k: usize| mentions(s[i], k) implies guarded(#[trigger] b[k as int]) by {
                    assert(mentions(t, k));
                }
                lemma_guarded_zonk(s[i], b);
            }
        },
        _ => {},
    }
}

/// A type without holes is its own resolution.
pub proof fn lemma_zonk_no_hole(t: SType, b: Seq<SType>)
    requires
        !has_hole(t),
    ensures
        zonk(t, b) == t,
    decreases t,
{
    match t {
        SType::Arrow(x, y) => {
            assert(!has_hole(*x)) by {
                if has_hole(*x) {
                    let h = choose|h: usize| mentions(*x, h);
                    assert(mentions(t, h));
                }
            }
            assert(!has_hole(*y)) by {
                if has_hole(*y) {
                    let h = choose|h: usize| mentions(*y, h);
                    assert(mentions(t, h));
                }
            }
            lemma_zonk_no_hole(*x, b);
            lemma_zonk_no_hole(*y, b);
        },
        SType::Forall(_, x, _, y) => {
            assert(!has_hole(*x)) by {
                if has_hole(*x) {
                    let h = choose|h: usize| mentions(*x, h);
                    assert(mentions(t, h));
                }
            }
            assert(!has_hole(*y)) by {
                if has_hole(*y) {
                    let h = choose|h: usize| mentions(*y, h);
                    assert(mentions(t, h));
                }
            }
            lemma_zonk_no_hole(*x, b);
            lemma_zonk_no_hole(*y, b);
        },
        SType::Application(x, y) => {
            assert(!has_hole(*x)) by {
                if has_hole(*x) {
                    let h = choose|h: usize| mentions(*x, h);
                    assert(mentions(t, h));
                }
            }
            assert(!has_hole(*y)) by {
                if has_hole(*y) {
                    let h = choose|h: usize| mentions(*y, h);
                    assert(mentions(t, h));
                }
            }
            lemma_zonk_no_hole(*x, b);
            lemma_zonk_no_hole(*y, b);
        },
        SType::Qualified(x, y) => {
            assert(!has_hole(*x)) by {
                if has_hole(*x) {
                    let h = choose|h: usize| mentions(*x, h);
                    assert(mentions(t, h));
                }
            }
            assert(!has_hole(*y)) by {
                if has_hole(*y) {
                    let h = choose|h: usize| mentions(*y, h);
                    assert(mentions(t, h));
                }
            }
            lemma_zonk_no_hole(*x, b);
            lemma_zonk_no_hole(*y, b);
        },
        SType::Hole(k) => {
            assert(mentions(t, k));
        },
        SType::Tuple(s) => {
            let u = zonk(t, b)->Tuple_0;
            assert forall|i: int| 0 <= i < s.len() implies #[trigger] u[i] == s[i] by {
                assert(!has_hole(s[i])) by {
                    if has_hole(s[i]) {
                        let h = choose|h: usize| mentions(s[i], h);
                        assert(mentions(t, h));
                    }
                }
                lemma_zonk_no_hole(s[i], b);
            }
            assert(u =~= s);
        },
        _ => {},
    }
}

/// Replacing a bound variable by another one neither changes the holes nor whether the
/// resolved type is guarded.
pub proof fn lemma_zonk_subst_bound(t: SType, lvl: usize, k: usize, res: Seq<SType>)
    requires
        closed(t, res.len()),
    ensures
        closed(subst_bound(t, lvl, SType::Bound(k)), res.len()),
        forall|w: usize|
            #[trigger] mentions(zonk(subst_bound(t, lvl, SType::Bound(k)), res), w) == mentions(
                zonk(t, res),
                w,
            ),
        guarded(zonk(subst_bound(t, lvl, SType::Bound(k)), res)) == guarded(zonk(t, res)),
    decreases t,
{
    let arg = SType::Bound(k);
    let u = subst_bound(t, lvl, arg);
    assert forall|h: usize| mentions(u, h) implies h < res.len() by {
        lemma_subst_bound_mentions(t, lvl, arg, h);
    }
    assert forall|w: usize| #[trigger] mentions(zonk(u, res), w) == mentions(zonk(t, res), w) by {
        lemma_zonk_mentions(u, res, w);
        lemma_zonk_mentions(t, res, w);
        if mentions(zonk(u, res), w) {
            let j = choose|j: usize| #[trigger] mentions(u, j) && mentions(res[j as int], w);
            lemma_subst_bound_mentions(t, lvl, arg, j);
        }
        if mentions(zonk(t, res), w) {
            let j = choose|j: usize| #[trigger] mentions(t, j) && mentions(res[j as int], w);
            lemma_subst_bound_mentions(t, lvl, arg, j);
        }
    }
    lemma_children_closed(t, res.len());
    match t {
        SType::Arrow(a, b) => {
            lemma_zonk_subst_bound(*a, lvl, k, res);
            lemma_zonk_subst_bound(*b, lvl, k, res);
        },
        SType::Forall(_, a, _, b) => {
            lemma_zonk_subst_bound(*a, lvl, k, res);
            lemma_zonk_subst_bound(*b, lvl, k, res);
            lemma_has_hole_eq(zonk(subst_bound(*a, lvl, arg), res), zonk(*a, res));
            assert(guarded(zonk(u, res)) == guarded(zonk(t, res)));
        },
        SType::Application(a, b) => {
            lemma_zonk_subst_bound(*a, lvl, k, res);
            lemma_zonk_subst_bound(*b, lvl, k, res);
        },
        SType::Qualified(a, b) => {
            lemma_zonk_subst_bound(*a, lvl, k, res);
            lemma_zonk_subst_bound(*b, lvl, k, res);
            lemma_has_hole_eq(zonk(subst_bound(*a, lvl, arg), res), zonk(*a, res));
            lemma_has_hole_eq(zonk(subst_bound(*b, lvl, arg), res), zonk(*b, res));
        },
        SType::Tuple(s) => {
            let zu = zonk(u, res)->Tuple_0;
            let zt = zonk(t, res)->Tuple_0;
            if guarded(zonk(t, res)) {
                assert forall|i: int| 0 <= i < zu.len() implies guarded(#[trigger] zu[i]) by {
                    lemma_zonk_subst_bound(s[i], lvl, k, res);
                    assert(guarded(zt[i]));
                }
            }
            if guarded(zonk(u, res)) {
                assert forall|i: int| 0 <= i < zt.len() implies guarded(#[trigger] zt[i]) by {
                    lemma_zonk_subst_bound(s[i], lvl, k, res);
                    assert(guarded(zu[i]));
                }
            }
        },
        SType::Hole(j) => {
            assert(guarded(zonk(u, res)) == guarded(zonk(t, res)));
        },
        SType::Bound(j) => {
            assert(guarded(zonk(u, res)) == guarded(zonk(t, res)));
        },
        _ => {
            assert(guarded(zonk(u, res)) == guarded(zonk(t, res)));
        },
    }
}

/// Types with the same holes either both have a hole or both have none.
pub proof fn lemma_has_hole_eq(a: SType, b: SType)
    requires
        forall|w: usize| #[trigger] mentions(a, w) == mentions(b, w),
    ensures
        has_hole(a) == has_hole(b),
{
    if has_hole(a) {
        let w = choose|w: usize| mentions(a, w);
        assert(mentions(b, w));
    }
    if has_hole(b) {
        let w = choose|w: usize| mentions(b, w);
        assert(mentions(a, w));
    }
}

/// Replacing a bound variable by a hole that resolves to itself keeps the size of the
/// resolved type, and the holes stay below the bound.
pub proof fn lemma_zonk_subst_bound_hole_size(t: SType, lvl: usize, k: usize, res: Seq<SType>)
    requires
        closed(t, res.len()),
        k < res.len(),
        res[k as int] == SType::Hole(k),
    ensures
        size(zonk(subst_bound(t, lvl, SType::Hole(k)), res)) == size(zonk(t, res)),
        closed(subst_bound(t, lvl, SType::Hole(k)), res.len()),
    decreases t,
{
    let arg = SType::Hole(k);
    let u = subst_bound(t, lvl, arg);
    assert forall|h: usize| mentions(u, h) implies h < res.len() by {
        lemma_subst_bound_mentions(t, lvl, arg, h);
    }
    lemma_children_closed(t, res.len());
    match t {
        SType::Arrow(a, b) => {
            lemma_zonk_subst_bound_hole_size(*a, lvl, k, res);
            lemma_zonk_subst_bound_hole_size(*b, lvl, k, res);
        },
        SType::Forall(_, a, _, b) => {
            lemma_zonk_subst_bound_hole_size(*a, lvl, k, res);
            lemma_zonk_subst_bound_hole_size(*b, lvl, k, res);
        },
        SType::Application(a, b) => {
            lemma_zonk_subst_bound_hole_size(*a, lvl, k, res);
            lemma_zonk_subst_bound_hole_size(*b, lvl, k, res);
        },
        SType::Qualified(a, b) => {
            lemma_zonk_subst_bound_hole_size(*a, lvl, k, res);
            lemma_zonk_subst_bound_hole_size(*b, lvl, k, res);
        },
        SType::Tuple(s) => {
            let zu = zonk(u, res)->Tuple_0;
            let zt = zonk(t, res)->Tuple_0;
            assert forall|i: int| 0 <= i < zu.len() implies size(#[trigger] zu[i]) == size(zt[i]) by {
                lemma_zonk_subst_bound_hole_size(s[i], lvl, k, res);
            }
            lemma_size_seq_pointwise(zu, zt);
        },
        _ => {},
    }
}

/// A known type has no holes.
pub proof fn lemma_known_no_hole(t: SType, w: usize)
    requires
        known(t),
    ensures
        !mentions(t, w),
    decreases t,
{
    match t {
        SType::Arrow(a, b) => {
            lemma_known_no_hole(*a, w);
            lemma_known_no_hole(*b, w);
        },
        SType::Application(a, b) => {
            lemma_known_no_hole(*a, w);
            lemma_known_no_hole(*b, w);
        },
        SType::Qualified(a, b) => {
            lemma_known_no_hole(*a, w);
            lemma_known_no_hole(*b, w);
        },
        SType::Tuple(s) => {
            if mentions(t, w) {
                let i = choose|i: int| 0 <= i < s.len() && mentions(#[trigger] s[i], w);
                lemma_known_no_hole(s[i], w);
            }
        },
        _ => {},
    }
}

/// A known type has no holes, is guarded, and is its own resolution.
pub proof fn lemma_known(t: SType, res: Seq<SType>)
    requires
        known(t),
    ensures
        forall|w: usize| !mentions(t, w),
        !has_hole(t),
        guarded(t),
        zonk(t, res) == t,
    decreases t,
{
    assert forall|w: usize| !mentions(t, w) by {
        lemma_known_no_hole(t, w);
    }
    match t {
        SType::Arrow(a, b) => {
            lemma_known(*a, res);
            lemma_known(*b, res);
        },
        SType::Application(a, b) => {
            lemma_known(*a, res);
            lemma_known(*b, res);
        },
        SType::Qualified(a, b) => {
            lemma_known(*a, res);
            lemma_known(*b, res);
        },
        SType::Tuple(s) => {
            assert forall|i: int| 0 <= i < s.len() implies guarded(#[trigger] s[i]) by {
                lemma_known(s[i], res);
            }
            let u = zonk(t, res)->Tuple_0;
            assert forall|i: int| 0 <= i < s.len() implies #[trigger] u[i] == s[i] by {
                lemma_known(s[i], res);
            }
            assert(u =~= s);
        },
        _ => {},
    }
}

} // verus!
