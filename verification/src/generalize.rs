//! Generalization: the holes left empty in a type become variables bound by new
//! `forall`s around it.

use vstd::prelude::*;
use crate::context::{Context, SHole};
use crate::env::Env;
use crate::type_facts::{
    lemma_children_closed, lemma_size_seq_elem, lemma_subst_hole_mentions, lemma_zonk_subst,
};
use crate::instantiate::{grows, lemma_grows_trans};
use crate::context::HoleInner;
use crate::types::{SType, Type, closed, mentions, size, subst_hole};

verus! {

/// `acc` followed by the holes of `t` that are not in it yet, in the order in which they
/// are first met: a type before its parts, the parts from left to right.
pub open spec fn first_holes(t: SType, acc: Seq<usize>) -> Seq<usize>
    decreases t,
{
    match t {
        SType::Hole(h) => if acc.contains(h) {
            acc
        } else {
            acc.push(h)
        },
        SType::Arrow(a, b) => first_holes(*b, first_holes(*a, acc)),
        SType::Forall(_, k, _, b) => first_holes(*b, first_holes(*k, acc)),
        SType::Tuple(s) => first_holes_seq(s, acc),
        SType::Application(a, b) => first_holes(*b, first_holes(*a, acc)),
        SType::Qualified(a, b) => first_holes(*b, first_holes(*a, acc)),
        _ => acc,
    }
}

/// [`first_holes`] through the types of `s`, from the first to the last.
pub open spec fn first_holes_seq(s: Seq<SType>, acc: Seq<usize>) -> Seq<usize>
    decreases s,
{
    if s.len() == 0 {
        acc
    } else {
        first_holes(s.last(), first_holes_seq(s.drop_last(), acc))
    }
}

/// `t` with hole `vs[j]` replaced by the bound variable of level `top - j`, for each `j`.
pub open spec fn bind_holes(t: SType, vs: Seq<usize>, top: int) -> SType
    decreases vs.len(),
{
    if vs.len() == 0 {
        t
    } else {
        subst_hole(
            bind_holes(t, vs.drop_last(), top),
            vs.last(),
            SType::Bound((top - (vs.len() - 1)) as usize),
        )
    }
}

/// `body` under one `forall` per hole of `vs`, the last outermost: the binder of `vs[j]`
/// has the label and the kind of that hole in `store` and sits at level `top - j`.
pub open spec fn wrap_foralls(store: Seq<SHole>, vs: Seq<usize>, top: int, body: SType) -> SType
    decreases vs.len(),
{
    if vs.len() == 0 {
        body
    } else {
        let cell = store[vs.last() as int];
        SType::Forall(
            cell->Empty_0,
            Box::new(cell->Empty_1),
            (top - (vs.len() - 1)) as usize,
            Box::new(wrap_foralls(store, vs.drop_last(), top, body)),
        )
    }
}

/// The holes that [`first_holes`] adds are those of `t` not yet in `acc`, each once, after
/// `acc`.
pub proof fn lemma_first_holes(t: SType, acc: Seq<usize>)
    ensures
        first_holes(t, acc).len() >= acc.len(),
        first_holes(t, acc).subrange(0, acc.len() as int) == acc,
        forall|x: usize|
            #[trigger] first_holes(t, acc).contains(x) <==> acc.contains(x) || mentions(t, x),
        acc.no_duplicates() ==> first_holes(t, acc).no_duplicates(),
    decreases t,
{
    match t {
        SType::Hole(h) => {
            if !acc.contains(h) {
                assert(acc.push(h).subrange(0, acc.len() as int) =~= acc);
                assert forall|x: usize| #[trigger] acc.push(h).contains(x) <==> acc.contains(x) || x
                    == h by {
                    if acc.push(h).contains(x) && x != h {
                        let i = choose|i: int| 0 <= i < acc.push(h).len() && acc.push(h)[i] == x;
                        assert(acc[i] == x);
                    }
                    if acc.contains(x) {
                        let i = choose|i: int| 0 <= i < acc.len() && acc[i] == x;
                        assert(acc.push(h)[i] == x);
                    }
                    if x == h {
                        assert(acc.push(h)[acc.len() as int] == x);
                    }
                }
            } else {
                assert(acc.subrange(0, acc.len() as int) =~= acc);
            }
        },
        SType::Arrow(a, b) => {
            lemma_first_holes(*a, acc);
            lemma_first_holes(*b, first_holes(*a, acc));
            lemma_extend_trans(acc, first_holes(*a, acc), first_holes(t, acc));
        },
        SType::Forall(_, k, _, b) => {
            lemma_first_holes(*k, acc);
            lemma_first_holes(*b, first_holes(*k, acc));
            lemma_extend_trans(acc, first_holes(*k, acc), first_holes(t, acc));
        },
        SType::Application(a, b) => {
            lemma_first_holes(*a, acc);
            lemma_first_holes(*b, first_holes(*a, acc));
            lemma_extend_trans(acc, first_holes(*a, acc), first_holes(t, acc));
        },
        SType::Qualified(a, b) => {
            lemma_first_holes(*a, acc);
            lemma_first_holes(*b, first_holes(*a, acc));
            lemma_extend_trans(acc, first_holes(*a, acc), first_holes(t, acc));
        },
        SType::Tuple(s) => {
            lemma_first_holes_seq(s, acc);
            assert forall|x: usize| #[trigger] first_holes(t, acc).contains(x) <==> acc.contains(x)
                || mentions(t, x) by {
                if exists|i: int| 0 <= i < s.len() && mentions(#[trigger] s[i], x) {
                    let i = choose|i: int| 0 <= i < s.len() && mentions(#[trigger] s[i], x);
                    assert(mentions(s[i], x));
                }
            }
        },
        _ => {
            assert(acc.subrange(0, acc.len() as int) =~= acc);
        },
    }
}

/// Two steps that each keep what came before and add no hole twice, taken one after the
/// other, do so together.
proof fn lemma_extend_trans(acc: Seq<usize>, mid: Seq<usize>, out: Seq<usize>)
    requires
        mid.len() >= acc.len(),
        mid.subrange(0, acc.len() as int) == acc,
        out.len() >= mid.len(),
        out.subrange(0, mid.len() as int) == mid,
    ensures
        out.len() >= acc.len(),
        out.subrange(0, acc.len() as int) == acc,
{
    assert(out.subrange(0, acc.len() as int) =~= mid.subrange(0, acc.len() as int));
}

/// After binding, a hole occurs in a type when it occurred before and was not bound.
pub proof fn lemma_bind_holes_mentions(t: SType, vs: Seq<usize>, top: int, w: usize)
    ensures
        mentions(bind_holes(t, vs, top), w) <==> mentions(t, w) && !vs.contains(w),
    decreases vs.len(),
{
    if vs.len() > 0 {
        let init = vs.drop_last();
        lemma_bind_holes_mentions(t, init, top, w);
        lemma_subst_hole_mentions(
            bind_holes(t, init, top),
            vs.last(),
            SType::Bound((top - (vs.len() - 1)) as usize),
            w,
        );
        if vs.contains(w) && w != vs.last() {
            let i = choose|i: int| 0 <= i < vs.len() && vs[i] == w;
            assert(init[i] == w);
        }
        if init.contains(w) {
            let i = choose|i: int| 0 <= i < init.len() && init[i] == w;
            assert(vs[i] == w);
        }
        if w == vs.last() {
            assert(vs[vs.len() - 1] == w);
        }
    }
}

/// [`lemma_first_holes`] through a sequence of types.
pub proof fn lemma_first_holes_seq(s: Seq<SType>, acc: Seq<usize>)
    ensures
        first_holes_seq(s, acc).len() >= acc.len(),
        first_holes_seq(s, acc).subrange(0, acc.len() as int) == acc,
        forall|x: usize| #[trigger]
            first_holes_seq(s, acc).contains(x) <==> acc.contains(x) || exists|i: int|
                0 <= i < s.len() && mentions(#[trigger] s[i], x),
        acc.no_duplicates() ==> first_holes_seq(s, acc).no_duplicates(),
    decreases s,
{
    if s.len() == 0 {
        assert(acc.subrange(0, acc.len() as int) =~= acc);
    } else {
        let init = s.drop_last();
        let mid = first_holes_seq(init, acc);
        lemma_first_holes_seq(init, acc);
        lemma_first_holes(s.last(), mid);
        lemma_extend_trans(acc, mid, first_holes_seq(s, acc));
        assert forall|x: usize| #[trigger] first_holes_seq(s, acc).contains(x) <==> acc.contains(x)
            || exists|i: int| 0 <= i < s.len() && mentions(#[trigger] s[i], x) by {
            if exists|i: int| 0 <= i < s.len() && mentions(#[trigger] s[i], x) {
                let i = choose|i: int| 0 <= i < s.len() && mentions(#[trigger] s[i], x);
                if i < s.len() - 1 {
                    assert(mentions(init[i], x));
                }
            }
            if exists|i: int| 0 <= i < init.len() && mentions(#[trigger] init[i], x) {
                let i = choose|i: int| 0 <= i < init.len() && mentions(#[trigger] init[i], x);
                assert(mentions(s[i], x));
            }
            if mentions(s.last(), x) {
                assert(mentions(s[s.len() - 1], x));
            }
        }
    }
}

/// Whether `h` is in `acc`.
fn contains_hole(acc: &Vec<usize>, h: usize) -> (r: bool)
    ensures
        r == acc@.contains(h),
{
    let mut i: usize = 0;
    while i < acc.len()
        invariant
            i <= acc@.len(),
            forall|j: int| 0 <= j < i ==> acc@[j] != h,
        decreases acc@.len() - i,
    {
        if acc[i] == h {
            return true;
        }
        i = i + 1;
    }
    false
}

impl Context {
    /// Appends to `acc` the holes of the type that `t` stands for that are not in it yet,
    /// in the order in which they are first met.
    fn collect_holes(&self, t: &Type, acc: &mut Vec<usize>)
        requires
            self.wf(),
            closed(t@, self.size()),
        ensures
            final(acc)@ == first_holes(self.resolve(t@), old(acc)@),
        decreases size(self.resolve(t@)),
    {
        let d = self.deref(t);
        proof {
            lemma_children_closed(d@, self.size());
        }
        match &d {
            Type::Hole(h) => {
                proof {
                    assert(mentions(d@, *h));
                    assert(self.cell_ok(*h as int));
                    assert(self.resolve(d@) == SType::Hole(*h));
                }
                if !contains_hole(acc, *h) {
                    acc.push(*h);
                }
            },
            Type::Arrow(a, b) => {
                proof {
                    assert(self.resolve(d@) == SType::Arrow(
                        Box::new(self.resolve(a@)),
                        Box::new(self.resolve(b@)),
                    ));
                }
                self.collect_holes(a, acc);
                self.collect_holes(b, acc);
            },
            Type::Forall(_, k, _, b) => {
                proof {
                    assert(self.resolve(d@) == SType::Forall(
                        d@->Forall_0,
                        Box::new(self.resolve(k@)),
                        d@->Forall_2,
                        Box::new(self.resolve(b@)),
                    ));
                }
                self.collect_holes(k, acc);
                self.collect_holes(b, acc);
            },
            Type::Application(a, b) => {
                proof {
                    assert(self.resolve(d@) == SType::Application(
                        Box::new(self.resolve(a@)),
                        Box::new(self.resolve(b@)),
                    ));
                }
                self.collect_holes(a, acc);
                self.collect_holes(b, acc);
            },
            Type::Qualified(a, b) => {
                proof {
                    assert(self.resolve(d@) == SType::Qualified(
                        Box::new(self.resolve(a@)),
                        Box::new(self.resolve(b@)),
                    ));
                }
                self.collect_holes(a, acc);
                self.collect_holes(b, acc);
            },
            Type::Tuple(ts) => {
                let ghost s = d@->Tuple_0;
                let ghost zs = self.resolve(d@)->Tuple_0;
                let ghost acc0 = acc@;
                let mut i: usize = 0;
                while i < ts.len()
                    invariant
                        self.wf(),
                        s.len() == ts@.len(),
                        zs.len() == s.len(),
                        forall|j: int| 0 <= j < ts@.len() ==> s[j] == (#[trigger] ts@[j])@,
                        forall|j: int| 0 <= j < s.len() ==> closed(#[trigger] s[j], self.size()),
                        forall|j: int| 0 <= j < s.len() ==> #[trigger] zs[j] == self.resolve(s[j]),
                        size(self.resolve(t@)) == 1 + crate::types::size_seq(zs),
                        i <= ts@.len(),
                        acc@ == first_holes_seq(zs.subrange(0, i as int), acc0),
                    decreases ts@.len() - i,
                {
                    proof {
                        assert(s[i as int] == ts@[i as int]@);
                        lemma_size_seq_elem(zs, i as int);
                    }
                    self.collect_holes(&ts[i], acc);
                    proof {
                        assert(zs.subrange(0, i + 1).drop_last() =~= zs.subrange(0, i as int));
                    }
                    i = i + 1;
                }
                proof {
                    assert(zs.subrange(0, ts@.len() as int) =~= zs);
                }
            },
            _ => {},
        }
    }

    /// Generalizes `ty`: each hole left empty in the type that `ty` stands for becomes a
    /// variable bound by a new `forall` around it, the first hole met under the innermost
    /// `forall`. Each such `forall` takes the label and the kind of its hole, the
    /// outermost one sits at the level of `env`, and the hole is filled with the bound
    /// variable. Bound variables are levels, counted from the outside: of `k` holes, the
    /// `j`-th one met (from 0) is bound at level `env.level + k - 1 - j` wherever it
    /// occurs, however many binders lie between the new `forall`s and that occurrence.
    pub fn generalize(&mut self, env: &Env, ty: &Type) -> (r: Type)
        requires
            old(self).wf(),
            closed(ty@, old(self).size()),
            env.level.0 + first_holes(old(self).resolve(ty@), Seq::empty()).len() <= usize::MAX,
        ensures
            grows(*old(self), *final(self)),
            final(self).size() == old(self).size(),
            final(self).counter == old(self).counter,
            ({
                let vs = first_holes(old(self).resolve(ty@), Seq::empty());
                let top = env.level.0 + vs.len() - 1;
                &&& r@ == wrap_foralls(old(self).store(), vs, top, ty@)
                &&& forall|j: int|
                    0 <= j < vs.len() ==> #[trigger] final(self).store()[vs[j] as int]
                        == SHole::Filled(SType::Bound((top - j) as usize))
                &&& forall|k: usize|
                    k < old(self).size() && !vs.contains(k) ==> #[trigger] final(self).store()[k as int]
                        == old(self).store()[k as int]
                &&& final(self).resolve(ty@) == bind_holes(old(self).resolve(ty@), vs, top)
            }),
            forall|w: usize| !mentions(final(self).resolve(ty@), w),
    {
        let ghost c0 = *self;
        let mut vs: Vec<usize> = Vec::new();
        self.collect_holes(ty, &mut vs);
        let ghost z0 = c0.resolve(ty@);
        let ghost all = vs@;
        proof {
            lemma_first_holes(z0, Seq::empty());
            assert(Seq::<usize>::empty().no_duplicates());
            assert forall|j: int| 0 <= j < all.len() implies (#[trigger] all[j]) < c0.size()
                && c0.store()[all[j] as int] is Empty by {
                assert(all.contains(all[j]));
                crate::unify::lemma_resolve_holes_empty(c0, ty@, all[j]);
            }
            crate::unify::lemma_unify_post_refl(c0);
        }
        let k = vs.len();
        let ghost top = env.level.0 + k - 1;
        let mut r = ty.clone();
        let mut j: usize = 0;
        while j < k
            invariant
                grows(c0, *self),
                self.size() == c0.size(),
                self.counter == c0.counter,
                c0.wf(),
                closed(ty@, c0.size()),
                vs@ == all,
                k == all.len(),
                top == env.level.0 + k - 1,
                env.level.0 + k <= usize::MAX,
                all.no_duplicates(),
                forall|i: int| 0 <= i < all.len() ==> (#[trigger] all[i]) < c0.size()
                    && c0.store()[all[i] as int] is Empty,
                j <= k,
                r@ == wrap_foralls(c0.store(), all.take(j as int), top, ty@),
                closed(r@, c0.size()),
                forall|i: int|
                    0 <= i < j ==> #[trigger] self.store()[all[i] as int] == SHole::Filled(
                        SType::Bound((top - i) as usize),
                    ),
                forall|q: usize|
                    q < c0.size() && !all.take(j as int).contains(q) ==> #[trigger] self.store()[q as int]
                        == c0.store()[q as int],
                self.resolve(ty@) == bind_holes(z0, all.take(j as int), top),
                z0 == c0.resolve(ty@),
            decreases k - j,
        {
            let h = vs[j];
            let lvl: usize = env.level.0 + (k - 1 - j);
            let ghost before = *self;
            proof {
                assert(!all.take(j as int).contains(h)) by {
                    if all.take(j as int).contains(h) {
                        let i = choose|i: int| 0 <= i < j && all.take(j as int)[i] == h;
                        assert(all[i] == all[j as int]);
                    }
                }
                assert(self.store()[h as int] == c0.store()[h as int]);
                assert(all[j as int] == h);
                assert(c0.cell_ok(h as int));
            }
            match &self.holes[h] {
                HoleInner::Empty(label, kind, _) => {
                    proof {
                        assert(self.holes@[h as int]@ == self.store()[h as int]);
                        assert(closed(kind@, c0.size()));
                    }
                    r = Type::Forall(*label, Box::new(kind.clone()), lvl, Box::new(r));
                    proof {
                        let rv = r@;
                        assert forall|w: usize| mentions(rv, w) implies w < c0.size() by {
                            assert(mentions(*rv->Forall_1, w) || mentions(*rv->Forall_3, w));
                        }
                    }
                },
                HoleInner::Filled(_) => {
                    proof {
                        assert(self.holes@[h as int]@ == self.store()[h as int]);
                    }
                },
            }
            self.fill(h, Type::Bound(lvl));
            proof {
                let after = *self;
                lemma_grows_trans(c0, before, after);
                lemma_zonk_subst(ty@, before.res@, after.res@, h, SType::Bound(lvl));
                let pre = all.take(j as int);
                let post = all.take(j + 1);
                assert(post.drop_last() =~= pre);
                assert(post.last() == h);
                assert forall|q: usize| #[trigger] post.contains(q) <==> pre.contains(q) || q == h by {
                    if post.contains(q) && q != h {
                        let i = choose|i: int| 0 <= i < post.len() && post[i] == q;
                        assert(pre[i] == q);
                    }
                    if pre.contains(q) {
                        let i = choose|i: int| 0 <= i < pre.len() && pre[i] == q;
                        assert(post[i] == q);
                    }
                    if q == h {
                        assert(post[j as int] == q);
                    }
                }
                assert forall|i: int| 0 <= i < j + 1 implies #[trigger] after.store()[all[i] as int]
                    == SHole::Filled(SType::Bound((top - i) as usize)) by {
                    if i < j {
                        assert(all[i] != h);
                        assert(before.store()[all[i] as int] == SHole::Filled(
                            SType::Bound((top - i) as usize),
                        ));
                    }
                }
                assert forall|q: usize|
                    q < c0.size() && !post.contains(q) implies #[trigger] after.store()[q as int]
                    == c0.store()[q as int] by {
                    assert(!pre.contains(q));
                    assert(q != h);
                    assert(before.store()[q as int] == c0.store()[q as int]);
                }
            }
            j = j + 1;
        }
        proof {
            assert(all.take(k as int) =~= all);
            assert forall|w: usize| !mentions(self.resolve(ty@), w) by {
                lemma_bind_holes_mentions(z0, all, top, w);
                if mentions(z0, w) {
                    assert(first_holes(z0, Seq::empty()).contains(w));
                }
            }
        }
        r
    }
}

} // verus!
