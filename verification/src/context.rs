//! The mutable context of the type checker: a counter for fresh names, the errors
//! reported so far, and the store of holes.
//!
//! A hole is an index into the store. An empty hole carries its label, its kind and the
//! level at which it was made; a filled hole carries the type it stands for. The store
//! keeps, as ghost state, the full resolution of every hole and a depth for every filled
//! hole: a filled hole only refers to holes of smaller depth, so following holes always
//! ends.

use vstd::prelude::*;
use crate::level::Level;
use crate::location::Span;
use crate::types::{Label, SType, Type, closed, mentions, zonk, subst_hole};
use crate::type_facts::{
    lemma_children_closed, lemma_zonk_mentions, lemma_zonk_subst, lemma_subst_hole_absent,
    lemma_subst_hole_mentions,
};

verus! {

/// The inside of a hole.
#[derive(Debug, PartialEq, Eq)]
pub enum HoleInner {
    /// Not yet known: its label, its kind, and the level at which it was made (the
    /// bound variables it may refer to are those below this level).
    Empty(Label, Type, Level),
    /// Known to be this type.
    Filled(Type),
}

/// The model of the inside of a hole.
pub enum SHole {
    Empty(Label, SType, usize),
    Filled(SType),
}

impl View for HoleInner {
    type V = SHole;

    open spec fn view(&self) -> SHole {
        match self {
            HoleInner::Empty(l, k, lvl) => SHole::Empty(*l, k@, lvl.0),
            HoleInner::Filled(t) => SHole::Filled(t@),
        }
    }
}

/// The kinds of type errors that unification reports.
#[derive(Debug, PartialEq, Eq)]
pub enum TypeErrorKind {
    /// The two types cannot be made equal.
    TypeMismatch(Type, Type),
    /// A hole would have to contain itself.
    InfiniteType,
    /// A hole would refer to a bound variable that is not in its scope.
    EscapingScope,
    /// The type is applied as a function but is not one.
    NotAFunction(Type),
}

/// A reported type error and where it happened.
#[derive(Debug, PartialEq, Eq)]
pub struct TypeError {
    pub span: Span,
    pub kind: TypeErrorKind,
}

/// The number of empty holes of a store.
pub open spec fn count_empty(s: Seq<SHole>) -> nat
    decreases s.len(),
{
    if s.len() == 0 {
        0
    } else {
        count_empty(s.drop_last()) + if s.last() is Empty {
            1nat
        } else {
            0nat
        }
    }
}

/// Follows filled holes, at most `fuel` times.
pub open spec fn deref_fuel(store: Seq<SHole>, t: SType, fuel: nat) -> SType
    decreases fuel,
{
    if fuel == 0 {
        t
    } else {
        match t {
            SType::Hole(k) => if k < store.len() && store[k as int] is Filled {
                deref_fuel(store, store[k as int]->Filled_0, (fuel - 1) as nat)
            } else {
                t
            },
            _ => t,
        }
    }
}

/// A later resolution refines an earlier one: it keeps every hole, and it resolves the
/// earlier resolution of each hole to its own.
pub open spec fn refines(old_res: Seq<SType>, new_res: Seq<SType>) -> bool {
    &&& old_res.len() <= new_res.len()
    &&& forall|k: int| 0 <= k < old_res.len() ==> #[trigger] new_res[k] == zonk(old_res[k], new_res)
}

pub struct Context {
    /// The counter used for fresh names.
    pub counter: usize,
    /// The errors reported so far, oldest first.
    pub errors: Vec<TypeError>,
    /// The store of holes.
    pub holes: Vec<HoleInner>,
    /// For each hole, its depth: 0 when empty, and above the depth of every hole that its
    /// content refers to when filled.
    pub depth: Ghost<Seq<nat>>,
    /// For each hole, the type it stands for once every filled hole is followed.
    pub res: Ghost<Seq<SType>>,
}

impl Context {
    /// The model of the store of holes.
    pub open spec fn store(&self) -> Seq<SHole> {
        self.holes@.map_values(|h: HoleInner| h@)
    }

    /// The number of holes.
    pub open spec fn size(&self) -> nat {
        self.holes@.len()
    }

    /// Whether `t` is a hole of the store that is filled.
    pub open spec fn is_filled_hole(&self, t: SType) -> bool {
        t is Hole && t->Hole_0 < self.size() && self.store()[t->Hole_0 as int] is Filled
    }

    /// The depth of `t` when it is a filled hole, else 0.
    pub open spec fn hole_depth(&self, t: SType) -> nat {
        if self.is_filled_hole(t) {
            self.depth@[t->Hole_0 as int]
        } else {
            0
        }
    }

    /// `t` followed through filled holes.
    pub open spec fn deref_view(&self, t: SType) -> SType {
        deref_fuel(self.store(), t, self.hole_depth(t))
    }

    /// The type that `t` stands for.
    pub open spec fn resolve(&self, t: SType) -> SType {
        zonk(t, self.res@)
    }

    /// The hole `k` is well formed.
    pub open spec fn cell_ok(&self, k: int) -> bool {
        let n = self.size();
        match self.store()[k] {
            SHole::Empty(_, kind, _) => {
                &&& self.depth@[k] == 0
                &&& self.res@[k] is Hole
                &&& self.res@[k]->Hole_0 == k
                &&& closed(kind, n)
            },
            SHole::Filled(c) => {
                &&& self.depth@[k] >= 1
                &&& closed(c, n)
                &&& self.res@[k] == zonk(c, self.res@)
                &&& forall|g: usize| #[trigger]
                    mentions(c, g) ==> self.depth@[g as int] < self.depth@[k]
            },
        }
    }

    /// The store is well formed: every hole is, and the resolution of every hole only
    /// refers to empty holes.
    pub open spec fn wf(&self) -> bool {
        &&& self.depth@.len() == self.size()
        &&& self.res@.len() == self.size()
        &&& forall|k: int| 0 <= k < self.size() ==> #[trigger] self.cell_ok(k)
        &&& forall|k: int, w: usize|
            0 <= k < self.size() && #[trigger] mentions(self.res@[k], w) ==> w < self.size()
                && self.store()[w as int] is Empty
    }

    /// A context with no holes, no errors, and the counter at 0.
    pub fn new() -> (ctx: Context)
        ensures
            ctx.wf(),
            ctx.counter == 0,
            ctx.errors@.len() == 0,
            ctx.size() == 0,
    {
        Context {
            counter: 0,
            errors: Vec::new(),
            holes: Vec::new(),
            depth: Ghost(Seq::empty()),
            res: Ghost(Seq::empty()),
        }
    }

    /// Returns the counter and increments it.
    pub fn inc_counter(&mut self) -> (r: usize)
        requires
            old(self).counter < usize::MAX,
        ensures
            r == old(self).counter,
            final(self).counter == old(self).counter + 1,
            final(self).holes == old(self).holes,
            final(self).depth == old(self).depth,
            final(self).res == old(self).res,
            final(self).errors == old(self).errors,
    {
        self.counter = self.counter + 1;
        self.counter - 1
    }

    /// A fresh name, `t_` followed by the counter.
    pub fn new_name(&mut self) -> (r: Label)
        requires
            old(self).counter < usize::MAX,
        ensures
            r == Label::Fresh(old(self).counter),
            final(self).counter == old(self).counter + 1,
            final(self).holes == old(self).holes,
            final(self).depth == old(self).depth,
            final(self).res == old(self).res,
            final(self).errors == old(self).errors,
    {
        Label::Fresh(self.inc_counter())
    }

    /// Whether hole `h` is empty.
    pub fn is_empty(&self, h: usize) -> (r: bool)
        requires
            h < self.size(),
        ensures
            r == self.store()[h as int] is Empty,
    {
        match &self.holes[h] {
            HoleInner::Empty(_, _, _) => true,
            HoleInner::Filled(_) => false,
        }
    }

    /// Adds an empty hole with the given label, kind and level, and returns it.
    pub fn empty_hole(&mut self, label: Label, kind: Type, level: Level) -> (r: usize)
        requires
            old(self).wf(),
            closed(kind@, old(self).size()),
            old(self).size() < usize::MAX,
        ensures
            final(self).wf(),
            r == old(self).size(),
            final(self).store() == old(self).store().push(SHole::Empty(label, kind@, level.0)),
            final(self).res@ == old(self).res@.push(SType::Hole(r)),
            refines(old(self).res@, final(self).res@),
            count_empty(final(self).store()) == count_empty(old(self).store()) + 1,
            final(self).counter == old(self).counter,
            final(self).errors == old(self).errors,
    {
        let ghost old_ctx = *self;
        let ghost kv = kind@;
        let r = self.holes.len();
        self.holes.push(HoleInner::Empty(label, kind, level));
        proof {
            let n = r as nat;
            self.depth@ = self.depth@.push(0);
            self.res@ = self.res@.push(SType::Hole(r));
            assert(self.store() =~= old_ctx.store().push(SHole::Empty(label, kv, level.0)));
            assert(self.store().drop_last() =~= old_ctx.store());
            assert forall|k: int| 0 <= k < n implies #[trigger] self.res@[k] == zonk(
                old_ctx.res@[k],
                self.res@,
            ) by {
                lemma_zonk_prefix(old_ctx.res@[k], old_ctx.res@, self.res@);
                assert(old_ctx.cell_ok(k));
                lemma_resolved_fixed(old_ctx, k);
            }
            assert forall|k: int| 0 <= k < self.size() implies #[trigger] self.cell_ok(k) by {
                if k < n {
                    assert(old_ctx.cell_ok(k));
                    match self.store()[k] {
                        SHole::Filled(c) => {
                            lemma_zonk_prefix(c, old_ctx.res@, self.res@);
                        },
                        _ => {},
                    }
                }
            }
        }
        r
    }

    /// Fills the empty hole `h` with `t`, which must not refer to `h`, directly or
    /// through other holes.
    pub fn fill(&mut self, h: usize, t: Type)
        requires
            old(self).wf(),
            h < old(self).size(),
            old(self).store()[h as int] is Empty,
            closed(t@, old(self).size()),
            !mentions(old(self).resolve(t@), h),
        ensures
            final(self).wf(),
            final(self).store() == old(self).store().update(h as int, SHole::Filled(t@)),
            final(self).res@ == old(self).res@.map_values(
                |x: SType| subst_hole(x, h, old(self).resolve(t@)),
            ),
            refines(old(self).res@, final(self).res@),
            count_empty(final(self).store()) + 1 == count_empty(old(self).store()),
            final(self).counter == old(self).counter,
            final(self).errors == old(self).errors,
            final(self).resolve(SType::Hole(h)) == old(self).resolve(t@),
            final(self).resolve(t@) == old(self).resolve(t@),
    {
        let ghost old_ctx = *self;
        let ghost tv = t@;
        self.holes.set(h, HoleInner::Filled(t));
        proof {
            let n = old_ctx.size();
            let res = old_ctx.res@;
            let z = zonk(tv, res);
            let res2 = res.map_values(|x: SType| subst_hole(x, h, z));
            let depth = old_ctx.depth@;
            // The new depth of the filled hole is above that of everything it refers to.
            let big = depth_bound(tv, depth) + 1;
            let depth2 = Seq::new(
                n,
                |k: int|
                    if k == h {
                        big
                    } else if mentions(res[k], h) {
                        depth[k] + big
                    } else {
                        depth[k]
                    },
            );
            assert(self.store() =~= old_ctx.store().update(h as int, SHole::Filled(tv)));
            lemma_count_empty_fill(old_ctx.store(), h as int, SHole::Filled(tv));
            lemma_zonk_mentions(tv, res, h);
            assert forall|k: usize| #[trigger] mentions(tv, k) implies !mentions(res[k as int], h) by {
            }
            self.res@ = res2;
            self.depth@ = depth2;
            // The resolution of the new hole does not refer to it.
            assert(subst_hole(z, h, z) == z) by {
                lemma_subst_hole_absent(z, h, z);
            }
            assert forall|k: int| 0 <= k < n implies #[trigger] res2[k] == zonk(res[k], res2) by {
                assert(old_ctx.cell_ok(k));
                lemma_resolved_fixed(old_ctx, k);
                lemma_zonk_subst(res[k], res, res2, h, z);
            }
            assert forall|k: int| 0 <= k < n implies #[trigger] self.cell_ok(k) by {
                assert(old_ctx.cell_ok(k));
                if k == h {
                    lemma_zonk_subst(tv, res, res2, h, z);
                    assert forall|g: usize| #[trigger] mentions(tv, g) implies depth2[g as int]
                        < depth2[k] by {
                        lemma_depth_bound(tv, depth, g);
                        assert(g != h) by {
                            if g == h {
                                assert(old_ctx.cell_ok(h as int));
                                assert(mentions(res[h as int], h));
                            }
                        }
                    }
                    assert(self.store()[k] == SHole::Filled(tv));
                    assert(self.depth@[k] >= 1);
                    assert(res2[k] == z);
                    assert(self.res@[k] == zonk(tv, self.res@));
                } else {
                    match old_ctx.store()[k] {
                        SHole::Filled(c) => {
                            lemma_zonk_subst(c, res, res2, h, z);
                            assert forall|g: usize| #[trigger] mentions(c, g) implies depth2[g
                                as int] < depth2[k] by {
                                if g == h {
                                    assert(old_ctx.cell_ok(h as int));
                                    assert(mentions(res[h as int], h));
                                    lemma_mentions_through(c, res, g, h);
                                } else if mentions(res[g as int], h) {
                                    lemma_mentions_through(c, res, g, h);
                                }
                            }
                        },
                        SHole::Empty(_, _, _) => {
                            assert(!mentions(res[k], h));
                            assert(self.depth@[k] == 0);
                        },
                    }
                }
            }
            lemma_zonk_subst(tv, res, res2, h, z);
            assert(old_ctx.cell_ok(h as int));
            assert(res2[h as int] == z);
            assert(zonk(SType::Hole(h), res2) == z);
            assert forall|k: int, w: usize|
                0 <= k < self.size() && #[trigger] mentions(self.res@[k], w) implies w
                < self.size() && self.store()[w as int] is Empty by {
                lemma_subst_hole_mentions(res[k], h, z, w);
                if mentions(res[k], h) && mentions(z, w) {
                    lemma_zonk_mentions(tv, res, w);
                    let j = choose|j: usize| #[trigger] mentions(tv, j) && mentions(res[j as int], w);
                    assert(mentions(res[j as int], w));
                }
            }
        }
    }

    /// Follows `t` through filled holes, until a type that is not a filled hole.
    pub fn deref(&self, t: &Type) -> (r: Type)
        requires
            self.wf(),
            closed(t@, self.size()),
        ensures
            r@ == deref_fuel(self.store(), t@, self.hole_depth(t@)),
            !self.is_filled_hole(r@),
            self.resolve(r@) == self.resolve(t@),
            closed(r@, self.size()),
            !self.is_filled_hole(t@) ==> r@ == t@,
            self.is_filled_hole(t@) ==> depth_bound(r@, self.depth@) < depth_bound(t@, self.depth@),
        decreases self.hole_depth(t@),
    {
        match t {
            Type::Hole(h) => {
                assert(mentions(t@, *h));
                match &self.holes[*h] {
                    HoleInner::Filled(c) => {
                        proof {
                            assert(self.cell_ok(*h as int));
                            assert(self.store()[*h as int] == SHole::Filled(c@));
                            lemma_deref_step(*self, c@);
                        }
                        let r = self.deref(c);
                        proof {
                            assert(self.is_filled_hole(t@));
                            assert(self.cell_ok(*h as int));
                            lemma_depth_bound_below(c@, self.depth@, self.depth@[*h as int]);
                            if self.is_filled_hole(c@) {
                            } else {
                            }
                            lemma_deref_fuel_stable(
                                *self,
                                c@,
                                self.hole_depth(c@),
                                (self.depth@[*h as int] - 1) as nat,
                            );
                        }
                        r
                    },
                    HoleInner::Empty(_, _, _) => t.clone(),
                }
            },
            _ => t.clone(),
        }
    }
}

/// The largest depth of a hole of `t`.
pub open spec fn depth_bound(t: SType, depth: Seq<nat>) -> nat
    decreases t,
{
    match t {
        SType::Arrow(a, b) => max_nat(depth_bound(*a, depth), depth_bound(*b, depth)),
        SType::Forall(_, k, _, b) => max_nat(depth_bound(*k, depth), depth_bound(*b, depth)),
        SType::Hole(k) => if k < depth.len() {
            depth[k as int]
        } else {
            0
        },
        SType::Tuple(s) => depth_bound_seq(s, depth),
        SType::Application(a, b) => max_nat(depth_bound(*a, depth), depth_bound(*b, depth)),
        SType::Qualified(a, b) => max_nat(depth_bound(*a, depth), depth_bound(*b, depth)),
        _ => 0,
    }
}

/// The largest depth of a hole of the types of `s`.
pub open spec fn depth_bound_seq(s: Seq<SType>, depth: Seq<nat>) -> nat
    decreases s,
{
    if s.len() == 0 {
        0
    } else {
        max_nat(depth_bound_seq(s.drop_last(), depth), depth_bound(s.last(), depth))
    }
}

pub open spec fn max_nat(a: nat, b: nat) -> nat {
    if a >= b {
        a
    } else {
        b
    }
}

/// Every hole of a type has at most the depth bound of the type.
pub proof fn lemma_depth_bound(t: SType, depth: Seq<nat>, g: usize)
    requires
        mentions(t, g),
        g < depth.len(),
    ensures
        depth[g as int] <= depth_bound(t, depth),
    decreases t,
{
    match t {
        SType::Arrow(a, b) => {
            if mentions(*a, g) {
                lemma_depth_bound(*a, depth, g);
            } else {
                lemma_depth_bound(*b, depth, g);
            }
        },
        SType::Forall(_, a, _, b) => {
            if mentions(*a, g) {
                lemma_depth_bound(*a, depth, g);
            } else {
                lemma_depth_bound(*b, depth, g);
            }
        },
        SType::Application(a, b) => {
            if mentions(*a, g) {
                lemma_depth_bound(*a, depth, g);
            } else {
                lemma_depth_bound(*b, depth, g);
            }
        },
        SType::Qualified(a, b) => {
            if mentions(*a, g) {
                lemma_depth_bound(*a, depth, g);
            } else {
                lemma_depth_bound(*b, depth, g);
            }
        },
        SType::Tuple(s) => {
            let i = choose|i: int| 0 <= i < s.len() && mentions(#[trigger] s[i], g);
            lemma_depth_bound(s[i], depth, g);
            lemma_depth_bound_seq(s, depth, i);
        },
        _ => {},
    }
}

/// The depth bound of a sequence bounds that of each element.
pub proof fn lemma_depth_bound_seq(s: Seq<SType>, depth: Seq<nat>, i: int)
    requires
        0 <= i < s.len(),
    ensures
        depth_bound(s[i], depth) <= depth_bound_seq(s, depth),
    decreases s.len(),
{
    if i < s.len() - 1 {
        lemma_depth_bound_seq(s.drop_last(), depth, i);
    }
}

/// If the depth of every hole of a type is below `d`, so is its depth bound.
pub proof fn lemma_depth_bound_below(t: SType, depth: Seq<nat>, d: nat)
    requires
        d >= 1,
        closed(t, depth.len()),
        forall|g: usize| #[trigger] mentions(t, g) ==> depth[g as int] < d,
    ensures
        depth_bound(t, depth) < d,
    decreases t,
{
    lemma_children_closed(t, depth.len());
    match t {
        SType::Arrow(a, b) => {
            assert forall|k: usize| #[trigger] mentions(*a, k) implies depth[k as int] < d by {
                assert(mentions(t, k));
            }
            assert forall|k: usize| #[trigger] mentions(*b, k) implies depth[k as int] < d by {
                assert(mentions(t, k));
            }
            lemma_depth_bound_below(*a, depth, d);
            lemma_depth_bound_below(*b, depth, d);
        },
        SType::Forall(_, a, _, b) => {
            assert forall|k: usize| #[trigger] mentions(*a, k) implies depth[k as int] < d by {
                assert(mentions(t, k));
            }
            assert forall|k: usize| #[trigger] mentions(*b, k) implies depth[k as int] < d by {
                assert(mentions(t, k));
            }
            lemma_depth_bound_below(*a, depth, d);
            lemma_depth_bound_below(*b, depth, d);
        },
        SType::Application(a, b) => {
            assert forall|k: usize| #[trigger] mentions(*a, k) implies depth[k as int] < d by {
                assert(mentions(t, k));
            }
            assert forall|k: usize| #[trigger] mentions(*b, k) implies depth[k as int] < d by {
                assert(mentions(t, k));
            }
            lemma_depth_bound_below(*a, depth, d);
            lemma_depth_bound_below(*b, depth, d);
        },
        SType::Qualified(a, b) => {
            assert forall|k: usize| #[trigger] mentions(*a, k) implies depth[k as int] < d by {
                assert(mentions(t, k));
            }
            assert forall|k: usize| #[trigger] mentions(*b, k) implies depth[k as int] < d by {
                assert(mentions(t, k));
            }
            lemma_depth_bound_below(*a, depth, d);
            lemma_depth_bound_below(*b, depth, d);
        },
        SType::Hole(k) => {
            assert(mentions(t, k));
        },
        SType::Tuple(s) => {
            assert forall|i: int, g: usize|
                0 <= i < s.len() && #[trigger] mentions(s[i], g) implies depth[g as int] < d by {
                assert(mentions(t, g));
            }
            lemma_depth_bound_seq_below(s, depth, d);
        },
        _ => {},
    }
}

proof fn lemma_depth_bound_seq_below(s: Seq<SType>, depth: Seq<nat>, d: nat)
    requires
        d >= 1,
        forall|i: int| 0 <= i < s.len() ==> closed(#[trigger] s[i], depth.len()),
        forall|i: int, g: usize|
            0 <= i < s.len() && #[trigger] mentions(s[i], g) ==> depth[g as int] < d,
    ensures
        depth_bound_seq(s, depth) < d,
    decreases s,
{
    if s.len() > 0 {
        lemma_depth_bound_seq_below(s.drop_last(), depth, d);
        assert(closed(s[s.len() - 1], depth.len()));
        lemma_depth_bound_below(s.last(), depth, d);
    }
}

/// Filling an empty hole removes one empty hole.
pub proof fn lemma_count_empty_fill(s: Seq<SHole>, i: int, x: SHole)
    requires
        0 <= i < s.len(),
        s[i] is Empty,
        x is Filled,
    ensures
        count_empty(s.update(i, x)) + 1 == count_empty(s),
    decreases s.len(),
{
    if i < s.len() - 1 {
        lemma_count_empty_fill(s.drop_last(), i, x);
        assert(s.update(i, x).drop_last() =~= s.drop_last().update(i, x));
    } else {
        assert(s.update(i, x).drop_last() =~= s.drop_last());
    }
}

/// Resolving with a longer store that agrees on the first holes is the same, for a type
/// whose holes are among the first ones.
pub proof fn lemma_zonk_prefix(t: SType, a: Seq<SType>, b: Seq<SType>)
    requires
        closed(t, a.len()),
        a.len() <= b.len(),
        forall|k: int| 0 <= k < a.len() ==> #[trigger] b[k] == a[k],
    ensures
        zonk(t, b) == zonk(t, a),
    decreases t,
{
    lemma_children_closed(t, a.len());
    match t {
        SType::Arrow(x, y) => {
            lemma_zonk_prefix(*x, a, b);
            lemma_zonk_prefix(*y, a, b);
        },
        SType::Forall(_, x, _, y) => {
            lemma_zonk_prefix(*x, a, b);
            lemma_zonk_prefix(*y, a, b);
        },
        SType::Application(x, y) => {
            lemma_zonk_prefix(*x, a, b);
            lemma_zonk_prefix(*y, a, b);
        },
        SType::Qualified(x, y) => {
            lemma_zonk_prefix(*x, a, b);
            lemma_zonk_prefix(*y, a, b);
        },
        SType::Hole(k) => {
            assert(mentions(t, k));
        },
        SType::Tuple(s) => {
            let u = zonk(t, b)->Tuple_0;
            let v = zonk(t, a)->Tuple_0;
            assert forall|i: int| 0 <= i < s.len() implies #[trigger] u[i] == v[i] by {
                lemma_zonk_prefix(s[i], a, b);
            }
            assert(u =~= v);
        },
        _ => {},
    }
}

/// A type whose holes all resolve to themselves is its own resolution.
pub proof fn lemma_zonk_fixed(t: SType, res: Seq<SType>)
    requires
        closed(t, res.len()),
        forall|k: usize| #[trigger] mentions(t, k) ==> res[k as int] == SType::Hole(k),
    ensures
        zonk(t, res) == t,
    decreases t,
{
    lemma_children_closed(t, res.len());
    match t {
        SType::Arrow(x, y) => {
            assert forall|k: usize| #[trigger] mentions(*x, k) implies res[k as int] == SType::Hole(k) by {
                assert(mentions(t, k));
            }
            assert forall|k: usize| #[trigger] mentions(*y, k) implies res[k as int] == SType::Hole(k) by {
                assert(mentions(t, k));
            }
            lemma_zonk_fixed(*x, res);
            lemma_zonk_fixed(*y, res);
        },
        SType::Forall(_, x, _, y) => {
            assert forall|k: usize| #[trigger] mentions(*x, k) implies res[k as int] == SType::Hole(k) by {
                assert(mentions(t, k));
            }
            assert forall|k: usize| #[trigger] mentions(*y, k) implies res[k as int] == SType::Hole(k) by {
                assert(mentions(t, k));
            }
            lemma_zonk_fixed(*x, res);
            lemma_zonk_fixed(*y, res);
        },
        SType::Application(x, y) => {
            assert forall|k: usize| #[trigger] mentions(*x, k) implies res[k as int] == SType::Hole(k) by {
                assert(mentions(t, k));
            }
            assert forall|k: usize| #[trigger] mentions(*y, k) implies res[k as int] == SType::Hole(k) by {
                assert(mentions(t, k));
            }
            lemma_zonk_fixed(*x, res);
            lemma_zonk_fixed(*y, res);
        },
        SType::Qualified(x, y) => {
            assert forall|k: usize| #[trigger] mentions(*x, k) implies res[k as int] == SType::Hole(k) by {
                assert(mentions(t, k));
            }
            assert forall|k: usize| #[trigger] mentions(*y, k) implies res[k as int] == SType::Hole(k) by {
                assert(mentions(t, k));
            }
            lemma_zonk_fixed(*x, res);
            lemma_zonk_fixed(*y, res);
        },
        SType::Hole(k) => {
            assert(mentions(t, k));
        },
        SType::Tuple(s) => {
            let u = zonk(t, res)->Tuple_0;
            assert forall|i: int| 0 <= i < s.len() implies #[trigger] u[i] == s[i] by {
                assert forall|k: usize| #[trigger] mentions(s[i], k) implies res[k as int]
                    == SType::Hole(k) by {
                    assert(mentions(t, k));
                }
                lemma_zonk_fixed(s[i], res);
            }
            assert(u =~= s);
        },
        _ => {},
    }
}

/// The resolution of a hole resolves to itself.
pub proof fn lemma_resolved_fixed(ctx: Context, k: int)
    requires
        ctx.wf(),
        0 <= k < ctx.size(),
    ensures
        zonk(ctx.res@[k], ctx.res@) == ctx.res@[k],
        closed(ctx.res@[k], ctx.size()),
{
    let r = ctx.res@[k];
    assert forall|w: usize| #[trigger] mentions(r, w) implies ctx.res@[w as int] == SType::Hole(w) by {
        assert(ctx.cell_ok(w as int));
        assert(ctx.res@[w as int] == SType::Hole(ctx.res@[w as int]->Hole_0));
    }
    lemma_zonk_fixed(r, ctx.res@);
}

/// If a hole `g` of `c` resolves to something that refers to `h`, so does `c`.
pub proof fn lemma_mentions_through(c: SType, res: Seq<SType>, g: usize, h: usize)
    requires
        closed(c, res.len()),
        mentions(c, g),
        mentions(res[g as int], h),
    ensures
        mentions(zonk(c, res), h),
{
    lemma_zonk_mentions(c, res, h);
}

/// One step of following a filled hole lowers the depth.
proof fn lemma_deref_step(ctx: Context, c: SType)
    requires
        ctx.wf(),
        exists|h: int| 0 <= h < ctx.size() && ctx.store()[h] == SHole::Filled(c),
    ensures
        forall|h: int|
            0 <= h < ctx.size() && #[trigger] ctx.store()[h] == SHole::Filled(c) ==> ctx.hole_depth(
                c,
            ) < ctx.depth@[h] && closed(c, ctx.size()),
{
    assert forall|h: int| 0 <= h < ctx.size() && #[trigger] ctx.store()[h] == SHole::Filled(c)
        implies ctx.hole_depth(c) < ctx.depth@[h] && closed(c, ctx.size()) by {
        assert(ctx.cell_ok(h));
        if ctx.is_filled_hole(c) {
            assert(mentions(c, c->Hole_0));
        }
    }
}

/// Following holes with more fuel than the depth changes nothing.
pub(crate) proof fn lemma_deref_fuel_stable(ctx: Context, t: SType, f1: nat, f2: nat)
    requires
        ctx.wf(),
        closed(t, ctx.size()),
        ctx.hole_depth(t) <= f1,
        ctx.hole_depth(t) <= f2,
    ensures
        deref_fuel(ctx.store(), t, f1) == deref_fuel(ctx.store(), t, f2),
    decreases f1,
{
    if ctx.is_filled_hole(t) {
        let h = t->Hole_0 as int;
        assert(ctx.cell_ok(h));
        let c = ctx.store()[h]->Filled_0;
        lemma_deref_step(ctx, c);
        lemma_deref_fuel_stable(ctx, c, (f1 - 1) as nat, (f2 - 1) as nat);
    } else {
        if f1 > 0 && f2 > 0 {
        } else if f1 == 0 && f2 > 0 {
        } else if f1 > 0 {
        }
    }
}

} // verus!
