//! Spines of types: an application `f a b` is the head `f` applied to the arguments
//! `[a, b]`, and a function type `a -> b -> c` has the spine `[a, b, c]`.

use vstd::prelude::*;
use crate::context::{Context, depth_bound};
use crate::type_facts::lemma_children_closed;
use crate::types::{Label, SType, Type, closed, size, views};

verus! {

/// `h` applied to `args`, from left to right.
pub open spec fn app_fold(h: SType, args: Seq<SType>) -> SType
    decreases args.len(),
{
    if args.len() == 0 {
        h
    } else {
        SType::Application(Box::new(app_fold(h, args.drop_last())), Box::new(args.last()))
    }
}

/// The head of an application: what is applied once every argument is removed.
pub open spec fn app_head(t: SType) -> SType
    decreases t,
{
    match t {
        SType::Application(l, _) => app_head(*l),
        _ => t,
    }
}

/// The arguments of an application, from left to right.
pub open spec fn app_args(t: SType) -> Seq<SType>
    decreases t,
{
    match t {
        SType::Application(l, r) => app_args(*l).push(*r),
        _ => Seq::empty(),
    }
}

/// The function type from `args` to `ret`, curried.
pub open spec fn fun_fold(args: Seq<SType>, ret: SType) -> SType
    decreases args.len(),
{
    if args.len() == 0 {
        ret
    } else {
        SType::Arrow(Box::new(args[0]), Box::new(fun_fold(args.drop_first(), ret)))
    }
}

/// The arguments of a function type followed by its final result.
pub open spec fn arrow_parts(t: SType) -> Seq<SType>
    decreases t,
{
    match t {
        SType::Arrow(a, b) => seq![*a] + arrow_parts(*b),
        _ => seq![t],
    }
}

/// The binders of the leading `forall`s of a type.
pub open spec fn forall_binders(t: SType) -> Seq<(Label, SType)>
    decreases t,
{
    match t {
        SType::Forall(n, k, _, b) => seq![(n, *k)] + forall_binders(*b),
        _ => Seq::empty(),
    }
}

/// What is left of a type once its leading `forall`s are removed.
pub open spec fn forall_body(t: SType) -> SType
    decreases t,
{
    match t {
        SType::Forall(_, _, _, b) => forall_body(*b),
        _ => t,
    }
}

/// An application is its head applied to its arguments.
pub proof fn lemma_app_spine_fold(t: SType)
    ensures
        app_fold(app_head(t), app_args(t)) == t,
        !(app_head(t) is Application),
    decreases t,
{
    if let SType::Application(l, r) = t {
        lemma_app_spine_fold(*l);
        assert(app_args(t).drop_last() =~= app_args(*l));
    }
}

/// Applying a head that is not an application to arguments gives back that head and
/// those arguments as its spine.
pub proof fn lemma_app_fold_spine(h: SType, args: Seq<SType>)
    requires
        !(h is Application),
    ensures
        app_head(app_fold(h, args)) == h,
        app_args(app_fold(h, args)) == args,
    decreases args.len(),
{
    if args.len() > 0 {
        lemma_app_fold_spine(h, args.drop_last());
        assert(app_args(app_fold(h, args.drop_last())).push(args.last()) =~= args);
    }
}

/// A function type is rebuilt from its spine.
pub proof fn lemma_arrow_parts_fold(t: SType)
    ensures
        arrow_parts(t).len() >= 1,
        fun_fold(arrow_parts(t).drop_last(), arrow_parts(t).last()) == t,
        !(arrow_parts(t).last() is Arrow),
    decreases t,
{
    if let SType::Arrow(a, b) = t {
        lemma_arrow_parts_fold(*b);
        let p = arrow_parts(t);
        assert(p.drop_last().drop_first() =~= arrow_parts(*b).drop_last());
    }
}

/// The spine of a function type built from arguments is those arguments followed by the
/// spine of the result.
pub proof fn lemma_fun_fold_parts(args: Seq<SType>, ret: SType)
    ensures
        arrow_parts(fun_fold(args, ret)) == args + arrow_parts(ret),
    decreases args.len(),
{
    if args.len() > 0 {
        lemma_fun_fold_parts(args.drop_first(), ret);
        assert(seq![args[0]] + (args.drop_first() + arrow_parts(ret)) =~= args + arrow_parts(ret));
    }
}

impl Type {
    /// `left` applied to each type of `right` in turn.
    pub fn application(left: Type, right: Vec<Type>) -> (r: Type)
        ensures
            r@ == app_fold(left@, views(right@)),
    {
        let ghost args = views(right@);
        let mut acc = left;
        let mut i: usize = 0;
        while i < right.len()
            invariant
                i <= right@.len(),
                args == views(right@),
                acc@ == app_fold(left@, args.take(i as int)),
            decreases right@.len() - i,
        {
            let arg = right[i].clone();
            proof {
                assert(args.take(i + 1).drop_last() =~= args.take(i as int));
            }
            acc = Type::Application(Box::new(acc), Box::new(arg));
            i = i + 1;
        }
        proof {
            assert(args.take(right@.len() as int) =~= args);
        }
        acc
    }

    /// The curried function type from the types of `right` to `ret`.
    pub fn function(right: Vec<Type>, ret: Type) -> (r: Type)
        ensures
            r@ == fun_fold(views(right@), ret@),
    {
        let ghost args = views(right@);
        let mut acc = ret;
        let mut i: usize = right.len();
        while i > 0
            invariant
                i <= right@.len(),
                args == views(right@),
                acc@ == fun_fold(args.skip(i as int), ret@),
            decreases i,
        {
            i = i - 1;
            let arg = right[i].clone();
            proof {
                assert(args.skip(i as int).drop_first() =~= args.skip(i + 1));
            }
            acc = Type::Arrow(Box::new(arg), Box::new(acc));
        }
        proof {
            assert(args.skip(0) =~= args);
        }
        acc
    }

    /// The head of an application and its arguments, from left to right.
    pub fn application_spine(&self) -> (r: (Type, Vec<Type>))
        ensures
            r.0@ == app_head(self@),
            views(r.1@) == app_args(self@),
        decreases self,
    {
        match self {
            Type::Application(l, a) => {
                let (head, mut args) = (**l).application_spine();
                let ghost before = views(args@);
                args.push((**a).clone());
                proof {
                    assert(views(args@) =~= before.push(a@));
                }
                (head, args)
            },
            _ => {
                let args: Vec<Type> = Vec::new();
                proof {
                    assert(views(args@) =~= Seq::<SType>::empty());
                }
                (self.clone(), args)
            },
        }
    }

    /// The arguments of a function type followed by its final result.
    pub fn arrow_spine(&self) -> (r: Vec<Type>)
        ensures
            views(r@) == arrow_parts(self@),
        decreases self,
    {
        match self {
            Type::Arrow(a, b) => {
                let rest = (**b).arrow_spine();
                let mut spine: Vec<Type> = Vec::new();
                spine.push((**a).clone());
                let mut i: usize = 0;
                while i < rest.len()
                    invariant
                        i <= rest@.len(),
                        views(spine@) == seq![a@] + views(rest@).take(i as int),
                    decreases rest@.len() - i,
                {
                    let ghost before = views(spine@);
                    spine.push(rest[i].clone());
                    proof {
                        assert(views(spine@) =~= before.push(rest@[i as int]@));
                        assert(views(rest@).take(i + 1) =~= views(rest@).take(i as int).push(
                            rest@[i as int]@,
                        ));
                        assert(seq![a@] + views(rest@).take(i + 1) =~= (seq![a@] + views(
                            rest@,
                        ).take(i as int)).push(rest@[i as int]@));
                    }
                    i = i + 1;
                }
                proof {
                    assert(views(rest@).take(rest@.len() as int) =~= views(rest@));
                }
                spine
            },
            _ => {
                let mut spine: Vec<Type> = Vec::new();
                spine.push(self.clone());
                proof {
                    assert(views(spine@) =~= seq![self@]);
                }
                spine
            },
        }
    }

    /// The binders of the leading `forall`s, outermost first, and what is left.
    pub fn forall_spine(&self) -> (r: (Vec<(Label, Type)>, Type))
        ensures
            r.0@.len() == forall_binders(self@).len(),
            forall|i: int|
                0 <= i < r.0@.len() ==> (#[trigger] r.0@[i]).0 == forall_binders(self@)[i].0
                    && r.0@[i].1@ == forall_binders(self@)[i].1,
            r.1@ == forall_body(self@),
        decreases self,
    {
        match self {
            Type::Forall(n, k, _, b) => {
                let (rest, body) = (**b).forall_spine();
                let mut binders: Vec<(Label, Type)> = Vec::new();
                binders.push((*n, (**k).clone()));
                let mut i: usize = 0;
                while i < rest.len()
                    invariant
                        i <= rest@.len(),
                        binders@.len() == i + 1,
                        binders@[0].0 == *n,
                        binders@[0].1@ == k@,
                        forall|j: int|
                            0 <= j < i ==> (#[trigger] binders@[j + 1]).0 == rest@[j].0
                                && binders@[j + 1].1@ == rest@[j].1@,
                    decreases rest@.len() - i,
                {
                    let (m, kind) = &rest[i];
                    binders.push((*m, kind.clone()));
                    i = i + 1;
                }
                proof {
                    let fb = forall_binders(self@);
                    assert forall|j: int| 0 <= j < binders@.len() implies (
                    #[trigger] binders@[j]).0 == fb[j].0 && binders@[j].1@ == fb[j].1 by {
                        if j > 0 {
                            assert(binders@[(j - 1) + 1].0 == rest@[j - 1].0);
                        }
                    }
                }
                (binders, body)
            },
            _ => (Vec::new(), self.clone()),
        }
    }
}

impl Context {
    /// The head and arguments of an application, following filled holes at each step.
    /// The head is the last left part found, as it is (it may be a filled hole that does
    /// not stand for an application).
    pub fn application_spine(&self, t: &Type) -> (r: (Type, Vec<Type>))
        requires
            self.wf(),
            closed(t@, self.size()),
        ensures
            self.resolve(app_fold(r.0@, views(r.1@))) == self.resolve(t@),
            !(self.resolve(r.0@) is Application),
            closed(r.0@, self.size()),
        decreases depth_bound(t@, self.depth@), size(t@),
    {
        let d = self.deref(t);
        proof {
            lemma_children_closed(d@, self.size());
        }
        match &d {
            Type::Application(l, a) => {
                proof {
                    if !self.is_filled_hole(t@) {
                        assert(d@ == t@);
                    }
                }
                let (head, mut args) = self.application_spine(l);
                let ghost before = views(args@);
                args.push((**a).clone());
                proof {
                    assert(views(args@) =~= before.push(a@));
                    assert(views(args@).drop_last() =~= before);
                    lemma_resolve_app_fold(*self, head@, before, l@);
                }
                (head, args)
            },
            _ => {
                let args: Vec<Type> = Vec::new();
                proof {
                    assert(views(args@) =~= Seq::<SType>::empty());
                    if !self.is_filled_hole(t@) {
                        assert(d@ == t@);
                    }
                    if d@ is Hole {
                        let h = d@->Hole_0;
                        assert(crate::types::mentions(d@, h));
                        assert(self.cell_ok(h as int));
                    }
                }
                (t.clone(), args)
            },
        }
    }

    /// The arguments and final result of a function type, following filled holes at each
    /// step. The result is the last body found, as it is.
    pub fn arrow_spine(&self, t: &Type) -> (r: Vec<Type>)
        requires
            self.wf(),
            closed(t@, self.size()),
        ensures
            r@.len() >= 1,
            self.resolve(fun_fold(views(r@).drop_last(), views(r@).last())) == self.resolve(t@),
            !(self.resolve(views(r@).last()) is Arrow),
        decreases depth_bound(t@, self.depth@), size(t@),
    {
        let d = self.deref(t);
        proof {
            lemma_children_closed(d@, self.size());
        }
        match &d {
            Type::Arrow(a, b) => {
                proof {
                    if !self.is_filled_hole(t@) {
                        assert(d@ == t@);
                    }
                }
                let rest = self.arrow_spine(b);
                let mut spine: Vec<Type> = Vec::new();
                spine.push((**a).clone());
                let mut i: usize = 0;
                while i < rest.len()
                    invariant
                        i <= rest@.len(),
                        views(spine@) == seq![a@] + views(rest@).take(i as int),
                    decreases rest@.len() - i,
                {
                    let ghost before = views(spine@);
                    spine.push(rest[i].clone());
                    proof {
                        assert(views(spine@) =~= before.push(rest@[i as int]@));
                        assert(seq![a@] + views(rest@).take(i + 1) =~= (seq![a@] + views(
                            rest@,
                        ).take(i as int)).push(rest@[i as int]@));
                    }
                    i = i + 1;
                }
                proof {
                    let vr = views(rest@);
                    let vs = views(spine@);
                    assert(vr.take(rest@.len() as int) =~= vr);
                    assert(vs.drop_last().drop_first() =~= vr.drop_last());
                    assert(vs.last() == vr.last());
                    lemma_resolve_fun_fold(*self, a@, vr.drop_last(), vr.last(), b@);
                    assert(vs.drop_last() =~= seq![a@] + vr.drop_last());
                }
                spine
            },
            _ => {
                let mut spine: Vec<Type> = Vec::new();
                spine.push(t.clone());
                proof {
                    assert(views(spine@) =~= seq![t@]);
                    assert(views(spine@).drop_last() =~= Seq::<SType>::empty());
                    if !self.is_filled_hole(t@) {
                        assert(d@ == t@);
                    }
                    if d@ is Hole {
                        let h = d@->Hole_0;
                        assert(crate::types::mentions(d@, h));
                        assert(self.cell_ok(h as int));
                    }
                }
                spine
            },
        }
    }
}

/// Resolving an application built from a spine whose head stands for `l` is resolving
/// `l` applied to the last argument.
proof fn lemma_resolve_app_fold(c: Context, head: SType, args: Seq<SType>, l: SType)
    requires
        c.resolve(app_fold(head, args)) == c.resolve(l),
    ensures
        forall|a: SType|
            #[trigger] c.resolve(app_fold(head, args.push(a))) == c.resolve(
                SType::Application(Box::new(l), Box::new(a)),
            ),
{
    assert forall|a: SType| #[trigger]
        c.resolve(app_fold(head, args.push(a))) == c.resolve(
            SType::Application(Box::new(l), Box::new(a)),
        ) by {
        assert(args.push(a).drop_last() =~= args);
    }
}

/// Resolving a function type whose result part stands for `b` is resolving the arrow
/// from `a` to `b`.
proof fn lemma_resolve_fun_fold(c: Context, a: SType, args: Seq<SType>, ret: SType, b: SType)
    requires
        c.resolve(fun_fold(args, ret)) == c.resolve(b),
    ensures
        c.resolve(fun_fold(seq![a] + args, ret)) == c.resolve(
            SType::Arrow(Box::new(a), Box::new(b)),
        ),
{
    assert((seq![a] + args).drop_first() =~= args);
}

} // verus!
