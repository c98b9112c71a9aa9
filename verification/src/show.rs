//! The text of a type, as error messages show it.
//!
//! Names are given by the spellings of the symbols: symbol `s` is spelled
//! `spellings[s]`. A fresh label `t_n` is spelled so. A bound variable is shown by the
//! name of its binder and its index, `name~index`; a binder without a name is called
//! `_index`. Filled holes show what they stand for, and an empty hole shows its label.

use vstd::prelude::*;
use vstd::string::*;
use crate::context::{Context, HoleInner, SHole};
use crate::location::{decimal, decimal_text, digits_value, is_digit, lemma_decimal_reads_back};
use crate::type_facts::{lemma_children_closed, lemma_size_seq_elem};
use crate::types::{Label, SType, Symbol, Type, closed, mentions, size};

verus! {

/// The spelling of symbol `s`, or `?` for a symbol that has none.
pub open spec fn spell(sp: Seq<String>, s: Symbol) -> Seq<char> {
    if s < sp.len() {
        sp[s as int]@
    } else {
        seq!['?']
    }
}

/// The text of a label: `t_n` for a fresh one, the spelling of its symbol otherwise.
pub open spec fn label_text(l: Label, sp: Seq<String>) -> Seq<char> {
    match l {
        Label::Fresh(n) => seq!['t', '_'] + decimal(n as nat),
        Label::Named(s) => spell(sp, s),
    }
}

/// Every bound variable of `t` refers to one of the `depth` binders around it: those in
/// scope, then the `forall`s of `t` it is under.
pub open spec fn bounds_within(t: SType, depth: nat) -> bool
    decreases t,
{
    match t {
        SType::Bound(l) => l < depth,
        SType::Arrow(a, b) => bounds_within(*a, depth) && bounds_within(*b, depth),
        SType::Forall(_, k, _, b) => bounds_within(*k, depth) && bounds_within(*b, depth + 1),
        SType::Tuple(s) => forall|i: int| 0 <= i < s.len() ==> bounds_within(#[trigger] s[i], depth),
        SType::Application(a, b) => bounds_within(*a, depth) && bounds_within(*b, depth),
        SType::Qualified(a, b) => bounds_within(*a, depth) && bounds_within(*b, depth),
        _ => true,
    }
}

/// The text of the bound variable of level `l`, with the names of the binders in scope
/// by level: the name of its binder, `~`, and its index.
pub open spec fn bound_text(scope: Seq<Option<Label>>, l: usize, sp: Seq<String>) -> Seq<char> {
    let index = (scope.len() - 1 - l) as nat;
    let name = match scope[l as int] {
        Some(n) => label_text(n, sp),
        None => seq!['_'] + decimal(index),
    };
    name + seq!['~'] + decimal(index)
}

/// The text of `t`, a type in which every hole is empty (as in a resolution), with the
/// names of the binders in scope by level and the labels of the holes in `store`.
pub open spec fn type_text(store: Seq<SHole>, t: SType, scope: Seq<Option<Label>>, sp: Seq<String>) -> Seq<char>
    decreases t, 1nat,
{
    match t {
        SType::Type => seq!['T', 'y', 'p', 'e'],
        SType::Constraint => seq!['C', 'o', 'n', 's', 't', 'r', 'a', 'i', 'n', 't'],
        SType::Error => seq!['<', 'E', 'R', 'R', 'O', 'R', '>'],
        SType::Arrow(a, b) => seq!['('] + type_text(store, *a, scope, sp) + seq![' ', '-', '>', ' ']
            + type_text(store, *b, scope, sp) + seq![')'],
        SType::Forall(_, _, _, _) => seq!['(', 'f', 'o', 'r', 'a', 'l', 'l', ' '] + binders_text(
            store,
            t,
            scope,
            sp,
            true,
        ),
        SType::Hole(h) => if h < store.len() && store[h as int] is Empty {
            label_text(store[h as int]->Empty_0, sp)
        } else {
            seq!['?']
        },
        SType::Variable(q) => spell(sp, q.name),
        SType::Bound(l) => bound_text(scope, l, sp),
        SType::Tuple(s) => seq!['('] + join_text(store, s, scope, sp) + seq![')'],
        SType::Application(_, _) => seq!['('] + spine_text(store, t, scope, sp) + seq![')'],
        SType::Qualified(a, b) => seq!['('] + type_text(store, *a, scope, sp) + seq![
            ' ',
            '=',
            '>',
            ' ',
        ] + type_text(store, *b, scope, sp) + seq![')'],
    }
}

/// The binders of the `forall`s in front of `t`, each as `(name: kind)` and separated by
/// spaces, then `. `, the body and `)`; each kind is shown with the binders before it in
/// scope.
pub open spec fn binders_text(
    store: Seq<SHole>,
    t: SType,
    scope: Seq<Option<Label>>,
    sp: Seq<String>,
    first: bool,
) -> Seq<char>
    decreases t, 0nat,
{
    match t {
        SType::Forall(n, k, _, b) => (if first {
            Seq::empty()
        } else {
            seq![' ']
        }) + seq!['('] + label_text(n, sp) + seq![':', ' '] + type_text(store, *k, scope, sp)
            + seq![')'] + (match *b {
            SType::Forall(_, _, _, _) => binders_text(store, *b, scope.push(Some(n)), sp, false),
            _ => seq!['.', ' '] + type_text(store, *b, scope.push(Some(n)), sp) + seq![')'],
        }),
        _ => Seq::empty(),
    }
}

/// The head of an application and its arguments, separated by spaces.
pub open spec fn spine_text(store: Seq<SHole>, t: SType, scope: Seq<Option<Label>>, sp: Seq<String>) -> Seq<char>
    decreases t, 0nat,
{
    match t {
        SType::Application(f, a) => (match *f {
            SType::Application(_, _) => spine_text(store, *f, scope, sp),
            _ => type_text(store, *f, scope, sp),
        }) + seq![' '] + type_text(store, *a, scope, sp),
        _ => Seq::empty(),
    }
}

/// The types of `s`, separated by `, `.
pub open spec fn join_text(store: Seq<SHole>, s: Seq<SType>, scope: Seq<Option<Label>>, sp: Seq<String>) -> Seq<char>
    decreases s, 0nat,
{
    if s.len() == 0 {
        Seq::empty()
    } else if s.len() == 1 {
        type_text(store, s[0], scope, sp)
    } else {
        join_text(store, s.drop_last(), scope, sp) + seq![',', ' '] + type_text(
            store,
            s.last(),
            scope,
            sp,
        )
    }
}

/// The names of the binders in scope by level, from the names of an environment, which
/// come innermost first.
pub open spec fn scope_of(names: Seq<Option<Symbol>>) -> Seq<Option<Label>> {
    Seq::new(
        names.len(),
        |i: int|
            match names[names.len() - 1 - i] {
                Some(s) => Some(Label::Named(s)),
                None => None,
            },
    )
}

/// An empty hole shows its label as a binder with that label is shown: a named label by
/// the spelling of its symbol (`?` when it has none), a fresh label `n` as `t_` followed
/// by the digits of `n`; and a bound variable whose binder has the hole's label shows the
/// hole's text, `~` and its index.
pub proof fn lemma_hole_text(store: Seq<SHole>, h: usize, scope: Seq<Option<Label>>, sp: Seq<String>, l: usize)
    requires
        h < store.len(),
        store[h as int] is Empty,
    ensures
        ({
            let text = type_text(store, SType::Hole(h), scope, sp);
            match store[h as int]->Empty_0 {
                Label::Named(s) => {
                    &&& s < sp.len() ==> text == sp[s as int]@
                    &&& s >= sp.len() ==> text == seq!['?']
                },
                Label::Fresh(n) => {
                    &&& text.len() >= 3
                    &&& text[0] == 't' && text[1] == '_'
                    &&& forall|i: int| 2 <= i < text.len() ==> is_digit(#[trigger] text[i])
                    &&& digits_value(text.subrange(2, text.len() as int)) == n
                },
            }
        }),
        l < scope.len() && scope[l as int] == Some(store[h as int]->Empty_0) ==> {
            let b = type_text(store, SType::Bound(l), scope, sp);
            let x = type_text(store, SType::Hole(h), scope, sp);
            &&& b.subrange(0, x.len() as int) == x
            &&& b[x.len() as int] == '~'
            &&& digits_value(b.subrange(x.len() as int + 1, b.len() as int)) == scope.len() - 1 - l
        },
{
    let text = type_text(store, SType::Hole(h), scope, sp);
    match store[h as int]->Empty_0 {
        Label::Fresh(n) => {
            lemma_decimal_reads_back(n as nat);
            let d = decimal(n as nat);
            assert(text == seq!['t', '_'] + d);
            assert(text.subrange(2, text.len() as int) =~= d);
            assert forall|i: int| 2 <= i < text.len() implies is_digit(#[trigger] text[i]) by {
                assert(text[i] == d[i - 2]);
            }
        },
        Label::Named(_) => {},
    }
    if l < scope.len() && scope[l as int] == Some(store[h as int]->Empty_0) {
        let index = (scope.len() - 1 - l) as nat;
        lemma_decimal_reads_back(index);
        let b = type_text(store, SType::Bound(l), scope, sp);
        let x = type_text(store, SType::Hole(h), scope, sp);
        assert(x == label_text(store[h as int]->Empty_0, sp));
        assert(b == x + seq!['~'] + decimal(index));
        assert(b.subrange(0, x.len() as int) =~= x);
        assert(b.subrange(x.len() as int + 1, b.len() as int) =~= decimal(index));
    }
}

/// Appends `piece` to `out`.
fn put(out: &mut String, piece: &str)
    ensures
        final(out)@ == old(out)@ + piece@,
{
    out.append(piece);
}

/// Appends the spelling of symbol `s`.
fn put_symbol(out: &mut String, s: Symbol, sp: &Vec<String>)
    ensures
        final(out)@ == old(out)@ + spell(sp@, s),
{
    proof {
        reveal_strlit("?");
    }
    let len = sp.len() as u64;
    if s < len {
        put(out, sp[s as usize].as_str());
    } else {
        put(out, "?");
    }
}

/// Appends the text of a label.
fn put_label(out: &mut String, l: Label, sp: &Vec<String>)
    ensures
        final(out)@ == old(out)@ + label_text(l, sp@),
{
    proof {
        reveal_strlit("t_");
    }
    match l {
        Label::Fresh(n) => {
            put(out, "t_");
            let d = decimal_text(n);
            put(out, d.as_str());
            proof {
                assert(final(out)@ =~= old(out)@ + label_text(l, sp@)) by {}
            }
        },
        Label::Named(s) => {
            put_symbol(out, s, sp);
        },
    }
}

impl Context {
    /// Appends the text of what `t` stands for, with `scope` the names of the binders in
    /// scope by level.
    fn write_type(&self, t: &Type, scope: &mut Vec<Option<Label>>, sp: &Vec<String>, out: &mut String)
        requires
            self.wf(),
            closed(t@, self.size()),
            bounds_within(self.resolve(t@), old(scope)@.len()),
        ensures
            final(out)@ == old(out)@ + type_text(self.store(), self.resolve(t@), old(scope)@, sp@),
            final(scope)@ == old(scope)@,
        decreases size(self.resolve(t@)), 1nat,
    {
        proof {
            reveal_strlit("Type");
            reveal_strlit("Constraint");
            reveal_strlit("<ERROR>");
            reveal_strlit("(");
            reveal_strlit(")");
            reveal_strlit(" -> ");
            reveal_strlit(" => ");
            reveal_strlit("(forall ");
            reveal_strlit("?");
            reveal_strlit("_");
            reveal_strlit("~");
            reveal_strlit(", ");
        }
        let ghost out0 = out@;
        let d = self.deref(t);
        proof {
            lemma_children_closed(d@, self.size());
        }
        match &d {
            Type::Type => {
                put(out, "Type");
            },
            Type::Constraint => {
                put(out, "Constraint");
            },
            Type::Error => {
                put(out, "<ERROR>");
            },
            Type::Arrow(a, b) => {
                proof {
                    assert(self.resolve(d@) == SType::Arrow(
                        Box::new(self.resolve(a@)),
                        Box::new(self.resolve(b@)),
                    ));
                }
                put(out, "(");
                self.write_type(a, scope, sp, out);
                put(out, " -> ");
                self.write_type(b, scope, sp, out);
                put(out, ")");
                proof {
                    assert(out@ =~= out0 + type_text(self.store(), self.resolve(t@), scope@, sp@));
                }
            },
            Type::Qualified(a, b) => {
                proof {
                    assert(self.resolve(d@) == SType::Qualified(
                        Box::new(self.resolve(a@)),
                        Box::new(self.resolve(b@)),
                    ));
                }
                put(out, "(");
                self.write_type(a, scope, sp, out);
                put(out, " => ");
                self.write_type(b, scope, sp, out);
                put(out, ")");
                proof {
                    assert(out@ =~= out0 + type_text(self.store(), self.resolve(t@), scope@, sp@));
                }
            },
            Type::Forall(_, _, _, _) => {
                put(out, "(forall ");
                self.write_binders(&d, scope, sp, out, true);
                proof {
                    assert(out@ =~= out0 + type_text(self.store(), self.resolve(t@), scope@, sp@));
                }
            },
            Type::Application(_, _) => {
                put(out, "(");
                self.write_spine(&d, scope, sp, out);
                put(out, ")");
                proof {
                    assert(out@ =~= out0 + type_text(self.store(), self.resolve(t@), scope@, sp@));
                }
            },
            Type::Hole(h) => {
                proof {
                    assert(mentions(d@, *h));
                    assert(self.cell_ok(*h as int));
                    assert(self.resolve(d@) == SType::Hole(*h));
                    assert(self.holes@[*h as int]@ == self.store()[*h as int]);
                }
                match &self.holes[*h] {
                    HoleInner::Empty(l, _, _) => {
                        put_label(out, *l, sp);
                    },
                    HoleInner::Filled(_) => {
                        put(out, "?");
                    },
                }
            },
            Type::Variable(q) => {
                put_symbol(out, q.name, sp);
            },
            Type::Bound(l) => {
                let index = scope.len() - 1 - *l;
                match scope[*l] {
                    Some(n) => {
                        put_label(out, n, sp);
                    },
                    None => {
                        put(out, "_");
                        let i = decimal_text(index);
                        put(out, i.as_str());
                    },
                }
                put(out, "~");
                let i = decimal_text(index);
                put(out, i.as_str());
                proof {
                    assert(out@ =~= out0 + type_text(self.store(), self.resolve(t@), scope@, sp@));
                }
            },
            Type::Tuple(ts) => {
                let ghost s = d@->Tuple_0;
                let ghost zs = self.resolve(d@)->Tuple_0;
                put(out, "(");
                let mut i: usize = 0;
                while i < ts.len()
                    invariant
                        self.wf(),
                        s.len() == ts@.len(),
                        zs.len() == s.len(),
                        forall|j: int| 0 <= j < ts@.len() ==> s[j] == (#[trigger] ts@[j])@,
                        forall|j: int| 0 <= j < s.len() ==> closed(#[trigger] s[j], self.size()),
                        forall|j: int| 0 <= j < s.len() ==> #[trigger] zs[j] == self.resolve(s[j]),
                        forall|j: int| 0 <= j < zs.len() ==> bounds_within(#[trigger] zs[j], scope@.len()),
                        size(self.resolve(t@)) == 1 + crate::types::size_seq(zs),
                        scope@ == old(scope)@,
                        i <= ts@.len(),
                        out@ == out0 + seq!['('] + join_text(self.store(), zs.take(i as int), scope@, sp@),
                    decreases ts@.len() - i,
                {
                    let ghost before = out@;
                    proof {
                        reveal_strlit(", ");
                        assert(s[i as int] == ts@[i as int]@);
                        lemma_size_seq_elem(zs, i as int);
                    }
                    if i > 0 {
                        put(out, ", ");
                    }
                    let ghost after_sep = out@;
                    proof {
                        if i > 0 {
                            assert(after_sep == before + seq![',', ' ']);
                        } else {
                            assert(after_sep == before);
                        }
                    }
                    self.write_type(&ts[i], scope, sp, out);
                    proof {
                        assert(out@ == after_sep + type_text(self.store(), self.resolve(ts@[i as int]@), scope@, sp@));
                    }
                    proof {
                        let pre = zs.take(i as int);
                        let post = zs.take(i + 1);
                        assert(post.drop_last() =~= pre);
                        assert(post.last() == zs[i as int]);
                        assert(self.resolve(ts@[i as int]@) == zs[i as int]);
                        if i == 0 {
                            assert(post.len() == 1);
                            assert(post[0] == zs[0]);
                            assert(join_text(self.store(), post, scope@, sp@) == type_text(
                                self.store(),
                                zs[0],
                                scope@,
                                sp@,
                            ));
                            assert(before == out0 + seq!['(']) by {
                                assert(pre.len() == 0);
                            }
                        } else {
                            assert(join_text(self.store(), post, scope@, sp@) == join_text(
                                self.store(),
                                pre,
                                scope@,
                                sp@,
                            ) + seq![',', ' '] + type_text(self.store(), zs[i as int], scope@, sp@));
                        }
                        assert(out@ =~= out0 + seq!['('] + join_text(self.store(), post, scope@, sp@));
                    }
                    i = i + 1;
                }
                put(out, ")");
                proof {
                    assert(zs.take(ts@.len() as int) =~= zs);
                    assert(out@ =~= out0 + type_text(self.store(), self.resolve(t@), scope@, sp@));
                }
            },
        }
    }

    /// Appends the binders of the `forall`s in front of `t`, then its body.
    fn write_binders(
        &self,
        t: &Type,
        scope: &mut Vec<Option<Label>>,
        sp: &Vec<String>,
        out: &mut String,
        first: bool,
    )
        requires
            self.wf(),
            closed(t@, self.size()),
            t@ is Forall,
            bounds_within(self.resolve(t@), old(scope)@.len()),
        ensures
            final(out)@ == old(out)@ + binders_text(
                self.store(),
                self.resolve(t@),
                old(scope)@,
                sp@,
                first,
            ),
            final(scope)@ == old(scope)@,
        decreases size(self.resolve(t@)), 0nat,
    {
        proof {
            reveal_strlit(" ");
            reveal_strlit("(");
            reveal_strlit(": ");
            reveal_strlit(")");
            reveal_strlit(". ");
        }
        let ghost out0 = out@;
        let ghost scope0 = scope@;
        match t {
            Type::Forall(n, k, _, b) => {
                proof {
                    lemma_children_closed(t@, self.size());
                    assert(self.resolve(t@) == SType::Forall(
                        *n,
                        Box::new(self.resolve(k@)),
                        t@->Forall_2,
                        Box::new(self.resolve(b@)),
                    ));
                }
                if !first {
                    put(out, " ");
                }
                put(out, "(");
                put_label(out, *n, sp);
                put(out, ": ");
                self.write_type(k, scope, sp, out);
                put(out, ")");
                let ghost mid = out@;
                scope.push(Some(*n));
                let db = self.deref(b);
                proof {
                    lemma_children_closed(db@, self.size());
                }
                if let Type::Forall(_, _, _, _) = &db {
                    self.write_binders(&db, scope, sp, out, false);
                } else {
                    proof {
                        if db@ is Hole {
                            assert(mentions(db@, db@->Hole_0));
                            assert(self.cell_ok(db@->Hole_0 as int));
                        }
                        assert(!(self.resolve(b@) is Forall));
                    }
                    put(out, ". ");
                    self.write_type(b, scope, sp, out);
                    put(out, ")");
                }
                scope.pop();
                proof {
                    assert(scope@ =~= scope0);
                    assert(out@ =~= out0 + binders_text(
                        self.store(),
                        self.resolve(t@),
                        scope0,
                        sp@,
                        first,
                    ));
                }
            },
            _ => {},
        }
    }

    /// Appends the head of the application `t` and its arguments, separated by spaces.
    fn write_spine(&self, t: &Type, scope: &mut Vec<Option<Label>>, sp: &Vec<String>, out: &mut String)
        requires
            self.wf(),
            closed(t@, self.size()),
            t@ is Application,
            bounds_within(self.resolve(t@), old(scope)@.len()),
        ensures
            final(out)@ == old(out)@ + spine_text(self.store(), self.resolve(t@), old(scope)@, sp@),
            final(scope)@ == old(scope)@,
        decreases size(self.resolve(t@)), 0nat,
    {
        proof {
            reveal_strlit(" ");
        }
        let ghost out0 = out@;
        match t {
            Type::Application(f, a) => {
                proof {
                    lemma_children_closed(t@, self.size());
                    assert(self.resolve(t@) == SType::Application(
                        Box::new(self.resolve(f@)),
                        Box::new(self.resolve(a@)),
                    ));
                }
                let df = self.deref(f);
                proof {
                    lemma_children_closed(df@, self.size());
                }
                if let Type::Application(_, _) = &df {
                    self.write_spine(&df, scope, sp, out);
                } else {
                    proof {
                        if df@ is Hole {
                            assert(mentions(df@, df@->Hole_0));
                            assert(self.cell_ok(df@->Hole_0 as int));
                        }
                        assert(!(self.resolve(f@) is Application));
                    }
                    self.write_type(f, scope, sp, out);
                }
                put(out, " ");
                self.write_type(a, scope, sp, out);
                proof {
                    assert(out@ =~= out0 + spine_text(self.store(), self.resolve(t@), scope@, sp@));
                }
            },
            _ => {},
        }
    }
}

impl Type {
    /// The text of what this type stands for in `ctx`, as error messages show it: `names`
    /// are the names of the binders in scope, innermost first, as an environment keeps
    /// them, and `spellings[s]` spells symbol `s`.
    pub fn show(&self, ctx: &Context, names: &Vec<Option<Symbol>>, spellings: &Vec<String>) -> (s: String)
        requires
            ctx.wf(),
            closed(self@, ctx.size()),
            bounds_within(ctx.resolve(self@), names@.len()),
        ensures
            s@ == type_text(ctx.store(), ctx.resolve(self@), scope_of(names@), spellings@),
            ({
                let t = ctx.resolve(self@);
                t is Hole && t->Hole_0 < ctx.size() && ctx.store()[t->Hole_0 as int] is Empty
                    && ctx.store()[t->Hole_0 as int]->Empty_0 is Named
                    && ctx.store()[t->Hole_0 as int]->Empty_0->Named_0 < spellings@.len() ==> s@
                    == spellings@[ctx.store()[t->Hole_0 as int]->Empty_0->Named_0 as int]@
            }),
    {
        proof {
            let t = ctx.resolve(self@);
            if t is Hole && t->Hole_0 < ctx.size() && ctx.store()[t->Hole_0 as int] is Empty {
                lemma_hole_text(ctx.store(), t->Hole_0, scope_of(names@), spellings@, 0);
            }
        }
        let mut scope: Vec<Option<Label>> = Vec::new();
        let mut i: usize = names.len();
        while i > 0
            invariant
                i <= names@.len(),
                scope@.len() == names@.len() - i,
                forall|j: int| 0 <= j < scope@.len() ==> #[trigger] scope@[j] == scope_of(names@)[j],
            decreases i,
        {
            i = i - 1;
            let e = match names[i] {
                Some(n) => Some(Label::Named(n)),
                None => None,
            };
            scope.push(e);
        }
        proof {
            assert(scope@ =~= scope_of(names@));
        }
        let mut out = String::new();
        ctx.write_type(self, &mut scope, spellings, &mut out);
        out
    }
}

} // verus!
