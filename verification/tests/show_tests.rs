use vulpi::context::Context;
use vulpi::level::Level;
use vulpi::types::{Label, Qualified, Type};

fn var(name: u64) -> Type {
    Type::Variable(Qualified { path: 7, name })
}

fn arrow(a: Type, b: Type) -> Type {
    Type::Arrow(Box::new(a), Box::new(b))
}

fn app(f: Type, a: Type) -> Type {
    Type::Application(Box::new(f), Box::new(a))
}

fn spellings() -> Vec<String> {
    vec!["a".to_string(), "Int".to_string(), "Bool".to_string()]
}

#[test]
fn show_writes_arrows_and_names() {
    let ctx = Context::new();
    assert_eq!(arrow(var(1), var(2)).show(&ctx, &vec![], &spellings()), "(Int -> Bool)");
    assert_eq!(
        Type::Qualified(Box::new(var(1)), Box::new(Type::Constraint)).show(&ctx, &vec![], &spellings()),
        "(Int => Constraint)"
    );
    assert_eq!(var(9).show(&ctx, &vec![], &spellings()), "?");
}

#[test]
fn show_groups_the_binders_of_leading_foralls() {
    let ctx = Context::new();
    let t = Type::Forall(
        Label::Named(0),
        Box::new(Type::Type),
        0,
        Box::new(Type::Forall(
            Label::Fresh(3),
            Box::new(Type::Type),
            1,
            Box::new(arrow(Type::Bound(0), Type::Bound(1))),
        )),
    );
    assert_eq!(
        t.show(&ctx, &vec![], &spellings()),
        "(forall (a: Type) (t_3: Type). (a~1 -> t_3~0))"
    );
}

#[test]
fn show_names_bound_variables_from_the_environment() {
    let ctx = Context::new();
    let names = vec![Some(2), None];
    assert_eq!(
        Type::Tuple(vec![Type::Bound(0), Type::Bound(1)]).show(&ctx, &names, &spellings()),
        "(_1~1, Bool~0)"
    );
}

#[test]
fn show_follows_holes_and_spreads_applications() {
    let mut ctx = Context::new();
    let h = ctx.empty_hole(Label::Fresh(0), Type::Type, Level(0));
    let g = ctx.empty_hole(Label::Fresh(1), Type::Type, Level(0));
    ctx.fill(g, var(2));
    let t = Type::Tuple(vec![app(app(var(1), Type::Hole(g)), Type::Hole(h)), Type::Error]);
    assert_eq!(t.show(&ctx, &vec![], &spellings()), "((Int Bool t_0), <ERROR>)");
}
