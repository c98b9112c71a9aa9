use vulpi::context::{Context, HoleInner};
use vulpi::env::Env;
use vulpi::types::{Label, Qualified, Type};

fn var(name: u64) -> Type {
    Type::Variable(Qualified { path: 1, name })
}

fn arrow(a: Type, b: Type) -> Type {
    Type::Arrow(Box::new(a), Box::new(b))
}

#[test]
fn generalize_binds_holes_in_the_order_they_are_met() {
    let mut ctx = Context::new();
    let env = Env::new();
    let a = ctx.hole(&env, Type::Type);
    let b = ctx.hole(&env, Type::Constraint);
    let ty = arrow(a.clone(), arrow(b.clone(), a.clone()));
    let r = ctx.generalize(&env, &ty);
    assert_eq!(
        r,
        Type::Forall(
            Label::Fresh(1),
            Box::new(Type::Constraint),
            0,
            Box::new(Type::Forall(Label::Fresh(0), Box::new(Type::Type), 1, Box::new(ty.clone()))),
        )
    );
    assert_eq!(ctx.holes[0], HoleInner::Filled(Type::Bound(1)));
    assert_eq!(ctx.holes[1], HoleInner::Filled(Type::Bound(0)));
    assert_eq!(ctx.deref(&a), Type::Bound(1));
    assert_eq!(ctx.deref(&b), Type::Bound(0));
    assert!(ctx.errors.is_empty());
}

#[test]
fn generalize_leaves_a_type_without_holes_alone() {
    let mut ctx = Context::new();
    let env = Env::new();
    let ty = arrow(var(1), var(2));
    assert_eq!(ctx.generalize(&env, &ty), ty);
    assert!(ctx.holes.is_empty());
}

#[test]
fn generalize_follows_filled_holes_and_starts_at_the_level_of_the_environment() {
    let mut ctx = Context::new();
    let env = Env::new().add(Some(7), Type::Type);
    let a = ctx.hole(&env, Type::Type);
    let c = ctx.hole(&env, Type::Type);
    if let Type::Hole(n) = c {
        ctx.fill(n, Type::Tuple(vec![var(3), a.clone()]));
    }
    let r = ctx.generalize(&env, &c);
    assert_eq!(
        r,
        Type::Forall(Label::Fresh(0), Box::new(Type::Type), 1, Box::new(c.clone()))
    );
    assert_eq!(ctx.deref(&a), Type::Bound(1));
    assert_eq!(ctx.holes[1], HoleInner::Filled(Type::Tuple(vec![var(3), a.clone()])));
}
