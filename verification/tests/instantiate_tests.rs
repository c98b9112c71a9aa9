use vulpi::context::{Context, HoleInner};
use vulpi::env::Env;
use vulpi::level::Level;
use vulpi::types::{Label, Qualified, Type};

fn var(name: u64) -> Type {
    Type::Variable(Qualified { path: 1, name })
}

fn arrow(a: Type, b: Type) -> Type {
    Type::Arrow(Box::new(a), Box::new(b))
}

fn identity_type() -> Type {
    Type::Forall(
        Label::Named(20),
        Box::new(Type::Type),
        0,
        Box::new(arrow(Type::Bound(0), Type::Bound(0))),
    )
}

#[test]
fn context_hole_is_fresh_and_named() {
    let mut ctx = Context::new();
    let env = Env::new().add(Some(1), Type::Type);
    assert_eq!(ctx.hole(&env, Type::Constraint), Type::Hole(0));
    assert_eq!(ctx.hole(&env, Type::Type), Type::Hole(1));
    assert_eq!(ctx.counter, 2);
    assert_eq!(ctx.holes[0], HoleInner::Empty(Label::Fresh(0), Type::Constraint, Level(1)));
    assert_eq!(ctx.holes[1], HoleInner::Empty(Label::Fresh(1), Type::Type, Level(1)));
}

#[test]
fn instantiate_replaces_the_binder_with_a_hole() {
    let mut ctx = Context::new();
    let env = Env::new();
    let t = ctx.instantiate(&env, &identity_type());
    assert_eq!(t, arrow(Type::Hole(0), Type::Hole(0)));
    assert_eq!(ctx.holes[0], HoleInner::Empty(Label::Named(20), Type::Type, Level(0)));
    assert_eq!(ctx.counter, 0);
}

#[test]
fn instantiate_leaves_other_types_alone() {
    let mut ctx = Context::new();
    let env = Env::new();
    assert_eq!(ctx.instantiate(&env, &var(3)), var(3));
    assert!(ctx.holes.is_empty());
}

#[test]
fn as_function_of_an_arrow_gives_its_parts() {
    let mut ctx = Context::new();
    let env = Env::new();
    assert_eq!(ctx.as_function(&env, arrow(var(1), var(2))), Some((var(1), var(2))));
}

#[test]
fn as_function_of_an_error_gives_errors() {
    let mut ctx = Context::new();
    let env = Env::new();
    assert_eq!(ctx.as_function(&env, Type::Error), Some((Type::Error, Type::Error)));
}

#[test]
fn as_function_of_a_hole_fills_it_with_an_arrow() {
    let mut ctx = Context::new();
    let env = Env::new();
    let h = ctx.hole(&env, Type::Type);
    let parts = ctx.as_function(&env, h.clone());
    assert_eq!(parts, Some((Type::Hole(1), Type::Hole(2))));
    assert_eq!(ctx.holes[0], HoleInner::Filled(arrow(Type::Hole(1), Type::Hole(2))));
    assert_eq!(ctx.deref(&h), arrow(Type::Hole(1), Type::Hole(2)));
}

#[test]
fn as_function_instantiates_first() {
    let mut ctx = Context::new();
    let env = Env::new();
    assert_eq!(
        ctx.as_function(&env, identity_type()),
        Some((Type::Hole(0), Type::Hole(0)))
    );
}

#[test]
fn as_function_of_a_polymorphic_variable_fills_the_new_hole() {
    let mut ctx = Context::new();
    let env = Env::new();
    let any = Type::Forall(Label::Named(21), Box::new(Type::Type), 0, Box::new(Type::Bound(0)));
    assert_eq!(ctx.as_function(&env, any), Some((Type::Hole(1), Type::Hole(2))));
    assert_eq!(ctx.holes[0], HoleInner::Filled(arrow(Type::Hole(1), Type::Hole(2))));
}

#[test]
fn as_function_of_something_else_is_nothing() {
    let mut ctx = Context::new();
    let env = Env::new();
    assert_eq!(ctx.as_function(&env, var(5)), None);
    assert_eq!(ctx.as_function(&env, Type::Tuple(vec![])), None);
    let wrapped = Type::Forall(Label::Named(22), Box::new(Type::Type), 0, Box::new(Type::Tuple(vec![Type::Bound(0)])));
    assert_eq!(ctx.as_function(&env, wrapped), None);
    assert!(ctx.errors.is_empty());
}

#[test]
fn instantiate_opens_every_leading_forall() {
    let mut ctx = Context::new();
    let env = Env::new();
    let t = Type::Forall(
        Label::Named(30),
        Box::new(Type::Type),
        0,
        Box::new(Type::Forall(
            Label::Named(31),
            Box::new(Type::Constraint),
            1,
            Box::new(arrow(Type::Bound(0), Type::Bound(1))),
        )),
    );
    assert_eq!(ctx.instantiate(&env, &t), arrow(Type::Hole(0), Type::Hole(1)));
    assert_eq!(ctx.holes[0], HoleInner::Empty(Label::Named(30), Type::Type, Level(0)));
    assert_eq!(ctx.holes[1], HoleInner::Empty(Label::Named(31), Type::Constraint, Level(0)));
    assert_eq!(ctx.counter, 0);
}
