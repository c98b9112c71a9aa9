use vulpi::context::{Context, HoleInner, TypeError, TypeErrorKind};
use vulpi::env::Env;
use vulpi::level::Level;
use vulpi::location::{FileId, Span};
use vulpi::types::{Label, Qualified, Type};

fn var(name: u64) -> Type {
    Type::Variable(Qualified { path: 1, name })
}

fn arrow(a: Type, b: Type) -> Type {
    Type::Arrow(Box::new(a), Box::new(b))
}

fn identity_type() -> Type {
    Type::Forall(
        Label::Named(20),
        Box::new(Type::Type),
        0,
        Box::new(arrow(Type::Bound(0), Type::Bound(0))),
    )
}

fn hole(ctx: &mut Context, level: usize) -> usize {
    ctx.empty_hole(Label::Fresh(0), Type::Type, Level(level))
}

#[test]
fn sub_hole_type_copies_an_arrow() {
    let mut ctx = Context::new();
    let env = Env::new();
    let h = hole(&mut ctx, 0);
    assert_eq!(ctx.sub_hole_type(&env, h, &arrow(var(1), var(2))), Ok(()));
    assert_eq!(ctx.holes[0], HoleInner::Filled(arrow(Type::Hole(1), Type::Hole(2))));
    assert_eq!(ctx.holes[1], HoleInner::Filled(var(1)));
    assert_eq!(ctx.holes[2], HoleInner::Filled(var(2)));
    assert_eq!(ctx.counter, 2);
}

#[test]
fn sub_hole_type_fills_with_anything_else() {
    let mut ctx = Context::new();
    let env = Env::new();
    let h = hole(&mut ctx, 0);
    assert_eq!(ctx.sub_hole_type(&env, h, &Type::Tuple(vec![var(1)])), Ok(()));
    assert_eq!(ctx.holes[0], HoleInner::Filled(Type::Tuple(vec![var(1)])));
    assert_eq!(ctx.holes.len(), 1);
}

#[test]
fn sub_hole_type_opens_a_forall() {
    let mut ctx = Context::new();
    let env = Env::new();
    let h = hole(&mut ctx, 0);
    assert_eq!(ctx.sub_hole_type(&env, h, &identity_type()), Ok(()));
    assert_eq!(ctx.holes[0], HoleInner::Filled(arrow(Type::Hole(1), Type::Hole(2))));
    assert_eq!(ctx.holes[1], HoleInner::Filled(Type::Bound(0)));
    assert_eq!(ctx.holes[2], HoleInner::Filled(Type::Bound(0)));
}

#[test]
fn sub_hole_type_reports_escaping_variables() {
    let mut ctx = Context::new();
    let env = Env::new();
    let h = hole(&mut ctx, 0);
    assert_eq!(ctx.sub_hole_type(&env, h, &Type::Bound(0)), Err(TypeErrorKind::EscapingScope));
    assert!(ctx.is_empty(0));
}

#[test]
fn sub_type_hole_instantiates_a_forall() {
    let mut ctx = Context::new();
    let env = Env::new();
    let h = hole(&mut ctx, 0);
    assert_eq!(ctx.sub_type_hole(&env, &identity_type(), h), Ok(()));
    assert_eq!(ctx.holes[1], HoleInner::Empty(Label::Named(20), Type::Type, Level(0)));
    assert_eq!(ctx.holes[0], HoleInner::Filled(arrow(Type::Hole(2), Type::Hole(3))));
    assert_eq!(ctx.holes[2], HoleInner::Filled(Type::Hole(1)));
    assert_eq!(ctx.holes[3], HoleInner::Filled(Type::Hole(1)));
}

#[test]
fn sub_type_hole_copies_an_arrow() {
    let mut ctx = Context::new();
    let env = Env::new();
    let h = hole(&mut ctx, 0);
    assert_eq!(ctx.sub_type_hole(&env, &arrow(var(3), Type::Error), h), Ok(()));
    assert_eq!(ctx.deref(&Type::Hole(1)), var(3));
    assert_eq!(ctx.deref(&Type::Hole(2)), Type::Error);
}

#[test]
fn subsumes_instantiates_a_polymorphic_left_side() {
    let mut ctx = Context::new();
    let env = Env::new();
    ctx.subsumes(&env, identity_type(), arrow(var(1), var(1)));
    assert!(ctx.errors.is_empty());
    assert_eq!(ctx.deref(&Type::Hole(0)), var(1));
}

#[test]
fn subsumes_reports_a_monomorphic_left_side_against_a_polymorphic_right_side() {
    let mut ctx = Context::new();
    let mut env = Env::new();
    let span = Span::from_usize(FileId(1), 5, 6);
    env.set_current_span(span);
    let left = arrow(var(1), var(1));
    ctx.subsumes(&env, left.clone(), identity_type());
    assert_eq!(
        ctx.errors,
        vec![TypeError { span, kind: TypeErrorKind::TypeMismatch(left, identity_type()) }]
    );
}

#[test]
fn subsumes_fills_holes_the_right_way_round() {
    let mut ctx = Context::new();
    let env = Env::new();
    let a = Type::Hole(hole(&mut ctx, 0));
    let b = Type::Hole(hole(&mut ctx, 0));
    ctx.subsumes(&env, arrow(a.clone(), b.clone()), arrow(var(1), var(2)));
    assert!(ctx.errors.is_empty());
    assert_eq!(ctx.deref(&a), var(1));
    assert_eq!(ctx.deref(&b), var(2));
    assert_eq!(ctx.holes.len(), 2);
}

#[test]
fn subsumes_copies_an_arrow_into_a_hole() {
    let mut ctx = Context::new();
    let env = Env::new();
    let h = Type::Hole(hole(&mut ctx, 0));
    ctx.subsumes(&env, h.clone(), arrow(var(1), var(2)));
    assert!(ctx.errors.is_empty());
    assert_eq!(ctx.deref(&h), arrow(Type::Hole(1), Type::Hole(2)));
    assert_eq!(ctx.deref(&Type::Hole(1)), var(1));
    assert_eq!(ctx.deref(&Type::Hole(2)), var(2));
}

#[test]
fn subsumes_reports_a_mismatch_between_the_given_types() {
    let mut ctx = Context::new();
    let env = Env::new();
    ctx.subsumes(&env, Type::Tuple(vec![var(1)]), Type::Tuple(vec![var(2)]));
    assert_eq!(
        ctx.errors,
        vec![TypeError {
            span: Span::ghost(),
            kind: TypeErrorKind::TypeMismatch(Type::Tuple(vec![var(1)]), Type::Tuple(vec![var(2)])),
        }]
    );
}

#[test]
fn subsumes_with_a_hole_against_a_known_type() {
    let mut ctx = Context::new();
    let env = Env::new();
    let h = Type::Hole(hole(&mut ctx, 0));
    ctx.subsumes(&env, h.clone(), var(9));
    assert!(ctx.errors.is_empty());
    assert_eq!(ctx.deref(&h), var(9));
}

#[test]
fn subsumes_against_a_type_with_bound_variables() {
    let mut ctx = Context::new();
    let env = Env::new().add(Some(30), Type::Type);
    let a = ctx.hole(&env, Type::Type);
    let b = ctx.hole(&env, Type::Type);
    ctx.subsumes(&env, arrow(a.clone(), b.clone()), arrow(Type::Bound(0), Type::Bound(0)));
    assert!(ctx.errors.is_empty());
    assert_eq!(ctx.deref(&a), Type::Bound(0));
    assert_eq!(ctx.deref(&b), Type::Bound(0));
}

#[test]
fn subsumes_reports_an_escaping_variable() {
    let mut ctx = Context::new();
    let env = Env::new();
    let h = Type::Hole(hole(&mut ctx, 0));
    ctx.subsumes(&env, h.clone(), Type::Bound(0));
    assert_eq!(
        ctx.errors,
        vec![TypeError { span: Span::ghost(), kind: TypeErrorKind::EscapingScope }]
    );
    assert!(ctx.is_empty(0));
}

#[test]
fn subsumes_opens_a_polymorphic_right_side_against_holes() {
    let mut ctx = Context::new();
    let env = Env::new();
    let a = Type::Hole(hole(&mut ctx, 1));
    let b = Type::Hole(hole(&mut ctx, 1));
    ctx.subsumes(&env, arrow(a.clone(), b.clone()), identity_type());
    assert!(ctx.errors.is_empty());
    assert_eq!(ctx.deref(&a), Type::Bound(0));
    assert_eq!(ctx.deref(&b), Type::Bound(0));
}

#[test]
fn subsumes_reports_holes_older_than_the_opened_variable() {
    let mut ctx = Context::new();
    let env = Env::new();
    let a = Type::Hole(hole(&mut ctx, 0));
    let b = Type::Hole(hole(&mut ctx, 0));
    ctx.subsumes(&env, arrow(a.clone(), b.clone()), identity_type());
    assert_eq!(
        ctx.errors,
        vec![TypeError { span: Span::ghost(), kind: TypeErrorKind::EscapingScope }]
    );
    assert!(ctx.is_empty(0));
}
