use vulpi::context::{Context, HoleInner, TypeError, TypeErrorKind};
use vulpi::env::Env;
use vulpi::level::Level;
use vulpi::location::{FileId, Span};
use vulpi::types::{Label, Qualified, Type};

fn var(name: u64) -> Type {
    Type::Variable(Qualified { path: 1, name })
}

fn arrow(a: Type, b: Type) -> Type {
    Type::Arrow(Box::new(a), Box::new(b))
}

fn app(f: Type, a: Type) -> Type {
    Type::Application(Box::new(f), Box::new(a))
}

fn hole(ctx: &mut Context, level: usize) -> Type {
    Type::Hole(ctx.empty_hole(Label::Fresh(0), Type::Type, Level(level)))
}

#[test]
fn equal_constants_unify() {
    let mut ctx = Context::new();
    let env = Env::new();
    assert_eq!(ctx.unify(&env, &Type::Type, &Type::Type), Ok(()));
    assert_eq!(ctx.unify(&env, &Type::Constraint, &Type::Constraint), Ok(()));
    assert_eq!(ctx.unify(&env, &var(3), &var(3)), Ok(()));
    assert_eq!(ctx.unify(&env, &Type::Bound(2), &Type::Bound(2)), Ok(()));
    assert!(ctx.errors.is_empty());
}

#[test]
fn different_constants_mismatch() {
    let mut ctx = Context::new();
    let env = Env::new();
    assert_eq!(
        ctx.unify(&env, &Type::Type, &Type::Constraint),
        Err(TypeErrorKind::TypeMismatch(Type::Type, Type::Constraint))
    );
    assert_eq!(
        ctx.unify(&env, &var(3), &var(4)),
        Err(TypeErrorKind::TypeMismatch(var(3), var(4)))
    );
    assert_eq!(
        ctx.unify(&env, &Type::Bound(1), &Type::Bound(2)),
        Err(TypeErrorKind::TypeMismatch(Type::Bound(1), Type::Bound(2)))
    );
}

#[test]
fn arrows_are_not_unified_part_by_part() {
    let mut ctx = Context::new();
    let env = Env::new();
    let t = arrow(Type::Type, Type::Type);
    assert_eq!(
        ctx.unify(&env, &t, &t),
        Err(TypeErrorKind::TypeMismatch(t.clone(), t.clone()))
    );
}

#[test]
fn error_unifies_with_anything() {
    let mut ctx = Context::new();
    let env = Env::new();
    assert_eq!(ctx.unify(&env, &Type::Error, &arrow(Type::Type, var(1))), Ok(()));
    assert_eq!(ctx.unify(&env, &Type::Tuple(vec![]), &Type::Error), Ok(()));
}

#[test]
fn a_hole_is_filled_with_the_other_side() {
    let mut ctx = Context::new();
    let env = Env::new();
    let h = hole(&mut ctx, 0);
    assert_eq!(ctx.unify(&env, &h, &var(8)), Ok(()));
    assert_eq!(ctx.holes[0], HoleInner::Filled(var(8)));
    assert_eq!(ctx.deref(&h), var(8));
    let g = hole(&mut ctx, 0);
    assert_eq!(ctx.unify(&env, &Type::Constraint, &g), Ok(()));
    assert_eq!(ctx.deref(&g), Type::Constraint);
}

#[test]
fn a_filled_hole_is_unified_through_its_content() {
    let mut ctx = Context::new();
    let env = Env::new();
    let h = hole(&mut ctx, 0);
    assert_eq!(ctx.unify(&env, &h, &var(8)), Ok(()));
    assert_eq!(ctx.unify(&env, &h, &var(8)), Ok(()));
    assert_eq!(
        ctx.unify(&env, &h, &var(9)),
        Err(TypeErrorKind::TypeMismatch(h.clone(), var(9)))
    );
}

#[test]
fn a_hole_unifies_with_itself_without_being_filled() {
    let mut ctx = Context::new();
    let env = Env::new();
    let h = hole(&mut ctx, 0);
    assert_eq!(ctx.unify(&env, &h, &h), Ok(()));
    assert!(ctx.is_empty(0));
}

#[test]
fn two_holes_are_linked() {
    let mut ctx = Context::new();
    let env = Env::new();
    let a = hole(&mut ctx, 0);
    let b = hole(&mut ctx, 0);
    assert_eq!(ctx.unify(&env, &a, &b), Ok(()));
    assert_eq!(ctx.unify(&env, &b, &Type::Type), Ok(()));
    assert_eq!(ctx.deref(&a), Type::Type);
}

#[test]
fn a_hole_cannot_contain_itself() {
    let mut ctx = Context::new();
    let env = Env::new();
    let h = hole(&mut ctx, 0);
    let bigger = Type::Tuple(vec![Type::Type, app(var(1), h.clone())]);
    assert_eq!(ctx.unify(&env, &h, &bigger), Err(TypeErrorKind::InfiniteType));
    assert!(ctx.is_empty(0));
}

#[test]
fn a_hole_cannot_see_bound_variables_made_after_it() {
    let mut ctx = Context::new();
    let env = Env::new();
    let h = hole(&mut ctx, 1);
    assert_eq!(ctx.unify(&env, &h, &Type::Bound(1)), Err(TypeErrorKind::EscapingScope));
    assert_eq!(ctx.unify(&env, &h, &arrow(Type::Bound(3), Type::Type)), Err(TypeErrorKind::EscapingScope));
    assert_eq!(ctx.unify(&env, &h, &Type::Bound(0)), Ok(()));
    assert_eq!(ctx.deref(&h), Type::Bound(0));
}

#[test]
fn tuples_unify_element_by_element() {
    let mut ctx = Context::new();
    let env = Env::new();
    let a = hole(&mut ctx, 0);
    let b = hole(&mut ctx, 0);
    let left = Type::Tuple(vec![a.clone(), Type::Type]);
    let right = Type::Tuple(vec![Type::Constraint, b.clone()]);
    assert_eq!(ctx.unify(&env, &left, &right), Ok(()));
    assert_eq!(ctx.deref(&a), Type::Constraint);
    assert_eq!(ctx.deref(&b), Type::Type);
}

#[test]
fn tuples_of_different_lengths_mismatch() {
    let mut ctx = Context::new();
    let env = Env::new();
    let left = Type::Tuple(vec![Type::Type]);
    let right = Type::Tuple(vec![Type::Type, Type::Type]);
    assert_eq!(
        ctx.unify(&env, &left, &right),
        Err(TypeErrorKind::TypeMismatch(left.clone(), right.clone()))
    );
}

#[test]
fn applications_unify_part_by_part() {
    let mut ctx = Context::new();
    let env = Env::new();
    let a = hole(&mut ctx, 0);
    let left = app(var(1), a.clone());
    let right = app(var(1), var(2));
    assert_eq!(ctx.unify(&env, &left, &right), Ok(()));
    assert_eq!(ctx.deref(&a), var(2));
    assert_eq!(
        ctx.unify(&env, &app(var(1), var(2)), &app(var(3), var(2))),
        Err(TypeErrorKind::TypeMismatch(var(1), var(3)))
    );
}

#[test]
fn qualified_types_unify_part_by_part() {
    let mut ctx = Context::new();
    let env = Env::new();
    let q = Type::Qualified(Box::new(var(1)), Box::new(var(2)));
    assert_eq!(ctx.unify(&env, &q, &q), Ok(()));
    let other = Type::Qualified(Box::new(var(1)), Box::new(var(5)));
    assert_eq!(
        ctx.unify(&env, &q, &other),
        Err(TypeErrorKind::TypeMismatch(var(2), var(5)))
    );
}

#[test]
fn overlaps_tells_whether_unification_succeeds() {
    let mut ctx = Context::new();
    let env = Env::new();
    let h = hole(&mut ctx, 0);
    assert!(ctx.overlaps(&env, &h, &var(4)));
    assert!(ctx.overlaps(&env, &h, &var(4)));
    assert!(!ctx.overlaps(&env, &h, &var(5)));
    assert!(!ctx.overlaps(&env, &Type::Type, &Type::Constraint));
}

#[test]
fn occurs_finds_the_hole_and_escaping_variables() {
    let mut ctx = Context::new();
    let env = Env::new();
    let h = hole(&mut ctx, 0);
    let inside = Type::Tuple(vec![arrow(Type::Type, h.clone())]);
    assert_eq!(ctx.occurs(&env, Level(0), 0, &inside), Err(TypeErrorKind::InfiniteType));
    assert_eq!(ctx.occurs(&env, Level(2), 0, &Type::Bound(2)), Err(TypeErrorKind::EscapingScope));
    assert_eq!(ctx.occurs(&env, Level(2), 0, &Type::Bound(1)), Ok(()));
    assert_eq!(ctx.occurs(&env, Level(0), 0, &var(1)), Ok(()));
}

#[test]
fn report_records_the_error_at_the_current_place() {
    let mut ctx = Context::new();
    let mut env = Env::new();
    let span = Span::from_usize(FileId(3), 10, 20);
    env.set_current_span(span);
    ctx.report(&env, TypeErrorKind::InfiniteType);
    assert_eq!(ctx.errors, vec![TypeError { span, kind: TypeErrorKind::InfiniteType }]);
}

#[test]
fn occurs_looks_into_qualified_types_and_kinds() {
    let mut ctx = Context::new();
    let env = Env::new();
    let h = hole(&mut ctx, 0);
    let qualified = Type::Qualified(Box::new(h.clone()), Box::new(Type::Type));
    assert_eq!(ctx.occurs(&env, Level(0), 0, &qualified), Err(TypeErrorKind::InfiniteType));
    let kinded = Type::Forall(Label::Named(3), Box::new(h.clone()), 0, Box::new(var(1)));
    assert_eq!(ctx.occurs(&env, Level(0), 0, &kinded), Err(TypeErrorKind::InfiniteType));
}

#[test]
fn holes_inside_qualified_types_unify() {
    let mut ctx = Context::new();
    let env = Env::new();
    let h = hole(&mut ctx, 0);
    let left = Type::Qualified(Box::new(h.clone()), Box::new(var(1)));
    let right = Type::Qualified(Box::new(var(2)), Box::new(var(1)));
    assert_eq!(ctx.unify(&env, &left, &right), Ok(()));
    assert_eq!(ctx.deref(&h), var(2));
    let g = hole(&mut ctx, 0);
    let cyclic = Type::Qualified(Box::new(g.clone()), Box::new(var(1)));
    assert_eq!(ctx.unify(&env, &g, &cyclic), Err(TypeErrorKind::InfiniteType));
    assert!(ctx.is_empty(1));
}
