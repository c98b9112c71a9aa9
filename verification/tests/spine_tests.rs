use vulpi::context::Context;
use vulpi::env::Env;
use vulpi::level::Level;
use vulpi::types::{Label, Qualified, Type};

fn var(name: u64) -> Type {
    Type::Variable(Qualified { path: 1, name })
}

fn arrow(a: Type, b: Type) -> Type {
    Type::Arrow(Box::new(a), Box::new(b))
}

fn app(f: Type, a: Type) -> Type {
    Type::Application(Box::new(f), Box::new(a))
}

#[test]
fn application_folds_from_the_left() {
    let t = Type::application(var(0), vec![var(1), var(2)]);
    assert_eq!(t, app(app(var(0), var(1)), var(2)));
    assert_eq!(Type::application(var(0), vec![]), var(0));
}

#[test]
fn application_spine_undoes_application() {
    let t = Type::application(var(0), vec![var(1), var(2), var(3)]);
    assert_eq!(t.application_spine(), (var(0), vec![var(1), var(2), var(3)]));
    assert_eq!(var(5).application_spine(), (var(5), vec![]));
}

#[test]
fn function_folds_from_the_right() {
    let t = Type::function(vec![var(1), var(2)], var(3));
    assert_eq!(t, arrow(var(1), arrow(var(2), var(3))));
    assert_eq!(Type::function(vec![], var(3)), var(3));
}

#[test]
fn arrow_spine_lists_arguments_then_result() {
    let t = Type::function(vec![var(1), var(2)], var(3));
    assert_eq!(t.arrow_spine(), vec![var(1), var(2), var(3)]);
    assert_eq!(var(4).arrow_spine(), vec![var(4)]);
}

#[test]
fn forall_spine_lists_the_leading_binders() {
    let body = arrow(Type::Bound(0), Type::Bound(1));
    let t = Type::Forall(
        Label::Named(10),
        Box::new(Type::Type),
        0,
        Box::new(Type::Forall(Label::Named(11), Box::new(Type::Constraint), 1, Box::new(body.clone()))),
    );
    assert_eq!(
        t.forall_spine(),
        (vec![(Label::Named(10), Type::Type), (Label::Named(11), Type::Constraint)], body)
    );
    assert_eq!(var(2).forall_spine(), (vec![], var(2)));
}

#[test]
fn spines_follow_filled_holes() {
    let mut ctx = Context::new();
    let env = Env::new();
    let h = Type::Hole(ctx.empty_hole(Label::Fresh(0), Type::Type, Level(0)));
    let g = Type::Hole(ctx.empty_hole(Label::Fresh(1), Type::Type, Level(0)));
    assert_eq!(ctx.unify(&env, &h, &app(var(0), var(1))), Ok(()));
    assert_eq!(ctx.application_spine(&app(h.clone(), var(2))), (var(0), vec![var(1), var(2)]));
    assert_eq!(ctx.unify(&env, &g, &arrow(var(5), var(6))), Ok(()));
    assert_eq!(ctx.arrow_spine(&arrow(var(4), g.clone())), vec![var(4), var(5), var(6)]);
    assert_eq!(ctx.arrow_spine(&g), vec![var(5), var(6)]);
}
