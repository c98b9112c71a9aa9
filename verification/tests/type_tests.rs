use vulpi::types::{apply, apply_local, Label, Qualified, Type};

fn var(name: u64) -> Type {
    Type::Variable(Qualified { path: 1, name })
}

fn arrow(a: Type, b: Type) -> Type {
    Type::Arrow(Box::new(a), Box::new(b))
}

#[test]
fn clone_is_a_deep_copy() {
    let t = Type::Tuple(vec![var(1), arrow(Type::Hole(3), Type::Bound(0)), Type::Error]);
    assert_eq!(t.clone(), t);
}

#[test]
fn substitute_bound_replaces_every_occurrence() {
    let body = arrow(Type::Bound(0), Type::Tuple(vec![Type::Bound(0), Type::Bound(1)]));
    let r = body.substitute_bound(0, &var(7));
    assert_eq!(r, arrow(var(7), Type::Tuple(vec![var(7), Type::Bound(1)])));
}

#[test]
fn substitute_bound_goes_inside_foralls_and_keeps_holes() {
    let body = Type::Forall(
        Label::Named(9),
        Box::new(Type::Bound(0)),
        1,
        Box::new(Type::Application(Box::new(Type::Bound(0)), Box::new(Type::Hole(2)))),
    );
    let r = body.substitute_bound(0, &Type::Type);
    assert_eq!(
        r,
        Type::Forall(
            Label::Named(9),
            Box::new(Type::Type),
            1,
            Box::new(Type::Application(Box::new(Type::Type), Box::new(Type::Hole(2)))),
        )
    );
}

#[test]
fn apply_gives_the_bound_variable_a_value() {
    let body = arrow(Type::Bound(3), Type::Bound(3));
    assert_eq!(apply(3, &body, &Type::Constraint), arrow(Type::Constraint, Type::Constraint));
}

#[test]
fn apply_local_keeps_the_bound_variable() {
    let body = Type::Qualified(Box::new(Type::Bound(2)), Box::new(var(4)));
    assert_eq!(apply_local(2, &body), body);
}
