use vulpi::context::{Context, HoleInner};
use vulpi::env::Env;
use vulpi::level::Level;
use vulpi::location::{FileId, Span};
use vulpi::types::{Label, Type};

#[test]
fn new_env_is_empty_at_level_zero() {
    let env = Env::new();
    assert_eq!(env.level, Level(0));
    assert_eq!(env.span, Span::ghost());
    assert_eq!(env.find(&1), None);
}

#[test]
fn add_binds_a_bound_variable_in_front() {
    let env = Env::new();
    let one = env.add(Some(10), Type::Type);
    assert_eq!(one.level, Level(1));
    assert_eq!(one.find(&10), Some((0, Type::Bound(0), Type::Type)));
    let two = one.add(Some(11), Type::Constraint);
    assert_eq!(two.level, Level(2));
    assert_eq!(two.find(&11), Some((0, Type::Bound(1), Type::Constraint)));
    assert_eq!(two.find(&10), Some((1, Type::Bound(0), Type::Type)));
    assert_eq!(env.find(&10), None);
}

#[test]
fn the_innermost_name_wins() {
    let env = Env::new().add(Some(5), Type::Type).add(Some(5), Type::Constraint);
    assert_eq!(env.find(&5), Some((0, Type::Bound(1), Type::Constraint)));
}

#[test]
fn unnamed_variables_are_not_found() {
    let env = Env::new().add(None, Type::Type).add(Some(3), Type::Type);
    assert_eq!(env.find(&3), Some((0, Type::Bound(1), Type::Type)));
    assert_eq!(env.find(&0), None);
}

#[test]
fn add_at_end_binds_behind_the_others() {
    let env = Env::new().add(Some(1), Type::Type).add_at_end(Some(2), Type::Constraint);
    assert_eq!(env.level, Level(2));
    assert_eq!(env.find(&1), Some((0, Type::Bound(0), Type::Type)));
    assert_eq!(env.find(&2), Some((1, Type::Bound(1), Type::Constraint)));
}

#[test]
fn define_binds_a_value() {
    let env = Env::new().define(Some(4), Type::Error, Type::Type);
    assert_eq!(env.level, Level(1));
    assert_eq!(env.find(&4), Some((0, Type::Error, Type::Type)));
}

#[test]
fn duplicate_and_span() {
    let mut env = Env::new().add(Some(1), Type::Type);
    env.add_var(7, Type::Constraint);
    let span = Span::from_usize(FileId(1), 2, 3);
    env.set_current_span(span);
    let copy = env.duplicate();
    assert_eq!(copy.span, span);
    assert_eq!(copy.level, Level(1));
    assert_eq!(copy.find(&1), Some((0, Type::Bound(0), Type::Type)));
}

#[test]
fn env_hole_is_made_at_the_level_of_the_env() {
    let mut ctx = Context::new();
    let env = Env::new().add(Some(1), Type::Type).add(Some(2), Type::Type);
    let h = env.hole(&mut ctx, Type::Constraint, Label::Named(9));
    assert_eq!(h, Type::Hole(0));
    assert_eq!(ctx.holes[0], HoleInner::Empty(Label::Named(9), Type::Constraint, Level(2)));
}
