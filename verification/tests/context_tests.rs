use vulpi::context::{Context, HoleInner};
use vulpi::level::Level;
use vulpi::types::{Label, Type};

#[test]
fn new_context_is_empty() {
    let ctx = Context::new();
    assert_eq!(ctx.counter, 0);
    assert!(ctx.errors.is_empty());
    assert!(ctx.holes.is_empty());
}

#[test]
fn names_are_fresh() {
    let mut ctx = Context::new();
    assert_eq!(ctx.new_name(), Label::Fresh(0));
    assert_eq!(ctx.new_name(), Label::Fresh(1));
    assert_eq!(ctx.inc_counter(), 2);
    assert_eq!(ctx.counter, 3);
}

#[test]
fn empty_holes_are_numbered_in_order() {
    let mut ctx = Context::new();
    let a = ctx.empty_hole(Label::Named(5), Type::Type, Level(0));
    let b = ctx.empty_hole(Label::Fresh(0), Type::Constraint, Level(2));
    assert_eq!(a, 0);
    assert_eq!(b, 1);
    assert!(ctx.is_empty(0));
    assert!(ctx.is_empty(1));
    assert_eq!(ctx.holes[1], HoleInner::Empty(Label::Fresh(0), Type::Constraint, Level(2)));
}

#[test]
fn deref_of_an_empty_hole_is_the_hole() {
    let mut ctx = Context::new();
    let h = ctx.empty_hole(Label::Fresh(0), Type::Type, Level(0));
    assert_eq!(ctx.deref(&Type::Hole(h)), Type::Hole(h));
    assert_eq!(ctx.deref(&Type::Error), Type::Error);
}
