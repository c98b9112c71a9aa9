use vulpi::level::{Index, Level};

#[test]
fn shift_adds_the_level() {
    assert_eq!(Index(2).shift(Level(3)), Index(5));
    assert_eq!(Index(0).shift(Level(0)), Index(0));
}

#[test]
fn inc_and_dec_move_by_one() {
    assert_eq!(Level(4).inc(), Level(5));
    assert_eq!(Level(4).dec(), Level(3));
    assert_eq!(Level(9).inc().dec(), Level(9));
}

#[test]
fn level_to_index_counts_from_the_innermost() {
    assert_eq!(Level::to_index(Level(5), Level(2)), Index(2));
    assert_eq!(Level::to_index(Level(5), Level(4)), Index(0));
    assert_eq!(Level::to_index(Level(1), Level(0)), Index(0));
}

#[test]
fn index_to_level_counts_from_the_outermost() {
    assert_eq!(Level::from_index(Level(5), Index(2)), Level(2));
    assert_eq!(Level::from_index(Level(5), Index(0)), Level(4));
}

#[test]
fn level_and_index_round_trip() {
    for current in 0..6usize {
        let index = Level::to_index(Level(6), Level(current));
        assert_eq!(Level::from_index(Level(6), index), Level(current));
    }
    for index in 0..6usize {
        let level = Level::from_index(Level(6), Index(index));
        assert_eq!(Level::to_index(Level(6), level), Index(index));
    }
}
