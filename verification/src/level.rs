//! De Bruijn levels and indices. A level counts binders from the outside of a type, an
//! index counts them from the inside.

use vstd::prelude::*;

verus! {

/// The level of a binder, counted from the outermost one.
#[derive(Clone, Copy, Debug, PartialEq, Eq, Structural, PartialOrd, Ord, Hash, Default)]
pub struct Level(pub usize);

/// The index of a binder, counted from the innermost one.
#[derive(Clone, Copy, Debug, PartialEq, Eq, Structural, PartialOrd, Ord, Hash)]
pub struct Index(pub usize);

/// The index that a binder at `current` has under `base` binders.
pub open spec fn spec_index_of(base: nat, current: nat) -> int {
    base - current - 1
}

impl Index {
    pub fn shift(self, level: Level) -> (r: Index)
        requires
            self.0 + level.0 <= usize::MAX,
        ensures
            r.0 == self.0 + level.0,
    {
        Index(self.0 + level.0)
    }
}

impl Level {
    /// The next level.
    pub open spec fn spec_inc(self) -> Level {
        Level((self.0 + 1) as usize)
    }

    /// The previous level.
    pub open spec fn spec_dec(self) -> Level {
        Level((self.0 - 1) as usize)
    }

    /// The index of the binder at `current` under `base` binders.
    pub open spec fn spec_to_index(base: Level, current: Level) -> Index {
        Index((base.0 - current.0 - 1) as usize)
    }

    /// The level of the binder of index `index` under `base` binders.
    pub open spec fn spec_from_index(base: Level, index: Index) -> Level {
        Level((base.0 - index.0 - 1) as usize)
    }

    /// Increments the level.
    #[verifier::when_used_as_spec(spec_inc)]
    pub fn inc(self) -> (r: Level)
        requires
            self.0 < usize::MAX,
        ensures
            r == self.spec_inc(),
            r.0 == self.0 + 1,
    {
        Level(self.0 + 1)
    }

    /// Decrements the level.
    #[verifier::when_used_as_spec(spec_dec)]
    pub fn dec(self) -> (r: Level)
        requires
            self.0 > 0,
        ensures
            r == self.spec_dec(),
            r.0 == self.0 - 1,
    {
        Level(self.0 - 1)
    }

    /// Transforms a level into an index, with `base` binders in scope.
    #[verifier::when_used_as_spec(spec_to_index)]
    pub fn to_index(base: Level, current: Level) -> (r: Index)
        requires
            current.0 < base.0,
        ensures
            r == Level::spec_to_index(base, current),
            r.0 == spec_index_of(base.0 as nat, current.0 as nat),
    {
        Index(base.0 - current.0 - 1)
    }

    /// Transforms an index into a level, with `base` binders in scope.
    #[verifier::when_used_as_spec(spec_from_index)]
    pub fn from_index(base: Level, index: Index) -> (r: Level)
        requires
            index.0 < base.0,
        ensures
            r == Level::spec_from_index(base, index),
            r.0 == base.0 - index.0 - 1,
    {
        Level(base.0 - index.0 - 1)
    }
}

/// Turning a level into an index and back gives the level again.
pub proof fn lemma_level_index_roundtrip(base: Level, current: Level)
    requires
        current.0 < base.0,
    ensures
        Level::to_index(base, current).0 < base.0,
        Level::from_index(base, Level::to_index(base, current)) == current,
{
}

/// Turning an index into a level and back gives the index again.
pub proof fn lemma_index_level_roundtrip(base: Level, index: Index)
    requires
        index.0 < base.0,
    ensures
        Level::from_index(base, index).0 < base.0,
        Level::to_index(base, Level::from_index(base, index)) == index,
{
}

/// Decrementing an incremented level gives the level back.
pub proof fn lemma_inc_dec(l: Level)
    requires
        l.0 < usize::MAX,
    ensures
        l.inc().dec() == l,
{
}

} // verus!
