//! The two variable-naming disciplines used by the normalizer.
//!
//! An `Index` counts binders from the use site inward (0 = innermost
//! enclosing binder); a `Level` counts binders from the outermost binder
//! (0 = outermost) and therefore stays stable as quoting descends under
//! further binders.

use vstd::prelude::*;

verus! {

/// De Bruijn index: distance from a variable occurrence to its binder,
/// counting inward (0 = the innermost enclosing lambda).
#[derive(Clone, Copy, PartialEq, Eq, Structural, Debug)]
pub struct Index(pub usize);

/// De Bruijn level: position of a binder counted from the outermost
/// binder at evaluation time (0 = outermost).
#[derive(Clone, Copy, PartialEq, Eq, Structural, Debug)]
pub struct Level(pub usize);

impl Index {
    /// The raw numeric value of the index.
    pub fn to_int(self) -> (r: usize)
        ensures
            r == self.0,
    {
        let Index(result) = self;
        result
    }
}

impl Level {
    /// The raw numeric value of the level.
    pub fn to_int(self) -> (r: usize)
        ensures
            r == self.0,
    {
        let Level(result) = self;
        result
    }

    /// Convert an absolute level into an index relative to `base_level`,
    /// the level in scope at the point of use: `index = base - level - 1`.
    /// The level being converted must have been introduced strictly below
    /// the current depth.
    pub fn to_index(self, base_level: Level) -> (r: Index)
        requires
            self.0 < base_level.0,
        ensures
            r.0 == base_level.0 - self.0 - 1,
    {
        Index(base_level.to_int() - self.to_int() - 1)
    }

    /// The next deeper level; used when quoting descends under one binder.
    pub fn next(self) -> (r: Level)
        requires
            self.0 < usize::MAX,
        ensures
            r.0 == self.0 + 1,
    {
        Level(self.0 + 1)
    }
}

} // verus!
