//! What actors perceive.

use vstd::prelude::*;

verus! {

/// A kind of stimulus, such as a sound or pain.
///
/// The host's percept types implement this.
pub trait Percept: Sized {
    /// What comparing two percepts answers; `None` where the type cannot tell.
    /// A type whose methods are to be proved says what that is; for others it is
    /// some function of the two, of which nothing is known.
    open spec fn comparison(&self, other: &Self) -> Option<bool> {
        arbitrary::<spec_fn(Self, Self) -> Option<bool>>()(*self, *other)
    }

    /// Compares two percepts.
    fn reflect_partial_eq(&self, other: &Self) -> (answer: Option<bool>)
        ensures
            answer == self.comparison(other),
    ;

    /// A copy of the percept.
    fn duplicate(&self) -> (copy: Self)
        ensures
            copy == *self,
    ;
}

/// Percepts that the host tells apart by number.
impl Percept for u32 {
    open spec fn comparison(&self, other: &u32) -> Option<bool> {
        Some(*self == *other)
    }

    fn reflect_partial_eq(&self, other: &u32) -> (answer: Option<bool>) {
        Some(*self == *other)
    }

    fn duplicate(&self) -> (copy: u32) {
        *self
    }
}

/// Something that acts and perceives, by the number the host knows it under.
#[derive(Clone, Copy, Debug, PartialEq, Eq, Hash, Structural)]
pub struct Entity {
    pub bits: u64,
}

} // verus!
