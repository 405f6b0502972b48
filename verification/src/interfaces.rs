//! The runtime capability interfaces describing the relationship between a
//! whole record and one of its partitions. The generator only emits the
//! types these would operate over; implementing them is the caller's
//! business.

use vstd::prelude::*;

verus! {

/// A whole that can be split into the projection `Sub` and its complement.
pub trait Project<Sub> where Self: Sized {
    type Complement;

    /// The decomposition the implementation realises: the projection and
    /// the complement of this whole.
    spec fn decomposition(self) -> (Sub, Self::Complement);

    /// Splits the whole into the projection and the complement.
    fn deconstruct(self) -> (r: (Sub, Self::Complement))
        ensures
            r == self.decomposition(),
    ;

    /// The projection alone.
    fn proj(self) -> (r: Sub)
        ensures
            r == self.decomposition().0,
    {
        self.deconstruct().0
    }

    /// The complement alone.
    fn coproj(self) -> (r: Self::Complement)
        ensures
            r == self.decomposition().1,
    {
        self.deconstruct().1
    }
}

/// A projection that can be rejoined with its complement into the whole.
pub trait Immerse<Ambient> where Self: Sized {
    type Complement;

    /// Rebuilds the whole from the projection and its complement.
    fn reconstruct(self, complement: Self::Complement) -> Ambient;
}

} // verus!
