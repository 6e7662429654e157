use vstd::prelude::*;

verus! {

/// A witness that `Self` and `T` are the same type, with the conversions both ways.
///
/// The composition bounds of this library state the equality of the inner and
/// outer focus types directly (`Lens<A = Self::B>`), which Verus can read; this
/// trait is kept for code that wants the conversions as functions.
pub trait TyEq<T>: Sized {
    fn rw(self) -> T;

    fn rwi(x: T) -> Self;
}

impl<T> TyEq<T> for T {
    fn rw(self) -> (r: T)
        ensures
            r == self,
    {
        self
    }

    fn rwi(x: T) -> (r: T)
        ensures
            r == x,
    {
        x
    }
}

/// Two optics, one after the other: the first focuses on the whole that the
/// second looks into.
pub struct Compose<A, B>(pub A, pub B);

/// A lens seen as a traversal (one focus, always present).
pub struct Lift<L>(pub L);

} // verus!
