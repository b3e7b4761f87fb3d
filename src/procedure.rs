//! The procedure contract: one remote operation's arguments, bound to the type
//! of its response and to the rule that combines the responses of several
//! backends into one.
use vstd::prelude::*;

verus! {

/// One remote call. Implemented by the users of the library, for each operation.
pub trait Procedure: Sized {
    /// What the call returns.
    type Response;

    /// What combining two responses gives; expected to be associative.
    spec fn combine(a: Self::Response, b: Self::Response) -> Self::Response;

    /// Combines the responses of two backends. Only a dispatcher calls it; a
    /// procedure used point to point may leave it unreachable in practice.
    fn reduce(a: Self::Response, b: Self::Response) -> (r: Self::Response)
        ensures
            r == Self::combine(a, b),
    ;
}

} // verus!
