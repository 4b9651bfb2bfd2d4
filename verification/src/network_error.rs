//! Errors of the network layer.

use vstd::prelude::*;

verus! {

#[verifier::external_type_specification]
#[verifier::external_body]
pub struct ExIoError(std::io::Error);

/// A failure of the network layer, carrying the IO error behind it.
pub struct NetworkError(pub std::io::Error);

impl NetworkError {
    pub fn new(error: std::io::Error) -> (r: Self)
        ensures
            r.0 == error,
    {
        NetworkError(error)
    }

    /// The IO error behind it.
    pub fn into_inner(self) -> (r: std::io::Error)
        ensures
            r == self.0,
    {
        self.0
    }
}

} // verus!
