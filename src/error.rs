use vstd::prelude::*;

verus! {

/// The ways in which building a generator can fail.
#[derive(Clone, Copy, Debug, PartialEq, Eq, Structural)]
pub enum Error {
    /// The success probability is negative, above one, or not a number.
    InvalidProbability,
}

impl Error {
    /// A human-readable description of the error.
    pub fn description(&self) -> (r: &'static str)
        ensures
            r@ == "invalid probability specified"@,
    {
        match self {
            Error::InvalidProbability => "invalid probability specified",
        }
    }
}

} // verus!
