use vstd::prelude::*;

verus! {

/// What can go wrong while retrieving device information.
#[derive(Clone, Copy, Debug, PartialEq, Eq, Structural)]
pub enum Error {
    /// The platform cannot provide a real bus topology.
    UnsupportedPlatform,
    /// The source of raw device data produced nothing usable.
    CommandError,
    /// Raw device data was present but could not be parsed.
    ParseError,
}

impl Error {
    /// A sentence that describes the error.
    pub fn message(&self) -> (r: &'static str)
        ensures
            *self == Error::UnsupportedPlatform ==> r@ == "this platform is unsupported"@,
            *self == Error::CommandError ==> r@ == "could not retrieve device information"@,
            *self == Error::ParseError ==> r@ == "could not parse device information"@,
    {
        match self {
            Error::UnsupportedPlatform => "this platform is unsupported",
            Error::CommandError => "could not retrieve device information",
            Error::ParseError => "could not parse device information",
        }
    }
}

} // verus!
