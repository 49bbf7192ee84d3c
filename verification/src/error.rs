//! What can go wrong in this library's own work.

use vstd::prelude::*;

verus! {

/// The failures that the library reports to its caller.
#[derive(Debug, Clone, Copy, PartialEq, Eq, Structural)]
pub enum Error {
    /// The data directory or the pool cannot be set up as asked: the
    /// directory was configured before, the pool was handed a wrong number of
    /// partitions, or a partition has no key range left to give out.
    Initialization,
    /// Stored bytes do not have the shape that their reader expects: the
    /// store is corrupt or was written under another schema.
    Decode,
}

impl Error {
    /// A short text for the failure, for messages and logs.
    pub fn describe(&self) -> (r: &'static str)
        ensures
            r@ == (match *self {
                Error::Initialization => "initialization failed"@,
                Error::Decode => "stored bytes could not be decoded"@,
            }),
    {
        match self {
            Error::Initialization => "initialization failed",
            Error::Decode => "stored bytes could not be decoded",
        }
    }
}

} // verus!
