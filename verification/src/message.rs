use vstd::prelude::*;

verus! {

/// An error the server reports to a client.
#[derive(Debug)]
pub enum Error {
    /// This error means the client has to wait for x seconds before it can create a game
    GameStartTimer(u64),
    Other(&'static str),
}

impl Error {
    /// An error described by `v`.
    pub fn other(v: &'static str) -> (e: Error)
        ensures
            e == Error::Other(v),
    {
        Error::Other(v)
    }
}

} // verus!
