//! Connection tokens: the integer identifiers that tie a readiness
//! event to a connection. Low numbers are reserved: the listener, the
//! master link, then a small band for replicas; clients start above
//! that band.

use vstd::prelude::*;

verus! {

/// The listening socket's token.
pub const SERVER: usize = 0;

/// The token of the connection to the master, on a replica.
pub const MASTER: usize = 1;

/// The first token handed to a registering replica.
pub const FIRST_REPLICA_TOKEN: usize = 2;

/// The first token handed to an ordinary client.
pub const FIRST_UNIQUE_TOKEN: usize = 20;

/// Hands out client and replica tokens in order.
#[derive(Debug, Clone, PartialEq, Eq, Structural)]
pub struct TokenTrack {
    pub unique_token: usize,
    pub replica_token: usize,
}

impl TokenTrack {
    /// Starts both counters at the bottom of their bands.
    pub fn new() -> (r: Self)
        ensures
            r.unique_token == FIRST_UNIQUE_TOKEN,
            r.replica_token == FIRST_REPLICA_TOKEN,
    {
        Self { unique_token: FIRST_UNIQUE_TOKEN, replica_token: FIRST_REPLICA_TOKEN }
    }

    /// The next client token.
    pub fn next_unique_token(&mut self) -> (r: usize)
        requires
            old(self).unique_token < usize::MAX,
        ensures
            r == old(self).unique_token,
            final(self).unique_token == old(self).unique_token + 1,
            final(self).replica_token == old(self).replica_token,
    {
        let token = self.unique_token;
        self.unique_token = self.unique_token + 1;
        token
    }

    /// The next replica token. The replica band must not be exhausted.
    pub fn next_replica_token(&mut self) -> (r: usize)
        requires
            old(self).replica_token < FIRST_UNIQUE_TOKEN,
        ensures
            r == old(self).replica_token,
            final(self).replica_token == old(self).replica_token + 1,
            final(self).unique_token == old(self).unique_token,
    {
        let token = self.replica_token;
        self.replica_token = self.replica_token + 1;
        token
    }
}

impl Default for TokenTrack {
    /// The same state `new` hands out.
    fn default() -> (r: Self)
        ensures
            r.unique_token == FIRST_UNIQUE_TOKEN,
            r.replica_token == FIRST_REPLICA_TOKEN,
    {
        Self::new()
    }
}

} // verus!
