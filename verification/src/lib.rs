//! An in-memory key-value server core speaking the RESP wire protocol:
//! codec, snapshot decoding, string and stream values with expiration,
//! command interpretation, transactions, and replication accounting.
//! The event loop and sockets live outside; the core is pure logic over
//! plain values.

pub mod command;
pub mod db;
pub mod digits;
pub mod error;
pub mod handler;
pub mod parser;
pub mod rdb;
pub mod stream;
pub mod token;

use vstd::prelude::*;

verus! {

/// Character-for-character equality of two texts.
pub fn str_eq(a: &str, b: &str) -> (r: bool)
    ensures
        r == (a@ == b@),
{
    let n = a.unicode_len();
    let m = b.unicode_len();
    if n != m {
        return false;
    }
    let mut i: usize = 0;
    while i < n
        invariant
            i <= n,
            n == a@.len(),
            n == b@.len(),
            forall|j: int| 0 <= j < i ==> a@[j] == b@[j],
        decreases n - i,
    {
        if a.get_char(i) != b.get_char(i) {
            return false;
        }
        i += 1;
    }
    proof {
        assert(a@ =~= b@);
    }
    true
}

} // verus!
