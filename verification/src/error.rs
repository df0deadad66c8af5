//! The library's error type.

use vstd::prelude::*;

use crate::command::RedisCommand;
use crate::parser::RedisValue;

verus! {

/// Everything that can go wrong inside the core: malformed frames,
/// malformed commands, type mismatches, bad stream ids, and snapshot
/// decoding failures.
#[derive(Debug, Clone)]
pub enum Error {
    EmptyCommand,
    InvalidRedisValue(RedisValue),
    InvalidRedisCommand(RedisCommand),
    CantConvertToString(RedisValue),
    CantConvertToMsTimestamp(String),
    InvalidStreamId { should_be_greater_than: String, got: String },
    WrongTypeOperation,
    InvalidAnswerDuringHandshake(RedisValue),
    ParseIntError,
    SnapshotParseError { offset: usize },
}

} // verus!
