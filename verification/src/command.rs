//! Typed commands: the closed set of requests a client frame can mean,
//! how a protocol value is read as one, and what executing one does to
//! the engine.

use vstd::prelude::*;

use crate::digits::push_char;
use crate::error::Error;
use crate::parser::{spec_seq_view, lemma_seq_view_props, RedisValue, RespView};
use crate::db::{
    same_control, spec_sat_add, DbValView, RedisDb, ValueType, VtView,
};
use crate::stream::{spec_resolve_id, view_last_id, IdSpecError, StreamId};
use crate::stream::pairs_view;
use crate::str_eq;

verus! {

/// A decoded command. Field/value pairs of XADD keep their order of
/// appearance in the frame.
#[derive(Debug, Clone)]
pub enum RedisCommand {
    Ping,
    Echo(String),
    SetKv(String, String, Option<u64>),
    Get(String),
    Incr(String),
    Info(String),
    /// All replconfs except for GETACK *
    ReplConf,
    /// GETACK asks the replica to write back, unlike every other
    /// replicated command, so it is kept apart.
    ReplConfGetAck,
    Psync,
    /// Wait for a number of replicas with a timeout in ms
    Wait(u64, u64),
    ConfigGet(String),
    Keys(String),
    Type(String),
    Xadd { key: String, stream_id: String, store: Vec<(String, String)> },
    Xrange { key: String, stream_id_start: String, stream_id_end: String },
    Xread { block: Option<u64>, key_offset_pairs: Vec<(String, String)> },
    Multi,
    Exec,
    Discard,
}

/// The model of a command: texts as character sequences.
pub enum CmdView {
    Ping,
    Echo(Seq<char>),
    SetKv(Seq<char>, Seq<char>, Option<u64>),
    Get(Seq<char>),
    Incr(Seq<char>),
    Info(Seq<char>),
    ReplConf,
    ReplConfGetAck,
    Psync,
    Wait(u64, u64),
    ConfigGet(Seq<char>),
    Keys(Seq<char>),
    Type(Seq<char>),
    Xadd { key: Seq<char>, stream_id: Seq<char>, store: Seq<(Seq<char>, Seq<char>)> },
    Xrange { key: Seq<char>, stream_id_start: Seq<char>, stream_id_end: Seq<char> },
    Xread { block: Option<u64>, key_offset_pairs: Seq<(Seq<char>, Seq<char>)> },
    Multi,
    Exec,
    Discard,
}

impl View for RedisCommand {
    type V = CmdView;

    open spec fn view(&self) -> CmdView {
        match self {
            RedisCommand::Ping => CmdView::Ping,
            RedisCommand::Echo(x) => CmdView::Echo(x@),
            RedisCommand::SetKv(k, v, px) => CmdView::SetKv(k@, v@, *px),
            RedisCommand::Get(k) => CmdView::Get(k@),
            RedisCommand::Incr(k) => CmdView::Incr(k@),
            RedisCommand::Info(x) => CmdView::Info(x@),
            RedisCommand::ReplConf => CmdView::ReplConf,
            RedisCommand::ReplConfGetAck => CmdView::ReplConfGetAck,
            RedisCommand::Psync => CmdView::Psync,
            RedisCommand::Wait(n, t) => CmdView::Wait(*n, *t),
            RedisCommand::ConfigGet(x) => CmdView::ConfigGet(x@),
            RedisCommand::Keys(x) => CmdView::Keys(x@),
            RedisCommand::Type(x) => CmdView::Type(x@),
            RedisCommand::Xadd { key, stream_id, store } => CmdView::Xadd {
                key: key@,
                stream_id: stream_id@,
                store: pairs_view(store@),
            },
            RedisCommand::Xrange { key, stream_id_start, stream_id_end } => CmdView::Xrange {
                key: key@,
                stream_id_start: stream_id_start@,
                stream_id_end: stream_id_end@,
            },
            RedisCommand::Xread { block, key_offset_pairs } => CmdView::Xread {
                block: *block,
                key_offset_pairs: pairs_view(key_offset_pairs@),
            },
            RedisCommand::Multi => CmdView::Multi,
            RedisCommand::Exec => CmdView::Exec,
            RedisCommand::Discard => CmdView::Discard,
        }
    }
}

/// ASCII lowercasing of one character.
pub open spec fn spec_lower_char(c: char) -> char {
    if 65 <= c as u32 <= 90 {
        ((c as u32 + 32) as u8) as char
    } else {
        c
    }
}

/// ASCII lowercasing of a text.
pub open spec fn spec_lower(s: Seq<char>) -> Seq<char> {
    Seq::new(s.len(), |i: int| spec_lower_char(s[i]))
}

/// Lowercases the ASCII letters of `s`.
pub fn ascii_lowercase(s: &str) -> (r: String)
    ensures
        r@ == spec_lower(s@),
{
    let n = s.unicode_len();
    let mut out = String::new();
    let mut i: usize = 0;
    while i < n
        invariant
            i <= n,
            n == s@.len(),
            out@.len() == i,
            forall|j: int| 0 <= j < i ==> out@[j] == spec_lower_char(s@[j]),
        decreases n - i,
    {
        let c = s.get_char(i);
        let cu = c as u32;
        let lc: char = if 65 <= cu && cu <= 90 {
            ((cu + 32) as u8) as char
        } else {
            c
        };
        push_char(&mut out, lc);
        i += 1;
    }
    proof {
        assert(out@ =~= spec_lower(s@));
    }
    out
}

/// The text a value carries, if it carries one (the model of
/// `inner_string`).
pub open spec fn spec_inner_text(v: RespView) -> Option<Seq<char>> {
    match v {
        RespView::SimpleString(t) => Some(t),
        RespView::SimpleError(t) => Some(t),
        RespView::Integer(i) => Some(crate::digits::spec_int_chars(i)),
        RespView::BulkString(_, t) => Some(t),
        RespView::NullBulkString => Some("(nil)"@),
        RespView::Array(_, _) => None,
    }
}

/// The texts of a run of bulk strings, from `from` on; nothing if any
/// element is not a bulk string.
pub open spec fn spec_all_bulk_texts(vs: Seq<RespView>, from: int) -> Option<Seq<Seq<char>>>
    decreases vs.len() - from,
{
    if from < 0 || from >= vs.len() {
        Some(Seq::empty())
    } else {
        match vs[from] {
            RespView::BulkString(_, t) => match spec_all_bulk_texts(vs, from + 1) {
                Some(rest) => Some(seq![t] + rest),
                None => None,
            },
            _ => None,
        }
    }
}

/// Consecutive texts taken two at a time as (field, value) pairs.
pub open spec fn spec_pairs_from(ts: Seq<Seq<char>>, start: int) -> Seq<
    (Seq<char>, Seq<char>),
> {
    Seq::new(
        (if start <= ts.len() {
            ((ts.len() - start) / 2) as nat
        } else {
            0nat
        }),
        |k: int| (ts[start + 2 * k], ts[start + 2 * k + 1]),
    )
}

/// A whole digit string read as a machine word, or nothing.
pub open spec fn spec_word_of(s: Seq<char>) -> Option<u64> {
    match crate::stream::spec_parse_u64(s) {
        Some(v) => Some(v as u64),
        None => None,
    }
}

/// The command a protocol value means, if any. The command word is
/// matched without regard to case; arities are as the interface fixes
/// them; every argument must be a bulk string where one is required.
pub open spec fn spec_command_of(v: RespView) -> Option<CmdView> {
    match v {
        RespView::Array(n, arr) => {
            if n != arr.len() || arr.len() == 0 {
                None
            } else {
                match arr[0] {
                    RespView::BulkString(_, raw) => {
                        let name = spec_lower(raw);
                        if name == "ping"@ {
                            if arr.len() == 1 {
                                Some(CmdView::Ping)
                            } else {
                                None
                            }
                        } else if name == "echo"@ {
                            if arr.len() == 2 {
                                match arr[1] {
                                    RespView::BulkString(_, t) => Some(CmdView::Echo(t)),
                                    _ => None,
                                }
                            } else {
                                None
                            }
                        } else if name == "set"@ {
                            if arr.len() != 3 && arr.len() != 5 {
                                None
                            } else {
                                match (arr[1], arr[2]) {
                                    (
                                        RespView::BulkString(_, k),
                                        RespView::BulkString(_, val),
                                    ) => {
                                        if arr.len() == 5 {
                                            match (arr[3], arr[4]) {
                                                (
                                                    RespView::BulkString(_, pxid),
                                                    RespView::BulkString(_, pxms),
                                                ) => {
                                                    if spec_lower(pxid) != "px"@ {
                                                        None
                                                    } else {
                                                        match spec_word_of(pxms) {
                                                            Some(px) => Some(
                                                                CmdView::SetKv(k, val, Some(px)),
                                                            ),
                                                            None => None,
                                                        }
                                                    }
                                                },
                                                _ => None,
                                            }
                                        } else {
                                            Some(CmdView::SetKv(k, val, None))
                                        }
                                    },
                                    _ => None,
                                }
                            }
                        } else if name == "get"@ {
                            if arr.len() == 2 {
                                match arr[1] {
                                    RespView::BulkString(_, t) => Some(CmdView::Get(t)),
                                    _ => None,
                                }
                            } else {
                                None
                            }
                        } else if name == "incr"@ {
                            if arr.len() == 2 {
                                match arr[1] {
                                    RespView::BulkString(_, t) => Some(CmdView::Incr(t)),
                                    _ => None,
                                }
                            } else {
                                None
                            }
                        } else if name == "info"@ {
                            if arr.len() == 2 {
                                match arr[1] {
                                    RespView::BulkString(_, t) => Some(CmdView::Info(t)),
                                    _ => None,
                                }
                            } else {
                                None
                            }
                        } else if name == "replconf"@ {
                            if arr.len() != 3 {
                                None
                            } else {
                                match (spec_inner_text(arr[1]), spec_inner_text(arr[2])) {
                                    (Some(a), Some(b)) => {
                                        if a == "GETACK"@ && b == "*"@ {
                                            Some(CmdView::ReplConfGetAck)
                                        } else {
                                            Some(CmdView::ReplConf)
                                        }
                                    },
                                    _ => None,
                                }
                            }
                        } else if name == "psync"@ {
                            Some(CmdView::Psync)
                        } else if name == "wait"@ {
                            if arr.len() != 3 {
                                None
                            } else {
                                match (arr[1], arr[2]) {
                                    (
                                        RespView::BulkString(_, a),
                                        RespView::BulkString(_, b),
                                    ) => {
                                        match (spec_word_of(a), spec_word_of(b)) {
                                            (Some(nr), Some(t)) => Some(
                                                CmdView::Wait(nr, t),
                                            ),
                                            _ => None,
                                        }
                                    },
                                    _ => None,
                                }
                            }
                        } else if name == "config"@ {
                            if arr.len() != 3 {
                                None
                            } else {
                                match (arr[1], arr[2]) {
                                    (
                                        RespView::BulkString(_, g),
                                        RespView::BulkString(_, val),
                                    ) => {
                                        if spec_lower(g) != "get"@ {
                                            None
                                        } else {
                                            Some(CmdView::ConfigGet(val))
                                        }
                                    },
                                    _ => None,
                                }
                            }
                        } else if name == "keys"@ {
                            if arr.len() == 2 {
                                match arr[1] {
                                    RespView::BulkString(_, t) => Some(CmdView::Keys(t)),
                                    _ => None,
                                }
                            } else {
                                None
                            }
                        } else if name == "type"@ {
                            if arr.len() == 2 {
                                match arr[1] {
                                    RespView::BulkString(_, t) => Some(CmdView::Type(t)),
                                    _ => None,
                                }
                            } else {
                                None
                            }
                        } else if name == "xadd"@ {
                            if arr.len() < 5 || arr.len() % 2 != 1 {
                                None
                            } else {
                                match spec_all_bulk_texts(arr, 1) {
                                    None => None,
                                    Some(ts) => Some(
                                        CmdView::Xadd {
                                            key: ts[0],
                                            stream_id: ts[1],
                                            store: spec_pairs_from(ts, 2),
                                        },
                                    ),
                                }
                            }
                        } else if name == "xrange"@ {
                            if arr.len() != 4 {
                                None
                            } else {
                                match spec_all_bulk_texts(arr, 1) {
                                    None => None,
                                    Some(ts) => Some(
                                        CmdView::Xrange {
                                            key: ts[0],
                                            stream_id_start: ts[1],
                                            stream_id_end: ts[2],
                                        },
                                    ),
                                }
                            }
                        } else if name == "xread"@ {
                            if arr.len() < 4 || arr.len() % 2 != 0 {
                                None
                            } else {
                                match spec_all_bulk_texts(arr, 1) {
                                    None => None,
                                    Some(ts) => {
                                        let has_block = spec_lower(ts[0]) == "block"@;
                                        if has_block && arr.len() < 6 {
                                            None
                                        } else {
                                            let blk: Option<u64> = if has_block {
                                                spec_word_of(ts[1])
                                            } else {
                                                Some(0)
                                            };
                                            match blk {
                                                None => None,
                                                Some(bval) => {
                                                    let b: int = if has_block {
                                                        2
                                                    } else {
                                                        0
                                                    };
                                                    if spec_lower(ts[b]) != "streams"@ {
                                                        None
                                                    } else {
                                                        let offset = (arr.len() - 2 - b)
                                                            / 2;
                                                        Some(
                                                            CmdView::Xread {
                                                                block: if has_block {
                                                                    Some(bval)
                                                                } else {
                                                                    None
                                                                },
                                                                key_offset_pairs: Seq::new(
                                                                    offset as nat,
                                                                    |k: int|
                                                                        (
                                                                            ts[b + 1 + k],
                                                                            ts[b + 1 + k + offset],
                                                                        ),
                                                                ),
                                                            },
                                                        )
                                                    }
                                                },
                                            }
                                        }
                                    },
                                }
                            }
                        } else if name == "multi"@ {
                            if arr.len() == 1 {
                                Some(CmdView::Multi)
                            } else {
                                None
                            }
                        } else if name == "exec"@ {
                            if arr.len() == 1 {
                                Some(CmdView::Exec)
                            } else {
                                None
                            }
                        } else if name == "discard"@ {
                            if arr.len() == 1 {
                                Some(CmdView::Discard)
                            } else {
                                None
                            }
                        } else {
                            None
                        }
                    },
                    _ => None,
                }
            }
        },
        _ => None,
    }
}

impl RedisCommand {
    /// Whether the command should be forwarded to the replicas.
    /// Only SET is propagated.
    pub fn should_forward_to_replicas(&self) -> (r: bool)
        ensures
            r == (self matches RedisCommand::SetKv(_, _, _)),
    {
        matches!(self, Self::SetKv(_, _, _))
    }
}

/// A failure anywhere in the run fails the whole run.
proof fn lemma_all_bulk_none_prefix(vs: Seq<RespView>, from: int, j: int)
    requires
        0 <= from <= j,
        spec_all_bulk_texts(vs, j) == None::<Seq<Seq<char>>>,
    ensures
        spec_all_bulk_texts(vs, from) == None::<Seq<Seq<char>>>,
    decreases j - from,
{
    if from < j {
        lemma_all_bulk_none_prefix(vs, from + 1, j);
    }
}

/// The texts of the bulk strings among `arr` from index `from` on, or
/// nothing if any element there is not a bulk string.
fn bulk_texts_from(arr: &Vec<RedisValue>, from: usize) -> (r: Option<Vec<String>>)
    requires
        from <= arr@.len(),
    ensures
        match r {
            Some(ts) => spec_all_bulk_texts(spec_seq_view(arr@), from as int) == Some(
                crate::parser::spec_strings_view(ts@),
            ),
            None => spec_all_bulk_texts(spec_seq_view(arr@), from as int) == None::<
                Seq<Seq<char>>,
            >,
        },
    decreases arr@.len() - from,
{
    proof {
        lemma_seq_view_props(arr@);
    }
    if from == arr.len() {
        let ts: Vec<String> = Vec::new();
        proof {
            assert(crate::parser::spec_strings_view(ts@) =~= Seq::<Seq<char>>::empty());
        }
        return Some(ts);
    }
    proof {
        assert(spec_seq_view(arr@)[from as int] == arr@[from as int]@);
    }
    match &arr[from] {
        RedisValue::BulkString(_, s) => {
            match bulk_texts_from(arr, from + 1) {
                Some(mut rest) => {
                    let ghost tail = rest@;
                    let sc = s.clone();
                    rest.insert(0, sc);
                    proof {
                        assert(rest@ =~= seq![sc].add(tail)) by {
                            assert(rest@ == tail.insert(0, sc));
                        }
                        assert(crate::parser::spec_strings_view(rest@) =~= seq![s@]
                            + crate::parser::spec_strings_view(tail));
                    }
                    Some(rest)
                },
                None => None,
            }
        },
        _ => None,
    }
}

/// The first index at or after `pos` whose element is not a bulk
/// string, or the length.
pub open spec fn spec_first_non_bulk(vs: Seq<RespView>, pos: int) -> int
    decreases vs.len() - pos,
{
    if pos < 0 || pos >= vs.len() {
        vs.len() as int
    } else if !(vs[pos] matches RespView::BulkString(_, _)) {
        pos
    } else {
        spec_first_non_bulk(vs, pos + 1)
    }
}

/// A run whose elements are all bulk strings with the given texts
/// reads back as exactly those texts.
proof fn lemma_all_bulk_of_pointwise(vs: Seq<RespView>, from: int, ts: Seq<Seq<char>>)
    requires
        0 <= from <= vs.len(),
        ts.len() == vs.len() - from,
        forall|k: int| 0 <= k < ts.len() ==> ((#[trigger] vs[from + k]) matches
        RespView::BulkString(_, t) && t == ts[k]),
    ensures
        spec_all_bulk_texts(vs, from) == Some(ts),
    decreases vs.len() - from,
{
    if from < vs.len() {
        assert(vs[from + 0] matches RespView::BulkString(_, t) && t == ts[0]);
        let tail = ts.subrange(1, ts.len() as int);
        assert forall|k: int| 0 <= k < tail.len() implies ((#[trigger] vs[from + 1 + k])
            matches RespView::BulkString(_, t) && t == tail[k]) by {
            assert(vs[from + (k + 1)] matches RespView::BulkString(_, t2) && t2 == ts[k
                + 1]);
            assert(tail[k] == ts[k + 1]);
        }
        lemma_all_bulk_of_pointwise(vs, from + 1, tail);
        assert(seq![ts[0]] + tail =~= ts);
    } else {
        assert(ts =~= Seq::<Seq<char>>::empty());
    }
}

/// The texts of a run of bulk strings, in order; the first element of
/// any other shape is refused and named in the error.
pub fn get_strings_from_bulkstrings(args: &[RedisValue]) -> (r: Result<Vec<String>, Error>)
    ensures
        match r {
            Ok(ts) => spec_all_bulk_texts(spec_seq_view(args@), 0) == Some(
                crate::parser::spec_strings_view(ts@),
            ),
            Err(e) => spec_all_bulk_texts(spec_seq_view(args@), 0) == None::<
                Seq<Seq<char>>,
            > && (e matches Error::InvalidRedisValue(w) && w@ == spec_seq_view(args@)[
                spec_first_non_bulk(spec_seq_view(args@), 0)
            ]),
        },
{
    proof {
        lemma_seq_view_props(args@);
    }
    let ghost vs = spec_seq_view(args@);
    let n = args.len();
    let mut out: Vec<String> = Vec::new();
    let mut i: usize = 0;
    while i < n
        invariant
            i <= n,
            n == args@.len(),
            vs == spec_seq_view(args@),
            out@.len() == i,
            spec_first_non_bulk(vs, 0) == spec_first_non_bulk(vs, i as int),
            forall|k: int| 0 <= k < i ==> ((#[trigger] vs[k]) matches
            RespView::BulkString(_, t) && t == out@[k]@),
            vs.len() == args@.len(),
            forall|j: int| 0 <= j < args@.len() ==> vs[j] == (#[trigger] args@[j])@,
        decreases n - i,
    {
        match vstd::slice::slice_index_get(args, i) {
            RedisValue::BulkString(_, s) => {
                out.push(s.clone());
                proof {
                    assert(spec_first_non_bulk(vs, i as int) == spec_first_non_bulk(
                        vs,
                        i as int + 1,
                    ));
                }
            },
            other => {
                proof {
                    assert(spec_first_non_bulk(vs, i as int) == i as int);
                    assert(spec_all_bulk_texts(vs, i as int) == None::<Seq<Seq<char>>>);
                    lemma_all_bulk_none_prefix(vs, 0, i as int);
                }
                return Err(Error::InvalidRedisValue(other.clone()));
            },
        }
        i += 1;
    }
    proof {
        assert forall|k: int| 0 <= k < crate::parser::spec_strings_view(out@).len()
            implies ((#[trigger] vs[0 + k]) matches RespView::BulkString(_, t) && t
            == crate::parser::spec_strings_view(out@)[k]) by {
            assert(vs[k] matches RespView::BulkString(_, t) && t == out@[k]@);
        }
        lemma_all_bulk_of_pointwise(vs, 0, crate::parser::spec_strings_view(out@));
    }
    Ok(out)
}

/// A successful run of bulk texts covers the whole tail.
proof fn lemma_all_bulk_len(vs: Seq<RespView>, from: int, ts: Seq<Seq<char>>)
    requires
        0 <= from <= vs.len(),
        spec_all_bulk_texts(vs, from) == Some(ts),
    ensures
        ts.len() == vs.len() - from,
    decreases vs.len() - from,
{
    if from < vs.len() {
        match vs[from] {
            RespView::BulkString(_, t) => {
                match spec_all_bulk_texts(vs, from + 1) {
                    Some(rest) => {
                        lemma_all_bulk_len(vs, from + 1, rest);
                    },
                    None => {},
                }
            },
            _ => {},
        }
    }
}

impl RedisCommand {
    /// Reads a protocol value as a command: exactly the meaning the
    /// model assigns, or an error where it assigns none.
    pub fn try_from(redis_value: &RedisValue) -> (r: Result<RedisCommand, Error>)
        ensures
            match r {
                Ok(c) => spec_command_of(redis_value@) == Some(c@),
                Err(e) => spec_command_of(redis_value@) == None::<CmdView> && (e matches
                Error::InvalidRedisValue(_) || e matches Error::EmptyCommand || e matches
                Error::ParseIntError || e matches Error::CantConvertToString(_)),
            },
    {
        let (n, arr): (usize, &Vec<RedisValue>) = match redis_value {
            RedisValue::Array(n, arr) => (*n, arr),
            _ => {
                return Err(Error::InvalidRedisValue(redis_value.clone()));
            },
        };
        proof {
            lemma_seq_view_props(arr@);
        }
        let ghost vs = spec_seq_view(arr@);
        if arr.len() == 0 {
            return Err(Error::EmptyCommand);
        }
        if n != arr.len() {
            return Err(Error::InvalidRedisValue(redis_value.clone()));
        }
        proof {
            assert(vs[0] == arr@[0]@);
        }
        let raw: &String = match &arr[0] {
            RedisValue::BulkString(_, s) => s,
            _ => {
                return Err(Error::InvalidRedisValue(redis_value.clone()));
            },
        };
        let name = ascii_lowercase(raw.as_str());
        if str_eq(name.as_str(), "ping") {
            if arr.len() == 1 {
                Ok(RedisCommand::Ping)
            } else {
                Err(Error::InvalidRedisValue(redis_value.clone()))
            }
        } else if str_eq(name.as_str(), "echo") {
            if arr.len() != 2 {
                return Err(Error::InvalidRedisValue(redis_value.clone()));
            }
            proof {
                assert(vs[1] == arr@[1]@);
            }
            match &arr[1] {
                RedisValue::BulkString(_, v) => Ok(RedisCommand::Echo(v.clone())),
                _ => Err(Error::InvalidRedisValue(redis_value.clone())),
            }
        } else if str_eq(name.as_str(), "set") {
            if arr.len() != 3 && arr.len() != 5 {
                return Err(Error::InvalidRedisValue(redis_value.clone()));
            }
            proof {
                assert(vs[1] == arr@[1]@);
                assert(vs[2] == arr@[2]@);
            }
            match (&arr[1], &arr[2]) {
                (RedisValue::BulkString(_, k), RedisValue::BulkString(_, v)) => {
                    let px: Option<u64> = if arr.len() == 5 {
                        proof {
                            assert(vs[3] == arr@[3]@);
                            assert(vs[4] == arr@[4]@);
                        }
                        match (&arr[3], &arr[4]) {
                            (
                                RedisValue::BulkString(_, pxid),
                                RedisValue::BulkString(_, pxms),
                            ) => {
                                let low = ascii_lowercase(pxid.as_str());
                                if !str_eq(low.as_str(), "px") {
                                    return Err(
                                        Error::InvalidRedisValue(redis_value.clone()),
                                    );
                                }
                                match crate::digits::parse_u64_str(pxms.as_str()) {
                                    Some(ms) => Some(ms),
                                    None => {
                                        return Err(Error::ParseIntError);
                                    },
                                }
                            },
                            _ => {
                                return Err(Error::InvalidRedisValue(redis_value.clone()));
                            },
                        }
                    } else {
                        None
                    };
                    Ok(RedisCommand::SetKv(k.clone(), v.clone(), px))
                },
                _ => Err(Error::InvalidRedisValue(redis_value.clone())),
            }
        } else if str_eq(name.as_str(), "get") {
            if arr.len() != 2 {
                return Err(Error::InvalidRedisValue(redis_value.clone()));
            }
            proof {
                assert(vs[1] == arr@[1]@);
            }
            match &arr[1] {
                RedisValue::BulkString(_, k) => Ok(RedisCommand::Get(k.clone())),
                _ => Err(Error::InvalidRedisValue(redis_value.clone())),
            }
        } else if str_eq(name.as_str(), "incr") {
            if arr.len() != 2 {
                return Err(Error::InvalidRedisValue(redis_value.clone()));
            }
            proof {
                assert(vs[1] == arr@[1]@);
            }
            match &arr[1] {
                RedisValue::BulkString(_, k) => Ok(RedisCommand::Incr(k.clone())),
                _ => Err(Error::InvalidRedisValue(redis_value.clone())),
            }
        } else if str_eq(name.as_str(), "info") {
            if arr.len() != 2 {
                return Err(Error::InvalidRedisValue(redis_value.clone()));
            }
            proof {
                assert(vs[1] == arr@[1]@);
            }
            match &arr[1] {
                RedisValue::BulkString(_, x) => Ok(RedisCommand::Info(x.clone())),
                _ => Err(Error::InvalidRedisValue(redis_value.clone())),
            }
        } else if str_eq(name.as_str(), "replconf") {
            if arr.len() != 3 {
                return Err(Error::InvalidRedisValue(redis_value.clone()));
            }
            proof {
                assert(vs[1] == arr@[1]@);
                assert(vs[2] == arr@[2]@);
            }
            let a = match arr[1].inner_string() {
                Ok(a) => a,
                Err(e) => {
                    return Err(e);
                },
            };
            let b = match arr[2].inner_string() {
                Ok(b) => b,
                Err(e) => {
                    return Err(e);
                },
            };
            if str_eq(a.as_str(), "GETACK") && str_eq(b.as_str(), "*") {
                Ok(RedisCommand::ReplConfGetAck)
            } else {
                Ok(RedisCommand::ReplConf)
            }
        } else if str_eq(name.as_str(), "psync") {
            Ok(RedisCommand::Psync)
        } else if str_eq(name.as_str(), "wait") {
            if arr.len() != 3 {
                return Err(Error::InvalidRedisValue(redis_value.clone()));
            }
            proof {
                assert(vs[1] == arr@[1]@);
                assert(vs[2] == arr@[2]@);
            }
            match (&arr[1], &arr[2]) {
                (RedisValue::BulkString(_, a), RedisValue::BulkString(_, b)) => {
                    let nr = match crate::digits::parse_u64_str(a.as_str()) {
                        Some(v) => v,
                        None => {
                            return Err(Error::ParseIntError);
                        },
                    };
                    let t = match crate::digits::parse_u64_str(b.as_str()) {
                        Some(v) => v,
                        None => {
                            return Err(Error::ParseIntError);
                        },
                    };
                    Ok(RedisCommand::Wait(nr, t))
                },
                _ => Err(Error::InvalidRedisValue(redis_value.clone())),
            }
        } else if str_eq(name.as_str(), "config") {
            if arr.len() != 3 {
                return Err(Error::InvalidRedisValue(redis_value.clone()));
            }
            proof {
                assert(vs[1] == arr@[1]@);
                assert(vs[2] == arr@[2]@);
            }
            match (&arr[1], &arr[2]) {
                (RedisValue::BulkString(_, g), RedisValue::BulkString(_, val)) => {
                    let low = ascii_lowercase(g.as_str());
                    if !str_eq(low.as_str(), "get") {
                        return Err(Error::InvalidRedisValue(redis_value.clone()));
                    }
                    Ok(RedisCommand::ConfigGet(val.clone()))
                },
                _ => Err(Error::InvalidRedisValue(redis_value.clone())),
            }
        } else if str_eq(name.as_str(), "keys") {
            if arr.len() != 2 {
                return Err(Error::InvalidRedisValue(redis_value.clone()));
            }
            proof {
                assert(vs[1] == arr@[1]@);
            }
            match &arr[1] {
                RedisValue::BulkString(_, p) => Ok(RedisCommand::Keys(p.clone())),
                _ => Err(Error::InvalidRedisValue(redis_value.clone())),
            }
        } else if str_eq(name.as_str(), "type") {
            if arr.len() != 2 {
                return Err(Error::InvalidRedisValue(redis_value.clone()));
            }
            proof {
                assert(vs[1] == arr@[1]@);
            }
            match &arr[1] {
                RedisValue::BulkString(_, k) => Ok(RedisCommand::Type(k.clone())),
                _ => Err(Error::InvalidRedisValue(redis_value.clone())),
            }
        } else if str_eq(name.as_str(), "xadd") {
            if arr.len() < 5 || arr.len() % 2 != 1 {
                return Err(Error::InvalidRedisValue(redis_value.clone()));
            }
            let ts = match bulk_texts_from(arr, 1) {
                Some(ts) => ts,
                None => {
                    return Err(Error::InvalidRedisValue(redis_value.clone()));
                },
            };
            let ghost tsv = crate::parser::spec_strings_view(ts@);
            proof {
                lemma_all_bulk_len(vs, 1, tsv);
            }
            let key = ts[0].clone();
            let stream_id = ts[1].clone();
            let mut store: Vec<(String, String)> = Vec::new();
            let mut i: usize = 2;
            while i + 1 < ts.len()
                invariant
                    2 <= i <= ts@.len() + 1,
                    i % 2 == 0,
                    ts@.len() % 2 == 0,
                    ts@.len() >= 4,
                    tsv == crate::parser::spec_strings_view(ts@),
                    store@.len() == (i - 2) / 2,
                    forall|k: int| 0 <= k < store@.len() ==> (#[trigger] store@[k]).0@
                        == tsv[2 + 2 * k] && store@[k].1@ == tsv[2 + 2 * k + 1],
                decreases ts@.len() - i,
            {
                let f = ts[i].clone();
                let v = ts[i + 1].clone();
                store.push((f, v));
                i += 2;
            }
            let r = RedisCommand::Xadd { key, stream_id, store };
            proof {
                assert(pairs_view(r.arrow_Xadd_store()@) =~= spec_pairs_from(tsv, 2));
            }
            Ok(r)
        } else if str_eq(name.as_str(), "xrange") {
            if arr.len() != 4 {
                return Err(Error::InvalidRedisValue(redis_value.clone()));
            }
            let ts = match bulk_texts_from(arr, 1) {
                Some(ts) => ts,
                None => {
                    return Err(Error::InvalidRedisValue(redis_value.clone()));
                },
            };
            proof {
                lemma_all_bulk_len(vs, 1, crate::parser::spec_strings_view(ts@));
            }
            let key = ts[0].clone();
            let stream_id_start = ts[1].clone();
            let stream_id_end = ts[2].clone();
            Ok(RedisCommand::Xrange { key, stream_id_start, stream_id_end })
        } else if str_eq(name.as_str(), "xread") {
            if arr.len() < 4 || arr.len() % 2 != 0 {
                return Err(Error::InvalidRedisValue(redis_value.clone()));
            }
            let ts = match bulk_texts_from(arr, 1) {
                Some(ts) => ts,
                None => {
                    return Err(Error::InvalidRedisValue(redis_value.clone()));
                },
            };
            let ghost tsv = crate::parser::spec_strings_view(ts@);
            proof {
                lemma_all_bulk_len(vs, 1, tsv);
            }
            let low0 = ascii_lowercase(ts[0].as_str());
            let has_block = str_eq(low0.as_str(), "block");
            if has_block && arr.len() < 6 {
                return Err(Error::InvalidRedisValue(redis_value.clone()));
            }
            let block_val: u64 = if has_block {
                match crate::digits::parse_u64_str(ts[1].as_str()) {
                    Some(v) => v,
                    None => {
                        return Err(Error::ParseIntError);
                    },
                }
            } else {
                0
            };
            let b: usize = if has_block {
                2
            } else {
                0
            };
            let lowkw = ascii_lowercase(ts[b].as_str());
            if !str_eq(lowkw.as_str(), "streams") {
                return Err(Error::InvalidRedisValue(redis_value.clone()));
            }
            let offset: usize = (arr.len() - 2 - b) / 2;
            let tslen: usize = ts.len();
            let mut key_offset_pairs: Vec<(String, String)> = Vec::new();
            let mut k: usize = 0;
            while k < offset
                invariant
                    k <= offset,
                    tslen == ts@.len(),
                    b == 0 || b == 2,
                    arr@.len() >= 4,
                    arr@.len() % 2 == 0,
                    b == 2 ==> arr@.len() >= 6,
                    offset == (arr@.len() - 2 - b) / 2,
                    ts@.len() == arr@.len() - 1,
                    tsv == crate::parser::spec_strings_view(ts@),
                    key_offset_pairs@.len() == k,
                    forall|j: int| 0 <= j < k ==> (#[trigger] key_offset_pairs@[j]).0@
                        == tsv[b + 1 + j] && key_offset_pairs@[j].1@ == tsv[b + 1 + j
                        + offset],
                decreases offset - k,
            {
                proof {
                    assert(arr@.len() - 2 - b == 2 * offset);
                    assert(b + 1 + k + offset < tslen);
                }
                let f = ts[b + 1 + k].clone();
                let v = ts[b + 1 + k + offset].clone();
                key_offset_pairs.push((f, v));
                k += 1;
            }
            let r = RedisCommand::Xread {
                block: if has_block {
                    Some(block_val)
                } else {
                    None
                },
                key_offset_pairs,
            };
            proof {
                assert(pairs_view(r.arrow_Xread_key_offset_pairs()@) =~= Seq::new(
                    offset as nat,
                    |j: int| (tsv[b + 1 + j], tsv[b + 1 + j + offset as int]),
                ));
            }
            Ok(r)
        } else if str_eq(name.as_str(), "multi") {
            if arr.len() == 1 {
                Ok(RedisCommand::Multi)
            } else {
                Err(Error::InvalidRedisValue(redis_value.clone()))
            }
        } else if str_eq(name.as_str(), "exec") {
            if arr.len() == 1 {
                Ok(RedisCommand::Exec)
            } else {
                Err(Error::InvalidRedisValue(redis_value.clone()))
            }
        } else if str_eq(name.as_str(), "discard") {
            if arr.len() == 1 {
                Ok(RedisCommand::Discard)
            } else {
                Err(Error::InvalidRedisValue(redis_value.clone()))
            }
        } else {
            Err(Error::InvalidRedisValue(redis_value.clone()))
        }
    }
}

/// The flat field/value array of a scan reply: fields and values
/// alternating, each as a bulk string.
pub open spec fn spec_fields_reply(fs: Seq<(Seq<char>, Seq<char>)>) -> RespView {
    RespView::Array(
        2 * fs.len() as int,
        Seq::new(
            2 * fs.len(),
            |j: int|
                RespView::BulkString(
                    (if j % 2 == 0 {
                        fs[j / 2].0.len()
                    } else {
                        fs[j / 2].1.len()
                    }) as int,
                    if j % 2 == 0 {
                        fs[j / 2].0
                    } else {
                        fs[j / 2].1
                    },
                ),
        ),
    )
}

/// The reply for a run of scanned entries: per entry, a two-element
/// array of its id and its flat field/value array.
pub open spec fn spec_entries_reply(w: Seq<(Seq<char>, Seq<(Seq<char>, Seq<char>)>)>) -> RespView {
    RespView::Array(
        w.len() as int,
        Seq::new(
            w.len(),
            |i: int|
                RespView::Array(
                    2,
                    seq![
                        RespView::BulkString(w[i].0.len() as int, w[i].0),
                        spec_fields_reply(w[i].1),
                    ],
                ),
        ),
    )
}

/// Builds the reply element for one scanned entry run.
fn build_entries_reply(w: &Vec<(String, Vec<(String, String)>)>) -> (r: RedisValue)
    ensures
        r@ == spec_entries_reply(crate::stream::spec_scan_view(w@)),
{
    let ghost wv = crate::stream::spec_scan_view(w@);
    let mut out: Vec<RedisValue> = Vec::new();
    let mut i: usize = 0;
    while i < w.len()
        invariant
            i <= w@.len(),
            wv == crate::stream::spec_scan_view(w@),
            out@.len() == i,
            forall|k: int| 0 <= k < i ==> (#[trigger] out@[k])@ == RespView::Array(
                2,
                seq![
                    RespView::BulkString(wv[k].0.len() as int, wv[k].0),
                    spec_fields_reply(wv[k].1),
                ],
            ),
        decreases w@.len() - i,
    {
        let idval = RedisValue::bulkstring_from(w[i].0.as_str());
        let fs = &w[i].1;
        let ghost fsv = crate::stream::pairs_view(fs@);
        let mut flat: Vec<RedisValue> = Vec::new();
        let mut j: usize = 0;
        while j < fs.len()
            invariant
                j <= fs@.len(),
                fsv == crate::stream::pairs_view(fs@),
                flat@.len() == 2 * j,
                forall|q: int| 0 <= q < 2 * j ==> (#[trigger] flat@[q])@
                    == RespView::BulkString(
                    (if q % 2 == 0 {
                        fsv[q / 2].0.len()
                    } else {
                        fsv[q / 2].1.len()
                    }) as int,
                    if q % 2 == 0 {
                        fsv[q / 2].0
                    } else {
                        fsv[q / 2].1
                    },
                ),
            decreases fs@.len() - j,
        {
            let fkey = RedisValue::bulkstring_from(fs[j].0.as_str());
            let fval = RedisValue::bulkstring_from(fs[j].1.as_str());
            flat.push(fkey);
            flat.push(fval);
            j += 1;
        }
        let nflat = flat.len();
        proof {
            lemma_seq_view_props(flat@);
            assert forall|q: int| 0 <= q < spec_seq_view(flat@).len() implies
                spec_seq_view(flat@)[q] == spec_fields_reply(fsv).arrow_Array_1()[q] by {
                assert(spec_seq_view(flat@)[q] == flat@[q]@);
            }
            assert(spec_seq_view(flat@) =~= spec_fields_reply(fsv).arrow_Array_1());
        }
        let fields_arr = RedisValue::Array(nflat, flat);
        let mut pair: Vec<RedisValue> = Vec::new();
        pair.push(idval);
        pair.push(fields_arr);
        proof {
            lemma_seq_view_props(pair@);
            assert(spec_seq_view(pair@)[0] == pair@[0]@);
            assert(spec_seq_view(pair@)[1] == pair@[1]@);
            assert(spec_seq_view(pair@) =~= seq![
                RespView::BulkString(wv[i as int].0.len() as int, wv[i as int].0),
                spec_fields_reply(wv[i as int].1),
            ]);
        }
        out.push(RedisValue::Array(2, pair));
        i += 1;
    }
    let n = out.len();
    proof {
        lemma_seq_view_props(out@);
        assert forall|q: int| 0 <= q < spec_seq_view(out@).len() implies spec_seq_view(
            out@,
        )[q] == spec_entries_reply(wv).arrow_Array_1()[q] by {
            assert(spec_seq_view(out@)[q] == out@[q]@);
        }
        assert(spec_seq_view(out@) =~= spec_entries_reply(wv).arrow_Array_1());
    }
    RedisValue::Array(n, out)
}

/// The reply element for one watched key of a tail read, and the
/// mapping afterwards: an absent key gains an empty stream; every
/// failure reads as no entries; a key with new entries answers with
/// them, one without answers with its name alone.
pub open spec fn spec_xread_step(
    m: Map<Seq<char>, DbValView>,
    key: Seq<char>,
    sid: Seq<char>,
    now_ms: u64,
) -> (RespView, Map<Seq<char>, DbValView>) {
    let m2 = if m.contains_key(key) {
        m
    } else {
        m.insert(
            key,
            DbValView {
                value: VtView::Stream(Seq::empty()),
                expires_at: None,
            },
        )
    };
    let w = if RedisDb::spec_holds_text(m, key) {
        Seq::empty()
    } else {
        match crate::stream::spec_xread_v(RedisDb::spec_stream_at(m, key), sid, now_ms) {
            Ok(w) => w,
            Err(_) => Seq::empty(),
        }
    };
    let elem = if w.len() == 0 {
        RespView::Array(1, seq![RespView::BulkString(key.len() as int, key)])
    } else {
        RespView::Array(
            2,
            seq![RespView::BulkString(key.len() as int, key), spec_entries_reply(w)],
        )
    };
    (elem, m2)
}

/// The reply elements for all watched keys, threaded left to right.
pub open spec fn spec_xread_fold(
    m: Map<Seq<char>, DbValView>,
    pairs: Seq<(Seq<char>, Seq<char>)>,
    now_ms: u64,
) -> (Seq<RespView>, Map<Seq<char>, DbValView>)
    decreases pairs.len(),
{
    if pairs.len() == 0 {
        (Seq::empty(), m)
    } else {
        let (e, m2) = spec_xread_step(m, pairs[0].0, pairs[0].1, now_ms);
        let (rest, m3) = spec_xread_fold(m2, pairs.subrange(1, pairs.len() as int), now_ms);
        (seq![e] + rest, m3)
    }
}

/// Why executing a command is refused.
pub enum ExecErr {
    /// An operation against a key holding the wrong kind of value.
    WrongKind,
    /// A command or argument the engine does not execute.
    Invalid,
    /// A stream id whose timestamp part is too long.
    TooLongId,
    /// A part that is not a number the machine can hold.
    NotANumber,
}

/// Which error value stands for which refusal.
pub open spec fn spec_err_matches(k: ExecErr, e: Error) -> bool {
    match k {
        ExecErr::WrongKind => e matches Error::WrongTypeOperation,
        ExecErr::Invalid => e matches Error::InvalidRedisCommand(_),
        ExecErr::TooLongId => e matches Error::CantConvertToMsTimestamp(_),
        ExecErr::NotANumber => e matches Error::ParseIntError,
    }
}

/// The reply executing `c` against `db` at the given clock produces,
/// or why it is refused. This is the engine's whole visible answer:
/// every command's reply is a function of the command, the server
/// state and the clock.
pub open spec fn spec_execute_reply(c: CmdView, db: RedisDb, now_ms: u64) -> Result<
    RespView,
    ExecErr,
> {
    let m = db.store_map();
    match c {
        CmdView::Ping => Ok(RespView::SimpleString("PONG"@)),
        CmdView::Echo(x) => Ok(RespView::SimpleString(x)),
        CmdView::SetKv(_, _, _) => Ok(RespView::SimpleString("OK"@)),
        CmdView::Get(k) => {
            if m.contains_key(k) {
                if (m[k].expires_at matches Some(d) && now_ms >= d) {
                    Ok(RespView::NullBulkString)
                } else {
                    match m[k].value {
                        VtView::Str(s) => Ok(RespView::SimpleString(s)),
                        VtView::Stream(_) => Err(ExecErr::WrongKind),
                    }
                }
            } else {
                Ok(RespView::NullBulkString)
            }
        },
        CmdView::Incr(k) => {
            if !m.contains_key(k) {
                Ok(RespView::Integer(1))
            } else {
                match m[k].value {
                    VtView::Str(s) => {
                        if crate::digits::valid_int_body(s) && i64::MIN
                            <= crate::digits::int_body_val(s) <= i64::MAX
                            && crate::digits::int_body_val(s) < i64::MAX {
                            Ok(RespView::Integer(crate::digits::int_body_val(s) + 1))
                        } else {
                            Ok(
                                RespView::SimpleError(
                                    "ERR value is not an integer or out of range"@,
                                ),
                            )
                        }
                    },
                    VtView::Stream(_) => Ok(
                        RespView::SimpleError(
                            "ERR value is not an integer or out of range"@,
                        ),
                    ),
                }
            }
        },
        CmdView::Info(x) => {
            if x == "replication"@ {
                Ok(
                    RespView::BulkString(
                        db.info.spec_replication_info().len() as int,
                        db.info.spec_replication_info(),
                    ),
                )
            } else {
                Err(ExecErr::Invalid)
            }
        },
        CmdView::ReplConf => Ok(RespView::SimpleString("OK"@)),
        CmdView::ReplConfGetAck => Ok(
            RespView::Array(
                3,
                seq![
                    RespView::BulkString(8, "REPLCONF"@),
                    RespView::BulkString(3, "ACK"@),
                    RespView::BulkString(
                        crate::digits::spec_udigits(db.processed_bytes as nat).len()
                            as int,
                        crate::digits::spec_udigits(db.processed_bytes as nat),
                    ),
                ],
            ),
        ),
        CmdView::Psync => Ok(
            RespView::SimpleString("FULLRESYNC "@ + db.info.master_replid@ + " 0"@),
        ),
        CmdView::Wait(_, _) => Err(ExecErr::Invalid),
        CmdView::ConfigGet(x) => {
            if x == "dir"@ {
                Ok(
                    RespView::Array(
                        2,
                        seq![
                            RespView::BulkString(3, "dir"@),
                            RespView::BulkString(db.info.dir@.len() as int, db.info.dir@),
                        ],
                    ),
                )
            } else if x == "dbfilename"@ {
                Ok(
                    RespView::Array(
                        2,
                        seq![
                            RespView::BulkString(10, "dbfilename"@),
                            RespView::BulkString(
                                db.info.dbfilename@.len() as int,
                                db.info.dbfilename@,
                            ),
                        ],
                    ),
                )
            } else {
                Err(ExecErr::Invalid)
            }
        },
        CmdView::Keys(_) => Ok(
            RespView::Array(
                db.inner.store@.len() as int,
                Seq::new(
                    db.inner.store@.len(),
                    |i: int|
                        RespView::BulkString(
                            db.inner.store@[i].0@.len() as int,
                            db.inner.store@[i].0@,
                        ),
                ),
            ),
        ),
        CmdView::Type(k) => {
            if m.contains_key(k) {
                if (m[k].expires_at matches Some(d) && now_ms >= d) {
                    Ok(RespView::SimpleString("none"@))
                } else {
                    match m[k].value {
                        VtView::Str(_) => Ok(RespView::SimpleString("string"@)),
                        VtView::Stream(_) => Ok(RespView::SimpleString("stream"@)),
                    }
                }
            } else {
                Ok(RespView::SimpleString("none"@))
            }
        },
        CmdView::Xadd { key, stream_id, store } => {
            if RedisDb::spec_holds_text(m, key) {
                Err(ExecErr::Invalid)
            } else {
                let es = RedisDb::spec_stream_at(m, key);
                match spec_resolve_id(view_last_id(es), stream_id, now_ms) {
                    Err(_) => Err(ExecErr::Invalid),
                    Ok(id) => {
                        if view_last_id(es).spec_lt(id) {
                            Ok(
                                RespView::BulkString(
                                    id.spec_chars().len() as int,
                                    id.spec_chars(),
                                ),
                            )
                        } else if id.spec_chars() == "0-0"@ {
                            Ok(
                                RespView::SimpleError(
                                    "ERR The ID specified in XADD must be greater than 0-0"@,
                                ),
                            )
                        } else {
                            Ok(
                                RespView::SimpleError(
                                    "ERR The ID specified in XADD is equal or smaller than the target stream top item"@,
                                ),
                            )
                        }
                    },
                }
            }
        },
        CmdView::Xrange { key, stream_id_start, stream_id_end } => {
            if RedisDb::spec_holds_text(m, key) {
                Err(ExecErr::WrongKind)
            } else {
                match crate::stream::spec_xrange_v(
                    RedisDb::spec_stream_at(m, key),
                    stream_id_start,
                    stream_id_end,
                    now_ms,
                ) {
                    Ok(w) => Ok(spec_entries_reply(w)),
                    Err(IdSpecError::TooLong) => Err(ExecErr::TooLongId),
                    Err(IdSpecError::NotANumber) => Err(ExecErr::NotANumber),
                }
            }
        },
        CmdView::Xread { block: _, key_offset_pairs } => {
            let folded = spec_xread_fold(m, key_offset_pairs, now_ms);
            if (forall|i: int| 0 <= i < folded.0.len() ==> ((#[trigger] folded.0[i])
                matches RespView::Array(cnt, _) && cnt == 1)) {
                Ok(RespView::NullBulkString)
            } else {
                Ok(RespView::Array(folded.0.len() as int, folded.0))
            }
        },
        CmdView::Multi => Err(ExecErr::Invalid),
        CmdView::Exec => Err(ExecErr::Invalid),
        CmdView::Discard => Err(ExecErr::Invalid),
    }
}

/// The mapping executing `c` against `db` at the given clock leaves
/// behind.
pub open spec fn spec_execute_map(c: CmdView, db: RedisDb, now_ms: u64) -> Map<
    Seq<char>,
    DbValView,
> {
    let m = db.store_map();
    match c {
        CmdView::SetKv(k, val, px) => m.insert(
            k,
            DbValView {
                value: VtView::Str(val),
                expires_at: match px {
                    Some(d) => Some(spec_sat_add(now_ms, d)),
                    None => None::<u64>,
                },
            },
        ),
        CmdView::Get(k) => {
            if m.contains_key(k) && (m[k].expires_at matches Some(d) && now_ms >= d) {
                m.remove(k)
            } else {
                m
            }
        },
        CmdView::Type(k) => {
            if m.contains_key(k) && (m[k].expires_at matches Some(d) && now_ms >= d) {
                m.remove(k)
            } else {
                m
            }
        },
        CmdView::Incr(k) => {
            if !m.contains_key(k) {
                m.insert(k, DbValView { value: VtView::Str("1"@), expires_at: None })
            } else {
                match m[k].value {
                    VtView::Str(s) => {
                        if crate::digits::valid_int_body(s) && i64::MIN
                            <= crate::digits::int_body_val(s) <= i64::MAX
                            && crate::digits::int_body_val(s) < i64::MAX {
                            m.insert(
                                k,
                                DbValView {
                                    value: VtView::Str(
                                        crate::digits::spec_int_chars(
                                            crate::digits::int_body_val(s) + 1,
                                        ),
                                    ),
                                    expires_at: m[k].expires_at,
                                },
                            )
                        } else {
                            m
                        }
                    },
                    VtView::Stream(_) => m,
                }
            }
        },
        CmdView::Xadd { key, stream_id, store } => {
            if RedisDb::spec_holds_text(m, key) {
                m
            } else {
                let es = RedisDb::spec_stream_at(m, key);
                let exp = RedisDb::spec_expiry_at(m, key);
                match spec_resolve_id(view_last_id(es), stream_id, now_ms) {
                    Err(_) => m.insert(
                        key,
                        DbValView { value: VtView::Stream(es), expires_at: exp },
                    ),
                    Ok(id) => {
                        if view_last_id(es).spec_lt(id) {
                            m.insert(
                                key,
                                DbValView {
                                    value: VtView::Stream(es.push((id, store))),
                                    expires_at: exp,
                                },
                            )
                        } else {
                            m.insert(
                                key,
                                DbValView { value: VtView::Stream(es), expires_at: exp },
                            )
                        }
                    },
                }
            }
        },
        CmdView::Xrange { key, .. } => {
            if RedisDb::spec_holds_text(m, key) || m.contains_key(key) {
                m
            } else {
                m.insert(
                    key,
                    DbValView { value: VtView::Stream(Seq::empty()), expires_at: None },
                )
            }
        },
        CmdView::Xread { block: _, key_offset_pairs } => spec_xread_fold(
            m,
            key_offset_pairs,
            now_ms,
        ).1,
        _ => m,
    }
}

impl RedisCommand {
    /// Executes the command against the engine at the given clock and
    /// returns the protocol reply. Transaction control and WAIT are
    /// not executed here: they are signalling, not engine work, and
    /// are refused.
    pub fn execute(&self, db: &mut RedisDb, now_ms: u64) -> (r: Result<RedisValue, Error>)
        requires
            old(db).wf(),
        ensures
            final(db).wf(),
            same_control(*old(db), *final(db)),
            final(db).store_map() == spec_execute_map(self@, *old(db), now_ms),
            (match self@ {
                CmdView::Xadd { key, .. } => RedisDb::spec_pending_nudged(
                    old(db).pending_stream_xread,
                    final(db).pending_stream_xread,
                    key,
                ),
                _ => final(db).pending_stream_xread == old(db).pending_stream_xread,
            }),
            match r {
                Ok(v) => spec_execute_reply(self@, *old(db), now_ms) == Ok::<
                    RespView,
                    ExecErr,
                >(v@),
                Err(e) => spec_execute_reply(self@, *old(db), now_ms) matches Err(k)
                    && spec_err_matches(k, e),
            },
    {
        match self {
            RedisCommand::Ping => Ok(RedisValue::SimpleString(String::from_str("PONG"))),
            RedisCommand::Echo(x) => Ok(RedisValue::SimpleString(x.clone())),
            RedisCommand::SetKv(key, value, px) => {
                db.set(
                    key.clone(),
                    ValueType::String(value.clone()),
                    *px,
                    now_ms,
                );
                Ok(RedisValue::SimpleString(String::from_str("OK")))
            },
            RedisCommand::Get(key) => {
                match db.get(key.as_str(), now_ms) {
                    Some(val) => match val {
                        ValueType::String(s) => Ok(RedisValue::SimpleString(s)),
                        ValueType::Stream(_) => Err(Error::WrongTypeOperation),
                    },
                    None => Ok(RedisValue::NullBulkString),
                }
            },
            RedisCommand::Incr(key) => {
                match db.incr(key.as_str()) {
                    Ok(val) => Ok(RedisValue::Integer(val)),
                    Err(_) => Ok(
                        RedisValue::SimpleError(
                            String::from_str(
                                "ERR value is not an integer or out of range",
                            ),
                        ),
                    ),
                }
            },
            RedisCommand::Info(x) => {
                if str_eq(x.as_str(), "replication") {
                    let answer = db.info.replication_info();
                    let n = answer.as_str().unicode_len();
                    Ok(RedisValue::BulkString(n, answer))
                } else {
                    Err(Error::InvalidRedisCommand(self.clone()))
                }
            },
            RedisCommand::ReplConf => Ok(
                RedisValue::SimpleString(String::from_str("OK")),
            ),
            RedisCommand::ReplConfGetAck => {
                let digits = crate::digits::u64_to_string(db.processed_bytes as u64);
                let n = digits.as_str().unicode_len();
                let mut parts: Vec<RedisValue> = Vec::new();
                parts.push(RedisValue::bulkstring_from("REPLCONF"));
                parts.push(RedisValue::bulkstring_from("ACK"));
                parts.push(RedisValue::BulkString(n, digits));
                proof {
                    lemma_seq_view_props(parts@);
                    reveal_strlit("REPLCONF");
                    reveal_strlit("ACK");
                    assert(spec_seq_view(parts@)[0] == parts@[0]@);
                    assert(spec_seq_view(parts@)[1] == parts@[1]@);
                    assert(spec_seq_view(parts@)[2] == parts@[2]@);
                    assert(spec_seq_view(parts@) =~= seq![
                        RespView::BulkString(8, "REPLCONF"@),
                        RespView::BulkString(3, "ACK"@),
                        RespView::BulkString(
                            crate::digits::spec_udigits(db.processed_bytes as nat).len()
                                as int,
                            crate::digits::spec_udigits(db.processed_bytes as nat),
                        ),
                    ]);
                }
                Ok(RedisValue::Array(3, parts))
            },
            RedisCommand::Psync => {
                let mut out = String::from_str("FULLRESYNC ");
                let out = out.concat(db.info.master_replid.as_str());
                let out = out.concat(" 0");
                Ok(RedisValue::SimpleString(out))
            },
            RedisCommand::Wait(_, _) => Err(Error::InvalidRedisCommand(self.clone())),
            RedisCommand::ConfigGet(x) => {
                if str_eq(x.as_str(), "dir") {
                    let mut parts: Vec<RedisValue> = Vec::new();
                    parts.push(RedisValue::bulkstring_from("dir"));
                    parts.push(RedisValue::bulkstring_from(db.info.dir.as_str()));
                    proof {
                        lemma_seq_view_props(parts@);
                        reveal_strlit("dir");
                        assert(spec_seq_view(parts@)[0] == parts@[0]@);
                        assert(spec_seq_view(parts@)[1] == parts@[1]@);
                        assert(spec_seq_view(parts@) =~= seq![
                            RespView::BulkString(3, "dir"@),
                            RespView::BulkString(
                                db.info.dir@.len() as int,
                                db.info.dir@,
                            ),
                        ]);
                    }
                    Ok(RedisValue::Array(2, parts))
                } else if str_eq(x.as_str(), "dbfilename") {
                    let mut parts: Vec<RedisValue> = Vec::new();
                    parts.push(RedisValue::bulkstring_from("dbfilename"));
                    parts.push(RedisValue::bulkstring_from(db.info.dbfilename.as_str()));
                    proof {
                        lemma_seq_view_props(parts@);
                        reveal_strlit("dbfilename");
                        assert(spec_seq_view(parts@)[0] == parts@[0]@);
                        assert(spec_seq_view(parts@)[1] == parts@[1]@);
                        assert(spec_seq_view(parts@) =~= seq![
                            RespView::BulkString(10, "dbfilename"@),
                            RespView::BulkString(
                                db.info.dbfilename@.len() as int,
                                db.info.dbfilename@,
                            ),
                        ]);
                    }
                    Ok(RedisValue::Array(2, parts))
                } else {
                    Err(Error::InvalidRedisCommand(self.clone()))
                }
            },
            RedisCommand::Keys(pat) => {
                let ks = db.keys(pat.as_str());
                let mut parts: Vec<RedisValue> = Vec::new();
                let mut i: usize = 0;
                while i < ks.len()
                    invariant
                        i <= ks@.len(),
                        parts@.len() == i,
                        ks@.len() == db.inner.store@.len(),
                        forall|j: int| 0 <= j < ks@.len() ==> (#[trigger] ks@[j])@
                            == db.inner.store@[j].0@,
                        forall|j: int| 0 <= j < i ==> (#[trigger] parts@[j])@
                            == RespView::BulkString(ks@[j]@.len() as int, ks@[j]@),
                    decreases ks@.len() - i,
                {
                    parts.push(RedisValue::bulkstring_from(ks[i].as_str()));
                    i += 1;
                }
                let n = parts.len();
                proof {
                    lemma_seq_view_props(parts@);
                    assert forall|q: int| 0 <= q < spec_seq_view(parts@).len() implies
                        spec_seq_view(parts@)[q] == Seq::new(
                        db.inner.store@.len(),
                        |j: int|
                            RespView::BulkString(
                                db.inner.store@[j].0@.len() as int,
                                db.inner.store@[j].0@,
                            ),
                    )[q] by {
                        assert(spec_seq_view(parts@)[q] == parts@[q]@);
                    }
                    assert(spec_seq_view(parts@) =~= Seq::new(
                        db.inner.store@.len(),
                        |j: int|
                            RespView::BulkString(
                                db.inner.store@[j].0@.len() as int,
                                db.inner.store@[j].0@,
                            ),
                    ));
                }
                Ok(RedisValue::Array(n, parts))
            },
            RedisCommand::Type(key) => {
                match db.get(key.as_str(), now_ms) {
                    Some(val) => match val {
                        ValueType::String(_) => Ok(
                            RedisValue::SimpleString(String::from_str("string")),
                        ),
                        ValueType::Stream(_) => Ok(
                            RedisValue::SimpleString(String::from_str("stream")),
                        ),
                    },
                    None => Ok(RedisValue::SimpleString(String::from_str("none"))),
                }
            },
            RedisCommand::Xadd { key, stream_id, store } => {
                let pairs = crate::stream::clone_pairs(store);
                match db.xadd(key.as_str(), stream_id.as_str(), pairs, now_ms) {
                    Ok(idtext) => {
                        let v = RedisValue::bulkstring_from(idtext.as_str());
                        Ok(v)
                    },
                    Err(Error::InvalidStreamId { should_be_greater_than: _, got }) => {
                        if str_eq(got.as_str(), "0-0") {
                            Ok(
                                RedisValue::SimpleError(
                                    String::from_str(
                                        "ERR The ID specified in XADD must be greater than 0-0",
                                    ),
                                ),
                            )
                        } else {
                            Ok(
                                RedisValue::SimpleError(
                                    String::from_str(
                                        "ERR The ID specified in XADD is equal or smaller than the target stream top item",
                                    ),
                                ),
                            )
                        }
                    },
                    Err(_) => Err(Error::InvalidRedisCommand(self.clone())),
                }
            },
            RedisCommand::Xrange { key, stream_id_start, stream_id_end } => {
                match db.xrange(
                    key.as_str(),
                    stream_id_start.as_str(),
                    stream_id_end.as_str(),
                    now_ms,
                ) {
                    Ok(w) => Ok(build_entries_reply(&w)),
                    Err(e) => Err(e),
                }
            },
            RedisCommand::Xread { block: _, key_offset_pairs } => {
                let ghost m0 = db.store_map();
                let ghost pv = pairs_view(key_offset_pairs@);
                let mut comb: Vec<RedisValue> = Vec::new();
                let mut all_empty: bool = true;
                let mut i: usize = 0;
                proof {
                    assert(pv.subrange(0, pv.len() as int) =~= pv);
                    assert(spec_seq_view(comb@) =~= Seq::<RespView>::empty());
                    assert(Seq::<RespView>::empty() + spec_xread_fold(m0, pv, now_ms).0
                        =~= spec_xread_fold(m0, pv, now_ms).0);
                }
                while i < key_offset_pairs.len()
                    invariant
                        db.wf(),
                        i <= key_offset_pairs@.len(),
                        pv == pairs_view(key_offset_pairs@),
                        comb@.len() == i,
                        same_control(*old(db), *db),
                        db.pending_stream_xread == old(db).pending_stream_xread,
                        m0 == old(db).store_map(),
                        spec_xread_fold(
                            db.store_map(),
                            pv.subrange(i as int, pv.len() as int),
                            now_ms,
                        ).1 == spec_xread_fold(m0, pv, now_ms).1,
                        spec_xread_fold(m0, pv, now_ms).0 == spec_seq_view(comb@)
                            + spec_xread_fold(
                            db.store_map(),
                            pv.subrange(i as int, pv.len() as int),
                            now_ms,
                        ).0,
                        all_empty ==> (forall|j: int| 0 <= j < i
                            ==> ((#[trigger] spec_seq_view(comb@)[j]) matches
                            RespView::Array(cnt, _) && cnt == 1)),
                        !all_empty ==> (exists|j: int| 0 <= j < i
                            && !((#[trigger] spec_seq_view(comb@)[j]) matches
                            RespView::Array(cnt, _) && cnt == 1)),
                        spec_seq_view(comb@).len() == comb@.len(),
                        forall|j: int| 0 <= j < comb@.len() ==> spec_seq_view(comb@)[j]
                            == (#[trigger] comb@[j])@,
                    decreases key_offset_pairs@.len() - i,
                {
                    let key = key_offset_pairs[i].0.clone();
                    let sid = key_offset_pairs[i].1.clone();
                    let ghost mpre = db.store_map();
                    let w: Vec<(String, Vec<(String, String)>)> = match db.xread(
                        key.as_str(),
                        sid.as_str(),
                        now_ms,
                    ) {
                        Ok(w) => w,
                        Err(_) => Vec::new(),
                    };
                    let elem: RedisValue = if w.len() == 0 {
                        let mut one: Vec<RedisValue> = Vec::new();
                        one.push(RedisValue::bulkstring_from(key.as_str()));
                        proof {
                            lemma_seq_view_props(one@);
                            assert(spec_seq_view(one@)[0] == one@[0]@);
                            assert(spec_seq_view(one@) =~= seq![RespView::BulkString(
                                key@.len() as int,
                                key@,
                            )]);
                        }
                        RedisValue::Array(1, one)
                    } else {
                        let entries = build_entries_reply(&w);
                        let mut two: Vec<RedisValue> = Vec::new();
                        two.push(RedisValue::bulkstring_from(key.as_str()));
                        two.push(entries);
                        proof {
                            lemma_seq_view_props(two@);
                            assert(spec_seq_view(two@)[0] == two@[0]@);
                            assert(spec_seq_view(two@)[1] == two@[1]@);
                            assert(spec_seq_view(two@) =~= seq![
                                RespView::BulkString(key@.len() as int, key@),
                                spec_entries_reply(crate::stream::spec_scan_view(w@)),
                            ]);
                        }
                        RedisValue::Array(2, two)
                    };
                    proof {
                        let stepped = spec_xread_step(mpre, pv[i as int].0, pv[i as int].1, now_ms);
                        assert(pv[i as int].0 == key@ && pv[i as int].1 == sid@);
                        assert(elem@ == stepped.0);
                        assert(db.store_map() == stepped.1);
                        assert(pv.subrange(i as int, pv.len() as int).subrange(
                            1,
                            pv.len() - i,
                        ) == pv.subrange(i as int + 1, pv.len() as int));
                    }
                    let is_single = matches!(&elem, RedisValue::Array(1, _));
                    let ghost combpre = comb@;
                    comb.push(elem);
                    proof {
                        lemma_seq_view_props(comb@);
                        lemma_seq_view_props(combpre);
                        assert forall|q: int| 0 <= q < spec_seq_view(comb@).len() implies
                            spec_seq_view(comb@)[q] == spec_seq_view(combpre).push(
                            elem@,
                        )[q] by {
                            assert(spec_seq_view(comb@)[q] == comb@[q]@);
                            if q < combpre.len() {
                                assert(spec_seq_view(combpre)[q] == combpre[q]@);
                            }
                        }
                        assert(spec_seq_view(comb@) =~= spec_seq_view(combpre).push(
                            elem@,
                        ));
                        assert(spec_seq_view(comb@)[i as int] == elem@);
                        if is_single {
                            assert(elem@ matches RespView::Array(cnt, _) && cnt == 1);
                        } else {
                            assert(!(elem@ matches RespView::Array(cnt, _) && cnt == 1));
                        }
                        if all_empty && is_single {
                            assert forall|j: int| 0 <= j < i + 1 implies ((
                            #[trigger] spec_seq_view(comb@)[j]) matches RespView::Array(
                                cnt,
                                _,
                            ) && cnt == 1) by {
                                if j < i {
                                    assert(spec_seq_view(comb@)[j] == spec_seq_view(
                                        combpre,
                                    )[j]);
                                } else {
                                    assert(spec_seq_view(comb@)[j] == elem@);
                                }
                            }
                        } else if !is_single {
                            assert(!((spec_seq_view(comb@)[i as int]) matches
                            RespView::Array(cnt, _) && cnt == 1));
                        } else {
                            let j0 = choose|j: int|
                                0 <= j < i && !((#[trigger] spec_seq_view(combpre)[j])
                                    matches RespView::Array(cnt, _) && cnt == 1);
                            assert(spec_seq_view(comb@)[j0]
                                == spec_seq_view(combpre)[j0]);
                        }
                        assert(spec_seq_view(combpre) + (seq![elem@] + spec_xread_fold(
                            db.store_map(),
                            pv.subrange(i as int + 1, pv.len() as int),
                            now_ms,
                        ).0) =~= spec_seq_view(comb@) + spec_xread_fold(
                            db.store_map(),
                            pv.subrange(i as int + 1, pv.len() as int),
                            now_ms,
                        ).0);
                    }
                    all_empty = all_empty && is_single;
                    i += 1;
                }
                proof {
                    assert(pv.subrange(i as int, pv.len() as int) =~= Seq::<
                        (Seq<char>, Seq<char>),
                    >::empty());
                    assert(spec_xread_fold(db.store_map(), Seq::empty(), now_ms).0
                        =~= Seq::<RespView>::empty());
                    assert(spec_seq_view(comb@) + Seq::<RespView>::empty() =~= spec_seq_view(
                        comb@,
                    ));
                }
                if all_empty {
                    Ok(RedisValue::NullBulkString)
                } else {
                    let n = comb.len();
                    Ok(RedisValue::Array(n, comb))
                }
            },
            RedisCommand::Multi => Err(Error::InvalidRedisCommand(self.clone())),
            RedisCommand::Exec => Err(Error::InvalidRedisCommand(self.clone())),
            RedisCommand::Discard => Err(Error::InvalidRedisCommand(self.clone())),
        }
    }
}

} // verus!
