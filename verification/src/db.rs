//! The key-value engine and server state: typed values with lazy
//! expiration, per-key streams, replica accounting, and the global
//! connection state.

use vstd::prelude::*;

use crate::command::RedisCommand;
use crate::digits::{spec_int_chars, spec_udigits, i64_to_string, parse_i64_str};
use crate::error::Error;
use crate::stream::{
    entries_view, pairs_view, spec_append_ok, spec_resolve_id, view_last_id, EntryView,
    IdSpecError, Stream, StreamEntry, StreamId,
};
use crate::str_eq;
use crate::token::TokenTrack;

verus! {

/// The protocol states of the connection to the master (replica side)
/// and the two global waiting conditions, with times in milliseconds.
#[derive(Debug, Clone)]
pub enum ConnectionState {
    Ready,
    /// Start time, timeout, replicas requested, acknowledgements seen.
    Waiting(u64, u64, u64, u64),
    /// Start time, timeout, watched (key, last-seen id) pairs.
    BlockingStreams(u64, u64, Vec<(String, String)>),
    BeforePing,
    BeforeReplConf1,
    BeforeReplConf2,
    BeforePsync,
    BeforeRdbFile,
}

/// A stored value: flat text or a stream log.
#[derive(Debug)]
pub enum ValueType {
    String(String),
    Stream(Stream),
}

/// The model of a stored value.
pub enum VtView {
    Str(Seq<char>),
    Stream(Seq<(StreamId, Seq<(Seq<char>, Seq<char>)>)>),
}

impl View for ValueType {
    type V = VtView;

    open spec fn view(&self) -> VtView {
        match self {
            ValueType::String(s) => VtView::Str(s@),
            ValueType::Stream(st) => VtView::Stream(entries_view(st.entries@)),
        }
    }
}

/// A stored value with its optional expiry deadline (absolute, in
/// milliseconds).
#[derive(Debug)]
pub struct DbValue {
    pub value: ValueType,
    pub expires_at: Option<u64>,
}

/// The model of a stored value with its deadline.
pub struct DbValView {
    pub value: VtView,
    pub expires_at: Option<u64>,
}

impl View for DbValue {
    type V = DbValView;

    open spec fn view(&self) -> DbValView {
        DbValView { value: self.value@, expires_at: self.expires_at }
    }
}

/// Addition that stops at the top of the range instead of wrapping.
pub open spec fn spec_sat_add(a: u64, b: u64) -> u64 {
    if a + b > u64::MAX {
        u64::MAX
    } else {
        (a + b) as u64
    }
}

impl DbValue {
    /// A value is expired exactly when it has a deadline that has
    /// passed.
    pub open spec fn spec_expired(self, now_ms: u64) -> bool {
        match self.expires_at {
            Some(d) => now_ms >= d,
            None => false,
        }
    }

    /// Builds a value whose deadline, if any, lies the given span past
    /// the given clock.
    pub fn new(value: ValueType, expires_in: Option<u64>, now_ms: u64) -> (r: Self)
        ensures
            r.value == value,
            r.expires_at == (match expires_in {
                Some(d) => Some(spec_sat_add(now_ms, d)),
                None => None::<u64>,
            }),
    {
        let expires_at = match expires_in {
            Some(d) => {
                if now_ms <= u64::MAX - d {
                    Some(now_ms + d)
                } else {
                    Some(u64::MAX)
                }
            },
            None => None,
        };
        Self { value, expires_at }
    }

    /// Whether the deadline has passed.
    pub fn is_expired(&self, now_ms: u64) -> (r: bool)
        ensures
            r == self.spec_expired(now_ms),
    {
        match self.expires_at {
            Some(expires_at) => now_ms >= expires_at,
            None => false,
        }
    }
}

/// Identity and configuration of this server instance.
#[derive(Debug, Clone)]
pub struct DbInfo {
    pub role: String,
    pub port: u16,
    pub master_replid: String,
    pub master_repl_offset: u64,
    pub dir: String,
    pub dbfilename: String,
}

impl DbInfo {
    /// Builds the server identity with the fixed replication id and a
    /// zero offset.
    pub fn build(role: &str, port: u16, dir: &str, dbfilename: &str) -> (r: Self)
        ensures
            r.role@ == role@,
            r.port == port,
            r.master_replid@ == "8371b4fb1155b71f4a04d3e1bc3e18c4a990aeeb"@,
            r.master_repl_offset == 0,
            r.dir@ == dir@,
            r.dbfilename@ == dbfilename@,
    {
        let master_replid = String::from_str("8371b4fb1155b71f4a04d3e1bc3e18c4a990aeeb");
        Self {
            role: String::from_str(role),
            port,
            master_replid,
            master_repl_offset: 0,
            dir: String::from_str(dir),
            dbfilename: String::from_str(dbfilename),
        }
    }

    /// The replication section text.
    pub open spec fn spec_replication_info(self) -> Seq<char> {
        "role:"@ + self.role@ + "\r\n"@ + "master_replid:"@ + self.master_replid@
            + "\r\n"@ + "master_repl_offset:"@ + spec_udigits(
            self.master_repl_offset as nat,
        ) + "\r\n"@
    }

    /// Formats the replication section.
    pub fn replication_info(&self) -> (r: String)
        ensures
            r@ == self.spec_replication_info(),
    {
        let mut out = String::from_str("role:");
        let out = out.concat(self.role.as_str());
        let out = out.concat("\r\n");
        let out = out.concat("master_replid:");
        let out = out.concat(self.master_replid.as_str());
        let out = out.concat("\r\n");
        let out = out.concat("master_repl_offset:");
        let digits = crate::digits::u64_to_string(self.master_repl_offset);
        let out = out.concat(digits.as_str());
        let out = out.concat("\r\n");
        out
    }
}

/// The key space itself.
#[derive(Debug)]
pub struct InnerRedisDb {
    pub store: Vec<(String, DbValue)>,
}

impl InnerRedisDb {
    /// An empty key space.
    pub fn build() -> (r: Self)
        ensures
            r.store@.len() == 0,
    {
        Self { store: Vec::new() }
    }
}

/// No two entries share a key.
pub open spec fn keys_unique(s: Seq<(String, DbValue)>) -> bool {
    forall|i: int, j: int| 0 <= i < j < s.len() ==> (#[trigger] s[i].0)@ != (
    #[trigger] s[j].0)@
}

/// The mapping a key-value list denotes.
pub open spec fn spec_store_map(s: Seq<(String, DbValue)>) -> Map<Seq<char>, DbValView>
    decreases s.len(),
{
    if s.len() == 0 {
        Map::empty()
    } else {
        spec_store_map(s.drop_last()).insert(s.last().0@, s.last().1@)
    }
}

pub proof fn lemma_store_map_contains(s: Seq<(String, DbValue)>, k: Seq<char>)
    ensures
        spec_store_map(s).contains_key(k) <==> exists|i: int|
            0 <= i < s.len() && (#[trigger] s[i].0)@ == k,
    decreases s.len(),
{
    if s.len() > 0 {
        lemma_store_map_contains(s.drop_last(), k);
        if spec_store_map(s).contains_key(k) {
            if s.last().0@ != k {
                let i = choose|i: int|
                    0 <= i < s.drop_last().len() && (#[trigger] s.drop_last()[i].0)@ == k;
                assert(s[i].0@ == k);
            } else {
                assert(s[s.len() - 1].0@ == k);
            }
        }
        if exists|i: int| 0 <= i < s.len() && (#[trigger] s[i].0)@ == k {
            let i = choose|i: int| 0 <= i < s.len() && (#[trigger] s[i].0)@ == k;
            if i < s.len() - 1 {
                assert(s.drop_last()[i].0@ == k);
            }
        }
    }
}

pub proof fn lemma_store_map_index(s: Seq<(String, DbValue)>, i: int)
    requires
        keys_unique(s),
        0 <= i < s.len(),
    ensures
        spec_store_map(s).contains_key(s[i].0@),
        spec_store_map(s)[s[i].0@] == s[i].1@,
    decreases s.len(),
{
    if i == s.len() - 1 {
    } else {
        assert(keys_unique(s.drop_last())) by {
            assert(forall|a: int, b: int| 0 <= a < b < s.len() - 1 ==> (
            #[trigger] s.drop_last()[a].0)@ != (#[trigger] s.drop_last()[b].0)@) by {
                assert(forall|a: int, b: int| 0 <= a < b < s.len() ==> (#[trigger] s[a].0)@
                    != (#[trigger] s[b].0)@);
            }
        }
        lemma_store_map_index(s.drop_last(), i);
        assert(s[i].0@ != s.last().0@);
        assert(s.drop_last()[i] == s[i]);
    }
}

pub proof fn lemma_store_map_update(s: Seq<(String, DbValue)>, i: int, e: (String, DbValue))
    requires
        keys_unique(s),
        0 <= i < s.len(),
        e.0@ == s[i].0@,
    ensures
        spec_store_map(s.update(i, e)) == spec_store_map(s).insert(e.0@, e.1@),
        keys_unique(s.update(i, e)),
    decreases s.len(),
{
    let su = s.update(i, e);
    assert(keys_unique(su)) by {
        assert(forall|a: int| 0 <= a < s.len() ==> (#[trigger] su[a].0)@ == s[a].0@);
    }
    if i == s.len() - 1 {
        assert(su.drop_last() =~= s.drop_last());
        assert(su.last() == e);
        assert(spec_store_map(su) == spec_store_map(s.drop_last()).insert(e.0@, e.1@));
        assert(spec_store_map(s) == spec_store_map(s.drop_last()).insert(
            s.last().0@,
            s.last().1@,
        ));
        assert(spec_store_map(s).insert(e.0@, e.1@) =~= spec_store_map(
            s.drop_last(),
        ).insert(e.0@, e.1@));
    } else {
        assert(keys_unique(s.drop_last())) by {
            assert(forall|a: int, b: int| 0 <= a < b < s.len() ==> (#[trigger] s[a].0)@
                != (#[trigger] s[b].0)@);
            assert(forall|a: int| 0 <= a < s.len() - 1 ==> (#[trigger] s.drop_last()[a].0)@
                == s[a].0@);
        }
        lemma_store_map_update(s.drop_last(), i, e);
        assert(su.drop_last() =~= s.drop_last().update(i, e));
        assert(su.last() == s.last());
        assert(spec_store_map(su) == spec_store_map(s.drop_last().update(i, e)).insert(
            s.last().0@,
            s.last().1@,
        ));
        assert(e.0@ != s.last().0@);
        assert(spec_store_map(s.drop_last()).insert(e.0@, e.1@).insert(
            s.last().0@,
            s.last().1@,
        ) =~= spec_store_map(s.drop_last()).insert(s.last().0@, s.last().1@).insert(
            e.0@,
            e.1@,
        ));
    }
}

pub proof fn lemma_store_map_push(s: Seq<(String, DbValue)>, e: (String, DbValue))
    requires
        keys_unique(s),
        forall|i: int| 0 <= i < s.len() ==> (#[trigger] s[i].0)@ != e.0@,
    ensures
        spec_store_map(s.push(e)) == spec_store_map(s).insert(e.0@, e.1@),
        keys_unique(s.push(e)),
{
    assert(s.push(e).drop_last() =~= s);
    assert(keys_unique(s.push(e))) by {
        assert(forall|a: int| 0 <= a < s.len() ==> (#[trigger] s.push(e)[a].0)@ == s[a].0@);
        assert(s.push(e)[s.len() as int].0@ == e.0@);
    }
}

pub proof fn lemma_store_map_remove(s: Seq<(String, DbValue)>, i: int)
    requires
        keys_unique(s),
        0 <= i < s.len(),
    ensures
        spec_store_map(s.remove(i)) == spec_store_map(s).remove(s[i].0@),
        keys_unique(s.remove(i)),
    decreases s.len(),
{
    let sr = s.remove(i);
    assert(keys_unique(sr)) by {
        assert(forall|a: int| 0 <= a < i ==> (#[trigger] sr[a].0)@ == s[a].0@);
        assert(forall|a: int| i <= a < s.len() - 1 ==> (#[trigger] sr[a].0)@ == s[a + 1].0@);
    }
    if i == s.len() - 1 {
        assert(sr =~= s.drop_last());
        lemma_store_map_contains(s.drop_last(), s[i].0@);
        assert(forall|a: int| 0 <= a < s.len() - 1 ==> (#[trigger] s.drop_last()[a].0)@
            == s[a].0@);
        assert(!spec_store_map(s.drop_last()).contains_key(s[i].0@));
        assert(spec_store_map(sr) =~= spec_store_map(s).remove(s[i].0@));
    } else {
        assert(keys_unique(s.drop_last())) by {
            assert(forall|a: int, b: int| 0 <= a < b < s.len() ==> (#[trigger] s[a].0)@
                != (#[trigger] s[b].0)@);
            assert(forall|a: int| 0 <= a < s.len() - 1 ==> (#[trigger] s.drop_last()[a].0)@
                == s[a].0@);
        }
        lemma_store_map_remove(s.drop_last(), i);
        assert(sr.drop_last() =~= s.drop_last().remove(i));
        assert(sr.last() == s.last());
        assert(spec_store_map(sr) == spec_store_map(s.drop_last().remove(i)).insert(
            s.last().0@,
            s.last().1@,
        ));
        assert(s[i].0@ != s.last().0@);
        assert(spec_store_map(s.drop_last()).remove(s[i].0@).insert(
            s.last().0@,
            s.last().1@,
        ) =~= spec_store_map(s.drop_last()).insert(s.last().0@, s.last().1@).remove(
            s[i].0@,
        ));
    }
}

/// A replica connection on the master, by token, with whether it has
/// acknowledged everything sent so far. The socket itself lives with
/// the event loop, keyed by the same token.
#[derive(Debug, Clone, Copy, PartialEq, Eq, Structural)]
pub struct Replica {
    pub token: usize,
    pub up_to_date: bool,
}

impl Replica {
    /// A fresh replica starts up to date.
    pub fn new(token: usize) -> (r: Self)
        ensures
            r.token == token,
            r.up_to_date,
    {
        Self { token, up_to_date: true }
    }
}

/// The one blocking stream read that may be in flight: who asked, when,
/// for how long, and which (key, last-seen id) pairs are watched.
#[derive(Debug)]
pub struct PendingStreamXread {
    pub connection_token: usize,
    pub initial_time_ms: u64,
    pub timeout_ms: u64,
    pub key_offset_pairs: Vec<(String, String)>,
}

/// A stored value holds a well-formed stream, if it holds one.
pub open spec fn value_wf(v: ValueType) -> bool {
    match v {
        ValueType::Stream(st) => st.wf(),
        ValueType::String(_) => true,
    }
}

/// No two queued transactions belong to the same connection.
pub open spec fn txn_tokens_unique(s: Seq<(usize, Vec<RedisCommand>)>) -> bool {
    forall|i: int, j: int| 0 <= i < j < s.len() ==> (#[trigger] s[i]).0 != (
    #[trigger] s[j]).0
}

/// Number of replicas marked up to date.
pub open spec fn spec_count_uptodate(s: Seq<Replica>) -> int
    decreases s.len(),
{
    if s.len() == 0 {
        0
    } else {
        spec_count_uptodate(s.drop_last()) + (if s.last().up_to_date {
            1int
        } else {
            0int
        })
    }
}

/// The tokens a write must be pushed to, in replica order: everyone,
/// or only those lagging behind.
pub open spec fn spec_forward_tokens(s: Seq<Replica>, only_stale: bool, pos: int) -> Seq<
    usize,
>
    decreases s.len() - pos,
{
    if pos < 0 || pos >= s.len() {
        Seq::empty()
    } else if s[pos].up_to_date && only_stale {
        spec_forward_tokens(s, only_stale, pos + 1)
    } else {
        seq![s[pos].token] + spec_forward_tokens(s, only_stale, pos + 1)
    }
}

/// The first index whose replica carries the given token, or the
/// length.
pub open spec fn spec_replica_pos(s: Seq<Replica>, token: usize, pos: int) -> int
    decreases s.len() - pos,
{
    if pos < 0 || pos >= s.len() {
        s.len() as int
    } else if s[pos].token == token {
        pos
    } else {
        spec_replica_pos(s, token, pos + 1)
    }
}

/// The whole server state: identity, global connection state, the key
/// space, replicas, replication byte count, token counters, the one
/// pending blocking read, and the open transaction queues.
#[derive(Debug)]
pub struct RedisDb {
    pub info: DbInfo,
    pub state: ConnectionState,
    pub inner: InnerRedisDb,
    pub replicas: Vec<Replica>,
    pub processed_bytes: usize,
    pub token_track: TokenTrack,
    pub pending_stream_xread: Option<PendingStreamXread>,
    pub ongoing_transactions: Vec<(usize, Vec<RedisCommand>)>,
}

/// Everything except the key space and the pending read is unchanged.
pub open spec fn same_control(pre: RedisDb, post: RedisDb) -> bool {
    &&& post.info == pre.info
    &&& post.state == pre.state
    &&& post.replicas == pre.replicas
    &&& post.processed_bytes == pre.processed_bytes
    &&& post.token_track == pre.token_track
    &&& post.ongoing_transactions == pre.ongoing_transactions
}

impl RedisDb {
    /// The mapping the key space denotes.
    pub open spec fn store_map(self) -> Map<Seq<char>, DbValView> {
        spec_store_map(self.inner.store@)
    }

    /// Keys are unique, stored streams are well formed, and open
    /// transactions belong to distinct connections.
    pub open spec fn wf(self) -> bool {
        &&& keys_unique(self.inner.store@)
        &&& (forall|i: int| 0 <= i < self.inner.store@.len() ==> value_wf(
            (#[trigger] self.inner.store@[i]).1.value,
        ))
        &&& txn_tokens_unique(self.ongoing_transactions@)
    }

    /// A fresh server state with an empty key space.
    pub fn build(info: DbInfo, state: ConnectionState) -> (r: Self)
        ensures
            r.wf(),
            r.info == info,
            r.state == state,
            r.store_map() == Map::<Seq<char>, DbValView>::empty(),
            r.replicas@.len() == 0,
            r.processed_bytes == 0,
            r.pending_stream_xread is None,
            r.ongoing_transactions@.len() == 0,
    {
        Self {
            info,
            state,
            inner: InnerRedisDb::build(),
            replicas: Vec::new(),
            processed_bytes: 0,
            token_track: TokenTrack::new(),
            pending_stream_xread: None,
            ongoing_transactions: Vec::new(),
        }
    }

    /// Finds the slot holding `key`, if any.
    fn find_key(&self, key: &str) -> (r: Option<usize>)
        ensures
            match r {
                Some(i) => i < self.inner.store@.len() && self.inner.store@[i as int].0@
                    == key@,
                None => forall|i: int| 0 <= i < self.inner.store@.len()
                    ==> (#[trigger] self.inner.store@[i]).0@ != key@,
            },
    {
        let mut i: usize = 0;
        while i < self.inner.store.len()
            invariant
                i <= self.inner.store@.len(),
                forall|j: int| 0 <= j < i ==> (#[trigger] self.inner.store@[j]).0@ != key@,
            decreases self.inner.store@.len() - i,
        {
            if str_eq(self.inner.store[i].0.as_str(), key) {
                return Some(i);
            }
            i += 1;
        }
        None
    }

    /// Upserts `key`: the new value stands in the mapping, with a
    /// deadline the given span past the clock if one was asked for,
    /// and any earlier deadline is gone.
    pub fn set(&mut self, key: String, value: ValueType, px: Option<u64>, now_ms: u64)
        requires
            old(self).wf(),
            value_wf(value),
        ensures
            final(self).wf(),
            same_control(*old(self), *final(self)),
            final(self).pending_stream_xread == old(self).pending_stream_xread,
            final(self).store_map() == old(self).store_map().insert(
                key@,
                DbValView {
                    value: value@,
                    expires_at: match px {
                        Some(d) => Some(spec_sat_add(now_ms, d)),
                        None => None::<u64>,
                    },
                },
            ),
    {
        let dbv = DbValue::new(value, px, now_ms);
        match self.find_key(key.as_str()) {
            Some(i) => {
                let ghost s0 = self.inner.store@;
                self.inner.store[i] = (key, dbv);
                proof {
                    lemma_store_map_update(s0, i as int, self.inner.store@[i as int]);
                }
            },
            None => {
                let ghost s0 = self.inner.store@;
                self.inner.store.push((key, dbv));
                proof {
                    lemma_store_map_push(s0, self.inner.store@.last());
                }
            },
        }
    }

    /// Looks `key` up. A value whose deadline has passed is removed
    /// and not returned; otherwise the stored value is returned and
    /// the mapping is untouched.
    pub fn get(&mut self, key: &str, now_ms: u64) -> (r: Option<ValueType>)
        requires
            old(self).wf(),
        ensures
            final(self).wf(),
            same_control(*old(self), *final(self)),
            final(self).pending_stream_xread == old(self).pending_stream_xread,
            ({
                let m = old(self).store_map();
                if m.contains_key(key@) {
                    if (m[key@].expires_at matches Some(d) && now_ms >= d) {
                        r is None && final(self).store_map() == m.remove(key@)
                    } else {
                        (r matches Some(v) && v@ == m[key@].value && value_wf(v))
                            && final(self).store_map() == m
                    }
                } else {
                    r is None && final(self).store_map() == m
                }
            }),
    {
        proof {
            lemma_store_map_contains(self.inner.store@, key@);
        }
        match self.find_key(key) {
            None => None,
            Some(i) => {
                proof {
                    lemma_store_map_index(self.inner.store@, i as int);
                }
                if self.inner.store[i].1.is_expired(now_ms) {
                    let ghost s0 = self.inner.store@;
                    self.inner.store.remove(i);
                    proof {
                        lemma_store_map_remove(s0, i as int);
                    }
                    None
                } else {
                    Some(clone_value(&self.inner.store[i].1.value))
                }
            },
        }
    }

    /// Increments the counter at `key`. An absent key becomes `1`; a
    /// text holding a signed 64-bit number below the top of its range
    /// is replaced by its successor, keeping its deadline; anything
    /// else is refused and nothing changes.
    pub fn incr(&mut self, key: &str) -> (r: Result<i64, Error>)
        requires
            old(self).wf(),
        ensures
            final(self).wf(),
            same_control(*old(self), *final(self)),
            final(self).pending_stream_xread == old(self).pending_stream_xread,
            ({
                let m = old(self).store_map();
                if !m.contains_key(key@) {
                    (r matches Ok(v) && v == 1) && final(self).store_map() == m.insert(
                        key@,
                        DbValView { value: VtView::Str("1"@), expires_at: None },
                    )
                } else {
                    match m[key@].value {
                        VtView::Str(s) => {
                            if crate::digits::valid_int_body(s) && i64::MIN
                                <= crate::digits::int_body_val(s) <= i64::MAX {
                                let v0 = crate::digits::int_body_val(s);
                                if v0 < i64::MAX {
                                    (r matches Ok(v) && v == v0 + 1)
                                        && final(self).store_map() == m.insert(
                                        key@,
                                        DbValView {
                                            value: VtView::Str(spec_int_chars(v0 + 1)),
                                            expires_at: m[key@].expires_at,
                                        },
                                    )
                                } else {
                                    (r matches Err(e) && e matches Error::ParseIntError)
                                        && final(self).store_map() == m
                                }
                            } else {
                                (r matches Err(e) && e matches Error::ParseIntError)
                                    && final(self).store_map() == m
                            }
                        },
                        VtView::Stream(_) => (r matches Err(e) && e matches
                        Error::WrongTypeOperation) && final(self).store_map() == m,
                    }
                }
            }),
    {
        proof {
            lemma_store_map_contains(self.inner.store@, key@);
        }
        match self.find_key(key) {
            None => {
                let ghost s0 = self.inner.store@;
                let one = String::from_str("1");
                self.inner.store.push(
                    (
                        String::from_str(key),
                        DbValue { value: ValueType::String(one), expires_at: None },
                    ),
                );
                proof {
                    lemma_store_map_push(s0, self.inner.store@.last());
                }
                Ok(1)
            },
            Some(i) => {
                proof {
                    lemma_store_map_index(self.inner.store@, i as int);
                }
                let parsed: Option<i64> = match &self.inner.store[i].1.value {
                    ValueType::String(s) => parse_i64_str(s.as_str()),
                    ValueType::Stream(_) => {
                        return Err(Error::WrongTypeOperation);
                    },
                };
                match parsed {
                    None => Err(Error::ParseIntError),
                    Some(v0) => {
                        if v0 == i64::MAX {
                            Err(Error::ParseIntError)
                        } else {
                            let ghost s0 = self.inner.store@;
                            let k2 = self.inner.store[i].0.clone();
                            let exp = self.inner.store[i].1.expires_at;
                            let ns = i64_to_string(v0 + 1);
                            self.inner.store[i] = (
                                k2,
                                DbValue { value: ValueType::String(ns), expires_at: exp },
                            );
                            proof {
                                lemma_store_map_update(
                                    s0,
                                    i as int,
                                    self.inner.store@[i as int],
                                );
                            }
                            Ok(v0 + 1)
                        }
                    },
                }
            },
        }
    }

    /// All keys, in storage order. The pattern is not consulted: every
    /// key matches the one pattern the interface requires.
    pub fn keys(&self, _pat: &str) -> (r: Vec<String>)
        ensures
            r@.len() == self.inner.store@.len(),
            forall|i: int| 0 <= i < r@.len() ==> (#[trigger] r@[i])@
                == self.inner.store@[i].0@,
    {
        let mut out: Vec<String> = Vec::new();
        let mut i: usize = 0;
        while i < self.inner.store.len()
            invariant
                i <= self.inner.store@.len(),
                out@.len() == i,
                forall|j: int| 0 <= j < i ==> (#[trigger] out@[j])@
                    == self.inner.store@[j].0@,
            decreases self.inner.store@.len() - i,
        {
            let k = self.inner.store[i].0.clone();
            out.push(k);
            i += 1;
        }
        out
    }

    /// Whether this instance mirrors a master.
    pub fn is_replica(&self) -> (r: bool)
        ensures
            r == (self.info.role@ == "slave"@),
    {
        str_eq(self.info.role.as_str(), "slave")
    }

    /// Records a newly registered replica, which starts up to date.
    pub fn register_replica(&mut self, replica_token: usize)
        ensures
            final(self).replicas@ == old(self).replicas@.push(
                Replica { token: replica_token, up_to_date: true },
            ),
            *final(self) == (RedisDb { replicas: final(self).replicas, ..*old(self) }),
    {
        self.replicas.push(Replica::new(replica_token));
    }

    /// How many replicas are up to date.
    pub fn get_nb_uptodate_replicas(&self) -> (r: usize)
        ensures
            r as int == spec_count_uptodate(self.replicas@),
    {
        let mut count: usize = 0;
        let mut i: usize = 0;
        proof {
            lemma_count_uptodate_bounds(self.replicas@.subrange(0, 0));
        }
        while i < self.replicas.len()
            invariant
                i <= self.replicas@.len(),
                count as int == spec_count_uptodate(self.replicas@.subrange(0, i as int)),
                count <= i,
            decreases self.replicas@.len() - i,
        {
            let ghost pre = self.replicas@.subrange(0, i as int);
            let ghost cur = self.replicas@.subrange(0, i as int + 1);
            proof {
                assert(cur.drop_last() == pre);
                assert(cur.last() == self.replicas@[i as int]);
            }
            if self.replicas[i].up_to_date {
                count += 1;
            }
            i += 1;
        }
        proof {
            assert(self.replicas@.subrange(0, self.replicas@.len() as int)
                == self.replicas@);
        }
        count
    }

    /// Marks every replica as lagging.
    pub fn mark_replicas_as_outdated(&mut self)
        ensures
            final(self).replicas@.len() == old(self).replicas@.len(),
            forall|i: int| 0 <= i < old(self).replicas@.len()
                ==> (#[trigger] final(self).replicas@[i]) == (Replica {
                token: old(self).replicas@[i].token,
                up_to_date: false,
            }),
            *final(self) == (RedisDb { replicas: final(self).replicas, ..*old(self) }),
    {
        let mut i: usize = 0;
        while i < self.replicas.len()
            invariant
                i <= self.replicas@.len(),
                self.replicas@.len() == old(self).replicas@.len(),
                forall|j: int| 0 <= j < i ==> (#[trigger] self.replicas@[j]) == (Replica {
                    token: old(self).replicas@[j].token,
                    up_to_date: false,
                }),
                forall|j: int| i <= j < self.replicas@.len()
                    ==> (#[trigger] self.replicas@[j]) == old(self).replicas@[j],
                *self == (RedisDb { replicas: self.replicas, ..*old(self) }),
            decreases self.replicas@.len() - i,
        {
            let tok = self.replicas[i].token;
            self.replicas[i] = Replica { token: tok, up_to_date: false };
            i += 1;
        }
    }

    /// Marks the replica carrying `token` as up to date. One must
    /// exist.
    pub fn mark_replica_as_uptodate(&mut self, token: usize)
        requires
            exists|i: int| 0 <= i < old(self).replicas@.len() && (#[trigger] old(
                self,
            ).replicas@[i]).token == token,
        ensures
            final(self).replicas@ == old(self).replicas@.update(
                spec_replica_pos(old(self).replicas@, token, 0),
                Replica { token, up_to_date: true },
            ),
            *final(self) == (RedisDb { replicas: final(self).replicas, ..*old(self) }),
    {
        let mut i: usize = 0;
        while i < self.replicas.len()
            invariant
                i <= self.replicas@.len(),
                *self == *old(self),
                spec_replica_pos(self.replicas@, token, 0) == spec_replica_pos(
                    self.replicas@,
                    token,
                    i as int,
                ),
                forall|j: int| 0 <= j < i ==> (#[trigger] self.replicas@[j]).token
                    != token,
            decreases self.replicas@.len() - i,
        {
            if self.replicas[i].token == token {
                proof {
                    assert(spec_replica_pos(self.replicas@, token, i as int) == i as int);
                }
                self.replicas[i] = Replica { token, up_to_date: true };
                return ;
            }
            proof {
                assert(spec_replica_pos(self.replicas@, token, i as int)
                    == spec_replica_pos(self.replicas@, token, i as int + 1));
            }
            i += 1;
        }
        proof {
            let w = choose|j: int|
                0 <= j < self.replicas@.len() && (#[trigger] self.replicas@[j]).token
                    == token;
            assert(false);
        }
    }

    /// The tokens a write must be pushed to, in replica order:
    /// everyone, or only those lagging behind.
    pub fn replicas_to_forward(&self, only_stale: bool) -> (r: Vec<usize>)
        ensures
            r@ == spec_forward_tokens(self.replicas@, only_stale, 0),
    {
        let mut out: Vec<usize> = Vec::new();
        let mut i: usize = 0;
        while i < self.replicas.len()
            invariant
                i <= self.replicas@.len(),
                spec_forward_tokens(self.replicas@, only_stale, 0) == out@
                    + spec_forward_tokens(self.replicas@, only_stale, i as int),
            decreases self.replicas@.len() - i,
        {
            if self.replicas[i].up_to_date && only_stale {
                proof {
                    assert(spec_forward_tokens(self.replicas@, only_stale, i as int)
                        == spec_forward_tokens(self.replicas@, only_stale, i as int + 1));
                }
            } else {
                let ghost before = out@;
                out.push(self.replicas[i].token);
                proof {
                    assert(spec_forward_tokens(self.replicas@, only_stale, i as int)
                        == seq![self.replicas@[i as int].token] + spec_forward_tokens(
                        self.replicas@,
                        only_stale,
                        i as int + 1,
                    ));
                    assert(before + spec_forward_tokens(
                        self.replicas@,
                        only_stale,
                        i as int,
                    ) =~= out@ + spec_forward_tokens(
                        self.replicas@,
                        only_stale,
                        i as int + 1,
                    ));
                }
            }
            i += 1;
        }
        proof {
            assert(spec_forward_tokens(self.replicas@, only_stale, i as int) =~= Seq::<
                usize,
            >::empty());
            assert(out@ + Seq::<usize>::empty() =~= out@);
        }
        out
    }
}

pub proof fn lemma_count_uptodate_bounds(s: Seq<Replica>)
    ensures
        0 <= spec_count_uptodate(s) <= s.len(),
    decreases s.len(),
{
    if s.len() > 0 {
        lemma_count_uptodate_bounds(s.drop_last());
    }
}

/// Clones a stored value, entry for entry.
pub fn clone_value(v: &ValueType) -> (r: ValueType)
    ensures
        r@ == v@,
        value_wf(*v) ==> value_wf(r),
{
    match v {
        ValueType::String(s) => ValueType::String(s.clone()),
        ValueType::Stream(st) => {
            let mut entries: Vec<StreamEntry> = Vec::new();
            let mut i: usize = 0;
            while i < st.entries.len()
                invariant
                    i <= st.entries@.len(),
                    entries@.len() == i,
                    forall|j: int| 0 <= j < i ==> (#[trigger] entries@[j]).stream_id
                        == st.entries@[j].stream_id && pairs_view(entries@[j].store@)
                        == pairs_view(st.entries@[j].store@),
                decreases st.entries@.len() - i,
            {
                let id = st.entries[i].stream_id;
                let fields = crate::stream::clone_pairs(&st.entries[i].store);
                entries.push(StreamEntry { stream_id: id, store: fields });
                i += 1;
            }
            let out = Stream { entries };
            proof {
                assert(entries_view(out.entries@) =~= entries_view(st.entries@));
                if st.wf() {
                    assert(out.wf());
                }
            }
            ValueType::Stream(out)
        },
    }
}

/// Whether one of the watched pairs names `key`.
fn pairs_contain_key(v: &Vec<(String, String)>, key: &str) -> (r: bool)
    ensures
        r == (exists|i: int| 0 <= i < v@.len() && (#[trigger] v@[i]).0@ == key@),
{
    let mut i: usize = 0;
    while i < v.len()
        invariant
            i <= v@.len(),
            forall|j: int| 0 <= j < i ==> (#[trigger] v@[j]).0@ != key@,
        decreases v@.len() - i,
    {
        if str_eq(v[i].0.as_str(), key) {
            return true;
        }
        i += 1;
    }
    false
}

impl RedisDb {
    /// The stored stream entries under `key` in mapping `m`, or the
    /// empty run for an absent key.
    pub open spec fn spec_stream_at(m: Map<Seq<char>, DbValView>, k: Seq<char>) -> Seq<
        EntryView,
    > {
        if m.contains_key(k) && (m[k].value matches VtView::Stream(es)) {
            m[k].value->Stream_0
        } else {
            Seq::empty()
        }
    }

    /// The stored deadline under `key`, or none for an absent key.
    pub open spec fn spec_expiry_at(m: Map<Seq<char>, DbValView>, k: Seq<char>) -> Option<
        u64,
    > {
        if m.contains_key(k) {
            m[k].expires_at
        } else {
            None
        }
    }

    /// Whether `key` holds flat text in mapping `m`.
    pub open spec fn spec_holds_text(m: Map<Seq<char>, DbValView>, k: Seq<char>) -> bool {
        m.contains_key(k) && (m[k].value matches VtView::Str(_))
    }

    /// The watched pending read, if any, nudged: a blocking read with
    /// no deadline that watches `key` has its timeout set to one
    /// millisecond so the next tick resolves it.
    pub open spec fn spec_pending_nudged(
        pre: Option<PendingStreamXread>,
        post: Option<PendingStreamXread>,
        k: Seq<char>,
    ) -> bool {
        match pre {
            Some(p) => {
                if p.timeout_ms == 0 && (exists|i: int|
                    0 <= i < p.key_offset_pairs@.len() && (
                    #[trigger] p.key_offset_pairs@[i]).0@ == k) {
                    post matches Some(q) && q.connection_token == p.connection_token
                        && q.initial_time_ms == p.initial_time_ms && q.timeout_ms == 1
                        && q.key_offset_pairs == p.key_offset_pairs
                } else {
                    post == pre
                }
            },
            None => post == pre,
        }
    }

    /// Appends to the stream at `key`, creating an empty stream first
    /// if the key is absent — the created stream stays even when the
    /// id is refused. A key holding text is refused outright. A
    /// blocking read watching `key` with no deadline is nudged to
    /// resolve.
    pub fn xadd(
        &mut self,
        key: &str,
        stream_id: &str,
        store_pairs: Vec<(String, String)>,
        now_ms: u64,
    ) -> (r: Result<String, Error>)
        requires
            old(self).wf(),
        ensures
            final(self).wf(),
            same_control(*old(self), *final(self)),
            Self::spec_pending_nudged(
                old(self).pending_stream_xread,
                final(self).pending_stream_xread,
                key@,
            ),
            ({
                let m = old(self).store_map();
                if Self::spec_holds_text(m, key@) {
                    (r matches Err(e) && e matches Error::WrongTypeOperation)
                        && final(self).store_map() == m
                } else {
                    let es = Self::spec_stream_at(m, key@);
                    let exp = Self::spec_expiry_at(m, key@);
                    match spec_resolve_id(view_last_id(es), stream_id@, now_ms) {
                        Err(IdSpecError::TooLong) => (r matches Err(e) && e matches
                        Error::CantConvertToMsTimestamp(_)) && final(self).store_map()
                            == m.insert(
                            key@,
                            DbValView { value: VtView::Stream(es), expires_at: exp },
                        ),
                        Err(IdSpecError::NotANumber) => (r matches Err(e) && e matches
                        Error::ParseIntError) && final(self).store_map() == m.insert(
                            key@,
                            DbValView { value: VtView::Stream(es), expires_at: exp },
                        ),
                        Ok(id) => {
                            if view_last_id(es).spec_lt(id) {
                                (r matches Ok(out) && out@ == id.spec_chars())
                                    && final(self).store_map() == m.insert(
                                    key@,
                                    DbValView {
                                        value: VtView::Stream(
                                            es.push((id, pairs_view(store_pairs@))),
                                        ),
                                        expires_at: exp,
                                    },
                                )
                            } else {
                                (r matches Err(e) && (e matches Error::InvalidStreamId {
                                    should_be_greater_than,
                                    got,
                                } && should_be_greater_than@ == view_last_id(
                                    es,
                                ).spec_chars() && got@ == id.spec_chars()))
                                    && final(self).store_map() == m.insert(
                                    key@,
                                    DbValView {
                                        value: VtView::Stream(es),
                                        expires_at: exp,
                                    },
                                )
                            }
                        },
                    }
                }
            }),
    {
        let watch_hit: bool = match &self.pending_stream_xread {
            Some(p) => p.timeout_ms == 0 && pairs_contain_key(&p.key_offset_pairs, key),
            None => false,
        };
        if watch_hit {
            match &mut self.pending_stream_xread {
                Some(p) => {
                    p.timeout_ms = 1;
                },
                None => {},
            }
        }
        proof {
            lemma_store_map_contains(self.inner.store@, key@);
        }
        let ghost m = old(self).store_map();
        match self.find_key(key) {
            None => {
                let mut st = Stream::new();
                proof {
                    assert(entries_view(st.entries@) =~= Seq::<EntryView>::empty());
                }
                match st.create_stream_id(stream_id, now_ms) {
                    Err(e) => {
                        let ghost s0 = self.inner.store@;
                        self.inner.store.push(
                            (
                                String::from_str(key),
                                DbValue { value: ValueType::Stream(st), expires_at: None },
                            ),
                        );
                        proof {
                            lemma_store_map_push(s0, self.inner.store@.last());
                            assert(self.inner.store@.last().1@ == DbValView {
                                value: VtView::Stream(Seq::<EntryView>::empty()),
                                expires_at: None,
                            });
                        }
                        Err(e)
                    },
                    Ok(id) => {
                        let res = st.xadd(store_pairs, Some(id), now_ms);
                        let ghost esf = entries_view(st.entries@);
                        proof {
                            if res is Ok {
                                assert(esf =~= Seq::<EntryView>::empty().push(
                                    (id, pairs_view(store_pairs@)),
                                ));
                            } else {
                                assert(esf =~= Seq::<EntryView>::empty());
                            }
                        }
                        let out: Result<String, Error> = match res {
                            Ok(got) => Ok(got.format()),
                            Err(e) => Err(e),
                        };
                        let ghost s0 = self.inner.store@;
                        self.inner.store.push(
                            (
                                String::from_str(key),
                                DbValue { value: ValueType::Stream(st), expires_at: None },
                            ),
                        );
                        proof {
                            lemma_store_map_push(s0, self.inner.store@.last());
                            assert(self.inner.store@.last().1@ == DbValView {
                                value: VtView::Stream(esf),
                                expires_at: None,
                            });
                        }
                        out
                    },
                }
            },
            Some(i) => {
                proof {
                    lemma_store_map_index(self.inner.store@, i as int);
                }
                let is_stream = matches!(&self.inner.store[i].1.value, ValueType::Stream(_));
                if !is_stream {
                    proof {
                        assert(m.insert(key@, m[key@]) =~= m);
                    }
                    return Err(Error::WrongTypeOperation);
                }
                let created = match &self.inner.store[i].1.value {
                    ValueType::Stream(st) => st.create_stream_id(stream_id, now_ms),
                    ValueType::String(_) => {
                        proof {
                            assert(false);
                        }
                        Err(Error::WrongTypeOperation)
                    },
                };
                proof {
                    let dv = m[key@];
                    assert(dv.value == VtView::Stream(Self::spec_stream_at(m, key@)));
                    assert(dv == (DbValView {
                        value: VtView::Stream(Self::spec_stream_at(m, key@)),
                        expires_at: Self::spec_expiry_at(m, key@),
                    }));
                    assert(m.insert(key@, dv) =~= m);
                }
                match created {
                    Err(e) => Err(e),
                    Ok(id) => {
                        let ghost s0 = self.inner.store@;
                        let res: Result<StreamId, Error> = match &mut self.inner.store[i].1.value
                        {
                            ValueType::Stream(st) => st.xadd(store_pairs, Some(id), now_ms),
                            ValueType::String(_) => {
                                proof {
                                    assert(false);
                                }
                                Err(Error::WrongTypeOperation)
                            },
                        };
                        proof {
                            assert(self.inner.store@ == s0.update(
                                i as int,
                                self.inner.store@[i as int],
                            ));
                            assert(self.inner.store@[i as int].0@ == key@);
                            lemma_store_map_update(
                                s0,
                                i as int,
                                self.inner.store@[i as int],
                            );
                            let elem = self.inner.store@[i as int].1;
                            assert(elem.expires_at == Self::spec_expiry_at(m, key@));
                            assert(elem.value matches ValueType::Stream(_));
                            if res is Ok {
                                assert(entries_view(elem.value->Stream_0.entries@)
                                    =~= Self::spec_stream_at(m, key@).push(
                                    (id, pairs_view(store_pairs@)),
                                ));
                                assert(elem@ == DbValView {
                                    value: VtView::Stream(
                                        Self::spec_stream_at(m, key@).push(
                                            (id, pairs_view(store_pairs@)),
                                        ),
                                    ),
                                    expires_at: Self::spec_expiry_at(m, key@),
                                });
                            } else {
                                assert(entries_view(elem.value->Stream_0.entries@)
                                    =~= Self::spec_stream_at(m, key@));
                                assert(elem@ == DbValView {
                                    value: VtView::Stream(Self::spec_stream_at(m, key@)),
                                    expires_at: Self::spec_expiry_at(m, key@),
                                });
                            }
                        }
                        match res {
                            Ok(got) => Ok(got.format()),
                            Err(e) => Err(e),
                        }
                    },
                }
            },
        }
    }
}

impl RedisDb {
    /// Inserts an empty stream under `key`, which must be absent.
    fn create_empty_stream(&mut self, key: &str)
        requires
            old(self).wf(),
            !old(self).store_map().contains_key(key@),
        ensures
            final(self).wf(),
            same_control(*old(self), *final(self)),
            final(self).pending_stream_xread == old(self).pending_stream_xread,
            final(self).store_map() == old(self).store_map().insert(
                key@,
                DbValView {
                    value: VtView::Stream(Seq::<EntryView>::empty()),
                    expires_at: None,
                },
            ),
    {
        proof {
            lemma_store_map_contains(self.inner.store@, key@);
        }
        let st = Stream::new();
        proof {
            assert(entries_view(st.entries@) =~= Seq::<EntryView>::empty());
        }
        let ghost s0 = self.inner.store@;
        self.inner.store.push(
            (
                String::from_str(key),
                DbValue { value: ValueType::Stream(st), expires_at: None },
            ),
        );
        proof {
            lemma_store_map_push(s0, self.inner.store@.last());
        }
    }

    /// Scans the stream at `key` between two id specs, inclusive on
    /// both ends, creating an empty stream if the key is absent. A key
    /// holding text is refused.
    pub fn xrange(
        &mut self,
        key: &str,
        stream_id_start: &str,
        stream_id_end: &str,
        now_ms: u64,
    ) -> (r: Result<Vec<(String, Vec<(String, String)>)>, Error>)
        requires
            old(self).wf(),
        ensures
            final(self).wf(),
            same_control(*old(self), *final(self)),
            final(self).pending_stream_xread == old(self).pending_stream_xread,
            ({
                let m = old(self).store_map();
                if Self::spec_holds_text(m, key@) {
                    (r matches Err(e) && e matches Error::WrongTypeOperation)
                        && final(self).store_map() == m
                } else {
                    let es = Self::spec_stream_at(m, key@);
                    (final(self).store_map() == if m.contains_key(key@) {
                        m
                    } else {
                        m.insert(
                            key@,
                            DbValView {
                                value: VtView::Stream(Seq::<EntryView>::empty()),
                                expires_at: None,
                            },
                        )
                    }) && match crate::stream::spec_xrange_v(
                        es,
                        stream_id_start@,
                        stream_id_end@,
                        now_ms,
                    ) {
                        Ok(w) => r matches Ok(v) && crate::stream::spec_scan_view(v@)
                            == w,
                        Err(IdSpecError::TooLong) => r matches Err(e) && e matches
                        Error::CantConvertToMsTimestamp(_),
                        Err(IdSpecError::NotANumber) => r matches Err(e) && e matches
                        Error::ParseIntError,
                    }
                }
            }),
    {
        proof {
            lemma_store_map_contains(self.inner.store@, key@);
        }
        match self.find_key(key) {
            None => {
                self.create_empty_stream(key);
                let out: Vec<(String, Vec<(String, String)>)> = Vec::new();
                proof {
                    assert(crate::stream::spec_scan_view(out@) =~= Seq::<
                        (Seq<char>, Seq<(Seq<char>, Seq<char>)>),
                    >::empty());
                }
                Ok(out)
            },
            Some(i) => {
                proof {
                    lemma_store_map_index(self.inner.store@, i as int);
                }
                match &self.inner.store[i].1.value {
                    ValueType::String(_) => Err(Error::WrongTypeOperation),
                    ValueType::Stream(st) => st.xrange(
                        stream_id_start,
                        stream_id_end,
                        now_ms,
                    ),
                }
            },
        }
    }

    /// Scans the stream at `key` strictly after the given id spec,
    /// creating an empty stream if the key is absent. A key holding
    /// text is refused.
    pub fn xread(&mut self, key: &str, stream_id_start: &str, now_ms: u64) -> (r: Result<
        Vec<(String, Vec<(String, String)>)>,
        Error,
    >)
        requires
            old(self).wf(),
        ensures
            final(self).wf(),
            same_control(*old(self), *final(self)),
            final(self).pending_stream_xread == old(self).pending_stream_xread,
            ({
                let m = old(self).store_map();
                if Self::spec_holds_text(m, key@) {
                    (r matches Err(e) && e matches Error::WrongTypeOperation)
                        && final(self).store_map() == m
                } else {
                    let es = Self::spec_stream_at(m, key@);
                    (final(self).store_map() == if m.contains_key(key@) {
                        m
                    } else {
                        m.insert(
                            key@,
                            DbValView {
                                value: VtView::Stream(Seq::<EntryView>::empty()),
                                expires_at: None,
                            },
                        )
                    }) && match crate::stream::spec_xread_v(es, stream_id_start@, now_ms) {
                        Ok(w) => r matches Ok(v) && crate::stream::spec_scan_view(v@)
                            == w,
                        Err(IdSpecError::TooLong) => r matches Err(e) && e matches
                        Error::CantConvertToMsTimestamp(_),
                        Err(IdSpecError::NotANumber) => r matches Err(e) && e matches
                        Error::ParseIntError,
                    }
                }
            }),
    {
        proof {
            lemma_store_map_contains(self.inner.store@, key@);
        }
        match self.find_key(key) {
            None => {
                self.create_empty_stream(key);
                let out: Vec<(String, Vec<(String, String)>)> = Vec::new();
                proof {
                    assert(crate::stream::spec_scan_view(out@) =~= Seq::<
                        (Seq<char>, Seq<(Seq<char>, Seq<char>)>),
                    >::empty());
                }
                Ok(out)
            },
            Some(i) => {
                proof {
                    lemma_store_map_index(self.inner.store@, i as int);
                }
                match &self.inner.store[i].1.value {
                    ValueType::String(_) => Err(Error::WrongTypeOperation),
                    ValueType::Stream(st) => st.xread(stream_id_start, now_ms),
                }
            },
        }
    }

    /// The formatted id of the newest entry of the stream at `key`,
    /// creating an empty stream (whose tail id is zero) if the key is
    /// absent. A key holding text is refused.
    pub fn get_last_stream_id(&mut self, key: &str) -> (r: Result<String, Error>)
        requires
            old(self).wf(),
        ensures
            final(self).wf(),
            same_control(*old(self), *final(self)),
            final(self).pending_stream_xread == old(self).pending_stream_xread,
            ({
                let m = old(self).store_map();
                if Self::spec_holds_text(m, key@) {
                    (r matches Err(e) && e matches Error::WrongTypeOperation)
                        && final(self).store_map() == m
                } else {
                    let es = Self::spec_stream_at(m, key@);
                    (final(self).store_map() == if m.contains_key(key@) {
                        m
                    } else {
                        m.insert(
                            key@,
                            DbValView {
                                value: VtView::Stream(Seq::<EntryView>::empty()),
                                expires_at: None,
                            },
                        )
                    }) && (r matches Ok(s) && s@ == view_last_id(es).spec_chars())
                }
            }),
    {
        proof {
            lemma_store_map_contains(self.inner.store@, key@);
        }
        match self.find_key(key) {
            None => {
                self.create_empty_stream(key);
                let zero = StreamId { timestamp_ms: 0, seq_number: 0 };
                Ok(zero.format())
            },
            Some(i) => {
                proof {
                    lemma_store_map_index(self.inner.store@, i as int);
                }
                match &self.inner.store[i].1.value {
                    ValueType::String(_) => Err(Error::WrongTypeOperation),
                    ValueType::Stream(st) => {
                        let last = st.get_last_stream_id();
                        Ok(last.format())
                    },
                }
            },
        }
    }
}

/// What loading one snapshot field does to the mapping: a text value
/// is inserted under its key — with the remaining span until its
/// absolute expiry as its deadline, or dropped entirely when that
/// expiry already passed; anything that is not a text is left alone.
pub open spec fn spec_load_one(
    m: Map<Seq<char>, DbValView>,
    f: crate::rdb::FieldView,
    now_ms: u64,
) -> Map<Seq<char>, DbValView> {
    if f.1 != crate::rdb::ValueTypeEncoding::String {
        m
    } else {
        match crate::rdb::spec_expiry_ms(f.0) {
            None => m.insert(
                f.2.1,
                DbValView { value: VtView::Str(f.3.1), expires_at: None },
            ),
            Some(e) => {
                if now_ms < e {
                    m.insert(
                        f.2.1,
                        DbValView { value: VtView::Str(f.3.1), expires_at: Some(e) },
                    )
                } else {
                    m
                }
            },
        }
    }
}

/// What loading a run of snapshot fields does to the mapping, first to
/// last.
pub open spec fn spec_load_fold(
    m: Map<Seq<char>, DbValView>,
    fs: Seq<crate::rdb::FieldView>,
    now_ms: u64,
) -> Map<Seq<char>, DbValView>
    decreases fs.len(),
{
    if fs.len() == 0 {
        m
    } else {
        spec_load_fold(
            spec_load_one(m, fs[0], now_ms),
            fs.subrange(1, fs.len() as int),
            now_ms,
        )
    }
}

/// The first section with database number zero, or the length.
pub open spec fn spec_first_db0(s: Seq<crate::rdb::DatabaseSection>, pos: int) -> int
    decreases s.len() - pos,
{
    if pos < 0 || pos >= s.len() {
        s.len() as int
    } else if s[pos].db_number.length == 0 {
        pos
    } else {
        spec_first_db0(s, pos + 1)
    }
}

impl RedisDb {
    /// Loads the fields of the snapshot's database zero into the key
    /// space: text values become entries, an expiry in the past drops
    /// its key, and any other value type is passed over.
    #[verifier::loop_isolation(false)]
    pub fn load_rdb(&mut self, rdb: &crate::rdb::Rdb, now_ms: u64)
        requires
            old(self).wf(),
        ensures
            final(self).wf(),
            same_control(*old(self), *final(self)),
            final(self).pending_stream_xread == old(self).pending_stream_xread,
            ({
                let secs = rdb.database_sections@;
                let pos = spec_first_db0(secs, 0);
                if pos < secs.len() {
                    final(self).store_map() == spec_load_fold(
                        old(self).store_map(),
                        Seq::new(
                            secs[pos].fields_with_expiry@.len(),
                            |j: int| crate::rdb::field_view(secs[pos].fields_with_expiry@[j]),
                        ),
                        now_ms,
                    )
                } else {
                    final(self).store_map() == old(self).store_map()
                }
            }),
    {
        let mut si: usize = 0;
        let n = rdb.database_sections.len();
        while si < n
            invariant
                si <= n,
                *self == *old(self),
                spec_first_db0(rdb.database_sections@, 0) == spec_first_db0(
                    rdb.database_sections@,
                    si as int,
                ),
            decreases n - si,
        {
            if rdb.database_sections[si].db_number.length == 0 {
                proof {
                    assert(spec_first_db0(rdb.database_sections@, si as int) == si as int);
                }
                let section = &rdb.database_sections[si];
                let ghost fsv = Seq::new(
                    section.fields_with_expiry@.len(),
                    |j: int| crate::rdb::field_view(section.fields_with_expiry@[j]),
                );
                let ghost m0 = self.store_map();
                proof {
                    assert(fsv.subrange(0, fsv.len() as int) == fsv);
                }
                let mut fi: usize = 0;
                while fi < section.fields_with_expiry.len()
                    invariant
                        self.wf(),
                        fi <= section.fields_with_expiry@.len(),
                        same_control(*old(self), *self),
                        self.pending_stream_xread == old(self).pending_stream_xread,
                        spec_load_fold(m0, fsv, now_ms) == spec_load_fold(
                            self.store_map(),
                            fsv.subrange(fi as int, fsv.len() as int),
                            now_ms,
                        ),
                    decreases section.fields_with_expiry@.len() - fi,
                {
                    let field = &section.fields_with_expiry[fi];
                    let ghost mpre = self.store_map();
                    let is_string = matches!(field.value_type,
                        crate::rdb::ValueTypeEncoding::String);
                    if is_string {
                        let key = field.key.field.clone();
                        let value = ValueType::String(field.value.field.clone());
                        match field.get_unix_timestamp_expiration_ms() {
                            None => {
                                self.set(key, value, None, now_ms);
                            },
                            Some(e) => {
                                if now_ms < e {
                                    let px = e - now_ms;
                                    self.set(key, value, Some(px), now_ms);
                                    proof {
                                        assert(spec_sat_add(now_ms, px) == e);
                                    }
                                }
                            },
                        }
                    }
                    proof {
                        assert(fsv[fi as int] == crate::rdb::field_view(
                            section.fields_with_expiry@[fi as int],
                        ));
                        assert(self.store_map() == spec_load_one(
                            mpre,
                            fsv[fi as int],
                            now_ms,
                        ));
                        assert(fsv.subrange(fi as int, fsv.len() as int).subrange(
                            1,
                            fsv.len() - fi,
                        ) == fsv.subrange(fi as int + 1, fsv.len() as int));
                    }
                    fi += 1;
                }
                proof {
                    assert(fsv.subrange(fsv.len() as int, fsv.len() as int) =~= Seq::<
                        crate::rdb::FieldView,
                    >::empty());
                }
                return ;
            }
            proof {
                assert(spec_first_db0(rdb.database_sections@, si as int)
                    == spec_first_db0(rdb.database_sections@, si as int + 1));
            }
            si += 1;
        }
    }
}

} // verus!
