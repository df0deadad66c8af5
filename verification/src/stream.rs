//! Append-only stream log: entries with strictly increasing ids,
//! range and tail scans, and the id-resolution rules for appends.

use vstd::prelude::*;

use crate::digits::{
    all_digits, digits_val, parse_u64_digits, spec_udigits, u64_to_string, push_char,
};
use crate::error::Error;

verus! {

/// A stream entry id: a millisecond timestamp and a sequence number,
/// ordered lexicographically.
#[derive(Debug, Clone, Copy, PartialEq, Eq, PartialOrd, Ord, Structural)]
pub struct StreamId {
    pub timestamp_ms: u64,
    pub seq_number: u64,
}

impl StreamId {
    /// Strict lexicographic order.
    pub open spec fn spec_lt(self, other: Self) -> bool {
        self.timestamp_ms < other.timestamp_ms || (self.timestamp_ms == other.timestamp_ms
            && self.seq_number < other.seq_number)
    }

    /// Order or equality.
    pub open spec fn spec_le(self, other: Self) -> bool {
        self.spec_lt(other) || self == other
    }

    /// The id's text: timestamp, dash, sequence number.
    pub open spec fn spec_chars(self) -> Seq<char> {
        spec_udigits(self.timestamp_ms as nat) + seq!['-'] + spec_udigits(
            self.seq_number as nat,
        )
    }

    /// Whether this id is strictly below another.
    pub fn lt(&self, other: &Self) -> (r: bool)
        ensures
            r == self.spec_lt(*other),
    {
        self.timestamp_ms < other.timestamp_ms || (self.timestamp_ms == other.timestamp_ms
            && self.seq_number < other.seq_number)
    }

    /// Formats the id as text.
    pub fn format(&self) -> (r: String)
        ensures
            r@ == self.spec_chars(),
    {
        let mut s = u64_to_string(self.timestamp_ms);
        push_char(&mut s, '-');
        let tail = u64_to_string(self.seq_number);
        let r = s.concat(tail.as_str());
        assert(r@ == spec_udigits(self.timestamp_ms as nat) + seq!['-'] + spec_udigits(
            self.seq_number as nat,
        ));
        r
    }
}

impl Default for StreamId {
    /// The zero id.
    fn default() -> (r: Self)
        ensures
            r == (StreamId { timestamp_ms: 0, seq_number: 0 }),
    {
        StreamId { timestamp_ms: 0, seq_number: 0 }
    }
}

/// The field/value pairs of a sequence of string pairs, as character
/// sequences.
pub open spec fn pairs_view(s: Seq<(String, String)>) -> Seq<(Seq<char>, Seq<char>)> {
    Seq::new(s.len(), |i: int| (s[i].0@, s[i].1@))
}

/// The model of one entry: its id with its fields.
pub type EntryView = (StreamId, Seq<(Seq<char>, Seq<char>)>);

/// The model of a run of entries: ids with their fields.
pub open spec fn entries_view(s: Seq<StreamEntry>) -> Seq<EntryView> {
    Seq::new(s.len(), |i: int| (s[i].stream_id, pairs_view(s[i].store@)))
}

/// One stream entry: its id and its field/value pairs, in the order
/// they were given.
#[derive(Debug)]
pub struct StreamEntry {
    pub stream_id: StreamId,
    pub store: Vec<(String, String)>,
}

impl StreamEntry {
    /// Builds an entry from an id and its fields.
    pub fn build(stream_id: StreamId, store: Vec<(String, String)>) -> (r: Self)
        ensures
            r.stream_id == stream_id,
            pairs_view(r.store@) == pairs_view(store@),
    {
        Self { stream_id, store }
    }
}

/// Clones a list of string pairs.
pub fn clone_pairs(v: &Vec<(String, String)>) -> (r: Vec<(String, String)>)
    ensures
        pairs_view(r@) == pairs_view(v@),
{
    let mut out: Vec<(String, String)> = Vec::new();
    let mut i: usize = 0;
    while i < v.len()
        invariant
            i <= v@.len(),
            out@.len() == i,
            forall|j: int| 0 <= j < i ==> (#[trigger] out@[j]).0@ == v@[j].0@
                && out@[j].1@ == v@[j].1@,
        decreases v@.len() - i,
    {
        let k = v[i].0.clone();
        let val = v[i].1.clone();
        out.push((k, val));
        i += 1;
    }
    proof {
        assert(pairs_view(out@) =~= pairs_view(v@));
    }
    out
}

/// The append-only log.
#[derive(Debug)]
pub struct Stream {
    pub entries: Vec<StreamEntry>,
}

/// An append that succeeded: the id was strictly above the old tail,
/// and the log grew by exactly that entry.
pub open spec fn spec_append_ok(pre: Stream, id: StreamId, post: Stream) -> bool {
    &&& pre.spec_last_id().spec_lt(id)
    &&& post.entries@.len() == pre.entries@.len() + 1
    &&& post.entries@.last().stream_id == id
    &&& forall|i: int| 0 <= i < pre.entries@.len() ==> #[trigger] post.entries@[i]
        == pre.entries@[i]
}

/// The id of the newest entry of a modelled run, or zero.
pub open spec fn view_last_id(es: Seq<EntryView>) -> StreamId {
    if es.len() == 0 {
        StreamId { timestamp_ms: 0, seq_number: 0 }
    } else {
        es.last().0
    }
}

/// The id an unconstrained append resolves to, against a given tail id.
pub open spec fn spec_next_id_from(last: StreamId, now_ms: u64) -> StreamId {
    if now_ms > last.timestamp_ms {
        StreamId { timestamp_ms: now_ms, seq_number: 0 }
    } else {
        StreamId { timestamp_ms: last.timestamp_ms, seq_number: (last.seq_number + 1) as u64 }
    }
}

impl Stream {
    /// Ids appear in strictly increasing order.
    pub open spec fn wf(self) -> bool {
        forall|i: int, j: int| 0 <= i < j < self.entries@.len()
            ==> (#[trigger] self.entries@[i].stream_id).spec_lt(
            #[trigger] self.entries@[j].stream_id,
        )
    }

    /// The id of the newest entry, or zero if the log is empty.
    pub open spec fn spec_last_id(self) -> StreamId {
        if self.entries@.len() == 0 {
            StreamId { timestamp_ms: 0, seq_number: 0 }
        } else {
            self.entries@.last().stream_id
        }
    }

    /// The id an unconstrained append resolves to: the later of the
    /// wall clock and the tail's timestamp, with the next sequence
    /// number when the timestamp is unchanged.
    pub open spec fn spec_next_id(self, now_ms: u64) -> StreamId {
        spec_next_id_from(self.spec_last_id(), now_ms)
    }

    /// An empty log.
    pub fn new() -> (r: Self)
        ensures
            r.entries@.len() == 0,
            r.wf(),
    {
        Self { entries: Vec::new() }
    }

    /// The id of the newest entry, or zero if the log is empty.
    pub fn get_last_stream_id(&self) -> (r: StreamId)
        ensures
            r == self.spec_last_id(),
    {
        if self.entries.len() == 0 {
            StreamId { timestamp_ms: 0, seq_number: 0 }
        } else {
            self.entries[self.entries.len() - 1].stream_id
        }
    }

    /// Resolves an unconstrained append id. Always strictly above the
    /// tail.
    pub fn next_stream_id(&self, now_ms: u64) -> (r: StreamId)
        requires
            now_ms > self.spec_last_id().timestamp_ms || self.spec_last_id().seq_number
                < u64::MAX,
        ensures
            r == self.spec_next_id(now_ms),
            self.spec_last_id().spec_lt(r),
    {
        let last = self.get_last_stream_id();
        if now_ms > last.timestamp_ms {
            StreamId { timestamp_ms: now_ms, seq_number: 0 }
        } else {
            StreamId { timestamp_ms: last.timestamp_ms, seq_number: last.seq_number + 1 }
        }
    }
}

/// Why an id spec failed to resolve.
pub enum IdSpecError {
    /// The timestamp part is longer than thirteen digits.
    TooLong,
    /// A part is not a number the machine can hold, or the next
    /// sequence number does not exist.
    NotANumber,
}

/// The position of the first dash at or after `pos`.
pub open spec fn spec_dash_pos(s: Seq<char>, pos: int) -> Option<int>
    decreases s.len() - pos,
{
    if pos < 0 || pos >= s.len() {
        None
    } else if s[pos] == '-' {
        Some(pos)
    } else {
        spec_dash_pos(s, pos + 1)
    }
}

/// A whole digit string read as a number that fits a machine word.
pub open spec fn spec_parse_u64(s: Seq<char>) -> Option<int> {
    if all_digits(s) && s.len() > 0 && digits_val(s) <= u64::MAX as int {
        Some(digits_val(s))
    } else {
        None
    }
}

/// The id an id-spec string resolves to against a tail id:
/// `*` takes the next free id; `ts-*` takes the next sequence number
/// under `ts`; `ts-seq` and bare `ts` are literal, with a bare
/// timestamp meaning sequence zero.
pub open spec fn spec_resolve_id(last: StreamId, s: Seq<char>, now_ms: u64) -> Result<
    StreamId,
    IdSpecError,
> {
    if s == seq!['*'] {
        if now_ms > last.timestamp_ms || last.seq_number < u64::MAX {
            Ok(spec_next_id_from(last, now_ms))
        } else {
            Err(IdSpecError::NotANumber)
        }
    } else {
        let ts_end = match spec_dash_pos(s, 0) {
            Some(d) => d,
            None => s.len() as int,
        };
        let ts_part = s.subrange(0, ts_end);
        if ts_part.len() > 13 {
            Err(IdSpecError::TooLong)
        } else {
            match spec_parse_u64(ts_part) {
                None => Err(IdSpecError::NotANumber),
                Some(ts) => {
                    match spec_dash_pos(s, 0) {
                        None => Ok(StreamId { timestamp_ms: ts as u64, seq_number: 0 }),
                        Some(d) => {
                            let seq_part = s.subrange(d + 1, s.len() as int);
                            if seq_part == seq!['*'] {
                                if last.timestamp_ms == ts {
                                    if last.seq_number < u64::MAX {
                                        Ok(
                                            StreamId {
                                                timestamp_ms: ts as u64,
                                                seq_number: (last.seq_number + 1) as u64,
                                            },
                                        )
                                    } else {
                                        Err(IdSpecError::NotANumber)
                                    }
                                } else if ts == 0 {
                                    Ok(StreamId { timestamp_ms: 0, seq_number: 1 })
                                } else {
                                    Ok(
                                        StreamId {
                                            timestamp_ms: ts as u64,
                                            seq_number: 0,
                                        },
                                    )
                                }
                            } else {
                                match spec_parse_u64(seq_part) {
                                    None => Err(IdSpecError::NotANumber),
                                    Some(sq) => Ok(
                                        StreamId {
                                            timestamp_ms: ts as u64,
                                            seq_number: sq as u64,
                                        },
                                    ),
                                }
                            }
                        },
                    }
                },
            }
        }
    }
}

impl Stream {
    /// The id an id-spec string resolves to against this log.
    pub open spec fn spec_create_id(self, s: Seq<char>, now_ms: u64) -> Result<
        StreamId,
        IdSpecError,
    > {
        spec_resolve_id(self.spec_last_id(), s, now_ms)
    }

    /// Resolves an id-spec string against this log.
    pub fn create_stream_id(&self, value: &str, now_ms: u64) -> (r: Result<StreamId, Error>)
        ensures
            match r {
                Ok(id) => self.spec_create_id(value@, now_ms) == Ok::<StreamId, IdSpecError>(
                    id,
                ),
                Err(e) => match e {
                    Error::CantConvertToMsTimestamp(_) => self.spec_create_id(value@, now_ms)
                        == Err::<StreamId, IdSpecError>(IdSpecError::TooLong),
                    Error::ParseIntError => self.spec_create_id(value@, now_ms) == Err::<
                        StreamId,
                        IdSpecError,
                    >(IdSpecError::NotANumber),
                    _ => false,
                },
            },
    {
        let n = value.unicode_len();
        if n == 1 && value.get_char(0) == '*' {
            proof {
                assert(value@ =~= seq!['*']);
            }
            let last = self.get_last_stream_id();
            if now_ms > last.timestamp_ms || last.seq_number < u64::MAX {
                return Ok(self.next_stream_id(now_ms));
            } else {
                return Err(Error::ParseIntError);
            }
        }
        proof {
            if value@.len() == 1 && value@[0] == '*' {
                assert(value@ =~= seq!['*']);
            }
            assert(value@ != seq!['*']);
        }
        let dash = find_dash(value, 0);
        let ts_end: usize = match dash {
            Some(d) => d,
            None => n,
        };
        if ts_end > 13 {
            let ts_string = String::from_str(value.substring_char(0, ts_end));
            return Err(Error::CantConvertToMsTimestamp(ts_string));
        }
        let ts = match parse_u64_digits(value, 0, ts_end) {
            None => {
                proof {
                    let ts_part = value@.subrange(0, ts_end as int);
                    assert(digits_val(ts_part) <= u64::MAX as int ==> spec_parse_u64(
                        ts_part,
                    ) == None::<int> || !(all_digits(ts_part) && ts_part.len() > 0));
                }
                return Err(Error::ParseIntError);
            },
            Some(ts) => ts,
        };
        proof {
            let ts_part = value@.subrange(0, ts_end as int);
            crate::digits::lemma_digits_val_nonneg(ts_part);
        }
        match dash {
            None => Ok(StreamId { timestamp_ms: ts, seq_number: 0 }),
            Some(d) => {
                let ghost seq_part = value@.subrange(d as int + 1, value@.len() as int);
                if d + 2 == n && value.get_char(d + 1) == '*' {
                    proof {
                        assert(seq_part =~= seq!['*']);
                    }
                    let last = self.get_last_stream_id();
                    if last.timestamp_ms == ts {
                        if last.seq_number < u64::MAX {
                            Ok(
                                StreamId {
                                    timestamp_ms: ts,
                                    seq_number: last.seq_number + 1,
                                },
                            )
                        } else {
                            Err(Error::ParseIntError)
                        }
                    } else if ts == 0 {
                        Ok(StreamId { timestamp_ms: 0, seq_number: 1 })
                    } else {
                        Ok(StreamId { timestamp_ms: ts, seq_number: 0 })
                    }
                } else {
                    proof {
                        if seq_part.len() == 1 && seq_part[0] == '*' {
                            assert(seq_part =~= seq!['*']);
                            assert(d as int + 2 == value@.len() && value@[d as int + 1]
                                == '*');
                        }
                        assert(seq_part != seq!['*']);
                    }
                    match parse_u64_digits(value, d + 1, n) {
                        None => Err(Error::ParseIntError),
                        Some(sq) => {
                            proof {
                                crate::digits::lemma_digits_val_nonneg(seq_part);
                            }
                            Ok(StreamId { timestamp_ms: ts, seq_number: sq })
                        },
                    }
                }
            },
        }
    }

    /// Appends an entry. With an explicit id, the id must be strictly
    /// above the tail; without one, the next free id under the given
    /// clock is taken. On success the new entry stands at the tail; on
    /// failure the log is unchanged.
    pub fn xadd(
        &mut self,
        store: Vec<(String, String)>,
        stream_id: Option<StreamId>,
        now_ms: u64,
    ) -> (r: Result<StreamId, Error>)
        requires
            old(self).wf(),
        ensures
            final(self).wf(),
            match r {
                Ok(id) => {
                    &&& match stream_id {
                        Some(given) => id == given,
                        None => id == old(self).spec_next_id(now_ms),
                    }
                    &&& spec_append_ok(*old(self), id, *final(self))
                    &&& pairs_view(final(self).entries@.last().store@) == pairs_view(
                        store@,
                    )
                    &&& final(self).spec_last_id() == id
                },
                Err(e) => {
                    &&& *final(self) == *old(self)
                    &&& match stream_id {
                        Some(given) => !old(self).spec_last_id().spec_lt(given) && (
                        e matches Error::InvalidStreamId { should_be_greater_than, got }
                            && should_be_greater_than@ == old(
                            self,
                        ).spec_last_id().spec_chars() && got@ == given.spec_chars()),
                        None => now_ms <= old(self).spec_last_id().timestamp_ms && old(
                            self,
                        ).spec_last_id().seq_number == u64::MAX && (e matches
                        Error::ParseIntError),
                    }
                },
            },
    {
        let last = self.get_last_stream_id();
        let id = match stream_id {
            Some(id) => id,
            None => {
                if now_ms > last.timestamp_ms || last.seq_number < u64::MAX {
                    self.next_stream_id(now_ms)
                } else {
                    return Err(Error::ParseIntError);
                }
            },
        };
        if !last.lt(&id) {
            let should = last.format();
            let got = id.format();
            return Err(Error::InvalidStreamId { should_be_greater_than: should, got });
        }
        let entry = StreamEntry::build(id, store);
        proof {
            assert(forall|i: int| 0 <= i < self.entries@.len()
                ==> (#[trigger] self.entries@[i].stream_id).spec_le(
                self.spec_last_id()));
        }
        self.entries.push(entry);
        proof {
            assert(final(self).entries@.last().stream_id == id);
            assert forall|i: int, j: int| 0 <= i < j < self.entries@.len() implies
                (#[trigger] self.entries@[i].stream_id).spec_lt(
                #[trigger] self.entries@[j].stream_id) by {
                if j == self.entries@.len() - 1 {
                    assert(old(self).entries@[i].stream_id.spec_le(old(
                        self,
                    ).spec_last_id()));
                }
            }
        }
        Ok(id)
    }
}

/// The first index at or after `pos` whose id is at or above `id`, or
/// the length.
pub open spec fn spec_lower_from(es: Seq<EntryView>, id: StreamId, pos: int) -> int
    decreases es.len() - pos,
{
    if pos < 0 || pos >= es.len() {
        es.len() as int
    } else if id.spec_le(es[pos].0) {
        pos
    } else {
        spec_lower_from(es, id, pos + 1)
    }
}

/// The first index at or after `pos` whose id is strictly above `id`,
/// or the length.
pub open spec fn spec_upper_from(es: Seq<EntryView>, id: StreamId, pos: int) -> int
    decreases es.len() - pos,
{
    if pos < 0 || pos >= es.len() {
        es.len() as int
    } else if id.spec_lt(es[pos].0) {
        pos
    } else {
        spec_upper_from(es, id, pos + 1)
    }
}

/// The scan output for the window `[lo, hi)`: each entry's id as text
/// with its fields.
pub open spec fn spec_window(es: Seq<EntryView>, lo: int, hi: int) -> Seq<
    (Seq<char>, Seq<(Seq<char>, Seq<char>)>),
> {
    if lo < 0 || hi > es.len() || lo >= hi {
        Seq::empty()
    } else {
        Seq::new((hi - lo) as nat, |k: int| (es[lo + k].0.spec_chars(), es[lo + k].1))
    }
}

/// The model of a range scan over a modelled run: the entries between
/// two id specs, inclusive on both ends; `-` and `+` are the ends of
/// the log.
pub open spec fn spec_xrange_v(
    es: Seq<EntryView>,
    start: Seq<char>,
    end: Seq<char>,
    now_ms: u64,
) -> Result<Seq<(Seq<char>, Seq<(Seq<char>, Seq<char>)>)>, IdSpecError> {
    if es.len() == 0 {
        Ok(Seq::empty())
    } else {
        let lo_r: Result<int, IdSpecError> = if start == seq!['-'] {
            Ok(0)
        } else {
            match spec_resolve_id(view_last_id(es), start, now_ms) {
                Ok(id) => Ok(spec_lower_from(es, id, 0)),
                Err(e) => Err(e),
            }
        };
        match lo_r {
            Err(e) => Err(e),
            Ok(lo) => {
                let hi_r: Result<int, IdSpecError> = if end == seq!['+'] {
                    Ok(es.len() as int)
                } else {
                    match spec_resolve_id(view_last_id(es), end, now_ms) {
                        Ok(id) => Ok(spec_upper_from(es, id, 0)),
                        Err(e) => Err(e),
                    }
                };
                match hi_r {
                    Err(e) => Err(e),
                    Ok(hi) => Ok(spec_window(es, lo, hi)),
                }
            },
        }
    }
}

/// The model of a tail scan over a modelled run: everything strictly
/// after the given id.
pub open spec fn spec_xread_v(es: Seq<EntryView>, start: Seq<char>, now_ms: u64) -> Result<
    Seq<(Seq<char>, Seq<(Seq<char>, Seq<char>)>)>,
    IdSpecError,
> {
    if es.len() == 0 {
        Ok(Seq::empty())
    } else if start == seq!['-'] {
        Ok(spec_window(es, 0, es.len() as int))
    } else {
        match spec_resolve_id(view_last_id(es), start, now_ms) {
            Ok(id) => Ok(
                spec_window(es, spec_upper_from(es, id, 0), es.len() as int),
            ),
            Err(e) => Err(e),
        }
    }
}

/// Finds the first dash at or after `pos`.
fn find_dash(s: &str, pos: usize) -> (r: Option<usize>)
    requires
        pos <= s@.len(),
    ensures
        match r {
            Some(j) => spec_dash_pos(s@, pos as int) == Some(j as int) && pos <= j && j
                < s@.len(),
            None => spec_dash_pos(s@, pos as int) == None::<int>,
        },
{
    let n = s.unicode_len();
    let mut i: usize = pos;
    while i < n
        invariant
            pos <= i <= n,
            n == s@.len(),
            spec_dash_pos(s@, pos as int) == spec_dash_pos(s@, i as int),
        decreases n - i,
    {
        if s.get_char(i) == '-' {
            proof {
                assert(spec_dash_pos(s@, i as int) == Some(i as int));
            }
            return Some(i);
        }
        proof {
            assert(spec_dash_pos(s@, i as int) == spec_dash_pos(s@, i as int + 1));
        }
        i += 1;
    }
    None
}

/// The scan results, as character data.
pub open spec fn spec_scan_view(r: Seq<(String, Vec<(String, String)>)>) -> Seq<
    (Seq<char>, Seq<(Seq<char>, Seq<char>)>),
> {
    Seq::new(r.len(), |i: int| (r[i].0@, pairs_view(r[i].1@)))
}

impl Stream {
    /// Finds the first index whose id is at or above `id`.
    fn lower_index(&self, id: StreamId) -> (r: usize)
        ensures
            r as int == spec_lower_from(entries_view(self.entries@), id, 0),
            r <= self.entries@.len(),
    {
        let ghost es = entries_view(self.entries@);
        let mut i: usize = 0;
        while i < self.entries.len()
            invariant
                i <= self.entries@.len(),
                es == entries_view(self.entries@),
                spec_lower_from(es, id, 0) == spec_lower_from(es, id, i as int),
            decreases self.entries@.len() - i,
        {
            let e = &self.entries[i];
            proof {
                assert(es[i as int].0 == self.entries@[i as int].stream_id);
            }
            if !e.stream_id.lt(&id) {
                proof {
                    assert(spec_lower_from(es, id, i as int) == i as int);
                }
                return i;
            }
            proof {
                assert(spec_lower_from(es, id, i as int) == spec_lower_from(
                    es,
                    id,
                    i as int + 1,
                ));
            }
            i += 1;
        }
        i
    }

    /// Finds the first index whose id is strictly above `id`.
    fn upper_index(&self, id: StreamId) -> (r: usize)
        ensures
            r as int == spec_upper_from(entries_view(self.entries@), id, 0),
            r <= self.entries@.len(),
    {
        let ghost es = entries_view(self.entries@);
        let mut i: usize = 0;
        while i < self.entries.len()
            invariant
                i <= self.entries@.len(),
                es == entries_view(self.entries@),
                spec_upper_from(es, id, 0) == spec_upper_from(es, id, i as int),
            decreases self.entries@.len() - i,
        {
            let e = &self.entries[i];
            proof {
                assert(es[i as int].0 == self.entries@[i as int].stream_id);
            }
            if id.lt(&e.stream_id) {
                proof {
                    assert(spec_upper_from(es, id, i as int) == i as int);
                }
                return i;
            }
            proof {
                assert(spec_upper_from(es, id, i as int) == spec_upper_from(
                    es,
                    id,
                    i as int + 1,
                ));
            }
            i += 1;
        }
        i
    }

    /// Collects the window `[lo, hi)` as formatted ids with fields.
    fn collect_window(&self, lo: usize, hi: usize) -> (r: Vec<(String, Vec<(String, String)>)>)
        requires
            hi <= self.entries@.len(),
        ensures
            spec_scan_view(r@) == spec_window(
                entries_view(self.entries@),
                lo as int,
                hi as int,
            ),
    {
        let mut out: Vec<(String, Vec<(String, String)>)> = Vec::new();
        if lo >= hi {
            proof {
                assert(spec_scan_view(out@) =~= spec_window(
                    entries_view(self.entries@),
                    lo as int,
                    hi as int,
                ));
            }
            return out;
        }
        let mut i: usize = lo;
        while i < hi
            invariant
                lo <= i <= hi <= self.entries@.len(),
                out@.len() == i - lo,
                forall|k: int| 0 <= k < i - lo ==> (#[trigger] out@[k]).0@
                    == self.entries@[lo + k].stream_id.spec_chars() && pairs_view(
                    out@[k].1@,
                ) == pairs_view(self.entries@[lo + k].store@),
            decreases hi - i,
        {
            let e = &self.entries[i];
            let idtext = e.stream_id.format();
            let fields = clone_pairs(&e.store);
            out.push((idtext, fields));
            i += 1;
        }
        proof {
            assert(spec_scan_view(out@) =~= spec_window(
                entries_view(self.entries@),
                lo as int,
                hi as int,
            ));
        }
        out
    }

    /// Scans the entries between two id specs, inclusive on both ends.
    /// `-` means the start of the log, `+` its end. The log itself is
    /// unchanged.
    pub fn xrange(&self, stream_id_start: &str, stream_id_end: &str, now_ms: u64) -> (r:
        Result<Vec<(String, Vec<(String, String)>)>, Error>)
        ensures
            match r {
                Ok(v) => spec_xrange_v(
                    entries_view(self.entries@),
                    stream_id_start@,
                    stream_id_end@,
                    now_ms,
                ) matches Ok(w) && spec_scan_view(v@) == w,
                Err(e) => match spec_xrange_v(
                    entries_view(self.entries@),
                    stream_id_start@,
                    stream_id_end@,
                    now_ms,
                ) {
                    Err(IdSpecError::TooLong) => e matches Error::CantConvertToMsTimestamp(
                        _,
                    ),
                    Err(IdSpecError::NotANumber) => e matches Error::ParseIntError,
                    Ok(_) => false,
                },
            },
    {
        if self.entries.len() == 0 {
            let out: Vec<(String, Vec<(String, String)>)> = Vec::new();
            proof {
                assert(spec_scan_view(out@) =~= Seq::<
                    (Seq<char>, Seq<(Seq<char>, Seq<char>)>),
                >::empty());
            }
            return Ok(out);
        }
        let sn = stream_id_start.unicode_len();
        let lo: usize = if sn == 1 && stream_id_start.get_char(0) == '-' {
            proof {
                assert(stream_id_start@ =~= seq!['-']);
            }
            0
        } else {
            proof {
                if stream_id_start@.len() == 1 && stream_id_start@[0] == '-' {
                    assert(stream_id_start@ =~= seq!['-']);
                }
            }
            match self.create_stream_id(stream_id_start, now_ms) {
                Ok(id) => self.lower_index(id),
                Err(e) => {
                    return Err(e);
                },
            }
        };
        let en = stream_id_end.unicode_len();
        let hi: usize = if en == 1 && stream_id_end.get_char(0) == '+' {
            proof {
                assert(stream_id_end@ =~= seq!['+']);
            }
            self.entries.len()
        } else {
            proof {
                if stream_id_end@.len() == 1 && stream_id_end@[0] == '+' {
                    assert(stream_id_end@ =~= seq!['+']);
                }
            }
            match self.create_stream_id(stream_id_end, now_ms) {
                Ok(id) => self.upper_index(id),
                Err(e) => {
                    return Err(e);
                },
            }
        };
        Ok(self.collect_window(lo, hi))
    }

    /// Scans the entries strictly after the given id spec, to the end
    /// of the log.
    pub fn xread(&self, stream_id_start: &str, now_ms: u64) -> (r: Result<
        Vec<(String, Vec<(String, String)>)>,
        Error,
    >)
        ensures
            match r {
                Ok(v) => spec_xread_v(entries_view(self.entries@), stream_id_start@, now_ms)
                    matches Ok(w) && spec_scan_view(v@) == w,
                Err(e) => match spec_xread_v(
                    entries_view(self.entries@),
                    stream_id_start@,
                    now_ms,
                ) {
                    Err(IdSpecError::TooLong) => e matches Error::CantConvertToMsTimestamp(
                        _,
                    ),
                    Err(IdSpecError::NotANumber) => e matches Error::ParseIntError,
                    Ok(_) => false,
                },
            },
    {
        if self.entries.len() == 0 {
            let out: Vec<(String, Vec<(String, String)>)> = Vec::new();
            proof {
                assert(spec_scan_view(out@) =~= Seq::<
                    (Seq<char>, Seq<(Seq<char>, Seq<char>)>),
                >::empty());
            }
            return Ok(out);
        }
        let sn = stream_id_start.unicode_len();
        if sn == 1 && stream_id_start.get_char(0) == '-' {
            proof {
                assert(stream_id_start@ =~= seq!['-']);
            }
            return Ok(self.collect_window(0, self.entries.len()));
        }
        proof {
            if stream_id_start@.len() == 1 && stream_id_start@[0] == '-' {
                assert(stream_id_start@ =~= seq!['-']);
            }
        }
        match self.create_stream_id(stream_id_start, now_ms) {
            Ok(id) => {
                let lo = self.upper_index(id);
                Ok(self.collect_window(lo, self.entries.len()))
            },
            Err(e) => Err(e),
        }
    }
}

/// Stream monotonicity: across two successful appends, the second id
/// is strictly greater than the first.
pub proof fn lemma_stream_monotonic(
    s0: Stream,
    id1: StreamId,
    s1: Stream,
    id2: StreamId,
    s2: Stream,
)
    requires
        spec_append_ok(s0, id1, s1),
        spec_append_ok(s1, id2, s2),
    ensures
        id1.spec_lt(id2),
{
    assert(s1.spec_last_id() == id1);
}

} // verus!
