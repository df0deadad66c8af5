//! The wire codec: framing of protocol values as text.
//!
//! A value is one of six shapes: simple string, simple error, integer,
//! bulk string, null bulk string, or array. `encode` turns a value into
//! its wire text; `parse_redis_value` reads one value back off a buffer.
//! The two are proved inverse on well-formed values.

use vstd::prelude::*;

use crate::digits::{
    all_digits, digit_val, digits_val, int_body_val, is_digit, parse_i64_body, spec_int_chars,
    spec_udigits, u64_to_string, valid_int_body, i64_to_string, lemma_udigits_val,
    push_char,
};
use crate::error::Error;

verus! {

/// A protocol value, as parsed from or serialized to the wire.
#[derive(Debug)]
pub enum RedisValue {
    SimpleString(String),
    SimpleError(String),
    Integer(i64),
    /// Contains size and actual string
    BulkString(usize, String),
    /// (shows up as (nil))
    NullBulkString,
    /// Contains nb of elements and actual values
    Array(usize, Vec<RedisValue>),
}

/// The mathematical model of a protocol value: texts as character
/// sequences, numbers as unbounded integers.
pub enum RespView {
    SimpleString(Seq<char>),
    SimpleError(Seq<char>),
    Integer(int),
    BulkString(int, Seq<char>),
    NullBulkString,
    Array(int, Seq<RespView>),
}

/// The model of a sequence of values.
pub open spec fn spec_seq_view(s: Seq<RedisValue>) -> Seq<RespView>
    decreases s,
{
    if s.len() == 0 {
        Seq::empty()
    } else {
        seq![s[0]@] + spec_seq_view(s.subrange(1, s.len() as int))
    }
}

impl View for RedisValue {
    type V = RespView;

    open spec fn view(&self) -> RespView
        decreases self,
    {
        match self {
            RedisValue::SimpleString(s) => RespView::SimpleString(s@),
            RedisValue::SimpleError(s) => RespView::SimpleError(s@),
            RedisValue::Integer(i) => RespView::Integer(*i as int),
            RedisValue::BulkString(n, s) => RespView::BulkString(*n as int, s@),
            RedisValue::NullBulkString => RespView::NullBulkString,
            RedisValue::Array(n, arr) => RespView::Array(*n as int, spec_seq_view(arr@)),
        }
    }
}

/// Structural equality of two values, which coincides with equality of
/// their models.
fn resp_eq(a: &RedisValue, b: &RedisValue) -> (r: bool)
    ensures
        r == (a@ == b@),
    decreases a, 0int,
{
    match (a, b) {
        (RedisValue::SimpleString(x), RedisValue::SimpleString(y)) => *x == *y,
        (RedisValue::SimpleError(x), RedisValue::SimpleError(y)) => *x == *y,
        (RedisValue::Integer(x), RedisValue::Integer(y)) => x == y,
        (RedisValue::BulkString(n, x), RedisValue::BulkString(m, y)) => n == m && *x == *y,
        (RedisValue::NullBulkString, RedisValue::NullBulkString) => true,
        (RedisValue::Array(n, xs), RedisValue::Array(m, ys)) => {
            proof {
                lemma_seq_view_props(xs@);
                lemma_seq_view_props(ys@);
            }
            if *n != *m || xs.len() != ys.len() {
                false
            } else {
                let same = resp_eq_vec(xs, ys);
                proof {
                    if same {
                        assert forall|k: int| 0 <= k < spec_seq_view(xs@).len() implies
                            spec_seq_view(xs@)[k] == spec_seq_view(ys@)[k] by {
                            assert(xs@[k]@ == ys@[k]@);
                        }
                        assert(spec_seq_view(xs@) =~= spec_seq_view(ys@));
                    } else {
                        let j = choose|j: int| 0 <= j < xs@.len() && (#[trigger] xs@[j])@
                            != ys@[j]@;
                        assert(spec_seq_view(xs@)[j] != spec_seq_view(ys@)[j]);
                    }
                }
                same
            }
        },
        _ => {
            proof {
                assert(a@ != b@);
            }
            false
        },
    }
}

/// Elementwise equality of two value sequences of the same length.
fn resp_eq_vec(xs: &Vec<RedisValue>, ys: &Vec<RedisValue>) -> (r: bool)
    requires
        xs@.len() == ys@.len(),
    ensures
        r == (forall|j: int| 0 <= j < xs@.len() ==> (#[trigger] xs@[j])@ == ys@[j]@),
    decreases xs, 1int,
{
    let mut i: usize = 0;
    while i < xs.len()
        invariant
            i <= xs@.len(),
            xs@.len() == ys@.len(),
            forall|j: int| 0 <= j < i ==> (#[trigger] xs@[j])@ == ys@[j]@,
        decreases xs@.len() - i,
    {
        proof {
            assert(decreases_to!(*xs => xs@));
            assert(decreases_to!(xs@ => xs@[i as int]));
        }
        if !resp_eq(&xs[i], &ys[i]) {
            return false;
        }
        i += 1;
    }
    true
}

impl PartialEq for RedisValue {
    fn eq(&self, other: &Self) -> (r: bool) {
        resp_eq(self, other)
    }
}

impl Clone for RedisValue {
    /// A clone denotes the same protocol value.
    fn clone(&self) -> (res: Self)
        ensures
            res@ == self@,
        decreases self, 0int,
    {
        match self {
            RedisValue::SimpleString(x) => RedisValue::SimpleString(x.clone()),
            RedisValue::SimpleError(x) => RedisValue::SimpleError(x.clone()),
            RedisValue::Integer(x) => RedisValue::Integer(*x),
            RedisValue::BulkString(n, x) => RedisValue::BulkString(*n, x.clone()),
            RedisValue::NullBulkString => RedisValue::NullBulkString,
            RedisValue::Array(n, xs) => {
                let out = clone_vec(xs);
                proof {
                    lemma_seq_view_props(out@);
                    lemma_seq_view_props(xs@);
                    assert forall|k: int| 0 <= k < spec_seq_view(out@).len() implies
                        spec_seq_view(out@)[k] == spec_seq_view(xs@)[k] by {
                        assert(out@[k]@ == xs@[k]@);
                    }
                    assert(spec_seq_view(out@) =~= spec_seq_view(xs@));
                }
                RedisValue::Array(*n, out)
            },
        }
    }
}

/// Clones every element of a value sequence.
fn clone_vec(xs: &Vec<RedisValue>) -> (r: Vec<RedisValue>)
    ensures
        r@.len() == xs@.len(),
        forall|j: int| 0 <= j < xs@.len() ==> (#[trigger] r@[j])@ == xs@[j]@,
    decreases xs, 1int,
{
    let mut out: Vec<RedisValue> = Vec::new();
    let mut i: usize = 0;
    while i < xs.len()
        invariant
            i <= xs@.len(),
            out@.len() == i,
            forall|j: int| 0 <= j < i ==> (#[trigger] out@[j])@ == xs@[j]@,
        decreases xs@.len() - i,
    {
        proof {
            assert(decreases_to!(*xs => xs@));
            assert(decreases_to!(xs@ => xs@[i as int]));
        }
        let c = xs[i].clone();
        out.push(c);
        i += 1;
    }
    out
}

impl vstd::std_specs::cmp::PartialEqSpecImpl for RedisValue {
    open spec fn obeys_eq_spec() -> bool {
        true
    }

    open spec fn eq_spec(&self, other: &RedisValue) -> bool {
        self@ == other@
    }
}

pub proof fn lemma_seq_view_props(s: Seq<RedisValue>)
    ensures
        spec_seq_view(s).len() == s.len(),
        forall|i: int| 0 <= i < s.len() ==> spec_seq_view(s)[i] == #[trigger] s[i]@,
    decreases s,
{
    if s.len() > 0 {
        let tail = s.subrange(1, s.len() as int);
        lemma_seq_view_props(tail);
        assert(spec_seq_view(s) == seq![s[0]@] + spec_seq_view(tail));
        assert forall|i: int| 0 <= i < s.len() implies spec_seq_view(s)[i] == #[trigger] s[i]@
            by {
            if i > 0 {
                assert(spec_seq_view(s)[i] == spec_seq_view(tail)[i - 1]);
                assert(tail[i - 1] == s[i]);
            }
        }
    }
}

/// Text that can stand on a simple-string line: no carriage return and
/// no line feed.
pub open spec fn line_ok(t: Seq<char>) -> bool {
    forall|i: int| 0 <= i < t.len() ==> #[trigger] t[i] != '\r' && t[i] != '\n'
}

/// A well-formed value: line texts hold no line break, stored sizes
/// agree with the data, and numbers fit the wire's signed 64-bit range.
pub open spec fn wf_resp(v: RespView) -> bool
    decreases v,
{
    match v {
        RespView::SimpleString(t) => line_ok(t),
        RespView::SimpleError(t) => line_ok(t),
        RespView::Integer(i) => i64::MIN <= i <= i64::MAX,
        RespView::BulkString(n, t) => n == t.len() && n <= i64::MAX,
        RespView::NullBulkString => true,
        RespView::Array(n, elems) => n == elems.len() && n <= i64::MAX && wf_resp_seq(elems),
    }
}

/// Every element of the sequence is well-formed.
pub open spec fn wf_resp_seq(elems: Seq<RespView>) -> bool
    decreases elems,
{
    if elems.len() == 0 {
        true
    } else {
        wf_resp(elems[0]) && wf_resp_seq(elems.subrange(1, elems.len() as int))
    }
}

pub open spec fn spec_crlf() -> Seq<char> {
    seq!['\r', '\n']
}

/// The wire text of a value.
pub open spec fn spec_encode(v: RespView) -> Seq<char>
    decreases v,
{
    match v {
        RespView::SimpleString(t) => seq!['+'] + t + spec_crlf(),
        RespView::SimpleError(t) => seq!['-'] + t + spec_crlf(),
        RespView::Integer(i) => seq![':'] + spec_int_chars(i) + spec_crlf(),
        RespView::BulkString(n, t) => seq!['$'] + spec_int_chars(n) + spec_crlf() + t
            + spec_crlf(),
        RespView::NullBulkString => seq!['$', '-', '1', '\r', '\n'],
        RespView::Array(n, elems) => seq!['*'] + spec_int_chars(n) + spec_crlf()
            + spec_encode_seq(elems),
    }
}

/// The wire text of a sequence of values, one after the other.
pub open spec fn spec_encode_seq(elems: Seq<RespView>) -> Seq<char>
    decreases elems,
{
    if elems.len() == 0 {
        Seq::empty()
    } else {
        spec_encode(elems[0]) + spec_encode_seq(elems.subrange(1, elems.len() as int))
    }
}

impl RedisValue {
    /// Serializes this value as wire text.
    pub fn encode(&self) -> (r: String)
        ensures
            r@ == spec_encode(self@),
        decreases self, 0int,
    {
        match self {
            RedisValue::SimpleString(s) => {
                let mut out = String::new();
                push_char(&mut out, '+');
                let mut out = out.concat(s.as_str());
                push_char(&mut out, '\r');
                push_char(&mut out, '\n');
                assert(out@ == seq!['+'] + s@ + spec_crlf());
                out
            },
            RedisValue::SimpleError(s) => {
                let mut out = String::new();
                push_char(&mut out, '-');
                let mut out = out.concat(s.as_str());
                push_char(&mut out, '\r');
                push_char(&mut out, '\n');
                assert(out@ == seq!['-'] + s@ + spec_crlf());
                out
            },
            RedisValue::Integer(i) => {
                let mut out = String::new();
                push_char(&mut out, ':');
                let digits = i64_to_string(*i);
                let mut out = out.concat(digits.as_str());
                push_char(&mut out, '\r');
                push_char(&mut out, '\n');
                assert(out@ == seq![':'] + spec_int_chars(*i as int) + spec_crlf());
                out
            },
            RedisValue::BulkString(n, s) => {
                let mut out = String::new();
                push_char(&mut out, '$');
                let digits = u64_to_string(*n as u64);
                let mut out = out.concat(digits.as_str());
                push_char(&mut out, '\r');
                push_char(&mut out, '\n');
                let mut out = out.concat(s.as_str());
                push_char(&mut out, '\r');
                push_char(&mut out, '\n');
                assert(out@ == seq!['$'] + spec_int_chars(*n as int) + spec_crlf() + s@
                    + spec_crlf());
                out
            },
            RedisValue::NullBulkString => {
                let mut out = String::new();
                push_char(&mut out, '$');
                push_char(&mut out, '-');
                push_char(&mut out, '1');
                push_char(&mut out, '\r');
                push_char(&mut out, '\n');
                assert(out@ == seq!['$', '-', '1', '\r', '\n']);
                out
            },
            RedisValue::Array(n, arr) => {
                let mut out = String::new();
                push_char(&mut out, '*');
                let digits = u64_to_string(*n as u64);
                let mut out = out.concat(digits.as_str());
                push_char(&mut out, '\r');
                push_char(&mut out, '\n');
                let tail = encode_seq_from(arr, 0);
                let out = out.concat(tail.as_str());
                proof {
                    assert(arr@.subrange(0, arr@.len() as int) == arr@);
                    assert(out@ == seq!['*'] + spec_int_chars(*n as int) + spec_crlf()
                        + spec_encode_seq(spec_seq_view(arr@)));
                }
                out
            },
        }
    }
}

/// Serializes the elements of `arr` from index `i` on, one after the other.
fn encode_seq_from(arr: &Vec<RedisValue>, i: usize) -> (r: String)
    requires
        i <= arr@.len(),
    ensures
        r@ == spec_encode_seq(spec_seq_view(arr@.subrange(i as int, arr@.len() as int))),
    decreases arr, arr@.len() - i,
{
    if i == arr.len() {
        let r = String::new();
        assert(spec_seq_view(arr@.subrange(i as int, arr@.len() as int)) == Seq::<
            RespView,
        >::empty());
        r
    } else {
        let head = arr[i].encode();
        let tail = encode_seq_from(arr, i + 1);
        let r = head.concat(tail.as_str());
        proof {
            let whole = arr@.subrange(i as int, arr@.len() as int);
            assert(whole.len() > 0);
            assert(whole[0] == arr@[i as int]);
            assert(whole.subrange(1, whole.len() as int) == arr@.subrange(
                i + 1,
                arr@.len() as int,
            ));
            assert(spec_seq_view(whole)[0] == arr@[i as int]@) by {
                lemma_seq_view_props(whole);
            }
            assert(spec_seq_view(whole).subrange(1, spec_seq_view(whole).len() as int)
                == spec_seq_view(whole.subrange(1, whole.len() as int))) by {
                lemma_seq_view_subrange_tail(whole);
            }
            assert(spec_encode_seq(spec_seq_view(whole)) == spec_encode(arr@[i as int]@)
                + spec_encode_seq(spec_seq_view(arr@.subrange(i + 1, arr@.len() as int))));
        }
        r
    }
}

proof fn lemma_seq_view_subrange_tail(s: Seq<RedisValue>)
    requires
        s.len() > 0,
    ensures
        spec_seq_view(s).subrange(1, spec_seq_view(s).len() as int) == spec_seq_view(
            s.subrange(1, s.len() as int),
        ),
{
    lemma_seq_view_props(s);
    lemma_seq_view_props(s.subrange(1, s.len() as int));
    let a = spec_seq_view(s).subrange(1, spec_seq_view(s).len() as int);
    let b = spec_seq_view(s.subrange(1, s.len() as int));
    assert(a.len() == b.len());
    assert(forall|i: int| 0 <= i < a.len() ==> a[i] == b[i]) by {
        assert(forall|i: int| 0 <= i < a.len() ==> a[i] == spec_seq_view(s)[i + 1]
            && #[trigger] b[i] == s.subrange(1, s.len() as int)[i]@);
    }
    assert(a =~= b);
}

impl RedisValue {
    /// Builds a bulk string carrying the given text, with its length as
    /// the stored size.
    pub fn bulkstring_from(s: &str) -> (r: Self)
        ensures
            r@ == RespView::BulkString(s@.len() as int, s@),
    {
        let n = s.unicode_len();
        RedisValue::BulkString(n, String::from_str(s))
    }

    /// Builds an array of bulk strings from the whitespace-separated
    /// words of `s`.
    pub fn array_of_bulkstrings_from(s: &str) -> (r: Self)
        ensures
            r@ == spec_bulk_array_of_words(spec_split_ws_at(s@, 0)),
    {
        let words = split_ws(s);
        let ghost wsv = spec_split_ws_at(s@, 0);
        let mut vals: Vec<RedisValue> = Vec::new();
        let mut i: usize = 0;
        while i < words.len()
            invariant
                i <= words@.len(),
                spec_strings_view(words@) == wsv,
                vals@.len() == i,
                forall|j: int| 0 <= j < i ==> (#[trigger] vals@[j])@ == RespView::BulkString(
                    wsv[j].len() as int,
                    wsv[j],
                ),
            decreases words@.len() - i,
        {
            let w = RedisValue::bulkstring_from(words[i].as_str());
            assert(words@[i as int]@ == wsv[i as int]);
            vals.push(w);
            i += 1;
        }
        let n = vals.len();
        proof {
            lemma_seq_view_props(vals@);
            let target = Seq::new(
                wsv.len(),
                |j: int| RespView::BulkString(wsv[j].len() as int, wsv[j]),
            );
            assert forall|k: int| 0 <= k < spec_seq_view(vals@).len() implies
                spec_seq_view(vals@)[k] == target[k] by {
                assert(vals@[k]@ == RespView::BulkString(wsv[k].len() as int, wsv[k]));
            }
            assert(spec_seq_view(vals@) =~= target);
        }
        RedisValue::Array(n, vals)
    }

    /// The text a value carries: the line of a simple string or error,
    /// the decimal text of an integer, the content of a bulk string,
    /// `(nil)` for the null bulk string. An array carries no single text.
    pub fn inner_string(&self) -> (r: Result<String, Error>)
        ensures
            match r {
                Ok(s) => match self@ {
                    RespView::SimpleString(t) => s@ == t,
                    RespView::SimpleError(t) => s@ == t,
                    RespView::Integer(i) => s@ == spec_int_chars(i),
                    RespView::BulkString(_, t) => s@ == t,
                    RespView::NullBulkString => s@ == "(nil)"@,
                    RespView::Array(_, _) => false,
                },
                Err(e) => (self matches RedisValue::Array(_, _)) && (e matches
                    Error::CantConvertToString(_)),
            },
    {
        match self {
            RedisValue::SimpleString(x) => Ok(x.clone()),
            RedisValue::SimpleError(x) => Ok(x.clone()),
            RedisValue::Integer(x) => Ok(i64_to_string(*x)),
            RedisValue::BulkString(_, x) => Ok(x.clone()),
            RedisValue::NullBulkString => Ok(String::from_str("(nil)")),
            RedisValue::Array(_, _) => Err(Error::CantConvertToString(self.clone())),
        }
    }
}

/// The views of a sequence of strings.
pub open spec fn spec_strings_view(s: Seq<String>) -> Seq<Seq<char>> {
    Seq::new(s.len(), |i: int| s[i]@)
}

/// An array of bulk strings, one per word.
pub open spec fn spec_bulk_array_of_words(ws: Seq<Seq<char>>) -> RespView {
    RespView::Array(
        ws.len() as int,
        Seq::new(ws.len(), |i: int| RespView::BulkString(ws[i].len() as int, ws[i])),
    )
}

/// An ASCII whitespace character.
pub open spec fn is_ws(c: char) -> bool {
    c == ' ' || c == '\t' || c == '\r' || c == '\n'
}

/// The position of the first whitespace character at or after `pos`,
/// or the end of the text.
pub open spec fn spec_word_end(s: Seq<char>, pos: int) -> int
    decreases s.len() - pos,
{
    if pos < 0 || pos >= s.len() {
        pos
    } else if is_ws(s[pos]) {
        pos
    } else {
        spec_word_end(s, pos + 1)
    }
}

proof fn lemma_word_end_bounds(s: Seq<char>, pos: int)
    requires
        0 <= pos <= s.len(),
    ensures
        pos <= spec_word_end(s, pos) <= s.len(),
    decreases s.len() - pos,
{
    if pos < s.len() && !is_ws(s[pos]) {
        lemma_word_end_bounds(s, pos + 1);
    }
}

/// The whitespace-separated words of `s` from `pos` on.
pub open spec fn spec_split_ws_at(s: Seq<char>, pos: int) -> Seq<Seq<char>>
    decreases s.len() - pos,
{
    if pos < 0 || pos >= s.len() {
        Seq::empty()
    } else if is_ws(s[pos]) {
        spec_split_ws_at(s, pos + 1)
    } else {
        let e = spec_word_end(s, pos);
        if pos < e <= s.len() {
            seq![s.subrange(pos, e)] + spec_split_ws_at(s, e)
        } else {
            Seq::empty()
        }
    }
}

/// Finds the end of the word starting at `pos`: the first whitespace
/// position at or after it, or the end of the text.
fn word_end_from(s: &str, pos: usize) -> (e: usize)
    requires
        pos <= s@.len(),
    ensures
        e as int == spec_word_end(s@, pos as int),
        pos <= e <= s@.len(),
{
    let n = s.unicode_len();
    let mut e: usize = pos;
    while e < n
        invariant
            pos <= e <= n,
            n == s@.len(),
            spec_word_end(s@, pos as int) == spec_word_end(s@, e as int),
        decreases n - e,
    {
        let c = s.get_char(e);
        if c == ' ' || c == '\t' || c == '\r' || c == '\n' {
            proof {
                assert(spec_word_end(s@, e as int) == e as int);
            }
            return e;
        }
        proof {
            assert(spec_word_end(s@, e as int) == spec_word_end(s@, e as int + 1));
        }
        e += 1;
    }
    proof {
        assert(spec_word_end(s@, e as int) == e as int);
    }
    e
}

/// Splits `s` into its whitespace-separated words.
fn split_ws(s: &str) -> (r: Vec<String>)
    ensures
        spec_strings_view(r@) == spec_split_ws_at(s@, 0),
{
    let n = s.unicode_len();
    let mut out: Vec<String> = Vec::new();
    let mut pos: usize = 0;
    while pos < n
        invariant
            pos <= n,
            n == s@.len(),
            spec_strings_view(out@) + spec_split_ws_at(s@, pos as int) == spec_split_ws_at(
                s@,
                0,
            ),
        decreases n - pos,
    {
        let c = s.get_char(pos);
        if c == ' ' || c == '\t' || c == '\r' || c == '\n' {
            proof {
                assert(spec_split_ws_at(s@, pos as int) == spec_split_ws_at(
                    s@,
                    pos as int + 1,
                ));
            }
            pos += 1;
        } else {
            let e = word_end_from(s, pos);
            proof {
                lemma_word_end_bounds(s@, pos as int + 1);
                assert(spec_word_end(s@, pos as int) == spec_word_end(s@, pos as int + 1));
                assert(e > pos);
            }
            let w = s.substring_char(pos, e);
            let ghost before = out@;
            out.push(String::from_str(w));
            proof {
                assert(spec_split_ws_at(s@, pos as int) == seq![s@.subrange(
                    pos as int,
                    e as int,
                )] + spec_split_ws_at(s@, e as int));
                assert(spec_strings_view(out@) =~= spec_strings_view(before).push(w@));
                assert(spec_strings_view(before).push(w@) + spec_split_ws_at(s@, e as int)
                    =~= spec_strings_view(before) + spec_split_ws_at(s@, pos as int));
            }
            pos = e;
        }
    }
    proof {
        assert(spec_split_ws_at(s@, pos as int) == Seq::<Seq<char>>::empty());
        assert(spec_strings_view(out@) + Seq::<Seq<char>>::empty() =~= spec_strings_view(
            out@,
        ));
    }
    out
}


/// Where reading one value off a buffer can end up, in the model:
/// a value and the position just past it, a request for more input,
/// or a framing error.
pub enum ParseStep {
    Found(RespView, int),
    More,
    Fail,
}

/// The same three outcomes for a run of consecutive values.
pub enum ElemsStep {
    Found(Seq<RespView>, int),
    More,
    Fail,
}

/// The first position `j >= pos` where a carriage return is directly
/// followed by a line feed, if any.
pub open spec fn spec_find_crlf(s: Seq<char>, pos: int) -> Option<int>
    decreases s.len() - pos,
{
    if pos < 0 || pos + 2 > s.len() {
        None
    } else if s[pos] == '\r' && s[pos + 1] == '\n' {
        Some(pos)
    } else {
        spec_find_crlf(s, pos + 1)
    }
}

pub proof fn lemma_find_crlf_bounds(s: Seq<char>, pos: int)
    requires
        0 <= pos,
    ensures
        spec_find_crlf(s, pos) matches Some(j) ==> pos <= j && j + 2 <= s.len()
            && s[j] == '\r' && s[j + 1] == '\n',
    decreases s.len() - pos,
{
    if pos + 2 <= s.len() && !(s[pos] == '\r' && s[pos + 1] == '\n') {
        lemma_find_crlf_bounds(s, pos + 1);
    }
}

/// If no carriage return occurs in `[pos, j)` and a CRLF stands at `j`,
/// then `j` is where the search lands.
pub proof fn lemma_find_crlf_at(s: Seq<char>, pos: int, j: int)
    requires
        0 <= pos <= j,
        j + 2 <= s.len(),
        forall|i: int| pos <= i < j ==> #[trigger] s[i] != '\r',
        s[j] == '\r',
        s[j + 1] == '\n',
    ensures
        spec_find_crlf(s, pos) == Some(j),
    decreases j - pos,
{
    if pos < j {
        lemma_find_crlf_at(s, pos + 1, j);
    }
}

/// Reading one value off `s` at `pos`, in the model.
///
/// A line frame runs to the first CRLF; an integer line must be a
/// well-formed signed decimal in 64-bit range; a bulk frame reads a
/// length line, that many characters, and a closing CRLF, with length
/// -1 denoting the null bulk string; an array frame reads a count line
/// and then that many values. Input that ends before the frame does is
/// `More`; input that cannot start a frame is `Fail`.
pub open spec fn spec_parse_value(s: Seq<char>, pos: int) -> ParseStep
    decreases s.len() - pos, 0int,
{
    if pos < 0 || pos >= s.len() {
        ParseStep::More
    } else if s[pos] == '+' || s[pos] == '-' {
        match spec_find_crlf(s, pos + 1) {
            None => ParseStep::More,
            Some(j) => {
                let t = s.subrange(pos + 1, j);
                if s[pos] == '+' {
                    ParseStep::Found(RespView::SimpleString(t), j + 2)
                } else {
                    ParseStep::Found(RespView::SimpleError(t), j + 2)
                }
            },
        }
    } else if s[pos] == ':' {
        match spec_find_crlf(s, pos + 1) {
            None => ParseStep::More,
            Some(j) => {
                let body = s.subrange(pos + 1, j);
                if valid_int_body(body) && i64::MIN <= int_body_val(body) <= i64::MAX {
                    ParseStep::Found(RespView::Integer(int_body_val(body)), j + 2)
                } else {
                    ParseStep::Fail
                }
            },
        }
    } else if s[pos] == '$' {
        match spec_find_crlf(s, pos + 1) {
            None => ParseStep::More,
            Some(j) => {
                let body = s.subrange(pos + 1, j);
                if !(valid_int_body(body) && i64::MIN <= int_body_val(body) <= i64::MAX) {
                    ParseStep::Fail
                } else {
                    let n = int_body_val(body);
                    if n == -1 {
                        ParseStep::Found(RespView::NullBulkString, j + 2)
                    } else if n < 0 {
                        ParseStep::Fail
                    } else if j + 2 + n + 2 > s.len() {
                        ParseStep::More
                    } else if s[j + 2 + n] == '\r' && s[j + 2 + n + 1] == '\n' {
                        ParseStep::Found(
                            RespView::BulkString(n, s.subrange(j + 2, j + 2 + n)),
                            j + 2 + n + 2,
                        )
                    } else {
                        ParseStep::Fail
                    }
                }
            },
        }
    } else if s[pos] == '*' {
        match spec_find_crlf(s, pos + 1) {
            None => ParseStep::More,
            Some(j) => {
                let body = s.subrange(pos + 1, j);
                if !(valid_int_body(body) && i64::MIN <= int_body_val(body) <= i64::MAX) {
                    ParseStep::Fail
                } else {
                    let n = int_body_val(body);
                    if n < 0 {
                        ParseStep::Fail
                    } else if pos < j + 2 <= s.len() {
                        match spec_parse_elems(s, j + 2, n) {
                            ElemsStep::Found(vs, end) => ParseStep::Found(
                                RespView::Array(n, vs),
                                end,
                            ),
                            ElemsStep::More => ParseStep::More,
                            ElemsStep::Fail => ParseStep::Fail,
                        }
                    } else {
                        ParseStep::More
                    }
                }
            },
        }
    } else {
        ParseStep::Fail
    }
}

/// Reading `count` consecutive values off `s` at `pos`, in the model.
pub open spec fn spec_parse_elems(s: Seq<char>, pos: int, count: int) -> ElemsStep
    decreases s.len() - pos, count + 1,
{
    if count <= 0 {
        ElemsStep::Found(Seq::empty(), pos)
    } else {
        match spec_parse_value(s, pos) {
            ParseStep::Found(v, next) => {
                if pos < next <= s.len() {
                    match spec_parse_elems(s, next, count - 1) {
                        ElemsStep::Found(vs, end) => ElemsStep::Found(seq![v] + vs, end),
                        ElemsStep::More => ElemsStep::More,
                        ElemsStep::Fail => ElemsStep::Fail,
                    }
                } else {
                    ElemsStep::Fail
                }
            },
            ParseStep::More => ElemsStep::More,
            ParseStep::Fail => ElemsStep::Fail,
        }
    }
}

/// A found value always makes strict progress and stays inside the input.
pub proof fn lemma_parse_progress(s: Seq<char>, pos: int)
    requires
        0 <= pos,
    ensures
        spec_parse_value(s, pos) matches ParseStep::Found(v, next) ==> pos < next
            <= s.len(),
    decreases s.len() - pos, 0int,
{
    if pos < s.len() {
        lemma_find_crlf_bounds(s, pos + 1);
        if s[pos] == '*' {
            if let Some(j) = spec_find_crlf(s, pos + 1) {
                let body = s.subrange(pos + 1, j);
                if valid_int_body(body) && i64::MIN <= int_body_val(body) <= i64::MAX {
                    let n = int_body_val(body);
                    if n >= 0 && pos < j + 2 <= s.len() {
                        lemma_parse_elems_progress(s, j + 2, n);
                    }
                }
            }
        }
    }
}

/// A found run of values never backs up, ends inside the input, and has
/// exactly the requested length.
pub proof fn lemma_parse_elems_progress(s: Seq<char>, pos: int, count: int)
    requires
        0 <= pos <= s.len(),
    ensures
        spec_parse_elems(s, pos, count) matches ElemsStep::Found(vs, end) ==> pos <= end
            <= s.len() && vs.len() == (if count >= 0 { count } else { 0 }),
    decreases s.len() - pos, count + 1,
{
    if count > 0 {
        lemma_parse_progress(s, pos);
        if let ParseStep::Found(v, next) = spec_parse_value(s, pos) {
            if pos < next <= s.len() {
                lemma_parse_elems_progress(s, next, count - 1);
            }
        }
    }
}

/// The outcome of reading one value off a buffer: the value and the
/// position just past it, a request for more input, or a framing error.
#[derive(Debug)]
pub enum DecodeResult {
    Value(RedisValue, usize),
    NeedMore,
    ProtocolError,
}

/// The outcome of reading a run of values.
enum ElemsDecode {
    Value(Vec<RedisValue>, usize),
    NeedMore,
    ProtocolError,
}

/// The exec outcome `r` agrees with the model's outcome at `pos`.
pub open spec fn decode_matches(s: Seq<char>, pos: int, r: DecodeResult) -> bool {
    match r {
        DecodeResult::Value(v, next) => spec_parse_value(s, pos) == ParseStep::Found(
            v@,
            next as int,
        ) && pos < next <= s.len(),
        DecodeResult::NeedMore => spec_parse_value(s, pos) == ParseStep::More,
        DecodeResult::ProtocolError => spec_parse_value(s, pos) == ParseStep::Fail,
    }
}

/// Finds the first CRLF at or after `pos`.
fn find_crlf(s: &str, pos: usize) -> (r: Option<usize>)
    requires
        pos <= s@.len(),
    ensures
        match r {
            Some(j) => spec_find_crlf(s@, pos as int) == Some(j as int) && pos <= j && j
                + 2 <= s@.len(),
            None => spec_find_crlf(s@, pos as int) == None::<int>,
        },
{
    let n = s.unicode_len();
    let mut i: usize = pos;
    while n >= 2 && i <= n - 2
        invariant
            pos <= i,
            i <= n,
            n == s@.len(),
            spec_find_crlf(s@, pos as int) == spec_find_crlf(s@, i as int),
        decreases n - i,
    {
        let c0 = s.get_char(i);
        if c0 == '\r' {
            let c1 = s.get_char(i + 1);
            if c1 == '\n' {
                proof {
                    assert(spec_find_crlf(s@, i as int) == Some(i as int));
                }
                return Some(i);
            }
        }
        proof {
            assert(spec_find_crlf(s@, i as int) == spec_find_crlf(s@, i as int + 1));
        }
        i += 1;
    }
    proof {
        assert(spec_find_crlf(s@, i as int) == None::<int>);
    }
    None
}

/// Reads one value off `s` starting at `pos`.
pub fn parse_redis_value_at(s: &str, pos: usize) -> (r: DecodeResult)
    requires
        pos <= s@.len(),
    ensures
        decode_matches(s@, pos as int, r),
    decreases s@.len() - pos, 0int,
{
    let n = s.unicode_len();
    if pos >= n {
        return DecodeResult::NeedMore;
    }
    let c = s.get_char(pos);
    if c == '+' || c == '-' {
        match find_crlf(s, pos + 1) {
            None => DecodeResult::NeedMore,
            Some(j) => {
                let t = String::from_str(s.substring_char(pos + 1, j));
                let v = if c == '+' {
                    RedisValue::SimpleString(t)
                } else {
                    RedisValue::SimpleError(t)
                };
                DecodeResult::Value(v, j + 2)
            },
        }
    } else if c == ':' {
        match find_crlf(s, pos + 1) {
            None => DecodeResult::NeedMore,
            Some(j) => {
                match parse_i64_body(s, pos + 1, j) {
                    None => DecodeResult::ProtocolError,
                    Some(val) => DecodeResult::Value(RedisValue::Integer(val), j + 2),
                }
            },
        }
    } else if c == '$' {
        match find_crlf(s, pos + 1) {
            None => DecodeResult::NeedMore,
            Some(j) => {
                match parse_i64_body(s, pos + 1, j) {
                    None => DecodeResult::ProtocolError,
                    Some(val) => {
                        if val == -1 {
                            DecodeResult::Value(RedisValue::NullBulkString, j + 2)
                        } else if val < 0 {
                            DecodeResult::ProtocolError
                        } else {
                            let rem: u64 = (n - (j + 2)) as u64;
                            let nn: u64 = val as u64;
                            if nn + 2 > rem {
                                DecodeResult::NeedMore
                            } else {
                                assert(nn + 2 <= rem);
                                let nu: usize = nn as usize;
                                let tail_at: usize = j + 2 + nu;
                                let c0 = s.get_char(tail_at);
                                let c1 = s.get_char(tail_at + 1);
                                if c0 == '\r' && c1 == '\n' {
                                    let t = String::from_str(
                                        s.substring_char(j + 2, tail_at),
                                    );
                                    DecodeResult::Value(
                                        RedisValue::BulkString(nu, t),
                                        tail_at + 2,
                                    )
                                } else {
                                    DecodeResult::ProtocolError
                                }
                            }
                        }
                    },
                }
            },
        }
    } else if c == '*' {
        match find_crlf(s, pos + 1) {
            None => DecodeResult::NeedMore,
            Some(j) => {
                match parse_i64_body(s, pos + 1, j) {
                    None => DecodeResult::ProtocolError,
                    Some(val) => {
                        if val < 0 {
                            DecodeResult::ProtocolError
                        } else {
                            proof {
                                lemma_find_crlf_bounds(s@, pos as int + 1);
                            }
                            match parse_elems_at(s, j + 2, val as u64) {
                                ElemsDecode::Value(vals, end) => {
                                    let count = vals.len();
                                    proof {
                                        lemma_parse_elems_progress(
                                            s@,
                                            j as int + 2,
                                            val as int,
                                        );
                                        lemma_seq_view_props(vals@);
                                    }
                                    DecodeResult::Value(
                                        RedisValue::Array(count, vals),
                                        end,
                                    )
                                },
                                ElemsDecode::NeedMore => DecodeResult::NeedMore,
                                ElemsDecode::ProtocolError => DecodeResult::ProtocolError,
                            }
                        }
                    },
                }
            },
        }
    } else {
        DecodeResult::ProtocolError
    }
}

/// Reads `count` consecutive values off `s` starting at `pos`.
fn parse_elems_at(s: &str, pos: usize, count: u64) -> (r: ElemsDecode)
    requires
        pos <= s@.len(),
    ensures
        match r {
            ElemsDecode::Value(vals, end) => spec_parse_elems(s@, pos as int, count as int)
                == ElemsStep::Found(spec_seq_view(vals@), end as int) && pos <= end
                <= s@.len(),
            ElemsDecode::NeedMore => spec_parse_elems(s@, pos as int, count as int)
                == ElemsStep::More,
            ElemsDecode::ProtocolError => spec_parse_elems(s@, pos as int, count as int)
                == ElemsStep::Fail,
        },
    decreases s@.len() - pos, count as int + 1,
{
    if count == 0 {
        let vals: Vec<RedisValue> = Vec::new();
        assert(spec_seq_view(vals@) == Seq::<RespView>::empty());
        return ElemsDecode::Value(vals, pos);
    }
    match parse_redis_value_at(s, pos) {
        DecodeResult::Value(v, next) => {
            match parse_elems_at(s, next, count - 1) {
                ElemsDecode::Value(mut vals, end) => {
                    let ghost tailv = vals@;
                    vals.insert(0, v);
                    proof {
                        lemma_seq_view_props(vals@);
                        lemma_seq_view_props(tailv);
                        assert(vals@ =~= seq![v] + tailv);
                        let target = seq![v@] + spec_seq_view(tailv);
                        assert forall|k: int| 0 <= k < spec_seq_view(vals@).len() implies
                            spec_seq_view(vals@)[k] == target[k] by {
                            if k == 0 {
                                assert(vals@[0] == v);
                                assert(spec_seq_view(vals@)[k] == vals@[0]@);
                            } else {
                                assert(vals@[k] == tailv[k - 1]);
                                assert(spec_seq_view(vals@)[k] == vals@[k]@);
                                assert(spec_seq_view(tailv)[k - 1] == tailv[k - 1]@);
                            }
                        }
                        assert(spec_seq_view(vals@) =~= target);
                    }
                    ElemsDecode::Value(vals, end)
                },
                ElemsDecode::NeedMore => ElemsDecode::NeedMore,
                ElemsDecode::ProtocolError => ElemsDecode::ProtocolError,
            }
        },
        DecodeResult::NeedMore => ElemsDecode::NeedMore,
        DecodeResult::ProtocolError => ElemsDecode::ProtocolError,
    }
}

/// Reads one value off the start of `input`.
pub fn parse_redis_value(input: &str) -> (r: DecodeResult)
    ensures
        decode_matches(input@, 0, r),
{
    parse_redis_value_at(input, 0)
}

/// The snapshot-length header, in the model: one marker character, then
/// an integer line.
pub open spec fn spec_parse_rdb_length(s: Seq<char>) -> Option<(int, int)> {
    if s.len() < 1 {
        None
    } else {
        match spec_find_crlf(s, 1) {
            None => None,
            Some(j) => {
                let body = s.subrange(1, j);
                if valid_int_body(body) && i64::MIN <= int_body_val(body) <= i64::MAX {
                    Some((int_body_val(body), j + 2))
                } else {
                    None
                }
            },
        }
    }
}

/// Reads the bulk-style length header that precedes the snapshot bytes:
/// a marker character, an integer, CRLF. Returns the length and the
/// position just past the header.
pub fn parse_rdb_length(s: &str) -> (r: Option<(i64, usize)>)
    ensures
        match r {
            Some((v, next)) => spec_parse_rdb_length(s@) == Some((v as int, next as int)),
            None => spec_parse_rdb_length(s@) == None::<(int, int)>,
        },
{
    let n = s.unicode_len();
    if n < 1 {
        return None;
    }
    match find_crlf(s, 1) {
        None => None,
        Some(j) => {
            match parse_i64_body(s, 1, j) {
                None => None,
                Some(val) => Some((val, j + 2)),
            }
        },
    }
}

/// The decimal text of `i` is a well-formed integer body that reads
/// back as `i`, and holds no line break.
pub proof fn lemma_int_chars_props(i: int)
    ensures
        spec_int_chars(i).len() >= 1,
        valid_int_body(spec_int_chars(i)),
        int_body_val(spec_int_chars(i)) == i,
        forall|k: int| 0 <= k < spec_int_chars(i).len() ==> #[trigger] spec_int_chars(i)[k]
            != '\r' && spec_int_chars(i)[k] != '\n',
{
    let body = spec_int_chars(i);
    if i < 0 {
        lemma_udigits_val((-i) as nat);
        let d = spec_udigits((-i) as nat);
        assert(body == seq!['-'] + d);
        assert(body[0] == '-');
        assert(body.len() == 1 + d.len());
        assert(body.subrange(1, body.len() as int) =~= d);
        assert(int_body_val(body) == -digits_val(d));
        assert forall|k: int| 0 <= k < body.len() implies #[trigger] body[k] != '\r'
            && body[k] != '\n' by {
            if k > 0 {
                assert(body[k] == d[k - 1]);
                assert(is_digit(d[k - 1]));
            }
        }
    } else {
        lemma_udigits_val(i as nat);
        assert(body == spec_udigits(i as nat));
        assert(is_digit(body[0]));
        assert(body[0] != '-' && body[0] != '+');
        assert(int_body_val(body) == digits_val(body));
        assert forall|k: int| 0 <= k < body.len() implies #[trigger] body[k] != '\r'
            && body[k] != '\n' by {
            assert(is_digit(body[k]));
        }
    }
}

/// Every encoding is at least three characters long.
pub proof fn lemma_encode_len_pos(v: RespView)
    ensures
        spec_encode(v).len() >= 3,
{
    match v {
        RespView::Integer(i) => {
            lemma_int_chars_props(i);
        },
        RespView::BulkString(n, _) => {
            lemma_int_chars_props(n);
        },
        RespView::Array(n, _) => {
            lemma_int_chars_props(n);
        },
        _ => {},
    }
}

/// One character of a laid-down region.
proof fn lemma_region_char(s: Seq<char>, pos: int, enc: Seq<char>, k: int)
    requires
        0 <= pos,
        pos + enc.len() <= s.len(),
        s.subrange(pos, pos + enc.len() as int) == enc,
        0 <= k < enc.len(),
    ensures
        s[pos + k] == enc[k],
{
    assert(s.subrange(pos, pos + enc.len() as int)[k] == s[pos + k]);
}

/// Parsing at a position where the encoding of a well-formed value has
/// been laid down finds exactly that value and consumes exactly its
/// encoding.
pub proof fn lemma_parse_encode_at(s: Seq<char>, pos: int, v: RespView)
    requires
        wf_resp(v),
        0 <= pos,
        pos + spec_encode(v).len() <= s.len(),
        s.subrange(pos, pos + spec_encode(v).len() as int) == spec_encode(v),
    ensures
        spec_parse_value(s, pos) == ParseStep::Found(v, pos + spec_encode(v).len()),
    decreases v, 0int,
{
    let enc = spec_encode(v);
    match v {
        RespView::SimpleString(t) => {
            assert(enc == seq!['+'] + t + spec_crlf());
            lemma_region_char(s, pos, enc, 0);
            assert(s[pos] == '+');
            let j = pos + 1 + t.len();
            assert forall|i: int| pos + 1 <= i < j implies #[trigger] s[i] != '\r' by {
                lemma_region_char(s, pos, enc, i - pos);
                assert(enc[i - pos] == t[i - pos - 1]);
            }
            lemma_region_char(s, pos, enc, 1 + t.len() as int);
            lemma_region_char(s, pos, enc, 2 + t.len() as int);
            assert(s[j] == '\r' && s[j + 1] == '\n');
            lemma_find_crlf_at(s, pos + 1, j);
            assert(s.subrange(pos + 1, j) =~= t) by {
                assert forall|k: int| 0 <= k < t.len() implies s.subrange(pos + 1, j)[k]
                    == t[k] by {
                    lemma_region_char(s, pos, enc, 1 + k);
                }
            }
        },
        RespView::SimpleError(t) => {
            assert(enc == seq!['-'] + t + spec_crlf());
            lemma_region_char(s, pos, enc, 0);
            assert(s[pos] == '-');
            let j = pos + 1 + t.len();
            assert forall|i: int| pos + 1 <= i < j implies #[trigger] s[i] != '\r' by {
                lemma_region_char(s, pos, enc, i - pos);
                assert(enc[i - pos] == t[i - pos - 1]);
            }
            lemma_region_char(s, pos, enc, 1 + t.len() as int);
            lemma_region_char(s, pos, enc, 2 + t.len() as int);
            assert(s[j] == '\r' && s[j + 1] == '\n');
            lemma_find_crlf_at(s, pos + 1, j);
            assert(s.subrange(pos + 1, j) =~= t) by {
                assert forall|k: int| 0 <= k < t.len() implies s.subrange(pos + 1, j)[k]
                    == t[k] by {
                    lemma_region_char(s, pos, enc, 1 + k);
                }
            }
        },
        RespView::Integer(i) => {
            lemma_int_chars_props(i);
            let d = spec_int_chars(i);
            assert(enc == seq![':'] + d + spec_crlf());
            lemma_region_char(s, pos, enc, 0);
            assert(s[pos] == ':');
            let j = pos + 1 + d.len();
            assert forall|k: int| pos + 1 <= k < j implies #[trigger] s[k] != '\r' by {
                lemma_region_char(s, pos, enc, k - pos);
                assert(enc[k - pos] == d[k - pos - 1]);
            }
            lemma_region_char(s, pos, enc, 1 + d.len() as int);
            lemma_region_char(s, pos, enc, 2 + d.len() as int);
            assert(s[j] == '\r' && s[j + 1] == '\n');
            lemma_find_crlf_at(s, pos + 1, j);
            assert(s.subrange(pos + 1, j) =~= d) by {
                assert forall|k: int| 0 <= k < d.len() implies s.subrange(pos + 1, j)[k]
                    == d[k] by {
                    lemma_region_char(s, pos, enc, 1 + k);
                }
            }
        },
        RespView::BulkString(n, t) => {
            lemma_int_chars_props(n);
            let d = spec_int_chars(n);
            assert(enc == seq!['$'] + d + spec_crlf() + t + spec_crlf());
            lemma_region_char(s, pos, enc, 0);
            assert(s[pos] == '$');
            let j = pos + 1 + d.len();
            assert forall|k: int| pos + 1 <= k < j implies #[trigger] s[k] != '\r' by {
                lemma_region_char(s, pos, enc, k - pos);
                assert(enc[k - pos] == d[k - pos - 1]);
            }
            lemma_region_char(s, pos, enc, 1 + d.len() as int);
            lemma_region_char(s, pos, enc, 2 + d.len() as int);
            assert(s[j] == '\r' && s[j + 1] == '\n');
            lemma_find_crlf_at(s, pos + 1, j);
            assert(s.subrange(pos + 1, j) =~= d) by {
                assert forall|k: int| 0 <= k < d.len() implies s.subrange(pos + 1, j)[k]
                    == d[k] by {
                    lemma_region_char(s, pos, enc, 1 + k);
                }
            }
            assert(n == t.len() && n >= 0);
            assert(j + 2 + n + 2 == pos + enc.len());
            assert(s.subrange(j + 2, j + 2 + n) =~= t) by {
                assert forall|k: int| 0 <= k < n implies s.subrange(j + 2, j + 2 + n)[k]
                    == t[k] by {
                    lemma_region_char(s, pos, enc, 1 + d.len() as int + 2 + k);
                    assert(enc[1 + d.len() as int + 2 + k] == t[k]);
                }
            }
            lemma_region_char(s, pos, enc, 1 + d.len() as int + 2 + n);
            lemma_region_char(s, pos, enc, 1 + d.len() as int + 2 + n + 1);
            assert(enc[1 + d.len() as int + 2 + n] == '\r');
            assert(enc[1 + d.len() as int + 2 + n + 1] == '\n');
            assert(s[j + 2 + n] == '\r' && s[j + 2 + n + 1] == '\n');
        },
        RespView::NullBulkString => {
            assert(enc == seq!['$', '-', '1', '\r', '\n']);
            lemma_region_char(s, pos, enc, 0);
            lemma_region_char(s, pos, enc, 1);
            lemma_region_char(s, pos, enc, 2);
            lemma_region_char(s, pos, enc, 3);
            lemma_region_char(s, pos, enc, 4);
            assert(s[pos] == '$');
            assert(s[pos + 1] == '-' && s[pos + 2] == '1');
            assert(s[pos + 3] == '\r' && s[pos + 4] == '\n');
            assert forall|i: int| pos + 1 <= i < pos + 3 implies #[trigger] s[i] != '\r'
                by {
                lemma_region_char(s, pos, enc, i - pos);
            }
            lemma_find_crlf_at(s, pos + 1, pos + 3);
            let body = s.subrange(pos + 1, pos + 3);
            assert(body =~= seq!['-', '1']);
            assert(body.subrange(1, 2) =~= seq!['1']);
            assert(all_digits(body.subrange(1, 2)));
            assert(valid_int_body(body));
            assert(digits_val(seq!['1']) == 1) by {
                let one = seq!['1'];
                assert(one.drop_last() =~= Seq::<char>::empty());
                assert(digits_val(one) == 10 * digits_val(one.drop_last()) + digit_val(
                    '1',
                ));
            }
            assert(int_body_val(body) == -1);
        },
        RespView::Array(n, elems) => {
            lemma_int_chars_props(n);
            let d = spec_int_chars(n);
            let es = spec_encode_seq(elems);
            assert(enc == seq!['*'] + d + spec_crlf() + es);
            lemma_region_char(s, pos, enc, 0);
            assert(s[pos] == '*');
            let j = pos + 1 + d.len();
            assert forall|k: int| pos + 1 <= k < j implies #[trigger] s[k] != '\r' by {
                lemma_region_char(s, pos, enc, k - pos);
                assert(enc[k - pos] == d[k - pos - 1]);
            }
            lemma_region_char(s, pos, enc, 1 + d.len() as int);
            lemma_region_char(s, pos, enc, 2 + d.len() as int);
            assert(s[j] == '\r' && s[j + 1] == '\n');
            lemma_find_crlf_at(s, pos + 1, j);
            assert(s.subrange(pos + 1, j) =~= d) by {
                assert forall|k: int| 0 <= k < d.len() implies s.subrange(pos + 1, j)[k]
                    == d[k] by {
                    lemma_region_char(s, pos, enc, 1 + k);
                }
            }
            assert(n == elems.len() && n >= 0);
            assert(j + 2 + es.len() == pos + enc.len());
            assert(s.subrange(j + 2, j + 2 + es.len() as int) =~= es) by {
                assert forall|k: int| 0 <= k < es.len() implies s.subrange(
                    j + 2,
                    j + 2 + es.len() as int,
                )[k] == es[k] by {
                    lemma_region_char(s, pos, enc, 1 + d.len() as int + 2 + k);
                    assert(enc[1 + d.len() as int + 2 + k] == es[k]);
                }
            }
            lemma_parse_encode_elems(s, j + 2, elems);
        },
    }
}

/// Parsing a run of values at a position where their encodings have
/// been laid down back to back finds exactly those values.
pub proof fn lemma_parse_encode_elems(s: Seq<char>, pos: int, elems: Seq<RespView>)
    requires
        wf_resp_seq(elems),
        0 <= pos,
        pos + spec_encode_seq(elems).len() <= s.len(),
        s.subrange(pos, pos + spec_encode_seq(elems).len() as int) == spec_encode_seq(
            elems,
        ),
    ensures
        spec_parse_elems(s, pos, elems.len() as int) == ElemsStep::Found(
            elems,
            pos + spec_encode_seq(elems).len(),
        ),
    decreases elems, 1int,
{
    if elems.len() == 0 {
        assert(elems =~= Seq::<RespView>::empty());
    } else {
        let es = spec_encode_seq(elems);
        let head = elems[0];
        let tail = elems.subrange(1, elems.len() as int);
        let e0 = spec_encode(head);
        let et = spec_encode_seq(tail);
        assert(es == e0 + et);
        assert(s.subrange(pos, pos + e0.len() as int) =~= e0) by {
            assert forall|k: int| 0 <= k < e0.len() implies s.subrange(
                pos,
                pos + e0.len() as int,
            )[k] == e0[k] by {
                lemma_region_char(s, pos, es, k);
            }
        }
        assert(decreases_to!(elems => elems[0]));
        lemma_parse_encode_at(s, pos, head);
        lemma_encode_len_pos(head);
        let next = pos + e0.len();
        assert(s.subrange(next, next + et.len() as int) =~= et) by {
            assert forall|k: int| 0 <= k < et.len() implies s.subrange(
                next,
                next + et.len() as int,
            )[k] == et[k] by {
                lemma_region_char(s, pos, es, e0.len() as int + k);
                assert(es[e0.len() as int + k] == et[k]);
            }
        }
        assert(decreases_to!(elems => tail));
        lemma_parse_encode_elems(s, next, tail);
        assert(seq![head] + tail =~= elems);
    }
}

/// Codec round trip: decoding the encoding of any well-formed value
/// yields that value back and consumes exactly the encoded text.
pub proof fn lemma_codec_round_trip(v: RespView)
    requires
        wf_resp(v),
    ensures
        spec_parse_value(spec_encode(v), 0) == ParseStep::Found(
            v,
            spec_encode(v).len() as int,
        ),
{
    let s = spec_encode(v);
    assert(s.subrange(0, s.len() as int) =~= s);
    lemma_parse_encode_at(s, 0, v);
}

} // verus!
