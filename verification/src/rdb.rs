//! The snapshot image codec: decoding the binary dump format into
//! records — header, auxiliary fields, database sections with their
//! optionally expiring string fields — and encoding it back.

use vstd::prelude::*;

use crate::digits::{all_digits, digits_val, push_char, spec_udigits, u64_to_string};
use crate::error::Error;

verus! {

/// A length read from the variable-width length encoding.
#[derive(Debug, Clone, Copy, PartialEq, Eq, Structural)]
pub struct LengthEncoding {
    pub length: u32,
}

/// A string-encoded field: either raw bytes of a given length, or a
/// small integer stored in binary and kept here as its decimal text.
#[derive(Debug)]
pub struct StringEncodedField {
    /// Whether the top two bits of the marker byte were set, which
    /// means the value was stored as a binary integer.
    pub msb_11: bool,
    /// Even if the value is an integer, it is kept as text.
    pub field: String,
}

/// An optional expiry stamp: seconds or milliseconds.
#[derive(Debug, Clone, Copy, PartialEq, Eq, Structural)]
pub struct Expiration {
    /// True for seconds, false for milliseconds.
    pub is_second: bool,
    pub expiry_time: Option<u64>,
}

/// The value-type code of a database field.
#[derive(Debug, Clone, Copy, PartialEq, Eq, Structural)]
pub enum ValueTypeEncoding {
    String,
    List,
    SetValue,
    SortedSet,
    Hash,
    Zipmap,
    Ziplist,
    Intset,
    SortedSetInZiplist,
    HashmapInZiplist,
    ListInQuicklist,
}

/// One keyed field of a database section.
#[derive(Debug)]
pub struct DatabaseField {
    pub expiration: Expiration,
    pub value_type: ValueTypeEncoding,
    pub key: StringEncodedField,
    pub value: StringEncodedField,
}

/// The absolute expiry a stamp denotes, in milliseconds: seconds are
/// scaled up, stopping at the top of the range.
pub open spec fn spec_expiry_ms(e: Expiration) -> Option<u64> {
    match e.expiry_time {
        None => None,
        Some(x) => {
            if e.is_second {
                if x * 1000 > u64::MAX {
                    Some(u64::MAX)
                } else {
                    Some((x * 1000) as u64)
                }
            } else {
                Some(x)
            }
        },
    }
}

impl DatabaseField {
    /// The absolute expiry in milliseconds, if the field has one.
    pub fn get_unix_timestamp_expiration_ms(&self) -> (r: Option<u64>)
        ensures
            r == spec_expiry_ms(self.expiration),
    {
        match self.expiration.expiry_time {
            None => None,
            Some(x) => {
                if self.expiration.is_second {
                    if x <= u64::MAX / 1000 {
                        proof {
                            assert(x * 1000 <= u64::MAX) by (nonlinear_arith)
                                requires
                                    x <= u64::MAX / 1000,
                            ;
                        }
                        Some(x * 1000)
                    } else {
                        proof {
                            assert(x * 1000 > u64::MAX) by (nonlinear_arith)
                                requires
                                    x > u64::MAX / 1000,
                            ;
                        }
                        Some(u64::MAX)
                    }
                } else {
                    Some(x)
                }
            },
        }
    }
}

/// One auxiliary key/value pair of the metadata section.
#[derive(Debug)]
pub struct AuxiliaryField {
    pub key: StringEncodedField,
    pub value: StringEncodedField,
}

/// One database section: its number, table sizes, and fields.
#[derive(Debug)]
pub struct DatabaseSection {
    pub db_number: LengthEncoding,
    pub hash_table_size: LengthEncoding,
    pub expire_hash_table_size: LengthEncoding,
    pub fields_with_expiry: Vec<DatabaseField>,
}

/// The image header: the magic word and the version digits.
#[derive(Debug, Clone, Copy, PartialEq, Eq, Structural)]
pub struct RdbHeader {
    pub redis_version: u8,
}

/// A decoded snapshot image.
#[derive(Debug)]
pub struct Rdb {
    pub header: RdbHeader,
    /// Metadata section
    pub auxiliary_fields: Vec<AuxiliaryField>,
    pub database_sections: Vec<DatabaseSection>,
    pub checksum: u64,
}

/// Bytes read as characters, one for one.
pub open spec fn bytes_chars(s: Seq<u8>) -> Seq<char> {
    Seq::new(s.len(), |i: int| s[i] as char)
}

/// The model of a string-encoded field.
pub open spec fn sef_view(f: StringEncodedField) -> (bool, Seq<char>) {
    (f.msb_11, f.field@)
}

/// The model of a database field.
pub open spec fn field_view(f: DatabaseField) -> (
    Expiration,
    ValueTypeEncoding,
    (bool, Seq<char>),
    (bool, Seq<char>),
) {
    (f.expiration, f.value_type, sef_view(f.key), sef_view(f.value))
}

/// The model of a database section.
pub open spec fn section_view(s: DatabaseSection) -> (
    u32,
    u32,
    u32,
    Seq<(Expiration, ValueTypeEncoding, (bool, Seq<char>), (bool, Seq<char>))>,
) {
    (
        s.db_number.length,
        s.hash_table_size.length,
        s.expire_hash_table_size.length,
        Seq::new(s.fields_with_expiry@.len(), |i: int| field_view(s.fields_with_expiry@[i])),
    )
}

/// The model of the auxiliary fields.
pub open spec fn aux_view(s: Seq<AuxiliaryField>) -> Seq<((bool, Seq<char>), (bool, Seq<char>))> {
    Seq::new(s.len(), |i: int| (sef_view(s[i].key), sef_view(s[i].value)))
}

/// Reading a variable-width length at `pos`, in the model: top bits
/// `00` keep the low six bits; `01` pairs them with the next byte as
/// the low half of a fourteen-bit value; `10` takes the next byte
/// alone; `11` is no length.
pub open spec fn spec_parse_length(s: Seq<u8>, pos: int) -> Option<(int, int)> {
    if pos < 0 || pos >= s.len() {
        None
    } else {
        let b = s[pos];
        let msb = b / 64;
        if msb == 0 {
            Some(((b % 64) as int, pos + 1))
        } else if msb == 1 {
            if pos + 2 <= s.len() {
                Some(((b % 64) * 256 + s[pos + 1], pos + 2))
            } else {
                None
            }
        } else if msb == 2 {
            if pos + 2 <= s.len() {
                Some((s[pos + 1] as int, pos + 2))
            } else {
                None
            }
        } else {
            None
        }
    }
}

/// Reads a variable-width length.
pub fn parse_length(input: &Vec<u8>, pos: usize) -> (r: Result<(LengthEncoding, usize), Error>)
    ensures
        match r {
            Ok((v, next)) => spec_parse_length(input@, pos as int) == Some(
                (v.length as int, next as int),
            ) && pos < next <= input@.len(),
            Err(e) => spec_parse_length(input@, pos as int) == None::<(int, int)> && (
            e matches Error::SnapshotParseError { .. }),
        },
{
    if pos >= input.len() {
        return Err(Error::SnapshotParseError { offset: pos });
    }
    let b = input[pos];
    let msb = b / 64;
    if msb == 0 {
        Ok((LengthEncoding { length: (b % 64) as u32 }, pos + 1))
    } else if msb == 1 {
        if input.len() - pos >= 2 {
            let lo = input[pos + 1];
            let len: u32 = ((b % 64) as u32) * 256 + (lo as u32);
            Ok((LengthEncoding { length: len }, pos + 2))
        } else {
            Err(Error::SnapshotParseError { offset: pos })
        }
    } else if msb == 2 {
        if input.len() - pos >= 2 {
            Ok((LengthEncoding { length: input[pos + 1] as u32 }, pos + 2))
        } else {
            Err(Error::SnapshotParseError { offset: pos })
        }
    } else {
        Err(Error::SnapshotParseError { offset: pos })
    }
}

/// Reading a string-encoded field at `pos`, in the model: a length
/// then that many raw bytes, or — under the `11` marker — a one-,
/// two-, or four-byte little-endian integer kept as decimal text.
pub open spec fn spec_parse_string_field(s: Seq<u8>, pos: int) -> Option<
    ((bool, Seq<char>), int),
> {
    if pos < 0 || pos >= s.len() {
        None
    } else {
        let b = s[pos];
        if b / 64 <= 2 {
            match spec_parse_length(s, pos) {
                None => None,
                Some((len, p2)) => {
                    if p2 + len <= s.len() {
                        Some(((false, bytes_chars(s.subrange(p2, p2 + len))), p2 + len))
                    } else {
                        None
                    }
                },
            }
        } else {
            let fmt = b % 64;
            if fmt == 0 {
                if pos + 2 <= s.len() {
                    Some(((true, spec_udigits(s[pos + 1] as nat)), pos + 2))
                } else {
                    None
                }
            } else if fmt == 1 {
                if pos + 3 <= s.len() {
                    Some(
                        (
                            (
                                true,
                                spec_udigits((s[pos + 1] + s[pos + 2] * 256) as nat),
                            ),
                            pos + 3,
                        ),
                    )
                } else {
                    None
                }
            } else if fmt == 2 {
                if pos + 5 <= s.len() {
                    Some(
                        (
                            (
                                true,
                                spec_udigits(
                                    (s[pos + 1] + s[pos + 2] * 256 + s[pos + 3] * 65536
                                        + s[pos + 4] * 16777216) as nat,
                                ),
                            ),
                            pos + 5,
                        ),
                    )
                } else {
                    None
                }
            } else {
                None
            }
        }
    }
}

/// Builds a text from raw bytes, one character per byte.
fn string_of_bytes(input: &Vec<u8>, from: usize, to: usize) -> (r: String)
    requires
        from <= to <= input@.len(),
    ensures
        r@ == bytes_chars(input@.subrange(from as int, to as int)),
{
    let mut out = String::new();
    let mut i: usize = from;
    while i < to
        invariant
            from <= i <= to <= input@.len(),
            out@.len() == i - from,
            forall|j: int| 0 <= j < i - from ==> out@[j] == input@[from + j] as char,
        decreases to - i,
    {
        let c: char = input[i] as char;
        push_char(&mut out, c);
        i += 1;
    }
    proof {
        assert(out@ =~= bytes_chars(input@.subrange(from as int, to as int)));
    }
    out
}

/// Reads a string-encoded field.
pub fn parse_string_field(input: &Vec<u8>, pos: usize) -> (r: Result<
    (StringEncodedField, usize),
    Error,
>)
    ensures
        match r {
            Ok((v, next)) => spec_parse_string_field(input@, pos as int) == Some(
                (sef_view(v), next as int),
            ) && pos < next <= input@.len(),
            Err(e) => spec_parse_string_field(input@, pos as int) == None::<
                ((bool, Seq<char>), int),
            > && (e matches Error::SnapshotParseError { .. }),
        },
{
    if pos >= input.len() {
        return Err(Error::SnapshotParseError { offset: pos });
    }
    let b = input[pos];
    if b / 64 <= 2 {
        let (le, p2) = match parse_length(input, pos) {
            Ok(v) => v,
            Err(e) => {
                return Err(e);
            },
        };
        let len = le.length as usize;
        if len <= input.len() - p2 {
            let field = string_of_bytes(input, p2, p2 + len);
            Ok((StringEncodedField { msb_11: false, field }, p2 + len))
        } else {
            Err(Error::SnapshotParseError { offset: p2 })
        }
    } else {
        let fmt = b % 64;
        if fmt == 0 {
            if input.len() - pos >= 2 {
                let v = input[pos + 1] as u64;
                let field = u64_to_string(v);
                Ok((StringEncodedField { msb_11: true, field }, pos + 2))
            } else {
                Err(Error::SnapshotParseError { offset: pos })
            }
        } else if fmt == 1 {
            if input.len() - pos >= 3 {
                let v: u64 = (input[pos + 1] as u64) + (input[pos + 2] as u64) * 256;
                let field = u64_to_string(v);
                Ok((StringEncodedField { msb_11: true, field }, pos + 3))
            } else {
                Err(Error::SnapshotParseError { offset: pos })
            }
        } else if fmt == 2 {
            if input.len() - pos >= 5 {
                let v: u64 = (input[pos + 1] as u64) + (input[pos + 2] as u64) * 256 + (
                input[pos + 3] as u64) * 65536 + (input[pos + 4] as u64) * 16777216;
                let field = u64_to_string(v);
                Ok((StringEncodedField { msb_11: true, field }, pos + 5))
            } else {
                Err(Error::SnapshotParseError { offset: pos })
            }
        } else {
            Err(Error::SnapshotParseError { offset: pos })
        }
    }
}

/// A little-endian 64-bit number from eight bytes.
pub open spec fn spec_le64(s: Seq<u8>, pos: int) -> int {
    s[pos] + s[pos + 1] * 256 + s[pos + 2] * 65536 + s[pos + 3] * 16777216 + s[pos + 4]
        * 4294967296 + s[pos + 5] * 1099511627776 + s[pos + 6] * 281474976710656 + s[pos
        + 7] * 72057594037927936
}

/// Reads a little-endian 64-bit number.
fn parse_le64(input: &Vec<u8>, pos: usize) -> (r: u64)
    requires
        pos + 8 <= input@.len(),
    ensures
        r as int == spec_le64(input@, pos as int),
{
    let n = input.len();
    proof {
        assert(pos + 8 <= n);
    }
    let v: u64 = (input[pos] as u64) + (input[pos + 1] as u64) * 256 + (input[pos + 2]
        as u64) * 65536 + (input[pos + 3] as u64) * 16777216 + (input[pos + 4] as u64)
        * 4294967296 + (input[pos + 5] as u64) * 1099511627776 + (input[pos + 6] as u64)
        * 281474976710656 + (input[pos + 7] as u64) * 72057594037927936;
    v
}

/// Reading an expiry stamp at `pos`, in the model: one marker byte
/// then a little-endian stamp, or nothing consumed at all.
pub open spec fn spec_parse_expiration(s: Seq<u8>, pos: int) -> Option<(Expiration, int)> {
    if pos < 0 || pos >= s.len() {
        None
    } else {
        let b = s[pos];
        if b == 252 {
            if pos + 9 <= s.len() {
                Some(
                    (
                        Expiration {
                            is_second: false,
                            expiry_time: Some(spec_le64(s, pos + 1) as u64),
                        },
                        pos + 9,
                    ),
                )
            } else {
                None
            }
        } else if b == 253 {
            if pos + 5 <= s.len() {
                Some(
                    (
                        Expiration {
                            is_second: true,
                            expiry_time: Some(
                                (s[pos + 1] + s[pos + 2] * 256 + s[pos + 3] * 65536 + s[
                                    pos + 4] * 16777216) as u64,
                            ),
                        },
                        pos + 5,
                    ),
                )
            } else {
                None
            }
        } else {
            Some((Expiration { is_second: true, expiry_time: None }, pos))
        }
    }
}

/// Reads an expiry stamp, which may be absent.
pub fn parse_expiration(input: &Vec<u8>, pos: usize) -> (r: Result<(Expiration, usize), Error>)
    ensures
        match r {
            Ok((v, next)) => spec_parse_expiration(input@, pos as int) == Some(
                (v, next as int),
            ) && pos <= next <= input@.len(),
            Err(e) => spec_parse_expiration(input@, pos as int) == None::<
                (Expiration, int),
            > && (e matches Error::SnapshotParseError { .. }),
        },
{
    if pos >= input.len() {
        return Err(Error::SnapshotParseError { offset: pos });
    }
    let b = input[pos];
    if b == 252 {
        if input.len() - pos >= 9 {
            let v = parse_le64(input, pos + 1);
            proof {
                assert(spec_le64(input@, pos as int + 1) as u64 == v);
            }
            Ok((Expiration { is_second: false, expiry_time: Some(v) }, pos + 9))
        } else {
            Err(Error::SnapshotParseError { offset: pos })
        }
    } else if b == 253 {
        if input.len() - pos >= 5 {
            let v: u64 = (input[pos + 1] as u64) + (input[pos + 2] as u64) * 256 + (
            input[pos + 3] as u64) * 65536 + (input[pos + 4] as u64) * 16777216;
            Ok((Expiration { is_second: true, expiry_time: Some(v) }, pos + 5))
        } else {
            Err(Error::SnapshotParseError { offset: pos })
        }
    } else {
        Ok((Expiration { is_second: true, expiry_time: None }, pos))
    }
}

/// The value-type code a byte means, if any.
pub open spec fn spec_value_type_of(b: u8) -> Option<ValueTypeEncoding> {
    if b == 0 {
        Some(ValueTypeEncoding::String)
    } else if b == 1 {
        Some(ValueTypeEncoding::List)
    } else if b == 2 {
        Some(ValueTypeEncoding::SetValue)
    } else if b == 3 {
        Some(ValueTypeEncoding::SortedSet)
    } else if b == 4 {
        Some(ValueTypeEncoding::Hash)
    } else if b == 9 {
        Some(ValueTypeEncoding::Zipmap)
    } else if b == 10 {
        Some(ValueTypeEncoding::Ziplist)
    } else if b == 11 {
        Some(ValueTypeEncoding::Intset)
    } else if b == 12 {
        Some(ValueTypeEncoding::SortedSetInZiplist)
    } else if b == 13 {
        Some(ValueTypeEncoding::HashmapInZiplist)
    } else if b == 14 {
        Some(ValueTypeEncoding::ListInQuicklist)
    } else {
        None
    }
}

/// Reading one database field at `pos`, in the model: an optional
/// expiry, a value-type code, then key and value.
pub open spec fn spec_parse_field(s: Seq<u8>, pos: int) -> Option<
    ((Expiration, ValueTypeEncoding, (bool, Seq<char>), (bool, Seq<char>)), int),
> {
    match spec_parse_expiration(s, pos) {
        None => None,
        Some((exp, p1)) => {
            if p1 < s.len() {
                match spec_value_type_of(s[p1]) {
                    None => None,
                    Some(vt) => {
                        match spec_parse_string_field(s, p1 + 1) {
                            None => None,
                            Some((k, p2)) => {
                                match spec_parse_string_field(s, p2) {
                                    None => None,
                                    Some((v, p3)) => Some(((exp, vt, k, v), p3)),
                                }
                            },
                        }
                    },
                }
            } else {
                None
            }
        },
    }
}

/// Reads one database field.
pub fn parse_field(input: &Vec<u8>, pos: usize) -> (r: Result<(DatabaseField, usize), Error>)
    ensures
        match r {
            Ok((v, next)) => spec_parse_field(input@, pos as int) == Some(
                (field_view(v), next as int),
            ) && pos < next <= input@.len(),
            Err(e) => spec_parse_field(input@, pos as int) == None::<
                ((Expiration, ValueTypeEncoding, (bool, Seq<char>), (bool, Seq<char>)), int),
            > && (e matches Error::SnapshotParseError { .. }),
        },
{
    let (expiration, p1) = match parse_expiration(input, pos) {
        Ok(v) => v,
        Err(e) => {
            return Err(e);
        },
    };
    if p1 >= input.len() {
        return Err(Error::SnapshotParseError { offset: p1 });
    }
    let tb = input[p1];
    let value_type = if tb == 0 {
        ValueTypeEncoding::String
    } else if tb == 1 {
        ValueTypeEncoding::List
    } else if tb == 2 {
        ValueTypeEncoding::SetValue
    } else if tb == 3 {
        ValueTypeEncoding::SortedSet
    } else if tb == 4 {
        ValueTypeEncoding::Hash
    } else if tb == 9 {
        ValueTypeEncoding::Zipmap
    } else if tb == 10 {
        ValueTypeEncoding::Ziplist
    } else if tb == 11 {
        ValueTypeEncoding::Intset
    } else if tb == 12 {
        ValueTypeEncoding::SortedSetInZiplist
    } else if tb == 13 {
        ValueTypeEncoding::HashmapInZiplist
    } else if tb == 14 {
        ValueTypeEncoding::ListInQuicklist
    } else {
        return Err(Error::SnapshotParseError { offset: p1 });
    };
    let (key, p2) = match parse_string_field(input, p1 + 1) {
        Ok(v) => v,
        Err(e) => {
            return Err(e);
        },
    };
    let (value, p3) = match parse_string_field(input, p2) {
        Ok(v) => v,
        Err(e) => {
            return Err(e);
        },
    };
    Ok((DatabaseField { expiration, value_type, key, value }, p3))
}

/// The model of one database field as parsed.
pub type FieldView = (Expiration, ValueTypeEncoding, (bool, Seq<char>), (bool, Seq<char>));

/// Reading `count` consecutive database fields, in the model.
pub open spec fn spec_parse_fields(s: Seq<u8>, pos: int, count: int) -> Option<
    (Seq<FieldView>, int),
>
    decreases s.len() - pos, count + 1,
{
    if count <= 0 {
        Some((Seq::empty(), pos))
    } else {
        match spec_parse_field(s, pos) {
            None => None,
            Some((f, next)) => {
                if pos < next <= s.len() {
                    match spec_parse_fields(s, next, count - 1) {
                        None => None,
                        Some((rest, end)) => Some((seq![f] + rest, end)),
                    }
                } else {
                    None
                }
            },
        }
    }
}

/// Reading one database section at `pos`, in the model: its marker,
/// number, the table-size marker with both sizes, then as many fields
/// as the table size says.
pub open spec fn spec_parse_section(s: Seq<u8>, pos: int) -> Option<
    ((int, int, int, Seq<FieldView>), int),
> {
    if pos < 0 || pos >= s.len() || s[pos] != 254 {
        None
    } else {
        match spec_parse_length(s, pos + 1) {
            None => None,
            Some((dbn, p1)) => {
                if p1 < s.len() && s[p1] == 251 {
                    match spec_parse_length(s, p1 + 1) {
                        None => None,
                        Some((hts, p2)) => {
                            match spec_parse_length(s, p2) {
                                None => None,
                                Some((ets, p3)) => {
                                    match spec_parse_fields(s, p3, hts) {
                                        None => None,
                                        Some((fs, end)) => Some(
                                            ((dbn, hts, ets, fs), end),
                                        ),
                                    }
                                },
                            }
                        },
                    }
                } else {
                    None
                }
            },
        }
    }
}

/// Reading database sections until the terminator byte, in the model.
pub open spec fn spec_parse_sections(s: Seq<u8>, pos: int) -> Option<
    (Seq<(int, int, int, Seq<FieldView>)>, int),
>
    decreases s.len() - pos,
{
    if pos < 0 || pos >= s.len() {
        None
    } else if s[pos] == 255 {
        Some((Seq::empty(), pos))
    } else {
        match spec_parse_section(s, pos) {
            None => None,
            Some((sec, next)) => {
                if pos < next <= s.len() {
                    match spec_parse_sections(s, next) {
                        None => None,
                        Some((rest, end)) => Some((seq![sec] + rest, end)),
                    }
                } else {
                    None
                }
            },
        }
    }
}

/// Reading auxiliary fields while their marker byte stands, in the
/// model.
pub open spec fn spec_parse_aux(s: Seq<u8>, pos: int) -> Option<
    (Seq<((bool, Seq<char>), (bool, Seq<char>))>, int),
>
    decreases s.len() - pos,
{
    if pos < 0 || pos >= s.len() {
        None
    } else if s[pos] != 250 {
        Some((Seq::empty(), pos))
    } else {
        match spec_parse_string_field(s, pos + 1) {
            None => None,
            Some((k, p1)) => {
                match spec_parse_string_field(s, p1) {
                    None => None,
                    Some((v, p2)) => {
                        if pos < p2 <= s.len() {
                            match spec_parse_aux(s, p2) {
                                None => None,
                                Some((rest, end)) => Some((seq![(k, v)] + rest, end)),
                            }
                        } else {
                            None
                        }
                    },
                }
            },
        }
    }
}

/// Reading the header, in the model: the magic word then four version
/// digits whose value fits one byte.
pub open spec fn spec_parse_header(s: Seq<u8>) -> Option<(int, int)> {
    if s.len() < 9 {
        None
    } else if s[0] == 82 && s[1] == 69 && s[2] == 68 && s[3] == 73 && s[4] == 83 {
        let digits = seq![s[5] as char, s[6] as char, s[7] as char, s[8] as char];
        if all_digits(digits) && digits_val(digits) <= 255 {
            Some((digits_val(digits), 9))
        } else {
            None
        }
    } else {
        None
    }
}

/// Reading a whole image, in the model: header, auxiliary fields,
/// sections, the terminator, and the checksum.
pub open spec fn spec_parse_rdb(s: Seq<u8>) -> Option<
    (
        (
            int,
            Seq<((bool, Seq<char>), (bool, Seq<char>))>,
            Seq<(int, int, int, Seq<FieldView>)>,
            u64,
        ),
        int,
    ),
> {
    match spec_parse_header(s) {
        None => None,
        Some((ver, p0)) => {
            match spec_parse_aux(s, p0) {
                None => None,
                Some((auxs, p1)) => {
                    match spec_parse_sections(s, p1) {
                        None => None,
                        Some((secs, p2)) => {
                            if p2 + 9 <= s.len() {
                                Some(
                                    (
                                        (ver, auxs, secs, spec_le64(s, p2 + 1) as u64),
                                        p2 + 9,
                                    ),
                                )
                            } else {
                                None
                            }
                        },
                    }
                },
            }
        },
    }
}

/// The model of a whole decoded image.
pub open spec fn rdb_view(r: Rdb) -> (
    int,
    Seq<((bool, Seq<char>), (bool, Seq<char>))>,
    Seq<(int, int, int, Seq<FieldView>)>,
    u64,
) {
    (
        r.header.redis_version as int,
        aux_view(r.auxiliary_fields@),
        Seq::new(
            r.database_sections@.len(),
            |i: int|
                (
                    r.database_sections@[i].db_number.length as int,
                    r.database_sections@[i].hash_table_size.length as int,
                    r.database_sections@[i].expire_hash_table_size.length as int,
                    Seq::new(
                        r.database_sections@[i].fields_with_expiry@.len(),
                        |j: int| field_view(r.database_sections@[i].fields_with_expiry@[j]),
                    ),
                ),
        ),
        r.checksum,
    )
}

/// Reads `count` consecutive database fields.
fn parse_fields(input: &Vec<u8>, pos: usize, count: u32) -> (r: Result<
    (Vec<DatabaseField>, usize),
    Error,
>)
    requires
        pos <= input@.len(),
    ensures
        match r {
            Ok((v, next)) => spec_parse_fields(input@, pos as int, count as int) == Some(
                (
                    Seq::new(v@.len(), |i: int| field_view(v@[i])),
                    next as int,
                ),
            ) && pos <= next <= input@.len(),
            Err(e) => spec_parse_fields(input@, pos as int, count as int) == None::<
                (Seq<FieldView>, int),
            > && (e matches Error::SnapshotParseError { .. }),
        },
    decreases input@.len() - pos, count as int + 1,
{
    if count == 0 {
        let v: Vec<DatabaseField> = Vec::new();
        proof {
            assert(Seq::new(v@.len(), |i: int| field_view(v@[i])) =~= Seq::<
                FieldView,
            >::empty());
        }
        return Ok((v, pos));
    }
    let (f, next) = match parse_field(input, pos) {
        Ok(v) => v,
        Err(e) => {
            return Err(e);
        },
    };
    match parse_fields(input, next, count - 1) {
        Ok((mut rest, end)) => {
            let ghost tail = rest@;
            rest.insert(0, f);
            proof {
                assert(rest@ == tail.insert(0, f));
                assert(Seq::new(rest@.len(), |i: int| field_view(rest@[i])) =~= seq![
                    field_view(f),
                ] + Seq::new(tail.len(), |i: int| field_view(tail[i]))) by {
                    assert forall|k: int| #![trigger rest@[k]] 0 <= k < rest@.len()
                        implies Seq::new(
                        rest@.len(),
                        |i: int| field_view(rest@[i]),
                    )[k] == (seq![field_view(f)] + Seq::new(
                        tail.len(),
                        |i: int| field_view(tail[i]),
                    ))[k] by {
                        if k == 0 {
                            assert(rest@[0] == f);
                        } else {
                            assert(rest@[k] == tail[k - 1]);
                        }
                    }
                }
            }
            Ok((rest, end))
        },
        Err(e) => Err(e),
    }
}

/// Reads one database section.
fn parse_section(input: &Vec<u8>, pos: usize) -> (r: Result<(DatabaseSection, usize), Error>)
    ensures
        match r {
            Ok((v, next)) => spec_parse_section(input@, pos as int) == Some(
                (
                    (
                        v.db_number.length as int,
                        v.hash_table_size.length as int,
                        v.expire_hash_table_size.length as int,
                        Seq::new(
                            v.fields_with_expiry@.len(),
                            |i: int| field_view(v.fields_with_expiry@[i]),
                        ),
                    ),
                    next as int,
                ),
            ) && pos < next <= input@.len(),
            Err(e) => spec_parse_section(input@, pos as int) == None::<
                ((int, int, int, Seq<FieldView>), int),
            > && (e matches Error::SnapshotParseError { .. }),
        },
{
    if pos >= input.len() || input[pos] != 254 {
        return Err(Error::SnapshotParseError { offset: pos });
    }
    let (db_number, p1) = match parse_length(input, pos + 1) {
        Ok(v) => v,
        Err(e) => {
            return Err(e);
        },
    };
    if !(p1 < input.len() && input[p1] == 251) {
        return Err(Error::SnapshotParseError { offset: p1 });
    }
    let (hash_table_size, p2) = match parse_length(input, p1 + 1) {
        Ok(v) => v,
        Err(e) => {
            return Err(e);
        },
    };
    let (expire_hash_table_size, p3) = match parse_length(input, p2) {
        Ok(v) => v,
        Err(e) => {
            return Err(e);
        },
    };
    match parse_fields(input, p3, hash_table_size.length) {
        Ok((fields_with_expiry, end)) => Ok(
            (
                DatabaseSection {
                    db_number,
                    hash_table_size,
                    expire_hash_table_size,
                    fields_with_expiry,
                },
                end,
            ),
        ),
        Err(e) => Err(e),
    }
}

/// Reads database sections until the terminator byte.
fn parse_sections(input: &Vec<u8>, pos: usize) -> (r: Result<
    (Vec<DatabaseSection>, usize),
    Error,
>)
    requires
        pos <= input@.len(),
    ensures
        match r {
            Ok((v, next)) => spec_parse_sections(input@, pos as int) == Some(
                (
                    Seq::new(
                        v@.len(),
                        |i: int|
                            (
                                v@[i].db_number.length as int,
                                v@[i].hash_table_size.length as int,
                                v@[i].expire_hash_table_size.length as int,
                                Seq::new(
                                    v@[i].fields_with_expiry@.len(),
                                    |j: int| field_view(v@[i].fields_with_expiry@[j]),
                                ),
                            ),
                    ),
                    next as int,
                ),
            ) && pos <= next < input@.len(),
            Err(e) => spec_parse_sections(input@, pos as int) == None::<
                (Seq<(int, int, int, Seq<FieldView>)>, int),
            > && (e matches Error::SnapshotParseError { .. }),
        },
    decreases input@.len() - pos,
{
    if pos >= input.len() {
        return Err(Error::SnapshotParseError { offset: pos });
    }
    if input[pos] == 255 {
        let v: Vec<DatabaseSection> = Vec::new();
        proof {
            assert(Seq::new(
                v@.len(),
                |i: int|
                    (
                        v@[i].db_number.length as int,
                        v@[i].hash_table_size.length as int,
                        v@[i].expire_hash_table_size.length as int,
                        Seq::new(
                            v@[i].fields_with_expiry@.len(),
                            |j: int| field_view(v@[i].fields_with_expiry@[j]),
                        ),
                    ),
            ) =~= Seq::<(int, int, int, Seq<FieldView>)>::empty());
        }
        return Ok((v, pos));
    }
    let (sec, next) = match parse_section(input, pos) {
        Ok(v) => v,
        Err(e) => {
            return Err(e);
        },
    };
    match parse_sections(input, next) {
        Ok((mut rest, end)) => {
            let ghost tail = rest@;
            let ghost secv = (
                sec.db_number.length as int,
                sec.hash_table_size.length as int,
                sec.expire_hash_table_size.length as int,
                Seq::new(
                    sec.fields_with_expiry@.len(),
                    |j: int| field_view(sec.fields_with_expiry@[j]),
                ),
            );
            rest.insert(0, sec);
            proof {
                let f = |i: int|
                    (
                        rest@[i].db_number.length as int,
                        rest@[i].hash_table_size.length as int,
                        rest@[i].expire_hash_table_size.length as int,
                        Seq::new(
                            rest@[i].fields_with_expiry@.len(),
                            |j: int| field_view(rest@[i].fields_with_expiry@[j]),
                        ),
                    );
                let g = |i: int|
                    (
                        tail[i].db_number.length as int,
                        tail[i].hash_table_size.length as int,
                        tail[i].expire_hash_table_size.length as int,
                        Seq::new(
                            tail[i].fields_with_expiry@.len(),
                            |j: int| field_view(tail[i].fields_with_expiry@[j]),
                        ),
                    );
                assert(Seq::new(rest@.len(), f) =~= seq![secv] + Seq::new(tail.len(), g))
                    by {
                    assert forall|k: int| #![trigger rest@[k]] 0 <= k < rest@.len()
                        implies Seq::new(rest@.len(), f)[k] == (seq![secv] + Seq::new(
                        tail.len(),
                        g,
                    ))[k] by {
                        if k == 0 {
                            assert(rest@[0] == sec);
                            assert(Seq::new(
                                rest@[0].fields_with_expiry@.len(),
                                |j: int| field_view(rest@[0].fields_with_expiry@[j]),
                            ) =~= Seq::new(
                                sec.fields_with_expiry@.len(),
                                |j: int| field_view(sec.fields_with_expiry@[j]),
                            ));
                        } else {
                            assert(rest@[k] == tail[k - 1]);
                            assert(Seq::new(
                                rest@[k].fields_with_expiry@.len(),
                                |j: int| field_view(rest@[k].fields_with_expiry@[j]),
                            ) =~= Seq::new(
                                tail[k - 1].fields_with_expiry@.len(),
                                |j: int| field_view(tail[k - 1].fields_with_expiry@[j]),
                            ));
                        }
                    }
                }
            }
            Ok((rest, end))
        },
        Err(e) => Err(e),
    }
}

/// Reads auxiliary fields while their marker byte stands.
fn parse_aux_fields(input: &Vec<u8>, pos: usize) -> (r: Result<
    (Vec<AuxiliaryField>, usize),
    Error,
>)
    requires
        pos <= input@.len(),
    ensures
        match r {
            Ok((v, next)) => spec_parse_aux(input@, pos as int) == Some(
                (aux_view(v@), next as int),
            ) && pos <= next < input@.len(),
            Err(e) => spec_parse_aux(input@, pos as int) == None::<
                (Seq<((bool, Seq<char>), (bool, Seq<char>))>, int),
            > && (e matches Error::SnapshotParseError { .. }),
        },
    decreases input@.len() - pos,
{
    if pos >= input.len() {
        return Err(Error::SnapshotParseError { offset: pos });
    }
    if input[pos] != 250 {
        let v: Vec<AuxiliaryField> = Vec::new();
        proof {
            assert(aux_view(v@) =~= Seq::<((bool, Seq<char>), (bool, Seq<char>))>::empty());
        }
        return Ok((v, pos));
    }
    let (key, p1) = match parse_string_field(input, pos + 1) {
        Ok(v) => v,
        Err(e) => {
            return Err(e);
        },
    };
    let (value, p2) = match parse_string_field(input, p1) {
        Ok(v) => v,
        Err(e) => {
            return Err(e);
        },
    };
    match parse_aux_fields(input, p2) {
        Ok((mut rest, end)) => {
            let ghost tail = rest@;
            let ghost kv = (sef_view(key), sef_view(value));
            rest.insert(0, AuxiliaryField { key, value });
            proof {
                assert(aux_view(rest@) =~= seq![kv] + aux_view(tail)) by {
                    assert forall|k: int| #![trigger rest@[k]] 0 <= k < rest@.len()
                        implies aux_view(rest@)[k] == (seq![kv] + aux_view(tail))[k] by {
                        if k > 0 {
                            assert(rest@[k] == tail[k - 1]);
                        }
                    }
                }
            }
            Ok((rest, end))
        },
        Err(e) => Err(e),
    }
}

/// Reads the image header.
fn parse_header(input: &Vec<u8>) -> (r: Result<(u8, usize), Error>)
    ensures
        match r {
            Ok((v, next)) => spec_parse_header(input@) == Some((v as int, next as int))
                && next == 9 <= input@.len(),
            Err(e) => spec_parse_header(input@) == None::<(int, int)> && (e matches
            Error::SnapshotParseError { .. }),
        },
{
    if input.len() < 9 {
        return Err(Error::SnapshotParseError { offset: 0 });
    }
    if !(input[0] == 82 && input[1] == 69 && input[2] == 68 && input[3] == 73 && input[4]
        == 83) {
        return Err(Error::SnapshotParseError { offset: 0 });
    }
    let d0 = input[5];
    let d1 = input[6];
    let d2 = input[7];
    let d3 = input[8];
    if !(48 <= d0 && d0 <= 57 && 48 <= d1 && d1 <= 57 && 48 <= d2 && d2 <= 57 && 48 <= d3
        && d3 <= 57) {
        return Err(Error::SnapshotParseError { offset: 5 });
    }
    let ghost dchars = seq![
        input@[5] as char,
        input@[6] as char,
        input@[7] as char,
        input@[8] as char,
    ];
    let version_wide: u32 = ((d0 - 48) as u32) * 1000 + ((d1 - 48) as u32) * 100 + ((d2
        - 48) as u32) * 10 + ((d3 - 48) as u32);
    proof {
        assert(all_digits(dchars));
        assert(dchars.drop_last() =~= seq![
            input@[5] as char,
            input@[6] as char,
            input@[7] as char,
        ]);
        assert(dchars.drop_last().drop_last() =~= seq![
            input@[5] as char,
            input@[6] as char,
        ]);
        assert(dchars.drop_last().drop_last().drop_last() =~= seq![input@[5] as char]);
        assert(dchars.drop_last().drop_last().drop_last().drop_last() =~= Seq::<
            char,
        >::empty());
        assert((input@[5] as char) as u32 == d0);
        assert((input@[6] as char) as u32 == d1);
        assert((input@[7] as char) as u32 == d2);
        assert((input@[8] as char) as u32 == d3);
        assert(digits_val(dchars) == version_wide) by {
            reveal_with_fuel(crate::digits::digits_val, 5);
        }
    }
    if version_wide > 255 {
        return Err(Error::SnapshotParseError { offset: 5 });
    }
    Ok((version_wide as u8, 9))
}

impl Rdb {
    /// Decodes a snapshot image from bytes; trailing bytes past the
    /// checksum are left alone and their count is returned with the
    /// image.
    pub fn parse(input: &Vec<u8>) -> (r: Result<(Rdb, usize), Error>)
        ensures
            match r {
                Ok((v, next)) => spec_parse_rdb(input@) == Some((rdb_view(v), next as int))
                    && next <= input@.len(),
                Err(e) => spec_parse_rdb(input@) == None::<
                    (
                        (
                            int,
                            Seq<((bool, Seq<char>), (bool, Seq<char>))>,
                            Seq<(int, int, int, Seq<FieldView>)>,
                            u64,
                        ),
                        int,
                    ),
                > && (e matches Error::SnapshotParseError { .. }),
            },
    {
        let (redis_version, p0) = match parse_header(input) {
            Ok(v) => v,
            Err(e) => {
                return Err(e);
            },
        };
        let (auxiliary_fields, p1) = match parse_aux_fields(input, p0) {
            Ok(v) => v,
            Err(e) => {
                return Err(e);
            },
        };
        let (database_sections, p2) = match parse_sections(input, p1) {
            Ok(v) => v,
            Err(e) => {
                return Err(e);
            },
        };
        if input.len() - p2 < 9 {
            return Err(Error::SnapshotParseError { offset: p2 });
        }
        let checksum = parse_le64(input, p2 + 1);
        let r = Rdb {
            header: RdbHeader { redis_version },
            auxiliary_fields,
            database_sections,
            checksum,
        };
        Ok((r, p2 + 9))
    }
}

/// Characters written back as bytes, one for one.
pub open spec fn chars_bytes(t: Seq<char>) -> Seq<u8> {
    Seq::new(t.len(), |i: int| t[i] as u8)
}

/// The bytes of a variable-width length.
pub open spec fn spec_encode_length(len: u32) -> Seq<u8> {
    if len < 64 {
        seq![len as u8]
    } else if len < 256 {
        seq![128u8, len as u8]
    } else {
        seq![(64 + len / 256) as u8, (len % 256) as u8]
    }
}

/// A length the variable-width encoding can carry: fourteen bits.
pub open spec fn length_encodable(len: u32) -> bool {
    len <= 16383
}

/// Writing any encodable length and reading it back yields the length
/// and consumes exactly the written bytes, whatever follows them.
pub proof fn lemma_length_round_trip(len: u32, rest: Seq<u8>)
    requires
        length_encodable(len),
    ensures
        spec_parse_length(spec_encode_length(len) + rest, 0) == Some(
            (len as int, spec_encode_length(len).len() as int),
        ),
{
    let s = spec_encode_length(len) + rest;
    if len < 64 {
        assert(s[0] == len as u8);
        assert(s[0] / 64 == 0 && s[0] % 64 == len);
    } else if len < 256 {
        assert(s[0] == 128u8 && s[1] == len as u8);
        assert(s[0] / 64 == 2);
    } else {
        assert(s[0] == (64 + len / 256) as u8 && s[1] == (len % 256) as u8);
        assert(1 <= len / 256 <= 63);
        assert(s[0] / 64 == 1);
        assert((s[0] % 64) * 256 + s[1] == len);
    }
}

/// The bytes of a string-encoded field.
pub open spec fn spec_encode_sef(v: (bool, Seq<char>)) -> Seq<u8> {
    if v.0 {
        let n = digits_val(v.1);
        if n < 256 {
            seq![192u8, n as u8]
        } else if n < 65536 {
            seq![193u8, (n % 256) as u8, ((n / 256) % 256) as u8]
        } else {
            seq![
                194u8,
                (n % 256) as u8,
                ((n / 256) % 256) as u8,
                ((n / 65536) % 256) as u8,
                ((n / 16777216) % 256) as u8,
            ]
        }
    } else {
        spec_encode_length(v.1.len() as u32) + chars_bytes(v.1)
    }
}

/// A writable string-encoded field: binary integers must read back as
/// numbers in range, raw text must fit the length encoding.
pub open spec fn sef_wf(v: (bool, Seq<char>)) -> bool {
    if v.0 {
        all_digits(v.1) && v.1.len() > 0 && digits_val(v.1) <= u32::MAX as int
    } else {
        v.1.len() <= 16383
    }
}

/// The bytes of an expiry stamp.
pub open spec fn spec_encode_exp(e: Expiration) -> Seq<u8> {
    match e.expiry_time {
        None => Seq::empty(),
        Some(t) => {
            if e.is_second {
                seq![
                    253u8,
                    (t % 256) as u8,
                    ((t / 256) % 256) as u8,
                    ((t / 65536) % 256) as u8,
                    ((t / 16777216) % 256) as u8,
                ]
            } else {
                seq![
                    252u8,
                    (t % 256) as u8,
                    ((t / 256) % 256) as u8,
                    ((t / 65536) % 256) as u8,
                    ((t / 16777216) % 256) as u8,
                    ((t / 4294967296) % 256) as u8,
                    ((t / 1099511627776) % 256) as u8,
                    ((t / 281474976710656) % 256) as u8,
                    ((t / 72057594037927936) % 256) as u8,
                ]
            }
        },
    }
}

/// The byte of a value-type code.
pub open spec fn spec_encode_vt(vt: ValueTypeEncoding) -> u8 {
    match vt {
        ValueTypeEncoding::String => 0,
        ValueTypeEncoding::List => 1,
        ValueTypeEncoding::SetValue => 2,
        ValueTypeEncoding::SortedSet => 3,
        ValueTypeEncoding::Hash => 4,
        ValueTypeEncoding::Zipmap => 9,
        ValueTypeEncoding::Ziplist => 10,
        ValueTypeEncoding::Intset => 11,
        ValueTypeEncoding::SortedSetInZiplist => 12,
        ValueTypeEncoding::HashmapInZiplist => 13,
        ValueTypeEncoding::ListInQuicklist => 14,
    }
}

/// The bytes of one database field.
pub open spec fn spec_encode_field(f: FieldView) -> Seq<u8> {
    spec_encode_exp(f.0) + seq![spec_encode_vt(f.1)] + spec_encode_sef(f.2)
        + spec_encode_sef(f.3)
}

/// Appends the bytes of `src` to `dst`.
fn extend_bytes(dst: &mut Vec<u8>, src: &Vec<u8>)
    ensures
        final(dst)@ == old(dst)@ + src@,
{
    let mut i: usize = 0;
    while i < src.len()
        invariant
            i <= src@.len(),
            dst@ == old(dst)@ + src@.subrange(0, i as int),
        decreases src@.len() - i,
    {
        dst.push(src[i]);
        proof {
            assert(old(dst)@ + src@.subrange(0, i as int + 1) =~= (old(dst)@
                + src@.subrange(0, i as int)).push(src@[i as int]));
        }
        i += 1;
    }
    proof {
        assert(src@.subrange(0, src@.len() as int) == src@);
    }
}

impl LengthEncoding {
    /// Writes the length in its variable-width form. A length above
    /// fourteen bits does not fit the encoding and is refused.
    pub fn write(&self) -> (r: Result<Vec<u8>, Error>)
        ensures
            match r {
                Ok(v) => length_encodable(self.length) && v@ == spec_encode_length(
                    self.length,
                ),
                Err(_) => !length_encodable(self.length),
            },
    {
        let len = self.length;
        if len > 16383 {
            return Err(Error::SnapshotParseError { offset: 0 });
        }
        let mut out: Vec<u8> = Vec::new();
        if len < 64 {
            out.push(len as u8);
            proof {
                assert(out@ =~= spec_encode_length(len));
            }
        } else if len < 256 {
            out.push(128);
            out.push(len as u8);
            proof {
                assert(out@ =~= spec_encode_length(len));
            }
        } else {
            out.push((64 + len / 256) as u8);
            out.push((len % 256) as u8);
            proof {
                assert(out@ =~= spec_encode_length(len));
            }
        }
        Ok(out)
    }
}

impl StringEncodedField {
    /// Writes the field: binary integers back in their shortest form,
    /// raw text behind its length.
    pub fn write(&self) -> (r: Result<Vec<u8>, Error>)
        ensures
            match r {
                Ok(v) => sef_wf(sef_view(*self)) && v@ == spec_encode_sef(sef_view(*self)),
                Err(_) => !sef_wf(sef_view(*self)),
            },
    {
        let mut out: Vec<u8> = Vec::new();
        if self.msb_11 {
            let n: u64 = match crate::digits::parse_u64_str(self.field.as_str()) {
                Some(v) => v,
                None => {
                    return Err(Error::SnapshotParseError { offset: 0 });
                },
            };
            if n > 4294967295u64 {
                return Err(Error::SnapshotParseError { offset: 0 });
            }
            proof {
                crate::digits::lemma_digits_val_nonneg(self.field@);
            }
            if n < 256 {
                out.push(192);
                out.push(n as u8);
            } else if n < 65536 {
                out.push(193);
                out.push((n % 256) as u8);
                out.push(((n / 256) % 256) as u8);
            } else {
                out.push(194);
                out.push((n % 256) as u8);
                out.push(((n / 256) % 256) as u8);
                out.push(((n / 65536) % 256) as u8);
                out.push(((n / 16777216) % 256) as u8);
            }
            proof {
                assert(out@ =~= spec_encode_sef(sef_view(*self)));
            }
            Ok(out)
        } else {
            let len = self.field.as_str().unicode_len();
            if len > 16383usize {
                return Err(Error::SnapshotParseError { offset: 0 });
            }
            let le = LengthEncoding { length: len as u32 };
            let mut out = match le.write() {
                Ok(v) => v,
                Err(e) => {
                    return Err(e);
                },
            };
            let mut i: usize = 0;
            while i < len
                invariant
                    i <= len,
                    len == self.field@.len(),
                    out@ == spec_encode_length(len as u32) + chars_bytes(
                        self.field@.subrange(0, i as int),
                    ),
                decreases len - i,
            {
                let c = self.field.as_str().get_char(i);
                out.push(c as u8);
                proof {
                    assert(spec_encode_length(len as u32) + chars_bytes(
                        self.field@.subrange(0, i as int + 1),
                    ) =~= (spec_encode_length(len as u32) + chars_bytes(
                        self.field@.subrange(0, i as int),
                    )).push(self.field@[i as int] as u8));
                }
                i += 1;
            }
            proof {
                assert(self.field@.subrange(0, len as int) == self.field@);
            }
            Ok(out)
        }
    }
}

impl Expiration {
    /// Writes the stamp, or nothing when there is none.
    pub fn write(&self) -> (r: Vec<u8>)
        ensures
            r@ == spec_encode_exp(*self),
    {
        let mut out: Vec<u8> = Vec::new();
        match self.expiry_time {
            None => {
                proof {
                    assert(out@ =~= spec_encode_exp(*self));
                }
            },
            Some(t) => {
                if self.is_second {
                    out.push(253);
                    out.push((t % 256) as u8);
                    out.push(((t / 256) % 256) as u8);
                    out.push(((t / 65536) % 256) as u8);
                    out.push(((t / 16777216) % 256) as u8);
                    proof {
                        assert(out@ =~= spec_encode_exp(*self));
                    }
                } else {
                    out.push(252);
                    out.push((t % 256) as u8);
                    out.push(((t / 256) % 256) as u8);
                    out.push(((t / 65536) % 256) as u8);
                    out.push(((t / 16777216) % 256) as u8);
                    out.push(((t / 4294967296) % 256) as u8);
                    out.push(((t / 1099511627776) % 256) as u8);
                    out.push(((t / 281474976710656) % 256) as u8);
                    out.push(((t / 72057594037927936) % 256) as u8);
                    proof {
                        assert(out@ =~= spec_encode_exp(*self));
                    }
                }
            },
        }
        out
    }
}

impl DatabaseField {
    /// Writes the field: stamp, type code, key, value.
    pub fn write(&self) -> (r: Result<Vec<u8>, Error>)
        ensures
            match r {
                Ok(v) => sef_wf(sef_view(self.key)) && sef_wf(sef_view(self.value)) && v@
                    == spec_encode_field(field_view(*self)),
                Err(_) => !(sef_wf(sef_view(self.key)) && sef_wf(sef_view(self.value))),
            },
    {
        let mut out = self.expiration.write();
        let tb: u8 = match self.value_type {
            ValueTypeEncoding::String => 0,
            ValueTypeEncoding::List => 1,
            ValueTypeEncoding::SetValue => 2,
            ValueTypeEncoding::SortedSet => 3,
            ValueTypeEncoding::Hash => 4,
            ValueTypeEncoding::Zipmap => 9,
            ValueTypeEncoding::Ziplist => 10,
            ValueTypeEncoding::Intset => 11,
            ValueTypeEncoding::SortedSetInZiplist => 12,
            ValueTypeEncoding::HashmapInZiplist => 13,
            ValueTypeEncoding::ListInQuicklist => 14,
        };
        out.push(tb);
        let kb = match self.key.write() {
            Ok(v) => v,
            Err(e) => {
                return Err(e);
            },
        };
        extend_bytes(&mut out, &kb);
        let vb = match self.value.write() {
            Ok(v) => v,
            Err(e) => {
                return Err(e);
            },
        };
        extend_bytes(&mut out, &vb);
        proof {
            assert(out@ =~= spec_encode_field(field_view(*self)));
        }
        Ok(out)
    }
}

/// The bytes of a run of fields, one after the other.
pub open spec fn spec_encode_fields(fs: Seq<FieldView>) -> Seq<u8>
    decreases fs.len(),
{
    if fs.len() == 0 {
        Seq::empty()
    } else {
        spec_encode_field(fs[0]) + spec_encode_fields(fs.subrange(1, fs.len() as int))
    }
}

/// The bytes of one section.
pub open spec fn spec_encode_section(
    dbn: u32,
    hts: u32,
    ets: u32,
    fs: Seq<FieldView>,
) -> Seq<u8> {
    seq![254u8] + spec_encode_length(dbn) + seq![251u8] + spec_encode_length(hts)
        + spec_encode_length(ets) + spec_encode_fields(fs)
}

/// A writable section: its three lengths fit the encoding and every
/// field is writable.
pub open spec fn section_wf(s: DatabaseSection) -> bool {
    &&& length_encodable(s.db_number.length)
    &&& length_encodable(s.hash_table_size.length)
    &&& length_encodable(s.expire_hash_table_size.length)
    &&& forall|i: int| 0 <= i < s.fields_with_expiry@.len() ==> field_wf(field_view(
        #[trigger] s.fields_with_expiry@[i],
    ))
}

/// A writable field: both its strings are writable.
pub open spec fn field_wf(f: FieldView) -> bool {
    sef_wf(f.2) && sef_wf(f.3)
}

impl DatabaseSection {
    /// Writes the section: marker, number, sizes, fields. Succeeds
    /// exactly when the section is writable.
    #[verifier::rlimit(100)]
    pub fn write(&self) -> (r: Result<Vec<u8>, Error>)
        ensures
            match r {
                Ok(v) => section_wf(*self) && v@ == spec_encode_section(
                    self.db_number.length,
                    self.hash_table_size.length,
                    self.expire_hash_table_size.length,
                    Seq::new(
                        self.fields_with_expiry@.len(),
                        |i: int| field_view(self.fields_with_expiry@[i]),
                    ),
                ),
                Err(_) => !section_wf(*self),
            },
    {
        let ghost fsv = Seq::new(
            self.fields_with_expiry@.len(),
            |i: int| field_view(self.fields_with_expiry@[i]),
        );
        let mut out: Vec<u8> = Vec::new();
        out.push(254);
        let b1 = match self.db_number.write() {
            Ok(v) => v,
            Err(e) => {
                return Err(e);
            },
        };
        extend_bytes(&mut out, &b1);
        out.push(251);
        let b2 = match self.hash_table_size.write() {
            Ok(v) => v,
            Err(e) => {
                return Err(e);
            },
        };
        extend_bytes(&mut out, &b2);
        let b3 = match self.expire_hash_table_size.write() {
            Ok(v) => v,
            Err(e) => {
                return Err(e);
            },
        };
        extend_bytes(&mut out, &b3);
        let ghost head = out@;
        proof {
            assert(fsv.subrange(0, fsv.len() as int) == fsv);
        }
        let mut i: usize = 0;
        while i < self.fields_with_expiry.len()
            invariant
                i <= self.fields_with_expiry@.len(),
                fsv == Seq::new(
                    self.fields_with_expiry@.len(),
                    |k: int| field_view(self.fields_with_expiry@[k]),
                ),
                forall|k: int| 0 <= k < i ==> field_wf(#[trigger] fsv[k]),
                head + spec_encode_fields(fsv) == out@ + spec_encode_fields(
                    fsv.subrange(i as int, fsv.len() as int),
                ),
            decreases self.fields_with_expiry@.len() - i,
        {
            let fb = match self.fields_with_expiry[i].write() {
                Ok(v) => v,
                Err(e) => {
                    proof {
                        assert(!field_wf(fsv[i as int]));
                    }
                    return Err(e);
                },
            };
            let ghost pre = out@;
            extend_bytes(&mut out, &fb);
            proof {
                let rem = fsv.subrange(i as int, fsv.len() as int);
                assert(rem[0] == fsv[i as int]);
                assert(rem.subrange(1, rem.len() as int) == fsv.subrange(
                    i as int + 1,
                    fsv.len() as int,
                ));
                assert(spec_encode_fields(rem) == spec_encode_field(fsv[i as int])
                    + spec_encode_fields(fsv.subrange(i as int + 1, fsv.len() as int)));
                assert(pre + spec_encode_fields(rem) =~= out@ + spec_encode_fields(
                    fsv.subrange(i as int + 1, fsv.len() as int),
                ));
            }
            i += 1;
        }
        proof {
            assert(fsv.subrange(fsv.len() as int, fsv.len() as int) =~= Seq::<
                FieldView,
            >::empty());
            assert(out@ + Seq::<u8>::empty() =~= out@);
            assert(head =~= seq![254u8] + spec_encode_length(self.db_number.length)
                + seq![251u8] + spec_encode_length(self.hash_table_size.length)
                + spec_encode_length(self.expire_hash_table_size.length));
            assert forall|k: int| 0 <= k < self.fields_with_expiry@.len() implies
                field_wf(field_view(#[trigger] self.fields_with_expiry@[k])) by {
                assert(fsv[k] == field_view(self.fields_with_expiry@[k]));
            }
        }
        Ok(out)
    }
}

/// The bytes of the auxiliary fields.
pub open spec fn spec_encode_aux(a: Seq<((bool, Seq<char>), (bool, Seq<char>))>) -> Seq<
    u8,
>
    decreases a.len(),
{
    if a.len() == 0 {
        Seq::empty()
    } else {
        seq![250u8] + spec_encode_sef(a[0].0) + spec_encode_sef(a[0].1)
            + spec_encode_aux(a.subrange(1, a.len() as int))
    }
}

/// The four zero-padded version digits.
pub open spec fn spec_version_bytes(v: int) -> Seq<u8> {
    seq![
        (48 + (v / 1000) % 10) as u8,
        (48 + (v / 100) % 10) as u8,
        (48 + (v / 10) % 10) as u8,
        (48 + v % 10) as u8,
    ]
}

/// The bytes of a run of sections, one after the other.
pub open spec fn spec_encode_sections(secs: Seq<(int, int, int, Seq<FieldView>)>) -> Seq<
    u8,
>
    decreases secs.len(),
{
    if secs.len() == 0 {
        Seq::empty()
    } else {
        spec_encode_section(
            secs[0].0 as u32,
            secs[0].1 as u32,
            secs[0].2 as u32,
            secs[0].3,
        ) + spec_encode_sections(secs.subrange(1, secs.len() as int))
    }
}

/// A writable image: every auxiliary field and every section is
/// writable.
pub open spec fn rdb_wf(r: Rdb) -> bool {
    &&& (forall|i: int| 0 <= i < r.auxiliary_fields@.len() ==> sef_wf(
        sef_view((#[trigger] r.auxiliary_fields@[i]).key),
    ) && sef_wf(sef_view(r.auxiliary_fields@[i].value)))
    &&& (forall|j: int| 0 <= j < r.database_sections@.len() ==> section_wf(
        #[trigger] r.database_sections@[j],
    ))
}

impl Rdb {
    /// Writes the image back as bytes: magic and version, auxiliary
    /// fields, sections, terminator and checksum. Succeeds exactly when
    /// the image is writable.
    #[verifier::rlimit(100)]
    pub fn write(&self) -> (r: Result<Vec<u8>, Error>)
        ensures
            r matches Err(_) ==> !rdb_wf(*self),
            r matches Ok(v) ==> rdb_wf(*self) && v@ == seq![82u8, 69u8, 68u8, 73u8, 83u8]
                + spec_version_bytes(self.header.redis_version as int) + spec_encode_aux(
                aux_view(self.auxiliary_fields@),
            ) + spec_encode_sections(rdb_view(*self).2) + seq![255u8] + seq![
                (self.checksum % 256) as u8,
                ((self.checksum / 256) % 256) as u8,
                ((self.checksum / 65536) % 256) as u8,
                ((self.checksum / 16777216) % 256) as u8,
                ((self.checksum / 4294967296) % 256) as u8,
                ((self.checksum / 1099511627776) % 256) as u8,
                ((self.checksum / 281474976710656) % 256) as u8,
                ((self.checksum / 72057594037927936) % 256) as u8,
            ],
    {
        let ghost auxv = aux_view(self.auxiliary_fields@);
        let ghost secv = rdb_view(*self).2;
        let v = self.header.redis_version;
        let mut out: Vec<u8> = Vec::new();
        out.push(82);
        out.push(69);
        out.push(68);
        out.push(73);
        out.push(83);
        out.push(48);
        out.push(48 + (v / 100) % 10);
        out.push(48 + (v / 10) % 10);
        out.push(48 + v % 10);
        proof {
            assert((v as int / 1000) % 10 == 0);
            assert(out@ =~= seq![82u8, 69u8, 68u8, 73u8, 83u8] + spec_version_bytes(
                v as int,
            ));
        }
        let ghost head0 = out@;
        proof {
            assert(auxv.subrange(0, auxv.len() as int) == auxv);
        }
        let mut i: usize = 0;
        while i < self.auxiliary_fields.len()
            invariant
                i <= self.auxiliary_fields@.len(),
                auxv == aux_view(self.auxiliary_fields@),
                forall|k: int| 0 <= k < i ==> sef_wf(
                    sef_view((#[trigger] self.auxiliary_fields@[k]).key),
                ) && sef_wf(sef_view(self.auxiliary_fields@[k].value)),
                head0 + spec_encode_aux(auxv) == out@ + spec_encode_aux(
                    auxv.subrange(i as int, auxv.len() as int),
                ),
            decreases self.auxiliary_fields@.len() - i,
        {
            let ghost pre = out@;
            out.push(250);
            let kb = match self.auxiliary_fields[i].key.write() {
                Ok(b) => b,
                Err(e) => {
                    proof {
                        assert(!rdb_wf(*self));
                    }
                    return Err(e);
                },
            };
            extend_bytes(&mut out, &kb);
            let vb = match self.auxiliary_fields[i].value.write() {
                Ok(b) => b,
                Err(e) => {
                    proof {
                        assert(!rdb_wf(*self));
                    }
                    return Err(e);
                },
            };
            extend_bytes(&mut out, &vb);
            proof {
                let rem = auxv.subrange(i as int, auxv.len() as int);
                assert(rem[0] == auxv[i as int]);
                assert(rem.subrange(1, rem.len() as int) == auxv.subrange(
                    i as int + 1,
                    auxv.len() as int,
                ));
                assert(spec_encode_aux(rem) == seq![250u8] + spec_encode_sef(
                    auxv[i as int].0,
                ) + spec_encode_sef(auxv[i as int].1) + spec_encode_aux(
                    auxv.subrange(i as int + 1, auxv.len() as int),
                ));
                assert(auxv[i as int].0 == sef_view(self.auxiliary_fields@[i as int].key));
                assert(auxv[i as int].1 == sef_view(
                    self.auxiliary_fields@[i as int].value,
                ));
                assert(pre + spec_encode_aux(rem) =~= out@ + spec_encode_aux(
                    auxv.subrange(i as int + 1, auxv.len() as int),
                ));
            }
            i += 1;
        }
        proof {
            assert(auxv.subrange(auxv.len() as int, auxv.len() as int) =~= Seq::<
                ((bool, Seq<char>), (bool, Seq<char>)),
            >::empty());
            assert(out@ + Seq::<u8>::empty() =~= out@);
        }
        let ghost head1 = out@;
        proof {
            assert(secv.subrange(0, secv.len() as int) == secv);
        }
        let mut j: usize = 0;
        while j < self.database_sections.len()
            invariant
                j <= self.database_sections@.len(),
                secv == rdb_view(*self).2,
                forall|k: int| 0 <= k < self.auxiliary_fields@.len() ==> sef_wf(
                    sef_view((#[trigger] self.auxiliary_fields@[k]).key),
                ) && sef_wf(sef_view(self.auxiliary_fields@[k].value)),
                forall|k: int| 0 <= k < j ==> section_wf(
                    #[trigger] self.database_sections@[k],
                ),
                head1 + spec_encode_sections(secv) == out@ + spec_encode_sections(
                    secv.subrange(j as int, secv.len() as int),
                ),
            decreases self.database_sections@.len() - j,
        {
            let ghost pre = out@;
            let sb = match self.database_sections[j].write() {
                Ok(b) => b,
                Err(e) => {
                    proof {
                        assert(!section_wf(self.database_sections@[j as int]));
                        assert(!rdb_wf(*self));
                    }
                    return Err(e);
                },
            };
            extend_bytes(&mut out, &sb);
            proof {
                let rem = secv.subrange(j as int, secv.len() as int);
                assert(rem[0] == secv[j as int]);
                assert(rem.subrange(1, rem.len() as int) == secv.subrange(
                    j as int + 1,
                    secv.len() as int,
                ));
                assert(secv[j as int].0 == self.database_sections@[j as int].db_number.length
                    as int);
                assert(secv[j as int].3 =~= Seq::new(
                    self.database_sections@[j as int].fields_with_expiry@.len(),
                    |q: int|
                        field_view(
                            self.database_sections@[j as int].fields_with_expiry@[q],
                        ),
                ));
                assert(pre + spec_encode_sections(rem) =~= out@ + spec_encode_sections(
                    secv.subrange(j as int + 1, secv.len() as int),
                ));
            }
            j += 1;
        }
        proof {
            assert(secv.subrange(secv.len() as int, secv.len() as int) =~= Seq::<
                (int, int, int, Seq<FieldView>),
            >::empty());
            assert(out@ + Seq::<u8>::empty() =~= out@);
        }
        out.push(255);
        let t = self.checksum;
        out.push((t % 256) as u8);
        out.push(((t / 256) % 256) as u8);
        out.push(((t / 65536) % 256) as u8);
        out.push(((t / 16777216) % 256) as u8);
        out.push(((t / 4294967296) % 256) as u8);
        out.push(((t / 1099511627776) % 256) as u8);
        out.push(((t / 281474976710656) % 256) as u8);
        out.push(((t / 72057594037927936) % 256) as u8);
        proof {
            assert(out@ =~= head1 + spec_encode_sections(secv) + seq![255u8] + seq![
                (t % 256) as u8,
                ((t / 256) % 256) as u8,
                ((t / 65536) % 256) as u8,
                ((t / 16777216) % 256) as u8,
                ((t / 4294967296) % 256) as u8,
                ((t / 1099511627776) % 256) as u8,
                ((t / 281474976710656) % 256) as u8,
                ((t / 72057594037927936) % 256) as u8,
            ]);
        }
        Ok(out)
    }
}

/// The value of a hexadecimal digit character, or sixteen for any
/// other character.
pub open spec fn spec_hex_val(c: char) -> int {
    let u = c as u32;
    if 48 <= u <= 57 {
        u - 48
    } else if 97 <= u <= 102 {
        u - 87
    } else if 65 <= u <= 70 {
        u - 55
    } else {
        16
    }
}

/// A hexadecimal digit character.
pub open spec fn is_hex_digit(c: char) -> bool {
    spec_hex_val(c) < 16
}

/// The bytes a hexadecimal text denotes: each pair of digits one byte,
/// high nibble first.
pub open spec fn spec_hex_bytes(s: Seq<char>) -> Seq<u8> {
    Seq::new(
        (s.len() / 2) as nat,
        |i: int| (spec_hex_val(s[2 * i]) * 16 + spec_hex_val(s[2 * i + 1])) as u8,
    )
}

/// Relies on hex::decode: both cases of hexadecimal digits are read,
/// each pair becoming one byte with the high nibble first; an odd
/// length or a character that is no digit is refused.
#[verifier::external_body]
fn hex_decode(s: &str) -> (r: Result<Vec<u8>, Error>)
    ensures
        match r {
            Ok(v) => s@.len() % 2 == 0 && (forall|i: int| 0 <= i < s@.len()
                ==> is_hex_digit(#[trigger] s@[i])) && v@ == spec_hex_bytes(s@),
            Err(e) => (e matches Error::SnapshotParseError { .. }) && !(s@.len() % 2 == 0
                && (forall|i: int| 0 <= i < s@.len() ==> is_hex_digit(
                #[trigger] s@[i]))),
        },
{
    match hex::decode(s) {
        Ok(v) => Ok(v),
        Err(_) => Err(Error::SnapshotParseError { offset: 0 }),
    }
}

impl Rdb {
    /// The canned empty snapshot image, decoded from its hexadecimal
    /// text. Failure would need the fixed text to be no valid
    /// hexadecimal or its bytes to be no valid image.
    pub fn empty() -> (r: Result<Rdb, Error>)
        ensures
            match r {
                Ok(v) => spec_parse_rdb(
                    spec_hex_bytes(
                        "524544495330303131fa0972656469732d76657205372e322e30fa0a72656469732d62697473c040fa056374696d65c26d08bc65fa08757365642d6d656dc2b0c41000fa08616f662d62617365c000fff06e3bfec0ff5aa2"@,
                    ),
                ) matches Some(p) && p.0 == rdb_view(v),
                Err(e) => (e matches Error::SnapshotParseError { .. }) && ({
                    let text =
                        "524544495330303131fa0972656469732d76657205372e322e30fa0a72656469732d62697473c040fa056374696d65c26d08bc65fa08757365642d6d656dc2b0c41000fa08616f662d62617365c000fff06e3bfec0ff5aa2"@;
                    !(text.len() % 2 == 0 && (forall|i: int| 0 <= i < text.len()
                        ==> is_hex_digit(#[trigger] text[i]))) || spec_parse_rdb(
                        spec_hex_bytes(text),
                    ) is None
                }),
            },
    {
        let bytes = match hex_decode(
            "524544495330303131fa0972656469732d76657205372e322e30fa0a72656469732d62697473c040fa056374696d65c26d08bc65fa08757365642d6d656dc2b0c41000fa08616f662d62617365c000fff06e3bfec0ff5aa2",
        ) {
            Ok(v) => v,
            Err(e) => {
                return Err(e);
            },
        };
        match Rdb::parse(&bytes) {
            Ok((rdb, _)) => Ok(rdb),
            Err(e) => Err(e),
        }
    }
}

} // verus!
