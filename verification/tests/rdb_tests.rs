use redis_core::error::Error;
use redis_core::rdb::{parse_length, LengthEncoding, Rdb, ValueTypeEncoding};

/// A small snapshot image holding database zero with two string
/// fields, one of them carrying a millisecond expiry.
fn sample_image() -> Vec<u8> {
    let mut bytes: Vec<u8> = Vec::new();
    bytes.extend_from_slice(b"REDIS0003");
    // auxiliary field: redis-ver = 7.2.0
    bytes.push(0xFA);
    bytes.push(9);
    bytes.extend_from_slice(b"redis-ver");
    bytes.push(5);
    bytes.extend_from_slice(b"7.2.0");
    // database section 0 with two fields
    bytes.push(0xFE);
    bytes.push(0);
    bytes.push(0xFB);
    bytes.push(2);
    bytes.push(0);
    // field 1: foo -> bar, no expiry
    bytes.push(0);
    bytes.push(3);
    bytes.extend_from_slice(b"foo");
    bytes.push(3);
    bytes.extend_from_slice(b"bar");
    // field 2: tmp -> gone, expiry at 2 ms after the epoch
    bytes.push(0xFC);
    bytes.extend_from_slice(&[2, 0, 0, 0, 0, 0, 0, 0]);
    bytes.push(0);
    bytes.push(3);
    bytes.extend_from_slice(b"tmp");
    bytes.push(4);
    bytes.extend_from_slice(b"gone");
    // terminator and checksum
    bytes.push(0xFF);
    bytes.extend_from_slice(&[0, 0, 0, 0, 0, 0, 0, 0]);
    bytes
}

#[test]
pub fn test_rdb() -> Result<(), Error> {
    let bytes = sample_image();
    let (rdb, _) = Rdb::parse(&bytes)?;
    let written = rdb.write()?;
    println!("{} bytes written back", written.len());
    Ok(())
}

#[test]
fn test_rdb_parse_reads_the_fields() -> Result<(), Error> {
    let bytes = sample_image();
    let (rdb, consumed) = Rdb::parse(&bytes)?;
    assert_eq!(consumed, bytes.len());
    assert_eq!(rdb.header.redis_version, 3);
    assert_eq!(rdb.auxiliary_fields.len(), 1);
    assert_eq!(rdb.auxiliary_fields[0].key.field, "redis-ver");
    assert_eq!(rdb.auxiliary_fields[0].value.field, "7.2.0");
    assert_eq!(rdb.database_sections.len(), 1);
    let section = &rdb.database_sections[0];
    assert_eq!(section.db_number.length, 0);
    assert_eq!(section.fields_with_expiry.len(), 2);
    let f1 = &section.fields_with_expiry[0];
    assert!(matches!(f1.value_type, ValueTypeEncoding::String));
    assert_eq!(f1.key.field, "foo");
    assert_eq!(f1.value.field, "bar");
    assert_eq!(f1.get_unix_timestamp_expiration_ms(), None);
    let f2 = &section.fields_with_expiry[1];
    assert_eq!(f2.key.field, "tmp");
    assert_eq!(f2.get_unix_timestamp_expiration_ms(), Some(2));
    Ok(())
}

#[test]
fn test_rdb_write_round_trips() -> Result<(), Error> {
    let bytes = sample_image();
    let (rdb, _) = Rdb::parse(&bytes)?;
    let written = rdb.write()?;
    assert_eq!(written, bytes);
    Ok(())
}

#[test]
fn test_rdb_empty_image_decodes() -> Result<(), Error> {
    let rdb = Rdb::empty()?;
    assert_eq!(rdb.header.redis_version, 11);
    assert_eq!(rdb.auxiliary_fields.len(), 5);
    assert_eq!(rdb.auxiliary_fields[0].key.field, "redis-ver");
    assert_eq!(rdb.auxiliary_fields[0].value.field, "7.2.0");
    assert_eq!(rdb.auxiliary_fields[1].key.field, "redis-bits");
    assert_eq!(rdb.auxiliary_fields[1].value.field, "64");
    assert_eq!(rdb.database_sections.len(), 0);
    Ok(())
}

#[test]
fn test_rdb_truncated_image_is_refused() {
    let mut bytes = sample_image();
    bytes.truncate(bytes.len() - 4);
    assert!(matches!(
        Rdb::parse(&bytes),
        Err(Error::SnapshotParseError { .. })
    ));
    let not_magic = b"NOPES0003".to_vec();
    assert!(matches!(
        Rdb::parse(&not_magic),
        Err(Error::SnapshotParseError { .. })
    ));
}

#[test]
fn test_length_encoding_round_trips_all_widths() -> Result<(), Error> {
    for len in [0u32, 5, 63, 64, 100, 191, 192, 255, 256, 9216, 16383] {
        let mut bytes = LengthEncoding { length: len }.write()?;
        bytes.push(0); // whatever follows must not matter
        let (back, consumed) = parse_length(&bytes, 0)?;
        assert_eq!(back.length, len);
        assert_eq!(consumed, bytes.len() - 1);
    }
    assert!(LengthEncoding { length: 16384 }.write().is_err());
    Ok(())
}
