use redis_core::error::Error;
use redis_core::stream::{Stream, StreamId};

const NOW: u64 = 1700000000000;

#[test]
fn test_stream_id() -> Result<(), Error> {
    let stream = Stream::new();
    let initial_input = "1526985054069-3";
    let stream_id = stream.create_stream_id(initial_input, NOW)?;
    assert_eq!(
        stream_id,
        StreamId {
            timestamp_ms: 1526985054069,
            seq_number: 3
        }
    );
    assert_eq!(stream_id.format(), initial_input.to_string());
    Ok(())
}

#[test]
fn test_partial_stream_id() -> Result<(), Error> {
    let stream = Stream::new();
    let initial_input = "1526985054069";
    let stream_id = stream.create_stream_id(initial_input, NOW)?;
    assert_eq!(
        stream_id,
        StreamId {
            timestamp_ms: 1526985054069,
            seq_number: 0
        }
    );
    assert_eq!(stream_id.format(), format!("{}-0", initial_input));
    Ok(())
}

#[test]
fn test_xadd() -> Result<(), Error> {
    let mut stream = Stream::new();

    let stream_id = stream.create_stream_id("1526985054069-87", NOW)?;
    let store = vec![("key1".to_string(), "value1".to_string())];
    stream.xadd(store.clone(), Some(stream_id), NOW)?;
    assert_eq!(stream.entries.len(), 1);

    let same_insert = stream.xadd(store.clone(), Some(stream_id), NOW);
    assert!(same_insert.is_err());
    assert_eq!(stream.entries.len(), 1);

    let prev_seq_stream_id = stream.create_stream_id("1526985054069-86", NOW)?;
    let prev_seq_insert = stream.xadd(store.clone(), Some(prev_seq_stream_id), NOW);
    assert!(prev_seq_insert.is_err());
    assert_eq!(stream.entries.len(), 1);

    let prev_timestamp_stream_id = stream.create_stream_id("1526985054068-87", NOW)?;
    let prev_timestamp_insert =
        stream.xadd(store.clone(), Some(prev_timestamp_stream_id), NOW);
    assert!(prev_timestamp_insert.is_err());
    assert_eq!(stream.entries.len(), 1);

    let next_seq_stream_id = stream.create_stream_id("1526985054069-88", NOW)?;
    stream.xadd(store.clone(), Some(next_seq_stream_id), NOW)?;
    assert_eq!(stream.entries.len(), 2);

    let next_timestamp_stream_id = stream.create_stream_id("1526985054070-87", NOW)?;
    stream.xadd(store.clone(), Some(next_timestamp_stream_id), NOW)?;
    assert_eq!(stream.entries.len(), 3);

    let returned_id = stream.xadd(store.clone(), None, NOW)?;
    assert!(returned_id > stream_id);
    assert_eq!(stream.entries.len(), 4);

    Ok(())
}

#[test]
fn test_two_appends_are_strictly_increasing() -> Result<(), Error> {
    let mut stream = Stream::new();
    let first = stream.xadd(vec![("a".to_string(), "1".to_string())], None, NOW)?;
    let second = stream.xadd(vec![("b".to_string(), "2".to_string())], None, NOW)?;
    assert!(second > first);
    let third = stream.xadd(vec![("c".to_string(), "3".to_string())], None, NOW + 5)?;
    assert!(third > second);
    Ok(())
}

#[test]
fn test_star_sequence_rules() -> Result<(), Error> {
    let mut stream = Stream::new();
    let id = stream.create_stream_id("5-*", NOW)?;
    assert_eq!(id, StreamId { timestamp_ms: 5, seq_number: 0 });
    stream.xadd(vec![("f".to_string(), "v".to_string())], Some(id), NOW)?;
    let id2 = stream.create_stream_id("5-*", NOW)?;
    assert_eq!(id2, StreamId { timestamp_ms: 5, seq_number: 1 });
    let zero_star = Stream::new().create_stream_id("0-*", NOW)?;
    assert_eq!(zero_star, StreamId { timestamp_ms: 0, seq_number: 1 });
    Ok(())
}

#[test]
fn test_overlong_timestamp_is_refused() {
    let stream = Stream::new();
    let err = stream.create_stream_id("12345678901234-0", NOW);
    assert!(matches!(err, Err(Error::CantConvertToMsTimestamp(_))));
    let err2 = stream.create_stream_id("notanumber", NOW);
    assert!(matches!(err2, Err(Error::ParseIntError)));
}

#[test]
fn test_xrange_window() -> Result<(), Error> {
    let mut stream = Stream::new();
    for i in 1..=4u64 {
        let id = StreamId { timestamp_ms: i, seq_number: 0 };
        stream.xadd(vec![("k".to_string(), format!("v{}", i))], Some(id), NOW)?;
    }
    let all = stream.xrange("-", "+", NOW)?;
    assert_eq!(all.len(), 4);
    let mid = stream.xrange("2", "3", NOW)?;
    assert_eq!(mid.len(), 2);
    assert_eq!(mid[0].0, "2-0");
    assert_eq!(mid[1].0, "3-0");
    let tail = stream.xread("2", NOW)?;
    assert_eq!(tail.len(), 2);
    assert_eq!(tail[0].0, "3-0");
    Ok(())
}
