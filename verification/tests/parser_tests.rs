use redis_core::parser::{parse_redis_value, DecodeResult, RedisValue};

fn parse_ok(input: &str) -> (RedisValue, usize) {
    match parse_redis_value(input) {
        DecodeResult::Value(v, n) => (v, n),
        _ => panic!("expected a complete value"),
    }
}

#[test]
fn test_parse_redis_value_simplestring() {
    let initial_input = "+bonjour\r\n";
    let input = initial_input;
    let (redis_value, consumed) = parse_ok(input);
    assert_eq!(redis_value, RedisValue::SimpleString("bonjour".to_string()));
    assert_eq!(&input[consumed..], "");
    assert_eq!(initial_input, redis_value.encode());
}

#[test]
fn test_parse_redis_value_simpleerror() {
    let initial_input = "-terrible mistake\r\n";
    let input = initial_input;
    let (redis_value, consumed) = parse_ok(input);
    assert_eq!(
        redis_value,
        RedisValue::SimpleError("terrible mistake".to_string())
    );
    assert_eq!(&input[consumed..], "");
    assert_eq!(initial_input, redis_value.encode());
}

#[test]
fn test_parse_redis_value_integer() {
    let initial_input = ":+65\r\n";
    let input = initial_input;
    let (redis_value, consumed) = parse_ok(input);
    assert_eq!(redis_value, RedisValue::Integer(65));
    assert_eq!(&input[consumed..], "");
    assert_eq!(":65\r\n", redis_value.encode());

    let initial_input = ":455\r\n";
    let input = initial_input;
    let (redis_value, consumed) = parse_ok(input);
    assert_eq!(redis_value, RedisValue::Integer(455));
    assert_eq!(&input[consumed..], "");
    assert_eq!(initial_input, redis_value.encode());

    let initial_input = ":-879\r\n";
    let input = initial_input;
    let (redis_value, consumed) = parse_ok(input);
    assert_eq!(redis_value, RedisValue::Integer(-879));
    assert_eq!(&input[consumed..], "");
    assert_eq!(initial_input, redis_value.encode());
}

#[test]
fn test_parse_redis_value_bulkstring() {
    let initial_input = "$7\r\nbonjour\r\n";
    let input = initial_input;
    let (redis_value, consumed) = parse_ok(input);
    assert_eq!(redis_value, RedisValue::BulkString(7, "bonjour".to_string()));
    assert_eq!(&input[consumed..], "");
    assert_eq!(initial_input, redis_value.encode());
}

#[test]
fn test_parse_redis_value_nullbulkstring() {
    let initial_input = "$-1\r\n";
    let input = initial_input;
    let (redis_value, consumed) = parse_ok(input);
    assert_eq!(redis_value, RedisValue::NullBulkString);
    assert_eq!(&input[consumed..], "");
    assert_eq!(initial_input, redis_value.encode());
}

#[test]
fn test_parse_redis_value_array() {
    let initial_input = "*2\r\n$4\r\nEcho\r\n$7\r\nbonjour\r\n";
    let input = initial_input;
    let (redis_value, consumed) = parse_ok(input);
    assert_eq!(
        redis_value,
        RedisValue::Array(
            2,
            vec![
                RedisValue::BulkString(4, "Echo".to_string()),
                RedisValue::BulkString(7, "bonjour".to_string()),
            ]
        )
    );
    assert_eq!(&input[consumed..], "");
    assert_eq!(initial_input, redis_value.encode());
}

#[test]
fn test_parse_needs_more_on_partial_frame() {
    assert!(matches!(parse_redis_value("+pending"), DecodeResult::NeedMore));
    assert!(matches!(parse_redis_value("$10\r\nabc"), DecodeResult::NeedMore));
    assert!(matches!(parse_redis_value(""), DecodeResult::NeedMore));
}

#[test]
fn test_parse_protocol_error_on_bad_frame() {
    assert!(matches!(parse_redis_value("?foo\r\n"), DecodeResult::ProtocolError));
    assert!(matches!(parse_redis_value(":abc\r\n"), DecodeResult::ProtocolError));
    assert!(matches!(parse_redis_value("$-2\r\n"), DecodeResult::ProtocolError));
}

#[test]
fn test_round_trip_nested_array() {
    let v = RedisValue::Array(
        2,
        vec![
            RedisValue::Array(
                2,
                vec![
                    RedisValue::Integer(-42),
                    RedisValue::BulkString(2, "ab".to_string()),
                ],
            ),
            RedisValue::NullBulkString,
        ],
    );
    let encoded = v.encode();
    let (back, consumed) = parse_ok(encoded.as_str());
    assert_eq!(back, v);
    assert_eq!(consumed, encoded.len());
}

#[test]
fn test_array_of_bulkstrings_from_splits_words() {
    let v = RedisValue::array_of_bulkstrings_from("REPLCONF GETACK *");
    assert_eq!(v.encode(), "*3\r\n$8\r\nREPLCONF\r\n$6\r\nGETACK\r\n$1\r\n*\r\n");
}

#[test]
fn test_inner_string() {
    assert_eq!(
        RedisValue::Integer(12).inner_string().unwrap(),
        "12".to_string()
    );
    assert_eq!(
        RedisValue::NullBulkString.inner_string().unwrap(),
        "(nil)".to_string()
    );
    assert!(RedisValue::Array(0, vec![]).inner_string().is_err());
}
