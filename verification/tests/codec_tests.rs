use redisless::resp::{encode, ParseError, RedisProtocolParser, RespScalar, RespValue};

fn bulk(bytes: &[u8]) -> RespScalar {
    RespScalar::BulkString(bytes.to_vec())
}

#[test]
fn test_parse_simple_string() {
    let (value, used) = RedisProtocolParser::parse(b"+OK\r\n").unwrap();
    assert_eq!(used, 5);
    match value {
        RespValue::Scalar(RespScalar::SimpleString(s)) => assert_eq!(s, b"OK".to_vec()),
        _ => panic!("expected a simple string"),
    }
}

#[test]
fn test_parse_leaves_trailing_bytes() {
    let (value, used) = RedisProtocolParser::parse(b"+OK\r\n:1\r\n").unwrap();
    assert_eq!(used, 5);
    match value {
        RespValue::Scalar(RespScalar::SimpleString(s)) => assert_eq!(s, b"OK".to_vec()),
        _ => panic!("expected a simple string"),
    }
}

#[test]
fn test_parse_error_value() {
    let (value, used) = RedisProtocolParser::parse(b"-ERR oops\r\n").unwrap();
    assert_eq!(used, 11);
    match value {
        RespValue::Scalar(RespScalar::Error(s)) => assert_eq!(s, b"ERR oops".to_vec()),
        _ => panic!("expected an error value"),
    }
}

#[test]
fn test_parse_integers() {
    let (value, used) = RedisProtocolParser::parse(b":123\r\n").unwrap();
    assert_eq!(used, 6);
    match value {
        RespValue::Scalar(RespScalar::Integer(n)) => assert_eq!(n, 123),
        _ => panic!("expected an integer"),
    }
    let (value, _) = RedisProtocolParser::parse(b":-42\r\n").unwrap();
    match value {
        RespValue::Scalar(RespScalar::Integer(n)) => assert_eq!(n, -42),
        _ => panic!("expected an integer"),
    }
    assert_eq!(
        RedisProtocolParser::parse(b":12a\r\n").unwrap_err(),
        ParseError::Malformed
    );
    assert_eq!(
        RedisProtocolParser::parse(b":\r\n").unwrap_err(),
        ParseError::Malformed
    );
}

#[test]
fn test_integer_boundaries() {
    let min_wire = b":-9223372036854775808\r\n";
    let (value, used) = RedisProtocolParser::parse(min_wire).unwrap();
    assert_eq!(used, min_wire.len());
    match value {
        RespValue::Scalar(RespScalar::Integer(n)) => assert_eq!(n, i64::MIN),
        _ => panic!("expected an integer"),
    }
    assert_eq!(
        encode(&RespValue::Scalar(RespScalar::Integer(i64::MIN))),
        min_wire.to_vec()
    );
    let max_wire = b":9223372036854775807\r\n";
    let (value, _) = RedisProtocolParser::parse(max_wire).unwrap();
    match value {
        RespValue::Scalar(RespScalar::Integer(n)) => assert_eq!(n, i64::MAX),
        _ => panic!("expected an integer"),
    }
    assert_eq!(
        encode(&RespValue::Scalar(RespScalar::Integer(i64::MAX))),
        max_wire.to_vec()
    );
    assert_eq!(
        RedisProtocolParser::parse(b":9223372036854775808\r\n").unwrap_err(),
        ParseError::Malformed
    );
    assert_eq!(
        RedisProtocolParser::parse(b":-9223372036854775809\r\n").unwrap_err(),
        ParseError::Malformed
    );
}

#[test]
fn test_parse_bulk_string_with_binary_bytes() {
    let (value, used) = RedisProtocolParser::parse(b"$5\r\n\xff\x00\r\n\xfe\r\n").unwrap();
    assert_eq!(used, 11);
    match value {
        RespValue::Scalar(RespScalar::BulkString(b)) => {
            assert_eq!(b, vec![0xff, 0x00, 0x0d, 0x0a, 0xfe]);
        }
        _ => panic!("expected a bulk string"),
    }
}

#[test]
fn test_parse_nil() {
    let (value, used) = RedisProtocolParser::parse(b"$-1\r\n").unwrap();
    assert_eq!(used, 5);
    assert!(matches!(value, RespValue::Scalar(RespScalar::Nil)));
}

#[test]
fn test_partial_bulk_is_incomplete() {
    assert_eq!(
        RedisProtocolParser::parse(b"$10\r\nabc").unwrap_err(),
        ParseError::Incomplete
    );
    assert_eq!(
        RedisProtocolParser::parse(b"$3\r\nabc").unwrap_err(),
        ParseError::Incomplete
    );
    assert_eq!(
        RedisProtocolParser::parse(b"+abc").unwrap_err(),
        ParseError::Incomplete
    );
    assert_eq!(RedisProtocolParser::parse(b"").unwrap_err(), ParseError::Incomplete);
    assert_eq!(RedisProtocolParser::parse(b"*2\r\n$1\r\na\r\n").unwrap_err(), ParseError::Incomplete);
}

#[test]
fn test_malformed_inputs() {
    assert_eq!(
        RedisProtocolParser::parse(b"!bad\r\n").unwrap_err(),
        ParseError::Malformed
    );
    assert_eq!(
        RedisProtocolParser::parse(b"$x\r\n").unwrap_err(),
        ParseError::Malformed
    );
    assert_eq!(
        RedisProtocolParser::parse(b"+no line feed\rX").unwrap_err(),
        ParseError::Malformed
    );
}

#[test]
fn test_parse_array_of_bulk_strings() {
    let (value, used) = RedisProtocolParser::parse(b"*2\r\n$3\r\nGET\r\n$3\r\nkey\r\n").unwrap();
    assert_eq!(used, 22);
    match value {
        RespValue::Array(items) => {
            assert_eq!(items.len(), 2);
            match &items[0] {
                RespScalar::BulkString(b) => assert_eq!(b, &b"GET".to_vec()),
                _ => panic!("expected a bulk string"),
            }
            match &items[1] {
                RespScalar::BulkString(b) => assert_eq!(b, &b"key".to_vec()),
                _ => panic!("expected a bulk string"),
            }
        }
        _ => panic!("expected an array"),
    }
}

#[test]
fn test_encode_scalars() {
    assert_eq!(
        encode(&RespValue::Scalar(RespScalar::SimpleString(b"OK".to_vec()))),
        b"+OK\r\n".to_vec()
    );
    assert_eq!(
        encode(&RespValue::Scalar(RespScalar::Error(b"ERR x".to_vec()))),
        b"-ERR x\r\n".to_vec()
    );
    assert_eq!(encode(&RespValue::Scalar(RespScalar::Integer(0))), b":0\r\n".to_vec());
    assert_eq!(encode(&RespValue::Scalar(RespScalar::Integer(105))), b":105\r\n".to_vec());
    assert_eq!(encode(&RespValue::Scalar(RespScalar::Integer(-7))), b":-7\r\n".to_vec());
    assert_eq!(
        encode(&RespValue::Scalar(RespScalar::BulkString(b"ab\r\nc".to_vec()))),
        b"$5\r\nab\r\nc\r\n".to_vec()
    );
    assert_eq!(encode(&RespValue::Scalar(RespScalar::Nil)), b"$-1\r\n".to_vec());
}

#[test]
fn test_encode_then_parse_round_trip() {
    let request = encode(&RespValue::Array(vec![bulk(b"SET"), bulk(b"key"), bulk(b"value")]));
    assert_eq!(request, b"*3\r\n$3\r\nSET\r\n$3\r\nkey\r\n$5\r\nvalue\r\n".to_vec());
    let (value, used) = RedisProtocolParser::parse(&request).unwrap();
    assert_eq!(used, request.len());
    match value {
        RespValue::Array(items) => {
            assert_eq!(items.len(), 3);
            match &items[2] {
                RespScalar::BulkString(b) => assert_eq!(b, &b"value".to_vec()),
                _ => panic!("expected a bulk string"),
            }
        }
        _ => panic!("expected an array"),
    }
}
