use redisless::command::{Command, CommandError};
use redisless::handler::respond;
use redisless::resp::{encode, RedisProtocolParser, RespScalar, RespValue};
use redisless::RedisLess;

fn bulk(bytes: &[u8]) -> RespScalar {
    RespScalar::BulkString(bytes.to_vec())
}

fn request(parts: &[&[u8]]) -> Vec<u8> {
    let items: Vec<RespScalar> = parts.iter().map(|p| bulk(p)).collect();
    encode(&RespValue::Array(items))
}

#[test]
fn test_command_dispatch_case_insensitive() {
    match Command::parse(vec![bulk(b"set"), bulk(b"k"), bulk(b"v")]) {
        Command::SetKv(k, v) => {
            assert_eq!(k, b"k".to_vec());
            assert_eq!(v, b"v".to_vec());
        }
        _ => panic!("expected a SET command"),
    }
    match Command::parse(vec![bulk(b"GeT"), bulk(b"k")]) {
        Command::Get(k) => assert_eq!(k, b"k".to_vec()),
        _ => panic!("expected a GET command"),
    }
    match Command::parse(vec![bulk(b"DEL"), bulk(b"k")]) {
        Command::Del(k) => assert_eq!(k, b"k".to_vec()),
        _ => panic!("expected a DEL command"),
    }
}

#[test]
fn test_command_errors() {
    match Command::parse(vec![]) {
        Command::Error(e) => assert_eq!(e, CommandError::EmptyRequest),
        _ => panic!("expected an error"),
    }
    match Command::parse(vec![bulk(b"SET"), bulk(b"k")]) {
        Command::Error(e) => assert_eq!(e, CommandError::WrongArity),
        _ => panic!("expected an error"),
    }
    match Command::parse(vec![bulk(b"GET"), bulk(b"k"), bulk(b"extra")]) {
        Command::Error(e) => assert_eq!(e, CommandError::WrongArity),
        _ => panic!("expected an error"),
    }
    match Command::parse(vec![bulk(b"GET"), RespScalar::Integer(5)]) {
        Command::Error(e) => assert_eq!(e, CommandError::NotBulkStrings),
        _ => panic!("expected an error"),
    }
    match Command::parse(vec![bulk(b"FLUSHALL")]) {
        Command::NotSupported(verb) => assert_eq!(verb, b"FLUSHALL".to_vec()),
        _ => panic!("expected not-supported"),
    }
}

#[test]
fn test_request_reply_dialogue() {
    let mut store = RedisLess::new();
    assert_eq!(respond(&mut store, &request(&[b"SET", b"key", b"value"])), b"+OK\r\n".to_vec());
    assert_eq!(
        respond(&mut store, &request(&[b"GET", b"key"])),
        b"$5\r\nvalue\r\n".to_vec()
    );
    assert_eq!(
        respond(&mut store, &request(&[b"GET", b"missing"])),
        b"-ERR key does not exist\r\n".to_vec()
    );
    assert_eq!(respond(&mut store, &request(&[b"DEL", b"key"])), b":1\r\n".to_vec());
    assert_eq!(respond(&mut store, &request(&[b"DEL", b"key"])), b":0\r\n".to_vec());
}

#[test]
fn test_binary_value_round_trips_through_get() {
    let mut store = RedisLess::new();
    let value = vec![0xffu8, 0x00, 0x0d, 0x0a, 0xfe, 0x80];
    let set_req = encode(&RespValue::Array(vec![bulk(b"SET"), bulk(b"bin"), bulk(&value)]));
    assert_eq!(respond(&mut store, &set_req), b"+OK\r\n".to_vec());
    let reply = respond(&mut store, &request(&[b"GET", b"bin"]));
    let (decoded, used) = RedisProtocolParser::parse(&reply).unwrap();
    assert_eq!(used, reply.len());
    match decoded {
        RespValue::Scalar(RespScalar::BulkString(b)) => assert_eq!(b, value),
        _ => panic!("expected a bulk string reply"),
    }
}

#[test]
fn test_malformed_input_gets_error_reply_not_a_fault() {
    let mut store = RedisLess::new();
    assert_eq!(
        respond(&mut store, b"!garbage\r\n"),
        b"-ERR malformed request\r\n".to_vec()
    );
    assert_eq!(
        respond(&mut store, b"$10\r\nabc"),
        b"-ERR malformed request\r\n".to_vec()
    );
    assert_eq!(
        respond(&mut store, b"+hello\r\n"),
        b"-ERR expected an array\r\n".to_vec()
    );
    assert_eq!(
        respond(&mut store, b"*1\r\n:5\r\n"),
        b"-ERR expected an array of bulk strings\r\n".to_vec()
    );
    assert_eq!(
        respond(&mut store, &request(&[b"SET", b"k"])),
        b"-ERR wrong number of arguments\r\n".to_vec()
    );
    assert_eq!(
        respond(&mut store, &request(&[b"PING"])),
        b"-ERR unsupported command PING\r\n".to_vec()
    );
    assert_eq!(respond(&mut store, b"*0\r\n"), b"-ERR empty request\r\n".to_vec());
}
