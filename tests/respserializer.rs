use redis_kv::{encode, RespDeserializer, RespParser, RespSerializer, RespType};

fn written(resp: &RespType) -> Vec<u8> {
    let mut serializer = RespSerializer::new(Vec::new());
    serializer.serialize(resp);
    serializer.into_bytes()
}

#[test]
fn test_serialize_simple_string() {
    let resp = RespType::SimpleString("OK".to_string());
    let writer = written(&resp);
    assert_eq!(writer, b"+OK\r\n");
}

#[test]
fn test_serialize_error() {
    let resp = RespType::Error("Error message".to_string());
    let writer = written(&resp);
    assert_eq!(writer, b"-Error message\r\n");
}

#[test]
fn test_serialize_integer() {
    let resp = RespType::Integer(42);
    let writer = written(&resp);
    assert_eq!(writer, b":42\r\n");
}

#[test]
fn test_serialize_bulk_string() {
    let resp = RespType::BulkString(b"Hello, world!".to_vec());
    let writer = written(&resp);
    assert_eq!(writer, b"$13\r\nHello, world!\r\n");
}

#[test]
fn test_serialize_array() {
    let resp = RespType::Array(vec![
        RespType::SimpleString("OK".to_string()),
        RespType::Integer(42),
        RespType::BulkString(b"Hello, world!".to_vec()),
    ]);
    let writer = written(&resp);
    assert_eq!(writer, b"*3\r\n+OK\r\n:42\r\n$13\r\nHello, world!\r\n");
}

#[test]
fn test_serialize_null() {
    let resp = RespType::Null;
    let writer = written(&resp);
    assert_eq!(writer, b"$-1\r\n");
}

#[test]
fn serializer_appends_to_what_the_buffer_held() {
    let mut serializer = RespSerializer::new(b"xy".to_vec());
    serializer.serialize(&RespType::Integer(-7));
    serializer.serialize(&RespType::Array(vec![]));
    assert_eq!(serializer.bytes(), &b"xy:-7\r\n*0\r\n".to_vec());
}

#[test]
fn integer_extremes_encode() {
    assert_eq!(encode(&RespType::Integer(i64::MIN)), b":-9223372036854775808\r\n");
    assert_eq!(encode(&RespType::Integer(i64::MAX)), b":9223372036854775807\r\n");
    assert_eq!(encode(&RespType::Integer(0)), b":0\r\n");
}

#[test]
fn text_is_encoded_as_utf8() {
    assert_eq!(encode(&RespType::SimpleString("\u{e9}".to_string())), b"+\xc3\xa9\r\n");
}

fn sample() -> RespType {
    RespType::Array(vec![
        RespType::SimpleString("h\u{e9}llo".to_string()),
        RespType::Error("ERR bad".to_string()),
        RespType::Integer(i64::MIN),
        RespType::BulkString(vec![0, 13, 10, 255, 13, 10]),
        RespType::Array(vec![]),
        RespType::Array(vec![RespType::Null, RespType::Integer(3)]),
        RespType::Null,
        RespType::BulkString(vec![]),
    ])
}

#[test]
fn decoding_an_encoding_gives_the_value_back() {
    let bytes = encode(&sample());
    let mut d = RespDeserializer::new(bytes.clone());
    assert_eq!(d.deserialize().unwrap(), sample());
    let mut p = RespParser::new(bytes);
    assert_eq!(p.parse().unwrap(), sample());
}

#[test]
fn every_cut_encoding_fails_to_decode() {
    let bytes = encode(&sample());
    for cut in 0..bytes.len() {
        let mut d = RespDeserializer::new(bytes[..cut].to_vec());
        assert!(d.deserialize().is_err(), "cut at {}", cut);
    }
}
