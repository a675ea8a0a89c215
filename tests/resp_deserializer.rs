use redis_kv::{RespDeserializer, RespError, RespType};

fn reader(data: &str) -> RespDeserializer {
    RespDeserializer::new(data.as_bytes().to_vec())
}

#[test]
fn resp_deserializer_test_parse_simple_string() {
    let data = "+OK\r\n";
    let mut parser = reader(data);
    match parser.deserialize().unwrap() {
        RespType::SimpleString(s) => assert_eq!(s, "OK"),
        _ => panic!("Unexpected RESP type"),
    }
}

#[test]
fn resp_deserializer_test_simple_string_multiple_words() {
    let data = "+Hello World\r\n";
    let mut parser = reader(data);
    match parser.deserialize().unwrap() {
        RespType::SimpleString(s) => assert_eq!(s, "Hello World"),
        x => panic!("Unexpected RESP type: {:?}", x),
    }
}

#[test]
fn resp_deserializer_test_parse_error_message() {
    let data = "-Error message\r\n";
    let mut parser = reader(data);
    match parser.deserialize().unwrap() {
        RespType::Error(s) => assert_eq!(s, "Error message"),
        x => panic!("Unexpected RESP type: {:?}", x),
    }
}

#[test]
fn resp_deserializer_test_parse_array_with_one_element() {
    let data = "*1\r\n$4\r\nping\r\n";
    let mut parser = reader(data);
    match parser.deserialize().unwrap() {
        RespType::Array(s) => {
            assert_eq!(s.len(), 1);
            assert_eq!(s[0], RespType::BulkString(b"ping".to_vec()));
        }
        x => panic!("Unexpected RESP type: {:?}", x),
    }
}

#[test]
fn resp_deserializer_test_parse_array_with_multiple_elements() {
    let data = "*2\r\n$4\r\necho\r\n$11\r\nhello world\r\n";
    let mut parser = reader(data);
    match parser.deserialize().unwrap() {
        RespType::Array(s) => {
            assert_eq!(s.len(), 2);
            assert_eq!(s[0], RespType::BulkString(b"echo".to_vec()));
            assert_eq!(s[1], RespType::BulkString(b"hello world".to_vec()));
        }
        x => panic!("Unexpected RESP type: {:?}", x),
    }
}

#[test]
fn resp_deserializer_test_parse_array_with_multiple_elements_invalid() {
    let data = "*2\r\n$4\r\necho\r\n$5\r\nhello world\r\n";
    let mut parser = reader(data);
    match parser.deserialize().unwrap_err() {
        s => assert_eq!(s.to_string(), "Expected \\r\\n"),
    }
}

#[test]
fn resp_deserializer_test_parse_array_with_invalid_extra_backslash() {
    let data = "*2\r\n$3\r\nget\r\n$3\\r\nkey\r\n";
    let mut parser = reader(data);
    match parser.deserialize().unwrap_err() {
        s => assert_eq!(s.to_string(), "invalid digit found in string"),
    }
}

#[test]
fn resp_deserializer_test_parse_empty_bulk_string() {
    let data = "$0\r\n\r\n";
    let mut parser = reader(data);
    match parser.deserialize().unwrap() {
        RespType::BulkString(s) => assert_eq!(s, b""),
        x => panic!("Unexpected RESP type: {:?}", x),
    }
}

#[test]
fn test_parse_null_bulk_string() {
    let data = "$-1\r\n";
    let mut parser = reader(data);
    match parser.deserialize().unwrap() {
        RespType::Null => assert!(true),
        x => panic!("Unexpected RESP type: {:?}", x),
    }
}

#[test]
fn test_parse_null() {
    let data = "*-1\r\n";
    let mut parser = reader(data);
    match parser.deserialize().unwrap() {
        RespType::Null => assert!(true),
        x => panic!("Unexpected RESP type: {:?}", x),
    }
}

#[test]
fn negative_array_count_other_than_minus_one_is_null() {
    let mut parser = reader("*-3\r\n");
    assert_eq!(parser.deserialize().unwrap(), RespType::Null);
}

#[test]
fn integers_at_both_ends_of_the_range() {
    let mut parser = reader(":9223372036854775807\r\n:-9223372036854775808\r\n:+42\r\n:-0\r\n");
    assert_eq!(parser.deserialize().unwrap(), RespType::Integer(i64::MAX));
    assert_eq!(parser.deserialize().unwrap(), RespType::Integer(i64::MIN));
    assert_eq!(parser.deserialize().unwrap(), RespType::Integer(42));
    assert_eq!(parser.deserialize().unwrap(), RespType::Integer(0));
}

#[test]
fn integer_errors() {
    assert_eq!(reader(":9223372036854775808\r\n").deserialize().unwrap_err().to_string(), "number too large to fit in target type");
    assert_eq!(reader(":-9223372036854775809\r\n").deserialize().unwrap_err().to_string(), "number too small to fit in target type");
    assert_eq!(reader(":\r\n").deserialize().unwrap_err().to_string(), "cannot parse integer from empty string");
    assert_eq!(reader(":-\r\n").deserialize().unwrap_err().to_string(), "invalid digit found in string");
    assert_eq!(reader(": 1\r\n").deserialize().unwrap_err().to_string(), "invalid digit found in string");
}

#[test]
fn truncated_input_is_incomplete() {
    assert_eq!(reader("+OK").deserialize().unwrap_err(), RespError::Incomplete);
    assert_eq!(reader("$5\r\nabc").deserialize().unwrap_err(), RespError::Incomplete);
    assert_eq!(reader("*2\r\n$1\r\na\r\n").deserialize().unwrap_err(), RespError::InvalidType(None));
    assert_eq!(RespError::Incomplete.to_string(), "failed to fill whole buffer");
}

#[test]
fn bulk_length_five_with_four_bytes_and_bad_terminator_fails() {
    let mut parser = reader("$5\r\nabcd\r\n");
    assert!(parser.deserialize().is_err());
    let mut parser = reader("$5\r\nabcd\rxy");
    assert_eq!(parser.deserialize().unwrap_err(), RespError::ExpectedCrlf);
}

#[test]
fn unknown_tag_and_empty_line() {
    assert_eq!(reader("?x\r\n").deserialize().unwrap_err(), RespError::InvalidType(Some(b'?')));
    assert_eq!(reader("\r\n").deserialize().unwrap_err(), RespError::InvalidType(Some(b'\r')));
    assert_eq!(reader("").deserialize().unwrap_err(), RespError::InvalidType(None));
    assert_eq!(reader("?abc").deserialize().unwrap_err(), RespError::InvalidType(Some(b'?')));
    assert_eq!(RespError::InvalidType(None).to_string(), "Invalid RESP type: end of input");
    assert_eq!(RespError::InvalidType(Some(b'?')).to_string(), "Invalid RESP type: byte 63");
    assert_eq!(RespError::InvalidType(Some(0)).to_string(), "Invalid RESP type: byte 0");
    assert_eq!(RespError::InvalidType(Some(255)).to_string(), "Invalid RESP type: byte 255");
}

#[test]
fn negative_bulk_length_other_than_minus_one_fails() {
    assert_eq!(reader("$-2\r\n").deserialize().unwrap_err(), RespError::InvalidLength);
    assert_eq!(RespError::InvalidLength.to_string(), "invalid length");
}

#[test]
fn text_lines_must_be_utf8() {
    let mut parser = RespDeserializer::new(vec![b'+', 0xff, 0xfe, b'\r', b'\n']);
    assert_eq!(parser.deserialize().unwrap_err(), RespError::InvalidUtf8);
    let mut parser = RespDeserializer::new("+h\u{e9}llo \u{1F600}\r\n".as_bytes().to_vec());
    assert_eq!(parser.deserialize().unwrap(), RespType::SimpleString("h\u{e9}llo \u{1F600}".to_string()));
}

#[test]
fn nesting_deeper_than_the_limit_fails() {
    let mut deep = String::new();
    for _ in 0..(redis_kv::MAX_NESTING + 1) {
        deep.push_str("*1\r\n");
    }
    deep.push_str(":1\r\n");
    assert_eq!(reader(&deep).deserialize().unwrap_err(), RespError::TooDeep);
    let mut ok = String::new();
    for _ in 0..redis_kv::MAX_NESTING {
        ok.push_str("*1\r\n");
    }
    ok.push_str(":1\r\n");
    assert!(reader(&ok).deserialize().is_ok());
}

#[test]
fn frames_are_read_one_after_another() {
    let mut parser = reader("+a\r\n:5\r\n");
    assert_eq!(parser.deserialize().unwrap(), RespType::SimpleString("a".to_string()));
    assert_eq!(parser.deserialize().unwrap(), RespType::Integer(5));
    assert_eq!(parser.deserialize().unwrap_err(), RespError::InvalidType(None));
}

#[test]
fn failure_leaves_the_position() {
    let mut parser = reader("+a\r\n");
    assert_eq!(parser.deserialize().unwrap(), RespType::SimpleString("a".to_string()));
    assert!(parser.deserialize().is_err());
    assert!(parser.deserialize().is_err());
}

#[test]
fn huge_declared_lengths_are_incomplete_not_a_crash() {
    assert_eq!(reader("$9223372036854775807\r\nab\r\n").deserialize().unwrap_err(), RespError::Incomplete);
    assert_eq!(reader("*9223372036854775807\r\n:1\r\n").deserialize().unwrap_err(), RespError::InvalidType(None));
}
