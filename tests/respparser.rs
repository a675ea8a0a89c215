use redis_kv::{RespParser, RespType};

fn reader(data: &str) -> RespParser {
    RespParser::new(data.as_bytes().to_vec())
}

#[test]
fn respparser_test_parse_simple_string() {
    let data = "+OK\r\n";
    let mut parser = reader(data);
    match parser.parse().unwrap() {
        RespType::SimpleString(s) => assert_eq!(s, "OK"),
        _ => panic!("Unexpected RESP type"),
    }
}

#[test]
fn respparser_test_simple_string_multiple_words() {
    let data = "+Hello World\r\n";
    let mut parser = reader(data);
    match parser.parse().unwrap() {
        RespType::SimpleString(s) => assert_eq!(s, "Hello World"),
        x => panic!("Unexpected RESP type: {:?}", x),
    }
}

#[test]
fn respparser_test_parse_error_message() {
    let data = "-Error message\r\n";
    let mut parser = reader(data);
    match parser.parse().unwrap() {
        RespType::Error(s) => assert_eq!(s, "Error message"),
        x => panic!("Unexpected RESP type: {:?}", x),
    }
}

#[test]
fn respparser_test_parse_array_with_one_element() {
    let data = "*1\r\n$4\r\nping\r\n";
    let mut parser = reader(data);
    match parser.parse().unwrap() {
        RespType::Array(s) => {
            assert_eq!(s.len(), 1);
            assert_eq!(s[0], RespType::BulkString(b"ping".to_vec()));
        }
        x => panic!("Unexpected RESP type: {:?}", x),
    }
}

#[test]
fn respparser_test_parse_array_with_multiple_elements() {
    let data = "*2\r\n$4\r\necho\r\n$11\r\nhello world\r\n";
    let mut parser = reader(data);
    match parser.parse().unwrap() {
        RespType::Array(s) => {
            assert_eq!(s.len(), 2);
            assert_eq!(s[0], RespType::BulkString(b"echo".to_vec()));
            assert_eq!(s[1], RespType::BulkString(b"hello world".to_vec()));
        }
        x => panic!("Unexpected RESP type: {:?}", x),
    }
}

#[test]
fn respparser_test_parse_array_with_multiple_elements_invalid() {
    let data = "*2\r\n$4\r\necho\r\n$5\r\nhello world\r\n";
    let mut parser = reader(data);
    match parser.parse().unwrap_err() {
        s => assert_eq!(s.to_string(), "Expected \\r\\n"),
    }
}

#[test]
fn respparser_test_parse_array_with_invalid_extra_backslash() {
    let data = "*2\r\n$3\r\nget\r\n$3\\r\nkey\r\n";
    let mut parser = reader(data);
    match parser.parse().unwrap_err() {
        s => assert_eq!(s.to_string(), "invalid digit found in string"),
    }
}

#[test]
fn respparser_test_parse_empty_bulk_string() {
    let data = "$0\r\n\r\n";
    let mut parser = reader(data);
    match parser.parse().unwrap() {
        RespType::BulkString(s) => assert_eq!(s, b""),
        x => panic!("Unexpected RESP type: {:?}", x),
    }
}

#[test]
fn negative_count_is_the_null_array() {
    let mut parser = reader("*-1\r\n");
    assert_eq!(parser.parse().unwrap(), RespType::Null);
    let mut parser = reader("$-1\r\n");
    assert_eq!(parser.parse().unwrap(), RespType::Null);
}
