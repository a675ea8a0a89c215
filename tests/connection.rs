use redis_kv::{on_input, respond, RedisActionHandler, RedisDatabase, Step};

fn handler() -> RedisActionHandler {
    RedisActionHandler::new(RedisDatabase::new())
}

#[test]
fn echo_is_an_unknown_command() {
    let mut h = handler();
    let out = respond(&mut h, b"*2\r\n$4\r\necho\r\n$5\r\nhello\r\n".to_vec());
    assert_eq!(out, b"-Unknown command\r\n");
}

#[test]
fn ping_line_gets_pong() {
    let mut h = handler();
    assert_eq!(respond(&mut h, b"+PING\r\n".to_vec()), b"+PONG\r\n");
}

#[test]
fn set_then_get_over_two_requests() {
    let mut h = handler();
    let out = respond(&mut h, b"*3\r\n$3\r\nSET\r\n$1\r\nk\r\n$1\r\nv\r\n".to_vec());
    assert_eq!(out, b"+OK\r\n");
    let out = respond(&mut h, b"*2\r\n$3\r\nGET\r\n$1\r\nk\r\n".to_vec());
    assert_eq!(out, b"$1\r\nv\r\n");
}

#[test]
fn missing_key_gets_null() {
    let mut h = handler();
    assert_eq!(respond(&mut h, b"*2\r\n$3\r\nGET\r\n$1\r\nk\r\n".to_vec()), b"$-1\r\n");
}

#[test]
fn malformed_bulk_string_gets_an_error_response() {
    let mut h = handler();
    let out = respond(&mut h, b"$5\r\nabcd\r\n".to_vec());
    assert_eq!(out[0], b'-');
    let out = respond(&mut h, b"*1\r\n$5\r\nabcd\rxy".to_vec());
    assert_eq!(out, b"-Expected \\r\\n\r\n");
}

#[test]
fn only_the_first_frame_is_answered() {
    let mut h = handler();
    let out = respond(&mut h, b"+PING\r\n+SET a b\r\n".to_vec());
    assert_eq!(out, b"+PONG\r\n");
    assert_eq!(respond(&mut h, b"+GET a\r\n".to_vec()), b"$-1\r\n");
}

#[test]
fn a_cut_request_waits_for_more_until_the_end() {
    let mut h = handler();
    assert_eq!(on_input(&mut h, b"*2\r\n$3\r\nGET\r\n".to_vec(), false), Step::NeedMore);
    assert_eq!(
        on_input(&mut h, b"*2\r\n$3\r\nGET\r\n".to_vec(), true),
        Step::Reply(b"-Invalid RESP type: end of input\r\n".to_vec())
    );
    assert_eq!(
        on_input(&mut h, b"*2\r\n$3\r\nGE".to_vec(), true),
        Step::Reply(b"-failed to fill whole buffer\r\n".to_vec())
    );
    assert_eq!(on_input(&mut h, Vec::new(), false), Step::NeedMore);
    assert_eq!(
        on_input(&mut h, Vec::new(), true),
        Step::Reply(b"-Invalid RESP type: end of input\r\n".to_vec())
    );
    assert_eq!(on_input(&mut h, b"*2\r\n$3\r\nGET\r\n$1\r\nk\r\n".to_vec()[..13].to_vec(), false), Step::NeedMore);
    assert_eq!(on_input(&mut h, b"+PING\r\n".to_vec(), false), Step::Reply(b"+PONG\r\n".to_vec()));
    assert_eq!(on_input(&mut h, b"?\r\n".to_vec(), false), Step::Reply(b"-Invalid RESP type: byte 63\r\n".to_vec()));
}
