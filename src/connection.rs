//! One client's exchange: the bytes of a request in, the bytes of the
//! response out.
use vstd::prelude::*;

use crate::action_handler::{action_spec, execute, RedisActionHandler};
use crate::resp::resp_deserializer::decode_spec;
use crate::resp::{encode_spec, RespDeserializer, RespError, RespType, RespValue, MAX_NESTING};
use crate::respserializer::encode;

verus! {

/// The store after a request, and the bytes sent back: the response to its
/// command, or an error that says why it could not be read.
pub open spec fn respond_spec(input: Seq<u8>, m: Map<Seq<char>, Seq<char>>) -> (Map<Seq<char>, Seq<char>>, Seq<u8>) {
    match decode_spec(input, 0, MAX_NESTING as nat) {
        Ok((v, _)) => (execute(action_spec(v), m).0, encode_spec(execute(action_spec(v), m).1)),
        Err(x) => (m, encode_spec(RespValue::Error(x.message()))),
    }
}

/// A request that cannot be read gets an error response, and the store is
/// left as it was.
pub proof fn law_malformed_gets_error(input: Seq<u8>, m: Map<Seq<char>, Seq<char>>)
    requires
        decode_spec(input, 0, MAX_NESTING as nat) is Err,
    ensures
        respond_spec(input, m).0 == m,
        exists|text: Seq<char>| respond_spec(input, m).1 == #[trigger] encode_spec(RespValue::Error(text)),
{
    let x = decode_spec(input, 0, MAX_NESTING as nat)->Err_0;
    assert(respond_spec(input, m).1 == encode_spec(RespValue::Error(x.message())));
}

/// The bytes so far end before the first frame does, and more may come.
pub open spec fn wants_more(input: Seq<u8>, at_end: bool) -> bool {
    &&& !at_end
    &&& decode_spec(input, 0, MAX_NESTING as nat) matches Err(x)
    &&& (x == RespError::Incomplete || x == RespError::InvalidType(None))
}

/// What to do next with a connection.
#[derive(Debug, PartialEq, Eq)]
pub enum Step {
    /// Read more bytes, then decide again.
    NeedMore,
    /// Send these bytes and close.
    Reply(Vec<u8>),
}

/// Answers the first frame of `request`; bytes after it are not read.
pub fn respond(handler: &mut RedisActionHandler, request: Vec<u8>) -> (r: Vec<u8>)
    ensures
        (final(handler).store(), r@) == respond_spec(request@, old(handler).store()),
{
    let mut reader = RespDeserializer::new(request);
    let response = match reader.deserialize() {
        Ok(v) => handler.handle(v),
        Err(x) => RespType::Error(x.to_string()),
    };
    encode(&response)
}

/// Decides on the bytes a client has sent so far, `at_end` telling whether
/// it has closed its side: wait for more while the first frame is cut short
/// and more may come, else answer it.
pub fn on_input(handler: &mut RedisActionHandler, input: Vec<u8>, at_end: bool) -> (r: Step)
    ensures
        wants_more(input@, at_end) ==> r == Step::NeedMore && final(handler).store() == old(handler).store(),
        !wants_more(input@, at_end) ==> (r matches Step::Reply(out) && (final(handler).store(), out@)
            == respond_spec(input@, old(handler).store())),
{
    if !at_end {
        let mut probe = RespDeserializer::new(input.clone());
        match probe.deserialize() {
            Err(RespError::Incomplete) | Err(RespError::InvalidType(None)) => {
                return Step::NeedMore;
            },
            _ => {},
        }
    }
    Step::Reply(respond(handler, input))
}

} // verus!
