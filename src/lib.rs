//! An in-memory key-value store spoken to in the RESP wire format: a frame
//! decoder and encoder, a command interpreter, and the store itself.
pub mod action_handler;
pub mod codec_laws;
pub mod connection;
pub mod decimal;
pub mod key_value_repository;
pub mod resp;
pub mod respparser;
pub mod respserializer;

pub use action_handler::{RedisAction, RedisActionHandler};
pub use connection::{on_input, respond, Step};
pub use key_value_repository::RedisDatabase;
pub use resp::{RespDeserializer, RespError, RespType, MAX_NESTING};
pub use respparser::RespParser;
pub use respserializer::{encode, RespSerializer};
