//! A second frame reader over a byte buffer; it reads frames exactly as
//! `RespDeserializer` does.
use vstd::prelude::*;

pub use crate::resp::RespType;
use crate::resp::resp_deserializer::{decode_spec, decode_value};
use crate::resp::{RespError, MAX_NESTING};

verus! {

/// Reads frames one after another from a byte buffer.
pub struct RespParser {
    input: Vec<u8>,
    pos: usize,
}

impl RespParser {
    #[verifier::type_invariant]
    spec fn inv(&self) -> bool {
        self.pos <= self.input.len()
    }

    /// The bytes being read.
    pub closed spec fn input(&self) -> Seq<u8> {
        self.input@
    }

    /// Where the next frame starts.
    pub closed spec fn position(&self) -> int {
        self.pos as int
    }

    pub fn new(input: Vec<u8>) -> (r: RespParser)
        ensures
            r.input() == input@,
            r.position() == 0,
    {
        RespParser { input, pos: 0 }
    }

    /// Reads the frame at the current position and moves past it. A negative
    /// array count reads as the null value. On failure the position stays.
    pub fn parse(&mut self) -> (r: Result<RespType, RespError>)
        ensures
            final(self).input() == old(self).input(),
            match decode_spec(old(self).input(), old(self).position(), MAX_NESTING as nat) {
                Ok((v, e)) => r matches Ok(t) && t@ == v && final(self).position() == e,
                Err(x) => r == Err::<RespType, RespError>(x) && final(self).position() == old(self).position(),
            },
    {
        proof {
            use_type_invariant(&*self);
        }
        match decode_value(&self.input, self.pos, MAX_NESTING) {
            Ok((v, e)) => {
                self.pos = e;
                Ok(v)
            },
            Err(x) => Err(x),
        }
    }
}

} // verus!
