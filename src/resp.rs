//! The value model of the wire format.
use vstd::prelude::*;
use vstd::string::StringExecFns;
use vstd::utf8::{decode_utf8, encode_utf8, valid_utf8};

use crate::decimal::{decimal, int_text};

pub mod resp_deserializer;

pub use crate::respserializer::RespSerializer;
pub use resp_deserializer::RespDeserializer;

verus! {

pub use crate::decimal::IntErrorKind;

/// How many arrays a frame may nest, counting the outermost.
pub const MAX_NESTING: usize = 128;

/// Relies on `String::from_utf8`: it succeeds exactly on UTF-8 input, and then
/// holds the characters that the bytes encode.
#[verifier::external_body]
pub(crate) fn string_from_utf8(b: Vec<u8>) -> (r: Option<String>)
    ensures
        r is Some <==> valid_utf8(b@),
        r matches Some(t) ==> t@ == decode_utf8(b@),
{
    String::from_utf8(b).ok()
}

/// A copy of `s[lo..hi]`.
pub(crate) fn copy_range(s: &Vec<u8>, lo: usize, hi: usize) -> (r: Vec<u8>)
    requires
        lo <= hi <= s.len(),
    ensures
        r@ == s@.subrange(lo as int, hi as int),
{
    let mut r: Vec<u8> = Vec::new();
    let mut i: usize = lo;
    while i < hi
        invariant
            lo <= i <= hi <= s.len(),
            r@ == s@.subrange(lo as int, i as int),
        decreases hi - i,
    {
        r.push(s[i]);
        i = i + 1;
        assert(r@ =~= s@.subrange(lo as int, i as int));
    }
    r
}

/// One unit of the wire format.
#[derive(Debug, PartialEq)]
pub enum RespType {
    SimpleString(String),
    Error(String),
    Integer(i64),
    BulkString(Vec<u8>),
    Array(Vec<RespType>),
    Null,
}

/// The mathematical content of a [`RespType`].
pub enum RespValue {
    SimpleString(Seq<char>),
    Error(Seq<char>),
    Integer(int),
    BulkString(Seq<u8>),
    Array(Seq<RespValue>),
    Null,
}

impl RespType {
    pub open spec fn view(&self) -> RespValue
        decreases self,
    {
        match self {
            RespType::SimpleString(s) => RespValue::SimpleString(s@),
            RespType::Error(s) => RespValue::Error(s@),
            RespType::Integer(i) => RespValue::Integer(*i as int),
            RespType::BulkString(b) => RespValue::BulkString(b@),
            RespType::Array(a) => RespValue::Array(
                Seq::new(
                    a.len() as nat,
                    |i: int|
                        if 0 <= i < a.len() {
                            a[i].view()
                        } else {
                            RespValue::Null
                        },
                ),
            ),
            RespType::Null => RespValue::Null,
        }
    }
}

pub open spec fn crlf() -> Seq<u8> {
    seq![13u8, 10u8]
}

/// The canonical bytes of a value.
pub open spec fn encode_spec(v: RespValue) -> Seq<u8>
    decreases v,
{
    match v {
        RespValue::SimpleString(t) => seq![43u8] + encode_utf8(t) + crlf(),
        RespValue::Error(t) => seq![45u8] + encode_utf8(t) + crlf(),
        RespValue::Integer(i) => seq![58u8] + int_text(i) + crlf(),
        RespValue::BulkString(b) => seq![36u8] + decimal(b.len()) + crlf() + b + crlf(),
        RespValue::Array(a) => seq![42u8] + decimal(a.len()) + crlf() + encode_seq(a),
        RespValue::Null => seq![36u8, 45u8, 49u8, 13u8, 10u8],
    }
}

/// The bytes of values one after the other.
pub open spec fn encode_seq(a: Seq<RespValue>) -> Seq<u8>
    decreases a,
{
    if a.len() == 0 {
        Seq::empty()
    } else {
        encode_spec(a[0]) + encode_seq(a.subrange(1, a.len() as int))
    }
}

pub proof fn lemma_encode_seq_push(x: Seq<RespValue>, y: RespValue)
    ensures
        encode_seq(x.push(y)) == encode_seq(x) + encode_spec(y),
    decreases x.len(),
{
    if x.len() == 0 {
        assert(x.push(y).subrange(1, 1) =~= Seq::<RespValue>::empty());
        assert(encode_seq(x.push(y).subrange(1, 1)) == Seq::<u8>::empty());
        assert(encode_seq(x) == Seq::<u8>::empty());
        assert(x.push(y)[0] == y);
        assert(encode_spec(y) + Seq::<u8>::empty() =~= encode_spec(y));
        assert(Seq::<u8>::empty() + encode_spec(y) =~= encode_spec(y));
    } else {
        let tail = x.subrange(1, x.len() as int);
        lemma_encode_seq_push(tail, y);
        assert(x.push(y).subrange(1, x.len() as int + 1) =~= tail.push(y));
        assert(x.push(y)[0] == x[0]);
        assert(encode_spec(x[0]) + (encode_seq(tail) + encode_spec(y)) =~= (encode_spec(x[0])
            + encode_seq(tail)) + encode_spec(y));
    }
}

/// Why a frame could not be read.
#[derive(Debug, Clone, Copy, PartialEq, Eq, Structural)]
pub enum RespError {
    /// The input ended before the frame did.
    Incomplete,
    /// A header that should hold an integer does not.
    Int(IntErrorKind),
    /// A bulk string's payload is not followed by CR LF.
    ExpectedCrlf,
    /// A frame starts with a byte that names no type; `None` where the input
    /// has ended.
    InvalidType(Option<u8>),
    /// A text line is not UTF-8.
    InvalidUtf8,
    /// A bulk string declares a negative length other than -1.
    InvalidLength,
    /// Arrays are nested deeper than the decoder allows.
    TooDeep,
}

/// Digits as text.
pub open spec fn digit_chars(d: Seq<u8>) -> Seq<char> {
    Seq::new(d.len(), |i: int| d[i] as char)
}

fn digit_str(d: u8) -> (r: &'static str)
    requires
        d < 10,
    ensures
        r@ == seq![(48 + d) as u8 as char],
{
    let r = match d {
        0 => "0",
        1 => "1",
        2 => "2",
        3 => "3",
        4 => "4",
        5 => "5",
        6 => "6",
        7 => "7",
        8 => "8",
        _ => "9",
    };
    proof {
        reveal_strlit("0");
        reveal_strlit("1");
        reveal_strlit("2");
        reveal_strlit("3");
        reveal_strlit("4");
        reveal_strlit("5");
        reveal_strlit("6");
        reveal_strlit("7");
        reveal_strlit("8");
        reveal_strlit("9");
        assert(r@ =~= seq![(48 + d) as u8 as char]);
    }
    r
}

/// Appends the digits of `n` to `s`.
fn append_decimal(s: &mut String, n: u8)
    ensures
        final(s)@ == old(s)@ + digit_chars(decimal(n as nat)),
    decreases n,
{
    if n >= 10 {
        append_decimal(s, n / 10);
    }
    s.append(digit_str(n % 10));
    proof {
        if n >= 10 {
            assert(decimal(n as nat) == decimal((n / 10) as nat).push((48 + n % 10) as u8));
            assert(digit_chars(decimal(n as nat)) =~= digit_chars(decimal((n / 10) as nat)) + seq![
                (48 + n % 10) as u8 as char,
            ]);
        } else {
            assert(digit_chars(decimal(n as nat)) =~= seq![(48 + n % 10) as u8 as char]);
        }
        assert(final(s)@ =~= old(s)@ + digit_chars(decimal(n as nat)));
    }
}

impl RespError {
    pub open spec fn message(&self) -> Seq<char> {
        match self {
            RespError::Incomplete => "failed to fill whole buffer"@,
            RespError::Int(IntErrorKind::Empty) => "cannot parse integer from empty string"@,
            RespError::Int(IntErrorKind::InvalidDigit) => "invalid digit found in string"@,
            RespError::Int(IntErrorKind::PosOverflow) => "number too large to fit in target type"@,
            RespError::Int(IntErrorKind::NegOverflow) => "number too small to fit in target type"@,
            RespError::ExpectedCrlf => "Expected \\r\\n"@,
            RespError::InvalidType(None) => "Invalid RESP type: end of input"@,
            RespError::InvalidType(Some(b)) => "Invalid RESP type: byte "@ + digit_chars(decimal(b as nat)),
            RespError::InvalidUtf8 => "stream did not contain valid UTF-8"@,
            RespError::InvalidLength => "invalid length"@,
            RespError::TooDeep => "arrays nested too deep"@,
        }
    }

    /// The description sent back to a client whose request could not be read.
    pub fn to_string(&self) -> (r: String)
        ensures
            r@ == self.message(),
    {
        let m = match self {
            RespError::Incomplete => "failed to fill whole buffer",
            RespError::Int(IntErrorKind::Empty) => "cannot parse integer from empty string",
            RespError::Int(IntErrorKind::InvalidDigit) => "invalid digit found in string",
            RespError::Int(IntErrorKind::PosOverflow) => "number too large to fit in target type",
            RespError::Int(IntErrorKind::NegOverflow) => "number too small to fit in target type",
            RespError::ExpectedCrlf => "Expected \\r\\n",
            RespError::InvalidType(None) => "Invalid RESP type: end of input",
            RespError::InvalidType(Some(b)) => {
                let mut t = String::from_str("Invalid RESP type: byte ");
                append_decimal(&mut t, *b);
                return t;
            },
            RespError::InvalidUtf8 => "stream did not contain valid UTF-8",
            RespError::InvalidLength => "invalid length",
            RespError::TooDeep => "arrays nested too deep",
        };
        m.to_owned()
    }
}

} // verus!
