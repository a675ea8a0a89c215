//! The frame decoder.
use vstd::prelude::*;
use vstd::utf8::{decode_utf8, valid_utf8};

use crate::decimal::{parse_i64, parse_i64_spec};
use crate::resp::{copy_range, string_from_utf8, RespError, RespType, RespValue, MAX_NESTING};

verus! {

pub open spec fn crlf_at(s: Seq<u8>, i: int) -> bool {
    0 <= i && i + 1 < s.len() && s[i] == 13 && s[i + 1] == 10
}

/// Where the first CR LF at or after `from` starts.
pub open spec fn find_crlf(s: Seq<u8>, from: int) -> Option<int>
    decreases s.len() - from,
{
    if from < 0 || from + 1 >= s.len() {
        None
    } else if crlf_at(s, from) {
        Some(from)
    } else {
        find_crlf(s, from + 1)
    }
}

/// The bytes that start a frame: `+ - : $ *`.
pub open spec fn is_tag(b: u8) -> bool {
    b == 43 || b == 45 || b == 58 || b == 36 || b == 42
}

/// The value that starts at `pos`, and where the bytes after it start; arrays
/// may nest `depth` deep.
pub open spec fn decode_spec(s: Seq<u8>, pos: int, depth: nat) -> Result<
    (RespValue, int),
    RespError,
>
    decreases depth, 0nat,
{
    if pos < 0 || pos >= s.len() {
        Err(RespError::InvalidType(None))
    } else if !is_tag(s[pos]) {
        Err(RespError::InvalidType(Some(s[pos])))
    } else {
        match find_crlf(s, pos) {
            None => Err(RespError::Incomplete),
            Some(e) => {
                let tag = s[pos];
                let rest = s.subrange(pos, e).drop_first();
                let after = e + 2;
                if tag == 43 || tag == 45 {
                    if !valid_utf8(rest) {
                        Err(RespError::InvalidUtf8)
                    } else if tag == 43 {
                        Ok((RespValue::SimpleString(decode_utf8(rest)), after))
                    } else {
                        Ok((RespValue::Error(decode_utf8(rest)), after))
                    }
                } else if tag == 58 {
                    match parse_i64_spec(rest) {
                        Ok(i) => Ok((RespValue::Integer(i as int), after)),
                        Err(k) => Err(RespError::Int(k)),
                    }
                } else if tag == 36 {
                    match parse_i64_spec(rest) {
                        Err(k) => Err(RespError::Int(k)),
                        Ok(n) => {
                            if n == -1 {
                                Ok((RespValue::Null, after))
                            } else if n < 0 {
                                Err(RespError::InvalidLength)
                            } else if after + n + 2 > s.len() {
                                Err(RespError::Incomplete)
                            } else if !crlf_at(s, after + n) {
                                Err(RespError::ExpectedCrlf)
                            } else {
                                Ok((RespValue::BulkString(s.subrange(after, after + n)), after + n + 2))
                            }
                        },
                    }
                } else {
                    match parse_i64_spec(rest) {
                        Err(k) => Err(RespError::Int(k)),
                        Ok(n) => {
                            if n < 0 {
                                Ok((RespValue::Null, after))
                            } else if depth == 0 {
                                Err(RespError::TooDeep)
                            } else {
                                as_array(decode_elems(s, after, n as nat, (depth - 1) as nat))
                            }
                        },
                    }
                }
            },
        }
    }
}

/// `n` values one after the other, starting at `pos`.
pub open spec fn decode_elems(s: Seq<u8>, pos: int, n: nat, depth: nat) -> Result<
    (Seq<RespValue>, int),
    RespError,
>
    decreases depth, n + 1,
{
    if n == 0 {
        Ok((Seq::empty(), pos))
    } else {
        match decode_spec(s, pos, depth) {
            Err(x) => Err(x),
            Ok((v, p)) => match decode_elems(s, p, (n - 1) as nat, depth) {
                Err(x) => Err(x),
                Ok((vs, e)) => Ok((seq![v] + vs, e)),
            },
        }
    }
}

pub open spec fn as_array(r: Result<(Seq<RespValue>, int), RespError>) -> Result<(RespValue, int), RespError> {
    match r {
        Ok((vs, end)) => Ok((RespValue::Array(vs), end)),
        Err(x) => Err(x),
    }
}

pub open spec fn prepend(pre: Seq<RespValue>, r: Result<(Seq<RespValue>, int), RespError>) -> Result<
    (Seq<RespValue>, int),
    RespError,
> {
    match r {
        Ok((vs, e)) => Ok((pre + vs, e)),
        Err(x) => Err(x),
    }
}

/// `r` is the executable form of the outcome `d`.
pub open spec fn decoded_as(r: Result<(RespType, usize), RespError>, d: Result<(RespValue, int), RespError>) -> bool {
    match d {
        Ok((v, e)) => r matches Ok(p) && p.0@ == v && p.1 == e,
        Err(x) => r == Err::<(RespType, usize), RespError>(x),
    }
}

fn find_crlf_exec(s: &Vec<u8>, from: usize) -> (r: Option<usize>)
    requires
        from <= s.len(),
    ensures
        r matches Some(e) ==> find_crlf(s@, from as int) == Some(e as int) && from <= e && e + 1 < s.len()
            && s@[e as int] == 13,
        r is None ==> find_crlf(s@, from as int) is None,
{
    let mut i: usize = from;
    while s.len() - i > 1
        invariant
            from <= i <= s.len(),
            find_crlf(s@, from as int) == find_crlf(s@, i as int),
        decreases s.len() - i,
    {
        if s[i] == 13 && s[i + 1] == 10 {
            return Some(i);
        }
        i = i + 1;
    }
    None
}

/// Decodes the value that starts at `pos`.
pub fn decode_value(s: &Vec<u8>, pos: usize, depth: usize) -> (r: Result<
    (RespType, usize),
    RespError,
>)
    requires
        pos <= s.len(),
    ensures
        decoded_as(r, decode_spec(s@, pos as int, depth as nat)),
        r matches Ok(p) ==> p.1 <= s.len(),
    decreases depth,
{
    if pos >= s.len() {
        return Err(RespError::InvalidType(None));
    }
    let tag = s[pos];
    if !(tag == 43 || tag == 45 || tag == 58 || tag == 36 || tag == 42) {
        return Err(RespError::InvalidType(Some(tag)));
    }
    let e = match find_crlf_exec(s, pos) {
        None => return Err(RespError::Incomplete),
        Some(e) => e,
    };
    let after = e + 2;
    assert(e > pos);
    let ghost rest = s@.subrange(pos as int, e as int).drop_first();
    assert(rest =~= s@.subrange(pos + 1, e as int));
    if tag == 43 || tag == 45 {
        let bytes = copy_range(s, pos + 1, e);
        match string_from_utf8(bytes) {
            None => Err(RespError::InvalidUtf8),
            Some(t) => {
                if tag == 43 {
                    Ok((RespType::SimpleString(t), after))
                } else {
                    Ok((RespType::Error(t), after))
                }
            },
        }
    } else if tag == 58 {
        match parse_i64(s, pos + 1, e) {
            Ok(i) => Ok((RespType::Integer(i), after)),
            Err(k) => Err(RespError::Int(k)),
        }
    } else if tag == 36 {
        match parse_i64(s, pos + 1, e) {
            Err(k) => Err(RespError::Int(k)),
            Ok(n) => {
                if n == -1 {
                    Ok((RespType::Null, after))
                } else if n < 0 {
                    Err(RespError::InvalidLength)
                } else if n as u64 > (s.len() - after) as u64 || s.len() - after - (n as usize) < 2 {
                    Err(RespError::Incomplete)
                } else {
                    let end = after + n as usize;
                    if !(s[end] == 13 && s[end + 1] == 10) {
                        Err(RespError::ExpectedCrlf)
                    } else {
                        Ok((RespType::BulkString(copy_range(s, after, end)), end + 2))
                    }
                }
            },
        }
    } else {
        match parse_i64(s, pos + 1, e) {
            Err(k) => Err(RespError::Int(k)),
            Ok(n) => {
                if n < 0 {
                    Ok((RespType::Null, after))
                } else if depth == 0 {
                    Err(RespError::TooDeep)
                } else {
                    let ghost d = (depth - 1) as nat;
                    let mut arr: Vec<RespType> = Vec::new();
                    let ghost mut pre: Seq<RespValue> = Seq::empty();
                    let mut p: usize = after;
                    let mut k: u64 = 0;
                    assert(decode_spec(s@, pos as int, depth as nat) == as_array(
                        decode_elems(s@, after as int, n as nat, d),
                    ));
                    while k < n as u64
                        invariant
                            p <= s.len(),
                            depth > 0,
                            decode_spec(s@, pos as int, depth as nat) == as_array(
                                decode_elems(s@, after as int, n as nat, d),
                            ),
                            d == depth - 1,
                            0 <= k <= n,
                            arr.len() == pre.len(),
                            forall|j: int| 0 <= j < arr.len() ==> (#[trigger] arr@[j])@ == pre[j],
                            decode_elems(s@, after as int, n as nat, d) == prepend(
                                pre,
                                decode_elems(s@, p as int, (n - k) as nat, d),
                            ),
                        decreases n - k,
                    {
                        let ghost m = (n - k) as nat;
                        match decode_value(s, p, depth - 1) {
                            Err(x) => {
                                assert(decode_elems(s@, p as int, m, d) == Err::<
                                    (Seq<RespValue>, int),
                                    RespError,
                                >(x));
                                assert(decode_elems(s@, after as int, n as nat, d) == Err::<
                                    (Seq<RespValue>, int),
                                    RespError,
                                >(x));
                                return Err(x);
                            },
                            Ok((v, p2)) => {
                                proof {
                                    let rest_r = decode_elems(s@, p2 as int, (m - 1) as nat, d);
                                    match rest_r {
                                        Ok((vs, e2)) => {
                                            assert(pre + (seq![v@] + vs) =~= pre.push(v@) + vs);
                                        },
                                        Err(_) => {},
                                    }
                                    pre = pre.push(v@);
                                }
                                arr.push(v);
                                p = p2;
                                k = k + 1;
                            },
                        }
                    }
                    assert(pre + Seq::<RespValue>::empty() =~= pre);
                    let r = RespType::Array(arr);
                    proof {
                        let es = r@->Array_0;
                        assert(es =~= pre);
                    }
                    Ok((r, p))
                }
            },
        }
    }
}

/// Reads frames one after another from a byte buffer.
pub struct RespDeserializer {
    input: Vec<u8>,
    pos: usize,
}

impl RespDeserializer {
    #[verifier::type_invariant]
    spec fn inv(&self) -> bool {
        self.pos <= self.input.len()
    }

    /// The bytes being read.
    pub closed spec fn input(&self) -> Seq<u8> {
        self.input@
    }

    /// Where the next frame starts.
    pub closed spec fn position(&self) -> int {
        self.pos as int
    }

    pub fn new(input: Vec<u8>) -> (r: RespDeserializer)
        ensures
            r.input() == input@,
            r.position() == 0,
    {
        RespDeserializer { input, pos: 0 }
    }

    /// Reads the frame at the current position and moves past it. A negative
    /// array count reads as the null value. On failure the position stays.
    pub fn deserialize(&mut self) -> (r: Result<RespType, RespError>)
        ensures
            final(self).input() == old(self).input(),
            match decode_spec(old(self).input(), old(self).position(), MAX_NESTING as nat) {
                Ok((v, e)) => r matches Ok(t) && t@ == v && final(self).position() == e,
                Err(x) => r == Err::<RespType, RespError>(x) && final(self).position() == old(self).position(),
            },
    {
        proof {
            use_type_invariant(&*self);
        }
        match decode_value(&self.input, self.pos, MAX_NESTING) {
            Ok((v, e)) => {
                self.pos = e;
                Ok(v)
            },
            Err(x) => Err(x),
        }
    }
}

} // verus!
