//! The frame encoder.
use vstd::prelude::*;

use crate::decimal::{push_decimal, push_int_text};
pub use crate::resp::RespType;
use crate::resp::{crlf, encode_seq, encode_spec, lemma_encode_seq_push, RespValue};

verus! {

/// Appends `b` to `out`.
fn push_all(out: &mut Vec<u8>, b: &[u8])
    ensures
        final(out)@ == old(out)@ + b@,
{
    let mut i: usize = 0;
    while i < b.len()
        invariant
            i <= b@.len(),
            out@ == old(out)@ + b@.subrange(0, i as int),
        decreases b@.len() - i,
    {
        out.push(b[i]);
        i = i + 1;
        assert(out@ =~= old(out)@ + b@.subrange(0, i as int));
    }
    assert(b@.subrange(0, i as int) =~= b@);
}

fn push_crlf(out: &mut Vec<u8>)
    ensures
        final(out)@ == old(out)@ + crlf(),
{
    out.push(13);
    out.push(10);
    assert(out@ =~= old(out)@ + crlf());
}

/// Appends the canonical bytes of `v` to `out`.
pub fn encode_into(out: &mut Vec<u8>, v: &RespType)
    ensures
        final(out)@ == old(out)@ + encode_spec(v@),
    decreases v,
{
    match v {
        RespType::SimpleString(t) => {
            out.push(43);
            push_all(out, t.as_str().as_bytes());
            push_crlf(out);
        },
        RespType::Error(t) => {
            out.push(45);
            push_all(out, t.as_str().as_bytes());
            push_crlf(out);
        },
        RespType::Integer(i) => {
            out.push(58);
            push_int_text(out, *i);
            push_crlf(out);
        },
        RespType::BulkString(b) => {
            out.push(36);
            push_decimal(out, b.len() as u64);
            push_crlf(out);
            push_all(out, b.as_slice());
            push_crlf(out);
        },
        RespType::Array(a) => {
            out.push(42);
            push_decimal(out, a.len() as u64);
            push_crlf(out);
            let ghost head = out@;
            let ghost es = v@->Array_0;
            let mut i: usize = 0;
            assert(es.subrange(0, 0) =~= Seq::<RespValue>::empty());
            assert(decreases_to!(*v => v->Array_0));
            while i < a.len()
                invariant
                    i <= a.len(),
                    decreases_to!(*v => *a),
                    es.len() == a.len(),
                    forall|j: int| 0 <= j < a.len() ==> es[j] == (#[trigger] a@[j])@,
                    out@ == head + encode_seq(es.subrange(0, i as int)),
                decreases a.len() - i,
            {
                proof {
                    assert(decreases_to!(*a => a[i as int]));
                    assert(decreases_to!(*v => a[i as int]));
                }
                encode_into(out, &a[i]);
                proof {
                    lemma_encode_seq_push(es.subrange(0, i as int), es[i as int]);
                    assert(es.subrange(0, i as int).push(es[i as int]) =~= es.subrange(0, i + 1));
                }
                i = i + 1;
            }
            assert(es.subrange(0, i as int) =~= es);
        },
        RespType::Null => {
            out.push(36);
            out.push(45);
            out.push(49);
            push_crlf(out);
        },
    }
    assert(final(out)@ =~= old(out)@ + encode_spec(v@));
}

/// Writes frames one after another into a byte buffer.
pub struct RespSerializer {
    out: Vec<u8>,
}

impl RespSerializer {
    /// Everything written so far, after what the buffer held at the start.
    pub closed spec fn written(&self) -> Seq<u8> {
        self.out@
    }

    pub fn new(out: Vec<u8>) -> (r: RespSerializer)
        ensures
            r.written() == out@,
    {
        RespSerializer { out }
    }

    /// Writes the canonical bytes of `resp`.
    pub fn serialize(&mut self, resp: &RespType)
        ensures
            final(self).written() == old(self).written() + encode_spec(resp@),
    {
        encode_into(&mut self.out, resp);
    }

    /// The bytes written so far.
    pub fn bytes(&self) -> (r: &Vec<u8>)
        ensures
            r@ == self.written(),
    {
        &self.out
    }

    pub fn into_bytes(self) -> (r: Vec<u8>)
        ensures
            r@ == self.written(),
    {
        self.out
    }
}

/// The canonical bytes of `v`.
pub fn encode(v: &RespType) -> (r: Vec<u8>)
    ensures
        r@ == encode_spec(v@),
{
    let mut out: Vec<u8> = Vec::new();
    encode_into(&mut out, v);
    assert(out@ =~= encode_spec(v@));
    out
}

} // verus!
