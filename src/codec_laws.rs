//! What the decoder makes of the encoder's output.
use vstd::prelude::*;
use vstd::utf8::{encode_utf8, encode_utf8_decode_utf8, encode_utf8_valid_utf8};

use crate::decimal::{all_digits, decimal, int_text, lemma_decimal, lemma_int_text_parses, parse_i64_spec, IntErrorKind};
use crate::resp::resp_deserializer::{crlf_at, decode_elems, decode_spec, find_crlf};
use crate::resp::{crlf, encode_seq, encode_spec, RespType, RespValue, MAX_NESTING};

verus! {

pub open spec fn has_crlf(b: Seq<u8>) -> bool {
    exists|i: int| crlf_at(b, i)
}

/// A value that the wire format can carry back unchanged: its text holds no
/// CR LF pair, its lengths fit the headers, and its arrays nest at most
/// `depth` deep.
pub open spec fn value_ok(v: RespValue, depth: nat) -> bool
    decreases v,
{
    match v {
        RespValue::SimpleString(t) => !has_crlf(encode_utf8(t)),
        RespValue::Error(t) => !has_crlf(encode_utf8(t)),
        RespValue::Integer(i) => i64::MIN <= i <= i64::MAX,
        RespValue::BulkString(b) => b.len() <= i64::MAX,
        RespValue::Array(a) => depth > 0 && a.len() <= i64::MAX && forall|j: int|
            0 <= j < a.len() ==> value_ok(#[trigger] a[j], (depth - 1) as nat),
        RespValue::Null => true,
    }
}

/// `t` stands in `s` from `p` on.
pub open spec fn bytes_at(s: Seq<u8>, p: int, t: Seq<u8>) -> bool {
    0 <= p && p + t.len() <= s.len() && forall|i: int| 0 <= i < t.len() ==> s[p + i] == #[trigger] t[i]
}

proof fn lemma_bytes_at_split(s: Seq<u8>, p: int, a: Seq<u8>, b: Seq<u8>)
    requires
        bytes_at(s, p, a + b),
    ensures
        bytes_at(s, p, a),
        bytes_at(s, p + a.len(), b),
{
    assert forall|i: int| 0 <= i < a.len() implies s[p + i] == #[trigger] a[i] by {
        assert((a + b)[i] == a[i]);
    }
    assert forall|i: int| 0 <= i < b.len() implies s[p + a.len() + i] == #[trigger] b[i] by {
        assert((a + b)[a.len() + i] == b[i]);
    }
}

proof fn lemma_find_crlf_first(s: Seq<u8>, from: int, e: int)
    requires
        0 <= from <= e,
        crlf_at(s, e),
        forall|i: int| from <= i < e ==> !crlf_at(s, i),
    ensures
        find_crlf(s, from) == Some(e),
    decreases e - from,
{
    if from < e {
        lemma_find_crlf_first(s, from + 1, e);
    }
}

/// A header line: a tag, a body without CR LF, and CR LF.
proof fn lemma_line(s: Seq<u8>, pos: int, tag: u8, body: Seq<u8>)
    requires
        tag != 13,
        !has_crlf(body),
        bytes_at(s, pos, seq![tag] + body + crlf()),
    ensures
        find_crlf(s, pos) == Some(pos + 1 + body.len()),
        s.subrange(pos, pos + 1 + body.len()).len() > 0,
        s.subrange(pos, pos + 1 + body.len())[0] == tag,
        s.subrange(pos, pos + 1 + body.len()).drop_first() == body,
{
    let line = seq![tag] + body + crlf();
    let e = pos + 1 + body.len();
    assert(line[0] == tag);
    assert(s[pos] == tag);
    assert(line[1 + body.len() as int] == 13);
    assert(line[2 + body.len() as int] == 10);
    assert(s[e] == 13);
    assert(s[e + 1] == 10);
    assert forall|i: int| pos <= i < e implies !crlf_at(s, i) by {
        if i > pos {
            let k = i - pos - 1;
            assert(s[i] == line[1 + k]);
            assert(line[1 + k] == body[k]);
            if k + 1 < body.len() {
                assert(s[i + 1] == line[2 + k]);
                assert(line[2 + k] == body[k + 1]);
                if crlf_at(s, i) {
                    assert(crlf_at(body, k));
                }
            } else {
                assert(s[i + 1] == 13);
            }
        }
    }
    lemma_find_crlf_first(s, pos, e);
    assert forall|i: int| 0 <= i < body.len() implies s.subrange(pos, e).drop_first()[i] == body[i] by {
        assert(s[pos + 1 + i] == line[1 + i]);
    }
    assert(s.subrange(pos, e).drop_first() =~= body);
}

proof fn lemma_digits_no_crlf(d: Seq<u8>)
    requires
        all_digits(d),
    ensures
        !has_crlf(d),
{
    assert forall|i: int| !crlf_at(d, i) by {
        if 0 <= i < d.len() {
            assert(crate::decimal::is_digit(d[i]));
        }
    }
}

proof fn lemma_decimal_parses(n: nat)
    requires
        n <= i64::MAX,
    ensures
        parse_i64_spec(decimal(n)) == Ok::<i64, IntErrorKind>(n as i64),
        !has_crlf(decimal(n)),
        decimal(n).len() > 0,
        decimal(n)[0] != 45,
{
    lemma_int_text_parses(n as i64);
    lemma_decimal(n);
    lemma_digits_no_crlf(decimal(n));
    assert(crate::decimal::is_digit(decimal(n)[0]));
}

/// Decoding the bytes of a carriable value, wherever they stand, gives the
/// value back and ends right after them.
pub proof fn lemma_decode_encoded(s: Seq<u8>, pos: int, v: RespValue, depth: nat)
    requires
        value_ok(v, depth),
        bytes_at(s, pos, encode_spec(v)),
    ensures
        decode_spec(s, pos, depth) == Ok::<(RespValue, int), crate::resp::RespError>(
            (v, pos + encode_spec(v).len()),
        ),
    decreases v,
{
    broadcast use encode_utf8_valid_utf8, encode_utf8_decode_utf8;

    match v {
        RespValue::SimpleString(t) => {
            lemma_line(s, pos, 43u8, encode_utf8(t));
        },
        RespValue::Error(t) => {
            lemma_line(s, pos, 45u8, encode_utf8(t));
        },
        RespValue::Integer(i) => {
            let it = int_text(i);
            lemma_int_text_parses(i as i64);
            lemma_decimal(if i < 0 { (-i) as nat } else { i as nat });
            assert forall|k: int| !crlf_at(it, k) by {
                if 0 <= k < it.len() && i < 0 && k > 0 {
                    assert(it[k] == decimal((-i) as nat)[k - 1]);
                    assert(crate::decimal::is_digit(decimal((-i) as nat)[k - 1]));
                }
                if 0 <= k < it.len() && i >= 0 {
                    assert(crate::decimal::is_digit(decimal(i as nat)[k]));
                }
            }
            lemma_line(s, pos, 58u8, it);
        },
        RespValue::BulkString(b) => {
            let d = decimal(b.len());
            lemma_decimal_parses(b.len());
            let head = seq![36u8] + d + crlf();
            assert(encode_spec(v) =~= head + (b + crlf()));
            lemma_bytes_at_split(s, pos, head, b + crlf());
            lemma_line(s, pos, 36u8, d);
            let after = pos + head.len();
            lemma_bytes_at_split(s, after, b, crlf());
            assert(crlf()[0] == 13 && crlf()[1] == 10);
            assert(s[after + b.len() + 0] == 13);
            assert(s[after + b.len() + 1] == 10);
            assert(s.subrange(after, after + b.len()) =~= b);
        },
        RespValue::Array(a) => {
            let d = decimal(a.len());
            lemma_decimal_parses(a.len());
            let head = seq![42u8] + d + crlf();
            assert(encode_spec(v) =~= head + encode_seq(a));
            lemma_bytes_at_split(s, pos, head, encode_seq(a));
            lemma_line(s, pos, 42u8, d);
            lemma_decode_encoded_seq(s, pos + head.len(), a, (depth - 1) as nat);
        },
        RespValue::Null => {
            let body = seq![45u8, 49u8];
            assert(encode_spec(v) =~= seq![36u8] + body + crlf());
            assert(!crlf_at(body, 0) && !crlf_at(body, 1));
            lemma_line(s, pos, 36u8, body);
            assert(body.drop_first() =~= seq![49u8]);
            let one = seq![49u8];
            assert(one.drop_last() =~= Seq::<u8>::empty());
            assert(one.last() == 49);
            assert(crate::decimal::digits_value(one.drop_last()) == 0);
            assert(crate::decimal::digits_value(one) == 1);
            assert(parse_i64_spec(body) == Ok::<i64, IntErrorKind>(-1i64));
        },
    }
}

/// Decoding the bytes of several carriable values gives them back in order.
pub proof fn lemma_decode_encoded_seq(s: Seq<u8>, pos: int, a: Seq<RespValue>, depth: nat)
    requires
        forall|j: int| 0 <= j < a.len() ==> value_ok(#[trigger] a[j], depth),
        bytes_at(s, pos, encode_seq(a)),
    ensures
        decode_elems(s, pos, a.len(), depth) == Ok::<(Seq<RespValue>, int), crate::resp::RespError>(
            (a, pos + encode_seq(a).len()),
        ),
    decreases a,
{
    if a.len() == 0 {
        assert(a =~= Seq::<RespValue>::empty());
    } else {
        let tail = a.subrange(1, a.len() as int);
        lemma_bytes_at_split(s, pos, encode_spec(a[0]), encode_seq(tail));
        lemma_decode_encoded(s, pos, a[0], depth);
        let p = pos + encode_spec(a[0]).len();
        assert forall|j: int| 0 <= j < tail.len() implies value_ok(#[trigger] tail[j], depth) by {
            assert(tail[j] == a[j + 1]);
        }
        lemma_decode_encoded_seq(s, p, tail, depth);
        assert(seq![a[0]] + tail =~= a);
        assert((a.len() - 1) as nat == tail.len());
    }
}

/// Every value whose text holds no CR LF pair and whose arrays nest no
/// deeper than the decoder allows decodes from its own encoding to itself,
/// using up all of it.
pub proof fn lemma_round_trip(v: &RespType)
    requires
        value_ok(v@, MAX_NESTING as nat),
    ensures
        decode_spec(encode_spec(v@), 0, MAX_NESTING as nat) == Ok::<
            (RespValue, int),
            crate::resp::RespError,
        >((v@, encode_spec(v@).len() as int)),
{
    lemma_decode_encoded(encode_spec(v@), 0, v@, MAX_NESTING as nat);
}

/// `a` is an initial part of `b`.
pub open spec fn is_prefix(a: Seq<u8>, b: Seq<u8>) -> bool {
    a.len() <= b.len() && forall|i: int| 0 <= i < a.len() ==> a[i] == #[trigger] b[i]
}

proof fn lemma_find_crlf_extend(a: Seq<u8>, b: Seq<u8>, from: int)
    requires
        is_prefix(a, b),
        find_crlf(a, from) is Some,
    ensures
        find_crlf(b, from) == find_crlf(a, from),
        from <= find_crlf(a, from)->0,
        crlf_at(a, find_crlf(a, from)->0),
    decreases a.len() - from,
{
    if !crlf_at(a, from) {
        lemma_find_crlf_extend(a, b, from + 1);
    }
}

/// Bytes after a frame do not change how it reads.
proof fn lemma_decode_extend(a: Seq<u8>, b: Seq<u8>, pos: int, depth: nat)
    requires
        is_prefix(a, b),
        decode_spec(a, pos, depth) is Ok,
    ensures
        decode_spec(b, pos, depth) == decode_spec(a, pos, depth),
        decode_spec(a, pos, depth)->Ok_0.1 <= a.len(),
    decreases depth, 0nat,
{
    assert(b[pos] == a[pos]);
    lemma_find_crlf_extend(a, b, pos);
    let e = find_crlf(a, pos)->0;
    assert(a.subrange(pos, e) =~= b.subrange(pos, e));
    let tag = a[pos];
    if tag == 36 {
        let after = e + 2;
        let rest = a.subrange(pos, e).drop_first();
        if parse_i64_spec(rest) is Ok {
            let n = parse_i64_spec(rest)->Ok_0;
            if n >= 0 {
                assert(a.subrange(after, after + n) =~= b.subrange(after, after + n));
                assert(a[after + n] == b[after + n] && a[after + n + 1] == b[after + n + 1]);
            }
        }
    } else if tag == 42 {
        let rest = a.subrange(pos, e).drop_first();
        let n = parse_i64_spec(rest)->Ok_0;
        if n >= 0 {
            lemma_elems_extend(a, b, e + 2, n as nat, (depth - 1) as nat);
        }
    }
}

proof fn lemma_elems_extend(a: Seq<u8>, b: Seq<u8>, pos: int, n: nat, depth: nat)
    requires
        is_prefix(a, b),
        0 <= pos <= a.len(),
        decode_elems(a, pos, n, depth) is Ok,
    ensures
        decode_elems(b, pos, n, depth) == decode_elems(a, pos, n, depth),
        decode_elems(a, pos, n, depth)->Ok_0.1 <= a.len(),
    decreases depth, n + 1,
{
    if n > 0 {
        lemma_decode_extend(a, b, pos, depth);
        let p = decode_spec(a, pos, depth)->Ok_0.1;
        assert(p >= 0) by {
            lemma_decode_ends_after(a, pos, depth);
        }
        lemma_elems_extend(a, b, p, (n - 1) as nat, depth);
    }
}

proof fn lemma_decode_ends_after(a: Seq<u8>, pos: int, depth: nat)
    requires
        decode_spec(a, pos, depth) is Ok,
    ensures
        decode_spec(a, pos, depth)->Ok_0.1 > pos,
    decreases depth, 0nat,
{
    lemma_find_crlf_extend(a, a, pos);
    let e = find_crlf(a, pos)->0;
    if a[pos] == 42 {
        let n = parse_i64_spec(a.subrange(pos, e).drop_first())->Ok_0;
        if n >= 0 {
            lemma_elems_ends_after(a, e + 2, n as nat, (depth - 1) as nat);
        }
    }
}

proof fn lemma_elems_ends_after(a: Seq<u8>, pos: int, n: nat, depth: nat)
    requires
        decode_elems(a, pos, n, depth) is Ok,
    ensures
        decode_elems(a, pos, n, depth)->Ok_0.1 >= pos,
    decreases depth, n + 1,
{
    if n > 0 {
        lemma_decode_ends_after(a, pos, depth);
        let p = decode_spec(a, pos, depth)->Ok_0.1;
        lemma_elems_ends_after(a, p, (n - 1) as nat, depth);
    }
}

/// The bytes of a carriable value, cut short anywhere, fail to decode.
pub proof fn law_truncated_frame_fails(v: &RespType, cut: int)
    requires
        value_ok(v@, MAX_NESTING as nat),
        0 <= cut < encode_spec(v@).len(),
    ensures
        decode_spec(encode_spec(v@).subrange(0, cut), 0, MAX_NESTING as nat) is Err,
{
    let full = encode_spec(v@);
    let part = full.subrange(0, cut);
    if decode_spec(part, 0, MAX_NESTING as nat) is Ok {
        lemma_decode_extend(part, full, 0, MAX_NESTING as nat);
        lemma_round_trip(v);
    }
}

} // verus!
