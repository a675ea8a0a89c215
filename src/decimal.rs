//! Decimal text of integers, as it appears in the headers of the wire format.
use vstd::prelude::*;

verus! {

/// What `i64`'s `from_str` reports when text is not an integer it can hold.
#[derive(Debug, Clone, Copy, PartialEq, Eq, Structural)]
pub enum IntErrorKind {
    Empty,
    InvalidDigit,
    PosOverflow,
    NegOverflow,
}

pub open spec fn is_digit(b: u8) -> bool {
    48 <= b <= 57
}

pub open spec fn all_digits(s: Seq<u8>) -> bool {
    forall|i: int| 0 <= i < s.len() ==> is_digit(#[trigger] s[i])
}

/// The number that a run of decimal digits denotes.
pub open spec fn digits_value(s: Seq<u8>) -> nat
    decreases s.len(),
{
    if s.len() == 0 {
        0
    } else {
        digits_value(s.drop_last()) * 10 + (s.last() - 48) as nat
    }
}

pub open spec fn is_sign(b: u8) -> bool {
    b == 45 || b == 43
}

/// Optional `-` or `+`, then at least one digit.
pub open spec fn int_syntax(s: Seq<u8>) -> bool {
    ||| s.len() > 0 && all_digits(s)
    ||| s.len() > 1 && is_sign(s[0]) && all_digits(s.drop_first())
}

pub open spec fn int_text_value(s: Seq<u8>) -> int {
    if s[0] == 45 {
        -digits_value(s.drop_first())
    } else if s[0] == 43 {
        digits_value(s.drop_first()) as int
    } else {
        digits_value(s) as int
    }
}

/// Reading text as an `i64`.
pub open spec fn parse_i64_spec(s: Seq<u8>) -> Result<i64, IntErrorKind> {
    if s.len() == 0 {
        Err(IntErrorKind::Empty)
    } else if !int_syntax(s) {
        Err(IntErrorKind::InvalidDigit)
    } else if int_text_value(s) > i64::MAX {
        Err(IntErrorKind::PosOverflow)
    } else if int_text_value(s) < i64::MIN {
        Err(IntErrorKind::NegOverflow)
    } else {
        Ok(int_text_value(s) as i64)
    }
}

/// The shortest run of digits that denotes `n`.
pub open spec fn decimal(n: nat) -> Seq<u8>
    decreases n,
{
    if n < 10 {
        seq![(48 + n) as u8]
    } else {
        decimal(n / 10).push((48 + n % 10) as u8)
    }
}

/// The text of a signed integer: a `-` for negatives, then its digits.
pub open spec fn int_text(i: int) -> Seq<u8> {
    if i < 0 {
        seq![45u8] + decimal((-i) as nat)
    } else {
        decimal(i as nat)
    }
}

pub proof fn lemma_decimal(n: nat)
    ensures
        decimal(n).len() > 0,
        all_digits(decimal(n)),
        digits_value(decimal(n)) == n,
    decreases n,
{
    if n >= 10 {
        lemma_decimal(n / 10);
        let d = decimal(n / 10).push((48 + n % 10) as u8);
        assert(d.drop_last() == decimal(n / 10));
        assert(d.last() == 48 + n % 10);
        assert(digits_value(d) == (n / 10) * 10 + n % 10);
        assert(n == (n / 10) * 10 + n % 10) by (nonlinear_arith);
    } else {
        let d = decimal(n);
        assert(d.drop_last() =~= Seq::<u8>::empty());
        assert(d.last() == 48 + n);
        assert(digits_value(d) == digits_value(d.drop_last()) * 10 + n);
    }
}

pub proof fn lemma_digits_prefix(s: Seq<u8>, j: int)
    requires
        0 <= j <= s.len(),
    ensures
        digits_value(s.subrange(0, j)) <= digits_value(s),
    decreases s.len(),
{
    if j < s.len() {
        assert(s.drop_last() == s.subrange(0, s.len() - 1));
        lemma_digits_prefix(s.drop_last(), j);
        assert(s.drop_last().subrange(0, j) == s.subrange(0, j));
        let v = digits_value(s.drop_last());
        assert(v * 10 >= v) by (nonlinear_arith);
    } else {
        assert(s.subrange(0, j) =~= s);
    }
}

/// Decimal text is read back as the integer it was written from.
pub proof fn lemma_int_text_parses(i: i64)
    ensures
        parse_i64_spec(int_text(i as int)) == Ok::<i64, IntErrorKind>(i),
{
    if i < 0 {
        let m = (-i) as nat;
        lemma_decimal(m);
        let t = int_text(i as int);
        assert(t.drop_first() == decimal(m));
        assert(int_syntax(t));
    } else {
        lemma_decimal(i as nat);
    }
}

/// Reads `s[lo..hi]` as an `i64`.
pub fn parse_i64(s: &Vec<u8>, lo: usize, hi: usize) -> (r: Result<i64, IntErrorKind>)
    requires
        lo <= hi <= s.len(),
    ensures
        r == parse_i64_spec(s@.subrange(lo as int, hi as int)),
{
    let ghost t = s@.subrange(lo as int, hi as int);
    if lo >= hi {
        return Err(IntErrorKind::Empty);
    }
    let first = s[lo];
    let neg = first == 45;
    let signed = first == 45 || first == 43;
    let start: usize = if signed {
        lo + 1
    } else {
        lo
    };
    let ghost body = s@.subrange(start as int, hi as int);
    assert(signed ==> body =~= t.drop_first());
    assert(!signed ==> body =~= t);
    if start >= hi {
        assert(!int_syntax(t));
        return Err(IntErrorKind::InvalidDigit);
    }
    let mut i: usize = start;
    while i < hi
        invariant
            lo <= start <= i <= hi <= s.len(),
            t == s@.subrange(lo as int, hi as int),
            body == s@.subrange(start as int, hi as int),
            t.len() > 0,
            signed == is_sign(t[0]),
            signed ==> body == t.drop_first(),
            !signed ==> body == t,
            forall|k: int| start <= k < i ==> is_digit(#[trigger] s@[k]),
        decreases hi - i,
    {
        let b = s[i];
        if !(48 <= b && b <= 57) {
            assert(body[i - start] == b);
            assert(!all_digits(body));
            assert(t[i - lo] == b);
            assert(!all_digits(t));
            assert(!int_syntax(t));
            return Err(IntErrorKind::InvalidDigit);
        }
        i = i + 1;
    }
    assert(all_digits(body));
    assert(int_syntax(t));
    let limit: u64 = if neg {
        9223372036854775808u64
    } else {
        9223372036854775807u64
    };
    let mut acc: u64 = 0;
    i = start;
    assert(body.subrange(0, 0) =~= Seq::<u8>::empty());
    while i < hi
        invariant
            lo <= start <= i <= hi <= s.len(),
            t == s@.subrange(lo as int, hi as int),
            t.len() > 0,
            body == s@.subrange(start as int, hi as int),
            signed ==> body == t.drop_first(),
            !signed ==> body == t,
            signed == is_sign(t[0]),
            neg == (t[0] == 45),
            limit == if neg { 9223372036854775808u64 } else { 9223372036854775807u64 },
            all_digits(body),
            acc as nat == digits_value(body.subrange(0, i - start)),
            acc <= limit,
        decreases hi - i,
    {
        assert(is_digit(body[i - start]));
        let d: u64 = (s[i] - 48) as u64;
        let next: u128 = acc as u128 * 10 + d as u128;
        let ghost pre = body.subrange(0, i + 1 - start);
        assert(pre.drop_last() =~= body.subrange(0, i - start));
        assert(digits_value(pre) == next);
        if next > limit as u128 {
            proof {
                lemma_digits_prefix(body, i + 1 - start);
            }
            if neg {
                return Err(IntErrorKind::NegOverflow);
            } else {
                return Err(IntErrorKind::PosOverflow);
            }
        }
        acc = next as u64;
        i = i + 1;
    }
    assert(body.subrange(0, hi - start) =~= body);
    if neg {
        if acc == 9223372036854775808u64 {
            Ok(i64::MIN)
        } else {
            Ok(-(acc as i64))
        }
    } else {
        Ok(acc as i64)
    }
}

/// Appends the digits of `n` to `out`.
pub fn push_decimal(out: &mut Vec<u8>, n: u64)
    ensures
        final(out)@ == old(out)@ + decimal(n as nat),
    decreases n,
{
    if n >= 10 {
        push_decimal(out, n / 10);
    }
    out.push((48 + n % 10) as u8);
    proof {
        if n >= 10 {
            assert(decimal(n as nat) == decimal((n / 10) as nat).push((48 + n % 10) as u8));
        }
    }
}

/// Appends the text of `i` to `out`.
pub fn push_int_text(out: &mut Vec<u8>, i: i64)
    ensures
        final(out)@ == old(out)@ + int_text(i as int),
{
    if i < 0 {
        out.push(45);
        let m: u64 = if i == i64::MIN {
            9223372036854775808u64
        } else {
            (-i) as u64
        };
        push_decimal(out, m);
        assert(final(out)@ =~= old(out)@ + int_text(i as int));
    } else {
        push_decimal(out, i as u64);
    }
}

} // verus!
