//! Decimal text for unsigned integers: the canonical digits of a value,
//! and parsing in the shape std's unsigned parsers accept (an optional
//! leading `+`, then one or more digits, no overflow).
//!
//! All texts are byte sequences; the digits are ASCII.

use vstd::prelude::*;
use crate::error::StreamError;

verus! {

/// ASCII `+`.
pub const PLUS: u8 = 43;

/// Whether `b` is an ASCII decimal digit.
pub open spec fn is_dec_digit(b: u8) -> bool {
    48 <= b <= 57
}

/// The value of one ASCII digit.
pub open spec fn digit_val(b: u8) -> nat {
    (b - 48) as nat
}

/// Whether every byte of `s` is an ASCII decimal digit.
pub open spec fn all_dec_digits(s: Seq<u8>) -> bool {
    forall|i: int| 0 <= i < s.len() ==> is_dec_digit(#[trigger] s[i])
}

/// The value of a digit string, most significant digit first.
pub open spec fn dec_val(s: Seq<u8>) -> nat
    decreases s.len(),
{
    if s.len() == 0 {
        0
    } else {
        dec_val(s.drop_last()) * 10 + digit_val(s.last())
    }
}

/// The canonical decimal digits of `n`, most significant first,
/// without leading zeros (except for `0` itself).
pub open spec fn dec_rep(n: nat) -> Seq<u8>
    decreases n,
{
    if n < 10 {
        seq![(48 + n) as u8]
    } else {
        dec_rep(n / 10) + seq![(48 + n % 10) as u8]
    }
}

/// The digits of an unsigned-integer text: what follows an optional
/// leading `+`.
pub open spec fn uint_body(s: Seq<u8>) -> Seq<u8> {
    if s.len() > 0 && s[0] == PLUS {
        s.drop_first()
    } else {
        s
    }
}

/// Whether `s` is a text std's unsigned parsers accept for a value of at
/// most `max`: an optional `+`, then one or more digits, value in range.
pub open spec fn parses_as_uint(s: Seq<u8>, max: nat) -> bool {
    uint_body(s).len() > 0 && all_dec_digits(uint_body(s)) && dec_val(uint_body(s)) <= max
}

/// The value of a digit string grows, digit by digit, from any prefix.
pub proof fn lemma_dec_val_take_step(s: Seq<u8>, i: int)
    requires
        0 <= i < s.len(),
    ensures
        dec_val(s.take(i + 1)) == dec_val(s.take(i)) * 10 + digit_val(s[i]),
{
    assert(s.take(i + 1).drop_last() =~= s.take(i));
    assert(s.take(i + 1).last() == s[i]);
}

/// The value of the whole digit string is at least the value of any prefix.
pub proof fn lemma_dec_val_prefix_le(s: Seq<u8>, i: int)
    requires
        0 <= i <= s.len(),
    ensures
        dec_val(s) >= dec_val(s.take(i)),
    decreases s.len() - i,
{
    if i == s.len() {
        assert(s.take(i) =~= s);
    } else {
        lemma_dec_val_take_step(s, i);
        lemma_dec_val_prefix_le(s, i + 1);
    }
}

/// The canonical digits of `n` are digits, start with no `+`, and read
/// back to `n`.
pub proof fn lemma_dec_rep_value(n: nat)
    ensures
        all_dec_digits(dec_rep(n)),
        dec_rep(n).len() >= 1,
        dec_val(dec_rep(n)) == n,
    decreases n,
{
    if n < 10 {
        let s = dec_rep(n);
        assert(s =~= seq![(48 + n) as u8]);
        assert(s.drop_last() =~= Seq::<u8>::empty());
        assert(dec_val(Seq::<u8>::empty()) == 0);
        assert(s.last() == (48 + n) as u8);
        assert(dec_val(s) == 0 * 10 + digit_val((48 + n) as u8));
        assert(digit_val((48 + n) as u8) == n);
    } else {
        lemma_dec_rep_value(n / 10);
        let s = dec_rep(n);
        assert(s.drop_last() =~= dec_rep(n / 10));
        assert(s.last() == (48 + n % 10) as u8);
        assert(dec_val(s) == (n / 10) * 10 + n % 10);
        assert((n / 10) * 10 + n % 10 == n) by (nonlinear_arith);
        assert forall|i: int| 0 <= i < s.len() implies is_dec_digit(#[trigger] s[i]) by {
            if i < s.len() - 1 {
                assert(s[i] == dec_rep(n / 10)[i]);
            }
        }
    }
}

/// Parses an unsigned 64-bit integer from decimal text, exactly as
/// std's `u64` parser accepts it.
pub fn parse_u64_dec(s: &[u8]) -> (r: Result<u64, StreamError>)
    ensures
        match r {
            Ok(n) => parses_as_uint(s@, u64::MAX as nat) && n == dec_val(uint_body(s@)),
            Err(e) => !parses_as_uint(s@, u64::MAX as nat) && e == StreamError::NumericParseError,
        },
{
    let len = s.len();
    let start: usize = if len > 0 && s[0] == PLUS {
        1
    } else {
        0
    };
    let ghost body = uint_body(s@);
    proof {
        assert(body =~= s@.subrange(start as int, len as int));
    }
    if start >= len {
        return Err(StreamError::NumericParseError);
    }
    let mut acc: u64 = 0;
    let mut i: usize = start;
    while i < len
        invariant
            start <= i <= len,
            len == s@.len(),
            body == s@.subrange(start as int, len as int),
            body == uint_body(s@),
            all_dec_digits(body.take(i - start)),
            acc == dec_val(body.take(i - start)),
        decreases len - i,
    {
        let b = s[i];
        let ghost k = i - start;
        proof {
            assert(body[k] == s@[i as int]);
        }
        if b < 48 || b > 57 {
            proof {
                assert(!is_dec_digit(body[k]));
            }
            return Err(StreamError::NumericParseError);
        }
        let d = (b - 48) as u64;
        if acc > (u64::MAX - d) / 10 {
            proof {
                let m = u64::MAX as int;
                assert((acc as int) * 10 + d > m) by (nonlinear_arith)
                    requires
                        acc as int > (m - d) / 10,
                        0 <= d <= 9,
                        m == 0xffff_ffff_ffff_ffffu64 as int,
                ;
                lemma_dec_val_take_step(body, k);
                lemma_dec_val_prefix_le(body, k + 1);
                assert(dec_val(body) > u64::MAX as nat);
            }
            return Err(StreamError::NumericParseError);
        }
        proof {
            let m = u64::MAX as int;
            assert((acc as int) * 10 + d <= m) by (nonlinear_arith)
                requires
                    acc as int <= (m - d) / 10,
                    0 <= d <= 9,
                    m == 0xffff_ffff_ffff_ffffu64 as int,
            ;
            lemma_dec_val_take_step(body, k);
            assert(body.take(k + 1).drop_last() =~= body.take(k));
        }
        acc = acc * 10 + d;
        i = i + 1;
        proof {
            assert(all_dec_digits(body.take(i - start))) by {
                assert(forall|j: int| 0 <= j < i - start ==> body.take(i - start)[j] == body[j]);
            }
        }
    }
    proof {
        assert(body.take(len - start) =~= body);
    }
    Ok(acc)
}

/// Parses an unsigned 16-bit integer from decimal text, exactly as
/// std's `u16` parser accepts it.
pub fn parse_u16_dec(s: &[u8]) -> (r: Result<u16, StreamError>)
    ensures
        match r {
            Ok(n) => parses_as_uint(s@, u16::MAX as nat) && n == dec_val(uint_body(s@)),
            Err(e) => !parses_as_uint(s@, u16::MAX as nat) && e == StreamError::NumericParseError,
        },
{
    match parse_u64_dec(s) {
        Ok(n) => {
            if n > 0xffff {
                Err(StreamError::NumericParseError)
            } else {
                Ok(n as u16)
            }
        },
        Err(e) => Err(e),
    }
}

/// Parses an unsigned 8-bit integer from decimal text, exactly as
/// std's `u8` parser accepts it.
pub fn parse_u8_dec(s: &[u8]) -> (r: Result<u8, StreamError>)
    ensures
        match r {
            Ok(n) => parses_as_uint(s@, u8::MAX as nat) && n == dec_val(uint_body(s@)),
            Err(e) => !parses_as_uint(s@, u8::MAX as nat) && e == StreamError::NumericParseError,
        },
{
    match parse_u64_dec(s) {
        Ok(n) => {
            if n > 0xff {
                Err(StreamError::NumericParseError)
            } else {
                Ok(n as u8)
            }
        },
        Err(e) => Err(e),
    }
}

/// Writes `n` as its canonical decimal digits.
pub fn u64_to_dec(n: u64) -> (r: Vec<u8>)
    ensures
        r@ == dec_rep(n as nat),
{
    if n == 0 {
        let mut r: Vec<u8> = Vec::new();
        r.push(48);
        proof {
            assert(r@ =~= dec_rep(0));
        }
        return r;
    }
    let mut tmp: Vec<u8> = Vec::new();
    let mut m: u64 = n;
    while m > 0
        invariant
            m > 0 ==> dec_rep(n as nat) == dec_rep(m as nat) + tmp@.reverse(),
            m == 0 ==> tmp@.len() > 0 && dec_rep(n as nat) == tmp@.reverse(),
        decreases m,
    {
        let d = (m % 10) as u8 + 48;
        let ghost old_tmp = tmp@;
        let ghost old_m = m as nat;
        tmp.push(d);
        m = m / 10;
        proof {
            assert(tmp@.reverse() =~= seq![d] + old_tmp.reverse());
            if old_m < 10 {
                assert(dec_rep(old_m) =~= seq![d]);
                assert(dec_rep(n as nat) =~= tmp@.reverse());
            } else {
                assert(dec_rep(old_m) == dec_rep(old_m / 10) + seq![d]);
                assert(dec_rep(n as nat) =~= dec_rep(m as nat) + tmp@.reverse());
            }
        }
    }
    let k = tmp.len();
    let mut r: Vec<u8> = Vec::new();
    let mut i: usize = 0;
    while i < k
        invariant
            0 <= i <= k,
            k == tmp@.len(),
            r@ =~= tmp@.reverse().take(i as int),
        decreases k - i,
    {
        r.push(tmp[k - 1 - i]);
        i = i + 1;
        proof {
            assert(r@ =~= tmp@.reverse().take(i as int));
        }
    }
    proof {
        assert(tmp@.reverse().take(k as int) =~= tmp@.reverse());
    }
    r
}

} // verus!
