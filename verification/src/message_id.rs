//! The ordering key of a stream entry: a millisecond timestamp and a
//! sequence number, totally ordered, with the canonical textual form
//! `<timestamp_ms>-<sequence_number>`.

use vstd::prelude::*;
use vstd::slice::slice_subrange;
use vstd::string::StringSliceAdditionalSpecFns;
use vstd::utf8::valid_utf8;
use crate::dec::{dec_rep, dec_val, is_dec_digit, lemma_dec_rep_value,
    parse_u16_dec, parse_u64_dec, parses_as_uint, u64_to_dec, uint_body};
use crate::error::{ErrorView, StreamError};
use crate::text::{is_utf8, lemma_ascii_bytes_utf8, string_from_utf8};

verus! {

/// ASCII `-`, the separator of the two parts of the textual form.
pub const HYPHEN: u8 = 45;

/// The ordering key the transport assigns to a stream entry: a
/// timestamp in milliseconds and a sequence number telling entries of
/// the same millisecond apart. Ordered by timestamp first, then
/// sequence number.
#[derive(Debug, Copy, Clone, Default, Ord, PartialOrd, Eq, PartialEq, Structural)]
pub struct MessageId {
    pub timestamp_ms: u64,
    pub sequence_number: u16,
}

/// The position of the first `-` in `s`, or `-1` when there is none.
pub open spec fn hyphen_pos(s: Seq<u8>) -> int
    decreases s.len(),
{
    if s.len() == 0 {
        -1
    } else if s[0] == HYPHEN {
        0
    } else {
        let p = hyphen_pos(s.drop_first());
        if p < 0 {
            -1
        } else {
            p + 1
        }
    }
}

/// When no byte of `s` is a `-`, there is no hyphen position.
pub proof fn lemma_hyphen_pos_none(s: Seq<u8>)
    requires
        forall|j: int| 0 <= j < s.len() ==> #[trigger] s[j] != HYPHEN,
    ensures
        hyphen_pos(s) == -1,
    decreases s.len(),
{
    if s.len() > 0 {
        lemma_hyphen_pos_none(s.drop_first());
    }
}

/// The first `-` of `s` is at `p` when `s[p]` is a `-` and nothing
/// before it is.
pub proof fn lemma_hyphen_pos_at(s: Seq<u8>, p: int)
    requires
        0 <= p < s.len(),
        s[p] == HYPHEN,
        forall|j: int| 0 <= j < p ==> #[trigger] s[j] != HYPHEN,
    ensures
        hyphen_pos(s) == p,
    decreases p,
{
    if p > 0 {
        lemma_hyphen_pos_at(s.drop_first(), p - 1);
    }
}

/// Finds the position of the first `-` in `s`, if any.
fn find_hyphen(s: &[u8]) -> (r: Option<usize>)
    ensures
        match r {
            Some(i) => i < s@.len() && s@[i as int] == HYPHEN && forall|j: int|
                0 <= j < i ==> #[trigger] s@[j] != HYPHEN,
            None => forall|j: int| 0 <= j < s@.len() ==> #[trigger] s@[j] != HYPHEN,
        },
{
    let len = s.len();
    let mut i: usize = 0;
    while i < len
        invariant
            0 <= i <= len,
            len == s@.len(),
            forall|j: int| 0 <= j < i ==> #[trigger] s@[j] != HYPHEN,
        decreases len - i,
    {
        if s[i] == HYPHEN {
            return Some(i);
        }
        i = i + 1;
    }
    None
}

impl MessageId {
    /// The canonical textual form, as bytes: the decimal timestamp, a
    /// `-`, the decimal sequence number.
    pub open spec fn spec_text(self) -> Seq<u8> {
        dec_rep(self.timestamp_ms as nat) + seq![HYPHEN] + dec_rep(self.sequence_number as nat)
    }

    /// What parsing a textual form yields: split at the first `-`
    /// (none: the form is invalid), then read both parts as unsigned
    /// integers of the fields' widths.
    pub open spec fn spec_parse(s: Seq<u8>) -> Result<MessageId, ErrorView> {
        let p = hyphen_pos(s);
        if p < 0 {
            Err(ErrorView::InvalidFormat)
        } else {
            let t = s.take(p);
            let q = s.skip(p + 1);
            if !parses_as_uint(t, u64::MAX as nat) || !parses_as_uint(q, u16::MAX as nat) {
                Err(ErrorView::NumericParseError)
            } else {
                Ok(MessageId {
                    timestamp_ms: dec_val(uint_body(t)) as u64,
                    sequence_number: dec_val(uint_body(q)) as u16,
                })
            }
        }
    }

    /// What parsing raw bytes yields: the bytes must be UTF-8 text,
    /// then parse as the textual form.
    pub open spec fn spec_parse_bytes(s: Seq<u8>) -> Result<MessageId, ErrorView> {
        if !valid_utf8(s) {
            Err(ErrorView::Utf8Error)
        } else {
            MessageId::spec_parse(s)
        }
    }

    pub fn new(timestamp_ms: u64, sequence_number: u16) -> (r: Self)
        ensures
            r.timestamp_ms == timestamp_ms,
            r.sequence_number == sequence_number,
    {
        MessageId { timestamp_ms, sequence_number }
    }

    /// Parses the textual form.
    pub fn try_from_str(s: &str) -> (r: Result<Self, StreamError>)
        ensures
            match r {
                Ok(id) => MessageId::spec_parse(s.spec_bytes()) == Ok::<MessageId, ErrorView>(id),
                Err(e) => MessageId::spec_parse(s.spec_bytes()) == Err::<MessageId, ErrorView>(e@),
            },
    {
        Self::parse_text(s.as_bytes())
    }

    /// Parses raw bytes: they must hold UTF-8 text in the textual form.
    pub fn try_from_bytes(s: &[u8]) -> (r: Result<Self, StreamError>)
        ensures
            match r {
                Ok(id) => MessageId::spec_parse_bytes(s@) == Ok::<MessageId, ErrorView>(id),
                Err(e) => MessageId::spec_parse_bytes(s@) == Err::<MessageId, ErrorView>(e@),
            },
    {
        if !is_utf8(s) {
            return Err(StreamError::Utf8Error);
        }
        Self::parse_text(s)
    }

    /// Parses the textual form from its bytes (already known to be text).
    fn parse_text(s: &[u8]) -> (r: Result<Self, StreamError>)
        ensures
            match r {
                Ok(id) => MessageId::spec_parse(s@) == Ok::<MessageId, ErrorView>(id),
                Err(e) => MessageId::spec_parse(s@) == Err::<MessageId, ErrorView>(e@),
            },
    {
        let len = s.len();
        let i = match find_hyphen(s) {
            Some(i) => i,
            None => {
                proof {
                    lemma_hyphen_pos_none(s@);
                }
                return Err(StreamError::InvalidFormat);
            },
        };
        proof {
            lemma_hyphen_pos_at(s@, i as int);
        }
        let head = slice_subrange(s, 0, i);
        let tail = slice_subrange(s, i + 1, len);
        proof {
            assert(head@ =~= s@.take(i as int));
            assert(tail@ =~= s@.skip(i + 1));
        }
        let timestamp_ms = match parse_u64_dec(head) {
            Ok(n) => n,
            Err(e) => {
                return Err(e);
            },
        };
        let sequence_number = match parse_u16_dec(tail) {
            Ok(n) => n,
            Err(e) => {
                return Err(e);
            },
        };
        Ok(MessageId { timestamp_ms, sequence_number })
    }

    /// The canonical textual form.
    pub fn to_text(&self) -> (r: String)
        ensures
            vstd::utf8::encode_utf8(r@) == self.spec_text(),
    {
        let mut bytes = u64_to_dec(self.timestamp_ms);
        bytes.push(HYPHEN);
        let mut rest = u64_to_dec(self.sequence_number as u64);
        let mut j: usize = 0;
        let rest_len = rest.len();
        while j < rest_len
            invariant
                0 <= j <= rest_len,
                rest_len == rest@.len(),
                bytes@ =~= dec_rep(self.timestamp_ms as nat) + seq![HYPHEN] + rest@.take(j as int),
            decreases rest_len - j,
        {
            bytes.push(rest[j]);
            j = j + 1;
            proof {
                assert(bytes@ =~= dec_rep(self.timestamp_ms as nat) + seq![HYPHEN]
                    + rest@.take(j as int));
            }
        }
        proof {
            assert(rest@.take(rest_len as int) =~= rest@);
            assert(bytes@ =~= self.spec_text());
            lemma_dec_rep_value(self.timestamp_ms as nat);
            lemma_dec_rep_value(self.sequence_number as nat);
            assert forall|i: int| 0 <= i < bytes@.len() implies #[trigger] bytes@[i] < 128 by {
                let t = dec_rep(self.timestamp_ms as nat);
                let q = dec_rep(self.sequence_number as nat);
                if i < t.len() {
                    assert(is_dec_digit(t[i]));
                } else if i > t.len() {
                    assert(bytes@[i] == q[i - t.len() - 1]);
                    assert(is_dec_digit(q[i - t.len() - 1]));
                }
            }
            lemma_ascii_bytes_utf8(bytes@);
        }
        match string_from_utf8(bytes) {
            Ok(s) => s,
            Err(_) => {
                // unreachable: the bytes are ASCII
                String::new()
            },
        }
    }

    /// The canonical textual form round-trips: parsing the text of any
    /// key yields that key again.
    pub proof fn lemma_text_round_trip(id: MessageId)
        ensures
            MessageId::spec_parse(id.spec_text()) == Ok::<MessageId, ErrorView>(id),
    {
        let t = dec_rep(id.timestamp_ms as nat);
        let q = dec_rep(id.sequence_number as nat);
        let s = id.spec_text();
        lemma_dec_rep_value(id.timestamp_ms as nat);
        lemma_dec_rep_value(id.sequence_number as nat);
        assert(s[t.len() as int] == HYPHEN);
        assert forall|j: int| 0 <= j < t.len() implies #[trigger] s[j] != HYPHEN by {
            assert(s[j] == t[j]);
            assert(is_dec_digit(t[j]));
        }
        lemma_hyphen_pos_at(s, t.len() as int);
        assert(s.take(t.len() as int) =~= t);
        assert(s.skip(t.len() as int + 1) =~= q);
        assert(uint_body(t) =~= t) by {
            assert(is_dec_digit(t[0]));
        }
        assert(uint_body(q) =~= q) by {
            assert(is_dec_digit(q[0]));
        }
    }
}

} // verus!
