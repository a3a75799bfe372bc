//! The update event carried on the general event channel: one encoded
//! document delta. The primary wire form is the schema-described
//! binary message (one length-delimited field holding the delta); the
//! fallback is the legacy length-prefixed binary serialization, kept so
//! consumers and producers on different protocol versions interoperate
//! during a rollout. Decode tries the primary form first, always.

use vstd::prelude::*;
use vstd::arithmetic::power2::pow2;
use vstd::slice::{slice_subrange, slice_to_vec};
use crate::error::{ErrorView, StreamError};

verus! {

/// The base-128 little-endian digits of `n`, each continuation byte
/// with its high bit set.
pub open spec fn varint(n: nat) -> Seq<u8>
    decreases n,
{
    if n < 128 {
        seq![n as u8]
    } else {
        seq![(128 + n % 128) as u8] + varint(n / 128)
    }
}

/// What reading a base-128 value at position `i` yields, `c` digits
/// already read: the value and the position after it. At most ten
/// digits are accepted, and the tenth may only contribute one bit.
pub open spec fn spec_varint_at(s: Seq<u8>, i: int, c: int) -> Option<(nat, int)>
    decreases 10 - c,
{
    if c >= 10 || i < 0 || i >= s.len() {
        None
    } else {
        let b = s[i];
        if b < 128 {
            if c == 9 && b > 1 {
                None
            } else {
                Some((b as nat, i + 1))
            }
        } else {
            match spec_varint_at(s, i + 1, c + 1) {
                None => None,
                Some((v, j)) => Some((v * 128 + (b - 128) as nat, j)),
            }
        }
    }
}

/// The value read at depth `c` is small enough that the whole number
/// fits in 64 bits.
pub proof fn lemma_varint_value_bound(s: Seq<u8>, i: int, c: int)
    requires
        0 <= c <= 9,
        spec_varint_at(s, i, c) is Some,
    ensures
        spec_varint_at(s, i, c)->Some_0.0 * pow2((7 * c) as nat) < pow2(64),
    decreases 10 - c,
{
    vstd::arithmetic::power2::lemma2_to64();
    vstd::arithmetic::power2::lemma2_to64_rest();
    let b = s[i];
    let v = spec_varint_at(s, i, c)->Some_0.0;
    if b < 128 {
        if c == 9 {
            assert(pow2(63) == 0x8000_0000_0000_0000);
            assert(v * pow2(63) < pow2(64)) by (nonlinear_arith)
                requires
                    v <= 1,
                    pow2(63) < pow2(64),
                    pow2(63) > 0,
            ;
        } else {
            assert(pow2((7 * c) as nat) * pow2((63 - 7 * c) as nat) == pow2(63)) by {
                vstd::arithmetic::power2::lemma_pow2_adds((7 * c) as nat, (63 - 7 * c) as nat);
            }
            assert(pow2((63 - 7 * c) as nat) >= 128) by {
                vstd::arithmetic::power2::lemma_pow2_pos((63 - 7 * c) as nat);
                vstd::arithmetic::power2::lemma_pow2_adds(7, (56 - 7 * c) as nat);
                vstd::arithmetic::power2::lemma_pow2_pos((56 - 7 * c) as nat);
                assert(pow2(7) == 128);
                assert(pow2((63 - 7 * c) as nat) == 128 * pow2((56 - 7 * c) as nat));
                assert(128 * pow2((56 - 7 * c) as nat) >= 128) by (nonlinear_arith)
                    requires
                        pow2((56 - 7 * c) as nat) >= 1,
                ;
            }
            assert(v * pow2((7 * c) as nat) < pow2(64)) by (nonlinear_arith)
                requires
                    v < 128,
                    pow2((7 * c) as nat) * pow2((63 - 7 * c) as nat) == pow2(63),
                    pow2((63 - 7 * c) as nat) >= 128,
                    pow2(63) < pow2(64),
                    pow2((7 * c) as nat) > 0,
                    pow2(64) == 2 * pow2(63),
                ;
        }
    } else {
        assert(c < 9) by {
            if c == 9 {
                assert(spec_varint_at(s, i + 1, 10) is None);
            }
        }
        lemma_varint_value_bound(s, i + 1, c + 1);
        let w = spec_varint_at(s, i + 1, c + 1)->Some_0.0;
        let e1: nat = (57 - 7 * c) as nat;
        vstd::arithmetic::power2::lemma_pow2_adds(e1, (7 * (c + 1)) as nat);
        vstd::arithmetic::power2::lemma_pow2_pos(e1);
        vstd::arithmetic::power2::lemma_pow2_pos((7 * (c + 1)) as nat);
        assert(w < pow2(e1)) by (nonlinear_arith)
            requires
                w * pow2((7 * (c + 1)) as nat) < pow2(e1) * pow2((7 * (c + 1)) as nat),
                pow2((7 * (c + 1)) as nat) > 0,
        ;
        vstd::arithmetic::power2::lemma_pow2_adds(e1, 7);
        assert(pow2(7) == 128);
        assert(w * 128 + (b - 128) < pow2((e1 + 7) as nat)) by (nonlinear_arith)
            requires
                w < pow2(e1),
                b - 128 < 128,
                pow2((e1 + 7) as nat) == pow2(e1) * 128,
        ;
        vstd::arithmetic::power2::lemma_pow2_adds((e1 + 7) as nat, (7 * c) as nat);
        vstd::arithmetic::power2::lemma_pow2_pos((7 * c) as nat);
        assert((w * 128 + (b - 128)) * pow2((7 * c) as nat) < pow2(64)) by (nonlinear_arith)
            requires
                w * 128 + (b - 128) < pow2((e1 + 7) as nat),
                pow2((e1 + 7) as nat) * pow2((7 * c) as nat) == pow2(64),
                pow2((7 * c) as nat) > 0,
        ;
    }
}

/// Reading the digits written for `n` yields `n` again and stops right
/// after them.
pub proof fn lemma_varint_parse(s: Seq<u8>, i: int, n: nat, c: int)
    requires
        0 <= i,
        0 <= c <= 9,
        n * pow2((7 * c) as nat) < pow2(64),
        i + varint(n).len() <= s.len(),
        forall|k: int| 0 <= k < varint(n).len() ==> s[i + k] == varint(n)[k],
    ensures
        spec_varint_at(s, i, c) == Some((n, i + varint(n).len())),
    decreases 10 - c,
{
    vstd::arithmetic::power2::lemma2_to64();
    vstd::arithmetic::power2::lemma2_to64_rest();
    vstd::arithmetic::power2::lemma_pow2_pos((7 * c) as nat);
    if n < 128 {
        assert(s[i] == varint(n)[0]);
        assert(s[i] == n as u8);
        if c == 9 {
            assert(pow2(63) == 0x8000_0000_0000_0000);
            assert(n <= 1) by (nonlinear_arith)
                requires
                    n * pow2(63) < pow2(64),
                    pow2(64) == 2 * pow2(63),
                    pow2(63) > 0,
            ;
        }
    } else {
        assert(s[i] == varint(n)[0]);
        assert(s[i] == (128 + n % 128) as u8);
        assert(c < 9) by {
            if c == 9 {
                assert(n * pow2(63) >= 128 * pow2(63)) by (nonlinear_arith)
                    requires
                        n >= 128,
                        pow2(63) > 0,
                ;
                assert(128 * pow2(63) >= pow2(64)) by {
                    vstd::arithmetic::power2::lemma_pow2_adds(63, 1);
                    assert(128 * pow2(63) >= 2 * pow2(63)) by (nonlinear_arith)
                        requires
                            pow2(63) > 0,
                    ;
                }
            }
        }
        assert((n / 128) * pow2((7 * (c + 1)) as nat) < pow2(64)) by {
            vstd::arithmetic::power2::lemma_pow2_adds((7 * c) as nat, 7);
            assert(pow2(7) == 128);
            assert((n / 128) * (pow2((7 * c) as nat) * 128) <= n * pow2((7 * c) as nat))
                by (nonlinear_arith)
                requires
                    n >= 128,
                    pow2((7 * c) as nat) > 0,
            ;
        }
        assert forall|k: int| 0 <= k < varint(n / 128).len() implies s[i + 1 + k] == #[trigger] varint(
            n / 128,
        )[k] by {
            assert(varint(n)[1 + k] == varint(n / 128)[k]);
            assert(s[i + (1 + k)] == varint(n)[1 + k]);
        }
        lemma_varint_parse(s, i + 1, n / 128, c + 1);
        assert((n / 128) * 128 + n % 128 == n) by (nonlinear_arith);
    }
}

/// Reads a base-128 value, `c` digits already read.
fn parse_varint_rec(s: &[u8], i: usize, c: u8) -> (r: Option<(u64, usize)>)
    requires
        c <= 9,
        i <= s@.len(),
    ensures
        match r {
            Some(v) => spec_varint_at(s@, i as int, c as int) == Some((v.0 as nat, v.1 as int))
                && i < v.1 <= s@.len(),
            None => spec_varint_at(s@, i as int, c as int) is None,
        },
    decreases 10 - c,
{
    if i >= s.len() {
        return None;
    }
    let b = s[i];
    if b < 128 {
        if c == 9 && b > 1 {
            None
        } else {
            Some((b as u64, i + 1))
        }
    } else {
        if c == 9 {
            return None;
        }
        match parse_varint_rec(s, i + 1, c + 1) {
            None => None,
            Some((v, j)) => {
                proof {
                    lemma_varint_value_bound(s@, i + 1, c as int + 1);
                    vstd::arithmetic::power2::lemma2_to64();
                    vstd::arithmetic::power2::lemma2_to64_rest();
                    let w = spec_varint_at(s@, i as int + 1, c as int + 1)->Some_0.0;
                    let e1: nat = (57 - 7 * (c as int)) as nat;
                    vstd::arithmetic::power2::lemma_pow2_adds(e1, (7 * (c as int + 1)) as nat);
                    vstd::arithmetic::power2::lemma_pow2_pos(e1);
                    vstd::arithmetic::power2::lemma_pow2_pos((7 * (c as int + 1)) as nat);
                    assert(w < pow2(e1)) by (nonlinear_arith)
                        requires
                            w * pow2((7 * (c as int + 1)) as nat) < pow2(e1) * pow2((7 * (
                            c as int + 1)) as nat),
                            pow2((7 * (c as int + 1)) as nat) > 0,
                    ;
                    vstd::arithmetic::power2::lemma_pow2_adds(e1, 7);
                    assert(pow2(7) == 128);
                    assert(w * 128 + (b - 128) < pow2((e1 + 7) as nat)) by (nonlinear_arith)
                        requires
                            w < pow2(e1),
                            b - 128 < 128,
                            pow2((e1 + 7) as nat) == pow2(e1) * 128,
                    ;
                    vstd::arithmetic::power2::lemma_pow2_adds((e1 + 7) as nat, (7 * (
                    c as int)) as nat);
                    vstd::arithmetic::power2::lemma_pow2_pos((7 * (c as int)) as nat);
                    assert(pow2((e1 + 7) as nat) <= pow2(64)) by (nonlinear_arith)
                        requires
                            pow2((e1 + 7) as nat) * pow2((7 * (c as int)) as nat) == pow2(64),
                            pow2((7 * (c as int)) as nat) >= 1,
                            pow2((e1 + 7) as nat) >= 0,
                    ;
                    assert(pow2(64) == 0x1_0000_0000_0000_0000);
                }
                Some((v * 128 + (b - 128) as u64, j))
            },
        }
    }
}

/// Writes `n` as its base-128 digits.
fn write_varint(out: &mut Vec<u8>, n: u64)
    ensures
        final(out)@ == old(out)@ + varint(n as nat),
{
    let ghost out0 = out@;
    let mut m: u64 = n;
    while m >= 128
        invariant
            out0 + varint(n as nat) == out@ + varint(m as nat),
        decreases m,
    {
        let ghost m0 = m as nat;
        out.push((128 + (m % 128) as u8) as u8);
        m = m / 128;
        proof {
            assert(varint(m0) == seq![(128 + m0 % 128) as u8] + varint(m0 / 128));
            assert(out@ + varint(m as nat) =~= out0 + varint(n as nat));
        }
    }
    out.push(m as u8);
    proof {
        assert(varint(m as nat) =~= seq![m as u8]);
        assert(out@ =~= out0 + varint(n as nat));
    }
}

/// What scanning the field records of a primary-form message from `i`
/// yields, `acc` being the last update value seen so far: the final
/// update value, or nothing for a malformed buffer. A record's key
/// must fit 32 bits with a field number of at least one; the update
/// field (number one) must be length-delimited, and a later record of
/// it replaces an earlier one; records of other fields are skipped by
/// their wire type. Group records, a legacy this protocol never
/// carries, are malformed here.
pub open spec fn spec_scan_message(s: Seq<u8>, i: int, acc: Option<Seq<u8>>) -> Option<
    Option<Seq<u8>>,
>
    decreases s.len() - i,
{
    if i >= s.len() {
        Some(acc)
    } else {
        match spec_varint_at(s, i, 0) {
            None => None,
            Some((key, j)) => if j <= i || j > s.len() || key > 0xffff_ffff || key / 8 == 0 {
                None
            } else if key / 8 == 1 {
                if key % 8 != 2 {
                    None
                } else {
                    match spec_varint_at(s, j, 0) {
                        None => None,
                        Some((len, j2)) => if j2 <= j || j2 > s.len() || j2 + len > s.len() {
                            None
                        } else {
                            spec_scan_message(s, j2 + len, Some(s.subrange(j2, j2 + len)))
                        },
                    }
                }
            } else if key % 8 == 0 {
                match spec_varint_at(s, j, 0) {
                    None => None,
                    Some((v, j2)) => if j2 <= j || j2 > s.len() {
                        None
                    } else {
                        spec_scan_message(s, j2, acc)
                    },
                }
            } else if key % 8 == 1 {
                if j + 8 <= s.len() {
                    spec_scan_message(s, j + 8, acc)
                } else {
                    None
                }
            } else if key % 8 == 5 {
                if j + 4 <= s.len() {
                    spec_scan_message(s, j + 4, acc)
                } else {
                    None
                }
            } else if key % 8 == 2 {
                match spec_varint_at(s, j, 0) {
                    None => None,
                    Some((len, j2)) => if j2 <= j || j2 > s.len() || j2 + len > s.len() {
                        None
                    } else {
                        spec_scan_message(s, j2 + len, acc)
                    },
                }
            } else {
                None
            },
        }
    }
}

/// What the primary wire form of an update event holds: nothing (the
/// update left unset), or the delta bytes of the last update-field
/// record, with records of unknown fields skipped.
pub open spec fn spec_decode_primary(s: Seq<u8>) -> Option<Option<Seq<u8>>> {
    spec_scan_message(s, 0, None)
}

/// The primary wire form of one update: the field key of the single
/// length-delimited field, the length of the delta, then the delta.
pub open spec fn spec_encode_update_v1(data: Seq<u8>) -> Seq<u8> {
    seq![10u8] + varint(data.len()) + data
}

/// The little-endian value of four bytes.
pub open spec fn le32_at(s: Seq<u8>, i: int) -> nat {
    s[i] as nat + 256 * (s[i + 1] as nat + 256 * (s[i + 2] as nat + 256 * (s[i + 3] as nat)))
}

/// The little-endian value of eight bytes.
pub open spec fn le64_at(s: Seq<u8>, i: int) -> nat {
    le32_at(s, i) + 0x1_0000_0000 * le32_at(s, i + 4)
}

/// What the legacy wire form holds: a four-byte variant index that
/// must be zero, an eight-byte length, then at least that many delta
/// bytes (trailing bytes are ignored, as the legacy reader did).
pub open spec fn spec_decode_legacy(s: Seq<u8>) -> Option<Seq<u8>> {
    if s.len() >= 12 && le32_at(s, 0) == 0 && s.len() - 12 >= le64_at(s, 4) {
        Some(s.subrange(12, 12 + le64_at(s, 4) as int))
    } else {
        None
    }
}

/// What decoding an update event yields: the primary form first; only
/// a buffer malformed under it falls back to the legacy form; a buffer
/// malformed under both fails with the legacy error.
pub open spec fn spec_decode_event(s: Seq<u8>) -> Result<Seq<u8>, ErrorView> {
    match spec_decode_primary(s) {
        Some(upd) => match upd {
            Some(b) => Ok(b),
            None => Err(ErrorView::UnexpectedValue("update not set for CollabUpdateEvent proto"@)),
        },
        None => match spec_decode_legacy(s) {
            Some(b) => Ok(b),
            None => Err(ErrorView::EncodingError),
        },
    }
}

/// An update event: one encoded document delta.
#[derive(Debug, Clone, PartialEq, Eq)]
pub enum CollabUpdateEvent {
    UpdateV1 { encode_update: Vec<u8> },
}

impl View for CollabUpdateEvent {
    type V = Seq<u8>;

    open spec fn view(&self) -> Seq<u8> {
        match self {
            CollabUpdateEvent::UpdateV1 { encode_update } => encode_update@,
        }
    }
}

impl CollabUpdateEvent {
    /// Encodes the event in the primary wire form.
    pub fn encode(&self) -> (r: Vec<u8>)
        ensures
            r@ == spec_encode_update_v1(self@),
    {
        match self {
            CollabUpdateEvent::UpdateV1 { encode_update } => {
                let mut out: Vec<u8> = Vec::new();
                out.push(10);
                write_varint(&mut out, encode_update.len() as u64);
                let mut i: usize = 0;
                let n = encode_update.len();
                let ghost head = out@;
                while i < n
                    invariant
                        0 <= i <= n,
                        n == encode_update@.len(),
                        out@ == head + encode_update@.take(i as int),
                    decreases n - i,
                {
                    out.push(encode_update[i]);
                    i = i + 1;
                    proof {
                        assert(head + encode_update@.take(i as int) =~= out@);
                    }
                }
                proof {
                    assert(encode_update@.take(n as int) =~= encode_update@);
                    assert(out@ =~= spec_encode_update_v1(encode_update@));
                }
                out
            },
        }
    }

    /// Decodes an update event: the primary wire form first, then the
    /// legacy form.
    pub fn decode(data: &[u8]) -> (r: Result<CollabUpdateEvent, StreamError>)
        ensures
            match r {
                Ok(e) => spec_decode_event(data@) == Ok::<Seq<u8>, ErrorView>(e@),
                Err(e) => spec_decode_event(data@) == Err::<Seq<u8>, ErrorView>(e@),
            },
    {
        match Self::decode_primary(data) {
            Ok(upd) => match upd {
                Some(b) => Ok(CollabUpdateEvent::UpdateV1 { encode_update: b }),
                None => Err(StreamError::UnexpectedValue(String::from_str(
                    "update not set for CollabUpdateEvent proto",
                ))),
            },
            Err(_) => match Self::decode_legacy(data) {
                Some(b) => Ok(CollabUpdateEvent::UpdateV1 { encode_update: b }),
                None => Err(StreamError::EncodingError),
            },
        }
    }

    /// Decodes the primary wire form alone.
    fn decode_primary(data: &[u8]) -> (r: Result<Option<Vec<u8>>, ()>)
        ensures
            match r {
                Ok(upd) => match upd {
                    Some(b) => spec_decode_primary(data@) == Some(Some(b@)),
                    None => spec_decode_primary(data@) == Some(Option::<Seq<u8>>::None),
                },
                Err(_) => spec_decode_primary(data@) is None,
            },
    {
        let n = data.len();
        let mut acc: Option<Vec<u8>> = None;
        let mut i: usize = 0;
        while i < n
            invariant
                0 <= i <= n,
                n == data@.len(),
                match acc {
                    Some(b) => spec_decode_primary(data@) == spec_scan_message(data@, i as int,
                        Some(b@)),
                    None => spec_decode_primary(data@) == spec_scan_message(data@, i as int,
                        Option::<Seq<u8>>::None),
                },
            decreases n - i,
        {
            let (key, j) = match parse_varint_rec(data, i, 0) {
                Some(kj) => kj,
                None => {
                    return Err(());
                },
            };
            if key > 0xffff_ffff {
                return Err(());
            }
            let field = key / 8;
            let wire = key % 8;
            if field == 0 {
                return Err(());
            }
            if field == 1 {
                if wire != 2 {
                    return Err(());
                }
                let (len, j2) = match parse_varint_rec(data, j, 0) {
                    Some(x) => x,
                    None => {
                        return Err(());
                    },
                };
                if len > (n - j2) as u64 {
                    return Err(());
                }
                let end = j2 + (len as usize);
                acc = Some(slice_to_vec(slice_subrange(data, j2, end)));
                i = end;
            } else if wire == 0 {
                let j2 = match parse_varint_rec(data, j, 0) {
                    Some(x) => x.1,
                    None => {
                        return Err(());
                    },
                };
                i = j2;
            } else if wire == 1 {
                if n - j < 8 {
                    return Err(());
                }
                i = j + 8;
            } else if wire == 5 {
                if n - j < 4 {
                    return Err(());
                }
                i = j + 4;
            } else if wire == 2 {
                let (len, j2) = match parse_varint_rec(data, j, 0) {
                    Some(x) => x,
                    None => {
                        return Err(());
                    },
                };
                if len > (n - j2) as u64 {
                    return Err(());
                }
                i = j2 + (len as usize);
            } else {
                return Err(());
            }
        }
        Ok(acc)
    }

    /// Decodes the legacy wire form alone.
    fn decode_legacy(data: &[u8]) -> (r: Option<Vec<u8>>)
        ensures
            match r {
                Some(b) => spec_decode_legacy(data@) == Some(b@),
                None => spec_decode_legacy(data@) is None,
            },
    {
        let n = data.len();
        if n < 12 {
            return None;
        }
        let tag: u32 = data[0] as u32 + 256 * (data[1] as u32 + 256 * (data[2] as u32 + 256 * (
        data[3] as u32)));
        if tag != 0 {
            return None;
        }
        let lo: u64 = data[4] as u64 + 256 * (data[5] as u64 + 256 * (data[6] as u64 + 256 * (
        data[7] as u64)));
        let hi: u64 = data[8] as u64 + 256 * (data[9] as u64 + 256 * (data[10] as u64 + 256 * (
        data[11] as u64)));
        let len: u64 = lo + 0x1_0000_0000 * hi;
        proof {
            assert(len == le64_at(data@, 4));
        }
        if ((n - 12) as u64) < len {
            return None;
        }
        let end = 12 + len as usize;
        let body = slice_subrange(data, 12, end);
        Some(slice_to_vec(body))
    }
}

/// Decoding the primary encoding of any event yields that event again.
pub proof fn lemma_update_event_round_trip(data: Seq<u8>)
    requires
        data.len() < 0x1_0000_0000_0000_0000,
    ensures
        spec_decode_event(spec_encode_update_v1(data)) == Ok::<Seq<u8>, ErrorView>(data),
{
    let s = spec_encode_update_v1(data);
    let vi = varint(data.len());
    assert(s[0] == 10);
    vstd::arithmetic::power2::lemma2_to64();
    vstd::arithmetic::power2::lemma2_to64_rest();
    assert(pow2(0) == 1) by {
        vstd::arithmetic::power2::lemma_pow2_unfold(1);
    }
    assert(data.len() * pow2(0) < pow2(64)) by (nonlinear_arith)
        requires
            pow2(0) == 1,
            data.len() < pow2(64),
            pow2(64) == 0x1_0000_0000_0000_0000,
    ;
    assert forall|k: int| 0 <= k < vi.len() implies s[1 + k] == #[trigger] vi[k] by {
        assert(s[1 + k] == (seq![10u8] + vi + data)[1 + k]);
    }
    lemma_varint_parse(s, 1, data.len(), 0);
    let j2 = 1 + vi.len() as int;
    assert(spec_varint_at(s, 0, 0) == Some((10 as nat, 1int)));
    assert(s.subrange(j2, j2 + data.len() as int) =~= data);
    assert(j2 + data.len() == s.len());
    assert(spec_scan_message(s, s.len() as int, Some(data)) == Some(Some(data)));
    assert(spec_scan_message(s, 0, Option::<Seq<u8>>::None) == Some(Some(data)));
}

/// A buffer that is malformed under the primary form but valid under
/// the legacy form still decodes, through the fallback.
pub proof fn lemma_legacy_fallback(s: Seq<u8>, b: Seq<u8>)
    requires
        spec_decode_primary(s) is None,
        spec_decode_legacy(s) == Some(b),
    ensures
        spec_decode_event(s) == Ok::<Seq<u8>, ErrorView>(b),
{
}

} // verus!
