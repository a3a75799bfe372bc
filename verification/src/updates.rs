//! Update payloads of the per-document streams: the document update
//! (with its flag byte and sender) and the presence/awareness update
//! (always v1, uncompressed). Both are built from a generic field
//! mapping as read back from the transport, and the document update
//! can be decompressed and handed to the external CRDT decoder.

use vstd::prelude::*;
use vstd::arithmetic::power2::pow2;
use vstd::slice::{slice_subrange, slice_to_vec};
use vstd::string::*;
use crate::dec::{dec_val, parse_u8_dec, parses_as_uint, uint_body};
use crate::error::{ErrorView, Shape, StreamError};
use crate::flags::UpdateFlags;
use crate::nested::{spec_decode_text, NestedValue, RedisString};
use crate::origin::{collab_origin_from_str, spec_parse_origin, CollabOrigin, OriginView};

verus! {

/// The opaque decoded CRDT update of the external library.
#[verifier::external_type_specification]
#[verifier::external_body]
pub struct ExUpdate(yrs::Update);

/// What decompressing a zstd frame yields: a pure function of the
/// bytes, with no result for a malformed frame.
pub uninterp spec fn zstd_decode(b: Seq<u8>) -> Option<Seq<u8>>;

/// Relies on zstd::decode_all: decompression is a pure function of the
/// input bytes, and fails exactly on frames it cannot decode.
#[verifier::external_body]
fn zstd_decode_all(data: &[u8]) -> (r: Result<Vec<u8>, StreamError>)
    ensures
        match r {
            Ok(b) => zstd_decode(data@) == Some(b@),
            Err(e) => zstd_decode(data@) is None && e == StreamError::DecompressionError,
        },
{
    match zstd::decode_all(data) {
        Ok(b) => Ok(b),
        Err(_) => Err(StreamError::DecompressionError),
    }
}

/// Whether the external v1 delta decoder accepts these bytes: a pure
/// function of the bytes.
pub uninterp spec fn update_v1_decodes(b: Seq<u8>) -> bool;

/// Whether the external v2 delta decoder accepts these bytes.
pub uninterp spec fn update_v2_decodes(b: Seq<u8>) -> bool;

/// Relies on yrs::updates::decoder::Decode::decode_v1 for yrs::Update:
/// a pure parse of the delta bytes; malformed bytes are rejected with
/// an error (its reads are bounds-checked). Caveat: under debug
/// assertions a crafted pair of huge block lengths can overflow a
/// clock sum deep in the upstream decoder and abort there.
#[verifier::external_body]
fn yrs_decode_v1(data: &[u8]) -> (r: Result<yrs::Update, StreamError>)
    ensures
        match r {
            Ok(_) => update_v1_decodes(data@),
            Err(e) => !update_v1_decodes(data@) && e == StreamError::EncodingError,
        },
{
    match <yrs::Update as yrs::updates::decoder::Decode>::decode_v1(data) {
        Ok(u) => Ok(u),
        Err(_) => Err(StreamError::EncodingError),
    }
}

/// One length varint of a v2 segment table, read as the upstream
/// header reader reads it: base-128 digits, low digit first, ending in
/// a byte below 128, inside the buffer. At most ten digits are
/// admitted; longer encodings would shift past the 64-bit register.
pub open spec fn spec_v2_varint_at(s: Seq<u8>, i: int, c: int) -> Option<(nat, int)>
    decreases 10 - c,
{
    if c >= 10 || i < 0 || i >= s.len() {
        None
    } else {
        let b = s[i];
        if b < 128 {
            Some((b as nat, i + 1))
        } else {
            match spec_v2_varint_at(s, i + 1, c + 1) {
                None => None,
                Some((v, j)) => Some((v * 128 + (b - 128) as nat, j)),
            }
        }
    }
}

/// A value read at depth `c` stays below 2^(7·(10−c)).
proof fn lemma_v2_varint_bound(s: Seq<u8>, i: int, c: int)
    requires
        0 <= c <= 9,
        spec_v2_varint_at(s, i, c) is Some,
    ensures
        spec_v2_varint_at(s, i, c)->Some_0.0 < pow2((7 * (10 - c)) as nat),
    decreases 10 - c,
{
    vstd::arithmetic::power2::lemma2_to64();
    let b = s[i];
    if b < 128 {
        vstd::arithmetic::power2::lemma_pow2_adds(7, (7 * (9 - c)) as nat);
        vstd::arithmetic::power2::lemma_pow2_pos((7 * (9 - c)) as nat);
        assert((b as nat) < pow2(7) * pow2((7 * (9 - c)) as nat)) by (nonlinear_arith)
            requires
                b < 128,
                pow2(7) == 128,
                pow2((7 * (9 - c)) as nat) >= 1,
        ;
    } else {
        assert(c < 9) by {
            if c == 9 {
                assert(spec_v2_varint_at(s, i + 1, 10) is None);
            }
        }
        lemma_v2_varint_bound(s, i + 1, c + 1);
        let w = spec_v2_varint_at(s, i + 1, c + 1)->Some_0.0;
        vstd::arithmetic::power2::lemma_pow2_adds((7 * (9 - c)) as nat, 7);
        assert(pow2(7) == 128);
        assert(w * 128 + (b - 128) < pow2((7 * (10 - c)) as nat)) by (nonlinear_arith)
            requires
                w < pow2((7 * (9 - c)) as nat),
                b - 128 < 128,
                pow2((7 * (10 - c)) as nat) == pow2((7 * (9 - c)) as nat) * 128,
        ;
    }
}

/// Reads one segment-table varint, `c` digits already read.
fn v2_varint_at(s: &[u8], i: usize, c: u8) -> (r: Option<(u128, usize)>)
    requires
        c <= 9,
        i <= s@.len(),
    ensures
        match r {
            Some(v) => spec_v2_varint_at(s@, i as int, c as int) == Some((v.0 as nat, v.1 as int))
                && i < v.1 <= s@.len(),
            None => spec_v2_varint_at(s@, i as int, c as int) is None,
        },
    decreases 10 - c,
{
    if i >= s.len() {
        return None;
    }
    let b = s[i];
    if b < 128 {
        Some((b as u128, i + 1))
    } else {
        if c == 9 {
            return None;
        }
        match v2_varint_at(s, i + 1, c + 1) {
            None => None,
            Some((v, j)) => {
                proof {
                    lemma_v2_varint_bound(s@, i as int + 1, c as int + 1);
                    vstd::arithmetic::power2::lemma2_to64();
                    vstd::arithmetic::power2::lemma2_to64_rest();
                    if 7 * (9 - (c as int + 1) + 1) < 63 {
                        vstd::arithmetic::power2::lemma_pow2_strictly_increases((7 * (10 - (
                        c as int + 1))) as nat, 63);
                    }
                    assert((v as nat) < pow2(63));
                    assert(pow2(63) == 0x8000_0000_0000_0000);
                }
                Some((v * 128 + (b - 128) as u128, j))
            },
        }
    }
}

/// One length-prefixed segment read at `i`: the byte range it covers,
/// when its length varint terminates and the segment lies inside the
/// buffer (the length taken modulo 2^64, as the upstream reader's
/// register value is).
pub open spec fn spec_v2_seg_at(s: Seq<u8>, i: int) -> Option<(int, int)> {
    match spec_v2_varint_at(s, i, 0) {
        None => None,
        Some((v, j)) => {
            let len = (v % 0x1_0000_0000_0000_0000) as int;
            if j + len <= s.len() {
                Some((j, j + len))
            } else {
                None
            }
        },
    }
}

/// Whether `k` more segments of a v2 segment table can be read safely
/// from `i` on. The sixth segment of the table (`k == 4` counting
/// down) holds the string data, which itself starts with one more
/// length-prefixed sub-buffer that the upstream string reader reads.
pub open spec fn spec_v2_segments_from(s: Seq<u8>, i: int, k: int) -> bool
    decreases k,
{
    if k <= 0 {
        true
    } else {
        match spec_v2_seg_at(s, i) {
            None => false,
            Some((a, b)) => (if k == 4 {
                spec_v2_seg_at(s.subrange(a, b), 0) is Some
            } else {
                true
            }) && spec_v2_segments_from(s, b, k - 1),
        }
    }
}

/// Whether the v2 delta's segment table is well-formed enough for the
/// upstream header reader to walk without running past a bound: one
/// feature-flag byte, then nine length varints of at most ten digits
/// each, every segment inside the buffer, and the string segment's own
/// leading sub-buffer likewise.
pub open spec fn v2_header_ok(s: Seq<u8>) -> bool {
    s.len() > 0 && spec_v2_segments_from(s, 1, 9)
}

/// Reads one segment, returning the end of its byte range.
fn v2_seg_at(s: &[u8], i: usize) -> (r: Option<(usize, usize)>)
    requires
        i <= s@.len(),
    ensures
        match r {
            Some(ab) => spec_v2_seg_at(s@, i as int) == Some((ab.0 as int, ab.1 as int))
                && i < ab.0 <= ab.1 <= s@.len(),
            None => spec_v2_seg_at(s@, i as int) is None,
        },
{
    let n = s.len();
    match v2_varint_at(s, i, 0) {
        None => None,
        Some((v, j)) => {
            let len: u128 = v % 0x1_0000_0000_0000_0000;
            if len > (n - j) as u128 {
                return None;
            }
            Some((j, j + (len as usize)))
        },
    }
}

/// Checks the v2 segment table, mirroring the walk the upstream header
/// reader makes.
fn v2_header_check(s: &[u8]) -> (r: bool)
    ensures
        r == v2_header_ok(s@),
{
    if s.len() == 0 {
        return false;
    }
    let mut i: usize = 1;
    let mut k: u8 = 0;
    while k < 9
        invariant
            0 <= k <= 9,
            i <= s@.len(),
            v2_header_ok(s@) == spec_v2_segments_from(s@, i as int, 9 - k),
        decreases 9 - k,
    {
        let (a, b) = match v2_seg_at(s, i) {
            Some(ab) => ab,
            None => {
                return false;
            },
        };
        if k == 5 {
            // the string segment: its own leading sub-buffer must be readable
            let seg = slice_subrange(s, a, b);
            proof {
                assert(seg@ =~= s@.subrange(a as int, b as int));
            }
            if v2_seg_at(seg, 0).is_none() {
                return false;
            }
        }
        i = b;
        k = k + 1;
    }
    true
}

/// Relies on yrs::updates::decoder::Decode::decode_v2 for yrs::Update:
/// a pure parse of the delta bytes. The upstream header reader walks
/// the delta's segment table with unchecked indexing and unchecked
/// length sums, and aborts instead of erroring when the table is
/// malformed, so every caller must establish the segment-table check
/// first; that check keeps those aborts out of reach. Caveat: under
/// debug assertions, arithmetic deeper in the upstream decoder can
/// still abort on pathological segment contents.
#[verifier::external_body]
fn yrs_decode_v2(data: &[u8]) -> (r: Result<yrs::Update, StreamError>)
    requires
        v2_header_ok(data@),
    ensures
        match r {
            Ok(_) => update_v2_decodes(data@),
            Err(e) => !update_v2_decodes(data@) && e == StreamError::EncodingError,
        },
{
    match <yrs::Update as yrs::updates::decoder::Decode>::decode_v2(data) {
        Ok(u) => Ok(u),
        Err(_) => Err(StreamError::EncodingError),
    }
}

/// The first value stored under `name`, if any.
pub open spec fn spec_find(fs: Seq<(String, NestedValue)>, name: Seq<char>) -> Option<NestedValue>
    decreases fs.len(),
{
    if fs.len() == 0 {
        None
    } else if fs[0].0@ == name {
        Some(fs[0].1)
    } else {
        spec_find(fs.drop_first(), name)
    }
}

/// Looking a name up past entries that do not carry it skips them.
pub proof fn lemma_find_skip(fs: Seq<(String, NestedValue)>, name: Seq<char>, i: int)
    requires
        0 <= i <= fs.len(),
        forall|j: int| 0 <= j < i ==> (#[trigger] fs[j]).0@ != name,
    ensures
        spec_find(fs, name) == spec_find(fs.skip(i), name),
    decreases i,
{
    if i == 0 {
        assert(fs.skip(0) =~= fs);
    } else {
        lemma_find_skip(fs.drop_first(), name, i - 1);
        assert(fs.drop_first().skip(i - 1) =~= fs.skip(i));
    }
}

/// Finds the first value stored under `name`, if any.
fn find_field<'a>(fields: &'a Vec<(String, NestedValue)>, name: &str) -> (r: Option<
    &'a NestedValue,
>)
    ensures
        match r {
            Some(v) => spec_find(fields@, name@) == Some(*v),
            None => spec_find(fields@, name@) is None,
        },
{
    let n = fields.len();
    let mut i: usize = 0;
    let key = String::from_str(name);
    while i < n
        invariant
            0 <= i <= n,
            n == fields@.len(),
            key@ == name@,
            forall|j: int| 0 <= j < i ==> (#[trigger] fields@[j]).0@ != name@,
        decreases n - i,
    {
        if fields[i].0 == key {
            proof {
                lemma_find_skip(fields@, name@, i as int);
                assert(fields@.skip(i as int)[0] == fields@[i as int]);
            }
            return Some(&fields[i].1);
        }
        i = i + 1;
    }
    proof {
        lemma_find_skip(fields@, name@, n as int);
        assert(fields@.skip(n as int) =~= Seq::<(String, NestedValue)>::empty());
    }
    None
}

/// What the `sender` field yields: absent defaults to anonymous; else
/// it must be UTF-8 text in the sender identity string form.
pub open spec fn spec_sender_field(v: Option<NestedValue>) -> Result<OriginView, ErrorView> {
    match v {
        None => Ok(OriginView::Empty),
        Some(nv) => match spec_decode_text(nv) {
            Err(e) => Err(e),
            Ok(t) => spec_parse_origin(t),
        },
    }
}

/// What the `flags` field yields: absent, unreadable or out-of-range
/// values are tolerated as the default flag byte, never an error —
/// the flags are advisory.
pub open spec fn spec_flags_field(v: Option<NestedValue>) -> UpdateFlags {
    match v {
        None => UpdateFlags(0),
        Some(nv) => match nv {
            NestedValue::Scalar(b) => if parses_as_uint(b@, u8::MAX as nat) {
                UpdateFlags(dec_val(uint_body(b@)) as u8)
            } else {
                UpdateFlags(0)
            },
            _ => UpdateFlags(0),
        },
    }
}

/// What the required `data` field yields: absent is a hard error; the
/// value must be a scalar of raw bytes.
pub open spec fn spec_data_field(v: Option<NestedValue>) -> Result<Seq<u8>, ErrorView> {
    match v {
        None => Err(ErrorView::UnexpectedValue("data"@)),
        Some(nv) => match nv {
            NestedValue::Scalar(b) => Ok(b@),
            _ => Err(ErrorView::TypeError { expected: Shape::Scalar, found: nv.shape() }),
        },
    }
}

/// Reads the `sender` field of a mapping.
fn read_sender_field(fields: &Vec<(String, NestedValue)>) -> (r: Result<CollabOrigin, StreamError>)
    ensures
        match r {
            Ok(o) => spec_sender_field(spec_find(fields@, "sender"@)) == Ok::<
                OriginView,
                ErrorView,
            >(o@),
            Err(e) => spec_sender_field(spec_find(fields@, "sender"@)) == Err::<
                OriginView,
                ErrorView,
            >(e@),
        },
{
    match find_field(fields, "sender") {
        None => Ok(CollabOrigin::Empty),
        Some(v) => {
            let raw = match RedisString::from_redis_value(v) {
                Ok(s) => s.0,
                Err(e) => {
                    return Err(e);
                },
            };
            collab_origin_from_str(raw.as_str())
        },
    }
}

/// Reads the required `data` field of a mapping.
fn read_data_field(fields: &Vec<(String, NestedValue)>) -> (r: Result<Vec<u8>, StreamError>)
    ensures
        match r {
            Ok(b) => spec_data_field(spec_find(fields@, "data"@)) == Ok::<Seq<u8>, ErrorView>(b@),
            Err(e) => spec_data_field(spec_find(fields@, "data"@)) == Err::<Seq<u8>, ErrorView>(
                e@,
            ),
        },
{
    match find_field(fields, "data") {
        None => Err(StreamError::UnexpectedValue(String::from_str("data"))),
        Some(v) => match v.as_scalar() {
            Ok(b) => Ok(slice_to_vec(b.as_slice())),
            Err(e) => Err(e),
        },
    }
}

/// The delta bytes a payload hands to the CRDT decoder: decompressed
/// when the flags say the payload is compressed.
pub open spec fn spec_update_bytes(data: Seq<u8>, flags: UpdateFlags) -> Option<Seq<u8>> {
    if flags.spec_is_compressed() {
        zstd_decode(data)
    } else {
        Some(data)
    }
}

/// Where decoding a payload into a CRDT update fails: decompression
/// first, then the delta decoder the version flag selects.
pub open spec fn spec_update_decode_err(data: Seq<u8>, flags: UpdateFlags) -> Option<ErrorView> {
    match spec_update_bytes(data, flags) {
        None => Some(ErrorView::DecompressionError),
        Some(b) => if flags.spec_is_v2_encoded() {
            if v2_header_ok(b) && update_v2_decodes(b) {
                None
            } else {
                Some(ErrorView::EncodingError)
            }
        } else {
            if update_v1_decodes(b) {
                None
            } else {
                Some(ErrorView::EncodingError)
            }
        },
    }
}

/// A document update as carried on a document's update stream.
#[derive(Debug)]
pub struct CollabStreamUpdate {
    /// The possibly-compressed, possibly-v2-encoded document delta.
    pub data: Vec<u8>,
    pub sender: CollabOrigin,
    pub flags: UpdateFlags,
}

impl CollabStreamUpdate {
    pub fn new(data: Vec<u8>, sender: CollabOrigin, flags: UpdateFlags) -> (r: Self)
        ensures
            r.data@ == data@,
            r.sender == sender,
            r.flags == flags,
    {
        CollabStreamUpdate { data, sender, flags }
    }

    /// The routing key of a document's update stream.
    pub fn stream_key(workspace_id: &str, object_id: &str) -> (r: String)
        ensures
            r@ == "af:"@ + workspace_id@ + ":"@ + object_id@ + ":updates"@,
    {
        let mut s = String::from_str("af:");
        s.append(workspace_id);
        s.append(":");
        s.append(object_id);
        s.append(":updates");
        s
    }

    /// Builds a document update from a generic field mapping: `sender`
    /// defaults to anonymous, `flags` to the default byte; `data` is
    /// required.
    pub fn try_from_fields(fields: &Vec<(String, NestedValue)>) -> (r: Result<
        CollabStreamUpdate,
        StreamError,
    >)
        ensures
            match r {
                Ok(u) => spec_sender_field(spec_find(fields@, "sender"@)) == Ok::<
                    OriginView,
                    ErrorView,
                >(u.sender@) && u.flags == spec_flags_field(spec_find(fields@, "flags"@))
                    && spec_data_field(spec_find(fields@, "data"@)) == Ok::<Seq<u8>, ErrorView>(
                    u.data@,
                ),
                Err(e) => match spec_sender_field(spec_find(fields@, "sender"@)) {
                    Err(se) => e@ == se,
                    Ok(_) => spec_data_field(spec_find(fields@, "data"@)) == Err::<
                        Seq<u8>,
                        ErrorView,
                    >(e@),
                },
            },
    {
        let sender = match read_sender_field(fields) {
            Ok(o) => o,
            Err(e) => {
                return Err(e);
            },
        };
        let flags = match find_field(fields, "flags") {
            None => UpdateFlags(0),
            Some(v) => match v {
                NestedValue::Scalar(b) => match parse_u8_dec(b.as_slice()) {
                    Ok(x) => UpdateFlags(x),
                    Err(_) => UpdateFlags(0),
                },
                _ => UpdateFlags(0),
            },
        };
        let data = match read_data_field(fields) {
            Ok(b) => b,
            Err(e) => {
                return Err(e);
            },
        };
        Ok(CollabStreamUpdate { data, sender, flags })
    }

    /// The delta bytes this payload hands to the CRDT decoder.
    pub fn update_bytes(&self) -> (r: Result<Vec<u8>, StreamError>)
        ensures
            match r {
                Ok(b) => spec_update_bytes(self.data@, self.flags) == Some(b@),
                Err(e) => spec_update_bytes(self.data@, self.flags) is None && e
                    == StreamError::DecompressionError,
            },
    {
        if self.flags.is_compressed() {
            zstd_decode_all(self.data.as_slice())
        } else {
            Ok(slice_to_vec(self.data.as_slice()))
        }
    }

    /// Decodes the payload into a CRDT update: decompress when
    /// flagged, then the v1 or v2 delta decoder as the flags select.
    pub fn into_update(self) -> (r: Result<yrs::Update, StreamError>)
        ensures
            match r {
                Ok(_) => spec_update_decode_err(self.data@, self.flags) is None,
                Err(e) => spec_update_decode_err(self.data@, self.flags) == Some(e@),
            },
    {
        let bytes = match self.update_bytes() {
            Ok(b) => b,
            Err(e) => {
                return Err(e);
            },
        };
        if self.flags.is_v1_encoded() {
            yrs_decode_v1(bytes.as_slice())
        } else if v2_header_check(bytes.as_slice()) {
            yrs_decode_v2(bytes.as_slice())
        } else {
            Err(StreamError::EncodingError)
        }
    }

    /// As [`Self::into_update`], but leaves the payload usable.
    pub fn into_new_update(&self) -> (r: Result<yrs::Update, StreamError>)
        ensures
            match r {
                Ok(_) => spec_update_decode_err(self.data@, self.flags) is None,
                Err(e) => spec_update_decode_err(self.data@, self.flags) == Some(e@),
            },
    {
        let bytes = match self.update_bytes() {
            Ok(b) => b,
            Err(e) => {
                return Err(e);
            },
        };
        if self.flags.is_v1_encoded() {
            yrs_decode_v1(bytes.as_slice())
        } else if v2_header_check(bytes.as_slice()) {
            yrs_decode_v2(bytes.as_slice())
        } else {
            Err(StreamError::EncodingError)
        }
    }
}

/// A presence/awareness update as carried on a document's awareness
/// stream; always v1 and uncompressed by contract, so it has no flags.
#[derive(Debug)]
pub struct AwarenessStreamUpdate {
    pub data: Vec<u8>,
    pub sender: CollabOrigin,
}

impl AwarenessStreamUpdate {
    /// The routing key of a document's awareness stream.
    pub fn stream_key(workspace_id: &str, object_id: &str) -> (r: String)
        ensures
            r@ == "af:"@ + workspace_id@ + ":"@ + object_id@ + ":awareness"@,
    {
        let mut s = String::from_str("af:");
        s.append(workspace_id);
        s.append(":");
        s.append(object_id);
        s.append(":awareness");
        s
    }

    /// Builds an awareness update from a generic field mapping:
    /// `sender` defaults to anonymous; `data` is required.
    pub fn try_from_fields(fields: &Vec<(String, NestedValue)>) -> (r: Result<
        AwarenessStreamUpdate,
        StreamError,
    >)
        ensures
            match r {
                Ok(u) => spec_sender_field(spec_find(fields@, "sender"@)) == Ok::<
                    OriginView,
                    ErrorView,
                >(u.sender@) && spec_data_field(spec_find(fields@, "data"@)) == Ok::<
                    Seq<u8>,
                    ErrorView,
                >(u.data@),
                Err(e) => match spec_sender_field(spec_find(fields@, "sender"@)) {
                    Err(se) => e@ == se,
                    Ok(_) => spec_data_field(spec_find(fields@, "data"@)) == Err::<
                        Seq<u8>,
                        ErrorView,
                    >(e@),
                },
            },
    {
        let sender = match read_sender_field(fields) {
            Ok(o) => o,
            Err(e) => {
                return Err(e);
            },
        };
        let data = match read_data_field(fields) {
            Ok(b) => b,
            Err(e) => {
                return Err(e);
            },
        };
        Ok(AwarenessStreamUpdate { data, sender })
    }
}

/// A compressed payload whose data is the zstd frame of some delta
/// bytes hands the CRDT decoder exactly the bytes the uncompressed
/// payload would, and decodes with the same outcome.
pub proof fn lemma_compressed_update_equivalent(
    c: Seq<u8>,
    d: Seq<u8>,
    fc: UpdateFlags,
    fd: UpdateFlags,
)
    requires
        zstd_decode(c) == Some(d),
        fc.spec_is_compressed(),
        !fd.spec_is_compressed(),
        fc.spec_is_v2_encoded() == fd.spec_is_v2_encoded(),
    ensures
        spec_update_bytes(c, fc) == spec_update_bytes(d, fd),
        spec_update_decode_err(c, fc) == spec_update_decode_err(d, fd),
{
}

} // verus!
