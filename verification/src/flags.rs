//! The one-byte bitfield describing how an update payload's bytes are
//! encoded and compressed. Every byte value is a valid flag set; the
//! bits beyond the two defined ones are reserved and ignored.

use vstd::prelude::*;
use vstd::string::StringExecFns;

verus! {

/// Flag byte of an update payload: bit 0 set means the delta is encoded
/// with the v2 binary format (clear: v1), bit 1 set means the payload
/// bytes are compressed.
#[derive(Debug, Copy, Clone, PartialEq, Eq, Structural)]
pub struct UpdateFlags(pub u8);

impl UpdateFlags {
    /// Flag bit marking an update encoded with the v2 format (clear: v1).
    pub const IS_V2_ENCODED: u8 = 0b0000_0001;

    /// Flag bit marking a compressed payload.
    pub const IS_COMPRESSED: u8 = 0b0000_0010;

    /// Whether the delta bytes use the v2 binary format.
    pub open spec fn spec_is_v2_encoded(&self) -> bool {
        self.0 & UpdateFlags::IS_V2_ENCODED != 0
    }

    /// Whether the payload bytes are compressed.
    pub open spec fn spec_is_compressed(&self) -> bool {
        self.0 & UpdateFlags::IS_COMPRESSED != 0
    }

    #[verifier::when_used_as_spec(spec_is_v2_encoded)]
    pub fn is_v2_encoded(&self) -> (r: bool)
        ensures
            r == self.spec_is_v2_encoded(),
    {
        self.0 & UpdateFlags::IS_V2_ENCODED != 0
    }

    pub fn is_v1_encoded(&self) -> (r: bool)
        ensures
            r == !self.spec_is_v2_encoded(),
    {
        !self.is_v2_encoded()
    }

    #[verifier::when_used_as_spec(spec_is_compressed)]
    pub fn is_compressed(&self) -> (r: bool)
        ensures
            r == self.spec_is_compressed(),
    {
        self.0 & UpdateFlags::IS_COMPRESSED != 0
    }

    /// The raw byte, for writing the flag field back to the transport.
    pub fn into_byte(&self) -> (r: u8)
        ensures
            r == self.0,
    {
        self.0
    }

    /// Diagnostic rendering: the encoding version, then the compression.
    pub fn to_text(&self) -> (r: String)
        ensures
            !self.spec_is_v2_encoded() && !self.spec_is_compressed() ==> r@ == ".v1"@,
            self.spec_is_v2_encoded() && !self.spec_is_compressed() ==> r@ == ".v2"@,
            !self.spec_is_v2_encoded() && self.spec_is_compressed() ==> r@ == ".v1.zstd"@,
            self.spec_is_v2_encoded() && self.spec_is_compressed() ==> r@ == ".v2.zstd"@,
    {
        if self.is_v2_encoded() {
            if self.is_compressed() {
                String::from_str(".v2.zstd")
            } else {
                String::from_str(".v2")
            }
        } else {
            if self.is_compressed() {
                String::from_str(".v1.zstd")
            } else {
                String::from_str(".v1")
            }
        }
    }
}

impl Default for UpdateFlags {
    /// The default flags: v1-encoded, uncompressed.
    fn default() -> (r: Self)
        ensures
            r.0 == 0,
            !r.spec_is_v2_encoded(),
            !r.spec_is_compressed(),
    {
        proof {
            assert(0u8 & 1u8 == 0 && 0u8 & 2u8 == 0) by (bit_vector);
        }
        UpdateFlags(0)
    }
}

impl From<u8> for UpdateFlags {
    /// Every byte is a valid flag set; conversion never fails.
    fn from(value: u8) -> (r: Self) {
        UpdateFlags(value)
    }
}

impl vstd::std_specs::convert::FromSpecImpl<u8> for UpdateFlags {
    open spec fn obeys_from_spec() -> bool {
        true
    }

    open spec fn from_spec(value: u8) -> Self {
        UpdateFlags(value)
    }
}

/// Setting the compression bit of any flag byte flips only the
/// compression, never the encoding version; clearing it likewise.
pub proof fn lemma_compression_bit_independent(v: u8)
    ensures
        UpdateFlags(v | UpdateFlags::IS_COMPRESSED).spec_is_compressed(),
        UpdateFlags(v | UpdateFlags::IS_COMPRESSED).spec_is_v2_encoded()
            == UpdateFlags(v).spec_is_v2_encoded(),
        !UpdateFlags(v & !UpdateFlags::IS_COMPRESSED).spec_is_compressed(),
        UpdateFlags(v & !UpdateFlags::IS_COMPRESSED).spec_is_v2_encoded()
            == UpdateFlags(v).spec_is_v2_encoded(),
{
    assert((v | 2u8) & 2u8 != 0) by (bit_vector);
    assert(((v | 2u8) & 1u8 != 0) == (v & 1u8 != 0)) by (bit_vector);
    assert((v & !2u8) & 2u8 == 0) by (bit_vector);
    assert(((v & !2u8) & 1u8 != 0) == (v & 1u8 != 0)) by (bit_vector);
}

} // verus!
