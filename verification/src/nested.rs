//! The transport-agnostic view of a reply value: nil, a scalar of raw
//! bytes, or a nested list. Every higher-level decoder destructures
//! replies only through these shapes, never through a transport
//! library's own types.

use vstd::prelude::*;
use vstd::string::StringExecFns;
use vstd::utf8::{decode_utf8, encode_utf8_decode_utf8, valid_utf8};
use crate::error::{ErrorView, Shape, StreamError};
use crate::text::string_from_utf8;

verus! {

/// One node of a transport reply tree.
#[derive(Debug)]
pub enum NestedValue {
    /// A nil reply: no data available.
    Nil,
    /// A scalar holding raw bytes (a binary-safe string).
    Scalar(Vec<u8>),
    /// A nested list of reply values.
    List(Vec<NestedValue>),
}

impl NestedValue {
    /// The shape of this node.
    pub open spec fn shape(&self) -> Shape {
        match self {
            NestedValue::Nil => Shape::Nil,
            NestedValue::Scalar(_) => Shape::Scalar,
            NestedValue::List(_) => Shape::List,
        }
    }

    /// Whether this node is the nil reply.
    pub fn is_nil(&self) -> (r: bool)
        ensures
            r == (self.shape() == Shape::Nil),
    {
        match self {
            NestedValue::Nil => true,
            _ => false,
        }
    }

    /// The bytes of a scalar node; any other shape is a `TypeError`.
    pub fn as_scalar(&self) -> (r: Result<&Vec<u8>, StreamError>)
        ensures
            match r {
                Ok(b) => (*self) matches NestedValue::Scalar(x) && x@ == b@,
                Err(e) => self.shape() != Shape::Scalar && e@ == (ErrorView::TypeError {
                    expected: Shape::Scalar,
                    found: self.shape(),
                }),
            },
    {
        match self {
            NestedValue::Scalar(b) => Ok(b),
            _ => Err(StreamError::TypeError { expected: Shape::Scalar, found: self.kind() }),
        }
    }

    /// The elements of a list node; any other shape is a `TypeError`.
    pub fn as_list(&self) -> (r: Result<&Vec<NestedValue>, StreamError>)
        ensures
            match r {
                Ok(l) => (*self) matches NestedValue::List(x) && x@ == l@,
                Err(e) => self.shape() != Shape::List && e@ == (ErrorView::TypeError {
                    expected: Shape::List,
                    found: self.shape(),
                }),
            },
    {
        match self {
            NestedValue::List(l) => Ok(l),
            _ => Err(StreamError::TypeError { expected: Shape::List, found: self.kind() }),
        }
    }

    /// The shape of this node, as a value.
    pub fn kind(&self) -> (r: Shape)
        ensures
            r == self.shape(),
    {
        match self {
            NestedValue::Nil => Shape::Nil,
            NestedValue::Scalar(_) => Shape::Scalar,
            NestedValue::List(_) => Shape::List,
        }
    }
}

/// What decoding a node as UTF-8 text yields: the node must be a
/// scalar, and its bytes must be valid UTF-8.
pub open spec fn spec_decode_text(v: NestedValue) -> Result<Seq<char>, ErrorView> {
    match v {
        NestedValue::Scalar(b) => if valid_utf8(b@) {
            Ok(decode_utf8(b@))
        } else {
            Err(ErrorView::Utf8Error)
        },
        _ => Err(ErrorView::TypeError { expected: Shape::Scalar, found: v.shape() }),
    }
}

/// A textual reply value: a scalar node decoded as UTF-8 text.
pub struct RedisString(pub String);

impl RedisString {
    /// Decodes a scalar node as UTF-8 text.
    pub fn from_redis_value(v: &NestedValue) -> (r: Result<RedisString, StreamError>)
        ensures
            match r {
                Ok(s) => spec_decode_text(*v) == Ok::<Seq<char>, ErrorView>(s.0@),
                Err(e) => spec_decode_text(*v) == Err::<Seq<char>, ErrorView>(e@),
            },
    {
        match v.as_scalar() {
            Ok(b) => {
                let bytes = vstd::slice::slice_to_vec(b.as_slice());
                match string_from_utf8(bytes) {
                    Ok(s) => {
                        proof {
                            encode_utf8_decode_utf8(s@);
                        }
                        Ok(RedisString(s))
                    },
                    Err(e) => Err(e),
                }
            },
            Err(e) => Err(e),
        }
    }

    /// The text itself.
    pub fn into_string(self) -> (r: String)
        ensures
            r@ == self.0@,
    {
        self.0
    }
}

/// Checks that a node is the given field name: it must decode as text
/// equal to `expected`, else the found name is an `UnexpectedValue`.
pub fn verify_field(field: &NestedValue, expected: &str) -> (r: Result<(), StreamError>)
    ensures
        match r {
            Ok(_) => spec_decode_text(*field) == Ok::<Seq<char>, ErrorView>(expected@),
            Err(e) => match spec_decode_text(*field) {
                Ok(name) => name != expected@ && e@ == ErrorView::UnexpectedValue(name),
                Err(v) => e@ == v,
            },
        },
{
    let name = match RedisString::from_redis_value(field) {
        Ok(s) => s.0,
        Err(e) => {
            return Err(e);
        },
    };
    if name == String::from_str(expected) {
        Ok(())
    } else {
        Err(StreamError::UnexpectedValue(name))
    }
}

} // verus!
