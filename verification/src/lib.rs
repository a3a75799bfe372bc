//! Message model and wire codecs for a collaborative-document update stream
//! carried over a log-structured pub/sub transport.
//!
//! The library is purely computational: it parses, validates and encodes
//! in-memory byte buffers. Reading from and writing to the transport itself
//! is left to the caller.

pub mod dec;
pub mod error;
pub mod flags;
pub mod message_id;
pub mod nested;
pub mod origin;
pub mod stream;
pub mod text;
pub mod update_event;
pub mod updates;
