//! Wire-protocol codec for a distributed log broker's client.
//!
//! The codec turns typed request structures into the exact big-endian byte
//! layout the broker expects and parses broker responses back into typed
//! structures. Encoding and decoding are specified down to the byte: field
//! order, integer widths, the 16-bit length prefix of strings and the 32-bit
//! count prefix of sequences, and every decoder rejects truncated or
//! malformed input instead of misreading it.

pub mod codecs;
pub mod error;
pub mod protocol;
pub mod utils;
