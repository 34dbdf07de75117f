//! TLS ClientHello message model and its wire codec.
//!
//! The message is modelled field by field, encoded to the RFC 5246/8446 wire
//! layout (fixed fields verbatim, variable-length vectors behind a big-endian
//! length prefix sized by the vector's ceiling), decoded back, and produced
//! lazily one byte at a time.
pub mod vector;
pub mod message;
pub mod codec;
pub mod stream;

pub use codec::{DecodeErrorKind, DecodingError, EncodingError};
pub use message::{ClientHello, Field, ValidationError};
pub use stream::ClientHelloIterator;
