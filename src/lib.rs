//! Length-prefixed binary encoding for network message payloads.
//!
//! A type joins the framework by implementing [`Codec`]: a symmetric pair of
//! `encode` / `decode` operations whose behaviour is given by spec functions over
//! an abstract model of the value, together with the laws every implementation
//! must prove (round trip, bounded consumption, truncation detection).
//! Sequences of any `Codec` type are themselves `Codec`, prefixed by a
//! [`VarInt`] element count.

pub mod error;
pub mod cursor;
pub mod codec;
pub mod varint;
pub mod sequence;

pub use error::{DecodeError, EncodeError};
pub use cursor::Cursor;
pub use codec::Codec;
pub use varint::VarInt;
