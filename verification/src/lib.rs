//! Codec for a compact, self-describing binary message format in the style of
//! Open Sound Control: a command is an address-pattern string plus an ordered
//! list of typed arguments, laid out on the wire with 4-byte alignment,
//! null-terminated padded strings, and a type-tag block that drives decoding.
//!
//! The wire layout of a command is
//!
//! ```text
//! Command            := AddressString TagBlock Argument*
//! AddressString      := UTF8-bytes NUL pad-to-4
//! TagBlock           := ',' tag-char* NUL pad-to-4
//! Argument (string)  := UTF8-bytes NUL pad-to-4
//! Argument (integer) := int32, 4 bytes big-endian
//! Argument (float)   := float32 bits, 4 bytes big-endian
//! Argument (binary)  := uint32 length big-endian, then that many raw bytes, pad-to-4
//! ```
//!
//! Every multi-byte field is big-endian. Encoding and decoding are proved to
//! agree: decoding an encoded command yields the command back.

pub mod command;
pub mod error;
pub mod wire;

pub use command::{Argument, Command};
pub use error::Error;
pub use wire::{decode_string, encode_string, pad};
