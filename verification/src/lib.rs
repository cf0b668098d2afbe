//! Conversion between legacy single-byte character encodings and Unicode.
//!
//! Every encoding of this family maps the bytes below `0x80` to ASCII and the
//! bytes from `0x80` upward through a table of 128 code units. A decoder and
//! an encoder are made from such a table; both convert in bounded steps and
//! say after each step why they stopped.

pub mod decoder;
pub mod encoder;
pub mod identity;
pub mod laws;
pub mod outcome;
pub mod table;
pub mod unicode;

pub use decoder::SingleByteDecoder;
pub use encoder::SingleByteEncoder;
pub use identity::Encoding;
pub use outcome::{DecoderResult, EncoderResult};
