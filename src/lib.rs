//! A decoder for bencode, the self-describing format of integers, byte
//! strings, lists and dictionaries used by torrent descriptors.
//!
//! `decode` scans the whole buffer once, keeping open lists and dictionaries
//! on an explicit stack, and returns every top-level value in order, or the
//! first error with its byte offset. Choices where the format leaves room:
//! - integers are `i64`; one outside that range is an `IntOverflow` error;
//! - a dictionary key that is not a byte string is an `InvalidDict` error;
//! - dictionary keys may come in any order; the result holds them sorted,
//!   and a repeated key keeps its last value;
//! - a buffer may hold any number of top-level values, none included.

pub mod error;
pub mod value;
pub mod scalar;
pub mod decoder;
pub mod laws;

pub use error::DecodeError;
pub use value::BencodeValue;
pub use scalar::{decode_bytestr, decode_int};
pub use decoder::decode;
