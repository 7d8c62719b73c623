//! A crate for parsing data encoded in Concise Binary Object Representation
//! (CBOR), in any of raw binary, hex encoded (with comments) or diagnostic
//! notation, then printing it out in either annotated hex form or diagnostic
//! notation. While doing so as much of the structured data as possible is
//! retained to improve the debugging experience.
//!
//! Floating point values are held as bit patterns; the texts of them, and
//! the values of float literals read from diagnostic notation, are computed
//! by functions the caller passes in (see [`FloatText`] and
//! [`FloatLiteral`]).

pub mod codecs;
pub mod encode;
pub mod error;
pub mod float;
pub mod laws;
pub mod parse;
pub mod readback;
pub mod syntax;
pub mod text;

pub use self::encode::Encoding;
pub use self::error::{Error, Result};
pub use self::float::FloatText;
pub use self::parse::binary::{parse_bytes, parse_bytes_partial};
pub use self::parse::diag::{parse_diag, FloatLiteral};
pub use self::parse::parse_hex;
pub use self::syntax::{ByteString, DataItem, FloatWidth, IntegerWidth, Simple, Tag, TextString};
