//! Decoder for `PiZ` archives.
//!
//! An archive does not hold the bytes of a document. It holds coordinates into
//! the hexadecimal expansion of π: groups of digit offsets that share a digit
//! count. Decoding parses those coordinates and recomputes the digits they
//! point at.
//!
//! * [`base`] — numeral-system labels and the archive header type.
//! * [`error`] — why a decode stopped, and where.
//! * [`header`] — the header grammar and the metadata lines after it.
//! * [`body`] — the body grammar: blocks of a length and its positions.
//! * [`encoding`] — how a decode plan is written, and that it is read back.
//! * [`arith`] — the signed remainder and modular exponentiation.
//! * [`digits`] — digit extraction in 60-bit fixed point.
//! * [`archive`] — the whole path from archive bytes to document bytes.

pub mod archive;
pub mod arith;
pub mod base;
pub mod body;
pub mod digits;
pub mod encoding;
pub mod error;
pub mod header;

pub use crate::archive::{assemble, decode, parse_archive};
pub use crate::arith::{modulo, pow_mod};
pub use crate::base::{parse_base_label, ArchiveHeader, NumberBase};
pub use crate::body::{parse_to_end, Block};
pub use crate::digits::{extract, get_bytes_from_pi, series};
pub use crate::error::DecodeError;
pub use crate::header::{parse_header, skip_metadata};
