//! Decoder for the StarDict dictionary file family: the `.ifo` metadata
//! text file, the `.idx` binary word index, and the (optionally
//! gzip-compressed) `.dict` entry-data file.
//!
//! The callers read the files; this crate parses and decodes their
//! bytes: the metadata table, the word records with their
//! `(offset, length)` pointers, and the entry blocks under the format's
//! two field layouts.

use vstd::prelude::*;

pub mod bytes;
pub mod decode;
pub mod dict;
pub mod fieldmap;
pub mod info;
pub mod parser;
pub mod trusted;

pub use fieldmap::FieldMap;

verus! {

/// The failure kinds a decoding step can surface.
#[derive(Clone, Copy, Debug, PartialEq, Eq, Structural)]
pub enum StarDictError {
    /// A word or a text field is not valid UTF-8.
    Encoding,
    /// The index buffer ends in the middle of a record.
    Truncated,
    /// An entry's declared length does not match its encoded fields,
    /// or decompression of the entry data failed.
    Corrupt,
    /// An (offset, length) pair addresses bytes beyond the loaded buffer.
    OutOfRange,
    /// A uniform-layout accessor was used although the metadata declares
    /// no uniform layout.
    Precondition,
}

} // verus!
