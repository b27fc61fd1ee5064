//! The values that a lookup hands back, and its errors.
use vstd::prelude::*;

use crate::format::FieldValue;

verus! {

/// A field's value. `Double` and `Float` hold the IEEE-754 bit patterns of a
/// binary64 and a binary32 number.
#[derive(Clone, Debug)]
pub enum ResultValue {
    String(String),
    Uint(u64),
    Boolean(bool),
    Double(u64),
    Float(u32),
}

impl View for ResultValue {
    type V = FieldValue;

    open spec fn view(&self) -> FieldValue {
        match self {
            ResultValue::String(s) => FieldValue::Text(s@),
            ResultValue::Uint(v) => FieldValue::Uint(*v),
            ResultValue::Boolean(b) => FieldValue::Boolean(*b),
            ResultValue::Double(bits) => FieldValue::Double(*bits),
            ResultValue::Float(bits) => FieldValue::Float(*bits),
        }
    }
}

/// Why a database cannot be opened or read.
#[derive(Clone, Copy, Debug, PartialEq, Eq, Structural)]
pub enum Error {
    /// The image is shorter than the 14-byte metadata sentinel, as a
    /// truncated or empty file is. (A file that cannot be read at all is
    /// reported by whoever reads it.)
    Io,
    /// No metadata sentinel; the metadata map missing, malformed, or without
    /// `node_count`, `record_size` or `ip_version`; or a record size other
    /// than 24, 28 or 32 or an IP version other than 4 or 6.
    MalformedMetadata,
    /// A value that does not decode: an undefined type tag, a non-string map
    /// key, invalid UTF-8, or a size or offset outside the buffer. Also a
    /// trie walk that would read a node that does not exist or lies beyond
    /// the image (node 96 missing, a trie cut short), and a record that
    /// points into the separator.
    MalformedData,
}

/// An executable outcome agrees with the model's: `Err(())` is
/// `MalformedData`, and a value is the value with that view.
pub open spec fn agrees(r: Result<Option<ResultValue>, Error>, s: Result<Option<FieldValue>, ()>) -> bool {
    match s {
        Err(_) => r == Err::<Option<ResultValue>, Error>(Error::MalformedData),
        Ok(None) => r == Ok::<Option<ResultValue>, Error>(None),
        Ok(Some(v)) => r matches Ok(Some(x)) && x@ == v,
    }
}

} // verus!
