//! The errors that decoding and encoding report.

use vstd::prelude::*;

verus! {

/// Why a buffer could not be decoded.
#[derive(Clone, Copy, Debug, PartialEq, Eq, Structural)]
pub enum DecodeError {
    /// The buffer ends before the field that is being read does: in the
    /// header, at a label's length byte, inside a label, or inside the fixed
    /// fields or the data of a record.
    TruncatedBuffer,
    /// A label's length byte is above 63, as the first byte of a
    /// compression pointer is, or the label's bytes are not UTF-8 text.
    InvalidLabel,
}

/// Why a value could not be encoded.
#[derive(Clone, Copy, Debug, PartialEq, Eq, Structural)]
pub enum EncodeError {
    /// The buffer has fewer bytes from the given offset on than the encoding
    /// takes. Nothing has been written.
    BufferTooSmall,
}

} // verus!
