//! The errors that tree operations and codecs report.

use vstd::prelude::*;

verus! {

/// What a decoder found wrong at the position it reports.
#[derive(Debug, Clone, Copy, PartialEq, Eq, Structural)]
pub enum ParseMessage {
    /// The buffer does not start with the format's magic bytes.
    BadMagic,
    /// The trailer's fields do not describe a document.
    BadTrailer,
    /// An entry of the offset table points outside the object area.
    BadOffset,
    /// An object starts with a marker byte that stands for no object.
    BadMarker,
    /// A length or count is not given as an integer object.
    BadLength,
    /// An object reference names no object of the table.
    BadReference,
    /// A dictionary key refers to an object that is not a string.
    BadKey,
    /// A string holds a code unit sequence that is no text.
    BadText,
    /// Bytes follow where the document has to end.
    TrailingBytes,
    /// A tag is not closed, or is closed by the wrong name.
    BadTag,
    /// An element name that the format does not have.
    UnknownElement,
    /// A character reference that the format does not have.
    BadEscape,
    /// An integer, a date or base64 text that cannot be read.
    BadValue,
    /// A dictionary that does not alternate keys and values.
    BadDictionary,
    /// No text was supplied for a real number, or no number for its text.
    MissingReal,
}

/// The ways in which an operation of this library fails.
#[derive(Debug, Clone, Copy, PartialEq, Eq, Structural)]
pub enum PlistError {
    /// An accessor was applied to a node of another variant.
    TypeMismatch,
    /// An array index is not below the array's size.
    IndexOutOfRange,
    /// A dictionary holds no item under the key.
    KeyNotFound,
    /// A path segment does not lead to a node.
    PathNotFound,
    /// The input is malformed at `position`.
    ParseError { position: usize, message: ParseMessage },
    /// The buffer is shorter than its header, trailer or tables require.
    TruncatedInput,
    /// An object of a binary document contains itself.
    CyclicReference,
    /// The header names a version of the binary format other than `00`.
    UnsupportedVersion,
}

} // verus!
