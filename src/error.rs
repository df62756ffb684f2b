use vstd::prelude::*;

verus! {

/// What is wrong with one entity of an archive header.
#[derive(Debug, Clone, Copy, PartialEq, Eq, Structural)]
pub enum HeaderFault {
    /// The entity is no file descriptor and has no `files` object.
    MissingFiles,
    /// The file's `size` is a number but no unsigned integer.
    SizeNotInteger,
    /// The file's `size` exceeds the largest size an archive may hold.
    SizeTooLarge,
    /// The file's `offset` string is no decimal unsigned 64-bit integer.
    BadOffset,
    /// The header value is no JSON object.
    NotObject,
    /// The frame is shorter than its length fields say.
    Truncated,
    /// The frame does not open with the marker `4`.
    BadMarker,
    /// The JSON text of the header does not parse.
    BadJson,
}

/// The errors of this library.
#[derive(Debug, PartialEq, Eq)]
pub enum Error {
    /// A read or write failed; the text names what failed.
    IoError(String),
    /// The header is malformed; the text names the offending entity.
    ParseHeaderError(HeaderFault, String),
    /// An operation was asked of a content kind that does not support it.
    UnknownContentType(String),
    /// The JSON text of a header could not be parsed or written.
    SerdeJsonError(String),
}

} // verus!
