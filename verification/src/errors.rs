use vstd::prelude::*;

verus! {

/// The ways an encode or decode operation can fail.
#[derive(Clone, Copy, Debug, PartialEq, Eq, Structural)]
pub enum SbError {
    /// A source path is neither a regular file nor a directory.
    PathNotFound,
    /// A path could not be turned into a usable relative archive name.
    PathEscapesRelativeBase,
    /// The opening marker is absent from the text handed to decode.
    StartMarkerMissing,
    /// The closing marker is absent from the text handed to decode.
    EndMarkerMissing,
    /// The last closing marker ends before the last opening marker does.
    EndMarkerBeforeStart,
    /// The text between the markers is not valid base-64.
    Base64DecodingFailed,
    /// The decoded bytes are not a valid compressed stream.
    DecompressionFailed,
    /// The archive byte stream could not be assembled.
    ArchivePackFailed,
    /// Encode was handed an empty path list.
    EmptyPathList,
}

} // verus!
