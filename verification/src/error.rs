//! The ways in which decoding a table or synchronising two tables fails.

use vstd::prelude::*;

verus! {

/// Why a byte buffer is not a table.
#[derive(Debug, Clone, Copy, PartialEq, Eq, Structural)]
pub enum FormatError {
    /// The buffer is shorter than header, checksum header and footer together.
    FileTooSmall,
    /// The footer does not start with the magic number.
    InvalidMagic,
    /// The encoding selector of the footer has the given, unknown value.
    UnknownEncoding(i16),
    /// The entry stream is valid neither with 4-byte nor with 8-byte values.
    UnknownValueWidth,
    /// The string data does not end inside the buffer.
    StringDataOutOfRange,
    /// The header of the checksum section does not lie inside the buffer.
    ChecksumHeaderOutOfRange,
    /// The records or the names of the checksum section do not lie inside the
    /// buffer.
    ChecksumSectionOutOfRange,
    /// The checksum section holds no record.
    NoChecksumEntries,
    /// An entry's checksum has no record in the checksum section.
    MissingName,
    /// The name that an entry's checksum leads to cannot be read.
    NameReadFailed,
}

/// Why two tables cannot be synchronised.
#[derive(Debug, Clone, PartialEq, Eq)]
pub enum SyncError {
    /// The original table cannot be decoded.
    Original(FormatError),
    /// The patched table cannot be decoded.
    Patched(FormatError),
    /// A row of the patched table that names a file has no size column. The
    /// path of the file is given.
    MissingSizeField(String),
    /// No row of the patched table gives a size.
    NoPatchedEntries,
}

/// What a `SyncError` holds.
pub ghost enum SyncErrorView {
    Original(FormatError),
    Patched(FormatError),
    MissingSizeField(Seq<char>),
    NoPatchedEntries,
}

impl View for SyncError {
    type V = SyncErrorView;

    open spec fn view(&self) -> SyncErrorView {
        match self {
            SyncError::Original(e) => SyncErrorView::Original(*e),
            SyncError::Patched(e) => SyncErrorView::Patched(*e),
            SyncError::MissingSizeField(path) => SyncErrorView::MissingSizeField(path@),
            SyncError::NoPatchedEntries => SyncErrorView::NoPatchedEntries,
        }
    }
}

} // verus!
