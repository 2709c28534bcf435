//! Error kinds surfaced by the reader.

use vstd::prelude::*;

verus! {

/// What can go wrong while opening a recording or reading samples.
#[derive(Clone, Copy, Debug, PartialEq, Eq, Structural)]
pub enum EdfError {
    /// The file could not be opened at all.
    FileNotFound,
    /// The file is not an EDF+C recording.
    UnsupportedFileType,
    /// The header contradicts itself or the records are discontinuous.
    InvalidHeader,
    /// The declared signal count is out of range.
    InvalidSignalCount,
    /// A signal index beyond the user-visible signals.
    InvalidSignalIndex,
    /// A signal declares equal physical minimum and maximum.
    PhysicalMinEqualsMax,
    /// A signal declares equal digital minimum and maximum.
    DigitalMinEqualsMax,
    /// The start date or time is malformed.
    FormatError,
    /// The data ends before the bytes that were asked for.
    FileReadError,
}

impl EdfError {
    /// A short description of the error.
    pub fn description(&self) -> (r: String)
        ensures
            self is FileNotFound ==> r@ == "file not found"@,
            self is UnsupportedFileType ==> r@ == "unsupported file type"@,
            self is InvalidHeader ==> r@ == "invalid header"@,
            self is InvalidSignalCount ==> r@ == "invalid signal count"@,
            self is InvalidSignalIndex ==> r@ == "invalid signal index"@,
            self is PhysicalMinEqualsMax ==> r@ == "physical minimum equals maximum"@,
            self is DigitalMinEqualsMax ==> r@ == "digital minimum equals maximum"@,
            self is FormatError ==> r@ == "malformed start date or time"@,
            self is FileReadError ==> r@ == "file read error"@,
    {
        match self {
            EdfError::FileNotFound => String::from_str("file not found"),
            EdfError::UnsupportedFileType => String::from_str("unsupported file type"),
            EdfError::InvalidHeader => String::from_str("invalid header"),
            EdfError::InvalidSignalCount => String::from_str("invalid signal count"),
            EdfError::InvalidSignalIndex => String::from_str("invalid signal index"),
            EdfError::PhysicalMinEqualsMax => String::from_str("physical minimum equals maximum"),
            EdfError::DigitalMinEqualsMax => String::from_str("digital minimum equals maximum"),
            EdfError::FormatError => String::from_str("malformed start date or time"),
            EdfError::FileReadError => String::from_str("file read error"),
        }
    }
}

} // verus!
