//! Error kinds of the parsing layers and of the whole extraction.
use vstd::prelude::*;

verus! {

/// What can go wrong while one object or stream is read.
#[derive(Clone, Copy, Debug, PartialEq, Eq, Structural)]
pub enum ParseError {
    /// A token breaks a lexical rule: an unterminated string, a bad hex digit.
    MalformedToken,
    /// The tokens are well formed but do not make up the expected object.
    UnexpectedToken,
    /// Arrays and dictionaries are nested deeper than the parser follows.
    NestingTooDeep,
    /// A reference leads to no object.
    DanglingReference,
    /// A chain of references comes back to an object it has visited.
    CyclicReference,
    /// A stream names a filter that is not implemented.
    UnsupportedFilter,
    /// The data of a stream cannot be decoded by its filter.
    FilterDecodeError,
}

/// The kinds of failure of an extraction.
#[derive(Clone, Copy, Debug, PartialEq, Eq, Structural)]
pub enum ErrorKind {
    InvalidPdfHeader,
    NotPDFA3,
    MissingTrailer,
    CorruptXref,
    CyclicReference,
    TreeTooDeep,
    NoEmbeddedFiles,
    UnsupportedFilter,
    FilterDecodeError,
    NoXmlCandidate,
    ExtractionFailed,
}

/// The name of a kind of failure.
pub open spec fn kind_label(kind: ErrorKind) -> Seq<char> {
    match kind {
        ErrorKind::InvalidPdfHeader => "InvalidPdfHeader"@,
        ErrorKind::NotPDFA3 => "NotPDFA3"@,
        ErrorKind::MissingTrailer => "MissingTrailer"@,
        ErrorKind::CorruptXref => "CorruptXref"@,
        ErrorKind::CyclicReference => "CyclicReference"@,
        ErrorKind::TreeTooDeep => "TreeTooDeep"@,
        ErrorKind::NoEmbeddedFiles => "NoEmbeddedFiles"@,
        ErrorKind::UnsupportedFilter => "UnsupportedFilter"@,
        ErrorKind::FilterDecodeError => "FilterDecodeError"@,
        ErrorKind::NoXmlCandidate => "NoXmlCandidate"@,
        ErrorKind::ExtractionFailed => "ExtractionFailed"@,
    }
}

impl ErrorKind {
    /// The name of the kind, as text for a caller.
    pub fn label(&self) -> (r: String)
        ensures
            r@ == kind_label(*self),
    {
        match self {
            ErrorKind::InvalidPdfHeader => "InvalidPdfHeader".to_owned(),
            ErrorKind::NotPDFA3 => "NotPDFA3".to_owned(),
            ErrorKind::MissingTrailer => "MissingTrailer".to_owned(),
            ErrorKind::CorruptXref => "CorruptXref".to_owned(),
            ErrorKind::CyclicReference => "CyclicReference".to_owned(),
            ErrorKind::TreeTooDeep => "TreeTooDeep".to_owned(),
            ErrorKind::NoEmbeddedFiles => "NoEmbeddedFiles".to_owned(),
            ErrorKind::UnsupportedFilter => "UnsupportedFilter".to_owned(),
            ErrorKind::FilterDecodeError => "FilterDecodeError".to_owned(),
            ErrorKind::NoXmlCandidate => "NoXmlCandidate".to_owned(),
            ErrorKind::ExtractionFailed => "ExtractionFailed".to_owned(),
        }
    }
}

} // verus!
