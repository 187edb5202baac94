//! The error taxonomy of the library.
//!
//! Container-level failures (`FormatError` family) abort an open atomically;
//! per-entry failures (`DecodeError` family) are reported in isolation so a
//! batch run over many tables continues past individual failures.

use vstd::prelude::*;

verus! {

/// Why a field, row or table failed to decode.
#[derive(Clone, Copy, PartialEq, Eq, Structural, Debug)]
pub enum DecodeReason {
    /// The cursor ran past the end of the input.
    UnexpectedEnd,
    /// A boolean byte held something other than 0 or 1.
    InvalidBool,
    /// A narrow string was not valid UTF-8.
    InvalidUtf8,
    /// A wide string was not valid UTF-16.
    InvalidUtf16,
    /// An optional string carried a presence flag byte other than 0 or 1,
    /// or was marked present while empty (the canonical form is absent).
    InvalidOptional,
    /// A sequence declared more sub-table rows than the remaining bytes hold.
    SequenceLengthMismatch,
    /// The table left bytes unconsumed after the declared rows.
    TrailingBytes,
}

/// Every failure a public operation of this library can report.
#[derive(Clone, PartialEq, Eq, Debug)]
pub enum RpfmError {
    /// Malformed container: the magic bytes match no supported version.
    MagicMismatch,
    /// Malformed container: the index ends before its declared size.
    TruncatedIndex,
    /// Malformed container: a header field holds a value no version defines.
    UnsupportedVersion,
    /// Malformed container: any other layout violation.
    FormatError,
    /// A field or row failed to decode, at the given byte offset.
    DecodeError { offset: usize, reason: DecodeReason },
    /// A value was too large for its length prefix when encoding.
    EncodeError,
    /// A row handed to a table does not match the definition's field count
    /// or field types.
    RowWidthMismatch,
    /// No definition of the requested version exists for the table.
    NoMatchingVersion,
    /// A schema or definition needed for a decode could not be found.
    ReferenceError,
    /// Key material for an encrypted section is missing for this version.
    EncryptionTransformError,
    /// A disk access failed; the text comes from the caller verbatim.
    IOError(String),
    /// A command needing an open pack arrived while none was open.
    NoPackOpen,
}

impl RpfmError {
    /// A short, stable, human-readable name for the error, for reports.
    pub fn message(&self) -> (s: String)
        ensures
            s@.len() > 0,
    {
        let text: &str = match self {
            RpfmError::MagicMismatch => "the file is not a supported PackFile: bad magic",
            RpfmError::TruncatedIndex => "the PackFile index is truncated",
            RpfmError::UnsupportedVersion => "the PackFile version is not supported",
            RpfmError::FormatError => "the PackFile is malformed",
            RpfmError::DecodeError { .. } => "the table data failed to decode",
            RpfmError::EncodeError => "a value is too large to encode",
            RpfmError::RowWidthMismatch => "a row does not match the table definition",
            RpfmError::NoMatchingVersion => "no schema definition matches the requested version",
            RpfmError::ReferenceError => "a required schema definition was not found",
            RpfmError::EncryptionTransformError => "no key material for this version",
            RpfmError::IOError(_) => "a disk access failed",
            RpfmError::NoPackOpen => "no PackFile is open",
        };
        proof {
            reveal_strlit("the file is not a supported PackFile: bad magic");
            reveal_strlit("the PackFile index is truncated");
            reveal_strlit("the PackFile version is not supported");
            reveal_strlit("the PackFile is malformed");
            reveal_strlit("the table data failed to decode");
            reveal_strlit("a value is too large to encode");
            reveal_strlit("a row does not match the table definition");
            reveal_strlit("no schema definition matches the requested version");
            reveal_strlit("a required schema definition was not found");
            reveal_strlit("no key material for this version");
            reveal_strlit("a disk access failed");
            reveal_strlit("no PackFile is open");
        }
        text.to_owned()
    }
}

} // verus!
