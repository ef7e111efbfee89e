//! The ways in which reading a blob can fail.

use vstd::prelude::*;

verus! {

/// Why a blob was refused.
#[derive(Debug)]
pub enum AxmzipError {
    /// The blob does not begin with the expected magic bytes.
    BadMagic,
    /// The blob was written in another version of the format.
    BadVersion,
    /// The contents do not have the stored checksum.
    ChecksumMismatch,
    /// The contents are malformed; the text says where.
    InvalidData(String),
}

/// The mathematical value of an [`AxmzipError`].
pub enum Failure {
    BadMagic,
    BadVersion,
    ChecksumMismatch,
    InvalidData(Seq<char>),
}

impl View for AxmzipError {
    type V = Failure;

    open spec fn view(&self) -> Failure {
        match *self {
            AxmzipError::BadMagic => Failure::BadMagic,
            AxmzipError::BadVersion => Failure::BadVersion,
            AxmzipError::ChecksumMismatch => Failure::ChecksumMismatch,
            AxmzipError::InvalidData(text) => Failure::InvalidData(text@),
        }
    }
}

/// The text that a failure is shown as.
pub open spec fn failure_text(f: Failure) -> Seq<char> {
    match f {
        Failure::BadMagic => "Not an axmzip file (bad magic)"@,
        Failure::BadVersion => "Unsupported format version"@,
        Failure::ChecksumMismatch => "Checksum mismatch — file may be corrupted"@,
        Failure::InvalidData(text) => "Invalid data: "@ + text,
    }
}

impl AxmzipError {
    /// The error as shown to a user.
    pub fn message(&self) -> (text: String)
        ensures
            text@ == failure_text(self@),
    {
        match self {
            AxmzipError::BadMagic => "Not an axmzip file (bad magic)".to_owned(),
            AxmzipError::BadVersion => "Unsupported format version".to_owned(),
            AxmzipError::ChecksumMismatch => "Checksum mismatch — file may be corrupted".to_owned(),
            AxmzipError::InvalidData(text) => "Invalid data: ".to_owned().concat(text.as_str()),
        }
    }
}

/// The error for malformed data, with the given text.
pub(crate) fn invalid(text: &str) -> (e: AxmzipError)
    ensures
        e@ == Failure::InvalidData(text@),
{
    AxmzipError::InvalidData(text.to_owned())
}

/// What is wrong with malformed data is told in full.
pub proof fn law_failure_told(text: Seq<char>)
    ensures
        failure_text(Failure::InvalidData(text)) == "Invalid data: "@ + text,
        failure_text(Failure::BadMagic) == "Not an axmzip file (bad magic)"@,
        failure_text(Failure::BadVersion) == "Unsupported format version"@,
        failure_text(Failure::ChecksumMismatch) == "Checksum mismatch — file may be corrupted"@,
{
}

/// An error is the failure that it is named after.
pub proof fn law_errors_viewed(e: AxmzipError)
    ensures
        match e {
            AxmzipError::BadMagic => e@ == Failure::BadMagic,
            AxmzipError::BadVersion => e@ == Failure::BadVersion,
            AxmzipError::ChecksumMismatch => e@ == Failure::ChecksumMismatch,
            AxmzipError::InvalidData(text) => e@ == Failure::InvalidData(text@),
        },
{
}

} // verus!
