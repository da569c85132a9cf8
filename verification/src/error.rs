//! The ways in which a decoding session can fail.

use vstd::prelude::*;

verus! {

/// The class of a failure. Every failure is fatal to its session.
#[derive(Clone, Copy, Debug, PartialEq, Eq, Structural)]
pub enum ErrorKind {
    /// The delta is malformed: bad magic, an unassigned opcode, an overlong
    /// integer, an address outside the valid range, or sections that do not
    /// add up to the announced target.
    FormatError,
    /// A window's checksum does not match the bytes rebuilt for it.
    ChecksumMismatch,
    /// A window, or the whole target, is larger than the session allows.
    ResourceLimitExceeded,
    /// The session was finished while part of a header or window was pending.
    TruncatedDelta,
    /// An option was outside the range that a decoder accepts.
    InvalidOption,
}

/// A failure of a decoding session.
#[derive(Clone, Copy, Debug, PartialEq, Eq, Structural)]
pub struct Error {
    pub kind: ErrorKind,
}

impl Error {
    /// The text that describes a failure of the given class.
    pub open spec fn description_of(kind: ErrorKind) -> Seq<char> {
        match kind {
            ErrorKind::FormatError => "malformed delta"@,
            ErrorKind::ChecksumMismatch => "window checksum mismatch"@,
            ErrorKind::ResourceLimitExceeded => "target size limit exceeded"@,
            ErrorKind::TruncatedDelta => "delta ends inside a header or window"@,
            ErrorKind::InvalidOption => "decoder option out of range"@,
        }
    }

    /// The text of `message` for a failure of the given class.
    pub open spec fn message_of(kind: ErrorKind) -> Seq<char> {
        match kind {
            ErrorKind::FormatError => "vcdiff error: malformed delta"@,
            ErrorKind::ChecksumMismatch => "vcdiff error: window checksum mismatch"@,
            ErrorKind::ResourceLimitExceeded => "vcdiff error: target size limit exceeded"@,
            ErrorKind::TruncatedDelta => "vcdiff error: delta ends inside a header or window"@,
            ErrorKind::InvalidOption => "vcdiff error: decoder option out of range"@,
        }
    }

    pub fn new(kind: ErrorKind) -> (e: Error)
        ensures
            e.kind == kind,
    {
        Error { kind }
    }

    pub fn kind(&self) -> (k: ErrorKind)
        ensures
            k == self.kind,
    {
        self.kind
    }

    /// A short description of the failure.
    pub fn description(&self) -> (text: &'static str)
        ensures
            text@ == Self::description_of(self.kind),
    {
        match self.kind {
            ErrorKind::FormatError => "malformed delta",
            ErrorKind::ChecksumMismatch => "window checksum mismatch",
            ErrorKind::ResourceLimitExceeded => "target size limit exceeded",
            ErrorKind::TruncatedDelta => "delta ends inside a header or window",
            ErrorKind::InvalidOption => "decoder option out of range",
        }
    }

    /// The description, prefixed as it is shown to a user.
    pub fn message(&self) -> (text: String)
        ensures
            text@ == Self::message_of(self.kind),
    {
        match self.kind {
            ErrorKind::FormatError => "vcdiff error: malformed delta".to_owned(),
            ErrorKind::ChecksumMismatch => "vcdiff error: window checksum mismatch".to_owned(),
            ErrorKind::ResourceLimitExceeded => "vcdiff error: target size limit exceeded".to_owned(),
            ErrorKind::TruncatedDelta => "vcdiff error: delta ends inside a header or window".to_owned(),
            ErrorKind::InvalidOption => "vcdiff error: decoder option out of range".to_owned(),
        }
    }
}

} // verus!
