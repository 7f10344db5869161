//! The single tagged error type that every fallible operation returns.

use vstd::prelude::*;

verus! {

/// Error variants surfaced by the index, the block builder and the log.
#[derive(Debug, Clone, PartialEq)]
pub enum Error {
    /// An I/O style read completed fewer bytes than required:
    /// `(expected, got)`.
    PartialRead(usize, usize),
    /// A write completed fewer bytes than required: `(expected, got)`.
    PartialWrite(usize, usize),
    /// Compare-and-set precondition failed.
    InvalidCAS,
    /// Point lookup missed.
    KeyNotFound,
    /// A leaf block would overflow its configured size; carries the
    /// size the block would have had.
    ZBlockOverflow(usize),
    /// An intermediate block would overflow its configured size.
    MBlockOverflow(usize),
    /// Range iteration stepped past the end of a leaf block.
    ZBlockExhausted,
    /// Range iteration stepped past the end of an intermediate block.
    MBlockExhausted,
    /// A decoder was handed fewer bytes than the format requires;
    /// carries how many bytes were needed.
    DecodeFail(usize),
    /// The write-ahead-log cannot be replayed in its current state;
    /// carries the reason.
    InvalidWAL(String),
    /// An index file's trailer is not a complete, marked snapshot.
    InvalidSnapshot,
    /// An internal invariant would be broken; callers must treat this
    /// as a defect.
    UnReachable,
    /// A two-index merge was attempted on overlapping seqno ranges.
    UnExpectedFail,
}

impl Error {
    /// A short, stable text for logs and messages.
    pub fn to_text(&self) -> (r: &'static str) {
        match self {
            Error::PartialRead(_, _) => "partial read",
            Error::PartialWrite(_, _) => "partial write",
            Error::InvalidCAS => "invalid cas",
            Error::KeyNotFound => "key not found",
            Error::ZBlockOverflow(_) => "zblock overflow",
            Error::MBlockOverflow(_) => "mblock overflow",
            Error::ZBlockExhausted => "zblock exhausted",
            Error::MBlockExhausted => "mblock exhausted",
            Error::DecodeFail(_) => "decode failed",
            Error::InvalidWAL(_) => "invalid wal",
            Error::InvalidSnapshot => "invalid snapshot",
            Error::UnReachable => "unreachable",
            Error::UnExpectedFail => "unexpected failure",
        }
    }
}

} // verus!
