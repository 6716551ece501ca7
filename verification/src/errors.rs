//! The error taxonomy of a scan.  Stream-level integrity violations are
//! surfaced with the offset at which they occurred; everything local — a
//! malformed card, an unrecognized value shape, an unknown unit kind — is
//! absorbed into the data model instead and never raised as an error.

use vstd::prelude::*;

verus! {

/// Mathematical model of a scan error.
pub enum ErrorModel {
    /// A partial block begins at `offset`.
    Truncated { offset: int },
    /// The data ended before the terminator card of the unit whose header
    /// begins at `offset`.
    Unterminated { offset: int },
}

/// A stream-level failure of a scan.
#[derive(Clone, Copy, Debug, PartialEq, Eq, Structural)]
pub enum ScanError {
    /// A read yielded a byte count that is neither a full block nor a
    /// clean end: a partial block begins at `offset`.  Offsets after this
    /// point cannot be trusted, so the whole scan stops here.
    TruncatedStream { offset: usize },
    /// The data ended cleanly at a block boundary, but no terminator card
    /// was seen for the unit whose header begins at `offset`.  Units
    /// indexed before this one remain valid.
    UnterminatedHeader { offset: usize },
}

impl View for ScanError {
    type V = ErrorModel;

    open spec fn view(&self) -> ErrorModel {
        match self {
            ScanError::TruncatedStream { offset } => ErrorModel::Truncated {
                offset: *offset as int,
            },
            ScanError::UnterminatedHeader { offset } => ErrorModel::Unterminated {
                offset: *offset as int,
            },
        }
    }
}

} // verus!
