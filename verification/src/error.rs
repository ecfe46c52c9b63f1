//! Error taxonomy of the archive engine.
//!
//! `Format` covers malformed framing, unparseable header text and offsets
//! that fall outside the body, as well as values too large to frame.
//! `Integrity` reports a digest mismatch and carries the relative path of
//! the file whose bytes failed verification.

use vstd::prelude::*;

verus! {

#[derive(Debug, Clone, PartialEq, Eq)]
pub enum ArchiveError {
    /// Malformed framing or header text, an out-of-range offset, or a value
    /// too large to encode.
    Format,
    /// A content digest did not match; carries the offending relative path.
    Integrity { path: Vec<u8> },
}

impl ArchiveError {
    /// A short human-readable description, usable where a caller expects a
    /// plain message string.
    pub fn describe(&self) -> (r: String)
        ensures
            r@.len() > 0,
    {
        match self {
            ArchiveError::Format => {
                let s: String = String::from_str("archive format error");
                proof {
                    reveal_strlit("archive format error");
                }
                s
            },
            ArchiveError::Integrity { path: _ } => {
                let s: String = String::from_str("archive integrity error");
                proof {
                    reveal_strlit("archive integrity error");
                }
                s
            },
        }
    }
}

} // verus!
