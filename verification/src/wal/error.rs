//! Errors of the WAL parser.

use crate::text::{decimal, hex_fixed, push_decimal, push_hex};
use vstd::prelude::*;

verus! {

/// Errors produced while parsing a SQLite WAL.
#[derive(Clone, Copy, Debug, PartialEq, Eq)]
pub enum WalError {
    /// The buffer was too short to contain a WAL header.
    Incomplete { need: usize, got: usize },
    /// The WAL magic was neither `0x377f0682` nor `0x377f0683`.
    InvalidMagic(u32),
    /// The WAL file-format version was not `3007000`.
    UnsupportedVersion(u32),
    /// Page size is not a power of two in `512..=65536`.
    InvalidPageSize(u32),
    /// The 32-byte header's own checksum did not verify.
    HeaderChecksumMismatch,
    /// A start offset was not aligned to a frame boundary.
    UnalignedOffset(u64),
    /// The frame before a start offset had mismatched salts (WAL discontinuity).
    PrevFrameMismatch,
}

impl WalError {
    /// The text of the error.
    pub open spec fn text(self) -> Seq<char> {
        match self {
            WalError::Incomplete { need, got } => "incomplete wal header: need "@ + decimal(
                need as nat,
            ) + ", got "@ + decimal(got as nat),
            WalError::InvalidMagic(m) => "invalid wal magic: 0x"@ + hex_fixed(m as nat, 8),
            WalError::UnsupportedVersion(v) => "unsupported wal version: "@ + decimal(v as nat),
            WalError::InvalidPageSize(sz) => "invalid page size: "@ + decimal(sz as nat),
            WalError::HeaderChecksumMismatch => "wal header checksum mismatch"@,
            WalError::UnalignedOffset(o) => "unaligned wal offset: "@ + decimal(o as nat),
            WalError::PrevFrameMismatch => "previous wal frame mismatch (discontinuity)"@,
        }
    }

    /// The text of the error, for people.
    pub fn message(&self) -> (s: String)
        ensures
            s@ == self.text(),
    {
        let mut s = String::new();
        match *self {
            WalError::Incomplete { need, got } => {
                s.push_str("incomplete wal header: need ");
                push_decimal(&mut s, need as u64);
                s.push_str(", got ");
                push_decimal(&mut s, got as u64);
            },
            WalError::InvalidMagic(m) => {
                s.push_str("invalid wal magic: 0x");
                push_hex(&mut s, m as u64, 8);
            },
            WalError::UnsupportedVersion(v) => {
                s.push_str("unsupported wal version: ");
                push_decimal(&mut s, v as u64);
            },
            WalError::InvalidPageSize(sz) => {
                s.push_str("invalid page size: ");
                push_decimal(&mut s, sz as u64);
            },
            WalError::HeaderChecksumMismatch => s.push_str("wal header checksum mismatch"),
            WalError::UnalignedOffset(o) => {
                s.push_str("unaligned wal offset: ");
                push_decimal(&mut s, o);
            },
            WalError::PrevFrameMismatch => s.push_str("previous wal frame mismatch (discontinuity)"),
        }
        assert(s@ =~= self.text());
        s
    }
}

} // verus!
