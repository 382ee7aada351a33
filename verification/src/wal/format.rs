//! SQLite WAL on-disk structures and the WAL checksum.
//!
//! Field integers are **big-endian**, but the running checksum reads its 4-byte
//! words in the byte order selected by the header magic.

use crate::ltx::format::{field, is_valid_page_size, valid_page_size};
use crate::wal::error::WalError;
use crate::wire::{be_u32, be_value};
use vstd::prelude::*;
use vstd::slice::slice_subrange;

verus! {

/// Size of the WAL header, in bytes.
pub const WAL_HEADER_SIZE: usize = 32;

/// Size of each per-frame header, in bytes.
pub const WAL_FRAME_HEADER_SIZE: usize = 24;

/// Magic for a WAL whose checksums are computed little-endian.
pub const WAL_MAGIC_LE: u32 = 0x377f_0682;

/// Magic for a WAL whose checksums are computed big-endian.
pub const WAL_MAGIC_BE: u32 = 0x377f_0683;

/// The only supported WAL file-format version.
pub const WAL_VERSION: u32 = 3_007_000;

/// The byte order in which the WAL checksum reads its 32-bit words.
#[derive(Clone, Copy, Debug, PartialEq, Eq, Structural)]
pub enum ByteOrder {
    Little,
    Big,
}

/// The 32-bit word of the four bytes `b`.
#[verifier::opaque]
pub open spec fn word(bo: ByteOrder, b: Seq<u8>) -> u32 {
    match bo {
        ByteOrder::Little => be_value(b.reverse()) as u32,
        ByteOrder::Big => be_value(b) as u32,
    }
}

/// The sum of two 32-bit words, wrapping.
#[verifier::opaque]
pub open spec fn wrap_sum(a: u32, b: u32) -> u32 {
    ((a + b) % 0x1_0000_0000) as u32
}

fn wrapping_sum(a: u32, b: u32) -> (r: u32)
    ensures
        r == wrap_sum(a, b),
{
    proof {
        reveal(wrap_sum);
    }
    a.wrapping_add(b)
}

/// The checksum state after one 8-byte word `w`.
pub open spec fn wal_step(bo: ByteOrder, s: (u32, u32), w: Seq<u8>) -> (u32, u32) {
    let s0 = wrap_sum(s.0, wrap_sum(word(bo, w.subrange(0, 4)), s.1));
    let s1 = wrap_sum(s.1, wrap_sum(word(bo, w.subrange(4, 8)), s0));
    (s0, s1)
}

/// The checksum state after the 8-byte words of `b`.
pub open spec fn wal_sum(bo: ByteOrder, s: (u32, u32), b: Seq<u8>) -> (u32, u32)
    decreases b.len(),
{
    if b.len() < 8 {
        s
    } else {
        wal_step(bo, wal_sum(bo, s, b.take(b.len() - 8)), b.skip(b.len() - 8))
    }
}

/// The number with the four given base-256 digits.
fn join(b3: u8, b2: u8, b1: u8, b0: u8) -> (r: u32)
    ensures
        r as nat == be_value(seq![b3, b2, b1, b0]),
{
    proof {
        let s = seq![b3, b2, b1, b0];
        reveal_with_fuel(be_value, 5);
        assert(s.drop_last() =~= seq![b3, b2, b1]);
        assert(s.drop_last().drop_last() =~= seq![b3, b2]);
        assert(s.drop_last().drop_last().drop_last() =~= seq![b3]);
        assert(s.drop_last().drop_last().drop_last().drop_last() =~= Seq::<u8>::empty());
    }
    b3 as u32 * 0x100_0000 + b2 as u32 * 0x1_0000 + b1 as u32 * 0x100 + b0 as u32
}

impl ByteOrder {
    /// Reads the 32-bit word of `b` at `off`.
    fn read_u32(self, b: &[u8], off: usize) -> (r: u32)
        requires
            off + 4 <= b@.len(),
        ensures
            r == word(self, b@.subrange(off as int, off + 4)),
    {
        let len: usize = b.len();
        let (x0, x1, x2, x3) = (b[off], b[off + 1], b[off + 2], b[off + 3]);
        proof {
            reveal(word);
            let w = b@.subrange(off as int, off + 4);
            assert(w =~= seq![x0, x1, x2, x3]);
            assert(w.reverse() =~= seq![x3, x2, x1, x0]);
        }
        match self {
            ByteOrder::Big => join(x0, x1, x2, x3),
            ByteOrder::Little => join(x3, x2, x1, x0),
        }
    }
}

/// The checksum state after the 8-byte word of `b` at `i`.
fn add_word(bo: ByteOrder, s0: u32, s1: u32, b: &[u8], i: usize) -> (r: (u32, u32))
    requires
        i + 8 <= b@.len(),
    ensures
        r == wal_step(bo, (s0, s1), b@.subrange(i as int, i + 8)),
{
    let len: usize = b.len();
    proof {
        let w = b@.subrange(i as int, i + 8);
        assert(w.subrange(0, 4) =~= b@.subrange(i as int, i + 4));
        assert(w.subrange(4, 8) =~= b@.subrange(i + 4, i + 8));
    }
    let a0 = wrapping_sum(s0, wrapping_sum(bo.read_u32(b, i), s1));
    let a1 = wrapping_sum(s1, wrapping_sum(bo.read_u32(b, i + 4), a0));
    (a0, a1)
}

/// The SQLite WAL checksum: a Fibonacci-weighted running sum over 8-byte words,
/// seeded with `(s0, s1)` from the previous frame (or `(0, 0)` for the header).
/// All additions wrap.
pub fn wal_checksum(bo: ByteOrder, s0: u32, s1: u32, b: &[u8]) -> (r: (u32, u32))
    requires
        b@.len() % 8 == 0,
    ensures
        r == wal_sum(bo, (s0, s1), b@),
{
    let len: usize = b.len();
    let mut s: (u32, u32) = (s0, s1);
    let mut i: usize = 0;
    while i < len
        invariant
            len == b@.len(),
            len % 8 == 0,
            i % 8 == 0,
            i <= len,
            s == wal_sum(bo, (s0, s1), b@.take(i as int)),
        decreases len - i,
    {
        proof {
            assert(i + 8 <= len);
            let next = b@.take(i + 8);
            assert(next.take(next.len() - 8) =~= b@.take(i as int));
            assert(next.skip(next.len() - 8) =~= b@.subrange(i as int, i + 8));
        }
        s = add_word(bo, s.0, s.1, b, i);
        i += 8;
    }
    assert(b@.take(i as int) =~= b@);
    s
}

/// The 32-byte WAL header.
#[derive(Clone, Copy, Debug, PartialEq, Eq, Structural)]
pub struct WalHeader {
    /// Byte order for checksum words (from the magic).
    pub byte_order: ByteOrder,
    pub page_size: u32,
    /// Checkpoint sequence number.
    pub seq: u32,
    pub salt1: u32,
    pub salt2: u32,
    pub checksum1: u32,
    pub checksum2: u32,
}

/// What parsing a WAL header from `b` gives.
pub open spec fn wal_header_of(b: Seq<u8>) -> Result<WalHeader, WalError> {
    let magic = field(b, 0, 4) as u32;
    let version = field(b, 4, 4) as u32;
    let page_size = field(b, 8, 4) as u32;
    let byte_order = if magic == WAL_MAGIC_LE {
        ByteOrder::Little
    } else {
        ByteOrder::Big
    };
    let checksum1 = field(b, 24, 4) as u32;
    let checksum2 = field(b, 28, 4) as u32;
    if b.len() < WAL_HEADER_SIZE {
        Err(WalError::Incomplete { need: WAL_HEADER_SIZE, got: b.len() as usize })
    } else if magic != WAL_MAGIC_LE && magic != WAL_MAGIC_BE {
        Err(WalError::InvalidMagic(magic))
    } else if version != WAL_VERSION {
        Err(WalError::UnsupportedVersion(version))
    } else if !valid_page_size(page_size) {
        Err(WalError::InvalidPageSize(page_size))
    } else if wal_sum(byte_order, (0, 0), b.take(24)) != (checksum1, checksum2) {
        Err(WalError::HeaderChecksumMismatch)
    } else {
        Ok(
            WalHeader {
                byte_order,
                page_size,
                seq: field(b, 12, 4) as u32,
                salt1: field(b, 16, 4) as u32,
                salt2: field(b, 20, 4) as u32,
                checksum1,
                checksum2,
            },
        )
    }
}

impl WalHeader {
    /// Parses and verifies the WAL header from at least [`WAL_HEADER_SIZE`] bytes.
    pub fn parse(b: &[u8]) -> (r: Result<WalHeader, WalError>)
        ensures
            r == wal_header_of(b@),
    {
        if b.len() < WAL_HEADER_SIZE {
            return Err(WalError::Incomplete { need: WAL_HEADER_SIZE, got: b.len() });
        }
        let magic = be_u32(b, 0);
        let byte_order = if magic == WAL_MAGIC_LE {
            ByteOrder::Little
        } else if magic == WAL_MAGIC_BE {
            ByteOrder::Big
        } else {
            return Err(WalError::InvalidMagic(magic));
        };
        let version = be_u32(b, 4);
        if version != WAL_VERSION {
            return Err(WalError::UnsupportedVersion(version));
        }
        let page_size = be_u32(b, 8);
        if !is_valid_page_size(page_size) {
            return Err(WalError::InvalidPageSize(page_size));
        }
        let checksum1 = be_u32(b, 24);
        let checksum2 = be_u32(b, 28);
        let head = slice_subrange(b, 0, 24);
        assert(head@ =~= b@.take(24));
        let (v0, v1) = wal_checksum(byte_order, 0, 0, head);
        if v0 != checksum1 || v1 != checksum2 {
            return Err(WalError::HeaderChecksumMismatch);
        }
        Ok(
            WalHeader {
                byte_order,
                page_size,
                seq: be_u32(b, 12),
                salt1: be_u32(b, 16),
                salt2: be_u32(b, 20),
                checksum1,
                checksum2,
            },
        )
    }
}

/// The 24-byte header preceding each WAL frame's page data.
#[derive(Clone, Copy, Debug, PartialEq, Eq, Structural)]
pub struct WalFrameHeader {
    /// Page number this frame carries.
    pub pgno: u32,
    /// Database size in pages after this frame's transaction; 0 = not a commit.
    pub commit: u32,
    pub salt1: u32,
    pub salt2: u32,
    pub checksum1: u32,
    pub checksum2: u32,
}

/// The frame header that `b` spells.
pub open spec fn frame_header_of(b: Seq<u8>) -> WalFrameHeader {
    WalFrameHeader {
        pgno: field(b, 0, 4) as u32,
        commit: field(b, 4, 4) as u32,
        salt1: field(b, 8, 4) as u32,
        salt2: field(b, 12, 4) as u32,
        checksum1: field(b, 16, 4) as u32,
        checksum2: field(b, 20, 4) as u32,
    }
}

impl WalFrameHeader {
    /// Parses a frame header from at least [`WAL_FRAME_HEADER_SIZE`] bytes.
    pub fn parse(b: &[u8]) -> (h: WalFrameHeader)
        requires
            b@.len() >= WAL_FRAME_HEADER_SIZE,
        ensures
            h == frame_header_of(b@),
    {
        WalFrameHeader {
            pgno: be_u32(b, 0),
            commit: be_u32(b, 4),
            salt1: be_u32(b, 8),
            salt2: be_u32(b, 12),
            checksum1: be_u32(b, 16),
            checksum2: be_u32(b, 20),
        }
    }

    /// True if this frame commits a transaction.
    pub fn is_commit(&self) -> (r: bool)
        ensures
            r == (self.commit != 0),
    {
        self.commit != 0
    }
}

} // verus!
