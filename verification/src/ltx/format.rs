//! On-disk LTX structures: [`Header`], [`PageHeader`], [`Trailer`], and the
//! constants that frame the format. All integers are big-endian.

use crate::ltx::checksum::Checksum;
use crate::ltx::error::LtxError;
use crate::wire::{
    be_bytes, be_u16, be_u32, be_u64, be_value, bits_i64, i64_bits, i64_from_bits, i64_to_bits,
    lemma_be_bytes_len, lemma_be_round_trip, lemma_pow256_values, push_be,
};
use vstd::prelude::*;

verus! {

/// First 4 bytes of every LTX file: `LTX1`.
pub const MAGIC: [u8; 4] = [0x4c, 0x54, 0x58, 0x31];

/// Format version implied by the magic.
pub const VERSION: u32 = 3;

/// Fixed header size, in bytes.
pub const HEADER_SIZE: usize = 100;

/// Page header size, in bytes: `pgno: u32` + `flags: u16`.
pub const PAGE_HEADER_SIZE: usize = 6;

/// Trailer size, in bytes: `post_apply: u64` + `file_checksum: u64`.
pub const TRAILER_SIZE: usize = 16;

/// Header flag: checksum tracking is disabled (pre/post-apply database
/// checksums are zero).
pub const HEADER_FLAG_NO_CHECKSUM: u32 = 2;

/// Page-header flag: a 4-byte size field follows and the page data is an LZ4
/// *block* (not frame).
pub const PAGE_HEADER_FLAG_SIZE: u16 = 1;

/// SQLite's PENDING_BYTE: the lock byte lives at the 1 GiB boundary.
pub const PENDING_BYTE: u64 = 0x4000_0000;

/// Whether `sz` is a power of two in `512..=65536`.
pub open spec fn valid_page_size(sz: u32) -> bool {
    sz == 512 || sz == 1024 || sz == 2048 || sz == 4096 || sz == 8192 || sz == 16384 || sz == 32768
        || sz == 65536
}

/// The 1-based number of the page that holds SQLite's lock byte.
pub open spec fn lock_page(page_size: u32) -> u32 {
    (PENDING_BYTE / page_size as u64 + 1) as u32
}

/// The 1-based page number containing SQLite's lock byte, for `page_size`.
/// This page is never stored in LTX files (only relevant above 1 GiB).
pub fn lock_pgno(page_size: u32) -> (r: u32)
    requires
        page_size > 0,
    ensures
        r == lock_page(page_size),
        r == PENDING_BYTE / page_size as u64 + 1,
{
    assert(PENDING_BYTE / page_size as u64 <= PENDING_BYTE) by (nonlinear_arith)
        requires
            page_size > 0,
    ;
    (PENDING_BYTE / page_size as u64) as u32 + 1
}

/// Returns true if `sz` is a power of two in `512..=65536`.
pub fn is_valid_page_size(sz: u32) -> (r: bool)
    ensures
        r == valid_page_size(sz),
{
    sz == 512 || sz == 1024 || sz == 2048 || sz == 4096 || sz == 8192 || sz == 16384 || sz == 32768
        || sz == 65536
}

/// The header frame of an LTX file (100 bytes on disk).
#[derive(Clone, Copy, Debug, PartialEq, Eq, Structural)]
pub struct Header {
    pub flags: u32,
    /// SQLite page size, in bytes.
    pub page_size: u32,
    /// Database size, in pages, after this transaction is applied.
    pub commit: u32,
    pub min_txid: u64,
    pub max_txid: u64,
    /// Milliseconds since the Unix epoch.
    pub timestamp: i64,
    /// Rolling database checksum before applying this file (zero on snapshots).
    pub pre_apply_checksum: Checksum,
    /// Byte offset within the source WAL (zero for snapshots).
    pub wal_offset: i64,
    /// Byte length of the source WAL segment (zero for snapshots).
    pub wal_size: i64,
    pub wal_salt1: u32,
    pub wal_salt2: u32,
    pub node_id: u64,
}

/// The 100 bytes of a header.
#[verifier::opaque]
pub open spec fn header_bytes(h: Header) -> Seq<u8> {
    MAGIC@ + be_bytes(h.flags as nat, 4) + be_bytes(h.page_size as nat, 4) + be_bytes(
        h.commit as nat,
        4,
    ) + be_bytes(h.min_txid as nat, 8) + be_bytes(h.max_txid as nat, 8) + be_bytes(
        i64_bits(h.timestamp) as nat,
        8,
    ) + be_bytes(h.pre_apply_checksum.0 as nat, 8) + be_bytes(i64_bits(h.wal_offset) as nat, 8)
        + be_bytes(i64_bits(h.wal_size) as nat, 8) + be_bytes(h.wal_salt1 as nat, 4) + be_bytes(
        h.wal_salt2 as nat,
        4,
    ) + be_bytes(h.node_id as nat, 8) + Seq::new(20, |i: int| 0u8)
}

/// The big-endian number in `b` at `off`, `n` bytes long.
pub open spec fn field(b: Seq<u8>, off: int, n: int) -> nat {
    be_value(b.subrange(off, off + n))
}

/// The header fields that `b` spells, whatever its magic.
pub open spec fn header_fields(b: Seq<u8>) -> Header {
    Header {
        flags: field(b, 4, 4) as u32,
        page_size: field(b, 8, 4) as u32,
        commit: field(b, 12, 4) as u32,
        min_txid: field(b, 16, 8) as u64,
        max_txid: field(b, 24, 8) as u64,
        timestamp: bits_i64(field(b, 32, 8) as u64),
        pre_apply_checksum: Checksum(field(b, 40, 8) as u64),
        wal_offset: bits_i64(field(b, 48, 8) as u64),
        wal_size: bits_i64(field(b, 56, 8) as u64),
        wal_salt1: field(b, 64, 4) as u32,
        wal_salt2: field(b, 68, 4) as u32,
        node_id: field(b, 72, 8) as u64,
    }
}

/// What decoding a header from `b` gives.
pub open spec fn header_of(b: Seq<u8>) -> Result<Header, LtxError> {
    if b.len() < HEADER_SIZE {
        Err(LtxError::ShortBuffer { need: HEADER_SIZE, got: b.len() as usize })
    } else if b.subrange(0, 4) != MAGIC@ {
        Err(LtxError::InvalidMagic([b[0], b[1], b[2], b[3]]))
    } else if !valid_page_size(header_fields(b).page_size) {
        Err(LtxError::InvalidPageSize(header_fields(b).page_size))
    } else {
        Ok(header_fields(b))
    }
}

/// What an encoder demands of a header before it writes it.
pub open spec fn header_validity(h: Header) -> Result<(), LtxError> {
    if !valid_page_size(h.page_size) {
        Err(LtxError::InvalidPageSize(h.page_size))
    } else if h.min_txid == 0 || h.max_txid == 0 || h.min_txid > h.max_txid {
        Err(LtxError::InvalidTxidRange { min: h.min_txid, max: h.max_txid })
    } else if h.min_txid == 1 && h.pre_apply_checksum.0 != 0 {
        Err(LtxError::SnapshotPreApplyChecksum)
    } else {
        Ok(())
    }
}

/// `part` stands in `whole` at `off`.
pub open spec fn at(whole: Seq<u8>, off: int, part: Seq<u8>) -> bool {
    &&& 0 <= off
    &&& off + part.len() <= whole.len()
    &&& whole.subrange(off, off + part.len()) == part
}

/// Where each field of a header stands.
pub proof fn lemma_header_layout(h: Header)
    ensures
        header_bytes(h).len() == HEADER_SIZE,
        at(header_bytes(h), 0, MAGIC@),
        at(header_bytes(h), 4, be_bytes(h.flags as nat, 4)),
        at(header_bytes(h), 8, be_bytes(h.page_size as nat, 4)),
        at(header_bytes(h), 12, be_bytes(h.commit as nat, 4)),
        at(header_bytes(h), 16, be_bytes(h.min_txid as nat, 8)),
        at(header_bytes(h), 24, be_bytes(h.max_txid as nat, 8)),
        at(header_bytes(h), 32, be_bytes(i64_bits(h.timestamp) as nat, 8)),
        at(header_bytes(h), 40, be_bytes(h.pre_apply_checksum.0 as nat, 8)),
        at(header_bytes(h), 48, be_bytes(i64_bits(h.wal_offset) as nat, 8)),
        at(header_bytes(h), 56, be_bytes(i64_bits(h.wal_size) as nat, 8)),
        at(header_bytes(h), 64, be_bytes(h.wal_salt1 as nat, 4)),
        at(header_bytes(h), 68, be_bytes(h.wal_salt2 as nat, 4)),
        at(header_bytes(h), 72, be_bytes(h.node_id as nat, 8)),
{
    reveal(header_bytes);
    lemma_be_bytes_len(h.flags as nat, 4);
    lemma_be_bytes_len(h.page_size as nat, 4);
    lemma_be_bytes_len(h.commit as nat, 4);
    lemma_be_bytes_len(h.min_txid as nat, 8);
    lemma_be_bytes_len(h.max_txid as nat, 8);
    lemma_be_bytes_len(i64_bits(h.timestamp) as nat, 8);
    lemma_be_bytes_len(h.pre_apply_checksum.0 as nat, 8);
    lemma_be_bytes_len(i64_bits(h.wal_offset) as nat, 8);
    lemma_be_bytes_len(i64_bits(h.wal_size) as nat, 8);
    lemma_be_bytes_len(h.wal_salt1 as nat, 4);
    lemma_be_bytes_len(h.wal_salt2 as nat, 4);
    lemma_be_bytes_len(h.node_id as nat, 8);
    let b = header_bytes(h);
    assert(b.subrange(0, 4) =~= MAGIC@);
    assert(b.subrange(4, 8) =~= be_bytes(h.flags as nat, 4));
    assert(b.subrange(8, 12) =~= be_bytes(h.page_size as nat, 4));
    assert(b.subrange(12, 16) =~= be_bytes(h.commit as nat, 4));
    assert(b.subrange(16, 24) =~= be_bytes(h.min_txid as nat, 8));
    assert(b.subrange(24, 32) =~= be_bytes(h.max_txid as nat, 8));
    assert(b.subrange(32, 40) =~= be_bytes(i64_bits(h.timestamp) as nat, 8));
    assert(b.subrange(40, 48) =~= be_bytes(h.pre_apply_checksum.0 as nat, 8));
    assert(b.subrange(48, 56) =~= be_bytes(i64_bits(h.wal_offset) as nat, 8));
    assert(b.subrange(56, 64) =~= be_bytes(i64_bits(h.wal_size) as nat, 8));
    assert(b.subrange(64, 68) =~= be_bytes(h.wal_salt1 as nat, 4));
    assert(b.subrange(68, 72) =~= be_bytes(h.wal_salt2 as nat, 4));
    assert(b.subrange(72, 80) =~= be_bytes(h.node_id as nat, 8));
}

/// Decoding what a header was encoded to gives that header back, and so does
/// decoding any longer buffer that starts with it.
pub proof fn lemma_header_round_trip(h: Header, rest: Seq<u8>)
    requires
        valid_page_size(h.page_size),
    ensures
        header_of(header_bytes(h) + rest) == Ok::<Header, LtxError>(h),
        header_bytes(h).len() == HEADER_SIZE,
{
    lemma_header_layout(h);
    let b = header_bytes(h) + rest;
    let hb = header_bytes(h);
    assert forall|off: int, n: int| 0 <= off && 0 <= n && off + n <= 100 implies #[trigger] field(
        b,
        off,
        n,
    ) == be_value(hb.subrange(off, off + n)) by {
        assert(b.subrange(off, off + n) =~= hb.subrange(off, off + n));
    }
    lemma_pow256_values();
    lemma_be_round_trip(h.flags as nat, 4);
    lemma_be_round_trip(h.page_size as nat, 4);
    lemma_be_round_trip(h.commit as nat, 4);
    lemma_be_round_trip(h.min_txid as nat, 8);
    lemma_be_round_trip(h.max_txid as nat, 8);
    lemma_be_round_trip(i64_bits(h.timestamp) as nat, 8);
    lemma_be_round_trip(h.pre_apply_checksum.0 as nat, 8);
    lemma_be_round_trip(i64_bits(h.wal_offset) as nat, 8);
    lemma_be_round_trip(i64_bits(h.wal_size) as nat, 8);
    lemma_be_round_trip(h.wal_salt1 as nat, 4);
    lemma_be_round_trip(h.wal_salt2 as nat, 4);
    lemma_be_round_trip(h.node_id as nat, 8);
    assert(b.subrange(0, 4) =~= hb.subrange(0, 4));
    assert(header_fields(b) == h);
}

impl Header {
    /// Decodes a header from at least [`HEADER_SIZE`] bytes.
    pub fn decode(b: &[u8]) -> (r: Result<Header, LtxError>)
        ensures
            r == header_of(b@),
    {
        if b.len() < HEADER_SIZE {
            return Err(LtxError::ShortBuffer { need: HEADER_SIZE, got: b.len() });
        }
        let magic: [u8; 4] = [b[0], b[1], b[2], b[3]];
        assert(b@.subrange(0, 4) =~= magic@);
        if magic[0] != MAGIC[0] || magic[1] != MAGIC[1] || magic[2] != MAGIC[2] || magic[3]
            != MAGIC[3] {
            return Err(LtxError::InvalidMagic(magic));
        }
        assert(b@.subrange(0, 4) =~= MAGIC@);
        let header = Header {
            flags: be_u32(b, 4),
            page_size: be_u32(b, 8),
            commit: be_u32(b, 12),
            min_txid: be_u64(b, 16),
            max_txid: be_u64(b, 24),
            timestamp: i64_from_bits(be_u64(b, 32)),
            pre_apply_checksum: Checksum(be_u64(b, 40)),
            wal_offset: i64_from_bits(be_u64(b, 48)),
            wal_size: i64_from_bits(be_u64(b, 56)),
            wal_salt1: be_u32(b, 64),
            wal_salt2: be_u32(b, 68),
            node_id: be_u64(b, 72),
        };
        assert(header == header_fields(b@));
        if !is_valid_page_size(header.page_size) {
            return Err(LtxError::InvalidPageSize(header.page_size));
        }
        Ok(header)
    }

    /// The 100 bytes of this header.
    pub fn encode(&self) -> (b: Vec<u8>)
        ensures
            b@ == header_bytes(*self),
            b@.len() == HEADER_SIZE,
    {
        let mut b: Vec<u8> = Vec::new();
        b.push(MAGIC[0]);
        b.push(MAGIC[1]);
        b.push(MAGIC[2]);
        b.push(MAGIC[3]);
        assert(b@ =~= MAGIC@);
        push_be(&mut b, self.flags as u64, 4);
        push_be(&mut b, self.page_size as u64, 4);
        push_be(&mut b, self.commit as u64, 4);
        push_be(&mut b, self.min_txid, 8);
        push_be(&mut b, self.max_txid, 8);
        push_be(&mut b, i64_to_bits(self.timestamp), 8);
        push_be(&mut b, self.pre_apply_checksum.0, 8);
        push_be(&mut b, i64_to_bits(self.wal_offset), 8);
        push_be(&mut b, i64_to_bits(self.wal_size), 8);
        push_be(&mut b, self.wal_salt1 as u64, 4);
        push_be(&mut b, self.wal_salt2 as u64, 4);
        push_be(&mut b, self.node_id, 8);
        let ghost head = b@;
        let mut i: usize = 0;
        while i < 20
            invariant
                i <= 20,
                b@ =~= head + Seq::new(i as nat, |k: int| 0u8),
            decreases 20 - i,
        {
            b.push(0);
            i += 1;
        }
        proof {
            reveal(header_bytes);
            lemma_header_layout(*self);
        }
        b
    }

    /// Whether an encoder accepts this header, and if not, why.
    pub fn validate(&self) -> (r: Result<(), LtxError>)
        ensures
            r == header_validity(*self),
    {
        if !is_valid_page_size(self.page_size) {
            return Err(LtxError::InvalidPageSize(self.page_size));
        }
        if self.min_txid == 0 || self.max_txid == 0 || self.min_txid > self.max_txid {
            return Err(LtxError::InvalidTxidRange { min: self.min_txid, max: self.max_txid });
        }
        if self.is_snapshot() && !self.pre_apply_checksum.is_zero() {
            return Err(LtxError::SnapshotPreApplyChecksum);
        }
        Ok(())
    }

    /// A snapshot contains every page (its minimum TXID is 1).
    pub fn is_snapshot(&self) -> (r: bool)
        ensures
            r == (self.min_txid == 1),
    {
        self.min_txid == 1
    }

    /// True if checksum tracking is disabled ([`HEADER_FLAG_NO_CHECKSUM`]).
    pub fn no_checksum(&self) -> (r: bool)
        ensures
            r == (self.flags & HEADER_FLAG_NO_CHECKSUM != 0),
    {
        self.flags & HEADER_FLAG_NO_CHECKSUM != 0
    }

    /// The lock page number for this file's page size.
    pub fn lock_pgno(&self) -> (r: u32)
        requires
            self.page_size > 0,
        ensures
            r == lock_page(self.page_size),
    {
        lock_pgno(self.page_size)
    }
}

/// The header preceding each page frame (6 bytes on disk).
#[derive(Clone, Copy, Debug, PartialEq, Eq, Structural)]
pub struct PageHeader {
    pub pgno: u32,
    pub flags: u16,
}

impl Default for PageHeader {
    fn default() -> (h: Self)
        ensures
            h == (PageHeader { pgno: 0, flags: 0 }),
    {
        PageHeader { pgno: 0, flags: 0 }
    }
}

/// The 6 bytes of a page header.
pub open spec fn page_header_bytes(h: PageHeader) -> Seq<u8> {
    be_bytes(h.pgno as nat, 4) + be_bytes(h.flags as nat, 2)
}

/// What decoding a page header from `b` gives.
pub open spec fn page_header_of(b: Seq<u8>) -> Result<PageHeader, LtxError> {
    if b.len() < PAGE_HEADER_SIZE {
        Err(LtxError::ShortBuffer { need: PAGE_HEADER_SIZE, got: b.len() as usize })
    } else {
        Ok(PageHeader { pgno: field(b, 0, 4) as u32, flags: field(b, 4, 2) as u16 })
    }
}

/// Decoding an encoded page header, followed by anything, gives it back.
pub proof fn lemma_page_header_round_trip(h: PageHeader, rest: Seq<u8>)
    ensures
        page_header_bytes(h).len() == PAGE_HEADER_SIZE,
        page_header_of(page_header_bytes(h) + rest) == Ok::<PageHeader, LtxError>(h),
{
    lemma_pow256_values();
    lemma_be_round_trip(h.pgno as nat, 4);
    lemma_be_round_trip(h.flags as nat, 2);
    let b = page_header_bytes(h) + rest;
    assert(b.subrange(0, 4) =~= be_bytes(h.pgno as nat, 4));
    assert(b.subrange(4, 6) =~= be_bytes(h.flags as nat, 2));
}

impl PageHeader {
    /// Decodes a page header from at least [`PAGE_HEADER_SIZE`] bytes.
    pub fn decode(b: &[u8]) -> (r: Result<PageHeader, LtxError>)
        ensures
            r == page_header_of(b@),
    {
        if b.len() < PAGE_HEADER_SIZE {
            return Err(LtxError::ShortBuffer { need: PAGE_HEADER_SIZE, got: b.len() });
        }
        Ok(PageHeader { pgno: be_u32(b, 0), flags: be_u16(b, 4) })
    }

    /// The 6 bytes of this page header.
    pub fn encode(&self) -> (b: Vec<u8>)
        ensures
            b@ == page_header_bytes(*self),
            b@.len() == PAGE_HEADER_SIZE,
    {
        let mut b: Vec<u8> = Vec::new();
        push_be(&mut b, self.pgno as u64, 4);
        push_be(&mut b, self.flags as u64, 2);
        proof {
            lemma_page_header_round_trip(*self, Seq::empty());
            assert(b@ =~= page_header_bytes(*self));
        }
        b
    }

    /// An all-zero page header marks the end of the page block.
    pub fn is_zero(&self) -> (r: bool)
        ensures
            r == (self.pgno == 0 && self.flags == 0),
    {
        self.pgno == 0 && self.flags == 0
    }

    /// True if the page data is an LZ4 block preceded by a 4-byte size.
    pub fn is_block_compressed(&self) -> (r: bool)
        ensures
            r == (self.flags & PAGE_HEADER_FLAG_SIZE != 0),
    {
        self.flags & PAGE_HEADER_FLAG_SIZE != 0
    }
}

/// The ending frame of an LTX file (16 bytes on disk).
#[derive(Clone, Copy, Debug, PartialEq, Eq, Structural)]
pub struct Trailer {
    /// Rolling database checksum after this file is applied.
    pub post_apply_checksum: Checksum,
    /// CRC-64 checksum of the whole file.
    pub file_checksum: Checksum,
}

impl Default for Trailer {
    fn default() -> (t: Self)
        ensures
            t == (Trailer { post_apply_checksum: Checksum(0), file_checksum: Checksum(0) }),
    {
        Trailer { post_apply_checksum: Checksum(0), file_checksum: Checksum(0) }
    }
}

/// The 16 bytes of a trailer.
pub open spec fn trailer_bytes(t: Trailer) -> Seq<u8> {
    be_bytes(t.post_apply_checksum.0 as nat, 8) + be_bytes(t.file_checksum.0 as nat, 8)
}

/// What decoding a trailer from `b` gives.
pub open spec fn trailer_of(b: Seq<u8>) -> Result<Trailer, LtxError> {
    if b.len() < TRAILER_SIZE {
        Err(LtxError::ShortBuffer { need: TRAILER_SIZE, got: b.len() as usize })
    } else {
        Ok(
            Trailer {
                post_apply_checksum: Checksum(field(b, 0, 8) as u64),
                file_checksum: Checksum(field(b, 8, 8) as u64),
            },
        )
    }
}

/// Decoding an encoded trailer, followed by anything, gives it back.
pub proof fn lemma_trailer_round_trip(t: Trailer, rest: Seq<u8>)
    ensures
        trailer_bytes(t).len() == TRAILER_SIZE,
        trailer_of(trailer_bytes(t) + rest) == Ok::<Trailer, LtxError>(t),
{
    lemma_pow256_values();
    lemma_be_round_trip(t.post_apply_checksum.0 as nat, 8);
    lemma_be_round_trip(t.file_checksum.0 as nat, 8);
    let b = trailer_bytes(t) + rest;
    assert(b.subrange(0, 8) =~= be_bytes(t.post_apply_checksum.0 as nat, 8));
    assert(b.subrange(8, 16) =~= be_bytes(t.file_checksum.0 as nat, 8));
}

impl Trailer {
    /// Decodes a trailer from at least [`TRAILER_SIZE`] bytes.
    pub fn decode(b: &[u8]) -> (r: Result<Trailer, LtxError>)
        ensures
            r == trailer_of(b@),
    {
        if b.len() < TRAILER_SIZE {
            return Err(LtxError::ShortBuffer { need: TRAILER_SIZE, got: b.len() });
        }
        Ok(
            Trailer {
                post_apply_checksum: Checksum(be_u64(b, 0)),
                file_checksum: Checksum(be_u64(b, 8)),
            },
        )
    }

    /// The 16 bytes of this trailer.
    pub fn encode(&self) -> (b: Vec<u8>)
        ensures
            b@ == trailer_bytes(*self),
            b@.len() == TRAILER_SIZE,
    {
        let mut b: Vec<u8> = Vec::new();
        push_be(&mut b, self.post_apply_checksum.0, 8);
        push_be(&mut b, self.file_checksum.0, 8);
        proof {
            lemma_trailer_round_trip(*self, Seq::empty());
            assert(b@ =~= trailer_bytes(*self));
        }
        b
    }
}

} // verus!
