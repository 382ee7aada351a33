//! Errors of the LTX reader and writer.

use crate::ltx::checksum::Checksum;
use crate::ltx::lz4::BlockFault;
use crate::text::{decimal, hex_fixed, push_decimal, push_hex, says};
use vstd::prelude::*;

verus! {

/// Errors produced while reading or writing LTX files.
#[allow(inconsistent_fields)]
#[derive(Clone, Copy, Debug, PartialEq, Eq)]
pub enum LtxError {
    /// The input ended inside a structure.
    UnexpectedEof,
    /// An LZ4 frame could not be read.
    Frame,
    /// A fixed-size structure was shorter than required.
    ShortBuffer { need: usize, got: usize },
    /// Header magic was not `"LTX1"`.
    InvalidMagic([u8; 4]),
    /// Page size is not a power of two in `512..=65536`.
    InvalidPageSize(u32),
    /// A page header had page number 0 where a real page was expected.
    ZeroPageNumber,
    /// LZ4 block decompression failed.
    Lz4(BlockFault),
    /// An LZ4 block is far longer than one that decodes to a page.
    BlockTooLong { len: u32 },
    /// The old (pre-block) LZ4 *frame* page format is not supported here.
    FrameFormatUnsupported,
    /// A variable-length integer does not fit in 64 bits.
    VarintOverflow,
    /// A database image of this many pages cannot be handled: it does not fit in the
    /// address space, or its pages cannot be numbered.
    ImageTooLarge { pages: u64 },
    /// The computed file checksum disagreed with the trailer.
    FileChecksumMismatch { expected: Checksum, actual: Checksum },
    /// The computed post-apply checksum disagreed with the trailer.
    PostApplyChecksumMismatch { expected: Checksum, actual: Checksum },
    /// A non-snapshot file was passed where a snapshot was required.
    NotASnapshot,
    /// Pages arrived out of the expected snapshot order.
    UnexpectedPage { expected: u32, got: u32 },
    /// TXID range is invalid (zero or min > max).
    InvalidTxidRange { min: u64, max: u64 },
    /// A snapshot header carried a non-zero pre-apply checksum.
    SnapshotPreApplyChecksum,
    /// A page was encoded out of ascending order, or before page 1.
    PageOutOfOrder { prev: u32, pgno: u32 },
    /// A page number exceeded the header's commit size.
    PageBeyondCommit { pgno: u32, commit: u32 },
    /// The lock page was passed to the encoder (it must be skipped).
    LockPageEncoded(u32),
    /// A page buffer's length did not match the header page size.
    WrongPageLength { expected: u32, got: usize },
}

/// The text of an LZ4 block fault.
pub open spec fn fault_text(fault: BlockFault) -> Seq<char> {
    match fault {
        BlockFault::OutputTooSmall { expected, actual } =>
            "provided output is too small for the decompressed data, actual "@ + decimal(
            actual as nat,
        ) + ", expected "@ + decimal(expected as nat),
        BlockFault::LiteralOutOfBounds => "literal is out of bounds of the input"@,
        BlockFault::ExpectedAnotherByte => "expected another byte, found none"@,
        BlockFault::OffsetZero => "0 is not a valid match offset"@,
        BlockFault::OffsetOutOfBounds =>
            "the offset to copy is not contained in the decompressed buffer"@,
        BlockFault::Other => "invalid block"@,
    }
}

fn push_fault(s: &mut String, fault: BlockFault)
    ensures
        final(s)@ == old(s)@ + fault_text(fault),
{
    match fault {
        BlockFault::OutputTooSmall { expected, actual } => {
            s.push_str("provided output is too small for the decompressed data, actual ");
            push_decimal(s, actual as u64);
            s.push_str(", expected ");
            push_decimal(s, expected as u64);
        },
        BlockFault::LiteralOutOfBounds => s.push_str("literal is out of bounds of the input"),
        BlockFault::ExpectedAnotherByte => s.push_str("expected another byte, found none"),
        BlockFault::OffsetZero => s.push_str("0 is not a valid match offset"),
        BlockFault::OffsetOutOfBounds => s.push_str(
            "the offset to copy is not contained in the decompressed buffer",
        ),
        BlockFault::Other => s.push_str("invalid block"),
    }
    assert(s@ =~= old(s)@ + fault_text(fault));
}

impl LtxError {
    /// The text of the error.
    pub open spec fn text(self) -> Seq<char> {
        match self {
            LtxError::UnexpectedEof => "io: failed to fill whole buffer"@,
            LtxError::Frame => "io: invalid lz4 frame"@,
            LtxError::ShortBuffer { need, got } => "short buffer: need "@ + decimal(need as nat)
                + ", got "@ + decimal(got as nat),
            LtxError::InvalidMagic(m) => "invalid magic: ["@ + hex_fixed(m[0] as nat, 2) + ", "@
                + hex_fixed(m[1] as nat, 2) + ", "@ + hex_fixed(m[2] as nat, 2) + ", "@ + hex_fixed(
                m[3] as nat,
                2,
            ) + "]"@,
            LtxError::InvalidPageSize(sz) => "invalid page size: "@ + decimal(sz as nat),
            LtxError::ZeroPageNumber => "page number required"@,
            LtxError::Lz4(fault) => "lz4 decompress: "@ + fault_text(fault),
            LtxError::BlockTooLong { len } => "lz4 block of "@ + decimal(len as nat)
                + " bytes is too long"@,
            LtxError::FrameFormatUnsupported => "old lz4 frame page format not supported"@,
            LtxError::VarintOverflow => "varint does not fit in 64 bits"@,
            LtxError::ImageTooLarge { pages } => "database of "@ + decimal(pages as nat)
                + " pages is too large"@,
            LtxError::FileChecksumMismatch { expected, actual } =>
                "file checksum mismatch: expected "@ + hex_fixed(expected.0 as nat, 16) + ", got "@
                + hex_fixed(actual.0 as nat, 16),
            LtxError::PostApplyChecksumMismatch { expected, actual } =>
                "post-apply checksum mismatch: expected "@ + hex_fixed(expected.0 as nat, 16)
                + ", got "@ + hex_fixed(actual.0 as nat, 16),
            LtxError::NotASnapshot => "not a snapshot LTX file"@,
            LtxError::UnexpectedPage { expected, got } => "unexpected page: expected pgno "@
                + decimal(expected as nat) + ", got "@ + decimal(got as nat),
            LtxError::InvalidTxidRange { min, max } => "invalid txid range: ("@ + decimal(
                min as nat,
            ) + ", "@ + decimal(max as nat) + ")"@,
            LtxError::SnapshotPreApplyChecksum => "pre-apply checksum must be zero on snapshots"@,
            LtxError::PageOutOfOrder { prev, pgno } => "page out of order: prev "@ + decimal(
                prev as nat,
            ) + ", pgno "@ + decimal(pgno as nat),
            LtxError::PageBeyondCommit { pgno, commit } => "page "@ + decimal(pgno as nat)
                + " out-of-bounds for commit size "@ + decimal(commit as nat),
            LtxError::LockPageEncoded(pgno) => "cannot encode lock page: pgno="@ + decimal(
                pgno as nat,
            ),
            LtxError::WrongPageLength { expected, got } => "wrong page length: expected "@
                + decimal(expected as nat) + ", got "@ + decimal(got as nat),
        }
    }

    /// The text of the error, for people.
    pub fn message(&self) -> (s: String)
        ensures
            s@ == self.text(),
    {
        let mut s = String::new();
        match *self {
            LtxError::UnexpectedEof => s.push_str("io: failed to fill whole buffer"),
            LtxError::Frame => s.push_str("io: invalid lz4 frame"),
            LtxError::ShortBuffer { need, got } => {
                s.push_str("short buffer: need ");
                push_decimal(&mut s, need as u64);
                s.push_str(", got ");
                push_decimal(&mut s, got as u64);
            },
            LtxError::InvalidMagic(m) => {
                s.push_str("invalid magic: [");
                push_hex(&mut s, m[0] as u64, 2);
                s.push_str(", ");
                push_hex(&mut s, m[1] as u64, 2);
                s.push_str(", ");
                push_hex(&mut s, m[2] as u64, 2);
                s.push_str(", ");
                push_hex(&mut s, m[3] as u64, 2);
                s.push_str("]");
            },
            LtxError::InvalidPageSize(sz) => {
                s.push_str("invalid page size: ");
                push_decimal(&mut s, sz as u64);
            },
            LtxError::ZeroPageNumber => s.push_str("page number required"),
            LtxError::Lz4(fault) => {
                s.push_str("lz4 decompress: ");
                push_fault(&mut s, fault);
            },
            LtxError::BlockTooLong { len } => {
                s.push_str("lz4 block of ");
                push_decimal(&mut s, len as u64);
                s.push_str(" bytes is too long");
            },
            LtxError::FrameFormatUnsupported => s.push_str(
                "old lz4 frame page format not supported",
            ),
            LtxError::VarintOverflow => s.push_str("varint does not fit in 64 bits"),
            LtxError::ImageTooLarge { pages } => {
                s.push_str("database of ");
                push_decimal(&mut s, pages);
                s.push_str(" pages is too large");
            },
            LtxError::FileChecksumMismatch { expected, actual } => {
                s.push_str("file checksum mismatch: expected ");
                push_hex(&mut s, expected.0, 16);
                s.push_str(", got ");
                push_hex(&mut s, actual.0, 16);
            },
            LtxError::PostApplyChecksumMismatch { expected, actual } => {
                s.push_str("post-apply checksum mismatch: expected ");
                push_hex(&mut s, expected.0, 16);
                s.push_str(", got ");
                push_hex(&mut s, actual.0, 16);
            },
            LtxError::NotASnapshot => s.push_str("not a snapshot LTX file"),
            LtxError::UnexpectedPage { expected, got } => {
                s.push_str("unexpected page: expected pgno ");
                push_decimal(&mut s, expected as u64);
                s.push_str(", got ");
                push_decimal(&mut s, got as u64);
            },
            LtxError::InvalidTxidRange { min, max } => {
                s.push_str("invalid txid range: (");
                push_decimal(&mut s, min);
                s.push_str(", ");
                push_decimal(&mut s, max);
                s.push_str(")");
            },
            LtxError::SnapshotPreApplyChecksum => s.push_str(
                "pre-apply checksum must be zero on snapshots",
            ),
            LtxError::PageOutOfOrder { prev, pgno } => {
                s.push_str("page out of order: prev ");
                push_decimal(&mut s, prev as u64);
                s.push_str(", pgno ");
                push_decimal(&mut s, pgno as u64);
            },
            LtxError::PageBeyondCommit { pgno, commit } => {
                s.push_str("page ");
                push_decimal(&mut s, pgno as u64);
                s.push_str(" out-of-bounds for commit size ");
                push_decimal(&mut s, commit as u64);
            },
            LtxError::LockPageEncoded(pgno) => {
                s.push_str("cannot encode lock page: pgno=");
                push_decimal(&mut s, pgno as u64);
            },
            LtxError::WrongPageLength { expected, got } => {
                s.push_str("wrong page length: expected ");
                push_decimal(&mut s, expected as u64);
                s.push_str(", got ");
                push_decimal(&mut s, got as u64);
            },
        }
        assert(s@ =~= self.text());
        s
    }
}

/// The message of an error says its two numbers, in this order, among words that do not
/// depend on them.
pub proof fn lemma_messages_say_both_numbers(
    e: LtxError,
    f: LtxError,
    s: String,
    t: String,
)
    requires
        call_ensures(LtxError::message, (&e,), s),
        call_ensures(LtxError::message, (&f,), t),
    ensures
        match (e, f) {
            (
                LtxError::ShortBuffer { need: n, got: m },
                LtxError::ShortBuffer { need: k, got: l },
            ) => exists|a: Seq<char>, b: Seq<char>, c: Seq<char>|
                #[trigger] says(s@, a, n as nat, b, m as nat, c) && says(
                    t@,
                    a,
                    k as nat,
                    b,
                    l as nat,
                    c,
                ),
            (
                LtxError::UnexpectedPage { expected: n, got: m },
                LtxError::UnexpectedPage { expected: k, got: l },
            ) => exists|a: Seq<char>, b: Seq<char>, c: Seq<char>|
                #[trigger] says(s@, a, n as nat, b, m as nat, c) && says(
                    t@,
                    a,
                    k as nat,
                    b,
                    l as nat,
                    c,
                ),
            (
                LtxError::InvalidTxidRange { min: n, max: m },
                LtxError::InvalidTxidRange { min: k, max: l },
            ) => exists|a: Seq<char>, b: Seq<char>, c: Seq<char>|
                #[trigger] says(s@, a, n as nat, b, m as nat, c) && says(
                    t@,
                    a,
                    k as nat,
                    b,
                    l as nat,
                    c,
                ),
            (
                LtxError::PageOutOfOrder { prev: n, pgno: m },
                LtxError::PageOutOfOrder { prev: k, pgno: l },
            ) => exists|a: Seq<char>, b: Seq<char>, c: Seq<char>|
                #[trigger] says(s@, a, n as nat, b, m as nat, c) && says(
                    t@,
                    a,
                    k as nat,
                    b,
                    l as nat,
                    c,
                ),
            (
                LtxError::PageBeyondCommit { pgno: n, commit: m },
                LtxError::PageBeyondCommit { pgno: k, commit: l },
            ) => exists|a: Seq<char>, b: Seq<char>, c: Seq<char>|
                #[trigger] says(s@, a, n as nat, b, m as nat, c) && says(
                    t@,
                    a,
                    k as nat,
                    b,
                    l as nat,
                    c,
                ),
            (
                LtxError::WrongPageLength { expected: n, got: m },
                LtxError::WrongPageLength { expected: k, got: l },
            ) => exists|a: Seq<char>, b: Seq<char>, c: Seq<char>|
                #[trigger] says(s@, a, n as nat, b, m as nat, c) && says(
                    t@,
                    a,
                    k as nat,
                    b,
                    l as nat,
                    c,
                ),
            _ => true,
        },
{
    let none = Seq::<char>::empty();
    match (e, f) {
        (LtxError::ShortBuffer { need: n, got: m }, LtxError::ShortBuffer { need: k, got: l }) => {
            assert(says(s@, "short buffer: need "@, n as nat, ", got "@, m as nat, none));
            assert(says(t@, "short buffer: need "@, k as nat, ", got "@, l as nat, none));
        },
        (LtxError::UnexpectedPage { expected: n, got: m }, LtxError::UnexpectedPage { expected: k, got: l }) => {
            assert(says(s@, "unexpected page: expected pgno "@, n as nat, ", got "@, m as nat, none));
            assert(says(t@, "unexpected page: expected pgno "@, k as nat, ", got "@, l as nat, none));
        },
        (LtxError::InvalidTxidRange { min: n, max: m }, LtxError::InvalidTxidRange { min: k, max: l }) => {
            assert(says(s@, "invalid txid range: ("@, n as nat, ", "@, m as nat, ")"@));
            assert(says(t@, "invalid txid range: ("@, k as nat, ", "@, l as nat, ")"@));
        },
        (LtxError::PageOutOfOrder { prev: n, pgno: m }, LtxError::PageOutOfOrder { prev: k, pgno: l }) => {
            assert(says(s@, "page out of order: prev "@, n as nat, ", pgno "@, m as nat, none));
            assert(says(t@, "page out of order: prev "@, k as nat, ", pgno "@, l as nat, none));
        },
        (LtxError::PageBeyondCommit { pgno: n, commit: m }, LtxError::PageBeyondCommit { pgno: k, commit: l }) => {
            assert(says(s@, "page "@, n as nat, " out-of-bounds for commit size "@, m as nat, none));
            assert(says(t@, "page "@, k as nat, " out-of-bounds for commit size "@, l as nat, none));
        },
        (LtxError::WrongPageLength { expected: n, got: m }, LtxError::WrongPageLength { expected: k, got: l }) => {
            assert(says(s@, "wrong page length: expected "@, n as nat, ", got "@, m as nat, none));
            assert(says(t@, "wrong page length: expected "@, k as nat, ", got "@, l as nat, none));
        },
        _ => {},
    }
}

} // verus!
