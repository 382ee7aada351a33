//! The LTX (Lite Transaction) file format, version 3.
//!
//! ```text
//! Header (100 bytes)
//! Page block:  [PageHeader(6) page-data]...  ended by a zero PageHeader(6)
//! Page index:  varint(pgno, offset, size)... varint(0)  then u64 index length
//! Trailer (16 bytes): post-apply checksum (u64) + file checksum (u64)
//! ```
//!
//! All integers are big-endian. The file checksum covers the page data
//! uncompressed, so it does not depend on how the pages were compressed.

pub mod checksum;

pub use checksum::{CHECKSUM_FLAG, Checksum, Hasher, checksum_page};
pub mod error;
pub mod format;

pub use error::LtxError;
pub use format::{
    HEADER_FLAG_NO_CHECKSUM, HEADER_SIZE, Header, MAGIC, PAGE_HEADER_FLAG_SIZE, PAGE_HEADER_SIZE,
    PENDING_BYTE, PageHeader, TRAILER_SIZE, Trailer, VERSION, is_valid_page_size, lock_pgno,
};
pub mod index;

pub use index::{INDEX_FOOTER_SIZE, PageIndexElem, decode_page_index, page_index};
pub mod lz4;

pub use lz4::BlockFault;
pub mod encoder;

pub use encoder::{Encoder, write_snapshot};
pub mod decoder;

pub use decoder::{DecodedFile, decode_page_frame, read_file};
pub mod contents;
pub mod layout;
pub mod roundtrip;
pub mod stream;

pub use stream::{Decoder, Snapshot, read_snapshot};
pub mod compactor;

pub use compactor::{Merge, compact, compact_header, compact_to_writer, merge_to_writer};
