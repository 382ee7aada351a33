//! SQLite Write-Ahead Log parsing.
//!
//! A WAL file is a 32-byte header followed by frames, each a 24-byte header
//! plus one `page_size` page of data:
//!
//! ```text
//! WAL header (32):  magic, version, page_size, seq, salt1, salt2, checksum1, checksum2
//! Frame (24+ps):    pgno, commit, salt1, salt2, checksum1, checksum2, <page data>
//! ```
//!
//! Fields are big-endian; the running checksum reads words in the byte order
//! the magic selects.

pub mod error;
pub mod format;
pub mod reader;
pub mod written;

pub use error::WalError;
pub use format::{
    ByteOrder, WAL_FRAME_HEADER_SIZE, WAL_HEADER_SIZE, WAL_MAGIC_BE, WAL_MAGIC_LE, WAL_VERSION,
    WalFrameHeader, WalHeader, wal_checksum,
};
pub use reader::{Frame, PageMap, WalReader};
