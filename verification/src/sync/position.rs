//! The replication position, and what to write next from it.

use crate::ltx::checksum::Checksum;
use crate::ltx::format::{HEADER_FLAG_NO_CHECKSUM, Header};
use crate::ltx::stream::{Decoder, stream_header_of};
use crate::sync::error::SyncError;
use crate::sync::plan::FileKey;
use crate::wal::format::{WAL_FRAME_HEADER_SIZE, WAL_HEADER_SIZE, WalHeader};
use crate::wire::{bits_i64, i64_bits, i64_from_bits, i64_to_bits};
use vstd::prelude::*;

verus! {

/// How far a database has been replicated.
#[derive(Clone, Copy, Debug, PartialEq, Eq, Structural)]
pub struct Position {
    pub txid: u64,
    pub wal_offset: u64,
    pub salt1: u32,
    pub salt2: u32,
    pub synced_to_wal_end: bool,
}

impl Default for Position {
    fn default() -> (p: Self)
        ensures
            p == start_position(),
    {
        Position { txid: 0, wal_offset: 0, salt1: 0, salt2: 0, synced_to_wal_end: false }
    }
}

/// The position before anything was replicated.
pub open spec fn start_position() -> Position {
    Position { txid: 0, wal_offset: 0, salt1: 0, salt2: 0, synced_to_wal_end: false }
}

/// What a single sync produced.
#[allow(inconsistent_fields)]
#[derive(Clone, Copy, Debug, PartialEq, Eq)]
pub enum SyncOutcome {
    /// No new committed WAL frames; nothing written.
    Skipped,
    /// A full snapshot (all pages) was written.
    Snapshot { txid: u64, pages: u32 },
    /// An incremental file with the changed pages was written.
    Incremental { txid: u64, pages: usize },
}

/// What to write next.
#[derive(Clone, Copy, Debug, PartialEq, Eq)]
pub enum Plan {
    Skip,
    Snapshot { offset: u64 },
    Incremental { offset: u64, salt1: u32, salt2: u32 },
}

/// What to write next, from a position and the state of the WAL: its length, and
/// its header where it has one. A position without a WAL offset does not say what
/// of the WAL is replicated, so everything is written again.
pub open spec fn plan_of(pos: Position, wal_len: u64, header: Option<WalHeader>) -> Plan {
    if pos.txid == 0 || pos.wal_offset == 0 {
        Plan::Snapshot { offset: 32 }
    } else {
        match header {
            None => if pos.synced_to_wal_end {
                Plan::Skip
            } else {
                Plan::Snapshot { offset: 32 }
            },
            Some(h) => if pos.wal_offset > wal_len || h.salt1 != pos.salt1 || h.salt2 != pos.salt2 {
                Plan::Incremental { offset: 32, salt1: h.salt1, salt2: h.salt2 }
            } else {
                Plan::Incremental { offset: pos.wal_offset, salt1: pos.salt1, salt2: pos.salt2 }
            },
        }
    }
}

/// The header of a file that the sync engine writes: checksum tracking disabled,
/// one TXID, and the WAL range it was read from.
pub open spec fn sync_header(
    page_size: u32,
    commit: u32,
    txid: u64,
    wal_offset: u64,
    wal_size: u64,
    salt1: u32,
    salt2: u32,
    timestamp: i64,
) -> Header {
    Header {
        flags: HEADER_FLAG_NO_CHECKSUM,
        page_size,
        commit,
        min_txid: txid,
        max_txid: txid,
        timestamp,
        pre_apply_checksum: Checksum(0),
        wal_offset: bits_i64(wal_offset),
        wal_size: bits_i64(wal_size),
        wal_salt1: salt1,
        wal_salt2: salt2,
        node_id: 0,
    }
}

/// The header of a file that the sync engine writes: checksum tracking disabled,
/// one TXID, and the WAL range it was read from.
pub fn no_checksum_header(
    page_size: u32,
    commit: u32,
    txid: u64,
    wal_offset: u64,
    wal_size: u64,
    salt1: u32,
    salt2: u32,
    timestamp: i64,
) -> (h: Header)
    ensures
        h == sync_header(
            page_size,
            commit,
            txid,
            wal_offset,
            wal_size,
            salt1,
            salt2,
            timestamp,
        ),
{
    Header {
        flags: HEADER_FLAG_NO_CHECKSUM,
        page_size,
        commit,
        min_txid: txid,
        max_txid: txid,
        timestamp,
        pre_apply_checksum: Checksum::zero(),
        wal_offset: i64_from_bits(wal_offset),
        wal_size: i64_from_bits(wal_size),
        wal_salt1: salt1,
        wal_salt2: salt2,
        node_id: 0,
    }
}

/// How many frames of a WAL lie before `offset`.
pub open spec fn frames_before(offset: u64, page_size: u32) -> u64 {
    ((if offset < WAL_HEADER_SIZE {
        0
    } else {
        offset - WAL_HEADER_SIZE
    }) / (WAL_FRAME_HEADER_SIZE + page_size)) as u64
}

/// How many frames of a WAL lie before `offset`.
pub fn wal_frames_before(offset: u64, page_size: u32) -> (n: u64)
    ensures
        n == frames_before(offset, page_size),
{
    let size: u64 = WAL_FRAME_HEADER_SIZE as u64 + page_size as u64;
    let past: u64 = if offset < WAL_HEADER_SIZE as u64 {
        0
    } else {
        offset - WAL_HEADER_SIZE as u64
    };
    proof {
        assert(past as int / size as int <= past) by (nonlinear_arith)
            requires
                size > 0,
                past >= 0,
        ;
    }
    past / size
}

impl Position {
    /// Decides what to write next. A new WAL generation (salt change) or a
    /// shrunk WAL means that a checkpoint restarted the log; the old generation
    /// is in the chain already, so an incremental from the start of the new one
    /// is enough. Where the WAL position is unknown, a snapshot is due.
    pub fn plan(&self, wal_len: u64, header: Option<&WalHeader>) -> (p: Plan)
        ensures
            p == plan_of(
                *self,
                wal_len,
                match header {
                    Some(h) => Some(*h),
                    None => None,
                },
            ),
            self.txid > 0 && self.wal_offset == 0 ==> p == (Plan::Snapshot { offset: 32 }),
    {
        if self.txid == 0 || self.wal_offset == 0 {
            return Plan::Snapshot { offset: WAL_HEADER_SIZE as u64 };
        }
        let h = match header {
            None => {
                return if self.synced_to_wal_end {
                    Plan::Skip
                } else {
                    Plan::Snapshot { offset: WAL_HEADER_SIZE as u64 }
                };
            },
            Some(h) => h,
        };
        if self.wal_offset > wal_len || h.salt1 != self.salt1 || h.salt2 != self.salt2 {
            return Plan::Incremental {
                offset: WAL_HEADER_SIZE as u64,
                salt1: h.salt1,
                salt2: h.salt2,
            };
        }
        Plan::Incremental { offset: self.wal_offset, salt1: self.salt1, salt2: self.salt2 }
    }

    /// Logically-synced WAL frames in the current generation: the replicated
    /// extent, immune to the stale high-water mark that a passive checkpoint
    /// leaves behind.
    pub fn live_wal_frames(&self, page_size: u32) -> (n: u64)
        ensures
            n == frames_before(self.wal_offset, page_size),
    {
        wal_frames_before(self.wal_offset, page_size)
    }
}

/// The file with the highest maximum TXID; the last such file.
pub open spec fn newest_file(files: Seq<FileKey>) -> Option<FileKey>
    decreases files.len(),
{
    if files.len() == 0 {
        None
    } else {
        match newest_file(files.drop_last()) {
            Some(b) if b.2 > files.last().2 => Some(b),
            _ => Some(files.last()),
        }
    }
}

/// The level-0 files, in order.
pub open spec fn level_zero(files: Seq<FileKey>) -> Seq<FileKey>
    decreases files.len(),
{
    if files.len() == 0 {
        Seq::empty()
    } else if files.last().0 == 0 {
        level_zero(files.drop_last()).push(files.last())
    } else {
        level_zero(files.drop_last())
    }
}

fn newest_of(files: &[FileKey], only_level_zero: bool) -> (r: Option<FileKey>)
    ensures
        r == newest_file(
            if only_level_zero {
                level_zero(files@)
            } else {
                files@
            },
        ),
{
    let mut best: Option<FileKey> = None;
    let mut i: usize = 0;
    assert(files@.take(0) =~= Seq::empty());
    while i < files.len()
        invariant
            i <= files@.len(),
            best == newest_file(
                if only_level_zero {
                    level_zero(files@.take(i as int))
                } else {
                    files@.take(i as int)
                },
            ),
        decreases files@.len() - i,
    {
        let f = files[i];
        proof {
            assert(files@.take(i + 1).drop_last() =~= files@.take(i as int));
            if f.0 == 0 {
                let z = level_zero(files@.take(i as int));
                assert(level_zero(files@.take(i + 1)) == z.push(f));
                assert(z.push(f).drop_last() =~= z);
            }
        }
        if !only_level_zero || f.0 == 0 {
            best = match best {
                Some(b) if b.2 > f.2 => Some(b),
                _ => Some(f),
            };
        }
        i += 1;
    }
    assert(files@.take(i as int) =~= files@);
    best
}

/// The file whose header holds the WAL position to resume from: the newest L0
/// file, the only level that carries live WAL state.
pub fn resume_file(files: &[FileKey]) -> (r: Option<FileKey>)
    ensures
        r == newest_file(level_zero(files@)),
{
    newest_of(files, true)
}

/// The end of the WAL range that a header states, as 64 bits.
pub open spec fn wal_end(h: Header) -> u64 {
    ((i64_bits(h.wal_offset) + i64_bits(h.wal_size)) % 0x1_0000_0000_0000_0000) as u64
}

/// The position to resume from: the highest TXID of any file, and the WAL state
/// in the header of the newest L0 file. `newest_l0` holds the bytes of that
/// file, or `None` where there is no L0 file, and the WAL state is then unknown.
pub open spec fn resume_position(files: Seq<FileKey>, newest_l0: Option<Seq<u8>>) -> Result<
    Position,
    SyncError,
> {
    match newest_file(files) {
        None => Ok(start_position()),
        Some(f) => match newest_l0 {
            None => Ok(
                Position { txid: f.2, wal_offset: 0, salt1: 0, salt2: 0, synced_to_wal_end: false },
            ),
            Some(b) => match stream_header_of(b) {
                Err(e) => Err(SyncError::Ltx(e)),
                Ok(h) => Ok(
                    Position {
                        txid: f.2,
                        wal_offset: wal_end(h),
                        salt1: h.wal_salt1,
                        salt2: h.wal_salt2,
                        synced_to_wal_end: false,
                    },
                ),
            },
        },
    }
}

/// Recovers the position to resume from out of a listing of all levels and the
/// bytes of its [`resume_file`].
pub fn derive_position(files: &[FileKey], newest_l0: Option<&[u8]>) -> (r: Result<
    Position,
    SyncError,
>)
    ensures
        r == resume_position(
            files@,
            match newest_l0 {
                Some(b) => Some(b@),
                None => None,
            },
        ),
{
    let txid: u64 = match newest_of(files, false) {
        None => {
            return Ok(
                Position { txid: 0, wal_offset: 0, salt1: 0, salt2: 0, synced_to_wal_end: false },
            );
        },
        Some(f) => f.2,
    };
    let b = match newest_l0 {
        None => {
            return Ok(
                Position { txid, wal_offset: 0, salt1: 0, salt2: 0, synced_to_wal_end: false },
            );
        },
        Some(b) => b,
    };
    let mut dec = Decoder::new(b);
    assert(b@.skip(0) =~= b@);
    match dec.decode_header() {
        Err(e) => Err(SyncError::Ltx(e)),
        Ok(h) => {
            let end: u128 = i64_to_bits(h.wal_offset) as u128 + i64_to_bits(h.wal_size) as u128;
            Ok(
                Position {
                    txid,
                    wal_offset: (end % 0x1_0000_0000_0000_0000) as u64,
                    salt1: h.wal_salt1,
                    salt2: h.wal_salt2,
                    synced_to_wal_end: false,
                },
            )
        },
    }
}

/// A restart resumes where the last sync ended: from a file that the sync engine
/// wrote, the WAL position is the end of the range that the file covers.
pub proof fn lemma_resume_where_synced(
    page_size: u32,
    commit: u32,
    txid: u64,
    wal_offset: u64,
    wal_size: u64,
    salt1: u32,
    salt2: u32,
    timestamp: i64,
)
    requires
        wal_offset + wal_size <= u64::MAX,
    ensures
        wal_end(
            sync_header(
                page_size,
                commit,
                txid,
                wal_offset,
                wal_size,
                salt1,
                salt2,
                timestamp,
            ),
        ) == wal_offset + wal_size,
{
}

/// Where the replica holds no L0 file, the WAL position is unknown, and the next
/// sync writes a snapshot, whatever the WAL holds.
pub proof fn lemma_unknown_wal_is_snapshotted(
    files: Seq<FileKey>,
    wal_len: u64,
    header: Option<WalHeader>,
)
    requires
        newest_file(level_zero(files)) is None,
    ensures
        resume_position(files, None) matches Ok(p) && plan_of(p, wal_len, header) == (
        Plan::Snapshot { offset: 32 }),
{
}

} // verus!
