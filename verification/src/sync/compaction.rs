//! What to compact, and what to delete.

use crate::ltx::checksum::Checksum;
use crate::ltx::compactor::{buffers, merge_of, merge_to_writer};
use crate::ltx::decoder::{FileView, file_of};
use crate::ltx::encoder::{PageRec, file_bytes, file_trailer};
use crate::ltx::error::LtxError;
use crate::ltx::format::{HEADER_FLAG_NO_CHECKSUM, Header, header_of};
use crate::ltx::roundtrip::page_views;
use crate::storage::{LtxFileInfo, in_txid_order, sort_by_txid, txid_sorted};
use crate::sync::error::{LevelFault, SyncError};
use crate::sync::level::SNAPSHOT_LEVEL;
use crate::sync::plan::{FileKey, full_plan, head, head_txid, plan_restore};
use crate::sync::retention::{
    below_txid, expired_files, files_below, is_expired, l0_deletions, l0_expired, min_retained,
    snapshot_expired, spare_newest,
};
use crate::time::{Span, Time};
use vstd::prelude::*;

verus! {

/// What a compaction produced.
#[derive(Clone, Copy, Debug, PartialEq, Eq, Structural)]
pub struct CompactionInfo {
    /// The TXID range of the new file.
    pub min_txid: u64,
    pub max_txid: u64,
    /// Number of input files merged.
    pub inputs: usize,
    /// Number of superseded files deleted.
    pub pruned: usize,
}

/// The first file that starts at TXID 1.
pub open spec fn first_base(files: Seq<LtxFileInfo>) -> Option<LtxFileInfo>
    decreases files.len(),
{
    if files.len() == 0 {
        None
    } else {
        match first_base(files.drop_last()) {
            Some(b) => Some(b),
            None => if files.last().min_txid == 1 {
                Some(files.last())
            } else {
                None
            },
        }
    }
}

/// The files that start after `txid`, in order.
pub open spec fn files_after(files: Seq<LtxFileInfo>, txid: u64) -> Seq<LtxFileInfo>
    decreases files.len(),
{
    if files.len() == 0 {
        Seq::empty()
    } else if files.last().min_txid > txid {
        files_after(files.drop_last(), txid).push(files.last())
    } else {
        files_after(files.drop_last(), txid)
    }
}

/// The highest maximum TXID of the files, or 0.
pub open spec fn frontier(files: Seq<LtxFileInfo>) -> u64
    decreases files.len(),
{
    if files.len() == 0 {
        0
    } else {
        let m = frontier(files.drop_last());
        if files.last().max_txid > m {
            files.last().max_txid
        } else {
            m
        }
    }
}

fn find_base(files: &[LtxFileInfo]) -> (r: Option<LtxFileInfo>)
    ensures
        r == first_base(files@),
{
    let mut best: Option<LtxFileInfo> = None;
    let mut i: usize = 0;
    assert(files@.take(0) =~= Seq::empty());
    while i < files.len()
        invariant
            i <= files@.len(),
            best == first_base(files@.take(i as int)),
        decreases files@.len() - i,
    {
        assert(files@.take(i + 1).drop_last() =~= files@.take(i as int));
        let f = files[i];
        if best.is_none() && f.min_txid == 1 {
            best = Some(f);
        }
        i += 1;
    }
    assert(files@.take(i as int) =~= files@);
    best
}

fn filter_after(files: &[LtxFileInfo], txid: u64) -> (out: Vec<LtxFileInfo>)
    ensures
        out@ == files_after(files@, txid),
{
    let mut out: Vec<LtxFileInfo> = Vec::new();
    let mut i: usize = 0;
    assert(files@.take(0) =~= Seq::empty());
    while i < files.len()
        invariant
            i <= files@.len(),
            out@ == files_after(files@.take(i as int), txid),
        decreases files@.len() - i,
    {
        assert(files@.take(i + 1).drop_last() =~= files@.take(i as int));
        let f = files[i];
        if f.min_txid > txid {
            out.push(f);
        }
        i += 1;
    }
    assert(files@.take(i as int) =~= files@);
    out
}

/// The highest maximum TXID of the files, or 0 where there is none.
pub fn frontier_txid(files: &[LtxFileInfo]) -> (m: u64)
    ensures
        m == frontier(files@),
{
    let mut m: u64 = 0;
    let mut i: usize = 0;
    assert(files@.take(0) =~= Seq::empty());
    while i < files.len()
        invariant
            i <= files@.len(),
            m == frontier(files@.take(i as int)),
        decreases files@.len() - i,
    {
        assert(files@.take(i + 1).drop_last() =~= files@.take(i as int));
        if files[i].max_txid > m {
            m = files[i].max_txid;
        }
        i += 1;
    }
    assert(files@.take(i as int) =~= files@);
    m
}

/// The level at which the base that the L0 chain is compacted into stands.
pub const BASE_LEVEL: u32 = 1;

/// A compaction of the L0 chain into a base: merge the base there is, then the
/// L0 run, into one file `1..=max_txid`, and delete what it supersedes.
#[derive(Debug)]
pub struct BasePlan {
    /// The level that the base is looked up at and written to.
    pub level: u32,
    pub base: Option<LtxFileInfo>,
    pub merge: Vec<LtxFileInfo>,
    pub max_txid: u64,
}

/// The TXID that a base reaches, or 0.
pub open spec fn base_reach(base: Option<LtxFileInfo>) -> u64 {
    match base {
        Some(b) => b.max_txid,
        None => 0,
    }
}

/// The keys of these files at this level.
pub open spec fn keys_at(level: u32, files: Seq<LtxFileInfo>) -> Seq<FileKey> {
    files.map_values(|f: LtxFileInfo| (level, f.min_txid, f.max_txid))
}

/// The files that are merged into a new base, oldest first: the base there is, then
/// the L0 run.
pub open spec fn base_inputs(
    level: u32,
    base: Option<LtxFileInfo>,
    merge: Seq<LtxFileInfo>,
) -> Seq<FileKey> {
    match base {
        Some(b) => seq![(level, b.min_txid, b.max_txid)] + keys_at(0, merge),
        None => keys_at(0, merge),
    }
}

impl BasePlan {
    /// The files to merge, oldest first, and to delete once the new base is there.
    pub fn inputs(&self) -> (ks: Vec<FileKey>)
        ensures
            ks@ == base_inputs(self.level, self.base, self.merge@),
    {
        let mut ks: Vec<FileKey> = Vec::new();
        match self.base {
            Some(b) => ks.push((self.level, b.min_txid, b.max_txid)),
            None => {},
        }
        let ghost front = ks@;
        let mut i: usize = 0;
        while i < self.merge.len()
            invariant
                i <= self.merge@.len(),
                ks@ == front + keys_at(0, self.merge@.take(i as int)),
            decreases self.merge@.len() - i,
        {
            let f = self.merge[i];
            ks.push((0, f.min_txid, f.max_txid));
            i += 1;
            assert(ks@ =~= front + keys_at(0, self.merge@.take(i as int)));
        }
        assert(self.merge@.take(i as int) =~= self.merge@);
        assert(ks@ =~= base_inputs(self.level, self.base, self.merge@));
        ks
    }

    /// The new base.
    pub fn target(&self) -> (k: FileKey)
        ensures
            k == (self.level, 1u64, self.max_txid),
    {
        (self.level, 1, self.max_txid)
    }

    /// What the compaction reports once it is done.
    pub fn info(&self) -> (i: CompactionInfo)
        requires
            self.merge@.len() < usize::MAX,
        ensures
            i.min_txid == 1,
            i.max_txid == self.max_txid,
            i.inputs == base_inputs(self.level, self.base, self.merge@).len(),
            i.pruned == i.inputs,
    {
        let n: usize = match self.base {
            Some(_) => self.merge.len() + 1,
            None => self.merge.len(),
        };
        CompactionInfo { min_txid: 1, max_txid: self.max_txid, inputs: n, pruned: n }
    }
}

/// Plans the compaction of the L0 chain into a single base at [`BASE_LEVEL`], from
/// the listings of level zero and of that level. The newest L0 file is kept
/// uncompacted: it is what a restart reads to recover the WAL position. `None`
/// where fewer than two L0 files are not in the base yet.
pub fn plan_compact(l0: &[LtxFileInfo], l1: &[LtxFileInfo]) -> (r: Option<BasePlan>)
    ensures
        ({
            let base = first_base(l1@);
            let new_l0 = files_after(l0@, base_reach(base));
            match r {
                None => new_l0.len() < 2,
                Some(p) => {
                    &&& new_l0.len() >= 2
                    &&& p.level == 1
                    &&& p.base == base
                    &&& p.merge@ == new_l0.drop_last()
                    &&& p.max_txid == new_l0[new_l0.len() - 2].max_txid
                    &&& p.merge@.len() < usize::MAX
                },
            }
        }),
{
    let base = find_base(l1);
    let base_max: u64 = match base {
        Some(b) => b.max_txid,
        None => 0,
    };
    let mut merge = filter_after(l0, base_max);
    if merge.len() < 2 {
        return None;
    }
    merge.pop();
    let max_txid: u64 = merge[merge.len() - 1].max_txid;
    Some(BasePlan { level: BASE_LEVEL, base, merge, max_txid })
}

/// A compaction of one level into the next: merge these files of the source
/// level into one.
#[derive(Debug)]
pub struct LevelPlan {
    pub src_level: u32,
    pub files: Vec<LtxFileInfo>,
    pub min_txid: u64,
    pub max_txid: u64,
}

impl LevelPlan {
    /// What the compaction reports once it is done.
    pub fn info(&self) -> (i: CompactionInfo)
        ensures
            i == (CompactionInfo {
                min_txid: self.min_txid,
                max_txid: self.max_txid,
                inputs: self.files@.len() as usize,
                pruned: 0,
            }),
    {
        CompactionInfo {
            min_txid: self.min_txid,
            max_txid: self.max_txid,
            inputs: self.files.len(),
            pruned: 0,
        }
    }
}

/// Which level a compaction into `dst_level` reads from. Only the levels of the
/// cascade can be compacted into.
pub fn source_level(dst_level: u32) -> (r: Result<u32, SyncError>)
    ensures
        r == (if dst_level == 0 || dst_level >= SNAPSHOT_LEVEL {
            Err::<u32, SyncError>(
                SyncError::InvalidCompactionLevels(
                    LevelFault::NotACascadeLevel { level: dst_level },
                ),
            )
        } else {
            Ok((dst_level - 1) as u32)
        }),
{
    if dst_level == 0 || dst_level >= SNAPSHOT_LEVEL {
        return Err(
            SyncError::InvalidCompactionLevels(LevelFault::NotACascadeLevel { level: dst_level }),
        );
    }
    Ok(dst_level - 1)
}

/// Plans the compaction into `dst_level` from the listings of that level and of
/// the one below it: the source files past the destination's frontier, in TXID
/// order. `None` where the destination is caught up.
pub fn plan_level(dst_level: u32, dst: &[LtxFileInfo], src: &[LtxFileInfo]) -> (r: Result<
    Option<LevelPlan>,
    SyncError,
>)
    ensures
        ({
            let files = txid_sorted(files_after(src@, frontier(dst@)));
            if dst_level == 0 || dst_level >= SNAPSHOT_LEVEL {
                r == Err::<Option<LevelPlan>, SyncError>(
                    SyncError::InvalidCompactionLevels(
                        LevelFault::NotACascadeLevel { level: dst_level },
                    ),
                )
            } else if files.len() == 0 {
                r == Ok::<Option<LevelPlan>, SyncError>(None)
            } else {
                r matches Ok(Some(p)) && {
                    &&& p.src_level == dst_level - 1
                    &&& p.files@ == files
                    &&& in_txid_order(p.files@)
                    &&& p.min_txid == files.first().min_txid
                    &&& p.max_txid == files.last().max_txid
                }
            }
        }),
{
    let src_level: u32 = match source_level(dst_level) {
        Ok(l) => l,
        Err(e) => return Err(e),
    };
    let past = filter_after(src, frontier_txid(dst));
    let files = sort_by_txid(&past);
    let n: usize = files.len();
    if n == 0 {
        return Ok(None);
    }
    let min_txid: u64 = files[0].min_txid;
    let max_txid: u64 = files[n - 1].max_txid;
    Ok(Some(LevelPlan { src_level, files, min_txid, max_txid }))
}

/// Some file covers `1..=txid`.
pub open spec fn covers_all(files: Seq<LtxFileInfo>, txid: u64) -> bool {
    exists|i: int|
        0 <= i < files.len() && (#[trigger] files[i]).min_txid == 1 && files[i].max_txid == txid
}

fn has_full_file(files: &[LtxFileInfo], txid: u64) -> (r: bool)
    ensures
        r == covers_all(files@, txid),
{
    let mut i: usize = 0;
    while i < files.len()
        invariant
            i <= files@.len(),
            forall|k: int|
                0 <= k < i ==> !((#[trigger] files@[k]).min_txid == 1 && files@[k].max_txid == txid),
        decreases files@.len() - i,
    {
        if files[i].min_txid == 1 && files[i].max_txid == txid {
            assert(files@[i as int].min_txid == 1);
            return true;
        }
        i += 1;
    }
    false
}

/// A snapshot rebuilt from the chain: merge these files into one file
/// `1..=max_txid`.
#[derive(Debug)]
pub struct SnapshotPlan {
    pub files: Vec<FileKey>,
    pub max_txid: u64,
}

/// What planning a snapshot gives, from a listing of all levels and one of the
/// snapshot level.
pub open spec fn snapshot_plan(files: Seq<FileKey>, snaps: Seq<LtxFileInfo>) -> Result<
    Option<(Seq<FileKey>, u64)>,
    SyncError,
> {
    if files.len() == 0 || covers_all(snaps, head(files)) {
        Ok(None)
    } else {
        match full_plan(files) {
            Err(e) => Err(e),
            Ok(p) => Ok(Some((p, head(files)))),
        }
    }
}

/// Plans a full snapshot of the latest replicated position. `None` where nothing
/// has been synced yet or a snapshot already covers that position.
pub fn plan_snapshot(files: &[FileKey], snaps: &[LtxFileInfo]) -> (r: Result<
    Option<SnapshotPlan>,
    SyncError,
>)
    ensures
        match (r, snapshot_plan(files@, snaps@)) {
            (Ok(None), Ok(None)) => true,
            (Ok(Some(p)), Ok(Some((fs, max)))) => p.files@ == fs && p.max_txid == max
                && p.files@.len() > 0,
            (Err(e), Err(se)) => e == se,
            _ => false,
        },
{
    if files.len() == 0 {
        return Ok(None);
    }
    let max_txid = head_txid(files);
    if has_full_file(snaps, max_txid) {
        return Ok(None);
    }
    match plan_restore(files) {
        Err(e) => Err(e),
        Ok(plan) => Ok(Some(SnapshotPlan { files: plan, max_txid })),
    }
}

impl SnapshotPlan {
    /// What the snapshot reports once it is done.
    pub fn info(&self) -> (i: CompactionInfo)
        ensures
            i == (CompactionInfo {
                min_txid: 1,
                max_txid: self.max_txid,
                inputs: self.files@.len() as usize,
                pruned: 0,
            }),
    {
        CompactionInfo {
            min_txid: 1,
            max_txid: self.max_txid,
            inputs: self.files.len(),
            pruned: 0,
        }
    }
}

/// The header of a snapshot that merges files of which the newest has the header
/// `newest`.
pub open spec fn merged_header(newest: Header, max_txid: u64, timestamp: i64) -> Header {
    Header {
        flags: HEADER_FLAG_NO_CHECKSUM,
        page_size: newest.page_size,
        commit: newest.commit,
        min_txid: 1,
        max_txid,
        timestamp,
        pre_apply_checksum: Checksum(0),
        wal_offset: 0,
        wal_size: 0,
        wal_salt1: 0,
        wal_salt2: 0,
        node_id: 0,
    }
}

/// What merging the files `bufs` of a restore plan into a snapshot gives.
pub open spec fn merged_snapshot(bufs: Seq<Seq<u8>>, max_txid: u64, timestamp: i64) -> Result<
    (Header, Seq<PageRec>),
    SyncError,
> {
    match header_of(bufs.last()) {
        Err(e) => Err(SyncError::Ltx(e)),
        Ok(newest) => {
            let h = merged_header(newest, max_txid, timestamp);
            match merge_of(bufs, h) {
                Err(e) => Err(SyncError::Ltx(e)),
                Ok(ps) => Ok((h, ps)),
            }
        },
    }
}

/// The header of a snapshot that merges files of which the newest is `newest`. The
/// final size comes from the newest file (a VACUUM may have shrunk the database).
pub fn snapshot_header(newest: &[u8], max_txid: u64, timestamp: i64) -> (r: Result<
    Header,
    SyncError,
>)
    ensures
        r == (match header_of(newest@) {
            Err(e) => Err::<Header, SyncError>(SyncError::Ltx(e)),
            Ok(h) => Ok::<Header, SyncError>(merged_header(h, max_txid, timestamp)),
        }),
{
    let newest = match Header::decode(newest) {
        Ok(h) => h,
        Err(e) => return Err(SyncError::Ltx(e)),
    };
    Ok(
        Header {
            flags: HEADER_FLAG_NO_CHECKSUM,
            page_size: newest.page_size,
            commit: newest.commit,
            min_txid: 1,
            max_txid,
            timestamp,
            pre_apply_checksum: Checksum(0),
            wal_offset: 0,
            wal_size: 0,
            wal_salt1: 0,
            wal_salt2: 0,
            node_id: 0,
        },
    )
}

/// Merges the files of a restore plan, oldest first, into one snapshot. The
/// final size comes from the newest file (a VACUUM may have shrunk the
/// database).
pub fn merge_snapshot(inputs: &[&[u8]], max_txid: u64, timestamp: i64) -> (r: Result<
    Vec<u8>,
    SyncError,
>)
    requires
        inputs@.len() > 0,
    ensures
        match (r, merged_snapshot(buffers(inputs@), max_txid, timestamp)) {
            (Ok(out), Ok((h, ps))) => {
                &&& out@ == file_bytes(h, ps, Checksum(0))
                &&& file_of(out@) == Ok::<FileView, LtxError>(
                    FileView {
                        header: h,
                        pages: page_views(ps),
                        trailer: file_trailer(h, ps, Checksum(0)),
                    },
                )
            },
            (Err(e), Err(se)) => e == se,
            _ => false,
        },
{
    let last: usize = inputs.len() - 1;
    assert(buffers(inputs@).last() == inputs@[last as int]@);
    let header = match snapshot_header(inputs[last], max_txid, timestamp) {
        Ok(h) => h,
        Err(e) => return Err(e),
    };
    match merge_to_writer(inputs, header) {
        Ok(out) => Ok(out),
        Err(e) => Err(SyncError::Ltx(e)),
    }
}

/// The instant `retention` before `now`; the earliest instant where that lies
/// before it, so that nothing is older.
pub open spec fn cutoff_of(now: Time, retention: Span) -> Time {
    if now.nanos - retention.nanos < i128::MIN {
        Time { nanos: i128::MIN }
    } else {
        Time { nanos: (now.nanos - retention.nanos) as i128 }
    }
}

fn cutoff(now: Time, retention: Span) -> (t: Time)
    ensures
        t == cutoff_of(now, retention),
{
    match now.checked_sub(retention) {
        Some(t) => t,
        None => Time { nanos: i128::MIN },
    }
}

/// A file is past the cutoff where it is older than the retention, whatever the
/// two instants are.
pub proof fn lemma_cutoff(now: Time, retention: Span, f: LtxFileInfo)
    ensures
        is_expired(f, cutoff_of(now, retention)) <==> (f.created_at matches Some(t) && now.nanos
            - t.nanos > retention.nanos),
{
}

/// Which snapshots to delete, those older than `retention` but never the newest,
/// and the TXID below which the lower levels are then pruned (0 for no pruning).
pub fn plan_snapshot_retention(now: Time, retention: Span, snaps: &[LtxFileInfo]) -> (r: (
    Vec<LtxFileInfo>,
    u64,
))
    ensures
        r.0@ == spare_newest(snaps@, expired_files(snaps@, cutoff_of(now, retention))),
        r.1 == min_retained(snaps@, cutoff_of(now, retention)),
{
    snapshot_expired(snaps, cutoff(now, retention))
}

/// Which files of a level to delete below `txid`; none where `txid` is 0, and
/// never the newest.
pub fn plan_level_pruning(txid: u64, files: &[LtxFileInfo]) -> (r: Vec<LtxFileInfo>)
    ensures
        r@ == (if txid == 0 {
            Seq::<LtxFileInfo>::empty()
        } else {
            spare_newest(files@, files_below(files@, txid))
        }),
{
    if txid == 0 {
        return Vec::new();
    }
    below_txid(files, txid)
}

/// Which L0 files to delete: those folded into L1 and older than `retention`,
/// keeping a contiguous, recent tail and always the newest. A zero `retention`
/// disables it.
pub fn plan_l0_retention(
    now: Time,
    retention: Span,
    l1: &[LtxFileInfo],
    l0: &[LtxFileInfo],
) -> (r: Vec<LtxFileInfo>)
    ensures
        r@ == (if retention.nanos == 0 {
            Seq::<LtxFileInfo>::empty()
        } else {
            l0_deletions(l0@, frontier(l1@), cutoff_of(now, retention))
        }),
{
    if retention.is_zero() {
        return Vec::new();
    }
    l0_expired(l0, frontier_txid(l1), cutoff(now, retention))
}

} // verus!
