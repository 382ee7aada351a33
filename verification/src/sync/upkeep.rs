//! What compaction and retention do to a replica, as seen from their inputs and
//! results.

use crate::ltx::compactor::{buffers, merge_to_writer};
use crate::ltx::error::LtxError;
use crate::ltx::format::{Header, header_of};
use crate::storage::{LtxFileInfo, txid_sorted};
use crate::sync::compaction::{
    BasePlan, CompactionInfo, LevelPlan, SnapshotPlan, base_reach, files_after, first_base,
    frontier, frontier_txid, merge_snapshot, plan_compact, plan_l0_retention, plan_level,
    plan_level_pruning, plan_snapshot, plan_snapshot_retention, snapshot_header, source_level,
};
use crate::sync::error::{LevelFault, SyncError};
use crate::sync::plan::{FileKey, full_plan, head, lemma_head};
use crate::sync::retention::{
    below_txid, distinct, expired_files, files_below, folded_files, is_expired, l0_deletions,
    l0_expired, lemma_min_retained_is_kept, lemma_old_prefix_ends, min_retained, old_prefix,
    snapshot_expired, spare_newest,
};
use crate::time::{Span, Time};
use vstd::prelude::*;

verus! {

// --- Compaction ---

/// The frontier of a level is where its files end: no file ends after it, and one ends
/// there, unless there is none.
pub proof fn lemma_frontier_is_the_highest_end(files: &[LtxFileInfo], m: u64)
    requires
        call_ensures(frontier_txid, (files,), m),
    ensures
        forall|i: int| 0 <= i < files@.len() ==> (#[trigger] files@[i]).max_txid <= m,
        m > 0 ==> exists|i: int| 0 <= i < files@.len() && (#[trigger] files@[i]).max_txid == m,
{
    lemma_frontier(files@);
}

proof fn lemma_frontier(files: Seq<LtxFileInfo>)
    ensures
        forall|i: int| 0 <= i < files.len() ==> (#[trigger] files[i]).max_txid <= frontier(files),
        frontier(files) > 0 ==> exists|i: int|
            0 <= i < files.len() && (#[trigger] files[i]).max_txid == frontier(files),
    decreases files.len(),
{
    if files.len() > 0 {
        let front = files.drop_last();
        lemma_frontier(front);
        assert(files.last() == files[files.len() - 1]);
        assert forall|i: int| 0 <= i < files.len() implies (#[trigger] files[i]).max_txid
            <= frontier(files) by {
            if i < front.len() {
                assert(front[i] == files[i]);
            }
        }
        if frontier(files) > 0 && frontier(files) != files.last().max_txid {
            let i = choose|i: int|
                0 <= i < front.len() && (#[trigger] front[i]).max_txid == frontier(front);
            assert(files[i] == front[i]);
        }
    }
}

proof fn lemma_files_after(files: Seq<LtxFileInfo>, txid: u64)
    ensures
        files_after(files, txid) == files.filter(|f: LtxFileInfo| f.min_txid > txid),
    decreases files.len(),
{
    reveal(Seq::filter);
    if files.len() > 0 {
        lemma_files_after(files.drop_last(), txid);
    } else {
        assert(files =~= Seq::empty());
    }
}

proof fn lemma_sorted_holds_the_same(files: Seq<LtxFileInfo>)
    ensures
        txid_sorted(files).to_multiset() == files.to_multiset(),
    decreases files.len(),
{
    broadcast use vstd::seq_lib::group_to_multiset_ensures;

    if files.len() > 0 {
        let front = files.drop_last();
        let before = txid_sorted(front);
        lemma_sorted_holds_the_same(front);
        crate::storage::lemma_txid_sorted(front);
        crate::storage::lemma_slot(before, files.last());
        assert(front.push(files.last()) =~= files);
    } else {
        assert(files =~= Seq::empty());
    }
}

/// The file starts after the end of every file of the destination.
pub open spec fn starts_past(f: LtxFileInfo, dst: Seq<LtxFileInfo>) -> bool {
    f.min_txid > 0 && forall|i: int| 0 <= i < dst.len() ==> (#[trigger] dst[i]).max_txid < f.min_txid
}

/// A level is compacted from exactly the files of the level below that start past the
/// end of all that it holds, each once and in TXID order, and into one file that spans
/// them; there is nothing to do where no file does. Levels 1 to 8 can be compacted into.
pub proof fn lemma_level_takes_what_lies_past_it(
    dst_level: u32,
    dst: &[LtxFileInfo],
    src: &[LtxFileInfo],
    r: Result<Option<LevelPlan>, SyncError>,
)
    requires
        call_ensures(plan_level, (dst_level, dst, src), r),
    ensures
        1 <= dst_level <= 8 <==> r is Ok,
        r matches Err(e) ==> e == SyncError::InvalidCompactionLevels(
            LevelFault::NotACascadeLevel { level: dst_level },
        ),
        r matches Ok(None) ==> forall|i: int|
            0 <= i < src@.len() ==> !starts_past(#[trigger] src@[i], dst@),
        r matches Ok(Some(p)) ==> {
            &&& p.src_level == dst_level - 1
            &&& p.files@.len() > 0
            &&& p.files@.to_multiset() == src@.filter(
                |f: LtxFileInfo| starts_past(f, dst@),
            ).to_multiset()
            &&& forall|i: int, j: int|
                0 <= i < j < p.files@.len() ==> (#[trigger] p.files@[i]).min_txid < (
                #[trigger] p.files@[j]).min_txid || (p.files@[i].min_txid == p.files@[j].min_txid
                    && p.files@[i].max_txid <= p.files@[j].max_txid)
            &&& p.min_txid == p.files@[0].min_txid
            &&& p.max_txid == p.files@[p.files@.len() - 1].max_txid
        },
{
    let m = frontier(dst@);
    lemma_frontier(dst@);
    let past = files_after(src@, m);
    lemma_files_after(src@, m);
    lemma_sorted_holds_the_same(past);
    crate::storage::lemma_txid_sorted(past);
    let a = |f: LtxFileInfo| f.min_txid > m;
    let b = |f: LtxFileInfo| starts_past(f, dst@);
    assert forall|f: LtxFileInfo| #[trigger] a(f) == b(f) by {
        if f.min_txid > m {
            assert forall|i: int| 0 <= i < dst@.len() implies (#[trigger] dst@[i]).max_txid
                < f.min_txid by {}
        } else if b(f) && m > 0 {
            let i = choose|i: int| 0 <= i < dst@.len() && (#[trigger] dst@[i]).max_txid == m;
            assert(dst@[i].max_txid < f.min_txid);
        }
    }
    lemma_same_filter(src@, a, b);
    if past.len() == 0 {
        assert forall|i: int| 0 <= i < src@.len() implies !starts_past(#[trigger] src@[i], dst@) by {
            if b(src@[i]) {
                src@.lemma_filter_contains(b, i);
            }
        }
    }
}

proof fn lemma_same_filter(
    files: Seq<LtxFileInfo>,
    a: spec_fn(LtxFileInfo) -> bool,
    b: spec_fn(LtxFileInfo) -> bool,
)
    requires
        forall|f: LtxFileInfo| #[trigger] a(f) == b(f),
    ensures
        files.filter(a) == files.filter(b),
    decreases files.len(),
{
    reveal(Seq::filter);
    if files.len() > 0 {
        lemma_same_filter(files.drop_last(), a, b);
    }
}

/// What a level compaction reports is its range and how many files it merges; it deletes
/// none.
pub proof fn lemma_level_report(p: LevelPlan, i: CompactionInfo)
    requires
        call_ensures(LevelPlan::info, (&p,), i),
        p.files@.len() <= usize::MAX,
    ensures
        i.min_txid == p.min_txid && i.max_txid == p.max_txid,
        i.inputs == p.files@.len(),
        i.pruned == 0,
{
}

proof fn lemma_first_base(files: Seq<LtxFileInfo>)
    ensures
        match first_base(files) {
            None => forall|i: int| 0 <= i < files.len() ==> (#[trigger] files[i]).min_txid != 1,
            Some(b) => exists|i: int|
                0 <= i < files.len() && #[trigger] files[i] == b && b.min_txid == 1 && forall|j: int|
                    0 <= j < i ==> (#[trigger] files[j]).min_txid != 1,
        },
    decreases files.len(),
{
    if files.len() > 0 {
        let front = files.drop_last();
        lemma_first_base(front);
        assert(files.last() == files[files.len() - 1]);
        match first_base(front) {
            Some(b) => {
                let i = choose|i: int|
                    0 <= i < front.len() && #[trigger] front[i] == b && b.min_txid == 1
                        && forall|j: int| 0 <= j < i ==> (#[trigger] front[j]).min_txid != 1;
                assert(files[i] == b);
                assert forall|j: int| 0 <= j < i implies (#[trigger] files[j]).min_txid != 1 by {
                    assert(front[j] == files[j]);
                }
            },
            None => {
                assert forall|j: int| 0 <= j < front.len() implies (#[trigger] files[j]).min_txid
                    != 1 by {
                    assert(front[j] == files[j]);
                }
            },
        }
    }
}

/// The L0 chain is folded into the first base of level 1, or into a new one: of the L0
/// files that start past it all but the newest, and only where there are at least two.
/// The new base reaches from TXID 1 to the end of the last file that is merged.
pub proof fn lemma_chain_is_folded_into_its_base(
    l0: &[LtxFileInfo],
    l1: &[LtxFileInfo],
    r: Option<BasePlan>,
)
    requires
        call_ensures(plan_compact, (l0, l1), r),
    ensures
        r matches Some(p) ==> {
            let past = if p.base is Some {
                (p.base->0).max_txid
            } else {
                0
            };
            let new = l0@.filter(|f: LtxFileInfo| f.min_txid > past);
            &&& p.level == 1
            &&& new.len() >= 2
            &&& p.merge@ == new.take(new.len() - 1)
            &&& p.max_txid == p.merge@[p.merge@.len() - 1].max_txid
            &&& match p.base {
                None => forall|i: int| 0 <= i < l1@.len() ==> (#[trigger] l1@[i]).min_txid != 1,
                Some(b) => exists|i: int|
                    0 <= i < l1@.len() && #[trigger] l1@[i] == b && b.min_txid == 1 && forall|j: int|
                        0 <= j < i ==> (#[trigger] l1@[j]).min_txid != 1,
            }
        },
        (forall|i: int| 0 <= i < l1@.len() ==> (#[trigger] l1@[i]).min_txid != 1) && r is None
            ==> l0@.filter(|f: LtxFileInfo| f.min_txid > 0).len() < 2,
        forall|i: int|
            {
                &&& 0 <= i < l1@.len()
                &&& (#[trigger] l1@[i]).min_txid == 1
                &&& forall|j: int| 0 <= j < i ==> (#[trigger] l1@[j]).min_txid != 1
                &&& r is None
            } ==> l0@.filter(|f: LtxFileInfo| f.min_txid > l1@[i].max_txid).len() < 2,
{
    lemma_first_base(l1@);
    let base = first_base(l1@);
    lemma_files_after(l0@, base_reach(base));
    lemma_files_after(l0@, 0);
    let new = files_after(l0@, base_reach(base));
    if new.len() >= 2 {
        assert(new.drop_last() =~= new.take(new.len() - 1));
        assert(new.drop_last()[new.len() - 2] == new[new.len() - 2]);
    }
    assert forall|i: int|
        {
            &&& 0 <= i < l1@.len()
            &&& (#[trigger] l1@[i]).min_txid == 1
            &&& forall|j: int| 0 <= j < i ==> (#[trigger] l1@[j]).min_txid != 1
            &&& r is None
        } implies l0@.filter(|f: LtxFileInfo| f.min_txid > l1@[i].max_txid).len() < 2 by {
        let b = base->0;
        let k = choose|k: int|
            0 <= k < l1@.len() && #[trigger] l1@[k] == b && b.min_txid == 1 && forall|j: int|
                0 <= j < k ==> (#[trigger] l1@[j]).min_txid != 1;
        assert(!(k < i) && !(i < k));
        lemma_files_after(l0@, l1@[i].max_txid);
    }
}

/// The files that a new base is made of are the base there is and the L0 files, oldest
/// first, and the base is written at the same level from TXID 1 on.
pub proof fn lemma_base_is_made_of(p: BasePlan, ks: Vec<FileKey>, k: FileKey, i: CompactionInfo)
    requires
        p.merge@.len() < usize::MAX,
        call_ensures(BasePlan::inputs, (&p,), ks),
        call_ensures(BasePlan::target, (&p,), k),
        call_ensures(BasePlan::info, (&p,), i),
    ensures
        k == (p.level, 1u64, p.max_txid),
        i.min_txid == 1 && i.max_txid == p.max_txid,
        i.inputs == ks@.len() && i.pruned == ks@.len(),
        match p.base {
            None => ks@.len() == p.merge@.len(),
            Some(b) => ks@.len() == p.merge@.len() + 1 && ks@[0] == (
                p.level,
                b.min_txid,
                b.max_txid,
            ),
        },
        forall|j: int|
            0 <= j < p.merge@.len() ==> ks@[j + ks@.len() - p.merge@.len()] == (
                0u32,
                (#[trigger] p.merge@[j]).min_txid,
                p.merge@[j].max_txid,
            ),
{
}

/// A snapshot is made of the whole chain up to the newest TXID, unless nothing is there
/// or a snapshot reaches from TXID 1 to it already.
pub proof fn lemma_snapshot_covers_the_chain(
    files: &[FileKey],
    snaps: &[LtxFileInfo],
    r: Result<Option<SnapshotPlan>, SyncError>,
)
    requires
        call_ensures(plan_snapshot, (files, snaps), r),
    ensures
        files@.len() == 0 ==> (r matches Ok(None)),
        r matches Ok(None) && files@.len() > 0 ==> exists|i: int|
            {
                &&& 0 <= i < snaps@.len()
                &&& (#[trigger] snaps@[i]).min_txid == 1
                &&& forall|k: int| 0 <= k < files@.len() ==> (#[trigger] files@[k]).2
                    <= snaps@[i].max_txid
            },
        r matches Ok(Some(p)) ==> {
            &&& forall|k: int| 0 <= k < files@.len() ==> (#[trigger] files@[k]).2 <= p.max_txid
            &&& p.max_txid > 0 ==> exists|k: int|
                0 <= k < files@.len() && (#[trigger] files@[k]).2 == p.max_txid
            &&& forall|i: int|
                0 <= i < snaps@.len() && (#[trigger] snaps@[i]).min_txid == 1
                    ==> snaps@[i].max_txid != p.max_txid
            &&& p.files@.len() > 0
            &&& p.files@[0].1 == 1
            &&& full_plan(files@) == Ok::<Seq<FileKey>, SyncError>(p.files@)
        },
        r matches Err(e) ==> e == SyncError::NoSnapshot && full_plan(files@) is Err,
{
    lemma_head(files@);
    if files@.len() > 0 {
        if let Ok(None) = r {
            let i = choose|i: int|
                0 <= i < snaps@.len() && (#[trigger] snaps@[i]).min_txid == 1 && snaps@[i].max_txid
                    == head(files@);
            assert(snaps@[i].min_txid == 1);
        }
    }
}

/// A merged snapshot has the size and the page size of the newest file it merges, spans
/// from TXID 1, and tracks neither a checksum nor a WAL range.
pub proof fn lemma_snapshot_header_follows_the_newest(
    newest: &[u8],
    max_txid: u64,
    timestamp: i64,
    r: Result<Header, SyncError>,
)
    requires
        call_ensures(snapshot_header, (newest, max_txid, timestamp), r),
    ensures
        match header_of(newest@) {
            Err(e) => r == Err::<Header, SyncError>(SyncError::Ltx(e)),
            Ok(n) => r matches Ok(h) && {
                &&& h.page_size == n.page_size && h.commit == n.commit
                &&& h.min_txid == 1 && h.max_txid == max_txid
                &&& h.timestamp == timestamp
                &&& h.flags == 2 && h.pre_apply_checksum.0 == 0
                &&& h.wal_offset == 0 && h.wal_size == 0 && h.wal_salt1 == 0 && h.wal_salt2 == 0
                &&& h.node_id == 0
            },
        },
{
}

/// A level is compacted from the one below it; there is none below level 0, and the
/// snapshot level is not compacted into.
pub proof fn lemma_levels_are_compacted_from_below(dst: u32, r: Result<u32, SyncError>)
    requires
        call_ensures(source_level, (dst,), r),
    ensures
        r is Ok <==> 1 <= dst <= 8,
        r matches Ok(src) ==> src + 1 == dst,
        r matches Err(e) ==> e == SyncError::InvalidCompactionLevels(
            LevelFault::NotACascadeLevel { level: dst },
        ),
{
}

/// A merged snapshot is the merge of its files under the header that the newest gives it.
pub proof fn lemma_snapshot_is_a_merge(
    inputs: &[&[u8]],
    max_txid: u64,
    timestamp: i64,
    header: Result<Header, SyncError>,
    merged: Result<Vec<u8>, LtxError>,
    r: Result<Vec<u8>, SyncError>,
)
    requires
        inputs@.len() > 0,
        call_ensures(snapshot_header, (inputs@[inputs@.len() - 1], max_txid, timestamp), header),
        header matches Ok(h) ==> call_ensures(merge_to_writer, (inputs, h), merged),
        call_ensures(merge_snapshot, (inputs, max_txid, timestamp), r),
    ensures
        header matches Err(e) ==> r == Err::<Vec<u8>, SyncError>(e),
        header is Ok ==> match (r, merged) {
            (Ok(a), Ok(b)) => a@ == b@,
            (Err(e), Err(x)) => e == SyncError::Ltx(x),
            _ => false,
        },
{
    assert(buffers(inputs@).last() == inputs@[inputs@.len() - 1]@);
}

/// A snapshot reports the range from TXID 1 to its end, and how many files it merged.
pub proof fn lemma_snapshot_report(p: SnapshotPlan, i: CompactionInfo)
    requires
        p.files@.len() <= usize::MAX,
        call_ensures(SnapshotPlan::info, (&p,), i),
    ensures
        i.min_txid == 1,
        i.max_txid == p.max_txid,
        i.inputs == p.files@.len(),
        i.pruned == 0,
{
}

// --- Retention ---

/// The file was created before `cutoff`.
pub open spec fn older_than(f: LtxFileInfo, cutoff: Time) -> bool {
    f.created_at matches Some(t) && t.nanos < cutoff.nanos
}

proof fn lemma_expired_is_filter(files: Seq<LtxFileInfo>, cutoff: Time)
    ensures
        expired_files(files, cutoff) == files.filter(|f: LtxFileInfo| older_than(f, cutoff)),
    decreases files.len(),
{
    reveal(Seq::filter);
    if files.len() > 0 {
        lemma_expired_is_filter(files.drop_last(), cutoff);
    } else {
        assert(files =~= Seq::empty());
    }
}

proof fn lemma_below_is_filter(files: Seq<LtxFileInfo>, txid: u64)
    ensures
        files_below(files, txid) == files.filter(|f: LtxFileInfo| f.max_txid < txid),
    decreases files.len(),
{
    reveal(Seq::filter);
    if files.len() > 0 {
        lemma_below_is_filter(files.drop_last(), txid);
    } else {
        assert(files =~= Seq::empty());
    }
}

proof fn lemma_folded_is_filter(files: Seq<LtxFileInfo>, txid: u64)
    ensures
        folded_files(files, txid) == files.filter(|f: LtxFileInfo| f.max_txid <= txid),
    decreases files.len(),
{
    reveal(Seq::filter);
    if files.len() > 0 {
        lemma_folded_is_filter(files.drop_last(), txid);
    } else {
        assert(files =~= Seq::empty());
    }
}

/// Of distinct files, a filter without the newest holds exactly the others that pass it.
proof fn lemma_spared_filter(
    files: Seq<LtxFileInfo>,
    pred: spec_fn(LtxFileInfo) -> bool,
    i: int,
)
    requires
        distinct(files),
        0 <= i < files.len(),
    ensures
        spare_newest(files, files.filter(pred)).contains(files[i]) <==> i < files.len() - 1
            && pred(files[i]),
{
    reveal(Seq::filter);
    let front = files.drop_last();
    let d = files.filter(pred);
    let last = files.last();
    assert(last == files[files.len() - 1]);
    broadcast use vstd::seq_lib::group_filter_ensures;
    if front.filter(pred).contains(last) {
        front.lemma_filter_contains_rev(pred, last);
        let k = choose|k: int| 0 <= k < front.len() && front[k] == last;
        assert(files[k] == files[files.len() - 1]);
    }
    assert(spare_newest(files, d) =~= front.filter(pred)) by {
        if pred(last) {
            assert(d.last() == last);
            assert(d.drop_last() =~= front.filter(pred));
        } else if d.len() > 0 && d.last() == last {
            assert(front.filter(pred)[d.len() - 1] == last);
        }
    }
    if i < front.len() {
        assert(front[i] == files[i]);
        if front.filter(pred).contains(files[i]) {
            let k = choose|k: int|
                0 <= k < front.filter(pred).len() && front.filter(pred)[k] == files[i];
            assert(pred(front.filter(pred)[k]));
        }
    }
}

/// The snapshots that go are exactly those older than the cutoff, but for the newest, and
/// the lower levels are pruned below the first that stays for its age.
pub proof fn lemma_old_snapshots_go(
    files: &[LtxFileInfo],
    cutoff: Time,
    r: (Vec<LtxFileInfo>, u64),
    i: int,
)
    requires
        distinct(files@),
        0 <= i < files@.len(),
        forall|k: int| 0 <= k < files@.len() ==> (#[trigger] files@[k]).max_txid > 0,
        call_ensures(snapshot_expired, (files, cutoff), r),
    ensures
        r.0@.contains(files@[i]) <==> i < files@.len() - 1 && older_than(files@[i], cutoff),
        !older_than(files@[i], cutoff) ==> 0 < r.1 <= files@[i].max_txid,
        r.1 > 0 ==> exists|k: int|
            0 <= k < files@.len() && (#[trigger] files@[k]).max_txid == r.1 && !older_than(
                files@[k],
                cutoff,
            ),
{
    lemma_expired_is_filter(files@, cutoff);
    lemma_spared_filter(files@, |f: LtxFileInfo| older_than(f, cutoff), i);
    lemma_min_retained_is_kept(files@, cutoff);
    assert(is_expired(files@[i], cutoff) == older_than(files@[i], cutoff));
    if r.1 > 0 {
        let k = choose|k: int|
            0 <= k < files@.len() && (#[trigger] files@[k]).max_txid == min_retained(files@, cutoff)
                && !is_expired(files@[k], cutoff);
        assert(files@[k].max_txid == r.1);
    }
}

/// The files that go below a TXID are exactly those that end before it, but for the newest.
pub proof fn lemma_files_below_go(
    files: &[LtxFileInfo],
    txid: u64,
    r: Vec<LtxFileInfo>,
    i: int,
)
    requires
        distinct(files@),
        0 <= i < files@.len(),
        call_ensures(below_txid, (files, txid), r),
    ensures
        r@.contains(files@[i]) <==> i < files@.len() - 1 && files@[i].max_txid < txid,
{
    lemma_below_is_filter(files@, txid);
    lemma_spared_filter(files@, |f: LtxFileInfo| f.max_txid < txid, i);
}

/// All files up to `i` are older than the cutoff.
pub open spec fn old_up_to(files: Seq<LtxFileInfo>, cutoff: Time, i: int) -> bool {
    forall|k: int| 0 <= k <= i ==> older_than(#[trigger] files[k], cutoff)
}

/// The L0 files that go are exactly those folded into L1 and older than the cutoff, as
/// all before them are, but for the newest; nothing goes while L1 is empty.
pub proof fn lemma_folded_l0_files_go(
    files: &[LtxFileInfo],
    max_l1_txid: u64,
    cutoff: Time,
    r: Vec<LtxFileInfo>,
    i: int,
)
    requires
        distinct(files@),
        0 <= i < files@.len(),
        call_ensures(l0_expired, (files, max_l1_txid, cutoff), r),
    ensures
        r@.contains(files@[i]) <==> {
            &&& max_l1_txid > 0
            &&& i < files@.len() - 1
            &&& files@[i].max_txid <= max_l1_txid
            &&& old_up_to(files@, cutoff, i)
        },
{
    lemma_l0_deletions(files@, max_l1_txid, cutoff, i);
}

proof fn lemma_l0_deletions(files: Seq<LtxFileInfo>, max_l1_txid: u64, cutoff: Time, i: int)
    requires
        distinct(files),
        0 <= i < files.len(),
    ensures
        l0_deletions(files, max_l1_txid, cutoff).contains(files[i]) <==> {
            &&& max_l1_txid > 0
            &&& i < files.len() - 1
            &&& files[i].max_txid <= max_l1_txid
            &&& old_up_to(files, cutoff, i)
        },
{
    let n = old_prefix(files, cutoff) as int;
    let pred = |f: LtxFileInfo| f.max_txid <= max_l1_txid;
    lemma_old_prefix_ends(files, cutoff);
    assert(old_up_to(files, cutoff, i) <==> i < n) by {
        if i < n {
            assert forall|k: int| 0 <= k <= i implies older_than(#[trigger] files[k], cutoff) by {
                assert(is_expired(files[k], cutoff));
            }
        } else {
            assert(!older_than(files[n], cutoff));
        }
    }
    if max_l1_txid > 0 {
        if n == files.len() {
            lemma_folded_is_filter(files, max_l1_txid);
            lemma_spared_filter(files, pred, i);
        } else {
            let front = files.take(n);
            lemma_folded_is_filter(front, max_l1_txid);
            broadcast use vstd::seq_lib::group_filter_ensures;

            if i < n {
                assert(front[i] == files[i]);
                if front.filter(pred).contains(files[i]) {
                    let k = choose|k: int|
                        0 <= k < front.filter(pred).len() && front.filter(pred)[k] == files[i];
                    assert(pred(front.filter(pred)[k]));
                }
            } else if front.filter(pred).contains(files[i]) {
                front.lemma_filter_contains_rev(pred, files[i]);
                let k = choose|k: int| 0 <= k < front.len() && front[k] == files[i];
                assert(files[k] == files[i]);
            }
        }
    }
}

/// Snapshots go once they are older than the retention, and none goes that is not; the
/// newest stays.
pub proof fn lemma_snapshot_retention(
    now: Time,
    retention: Span,
    snaps: &[LtxFileInfo],
    r: (Vec<LtxFileInfo>, u64),
    i: int,
)
    requires
        distinct(snaps@),
        0 <= i < snaps@.len(),
        forall|k: int| 0 <= k < snaps@.len() ==> (#[trigger] snaps@[k]).max_txid > 0,
        call_ensures(plan_snapshot_retention, (now, retention, snaps), r),
    ensures
        r.0@.contains(snaps@[i]) <==> i < snaps@.len() - 1 && (snaps@[i].created_at matches Some(t)
            && now.nanos - t.nanos > retention.nanos),
        !(snaps@[i].created_at matches Some(t) && now.nanos - t.nanos > retention.nanos) ==> 0 < r.1
            <= snaps@[i].max_txid,
{
    let cutoff = crate::sync::compaction::cutoff_of(now, retention);
    lemma_expired_is_filter(snaps@, cutoff);
    lemma_spared_filter(snaps@, |f: LtxFileInfo| older_than(f, cutoff), i);
    lemma_min_retained_is_kept(snaps@, cutoff);
    crate::sync::compaction::lemma_cutoff(now, retention, snaps@[i]);
    assert(is_expired(snaps@[i], cutoff) == older_than(snaps@[i], cutoff));
}

/// Below a retained snapshot the files that end before it go, but for the newest of their
/// level; where no snapshot is retained for its age, none goes.
pub proof fn lemma_level_pruning(txid: u64, files: &[LtxFileInfo], r: Vec<LtxFileInfo>, i: int)
    requires
        distinct(files@),
        0 <= i < files@.len(),
        call_ensures(plan_level_pruning, (txid, files), r),
    ensures
        r@.contains(files@[i]) <==> txid > 0 && i < files@.len() - 1 && files@[i].max_txid < txid,
{
    lemma_below_is_filter(files@, txid);
    lemma_spared_filter(files@, |f: LtxFileInfo| f.max_txid < txid, i);
}

/// An L0 file goes once L1 reaches its end and it, as all before it, is older than the
/// retention; the newest stays, and with a zero retention all stay.
pub proof fn lemma_l0_retention(
    now: Time,
    retention: Span,
    l1: &[LtxFileInfo],
    l0: &[LtxFileInfo],
    r: Vec<LtxFileInfo>,
    i: int,
)
    requires
        distinct(l0@),
        0 <= i < l0@.len(),
        l0@[i].max_txid > 0,
        call_ensures(plan_l0_retention, (now, retention, l1, l0), r),
    ensures
        r@.contains(l0@[i]) <==> {
            &&& retention.nanos > 0
            &&& i < l0@.len() - 1
            &&& exists|k: int| 0 <= k < l1@.len() && l0@[i].max_txid <= (#[trigger] l1@[k]).max_txid
            &&& forall|k: int|
                0 <= k <= i ==> ((#[trigger] l0@[k]).created_at matches Some(t) && now.nanos
                    - t.nanos > retention.nanos)
        },
{
    let cutoff = crate::sync::compaction::cutoff_of(now, retention);
    let m = frontier(l1@);
    lemma_frontier(l1@);
    lemma_l0_deletions(l0@, m, cutoff, i);
    assert forall|k: int| 0 <= k <= i implies (older_than(#[trigger] l0@[k], cutoff) <==> (
    l0@[k].created_at matches Some(t) && now.nanos - t.nanos > retention.nanos)) by {
        crate::sync::compaction::lemma_cutoff(now, retention, l0@[k]);
        assert(is_expired(l0@[k], cutoff) == older_than(l0@[k], cutoff));
    }
    if m > 0 {
        let k = choose|k: int| 0 <= k < l1@.len() && (#[trigger] l1@[k]).max_txid == m;
        assert(l0@[i].max_txid <= m ==> l0@[i].max_txid <= l1@[k].max_txid);
    }
}

} // verus!
