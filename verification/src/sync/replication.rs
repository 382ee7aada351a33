//! What a sync writes, and where the next one goes on.
//!
//! Every committed page of the WAL gets into a file, and the position says how far
//! that is: the next sync, or the first one after a restart, goes on from there.

use crate::ltx::checksum::Checksum;
use crate::ltx::decoder::file_of;
use crate::ltx::encoder::{PageRec, encode_page_result, file_bytes, last_pgno};
use crate::ltx::error::LtxError;
use crate::ltx::format::{
    Header, header_bytes, header_of, lemma_header_round_trip, lock_page, valid_page_size,
};
use crate::ltx::roundtrip::page_views;
use crate::storage::PutOutcome;
use crate::sync::capture::{
    SnapshotBuild, StagedFile, ascending_keys, build_incremental, changed_pages, frame_data,
    incremental_of, seed_of, settle_upload, snapshot_pages, wal_contents,
};
use crate::sync::error::SyncError;
use crate::sync::fidelity::{lemma_changed_pages, lemma_keys, lemma_snapshot_pages};
use crate::sync::history::carries;
use crate::sync::plan::FileKey;
use crate::sync::position::{
    Plan, Position, SyncOutcome, derive_position, level_zero, newest_file, no_checksum_header,
    resume_file, wal_frames_before,
};
use crate::wal::error::WalError;
use crate::wal::format::{WalHeader, wal_header_of};
use crate::wal::reader::{
    FrameView, aligned, committed, committed_end, committed_pages, final_commit, frame_size,
    frames_from, lemma_committed_bound, lemma_committed_pages, lemma_frame_offset,
    lemma_frames_in_range, lemma_resume_reads_the_rest, lemma_tail_reads_the_same, seed_at,
};
use crate::wal::written::{
    big_word, lemma_frame_fields, lemma_last_commit_counts, lemma_page_map_holds_the_newest,
    lemma_read_up_to_the_last_kept_frame,
};
use vstd::prelude::*;

verus! {

// --- What to write next ---

/// Nothing is skipped as long as there is a WAL to read. Where the position is known and
/// the WAL still holds it, reading goes on exactly there; where a checkpoint restarted
/// the WAL, the new generation is read from its first frame; where the position is
/// unknown, or the WAL is gone before it was read to its end, everything is written.
pub proof fn lemma_plan_follows_the_wal(
    pos: Position,
    wal_len: u64,
    header: Option<&WalHeader>,
    p: Plan,
)
    requires
        call_ensures(Position::plan, (&pos, wal_len, header), p),
    ensures
        p is Skip <==> pos.txid > 0 && pos.wal_offset > 0 && header is None
            && pos.synced_to_wal_end,
        p is Incremental <==> pos.txid > 0 && pos.wal_offset > 0 && header is Some,
        p matches Plan::Snapshot { offset } ==> offset == 32,
        p matches Plan::Incremental { offset, salt1, salt2 } ==> {
            let h = *header->0;
            let here = h.salt1 == pos.salt1 && h.salt2 == pos.salt2 && pos.wal_offset <= wal_len;
            &&& salt1 == h.salt1
            &&& salt2 == h.salt2
            &&& here ==> offset == pos.wal_offset
            &&& !here ==> offset == 32
        },
{
}

/// The header of a file that a sync writes names its one transaction, the WAL range it
/// covers and the size of the database, and tracks no checksum.
pub proof fn lemma_sync_header_states_its_range(
    page_size: u32,
    commit: u32,
    txid: u64,
    wal_offset: u64,
    wal_size: u64,
    salt1: u32,
    salt2: u32,
    timestamp: i64,
    h: Header,
)
    requires
        call_ensures(
            no_checksum_header,
            (page_size, commit, txid, wal_offset, wal_size, salt1, salt2, timestamp),
            h,
        ),
    ensures
        h.flags == 2,
        h.page_size == page_size && h.commit == commit,
        h.min_txid == txid && h.max_txid == txid,
        h.timestamp == timestamp,
        h.pre_apply_checksum.0 == 0,
        h.wal_salt1 == salt1 && h.wal_salt2 == salt2,
        wal_offset <= i64::MAX ==> h.wal_offset == wal_offset,
        wal_size <= i64::MAX ==> h.wal_size == wal_size,
{
}

/// Behind the header and `k` frames, and up to a frame more, `k` frames are counted.
pub proof fn lemma_frames_are_counted(offset: u64, page_size: u32, k: nat, over: nat, n: u64)
    requires
        offset == 32 + k * (24 + page_size) + over,
        over < 24 + page_size,
        call_ensures(wal_frames_before, (offset, page_size), n),
    ensures
        n == k,
{
    let size = 24 + page_size;
    vstd::arithmetic::div_mod::lemma_fundamental_div_mod_converse(
        k * size + over,
        size,
        k as int,
        over as int,
    );
}

// --- What an incremental file holds ---

/// The frames that a sync reads from `offset` on: `prev` is the header of the frame
/// before, where there is one.
pub open spec fn new_frames(
    wal: WalHeader,
    offset: u64,
    prev: Seq<u8>,
    tail: Seq<u8>,
) -> Seq<FrameView> {
    frames_from(
        tail,
        wal,
        offset as int,
        0,
        if offset <= 32 {
            (wal.checksum1, wal.checksum2)
        } else {
            (big_word(prev, 16) as u32, big_word(prev, 20) as u32)
        },
    )
}

/// Frame `i` is the newest committed one of its page, and the database still has that
/// page.
pub open spec fn is_newest(fs: Seq<FrameView>, i: int) -> bool {
    &&& 0 <= i < committed(fs)
    &&& fs[i].pgno <= final_commit(fs)
    &&& forall|j: int| i < j < committed(fs) ==> (#[trigger] fs[j]).pgno != fs[i].pgno
}

proof fn lemma_seed(wal: WalHeader, offset: u64, prev: Seq<u8>)
    requires
        offset > 32 ==> prev.len() >= 24,
    ensures
        match seed_of(wal, offset, prev) {
            Ok(s) => {
                &&& offset <= 32 ==> s == (wal.checksum1, wal.checksum2)
                &&& offset > 32 ==> {
                    &&& s == (big_word(prev, 16) as u32, big_word(prev, 20) as u32)
                    &&& big_word(prev, 8) == wal.salt1
                    &&& big_word(prev, 12) == wal.salt2
                }
            },
            Err(e) => {
                &&& e == SyncError::Wal(WalError::PrevFrameMismatch)
                &&& offset > 32
                &&& big_word(prev, 8) != wal.salt1 || big_word(prev, 12) != wal.salt2
            },
        },
{
    if offset > 32 {
        lemma_frame_fields(prev);
    }
}

/// The data of a frame stands in the tail where the page map says.
proof fn lemma_frame_data(wal: WalHeader, offset: u64, tail: Seq<u8>, chk: (u32, u32), i: int)
    requires
        offset + tail.len() <= u64::MAX,
        0 <= i < frames_from(tail, wal, offset as int, 0, chk).len(),
    ensures
        ({
            let f = frames_from(tail, wal, offset as int, 0, chk)[i];
            &&& frame_data(tail, offset, wal.page_size, f.offset) == f.data
            &&& f.data.len() == wal.page_size
        }),
{
    lemma_frames_in_range(tail, wal, offset as int, 0, chk, i);
}

/// A committed page that is kept has a newest frame.
proof fn lemma_newest_frame(fs: Seq<FrameView>, p: u32) -> (i: int)
    requires
        committed_pages(fs).contains_key(p),
    ensures
        is_newest(fs, i),
        fs[i].pgno == p,
        committed_pages(fs)[p] == fs[i].offset,
{
    lemma_committed_pages(fs, p);
    choose|i: int|
        0 <= i < committed(fs) && (#[trigger] fs[i]).pgno == p && fs[i].offset == committed_pages(
            fs,
        )[p] && forall|j: int| i < j < committed(fs) ==> (#[trigger] fs[j]).pgno != p
}

/// The last committed frame whose page the database still has.
proof fn lemma_last_kept(fs: Seq<FrameView>, n: int, some: int) -> (last: int)
    requires
        0 <= some < n <= committed(fs),
        fs[some].pgno <= final_commit(fs),
    ensures
        some <= last < n,
        fs[last].pgno <= final_commit(fs),
        forall|j: int| last < j < n ==> (#[trigger] fs[j]).pgno > final_commit(fs),
    decreases n,
{
    if fs[n - 1].pgno <= final_commit(fs) {
        n - 1
    } else {
        lemma_last_kept(fs, n - 1, some)
    }
}

/// An incremental file holds what was committed: of every page that a new frame commits,
/// and that the database still has, the newest version, and no other page. It bears the
/// next TXID and the size of the last commit, and the position after it stands behind
/// the last frame that was used. There is no file only where nothing was committed.
pub proof fn lemma_incremental_holds_the_commits(
    pos: Position,
    page_size: u32,
    offset: u64,
    salt1: u32,
    salt2: u32,
    wal_len: u64,
    wal: WalHeader,
    prev: &[u8],
    tail: &[u8],
    timestamp: i64,
    r: Result<Option<StagedFile>, SyncError>,
)
    requires
        pos.txid < u64::MAX,
        valid_page_size(wal.page_size),
        offset + tail@.len() <= u64::MAX,
        offset > 32 ==> prev@.len() >= 24,
        call_ensures(
            build_incremental,
            (&pos, page_size, offset, salt1, salt2, wal_len, wal, prev, tail, timestamp),
            r,
        ),
    ensures
        ({
            let fs = new_frames(wal, offset, prev@, tail@);
            match r {
                Ok(None) => forall|i: int| !#[trigger] is_newest(fs, i),
                Ok(Some(f)) => file_of(f.bytes@) matches Ok(v) && {
                    &&& f.level == 0
                    &&& f.min_txid == pos.txid + 1 && f.max_txid == pos.txid + 1
                    &&& v.header.min_txid == pos.txid + 1 && v.header.max_txid == pos.txid + 1
                    &&& v.header.page_size == page_size
                    &&& v.header.commit == final_commit(fs)
                    &&& v.header.timestamp == timestamp
                    &&& forall|i: int| #[trigger]
                        is_newest(fs, i) ==> v.pages.contains((fs[i].pgno, fs[i].data))
                    &&& forall|k: int|
                        0 <= k < v.pages.len() ==> exists|i: int|
                            is_newest(fs, i) && #[trigger] v.pages[k] == (fs[i].pgno, fs[i].data)
                    &&& f.outcome == (SyncOutcome::Incremental {
                        txid: (pos.txid + 1) as u64,
                        pages: v.pages.len() as usize,
                    })
                    &&& f.new_pos.txid == pos.txid + 1
                    &&& f.new_pos.salt1 == salt1 && f.new_pos.salt2 == salt2
                    &&& forall|i: int|
                        is_newest(fs, i) ==> (#[trigger] fs[i]).offset + 24 + wal.page_size
                            <= f.new_pos.wal_offset
                    &&& exists|i: int|
                        is_newest(fs, i) && (#[trigger] fs[i]).offset + 24 + wal.page_size
                            == f.new_pos.wal_offset
                    &&& f.new_pos.synced_to_wal_end <==> f.new_pos.wal_offset >= wal_len
                },
                Err(SyncError::Wal(WalError::PrevFrameMismatch)) => offset > 32 && (big_word(
                    prev@,
                    8,
                ) != wal.salt1 || big_word(prev@, 12) != wal.salt2),
                Err(SyncError::Wal(WalError::UnalignedOffset(o))) => o == offset && (offset < 32
                    || (offset - 32) % (24 + wal.page_size) != 0),
                Err(SyncError::Ltx(_)) => true,
                Err(_) => false,
            }
        }),
{
    let fs = new_frames(wal, offset, prev@, tail@);
    lemma_seed(wal, offset, prev@);
    let want = incremental_of(
        pos,
        page_size,
        offset,
        salt1,
        salt2,
        wal_len,
        wal,
        prev@,
        tail@,
        timestamp,
    );
    if seed_of(wal, offset, prev@) is Ok && aligned(wal.page_size, offset) {
        let chk = seed_of(wal, offset, prev@)->Ok_0;
        assert(fs == frames_from(tail@, wal, offset as int, 0, chk));
        let map = committed_pages(fs);
        let commit = final_commit(fs);
        let keys = ascending_keys(map.dom(), commit as int);
        lemma_committed_bound(fs);
        assert forall|i: int| #[trigger] is_newest(fs, i) implies keys.contains(fs[i].pgno)
            && map.contains_key(fs[i].pgno) && map[fs[i].pgno] == fs[i].offset by {
            lemma_page_map_holds_the_newest(fs, fs[i].pgno);
            lemma_keys(map.dom(), commit as int, fs[i].pgno);
        }
        if keys.len() == 0 {
            assert forall|i: int| !#[trigger] is_newest(fs, i) by {
                if is_newest(fs, i) {
                    assert(keys.contains(fs[i].pgno));
                }
            }
        } else if let Ok(Some(v)) = want {
            let f = r->Ok_0->0;
            assert(Seq::<u8>::empty() + f.bytes@ =~= f.bytes@);
            let view = file_of(f.bytes@)->Ok_0;
            lemma_changed_pages(v.header, tail@, offset, wal.page_size, map, keys, keys.len());
            assert forall|i: int| #[trigger] is_newest(fs, i) implies view.pages.contains(
                (fs[i].pgno, fs[i].data),
            ) by {
                let k = choose|k: int| 0 <= k < keys.len() && keys[k] == fs[i].pgno;
                lemma_frame_data(wal, offset, tail@, chk, i);
                assert(v.pages[k].pgno == keys[k]);
                assert(view.pages[k] == (fs[i].pgno, fs[i].data));
            }
            assert forall|k: int| 0 <= k < view.pages.len() implies exists|i: int|
                is_newest(fs, i) && #[trigger] view.pages[k] == (fs[i].pgno, fs[i].data) by {
                assert(v.pages[k].pgno == keys[k]);
                lemma_keys(map.dom(), commit as int, keys[k]);
                assert(keys.contains(keys[k]));
                let i = lemma_newest_frame(fs, keys[k]);
                lemma_frame_data(wal, offset, tail@, chk, i);
                assert(view.pages[k] == (fs[i].pgno, fs[i].data));
            }
            lemma_keys(map.dom(), commit as int, keys[0]);
            assert(keys.contains(keys[0]));
            let some = lemma_newest_frame(fs, keys[0]);
            let last = lemma_last_kept(fs, committed(fs) as int, some);
            lemma_read_up_to_the_last_kept_frame(fs, wal.page_size, last);
            assert(is_newest(fs, last));
            lemma_frames_in_range(tail@, wal, offset as int, 0, chk, last);
            assert(fs[last].offset + 24 + wal.page_size == f.new_pos.wal_offset);
            assert forall|i: int| is_newest(fs, i) implies (#[trigger] fs[i]).offset + 24
                + wal.page_size <= f.new_pos.wal_offset by {
                lemma_frame_offset(tail@, wal, offset as int, 0, chk, i);
                lemma_frame_offset(tail@, wal, offset as int, 0, chk, last);
                let size = frame_size(wal.page_size);
                assert(i <= last);
                assert(i * size <= last * size) by (nonlinear_arith)
                    requires
                        i <= last,
                        size > 0,
                ;
            }
        }
    }
}

/// The pages in the file ascend as their keys do.
proof fn lemma_keys_ascend(dom: Set<u32>, n: int, i: int, j: int)
    requires
        -1 <= n <= u32::MAX,
        0 <= i < j < ascending_keys(dom, n).len(),
    ensures
        ascending_keys(dom, n)[i] < ascending_keys(dom, n)[j],
    decreases n + 1,
{
    if n >= 0 {
        let front = ascending_keys(dom, n - 1);
        if dom.contains(n as u32) && j == front.len() {
            assert(front.contains(front[i]));
            lemma_keys(dom, n - 1, front[i]);
        } else {
            lemma_keys_ascend(dom, n - 1, i, j);
        }
    }
}

proof fn lemma_changes_are_admitted(
    h: Header,
    wal: WalHeader,
    offset: u64,
    tail: Seq<u8>,
    chk: (u32, u32),
    n: nat,
)
    requires
        offset + tail.len() <= u64::MAX,
        valid_page_size(h.page_size),
        h.page_size == wal.page_size,
        h.min_txid != 1,
        h.commit == final_commit(frames_from(tail, wal, offset as int, 0, chk)),
        forall|i: int| #[trigger]
            is_newest(frames_from(tail, wal, offset as int, 0, chk), i) ==> {
                let p = frames_from(tail, wal, offset as int, 0, chk)[i].pgno;
                p != 0 && p != lock_page(h.page_size)
            },
        n <= ascending_keys(
            committed_pages(frames_from(tail, wal, offset as int, 0, chk)).dom(),
            h.commit as int,
        ).len(),
    ensures
        ({
            let map = committed_pages(frames_from(tail, wal, offset as int, 0, chk));
            let keys = ascending_keys(map.dom(), h.commit as int);
            let ps = changed_pages(h, tail, offset, wal.page_size, map, keys, n);
            &&& ps is Ok
            &&& last_pgno(ps->Ok_0) == (if n == 0 {
                0
            } else {
                keys[n - 1]
            })
        }),
    decreases n,
{
    reveal(encode_page_result);
    if n > 0 {
        lemma_changes_are_admitted(h, wal, offset, tail, chk, (n - 1) as nat);
        let fs = frames_from(tail, wal, offset as int, 0, chk);
        let map = committed_pages(fs);
        let keys = ascending_keys(map.dom(), h.commit as int);
        let p = keys[n - 1];
        assert(keys.contains(p));
        lemma_keys(map.dom(), h.commit as int, p);
        let i = lemma_newest_frame(fs, p);
        lemma_committed_bound(fs);
        lemma_frame_data(wal, offset, tail, chk, i);
        if n > 1 {
            lemma_keys_ascend(map.dom(), h.commit as int, n - 2, n - 1);
        }
    }
}

/// A sync of a sound WAL succeeds: where the position is at a frame, the frame before
/// it is of this generation, and no committed frame is of page 0 or of the lock page,
/// there is a file exactly where some page was committed that the database still has.
pub proof fn lemma_sync_of_a_sound_wal_succeeds(
    pos: Position,
    offset: u64,
    wal_len: u64,
    wal: WalHeader,
    prev: &[u8],
    tail: &[u8],
    timestamp: i64,
    r: Result<Option<StagedFile>, SyncError>,
)
    requires
        0 < pos.txid < u64::MAX,
        valid_page_size(wal.page_size),
        offset + tail@.len() <= u64::MAX,
        offset >= 32 && (offset - 32) % (24 + wal.page_size) == 0,
        offset > 32 ==> prev@.len() >= 24 && big_word(prev@, 8) == wal.salt1 && big_word(prev@, 12)
            == wal.salt2,
        forall|i: int| #[trigger]
            is_newest(new_frames(wal, offset, prev@, tail@), i) ==> new_frames(
                wal,
                offset,
                prev@,
                tail@,
            )[i].pgno != 0 && new_frames(wal, offset, prev@, tail@)[i].pgno != lock_page(
                wal.page_size,
            ),
        call_ensures(
            build_incremental,
            (
                &pos,
                wal.page_size,
                offset,
                wal.salt1,
                wal.salt2,
                wal_len,
                wal,
                prev,
                tail,
                timestamp,
            ),
            r,
        ),
    ensures
        r is Ok,
        r->Ok_0 is Some <==> exists|i: int| is_newest(new_frames(wal, offset, prev@, tail@), i),
{
    lemma_seed(wal, offset, prev@);
    let chk = seed_of(wal, offset, prev@)->Ok_0;
    let fs = frames_from(tail@, wal, offset as int, 0, chk);
    assert(fs == new_frames(wal, offset, prev@, tail@));
    let map = committed_pages(fs);
    let keys = ascending_keys(map.dom(), final_commit(fs) as int);
    let end = committed_end(fs, wal.page_size) as u64;
    let h = crate::sync::position::sync_header(
        wal.page_size,
        final_commit(fs),
        (pos.txid + 1) as u64,
        offset,
        (end - offset) as u64,
        wal.salt1,
        wal.salt2,
        timestamp,
    );
    lemma_changes_are_admitted(h, wal, offset, tail@, chk, keys.len());
    lemma_incremental_holds_the_commits(
        pos,
        wal.page_size,
        offset,
        wal.salt1,
        wal.salt2,
        wal_len,
        wal,
        prev,
        tail,
        timestamp,
        r,
    );
    if keys.len() > 0 {
        assert(keys.contains(keys[0]));
        lemma_keys(map.dom(), final_commit(fs) as int, keys[0]);
        let i = lemma_newest_frame(fs, keys[0]);
        assert(is_newest(new_frames(wal, offset, prev@, tail@), i));
    }
}

/// The frames of a whole WAL.
pub open spec fn all_frames(wal: Seq<u8>, h: WalHeader) -> Seq<FrameView> {
    frames_from(wal, h, 0, 32, (h.checksum1, h.checksum2))
}

proof fn lemma_commits_after(fs: Seq<FrameView>, k: int)
    requires
        0 <= k < committed(fs),
    ensures
        committed(fs.skip(k)) == committed(fs) - k,
        final_commit(fs.skip(k)) == final_commit(fs),
{
    lemma_committed_bound(fs);
    let rest = fs.skip(k);
    let n = committed(fs) as int;
    lemma_last_commit_counts(rest);
    lemma_last_commit_counts(fs);
    assert(rest[n - 1 - k] == fs[n - 1]);
    assert forall|j: int| n - 1 - k < j < rest.len() implies (#[trigger] rest[j]).commit == 0 by {
        assert(rest[j] == fs[j + k]);
    }
    assert(crate::wal::written::last_commit(rest, n - 1 - k));
}

/// What is committed behind the position is in the file that the next sync writes. The
/// position stands behind `k` frames of the WAL, and the WAL is of its generation: the
/// next sync is an incremental, and of every page that a later frame commits, and that
/// the database still has, it writes the newest version.
pub proof fn lemma_next_sync_writes_new_commits(
    pos: Position,
    wal: Seq<u8>,
    h: WalHeader,
    k: nat,
    j: int,
    p: Plan,
    prev: &[u8],
    tail: &[u8],
    timestamp: i64,
    r: Result<Option<StagedFile>, SyncError>,
)
    requires
        0 < pos.txid < u64::MAX,
        32 <= wal.len() <= u64::MAX,
        valid_page_size(h.page_size),
        k <= all_frames(wal, h).len(),
        pos.wal_offset == 32 + k * (24 + h.page_size),
        pos.wal_offset <= wal.len(),
        pos.salt1 == h.salt1 && pos.salt2 == h.salt2,
        call_ensures(Position::plan, (&pos, wal.len() as u64, Some(&h)), p),
        k <= j,
        is_newest(all_frames(wal, h), j),
        p matches Plan::Incremental { offset, salt1, salt2 } ==> {
            &&& tail@ == wal.skip(offset as int)
            &&& offset > 32 ==> prev@ == wal.subrange(
                offset - 24 - h.page_size,
                offset - h.page_size,
            )
            &&& call_ensures(
                build_incremental,
                (
                    &pos,
                    h.page_size,
                    offset,
                    salt1,
                    salt2,
                    wal.len() as u64,
                    h,
                    prev,
                    tail,
                    timestamp,
                ),
                r,
            )
        },
    ensures
        p is Incremental,
        r matches Ok(o) ==> o matches Some(f) && file_of(f.bytes@) matches Ok(v)
            && v.pages.contains((all_frames(wal, h)[j].pgno, all_frames(wal, h)[j].data)),
        r matches Err(e) ==> e is Ltx,
{
    let all = all_frames(wal, h);
    let n = frame_size(h.page_size);
    let at = pos.wal_offset;
    lemma_plan_follows_the_wal(pos, wal.len() as u64, Some(&h), p);
    lemma_resume_reads_the_rest(wal, h, k);
    assert(k * n == k * (24 + h.page_size));
    let seed = seed_at(wal, h, at)->Ok_0;
    let rest = all.skip(k as int);
    if k == 0 {
        assert(k * n == 0) by (nonlinear_arith)
            requires
                k == 0,
        ;
    } else {
        assert(k * n >= n) by (nonlinear_arith)
            requires
                k >= 1,
                n > 0,
        ;
        let head = wal.subrange(at - n, at - n + 24);
        assert(prev@ =~= head);
        lemma_frame_fields(head);
    }
    assert(wal.skip(at as int) == tail@);
    lemma_tail_reads_the_same(wal, h, at as int, 0, seed);
    let fs = new_frames(h, at, prev@, tail@);
    assert(fs == rest);
    lemma_committed_bound(all);
    lemma_commits_after(all, k as int);
    assert(fs[j - k] == all[j]);
    assert forall|i: int| j - k < i < committed(fs) implies (#[trigger] fs[i]).pgno != fs[j
        - k].pgno by {
        assert(fs[i] == all[i + k]);
    }
    assert(is_newest(fs, j - k));
    assert((k * n) % n == 0) by {
        vstd::arithmetic::div_mod::lemma_mod_multiples_basic(k as int, n);
    }
    lemma_incremental_holds_the_commits(
        pos,
        h.page_size,
        at,
        h.salt1,
        h.salt2,
        wal.len() as u64,
        h,
        prev,
        tail,
        timestamp,
        r,
    );
    lemma_seed(h, at, prev@);
}

// --- What a snapshot holds ---

/// The committed frames of a WAL that may be missing or too short for a header.
pub open spec fn frames_of_wal(wal: Seq<u8>) -> Seq<FrameView> {
    if wal.len() < 32 {
        Seq::empty()
    } else {
        all_frames(wal, wal_header_of(wal)->Ok_0)
    }
}

/// A snapshot starts from what is committed: it bears the next TXID, the size of the
/// last commit in the WAL, or of the database file where the WAL commits none, and takes
/// from the WAL exactly the pages that it commits. The position after it stands behind
/// the last frame that was used.
pub proof fn lemma_snapshot_starts_from_the_commits(
    pos: Position,
    page_size: u32,
    db_len: u64,
    wal: &[u8],
    timestamp: i64,
    r: Result<SnapshotBuild, SyncError>,
)
    requires
        pos.txid < u64::MAX,
        page_size > 0,
        wal@.len() <= u64::MAX,
        call_ensures(SnapshotBuild::begin, (&pos, page_size, db_len, 32u64, wal, timestamp), r),
    ensures
        r matches Ok(b) ==> {
            let fs = frames_of_wal(wal@);
            let s = b.start();
            &&& wal@.len() >= 32 ==> wal_header_of(wal@) is Ok
            &&& s.header.min_txid == pos.txid + 1 && s.header.max_txid == pos.txid + 1
            &&& s.header.page_size == page_size
            &&& s.header.timestamp == timestamp
            &&& s.header.commit == (if final_commit(fs) > 0 {
                final_commit(fs) as int
            } else {
                db_len as int / page_size as int
            })
            &&& forall|i: int| #[trigger]
                is_newest(fs, i) ==> s.map.contains_key(fs[i].pgno) && s.map[fs[i].pgno]
                    == fs[i].offset
            &&& forall|p: u32| #[trigger]
                s.map.contains_key(p) ==> exists|i: int| is_newest(fs, i) && fs[i].pgno == p
            &&& s.new_pos.txid == pos.txid + 1
            &&& wal@.len() >= 32 ==> s.new_pos.salt1 == wal_header_of(wal@)->Ok_0.salt1
                && s.new_pos.salt2 == wal_header_of(wal@)->Ok_0.salt2
            &&& s.new_pos.synced_to_wal_end <==> s.new_pos.wal_offset >= wal@.len()
            &&& (forall|i: int| !#[trigger] is_newest(fs, i)) ==> s.new_pos.wal_offset == 32
            &&& forall|i: int|
                is_newest(fs, i) ==> (#[trigger] fs[i]).offset + 24 + wal_header_of(
                    wal@,
                )->Ok_0.page_size <= s.new_pos.wal_offset
            &&& s.new_pos.wal_offset > 32 ==> exists|i: int|
                is_newest(fs, i) && (#[trigger] fs[i]).offset + 24 + wal_header_of(
                    wal@,
                )->Ok_0.page_size == s.new_pos.wal_offset
        },
        r matches Err(e) ==> {
            ||| e is Ltx
            ||| wal@.len() >= 32 && (wal_header_of(wal@) matches Err(w) && e == SyncError::Wal(w))
        },
{
    let fs = frames_of_wal(wal@);
    lemma_committed_bound(fs);
    if wal@.len() >= 32 && wal_header_of(wal@) is Ok {
        let h = wal_header_of(wal@)->Ok_0;
        let chk = (h.checksum1, h.checksum2);
        let n = frame_size(h.page_size);
        assert(0int % n == 0) by {
            vstd::arithmetic::div_mod::lemma_small_mod(0, n as nat);
        }
        assert(seed_at(wal@, h, 32) == Ok::<(u32, u32), WalError>(chk));
        assert(wal_contents(wal@, 32)->Ok_0.0 == committed_pages(fs));
        assert forall|i: int| #[trigger] is_newest(fs, i) implies committed_pages(fs).contains_key(
            fs[i].pgno,
        ) && committed_pages(fs)[fs[i].pgno] == fs[i].offset by {
            lemma_page_map_holds_the_newest(fs, fs[i].pgno);
        }
        assert forall|p: u32| #[trigger] committed_pages(fs).contains_key(p) implies exists|i: int|
            is_newest(fs, i) && fs[i].pgno == p by {
            let i = lemma_newest_frame(fs, p);
        }
        if exists|i: int| #[trigger] is_newest(fs, i) {
            let some = choose|i: int| #[trigger] is_newest(fs, i);
            let last = lemma_last_kept(fs, committed(fs) as int, some);
            lemma_read_up_to_the_last_kept_frame(fs, h.page_size, last);
            assert(is_newest(fs, last));
            lemma_frame_offset(wal@, h, 0, 32, chk, last);
            assert(last * n >= 0) by (nonlinear_arith)
                requires
                    last >= 0,
                    n > 0,
            ;
            assert forall|i: int| is_newest(fs, i) implies (#[trigger] fs[i]).offset + n
                <= fs[last].offset + n by {
                lemma_frame_offset(wal@, h, 0, 32, chk, i);
                assert(i <= last);
                assert(i * n <= last * n) by (nonlinear_arith)
                    requires
                        i <= last,
                        n > 0,
                ;
            }
            if let Ok(b) = r {
                assert(fs[last].offset + n == b.start().new_pos.wal_offset);
            }
        } else {
            lemma_nothing_kept(fs, h.page_size);
        }
    } else {
        assert(fs.len() == 0 || wal_header_of(wal@) is Err);
    }
}

proof fn lemma_nothing_kept(fs: Seq<FrameView>, page_size: u32)
    requires
        forall|i: int| !#[trigger] is_newest(fs, i),
    ensures
        committed_end(fs, page_size) == 0,
{
    lemma_committed_bound(fs);
    let n = committed(fs) as int;
    let front = fs.take(n);
    if exists|i: int| 0 <= i < n && (#[trigger] fs[i]).pgno <= final_commit(fs) {
        let some = choose|i: int| 0 <= i < n && (#[trigger] fs[i]).pgno <= final_commit(fs);
        let last = lemma_last_kept(fs, n, some);
        assert(is_newest(fs, last));
    }
    assert forall|i: int| 0 <= i < front.len() implies (#[trigger] front[i]).pgno > final_commit(
        fs,
    ) by {
        assert(front[i] == fs[i]);
    }
    crate::wal::written::lemma_kept_end(front, final_commit(fs), page_size);
}

/// A snapshot holds every page of the database but the lock page: what the WAL commits
/// as its newest frame holds it, and the others as the database file does.
pub proof fn lemma_snapshot_holds_every_page(b: SnapshotBuild, f: StagedFile, p: u32)
    requires
        b.wf(),
        b.cursor() == b.start().header.commit,
        call_ensures(SnapshotBuild::finish, (b,), f),
    ensures
        file_of(b.taken() + f.bytes@) matches Ok(v) && {
            &&& v.header == b.start().header
            &&& carries(v.pages, p) <==> 1 <= p <= v.header.commit && p != lock_page(
                v.header.page_size,
            )
            &&& carries(v.pages, p) ==> v.pages.contains(
                (
                    p,
                    if b.start().map.contains_key(p) {
                        let at = b.start().map[p] as int;
                        b.wal().subrange(at + 24, at + 24 + v.header.page_size)
                    } else {
                        b.supplied()[p]
                    },
                ),
            )
        },
        f.level == 0,
        f.min_txid == b.start().header.min_txid && f.max_txid == b.start().header.max_txid,
        f.new_pos == b.start().new_pos,
        f.outcome == (SyncOutcome::Snapshot {
            txid: b.start().header.max_txid,
            pages: b.start().header.commit,
        }),
{
    let s = b.start();
    let n = s.header.commit as nat;
    let ps = snapshot_pages(s, b.wal(), b.supplied(), n);
    let pages = page_views(ps);
    lemma_snapshot_pages(s, b.wal(), b.supplied(), n, p);
    if 1 <= p <= n && p != lock_page(s.header.page_size) {
        let i = choose|i: int| 0 <= i < ps.len() && (#[trigger] ps[i]).pgno == p;
        assert(ps[i] == snapshot_pages(s, b.wal(), b.supplied(), n)[i]);
        assert(pages[i] == (p, ps[i].data));
    }
    if carries(pages, p) {
        let i = choose|i: int| 0 <= i < pages.len() && (#[trigger] pages[i]).0 == p;
        assert(ps[i] == snapshot_pages(s, b.wal(), b.supplied(), n)[i]);
        assert(ps[i].pgno == p);
    }
}

/// Building asks the database for exactly the pages that only it holds, in order: the
/// next one that is neither in the WAL nor the lock page, and for none once there is no
/// such page left.
pub proof fn lemma_database_is_asked_in_order(
    s: crate::sync::capture::SnapshotStart,
    wal: Seq<u8>,
    n: nat,
)
    requires
        n <= s.header.commit,
    ensures
        match crate::sync::capture::next_step(s, wal, n) {
            crate::sync::capture::BuildStep::Done => forall|q: u32|
                n < q <= s.header.commit && q != lock_page(s.header.page_size)
                    ==> #[trigger] s.map.contains_key(q),
            crate::sync::capture::BuildStep::Need(p) => {
                &&& n < p <= s.header.commit
                &&& p != lock_page(s.header.page_size)
                &&& !s.map.contains_key(p)
                &&& forall|q: u32|
                    n < q < p && q != lock_page(s.header.page_size)
                        ==> #[trigger] s.map.contains_key(q)
            },
            crate::sync::capture::BuildStep::Fail(_) => exists|q: u32|
                n < q <= s.header.commit && #[trigger] s.map.contains_key(q) && s.map[q] + 24
                    + s.header.page_size > wal.len(),
        },
    decreases s.header.commit - n,
{
    if n < s.header.commit {
        let p = (n + 1) as u32;
        if p == lock_page(s.header.page_size) || s.map.contains_key(p) {
            lemma_database_is_asked_in_order(s, wal, n + 1);
        }
    }
}

// --- Where to go on ---

/// The newest file is one of the files, and none ends later; there is one unless there
/// are no files.
pub proof fn lemma_newest_file(files: Seq<FileKey>)
    ensures
        match newest_file(files) {
            None => files.len() == 0,
            Some(f) => files.contains(f) && forall|i: int|
                0 <= i < files.len() ==> (#[trigger] files[i]).2 <= f.2,
        },
    decreases files.len(),
{
    if files.len() > 0 {
        let front = files.drop_last();
        lemma_newest_file(front);
        let f = newest_file(files)->0;
        assert(files.last() == files[files.len() - 1]);
        if f != files.last() {
            let i = choose|i: int| 0 <= i < front.len() && front[i] == f;
            assert(files[i] == f);
        }
        assert forall|i: int| 0 <= i < files.len() implies (#[trigger] files[i]).2 <= f.2 by {
            if i < front.len() {
                assert(front[i] == files[i]);
            }
        }
    }
}

proof fn lemma_level_zero(files: Seq<FileKey>, f: FileKey)
    ensures
        level_zero(files).contains(f) <==> files.contains(f) && f.0 == 0,
    decreases files.len(),
{
    if files.len() > 0 {
        let front = files.drop_last();
        lemma_level_zero(front, f);
        let last = files.last();
        let z = level_zero(front);
        assert(files[files.len() - 1] == last);
        if files.contains(f) && f != last {
            let i = choose|i: int| 0 <= i < files.len() && files[i] == f;
            assert(front[i] == f);
        }
        if front.contains(f) {
            let i = choose|i: int| 0 <= i < front.len() && front[i] == f;
            assert(files[i] == f);
        }
        if last.0 == 0 {
            assert(z.push(last)[z.len() as int] == last);
            if z.contains(f) {
                let i = choose|i: int| 0 <= i < z.len() && z[i] == f;
                assert(z.push(last)[i] == f);
            }
            if z.push(last).contains(f) && f != last {
                let i = choose|i: int| 0 <= i < z.push(last).len() && z.push(last)[i] == f;
                assert(z[i] == f);
            }
        }
    }
}

proof fn lemma_last_of_the_newest(files: Seq<FileKey>)
    ensures
        newest_file(level_zero(files)) matches Some(f) ==> exists|k: int|
            0 <= k < files.len() && #[trigger] files[k] == f && forall|j: int|
                k < j < files.len() && (#[trigger] files[j]).0 == 0 ==> files[j].2 < f.2,
    decreases files.len(),
{
    if files.len() > 0 {
        let front = files.drop_last();
        let last = files.last();
        lemma_last_of_the_newest(front);
        let z = level_zero(front);
        if last.0 == 0 {
            assert(level_zero(files) == z.push(last));
            assert(z.push(last).drop_last() =~= z);
        }
        if let Some(f) = newest_file(level_zero(files)) {
            if newest_file(z) == Some(f) && (last.0 != 0 || f.2 > last.2) {
                let k = choose|k: int|
                    0 <= k < front.len() && #[trigger] front[k] == f && forall|j: int|
                        k < j < front.len() && (#[trigger] front[j]).0 == 0 ==> front[j].2 < f.2;
                assert(files[k] == f);
                assert forall|j: int| k < j < files.len() && (#[trigger] files[j]).0 == 0
                    implies files[j].2 < f.2 by {
                    if j < front.len() {
                        assert(front[j] == files[j]);
                    }
                }
            } else {
                assert(files[files.len() - 1] == f);
            }
        }
    }
}

/// The position is resumed from the newest file of level 0, the last listed where several
/// end there.
pub proof fn lemma_resume_file_is_the_newest(files: &[FileKey], r: Option<FileKey>)
    requires
        call_ensures(resume_file, (files,), r),
    ensures
        match r {
            None => forall|i: int| 0 <= i < files@.len() ==> (#[trigger] files@[i]).0 != 0,
            Some(f) => files@.contains(f) && f.0 == 0 && forall|i: int|
                0 <= i < files@.len() && (#[trigger] files@[i]).0 == 0 ==> files@[i].2 <= f.2,
        },
        r matches Some(f) ==> exists|k: int|
            0 <= k < files@.len() && #[trigger] files@[k] == f && forall|j: int|
                k < j < files@.len() && (#[trigger] files@[j]).0 == 0 ==> files@[j].2 < f.2,
{
    let z = level_zero(files@);
    lemma_newest_file(z);
    lemma_last_of_the_newest(files@);
    if let Some(f) = r {
        lemma_level_zero(files@, f);
    }
    assert forall|i: int| 0 <= i < files@.len() && (#[trigger] files@[i]).0 == 0 implies (r matches Some(f)
        && files@[i].2 <= f.2) by {
        assert(files@.contains(files@[i]));
        lemma_level_zero(files@, files@[i]);
        let k = choose|k: int| 0 <= k < z.len() && z[k] == files@[i];
        assert(z[k].2 == files@[i].2);
    }
}

/// A restart resumes at the highest TXID of any file, and behind the WAL range that the
/// newest file of level 0 states; without such a file the WAL position is unknown, and
/// without any file nothing is replicated yet.
pub proof fn lemma_resumed_position(
    files: &[FileKey],
    newest_l0: Option<&[u8]>,
    r: Result<Position, SyncError>,
)
    requires
        call_ensures(derive_position, (files, newest_l0), r),
    ensures
        files@.len() == 0 ==> (r matches Ok(p) && p.txid == 0 && p.wal_offset == 0),
        r matches Ok(p) ==> {
            &&& !p.synced_to_wal_end
            &&& forall|i: int| 0 <= i < files@.len() ==> (#[trigger] files@[i]).2 <= p.txid
            &&& files@.len() > 0 ==> exists|i: int|
                0 <= i < files@.len() && (#[trigger] files@[i]).2 == p.txid
            &&& newest_l0 is None ==> p.wal_offset == 0
        },
        files@.len() > 0 && newest_l0 is None ==> r is Ok,
{
    lemma_newest_file(files@);
    if files@.len() > 0 {
        let f = newest_file(files@)->0;
        let i = choose|i: int| 0 <= i < files@.len() && files@[i] == f;
        assert(files@[i].2 == f.2);
    }
}

/// A restart goes on where the sync before it ended. With the file that it wrote as the
/// newest on the replica, the position is the one that the sync had set, but that it is
/// not known whether the WAL was read to its end.
pub proof fn lemma_restart_goes_on_where_the_sync_ended(
    pos: Position,
    page_size: u32,
    offset: u64,
    salt1: u32,
    salt2: u32,
    wal_len: u64,
    wal: WalHeader,
    prev: &[u8],
    tail: &[u8],
    timestamp: i64,
    r: Result<Option<StagedFile>, SyncError>,
    files: &[FileKey],
    stored: &[u8],
    q: Result<Position, SyncError>,
)
    requires
        pos.txid < u64::MAX,
        valid_page_size(wal.page_size),
        offset + tail@.len() <= u64::MAX,
        offset > 32 ==> prev@.len() >= 24,
        call_ensures(
            build_incremental,
            (&pos, page_size, offset, salt1, salt2, wal_len, wal, prev, tail, timestamp),
            r,
        ),
        r matches Ok(Some(f)) && {
            &&& stored@ == f.bytes@
            &&& files@.contains((0u32, f.min_txid, f.max_txid))
            &&& forall|i: int| 0 <= i < files@.len() ==> (#[trigger] files@[i]).2 <= f.max_txid
        },
        call_ensures(derive_position, (files, Some(stored)), q),
    ensures
        q == Ok::<Position, SyncError>(
            Position { synced_to_wal_end: false, ..(r->Ok_0->0).new_pos },
        ),
{
    lemma_incremental_holds_the_commits(
        pos,
        page_size,
        offset,
        salt1,
        salt2,
        wal_len,
        wal,
        prev,
        tail,
        timestamp,
        r,
    );
    let f = r->Ok_0->0;
    let v = incremental_of(
        pos,
        page_size,
        offset,
        salt1,
        salt2,
        wal_len,
        wal,
        prev@,
        tail@,
        timestamp,
    )->Ok_0->0;
    assert(Seq::<u8>::empty() + f.bytes@ =~= f.bytes@);
    lemma_file_starts_with_its_header(v.header, v.pages);
    let fs = new_frames(wal, offset, prev@, tail@);
    let k = choose|k: int|
        is_newest(fs, k) && (#[trigger] fs[k]).offset + 24 + wal.page_size == f.new_pos.wal_offset;
    lemma_seed(wal, offset, prev@);
    let chk = seed_of(wal, offset, prev@)->Ok_0;
    lemma_committed_bound(fs);
    lemma_frames_in_range(tail@, wal, offset as int, 0, chk, k);
    let size = (f.new_pos.wal_offset - offset) as u64;
    assert(v.header == crate::sync::position::sync_header(
        page_size,
        final_commit(fs),
        f.max_txid,
        offset,
        size,
        salt1,
        salt2,
        timestamp,
    ));
    lemma_resumed_from(files, stored, f, v.header, offset, size, q);
}

proof fn lemma_resumed_from(
    files: &[FileKey],
    stored: &[u8],
    f: StagedFile,
    h: Header,
    offset: u64,
    size: u64,
    q: Result<Position, SyncError>,
)
    requires
        crate::ltx::stream::stream_header_of(stored@) == Ok::<Header, LtxError>(h),
        h.wal_offset == crate::wire::bits_i64(offset),
        h.wal_size == crate::wire::bits_i64(size),
        offset + size == f.new_pos.wal_offset,
        h.wal_salt1 == f.new_pos.salt1,
        h.wal_salt2 == f.new_pos.salt2,
        f.new_pos.txid == f.max_txid,
        files@.contains((0u32, f.min_txid, f.max_txid)),
        forall|i: int| 0 <= i < files@.len() ==> (#[trigger] files@[i]).2 <= f.max_txid,
        call_ensures(derive_position, (files, Some(stored)), q),
    ensures
        q == Ok::<Position, SyncError>(Position { synced_to_wal_end: false, ..f.new_pos }),
{
    lemma_newest_file(files@);
    let i = choose|i: int| 0 <= i < files@.len() && files@[i] == (0u32, f.min_txid, f.max_txid);
    let newest = newest_file(files@)->0;
    let m = choose|m: int| 0 <= m < files@.len() && files@[m] == newest;
    assert(files@[i].2 <= newest.2 && files@[m].2 <= f.max_txid);
}

proof fn lemma_file_starts_with_its_header(h: Header, ps: Seq<PageRec>)
    requires
        file_of(file_bytes(h, ps, Checksum(0))) matches Ok(v) && v.header == h,
    ensures
        crate::ltx::stream::stream_header_of(file_bytes(h, ps, Checksum(0))) == Ok::<
            Header,
            LtxError,
        >(h),
{
    let b = file_bytes(h, ps, Checksum(0));
    assert(header_of(b) == Ok::<Header, LtxError>(h));
    lemma_header_round_trip(h, Seq::empty());
    assert(b.take(100) =~= header_bytes(h));
    assert(header_bytes(h) + Seq::<u8>::empty() =~= header_bytes(h));
}

/// The position advances exactly where the replica holds the file: where it was written,
/// or was there already byte for byte. A failed upload, and one that met a different
/// file, leave it where it was.
pub proof fn lemma_position_advances_with_the_upload(
    pos: Position,
    f: &StagedFile,
    stored: Option<PutOutcome>,
    p: Position,
)
    requires
        call_ensures(settle_upload, (pos, f, stored), p),
    ensures
        stored == Some(PutOutcome::Created) || stored == Some(PutOutcome::AlreadyIdentical) ==> p
            == f.new_pos,
        stored is None || stored == Some(PutOutcome::Conflict) ==> p == pos,
{
}

/// A position counts the frames before its offset.
pub proof fn lemma_position_counts_frames(pos: Position, page_size: u32, n: u64, m: u64)
    requires
        call_ensures(Position::live_wal_frames, (&pos, page_size), n),
        call_ensures(wal_frames_before, (pos.wal_offset, page_size), m),
    ensures
        n == m,
        pos.wal_offset <= 32 ==> n == 0,
{
    if pos.wal_offset <= 32 {
        vstd::arithmetic::div_mod::lemma_basic_div(0, 24 + page_size);
    }
}

} // verus!
