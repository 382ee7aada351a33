//! The files of a chain record the history of the database.
//!
//! A file captured from the WAL records the transaction it was captured for, and a
//! merge of files that record consecutive ranges records the whole range. With
//! the laws of [`crate::sync::history`], what is replicated, folded together and
//! restored is the database as it was.

use crate::ltx::checksum::Checksum;
use crate::ltx::compactor::{
    chain_of, compact_of, compacted_header, headers_of, index_in, latest_carrier,
    lemma_merge_keeps_latest, lemma_merge_succeeds, listed, lists, merge_of, sound_inputs,
};
use crate::ltx::decoder::{FileView, file_of, indexed_page_of};
use crate::ltx::encoder::{
    PageRec, admissible, encode_page_result, entries, file_bytes, file_trailer, frames_decode,
};
use crate::ltx::error::LtxError;
use crate::ltx::format::{
    Header, Trailer, header_of, header_validity, lock_page, valid_page_size,
};
use crate::ltx::index::page_index_of;
use crate::ltx::roundtrip::{lemma_file_round_trip, lemma_index_read_back, page_views};
use crate::sync::capture::{
    SnapshotStart, ascending_keys, changed_pages, frame_data, incremental_of, seed_of,
    snapshot_data, snapshot_pages,
};
use crate::storage::{LtxFileInfo, lemma_txid_sorted, txid_sorted};
use crate::sync::compaction::{
    base_inputs, base_reach, files_after, first_base, frontier, keys_at, merged_header,
    merged_snapshot,
};
use crate::sync::history::{
    DbState, History, carries, chained, end_before, fits_in_memory, is_image, key_records,
    lemma_file_index, lemma_full_restore_oldest_first, lemma_image_unique, lemma_plan_of_files,
    lemma_run_is_chained, plan_contents, plan_records, records, sound_history, unchanged,
};
use crate::sync::image::{applied_all, image_len};
use crate::sync::level::SNAPSHOT_LEVEL;
use crate::sync::plan::{
    FileKey, extends, full_plan, head, is_run, lemma_cover_is_run, lemma_folding_keeps_the_reach,
    lemma_run_members, lemma_shortcut_keeps_the_reach, reach,
};
use crate::sync::position::Position;
use crate::sync::reader::index_agrees;
use crate::wal::format::WalHeader;
use crate::wal::reader::{
    FrameView, committed, committed_pages, final_commit, frames_from, lemma_committed_bound,
    newest_offsets,
};
use vstd::prelude::*;

verus! {

/// A range of transactions, from the first to the last.
pub type TxidSpan = (u64, u64);

/// Each range begins no later than just after the one before it, and reaches
/// further.
pub open spec fn spans_chain(spans: Seq<TxidSpan>) -> bool {
    forall|k: int|
        1 <= k < spans.len() ==> (#[trigger] spans[k]).0 <= spans[k - 1].1 + 1 && spans[k - 1].1
            < spans[k].1
}

/// Each input records its range.
pub open spec fn inputs_record(
    bufs: Seq<Seq<u8>>,
    h: History,
    page_size: u32,
    spans: Seq<TxidSpan>,
) -> bool {
    &&& bufs.len() == spans.len()
    &&& forall|k: int|
        0 <= k < bufs.len() ==> index_agrees(#[trigger] bufs[k]) && records(
            file_of(bufs[k])->Ok_0,
            h,
            page_size,
            spans[k].0,
            spans[k].1,
        )
}

/// Where no input from `k` on lists page `p`, the page is the same throughout the
/// transactions from the end of input `k - 1`, or the start of the first, to the
/// end of the last.
proof fn lemma_unlisted_page_stays(
    bufs: Seq<Seq<u8>>,
    h: History,
    page_size: u32,
    spans: Seq<TxidSpan>,
    p: u32,
    k: int,
)
    requires
        inputs_record(bufs, h, page_size, spans),
        spans_chain(spans),
        0 <= k < bufs.len(),
        1 <= p <= h(spans.last().1).commit,
        p != lock_page(page_size),
        forall|j: int| k <= j < bufs.len() ==> !#[trigger] lists(bufs, j, p),
    ensures
        unchanged(h, p, spans[k].0 - 1, spans.last().1),
    decreases bufs.len() - k,
{
    let last = spans.last().1;
    let f = file_of(bufs[k])->Ok_0;
    assert(index_agrees(bufs[k]));
    lemma_file_index(bufs[k]);
    if k < bufs.len() - 1 {
        lemma_unlisted_page_stays(bufs, h, page_size, spans, p, k + 1);
        assert(spans[k + 1].0 <= spans[k].1 + 1);
        lemma_spans_ascend(spans, k, spans.len() - 1);
        assert(p <= h(spans[k].1).commit);
    }
    if carries(f.pages, p) {
        let i = choose|i: int| 0 <= i < f.pages.len() && (#[trigger] f.pages[i]).0 == p;
        assert(page_index_of(bufs[k])->Ok_0[i].pgno == p);
        assert(index_in(bufs[k])[i].pgno == p);
        assert(lists(bufs, k, p));
    }
    assert(unchanged(h, p, spans[k].0 - 1, spans[k].1));
    assert forall|t: u64| spans[k].0 - 1 <= t <= last implies p <= (#[trigger] h(t)).commit && (h(
        t,
    ).page)(p) == (h(last).page)(p) by {
        if k < bufs.len() - 1 {
            assert(p <= h(spans[k].1).commit && (h(spans[k].1).page)(p) == (h(last).page)(p));
            if t <= spans[k].1 {
                assert((h(t).page)(p) == (h(spans[k].1).page)(p));
            }
        }
    }
}

proof fn lemma_spans_ascend(spans: Seq<TxidSpan>, i: int, j: int)
    requires
        spans_chain(spans),
        0 <= i <= j < spans.len(),
    ensures
        spans[i].1 <= spans[j].1,
    decreases j - i,
{
    if i < j {
        lemma_spans_ascend(spans, i, j - 1);
        assert(spans[j - 1].1 < spans[j].1);
    }
}

/// Every page of a merge is at its last state.
proof fn lemma_merged_page_is_final(
    bufs: Seq<Seq<u8>>,
    h: History,
    page_size: u32,
    spans: Seq<TxidSpan>,
    k: int,
    p: PageRec,
)
    requires
        inputs_record(bufs, h, page_size, spans),
        spans_chain(spans),
        latest_carrier(bufs, page_size as nat, k, p),
        p.pgno <= h(spans.last().1).commit,
    ensures
        1 <= p.pgno,
        p.pgno != lock_page(page_size),
        p.data == (h(spans.last().1).page)(p.pgno),
{
    let b = bufs[k];
    let f = file_of(b)->Ok_0;
    assert(index_agrees(bufs[k]));
    lemma_file_index(b);
    let q = choose|q: int|
        {
            &&& 0 <= q < index_in(bufs[k]).len()
            &&& (#[trigger] index_in(bufs[k])[q]).pgno == p.pgno
            &&& indexed_page_of(bufs[k], index_in(bufs[k])[q], page_size as nat) is Ok
            &&& indexed_page_of(bufs[k], index_in(bufs[k])[q], page_size as nat)->Ok_0.1 == p.data
        };
    assert(page_index_of(b)->Ok_0[q].pgno == f.pages[q].0);
    assert(f.pages[q].0 == p.pgno && f.pages[q].1 == p.data);
    if k < bufs.len() - 1 {
        lemma_unlisted_page_stays(bufs, h, page_size, spans, p.pgno, k + 1);
        assert(spans[k + 1].0 <= spans[k].1 + 1);
        lemma_spans_ascend(spans, k, spans.len() - 1);
        assert(p.pgno <= h(spans[k].1).commit);
    }
}

/// A merge of files that record consecutive ranges records the whole range: from
/// the start of the first to the end of the last. The merge bears the size at its
/// end.
pub proof fn lemma_merge_records(
    bufs: Seq<Seq<u8>>,
    h: History,
    page_size: u32,
    spans: Seq<TxidSpan>,
    header: Header,
    trailer: Trailer,
)
    requires
        bufs.len() > 0,
        sound_inputs(bufs),
        inputs_record(bufs, h, page_size, spans),
        spans_chain(spans),
        header.page_size == page_size,
        header.commit == h(spans.last().1).commit,
        merge_of(bufs, header) is Ok,
    ensures
        records(
            FileView { header, pages: page_views(merge_of(bufs, header)->Ok_0), trailer },
            h,
            page_size,
            spans[0].0,
            spans.last().1,
        ),
{
    let ps = merge_of(bufs, header)->Ok_0;
    let f = FileView { header, pages: page_views(ps), trailer };
    lemma_merge_keeps_latest(bufs, header);
    assert(index_agrees(bufs[0]));
    lemma_spans_ascend(spans, 0, spans.len() - 1);
    assert forall|i: int| 0 <= i < f.pages.len() implies {
        &&& 1 <= (#[trigger] f.pages[i]).0 <= header.commit
        &&& f.pages[i].0 != lock_page(page_size)
        &&& f.pages[i].1 == (h(spans.last().1).page)(f.pages[i].0)
    } by {
        assert(f.pages[i] == (ps[i].pgno, ps[i].data));
        let k = choose|k: int| latest_carrier(bufs, header.page_size as nat, k, ps[i]);
        lemma_merged_page_is_final(bufs, h, page_size, spans, k, ps[i]);
    }
    assert forall|p: u32|
        1 <= p <= header.commit && p != lock_page(page_size) && !carries(
            f.pages,
            p,
        ) implies #[trigger] unchanged(h, p, spans[0].0 - 1, spans.last().1) by {
        assert forall|j: int| 0 <= j < bufs.len() implies !#[trigger] lists(bufs, j, p) by {
            if lists(bufs, j, p) {
                let m = choose|m: int| 0 <= m < ps.len() && (#[trigger] ps[m]).pgno == p;
                assert(f.pages[m].0 == p);
            }
        }
        lemma_unlisted_page_stays(bufs, h, page_size, spans, p, 0);
    }
}

/// A merge of files that record consecutive ranges succeeds, also where it is to be a
/// snapshot: every page of the database is in one of the files, as there was nothing
/// before the first transaction.
pub proof fn lemma_recorded_merge_succeeds(
    bufs: Seq<Seq<u8>>,
    h: History,
    page_size: u32,
    spans: Seq<TxidSpan>,
    header: Header,
)
    requires
        sound_history(h, page_size),
        bufs.len() > 0,
        sound_inputs(bufs),
        inputs_record(bufs, h, page_size, spans),
        spans_chain(spans),
        header.page_size == page_size,
        header.commit == h(spans.last().1).commit,
        header_validity(header) is Ok,
        header.min_txid == 1 ==> spans[0].0 == 1,
    ensures
        merge_of(bufs, header) is Ok,
{
    assert forall|k: int| 0 <= k < bufs.len() implies page_index_of(#[trigger] bufs[k]) is Ok by {
        assert(index_agrees(bufs[k]));
    }
    assert forall|k: int, q: int|
        0 <= k < bufs.len() && 0 <= q < index_in(bufs[k]).len() && (#[trigger] index_in(
            bufs[k],
        )[q]).pgno <= header.commit implies {
        &&& index_in(bufs[k])[q].pgno >= 1
        &&& index_in(bufs[k])[q].pgno != lock_page(header.page_size)
        &&& indexed_page_of(bufs[k], index_in(bufs[k])[q], header.page_size as nat) is Ok
    } by {
        let f = file_of(bufs[k])->Ok_0;
        assert(index_agrees(bufs[k]));
        lemma_file_index(bufs[k]);
        assert(page_index_of(bufs[k])->Ok_0[q].pgno == f.pages[q].0);
        assert(1 <= f.pages[q].0);
    }
    if header.min_txid == 1 {
        assert forall|p: u32|
            1 <= p <= header.commit && p != lock_page(header.page_size) implies #[trigger] listed(
            bufs,
            p,
        ) by {
            if !listed(bufs, p) {
                lemma_unlisted_page_stays(bufs, h, page_size, spans, p, 0);
                assert(p <= h(0).commit);
            }
        }
    }
    lemma_merge_succeeds(bufs, header);
}

/// A file that was written with valid pages names in its index the pages that its
/// frames hold.
pub proof fn lemma_written_index_agrees(h: Header, ps: Seq<PageRec>, post: Checksum)
    requires
        valid_page_size(h.page_size),
        admissible(h, ps),
        frames_decode(ps),
        file_bytes(h, ps, post).len() <= u64::MAX,
    ensures
        index_agrees(file_bytes(h, ps, post)),
{
    lemma_file_round_trip(h, ps, post);
    lemma_index_read_back(h, ps, post);
    let b = file_bytes(h, ps, post);
    assert forall|i: int| 0 <= i < page_index_of(b)->Ok_0.len() implies (
    #[trigger] page_index_of(b)->Ok_0[i]).pgno == file_of(b)->Ok_0.pages[i].0 by {
        assert(entries(ps)[i].pgno == ps[i].pgno);
        assert(page_views(ps)[i] == (ps[i].pgno, ps[i].data));
    }
}

// --- Capture ---

/// The WAL takes the database from one state to the next: the next state has the
/// size that was committed, the pages that the WAL holds are as it holds them, and
/// every other page was there before and stays as it was.
pub open spec fn wal_advances(
    before: DbState,
    after: DbState,
    page_size: u32,
    commit: u32,
    map: Map<u32, u64>,
    data: spec_fn(u64) -> Seq<u8>,
) -> bool {
    &&& after.commit == commit
    &&& forall|p: u32|
        1 <= p <= commit && #[trigger] map.contains_key(p) ==> (after.page)(p) == data(map[p])
    &&& forall|p: u32|
        1 <= p <= commit && p != lock_page(page_size) && !#[trigger] map.contains_key(p) ==> p
            <= before.commit && (after.page)(p) == (before.page)(p)
}

/// The keys are those of the set up to `n`.
pub proof fn lemma_keys(dom: Set<u32>, n: int, k: u32)
    requires
        -1 <= n <= u32::MAX,
    ensures
        ascending_keys(dom, n).contains(k) <==> dom.contains(k) && k <= n,
    decreases n + 1,
{
    if n >= 0 {
        lemma_keys(dom, n - 1, k);
        let front = ascending_keys(dom, n - 1);
        let all = ascending_keys(dom, n);
        if dom.contains(n as u32) {
            assert(all == front.push(n as u32));
            if k == n {
                assert(all[all.len() - 1] == k);
            }
            if front.contains(k) {
                let i = choose|i: int| 0 <= i < front.len() && front[i] == k;
                assert(all[i] == k);
            }
            if all.contains(k) {
                let i = choose|i: int| 0 <= i < all.len() && all[i] == k;
                if i < front.len() {
                    assert(front[i] == k);
                }
            }
        }
    }
}

/// The pages of an incremental file are those of the keys, as their frames hold them.
pub proof fn lemma_changed_pages(
    h: Header,
    tail: Seq<u8>,
    base: u64,
    wal_page_size: u32,
    map: Map<u32, u64>,
    keys: Seq<u32>,
    n: nat,
)
    requires
        changed_pages(h, tail, base, wal_page_size, map, keys, n) is Ok,
    ensures
        ({
            let ps = changed_pages(h, tail, base, wal_page_size, map, keys, n)->Ok_0;
            &&& ps.len() == n
            &&& forall|i: int|
                0 <= i < n ==> {
                    &&& (#[trigger] ps[i]).pgno == keys[i]
                    &&& ps[i].data == frame_data(tail, base, wal_page_size, map[keys[i]])
                    &&& 1 <= keys[i] <= h.commit
                    &&& keys[i] != lock_page(h.page_size)
                }
        }),
    decreases n,
{
    if n > 0 {
        lemma_changed_pages(h, tail, base, wal_page_size, map, keys, (n - 1) as nat);
        reveal(encode_page_result);
    }
}

/// An incremental file records the transaction that it was captured for: it takes
/// the database from the state at the position's TXID to the next.
pub proof fn lemma_incremental_records(
    h: History,
    pos: Position,
    page_size: u32,
    offset: u64,
    salt1: u32,
    salt2: u32,
    wal_len: u64,
    wal: WalHeader,
    prev: Seq<u8>,
    tail: Seq<u8>,
    timestamp: i64,
    trailer: Trailer,
)
    requires
        pos.txid < u64::MAX,
        wal.page_size == page_size,
        incremental_of(
            pos,
            page_size,
            offset,
            salt1,
            salt2,
            wal_len,
            wal,
            prev,
            tail,
            timestamp,
        ) matches Ok(Some(v)),
        ({
            let fs = frames_from(tail, wal, offset as int, 0, seed_of(wal, offset, prev)->Ok_0);
            wal_advances(
                h(pos.txid),
                h((pos.txid + 1) as u64),
                page_size,
                final_commit(fs),
                committed_pages(fs),
                |at: u64| frame_data(tail, offset, page_size, at),
            )
        }),
    ensures
        ({
            let v = incremental_of(
                pos,
                page_size,
                offset,
                salt1,
                salt2,
                wal_len,
                wal,
                prev,
                tail,
                timestamp,
            )->Ok_0->0;
            records(
                FileView { header: v.header, pages: page_views(v.pages), trailer },
                h,
                page_size,
                (pos.txid + 1) as u64,
                (pos.txid + 1) as u64,
            )
        }),
{
    let v = incremental_of(
        pos,
        page_size,
        offset,
        salt1,
        salt2,
        wal_len,
        wal,
        prev,
        tail,
        timestamp,
    )->Ok_0->0;
    let f = FileView { header: v.header, pages: page_views(v.pages), trailer };
    let fs = frames_from(tail, wal, offset as int, 0, seed_of(wal, offset, prev)->Ok_0);
    let map = committed_pages(fs);
    let commit = final_commit(fs);
    let keys = ascending_keys(map.dom(), commit as int);
    let t = (pos.txid + 1) as u64;
    lemma_changed_pages(v.header, tail, offset, page_size, map, keys, keys.len());
    assert forall|i: int| 0 <= i < f.pages.len() implies {
        &&& 1 <= (#[trigger] f.pages[i]).0 <= f.header.commit
        &&& f.pages[i].0 != lock_page(page_size)
        &&& f.pages[i].1 == (h(t).page)(f.pages[i].0)
    } by {
        assert(f.pages[i] == (v.pages[i].pgno, v.pages[i].data));
        lemma_keys(map.dom(), commit as int, keys[i]);
        assert(keys.contains(keys[i]));
        assert(map.contains_key(keys[i]));
    }
    assert forall|p: u32|
        1 <= p <= f.header.commit && p != lock_page(page_size) && !carries(
            f.pages,
            p,
        ) implies #[trigger] unchanged(h, p, t - 1, t) by {
        if map.contains_key(p) {
            lemma_keys(map.dom(), commit as int, p);
            let i = choose|i: int| 0 <= i < keys.len() && keys[i] == p;
            assert(v.pages[i].pgno == p);
            assert(f.pages[i].0 == p);
        }
        assert forall|x: u64| t - 1 <= x <= t implies p <= (#[trigger] h(x)).commit && (h(x).page)(
            p,
        ) == (h(t).page)(p) by {
            assert(x == pos.txid || x == t);
        }
    }
}

/// The pages of a snapshot are all pages but the lock page.
pub proof fn lemma_snapshot_pages(
    s: SnapshotStart,
    wal: Seq<u8>,
    supplied: Map<u32, Seq<u8>>,
    n: nat,
    p: u32,
)
    requires
        n <= u32::MAX,
    ensures
        forall|i: int|
            0 <= i < snapshot_pages(s, wal, supplied, n).len() ==> {
                let q = (#[trigger] snapshot_pages(s, wal, supplied, n)[i]);
                &&& 1 <= q.pgno <= n
                &&& q.pgno != lock_page(s.header.page_size)
                &&& q.data == snapshot_data(s, wal, supplied, q.pgno)
            },
        1 <= p <= n && p != lock_page(s.header.page_size) ==> exists|i: int|
            0 <= i < snapshot_pages(s, wal, supplied, n).len() && (#[trigger] snapshot_pages(
                s,
                wal,
                supplied,
                n,
            )[i]).pgno == p,
    decreases n,
{
    if n > 0 {
        lemma_snapshot_pages(s, wal, supplied, (n - 1) as nat, p);
        let before = snapshot_pages(s, wal, supplied, (n - 1) as nat);
        let all = snapshot_pages(s, wal, supplied, n);
        if n != lock_page(s.header.page_size) {
            if 1 <= p < n && p != lock_page(s.header.page_size) {
                let i = choose|i: int| 0 <= i < before.len() && (#[trigger] before[i]).pgno == p;
                assert(all[i].pgno == p);
            }
            if p == n {
                assert(all[all.len() - 1].pgno == p);
            }
        }
    }
}

/// A snapshot records its transaction, and with it everything before: it carries
/// every page of the database, so it needs nothing to build on.
pub proof fn lemma_snapshot_records(
    h: History,
    page_size: u32,
    s: SnapshotStart,
    wal: Seq<u8>,
    supplied: Map<u32, Seq<u8>>,
    min: u64,
    txid: u64,
    trailer: Trailer,
)
    requires
        1 <= min <= txid,
        s.header.page_size == page_size,
        s.header.commit == h(txid).commit,
        forall|p: u32|
            1 <= p <= s.header.commit && p != lock_page(page_size) ==> #[trigger] snapshot_data(
                s,
                wal,
                supplied,
                p,
            ) == (h(txid).page)(p),
    ensures
        records(
            FileView {
                header: s.header,
                pages: page_views(snapshot_pages(s, wal, supplied, s.header.commit as nat)),
                trailer,
            },
            h,
            page_size,
            min,
            txid,
        ),
{
    let n = s.header.commit as nat;
    let ps = snapshot_pages(s, wal, supplied, n);
    let f = FileView { header: s.header, pages: page_views(ps), trailer };
    lemma_snapshot_pages(s, wal, supplied, n, 0);
    assert forall|i: int| 0 <= i < f.pages.len() implies {
        &&& 1 <= (#[trigger] f.pages[i]).0 <= f.header.commit
        &&& f.pages[i].0 != lock_page(page_size)
        &&& f.pages[i].1 == (h(txid).page)(f.pages[i].0)
    } by {
        assert(f.pages[i] == (ps[i].pgno, ps[i].data));
        assert(ps[i] == snapshot_pages(s, wal, supplied, n)[i]);
    }
    assert forall|p: u32|
        1 <= p <= f.header.commit && p != lock_page(page_size) && !carries(
            f.pages,
            p,
        ) implies #[trigger] unchanged(h, p, min - 1, txid) by {
        lemma_snapshot_pages(s, wal, supplied, n, p);
        let i = choose|i: int| 0 <= i < ps.len() && (#[trigger] ps[i]).pgno == p;
        assert(f.pages[i].0 == p);
    }
}

// --- Folding files together ---

/// The files can be merged: their indexes ascend and name the pages that the frames
/// hold. Every file that the encoder wrote is such a file.
pub open spec fn mergeable(content: spec_fn(FileKey) -> Seq<u8>, plan: Seq<FileKey>) -> bool {
    &&& sound_inputs(plan_contents(content, plan))
    &&& forall|k: int| 0 <= k < plan.len() ==> index_agrees(content(#[trigger] plan[k]))
}

/// A merge of a run of files succeeds, and records everything from the start of the
/// first to the end of the last.
proof fn lemma_merged_run_records(
    content: spec_fn(FileKey) -> Seq<u8>,
    h: History,
    page_size: u32,
    files: Seq<FileKey>,
    run: Seq<FileKey>,
    pos: u64,
    header: Header,
    trailer: Trailer,
)
    requires
        sound_history(h, page_size),
        plan_records(content, h, page_size, files),
        is_run(files, run, pos),
        run.len() > 0,
        mergeable(content, run),
        header.page_size == page_size,
        header.commit == h(run.last().2).commit,
        header_validity(header) is Ok,
        header.min_txid == 1 ==> run[0].1 == 1,
    ensures
        merge_of(plan_contents(content, run), header) is Ok,
        records(
            FileView {
                header,
                pages: page_views(merge_of(plan_contents(content, run), header)->Ok_0),
                trailer,
            },
            h,
            page_size,
            run[0].1,
            run.last().2,
        ),
{
    let bufs = plan_contents(content, run);
    let spans = run.map_values(|k: FileKey| (k.1, k.2));
    lemma_plan_of_files(content, h, page_size, files, run, pos);
    lemma_run_is_chained(files, run, pos);
    assert forall|k: int| 0 <= k < bufs.len() implies index_agrees(#[trigger] bufs[k]) && records(
        file_of(bufs[k])->Ok_0,
        h,
        page_size,
        spans[k].0,
        spans[k].1,
    ) by {
        assert(index_agrees(content(run[k])));
        assert(key_records(content, h, page_size, run[k]));
    }
    assert forall|k: int| 1 <= k < spans.len() implies (#[trigger] spans[k]).0 <= spans[k - 1].1 + 1
        && spans[k - 1].1 < spans[k].1 by {
        assert(extends(run[k], end_before(run, pos, k)));
    }
    assert(key_records(content, h, page_size, run[0]));
    assert(spans.last() == (run.last().1, run.last().2));
    lemma_recorded_merge_succeeds(bufs, h, page_size, spans, header);
    lemma_merge_records(bufs, h, page_size, spans, header, trailer);
}

/// Where a merge of a run of files takes their place, or stands beside them, a full
/// restore gives the same image.
proof fn lemma_folding_keeps_the_image(
    content: spec_fn(FileKey) -> Seq<u8>,
    h: History,
    page_size: u32,
    files: Seq<FileKey>,
    kept: Seq<FileKey>,
    inputs: Seq<FileKey>,
    key: FileKey,
)
    requires
        sound_history(h, page_size),
        plan_records(content, h, page_size, files),
        key_records(content, h, page_size, key),
        is_run(files, inputs, 0),
        inputs.len() > 0,
        key.1 == 1,
        key.2 == inputs.last().2,
        kept.contains(key),
        forall|f: FileKey| #[trigger] files.contains(f) && f.2 > key.2 ==> kept.contains(f),
        forall|f: FileKey| #[trigger] kept.contains(f) ==> f == key || files.contains(f),
        fits_in_memory(h, page_size, files),
    ensures
        same_restore(content, files, kept),
{
    lemma_keys_are_positive(content, h, page_size, files);
    lemma_folding_keeps_the_reach(files, kept, inputs, key);
    lemma_run_members(files, inputs, 0, inputs.len() - 1);
    lemma_same_reach_same_image(content, h, page_size, files, kept, inputs.last(), key);
}

/// No file that records a history starts before TXID 1.
proof fn lemma_keys_are_positive(
    content: spec_fn(FileKey) -> Seq<u8>,
    h: History,
    page_size: u32,
    files: Seq<FileKey>,
)
    requires
        plan_records(content, h, page_size, files),
    ensures
        forall|f: FileKey| #[trigger] files.contains(f) ==> f.1 >= 1,
{
    assert forall|f: FileKey| #[trigger] files.contains(f) implies f.1 >= 1 by {
        let i = choose|i: int| 0 <= i < files.len() && files[i] == f;
        assert(key_records(content, h, page_size, files[i]));
    }
}

/// Where a full restore from some of the files and from `key`, which ends where the file
/// `last` does, arrives at the same TXID, it gives the same image.
proof fn lemma_same_reach_same_image(
    content: spec_fn(FileKey) -> Seq<u8>,
    h: History,
    page_size: u32,
    files: Seq<FileKey>,
    kept: Seq<FileKey>,
    last: FileKey,
    key: FileKey,
)
    requires
        sound_history(h, page_size),
        plan_records(content, h, page_size, files),
        key_records(content, h, page_size, key),
        files.contains(last),
        key.2 == last.2,
        forall|f: FileKey| #[trigger] kept.contains(f) ==> f == key || files.contains(f),
        fits_in_memory(h, page_size, files),
        full_plan(files) is Ok,
        full_plan(kept) is Ok,
        reach(full_plan(kept)->Ok_0, 0) == reach(full_plan(files)->Ok_0, 0),
    ensures
        same_restore(content, files, kept),
{
    let before = full_plan(files)->Ok_0;
    let after = full_plan(kept)->Ok_0;
    assert(image_len(h(key.2).commit, page_size) <= usize::MAX) by {
        let i = choose|i: int| 0 <= i < files.len() && files[i] == last;
        assert(image_len(h(files[i].2).commit, page_size) <= usize::MAX);
    }
    assert(plan_records(content, h, page_size, kept)) by {
        assert forall|k: int| 0 <= k < kept.len() implies key_records(
            content,
            h,
            page_size,
            #[trigger] kept[k],
        ) by {
            assert(kept.contains(kept[k]));
            if kept[k] != key {
                let i = choose|i: int| 0 <= i < files.len() && files[i] == kept[k];
                assert(key_records(content, h, page_size, files[i]));
            }
        }
    }
    assert(fits_in_memory(h, page_size, kept)) by {
        assert forall|k: int| 0 <= k < kept.len() implies image_len(
            h((#[trigger] kept[k]).2).commit,
            page_size,
        ) <= usize::MAX by {
            assert(kept.contains(kept[k]));
            if kept[k] != key {
                let i = choose|i: int| 0 <= i < files.len() && files[i] == kept[k];
                assert(image_len(h(files[i].2).commit, page_size) <= usize::MAX);
            }
        }
    }
    lemma_restored_image(content, h, page_size, files);
    lemma_restored_image(content, h, page_size, kept);
    lemma_image_unique(
        applied_all(plan_contents(content, before), before.len())->Ok_0,
        applied_all(plan_contents(content, after), after.len())->Ok_0,
        h(reach(before, 0)),
        page_size,
    );
}

/// A full restore of what is listed gives the state that the plan ends at.
proof fn lemma_restored_image(
    content: spec_fn(FileKey) -> Seq<u8>,
    h: History,
    page_size: u32,
    files: Seq<FileKey>,
)
    requires
        sound_history(h, page_size),
        plan_records(content, h, page_size, files),
        fits_in_memory(h, page_size, files),
        full_plan(files) is Ok,
    ensures
        ({
            let plan = full_plan(files)->Ok_0;
            &&& applied_all(plan_contents(content, plan), plan.len()) is Ok
            &&& is_image(
                applied_all(plan_contents(content, plan), plan.len())->Ok_0,
                h(reach(plan, 0)),
                page_size,
            )
        }),
{
    let plan = full_plan(files)->Ok_0;
    lemma_cover_is_run(files, 0);
    lemma_run_is_chained(files, plan, 0);
    lemma_plan_of_files(content, h, page_size, files, plan, 0);
    assert forall|k: int| 0 <= k < plan.len() implies image_len(
        h((#[trigger] plan[k]).2).commit,
        page_size,
    ) <= usize::MAX by {
        lemma_run_members(files, plan, 0, k);
        let i = choose|i: int| 0 <= i < files.len() && files[i] == plan[k];
        assert(image_len(h(files[i].2).commit, page_size) <= usize::MAX);
    }
    lemma_full_restore_oldest_first(content, h, page_size, plan, plan.len());
}

/// A full restore from either listing succeeds and gives the same image.
pub open spec fn same_restore(
    content: spec_fn(FileKey) -> Seq<u8>,
    a: Seq<FileKey>,
    b: Seq<FileKey>,
) -> bool {
    &&& full_plan(a) is Ok
    &&& full_plan(b) is Ok
    &&& ({
        let p = full_plan(a)->Ok_0;
        let q = full_plan(b)->Ok_0;
        &&& applied_all(plan_contents(content, p), p.len()) is Ok
        &&& applied_all(plan_contents(content, p), p.len()) == applied_all(
            plan_contents(content, q),
            q.len(),
        )
    })
}

/// A snapshot changes nothing about what a restore gives: with the snapshot that
/// [`merge_snapshot`](crate::sync::compaction::merge_snapshot) makes of the chain on
/// the replica, which it always can, a full restore gives the same image. The chain
/// leads to the newest TXID without a gap.
pub proof fn lemma_snapshot_keeps_the_image(
    content: spec_fn(FileKey) -> Seq<u8>,
    h: History,
    page_size: u32,
    files: Seq<FileKey>,
    timestamp: i64,
)
    requires
        sound_history(h, page_size),
        plan_records(content, h, page_size, files),
        fits_in_memory(h, page_size, files),
        full_plan(files) is Ok,
        full_plan(files)->Ok_0.last().2 == head(files),
        mergeable(content, full_plan(files)->Ok_0),
        merged_snapshot(
            plan_contents(content, full_plan(files)->Ok_0),
            head(files),
            timestamp,
        ) matches Ok(m) ==> file_of(content((SNAPSHOT_LEVEL, 1u64, head(files)))) == Ok::<
            FileView,
            LtxError,
        >(written_view(m)),
    ensures
        merged_snapshot(
            plan_contents(content, full_plan(files)->Ok_0),
            head(files),
            timestamp,
        ) is Ok,
        same_restore(content, files, files.push((SNAPSHOT_LEVEL, 1u64, head(files)))),
{
    let plan = full_plan(files)->Ok_0;
    let key = (SNAPSHOT_LEVEL, 1u64, head(files));
    let kept = files.push(key);
    let bufs = plan_contents(content, plan);
    lemma_cover_is_run(files, 0);
    lemma_plan_of_files(content, h, page_size, files, plan, 0);
    assert(key_records(content, h, page_size, plan[plan.len() - 1]));
    assert(bufs.last() == content(plan[plan.len() - 1]));
    let header = merged_header(header_of(bufs.last())->Ok_0, head(files), timestamp);
    let ps = merge_of(bufs, header)->Ok_0;
    assert(key_records(content, h, page_size, plan[0]));
    lemma_merged_run_records(
        content,
        h,
        page_size,
        files,
        plan,
        0,
        header,
        file_trailer(header, ps, Checksum(0)),
    );
    assert(kept[kept.len() - 1] == key);
    assert forall|f: FileKey| #[trigger] files.contains(f) implies kept.contains(f) by {
        let i = choose|i: int| 0 <= i < files.len() && files[i] == f;
        assert(kept[i] == f);
    }
    assert forall|f: FileKey| #[trigger] kept.contains(f) implies f == key || files.contains(f) by {
        let i = choose|i: int| 0 <= i < kept.len() && kept[i] == f;
        if i < files.len() {
            assert(files[i] == f);
        }
    }
    lemma_folding_keeps_the_image(content, h, page_size, files, kept, plan, key);
}

/// Compacting the L0 chain into a base changes nothing about what a restore gives:
/// the files can be merged, and with the new base on the replica, and any of the
/// files that it supersedes deleted, a full restore gives the same image. The files
/// that are merged lead on from the start without a gap, and their headers name the
/// ranges that their keys do.
pub proof fn lemma_compact_keeps_the_image(
    content: spec_fn(FileKey) -> Seq<u8>,
    h: History,
    page_size: u32,
    files: Seq<FileKey>,
    kept: Seq<FileKey>,
    l0: Seq<LtxFileInfo>,
    l1: Seq<LtxFileInfo>,
)
    requires
        sound_history(h, page_size),
        plan_records(content, h, page_size, files),
        fits_in_memory(h, page_size, files),
        files_after(l0, base_reach(first_base(l1))).len() >= 2,
        ({
            let base = first_base(l1);
            let merge = files_after(l0, base_reach(base)).drop_last();
            let inputs = base_inputs(1, base, merge);
            let key = (1u32, 1u64, merge.last().max_txid);
            &&& is_run(files, inputs, 0)
            &&& mergeable(content, inputs)
            &&& forall|k: int|
                0 <= k < inputs.len() ==> header_names(
                    file_of(content(#[trigger] inputs[k]))->Ok_0.header,
                    inputs[k],
                )
            &&& compact_of(plan_contents(content, inputs)) matches Ok(m) ==> file_of(content(key))
                == Ok::<FileView, LtxError>(written_view(m))
            &&& kept.contains(key)
            &&& forall|f: FileKey| #[trigger]
                kept.contains(f) ==> f == key || files.contains(f)
            &&& forall|f: FileKey| #[trigger]
                files.contains(f) ==> kept.contains(f) || inputs.contains(f)
        }),
    ensures
        compact_of(
            plan_contents(
                content,
                base_inputs(
                    1,
                    first_base(l1),
                    files_after(l0, base_reach(first_base(l1))).drop_last(),
                ),
            ),
        ) is Ok,
        same_restore(content, files, kept),
{
    let base = first_base(l1);
    let merge = files_after(l0, base_reach(base)).drop_last();
    let inputs = base_inputs(1, base, merge);
    let key = (1u32, 1u64, merge.last().max_txid);
    let bufs = plan_contents(content, inputs);
    assert(merge.len() >= 1);
    assert(inputs.last() == (0u32, merge.last().min_txid, merge.last().max_txid)) by {
        assert(keys_at(0, merge).last() == (0u32, merge.last().min_txid, merge.last().max_txid));
    }
    lemma_plan_of_files(content, h, page_size, files, inputs, 0);
    assert(key_records(content, h, page_size, inputs[inputs.len() - 1]));
    assert(key_records(content, h, page_size, inputs[0]));
    lemma_run_is_chained(files, inputs, 0);
    assert(bufs.last() == content(inputs[inputs.len() - 1]));
    assert(bufs[0] == content(inputs[0]));
    assert(extends(inputs[0], end_before(inputs, 0, 0)));
    lemma_keys_chain(content, h, page_size, inputs, 0, inputs.len());
    let hs = headers_of(bufs, bufs.len())->Ok_0;
    let header = compacted_header(hs);
    let ps = merge_of(bufs, header)->Ok_0;
    assert(header_names(file_of(content(inputs[0]))->Ok_0.header, inputs[0]));
    assert(header_names(
        file_of(content(inputs[inputs.len() - 1]))->Ok_0.header,
        inputs[inputs.len() - 1],
    ));
    lemma_chain_ascends(inputs, 0, 0, inputs.len() - 1);
    lemma_merged_run_records(
        content,
        h,
        page_size,
        files,
        inputs,
        0,
        header,
        file_trailer(header, ps, Checksum(0)),
    );
    assert forall|f: FileKey| #[trigger] files.contains(f) && f.2 > key.2 implies kept.contains(
        f,
    ) by {
        if inputs.contains(f) {
            let i = choose|i: int| 0 <= i < inputs.len() && inputs[i] == f;
            lemma_chain_ascends(inputs, 0, i, inputs.len() - 1);
        }
    }
    lemma_folding_keeps_the_image(content, h, page_size, files, kept, inputs, key);
}

/// Compacting one level into the next changes nothing about what a restore gives: the
/// files past the destination's frontier can be merged, and with the merged file on
/// the replica a full restore gives the same image. The files that are merged follow
/// on one another without a gap, and their headers name the ranges that their keys do.
pub proof fn lemma_level_compaction_keeps_the_image(
    content: spec_fn(FileKey) -> Seq<u8>,
    h: History,
    page_size: u32,
    files: Seq<FileKey>,
    dst_level: u32,
    dst: Seq<LtxFileInfo>,
    src: Seq<LtxFileInfo>,
)
    requires
        sound_history(h, page_size),
        plan_records(content, h, page_size, files),
        fits_in_memory(h, page_size, files),
        full_plan(files) is Ok,
        0 < dst_level < SNAPSHOT_LEVEL,
        files_after(src, frontier(dst)).len() > 0,
        ({
            let merge = txid_sorted(files_after(src, frontier(dst)));
            let inputs = keys_at((dst_level - 1) as u32, merge);
            let key = (dst_level, merge.first().min_txid, merge.last().max_txid);
            &&& merge.first().min_txid >= 1
            &&& is_run(files, inputs, (merge.first().min_txid - 1) as u64)
            &&& mergeable(content, inputs)
            &&& forall|k: int|
                0 <= k < inputs.len() ==> header_names(
                    file_of(content(#[trigger] inputs[k]))->Ok_0.header,
                    inputs[k],
                )
            &&& compact_of(plan_contents(content, inputs)) matches Ok(m) ==> file_of(content(key))
                == Ok::<FileView, LtxError>(written_view(m))
        }),
    ensures
        ({
            let merge = txid_sorted(files_after(src, frontier(dst)));
            let inputs = keys_at((dst_level - 1) as u32, merge);
            let key = (dst_level, merge.first().min_txid, merge.last().max_txid);
            &&& compact_of(plan_contents(content, inputs)) is Ok
            &&& same_restore(content, files, files.push(key))
        }),
{
    let past = files_after(src, frontier(dst));
    let merge = txid_sorted(past);
    let inputs = keys_at((dst_level - 1) as u32, merge);
    let key = (dst_level, merge.first().min_txid, merge.last().max_txid);
    let pos = (merge.first().min_txid - 1) as u64;
    let bufs = plan_contents(content, inputs);
    lemma_txid_sorted(past);
    assert(inputs.len() == merge.len());
    let last = inputs[inputs.len() - 1];
    lemma_plan_of_files(content, h, page_size, files, inputs, pos);
    assert(key_records(content, h, page_size, inputs[0]));
    assert(key_records(content, h, page_size, last));
    lemma_run_is_chained(files, inputs, pos);
    assert(bufs[0] == content(inputs[0]));
    assert(bufs.last() == content(last));
    lemma_keys_chain(content, h, page_size, inputs, pos, inputs.len());
    let hs = headers_of(bufs, bufs.len())->Ok_0;
    let header = compacted_header(hs);
    let ps = merge_of(bufs, header)->Ok_0;
    assert(header_names(file_of(content(inputs[0]))->Ok_0.header, inputs[0]));
    assert(header_names(file_of(content(last))->Ok_0.header, last));
    lemma_chain_ascends(inputs, pos, 0, inputs.len() - 1);
    lemma_merged_run_records(
        content,
        h,
        page_size,
        files,
        inputs,
        pos,
        header,
        file_trailer(header, ps, Checksum(0)),
    );
    lemma_keys_are_positive(content, h, page_size, files);
    lemma_shortcut_keeps_the_reach(files, inputs, key, pos);
    lemma_run_members(files, inputs, pos, inputs.len() - 1);
    let kept = files.push(key);
    assert forall|f: FileKey| #[trigger] kept.contains(f) implies f == key || files.contains(f) by {
        let i = choose|i: int| 0 <= i < kept.len() && kept[i] == f;
        if i < files.len() {
            assert(files[i] == f);
        }
    }
    lemma_same_reach_same_image(content, h, page_size, files, kept, last, key);
}

/// The header states the range that the key names.
pub open spec fn header_names(header: Header, key: FileKey) -> bool {
    header.min_txid == key.1 && header.max_txid == key.2
}

/// What a file that was written with this header and these pages reads back as.
pub open spec fn written_view(m: (Header, Seq<PageRec>)) -> FileView {
    FileView {
        header: m.0,
        pages: page_views(m.1),
        trailer: file_trailer(m.0, m.1, Checksum(0)),
    }
}

/// The headers of a chain of files can be read, and chain.
proof fn lemma_keys_chain(
    content: spec_fn(FileKey) -> Seq<u8>,
    h: History,
    page_size: u32,
    inputs: Seq<FileKey>,
    pos: u64,
    n: nat,
)
    requires
        n <= inputs.len(),
        chained(inputs, pos),
        plan_records(content, h, page_size, inputs),
        forall|k: int|
            0 <= k < inputs.len() ==> header_names(
                file_of(content(#[trigger] inputs[k]))->Ok_0.header,
                inputs[k],
            ),
    ensures
        headers_of(plan_contents(content, inputs), n) is Ok,
        ({
            let hs = headers_of(plan_contents(content, inputs), n)->Ok_0;
            &&& hs.len() == n
            &&& forall|k: int|
                0 <= k < n ==> (#[trigger] hs[k]) == file_of(content(inputs[k]))->Ok_0.header
            &&& forall|m: nat| m <= n ==> #[trigger] chain_of(hs, m) is Ok
        }),
    decreases n,
{
    let bufs = plan_contents(content, inputs);
    if n > 0 {
        lemma_keys_chain(content, h, page_size, inputs, pos, (n - 1) as nat);
        assert(key_records(content, h, page_size, inputs[n - 1]));
        assert(bufs[n - 1] == content(inputs[n - 1]));
        let before = headers_of(bufs, (n - 1) as nat)->Ok_0;
        let hs = headers_of(bufs, n)->Ok_0;
        assert forall|k: int| 0 <= k < n implies (#[trigger] hs[k]) == file_of(
            content(inputs[k]),
        )->Ok_0.header by {
            if k < n - 1 {
                assert(hs[k] == before[k]);
            }
        }
        assert forall|m: nat| m <= n implies #[trigger] chain_of(hs, m) is Ok by {
            lemma_header_chain(content, h, page_size, inputs, pos, hs, m);
        }
    }
}

proof fn lemma_header_chain(
    content: spec_fn(FileKey) -> Seq<u8>,
    h: History,
    page_size: u32,
    inputs: Seq<FileKey>,
    pos: u64,
    hs: Seq<Header>,
    m: nat,
)
    requires
        m <= hs.len() <= inputs.len(),
        chained(inputs, pos),
        plan_records(content, h, page_size, inputs),
        forall|k: int|
            0 <= k < inputs.len() ==> header_names(
                file_of(content(#[trigger] inputs[k]))->Ok_0.header,
                inputs[k],
            ),
        forall|k: int|
            0 <= k < hs.len() ==> (#[trigger] hs[k]) == file_of(content(inputs[k]))->Ok_0.header,
    ensures
        chain_of(hs, m) is Ok,
    decreases m,
{
    if m > 1 {
        lemma_header_chain(content, h, page_size, inputs, pos, hs, (m - 1) as nat);
        assert(key_records(content, h, page_size, inputs[0]));
        assert(key_records(content, h, page_size, inputs[m - 1]));
        assert(header_names(file_of(content(inputs[m - 1]))->Ok_0.header, inputs[m - 1]));
        assert(header_names(file_of(content(inputs[m - 2]))->Ok_0.header, inputs[m - 2]));
        assert(extends(inputs[m - 1], end_before(inputs, pos, m - 1)));
        assert(hs[m - 1].page_size == hs[0].page_size);
    }
}

proof fn lemma_chain_ascends(run: Seq<FileKey>, pos: u64, i: int, j: int)
    requires
        chained(run, pos),
        0 <= i <= j < run.len(),
    ensures
        run[i].2 <= run[j].2,
    decreases j - i,
{
    if i < j {
        lemma_chain_ascends(run, pos, i, j - 1);
        assert(extends(run[j], end_before(run, pos, j)));
    }
}

// --- Replaying the log ---

/// The database after the first `n` frames of the log were copied into it in their
/// order, as a checkpoint does: each frame replaces its page, and a commit sets the
/// size.
pub open spec fn replayed(before: DbState, fs: Seq<FrameView>, n: nat) -> DbState
    decreases n,
{
    if n == 0 {
        before
    } else {
        let s = replayed(before, fs, (n - 1) as nat);
        let f = fs[n - 1];
        DbState {
            commit: if f.commit != 0 {
                f.commit
            } else {
                s.commit
            },
            page: |p: u32|
                if p == f.pgno {
                    f.data
                } else {
                    (s.page)(p)
                },
        }
    }
}

/// The data that the committed frame at `offset` of the log holds for page `p` is
/// `d`.
pub open spec fn frame_holds(fs: Seq<FrameView>, n: nat, p: u32, offset: u64, d: Seq<u8>) -> bool {
    exists|i: int|
        0 <= i < n && (#[trigger] fs[i]).pgno == p && fs[i].offset == offset && fs[i].data == d
}

proof fn lemma_replayed_page(before: DbState, fs: Seq<FrameView>, commit: u32, p: u32, n: nat)
    requires
        n <= fs.len(),
        p <= commit,
    ensures
        ({
            let m = newest_offsets(fs.take(n as int), commit);
            let d = (replayed(before, fs, n).page)(p);
            if m.contains_key(p) {
                frame_holds(fs, n, p, m[p], d)
            } else {
                d == (before.page)(p)
            }
        }),
    decreases n,
{
    if n > 0 {
        lemma_replayed_page(before, fs, commit, p, (n - 1) as nat);
        let all = fs.take(n as int);
        assert(all.drop_last() =~= fs.take(n - 1));
        assert(all.last() == fs[n - 1]);
        let m = newest_offsets(all, commit);
        let front = newest_offsets(fs.take(n - 1), commit);
        if fs[n - 1].pgno != p && front.contains_key(p) {
            let d = (replayed(before, fs, (n - 1) as nat).page)(p);
            let i = choose|i: int|
                0 <= i < n - 1 && (#[trigger] fs[i]).pgno == p && fs[i].offset == front[p]
                    && fs[i].data == d;
            assert(fs[i].pgno == p && fs[i].offset == m[p]);
        }
    }
}

/// Laying the page map over the database is replaying the committed log: the size is
/// the one last committed, a page of the map is as its frame holds it, and every
/// other page stays as it was.
pub proof fn lemma_page_map_replays_the_log(before: DbState, fs: Seq<FrameView>, p: u32)
    requires
        committed(fs) > 0,
        p <= final_commit(fs),
    ensures
        ({
            let after = replayed(before, fs, committed(fs));
            let map = committed_pages(fs);
            &&& after.commit == final_commit(fs)
            &&& if map.contains_key(p) {
                frame_holds(fs, committed(fs), p, map[p], (after.page)(p))
            } else {
                (after.page)(p) == (before.page)(p)
            }
        }),
{
    lemma_committed_bound(fs);
    lemma_replayed_page(before, fs, final_commit(fs), p, committed(fs));
}

} // verus!
